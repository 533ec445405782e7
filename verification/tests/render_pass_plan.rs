//! The render frame graph's resource ordering, checked on CPU.

use spark::render::{plan_frame, plan_frame_for, validate_pass_plan, PassPlan};

/// Sun + mesh (the Add-Cube state): the shadow pass must run, write the
/// map, and sample *nothing*; the main pass samples it strictly afterwards.
#[test]
fn shadow_pass_writes_map_and_samples_nothing() {
    let plan = plan_frame(true, true);
    assert_eq!(plan[0].label, "spark.shadow");
    assert_eq!(plan[0].writes_depth, Some("spark.shadow"));
    assert!(
        plan[0].samples.is_empty(),
        "shadow pass must not sample the shadow map"
    );
    validate_pass_plan(&plan).expect("sun+mesh frame plan is valid");
}

/// Scenes without a directional light or without meshes skip the shadow
/// pass; the remaining plan must still be valid.
#[test]
fn plan_is_valid_without_shadow_pass() {
    for (dir, meshes) in [(false, true), (true, false), (false, false)] {
        let plan = plan_frame(dir, meshes);
        assert!(
            plan.iter().all(|p| p.label != "spark.shadow"),
            "shadow pass must be skipped for (dir={dir}, meshes={meshes})"
        );
        validate_pass_plan(&plan).expect("plan without shadow pass is valid");
    }
}

/// A pass that writes a texture as depth AND samples it in the same usage
/// scope must be rejected.
#[test]
fn same_pass_write_and_sample_is_rejected() {
    let plan = [PassPlan {
        label: "spark.shadow",
        writes_depth: Some("spark.shadow"),
        samples: &["spark.shadow"],
    }];
    let err = validate_pass_plan(&plan).expect_err("same-pass write+sample must fail");
    assert!(
        err.contains("spark.shadow"),
        "error should name the texture: {err}"
    );
}

/// Sampling the shadow map in a pass ordered *before* the shadow pass must
/// be rejected.
#[test]
fn sample_before_write_is_rejected() {
    let plan = [
        PassPlan {
            label: "spark.main",
            writes_depth: Some("spark.depth"),
            samples: &["spark.shadow"],
        },
        PassPlan {
            label: "spark.shadow",
            writes_depth: Some("spark.shadow"),
            samples: &[],
        },
    ];
    assert!(
        validate_pass_plan(&plan).is_err(),
        "sampling the shadow map before the shadow pass must fail"
    );
}

#[test]
fn full_frame_plan_with_overlay_is_shadow_main_overlay() {
    let plan = plan_frame(true, true);
    let labels: Vec<&str> = plan.iter().map(|p| p.label).collect();
    assert_eq!(labels, vec!["spark.shadow", "spark.main", "spark.egui"]);
    assert_eq!(plan[1].writes_depth, Some("spark.depth"));
    assert_eq!(plan[1].samples, &["spark.shadow"]);
    let plan = plan_frame(false, true);
    let labels: Vec<&str> = plan.iter().map(|p| p.label).collect();
    assert_eq!(labels, vec!["spark.main", "spark.egui"]);
}

#[test]
fn empty_plan_is_valid() {
    let plan: [PassPlan; 0] = [];
    assert!(validate_pass_plan(&plan).is_ok());
}

#[test]
fn overlay_pass_only_when_overlay_output_is_drawn() {
    let labels = |p: Vec<PassPlan>| p.iter().map(|x| x.label).collect::<Vec<&str>>();
    assert_eq!(labels(plan_frame_for(true, true, false)), vec!["spark.shadow", "spark.main"]);
    assert_eq!(labels(plan_frame_for(false, false, false)), vec!["spark.main"]);
    assert_eq!(labels(plan_frame_for(false, true, true)), vec!["spark.main", "spark.egui"]);
    for (d, m, o) in [(true, true, false), (false, true, false), (true, false, true)] {
        validate_pass_plan(&plan_frame_for(d, m, o)).expect("plan is valid");
    }
}
