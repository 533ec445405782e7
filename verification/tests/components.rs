use spark::components::{register_core, BodyKind, Visible};
use spark::ecs::Registry;

#[test]
fn core_components_register_in_order() {
    let mut reg: Registry<String> = Registry::new();
    reg.register("Player", "game".to_string());
    register_core(&mut reg, |n: &str| format!("entry:{n}"));
    let names = reg.names();
    assert_eq!(
        names,
        vec![
            "Player", "Transform", "Visible", "Sprite", "MeshRenderer", "Camera", "Light",
            "RigidBody", "Collider", "Music", "Rules", "Vars"
        ]
        .into_iter()
        .map(String::from)
        .collect::<Vec<_>>()
    );
    assert_eq!(reg.get("Camera"), Some(&"entry:Camera".to_string()));
    // Registering again changes nothing.
    register_core(&mut reg, |_n: &str| "other".to_string());
    assert_eq!(reg.len(), 12);
    assert_eq!(reg.get("Vars"), Some(&"entry:Vars".to_string()));
}

#[test]
fn component_defaults() {
    assert!(Visible::default().0);
    assert_eq!(BodyKind::default(), BodyKind::Static);
}
