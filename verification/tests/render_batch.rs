use spark::components::{set_visible, Visible};
use spark::render::drawn_entities;
use spark::render::{batch, pick_lights, MAX_POINT_LIGHTS};

#[test]
fn sprites_batch_by_image_in_first_seen_order() {
    let items = vec![
        ("b.png".to_string(), 1),
        ("a.png".to_string(), 2),
        ("b.png".to_string(), 3),
        ("c.png".to_string(), 4),
        ("a.png".to_string(), 5),
    ];
    let groups = batch(items);
    assert_eq!(
        groups,
        vec![
            ("b.png".to_string(), vec![1, 3]),
            ("a.png".to_string(), vec![2, 5]),
            ("c.png".to_string(), vec![4]),
        ]
    );
}

#[test]
fn meshes_batch_by_mesh_and_texture() {
    let key = |m: &str, t: &str| (m.to_string(), t.to_string());
    let items = vec![
        (key("cube", ""), 'a'),
        (key("cube", "wood.png"), 'b'),
        (key("cube", ""), 'c'),
        (key("sphere", ""), 'd'),
    ];
    let groups = batch(items);
    assert_eq!(groups.len(), 3);
    assert_eq!(groups[0], (key("cube", ""), vec!['a', 'c']));
    assert_eq!(groups[1], (key("cube", "wood.png"), vec!['b']));
    assert_eq!(groups[2], (key("sphere", ""), vec!['d']));
}

#[test]
fn empty_batch() {
    let items: Vec<(String, u8)> = Vec::new();
    assert!(batch(items).is_empty());
}

#[test]
fn first_directional_and_capped_points() {
    let (dir, points) = pick_lights(&[false, true, false, true]);
    assert_eq!(dir, Some(1));
    assert_eq!(points, vec![0, 2]);
    let (dir, points) = pick_lights(&[false; 20]);
    assert_eq!(dir, None);
    assert_eq!(points.len(), MAX_POINT_LIGHTS);
    assert_eq!(points, (0..16).collect::<Vec<usize>>());
    assert_eq!(pick_lights(&[]), (None, vec![]));
}

#[test]
fn hidden_entities_and_cameraless_frames_draw_nothing() {
    let mut world = hecs::World::default();
    let a = world.spawn(());
    let b = world.spawn((Visible(false),));
    let c = world.spawn((Visible(true),));
    assert_eq!(drawn_entities(&world, true, &[a, b, c]), vec![a, c]);
    assert!(drawn_entities(&world, false, &[a, b, c]).is_empty());
    set_visible(&mut world, a, false);
    assert_eq!(drawn_entities(&world, true, &[a, b, c]), vec![c]);
}

#[test]
fn light_selection_keeps_the_first_sun_and_sixteen_points() {
    let mut lights = vec![false; 18];
    lights[3] = true;
    lights[7] = true;
    let (dir, points) = pick_lights(&lights);
    assert_eq!(dir, Some(3));
    assert_eq!(points.len(), MAX_POINT_LIGHTS);
    assert_eq!(points[0], 0);
    assert_eq!(points[3], 4);
    assert_eq!(*points.last().unwrap(), 17);
}
