use hecs::World;
use spark::ecs::{
    descendants_checked, despawn_recursive_checked, hierarchy_is_acyclic,
    children, descendants, despawn_recursive, entity_label, find_by_name, find_by_tag, roots,
    reparent_checked, set_parent, Children, Name, Parent, Registry, Tag,
};

#[test]
fn hierarchy_ops() {
    let mut w = World::default();
    let a = w.spawn((Name("a".into()),));
    let b = w.spawn((Name("b".into()),));
    set_parent(&mut w, b, Some(a));
    assert_eq!(children(&w, a), vec![b]);
    assert_eq!(descendants(&w, a), vec![b]);
    set_parent(&mut w, b, None);
    assert!(children(&w, a).is_empty());
    set_parent(&mut w, b, Some(a));
    despawn_recursive(&mut w, a);
    assert!(w.get::<&Name>(b).is_err());
}

#[test]
fn reparent_moves_child_between_parents() {
    let mut w = World::default();
    let a = w.spawn((Name("a".into()),));
    let b = w.spawn((Name("b".into()),));
    let c = w.spawn((Name("c".into()),));
    set_parent(&mut w, c, Some(a));
    set_parent(&mut w, c, Some(b));
    assert!(children(&w, a).is_empty());
    assert_eq!(children(&w, b), vec![c]);
    assert_eq!(w.get::<&Parent>(c).unwrap().0, b);
    // Attaching twice keeps a single link.
    set_parent(&mut w, c, Some(b));
    assert_eq!(w.get::<&Children>(b).unwrap().0, vec![c]);
}

#[test]
fn descendants_are_depth_first_and_despawn_takes_the_subtree() {
    let mut w = World::default();
    let root = w.spawn((Name("root".into()),));
    let x = w.spawn((Name("x".into()),));
    let y = w.spawn((Name("y".into()),));
    let z = w.spawn((Name("z".into()),));
    let other = w.spawn((Name("other".into()),));
    set_parent(&mut w, x, Some(root));
    set_parent(&mut w, y, Some(x));
    set_parent(&mut w, z, Some(root));
    assert_eq!(descendants(&w, root), vec![z, x, y]);
    despawn_recursive(&mut w, root);
    for e in [root, x, y, z] {
        assert!(!w.contains(e));
    }
    assert!(w.contains(other));
}

#[test]
fn lookups_by_name_and_tag() {
    let mut w = World::default();
    let p = w.spawn((Name("Player".into()), Tag("hero".into())));
    let _c = w.spawn((Name("Coin".into()), Tag("coin".into())));
    assert_eq!(find_by_name(&w, "Player"), Some(p));
    assert_eq!(find_by_name(&w, "player"), None);
    assert_eq!(find_by_tag(&w, "hero"), Some(p));
    assert!(find_by_tag(&w, "enemy").is_none());
}

#[test]
fn roots_are_parentless_in_spawn_order() {
    let mut w = World::default();
    let a = w.spawn((Name("a".into()),));
    let b = w.spawn((Name("b".into()),));
    let c = w.spawn((Name("c".into()),));
    set_parent(&mut w, b, Some(a));
    assert_eq!(roots(&w), vec![a, c]);
}

#[test]
fn entity_label_falls_back_to_id() {
    let mut w = World::default();
    let named = w.spawn((Name("Sun".into()),));
    let bare = w.spawn((Tag("t".into()),));
    assert_eq!(entity_label(&w, named), "Sun");
    assert_eq!(entity_label(&w, bare), format!("Entity {}", bare.to_bits().get()));
}

#[test]
fn registry_register_is_idempotent() {
    let mut reg: Registry<u32> = Registry::new();
    assert!(reg.register("Sprite", 1));
    assert!(reg.register("Camera", 2));
    assert!(!reg.register("Sprite", 3));
    assert_eq!(reg.len(), 2);
    assert_eq!(reg.get("Sprite"), Some(&1));
    assert_eq!(reg.get("Light"), None);
    assert_eq!(reg.names(), vec!["Sprite".to_string(), "Camera".to_string()]);
    assert_eq!(reg.name_at(1), "Camera");
    assert_eq!(*reg.entry_at(1), 2);
}

#[test]
fn cycles_are_detected() {
    let mut w = World::default();
    let a = w.spawn((Name("a".into()),));
    let b = w.spawn((Name("b".into()),));
    assert!(hierarchy_is_acyclic(&mut w));
    set_parent(&mut w, b, Some(a));
    assert!(hierarchy_is_acyclic(&mut w));
    assert_eq!(descendants_checked(&mut w, a), Some(vec![b]));
    // Closing the loop a -> b -> a.
    set_parent(&mut w, a, Some(b));
    assert!(!hierarchy_is_acyclic(&mut w));
    assert_eq!(descendants_checked(&mut w, a), None);
    assert!(!despawn_recursive_checked(&mut w, a));
    assert!(w.contains(a) && w.contains(b));
    // Detaching breaks the cycle again.
    set_parent(&mut w, a, None);
    assert!(hierarchy_is_acyclic(&mut w));
    assert!(despawn_recursive_checked(&mut w, b));
    assert!(!w.contains(b) && w.contains(a));
}

#[test]
fn reparent_rejects_cycles() {
    let mut w = World::new();
    let a = w.spawn((Name("A".into()),));
    let b = w.spawn((Name("B".into()),));
    set_parent(&mut w, b, Some(a));
    // Parenting A under its own child B must be refused.
    assert!(!reparent_checked(&mut w, a, Some(b)));
    assert_ne!(w.get::<&Parent>(a).ok().map(|p| p.0), Some(b), "cycle reparent must be rejected");
    assert!(!reparent_checked(&mut w, a, Some(a)));
    // A legal move goes through and keeps both sides linked.
    let c = w.spawn((Name("C".into()),));
    assert!(reparent_checked(&mut w, b, Some(c)));
    assert_eq!(w.get::<&Parent>(b).unwrap().0, c);
    assert_eq!(children(&w, c), vec![b]);
    assert!(children(&w, a).is_empty());
    assert!(reparent_checked(&mut w, b, None));
    assert!(w.get::<&Parent>(b).is_err());
    assert!(children(&w, c).is_empty());
}

#[test]
fn reserved_entities_are_live_but_not_listed_until_flushed() {
    let mut w = World::new();
    let a = w.spawn((Name("A".into()),));
    let r = w.reserve_entity();
    assert!(w.contains(r));
    assert_eq!(roots(&w), vec![a]);
    assert!(hierarchy_is_acyclic(&mut w));
    assert_eq!(roots(&w).len(), 2);
    assert!(roots(&w).contains(&r));
}
