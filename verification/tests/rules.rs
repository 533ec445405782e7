use hecs::World;
use spark::ecs::{set_parent, Name, Tag};
use spark::rules::{chance, end_tick, hit_partner, partner_of, queue_destroy, queue_tagged, CollisionPair, RuleRuntime};

#[test]
fn chance_is_deterministic_and_bounded() {
    for seed in [0u64, 1, 2, 42, u64::MAX] {
        let a = chance(seed);
        assert_eq!(a, chance(seed));
        assert!(a < 10_000);
    }
    // seed | 1 makes 0 and 1 the same draw.
    assert_eq!(chance(0), chance(1));
    let mut x: u64 = 7;
    x ^= x << 13;
    x ^= x >> 7;
    x ^= x << 17;
    assert_eq!(chance(7), x % 10_000);
}

#[test]
fn partners_and_tag_filters() {
    let mut w = World::default();
    let coin = w.spawn((Tag("coin".into()),));
    let player = w.spawn(());
    let wall = w.spawn(());
    let pairs = [
        CollisionPair { a: wall, b: coin, started: false },
        CollisionPair { a: player, b: coin, started: true },
    ];
    assert_eq!(partner_of(&pairs, player), Some(coin));
    assert_eq!(partner_of(&pairs, coin), Some(wall));
    assert_eq!(partner_of(&pairs, w.spawn(())), None);
    assert!(hit_partner(&w, &pairs, player, &Some("coin".into()), true));
    assert!(!hit_partner(&w, &pairs, player, &Some("enemy".into()), true));
    assert!(!hit_partner(&w, &pairs, player, &None, false));
    assert!(hit_partner(&w, &pairs, coin, &None, false));
    // The wall carries no tag.
    assert!(!hit_partner(&w, &pairs, coin, &Some("coin".into()), false));
}

#[test]
fn destroy_queue_holds_each_entity_once() {
    let mut w = World::default();
    let a = w.spawn((Tag("enemy".into()),));
    let b = w.spawn((Tag("enemy".into()),));
    let c = w.spawn((Tag("coin".into()),));
    let mut q = Vec::new();
    queue_destroy(&mut q, a);
    queue_destroy(&mut q, a);
    assert_eq!(q, vec![a]);
    queue_tagged(&w, "enemy", &mut q);
    assert_eq!(q, vec![a, b]);
    queue_tagged(&w, "coin", &mut q);
    assert_eq!(q, vec![a, b, c]);
}

#[test]
fn runtime_bookkeeping() {
    let mut w = World::default();
    let e = w.spawn(());
    let mut rt = RuleRuntime::new();
    assert!(rt.is_fresh(e));
    end_tick(&mut rt, &mut w, vec![], vec![], vec![e]);
    assert!(!rt.is_fresh(e));
    rt.mark_fresh(e);
    assert!(rt.is_fresh(e));
    end_tick(&mut rt, &mut w, vec![], vec![], vec![e]);
    assert!(!rt.has_fired(e, 0));
    rt.record_fired(e, 0);
    rt.record_fired(e, 0);
    assert!(rt.has_fired(e, 0));
    assert!(!rt.has_fired(e, 1));
    rt.send_message("tick".to_string());
    assert!(rt.message_arrived("tick"));
    rt.deliver(vec!["boom".to_string()]);
    assert!(!rt.message_arrived("tick"));
    assert!(rt.message_arrived("boom"));
    rt.quit_requested = true;
    rt.clear();
    assert!(rt.is_fresh(e) && !rt.has_fired(e, 0) && !rt.message_arrived("boom"));
    assert!(!rt.quit_requested && rt.load_scene_request.is_none());
}

#[test]
fn end_of_tick_despawns_delivers_and_records_start_passes() {
    let mut w = World::default();
    let boss = w.spawn((Name("boss".into()),));
    let minion = w.spawn((Name("minion".into()),));
    let spawned = w.spawn((Name("coin".into()),));
    let doomed_spawn = w.spawn((Name("doomed".into()),));
    set_parent(&mut w, minion, Some(boss));
    let mut rt = RuleRuntime::new();
    rt.send_message("old".to_string());
    end_tick(
        &mut rt,
        &mut w,
        vec![boss, doomed_spawn, boss],
        vec!["hit".to_string()],
        vec![boss, minion],
    );
    assert!(!w.contains(boss) && !w.contains(minion) && !w.contains(doomed_spawn));
    assert!(w.contains(spawned));
    assert!(rt.message_arrived("hit"));
    assert!(!rt.message_arrived("old"));
    assert!(rt.is_fresh(spawned));
    assert!(!rt.is_fresh(boss) && !rt.is_fresh(minion));
}

#[test]
fn entering_play_marks_every_live_entity_fresh() {
    let mut w = World::default();
    let a = w.spawn((Name("a".into()),));
    let b = w.spawn((Tag("t".into()),));
    let gone = w.spawn(());
    w.despawn(gone).unwrap();
    let mut rt = RuleRuntime::new();
    rt.record_fired(a, 3);
    end_tick(&mut rt, &mut w, vec![], vec![], vec![a, b, gone]);
    assert!(!rt.is_fresh(a) && !rt.is_fresh(b) && !rt.is_fresh(gone));
    rt.mark_all_fresh(&w);
    assert!(rt.is_fresh(a) && rt.is_fresh(b));
    assert!(!rt.is_fresh(gone));
    assert!(rt.has_fired(a, 3));
}
