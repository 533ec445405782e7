use hecs::{Entity, World};
use spark::ecs::Tag;
use spark::input::{Input, Key, NamedKey};
use spark::rules::{
    end_tick, end_tick_checked, rules_pass, run_action, run_rules, set_partner, ActionCheck, ActionOutcome, CollisionPair, CondCheck,
    EventCheck, RuleCheck, RuleHost, RuleRuntime,
};
use spark::components::{is_shown, Visible};
use std::collections::HashMap;

/// A simulation whose host-side tests answer from fixed tables and whose
/// own actions are recorded as (rule, action index).
struct Sim {
    timer_due: bool,
    host_conds: bool,
    ran: Vec<(u32, usize)>,
}

impl RuleHost for Sim {
    fn event(&mut self, _rule: u32) -> Option<bool> {
        Some(self.timer_due)
    }
    fn condition(&mut self, _rule: u32, _cond: usize) -> bool {
        self.host_conds
    }
    fn action(&mut self, _world: &mut World, rule: u32, action: usize) {
        self.ran.push((rule, action));
    }
}

fn sim() -> Sim {
    Sim { timer_due: false, host_conds: true, ran: vec![] }
}

fn rule(on: EventCheck, when: Vec<CondCheck>) -> RuleCheck {
    RuleCheck { on, when, run: vec![ActionCheck::Host], enabled: true }
}

fn outcome(entity: Entity) -> ActionOutcome {
    ActionOutcome { entity, other: None, destroy_queue: vec![], messages_out: vec![], load_scene: None, quit: false }
}

#[test]
fn collision_rule_fires_for_tagged_partner() {
    let mut world = World::default();
    let coin = world.spawn((Tag("coin".into()),));
    let player = world.spawn(());
    let mut host = sim();
    let rules = vec![
        rule(EventCheck::CollisionEnter(Some("coin".into())), vec![]),
        rule(EventCheck::CollisionEnter(Some("enemy".into())), vec![]),
        rule(EventCheck::CollisionExit(None), vec![]),
    ];
    let pairs = [CollisionPair { a: player, b: coin, started: true }];
    let mut rt = RuleRuntime::new();
    let mut out = outcome(player);
    let fired = run_rules(&mut rt, &mut host, &mut world, &mut out, &rules, &pairs, &Input::new());
    assert_eq!(fired, vec![0]);
    assert_eq!(host.ran, vec![(0, 0)]);
    assert!(rt.has_fired(player, 0) && !rt.has_fired(player, 1));
}

#[test]
fn once_rules_fire_once() {
    let mut world = World::default();
    let e = world.spawn(());
    let mut host = sim();
    let rules = vec![rule(EventCheck::Update, vec![CondCheck::Once]), rule(EventCheck::Update, vec![])];
    let mut rt = RuleRuntime::new();
    let input = Input::new();
    let mut out = outcome(e);
    assert_eq!(run_rules(&mut rt, &mut host, &mut world, &mut out, &rules, &[], &input), vec![0, 1]);
    assert_eq!(run_rules(&mut rt, &mut host, &mut world, &mut out, &rules, &[], &input), vec![1]);
}

#[test]
fn key_and_message_events_and_conditions() {
    let mut world = World::default();
    let e = world.spawn(());
    let mut host = sim();
    let mut input = Input::new();
    input.on_key(Key::Named(NamedKey::Space), true);
    let rules = vec![
        rule(EventCheck::KeyPressed("Space".into()), vec![CondCheck::KeyNotHeld("Space".into())]),
        rule(EventCheck::KeyPressed("Space".into()), vec![CondCheck::KeyHeld("Space".into())]),
        rule(EventCheck::Message("tick".into()), vec![]),
        rule(EventCheck::Start, vec![]),
    ];
    let mut rt = RuleRuntime::new();
    rt.send_message("tick".to_string());
    let mut out = outcome(e);
    assert_eq!(run_rules(&mut rt, &mut host, &mut world, &mut out, &rules, &[], &input), vec![1, 2, 3]);
}

#[test]
fn host_decides_timers_and_conditions() {
    let mut world = World::default();
    let e = world.spawn(());
    let mut host = Sim { timer_due: false, host_conds: false, ran: vec![] };
    let rules = vec![
        rule(EventCheck::Host, vec![]),
        rule(EventCheck::Update, vec![CondCheck::Host]),
        RuleCheck { on: EventCheck::Update, when: vec![], run: vec![ActionCheck::Host], enabled: false },
    ];
    let mut rt = RuleRuntime::new();
    let input = Input::new();
    let mut out = outcome(e);
    assert!(run_rules(&mut rt, &mut host, &mut world, &mut out, &rules, &[], &input).is_empty());
    host.timer_due = true;
    host.host_conds = true;
    assert_eq!(run_rules(&mut rt, &mut host, &mut world, &mut out, &rules, &[], &input), vec![0, 1]);
}

/// The simulation-side actions of a small game: global variables and a
/// timer event.
struct Game {
    globals: HashMap<String, f64>,
    /// Per rule and action index: (variable, value, add instead of set).
    vars: HashMap<(u32, usize), (&'static str, f64, bool)>,
    timer: Option<(f32, f32, bool)>,
    dt: f32,
}

impl RuleHost for Game {
    fn event(&mut self, _rule: u32) -> Option<bool> {
        let dt = self.dt;
        let (secs, t, done) = self.timer.as_mut()?;
        if *done {
            return Some(false);
        }
        *t += dt;
        if *t >= *secs {
            *done = true;
            Some(true)
        } else {
            Some(false)
        }
    }
    fn condition(&mut self, _rule: u32, _cond: usize) -> bool {
        true
    }
    fn action(&mut self, _world: &mut World, rule: u32, action: usize) {
        if let Some((name, v, add)) = self.vars.get(&(rule, action)).copied() {
            let slot = self.globals.entry(name.to_string()).or_insert(0.0);
            if add {
                *slot += v;
            } else {
                *slot = v;
            }
        }
    }
}

#[test]
fn collision_destroy_other() {
    let mut world = World::default();
    let coin = world.spawn((Tag("coin".into()),));
    let player = world.spawn(());
    let rules = vec![RuleCheck {
        on: EventCheck::CollisionEnter(Some("coin".to_string())),
        when: vec![],
        run: vec![ActionCheck::DestroyOther, ActionCheck::Host],
        enabled: true,
    }];
    let mut game = Game {
        globals: HashMap::new(),
        vars: [((0, 1), ("coins", 1.0, true))].into_iter().collect(),
        timer: None,
        dt: 0.016,
    };
    let pairs = vec![CollisionPair { a: player, b: coin, started: true }];
    let mut rt = RuleRuntime::new();
    let mut out = outcome(player);
    set_partner(&mut out, &pairs);
    run_rules(&mut rt, &mut game, &mut world, &mut out, &rules, &pairs, &Input::new());
    assert_eq!(out.destroy_queue, vec![coin]);
    end_tick(&mut rt, &mut world, out.destroy_queue, vec![], vec![player]);
    assert!(world.get::<&Tag>(coin).is_err());
    assert_eq!(game.globals["coins"], 1.0);
}

#[test]
fn timer_and_message() {
    let mut world = World::default();
    let e = world.spawn(());
    let rules = vec![
        RuleCheck {
            on: EventCheck::Host,
            when: vec![],
            run: vec![ActionCheck::SendMessage("tick".into())],
            enabled: true,
        },
        RuleCheck {
            on: EventCheck::Message("tick".to_string()),
            when: vec![CondCheck::Once],
            run: vec![ActionCheck::Host],
            enabled: true,
        },
    ];
    let mut game = Game {
        globals: HashMap::new(),
        vars: [((1, 0), ("done", 1.0, false))].into_iter().collect(),
        timer: Some((0.5, 0.0, false)),
        dt: 0.016,
    };
    let mut rt = RuleRuntime::new();
    let empty = Input::new();
    for _frame in 0..35 {
        let mut out = outcome(e);
        run_rules(&mut rt, &mut game, &mut world, &mut out, &rules, &[], &empty);
        // messages arrive next tick
        end_tick(&mut rt, &mut world, vec![], out.messages_out, vec![e]);
    }
    assert_eq!(game.globals.get("done"), Some(&1.0));
}

#[test]
fn start_rule_fires_exactly_once() {
    let mut world = World::default();
    world.spawn((spark::ecs::Name("Camera".into()),));
    let counter = world.spawn((spark::ecs::Name("Counter".into()),));
    let rules = vec![RuleCheck { on: EventCheck::Start, when: vec![], run: vec![ActionCheck::Host], enabled: true }];
    let mut game = Game {
        globals: HashMap::new(),
        vars: [((0, 0), ("starts", 1.0, true))].into_iter().collect(),
        timer: None,
        dt: 1.0 / 60.0,
    };
    let mut rt = RuleRuntime::new();
    let input = Input::new();
    for _ in 0..10 {
        let mut out = outcome(counter);
        run_rules(&mut rt, &mut game, &mut world, &mut out, &rules, &[], &input);
        end_tick(&mut rt, &mut world, out.destroy_queue, out.messages_out, vec![counter]);
    }
    let starts = game.globals.get("starts").copied().unwrap_or(0.0);
    assert_eq!(starts, 1.0, "Start must fire exactly once, got {starts}");
}

#[test]
fn rule_actions_fill_the_outcome_in_order() {
    let mut world = World::default();
    let a = world.spawn((Tag("enemy".into()),));
    let me = world.spawn(());
    let rules = vec![
        RuleCheck {
            on: EventCheck::Update,
            when: vec![],
            run: vec![
                ActionCheck::DestroyTagged("enemy".into()),
                ActionCheck::SendMessage("one".into()),
                ActionCheck::LoadScene("a.scene".into()),
                ActionCheck::DestroySelf,
            ],
            enabled: true,
        },
        RuleCheck {
            on: EventCheck::Update,
            when: vec![],
            run: vec![ActionCheck::SendMessage("two".into()), ActionCheck::LoadScene("b.scene".into())],
            enabled: false,
        },
        RuleCheck {
            on: EventCheck::Update,
            when: vec![],
            run: vec![ActionCheck::DestroySelf, ActionCheck::SendMessage("three".into()), ActionCheck::Quit],
            enabled: true,
        },
    ];
    let mut host = sim();
    let mut rt = RuleRuntime::new();
    let mut out = outcome(me);
    let fired = run_rules(&mut rt, &mut host, &mut world, &mut out, &rules, &[], &Input::new());
    assert_eq!(fired, vec![0, 2]);
    assert_eq!(out.destroy_queue, vec![a, me]);
    assert_eq!(out.messages_out, vec!["one".to_string(), "three".to_string()]);
    assert_eq!(out.load_scene.as_deref(), Some("a.scene"));
    assert!(out.quit);
    assert!(host.ran.is_empty());
}

#[test]
fn discrete_actions_fill_the_outcome() {
    let mut world = World::default();
    let a = world.spawn((Tag("enemy".into()),));
    let b = world.spawn((Tag("enemy".into()),));
    let me = world.spawn(());
    let mut out = outcome(me);
    assert!(run_action(&mut out, &mut world, &ActionCheck::DestroyOther));
    assert!(out.destroy_queue.is_empty());
    assert!(run_action(&mut out, &mut world, &ActionCheck::DestroySelf));
    assert!(run_action(&mut out, &mut world, &ActionCheck::DestroyTagged("enemy".into())));
    assert!(run_action(&mut out, &mut world, &ActionCheck::DestroySelf));
    assert_eq!(out.destroy_queue, vec![me, a, b]);
    assert!(run_action(&mut out, &mut world, &ActionCheck::SendMessage("hi".into())));
    assert!(run_action(&mut out, &mut world, &ActionCheck::LoadScene("scenes/2.scene".into())));
    assert!(!out.quit);
    assert!(run_action(&mut out, &mut world, &ActionCheck::Quit));
    assert!(!run_action(&mut out, &mut world, &ActionCheck::Host));
    assert_eq!(out.messages_out, vec!["hi".to_string()]);
    assert_eq!(out.load_scene.as_deref(), Some("scenes/2.scene"));
    assert!(out.quit);
}

#[test]
fn the_pass_skips_entities_queued_by_earlier_ones() {
    let mut world = World::default();
    let bomb = world.spawn(());
    let enemy = world.spawn((Tag("enemy".into()),));
    let entities = vec![
        (
            bomb,
            vec![RuleCheck {
                on: EventCheck::Update,
                when: vec![],
                run: vec![ActionCheck::DestroyTagged("enemy".into()), ActionCheck::SendMessage("boom".into())],
                enabled: true,
            }],
        ),
        (enemy, vec![rule(EventCheck::Update, vec![])]),
    ];
    let mut host = sim();
    let mut rt = RuleRuntime::new();
    rt.load_scene_request = Some("next.scene".to_string());
    let pass = rules_pass(&mut rt, &mut host, &mut world, &entities, &[], &Input::new());
    assert_eq!(pass.ran, vec![bomb]);
    assert_eq!(pass.destroy_queue, vec![enemy]);
    assert_eq!(pass.messages_out, vec!["boom".to_string()]);
    assert_eq!(pass.load_scene.as_deref(), Some("next.scene"));
    assert!(rt.load_scene_request.is_none());
    assert!(host.ran.is_empty());
    assert!(end_tick_checked(&mut rt, &mut world, pass.destroy_queue, pass.messages_out, pass.ran));
    assert!(!world.contains(enemy) && world.contains(bomb));
    assert!(rt.message_arrived("boom"));
    assert!(!rt.is_fresh(bomb));
}

#[test]
fn visibility_actions_set_and_flip_the_flag() {
    let mut world = World::default();
    let e = world.spawn(());
    let mut out = outcome(e);
    assert!(is_shown(&world, e));
    assert!(run_action(&mut out, &mut world, &ActionCheck::ToggleVisible));
    assert!(!is_shown(&world, e));
    assert!(!world.get::<&Visible>(e).unwrap().0);
    assert!(run_action(&mut out, &mut world, &ActionCheck::ToggleVisible));
    assert!(is_shown(&world, e));
    assert!(run_action(&mut out, &mut world, &ActionCheck::SetVisible(false)));
    assert!(!is_shown(&world, e));
    assert!(run_action(&mut out, &mut world, &ActionCheck::SetVisible(true)));
    assert!(is_shown(&world, e));
    assert!(out.destroy_queue.is_empty() && out.messages_out.is_empty() && !out.quit);
}

#[test]
fn message_rule_delivers_next_tick() {
    let mut world = World::default();
    let sender = world.spawn((spark::ecs::Name("Sender".into()),));
    let receiver = world.spawn((spark::ecs::Name("Receiver".into()),));
    let entities = vec![
        (
            sender,
            vec![RuleCheck {
                on: EventCheck::Update,
                when: vec![CondCheck::Once],
                run: vec![ActionCheck::SendMessage("boom".into())],
                enabled: true,
            }],
        ),
        (
            receiver,
            vec![RuleCheck { on: EventCheck::Message("boom".into()), when: vec![], run: vec![ActionCheck::Host], enabled: true }],
        ),
    ];
    let mut game = Game {
        globals: HashMap::new(),
        vars: [((0, 0), ("heard", 1.0, false))].into_iter().collect(),
        timer: None,
        dt: 1.0 / 60.0,
    };
    let mut rt = RuleRuntime::new();
    let input = Input::new();
    let pass = rules_pass(&mut rt, &mut game, &mut world, &entities, &[], &input);
    assert_eq!(pass.fired, vec![vec![0], vec![]]);
    assert_eq!(game.globals.get("heard").copied().unwrap_or(0.0), 0.0);
    end_tick(&mut rt, &mut world, pass.destroy_queue, pass.messages_out, pass.ran);
    let pass = rules_pass(&mut rt, &mut game, &mut world, &entities, &[], &input);
    assert_eq!(pass.fired, vec![vec![], vec![0]]);
    assert_eq!(game.globals.get("heard").copied(), Some(1.0));
}

#[test]
fn fired_destroy_actions_fill_the_queue() {
    let mut world = World::default();
    let coin = world.spawn((Tag("coin".into()),));
    let player = world.spawn(());
    let rules = vec![RuleCheck {
        on: EventCheck::CollisionEnter(Some("coin".into())),
        when: vec![],
        run: vec![ActionCheck::DestroyOther, ActionCheck::DestroySelf, ActionCheck::DestroyOther],
        enabled: true,
    }];
    let pairs = [CollisionPair { a: coin, b: player, started: true }];
    let mut out = outcome(player);
    set_partner(&mut out, &pairs);
    let mut rt = RuleRuntime::new();
    run_rules(&mut rt, &mut sim(), &mut world, &mut out, &rules, &pairs, &Input::new());
    assert_eq!(out.destroy_queue, vec![coin, player]);
}
