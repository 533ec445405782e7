use hecs::World;
use spark::cmd::{Command, CommandStack};
use spark::ecs::Name;
use spark::editor::commands::{ComponentEdit, ComponentStore, RecordSpawner, SceneCtx, SpawnCommand, SwapCommand};
use spark::editor::gizmo::{plane_axes, tool_parts, GizmoHit};
use spark::editor::play::{PauseToggle, PlayMode, PlayState};
use spark::editor::state::{EditorState, GizmoDrag, Tool};
use spark::scene::Dimension;

#[test]
fn tool_labels_and_keys() {
    let all = [Tool::Hand, Tool::Move, Tool::Rotate, Tool::Scale, Tool::Rect, Tool::Transform];
    let labels: Vec<&str> = all.iter().map(|t| t.label()).collect();
    assert_eq!(labels, vec!["Hand", "Move", "Rotate", "Scale", "Rect", "Transform"]);
    let keys: Vec<char> = all.iter().map(|t| t.key().unwrap()).collect();
    assert_eq!(keys, vec!['Q', 'W', 'E', 'R', 'T', 'Y']);
    assert_eq!(Tool::default(), Tool::Hand);
}

#[test]
fn tools_choose_gizmo_parts() {
    assert_eq!(tool_parts(Tool::Move), (true, false, false));
    assert_eq!(tool_parts(Tool::Rotate), (false, true, false));
    assert_eq!(tool_parts(Tool::Scale), (false, false, true));
    assert_eq!(tool_parts(Tool::Transform), (true, true, true));
    assert_eq!(tool_parts(Tool::Hand), (false, false, false));
    assert_eq!(tool_parts(Tool::Rect), (false, false, false));
}

#[test]
fn plane_axes_cover_xyz() {
    assert_eq!(plane_axes(0), (0, 1, 2));
    assert_eq!(plane_axes(1), (0, 2, 1));
    assert_eq!(plane_axes(2), (1, 2, 0));
    assert_eq!(plane_axes(7), (1, 2, 0));
    assert_ne!(GizmoHit::Axis(0), GizmoHit::Axis(1));
    assert_eq!(GizmoDrag::TranslatePlane { plane: 1 }, GizmoDrag::TranslatePlane { plane: 1 });
}

#[test]
fn editor_state_defaults() {
    let s = EditorState::default();
    assert!(s.selected.is_empty());
    assert_eq!(s.viewport_px, [0, 0, 1280, 720]);
    assert_eq!(s.new_project_name, "MyGame");
    assert_eq!(s.new_project_dim, Dimension::D2);
    assert_eq!(s.open_path, ".");
    assert_eq!(s.tool, Tool::Move);
    assert_eq!(s.full_viewport(), (0, 0, 1280, 720));
    assert_eq!(s.viewport_rect_px(), (0, 0, 1280, 720));
    assert!(s.primary().is_none());
}

#[test]
fn selection_toggles_and_primary() {
    let mut w = World::default();
    let a = w.spawn((Name("a".into()),));
    let b = w.spawn((Name("b".into()),));
    let mut s = EditorState::default();
    s.select(a);
    assert_eq!(s.primary(), Some(a));
    s.toggle_select(b);
    assert_eq!(s.selected, vec![a, b]);
    assert_eq!(s.primary(), Some(b));
    assert!(s.is_selected(a) && s.is_selected(b));
    s.toggle_select(a);
    assert_eq!(s.selected, vec![b]);
    assert!(!s.is_selected(a));
    // Two ctrl-clicks on an unselected entity restore the selection.
    s.toggle_select(a);
    s.toggle_select(a);
    assert_eq!(s.selected, vec![b]);
}

#[test]
fn retain_existing_drops_despawned() {
    let mut w = World::default();
    let a = w.spawn((Name("a".into()),));
    let b = w.spawn((Name("b".into()),));
    let mut s = EditorState::default();
    s.select(a);
    s.toggle_select(b);
    s.tree_open = vec![a, b];
    s.renaming = Some(a);
    s.hierarchy_drag = Some(b);
    w.despawn(a).unwrap();
    s.retain_existing(&w);
    assert_eq!(s.selected, vec![b]);
    assert_eq!(s.tree_open, vec![b]);
    assert_eq!(s.renaming, None);
    assert_eq!(s.hierarchy_drag, Some(b));
}

#[test]
fn play_mode_snapshot_round_trip() {
    let mut m = PlayMode::new();
    assert_eq!(m.state(), PlayState::Stopped);
    assert!(!m.runs());
    assert!(m.play("scene-before-play".to_string()));
    assert!(!m.play("ignored".to_string()));
    assert!(m.runs());
    assert_eq!(m.toggle_pause(), PauseToggle::Paused);
    assert!(m.step());
    assert!(!m.runs());
    assert!(m.resume());
    assert!(!m.resume());
    assert!(m.pause());
    assert_eq!(m.stop(), Some("scene-before-play".to_string()));
    assert_eq!(m.state(), PlayState::Stopped);
    assert_eq!(m.stop(), None);
    assert_eq!(m.toggle_pause(), PauseToggle::Unchanged);
}

#[test]
fn toggle_play_starts_then_stops() {
    let mut m = PlayMode::new();
    assert_eq!(m.toggle_play("edit".to_string()), None);
    assert_eq!(m.state(), PlayState::Playing);
    assert_eq!(m.toggle_play("other".to_string()), Some("edit".to_string()));
    assert_eq!(m.state(), PlayState::Stopped);
}

/// Components of one entity as serialized text, by name.
#[derive(Default)]
struct Store {
    comps: Vec<(String, String)>,
}

impl Store {
    fn text(&self, name: &str) -> Option<String> {
        self.comps.iter().find(|(n, _)| n == name).map(|(_, t)| t.clone())
    }
}

impl ComponentStore for Store {
    fn load_component(&mut self, _e: hecs::Entity, component: &str, text: &str) {
        self.comps.retain(|(n, _)| n != component);
        self.comps.push((component.to_string(), text.to_string()));
    }
    fn remove_component(&mut self, _e: hecs::Entity, component: &str) {
        self.comps.retain(|(n, _)| n != component);
    }
}

#[test]
fn component_swap_undo_redo() {
    let mut w = World::default();
    let e = w.spawn(());
    let mut store = Store::default();
    store.load_component(e, "Transform", "(x: 0)");
    let mut stack: CommandStack<SwapCommand> = CommandStack::new();
    let cmd = SwapCommand {
        label: "Edit Transform".into(),
        entity: e,
        before: Some("(x: 0)".into()),
        after: Some("(x: 5)".into()),
        component: "Transform".into(),
    };
    stack.push(&mut store, cmd);
    assert_eq!(store.text("Transform").as_deref(), Some("(x: 5)"));
    assert_eq!(stack.undo(&mut store), Some("Edit Transform".to_string()));
    assert_eq!(store.text("Transform").as_deref(), Some("(x: 0)"));
    stack.redo(&mut store);
    assert_eq!(store.text("Transform").as_deref(), Some("(x: 5)"));
}

#[test]
fn adding_a_component_reverts_to_removal() {
    let mut w = World::default();
    let e = w.spawn(());
    let cmd = SwapCommand {
        label: "Add Sprite".into(),
        entity: e,
        before: None,
        after: Some("()".into()),
        component: "Sprite".into(),
    };
    assert!(matches!(cmd.revert_edit(), Some(ComponentEdit::Remove)));
    assert!(matches!(cmd.apply_edit(), Some(ComponentEdit::Load(ref t)) if t == "()"));
    let mut store = Store::default();
    let mut cmd = cmd;
    cmd.apply(&mut store);
    assert!(store.text("Sprite").is_some());
    cmd.revert(&mut store);
    assert!(store.text("Sprite").is_none());
}

/// Records are names: spawning one makes an entity with that name.
struct Names;

impl RecordSpawner<String> for Names {
    fn spawn_record(&mut self, world: &mut World, record: &String, parent: Option<hecs::Entity>) -> hecs::Entity {
        let e = world.spawn((Name(record.clone()),));
        if parent.is_some() {
            spark::ecs::set_parent(world, e, parent);
        }
        e
    }
}

fn scene() -> SceneCtx<Names> {
    SceneCtx { world: World::default(), spawner: Names }
}

#[test]
fn delete_undo_respawns_subtree() {
    let mut scene = scene();
    let root = scene.world.spawn((Name("root".into()),));
    let kid = scene.world.spawn((Name("kid".into()),));
    let other = scene.world.spawn((Name("other".into()),));
    spark::ecs::set_parent(&mut scene.world, kid, Some(root));
    let mut stack: CommandStack<SpawnCommand<String>> = CommandStack::new();
    let cmd = SpawnCommand {
        label: "Delete Entity".into(),
        record: String::new(),
        entity: Some(root),
        despawn_revert: Some((vec!["root".into(), "kid".into()], None)),
    };
    stack.push(&mut scene, cmd);
    assert!(!scene.world.contains(root) && !scene.world.contains(kid));
    assert!(scene.world.contains(other));
    assert_eq!(stack.undo(&mut scene), Some("Delete Entity".to_string()));
    let again = spark::ecs::find_by_name(&scene.world, "root").expect("respawned");
    assert!(spark::ecs::find_by_name(&scene.world, "kid").is_some());
    // Redo deletes the respawned entity.
    stack.redo(&mut scene);
    assert!(!scene.world.contains(again));
}

#[test]
fn create_entity_undo_redo() {
    let mut scene = scene();
    let mut stack: CommandStack<SpawnCommand<String>> = CommandStack::new();
    let cmd = SpawnCommand { label: "Add Entity".into(), record: "cube".to_string(), entity: None, despawn_revert: None };
    stack.push(&mut scene, cmd);
    let e = spark::ecs::find_by_name(&scene.world, "cube").expect("spawned");
    assert_eq!(stack.peek_undo::<SceneCtx<Names>>(), Some("Add Entity".to_string()));
    stack.undo(&mut scene);
    assert!(!scene.world.contains(e));
    assert!(stack.can_redo());
    stack.redo(&mut scene);
    assert!(spark::ecs::find_by_name(&scene.world, "cube").is_some());
}

#[test]
fn multi_delete_undo() {
    let mut scene = scene();
    let one = scene.world.spawn((Name("One".into()),));
    let two = scene.world.spawn((Name("Two".into()),));
    let mut stack: CommandStack<SpawnCommand<String>> = CommandStack::new();
    for (e, n) in [(one, "One"), (two, "Two")] {
        stack.push(
            &mut scene,
            SpawnCommand {
                label: "Delete Entity".into(),
                record: String::new(),
                entity: Some(e),
                despawn_revert: Some((vec![n.to_string()], None)),
            },
        );
    }
    assert!(!scene.world.contains(one) && !scene.world.contains(two));
    stack.undo(&mut scene);
    stack.undo(&mut scene);
    assert!(spark::ecs::find_by_name(&scene.world, "One").is_some());
    assert!(spark::ecs::find_by_name(&scene.world, "Two").is_some());
}

#[test]
fn spawn_command_remembers_its_entity() {
    let mut scene = scene();
    let mut cmd = SpawnCommand {
        label: "Add".into(),
        record: "cube".to_string(),
        entity: None,
        despawn_revert: None,
    };
    cmd.apply(&mut scene);
    let e = cmd.entity.expect("spawned");
    assert!(scene.world.contains(e));
    assert_eq!(<SpawnCommand<String> as Command<SceneCtx<Names>>>::label(&cmd), "Add");
    cmd.revert(&mut scene);
    assert!(!scene.world.contains(e));
}

#[test]
fn visibility_toggle_undo() {
    // A visibility toggle is a component edit: before and after as text.
    let mut w = World::default();
    let e = w.spawn(());
    let mut store = Store::default();
    store.load_component(e, "Visible", "(true)");
    let mut stack: CommandStack<SwapCommand> = CommandStack::new();
    stack.push(
        &mut store,
        SwapCommand {
            label: "Toggle Visible".into(),
            entity: e,
            before: Some("(true)".into()),
            after: Some("(false)".into()),
            component: "Visible".into(),
        },
    );
    assert_eq!(store.text("Visible").as_deref(), Some("(false)"));
    stack.undo(&mut store);
    assert_eq!(store.text("Visible").as_deref(), Some("(true)"));
}

#[test]
fn pause_and_step_freeze_and_advance() {
    let mut play = PlayMode::new();
    let mut frame: u64 = 0;
    assert!(play.play("scene".to_string()));
    for _ in 0..10 {
        if play.runs() {
            frame += 1;
        }
    }
    assert_eq!(frame, 10);
    assert!(play.pause());
    assert_eq!(play.state(), PlayState::Paused);
    for _ in 0..60 {
        if play.runs() {
            frame += 1;
        }
    }
    assert_eq!(frame, 10, "pause freezes the world");
    let frame_before = frame;
    if play.step() {
        frame += 1;
    }
    assert_eq!(frame, frame_before + 1, "step advances one tick");
    assert_eq!(play.state(), PlayState::Paused);
    assert!(play.resume());
    for _ in 0..10 {
        if play.runs() {
            frame += 1;
        }
    }
    assert_eq!(frame, 21, "resume continues");
    assert_eq!(play.stop().as_deref(), Some("scene"));
}
