//! Editor commands (undo/redo). Commands capture the *data* needed to apply
//! and revert, never world references: a component edit keeps the
//! serialized component before and after, an entity deletion keeps the
//! records of its subtree.
use vstd::prelude::*;
use hecs::{Entity, World};
use crate::cmd::Command;
use crate::ecs::{
    acyclic, alive, descendants_of, despawn_recursive_checked, entity_bits, law_set_parent_link, opt_bits,
    parent_of, set_parent, w_contains, world_view, WorldView,
};

verus! {

/// What a component edit does to one component of one entity.
#[derive(Clone, Debug)]
pub enum ComponentEdit {
    /// Replace (or add) the component with the one serialized as this text.
    Load(String),
    /// Remove the component.
    Remove,
}

/// The component (as serialized text; `None` when absent) after an edit.
pub open spec fn edit_result(state: Option<Seq<char>>, edit: Option<ComponentEdit>) -> Option<
    Seq<char>,
> {
    match edit {
        Some(ComponentEdit::Load(t)) => Some(t@),
        Some(ComponentEdit::Remove) => None,
        None => state,
    }
}

/// Where component edits are carried out: the editor's world together
/// with its component registry.
pub trait ComponentStore {
    /// Load the component `component` of `entity` from its serialized text.
    fn load_component(&mut self, entity: Entity, component: &str, text: &str);

    /// Remove the component `component` from `entity`.
    fn remove_component(&mut self, entity: Entity, component: &str);
}

/// Snapshot-based command: applies by swapping component data wholesale.
/// `before` is `None` when the edit added the component; `after` is `None`
/// when applying leaves the component as it is.
pub struct SwapCommand {
    pub label: String,
    pub entity: Entity,
    pub before: Option<String>,
    pub after: Option<String>,
    pub component: String,
}

impl SwapCommand {
    /// The edit `apply` performs: load `after` when there is one.
    pub fn apply_edit(&self) -> (r: Option<ComponentEdit>)
        ensures
            match self.after {
                Some(t) => r matches Some(ComponentEdit::Load(u)) && u@ == t@,
                None => r is None,
            },
    {
        match &self.after {
            Some(t) => Some(ComponentEdit::Load(t.clone())),
            None => None,
        }
    }

    /// The edit `revert` performs: load `before`, or remove the component
    /// when there was none before.
    pub fn revert_edit(&self) -> (r: Option<ComponentEdit>)
        ensures
            match self.before {
                Some(t) => r matches Some(ComponentEdit::Load(u)) && u@ == t@,
                None => r matches Some(ComponentEdit::Remove),
            },
    {
        match &self.before {
            Some(t) => Some(ComponentEdit::Load(t.clone())),
            None => Some(ComponentEdit::Remove),
        }
    }
}

/// Law: reverting a component edit restores the component as it was before
/// the edit, whatever state applying left it in; re-applying an edit with
/// an `after` text restores that text.
pub proof fn law_swap_revert_restores(
    state: Option<Seq<char>>,
    before: Option<Seq<char>>,
    after: Option<Seq<char>>,
    applied: Option<ComponentEdit>,
    reverted: Option<ComponentEdit>,
)
    requires
        match after {
            Some(t) => applied matches Some(ComponentEdit::Load(u)) && u@ == t,
            None => applied is None,
        },
        match before {
            Some(t) => reverted matches Some(ComponentEdit::Load(u)) && u@ == t,
            None => reverted matches Some(ComponentEdit::Remove),
        },
    ensures
        edit_result(edit_result(state, applied), reverted) == before,
        after is Some ==> edit_result(edit_result(edit_result(state, applied), reverted), applied)
            == after,
{
}

fn perform<X: ComponentStore>(ctx: &mut X, entity: Entity, component: &str, edit: Option<ComponentEdit>) {
    match edit {
        Some(ComponentEdit::Load(t)) => ctx.load_component(entity, component, t.as_str()),
        Some(ComponentEdit::Remove) => ctx.remove_component(entity, component),
        None => {},
    }
}

impl<X: ComponentStore> Command<X> for SwapCommand {
    open spec fn label_view(&self) -> Seq<char> {
        self.label@
    }

    /// The command's own label.
    fn label(&self) -> String
        returns
            self.label,
    {
        self.label.clone()
    }

    /// Hands the store the edit of [`SwapCommand::apply_edit`]; the command
    /// keeps its data, so it can be reverted and re-applied any number of
    /// times.
    fn apply(&mut self, ctx: &mut X)
        ensures
            *final(self) == *old(self),
    {
        let edit = self.apply_edit();
        perform(ctx, self.entity, self.component.as_str(), edit);
    }

    /// Hands the store the edit of [`SwapCommand::revert_edit`]; the command
    /// keeps its data.
    fn revert(&mut self, ctx: &mut X)
        ensures
            *final(self) == *old(self),
    {
        let edit = self.revert_edit();
        perform(ctx, self.entity, self.component.as_str(), edit);
    }
}

/// Spawning an entity (with its children) from a saved record: the
/// components come from their serialized form, which the scene layer reads.
pub trait RecordSpawner<R> {
    /// Spawn an entity (with its children) from a record, under `parent`.
    fn spawn_record(&mut self, world: &mut World, record: &R, parent: Option<Entity>) -> Entity;
}

/// What spawn and delete commands work on: the editor's world and the
/// scene layer that spawns saved records into it.
pub struct SceneCtx<S> {
    pub world: World,
    pub spawner: S,
}

/// The world after removing `e` with its whole subtree, when `e` is alive
/// and the child links have no cycle; otherwise unchanged.
pub open spec fn after_delete(v: WorldView, e: u64) -> WorldView {
    if alive(v, e) && acyclic(v) {
        v.remove_keys(descendants_of(v, e).to_set().insert(e))
    } else {
        v
    }
}

/// Entity spawn/despawn with full subtree snapshots. A deletion keeps the
/// records of the deleted subtree (and the parent to respawn them under) in
/// `despawn_revert` and names the entity to delete; a creation has no such
/// records and remembers the entity it spawned. Redoing either after an
/// undo repeats it on the entity that the undo left.
pub struct SpawnCommand<R> {
    pub label: String,
    pub record: R,
    pub entity: Option<Entity>,
    /// Records of the deleted subtree and the parent to respawn them under.
    pub despawn_revert: Option<(Vec<R>, Option<Entity>)>,
}

/// Remove `e` with its subtree when it is still alive (nothing happens
/// while the child links have a cycle).
fn delete_subtree(world: &mut World, e: Entity)
    ensures
        world_view(*final(world)) == after_delete(world_view(*old(world)), entity_bits(e)),
{
    if w_contains(world, e) {
        despawn_recursive_checked(world, e);
    }
}

impl<R, S: RecordSpawner<R>> Command<SceneCtx<S>> for SpawnCommand<R> {
    open spec fn label_view(&self) -> Seq<char> {
        self.label@
    }

    /// The command's own label.
    fn label(&self) -> String
        returns
            self.label,
    {
        self.label.clone()
    }

    /// A deletion removes its entity with the whole subtree (when still
    /// alive); a creation spawns its record and remembers the new entity.
    fn apply(&mut self, ctx: &mut SceneCtx<S>)
        ensures
            final(self).despawn_revert == old(self).despawn_revert,
            final(self).label == old(self).label,
            old(self).despawn_revert is Some ==> final(self).entity == old(self).entity
                && match old(self).entity {
                Some(e) => world_view(final(ctx).world) == after_delete(
                    world_view(old(ctx).world),
                    entity_bits(e),
                ),
                None => world_view(final(ctx).world) == world_view(old(ctx).world),
            },
            old(self).despawn_revert is None ==> final(self).entity is Some,
    {
        if self.despawn_revert.is_some() {
            if let Some(e) = self.entity {
                delete_subtree(&mut ctx.world, e);
            }
        } else {
            let e = ctx.spawner.spawn_record(&mut ctx.world, &self.record, None);
            self.entity = Some(e);
        }
    }

    /// A deletion respawns its subtree records under the recorded parent and
    /// names the respawned root as the entity a redo deletes; a creation
    /// removes the entity it made with its subtree.
    fn revert(&mut self, ctx: &mut SceneCtx<S>)
        ensures
            final(self).despawn_revert == old(self).despawn_revert,
            final(self).label == old(self).label,
            old(self).despawn_revert is None ==> final(self).entity == old(self).entity
                && match old(self).entity {
                Some(e) => world_view(final(ctx).world) == after_delete(
                    world_view(old(ctx).world),
                    entity_bits(e),
                ),
                None => world_view(final(ctx).world) == world_view(old(ctx).world),
            },
            old(self).despawn_revert matches Some(d) ==> (d.0@.len() > 0 <==> final(self).entity is Some),
            old(self).despawn_revert matches Some(d) ==> (final(self).entity matches Some(r) ==> (alive(
                world_view(final(ctx).world),
                entity_bits(r),
            ) ==> parent_of(world_view(final(ctx).world), entity_bits(r)) == opt_bits(d.1))),
    {
        match &self.despawn_revert {
            Some((records, parent)) => {
                let mut root: Option<Entity> = None;
                let mut i: usize = 0;
                while i < records.len()
                    invariant
                        i <= records@.len(),
                        (i > 0) <==> root is Some,
                    decreases records@.len() - i,
                {
                    let e = ctx.spawner.spawn_record(&mut ctx.world, &records[i], *parent);
                    if i == 0 {
                        root = Some(e);
                    }
                    i += 1;
                }
                if let Some(r) = root {
                    if w_contains(&ctx.world, r) {
                        let ghost before = world_view(ctx.world);
                        set_parent(&mut ctx.world, r, *parent);
                        proof {
                            law_set_parent_link(before, entity_bits(r), opt_bits(*parent));
                        }
                    }
                }
                self.entity = root;
            },
            None => {
                if let Some(e) = self.entity {
                    delete_subtree(&mut ctx.world, e);
                }
            },
        }
    }
}

} // verus!
