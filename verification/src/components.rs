//! Built-in components that carry no geometry, and the registration of
//! every built-in component type under its wire name.
use vstd::prelude::*;
use vstd::string::*;
use hecs::{Entity, World};
use crate::ecs::{
    alive, entity_bits, register_model, visibility, w_get_visible, w_insert_visible, world_view, Registry,
};

verus! {

/// Visibility toggle driven by rules (`ToggleVisible`) and the editor.
#[derive(Clone, Copy, Debug)]
pub struct Visible(pub bool);

/// Whether the entity is drawn: its `Visible` flag, visible when it has none.
pub open spec fn shown(w: World, e: Entity) -> bool {
    if visibility(w).dom().contains(entity_bits(e)) {
        visibility(w)[entity_bits(e)]
    } else {
        true
    }
}

/// Set the `Visible` flag of a live entity (`SetVisible`); nothing else in
/// the world changes.
pub fn set_visible(world: &mut World, e: Entity, flag: bool)
    ensures
        world_view(*final(world)) == world_view(*old(world)),
        visibility(*final(world)) == if alive(world_view(*old(world)), entity_bits(e)) {
            visibility(*old(world)).insert(entity_bits(e), flag)
        } else {
            visibility(*old(world))
        },
{
    w_insert_visible(world, e, flag);
}

/// Flip whether a live entity is drawn (`ToggleVisible`): an entity without
/// the flag, visible so far, becomes hidden.
pub fn toggle_visible(world: &mut World, e: Entity)
    ensures
        world_view(*final(world)) == world_view(*old(world)),
        visibility(*final(world)) == if alive(world_view(*old(world)), entity_bits(e)) {
            visibility(*old(world)).insert(entity_bits(e), !shown(*old(world), e))
        } else {
            visibility(*old(world))
        },
{
    match w_get_visible(world, e) {
        Some(v) => w_insert_visible(world, e, !v),
        None => w_insert_visible(world, e, false),
    }
}

/// Whether the entity is drawn.
pub fn is_shown(world: &World, e: Entity) -> (r: bool)
    ensures
        r == shown(*world, e),
{
    match w_get_visible(world, e) {
        Some(v) => v,
        None => true,
    }
}

impl Default for Visible {
    /// Visible unless switched off.
    fn default() -> (r: Self)
        ensures
            r.0,
    {
        Visible(true)
    }
}

/// Rigid body motion type.
#[derive(Clone, Copy, Debug, PartialEq, Eq, Structural, Default)]
pub enum BodyKind {
    #[default]
    Static,
    Dynamic,
    Kinematic,
}

/// Wire names of the built-in components, in registration order.
pub open spec fn core_names() -> Seq<Seq<char>> {
    seq![
        "Transform"@,
        "Visible"@,
        "Sprite"@,
        "MeshRenderer"@,
        "Camera"@,
        "Light"@,
        "RigidBody"@,
        "Collider"@,
        "Music"@,
        "Rules"@,
        "Vars"@,
    ]
}

/// Registry names after registering each of `ns` in order.
pub open spec fn register_names(names: Seq<Seq<char>>, ns: Seq<Seq<char>>) -> Seq<Seq<char>>
    decreases ns.len(),
{
    if ns.len() == 0 {
        names
    } else {
        let last = ns.last();
        let before = register_names(names, ns.drop_last());
        if before.contains(last) {
            before
        } else {
            before.push(last)
        }
    }
}

/// `e` is an entry that `f` makes for the wire name `name`.
pub open spec fn made_for<E, F: Fn(&str) -> E>(f: F, name: Seq<char>, e: E) -> bool {
    exists|n: &str| n@ == name && f.ensures((n,), e)
}

fn core_name(i: usize) -> (r: &'static str)
    requires
        i < 11,
    ensures
        r@ == core_names()[i as int],
{
    if i == 0 {
        "Transform"
    } else if i == 1 {
        "Visible"
    } else if i == 2 {
        "Sprite"
    } else if i == 3 {
        "MeshRenderer"
    } else if i == 4 {
        "Camera"
    } else if i == 5 {
        "Light"
    } else if i == 6 {
        "RigidBody"
    } else if i == 7 {
        "Collider"
    } else if i == 8 {
        "Music"
    } else if i == 9 {
        "Rules"
    } else {
        "Vars"
    }
}

/// Register every built-in component (`Transform`, `Visible`, `Sprite`,
/// `MeshRenderer`, `Camera`, `Light`, `RigidBody`, `Collider`, `Music`,
/// `Rules`, `Vars`), each with the entry `entry_for` makes for its wire
/// name. Games call this first, then register their own types before
/// loading scenes. Names already registered keep their entries.
pub fn register_core<E, F: Fn(&str) -> E>(registry: &mut Registry<E>, entry_for: F)
    requires
        old(registry).wf(),
        forall|n: &str| #[trigger] entry_for.requires((n,)),
    ensures
        final(registry).wf(),
        final(registry).name_seq() == register_names(old(registry).name_seq(), core_names()),
        final(registry).entry_seq().len() == final(registry).name_seq().len(),
        final(registry).entry_seq().subrange(0, old(registry).entry_seq().len() as int) == old(
            registry,
        ).entry_seq(),
        forall|i: int|
            old(registry).entry_seq().len() <= i < final(registry).entry_seq().len() ==> #[trigger] made_for(
                entry_for,
                final(registry).name_seq()[i],
                final(registry).entry_seq()[i],
            ),
{
    proof {
        registry.lemma_wf();
    }
    let ghost n0 = registry.name_seq();
    let ghost e0 = registry.entry_seq();
    let mut i: usize = 0;
    while i < 11
        invariant
            i <= 11,
            registry.wf(),
            forall|n: &str| #[trigger] entry_for.requires((n,)),
            registry.name_seq() == register_names(n0, core_names().take(i as int)),
            registry.entry_seq().len() == registry.name_seq().len(),
            registry.entry_seq().subrange(0, e0.len() as int) == e0,
            e0.len() <= registry.entry_seq().len(),
            forall|k: int|
                e0.len() <= k < registry.entry_seq().len() ==> #[trigger] made_for(
                    entry_for,
                    registry.name_seq()[k],
                    registry.entry_seq()[k],
                ),
        decreases 11 - i,
    {
        let name = core_name(i);
        let entry = entry_for(name);
        let ghost before_n = registry.name_seq();
        let ghost before_e = registry.entry_seq();
        registry.register(name, entry);
        proof {
            assert(core_names().take(i + 1).drop_last() =~= core_names().take(i as int));
            assert(core_names().take(i + 1).last() == name@);
            registry.lemma_wf();
            assert(registry.entry_seq().subrange(0, e0.len() as int) =~= before_e.subrange(
                0,
                e0.len() as int,
            ));
            assert forall|k: int|
                e0.len() <= k < registry.entry_seq().len() implies #[trigger] made_for(
                    entry_for,
                    registry.name_seq()[k],
                    registry.entry_seq()[k],
                ) by {
                if k == before_e.len() {
                    assert(registry.name_seq()[k] == name@);
                    assert(entry_for.ensures((name,), registry.entry_seq()[k]));
                } else {
                    assert(registry.entry_seq()[k] == before_e[k]);
                    assert(registry.name_seq()[k] == before_n[k]);
                    assert(made_for(entry_for, before_n[k], before_e[k]));
                }
            }
        }
        i += 1;
    }
    proof {
        assert(core_names().take(11) =~= core_names());
    }
}

/// Law: registering the built-in components is idempotent: a second call
/// leaves the names as the first one made them.
pub proof fn law_register_core_idempotent(names: Seq<Seq<char>>)
    ensures
        register_names(register_names(names, core_names()), core_names()) == register_names(
            names,
            core_names(),
        ),
{
    assert forall|i: int| 0 <= i < core_names().len() implies core_names().contains(
        #[trigger] core_names()[i],
    ) by {
    }
    lemma_register_names_absorbs(names, core_names(), core_names());
}

proof fn lemma_register_names_contains(names: Seq<Seq<char>>, ns: Seq<Seq<char>>, x: Seq<char>)
    ensures
        register_names(names, ns).contains(x) <==> (names.contains(x) || ns.contains(x)),
    decreases ns.len(),
{
    if ns.len() > 0 {
        lemma_register_names_contains(names, ns.drop_last(), x);
        let before = register_names(names, ns.drop_last());
        if ns.drop_last().contains(x) {
            let j = choose|j: int| 0 <= j < ns.drop_last().len() && ns.drop_last()[j] == x;
            assert(ns[j] == x);
        }
        if ns.contains(x) && x != ns.last() {
            let j = choose|j: int| 0 <= j < ns.len() && ns[j] == x;
            assert(ns.drop_last()[j] == x);
        }
        if !before.contains(ns.last()) {
            assert(before.push(ns.last())[before.len() as int] == ns.last());
            if before.push(ns.last()).contains(x) && x != ns.last() {
                let j = choose|j: int| 0 <= j < before.push(ns.last()).len() && before.push(ns.last())[j] == x;
                assert(before[j] == x);
            }
            if before.contains(x) {
                let j = choose|j: int| 0 <= j < before.len() && before[j] == x;
                assert(before.push(ns.last())[j] == x);
            }
        }
        if ns.last() == x {
            assert(ns[ns.len() - 1] == x);
        }
    }
}

/// Registering names that are all present already changes nothing.
proof fn lemma_register_names_absorbs(names: Seq<Seq<char>>, ns: Seq<Seq<char>>, ms: Seq<Seq<char>>)
    requires
        forall|i: int| 0 <= i < ms.len() ==> ns.contains(#[trigger] ms[i]),
    ensures
        register_names(register_names(names, ns), ms) == register_names(names, ns),
    decreases ms.len(),
{
    if ms.len() > 0 {
        assert forall|i: int| 0 <= i < ms.drop_last().len() implies ns.contains(
            #[trigger] ms.drop_last()[i],
        ) by {
            assert(ms.drop_last()[i] == ms[i]);
        }
        lemma_register_names_absorbs(names, ns, ms.drop_last());
        assert(ns.contains(ms[ms.len() - 1]));
        lemma_register_names_contains(names, ns, ms.last());
    }
}

} // verus!
