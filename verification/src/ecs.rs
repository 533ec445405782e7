//! Entity storage: the structural components (`Name`, `Tag`, `Parent`,
//! `Children`) over a `hecs` world, the hierarchy operations that keep both
//! sides of every parent/child link in step, and lookups by name and tag.
//!
//! The world itself is `hecs`'s. What the logic here reads of it is modelled
//! by [`world_view`]: for every live entity (by its id bits) its parent, its
//! child list, its name and its tag.
use vstd::prelude::*;
use hecs::{Entity, World};
use crate::components::Visible;
use crate::text::{decimal, decimal_text};

verus! {

#[verifier::external_type_specification]
#[verifier::external_body]
pub struct ExWorld(World);

#[verifier::external_type_specification]
#[verifier::external_body]
pub struct ExEntity(Entity);

/// Display / lookup name of an entity.
#[derive(Clone, Debug, Default)]
pub struct Name(pub String);

/// Free-form tag used by rules (collision filters, `DestroyTagged`).
#[derive(Clone, Debug, Default)]
pub struct Tag(pub String);

/// Link from a child to its parent.
#[derive(Clone, Copy, Debug)]
pub struct Parent(pub Entity);

/// Links from a parent to its children, in attach order.
#[derive(Clone, Debug, Default)]
pub struct Children(pub Vec<Entity>);

/// The 64-bit id of an entity (`Entity::to_bits`).
pub uninterp spec fn entity_bits(e: Entity) -> u64;

/// What a world holds for each live entity, keyed by id bits:
/// (parent id, child ids, name, tag), each present only when the entity
/// carries that component.
pub uninterp spec fn world_view(w: World) -> Map<
    u64,
    (Option<u64>, Option<Seq<u64>>, Option<Seq<char>>, Option<Seq<char>>),
>;

/// Entities handed out by `World::reserve_entity` and not yet placed in
/// the world's storage: they are live (`World::contains` counts them) but
/// carry no component, and `World::iter` does not reach them until
/// `World::flush`.
pub uninterp spec fn reserved_ids(w: World) -> Set<u64>;

/// The `Visible` flag of every live entity that carries the component,
/// keyed by id bits.
pub uninterp spec fn visibility(w: World) -> Map<u64, bool>;

/// Per-entity record of [`world_view`].
pub type EntityView = (Option<u64>, Option<Seq<u64>>, Option<Seq<char>>, Option<Seq<char>>);

/// The whole model of a world.
pub type WorldView = Map<u64, EntityView>;

pub open spec fn ids_of(s: Seq<Entity>) -> Seq<u64> {
    s.map_values(|x: Entity| entity_bits(x))
}

/// The entity is alive.
pub open spec fn alive(v: WorldView, e: u64) -> bool {
    v.dom().contains(e)
}

/// Parent link of `e` (none for dead entities).
pub open spec fn parent_of(v: WorldView, e: u64) -> Option<u64> {
    if alive(v, e) {
        v[e].0
    } else {
        None
    }
}

/// Child list of `e`; empty when `e` is dead or has no `Children`.
pub open spec fn kids(v: WorldView, e: u64) -> Seq<u64> {
    if alive(v, e) && v[e].1 is Some {
        v[e].1.unwrap()
    } else {
        Seq::empty()
    }
}

/// Name of `e`, if any.
pub open spec fn name_of(v: WorldView, e: u64) -> Option<Seq<char>> {
    if alive(v, e) {
        v[e].2
    } else {
        None
    }
}

/// Tag of `e`, if any.
pub open spec fn tag_of(v: WorldView, e: u64) -> Option<Seq<char>> {
    if alive(v, e) {
        v[e].3
    } else {
        None
    }
}

// ---------------------------------------------------------------------------
// Calls into hecs
// ---------------------------------------------------------------------------
//
// `World::get` panics while its caller holds a unique borrow of the same
// component through a query on the same world; the contracts below assume
// no such borrow is held, and nothing in this library takes one.

/// `Entity::to_bits`: the id is nonzero in its upper half (generation).
#[verifier::external_body]
pub(crate) fn bits_of(e: Entity) -> (r: u64)
    ensures
        r == entity_bits(e),
        (r >> 32u64) != 0,
{
    e.to_bits().get()
}

/// `World::contains`.
#[verifier::external_body]
pub(crate) fn w_contains(w: &World, e: Entity) -> (r: bool)
    ensures
        r == alive(world_view(*w), entity_bits(e)),
{
    w.contains(e)
}

/// `World::get::<&Parent>`, the parent entity it names.
#[verifier::external_body]
fn w_get_parent(w: &World, e: Entity) -> (r: Option<Entity>)
    ensures
        r is Some <==> parent_of(world_view(*w), entity_bits(e)) is Some,
        r matches Some(p) ==> parent_of(world_view(*w), entity_bits(e)) == Some(entity_bits(p)),
{
    w.get::<&Parent>(e).ok().map(|p| p.0)
}

/// `World::get::<&Children>`, a copy of the child list.
#[verifier::external_body]
fn w_get_children(w: &World, e: Entity) -> (r: Option<Vec<Entity>>)
    ensures
        r is Some <==> (alive(world_view(*w), entity_bits(e)) && world_view(*w)[entity_bits(
            e,
        )].1 is Some),
        r matches Some(c) ==> ids_of(c@) == kids(world_view(*w), entity_bits(e)),
{
    w.get::<&Children>(e).ok().map(|c| c.0.clone())
}

/// `World::get::<&Name>`, a copy of the name.
#[verifier::external_body]
fn w_get_name(w: &World, e: Entity) -> (r: Option<String>)
    ensures
        r is Some <==> name_of(world_view(*w), entity_bits(e)) is Some,
        r matches Some(n) ==> name_of(world_view(*w), entity_bits(e)) == Some(n@),
{
    w.get::<&Name>(e).ok().map(|n| n.0.clone())
}

/// `World::get::<&Tag>`, a copy of the tag.
#[verifier::external_body]
pub(crate) fn w_get_tag(w: &World, e: Entity) -> (r: Option<String>)
    ensures
        r is Some <==> tag_of(world_view(*w), entity_bits(e)) is Some,
        r matches Some(n) ==> tag_of(world_view(*w), entity_bits(e)) == Some(n@),
{
    w.get::<&Tag>(e).ok().map(|n| n.0.clone())
}

/// `World::get::<&Visible>`: the flag, when the entity carries one.
#[verifier::external_body]
pub(crate) fn w_get_visible(w: &World, e: Entity) -> (r: Option<bool>)
    ensures
        r == (if visibility(*w).dom().contains(entity_bits(e)) {
            Some(visibility(*w)[entity_bits(e)])
        } else {
            None
        }),
{
    w.get::<&Visible>(e).ok().map(|v| v.0)
}

/// `World::insert_one(e, Visible(flag))`: sets the flag of a live entity
/// (adding the component when it has none); no effect on a dead entity.
/// The structural components are untouched.
#[verifier::external_body]
pub(crate) fn w_insert_visible(w: &mut World, e: Entity, flag: bool)
    ensures
        world_view(*final(w)) == world_view(*old(w)),
        visibility(*final(w)) == if alive(world_view(*old(w)), entity_bits(e)) {
            visibility(*old(w)).insert(entity_bits(e), flag)
        } else {
            visibility(*old(w))
        },
{
    let _ = w.insert_one(e, Visible(flag));
}

/// `World::insert_one(child, Parent(parent))`: sets the link on a live
/// entity (replacing an old one); no effect on a dead entity.
#[verifier::external_body]
fn w_insert_parent(w: &mut World, child: Entity, parent: Entity)
    ensures
        ({
            let v = world_view(*old(w));
            let c = entity_bits(child);
            world_view(*final(w)) == if alive(v, c) {
                v.insert(c, (Some(entity_bits(parent)), v[c].1, v[c].2, v[c].3))
            } else {
                v
            }
        }),
{
    let _ = w.insert_one(child, Parent(parent));
}

/// `World::remove_one::<Parent>`: drops the link if present.
#[verifier::external_body]
fn w_remove_parent(w: &mut World, child: Entity)
    ensures
        ({
            let v = world_view(*old(w));
            let c = entity_bits(child);
            world_view(*final(w)) == if alive(v, c) {
                v.insert(c, (None, v[c].1, v[c].2, v[c].3))
            } else {
                v
            }
        }),
{
    let _ = w.remove_one::<Parent>(child);
}

/// `World::insert_one(e, Children(list))`: replaces the child list of a
/// live entity; no effect on a dead entity.
#[verifier::external_body]
fn w_insert_children(w: &mut World, e: Entity, list: Vec<Entity>)
    ensures
        ({
            let v = world_view(*old(w));
            let k = entity_bits(e);
            world_view(*final(w)) == if alive(v, k) {
                v.insert(k, (v[k].0, Some(ids_of(list@)), v[k].2, v[k].3))
            } else {
                v
            }
        }),
{
    let _ = w.insert_one(e, Children(list));
}

/// `World::despawn`: removes the entity and all of its components. Links
/// held by other entities are not touched. It flushes first, so no entity
/// stays reserved.
#[verifier::external_body]
fn w_despawn(w: &mut World, e: Entity)
    ensures
        world_view(*final(w)) == world_view(*old(w)).remove(entity_bits(e)),
        visibility(*final(w)) == visibility(*old(w)).remove(entity_bits(e)),
        reserved_ids(*final(w)) == Set::<u64>::empty(),
{
    let _ = w.despawn(e);
}

/// `World::iter`: every entity in the world's storage once, in storage
/// order. The live entities it does not reach are the reserved ones, which
/// carry no component.
#[verifier::external_body]
pub(crate) fn w_entities(w: &World) -> (r: Vec<Entity>)
    ensures
        ids_of(r@).no_duplicates(),
        forall|x: u64| #[trigger]
            ids_of(r@).contains(x) <==> (alive(world_view(*w), x) && !reserved_ids(*w).contains(x)),
        forall|x: u64|
            alive(world_view(*w), x) && !#[trigger] ids_of(r@).contains(x) ==> world_view(*w)[x]
                == (None::<u64>, None::<Seq<u64>>, None::<Seq<char>>, None::<Seq<char>>),
{
    w.iter().map(|er| er.entity()).collect()
}

/// `World::flush`: places the reserved entities in storage (with no
/// component); what the world holds is unchanged.
#[verifier::external_body]
fn w_flush(w: &mut World)
    ensures
        world_view(*final(w)) == world_view(*old(w)),
        reserved_ids(*final(w)) == Set::<u64>::empty(),
{
    w.flush();
}


// ---------------------------------------------------------------------------
// Hierarchy
// ---------------------------------------------------------------------------

/// `s` without any occurrence of `x` (order kept).
pub open spec fn remove_all(s: Seq<u64>, x: u64) -> Seq<u64>
    decreases s.len(),
{
    if s.len() == 0 {
        s
    } else {
        let r = remove_all(s.drop_last(), x);
        if s.last() == x {
            r
        } else {
            r.push(s.last())
        }
    }
}

pub open spec fn opt_bits(p: Option<Entity>) -> Option<u64> {
    match p {
        Some(e) => Some(entity_bits(e)),
        None => None,
    }
}

/// The world after attaching `c` under `p` (or detaching it for `None`):
/// unchanged when the link is already as asked; otherwise `c` leaves its old
/// parent's child list, gets the new link, and is appended to the new
/// parent's child list.
pub open spec fn set_parent_view(v: WorldView, c: u64, p: Option<u64>) -> WorldView {
    let old_parent = parent_of(v, c);
    if old_parent is Some && p == old_parent {
        v
    } else {
        let v1 = match old_parent {
            Some(o) => if alive(v, o) && v[o].1 is Some {
                v.insert(o, (v[o].0, Some(remove_all(kids(v, o), c)), v[o].2, v[o].3))
            } else {
                v
            },
            None => v,
        };
        match p {
            Some(pp) => {
                let v2 = if alive(v1, c) {
                    v1.insert(c, (Some(pp), v1[c].1, v1[c].2, v1[c].3))
                } else {
                    v1
                };
                if alive(v2, pp) {
                    v2.insert(pp, (v2[pp].0, Some(kids(v2, pp).push(c)), v2[pp].2, v2[pp].3))
                } else {
                    v2
                }
            },
            None => if alive(v1, c) {
                v1.insert(c, (None, v1[c].1, v1[c].2, v1[c].3))
            } else {
                v1
            },
        }
    }
}

/// The list without the entities whose id is `x`.
fn without(list: &Vec<Entity>, x: u64) -> (r: Vec<Entity>)
    ensures
        ids_of(r@) == remove_all(ids_of(list@), x),
{
    let mut r: Vec<Entity> = Vec::new();
    let mut i: usize = 0;
    proof {
        assert(ids_of(list@).take(0) =~= Seq::<u64>::empty());
        assert(ids_of(r@) =~= Seq::<u64>::empty());
    }
    while i < list.len()
        invariant
            i <= list@.len(),
            ids_of(r@) == remove_all(ids_of(list@).take(i as int), x),
        decreases list@.len() - i,
    {
        let e = list[i];
        let b = bits_of(e);
        proof {
            let t = ids_of(list@).take(i + 1);
            assert(t.drop_last() =~= ids_of(list@).take(i as int));
            assert(t.last() == b);
        }
        if b != x {
            r.push(e);
            assert(ids_of(r@) =~= remove_all(ids_of(list@).take(i as int), x).push(b));
        }
        i += 1;
    }
    assert(ids_of(list@).take(list@.len() as int) =~= ids_of(list@));
    r
}

/// Attach `child` under `parent` (or detach it with `None`), maintaining
/// both sides of the link.
pub fn set_parent(world: &mut World, child: Entity, parent: Option<Entity>)
    ensures
        world_view(*final(world)) == set_parent_view(
            world_view(*old(world)),
            entity_bits(child),
            opt_bits(parent),
        ),
{
    let cb = bits_of(child);
    let ghost v = world_view(*world);
    let ghost pb = opt_bits(parent);
    let old_parent = w_get_parent(world, child);
    if let Some(o) = old_parent {
        if let Some(p) = parent {
            if bits_of(p) == bits_of(o) {
                return;
            }
        }
        if let Some(siblings) = w_get_children(world, o) {
            let kept = without(&siblings, cb);
            w_insert_children(world, o, kept);
        }
    }
    let ghost v1 = world_view(*world);
    assert(v1 == match parent_of(v, cb) {
        Some(o) => if alive(v, o) && v[o].1 is Some {
            v.insert(o, (v[o].0, Some(remove_all(kids(v, o), cb)), v[o].2, v[o].3))
        } else {
            v
        },
        None => v,
    });
    match parent {
        Some(p) => {
            w_insert_parent(world, child, p);
            let ghost v2 = world_view(*world);
            match w_get_children(world, p) {
                Some(list) => {
                    let ghost l0 = list@;
                    let mut list = list;
                    list.push(child);
                    proof {
                        assert(list@.drop_last() =~= l0);
                        assert(ids_of(list@) =~= ids_of(l0).push(cb));
                    }
                    w_insert_children(world, p, list);
                    assert(world_view(*world) =~= set_parent_view(v, cb, pb));
                },
                None => {
                    let mut list: Vec<Entity> = Vec::new();
                    list.push(child);
                    proof {
                        assert(ids_of(list@) =~= Seq::<u64>::empty().push(cb));
                        assert(kids(v2, entity_bits(p)) =~= Seq::<u64>::empty());
                    }
                    w_insert_children(world, p, list);
                    assert(world_view(*world) =~= set_parent_view(v, cb, pb));
                },
            }
        },
        None => {
            w_remove_parent(world, child);
            assert(world_view(*world) =~= set_parent_view(v, cb, pb));
        },
    }
    assert(world_view(*world) =~= set_parent_view(v, cb, pb));
}

proof fn lemma_remove_all_is_filter(s: Seq<u64>, x: u64)
    ensures
        remove_all(s, x) == s.filter(|y: u64| y != x),
    decreases s.len(),
{
    reveal(Seq::filter);
    if s.len() > 0 {
        lemma_remove_all_is_filter(s.drop_last(), x);
    }
}

proof fn lemma_remove_all(s: Seq<u64>, x: u64)
    ensures
        !remove_all(s, x).contains(x),
        forall|y: u64| y != x ==> (#[trigger] remove_all(s, x).contains(y) <==> s.contains(y)),
{
    let pred = |y: u64| y != x;
    lemma_remove_all_is_filter(s, x);
    let f = s.filter(pred);
    if f.contains(x) {
        let i = choose|i: int| 0 <= i < f.len() && f[i] == x;
        s.lemma_filter_pred(pred, i);
    }
    assert forall|y: u64| y != x implies (#[trigger] remove_all(s, x).contains(y)
        <==> s.contains(y)) by {
        if s.contains(y) {
            let i = choose|i: int| 0 <= i < s.len() && s[i] == y;
            s.lemma_filter_contains(pred, i);
        }
        if f.contains(y) {
            s.lemma_filter_contains_rev(pred, y);
        }
    }
}

/// Every parent link is mirrored in the parent's child list, and every live
/// entity listed as a child links back to that parent.
pub open spec fn hierarchy_consistent(v: WorldView) -> bool {
    &&& forall|e: u64, p: u64|
        #![trigger parent_of(v, e), kids(v, p)]
        alive(v, e) && parent_of(v, e) == Some(p) && alive(v, p) ==> kids(v, p).contains(e)
    &&& forall|p: u64, x: u64|
        #![trigger kids(v, p).contains(x)]
        alive(v, p) && kids(v, p).contains(x) && alive(v, x) ==> parent_of(v, x) == Some(p)
}

/// Law: attaching a live entity under a live parent links both sides and
/// takes it out of its old parent's child list; names and tags and the set
/// of live entities are untouched.
pub proof fn law_set_parent_attach(v: WorldView, c: u64, p: u64)
    requires
        alive(v, c),
        alive(v, p),
        hierarchy_consistent(v),
    ensures
        parent_of(set_parent_view(v, c, Some(p)), c) == Some(p),
        kids(set_parent_view(v, c, Some(p)), p).contains(c),
        forall|o: u64|
            o != p && parent_of(v, c) == Some(o) ==> !#[trigger] kids(
                set_parent_view(v, c, Some(p)),
                o,
            ).contains(c),
        set_parent_view(v, c, Some(p)).dom() == v.dom(),
        forall|e: u64|
            #![trigger name_of(set_parent_view(v, c, Some(p)), e)]
            name_of(set_parent_view(v, c, Some(p)), e) == name_of(v, e) && tag_of(
                set_parent_view(v, c, Some(p)),
                e,
            ) == tag_of(v, e),
{
    let w = set_parent_view(v, c, Some(p));
    if parent_of(v, c) == Some(p) {
        assert(kids(v, p).contains(c));
    } else {
        match parent_of(v, c) {
            Some(o) => {
                lemma_remove_all(kids(v, o), c);
            },
            None => {},
        }
        let v1 = match parent_of(v, c) {
            Some(o) => if alive(v, o) && v[o].1 is Some {
                v.insert(o, (v[o].0, Some(remove_all(kids(v, o), c)), v[o].2, v[o].3))
            } else {
                v
            },
            None => v,
        };
        let v2 = v1.insert(c, (Some(p), v1[c].1, v1[c].2, v1[c].3));
        assert(kids(w, p) == kids(v2, p).push(c));
        assert(kids(w, p)[kids(v2, p).len() as int] == c);
        assert forall|o: u64| o != p && parent_of(v, c) == Some(o) implies !#[trigger] kids(
            w,
            o,
        ).contains(c) by {
            if alive(v, o) && v[o].1 is Some {
                assert(kids(w, o) == remove_all(kids(v, o), c));
            } else {
                assert(kids(w, o) == kids(v, o));
                assert(kids(v, o) =~= Seq::<u64>::empty());
            }
        }
    }
    assert(w.dom() =~= v.dom());
}

/// Law: detaching a live entity clears its link and takes it out of its old
/// parent's child list.
pub proof fn law_set_parent_detach(v: WorldView, c: u64)
    requires
        alive(v, c),
    ensures
        parent_of(set_parent_view(v, c, None), c) is None,
        forall|o: u64|
            parent_of(v, c) == Some(o) ==> !#[trigger] kids(
                set_parent_view(v, c, None),
                o,
            ).contains(c),
        set_parent_view(v, c, None).dom() == v.dom(),
{
    let w = set_parent_view(v, c, None);
    match parent_of(v, c) {
        Some(o) => {
            lemma_remove_all(kids(v, o), c);
            if !(alive(v, o) && v[o].1 is Some) {
                assert(kids(v, o) =~= Seq::<u64>::empty());
            }
        },
        None => {},
    }
    assert(w.dom() =~= v.dom());
}

/// The set of live entities and the child lists other than those of the old
/// and the new parent are untouched by `set_parent`; the old parent's list
/// loses `c`, the new parent's list gains it at the end.
proof fn lemma_set_parent_shape(v: WorldView, c: u64, p: Option<u64>)
    requires
        !(parent_of(v, c) is Some && p == parent_of(v, c)),
    ensures
        set_parent_view(v, c, p).dom() == v.dom(),
        forall|e: u64| e != c ==> #[trigger] parent_of(set_parent_view(v, c, p), e) == parent_of(v, e),
        alive(v, c) ==> parent_of(set_parent_view(v, c, p), c) == p,
        forall|q: u64|
            #![trigger kids(set_parent_view(v, c, p), q)]
            kids(set_parent_view(v, c, p), q) == {
                let base = if parent_of(v, c) == Some(q) && alive(v, q) && v[q].1 is Some {
                    remove_all(kids(v, q), c)
                } else {
                    kids(v, q)
                };
                if p == Some(q) && alive(v, q) {
                    base.push(c)
                } else {
                    base
                }
            },
{
    let w = set_parent_view(v, c, p);
    assert(w.dom() =~= v.dom());
    assert forall|q: u64| #![trigger kids(set_parent_view(v, c, p), q)] kids(w, q) == {
        let base = if parent_of(v, c) == Some(q) && alive(v, q) && v[q].1 is Some {
            remove_all(kids(v, q), c)
        } else {
            kids(v, q)
        };
        if p == Some(q) && alive(v, q) {
            base.push(c)
        } else {
            base
        }
    } by {
        if parent_of(v, c) == Some(q) && alive(v, q) && v[q].1 is Some {
        } else if parent_of(v, c) == Some(q) && alive(v, q) {
            assert(kids(v, q) =~= Seq::<u64>::empty());
        }
    }
}

/// Law: `set_parent` keeps every parent link mirrored in the parent's child
/// list and every listed live child linked back.
pub proof fn law_set_parent_keeps_consistency(v: WorldView, c: u64, p: Option<u64>)
    requires
        hierarchy_consistent(v),
    ensures
        hierarchy_consistent(set_parent_view(v, c, p)),
{
    if parent_of(v, c) is Some && p == parent_of(v, c) {
        return;
    }
    let w = set_parent_view(v, c, p);
    lemma_set_parent_shape(v, c, p);
    match parent_of(v, c) {
        Some(o) => {
            lemma_remove_all(kids(v, o), c);
        },
        None => {},
    }
    assert forall|e: u64, q: u64|
        #![trigger parent_of(w, e), kids(w, q)]
        alive(w, e) && parent_of(w, e) == Some(q) && alive(w, q) implies kids(w, q).contains(e) by {
        if e == c {
            assert(p == Some(q));
            assert(kids(w, q).last() == c);
        } else {
            assert(parent_of(v, e) == Some(q));
            assert(kids(v, q).contains(e));
            if parent_of(v, c) == Some(q) && alive(v, q) && v[q].1 is Some {
                assert(remove_all(kids(v, q), c).contains(e));
            }
            if p == Some(q) {
                let base = if parent_of(v, c) == Some(q) && alive(v, q) && v[q].1 is Some {
                    remove_all(kids(v, q), c)
                } else {
                    kids(v, q)
                };
                let j = choose|j: int| 0 <= j < base.len() && base[j] == e;
                assert(base.push(c)[j] == e);
            }
        }
    }
    assert forall|q: u64, x: u64|
        #![trigger kids(w, q).contains(x)]
        alive(w, q) && kids(w, q).contains(x) && alive(w, x) implies parent_of(w, x) == Some(q) by {
        let base = if parent_of(v, c) == Some(q) && alive(v, q) && v[q].1 is Some {
            remove_all(kids(v, q), c)
        } else {
            kids(v, q)
        };
        if p == Some(q) && x == c {
        } else {
            if p == Some(q) {
                let j = choose|j: int| 0 <= j < base.len() + 1 && base.push(c)[j] == x;
                if j < base.len() {
                    assert(base[j] == x);
                }
            }
            assert(base.contains(x));
            if parent_of(v, c) == Some(q) && alive(v, q) && v[q].1 is Some {
                assert(x != c);
                assert(kids(v, q).contains(x));
            }
            assert(kids(v, q).contains(x));
            assert(parent_of(v, x) == Some(q));
            if x == c {
                assert(parent_of(v, c) == Some(q));
                assert(false);
            }
        }
    }
}

/// The links agree exactly: no child list names an entity twice, and a live
/// entity is in a live entity's child list exactly when it links to it as
/// its parent.
pub open spec fn links_exact(v: WorldView) -> bool {
    &&& forall|q: u64| #[trigger] kids(v, q).no_duplicates()
    &&& forall|e: u64, q: u64|
        #![trigger kids(v, q).contains(e)]
        alive(v, e) && alive(v, q) ==> (kids(v, q).contains(e) <==> parent_of(v, e) == Some(q))
}

proof fn lemma_remove_all_no_dup(s: Seq<u64>, x: u64)
    requires
        s.no_duplicates(),
    ensures
        remove_all(s, x).no_duplicates(),
    decreases s.len(),
{
    if s.len() > 0 {
        let p = s.drop_last();
        assert(p.no_duplicates()) by {
            assert forall|i: int, j: int| 0 <= i < p.len() && 0 <= j < p.len() && i != j implies p[i]
                != p[j] by {
                assert(p[i] == s[i] && p[j] == s[j]);
            }
        }
        lemma_remove_all_no_dup(p, x);
        if s.last() != x {
            let r = remove_all(p, x);
            lemma_remove_all(p, x);
            assert(!r.contains(s.last())) by {
                if r.contains(s.last()) {
                    assert(p.contains(s.last()));
                    let k = choose|k: int| 0 <= k < p.len() && p[k] == s.last();
                    assert(s[k] == s[s.len() - 1]);
                }
            }
            assert forall|i: int, j: int| 0 <= i < r.push(s.last()).len() && 0 <= j < r.push(
                s.last(),
            ).len() && i != j implies r.push(s.last())[i] != r.push(s.last())[j] by {
                if i == r.len() && j < r.len() {
                    assert(r.push(s.last())[j] == r[j]);
                }
                if j == r.len() && i < r.len() {
                    assert(r.push(s.last())[i] == r[i]);
                }
            }
        }
    }
}

/// Law: when the links agree exactly, `set_parent` keeps them so. Attaching
/// a live child under a live parent leaves it in that parent's child list
/// exactly once and in no other live entity's list; detaching it leaves it
/// in no live entity's list.
pub proof fn law_set_parent_keeps_links(v: WorldView, c: u64, p: Option<u64>)
    requires
        links_exact(v),
        alive(v, c),
        p matches Some(pp) ==> alive(v, pp),
    ensures
        links_exact(set_parent_view(v, c, p)),
        parent_of(set_parent_view(v, c, p), c) == p,
        p matches Some(pp) ==> kids(set_parent_view(v, c, p), pp).contains(c) && kids(
            set_parent_view(v, c, p),
            pp,
        ).no_duplicates(),
        forall|q: u64|
            alive(v, q) && p != Some(q) ==> !#[trigger] kids(set_parent_view(v, c, p), q).contains(c),
        set_parent_view(v, c, p).dom() == v.dom(),
{
    let w = set_parent_view(v, c, p);
    if parent_of(v, c) is Some && p == parent_of(v, c) {
        let pp = p.unwrap();
        assert(kids(v, pp).contains(c));
        assert forall|q: u64| alive(v, q) && p != Some(q) implies !#[trigger] kids(w, q).contains(c) by {
        }
        return;
    }
    lemma_set_parent_shape(v, c, p);
    let old_p = parent_of(v, c);
    match old_p {
        Some(o) => {
            lemma_remove_all(kids(v, o), c);
            lemma_remove_all_no_dup(kids(v, o), c);
        },
        None => {},
    }
    // the list each live entity keeps, before `c` is appended to the new one
    assert forall|q: u64| #![trigger kids(w, q)] alive(v, q) implies !({
        if old_p == Some(q) && alive(v, q) && v[q].1 is Some {
            remove_all(kids(v, q), c)
        } else {
            kids(v, q)
        }
    }).contains(c) by {
        if old_p == Some(q) && alive(v, q) && v[q].1 is Some {
        } else if kids(v, q).contains(c) {
            assert(parent_of(v, c) == Some(q));
            assert(kids(v, q) =~= Seq::<u64>::empty());
        }
    }
    assert forall|q: u64| #[trigger] kids(w, q).no_duplicates() by {
        let base = if old_p == Some(q) && alive(v, q) && v[q].1 is Some {
            remove_all(kids(v, q), c)
        } else {
            kids(v, q)
        };
        assert(base.no_duplicates());
        if p == Some(q) && alive(v, q) {
            assert(!base.contains(c));
            assert forall|i: int, j: int| 0 <= i < base.push(c).len() && 0 <= j < base.push(c).len()
                && i != j implies base.push(c)[i] != base.push(c)[j] by {
                if i == base.len() && j < base.len() {
                    assert(base.push(c)[j] == base[j]);
                }
                if j == base.len() && i < base.len() {
                    assert(base.push(c)[i] == base[i]);
                }
            }
        }
    }
    assert forall|e: u64, q: u64|
        #![trigger kids(w, q).contains(e)]
        alive(w, e) && alive(w, q) implies (kids(w, q).contains(e) <==> parent_of(w, e) == Some(q)) by {
        let base = if old_p == Some(q) && alive(v, q) && v[q].1 is Some {
            remove_all(kids(v, q), c)
        } else {
            kids(v, q)
        };
        if e == c {
            if p == Some(q) {
                assert(base.push(c)[base.len() as int] == c);
            } else {
                assert(!base.contains(c));
            }
        } else {
            assert(base.contains(e) <==> kids(v, q).contains(e));
            if p == Some(q) {
                if base.push(c).contains(e) {
                    let k = choose|k: int| 0 <= k < base.push(c).len() && base.push(c)[k] == e;
                    assert(base[k] == e);
                }
                if base.contains(e) {
                    let k = choose|k: int| 0 <= k < base.len() && base[k] == e;
                    assert(base.push(c)[k] == e);
                }
            }
        }
    }
    match p {
        Some(pp) => {
            assert(kids(w, pp).contains(c) <==> parent_of(w, c) == Some(pp));
        },
        None => {},
    }
}

/// Law: after `set_parent` a live child links to exactly the parent asked
/// for (none for a detach), whatever it was linked to before.
pub proof fn law_set_parent_link(v: WorldView, c: u64, p: Option<u64>)
    requires
        alive(v, c),
    ensures
        parent_of(set_parent_view(v, c, p), c) == p,
{
    if !(parent_of(v, c) is Some && p == parent_of(v, c)) {
        lemma_set_parent_shape(v, c, p);
    }
}

/// All direct children of `e`, in attach order (empty when it has none).
pub fn children(world: &World, e: Entity) -> (r: Vec<Entity>)
    ensures
        ids_of(r@) == kids(world_view(*world), entity_bits(e)),
{
    match w_get_children(world, e) {
        Some(c) => c,
        None => {
            let r: Vec<Entity> = Vec::new();
            assert(ids_of(r@) =~= Seq::<u64>::empty());
            r
        },
    }
}


// ---------------------------------------------------------------------------
// Subtrees
// ---------------------------------------------------------------------------

/// Every child ranks strictly below its parent.
pub open spec fn ranked_by(v: WorldView, rank: spec_fn(u64) -> nat) -> bool {
    forall|e: u64, i: int| 0 <= i < kids(v, e).len() ==> rank(#[trigger] kids(v, e)[i]) < rank(e)
}

/// The child links have no cycle: some ranking decreases along every link.
pub open spec fn acyclic(v: WorldView) -> bool {
    exists|rank: spec_fn(u64) -> nat| ranked_by(v, rank)
}

pub open spec fn rank_of(v: WorldView) -> spec_fn(u64) -> nat {
    choose|rank: spec_fn(u64) -> nat| ranked_by(v, rank)
}

/// Number of entries a depth-first walk visits from `e` (itself included).
pub open spec fn tsize(v: WorldView, r: spec_fn(u64) -> nat, e: u64) -> nat
    decreases r(e), 1nat, 0nat,
{
    1 + fsize(v, r, kids(v, e), r(e))
}

/// Sum of [`tsize`] over the entries of `s` ranked below `bound`.
pub open spec fn fsize(v: WorldView, r: spec_fn(u64) -> nat, s: Seq<u64>, bound: nat) -> nat
    decreases bound, 0nat, s.len(),
{
    if s.len() == 0 {
        0
    } else if r(s.last()) < bound {
        fsize(v, r, s.drop_last(), bound) + tsize(v, r, s.last())
    } else {
        fsize(v, r, s.drop_last(), bound)
    }
}

/// Sum of [`tsize`] over a stack of pending entries.
pub open spec fn ssize(v: WorldView, r: spec_fn(u64) -> nat, s: Seq<u64>) -> nat
    decreases s.len(),
{
    if s.len() == 0 {
        0
    } else {
        ssize(v, r, s.drop_last()) + tsize(v, r, s.last())
    }
}

proof fn lemma_fsize_ssize(v: WorldView, r: spec_fn(u64) -> nat, s: Seq<u64>, bound: nat)
    requires
        forall|i: int| 0 <= i < s.len() ==> r(#[trigger] s[i]) < bound,
    ensures
        fsize(v, r, s, bound) == ssize(v, r, s),
    decreases s.len(),
{
    if s.len() > 0 {
        assert(r(s[s.len() - 1]) < bound);
        lemma_fsize_ssize(v, r, s.drop_last(), bound);
    }
}

proof fn lemma_ssize_add(v: WorldView, r: spec_fn(u64) -> nat, a: Seq<u64>, b: Seq<u64>)
    ensures
        ssize(v, r, a + b) == ssize(v, r, a) + ssize(v, r, b),
    decreases b.len(),
{
    if b.len() == 0 {
        assert(a + b =~= a);
    } else {
        lemma_ssize_add(v, r, a, b.drop_last());
        assert((a + b).drop_last() =~= a + b.drop_last());
    }
}

/// Popping `x` off the stack and pushing its children shrinks the walk by one.
pub proof fn lemma_dfs_step(v: WorldView, stack: Seq<u64>)
    requires
        acyclic(v),
        stack.len() > 0,
    ensures
        ssize(v, rank_of(v), stack.drop_last() + kids(v, stack.last())) + 1 == ssize(
            v,
            rank_of(v),
            stack,
        ),
{
    let r = rank_of(v);
    let x = stack.last();
    assert forall|i: int| 0 <= i < kids(v, x).len() implies r(#[trigger] kids(v, x)[i]) < r(x) by {
    }
    lemma_fsize_ssize(v, r, kids(v, x), r(x));
    lemma_ssize_add(v, r, stack.drop_last(), kids(v, x));
}

/// Depth-first order of everything reachable from a stack of pending
/// entries: the top of the stack first, then (with its children pushed on
/// top of the rest) the walk continues.
pub open spec fn dfs(v: WorldView, stack: Seq<u64>) -> Seq<u64>
    decreases ssize(v, rank_of(v), stack),
    when acyclic(v)
{
    if stack.len() == 0 {
        Seq::empty()
    } else {
        proof {
            lemma_dfs_step(v, stack);
        }
        seq![stack.last()] + dfs(v, stack.drop_last() + kids(v, stack.last()))
    }
}

/// Every entity below `e` (children, grandchildren, ...), depth first,
/// excluding `e`.
pub open spec fn descendants_of(v: WorldView, e: u64) -> Seq<u64> {
    dfs(v, kids(v, e))
}

/// `s` is a walk down child links: each entry is a child of the one before.
pub open spec fn child_path(v: WorldView, s: Seq<u64>) -> bool {
    forall|k: int| 0 <= k < s.len() - 1 ==> kids(v, #[trigger] s[k]).contains(s[k + 1])
}

/// `x` is `c` itself or one of its descendants.
pub open spec fn in_subtree(v: WorldView, c: u64, x: u64) -> bool {
    exists|s: Seq<u64>| #[trigger] child_path(v, s) && s.len() > 0 && s[0] == c && s.last() == x
}

proof fn lemma_subtree_closed(v: WorldView, c: u64, x: u64, y: u64)
    requires
        in_subtree(v, c, x),
        kids(v, x).contains(y),
    ensures
        in_subtree(v, c, y),
{
    let s = choose|s: Seq<u64>| #[trigger] child_path(v, s) && s.len() > 0 && s[0] == c && s.last() == x;
    let t = s.push(y);
    assert forall|k: int| 0 <= k < t.len() - 1 implies kids(v, #[trigger] t[k]).contains(t[k + 1]) by {
        if k < s.len() - 1 {
            assert(t[k] == s[k] && t[k + 1] == s[k + 1]);
        } else {
            assert(t[k] == x && t[k + 1] == y);
        }
    }
    assert(child_path(v, t));
}

/// Law: re-parenting keeps the hierarchy free of cycles, unless the new
/// parent is the entity itself or one of its descendants; detaching always
/// keeps it free of cycles.
pub proof fn law_set_parent_keeps_acyclic(v: WorldView, c: u64, p: Option<u64>)
    requires
        acyclic(v),
        p matches Some(pp) ==> !in_subtree(v, c, pp),
    ensures
        acyclic(set_parent_view(v, c, p)),
{
    let r = rank_of(v);
    let w = set_parent_view(v, c, p);
    if parent_of(v, c) is Some && p == parent_of(v, c) {
        assert(ranked_by(w, r));
        return;
    }
    lemma_set_parent_shape(v, c, p);
    match parent_of(v, c) {
        Some(o) => {
            lemma_remove_all(kids(v, o), c);
        },
        None => {},
    }
    let r2 = |x: u64| if in_subtree(v, c, x) { r(x) } else { r(x) + r(c) + 1 };
    assert forall|e: u64, i: int| 0 <= i < kids(w, e).len() implies r2(#[trigger] kids(w, e)[i]) < r2(e) by {
        let y = kids(w, e)[i];
        let base = if parent_of(v, c) == Some(e) && alive(v, e) && v[e].1 is Some {
            remove_all(kids(v, e), c)
        } else {
            kids(v, e)
        };
        if p == Some(e) && alive(v, e) && i == base.len() {
            assert(y == c);
            assert(child_path(v, seq![c]));
            assert(in_subtree(v, c, c));
            assert(!in_subtree(v, c, e));
        } else {
            assert(base.contains(y)) by {
                if p == Some(e) && alive(v, e) {
                    assert(base.push(c)[i] == y);
                }
                assert(base[i] == y);
            }
            assert(kids(v, e).contains(y)) by {
                if parent_of(v, c) == Some(e) && alive(v, e) && v[e].1 is Some {
                    assert(remove_all(kids(v, e), c).contains(y));
                    assert(y != c);
                }
            }
            let j = choose|j: int| 0 <= j < kids(v, e).len() && kids(v, e)[j] == y;
            assert(r(kids(v, e)[j]) < r(e));
            if in_subtree(v, c, e) {
                lemma_subtree_closed(v, c, e, y);
            }
        }
    }
    assert(ranked_by(w, r2));
}

/// Everything reachable down child links from an entry of the stack is in
/// the depth-first walk of the stack.
proof fn lemma_dfs_complete(v: WorldView, stack: Seq<u64>, path: Seq<u64>)
    requires
        acyclic(v),
        child_path(v, path),
        path.len() > 0,
        stack.contains(path[0]),
    ensures
        dfs(v, stack).contains(path.last()),
    decreases ssize(v, rank_of(v), stack),
{
    let top = stack.last();
    let rest = stack.drop_last() + kids(v, top);
    lemma_dfs_step(v, stack);
    assert(dfs(v, stack) == seq![top] + dfs(v, rest));
    if path[0] == top && path.len() == 1 {
        assert(dfs(v, stack)[0] == top);
    } else if path[0] == top {
        let tail = path.drop_first();
        assert(kids(v, path[0]).contains(path[1]));
        assert(child_path(v, tail)) by {
            assert forall|k: int| 0 <= k < tail.len() - 1 implies kids(v, #[trigger] tail[k]).contains(
                tail[k + 1],
            ) by {
                assert(tail[k] == path[k + 1] && tail[k + 1] == path[k + 2]);
            }
        }
        let j = choose|j: int| 0 <= j < kids(v, top).len() && kids(v, top)[j] == path[1];
        assert(rest[stack.len() - 1 + j] == tail[0]);
        lemma_dfs_complete(v, rest, tail);
        let q = choose|q: int| 0 <= q < dfs(v, rest).len() && dfs(v, rest)[q] == tail.last();
        assert(dfs(v, stack)[q + 1] == path.last());
    } else {
        let k = choose|k: int| 0 <= k < stack.len() && stack[k] == path[0];
        assert(k < stack.len() - 1);
        assert(rest[k] == path[0]);
        lemma_dfs_complete(v, rest, path);
        let q = choose|q: int| 0 <= q < dfs(v, rest).len() && dfs(v, rest)[q] == path.last();
        assert(dfs(v, stack)[q + 1] == path.last());
    }
}

/// Everything in the depth-first walk of a stack is reachable down child
/// links from an entry of the stack.
proof fn lemma_dfs_sound(v: WorldView, stack: Seq<u64>, x: u64)
    requires
        acyclic(v),
        dfs(v, stack).contains(x),
    ensures
        exists|y: u64| stack.contains(y) && #[trigger] in_subtree(v, y, x),
    decreases ssize(v, rank_of(v), stack),
{
    let top = stack.last();
    let rest = stack.drop_last() + kids(v, top);
    if stack.len() == 0 {
        assert(false);
    }
    lemma_dfs_step(v, stack);
    assert(dfs(v, stack) == seq![top] + dfs(v, rest));
    if x == top {
        assert(child_path(v, seq![top]));
        assert(in_subtree(v, top, x));
        assert(stack.contains(top));
    } else {
        let q = choose|q: int| 0 <= q < dfs(v, stack).len() && dfs(v, stack)[q] == x;
        assert(dfs(v, rest)[q - 1] == x);
        lemma_dfs_sound(v, rest, x);
        let y = choose|y: u64| rest.contains(y) && #[trigger] in_subtree(v, y, x);
        let i = choose|i: int| 0 <= i < rest.len() && rest[i] == y;
        if i < stack.len() - 1 {
            assert(stack[i] == y);
        } else {
            assert(kids(v, top)[i - (stack.len() - 1)] == y);
            let s = choose|s: Seq<u64>| #[trigger] child_path(v, s) && s.len() > 0 && s[0] == y && s.last() == x;
            let t = seq![top] + s;
            assert forall|k: int| 0 <= k < t.len() - 1 implies kids(v, #[trigger] t[k]).contains(t[k + 1]) by {
                if k == 0 {
                    assert(t[0] == top && t[1] == y);
                } else {
                    assert(t[k] == s[k - 1] && t[k + 1] == s[k]);
                }
            }
            assert(child_path(v, t) && t[0] == top && t.last() == x);
            assert(in_subtree(v, top, x));
            assert(stack.contains(top));
        }
    }
}

/// The descendants of `c` are exactly the entities other than `c` in its
/// subtree (a child list naming `c` itself lies on a cycle).
proof fn lemma_descendants_subtree(v: WorldView, c: u64, x: u64)
    requires
        acyclic(v),
        x != c,
    ensures
        descendants_of(v, c).contains(x) <==> in_subtree(v, c, x),
{
    if in_subtree(v, c, x) {
        let s = choose|s: Seq<u64>| #[trigger] child_path(v, s) && s.len() > 0 && s[0] == c && s.last() == x;
        assert(s.len() > 1);
        let tail = s.drop_first();
        assert(child_path(v, tail)) by {
            assert forall|k: int| 0 <= k < tail.len() - 1 implies kids(v, #[trigger] tail[k]).contains(
                tail[k + 1],
            ) by {
                assert(tail[k] == s[k + 1] && tail[k + 1] == s[k + 2]);
            }
        }
        assert(kids(v, s[0]).contains(s[1]));
        lemma_dfs_complete(v, kids(v, c), tail);
    }
    if descendants_of(v, c).contains(x) {
        lemma_dfs_sound(v, kids(v, c), x);
        let y = choose|y: u64| kids(v, c).contains(y) && #[trigger] in_subtree(v, y, x);
        let s = choose|s: Seq<u64>| #[trigger] child_path(v, s) && s.len() > 0 && s[0] == y && s.last() == x;
        let t = seq![c] + s;
        assert forall|k: int| 0 <= k < t.len() - 1 implies kids(v, #[trigger] t[k]).contains(t[k + 1]) by {
            if k == 0 {
                assert(t[0] == c && t[1] == y);
            } else {
                assert(t[k] == s[k - 1] && t[k + 1] == s[k]);
            }
        }
        assert(child_path(v, t) && t[0] == c && t.last() == x);
    }
}

/// The world after despawning `e` with its subtree: what `e` and its
/// descendants held is gone when `e` is alive and the child links have no
/// cycle; otherwise nothing changes.
pub open spec fn after_despawn(v: WorldView, e: u64) -> WorldView {
    if alive(v, e) && acyclic(v) {
        v.remove_keys(descendants_of(v, e).to_set().insert(e))
    } else {
        v
    }
}

/// The world after despawning each queued entity (with its subtree) in
/// turn.
pub open spec fn despawn_all(v: WorldView, q: Seq<u64>) -> WorldView
    decreases q.len(),
{
    if q.len() == 0 {
        v
    } else {
        after_despawn(despawn_all(v, q.drop_last()), q.last())
    }
}

/// `w` keeps some of the entities of `v`, each with the same record.
pub open spec fn kept_from(v: WorldView, w: WorldView) -> bool {
    &&& w.dom().subset_of(v.dom())
    &&& forall|y: u64| #[trigger] w.dom().contains(y) ==> w[y] == v[y]
}

proof fn lemma_despawn_all_kept(v: WorldView, q: Seq<u64>)
    ensures
        kept_from(v, despawn_all(v, q)),
    decreases q.len(),
{
    if q.len() > 0 {
        lemma_despawn_all_kept(v, q.drop_last());
    }
}

/// A walk down child links in a world that kept part of another is a walk
/// there too.
proof fn lemma_kept_subtree(v: WorldView, w: WorldView, a: u64, x: u64)
    requires
        kept_from(v, w),
        in_subtree(w, a, x),
    ensures
        in_subtree(v, a, x),
{
    let s = choose|s: Seq<u64>| #[trigger] child_path(w, s) && s.len() > 0 && s[0] == a && s.last() == x;
    assert forall|k: int| 0 <= k < s.len() - 1 implies kids(v, #[trigger] s[k]).contains(s[k + 1]) by {
        assert(kids(w, s[k]).contains(s[k + 1]));
        assert(alive(w, s[k]));
        assert(w[s[k]] == v[s[k]]);
        assert(kids(w, s[k]) == kids(v, s[k]));
    }
    assert(child_path(v, s));
}

/// Law: despawning the queued entities removes nothing else: a live entity
/// that is not queued and lies below no queued entity is still alive
/// afterwards with the same parent, children, name and tag.
pub proof fn law_despawn_all_spares_others(v: WorldView, q: Seq<u64>, x: u64)
    requires
        alive(v, x),
        forall|i: int| 0 <= i < q.len() ==> #[trigger] q[i] != x && !in_subtree(v, q[i], x),
    ensures
        alive(despawn_all(v, q), x),
        despawn_all(v, q)[x] == v[x],
    decreases q.len(),
{
    if q.len() > 0 {
        let p = q.drop_last();
        assert forall|i: int| 0 <= i < p.len() implies #[trigger] p[i] != x && !in_subtree(v, p[i], x) by {
            assert(p[i] == q[i]);
        }
        law_despawn_all_spares_others(v, p, x);
        let w = despawn_all(v, p);
        let e = q.last();
        assert(q[q.len() - 1] == e);
        lemma_despawn_all_kept(v, p);
        if alive(w, e) && acyclic(w) {
            if descendants_of(w, e).contains(x) {
                lemma_descendants_subtree(w, e, x);
                lemma_kept_subtree(v, w, e, x);
            }
        }
    }
}

/// Law: every queued entity is dead afterwards, and so is everything that
/// was below a queued entity still alive when its turn came.
pub proof fn law_despawn_all_removes_queued(v: WorldView, q: Seq<u64>, i: int)
    requires
        acyclic(v),
        0 <= i < q.len(),
    ensures
        !alive(despawn_all(v, q), q[i]),
        acyclic(despawn_all(v, q)),
    decreases q.len(),
{
    let p = q.drop_last();
    let w = despawn_all(v, p);
    lemma_despawn_all_acyclic(v, p);
    if i < q.len() - 1 {
        assert(p[i] == q[i]);
        law_despawn_all_removes_queued(v, p, i);
    }
    if alive(w, q.last()) && acyclic(w) {
        law_remove_keeps_acyclic(w, descendants_of(w, q.last()).to_set().insert(q.last()));
    }
}

proof fn lemma_despawn_all_acyclic(v: WorldView, q: Seq<u64>)
    requires
        acyclic(v),
    ensures
        acyclic(despawn_all(v, q)),
    decreases q.len(),
{
    if q.len() > 0 {
        lemma_despawn_all_acyclic(v, q.drop_last());
        let w = despawn_all(v, q.drop_last());
        if alive(w, q.last()) && acyclic(w) {
            law_remove_keeps_acyclic(w, descendants_of(w, q.last()).to_set().insert(q.last()));
        }
    }
}

/// Law: removing entities never creates a cycle, so a hierarchy stays
/// acyclic through any number of (recursive) despawns.
pub proof fn law_remove_keeps_acyclic(v: WorldView, ks: Set<u64>)
    requires
        acyclic(v),
    ensures
        acyclic(v.remove_keys(ks)),
{
    let r = rank_of(v);
    let w = v.remove_keys(ks);
    assert forall|e: u64, i: int| 0 <= i < kids(w, e).len() implies r(#[trigger] kids(w, e)[i]) < r(e) by {
        assert(kids(w, e) == kids(v, e));
    }
    assert(ranked_by(w, r));
}

/// Each entry of `done` is alive and each of its live children comes
/// earlier in `done`.
pub open spec fn peel_order(v: WorldView, done: Seq<u64>) -> bool {
    &&& done.no_duplicates()
    &&& forall|i: int| 0 <= i < done.len() ==> alive(v, #[trigger] done[i])
    &&& forall|i: int, k: int|
        0 <= i < done.len() && 0 <= k < kids(v, done[i]).len() && alive(v, #[trigger] kids(v, done[i])[k])
            ==> exists|q: int| 0 <= q < i && done[q] == kids(v, done[i])[k]
}

/// A peel order covering every live entity ranks the hierarchy.
proof fn lemma_peel_acyclic(v: WorldView, done: Seq<u64>)
    requires
        peel_order(v, done),
        forall|x: u64| alive(v, x) ==> #[trigger] done.contains(x),
    ensures
        acyclic(v),
{
    let r = |x: u64|
        if done.contains(x) {
            (choose|i: int| 0 <= i < done.len() && done[i] == x) as nat + 1
        } else {
            0nat
        };
    assert forall|e: u64, k: int| 0 <= k < kids(v, e).len() implies r(#[trigger] kids(v, e)[k]) < r(e) by {
        let y = kids(v, e)[k];
        assert(alive(v, e));
        assert(done.contains(e));
        let p = choose|i: int| 0 <= i < done.len() && done[i] == e;
        if alive(v, y) {
            let q = choose|q: int| 0 <= q < p && done[q] == kids(v, done[p])[k];
            assert(done.contains(y));
            let q2 = choose|i: int| 0 <= i < done.len() && done[i] == y;
            assert(q2 == q);
        } else {
            if done.contains(y) {
                let q2 = choose|i: int| 0 <= i < done.len() && done[i] == y;
                assert(alive(v, done[q2]));
            }
        }
    }
    assert(ranked_by(v, r));
}

/// Entities that each have a child among themselves lie on a cycle.
proof fn lemma_no_sink(v: WorldView, r: spec_fn(u64) -> nat, ss: Seq<u64>, succ: spec_fn(u64) -> u64, x: u64)
    requires
        ss.contains(x),
        forall|y: u64| ss.contains(y) ==> kids(v, y).contains(#[trigger] succ(y)) && ss.contains(succ(y)),
    ensures
        !ranked_by(v, r),
    decreases r(x),
{
    if ranked_by(v, r) {
        let k = succ(x);
        assert(kids(v, x).contains(k) && ss.contains(k));
        let i = choose|i: int| 0 <= i < kids(v, x).len() && kids(v, x)[i] == k;
        assert(r(kids(v, x)[i]) < r(x));
        lemma_no_sink(v, r, ss, succ, k);
    }
}

/// State of the peeling: `remaining` and `done` split the live entities.
pub open spec fn peel_state(v: WorldView, remaining: Seq<u64>, done: Seq<u64>) -> bool {
    &&& peel_order(v, done)
    &&& remaining.no_duplicates()
    &&& forall|x: u64| #[trigger] remaining.contains(x) ==> alive(v, x) && !done.contains(x)
    &&& forall|x: u64| alive(v, x) ==> remaining.contains(x) || #[trigger] done.contains(x)
}

/// One pass: every remaining entity whose live children are all set aside
/// is set aside too; the others are returned. Each returned entity has a
/// live child that was not set aside when the pass began.
fn peel_pass(world: &World, remaining: &Vec<Entity>, done: &mut Vec<u64>) -> (next: Vec<Entity>)
    requires
        peel_state(world_view(*world), ids_of(remaining@), old(done)@),
    ensures
        peel_state(world_view(*world), ids_of(next@), final(done)@),
        next@.len() + (final(done)@.len() - old(done)@.len()) == remaining@.len(),
        final(done)@.len() >= old(done)@.len(),
        final(done)@.subrange(0, old(done)@.len() as int) == old(done)@,
        forall|x: u64| #[trigger]
            ids_of(next@).contains(x) ==> exists|k: u64|
                kids(world_view(*world), x).contains(k) && alive(world_view(*world), k) && !old(
                    done,
                )@.contains(k),
{
    let ghost v = world_view(*world);
    let ghost done_start = done@;
    let ghost d_start = done@.len();
    let mut next: Vec<Entity> = Vec::new();
    proof {
        assert forall|j: int| 0 <= j < remaining@.len() implies !done@.contains(#[trigger] ids_of(remaining@)[j]) by {
            assert(ids_of(remaining@).contains(ids_of(remaining@)[j]));
        }
        assert(ids_of(next@) =~= Seq::<u64>::empty());
        assert(done@.subrange(0, d_start as int) =~= done_start);
    }
    let mut i: usize = 0;
    while i < remaining.len()
        invariant
            v == world_view(*world),
            i <= remaining@.len(),
            d_start == done_start.len(),
            d_start <= done@.len(),
            next@.len() + (done@.len() - d_start) == i,
            peel_order(v, done@),
            ids_of(remaining@).no_duplicates(),
            forall|x: u64| #[trigger] ids_of(remaining@).contains(x) ==> alive(v, x),
            forall|x: u64| alive(v, x) ==> ids_of(remaining@).contains(x) || #[trigger] done@.contains(x),
            forall|j: int|
                i <= j < remaining@.len() ==> !done@.contains(#[trigger] ids_of(remaining@)[j]),
            forall|j: int|
                0 <= j < i ==> ids_of(next@).contains(#[trigger] ids_of(remaining@)[j]) || done@.contains(
                    ids_of(remaining@)[j],
                ),
            forall|x: u64| #[trigger]
                ids_of(next@).contains(x) ==> alive(v, x) && !done@.contains(x) && exists|j: int|
                    0 <= j < i && ids_of(remaining@)[j] == x,
            ids_of(next@).no_duplicates(),
            done@.subrange(0, d_start as int) == done_start,
            forall|x: u64| #[trigger]
                ids_of(next@).contains(x) ==> exists|k: u64|
                    kids(v, x).contains(k) && alive(v, k) && !done_start.contains(k),
        decreases remaining@.len() - i,
    {
        let x = remaining[i];
        let bx = bits_of(x);
        assert(ids_of(remaining@)[i as int] == bx);
        assert(ids_of(remaining@).contains(bx));
        assert(alive(v, bx));
        assert(!done@.contains(bx));
        let ks = children(world, x);
        let mut ok = true;
        let mut j: usize = 0;
        while j < ks.len()
            invariant_except_break
                ok,
                j <= ks@.len(),
                ids_of(ks@) == kids(v, bx),
                v == world_view(*world),
                forall|t: int| 0 <= t < j && alive(v, #[trigger] ids_of(ks@)[t]) ==> done@.contains(ids_of(ks@)[t]),
            ensures
                ids_of(ks@) == kids(v, bx),
                ok ==> forall|t: int| 0 <= t < ks@.len() && alive(v, #[trigger] ids_of(ks@)[t]) ==> done@.contains(ids_of(ks@)[t]),
                !ok ==> j < ks@.len() && alive(v, ids_of(ks@)[j as int]) && !done@.contains(ids_of(ks@)[j as int]),
            decreases ks@.len() - j,
        {
            let k = ks[j];
            let kb = bits_of(k);
            assert(ids_of(ks@)[j as int] == kb);
            let live = w_contains(world, k);
            if live && !contains_id(&done, kb) {
                ok = false;
                break;
            }
            j += 1;
        }
        if ok {
            let ghost d0 = done@;
            proof {
                if ids_of(next@).contains(bx) {
                    let j2 = choose|j2: int| 0 <= j2 < i && ids_of(remaining@)[j2] == bx;
                    assert(ids_of(remaining@)[j2] == ids_of(remaining@)[i as int]);
                }
            }
            done.push(bx);
            proof {
                assert forall|a: int, b: int| 0 <= a < b < done@.len() implies done@[a] != done@[b] by {
                    if b == d0.len() {
                        assert(d0.contains(d0[a]));
                    }
                }
                assert forall|a: int, k: int|
                    0 <= a < done@.len() && 0 <= k < kids(v, done@[a]).len() && alive(v, #[trigger] kids(v, done@[a])[k])
                        implies exists|q: int| 0 <= q < a && done@[q] == kids(v, done@[a])[k] by {
                    if a < d0.len() {
                        assert(done@[a] == d0[a]);
                        let q = choose|q: int| 0 <= q < a && d0[q] == kids(v, d0[a])[k];
                        assert(done@[q] == d0[q]);
                    } else {
                        assert(done@[a] == bx);
                        assert(ids_of(ks@)[k] == kids(v, bx)[k]);
                        assert(d0.contains(kids(v, bx)[k]));
                        let q = choose|q: int| 0 <= q < d0.len() && d0[q] == kids(v, bx)[k];
                        assert(done@[q] == d0[q]);
                    }
                }
                assert forall|a: int| 0 <= a < done@.len() implies alive(v, #[trigger] done@[a]) by {
                    if a < d0.len() {
                        assert(done@[a] == d0[a]);
                    }
                }
                assert(peel_order(v, done@));
                assert(done@.subrange(0, d_start as int) =~= d0.subrange(0, d_start as int));
                assert forall|j2: int|
                    i + 1 <= j2 < remaining@.len() implies !done@.contains(#[trigger] ids_of(remaining@)[j2]) by {
                    assert(ids_of(remaining@)[j2] != ids_of(remaining@)[i as int]);
                    if done@.contains(ids_of(remaining@)[j2]) {
                        let q = choose|q: int| 0 <= q < done@.len() && done@[q] == ids_of(remaining@)[j2];
                        if q < d0.len() {
                            assert(d0[q] == ids_of(remaining@)[j2]);
                        }
                    }
                }
                assert forall|j2: int|
                    0 <= j2 < i + 1 implies ids_of(next@).contains(#[trigger] ids_of(remaining@)[j2]) || done@.contains(
                        ids_of(remaining@)[j2],
                    ) by {
                    if j2 == i {
                        assert(done@[d0.len() as int] == bx);
                    } else if d0.contains(ids_of(remaining@)[j2]) {
                        let q = choose|q: int| 0 <= q < d0.len() && d0[q] == ids_of(remaining@)[j2];
                        assert(done@[q] == d0[q]);
                    }
                }
                assert forall|y: u64| #[trigger] ids_of(next@).contains(y) implies alive(v, y) && !done@.contains(y)
                    && exists|j2: int| 0 <= j2 < i + 1 && ids_of(remaining@)[j2] == y by {
                    if done@.contains(y) {
                        let q = choose|q: int| 0 <= q < done@.len() && done@[q] == y;
                        if q < d0.len() {
                            assert(d0[q] == y);
                        }
                    }
                }
                assert forall|y: u64| alive(v, y) implies ids_of(remaining@).contains(y) || #[trigger] done@.contains(y) by {
                    if d0.contains(y) {
                        let q = choose|q: int| 0 <= q < d0.len() && d0[q] == y;
                        assert(done@[q] == y);
                    }
                }
            }
        } else {
            let ghost n0 = ids_of(next@);
            proof {
                if n0.contains(bx) {
                    let j2 = choose|j2: int| 0 <= j2 < i && ids_of(remaining@)[j2] == bx;
                    assert(ids_of(remaining@)[j2] == ids_of(remaining@)[i as int]);
                }
            }
            next.push(x);
            proof {
                assert(ids_of(next@) =~= n0.push(bx));
                assert forall|a: int, b: int| 0 <= a < b < ids_of(next@).len() implies ids_of(next@)[a] != ids_of(next@)[b] by {
                    if b == n0.len() {
                        assert(n0.contains(n0[a]));
                    }
                }
                assert forall|j2: int|
                    0 <= j2 < i + 1 implies ids_of(next@).contains(#[trigger] ids_of(remaining@)[j2]) || done@.contains(
                        ids_of(remaining@)[j2],
                    ) by {
                    if j2 == i {
                        assert(ids_of(next@)[n0.len() as int] == bx);
                    } else if n0.contains(ids_of(remaining@)[j2]) {
                        let q = choose|q: int| 0 <= q < n0.len() && n0[q] == ids_of(remaining@)[j2];
                        assert(ids_of(next@)[q] == n0[q]);
                    }
                }
                assert forall|y: u64| #[trigger] ids_of(next@).contains(y) implies alive(v, y) && !done@.contains(y)
                    && exists|j2: int| 0 <= j2 < i + 1 && ids_of(remaining@)[j2] == y by {
                    if y != bx {
                        let q = choose|q: int| 0 <= q < ids_of(next@).len() && ids_of(next@)[q] == y;
                        assert(n0[q] == y);
                        assert(n0.contains(y));
                    } else {
                        assert(ids_of(remaining@)[i as int] == y);
                    }
                }
                assert forall|y: u64| #[trigger] ids_of(next@).contains(y) implies exists|k: u64|
                    kids(v, y).contains(k) && alive(v, k) && !done_start.contains(k) by {
                    if y == bx {
                        let k = ids_of(ks@)[j as int];
                        assert(kids(v, bx)[j as int] == k);
                        assert(kids(v, y).contains(k));
                        if done_start.contains(k) {
                            let q = choose|q: int| 0 <= q < done_start.len() && done_start[q] == k;
                            assert(done@.subrange(0, d_start as int)[q] == k);
                            assert(done@[q] == k);
                        }
                    } else {
                        let q = choose|q: int| 0 <= q < ids_of(next@).len() && ids_of(next@)[q] == y;
                        assert(n0[q] == y);
                        assert(n0.contains(y));
                    }
                }
            }
        }
        i += 1;
    }
    proof {
        assert forall|y: u64| alive(v, y) implies ids_of(next@).contains(y) || #[trigger] done@.contains(y) by {
            if !done@.contains(y) {
                assert(ids_of(remaining@).contains(y));
                let j2 = choose|j2: int| 0 <= j2 < ids_of(remaining@).len() && ids_of(remaining@)[j2] == y;
                assert(ids_of(next@).contains(ids_of(remaining@)[j2]) || done@.contains(ids_of(remaining@)[j2]));
            }
        }
    }
    next
}

/// A pass that sets nothing aside leaves entities that each have a live
/// child among themselves: the hierarchy has a cycle.
proof fn lemma_stuck_cyclic(v: WorldView, ss: Seq<u64>, done: Seq<u64>)
    requires
        forall|x: u64| alive(v, x) ==> ss.contains(x) || #[trigger] done.contains(x),
        ss.len() > 0,
        forall|x: u64| #[trigger]
            ss.contains(x) ==> exists|k: u64| kids(v, x).contains(k) && alive(v, k) && !done.contains(k),
    ensures
        !acyclic(v),
{
    let succ = |y: u64| choose|k: u64| kids(v, y).contains(k) && alive(v, k) && !done.contains(k);
    assert forall|y: u64| ss.contains(y) implies kids(v, y).contains(#[trigger] succ(y)) && ss.contains(
        succ(y),
    ) by {
        assert(exists|k: u64| kids(v, y).contains(k) && alive(v, k) && !done.contains(k));
        let k = succ(y);
        assert(alive(v, k) && !done.contains(k));
        assert(ss.contains(k) || done.contains(k));
    }
    assert(ss.contains(ss[0]));
    if acyclic(v) {
        lemma_no_sink(v, rank_of(v), ss, succ, ss[0]);
    }
}

/// Whether the child links of the world are free of cycles, found by
/// repeatedly setting aside the entities whose live children are all set
/// aside already.
/// Reserved entities are placed in storage first, so that every live
/// entity is looked at; what the world holds is unchanged.
pub fn hierarchy_is_acyclic(world: &mut World) -> (r: bool)
    ensures
        r == acyclic(world_view(*old(world))),
        world_view(*final(world)) == world_view(*old(world)),
{
    w_flush(world);
    let ghost v = world_view(*world);
    let mut remaining = w_entities(world);
    let mut done: Vec<u64> = Vec::new();
    proof {
        assert(peel_state(v, ids_of(remaining@), done@));
    }
    loop
        invariant
            v == world_view(*world),
            v == world_view(*old(world)),
            peel_state(v, ids_of(remaining@), done@),
        decreases remaining@.len(),
    {
        if remaining.len() == 0 {
            proof {
                assert forall|x: u64| alive(v, x) implies #[trigger] done@.contains(x) by {
                    if ids_of(remaining@).contains(x) {
                        let j = choose|j: int| 0 <= j < ids_of(remaining@).len() && ids_of(remaining@)[j] == x;
                    }
                }
                lemma_peel_acyclic(v, done@);
            }
            return true;
        }
        let ghost d0 = done@;
        let next = peel_pass(world, &remaining, &mut done);
        if next.len() == remaining.len() {
            proof {
                assert(done@ =~= d0);
                lemma_stuck_cyclic(v, ids_of(next@), done@);
            }
            return false;
        }
        remaining = next;
    }
}

/// `x` occurs in `s`.
fn contains_id(s: &Vec<u64>, x: u64) -> (r: bool)
    ensures
        r == s@.contains(x),
{
    let mut i: usize = 0;
    while i < s.len()
        invariant
            i <= s@.len(),
            forall|j: int| 0 <= j < i ==> s@[j] != x,
        decreases s@.len() - i,
    {
        if s[i] == x {
            return true;
        }
        i += 1;
    }
    false
}

/// Depth-first descendant list (excluding `e`).
pub fn descendants(world: &World, e: Entity) -> (r: Vec<Entity>)
    requires
        acyclic(world_view(*world)),
    ensures
        ids_of(r@) == descendants_of(world_view(*world), entity_bits(e)),
{
    let ghost v = world_view(*world);
    let mut out: Vec<Entity> = Vec::new();
    let mut stack = children(world, e);
    proof {
        assert(ids_of(out@) =~= Seq::<u64>::empty());
        assert(Seq::<u64>::empty() + dfs(v, ids_of(stack@)) =~= dfs(v, ids_of(stack@)));
    }
    loop
        invariant
            v == world_view(*world),
            acyclic(v),
            ids_of(out@) + dfs(v, ids_of(stack@)) == descendants_of(v, entity_bits(e)),
        decreases ssize(v, rank_of(v), ids_of(stack@)),
    {
        let ghost s0 = stack@;
        let ghost out0 = out@;
        match stack.pop() {
            None => {
                proof {
                    assert(ids_of(stack@) =~= Seq::<u64>::empty());
                    assert(ids_of(out@) + Seq::<u64>::empty() =~= ids_of(out@));
                }
                return out;
            },
            Some(c) => {
                let ghost before = ids_of(s0);
                proof {
                    assert(s0 =~= stack@.push(c));
                    assert(before.drop_last() =~= ids_of(stack@));
                    assert(before.last() == entity_bits(c));
                    lemma_dfs_step(v, before);
                }
                out.push(c);
                let more = children(world, c);
                let mut more = more;
                stack.append(&mut more);
                proof {
                    assert(ids_of(stack@) =~= before.drop_last() + kids(v, before.last()));
                    assert(dfs(v, before) == seq![before.last()] + dfs(
                        v,
                        before.drop_last() + kids(v, before.last()),
                    ));
                    assert(ids_of(out@) =~= ids_of(out0).push(entity_bits(c)));
                    assert(ids_of(out@) + dfs(v, ids_of(stack@)) =~= ids_of(out0) + dfs(v, before));
                }
            },
        }
    }
}


/// Remove `e` and its whole subtree. Child lists that still name a removed
/// entity (those of `e`'s own parent) are left as they are; every other
/// entity keeps its components and its `Visible` flag. Reserved entities
/// are placed in storage on the way.
pub fn despawn_recursive(world: &mut World, e: Entity)
    requires
        acyclic(world_view(*old(world))),
    ensures
        world_view(*final(world)) == world_view(*old(world)).remove_keys(
            descendants_of(world_view(*old(world)), entity_bits(e)).to_set().insert(entity_bits(e)),
        ),
        visibility(*final(world)) == visibility(*old(world)).remove_keys(
            descendants_of(world_view(*old(world)), entity_bits(e)).to_set().insert(entity_bits(e)),
        ),
        reserved_ids(*final(world)) == Set::<u64>::empty(),
{
    let ghost v = world_view(*world);
    let ghost vis = visibility(*world);
    let ds = descendants(world, e);
    let ghost d = ids_of(ds@);
    let mut i: usize = 0;
    proof {
        assert(d.take(0).to_set() =~= Set::<u64>::empty());
        assert(v.remove_keys(Set::<u64>::empty()) =~= v);
    }
    while i < ds.len()
        invariant
            i <= ds@.len(),
            d == ids_of(ds@),
            world_view(*world) == v.remove_keys(d.take(i as int).to_set()),
            visibility(*world) == vis.remove_keys(d.take(i as int).to_set()),
        decreases ds@.len() - i,
    {
        let x = ds[i];
        w_despawn(world, x);
        proof {
            assert(d.take(i + 1) =~= d.take(i as int).push(entity_bits(x)));
            d.take(i as int).lemma_push_to_set_commute(entity_bits(x));
            assert(world_view(*world) =~= v.remove_keys(d.take(i + 1).to_set()));
            assert(visibility(*world) =~= vis.remove_keys(d.take(i + 1).to_set()));
        }
        i += 1;
    }
    w_despawn(world, e);
    proof {
        assert(d.take(ds@.len() as int) =~= d);
        assert(world_view(*world) =~= v.remove_keys(d.to_set().insert(entity_bits(e))));
        assert(visibility(*world) =~= vis.remove_keys(d.to_set().insert(entity_bits(e))));
    }
}

/// [`descendants`] for any world: `None` when the child links have a
/// cycle (where the walk would never end).
pub fn descendants_checked(world: &mut World, e: Entity) -> (r: Option<Vec<Entity>>)
    ensures
        r is Some <==> acyclic(world_view(*old(world))),
        r matches Some(d) ==> ids_of(d@) == descendants_of(world_view(*old(world)), entity_bits(e)),
        world_view(*final(world)) == world_view(*old(world)),
{
    if hierarchy_is_acyclic(world) {
        Some(descendants(world, e))
    } else {
        None
    }
}

/// [`despawn_recursive`] for any world: nothing happens, and `false` is
/// returned, when the child links have a cycle.
pub fn despawn_recursive_checked(world: &mut World, e: Entity) -> (done: bool)
    ensures
        done == acyclic(world_view(*old(world))),
        done ==> world_view(*final(world)) == world_view(*old(world)).remove_keys(
            descendants_of(world_view(*old(world)), entity_bits(e)).to_set().insert(entity_bits(e)),
        ),
        !done ==> world_view(*final(world)) == world_view(*old(world)),
{
    if hierarchy_is_acyclic(world) {
        despawn_recursive(world, e);
        true
    } else {
        false
    }
}

/// Re-parent `child` under `parent` (or detach it with `None`), refusing a
/// move that would put an entity under itself or one of its descendants,
/// and any move while the child links already have a cycle. Returns
/// whether the move was made; a refused move changes nothing the world
/// holds, and an accepted one keeps the hierarchy free of cycles.
pub fn reparent_checked(world: &mut World, child: Entity, parent: Option<Entity>) -> (r: bool)
    ensures
        r == (acyclic(world_view(*old(world))) && !(opt_bits(parent) matches Some(pp) && in_subtree(
            world_view(*old(world)),
            entity_bits(child),
            pp,
        ))),
        r ==> world_view(*final(world)) == set_parent_view(
            world_view(*old(world)),
            entity_bits(child),
            opt_bits(parent),
        ) && acyclic(world_view(*final(world))),
        !r ==> world_view(*final(world)) == world_view(*old(world)),
{
    let ghost v = world_view(*world);
    if !hierarchy_is_acyclic(world) {
        return false;
    }
    let c = bits_of(child);
    if let Some(p) = parent {
        let pb = bits_of(p);
        if pb == c {
            proof {
                assert(child_path(v, seq![c]));
                assert(in_subtree(v, c, c));
            }
            return false;
        }
        let below = descendants(world, child);
        let mut i: usize = 0;
        while i < below.len()
            invariant
                i <= below@.len(),
                acyclic(v),
                pb != c,
                world_view(*world) == v,
                v == world_view(*old(world)),
                c == entity_bits(child),
                opt_bits(parent) == Some(pb),
                ids_of(below@) == descendants_of(v, c),
                forall|j: int| 0 <= j < i ==> ids_of(below@)[j] != pb,
            decreases below@.len() - i,
        {
            if bits_of(below[i]) == pb {
                proof {
                    assert(ids_of(below@)[i as int] == pb);
                    assert(descendants_of(v, c).contains(pb));
                    lemma_descendants_subtree(v, c, pb);
                }
                return false;
            }
            i += 1;
        }
        proof {
            if descendants_of(v, c).contains(pb) {
                let j = choose|j: int| 0 <= j < descendants_of(v, c).len() && descendants_of(v, c)[j] == pb;
            }
            lemma_descendants_subtree(v, c, pb);
        }
    }
    set_parent(world, child, parent);
    proof {
        law_set_parent_keeps_acyclic(v, c, opt_bits(parent));
    }
    true
}

/// Some live entity is named `name`.
pub open spec fn has_named(v: WorldView, name: Seq<char>) -> bool {
    exists|x: u64| alive(v, x) && #[trigger] name_of(v, x) == Some(name)
}

/// Some live entity is tagged `tag`.
pub open spec fn has_tagged(v: WorldView, tag: Seq<char>) -> bool {
    exists|x: u64| alive(v, x) && #[trigger] tag_of(v, x) == Some(tag)
}

/// An entity whose `Name` matches exactly (the first in storage order).
pub fn find_by_name(world: &World, name: &str) -> (r: Option<Entity>)
    ensures
        r is Some <==> has_named(world_view(*world), name@),
        r matches Some(x) ==> name_of(world_view(*world), entity_bits(x)) == Some(name@),
{
    let ghost v = world_view(*world);
    let target = name.to_owned();
    let all = w_entities(world);
    let mut i: usize = 0;
    while i < all.len()
        invariant
            v == world_view(*world),
            target@ == name@,
            i <= all@.len(),
            forall|x: u64|
                alive(v, x) && !#[trigger] ids_of(all@).contains(x) ==> v[x] == (
                    None::<u64>,
                    None::<Seq<u64>>,
                    None::<Seq<char>>,
                    None::<Seq<char>>,
                ),
            forall|j: int| 0 <= j < i ==> name_of(v, #[trigger] ids_of(all@)[j]) != Some(name@),
        decreases all@.len() - i,
    {
        let x = all[i];
        if let Some(n) = w_get_name(world, x) {
            if n == target {
                return Some(x);
            }
        }
        assert(ids_of(all@)[i as int] == entity_bits(x));
        i += 1;
    }
    proof {
        if has_named(v, name@) {
            let x = choose|x: u64| alive(v, x) && #[trigger] name_of(v, x) == Some(name@);
            assert(ids_of(all@).contains(x));
            let j = choose|j: int| 0 <= j < ids_of(all@).len() && ids_of(all@)[j] == x;
            assert(name_of(v, ids_of(all@)[j]) != Some(name@));
        }
    }
    None
}

/// An entity whose `Tag` matches exactly (the first in storage order).
pub fn find_by_tag(world: &World, tag: &str) -> (r: Option<Entity>)
    ensures
        r is Some <==> has_tagged(world_view(*world), tag@),
        r matches Some(x) ==> tag_of(world_view(*world), entity_bits(x)) == Some(tag@),
{
    let ghost v = world_view(*world);
    let target = tag.to_owned();
    let all = w_entities(world);
    let mut i: usize = 0;
    while i < all.len()
        invariant
            v == world_view(*world),
            target@ == tag@,
            i <= all@.len(),
            forall|x: u64|
                alive(v, x) && !#[trigger] ids_of(all@).contains(x) ==> v[x] == (
                    None::<u64>,
                    None::<Seq<u64>>,
                    None::<Seq<char>>,
                    None::<Seq<char>>,
                ),
            forall|j: int| 0 <= j < i ==> tag_of(v, #[trigger] ids_of(all@)[j]) != Some(tag@),
        decreases all@.len() - i,
    {
        let x = all[i];
        if let Some(n) = w_get_tag(world, x) {
            if n == target {
                return Some(x);
            }
        }
        assert(ids_of(all@)[i as int] == entity_bits(x));
        i += 1;
    }
    proof {
        if has_tagged(v, tag@) {
            let x = choose|x: u64| alive(v, x) && #[trigger] tag_of(v, x) == Some(tag@);
            assert(ids_of(all@).contains(x));
            let j = choose|j: int| 0 <= j < ids_of(all@).len() && ids_of(all@)[j] == x;
            assert(tag_of(v, ids_of(all@)[j]) != Some(tag@));
        }
    }
    None
}

/// Strictly increasing.
pub open spec fn increasing(s: Seq<u64>) -> bool {
    forall|i: int, j: int| 0 <= i < j < s.len() ==> s[i] < s[j]
}

/// Insert `x` (not yet present) into a strictly increasing list of entities
/// ordered by id.
fn insert_sorted(out: &mut Vec<Entity>, x: Entity)
    requires
        increasing(ids_of(old(out)@)),
        !ids_of(old(out)@).contains(entity_bits(x)),
    ensures
        increasing(ids_of(final(out)@)),
        ids_of(final(out)@).to_set() == ids_of(old(out)@).to_set().insert(entity_bits(x)),
{
    let b = bits_of(x);
    let ghost s0 = ids_of(out@);
    let mut k: usize = 0;
    while k < out.len() && bits_of(out[k as usize]) < b
        invariant
            k <= out@.len(),
            s0 == ids_of(out@),
            forall|j: int| 0 <= j < k ==> #[trigger] s0[j] < b,
            !s0.contains(b),
        decreases out@.len() - k,
    {
        k += 1;
    }
    proof {
        if k < s0.len() {
            assert(s0[k as int] != b);
        }
    }
    out.insert(k, x);
    proof {
        let s1 = ids_of(out@);
        assert(s1 =~= s0.insert(k as int, b));
        assert forall|i: int, j: int| 0 <= i < j < s1.len() implies s1[i] < s1[j] by {
            if j < k {
            } else if j == k {
            } else if i < k {
                assert(s1[j] == s0[j - 1]);
                if k < s0.len() {
                    assert(s0[k as int] <= s0[j - 1]);
                }
            } else if i == k {
                assert(s1[j] == s0[j - 1]);
                assert(s0[k as int] <= s0[j - 1]);
            } else {
                assert(s1[i] == s0[i - 1] && s1[j] == s0[j - 1]);
            }
        }
        assert forall|y: u64| #[trigger] s1.to_set().contains(y) <==> s0.to_set().insert(b).contains(y) by {
            if s1.contains(y) {
                let i = choose|i: int| 0 <= i < s1.len() && s1[i] == y;
                if i < k {
                    assert(s0[i] == y);
                } else if i > k {
                    assert(s0[i - 1] == y);
                }
            }
            if s0.contains(y) {
                let i = choose|i: int| 0 <= i < s0.len() && s0[i] == y;
                if i < k {
                    assert(s1[i] == y);
                } else {
                    assert(s1[i + 1] == y);
                }
            }
            if y == b {
                assert(s1[k as int] == b);
            }
        }
        assert(s1.to_set() =~= s0.to_set().insert(b));
    }
}

/// Entities without a `Parent` (hierarchy roots), ordered by id (spawn
/// order within a world).
/// Reserved entities that are not yet in storage are not listed.
pub fn roots(world: &World) -> (r: Vec<Entity>)
    ensures
        increasing(ids_of(r@)),
        forall|x: u64|
            #[trigger] ids_of(r@).contains(x) <==> (alive(world_view(*world), x) && parent_of(
                world_view(*world),
                x,
            ) is None && !reserved_ids(*world).contains(x)),
{
    let ghost v = world_view(*world);
    let all = w_entities(world);
    let mut out: Vec<Entity> = Vec::new();
    let mut i: usize = 0;
    proof {
        assert(ids_of(out@) =~= Seq::<u64>::empty());
    }
    while i < all.len()
        invariant
            v == world_view(*world),
            i <= all@.len(),
            ids_of(all@).no_duplicates(),
            forall|x: u64| #[trigger]
                ids_of(all@).contains(x) <==> (alive(v, x) && !reserved_ids(*world).contains(x)),
            increasing(ids_of(out@)),
            forall|x: u64|
                #[trigger] ids_of(out@).to_set().contains(x) <==> (ids_of(all@).take(
                    i as int,
                ).contains(x) && parent_of(v, x) is None),
        decreases all@.len() - i,
    {
        let x = all[i];
        let ghost a = ids_of(all@);
        proof {
            assert(a[i as int] == entity_bits(x));
            assert(a.take(i + 1) =~= a.take(i as int).push(entity_bits(x)));
            assert(!a.take(i as int).contains(entity_bits(x))) by {
                if a.take(i as int).contains(entity_bits(x)) {
                    let t0 = a.take(i as int);
                    let j = choose|j: int| 0 <= j < t0.len() && t0[j] == entity_bits(x);
                    assert(a[j] == a[i as int]);
                }
            }
            assert(a.contains(entity_bits(x)));
        }
        if w_get_parent(world, x).is_none() {
            proof {
                if ids_of(out@).contains(entity_bits(x)) {
                    assert(ids_of(out@).to_set().contains(entity_bits(x)));
                }
            }
            insert_sorted(&mut out, x);
        }
        proof {
            assert forall|y: u64|
                #[trigger] ids_of(out@).to_set().contains(y) <==> (a.take(i + 1).contains(y)
                    && parent_of(v, y) is None) by {
                if a.take(i + 1).contains(y) && y != entity_bits(x) {
                    let t = a.take(i + 1);
                    let j = choose|j: int| 0 <= j < t.len() && t[j] == y;
                    assert(a.take(i as int)[j] == y);
                }
                if a.take(i as int).contains(y) {
                    let t0 = a.take(i as int);
                    let j = choose|j: int| 0 <= j < t0.len() && t0[j] == y;
                    assert(a.take(i + 1)[j] == y);
                }
                if y == entity_bits(x) {
                    assert(a.take(i + 1)[i as int] == y);
                }
            }
        }
        i += 1;
    }
    proof {
        assert(ids_of(all@).take(all@.len() as int) =~= ids_of(all@));
        assert forall|x: u64| #[trigger]
            ids_of(out@).contains(x) <==> (alive(v, x) && parent_of(v, x) is None
                && !reserved_ids(*world).contains(x)) by {
            assert(ids_of(out@).to_set().contains(x) <==> ids_of(out@).contains(x));
        }
    }
    out
}


/// The label the editor shows for an entity: its name, or `Entity <id>`.
pub open spec fn label_text(v: WorldView, e: u64) -> Seq<char> {
    match name_of(v, e) {
        Some(n) => n,
        None => "Entity "@ + decimal_text(e as nat),
    }
}

/// Human label for an entity used by the editor tree.
pub fn entity_label(world: &World, e: Entity) -> (r: String)
    ensures
        r@ == label_text(world_view(*world), entity_bits(e)),
{
    match w_get_name(world, e) {
        Some(n) => n,
        None => {
            let mut s = String::from_str("Entity ");
            let d = decimal(bits_of(e));
            s.append(d.as_str());
            s
        },
    }
}


// ---------------------------------------------------------------------------
// Component registry
// ---------------------------------------------------------------------------

/// All component types known to the editor and the scene serializer: one
/// entry per wire name, in registration order. `E` is whatever the
/// application keeps per type (its save/load/inspect operations).
pub struct Registry<E> {
    names: Vec<String>,
    entries: Vec<E>,
}

impl<E> Default for Registry<E> {
    /// An empty registry.
    fn default() -> (r: Self)
        ensures
            r.wf(),
            r.name_seq() == Seq::<Seq<char>>::empty(),
            r.entry_seq() == Seq::<E>::empty(),
    {
        Registry::new()
    }
}

impl<E> Registry<E> {
    /// Registered wire names, in registration order.
    pub closed spec fn name_seq(&self) -> Seq<Seq<char>> {
        self.names@.map_values(|n: String| n@)
    }

    /// Registered entries, in registration order.
    pub closed spec fn entry_seq(&self) -> Seq<E> {
        self.entries@
    }

    /// One entry per name, names pairwise distinct.
    pub closed spec fn wf(&self) -> bool {
        &&& self.names@.len() == self.entries@.len()
        &&& self.name_seq().no_duplicates()
    }

    /// A well-formed registry has one entry per name and no name twice.
    pub proof fn lemma_wf(&self)
        requires
            self.wf(),
        ensures
            self.entry_seq().len() == self.name_seq().len(),
            self.name_seq().no_duplicates(),
    {
    }

    /// An empty registry.
    pub fn new() -> (r: Self)
        ensures
            r.wf(),
            r.name_seq() == Seq::<Seq<char>>::empty(),
            r.entry_seq() == Seq::<E>::empty(),
    {
        let r = Registry { names: Vec::new(), entries: Vec::new() };
        assert(r.name_seq() =~= Seq::<Seq<char>>::empty());
        r
    }

    /// Number of registered component types.
    pub fn len(&self) -> (r: usize)
        requires
            self.wf(),
        ensures
            r == self.name_seq().len(),
    {
        self.names.len()
    }

    /// Position of `name` among the registered names.
    fn position(&self, name: &str) -> (r: Option<usize>)
        requires
            self.wf(),
        ensures
            r is None <==> !self.name_seq().contains(name@),
            r matches Some(i) ==> i < self.name_seq().len() && self.name_seq()[i as int] == name@,
    {
        let target = name.to_owned();
        let mut i: usize = 0;
        while i < self.names.len()
            invariant
                self.wf(),
                target@ == name@,
                i <= self.names@.len(),
                forall|j: int| 0 <= j < i ==> #[trigger] self.name_seq()[j] != name@,
            decreases self.names@.len() - i,
        {
            if self.names[i] == target {
                assert(self.name_seq()[i as int] == name@);
                assert(self.name_seq().contains(name@));
                return Some(i);
            }
            i += 1;
        }
        proof {
            if self.name_seq().contains(name@) {
                let j = choose|j: int| 0 <= j < self.name_seq().len() && self.name_seq()[j] == name@;
                assert(self.name_seq()[j] != name@);
            }
        }
        None
    }

    /// Register `entry` under `name`. Registering a name that is already
    /// present changes nothing (idempotent); returns whether it was added.
    pub fn register(&mut self, name: &str, entry: E) -> (added: bool)
        requires
            old(self).wf(),
        ensures
            final(self).wf(),
            added == !old(self).name_seq().contains(name@),
            added ==> final(self).name_seq() == old(self).name_seq().push(name@)
                && final(self).entry_seq() == old(self).entry_seq().push(entry),
            !added ==> final(self).name_seq() == old(self).name_seq()
                && final(self).entry_seq() == old(self).entry_seq(),
            (final(self).name_seq(), final(self).entry_seq()) == register_model(
                old(self).name_seq(),
                old(self).entry_seq(),
                name@,
                entry,
            ),
    {
        if self.position(name).is_some() {
            return false;
        }
        let ghost before = self.name_seq();
        self.names.push(name.to_owned());
        self.entries.push(entry);
        proof {
            assert(self.name_seq() =~= before.push(name@));
            assert forall|i: int, j: int|
                0 <= i < j < self.name_seq().len() implies self.name_seq()[i]
                != self.name_seq()[j] by {
                if j == before.len() {
                    assert(before[i] == self.name_seq()[i]);
                    assert(before.contains(before[i]));
                }
            }
        }
        true
    }

    /// The entry registered under `name`.
    pub fn get(&self, name: &str) -> (r: Option<&E>)
        requires
            self.wf(),
        ensures
            r is None <==> !self.name_seq().contains(name@),
            r matches Some(e) ==> exists|i: int|
                0 <= i < self.name_seq().len() && self.name_seq()[i] == name@ && *e
                    == self.entry_seq()[i],
    {
        match self.position(name) {
            Some(i) => Some(&self.entries[i]),
            None => None,
        }
    }

    /// The `i`-th registered name.
    pub fn name_at(&self, i: usize) -> (r: &String)
        requires
            self.wf(),
            i < self.name_seq().len(),
        ensures
            r@ == self.name_seq()[i as int],
    {
        &self.names[i]
    }

    /// The `i`-th registered entry.
    pub fn entry_at(&self, i: usize) -> (r: &E)
        requires
            self.wf(),
            i < self.name_seq().len(),
        ensures
            *r == self.entry_seq()[i as int],
    {
        &self.entries[i]
    }

    /// Every registered component name, in registration order.
    pub fn names(&self) -> (r: Vec<String>)
        requires
            self.wf(),
        ensures
            r@.map_values(|n: String| n@) == self.name_seq(),
    {
        let mut r: Vec<String> = Vec::new();
        let mut i: usize = 0;
        while i < self.names.len()
            invariant
                self.wf(),
                i <= self.names@.len(),
                r@.map_values(|n: String| n@) == self.name_seq().take(i as int),
            decreases self.names@.len() - i,
        {
            let ghost r0 = r@;
            let n = self.names[i].clone();
            assert(n@ == self.name_seq()[i as int]);
            r.push(n);
            assert(r@ =~= r0.push(n));
            assert(r@.map_values(|n: String| n@) =~= r0.map_values(|n: String| n@).push(n@));
            assert(self.name_seq().take(i + 1) =~= self.name_seq().take(i as int).push(n@));
            i += 1;
        }
        assert(self.name_seq().take(self.names@.len() as int) =~= self.name_seq());
        r
    }
}

/// Law: registering the same name twice is the same as registering it once.
pub proof fn law_register_idempotent<E>(
    names: Seq<Seq<char>>,
    entries: Seq<E>,
    name: Seq<char>,
    first: E,
    second: E,
)
    ensures
        ({
            let (n1, e1) = register_model(names, entries, name, first);
            register_model(n1, e1, name, second) == (n1, e1)
        }),
{
    let (n1, e1) = register_model(names, entries, name, first);
    if !names.contains(name) {
        assert(n1[names.len() as int] == name);
        assert(n1.contains(name));
    }
}

/// The registry contents after registering `entry` under `name`.
pub open spec fn register_model<E>(names: Seq<Seq<char>>, entries: Seq<E>, name: Seq<char>, entry: E) -> (Seq<Seq<char>>, Seq<E>) {
    if names.contains(name) {
        (names, entries)
    } else {
        (names.push(name), entries.push(entry))
    }
}

} // verus!
