//! The discrete bookkeeping of the rules system (the data-driven behavior
//! layer): collision partners and their tag filters, once-flags, entities
//! that fire `Start`, messages delivered the tick after they are sent, the
//! destroy queue, and the deterministic chance gate.
//!
//! Timers, cooldowns and variable comparisons are in floating point and are
//! evaluated by the simulation front end around these decisions.
use vstd::prelude::*;
use hecs::{Entity, World};
use crate::assets::texts;
use crate::ecs::{
    acyclic, alive, bits_of, despawn_recursive, entity_bits, ids_of, law_remove_keeps_acyclic,
    despawn_all, reserved_ids, tag_of, visibility, w_contains, w_entities, w_get_tag, world_view,
};
use crate::components::{set_visible, shown, toggle_visible};
use crate::input::{key_event, key_name, law_key_name_round_trip, nameable, Input, Key};
use crate::text::str_eq;

verus! {

/// Where a rule variable lives.
#[derive(Clone, Copy, Debug, PartialEq, Eq, Structural)]
pub enum VarScope {
    Entity,
    Global,
}

/// Comparison of a rule variable against a value.
#[derive(Clone, Copy, Debug, PartialEq, Eq, Structural)]
pub enum CmpOp {
    Lt,
    Gt,
    Le,
    Ge,
    Eq,
    Ne,
}

/// One physics contact/intersection transition.
#[derive(Clone, Copy, Debug)]
pub struct CollisionPair {
    pub a: Entity,
    pub b: Entity,
    /// `true` when the contact began this tick, `false` when it ended.
    pub started: bool,
}

// ---------------------------------------------------------------------------
// Chance
// ---------------------------------------------------------------------------

/// One xorshift step sequence (13, 7, 17) from `seed | 1`.
pub open spec fn xorshift(seed: u64) -> u64 {
    let x0 = seed | 1;
    let x1 = x0 ^ (x0 << 13u64);
    let x2 = x1 ^ (x1 >> 7u64);
    x2 ^ (x2 << 17u64)
}

/// Deterministic pseudo-random draw, in ten-thousandths (0..=9999): stable
/// across platforms, good enough for game chance gates and reproducible
/// tests. A rule with probability `p` fires when the draw is below
/// `p * 10000`.
pub fn chance(seed: u64) -> (r: u64)
    ensures
        r == xorshift(seed) % 10000,
        r < 10000,
{
    let mut x = seed | 1;
    x ^= x << 13u64;
    x ^= x >> 7u64;
    x ^= x << 17u64;
    x % 10_000
}

// ---------------------------------------------------------------------------
// Collision partners
// ---------------------------------------------------------------------------

/// Ids of (a, b) of a pair.
pub open spec fn pair_ids(p: CollisionPair) -> (u64, u64) {
    (entity_bits(p.a), entity_bits(p.b))
}

/// The other side of a pair for entity `e` (`b` when `e` is `a`, `a` when
/// `e` is only `b`).
pub open spec fn other_side(p: CollisionPair, e: u64) -> Option<Entity> {
    if pair_ids(p).0 == e {
        Some(p.b)
    } else if pair_ids(p).1 == e {
        Some(p.a)
    } else {
        None
    }
}

/// The partner of `e` in the first pair it takes part in.
pub open spec fn first_partner(ps: Seq<CollisionPair>, e: u64) -> Option<Entity>
    decreases ps.len(),
{
    if ps.len() == 0 {
        None
    } else if other_side(ps[0], e) is Some {
        other_side(ps[0], e)
    } else {
        first_partner(ps.drop_first(), e)
    }
}

/// The collision partner of `entity` this tick (for `DestroyOther`).
pub fn partner_of(collisions: &[CollisionPair], entity: Entity) -> (r: Option<Entity>)
    ensures
        r == first_partner(collisions@, entity_bits(entity)),
{
    let e = bits_of(entity);
    let mut i: usize = 0;
    proof {
        assert(collisions@.skip(0) =~= collisions@);
    }
    while i < collisions.len()
        invariant
            e == entity_bits(entity),
            i <= collisions@.len(),
            first_partner(collisions@, e) == first_partner(collisions@.skip(i as int), e),
        decreases collisions@.len() - i,
    {
        let p = collisions[i];
        proof {
            assert(collisions@.skip(i as int).drop_first() =~= collisions@.skip(i + 1));
            assert(collisions@.skip(i as int)[0] == p);
        }
        if bits_of(p.a) == e {
            return Some(p.b);
        } else if bits_of(p.b) == e {
            return Some(p.a);
        }
        i += 1;
    }
    None
}

/// Pair `p` is a transition of kind `started` in which `e` meets a partner
/// that passes the tag filter.
pub open spec fn partner_hit(
    v: crate::ecs::WorldView,
    p: CollisionPair,
    e: u64,
    filter: Option<Seq<char>>,
    started: bool,
) -> bool {
    &&& p.started == started
    &&& other_side(p, e) is Some
    &&& match filter {
        Some(t) => tag_of(v, entity_bits(other_side(p, e).unwrap())) == Some(t),
        None => true,
    }
}

/// The text of an optional tag filter.
pub open spec fn filter_text(f: Option<String>) -> Option<Seq<char>> {
    match f {
        Some(t) => Some(t@),
        None => None,
    }
}

/// Whether `entity` has a collision transition of kind `started` this tick
/// with a partner carrying the tag `tag_filter` (any partner when `None`).
pub fn hit_partner(
    world: &World,
    collisions: &[CollisionPair],
    entity: Entity,
    tag_filter: &Option<String>,
    started: bool,
) -> (r: bool)
    ensures
        r == exists|i: int|
            0 <= i < collisions@.len() && #[trigger] partner_hit(
                world_view(*world),
                collisions@[i],
                entity_bits(entity),
                filter_text(*tag_filter),
                started,
            ),
{
    let ghost v = world_view(*world);
    let ghost filter = filter_text(*tag_filter);
    let e = bits_of(entity);
    let mut i: usize = 0;
    while i < collisions.len()
        invariant
            e == entity_bits(entity),
            v == world_view(*world),
            filter == filter_text(*tag_filter),
            i <= collisions@.len(),
            forall|j: int| 0 <= j < i ==> !#[trigger] partner_hit(v, collisions@[j], e, filter, started),
        decreases collisions@.len() - i,
    {
        let pair = collisions[i];
        if pair.started == started {
            let partner = if bits_of(pair.a) == e {
                Some(pair.b)
            } else if bits_of(pair.b) == e {
                Some(pair.a)
            } else {
                None
            };
            if let Some(partner) = partner {
                let tag_matches = match tag_filter {
                    Some(t) => match w_get_tag(world, partner) {
                        Some(tag) => str_eq(tag.as_str(), t.as_str()),
                        None => false,
                    },
                    None => true,
                };
                if tag_matches {
                    assert(partner_hit(v, collisions@[i as int], e, filter, started));
                    return true;
                }
            }
        }
        i += 1;
    }
    false
}

// ---------------------------------------------------------------------------
// Destroy queue
// ---------------------------------------------------------------------------

/// Queue `e` for destruction at the end of the tick (once).
pub fn queue_destroy(queue: &mut Vec<Entity>, e: Entity)
    ensures
        ids_of(old(queue)@).contains(entity_bits(e)) ==> final(queue)@ == old(queue)@,
        !ids_of(old(queue)@).contains(entity_bits(e)) ==> final(queue)@ == old(queue)@.push(e),
{
    let b = bits_of(e);
    let mut i: usize = 0;
    while i < queue.len()
        invariant
            b == entity_bits(e),
            i <= queue@.len(),
            forall|j: int| 0 <= j < i ==> ids_of(queue@)[j] != b,
        decreases queue@.len() - i,
    {
        if bits_of(queue[i]) == b {
            assert(ids_of(queue@)[i as int] == b);
            return;
        }
        i += 1;
    }
    queue.push(e);
}

/// Queue every live entity tagged `tag` (in storage order) for destruction,
/// each once (`DestroyTagged`).
pub fn queue_tagged(world: &World, tag: &str, queue: &mut Vec<Entity>)
    ensures
        forall|x: u64| #[trigger]
            ids_of(final(queue)@).contains(x) <==> (ids_of(old(queue)@).contains(x) || (alive(
                world_view(*world),
                x,
            ) && tag_of(world_view(*world), x) == Some(tag@))),
        final(queue)@.len() >= old(queue)@.len(),
        final(queue)@.subrange(0, old(queue)@.len() as int) == old(queue)@,
        ids_of(old(queue)@).no_duplicates() ==> ids_of(final(queue)@).no_duplicates(),
{
    let ghost v = world_view(*world);
    let ghost q0 = queue@;
    let all = w_entities(world);
    let mut i: usize = 0;
    while i < all.len()
        invariant
            v == world_view(*world),
            i <= all@.len(),
            forall|x: u64|
                alive(v, x) && !#[trigger] ids_of(all@).contains(x) ==> v[x] == (
                    None::<u64>,
                    None::<Seq<u64>>,
                    None::<Seq<char>>,
                    None::<Seq<char>>,
                ),
            queue@.len() >= q0.len(),
            queue@.subrange(0, q0.len() as int) == q0,
            ids_of(q0).no_duplicates() ==> ids_of(queue@).no_duplicates(),
            forall|x: u64| #[trigger]
                ids_of(queue@).contains(x) <==> (ids_of(q0).contains(x) || exists|j: int|
                    0 <= j < i && ids_of(all@)[j] == x && tag_of(v, x) == Some(tag@)),
        decreases all@.len() - i,
    {
        let x = all[i];
        assert(ids_of(all@)[i as int] == entity_bits(x));
        let matches = match w_get_tag(world, x) {
            Some(t) => str_eq(t.as_str(), tag),
            None => false,
        };
        let ghost qb = queue@;
        if matches {
            queue_destroy(queue, x);
        }
        proof {
            if matches {
                lemma_queue_push_nodup(qb, queue@, x);
            }
            assert(queue@.subrange(0, q0.len() as int) =~= qb.subrange(0, q0.len() as int));
            assert forall|y: u64| #[trigger]
                ids_of(queue@).contains(y) <==> (ids_of(q0).contains(y) || exists|j: int|
                    0 <= j < i + 1 && ids_of(all@)[j] == y && tag_of(v, y) == Some(tag@)) by {
                if matches && !ids_of(qb).contains(entity_bits(x)) {
                    assert(ids_of(queue@) =~= ids_of(qb).push(entity_bits(x)));
                    if ids_of(queue@).contains(y) && y != entity_bits(x) {
                        let k = choose|k: int| 0 <= k < ids_of(queue@).len() && ids_of(queue@)[k] == y;
                        assert(ids_of(qb)[k] == y);
                    }
                    if ids_of(qb).contains(y) {
                        let k = choose|k: int| 0 <= k < ids_of(qb).len() && ids_of(qb)[k] == y;
                        assert(ids_of(queue@)[k] == y);
                    }
                    if y == entity_bits(x) {
                        assert(ids_of(queue@)[qb.len() as int] == y);
                    }
                }
                if exists|j: int| 0 <= j < i + 1 && ids_of(all@)[j] == y && tag_of(v, y) == Some(tag@) {
                    let j = choose|j: int|
                        0 <= j < i + 1 && ids_of(all@)[j] == y && tag_of(v, y) == Some(tag@);
                    if j == i {
                        assert(y == entity_bits(x));
                    }
                }
            }
        }
        i += 1;
    }
    proof {
        assert forall|x: u64| #[trigger]
            ids_of(queue@).contains(x) <==> (ids_of(q0).contains(x) || (alive(v, x) && tag_of(v, x)
                == Some(tag@))) by {
            if alive(v, x) && tag_of(v, x) == Some(tag@) {
                assert(ids_of(all@).contains(x));
                let j = choose|j: int| 0 <= j < ids_of(all@).len() && ids_of(all@)[j] == x;
            }
            if exists|j: int| 0 <= j < all@.len() && ids_of(all@)[j] == x && tag_of(v, x) == Some(tag@) {
                let j = choose|j: int| 0 <= j < all@.len() && ids_of(all@)[j] == x && tag_of(v, x) == Some(tag@);
                assert(ids_of(all@).contains(x));
            }
        }
    }
}

// ---------------------------------------------------------------------------
// Runtime bookkeeping
// ---------------------------------------------------------------------------

/// Per-entity rule bookkeeping and cross-tick requests.
pub struct RuleRuntime {
    /// (entity id, rule index) of every rule that has fired.
    fired_once: Vec<(u64, u32)>,
    /// Entities whose rules have had their first pass (`Start` fires on an
    /// entity's first pass only).
    started: Vec<Entity>,
    /// Messages sent last tick, delivered this tick.
    incoming: Vec<String>,
    pub load_scene_request: Option<String>,
    pub quit_requested: bool,
}

impl Default for RuleRuntime {
    /// Same as [`RuleRuntime::new`].
    fn default() -> (r: Self)
        ensures
            r.fired_set() == Set::<(u64, u32)>::empty(),
            r.started_ids() == Set::<u64>::empty(),
            r.inbox() == Seq::<Seq<char>>::empty(),
            r.requests().0 is None,
            !r.requests().1,
    {
        RuleRuntime::new()
    }
}

impl RuleRuntime {
    pub closed spec fn fired_set(&self) -> Set<(u64, u32)> {
        self.fired_once@.to_set()
    }

    pub closed spec fn started_ids(&self) -> Set<u64> {
        ids_of(self.started@).to_set()
    }

    /// (scene load requested, quit requested).
    pub closed spec fn requests(&self) -> (Option<String>, bool) {
        (self.load_scene_request, self.quit_requested)
    }

    pub closed spec fn inbox(&self) -> Seq<Seq<char>> {
        texts(self.incoming@)
    }

    /// Nothing fired, nothing started (every entity is fresh), no messages
    /// or requests.
    pub fn new() -> (r: Self)
        ensures
            r.fired_set() == Set::<(u64, u32)>::empty(),
            r.started_ids() == Set::<u64>::empty(),
            r.inbox() == Seq::<Seq<char>>::empty(),
            r.requests().0 is None,
            !r.requests().1,
    {
        let r = RuleRuntime {
            fired_once: Vec::new(),
            started: Vec::new(),
            incoming: Vec::new(),
            load_scene_request: None,
            quit_requested: false,
        };
        proof {
            assert(r.fired_once@.to_set() =~= Set::<(u64, u32)>::empty());
            assert(ids_of(r.started@).to_set() =~= Set::<u64>::empty());
            assert(texts(r.incoming@) =~= Seq::<Seq<char>>::empty());
        }
        r
    }

    /// `e` fires `Start` rules again on its next pass.
    pub fn mark_fresh(&mut self, e: Entity)
        ensures
            final(self).started_ids() == old(self).started_ids().remove(entity_bits(e)),
            final(self).fired_set() == old(self).fired_set(),
            final(self).inbox() == old(self).inbox(),
            final(self).requests() == old(self).requests(),
    {
        let b = bits_of(e);
        let ghost s0 = ids_of(self.started@);
        let mut kept: Vec<Entity> = Vec::new();
        let mut i: usize = 0;
        while i < self.started.len()
            invariant
                b == entity_bits(e),
                s0 == ids_of(self.started@),
                i <= s0.len(),
                forall|y: u64| #[trigger]
                    ids_of(kept@).contains(y) <==> (s0.take(i as int).contains(y) && y != b),
            decreases s0.len() - i,
        {
            let x = self.started[i];
            let ghost k0 = ids_of(kept@);
            if bits_of(x) != b {
                kept.push(x);
            }
            proof {
                assert(s0[i as int] == entity_bits(x));
                if entity_bits(x) != b {
                    assert(ids_of(kept@) =~= k0.push(entity_bits(x)));
                } else {
                    assert(ids_of(kept@) =~= k0);
                }
                lemma_take_push(s0, i as int);
                lemma_filter_step(k0, ids_of(kept@), s0.take(i as int), s0[i as int], |y: u64| y != b);
            }
            i += 1;
        }
        proof {
            assert(s0.take(s0.len() as int) =~= s0);
            assert(ids_of(kept@).to_set() =~= s0.to_set().remove(b));
        }
        self.started = kept;
    }

    /// Every live entity fires `Start` rules again on its next pass
    /// (entering play mode).
    pub fn mark_all_fresh(&mut self, world: &World)
        ensures
            final(self).started_ids() == old(self).started_ids().filter(
                |x: u64| !alive(world_view(*world), x),
            ),
            final(self).fired_set() == old(self).fired_set(),
            final(self).inbox() == old(self).inbox(),
            final(self).requests() == old(self).requests(),
    {
        let ghost v = world_view(*world);
        let ghost s0 = ids_of(self.started@);
        let mut kept: Vec<Entity> = Vec::new();
        let mut i: usize = 0;
        while i < self.started.len()
            invariant
                v == world_view(*world),
                s0 == ids_of(self.started@),
                i <= s0.len(),
                forall|y: u64| #[trigger]
                    ids_of(kept@).contains(y) <==> (s0.take(i as int).contains(y) && !alive(v, y)),
            decreases s0.len() - i,
        {
            let x = self.started[i];
            let ghost k0 = ids_of(kept@);
            let live = w_contains(world, x);
            if !live {
                kept.push(x);
            }
            proof {
                assert(s0[i as int] == entity_bits(x));
                if !live {
                    assert(ids_of(kept@) =~= k0.push(entity_bits(x)));
                } else {
                    assert(ids_of(kept@) =~= k0);
                }
                lemma_take_push(s0, i as int);
                lemma_filter_step(k0, ids_of(kept@), s0.take(i as int), s0[i as int], |y: u64| !alive(v, y));
            }
            i += 1;
        }
        proof {
            assert(s0.take(s0.len() as int) =~= s0);
            assert(ids_of(kept@).to_set() =~= s0.to_set().filter(|x: u64| !alive(v, x)));
        }
        self.started = kept;
    }

    /// Whether `e` fires `Start` rules (its rules have not had their first
    /// pass yet).
    pub fn is_fresh(&self, e: Entity) -> (r: bool)
        ensures
            r == !self.started_ids().contains(entity_bits(e)),
    {
        let b = bits_of(e);
        let mut i: usize = 0;
        while i < self.started.len()
            invariant
                b == entity_bits(e),
                i <= self.started@.len(),
                forall|j: int| 0 <= j < i ==> ids_of(self.started@)[j] != b,
            decreases self.started@.len() - i,
        {
            if bits_of(self.started[i]) == b {
                assert(ids_of(self.started@)[i as int] == b);
                return false;
            }
            i += 1;
        }
        true
    }

    /// Queue a message for delivery (also used by game code).
    pub fn send_message(&mut self, msg: String)
        ensures
            final(self).inbox() == old(self).inbox().push(msg@),
            final(self).fired_set() == old(self).fired_set(),
            final(self).started_ids() == old(self).started_ids(),
            final(self).requests() == old(self).requests(),
    {
        let ghost m = msg@;
        self.incoming.push(msg);
        proof {
            assert(texts(self.incoming@) =~= old(self).inbox().push(m));
        }
    }

    /// Whether the message `m` arrived this tick (`Message` events).
    pub fn message_arrived(&self, m: &str) -> (r: bool)
        ensures
            r == self.inbox().contains(m@),
    {
        let mut i: usize = 0;
        while i < self.incoming.len()
            invariant
                i <= self.incoming@.len(),
                forall|j: int| 0 <= j < i ==> self.inbox()[j] != m@,
            decreases self.incoming@.len() - i,
        {
            assert(self.inbox()[i as int] == self.incoming@[i as int]@);
            if str_eq(self.incoming[i].as_str(), m) {
                return true;
            }
            i += 1;
        }
        false
    }

    /// Deliver the messages sent this tick: they replace this tick's inbox.
    pub fn deliver(&mut self, messages_out: Vec<String>)
        ensures
            final(self).inbox() == texts(messages_out@),
            final(self).fired_set() == old(self).fired_set(),
            final(self).started_ids() == old(self).started_ids(),
            final(self).requests() == old(self).requests(),
    {
        self.incoming = messages_out;
    }

    /// Whether rule `idx` of `e` has fired before (`Once` conditions).
    pub fn has_fired(&self, e: Entity, idx: u32) -> (r: bool)
        ensures
            r == self.fired_set().contains((entity_bits(e), idx)),
    {
        let b = bits_of(e);
        let mut i: usize = 0;
        while i < self.fired_once.len()
            invariant
                b == entity_bits(e),
                i <= self.fired_once@.len(),
                forall|j: int| 0 <= j < i ==> self.fired_once@[j] != (b, idx),
            decreases self.fired_once@.len() - i,
        {
            let (x, k) = self.fired_once[i];
            if x == b && k == idx {
                assert(self.fired_once@[i as int] == (b, idx));
                return true;
            }
            i += 1;
        }
        false
    }

    /// Remember that rule `idx` of `e` fired.
    pub fn record_fired(&mut self, e: Entity, idx: u32)
        ensures
            final(self).fired_set() == old(self).fired_set().insert((entity_bits(e), idx)),
            final(self).started_ids() == old(self).started_ids(),
            final(self).inbox() == old(self).inbox(),
            final(self).requests() == old(self).requests(),
    {
        if !self.has_fired(e, idx) {
            let ghost s0 = self.fired_once@;
            let b = bits_of(e);
            self.fired_once.push((b, idx));
            proof {
                assert(self.fired_once@.to_set() =~= s0.to_set().insert((b, idx))) by {
                    assert forall|y: (u64, u32)| #[trigger] self.fired_once@.contains(y) <==> (s0.contains(y)
                        || y == (b, idx)) by {
                        if self.fired_once@.contains(y) && y != (b, idx) {
                            let k = choose|k: int|
                                0 <= k < self.fired_once@.len() && self.fired_once@[k] == y;
                            assert(s0[k] == y);
                        }
                        if s0.contains(y) {
                            let k = choose|k: int| 0 <= k < s0.len() && s0[k] == y;
                            assert(self.fired_once@[k] == y);
                        }
                        if y == (b, idx) {
                            assert(self.fired_once@[s0.len() as int] == y);
                        }
                    }
                }
            }
        } else {
            proof {
                assert(self.fired_set() =~= self.fired_set().insert((entity_bits(e), idx)));
            }
        }
    }

    /// The entities in `ran` have had their `Start` pass.
    fn record_passes(&mut self, ran: &Vec<Entity>)
        ensures
            final(self).started_ids() == old(self).started_ids().union(ids_of(ran@).to_set()),
            final(self).fired_set() == old(self).fired_set(),
            final(self).inbox() == old(self).inbox(),
            final(self).requests() == old(self).requests(),
    {
        let ghost s0 = ids_of(self.started@);
        let mut k: usize = 0;
        while k < ran.len()
            invariant
                k <= ran@.len(),
                ids_of(self.started@) == s0 + ids_of(ran@.take(k as int)),
                self.inbox() == old(self).inbox(),
                self.fired_set() == old(self).fired_set(),
                self.requests() == old(self).requests(),
            decreases ran@.len() - k,
        {
            let ghost before = self.started@;
            let x = ran[k];
            self.started.push(x);
            proof {
                assert(ids_of(self.started@) =~= ids_of(before).push(entity_bits(x)));
                assert(ran@.take(k + 1) =~= ran@.take(k as int).push(x));
                assert(ids_of(ran@.take(k + 1)) =~= ids_of(ran@.take(k as int)).push(entity_bits(x)));
                assert(ids_of(self.started@) =~= s0 + ids_of(ran@.take(k + 1)));
            }
            k += 1;
        }
        proof {
            assert(ran@.take(ran@.len() as int) =~= ran@);
            let t = ids_of(ran@);
            assert((s0 + t).to_set() =~= s0.to_set().union(t.to_set())) by {
                assert forall|y: u64| #[trigger] (s0 + t).contains(y) <==> (s0.contains(y) || t.contains(y)) by {
                    let u = s0 + t;
                    if u.contains(y) {
                        let j = choose|j: int| 0 <= j < u.len() && u[j] == y;
                        if j < s0.len() {
                            assert(s0[j] == y);
                        } else {
                            assert(t[j - s0.len()] == y);
                        }
                    }
                    if s0.contains(y) {
                        let j = choose|j: int| 0 <= j < s0.len() && s0[j] == y;
                        assert(u[j] == y);
                    }
                    if t.contains(y) {
                        let j = choose|j: int| 0 <= j < t.len() && t[j] == y;
                        assert(u[s0.len() + j] == y);
                    }
                }
            }
        }
    }

    /// Reset everything (scene reload / play-mode restart).
    pub fn clear(&mut self)
        ensures
            final(self).fired_set() == Set::<(u64, u32)>::empty(),
            final(self).started_ids() == Set::<u64>::empty(),
            final(self).inbox() == Seq::<Seq<char>>::empty(),
            final(self).requests().0 is None,
            !final(self).requests().1,
    {
        self.fired_once = Vec::new();
        self.started = Vec::new();
        self.incoming = Vec::new();
        self.load_scene_request = None;
        self.quit_requested = false;
        proof {
            assert(self.fired_once@.to_set() =~= Set::<(u64, u32)>::empty());
            assert(ids_of(self.started@).to_set() =~= Set::<u64>::empty());
            assert(texts(self.incoming@) =~= Seq::<Seq<char>>::empty());
        }
    }
}

/// Taking one more element of a sequence appends it.
proof fn lemma_take_push(s: Seq<u64>, i: int)
    requires
        0 <= i < s.len(),
    ensures
        s.take(i + 1) == s.take(i).push(s[i]),
{
    assert(s.take(i + 1) =~= s.take(i).push(s[i]));
}

/// One step of keeping the elements of `t` that satisfy `p`.
proof fn lemma_filter_step(k0: Seq<u64>, k1: Seq<u64>, t: Seq<u64>, x: u64, p: spec_fn(u64) -> bool)
    requires
        forall|y: u64| #[trigger] k0.contains(y) <==> (t.contains(y) && p(y)),
        p(x) ==> k1 == k0.push(x),
        !p(x) ==> k1 == k0,
    ensures
        forall|y: u64| #[trigger] k1.contains(y) <==> (t.push(x).contains(y) && p(y)),
{
    assert forall|y: u64| #[trigger] k1.contains(y) <==> (t.push(x).contains(y) && p(y)) by {
        let t1 = t.push(x);
        if t1.contains(y) && y != x {
            let j = choose|j: int| 0 <= j < t1.len() && t1[j] == y;
            assert(t[j] == y);
        }
        if t.contains(y) {
            let j = choose|j: int| 0 <= j < t.len() && t[j] == y;
            assert(t1[j] == y);
        }
        if y == x {
            assert(t1[t.len() as int] == y);
            if p(x) {
                assert(k1[k0.len() as int] == y);
            }
        }
        if k1.contains(y) && !(p(x) && y == x) {
            let j = choose|j: int| 0 <= j < k1.len() && k1[j] == y;
            assert(k0[j] == y);
        }
        if k0.contains(y) {
            let j = choose|j: int| 0 <= j < k0.len() && k0[j] == y;
            assert(k1[j] == y);
        }
    }
}

/// The end of a simulation tick: every queued entity is despawned with its
/// whole subtree, the messages sent this tick become next tick's inbox, and
/// the entities whose rules ran this tick have had their `Start` pass (an
/// entity spawned during the tick fires `Start` on its first pass).
pub fn end_tick(
    rt: &mut RuleRuntime,
    world: &mut World,
    destroy_queue: Vec<Entity>,
    messages_out: Vec<String>,
    ran: Vec<Entity>,
)
    requires
        acyclic(world_view(*old(world))),
    ensures
        acyclic(world_view(*final(world))),
        world_view(*final(world)).dom().subset_of(world_view(*old(world)).dom()),
        forall|i: int|
            0 <= i < destroy_queue@.len() ==> !alive(
                world_view(*final(world)),
                entity_bits(#[trigger] destroy_queue@[i]),
            ),
        world_view(*final(world)) == despawn_all(world_view(*old(world)), ids_of(destroy_queue@)),
        final(rt).inbox() == texts(messages_out@),
        final(rt).started_ids() == old(rt).started_ids().union(ids_of(ran@).to_set()),
        final(rt).fired_set() == old(rt).fired_set(),
        final(rt).requests() == old(rt).requests(),
{
    let ghost v0 = world_view(*world);
    let mut i: usize = 0;
    proof {
        assert(ids_of(destroy_queue@).take(0) =~= Seq::<u64>::empty());
    }
    while i < destroy_queue.len()
        invariant
            i <= destroy_queue@.len(),
            acyclic(world_view(*world)),
            world_view(*world).dom().subset_of(v0.dom()),
            world_view(*world) == despawn_all(v0, ids_of(destroy_queue@).take(i as int)),
            forall|j: int|
                0 <= j < i ==> !alive(world_view(*world), entity_bits(#[trigger] destroy_queue@[j])),
        decreases destroy_queue@.len() - i,
    {
        let e = destroy_queue[i];
        proof {
            let t = ids_of(destroy_queue@).take(i + 1);
            assert(t.drop_last() =~= ids_of(destroy_queue@).take(i as int));
            assert(t.last() == entity_bits(e));
        }
        if w_contains(world, e) {
            let ghost before = world_view(*world);
            despawn_recursive(world, e);
            proof {
                let ks = crate::ecs::descendants_of(before, entity_bits(e)).to_set().insert(
                    entity_bits(e),
                );
                law_remove_keeps_acyclic(before, ks);
            }
        }
        i += 1;
    }
    proof {
        assert(ids_of(destroy_queue@).take(destroy_queue@.len() as int) =~= ids_of(destroy_queue@));
    }
    rt.deliver(messages_out);
    rt.record_passes(&ran);
}

/// [`end_tick`] for any world: when the child links have a cycle (where a
/// recursive despawn would never end) nothing is despawned, the messages
/// are still delivered and the passes recorded, and `false` is returned.
pub fn end_tick_checked(
    rt: &mut RuleRuntime,
    world: &mut World,
    destroy_queue: Vec<Entity>,
    messages_out: Vec<String>,
    ran: Vec<Entity>,
) -> (done: bool)
    ensures
        done == acyclic(world_view(*old(world))),
        done ==> world_view(*final(world)).dom().subset_of(world_view(*old(world)).dom()) && forall|
            i: int,
        |
            0 <= i < destroy_queue@.len() ==> !alive(
                world_view(*final(world)),
                entity_bits(#[trigger] destroy_queue@[i]),
            ),
        !done ==> world_view(*final(world)) == world_view(*old(world)),
        final(rt).inbox() == texts(messages_out@),
        final(rt).started_ids() == old(rt).started_ids().union(ids_of(ran@).to_set()),
        final(rt).fired_set() == old(rt).fired_set(),
        final(rt).requests() == old(rt).requests(),
{
    if crate::ecs::hierarchy_is_acyclic(world) {
        end_tick(rt, world, destroy_queue, messages_out, ran);
        true
    } else {
        rt.deliver(messages_out);
        rt.record_passes(&ran);
        false
    }
}

// ---------------------------------------------------------------------------
// Rule evaluation
// ---------------------------------------------------------------------------

/// What starts a rule, as far as the rules bookkeeping decides it.
pub enum EventCheck {
    /// The entity's rules have their first pass (it fires while fresh).
    Start,
    /// Every tick.
    Update,
    /// Physical key by name.
    KeyPressed(String),
    KeyHeld(String),
    KeyReleased(String),
    /// Named action from the project's input bindings.
    ActionPressed(String),
    /// Collision began / ended, with an optional partner tag filter.
    CollisionEnter(Option<String>),
    CollisionExit(Option<String>),
    /// A message arrived this tick.
    Message(String),
    /// Decided by the simulation (timers, clicks on the entity's sprite).
    Host,
}

/// A condition of a rule, as far as the rules bookkeeping decides it.
pub enum CondCheck {
    /// The rule has not fired before.
    Once,
    KeyHeld(String),
    KeyNotHeld(String),
    /// Decided by the simulation (cooldowns, variable comparisons, chance).
    Host,
}

/// A rule as the evaluation sees it: its event, its conditions (checked in
/// order, stopping at the first that fails), its actions (run in order) and
/// whether it is enabled.
pub struct RuleCheck {
    pub on: EventCheck,
    pub when: Vec<CondCheck>,
    pub run: Vec<ActionCheck>,
    pub enabled: bool,
}

/// The simulation side of rule evaluation: the floating-point tests with
/// their timers and cooldowns, and the actions that move, spawn, play or
/// change variables.
pub trait RuleHost {
    /// The verdict on rule `rule`'s event when it is the simulation's to
    /// decide; `None` skips the rule this tick.
    fn event(&mut self, rule: u32) -> Option<bool>;

    /// The verdict on condition `cond` of rule `rule` when it is the
    /// simulation's to decide.
    fn condition(&mut self, rule: u32, cond: usize) -> bool;

    /// Carry out action `action` of rule `rule`, one that is the
    /// simulation's to carry out.
    fn action(&mut self, world: &mut World, rule: u32, action: usize);
}

/// The event of a rule holds, for events the bookkeeping decides.
pub open spec fn event_holds(
    rt: RuleRuntime,
    input: Input,
    v: crate::ecs::WorldView,
    collisions: Seq<CollisionPair>,
    e: Entity,
    ev: EventCheck,
) -> bool {
    match ev {
        EventCheck::Start => !rt.started_ids().contains(entity_bits(e)),
        EventCheck::Update => true,
        EventCheck::KeyPressed(k) => input.key_pressed_spec(k@),
        EventCheck::KeyHeld(k) => input.key_held_spec(k@),
        EventCheck::KeyReleased(k) => input.key_released_spec(k@),
        EventCheck::ActionPressed(a) => match input.action_bindings(a@) {
            Some(bs) => exists|i: int| 0 <= i < bs.len() && input.binding_pressed_spec(#[trigger] bs[i]),
            None => false,
        },
        EventCheck::CollisionEnter(f) => exists|i: int|
            0 <= i < collisions.len() && #[trigger] partner_hit(
                v,
                collisions[i],
                entity_bits(e),
                filter_text(f),
                true,
            ),
        EventCheck::CollisionExit(f) => exists|i: int|
            0 <= i < collisions.len() && #[trigger] partner_hit(
                v,
                collisions[i],
                entity_bits(e),
                filter_text(f),
                false,
            ),
        EventCheck::Message(m) => rt.inbox().contains(m@),
        EventCheck::Host => true,
    }
}

/// A condition holds, for conditions the bookkeeping decides.
pub open spec fn cond_holds(rt: RuleRuntime, input: Input, e: Entity, idx: int, c: CondCheck) -> bool {
    match c {
        CondCheck::Once => !rt.fired_set().contains((entity_bits(e), idx as u32)),
        CondCheck::KeyHeld(k) => input.key_held_spec(k@),
        CondCheck::KeyNotHeld(k) => !input.key_held_spec(k@),
        CondCheck::Host => true,
    }
}

/// Nothing of the rule is the simulation's to decide.
pub open spec fn decided_here(r: RuleCheck) -> bool {
    !(r.on is Host) && forall|j: int| 0 <= j < r.when@.len() ==> !(#[trigger] r.when@[j] is Host)
}

/// The rule's event does not depend on the world (only collision events
/// look at the partner's tag).
pub open spec fn world_free(r: RuleCheck) -> bool {
    decided_here(r) && !(r.on is CollisionEnter) && !(r.on is CollisionExit)
}

/// Whether rule `idx` passes every test the bookkeeping decides, with the
/// world as `v`.
pub open spec fn rule_passes(
    rt: RuleRuntime,
    input: Input,
    v: crate::ecs::WorldView,
    collisions: Seq<CollisionPair>,
    e: Entity,
    idx: int,
    r: RuleCheck,
) -> bool {
    &&& r.enabled
    &&& event_holds(rt, input, v, collisions, e, r.on)
    &&& forall|j: int| 0 <= j < r.when@.len() ==> #[trigger] cond_holds(rt, input, e, idx, r.when@[j])
}

fn check_event<H: RuleHost>(
    rt: &RuleRuntime,
    host: &mut H,
    world: &World,
    entity: Entity,
    idx: u32,
    ev: &EventCheck,
    collisions: &[CollisionPair],
    input: &Input,
) -> (r: Option<bool>)
    ensures
        !(*ev is Host) ==> r == Some(event_holds(*rt, *input, world_view(*world), collisions@, entity, *ev)),
{
    match ev {
        EventCheck::Start => Some(rt.is_fresh(entity)),
        EventCheck::Update => Some(true),
        EventCheck::KeyPressed(k) => Some(input.key_pressed(k.as_str())),
        EventCheck::KeyHeld(k) => Some(input.key_held(k.as_str())),
        EventCheck::KeyReleased(k) => Some(input.key_released(k.as_str())),
        EventCheck::ActionPressed(a) => Some(input.action_pressed(a.as_str())),
        EventCheck::CollisionEnter(f) => Some(hit_partner(world, collisions, entity, f, true)),
        EventCheck::CollisionExit(f) => Some(hit_partner(world, collisions, entity, f, false)),
        EventCheck::Message(m) => Some(rt.message_arrived(m.as_str())),
        EventCheck::Host => host.event(idx),
    }
}

fn check_cond<H: RuleHost>(
    rt: &RuleRuntime,
    host: &mut H,
    entity: Entity,
    idx: u32,
    j: usize,
    c: &CondCheck,
    input: &Input,
) -> (r: bool)
    ensures
        !(*c is Host) ==> r == cond_holds(*rt, *input, entity, idx as int, *c),
{
    match c {
        CondCheck::Once => !rt.has_fired(entity, idx),
        CondCheck::KeyHeld(k) => input.key_held(k.as_str()),
        CondCheck::KeyNotHeld(k) => !input.key_held(k.as_str()),
        CondCheck::Host => host.condition(idx, j),
    }
}

/// The rule has an action that the simulation carries out.
pub open spec fn has_host_action(r: RuleCheck) -> bool {
    exists|k: int| 0 <= k < r.run@.len() && #[trigger] r.run@[k] is Host
}

/// None of the rules that ran before rule `i` had an action that the
/// simulation carries out, so the world is still as the pass found it.
pub open spec fn quiet_before(rules: Seq<RuleCheck>, fired: Seq<u32>, i: int) -> bool {
    forall|a: int|
        0 <= a < fired.len() && (fired[a] as int) < i ==> !has_host_action(
            #[trigger] rules[fired[a] as int],
        )
}

/// What a rule that ran met, of the tests the bookkeeping decides: it is
/// enabled, its conditions hold, and its event happened in the world as it
/// stood when the rule was checked.
pub open spec fn ran_ok(
    rt: RuleRuntime,
    input: Input,
    collisions: Seq<CollisionPair>,
    e: Entity,
    idx: int,
    r: RuleCheck,
) -> bool {
    &&& r.enabled
    &&& forall|j: int|
        0 <= j < r.when@.len() && !(#[trigger] r.when@[j] is Host) ==> cond_holds(rt, input, e, idx, r.when@[j])
    &&& !(r.on is Host) ==> exists|v: crate::ecs::WorldView| #[trigger]
        event_holds(rt, input, v, collisions, e, r.on)
}

/// The actions of the rules that ran, in order.
pub open spec fn acts_of(rules: Seq<RuleCheck>, fired: Seq<u32>) -> Seq<ActionCheck>
    decreases fired.len(),
{
    if fired.len() == 0 {
        Seq::empty()
    } else {
        acts_of(rules, fired.drop_last()) + rules[fired.last() as int].run@
    }
}

/// The messages sent by a run of actions.
pub open spec fn sent(a: Seq<ActionCheck>) -> Seq<Seq<char>>
    decreases a.len(),
{
    if a.len() == 0 {
        Seq::empty()
    } else {
        sent(a.drop_last()) + match a.last() {
            ActionCheck::SendMessage(m) => seq![m@],
            _ => Seq::empty(),
        }
    }
}

/// A run of actions asks to quit.
pub open spec fn quits(a: Seq<ActionCheck>) -> bool {
    exists|k: int| 0 <= k < a.len() && #[trigger] a[k] is Quit
}

/// The scene a run of actions asks to load: the last `LoadScene`, else `d`.
pub open spec fn last_load(a: Seq<ActionCheck>, d: Option<Seq<char>>) -> Option<Seq<char>>
    decreases a.len(),
{
    if a.len() == 0 {
        d
    } else {
        match a.last() {
            ActionCheck::LoadScene(p) => Some(p@),
            _ => last_load(a.drop_last(), d),
        }
    }
}

/// The entities an action asks to destroy, reading the world as `v`.
pub open spec fn action_targets(x: ActionCheck, e: Entity, other: Option<Entity>, v: crate::ecs::WorldView) -> Set<u64> {
    match x {
        ActionCheck::DestroySelf => set![entity_bits(e)],
        ActionCheck::DestroyOther => match other {
            Some(o) => set![entity_bits(o)],
            None => Set::empty(),
        },
        ActionCheck::DestroyTagged(t) => Set::new(|y: u64| alive(v, y) && tag_of(v, y) == Some(t@)),
        _ => Set::empty(),
    }
}

/// The entities a run of actions asks to destroy, reading the world as `v`.
pub open spec fn destroy_targets(
    a: Seq<ActionCheck>,
    e: Entity,
    other: Option<Entity>,
    v: crate::ecs::WorldView,
) -> Set<u64>
    decreases a.len(),
{
    if a.len() == 0 {
        Set::empty()
    } else {
        destroy_targets(a.drop_last(), e, other, v).union(action_targets(a.last(), e, other, v))
    }
}

/// None of the actions is the simulation's to carry out.
pub open spec fn no_host(a: Seq<ActionCheck>) -> bool {
    forall|k: int| 0 <= k < a.len() ==> !(#[trigger] a[k] is Host)
}

/// One more action: its targets join those of the run before it.
proof fn lemma_targets_step(a: Seq<ActionCheck>, x: ActionCheck, e: Entity, other: Option<Entity>, v: crate::ecs::WorldView)
    ensures
        destroy_targets(a.push(x), e, other, v) == destroy_targets(a, e, other, v).union(
            action_targets(x, e, other, v),
        ),
        action_targets(x, e, other, Map::empty()).subset_of(action_targets(x, e, other, v)),
        no_host(a.push(x)) ==> no_host(a) && !(x is Host),
{
    assert(a.push(x).drop_last() =~= a);
    assert(a.push(x).last() == x);
    if no_host(a.push(x)) {
        assert forall|k: int| 0 <= k < a.len() implies !(#[trigger] a[k] is Host) by {
            assert(a.push(x)[k] == a[k]);
        }
        assert(a.push(x)[a.len() as int] == x);
    }
}

/// What `run_action` leaves of the requests after one more action.
proof fn lemma_requests_step(a: Seq<ActionCheck>, x: ActionCheck, d: Option<Seq<char>>)
    ensures
        sent(a.push(x)) == sent(a) + match x {
            ActionCheck::SendMessage(m) => seq![m@],
            _ => Seq::<Seq<char>>::empty(),
        },
        quits(a.push(x)) == (quits(a) || x is Quit),
        last_load(a.push(x), d) == match x {
            ActionCheck::LoadScene(p) => Some(p@),
            _ => last_load(a, d),
        },
{
    assert(a.push(x).drop_last() =~= a);
    assert(a.push(x).last() == x);
    if quits(a) {
        let k = choose|k: int| 0 <= k < a.len() && #[trigger] a[k] is Quit;
        assert(a.push(x)[k] is Quit);
    }
    if x is Quit {
        assert(a.push(x)[a.len() as int] is Quit);
    }
    if quits(a.push(x)) && !(x is Quit) {
        let k = choose|k: int| 0 <= k < a.push(x).len() && #[trigger] a.push(x)[k] is Quit;
        assert(a[k] is Quit);
    }
}

/// Execute one entity's rules for this tick: each enabled rule whose event
/// happened and whose conditions hold (checked in order, stopping at the
/// first that fails) runs its actions in order, the bookkeeping ones here
/// and the others by the host; the rules that ran are remembered for `Once`
/// once all rules were checked. Returns the indices of the rules that ran.
///
/// Timers, clicks, cooldowns, variable comparisons and chance are the
/// host's to decide; a collision event checks the partner's tag in the
/// world as the earlier rules' actions left it. Destruction, messages,
/// scene loads and quitting are requests collected in `out` for the end of
/// the tick.
pub fn run_rules<H: RuleHost>(
    rt: &mut RuleRuntime,
    host: &mut H,
    world: &mut World,
    out: &mut ActionOutcome,
    rules: &[RuleCheck],
    collisions: &[CollisionPair],
    input: &Input,
) -> (fired: Vec<u32>)
    requires
        rules@.len() <= u32::MAX,
    ensures
        forall|a: int, b: int| 0 <= a < b < fired@.len() ==> fired@[a] < fired@[b],
        forall|a: int| 0 <= a < fired@.len() ==> (fired@[a] as int) < rules@.len(),
        final(rt).fired_set() == old(rt).fired_set().union(
            Set::new(|p: (u64, u32)| p.0 == entity_bits(old(out).entity) && fired@.contains(p.1)),
        ),
        final(rt).started_ids() == old(rt).started_ids(),
        final(rt).inbox() == old(rt).inbox(),
        final(rt).requests() == old(rt).requests(),
        forall|a: int|
            0 <= a < fired@.len() ==> ran_ok(
                *old(rt),
                *input,
                collisions@,
                old(out).entity,
                fired@[a] as int,
                #[trigger] rules@[fired@[a] as int],
            ),
        forall|i: int|
            0 <= i < rules@.len() && world_free(#[trigger] rules@[i]) ==> (fired@.contains(i as u32)
                <==> rule_passes(
                *old(rt),
                *input,
                Map::empty(),
                collisions@,
                old(out).entity,
                i,
                rules@[i],
            )),
        forall|i: int|
            0 <= i < rules@.len() && decided_here(#[trigger] rules@[i]) && quiet_before(
                rules@,
                fired@,
                i,
            ) ==> (fired@.contains(i as u32) <==> rule_passes(
                *old(rt),
                *input,
                world_view(*old(world)),
                collisions@,
                old(out).entity,
                i,
                rules@[i],
            )),
        quiet_before(rules@, fired@, rules@.len() as int) ==> world_view(*final(world)) == world_view(
            *old(world),
        ),
        final(out).entity == old(out).entity,
        final(out).other == old(out).other,
        texts(final(out).messages_out@) == texts(old(out).messages_out@) + sent(
            acts_of(rules@, fired@),
        ),
        final(out).quit == (old(out).quit || quits(acts_of(rules@, fired@))),
        filter_text(final(out).load_scene) == last_load(
            acts_of(rules@, fired@),
            filter_text(old(out).load_scene),
        ),
        final(out).destroy_queue@.len() >= old(out).destroy_queue@.len(),
        final(out).destroy_queue@.subrange(0, old(out).destroy_queue@.len() as int) == old(
            out,
        ).destroy_queue@,
        ids_of(old(out).destroy_queue@).no_duplicates() ==> ids_of(
            final(out).destroy_queue@,
        ).no_duplicates(),
        destroy_targets(
            acts_of(rules@, fired@),
            old(out).entity,
            old(out).other,
            Map::empty(),
        ).subset_of(ids_of(final(out).destroy_queue@).to_set()),
        no_host(acts_of(rules@, fired@)) ==> ids_of(final(out).destroy_queue@).to_set() == ids_of(
            old(out).destroy_queue@,
        ).to_set().union(
            destroy_targets(acts_of(rules@, fired@), old(out).entity, old(out).other, world_view(*old(world))),
        ),
{
    let entity = out.entity;
    let ghost rt0 = *rt;
    let ghost w0 = world_view(*world);
    let ghost q0 = out.destroy_queue@;
    let ghost m0 = texts(out.messages_out@);
    let ghost quit0 = out.quit;
    let ghost load0 = filter_text(out.load_scene);
    let ghost other0 = out.other;
    let mut fired: Vec<u32> = Vec::new();
    let mut idx: usize = 0;
    proof {
        assert(acts_of(rules@, fired@) =~= Seq::<ActionCheck>::empty());
        assert(m0 + Seq::<Seq<char>>::empty() =~= m0);
        assert(q0.subrange(0, q0.len() as int) =~= q0);
        assert(ids_of(q0).to_set().union(Set::<u64>::empty()) =~= ids_of(q0).to_set());
    }
    while idx < rules.len()
        invariant
            idx <= rules@.len(),
            rules@.len() <= u32::MAX,
            *rt == rt0,
            entity == out.entity,
            out.other == other0,
            forall|a: int, b: int| 0 <= a < b < fired@.len() ==> fired@[a] < fired@[b],
            forall|a: int| 0 <= a < fired@.len() ==> (fired@[a] as int) < idx,
            forall|a: int|
                0 <= a < fired@.len() ==> ran_ok(
                    rt0,
                    *input,
                    collisions@,
                    entity,
                    fired@[a] as int,
                    #[trigger] rules@[fired@[a] as int],
                ),
            forall|i: int|
                0 <= i < idx && world_free(#[trigger] rules@[i]) ==> (fired@.contains(i as u32)
                    <==> rule_passes(rt0, *input, Map::empty(), collisions@, entity, i, rules@[i])),
            forall|i: int|
                0 <= i < idx && decided_here(#[trigger] rules@[i]) && quiet_before(rules@, fired@, i)
                    ==> (fired@.contains(i as u32) <==> rule_passes(
                    rt0,
                    *input,
                    w0,
                    collisions@,
                    entity,
                    i,
                    rules@[i],
                )),
            quiet_before(rules@, fired@, idx as int) ==> world_view(*world) == w0,
            texts(out.messages_out@) == m0 + sent(acts_of(rules@, fired@)),
            out.quit == (quit0 || quits(acts_of(rules@, fired@))),
            filter_text(out.load_scene) == last_load(acts_of(rules@, fired@), load0),
            out.destroy_queue@.len() >= q0.len(),
            out.destroy_queue@.subrange(0, q0.len() as int) == q0,
            ids_of(q0).no_duplicates() ==> ids_of(out.destroy_queue@).no_duplicates(),
            destroy_targets(acts_of(rules@, fired@), entity, other0, Map::empty()).subset_of(
                ids_of(out.destroy_queue@).to_set(),
            ),
            no_host(acts_of(rules@, fired@)) ==> world_view(*world) == w0 && ids_of(
                out.destroy_queue@,
            ).to_set() == ids_of(q0).to_set().union(
                destroy_targets(acts_of(rules@, fired@), entity, other0, w0),
            ),
        decreases rules@.len() - idx,
    {
        let rule = &rules[idx];
        let ghost f0 = fired@;
        let ghost wv = world_view(*world);
        let mut ran = false;
        if rule.enabled {
            let hit = check_event(rt, host, world, entity, idx as u32, &rule.on, collisions, input);
            if let Some(true) = hit {
                let mut ok = true;
                let mut j: usize = 0;
                while j < rule.when.len()
                    invariant_except_break
                        j <= rule.when@.len(),
                        *rt == rt0,
                        ok,
                        forall|q: int|
                            0 <= q < j && !(#[trigger] rule.when@[q] is Host) ==> cond_holds(
                                rt0,
                                *input,
                                entity,
                                idx as int,
                                rule.when@[q],
                            ),
                    ensures
                        *rt == rt0,
                        ok ==> forall|q: int|
                            0 <= q < rule.when@.len() && !(#[trigger] rule.when@[q] is Host)
                                ==> cond_holds(rt0, *input, entity, idx as int, rule.when@[q]),
                        !ok ==> j < rule.when@.len() && (rule.when@[j as int] is Host || !cond_holds(
                            rt0,
                            *input,
                            entity,
                            idx as int,
                            rule.when@[j as int],
                        )),
                    decreases rule.when@.len() - j,
                {
                    let c = check_cond(rt, host, entity, idx as u32, j, &rule.when[j], input);
                    if !c {
                        ok = false;
                        break;
                    }
                    j += 1;
                }
                if ok {
                    fired.push(idx as u32);
                    ran = true;
                    proof {
                        assert(fired@.drop_last() =~= f0);
                        assert(acts_of(rules@, fired@) == acts_of(rules@, f0) + rule.run@);
                        if !(rule.on is Host) {
                            assert(event_holds(rt0, *input, wv, collisions@, entity, rule.on));
                        }
                        assert(ran_ok(rt0, *input, collisions@, entity, idx as int, rules@[idx as int]));
                        assert(acts_of(rules@, f0) + rule.run@.take(0) =~= acts_of(rules@, f0));
                    }
                    let ghost base = acts_of(rules@, f0);
                    let mut k: usize = 0;
                    while k < rule.run.len()
                        invariant
                            k <= rule.run@.len(),
                            rule == &rules@[idx as int],
                            entity == out.entity,
                            out.other == other0,
                            (forall|t: int| 0 <= t < k ==> !(#[trigger] rule.run@[t] is Host))
                                ==> world_view(*world) == wv,
                            texts(out.messages_out@) == m0 + sent(base + rule.run@.take(k as int)),
                            out.quit == (quit0 || quits(base + rule.run@.take(k as int))),
                            filter_text(out.load_scene) == last_load(
                                base + rule.run@.take(k as int),
                                load0,
                            ),
                            out.destroy_queue@.len() >= q0.len(),
                            out.destroy_queue@.subrange(0, q0.len() as int) == q0,
                            ids_of(q0).no_duplicates() ==> ids_of(out.destroy_queue@).no_duplicates(),
                            destroy_targets(base + rule.run@.take(k as int), entity, other0, Map::empty()).subset_of(
                                ids_of(out.destroy_queue@).to_set(),
                            ),
                            no_host(base + rule.run@.take(k as int)) ==> world_view(*world) == w0 && ids_of(
                                out.destroy_queue@,
                            ).to_set() == ids_of(q0).to_set().union(
                                destroy_targets(base + rule.run@.take(k as int), entity, other0, w0),
                            ),
                        decreases rule.run@.len() - k,
                    {
                        let ghost a0 = base + rule.run@.take(k as int);
                        let ghost qb = out.destroy_queue@;
                        let ghost mb = texts(out.messages_out@);
                        let ghost vb = world_view(*world);
                        let act = &rule.run[k];
                        proof {
                            lemma_targets_step(a0, *act, entity, other0, Map::empty());
                            lemma_targets_step(a0, *act, entity, other0, vb);
                            lemma_targets_step(a0, *act, entity, other0, w0);
                            assert(base + rule.run@.take(k + 1) =~= a0.push(*act));
                            lemma_requests_step(a0, *act, load0);
                            assert((m0 + sent(a0)) + match *act {
                                ActionCheck::SendMessage(m) => seq![m@],
                                _ => Seq::<Seq<char>>::empty(),
                            } =~= m0 + sent(a0.push(*act)));
                        }
                        match act {
                            ActionCheck::Host => {
                                host.action(world, idx as u32, k);
                            },
                            _ => {
                                run_action(out, world, act);
                                proof {
                                    assert(out.destroy_queue@.subrange(0, qb.len() as int) =~= qb);
                                    match *act {
                                        ActionCheck::DestroySelf => {
                                            lemma_queue_push_nodup(qb, out.destroy_queue@, entity);
                                        },
                                        ActionCheck::DestroyOther => {
                                            if let Some(o) = other0 {
                                                lemma_queue_push_nodup(qb, out.destroy_queue@, o);
                                            }
                                        },
                                        _ => {},
                                    }
                                    if *act is SendMessage {
                                        assert(texts(out.messages_out@) == mb.push(
                                            act->SendMessage_0@,
                                        ));
                                    }
                                }
                            },
                        }
                        proof {
                            assert(out.destroy_queue@.subrange(0, q0.len() as int) =~= q0) by {
                                assert(out.destroy_queue@.subrange(0, qb.len() as int) =~= qb);
                                assert(qb.subrange(0, q0.len() as int) == q0);
                                assert forall|t: int| 0 <= t < q0.len() implies out.destroy_queue@[t]
                                    == q0[t] by {
                                    assert(out.destroy_queue@.subrange(0, qb.len() as int)[t] == qb[t]);
                                    assert(qb.subrange(0, q0.len() as int)[t] == q0[t]);
                                }
                            }
                            assert forall|t: int| 0 <= t < k + 1 && !(#[trigger] rule.run@[t] is Host) implies
                                t < k || !(rule.run@[k as int] is Host) by {}
                        }
                        k += 1;
                    }
                    proof {
                        assert(rule.run@.take(rule.run@.len() as int) =~= rule.run@);
                    }
                } else {
                    proof {
                        if decided_here(rules@[idx as int]) {
                            assert(!(rule.when@[j as int] is Host));
                            assert(!cond_holds(rt0, *input, entity, idx as int, rule.when@[j as int]));
                        }
                    }
                }
            }
        }
        proof {
            if ran {
                assert(fired@ == f0.push(idx as u32));
            } else {
                assert(fired@ == f0);
            }
            assert forall|a: int|
                0 <= a < fired@.len() implies ran_ok(
                    rt0,
                    *input,
                    collisions@,
                    entity,
                    fired@[a] as int,
                    #[trigger] rules@[fired@[a] as int],
                ) by {
                if a < f0.len() {
                    assert(fired@[a] == f0[a]);
                }
            }
            assert forall|i: int|
                0 <= i < idx + 1 && world_free(#[trigger] rules@[i]) implies (fired@.contains(i as u32)
                    <==> rule_passes(rt0, *input, Map::empty(), collisions@, entity, i, rules@[i])) by {
                lemma_fired_step(f0, fired@, idx as int, ran, i);
                if i == idx {
                    assert(event_holds(rt0, *input, Map::empty(), collisions@, entity, rules@[i].on)
                        == event_holds(rt0, *input, wv, collisions@, entity, rules@[i].on));
                }
            }
            assert forall|i: int|
                0 <= i < idx + 1 && decided_here(#[trigger] rules@[i]) && quiet_before(rules@, fired@, i)
                    implies (fired@.contains(i as u32) <==> rule_passes(
                    rt0,
                    *input,
                    w0,
                    collisions@,
                    entity,
                    i,
                    rules@[i],
                )) by {
                lemma_fired_step(f0, fired@, idx as int, ran, i);
                assert(quiet_before(rules@, f0, i)) by {
                    assert forall|a: int|
                        0 <= a < f0.len() && (f0[a] as int) < i implies !has_host_action(
                            #[trigger] rules@[f0[a] as int],
                        ) by {
                        assert(fired@[a] == f0[a]);
                    }
                }
                if i == idx {
                    assert(quiet_before(rules@, f0, idx as int));
                    assert(wv == w0);
                }
            }
            assert(quiet_before(rules@, fired@, idx + 1) ==> world_view(*world) == w0) by {
                if quiet_before(rules@, fired@, idx + 1) {
                    assert(quiet_before(rules@, f0, idx as int)) by {
                        assert forall|a: int|
                            0 <= a < f0.len() && (f0[a] as int) < idx implies !has_host_action(
                                #[trigger] rules@[f0[a] as int],
                            ) by {
                            assert(fired@[a] == f0[a]);
                        }
                    }
                    if ran {
                        assert(fired@[f0.len() as int] == idx as u32);
                        assert(!has_host_action(rules@[idx as int]));
                    }
                }
            }
        }
        idx += 1;
    }
    let mut k: usize = 0;
    proof {
        assert(rt.fired_set() =~= rt0.fired_set().union(
            Set::new(|p: (u64, u32)| p.0 == entity_bits(entity) && fired@.take(0).contains(p.1)),
        ));
    }
    while k < fired.len()
        invariant
            k <= fired@.len(),
            rt.fired_set() == rt0.fired_set().union(
                Set::new(|p: (u64, u32)| p.0 == entity_bits(entity) && fired@.take(k as int).contains(p.1)),
            ),
            rt.started_ids() == rt0.started_ids(),
            rt.inbox() == rt0.inbox(),
            rt.requests() == rt0.requests(),
        decreases fired@.len() - k,
    {
        let x = fired[k];
        rt.record_fired(entity, x);
        proof {
            let a = fired@.take(k as int);
            let b = fired@.take(k + 1);
            assert(b =~= a.push(x));
            assert forall|y: u32| #[trigger] b.contains(y) <==> (a.contains(y) || y == x) by {
                if b.contains(y) && y != x {
                    let t = choose|t: int| 0 <= t < b.len() && b[t] == y;
                    assert(a[t] == y);
                }
                if a.contains(y) {
                    let t = choose|t: int| 0 <= t < a.len() && a[t] == y;
                    assert(b[t] == y);
                }
                if y == x {
                    assert(b[a.len() as int] == y);
                }
            }
            assert(rt.fired_set() =~= rt0.fired_set().union(
                Set::new(|p: (u64, u32)| p.0 == entity_bits(entity) && b.contains(p.1)),
            ));
        }
        k += 1;
    }
    proof {
        assert(fired@.take(fired@.len() as int) =~= fired@);
    }
    fired
}

/// Law: a rule with a `Once` condition runs at most once per entity. Once
/// it has run, the fired set remembers it, and as long as the runtime is
/// not cleared (the fired set only grows) the rule cannot run again.
pub proof fn law_once_runs_once(
    rt1: RuleRuntime,
    rt2: RuleRuntime,
    input: Input,
    collisions: Seq<CollisionPair>,
    e: Entity,
    idx: int,
    r: RuleCheck,
    fired: Seq<u32>,
    once_at: int,
)
    requires
        0 <= idx <= u32::MAX,
        0 <= once_at < r.when@.len(),
        r.when@[once_at] is Once,
        fired.contains(idx as u32),
        Set::new(|p: (u64, u32)| p.0 == entity_bits(e) && fired.contains(p.1)).subset_of(
            rt1.fired_set(),
        ),
        rt1.fired_set().subset_of(rt2.fired_set()),
    ensures
        !ran_ok(rt2, input, collisions, e, idx, r),
{
    assert(Set::new(|p: (u64, u32)| p.0 == entity_bits(e) && fired.contains(p.1)).contains(
        (entity_bits(e), idx as u32),
    ));
    assert(rt2.fired_set().contains((entity_bits(e), idx as u32)));
    assert(!cond_holds(rt2, input, e, idx, r.when@[once_at]));
}

/// Law: the key events of a rule follow the edges of the key they name:
/// `KeyPressed` holds the frame the key went down, `KeyHeld` while it is
/// down, `KeyReleased` the frame it went up. An enabled rule with no
/// conditions on such an event passes exactly then.
pub proof fn law_key_events_follow_edges(
    rt: RuleRuntime,
    input: Input,
    v: crate::ecs::WorldView,
    collisions: Seq<CollisionPair>,
    e: Entity,
    idx: int,
    k: Key,
    name: String,
    r: RuleCheck,
)
    requires
        nameable(k),
        name@ == key_name(k),
        r.enabled,
        r.when@.len() == 0,
    ensures
        event_holds(rt, input, v, collisions, e, EventCheck::KeyPressed(name)) == input.keys().1.contains(k),
        event_holds(rt, input, v, collisions, e, EventCheck::KeyHeld(name)) == input.keys().0.contains(k),
        event_holds(rt, input, v, collisions, e, EventCheck::KeyReleased(name)) == input.keys().2.contains(k),
        r.on == EventCheck::KeyReleased(name) ==> (rule_passes(rt, input, v, collisions, e, idx, r)
            == input.keys().2.contains(k)),
        r.on == EventCheck::KeyPressed(name) ==> (rule_passes(rt, input, v, collisions, e, idx, r)
            == input.keys().1.contains(k)),
{
    law_key_name_round_trip(k);
}

/// Law: a `KeyReleased` rule does not pass in the frame its key goes down
/// (while it is held and has not gone up), and passes in the frame it goes up.
pub proof fn law_key_released_fires_on_release(
    rt: RuleRuntime,
    before: Input,
    down: Input,
    up: Input,
    v: crate::ecs::WorldView,
    collisions: Seq<CollisionPair>,
    e: Entity,
    idx: int,
    k: Key,
    name: String,
    r: RuleCheck,
)
    requires
        nameable(k),
        name@ == key_name(k),
        r.enabled,
        r.when@.len() == 0,
        r.on == EventCheck::KeyReleased(name),
        down.keys() == key_event(before.keys(), k, true),
        up.keys() == key_event(down.keys(), k, false),
        !before.keys().2.contains(k),
    ensures
        !rule_passes(rt, down, v, collisions, e, idx, r),
        rule_passes(rt, up, v, collisions, e, idx, r),
{
    law_key_events_follow_edges(rt, down, v, collisions, e, idx, k, name, r);
    law_key_events_follow_edges(rt, up, v, collisions, e, idx, k, name, r);
}

/// The list of rules that ran grows by `idx` exactly when the rule ran, so
/// membership of an earlier index is unchanged.
proof fn lemma_fired_step(f0: Seq<u32>, f1: Seq<u32>, idx: int, ran: bool, i: int)
    requires
        0 <= i <= idx <= u32::MAX,
        forall|a: int| 0 <= a < f0.len() ==> (f0[a] as int) < idx,
        ran ==> f1 == f0.push(idx as u32),
        !ran ==> f1 == f0,
    ensures
        i < idx ==> (f1.contains(i as u32) <==> f0.contains(i as u32)),
        i == idx ==> (f1.contains(i as u32) <==> ran),
{
    if ran {
        if f1.contains(i as u32) && i < idx {
            let t = choose|t: int| 0 <= t < f1.len() && f1[t] == i as u32;
            if t == f0.len() {
                assert(f1[t] == idx as u32);
            } else {
                assert(f0[t] == i as u32);
            }
        }
        if f0.contains(i as u32) {
            let t = choose|t: int| 0 <= t < f0.len() && f0[t] == i as u32;
            assert(f1[t] == i as u32);
        }
        if i == idx {
            assert(f1[f0.len() as int] == idx as u32);
        }
    } else {
        if i == idx && f0.contains(i as u32) {
            let t = choose|t: int| 0 <= t < f0.len() && f0[t] == i as u32;
        }
    }
}

// ---------------------------------------------------------------------------
// Actions
// ---------------------------------------------------------------------------

/// A rule action, as far as the rules bookkeeping carries it out.
pub enum ActionCheck {
    DestroySelf,
    /// Destroy the collision partner (only meaningful in collision rules).
    DestroyOther,
    /// Destroy every entity carrying this tag.
    DestroyTagged(String),
    /// Load another scene (project-relative path) at the end of the tick.
    LoadScene(String),
    /// Broadcast a message; rules receive it next tick.
    SendMessage(String),
    /// Stop play mode / exit the game.
    Quit,
    /// Show or hide the entity.
    SetVisible(bool),
    /// Flip whether the entity is shown.
    ToggleVisible,
    /// Carried out by the simulation (movement, physics, sound, variables,
    /// camera, spawning, logging).
    Host,
}

/// What one entity's actions requested this tick, for the end of the tick.
pub struct ActionOutcome {
    pub entity: Entity,
    /// The collision partner, for `DestroyOther`.
    pub other: Option<Entity>,
    pub destroy_queue: Vec<Entity>,
    pub messages_out: Vec<String>,
    pub load_scene: Option<String>,
    pub quit: bool,
}

/// Resolve the collision partner for `DestroyOther` (kept when already
/// set).
pub fn set_partner(out: &mut ActionOutcome, collisions: &[CollisionPair])
    ensures
        final(out).other == match old(out).other {
            Some(o) => Some(o),
            None => first_partner(collisions@, entity_bits(old(out).entity)),
        },
        final(out).entity == old(out).entity,
        final(out).destroy_queue@ == old(out).destroy_queue@,
        texts(final(out).messages_out@) == texts(old(out).messages_out@),
        final(out).load_scene == old(out).load_scene,
        final(out).quit == old(out).quit,
{
    if out.other.is_none() {
        out.other = partner_of(collisions, out.entity);
    }
}

/// Carry out one action; returns `false` for actions that are the
/// simulation's to carry out (nothing changes then).
pub fn run_action(out: &mut ActionOutcome, world: &mut World, action: &ActionCheck) -> (handled: bool)
    ensures
        handled == !(*action is Host),
        world_view(*final(world)) == world_view(*old(world)),
        visibility(*final(world)) == {
            let v = visibility(*old(world));
            let e = entity_bits(old(out).entity);
            if alive(world_view(*old(world)), e) {
                match *action {
                    ActionCheck::SetVisible(b) => v.insert(e, b),
                    ActionCheck::ToggleVisible => v.insert(e, !shown(*old(world), old(out).entity)),
                    _ => v,
                }
            } else {
                v
            }
        },
        final(out).entity == old(out).entity,
        final(out).other == old(out).other,
        final(out).destroy_queue@.len() >= old(out).destroy_queue@.len(),
        ids_of(final(out).destroy_queue@).to_set() == ids_of(old(out).destroy_queue@).to_set().union(
            action_targets(*action, old(out).entity, old(out).other, world_view(*old(world))),
        ),
        match *action {
            ActionCheck::DestroySelf => final(out).destroy_queue@ == queued_once(
                old(out).destroy_queue@,
                old(out).entity,
            ),
            ActionCheck::DestroyOther => match old(out).other {
                Some(o) => final(out).destroy_queue@ == queued_once(old(out).destroy_queue@, o),
                None => final(out).destroy_queue@ == old(out).destroy_queue@,
            },
            ActionCheck::DestroyTagged(tag) => {
                &&& forall|x: u64| #[trigger]
                    ids_of(final(out).destroy_queue@).contains(x) <==> (ids_of(old(out).destroy_queue@).contains(x)
                        || (alive(world_view(*old(world)), x) && tag_of(world_view(*old(world)), x) == Some(
                        tag@,
                    )))
                &&& final(out).destroy_queue@.subrange(0, old(out).destroy_queue@.len() as int)
                    == old(out).destroy_queue@
                &&& ids_of(old(out).destroy_queue@).no_duplicates() ==> ids_of(
                    final(out).destroy_queue@,
                ).no_duplicates()
            },
            _ => final(out).destroy_queue@ == old(out).destroy_queue@,
        },
        texts(final(out).messages_out@) == match *action {
            ActionCheck::SendMessage(m) => texts(old(out).messages_out@).push(m@),
            _ => texts(old(out).messages_out@),
        },
        match *action {
            ActionCheck::LoadScene(p) => final(out).load_scene matches Some(q) && q@ == p@,
            _ => final(out).load_scene == old(out).load_scene,
        },
        final(out).quit == (old(out).quit || *action is Quit),
{
    match action {
        ActionCheck::DestroySelf => {
            let e = out.entity;
            let ghost q0 = out.destroy_queue@;
            queue_destroy(&mut out.destroy_queue, e);
            proof {
                lemma_queue_once_set(q0, out.destroy_queue@, e);
            }
            true
        },
        ActionCheck::DestroyOther => {
            let ghost q0 = out.destroy_queue@;
            if let Some(o) = out.other {
                queue_destroy(&mut out.destroy_queue, o);
                proof {
                    lemma_queue_once_set(q0, out.destroy_queue@, o);
                }
            } else {
                assert(ids_of(q0).to_set() =~= ids_of(q0).to_set().union(Set::<u64>::empty()));
            }
            true
        },
        ActionCheck::DestroyTagged(tag) => {
            let ghost q0 = out.destroy_queue@;
            queue_tagged(world, tag.as_str(), &mut out.destroy_queue);
            proof {
                let t = action_targets(*action, out.entity, out.other, world_view(*world));
                assert(ids_of(out.destroy_queue@).to_set() =~= ids_of(q0).to_set().union(t)) by {
                    assert forall|x: u64| ids_of(out.destroy_queue@).to_set().contains(x) <==> ids_of(
                        q0,
                    ).to_set().union(t).contains(x) by {
                        assert(ids_of(out.destroy_queue@).contains(x) <==> (ids_of(q0).contains(x) || (
                        alive(world_view(*world), x) && tag_of(world_view(*world), x) == Some(tag@))));
                    }
                }
            }
            true
        },
        ActionCheck::LoadScene(p) => {
            out.load_scene = Some(p.clone());
            true
        },
        ActionCheck::SendMessage(m) => {
            let ghost m0 = texts(out.messages_out@);
            out.messages_out.push(m.clone());
            proof {
                assert(texts(out.messages_out@) =~= m0.push(m@));
            }
            true
        },
        ActionCheck::Quit => {
            out.quit = true;
            true
        },
        ActionCheck::SetVisible(b) => {
            set_visible(world, out.entity, *b);
            true
        },
        ActionCheck::ToggleVisible => {
            toggle_visible(world, out.entity);
            true
        },
        ActionCheck::Host => false,
    }
}

/// Queuing `e` once more leaves a queue that already holds it as it is,
/// and appends it otherwise.
pub open spec fn queued_once(q: Seq<Entity>, e: Entity) -> Seq<Entity> {
    if ids_of(q).contains(entity_bits(e)) {
        q
    } else {
        q.push(e)
    }
}

/// Queuing once adds the entity to the set of queued ids.
proof fn lemma_queue_once_set(q0: Seq<Entity>, q1: Seq<Entity>, e: Entity)
    requires
        ids_of(q0).contains(entity_bits(e)) ==> q1 == q0,
        !ids_of(q0).contains(entity_bits(e)) ==> q1 == q0.push(e),
    ensures
        ids_of(q1).to_set() == ids_of(q0).to_set().union(set![entity_bits(e)]),
{
    let b = entity_bits(e);
    if ids_of(q0).contains(b) {
        assert(ids_of(q0).to_set() =~= ids_of(q0).to_set().union(set![b]));
    } else {
        assert(ids_of(q1) =~= ids_of(q0).push(b));
        assert(ids_of(q1).to_set() =~= ids_of(q0).to_set().union(set![b])) by {
            assert forall|y: u64| ids_of(q1).to_set().contains(y) <==> ids_of(q0).to_set().union(
                set![b],
            ).contains(y) by {
                let s1 = ids_of(q1);
                let s0 = ids_of(q0);
                if s1.contains(y) && y != b {
                    let k = choose|k: int| 0 <= k < s1.len() && s1[k] == y;
                    assert(s0[k] == y);
                }
                if s0.contains(y) {
                    let k = choose|k: int| 0 <= k < s0.len() && s0[k] == y;
                    assert(s1[k] == y);
                }
                if y == b {
                    assert(s1[s0.len() as int] == y);
                }
            }
        }
    }
}

/// Queuing once keeps a queue free of duplicates.
proof fn lemma_queue_push_nodup(q0: Seq<Entity>, q1: Seq<Entity>, e: Entity)
    requires
        ids_of(q0).contains(entity_bits(e)) ==> q1 == q0,
        !ids_of(q0).contains(entity_bits(e)) ==> q1 == q0.push(e),
    ensures
        ids_of(q0).no_duplicates() ==> ids_of(q1).no_duplicates(),
{
    if !ids_of(q0).contains(entity_bits(e)) {
        assert(ids_of(q1) =~= ids_of(q0).push(entity_bits(e)));
        if ids_of(q0).no_duplicates() {
            let s1 = ids_of(q1);
            assert forall|i: int, j: int| 0 <= i < s1.len() && 0 <= j < s1.len() && i != j implies s1[i]
                != s1[j] by {
                if j == q0.len() && i < q0.len() {
                    assert(ids_of(q0)[i] == s1[i]);
                }
                if i == q0.len() && j < q0.len() {
                    assert(ids_of(q0)[j] == s1[j]);
                }
            }
        }
    }
}


// ---------------------------------------------------------------------------
// The rules pass of a tick
// ---------------------------------------------------------------------------

/// What a whole rules pass asked for, for the end of the tick.
pub struct PassOutcome {
    /// Entities to despawn (with their subtrees), each once.
    pub destroy_queue: Vec<Entity>,
    /// Messages sent this tick (delivered next tick).
    pub messages_out: Vec<String>,
    /// A scene to load instead of finishing the tick.
    pub load_scene: Option<String>,
    pub quit: bool,
    /// The entities whose rules ran, in order.
    pub ran: Vec<Entity>,
    /// The position in the pass of each entity that ran.
    pub ran_at: Vec<usize>,
    /// The indices of the rules that fired, for each entity that ran.
    pub fired: Vec<Vec<u32>>,
}

/// Whether `e` is in the queue.
fn queued(queue: &Vec<Entity>, e: Entity) -> (r: bool)
    ensures
        r == ids_of(queue@).contains(entity_bits(e)),
{
    let b = bits_of(e);
    let mut i: usize = 0;
    while i < queue.len()
        invariant
            b == entity_bits(e),
            i <= queue@.len(),
            forall|j: int| 0 <= j < i ==> ids_of(queue@)[j] != b,
        decreases queue@.len() - i,
    {
        if bits_of(queue[i]) == b {
            assert(ids_of(queue@)[i as int] == b);
            return true;
        }
        i += 1;
    }
    proof {
        if ids_of(queue@).contains(b) {
            let j = choose|j: int| 0 <= j < ids_of(queue@).len() && ids_of(queue@)[j] == b;
        }
    }
    false
}

/// A run of actions that asks for no scene leaves no request of one.
proof fn lemma_last_load_none(a: Seq<ActionCheck>, d: Option<Seq<char>>)
    ensures
        last_load(a, d) is None ==> d is None,
    decreases a.len(),
{
    if a.len() > 0 {
        lemma_last_load_none(a.drop_last(), d);
    }
}

/// The rule lists of the entities that ran, in order, as sequences.
pub open spec fn fired_seqs(f: Seq<Vec<u32>>) -> Seq<Seq<u32>> {
    f.map_values(|v: Vec<u32>| v@)
}

/// The actions a pass ran, in order: for each entity that ran (by its
/// position `at` in the pass), the actions of its rules that fired.
pub open spec fn pass_acts(
    entities: Seq<(Entity, Vec<RuleCheck>)>,
    at: Seq<usize>,
    fired: Seq<Seq<u32>>,
) -> Seq<ActionCheck>
    decreases at.len(),
{
    if at.len() == 0 {
        Seq::empty()
    } else {
        pass_acts(entities, at.drop_last(), fired.drop_last()) + acts_of(
            entities[at.last() as int].1@,
            fired.last(),
        )
    }
}

/// (entity id, rule index) of every rule that fired in a pass.
pub open spec fn pass_fired(ran: Seq<Entity>, fired: Seq<Seq<u32>>) -> Set<(u64, u32)> {
    Set::new(
        |p: (u64, u32)|
            exists|t: int| 0 <= t < ran.len() && p.0 == entity_bits(ran[t]) && #[trigger] fired[t].contains(p.1),
    )
}

/// The rule has no `Once` condition.
pub open spec fn once_free(r: RuleCheck) -> bool {
    forall|j: int| 0 <= j < r.when@.len() ==> !(#[trigger] r.when@[j] is Once)
}

proof fn lemma_sent_concat(a: Seq<ActionCheck>, b: Seq<ActionCheck>)
    ensures
        sent(a + b) == sent(a) + sent(b),
    decreases b.len(),
{
    if b.len() == 0 {
        assert(a + b =~= a);
        assert(sent(a) + sent(b) =~= sent(a));
    } else {
        lemma_sent_concat(a, b.drop_last());
        assert((a + b).drop_last() =~= a + b.drop_last());
        assert((a + b).last() == b.last());
        assert(sent(a + b) =~= sent(a) + sent(b));
    }
}

proof fn lemma_quits_concat(a: Seq<ActionCheck>, b: Seq<ActionCheck>)
    ensures
        quits(a + b) == (quits(a) || quits(b)),
{
    if quits(a) {
        let k = choose|k: int| 0 <= k < a.len() && #[trigger] a[k] is Quit;
        assert((a + b)[k] is Quit);
    }
    if quits(b) {
        let k = choose|k: int| 0 <= k < b.len() && #[trigger] b[k] is Quit;
        assert((a + b)[a.len() + k] is Quit);
    }
    if quits(a + b) {
        let k = choose|k: int| 0 <= k < (a + b).len() && #[trigger] (a + b)[k] is Quit;
        if k < a.len() {
            assert(a[k] is Quit);
        } else {
            assert(b[k - a.len()] is Quit);
        }
    }
}

proof fn lemma_load_concat(a: Seq<ActionCheck>, b: Seq<ActionCheck>, d: Option<Seq<char>>)
    ensures
        last_load(a + b, d) == last_load(b, last_load(a, d)),
    decreases b.len(),
{
    if b.len() == 0 {
        assert(a + b =~= a);
    } else {
        lemma_load_concat(a, b.drop_last(), d);
        assert((a + b).drop_last() =~= a + b.drop_last());
        assert((a + b).last() == b.last());
    }
}

/// A rule that ran against a runtime that had seen more already also meets
/// what it met at the start of the pass.
proof fn lemma_ran_ok_earlier(
    rt0: RuleRuntime,
    rt1: RuleRuntime,
    input: Input,
    collisions: Seq<CollisionPair>,
    e: Entity,
    idx: int,
    r: RuleCheck,
)
    requires
        rt1.started_ids() == rt0.started_ids(),
        rt1.inbox() == rt0.inbox(),
        rt0.fired_set().subset_of(rt1.fired_set()),
        ran_ok(rt1, input, collisions, e, idx, r),
    ensures
        ran_ok(rt0, input, collisions, e, idx, r),
{
    if !(r.on is Host) {
        let v = choose|v: crate::ecs::WorldView| #[trigger] event_holds(rt1, input, v, collisions, e, r.on);
        assert(event_holds(rt0, input, v, collisions, e, r.on));
    }
    assert forall|j: int| 0 <= j < r.when@.len() && !(#[trigger] r.when@[j] is Host) implies cond_holds(
        rt0,
        input,
        e,
        idx,
        r.when@[j],
    ) by {
        assert(cond_holds(rt1, input, e, idx, r.when@[j]));
    }
}

/// Whether a rule without `Once` passes does not depend on what fired.
proof fn lemma_passes_once_free(
    rt0: RuleRuntime,
    rt1: RuleRuntime,
    input: Input,
    v: crate::ecs::WorldView,
    collisions: Seq<CollisionPair>,
    e: Entity,
    idx: int,
    r: RuleCheck,
)
    requires
        rt1.started_ids() == rt0.started_ids(),
        rt1.inbox() == rt0.inbox(),
        once_free(r),
    ensures
        rule_passes(rt0, input, v, collisions, e, idx, r) == rule_passes(rt1, input, v, collisions, e, idx, r),
{
    assert(event_holds(rt0, input, v, collisions, e, r.on) == event_holds(rt1, input, v, collisions, e, r.on));
    assert forall|j: int|
        #![trigger cond_holds(rt0, input, e, idx, r.when@[j])]
        #![trigger cond_holds(rt1, input, e, idx, r.when@[j])]
        0 <= j < r.when@.len() implies cond_holds(rt0, input, e, idx, r.when@[j]) == cond_holds(
            rt1,
            input,
            e,
            idx,
            r.when@[j],
        ) by {
        assert(!(r.when@[j] is Once));
    }
}

/// The rules pass of a tick: each entity's rules run in turn (an entity
/// already queued for destruction by an earlier one is skipped), with its
/// collision partner resolved first, exactly as [`run_rules`] runs them;
/// destruction, messages, a scene change and quitting are collected for the
/// end of the tick. A scene request left from before the pass is taken over.
pub fn rules_pass<H: RuleHost>(
    rt: &mut RuleRuntime,
    host: &mut H,
    world: &mut World,
    entities: &[(Entity, Vec<RuleCheck>)],
    collisions: &[CollisionPair],
    input: &Input,
) -> (r: PassOutcome)
    requires
        forall|k: int| 0 <= k < entities@.len() ==> (#[trigger] entities@[k]).1@.len() <= u32::MAX,
    ensures
        r.ran@.len() == r.ran_at@.len() && r.ran@.len() == r.fired@.len(),
        forall|t: int, u: int| 0 <= t < u < r.ran_at@.len() ==> r.ran_at@[t] < r.ran_at@[u],
        forall|t: int|
            0 <= t < r.ran@.len() ==> r.ran_at@[t] < entities@.len() && #[trigger] r.ran@[t]
                == entities@[r.ran_at@[t] as int].0,
        forall|k: int|
            0 <= k < entities@.len() ==> ids_of(r.ran@).contains(entity_bits((#[trigger] entities@[k]).0))
                || ids_of(r.destroy_queue@).contains(entity_bits(entities@[k].0)),
        ids_of(r.destroy_queue@).no_duplicates(),
        forall|t: int, a: int|
            0 <= t < r.ran@.len() && 0 <= a < r.fired@[t]@.len() ==> {
                let rules = entities@[r.ran_at@[t] as int].1@;
                let i = (#[trigger] r.fired@[t]@[a]) as int;
                &&& i < rules.len()
                &&& ran_ok(*old(rt), *input, collisions@, r.ran@[t], i, rules[i])
            },
        forall|t: int, i: int|
            0 <= t < r.ran@.len() && 0 <= i < entities@[r.ran_at@[t] as int].1@.len() && world_free(
                #[trigger] entities@[r.ran_at@[t] as int].1@[i],
            ) && once_free(entities@[r.ran_at@[t] as int].1@[i]) ==> (r.fired@[t]@.contains(i as u32)
                <==> rule_passes(
                *old(rt),
                *input,
                Map::empty(),
                collisions@,
                r.ran@[t],
                i,
                entities@[r.ran_at@[t] as int].1@[i],
            )),
        texts(r.messages_out@) == sent(pass_acts(entities@, r.ran_at@, fired_seqs(r.fired@))),
        r.quit == (old(rt).requests().1 || quits(pass_acts(entities@, r.ran_at@, fired_seqs(r.fired@)))),
        filter_text(r.load_scene) == last_load(
            pass_acts(entities@, r.ran_at@, fired_seqs(r.fired@)),
            filter_text(old(rt).requests().0),
        ),
        forall|t: int|
            0 <= t < r.ran@.len() ==> destroy_targets(
                acts_of(entities@[r.ran_at@[t] as int].1@, #[trigger] r.fired@[t]@),
                r.ran@[t],
                first_partner(collisions@, entity_bits(r.ran@[t])),
                Map::empty(),
            ).subset_of(ids_of(r.destroy_queue@).to_set()),
        final(rt).fired_set() == old(rt).fired_set().union(pass_fired(r.ran@, fired_seqs(r.fired@))),
        final(rt).requests().0 is None,
        final(rt).requests().1 == old(rt).requests().1,
        final(rt).started_ids() == old(rt).started_ids(),
        final(rt).inbox() == old(rt).inbox(),
{
    let ghost rt0 = *rt;
    let ghost load0 = filter_text(rt.load_scene_request);
    let load_scene = rt.load_scene_request.take();
    let mut out = PassOutcome {
        destroy_queue: Vec::new(),
        messages_out: Vec::new(),
        load_scene,
        quit: rt.quit_requested,
        ran: Vec::new(),
        ran_at: Vec::new(),
        fired: Vec::new(),
    };
    proof {
        assert(ids_of(out.destroy_queue@) =~= Seq::<u64>::empty());
        assert(ids_of(out.ran@) =~= Seq::<u64>::empty());
        assert(texts(out.messages_out@) =~= Seq::<Seq<char>>::empty());
        assert(pass_fired(out.ran@, fired_seqs(out.fired@)) =~= Set::<(u64, u32)>::empty());
        assert(rt0.fired_set().union(Set::<(u64, u32)>::empty()) =~= rt0.fired_set());
    }
    let mut k: usize = 0;
    while k < entities.len()
        invariant
            k <= entities@.len(),
            forall|q: int| 0 <= q < entities@.len() ==> (#[trigger] entities@[q]).1@.len() <= u32::MAX,
            out.ran@.len() == out.ran_at@.len() && out.ran@.len() == out.fired@.len(),
            forall|t: int, u: int| 0 <= t < u < out.ran_at@.len() ==> out.ran_at@[t] < out.ran_at@[u],
            forall|t: int|
                0 <= t < out.ran@.len() ==> out.ran_at@[t] < k && #[trigger] out.ran@[t]
                    == entities@[out.ran_at@[t] as int].0,
            forall|j: int|
                0 <= j < k ==> ids_of(out.ran@).contains(entity_bits((#[trigger] entities@[j]).0))
                    || ids_of(out.destroy_queue@).contains(entity_bits(entities@[j].0)),
            ids_of(out.destroy_queue@).no_duplicates(),
            forall|t: int, a: int|
                0 <= t < out.ran@.len() && 0 <= a < out.fired@[t]@.len() ==> {
                    let rules = entities@[out.ran_at@[t] as int].1@;
                    let i = (#[trigger] out.fired@[t]@[a]) as int;
                    &&& i < rules.len()
                    &&& ran_ok(rt0, *input, collisions@, out.ran@[t], i, rules[i])
                },
            forall|t: int, i: int|
                0 <= t < out.ran@.len() && 0 <= i < entities@[out.ran_at@[t] as int].1@.len() && world_free(
                    #[trigger] entities@[out.ran_at@[t] as int].1@[i],
                ) && once_free(entities@[out.ran_at@[t] as int].1@[i]) ==> (out.fired@[t]@.contains(
                    i as u32,
                ) <==> rule_passes(
                    rt0,
                    *input,
                    Map::empty(),
                    collisions@,
                    out.ran@[t],
                    i,
                    entities@[out.ran_at@[t] as int].1@[i],
                )),
            texts(out.messages_out@) == sent(pass_acts(entities@, out.ran_at@, fired_seqs(out.fired@))),
            out.quit == (rt0.requests().1 || quits(pass_acts(entities@, out.ran_at@, fired_seqs(out.fired@)))),
            filter_text(out.load_scene) == last_load(
                pass_acts(entities@, out.ran_at@, fired_seqs(out.fired@)),
                load0,
            ),
            forall|t: int|
                0 <= t < out.ran@.len() ==> destroy_targets(
                    acts_of(entities@[out.ran_at@[t] as int].1@, #[trigger] out.fired@[t]@),
                    out.ran@[t],
                    first_partner(collisions@, entity_bits(out.ran@[t])),
                    Map::empty(),
                ).subset_of(ids_of(out.destroy_queue@).to_set()),
            rt.fired_set() == rt0.fired_set().union(pass_fired(out.ran@, fired_seqs(out.fired@))),
            rt.requests().0 is None,
            rt.requests().1 == rt0.requests().1,
            rt.started_ids() == rt0.started_ids(),
            rt.inbox() == rt0.inbox(),
            load0 == filter_text(rt0.requests().0),
        decreases entities@.len() - k,
    {
        let e = entities[k].0;
        if queued(&out.destroy_queue, e) {
            k += 1;
            continue;
        }
        let ghost q0 = out.destroy_queue@;
        let ghost ran0 = out.ran@;
        let ghost at0 = out.ran_at@;
        let ghost f0 = out.fired@;
        let ghost pa0 = pass_acts(entities@, at0, fired_seqs(f0));
        let ghost rtb = *rt;
        let mut dq: Vec<Entity> = Vec::new();
        std::mem::swap(&mut dq, &mut out.destroy_queue);
        let mut mo: Vec<String> = Vec::new();
        std::mem::swap(&mut mo, &mut out.messages_out);
        let mut ctx = ActionOutcome {
            entity: e,
            other: None,
            destroy_queue: dq,
            messages_out: mo,
            load_scene: out.load_scene.take(),
            quit: out.quit,
        };
        set_partner(&mut ctx, collisions);
        let ghost before = ctx.destroy_queue@;
        let ghost load_before = filter_text(ctx.load_scene);
        let ghost msgs_before = texts(ctx.messages_out@);
        let rules = &entities[k].1;
        let fired = run_rules(rt, host, world, &mut ctx, rules, collisions, input);
        let ghost acts = acts_of(rules@, fired@);
        proof {
            assert(before == q0);
            assert forall|j: int| 0 <= j < before.len() implies ctx.destroy_queue@[j] == before[j] by {
                assert(ctx.destroy_queue@.subrange(0, before.len() as int)[j] == before[j]);
            }
            lemma_sent_concat(pa0, acts);
            lemma_quits_concat(pa0, acts);
            lemma_load_concat(pa0, acts, load0);
        }
        out.destroy_queue = ctx.destroy_queue;
        out.messages_out = ctx.messages_out;
        out.load_scene = ctx.load_scene;
        out.quit = ctx.quit;
        out.ran.push(e);
        out.ran_at.push(k);
        out.fired.push(fired);
        proof {
            let fs = fired_seqs(out.fired@);
            assert(fired_seqs(f0) =~= fs.drop_last());
            assert(fs.last() == fired@);
            assert(out.ran_at@.drop_last() =~= at0);
            assert(pass_acts(entities@, out.ran_at@, fs) == pa0 + acts);
            assert(out.ran@ == ran0.push(e));
            assert(ids_of(out.ran@) =~= ids_of(ran0).push(entity_bits(e)));
            let t_new = ran0.len() as int;
            assert(out.fired@[t_new]@ == fired@);
            // old queue entries stay
            assert forall|x: u64| ids_of(q0).to_set().contains(x) implies ids_of(out.destroy_queue@).to_set().contains(
                x,
            ) by {
                let j = choose|j: int| 0 <= j < ids_of(q0).len() && ids_of(q0)[j] == x;
                assert(ids_of(out.destroy_queue@)[j] == x);
            }
            assert forall|j: int|
                0 <= j < k + 1 implies ids_of(out.ran@).contains(entity_bits((#[trigger] entities@[j]).0))
                    || ids_of(out.destroy_queue@).contains(entity_bits(entities@[j].0)) by {
                if j == k {
                    assert(ids_of(out.ran@)[ran0.len() as int] == entity_bits(e));
                } else {
                    if ids_of(ran0).contains(entity_bits(entities@[j].0)) {
                        let t = choose|t: int| 0 <= t < ids_of(ran0).len() && ids_of(ran0)[t] == entity_bits(
                            entities@[j].0,
                        );
                        assert(ids_of(out.ran@)[t] == ids_of(ran0)[t]);
                    } else {
                        assert(ids_of(q0).to_set().contains(entity_bits(entities@[j].0)));
                    }
                }
            }
            assert forall|t: int, a: int|
                0 <= t < out.ran@.len() && 0 <= a < out.fired@[t]@.len() implies {
                    let rs = entities@[out.ran_at@[t] as int].1@;
                    let i = (#[trigger] out.fired@[t]@[a]) as int;
                    &&& i < rs.len()
                    &&& ran_ok(rt0, *input, collisions@, out.ran@[t], i, rs[i])
                } by {
                if t < t_new {
                    assert(out.fired@[t] == f0[t]);
                    assert(out.ran@[t] == ran0[t]);
                    assert(out.ran_at@[t] == at0[t]);
                } else {
                    let i = fired@[a] as int;
                    lemma_ran_ok_earlier(rt0, rtb, *input, collisions@, e, i, rules@[i]);
                }
            }
            assert forall|t: int, i: int|
                0 <= t < out.ran@.len() && 0 <= i < entities@[out.ran_at@[t] as int].1@.len() && world_free(
                    #[trigger] entities@[out.ran_at@[t] as int].1@[i],
                ) && once_free(entities@[out.ran_at@[t] as int].1@[i]) implies (out.fired@[t]@.contains(
                    i as u32,
                ) <==> rule_passes(
                    rt0,
                    *input,
                    Map::empty(),
                    collisions@,
                    out.ran@[t],
                    i,
                    entities@[out.ran_at@[t] as int].1@[i],
                )) by {
                if t < t_new {
                    assert(out.fired@[t] == f0[t]);
                    assert(out.ran@[t] == ran0[t]);
                    assert(out.ran_at@[t] == at0[t]);
                } else {
                    lemma_passes_once_free(rt0, rtb, *input, Map::empty(), collisions@, e, i, rules@[i]);
                }
            }
            assert forall|t: int|
                0 <= t < out.ran@.len() implies destroy_targets(
                    acts_of(entities@[out.ran_at@[t] as int].1@, #[trigger] out.fired@[t]@),
                    out.ran@[t],
                    first_partner(collisions@, entity_bits(out.ran@[t])),
                    Map::empty(),
                ).subset_of(ids_of(out.destroy_queue@).to_set()) by {
                if t < t_new {
                    assert(out.fired@[t] == f0[t]);
                    assert(out.ran@[t] == ran0[t]);
                    assert(out.ran_at@[t] == at0[t]);
                }
            }
            assert forall|t: int|
                0 <= t < out.ran@.len() implies out.ran_at@[t] < k + 1 && #[trigger] out.ran@[t]
                    == entities@[out.ran_at@[t] as int].0 by {
                if t < t_new {
                    assert(out.ran@[t] == ran0[t]);
                    assert(out.ran_at@[t] == at0[t]);
                }
            }
            assert forall|t: int, u: int| 0 <= t < u < out.ran_at@.len() implies out.ran_at@[t]
                < out.ran_at@[u] by {
                if u < t_new {
                    assert(out.ran_at@[t] == at0[t] && out.ran_at@[u] == at0[u]);
                } else {
                    assert(out.ran_at@[t] == at0[t]);
                    assert(out.ran@[t] == ran0[t]);
                }
            }
            let added = Set::new(|p: (u64, u32)| p.0 == entity_bits(e) && fired@.contains(p.1));
            assert(pass_fired(out.ran@, fs) =~= pass_fired(ran0, fired_seqs(f0)).union(added)) by {
                assert forall|p: (u64, u32)| pass_fired(out.ran@, fs).contains(p) <==> pass_fired(
                    ran0,
                    fired_seqs(f0),
                ).union(added).contains(p) by {
                    if pass_fired(out.ran@, fs).contains(p) {
                        let t = choose|t: int|
                            0 <= t < out.ran@.len() && p.0 == entity_bits(out.ran@[t]) && #[trigger] fs[t].contains(
                                p.1,
                            );
                        if t < t_new {
                            assert(fs[t] == fired_seqs(f0)[t]);
                            assert(out.ran@[t] == ran0[t]);
                        }
                    }
                    if pass_fired(ran0, fired_seqs(f0)).contains(p) {
                        let t = choose|t: int|
                            0 <= t < ran0.len() && p.0 == entity_bits(ran0[t]) && #[trigger] fired_seqs(
                                f0,
                            )[t].contains(p.1);
                        assert(fs[t] == fired_seqs(f0)[t]);
                        assert(out.ran@[t] == ran0[t]);
                    }
                    if added.contains(p) {
                        assert(fs[t_new].contains(p.1));
                    }
                }
            }
            assert(rt.fired_set() =~= rt0.fired_set().union(pass_fired(out.ran@, fs)));
        }
        k += 1;
    }
    out
}

} // verus!
