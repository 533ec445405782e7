//! The frame graph as plain data.
//!
//! A frame is a short list of passes: the shadow pass (directional light and
//! meshes present), the main pass (meshes then sprites, sampling the shadow
//! map) and, when overlay output is drawn, the overlay pass. Each pass names
//! the depth texture it writes and the textures it samples;
//! [`validate_pass_plan`] enforces the GPU's usage scopes before anything is
//! encoded.
use vstd::prelude::*;
use hecs::{Entity, World};
use crate::components::{is_shown, shown};
use crate::text::{contains_text, join3, lemma_contains_middle, str_eq};

verus! {

/// One render pass: its label, the depth texture it writes (if any) and the
/// textures it samples.
#[derive(Clone, Copy)]
pub struct PassPlan {
    pub label: &'static str,
    pub writes_depth: Option<&'static str>,
    pub samples: &'static [&'static str],
}

/// Pass `p` writes the texture named `t` as its depth attachment.
pub open spec fn writes_texture(p: PassPlan, t: Seq<char>) -> bool {
    p.writes_depth matches Some(w) && w@ == t
}

/// The `k`-th texture sampled by pass `i` is written by pass `i` itself or
/// by a pass ordered after it.
pub open spec fn sample_conflict(plan: Seq<PassPlan>, i: int, k: int) -> bool {
    exists|j: int| i <= j < plan.len() && #[trigger] writes_texture(plan[j], plan[i].samples@[k]@)
}

/// No pass samples a texture that it writes itself or that a later pass
/// writes. A texture that no pass writes may be sampled (it reads as zero).
pub open spec fn plan_valid(plan: Seq<PassPlan>) -> bool {
    forall|i: int, k: int|
        0 <= i < plan.len() && 0 <= k < plan[i].samples@.len() ==> !#[trigger] sample_conflict(
            plan,
            i,
            k,
        )
}

/// Check a frame plan against the usage-scope rules. The error text names
/// the offending texture.
pub fn validate_pass_plan(plan: &[PassPlan]) -> (r: Result<(), String>)
    ensures
        r is Ok <==> plan_valid(plan@),
        r matches Err(msg) ==> exists|i: int, k: int|
            0 <= i < plan@.len() && 0 <= k < plan@[i].samples@.len() && sample_conflict(
                plan@,
                i,
                k,
            ) && contains_text(msg@, plan@[i].samples@[k]@),
{
    let n = plan.len();
    let mut i: usize = 0;
    while i < n
        invariant
            n == plan@.len(),
            i <= n,
            forall|a: int, k: int|
                0 <= a < i && 0 <= k < plan@[a].samples@.len() ==> !#[trigger] sample_conflict(
                    plan@,
                    a,
                    k,
                ),
        decreases n - i,
    {
        let samples = plan[i].samples;
        let m = samples.len();
        let mut k: usize = 0;
        while k < m
            invariant
                n == plan@.len(),
                i < n,
                samples@ == plan@[i as int].samples@,
                m == samples@.len(),
                k <= m,
                forall|a: int, kk: int|
                    0 <= a < i && 0 <= kk < plan@[a].samples@.len() ==> !#[trigger] sample_conflict(
                        plan@,
                        a,
                        kk,
                    ),
                forall|kk: int| 0 <= kk < k ==> !#[trigger] sample_conflict(plan@, i as int, kk),
            decreases m - k,
        {
            let s = samples[k];
            let mut j: usize = i;
            while j < n
                invariant
                    n == plan@.len(),
                    i <= j <= n,
                    k < m,
                    m == samples@.len(),
                    samples@ == plan@[i as int].samples@,
                    s == plan@[i as int].samples@[k as int],
                    forall|jj: int| i <= jj < j ==> !#[trigger] writes_texture(plan@[jj], s@),
                decreases n - j,
            {
                let w = plan[j].writes_depth;
                match w {
                    Some(t) => {
                        if str_eq(t, s) {
                            let msg = if j == i {
                                join3("pass samples `", s, "` while writing it as depth")
                            } else {
                                join3("texture `", s, "` is sampled before the pass that writes it")
                            };
                            proof {
                                assert(writes_texture(plan@[j as int], s@));
                                assert(sample_conflict(plan@, i as int, k as int));
                                lemma_contains_middle(
                                    if j == i {
                                        "pass samples `"@
                                    } else {
                                        "texture `"@
                                    },
                                    s@,
                                    if j == i {
                                        "` while writing it as depth"@
                                    } else {
                                        "` is sampled before the pass that writes it"@
                                    },
                                );
                            }
                            assert(contains_text(msg@, plan@[i as int].samples@[k as int]@));
                            assert(!plan_valid(plan@));
                            return Err(msg);
                        }
                    },
                    None => {},
                }
                j += 1;
            }
            assert(!sample_conflict(plan@, i as int, k as int));
            k += 1;
        }
        i += 1;
    }
    Ok(())
}

/// Label of the shadow pass; also the name of the shadow map it writes.
pub const SHADOW: &'static str = "spark.shadow";

/// Label of the main pass.
pub const MAIN: &'static str = "spark.main";

/// Depth texture written by the main pass.
pub const DEPTH: &'static str = "spark.depth";

/// Label of the overlay (editor panels / HUD) pass.
pub const OVERLAY: &'static str = "spark.egui";

/// What a frame plan holds: the shadow pass first exactly when the frame
/// has a directional light and meshes, then the main pass (writing depth and
/// sampling the shadow map), then the overlay pass exactly when overlay
/// output is drawn; and the plan passes the usage check.
pub open spec fn frame_plan_ok(has_directional: bool, has_meshes: bool, overlay: bool, r: Seq<PassPlan>) -> bool {
    &&& r.len() == (if has_directional && has_meshes { 1nat } else { 0nat }) + 1 + (if overlay {
        1nat
    } else {
        0nat
    })
    &&& has_directional && has_meshes ==> {
        &&& r[0].label@ == SHADOW@
        &&& r[0].writes_depth matches Some(w) && w@ == SHADOW@
        &&& r[0].samples@.len() == 0
    }
    &&& forall|i: int| 0 <= i < r.len() ==> (#[trigger] r[i].label@ == SHADOW@ <==> (i == 0
        && has_directional && has_meshes))
    &&& {
        let m = if has_directional && has_meshes { 1int } else { 0int };
        &&& r[m].label@ == MAIN@
        &&& r[m].writes_depth matches Some(w) && w@ == DEPTH@
        &&& r[m].samples@.len() == 1 && r[m].samples@[0]@ == SHADOW@
    }
    &&& overlay ==> {
        &&& r[r.len() - 1].label@ == OVERLAY@
        &&& r[r.len() - 1].writes_depth is None
        &&& r[r.len() - 1].samples@.len() == 0
    }
    &&& forall|i: int| 0 <= i < r.len() ==> (#[trigger] r[i].label@ == OVERLAY@ <==> (i == r.len() - 1
        && overlay))
    &&& plan_valid(r)
}

/// The frame plan: the shadow pass runs only when the frame has both a
/// directional light and meshes, the main pass always, and the overlay
/// pass (editor panels / HUD) only when overlay output is drawn.
pub fn plan_frame_for(has_directional: bool, has_meshes: bool, overlay: bool) -> (r: Vec<PassPlan>)
    ensures
        frame_plan_ok(has_directional, has_meshes, overlay, r@),
{
    proof {
        reveal_strlit("spark.shadow");
        reveal_strlit("spark.main");
        reveal_strlit("spark.depth");
        reveal_strlit("spark.egui");
    }
    let no_samples: &'static [&'static str] = &[];
    let shadow_sample: &'static [&'static str] = &["spark.shadow"];
    let mut plan: Vec<PassPlan> = Vec::new();
    if has_directional && has_meshes {
        plan.push(PassPlan { label: "spark.shadow", writes_depth: Some("spark.shadow"), samples: no_samples });
    }
    plan.push(PassPlan { label: "spark.main", writes_depth: Some("spark.depth"), samples: shadow_sample });
    if overlay {
        plan.push(PassPlan { label: "spark.egui", writes_depth: None, samples: no_samples });
    }
    proof {
        let p = plan@;
        assert("spark.main"@.len() != "spark.shadow"@.len());
        assert("spark.egui"@.len() != "spark.shadow"@.len());
        assert("spark.depth"@.len() != "spark.shadow"@.len());
        assert(SHADOW@ == "spark.shadow"@);
        assert(OVERLAY@ == "spark.egui"@);
        assert(MAIN@ == "spark.main"@);
        assert("spark.main"@ != "spark.egui"@) by {
            assert("spark.main"@[6] != "spark.egui"@[6]);
        }
        assert forall|i: int| 0 <= i < p.len() implies (#[trigger] p[i].label@ == OVERLAY@ <==> (i
            == p.len() - 1 && overlay)) by {}
        assert forall|i: int, k: int|
            0 <= i < p.len() && 0 <= k < p[i].samples@.len() implies !#[trigger] sample_conflict(
            p,
            i,
            k,
        ) by {
            assert(p[i].samples@[k]@ == SHADOW@);
            assert forall|j: int| i <= j < p.len() implies !#[trigger] writes_texture(p[j], SHADOW@) by {
                assert(DEPTH@ != SHADOW@);
            }
        }
    }
    plan
}

/// The frame plan of a frame that draws overlay output (the editor and a
/// game with a HUD): [`plan_frame_for`] with the overlay pass.
pub fn plan_frame(has_directional: bool, has_meshes: bool) -> (r: Vec<PassPlan>)
    ensures
        frame_plan_ok(has_directional, has_meshes, true, r@),
{
    plan_frame_for(has_directional, has_meshes, true)
}

/// The entities a frame draws among `candidates` (those carrying a sprite or
/// a mesh with a transform): none without a camera (the frame only
/// clears), otherwise each one that is shown (`Visible` absent or set), in
/// order.
pub fn drawn_entities(world: &World, has_camera: bool, candidates: &[Entity]) -> (r: Vec<Entity>)
    ensures
        r@ == if has_camera {
            candidates@.filter(|e: Entity| shown(*world, e))
        } else {
            Seq::<Entity>::empty()
        },
{
    let mut r: Vec<Entity> = Vec::new();
    if !has_camera {
        return r;
    }
    let mut i: usize = 0;
    proof {
        reveal(Seq::filter);
        assert(candidates@.take(0) =~= Seq::<Entity>::empty());
        assert(candidates@.take(0).filter(|e: Entity| shown(*world, e)) =~= Seq::<Entity>::empty());
    }
    while i < candidates.len()
        invariant
            i <= candidates@.len(),
            r@ == candidates@.take(i as int).filter(|e: Entity| shown(*world, e)),
        decreases candidates@.len() - i,
    {
        let e = candidates[i];
        let show = is_shown(world, e);
        if show {
            r.push(e);
        }
        proof {
            reveal(Seq::filter);
            let t = candidates@.take(i + 1);
            assert(t.drop_last() =~= candidates@.take(i as int));
            assert(t.last() == e);
        }
        i += 1;
    }
    proof {
        assert(candidates@.take(candidates@.len() as int) =~= candidates@);
    }
    r
}

// ---------------------------------------------------------------------------
// Draw batching and light selection
// ---------------------------------------------------------------------------

/// A draw-batch key: sprites batch by image, meshes by (mesh, texture).
pub trait BatchKey: Sized {
    /// The key's text parts.
    spec fn key_view(&self) -> Seq<Seq<char>>;

    fn same_key(&self, other: &Self) -> (r: bool)
        ensures
            r == (self.key_view() == other.key_view()),
    ;
}

impl BatchKey for String {
    open spec fn key_view(&self) -> Seq<Seq<char>> {
        seq![self@]
    }

    fn same_key(&self, other: &Self) -> (r: bool) {
        let r = str_eq(self.as_str(), other.as_str());
        proof {
            if self@ == other@ {
                assert(self.key_view() =~= other.key_view());
            }
            if self.key_view() == other.key_view() {
                assert(self.key_view()[0] == other.key_view()[0]);
            }
        }
        r
    }
}

impl BatchKey for (String, String) {
    open spec fn key_view(&self) -> Seq<Seq<char>> {
        seq![self.0@, self.1@]
    }

    fn same_key(&self, other: &Self) -> (r: bool) {
        let r = str_eq(self.0.as_str(), other.0.as_str()) && str_eq(self.1.as_str(), other.1.as_str());
        proof {
            if self.0@ == other.0@ && self.1@ == other.1@ {
                assert(self.key_view() =~= other.key_view());
            }
            if self.key_view() == other.key_view() {
                assert(self.key_view()[0] == other.key_view()[0]);
                assert(self.key_view()[1] == other.key_view()[1]);
            }
        }
        r
    }
}

/// Keys of a run of keyed items.
pub open spec fn item_keys<K: BatchKey, T>(items: Seq<(K, T)>) -> Seq<Seq<Seq<char>>> {
    items.map_values(|p: (K, T)| p.0.key_view())
}

/// `s` with repeats removed, keeping first occurrences in order.
pub open spec fn dedup<A>(s: Seq<A>) -> Seq<A>
    decreases s.len(),
{
    if s.len() == 0 {
        s
    } else {
        let d = dedup(s.drop_last());
        if d.contains(s.last()) {
            d
        } else {
            d.push(s.last())
        }
    }
}

/// The items under key `k`, in order.
pub open spec fn instances_with<K: BatchKey, T>(items: Seq<(K, T)>, k: Seq<Seq<char>>) -> Seq<T>
    decreases items.len(),
{
    if items.len() == 0 {
        Seq::empty()
    } else {
        let rest = instances_with(items.drop_last(), k);
        if items.last().0.key_view() == k {
            rest.push(items.last().1)
        } else {
            rest
        }
    }
}

proof fn lemma_dedup_contains<A>(s: Seq<A>, x: A)
    ensures
        dedup(s).contains(x) <==> s.contains(x),
        dedup(s).no_duplicates(),
    decreases s.len(),
{
    if s.len() > 0 {
        lemma_dedup_contains(s.drop_last(), x);
        lemma_dedup_contains(s.drop_last(), s.last());
        let d = dedup(s.drop_last());
        if s.contains(x) && x != s.last() {
            let i = choose|i: int| 0 <= i < s.len() && s[i] == x;
            assert(s.drop_last()[i] == x);
        }
        if s.drop_last().contains(x) {
            let i = choose|i: int| 0 <= i < s.drop_last().len() && s.drop_last()[i] == x;
            assert(s[i] == x);
        }
        if s.last() == x {
            assert(s[s.len() - 1] == x);
        }
        if !d.contains(s.last()) {
            let e = d.push(s.last());
            assert(e[d.len() as int] == s.last());
            if e.contains(x) && x != s.last() {
                let i = choose|i: int| 0 <= i < e.len() && e[i] == x;
                assert(d[i] == x);
            }
            if d.contains(x) {
                let i = choose|i: int| 0 <= i < d.len() && d[i] == x;
                assert(e[i] == x);
            }
            assert forall|a: int, b: int| 0 <= a < b < e.len() implies e[a] != e[b] by {
                if b == d.len() {
                    assert(d[a] == e[a]);
                }
            }
        }
    }
}

/// Group keyed items into draw batches: one batch per distinct key, in the
/// order keys first appear, each holding its items in order.
pub fn batch<K: BatchKey, T>(items: Vec<(K, T)>) -> (r: Vec<(K, Vec<T>)>)
    ensures
        r@.len() == dedup(item_keys(items@)).len(),
        forall|i: int|
            0 <= i < r@.len() ==> (#[trigger] r@[i]).0.key_view() == dedup(item_keys(items@))[i]
                && r@[i].1@ == instances_with(items@, r@[i].0.key_view()),
{
    let ghost orig = items@;
    let mut items = items;
    let mut keys: Vec<K> = Vec::new();
    let mut groups: Vec<Vec<T>> = Vec::new();
    let mut n: usize = 0;
    let total = items.len();
    proof {
        assert(orig.skip(0) =~= orig);
        assert(orig.take(0) =~= Seq::<(K, T)>::empty());
        assert(item_keys(orig.take(0)) =~= Seq::<Seq<Seq<char>>>::empty());
    }
    while n < total
        invariant
            total == orig.len(),
            n <= total,
            items@ == orig.skip(n as int),
            keys@.len() == groups@.len(),
            keys@.len() == dedup(item_keys(orig.take(n as int))).len(),
            forall|i: int|
                0 <= i < keys@.len() ==> (#[trigger] keys@[i]).key_view() == dedup(
                    item_keys(orig.take(n as int)),
                )[i] && groups@[i]@ == instances_with(orig.take(n as int), keys@[i].key_view()),
        decreases total - n,
    {
        let ghost pre = orig.take(n as int);
        let ghost post = orig.take(n + 1);
        let ghost d = dedup(item_keys(pre));
        proof {
            assert(items@[0] == orig[n as int]);
            assert(post.drop_last() =~= pre);
            assert(post.last() == orig[n as int]);
            assert(item_keys(post).drop_last() =~= item_keys(pre));
            assert(item_keys(post).last() == orig[n as int].0.key_view());
            lemma_dedup_contains(item_keys(pre), orig[n as int].0.key_view());
        }
        let (k, t) = items.remove(0);
        proof {
            assert(items@ =~= orig.skip(n + 1));
        }
        let mut j: usize = 0;
        while j < keys.len()
            invariant_except_break
                j <= keys@.len(),
                forall|a: int| 0 <= a < j ==> (#[trigger] keys@[a]).key_view() != k.key_view(),
            ensures
                j <= keys@.len(),
                forall|a: int| 0 <= a < j ==> (#[trigger] keys@[a]).key_view() != k.key_view(),
                j < keys@.len() ==> keys@[j as int].key_view() == k.key_view(),
            decreases keys@.len() - j,
        {
            if keys[j].same_key(&k) {
                break;
            }
            j += 1;
        }
        let ghost kv = k.key_view();
        if j < keys.len() {
            proof {
                assert(keys@[j as int].key_view() == kv);
                assert(d.contains(kv)) by {
                    assert(d[j as int] == kv);
                }
                assert(dedup(item_keys(post)) == d);
            }
            let mut g = groups.remove(j);
            g.push(t);
            groups.insert(j, g);
            proof {
                assert forall|i: int| 0 <= i < keys@.len() implies (#[trigger] keys@[i]).key_view() == dedup(
                    item_keys(post),
                )[i] && groups@[i]@ == instances_with(post, keys@[i].key_view()) by {
                    assert(instances_with(post, keys@[i].key_view()) == if post.last().0.key_view()
                        == keys@[i].key_view() {
                        instances_with(pre, keys@[i].key_view()).push(post.last().1)
                    } else {
                        instances_with(pre, keys@[i].key_view())
                    });
                    if i != j {
                        lemma_dedup_contains(item_keys(pre), kv);
                        assert(d.no_duplicates());
                        assert(d[i] != d[j as int]);
                    }
                }
            }
        } else {
            proof {
                assert(!d.contains(kv)) by {
                    if d.contains(kv) {
                        let a = choose|a: int| 0 <= a < d.len() && d[a] == kv;
                        assert(keys@[a].key_view() == kv);
                    }
                }
                assert(dedup(item_keys(post)) == d.push(kv));
            }
            let ghost k0 = keys@;
            let ghost g0 = groups@;
            keys.push(k);
            let mut g: Vec<T> = Vec::new();
            g.push(t);
            groups.push(g);
            proof {
                assert forall|i: int| 0 <= i < keys@.len() implies (#[trigger] keys@[i]).key_view() == dedup(
                    item_keys(post),
                )[i] && groups@[i]@ == instances_with(post, keys@[i].key_view()) by {
                    assert(instances_with(post, keys@[i].key_view()) == if post.last().0.key_view()
                        == keys@[i].key_view() {
                        instances_with(pre, keys@[i].key_view()).push(post.last().1)
                    } else {
                        instances_with(pre, keys@[i].key_view())
                    });
                    if i < k0.len() {
                        assert(keys@[i] == k0[i]);
                        assert(d[i] != kv) by {
                            assert(d.contains(d[i]));
                        }
                    } else {
                        assert(!d.contains(kv));
                        lemma_instances_absent(pre, kv);
                        assert(groups@[i]@ =~= seq![t]);
                    }
                }
            }
        }
        n += 1;
    }
    proof {
        assert(orig.take(total as int) =~= orig);
    }
    let ghost fk = keys@;
    let ghost fg = groups@;
    let mut out: Vec<(K, Vec<T>)> = Vec::new();
    let mut m: usize = 0;
    let count = keys.len();
    while m < count
        invariant
            count == fk.len(),
            fk.len() == fg.len(),
            m <= count,
            keys@ == fk.skip(m as int),
            groups@ == fg.skip(m as int),
            out@.len() == m,
            forall|i: int| 0 <= i < m ==> (#[trigger] out@[i]).0 == fk[i] && out@[i].1 == fg[i],
        decreases count - m,
    {
        let k = keys.remove(0);
        let g = groups.remove(0);
        proof {
            assert(k == fk[m as int]);
            assert(g == fg[m as int]);
            assert(keys@ =~= fk.skip(m + 1));
            assert(groups@ =~= fg.skip(m + 1));
        }
        out.push((k, g));
        m += 1;
    }
    out
}

proof fn lemma_instances_absent<K: BatchKey, T>(items: Seq<(K, T)>, k: Seq<Seq<char>>)
    requires
        !dedup(item_keys(items)).contains(k),
    ensures
        instances_with(items, k) == Seq::<T>::empty(),
    decreases items.len(),
{
    if items.len() > 0 {
        lemma_dedup_contains(item_keys(items), k);
        lemma_dedup_contains(item_keys(items.drop_last()), k);
        assert(item_keys(items).drop_last() =~= item_keys(items.drop_last()));
        if item_keys(items.drop_last()).contains(k) {
            let i = choose|i: int| 0 <= i < item_keys(items.drop_last()).len() && item_keys(items.drop_last())[i] == k;
            assert(item_keys(items)[i] == k);
        }
        lemma_instances_absent(items.drop_last(), k);
        assert(item_keys(items)[items.len() - 1] == items.last().0.key_view());
    }
}

/// Number of items under each of the keys `ks`, summed.
pub open spec fn total_under<K: BatchKey, T>(items: Seq<(K, T)>, ks: Seq<Seq<Seq<char>>>) -> nat
    decreases ks.len(),
{
    if ks.len() == 0 {
        0
    } else {
        total_under(items, ks.drop_last()) + instances_with(items, ks.last()).len()
    }
}

/// Adding one item adds one under its key and nothing under the others.
proof fn lemma_total_push<K: BatchKey, T>(items: Seq<(K, T)>, x: (K, T), ks: Seq<Seq<Seq<char>>>)
    requires
        ks.no_duplicates(),
    ensures
        total_under(items.push(x), ks) == total_under(items, ks) + if ks.contains(x.0.key_view()) {
            1nat
        } else {
            0nat
        },
    decreases ks.len(),
{
    if ks.len() > 0 {
        let d = ks.drop_last();
        assert(d.no_duplicates()) by {
            assert forall|a: int, b: int| 0 <= a < b < d.len() implies d[a] != d[b] by {
                assert(d[a] == ks[a] && d[b] == ks[b]);
            }
        }
        lemma_total_push(items, x, d);
        assert(items.push(x).drop_last() =~= items);
        assert(items.push(x).last() == x);
        if ks.contains(x.0.key_view()) && ks.last() != x.0.key_view() {
            let j = choose|j: int| 0 <= j < ks.len() && ks[j] == x.0.key_view();
            assert(d[j] == x.0.key_view());
        }
        if d.contains(x.0.key_view()) {
            let j = choose|j: int| 0 <= j < d.len() && d[j] == x.0.key_view();
            assert(ks[j] == x.0.key_view());
            if ks.last() == x.0.key_view() {
                assert(ks[j] == ks[ks.len() - 1]);
            }
        }
        if ks.last() == x.0.key_view() {
            assert(ks[ks.len() - 1] == x.0.key_view());
        }
    }
}

/// Keys with no items add nothing.
proof fn lemma_total_absent<K: BatchKey, T>(items: Seq<(K, T)>, ks: Seq<Seq<Seq<char>>>, k: Seq<Seq<char>>)
    requires
        !dedup(item_keys(items)).contains(k),
    ensures
        total_under(items, ks.push(k)) == total_under(items, ks),
{
    assert(ks.push(k).drop_last() =~= ks);
    lemma_instances_absent(items, k);
}

/// Law: batching loses no item and duplicates none: the batches together
/// hold exactly as many items as were given.
pub proof fn law_batch_keeps_every_item<K: BatchKey, T>(items: Seq<(K, T)>)
    ensures
        total_under(items, dedup(item_keys(items))) == items.len(),
    decreases items.len(),
{
    if items.len() > 0 {
        let pre = items.drop_last();
        let x = items.last();
        assert(pre.push(x) =~= items);
        law_batch_keeps_every_item(pre);
        assert(item_keys(items).drop_last() =~= item_keys(pre));
        assert(item_keys(items).last() == x.0.key_view());
        let dp = dedup(item_keys(pre));
        let di = dedup(item_keys(items));
        lemma_dedup_contains(item_keys(pre), x.0.key_view());
        lemma_dedup_contains(item_keys(items), x.0.key_view());
        assert(item_keys(items)[items.len() - 1] == x.0.key_view());
        lemma_total_push(pre, x, di);
        if dp.contains(x.0.key_view()) {
            assert(di == dp);
        } else {
            assert(di == dp.push(x.0.key_view()));
            lemma_total_absent(pre, dp, x.0.key_view());
        }
    }
}

/// Point lights a frame can carry.
pub const MAX_POINT_LIGHTS: usize = 16;

/// Positions of the first `limit` `false` entries of `s`.
pub open spec fn first_points(s: Seq<bool>, limit: nat) -> Seq<int>
    decreases s.len(),
{
    if s.len() == 0 {
        Seq::empty()
    } else {
        let p = first_points(s.drop_last(), limit);
        if !s.last() && p.len() < limit {
            p.push(s.len() - 1)
        } else {
            p
        }
    }
}

/// The lights a frame uses, by position in the scene's light list (`true`
/// for a directional light, `false` for a point light): the first
/// directional light, and the first [`MAX_POINT_LIGHTS`] point lights in
/// order.
pub fn pick_lights(is_directional: &[bool]) -> (r: (Option<usize>, Vec<usize>))
    ensures
        match r.0 {
            Some(d) => d < is_directional@.len() && is_directional@[d as int] && forall|i: int|
                0 <= i < d ==> !is_directional@[i],
            None => forall|i: int| 0 <= i < is_directional@.len() ==> !is_directional@[i],
        },
        r.1@.map_values(|x: usize| x as int) == first_points(is_directional@, MAX_POINT_LIGHTS as nat),
{
    let mut dir: Option<usize> = None;
    let mut points: Vec<usize> = Vec::new();
    let mut i: usize = 0;
    while i < is_directional.len()
        invariant
            i <= is_directional@.len(),
            match dir {
                Some(d) => d < i && is_directional@[d as int] && forall|j: int|
                    0 <= j < d ==> !is_directional@[j],
                None => forall|j: int| 0 <= j < i ==> !is_directional@[j],
            },
            points@.map_values(|x: usize| x as int) == first_points(
                is_directional@.take(i as int),
                MAX_POINT_LIGHTS as nat,
            ),
            points@.len() <= MAX_POINT_LIGHTS,
        decreases is_directional@.len() - i,
    {
        proof {
            assert(is_directional@.take(i + 1).drop_last() =~= is_directional@.take(i as int));
            assert(is_directional@.take(i + 1).last() == is_directional@[i as int]);
        }
        if is_directional[i] {
            if dir.is_none() {
                dir = Some(i);
            }
        } else if points.len() < MAX_POINT_LIGHTS {
            let ghost p0 = points@;
            points.push(i);
            proof {
                assert(points@.map_values(|x: usize| x as int) =~= p0.map_values(|x: usize| x as int).push(
                    i as int,
                ));
            }
        }
        i += 1;
    }
    proof {
        assert(is_directional@.take(is_directional@.len() as int) =~= is_directional@);
    }
    (dir, points)
}

} // verus!
