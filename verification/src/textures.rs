//! Decoded textures kept per asset key: decoded on first use, refreshed
//! (with a new version) when the file changes, and dropped together with
//! the model file they were extracted from.
use vstd::prelude::*;
use crate::assets::{derived_from, part_of, texts, AssetIndex, AssetKind, AssetMeta, TextureData};
use crate::text::str_eq;

verus! {

/// What `image::load_from_memory` followed by `to_rgba8` gives for encoded
/// image bytes: (width, height, 8-bit RGBA pixels), or nothing for bytes it
/// cannot decode.
pub uninterp spec fn decoded_image(bytes: Seq<u8>) -> Option<(u32, u32, Seq<u8>)>;

/// `image::load_from_memory`, then `DynamicImage::to_rgba8`: the image as
/// 8-bit RGBA with version 0, or `None` where the crate reports an error.
/// The contract names the decoded result and says nothing more of it.
#[verifier::external_body]
pub(crate) fn decode_image(bytes: &[u8]) -> (r: Option<TextureData>)
    ensures
        r is Some <==> decoded_image(bytes@) is Some,
        r matches Some(t) ==> decoded_image(bytes@) == Some((t.width, t.height, t.rgba@))
            && t.version == 0,
{
    let img = image::load_from_memory(bytes).ok()?;
    let rgba = img.to_rgba8();
    let (width, height) = rgba.dimensions();
    Some(TextureData { width, height, rgba: rgba.into_raw(), version: 0 })
}

/// A cached texture: (width, height, pixels, version).
pub type TextureView = (u32, u32, Seq<u8>, u32);

pub open spec fn texture_view(t: TextureData) -> TextureView {
    (t.width, t.height, t.rgba@, t.version)
}

/// (key, texture) of stored entries.
pub open spec fn entries_of(v: Seq<(String, TextureData)>) -> Seq<(Seq<char>, TextureView)> {
    v.map_values(|e: (String, TextureData)| (e.0@, texture_view(e.1)))
}

/// The keys of a cache listing.
pub open spec fn cache_keys(s: Seq<(Seq<char>, TextureView)>) -> Seq<Seq<char>> {
    s.map_values(|e: (Seq<char>, TextureView)| e.0)
}

/// The texture cached under `k`, if any (keys occur once).
pub open spec fn cached(s: Seq<(Seq<char>, TextureView)>, k: Seq<char>) -> Option<TextureView> {
    if cache_keys(s).contains(k) {
        Some(s[cache_keys(s).index_of(k)].1)
    } else {
        None
    }
}

/// Decoded textures by asset key, in the order they were first loaded.
pub struct TextureCache {
    entries: Vec<(String, TextureData)>,
}

impl TextureCache {
    /// (key, texture) of every cached texture, in load order.
    pub closed spec fn entries_view(&self) -> Seq<(Seq<char>, TextureView)> {
        entries_of(self.entries@)
    }

    /// Every key is cached once.
    pub closed spec fn wf(&self) -> bool {
        cache_keys(self.entries_view()).no_duplicates()
    }

    pub fn new() -> (r: Self)
        ensures
            r.wf(),
            r.entries_view() == Seq::<(Seq<char>, TextureView)>::empty(),
    {
        let r = TextureCache { entries: Vec::new() };
        proof {
            assert(r.entries_view() =~= Seq::<(Seq<char>, TextureView)>::empty());
            assert(cache_keys(r.entries_view()) =~= Seq::<Seq<char>>::empty());
        }
        r
    }

    /// Position of `key` in the cache.
    fn find(&self, key: &str) -> (r: Option<usize>)
        ensures
            r is None <==> !cache_keys(self.entries_view()).contains(key@),
            r matches Some(i) ==> i < self.entries_view().len() && self.entries_view()[i as int].0
                == key@,
    {
        let mut i: usize = 0;
        while i < self.entries.len()
            invariant
                i <= self.entries@.len(),
                forall|j: int| 0 <= j < i ==> self.entries_view()[j].0 != key@,
            decreases self.entries@.len() - i,
        {
            assert(self.entries_view()[i as int].0 == self.entries@[i as int].0@);
            if str_eq(self.entries[i].0.as_str(), key) {
                proof {
                    assert(cache_keys(self.entries_view())[i as int] == key@);
                }
                return Some(i);
            }
            i += 1;
        }
        proof {
            if cache_keys(self.entries_view()).contains(key@) {
                let j = choose|j: int|
                    0 <= j < cache_keys(self.entries_view()).len() && cache_keys(self.entries_view())[j]
                        == key@;
                assert(self.entries_view()[j].0 == key@);
            }
        }
        None
    }

    /// The texture cached under `key`.
    pub fn get(&self, key: &str) -> (r: Option<&TextureData>)
        requires
            self.wf(),
        ensures
            r is Some <==> cached(self.entries_view(), key@) is Some,
            r matches Some(t) ==> cached(self.entries_view(), key@) == Some(texture_view(*t)),
    {
        match self.find(key) {
            Some(i) => {
                proof {
                    lemma_index_of_unique(self.entries_view(), i as int, key@);
                }
                Some(&self.entries[i].1)
            },
            None => None,
        }
    }

    /// First use of `key` with the image already decoded (`None` when
    /// decoding failed): a cached key is kept as it is; otherwise a decoded
    /// image is cached under `key`, and a failed decode caches nothing.
    /// Returns whether a texture is cached under `key` afterwards.
    pub fn insert_decoded(&mut self, key: &str, decoded: Option<TextureData>) -> (r: bool)
        requires
            old(self).wf(),
        ensures
            final(self).wf(),
            r == (cache_keys(old(self).entries_view()).contains(key@) || decoded is Some),
            final(self).entries_view() == if cache_keys(old(self).entries_view()).contains(key@) {
                old(self).entries_view()
            } else {
                match decoded {
                    Some(t) => old(self).entries_view().push((key@, texture_view(t))),
                    None => old(self).entries_view(),
                }
            },
    {
        if self.find(key).is_some() {
            return true;
        }
        match decoded {
            Some(t) => {
                let ghost s0 = self.entries_view();
                let ghost tv = texture_view(t);
                self.entries.push((key.to_string(), t));
                proof {
                    assert(self.entries_view() =~= s0.push((key@, tv)));
                    assert(cache_keys(self.entries_view()) =~= cache_keys(s0).push(key@));
                    lemma_push_no_dup(cache_keys(s0), key@);
                }
                true
            },
            None => false,
        }
    }

    /// First use of `key` with the file's bytes: the bytes are decoded
    /// only when nothing is cached under `key` yet, and a failed decode
    /// caches nothing. Returns whether a texture is cached under `key`.
    pub fn load(&mut self, key: &str, bytes: &[u8]) -> (r: bool)
        requires
            old(self).wf(),
        ensures
            final(self).wf(),
            r == (cache_keys(old(self).entries_view()).contains(key@) || decoded_image(bytes@) is Some),
            final(self).entries_view() == if cache_keys(old(self).entries_view()).contains(key@) {
                old(self).entries_view()
            } else {
                match decoded_image(bytes@) {
                    Some(d) => old(self).entries_view().push((key@, (d.0, d.1, d.2, 0u32))),
                    None => old(self).entries_view(),
                }
            },
    {
        if self.find(key).is_some() {
            return true;
        }
        let decoded = decode_image(bytes);
        self.insert_decoded(key, decoded)
    }

    /// The file of a cached texture changed and was decoded again (`None`
    /// when decoding failed): the cached texture takes the new image and
    /// its version goes up by one. Nothing changes for a key that is not
    /// cached or a failed decode. Returns whether the texture was reloaded.
    pub fn refresh(&mut self, key: &str, decoded: Option<TextureData>) -> (r: bool)
        requires
            old(self).wf(),
            cached(old(self).entries_view(), key@) matches Some(c) ==> c.3 < u32::MAX,
        ensures
            final(self).wf(),
            r == (cached(old(self).entries_view(), key@) is Some && decoded is Some),
            r ==> final(self).entries_view() == old(self).entries_view().update(
                cache_keys(old(self).entries_view()).index_of(key@),
                (
                    key@,
                    (
                        decoded.unwrap().width,
                        decoded.unwrap().height,
                        decoded.unwrap().rgba@,
                        (cached(old(self).entries_view(), key@).unwrap().3 + 1) as u32,
                    ),
                ),
            ),
            !r ==> final(self).entries_view() == old(self).entries_view(),
    {
        match self.find(key) {
            Some(i) => {
                proof {
                    lemma_index_of_unique(self.entries_view(), i as int, key@);
                }
                match decoded {
                    Some(t) => {
                        let ghost s0 = self.entries_view();
                        let version = self.entries[i].1.version + 1;
                        let fresh = TextureData {
                            width: t.width,
                            height: t.height,
                            rgba: t.rgba,
                            version,
                        };
                        let ghost fv = texture_view(fresh);
                        self.entries.set(i, (key.to_string(), fresh));
                        proof {
                            assert(self.entries_view() =~= s0.update(i as int, (key@, fv)));
                            assert(cache_keys(self.entries_view()) =~= cache_keys(s0));
                        }
                        true
                    },
                    None => false,
                }
            },
            None => false,
        }
    }

    /// The file of `key` changed: a cached texture is decoded again from
    /// the new bytes (nothing is decoded for a key that is not cached).
    pub fn reload(&mut self, key: &str, bytes: &[u8]) -> (r: bool)
        requires
            old(self).wf(),
            cached(old(self).entries_view(), key@) matches Some(c) ==> c.3 < u32::MAX,
        ensures
            final(self).wf(),
            r == (cached(old(self).entries_view(), key@) is Some && decoded_image(bytes@) is Some),
            r ==> final(self).entries_view() == old(self).entries_view().update(
                cache_keys(old(self).entries_view()).index_of(key@),
                (
                    key@,
                    (
                        decoded_image(bytes@).unwrap().0,
                        decoded_image(bytes@).unwrap().1,
                        decoded_image(bytes@).unwrap().2,
                        (cached(old(self).entries_view(), key@).unwrap().3 + 1) as u32,
                    ),
                ),
            ),
            !r ==> final(self).entries_view() == old(self).entries_view(),
    {
        if self.find(key).is_none() {
            return false;
        }
        let decoded = decode_image(bytes);
        self.refresh(key, decoded)
    }

    /// The model file `model` changed: every texture extracted from it
    /// (`model#...`) is dropped, the others are kept in order.
    pub fn drop_derived(&mut self, model: &str)
        requires
            old(self).wf(),
        ensures
            final(self).wf(),
            final(self).entries_view() == old(self).entries_view().filter(
                |e: (Seq<char>, TextureView)| !part_of(e.0, model@),
            ),
    {
        let ghost s0 = self.entries_view();
        let mut rest: Vec<(String, TextureData)> = Vec::new();
        std::mem::swap(&mut rest, &mut self.entries);
        let mut kept: Vec<(String, TextureData)> = Vec::new();
        let ghost n = s0.len();
        proof {
            assert(entries_of(rest@) == s0);
            assert(s0.skip(0) =~= s0);
            reveal(Seq::filter);
            assert(s0.take(0).filter(|e: (Seq<char>, TextureView)| !part_of(e.0, model@)) =~= Seq::<
                (Seq<char>, TextureView),
            >::empty());
            assert(entries_of(kept@) =~= Seq::<
                (Seq<char>, TextureView),
            >::empty());
        }
        while rest.len() > 0
            invariant
                n == s0.len(),
                rest@.len() <= n,
                cache_keys(s0).no_duplicates(),
                entries_of(rest@) == s0.skip(
                    n - rest@.len(),
                ),
                entries_of(kept@) == s0.take(
                    n - rest@.len(),
                ).filter(|e: (Seq<char>, TextureView)| !part_of(e.0, model@)),
            decreases rest@.len(),
        {
            let ghost i = n - rest@.len();
            let ghost r0 = rest@;
            let ghost k0 = kept@;
            let e = rest.remove(0);
            proof {
                assert(s0.skip(i)[0] == s0[i]);
                assert(entries_of(r0)[0] == s0.skip(
                    i,
                )[0]);
                assert(rest@ =~= r0.drop_first());
                assert forall|j: int| 0 <= j < rest@.len() implies #[trigger] entries_of(rest@)[j] == s0.skip(i + 1)[j] by {
                    assert(rest@[j] == r0[j + 1]);
                    assert(entries_of(r0)[j + 1]
                        == s0.skip(i)[j + 1]);
                }
                assert(entries_of(rest@) =~= s0.skip(
                    i + 1,
                ));
            }
            let keep = !derived_from(e.0.as_str(), model);
            if keep {
                kept.push(e);
            }
            proof {
                let f = |e: (Seq<char>, TextureView)| !part_of(e.0, model@);
                assert(s0.take(i + 1) =~= s0.take(i).push(s0[i]));
                assert(s0.take(i + 1).filter(f) == if f(s0[i]) {
                    s0.take(i).filter(f).push(s0[i])
                } else {
                    s0.take(i).filter(f)
                }) by {
                    reveal(Seq::filter);
                    assert(s0.take(i).push(s0[i]).drop_last() =~= s0.take(i));
                }
                if keep {
                    assert(entries_of(kept@)
                        =~= entries_of(k0).push(
                        s0[i],
                    ));
                } else {
                    assert(kept@ == k0);
                }
            }
        }
        proof {
            assert(s0.take(n as int) =~= s0);
            lemma_filter_keys_no_dup(s0, |e: (Seq<char>, TextureView)| !part_of(e.0, model@));
        }
        self.entries = kept;
    }
}

/// A watched file changed (its key relative to the asset root, and its new
/// bytes when they could be read): an indexed asset gets its version bumped;
/// a cached texture is decoded again; a model drops every texture taken from
/// it (`model#...`); a sound, scene, prefab or other file is recorded as
/// reloaded. Every asset that was reloaded is appended to `reloaded`.
/// Unknown files change nothing. Returns the kind of the changed asset.
pub fn file_changed(
    index: &mut AssetIndex,
    textures: &mut TextureCache,
    reloaded: &mut Vec<String>,
    key: &str,
    bytes: Option<&[u8]>,
) -> (kind: Option<AssetKind>)
    requires
        old(index).wf(),
        old(textures).wf(),
        old(index).get_spec(key@) matches Some(m) ==> m.version < u32::MAX,
        cached(old(textures).entries_view(), key@) matches Some(c) ==> c.3 < u32::MAX,
    ensures
        final(index).wf(),
        final(textures).wf(),
        kind == match old(index).get_spec(key@) {
            Some(m) => Some(m.kind),
            None => None,
        },
        forall|k: Seq<char>| #[trigger]
            final(index).get_spec(k) == match old(index).get_spec(k) {
                Some(m) => if k == key@ {
                    Some(AssetMeta { kind: m.kind, version: (m.version + 1) as u32 })
                } else {
                    Some(m)
                },
                None => None,
            },
        ({
            let tex_reload = match bytes {
                Some(b) => cached(old(textures).entries_view(), key@) is Some && decoded_image(b@) is Some,
                None => false,
            };
            let pushed = texts(old(reloaded)@).push(key@);
            match kind {
                None => final(textures).entries_view() == old(textures).entries_view() && texts(
                    final(reloaded)@,
                ) == texts(old(reloaded)@),
                Some(AssetKind::Texture) => {
                    &&& tex_reload ==> final(textures).entries_view() == old(
                        textures,
                    ).entries_view().update(
                        cache_keys(old(textures).entries_view()).index_of(key@),
                        (
                            key@,
                            (
                                decoded_image(bytes.unwrap()@).unwrap().0,
                                decoded_image(bytes.unwrap()@).unwrap().1,
                                decoded_image(bytes.unwrap()@).unwrap().2,
                                (cached(old(textures).entries_view(), key@).unwrap().3 + 1) as u32,
                            ),
                        ),
                    ) && texts(final(reloaded)@) == pushed
                    &&& !tex_reload ==> final(textures).entries_view() == old(textures).entries_view()
                        && texts(final(reloaded)@) == texts(old(reloaded)@)
                },
                Some(AssetKind::Model) => final(textures).entries_view() == old(
                    textures,
                ).entries_view().filter(|e: (Seq<char>, TextureView)| !part_of(e.0, key@)) && texts(
                    final(reloaded)@,
                ) == pushed,
                Some(AssetKind::Sound) => final(textures).entries_view() == old(textures).entries_view()
                    && texts(final(reloaded)@) == if bytes is Some {
                    pushed
                } else {
                    texts(old(reloaded)@)
                },
                Some(_) => final(textures).entries_view() == old(textures).entries_view() && texts(
                    final(reloaded)@,
                ) == pushed,
            }
        }),
{
    let kind = index.on_file_changed(key);
    let ghost r0 = texts(reloaded@);
    let mut record = false;
    match kind {
        None => {},
        Some(AssetKind::Texture) => {
            if let Some(b) = bytes {
                record = textures.reload(key, b);
            }
        },
        Some(AssetKind::Model) => {
            textures.drop_derived(key);
            record = true;
        },
        Some(AssetKind::Sound) => {
            record = bytes.is_some();
        },
        Some(_) => {
            record = true;
        },
    }
    if record {
        reloaded.push(key.to_string());
        proof {
            assert(texts(reloaded@) =~= r0.push(key@));
        }
    }
    kind
}

/// In a listing whose keys occur once, the key at `i` is found at `i`.
proof fn lemma_index_of_unique(s: Seq<(Seq<char>, TextureView)>, i: int, k: Seq<char>)
    requires
        0 <= i < s.len(),
        s[i].0 == k,
    ensures
        cache_keys(s).contains(k),
        cache_keys(s).no_duplicates() ==> cache_keys(s).index_of(k) == i,
{
    assert(cache_keys(s)[i] == k);
    cache_keys(s).index_of_first_ensures(k);
    if cache_keys(s).no_duplicates() {
        let j = cache_keys(s).index_of(k);
        assert(cache_keys(s)[j] == k);
    }
}

/// Appending a key not present keeps keys unique.
proof fn lemma_push_no_dup(s: Seq<Seq<char>>, k: Seq<char>)
    requires
        s.no_duplicates(),
        !s.contains(k),
    ensures
        s.push(k).no_duplicates(),
{
    let t = s.push(k);
    assert forall|i: int, j: int| 0 <= i < t.len() && 0 <= j < t.len() && i != j implies t[i] != t[j] by {
        if i == s.len() && j < s.len() {
            assert(s[j] == t[j]);
        }
        if j == s.len() && i < s.len() {
            assert(s[i] == t[i]);
        }
    }
}

/// Keeping some entries of a listing keeps its keys unique.
proof fn lemma_filter_keys_no_dup(
    s: Seq<(Seq<char>, TextureView)>,
    f: spec_fn((Seq<char>, TextureView)) -> bool,
)
    requires
        cache_keys(s).no_duplicates(),
    ensures
        cache_keys(s.filter(f)).no_duplicates(),
    decreases s.len(),
{
    if s.len() > 0 {
        let p = s.drop_last();
        assert(cache_keys(p) =~= cache_keys(s).drop_last());
        lemma_filter_keys_no_dup(p, f);
        assert(s =~= p.push(s.last()));
        assert(s.filter(f) == if f(s.last()) { p.filter(f).push(s.last()) } else { p.filter(f) }) by {
            reveal(Seq::filter);
        }
        if f(s.last()) {
            let k = s.last().0;
            assert(!cache_keys(p.filter(f)).contains(k)) by {
                if cache_keys(p.filter(f)).contains(k) {
                    let j = choose|j: int|
                        0 <= j < cache_keys(p.filter(f)).len() && cache_keys(p.filter(f))[j] == k;
                    assert(p.filter(f).contains(p.filter(f)[j]));
                    p.lemma_filter_contains_rev(f, p.filter(f)[j]);
                    let q = choose|q: int| 0 <= q < p.len() && p[q] == p.filter(f)[j];
                    assert(cache_keys(s)[q] == k);
                    assert(cache_keys(s)[s.len() - 1] == k);
                }
            }
            assert(cache_keys(p.filter(f).push(s.last())) =~= cache_keys(p.filter(f)).push(k));
            lemma_push_no_dup(cache_keys(p.filter(f)), k);
        }
    } else {
        reveal(Seq::filter);
        assert(s.filter(f) =~= s);
    }
}

} // verus!
