//! Asset catalogue logic: the kind of a file by its extension, asset
//! references (`model.glb#0` addresses a part of `model.glb`), the index of
//! discovered assets with its reload versions, and the builtin unit meshes.
//!
//! Builtin meshes are produced as topology over exact vertex descriptions:
//! a lattice vertex is given in half units (so the unit cube's corners are
//! `±1`), a sphere vertex by its ring and meridian. The renderer turns these
//! into floating-point positions, normals and texture coordinates.
use vstd::prelude::*;
use vstd::string::*;
use crate::text::{lemma_lex_irreflexive, lemma_lex_total, lemma_lex_transitive, lex_lt, str_eq, str_lt};

verus! {

#[derive(Clone, Copy, Debug, PartialEq, Eq, Structural)]
pub enum AssetKind {
    Texture,
    Model,
    Sound,
    Scene,
    Prefab,
    Other,
}

/// The kind of an asset file by its extension (no dot, case-sensitive).
pub open spec fn kind_of_ext(ext: Seq<char>) -> AssetKind {
    if ext == "png"@ || ext == "jpg"@ || ext == "jpeg"@ || ext == "hdr"@ || ext == "bmp"@
        || ext == "webp"@ || ext == "tga"@ {
        AssetKind::Texture
    } else if ext == "glb"@ || ext == "gltf"@ {
        AssetKind::Model
    } else if ext == "wav"@ || ext == "ogg"@ || ext == "mp3"@ || ext == "flac"@ {
        AssetKind::Sound
    } else if ext == "scene"@ {
        AssetKind::Scene
    } else if ext == "ron"@ {
        AssetKind::Prefab
    } else {
        AssetKind::Other
    }
}

impl AssetKind {
    pub fn from_extension(ext: &str) -> (r: Self)
        ensures
            r == kind_of_ext(ext@),
    {
        if str_eq(ext, "png") || str_eq(ext, "jpg") || str_eq(ext, "jpeg") || str_eq(ext, "hdr")
            || str_eq(ext, "bmp") || str_eq(ext, "webp") || str_eq(ext, "tga") {
            AssetKind::Texture
        } else if str_eq(ext, "glb") || str_eq(ext, "gltf") {
            AssetKind::Model
        } else if str_eq(ext, "wav") || str_eq(ext, "ogg") || str_eq(ext, "mp3") || str_eq(
            ext,
            "flac",
        ) {
            AssetKind::Sound
        } else if str_eq(ext, "scene") {
            AssetKind::Scene
        } else if str_eq(ext, "ron") {
            AssetKind::Prefab
        } else {
            AssetKind::Other
        }
    }
}

/// Index entry of a discovered asset: its kind and how often it was
/// reloaded.
#[derive(Clone, Copy, Debug, PartialEq, Eq, Structural)]
pub struct AssetMeta {
    pub kind: AssetKind,
    pub version: u32,
}

/// A decoded texture (8-bit RGBA, CPU side until the renderer uploads it).
#[derive(Clone, Debug)]
pub struct TextureData {
    pub width: u32,
    pub height: u32,
    pub rgba: Vec<u8>,
    pub version: u32,
}

// ---------------------------------------------------------------------------
// Asset references
// ---------------------------------------------------------------------------

/// Position of the first `c` in `s`, if any.
pub open spec fn find_char(s: Seq<char>, c: char) -> Option<int> {
    if exists|i: int| 0 <= i < s.len() && s[i] == c {
        Some(choose|i: int| 0 <= i < s.len() && s[i] == c && forall|j: int| 0 <= j < i ==> s[j] != c)
    } else {
        None
    }
}

/// The file part of an asset reference: everything before the first `#`.
pub open spec fn base_of(asset: Seq<char>) -> Seq<char> {
    match find_char(asset, '#') {
        Some(i) => asset.take(i),
        None => asset,
    }
}

/// The file an asset reference lives in: `model.glb#0` and `model.glb#tex1`
/// both live in `model.glb`; a plain path is its own file.
pub fn asset_base(asset: &str) -> (r: &str)
    ensures
        r@ == base_of(asset@),
{
    let n = asset.unicode_len();
    let mut i: usize = 0;
    while i < n
        invariant
            n == asset@.len(),
            i <= n,
            forall|j: int| 0 <= j < i ==> asset@[j] != '#',
        decreases n - i,
    {
        if asset.get_char(i) == '#' {
            proof {
                let k = choose|k: int|
                    0 <= k < asset@.len() && asset@[k] == '#' && forall|j: int|
                        0 <= j < k ==> asset@[j] != '#';
                assert(k == i as int) by {
                    if k < i {
                    } else if k > i {
                        assert(asset@[i as int] == '#');
                    }
                }
            }
            return asset.substring_char(0, i);
        }
        i += 1;
    }
    proof {
        assert(asset@.take(n as int) =~= asset@);
    }
    asset.substring_char(0, n)
}

/// `asset` addresses a part of the file `model` (`model#...`).
pub open spec fn part_of(asset: Seq<char>, model: Seq<char>) -> bool {
    asset.len() > model.len() && asset.take(model.len() as int) == model && asset[model.len() as int]
        == '#'
}

/// Whether `asset` is derived from the model file `model` (`model.glb#0`,
/// `model.glb#tex1`): such cached entries are dropped when the model file
/// changes.
pub fn derived_from(asset: &str, model: &str) -> (r: bool)
    ensures
        r == part_of(asset@, model@),
{
    let n = asset.unicode_len();
    let m = model.unicode_len();
    if n <= m {
        return false;
    }
    let mut i: usize = 0;
    while i < m
        invariant
            n == asset@.len(),
            m == model@.len(),
            m < n,
            i <= m,
            forall|j: int| 0 <= j < i ==> asset@[j] == model@[j],
        decreases m - i,
    {
        if asset.get_char(i) != model.get_char(i) {
            proof {
                assert(asset@.take(m as int)[i as int] != model@[i as int]);
            }
            return false;
        }
        i += 1;
    }
    proof {
        assert(asset@.take(m as int) =~= model@);
    }
    asset.get_char(m) == '#'
}

/// `s` with every backslash turned into a forward slash.
pub open spec fn forward_slashes(s: Seq<char>) -> Seq<char> {
    s.map_values(|c: char| if c == '\\' { '/' } else { c })
}

/// An asset key from a root-relative path: `/` separators on every
/// platform.
pub fn normalize(rel: &str) -> (r: String)
    ensures
        r@ == forward_slashes(rel@),
{
    let n = rel.unicode_len();
    let mut out = String::new();
    let mut i: usize = 0;
    while i < n
        invariant
            n == rel@.len(),
            i <= n,
            out@ == forward_slashes(rel@.take(i as int)),
        decreases n - i,
    {
        let c = rel.get_char(i);
        if c == '\\' {
            proof {
                reveal_strlit("/");
            }
            out.append("/");
        } else {
            out.append(rel.substring_char(i, i + 1));
        }
        proof {
            assert(forward_slashes(rel@.take(i + 1)) =~= forward_slashes(rel@.take(i as int)).push(
                if c == '\\' { '/' } else { c },
            ));
        }
        i += 1;
    }
    proof {
        assert(rel@.take(n as int) =~= rel@);
    }
    out
}

// ---------------------------------------------------------------------------
// The index of discovered assets
// ---------------------------------------------------------------------------

/// Texts of a list of strings.
pub open spec fn texts(v: Seq<String>) -> Seq<Seq<char>> {
    v.map_values(|s: String| s@)
}

/// Strictly increasing in text order.
pub open spec fn sorted_texts(s: Seq<Seq<char>>) -> bool {
    forall|i: int, j: int| 0 <= i < j < s.len() ==> lex_lt(s[i], s[j])
}

/// The index of discovered assets: for each asset key (a root-relative path
/// with `/` separators) its kind and reload version.
pub struct AssetIndex {
    keys: Vec<String>,
    metas: Vec<AssetMeta>,
}

impl AssetIndex {
    pub closed spec fn key_seq(&self) -> Seq<Seq<char>> {
        texts(self.keys@)
    }

    /// Each key once, one entry per key.
    pub closed spec fn wf(&self) -> bool {
        &&& self.keys@.len() == self.metas@.len()
        &&& self.key_seq().no_duplicates()
    }

    /// The entry for key `k`, if indexed.
    pub closed spec fn get_spec(&self, k: Seq<char>) -> Option<AssetMeta> {
        if self.key_seq().contains(k) {
            Some(self.metas@[choose|i: int| 0 <= i < self.key_seq().len() && self.key_seq()[i] == k])
        } else {
            None
        }
    }

    proof fn lemma_get_at(&self, i: int)
        requires
            self.wf(),
            0 <= i < self.key_seq().len(),
        ensures
            self.get_spec(self.key_seq()[i]) == Some(self.metas@[i]),
    {
        let k = self.key_seq()[i];
        let j = choose|j: int| 0 <= j < self.key_seq().len() && self.key_seq()[j] == k;
        assert(self.key_seq()[j] == k);
    }

    pub fn new() -> (r: Self)
        ensures
            r.wf(),
            forall|k: Seq<char>| r.get_spec(k) is None,
    {
        AssetIndex { keys: Vec::new(), metas: Vec::new() }
    }

    fn find(&self, key: &str) -> (r: Option<usize>)
        requires
            self.wf(),
        ensures
            r is None <==> !self.key_seq().contains(key@),
            r matches Some(i) ==> i < self.key_seq().len() && self.key_seq()[i as int] == key@,
    {
        let mut i: usize = 0;
        while i < self.keys.len()
            invariant
                self.wf(),
                i <= self.keys@.len(),
                forall|j: int| 0 <= j < i ==> self.key_seq()[j] != key@,
            decreases self.keys@.len() - i,
        {
            assert(self.key_seq()[i as int] == self.keys@[i as int]@);
            if str_eq(self.keys[i].as_str(), key) {
                return Some(i);
            }
            i += 1;
        }
        None
    }

    /// The entry of the file an asset reference lives in (`model.glb#0`
    /// finds `model.glb`).
    pub fn meta(&self, asset: &str) -> (r: Option<AssetMeta>)
        requires
            self.wf(),
        ensures
            r == self.get_spec(base_of(asset@)),
    {
        let base = asset_base(asset);
        match self.find(base) {
            Some(i) => {
                proof {
                    self.lemma_get_at(i as int);
                }
                Some(self.metas[i])
            },
            None => None,
        }
    }

    /// Index a file seen on disk (at startup or by the watcher): a regular
    /// file of a known kind that is not indexed yet gets an entry at
    /// version 0. Returns the key's entry afterwards.
    pub fn index_mut_for(&mut self, key: String, ext: &str, is_file: bool) -> (r: Option<AssetMeta>)
        requires
            old(self).wf(),
        ensures
            final(self).wf(),
            ({
                let added = old(self).get_spec(key@) is None && is_file && kind_of_ext(ext@)
                    != AssetKind::Other;
                forall|k: Seq<char>| #[trigger]
                    final(self).get_spec(k) == if added && k == key@ {
                        Some(AssetMeta { kind: kind_of_ext(ext@), version: 0 })
                    } else {
                        old(self).get_spec(k)
                    }
            }),
            r == final(self).get_spec(key@),
    {
        match self.find(key.as_str()) {
            Some(i) => {
                proof {
                    self.lemma_get_at(i as int);
                }
                Some(self.metas[i])
            },
            None => {
                let kind = AssetKind::from_extension(ext);
                if is_file && kind != AssetKind::Other {
                    let ghost old_self = *self;
                    let meta = AssetMeta { kind, version: 0 };
                    let ghost k0 = key@;
                    self.keys.push(key);
                    self.metas.push(meta);
                    proof {
                        assert(self.key_seq() =~= old_self.key_seq().push(k0));
                        assert forall|a: int, b: int|
                            0 <= a < b < self.key_seq().len() implies self.key_seq()[a]
                            != self.key_seq()[b] by {
                            if b == old_self.key_seq().len() {
                                assert(old_self.key_seq()[a] == self.key_seq()[a]);
                            }
                        }
                        assert forall|k: Seq<char>| #[trigger]
                            self.get_spec(k) == if k == k0 {
                                Some(meta)
                            } else {
                                old_self.get_spec(k)
                            } by {
                            if k == k0 {
                                self.lemma_get_at(old_self.key_seq().len() as int);
                            } else if old_self.key_seq().contains(k) {
                                let j = choose|j: int|
                                    0 <= j < old_self.key_seq().len() && old_self.key_seq()[j] == k;
                                old_self.lemma_get_at(j);
                                self.lemma_get_at(j);
                            } else {
                                if self.key_seq().contains(k) {
                                    let j = choose|j: int|
                                        0 <= j < self.key_seq().len() && self.key_seq()[j] == k;
                                    assert(old_self.key_seq()[j] == k);
                                }
                            }
                        }
                        self.lemma_get_at(old_self.key_seq().len() as int);
                    }
                    Some(meta)
                } else {
                    None
                }
            },
        }
    }

    /// A watched file changed: an indexed asset gets its version bumped and
    /// its kind is returned (what to re-import); unknown files are ignored.
    pub fn on_file_changed(&mut self, key: &str) -> (r: Option<AssetKind>)
        requires
            old(self).wf(),
            old(self).get_spec(key@) matches Some(m) ==> m.version < u32::MAX,
        ensures
            final(self).wf(),
            r == match old(self).get_spec(key@) {
                Some(m) => Some(m.kind),
                None => None,
            },
            forall|k: Seq<char>| #[trigger]
                final(self).get_spec(k) == match old(self).get_spec(k) {
                    Some(m) => if k == key@ {
                        Some(AssetMeta { kind: m.kind, version: (m.version + 1) as u32 })
                    } else {
                        Some(m)
                    },
                    None => None,
                },
    {
        match self.find(key) {
            Some(i) => {
                let ghost old_self = *self;
                proof {
                    old_self.lemma_get_at(i as int);
                }
                let m = self.metas[i];
                let bumped = AssetMeta { kind: m.kind, version: m.version + 1 };
                self.metas.set(i, bumped);
                proof {
                    assert(self.key_seq() == old_self.key_seq());
                    assert forall|k: Seq<char>| #[trigger]
                        self.get_spec(k) == match old_self.get_spec(k) {
                            Some(m) => if k == key@ {
                                Some(AssetMeta { kind: m.kind, version: (m.version + 1) as u32 })
                            } else {
                                Some(m)
                            },
                            None => None,
                        } by {
                        if self.key_seq().contains(k) {
                            let j = choose|j: int|
                                0 <= j < self.key_seq().len() && self.key_seq()[j] == k;
                            old_self.lemma_get_at(j);
                            self.lemma_get_at(j);
                        }
                    }
                }
                Some(m.kind)
            },
            None => None,
        }
    }

    /// All indexed asset keys of a kind, in text order (asset browser
    /// listing).
    pub fn list(&self, kind: AssetKind) -> (r: Vec<String>)
        requires
            self.wf(),
        ensures
            sorted_texts(texts(r@)),
            forall|k: Seq<char>| #[trigger]
                texts(r@).contains(k) <==> (self.get_spec(k) matches Some(m) && m.kind == kind),
    {
        let mut out: Vec<String> = Vec::new();
        let mut i: usize = 0;
        while i < self.keys.len()
            invariant
                self.wf(),
                i <= self.keys@.len(),
                sorted_texts(texts(out@)),
                forall|k: Seq<char>| #[trigger]
                    texts(out@).contains(k) <==> exists|j: int|
                        0 <= j < i && self.key_seq()[j] == k && self.metas@[j].kind == kind,
            decreases self.keys@.len() - i,
        {
            if self.metas[i].kind == kind {
                proof {
                    if texts(out@).contains(self.key_seq()[i as int]) {
                        let j = choose|j: int|
                            0 <= j < i && self.key_seq()[j] == self.key_seq()[i as int]
                                && self.metas@[j].kind == kind;
                    }
                }
                let ghost before = out@;
                insert_sorted_text(&mut out, self.keys[i].clone());
                proof {
                    assert forall|k: Seq<char>| #[trigger]
                        texts(out@).contains(k) <==> exists|j: int|
                            0 <= j < i + 1 && self.key_seq()[j] == k && self.metas@[j].kind
                                == kind by {
                        if k == self.key_seq()[i as int] {
                            assert(self.key_seq()[i as int] == k);
                        }
                    }
                }
            }
            i += 1;
        }
        proof {
            assert forall|k: Seq<char>| #[trigger]
                texts(out@).contains(k) <==> (self.get_spec(k) matches Some(m) && m.kind == kind) by {
                if texts(out@).contains(k) {
                    let j = choose|j: int|
                        0 <= j < self.keys@.len() && self.key_seq()[j] == k && self.metas@[j].kind
                            == kind;
                    self.lemma_get_at(j);
                }
                if self.key_seq().contains(k) {
                    let j = choose|j: int| 0 <= j < self.key_seq().len() && self.key_seq()[j] == k;
                    self.lemma_get_at(j);
                }
            }
        }
        out
    }
}

/// Insert `x` (not yet present) into a list kept in strictly increasing
/// text order.
fn insert_sorted_text(out: &mut Vec<String>, x: String)
    requires
        sorted_texts(texts(old(out)@)),
        !texts(old(out)@).contains(x@),
    ensures
        sorted_texts(texts(final(out)@)),
        forall|k: Seq<char>| #[trigger]
            texts(final(out)@).contains(k) <==> (texts(old(out)@).contains(k) || k == x@),
{
    let ghost s0 = texts(out@);
    let mut k: usize = 0;
    while k < out.len() && str_lt(out[k].as_str(), x.as_str())
        invariant
            k <= out@.len(),
            s0 == texts(out@),
            forall|j: int| 0 <= j < k ==> lex_lt(#[trigger] s0[j], x@),
        decreases out@.len() - k,
    {
        k += 1;
    }
    proof {
        if k < s0.len() {
            assert(s0[k as int] != x@);
            lemma_lex_total(s0[k as int], x@);
        }
    }
    let ghost xv = x@;
    out.insert(k, x);
    proof {
        let s1 = texts(out@);
        assert(s1 =~= s0.insert(k as int, xv));
        assert forall|i: int, j: int| 0 <= i < j < s1.len() implies lex_lt(s1[i], s1[j]) by {
            if j < k {
            } else if j == k {
            } else if i < k {
                assert(s1[j] == s0[j - 1]);
                if j - 1 > k {
                    lemma_lex_transitive(xv, s0[k as int], s0[j - 1]);
                }
                lemma_lex_transitive(s1[i], xv, s0[j - 1]);
            } else if i == k {
                assert(s1[j] == s0[j - 1]);
                if j - 1 > k {
                    lemma_lex_transitive(xv, s0[k as int], s0[j - 1]);
                }
            } else {
                assert(s1[i] == s0[i - 1] && s1[j] == s0[j - 1]);
            }
        }
        assert forall|y: Seq<char>| #[trigger] s1.contains(y) <==> (s0.contains(y) || y == xv) by {
            if s1.contains(y) {
                let i = choose|i: int| 0 <= i < s1.len() && s1[i] == y;
                if i < k {
                    assert(s0[i] == y);
                } else if i > k {
                    assert(s0[i - 1] == y);
                }
            }
            if s0.contains(y) {
                let i = choose|i: int| 0 <= i < s0.len() && s0[i] == y;
                if i < k {
                    assert(s1[i] == y);
                } else {
                    assert(s1[i + 1] == y);
                }
            }
            if y == xv {
                assert(s1[k as int] == xv);
            }
        }
    }
}

// ---------------------------------------------------------------------------
// Builtin meshes
// ---------------------------------------------------------------------------

/// A vertex of a builtin mesh, described exactly.
#[derive(Clone, Copy, Debug, PartialEq, Eq)]
pub enum MeshVertex {
    /// Position in half units (`±1` is `±0.5`), a unit-axis normal and a
    /// texture corner (each coordinate 0 or 1).
    Lattice { position: (i8, i8, i8), normal: (i8, i8, i8), uv: (u8, u8) },
    /// Point of the sphere of diameter 1 on ring `stack` (0 at the top pole,
    /// `stacks` at the bottom) and meridian `sector` (of `sectors`); its
    /// texture coordinate is (sector / sectors, stack / stacks).
    Sphere { stack: u32, sector: u32, stacks: u32, sectors: u32 },
}

/// Axis vector with small integer components.
pub type Axis3 = (i8, i8, i8);

pub open spec fn ax(x: int, y: int, z: int) -> Axis3 {
    (x as i8, y as i8, z as i8)
}

/// Index pattern of one quad whose four corners start at `base`.
pub open spec fn quad_indices(base: int) -> Seq<u32> {
    seq![base as u32, (base + 1) as u32, (base + 2) as u32, base as u32, (base + 2) as u32, (base + 3) as u32]
}

pub open spec fn lattice(p: (int, int, int), n: Axis3, uv: (u8, u8)) -> MeshVertex {
    MeshVertex::Lattice { position: (p.0 as i8, p.1 as i8, p.2 as i8), normal: n, uv }
}

/// The four corners of the cube face with normal `n`, spanned by `u` and
/// `v`: counter-clockwise from (-u, -v).
pub open spec fn face_quad(n: Axis3, u: Axis3, v: Axis3) -> Seq<MeshVertex> {
    seq![
        lattice((n.0 - u.0 - v.0, n.1 - u.1 - v.1, n.2 - u.2 - v.2), n, (0u8, 0u8)),
        lattice((n.0 + u.0 - v.0, n.1 + u.1 - v.1, n.2 + u.2 - v.2), n, (1u8, 0u8)),
        lattice((n.0 + u.0 + v.0, n.1 + u.1 + v.1, n.2 + u.2 + v.2), n, (1u8, 1u8)),
        lattice((n.0 - u.0 + v.0, n.1 - u.1 + v.1, n.2 - u.2 + v.2), n, (0u8, 1u8)),
    ]
}

/// Unit cube spanning -0.5..0.5: faces +Z, -Z, +X, -X, +Y, -Y.
pub open spec fn cube_vertices() -> Seq<MeshVertex> {
    face_quad(ax(0, 0, 1), ax(1, 0, 0), ax(0, 1, 0)) + face_quad(ax(0, 0, -1), ax(-1, 0, 0), ax(0, 1, 0))
        + face_quad(ax(1, 0, 0), ax(0, 0, -1), ax(0, 1, 0)) + face_quad(ax(-1, 0, 0), ax(0, 0, 1), ax(0, 1, 0))
        + face_quad(ax(0, 1, 0), ax(1, 0, 0), ax(0, 0, -1)) + face_quad(ax(0, -1, 0), ax(1, 0, 0), ax(0, 0, 1))
}

pub open spec fn cube_indices() -> Seq<u32> {
    quad_indices(0) + quad_indices(4) + quad_indices(8) + quad_indices(12) + quad_indices(16)
        + quad_indices(20)
}

/// Unit plane on XZ, facing +Y.
pub open spec fn plane_vertices() -> Seq<MeshVertex> {
    seq![
        lattice((-1, 0, -1), ax(0, 1, 0), (0u8, 0u8)),
        lattice((1, 0, -1), ax(0, 1, 0), (1u8, 0u8)),
        lattice((1, 0, 1), ax(0, 1, 0), (1u8, 1u8)),
        lattice((-1, 0, 1), ax(0, 1, 0), (0u8, 1u8)),
    ]
}

/// Unit quad on XY, facing +Z.
pub open spec fn quad_vertices() -> Seq<MeshVertex> {
    seq![
        lattice((-1, -1, 0), ax(0, 0, 1), (0u8, 0u8)),
        lattice((1, -1, 0), ax(0, 0, 1), (1u8, 0u8)),
        lattice((1, 1, 0), ax(0, 0, 1), (1u8, 1u8)),
        lattice((-1, 1, 0), ax(0, 0, 1), (0u8, 1u8)),
    ]
}

/// Rings and meridians of the builtin sphere.
pub const SPHERE_STACKS: u32 = 14;
pub const SPHERE_SECTORS: u32 = 20;

/// Vertex (ring `i`, meridian `j`) of the builtin sphere.
pub open spec fn sphere_vertex(i: int, j: int) -> MeshVertex {
    MeshVertex::Sphere { stack: i as u32, sector: j as u32, stacks: 14, sectors: 20 }
}

/// The sphere's vertex grid: (stacks + 1) rings of (sectors + 1) vertices,
/// ring by ring.
pub open spec fn sphere_vertices_ok(v: Seq<MeshVertex>) -> bool {
    &&& v.len() == 15 * 21
    &&& forall|i: int, j: int|
        0 <= i <= 14 && 0 <= j <= 20 ==> #[trigger] v[i * 21 + j] == sphere_vertex(i, j)
}

/// The `k`-th index of grid cell (i, j): two triangles
/// (a, b, a+1) and (b, b+1, a+1) with a = i * 21 + j and b = a + 21.
pub open spec fn cell_index(i: int, j: int, k: int) -> u32 {
    let a = i * 21 + j;
    let b = a + 21;
    if k == 0 {
        a as u32
    } else if k == 1 {
        b as u32
    } else if k == 2 {
        (a + 1) as u32
    } else if k == 3 {
        b as u32
    } else if k == 4 {
        (b + 1) as u32
    } else {
        (a + 1) as u32
    }
}

/// Indices of the sphere: six per grid cell, cells ring by ring.
pub open spec fn sphere_indices_ok(ix: Seq<u32>) -> bool {
    &&& ix.len() == 14 * 20 * 6
    &&& forall|i: int, j: int, k: int|
        0 <= i < 14 && 0 <= j < 20 && 0 <= k < 6 ==> #[trigger] ix[(i * 20 + j) * 6 + k]
            == cell_index(i, j, k)
}

/// The names of the builtin meshes.
pub open spec fn is_builtin(name: Seq<char>) -> bool {
    name == "cube"@ || name == "sphere"@ || name == "plane"@ || name == "quad"@
}

/// What the builtin mesh called `name` consists of.
pub open spec fn builtin_ok(name: Seq<char>, v: Seq<MeshVertex>, ix: Seq<u32>) -> bool {
    &&& is_builtin(name)
    &&& name == "cube"@ ==> v == cube_vertices() && ix == cube_indices()
    &&& name == "sphere"@ ==> sphere_vertices_ok(v) && sphere_indices_ok(ix)
    &&& name == "plane"@ ==> v == plane_vertices() && ix == quad_indices(0)
    &&& name == "quad"@ ==> v == quad_vertices() && ix == quad_indices(0)
}

proof fn lemma_builtin_names_distinct()
    ensures
        "cube"@ != "sphere"@ && "cube"@ != "plane"@ && "cube"@ != "quad"@,
        "sphere"@ != "plane"@ && "sphere"@ != "quad"@ && "plane"@ != "quad"@,
{
    reveal_strlit("cube");
    reveal_strlit("sphere");
    reveal_strlit("plane");
    reveal_strlit("quad");
    assert("cube"@[0] != "quad"@[0]);
    assert("cube"@.len() != "sphere"@.len());
    assert("cube"@.len() != "plane"@.len());
    assert("sphere"@.len() != "plane"@.len());
    assert("sphere"@.len() != "quad"@.len());
    assert("plane"@.len() != "quad"@.len());
}

/// Append one quad: its four corners and the two triangles
/// (0, 1, 2), (0, 2, 3) over them.
pub fn push_quad(vertices: &mut Vec<MeshVertex>, indices: &mut Vec<u32>, v: [MeshVertex; 4])
    requires
        old(vertices)@.len() + 4 <= u32::MAX,
    ensures
        final(vertices)@ == old(vertices)@ + v@,
        final(indices)@ == old(indices)@ + quad_indices(old(vertices)@.len() as int),
{
    let base = vertices.len() as u32;
    vertices.push(v[0]);
    vertices.push(v[1]);
    vertices.push(v[2]);
    vertices.push(v[3]);
    indices.push(base);
    indices.push(base + 1);
    indices.push(base + 2);
    indices.push(base);
    indices.push(base + 2);
    indices.push(base + 3);
    proof {
        assert(v@ =~= seq![v[0], v[1], v[2], v[3]]);
    }
}

fn lattice_vertex(p: (i8, i8, i8), n: (i8, i8, i8), uv: (u8, u8)) -> (r: MeshVertex)
    ensures
        r == lattice((p.0 as int, p.1 as int, p.2 as int), n, uv),
{
    MeshVertex::Lattice { position: p, normal: n, uv }
}

/// Append the cube face with normal `n` spanned by `u` and `v`.
fn push_face(
    vertices: &mut Vec<MeshVertex>,
    indices: &mut Vec<u32>,
    n: (i8, i8, i8),
    u: (i8, i8, i8),
    v: (i8, i8, i8),
)
    requires
        old(vertices)@.len() + 4 <= u32::MAX,
        -1 <= n.0 <= 1 && -1 <= n.1 <= 1 && -1 <= n.2 <= 1,
        -1 <= u.0 <= 1 && -1 <= u.1 <= 1 && -1 <= u.2 <= 1,
        -1 <= v.0 <= 1 && -1 <= v.1 <= 1 && -1 <= v.2 <= 1,
    ensures
        final(vertices)@ == old(vertices)@ + face_quad(n, u, v),
        final(indices)@ == old(indices)@ + quad_indices(old(vertices)@.len() as int),
{
    let q = [
        lattice_vertex((n.0 - u.0 - v.0, n.1 - u.1 - v.1, n.2 - u.2 - v.2), n, (0, 0)),
        lattice_vertex((n.0 + u.0 - v.0, n.1 + u.1 - v.1, n.2 + u.2 - v.2), n, (1, 0)),
        lattice_vertex((n.0 + u.0 + v.0, n.1 + u.1 + v.1, n.2 + u.2 + v.2), n, (1, 1)),
        lattice_vertex((n.0 - u.0 + v.0, n.1 - u.1 + v.1, n.2 - u.2 + v.2), n, (0, 1)),
    ];
    proof {
        assert(q@ =~= face_quad(n, u, v));
    }
    push_quad(vertices, indices, q);
}

fn sphere_mesh() -> (r: (Vec<MeshVertex>, Vec<u32>))
    ensures
        sphere_vertices_ok(r.0@),
        sphere_indices_ok(r.1@),
{
    let stacks: u32 = SPHERE_STACKS;
    let sectors: u32 = SPHERE_SECTORS;
    let mut vertices: Vec<MeshVertex> = Vec::new();
    let mut indices: Vec<u32> = Vec::new();
    let mut i: u32 = 0;
    while i <= stacks
        invariant
            stacks == 14 && sectors == 20,
            i <= 15,
            vertices@.len() == i * 21,
            forall|a: int, b: int|
                0 <= a < i && 0 <= b <= 20 ==> #[trigger] vertices@[a * 21 + b] == sphere_vertex(a, b),
        decreases 15 - i,
    {
        let mut j: u32 = 0;
        while j <= sectors
            invariant
                stacks == 14 && sectors == 20,
                i <= 14,
                j <= 21,
                vertices@.len() == i * 21 + j,
                forall|a: int, b: int|
                    0 <= a && 0 <= b <= 20 && a * 21 + b < i * 21 + j ==> #[trigger] vertices@[a * 21 + b]
                        == sphere_vertex(a, b),
            decreases 21 - j,
        {
            vertices.push(MeshVertex::Sphere { stack: i, sector: j, stacks, sectors });
            proof {
                assert forall|a: int, b: int|
                    0 <= a && 0 <= b <= 20 && a * 21 + b < i * 21 + j + 1 implies #[trigger] vertices@[a
                        * 21 + b] == sphere_vertex(a, b) by {
                    if a * 21 + b == i * 21 + j {
                        assert(a == i && b == j) by (nonlinear_arith)
                            requires
                                a * 21 + b == i * 21 + j,
                                0 <= b <= 20,
                                0 <= j <= 20,
                                0 <= a,
                                0 <= i,
                        ;
                    }
                }
            }
            j += 1;
        }
        proof {
            assert forall|a: int, b: int| 0 <= a < i + 1 && 0 <= b <= 20 implies #[trigger] vertices@[a
                * 21 + b] == sphere_vertex(a, b) by {
                assert(a * 21 + b < (i + 1) * 21) by (nonlinear_arith)
                    requires
                        0 <= a < i + 1,
                        0 <= b <= 20,
                ;
            }
        }
        i += 1;
    }
    let mut i: u32 = 0;
    while i < stacks
        invariant
            stacks == 14 && sectors == 20,
            i <= 14,
            indices@.len() == i * 120,
            forall|a: int, b: int, k: int|
                0 <= a < i && 0 <= b < 20 && 0 <= k < 6 ==> #[trigger] indices@[(a * 20 + b) * 6 + k]
                    == cell_index(a, b, k),
        decreases 14 - i,
    {
        let mut j: u32 = 0;
        while j < sectors
            invariant
                stacks == 14 && sectors == 20,
                i < 14,
                j <= 20,
                indices@.len() == i * 120 + j * 6,
                forall|a: int, b: int, k: int|
                    0 <= a && 0 <= b < 20 && 0 <= k < 6 && a * 20 + b < i * 20 + j ==> #[trigger] indices@[(a
                        * 20 + b) * 6 + k] == cell_index(a, b, k),
            decreases 20 - j,
        {
            proof {
                assert(i * (sectors + 1) == i * 21 && i * 21 <= 13 * 21) by (nonlinear_arith)
                    requires
                        sectors == 20,
                        i < 14,
                ;
            }
            let a = i * (sectors + 1) + j;
            let b = a + sectors + 1;
            let ghost before = indices@;
            indices.push(a);
            indices.push(b);
            indices.push(a + 1);
            indices.push(b);
            indices.push(b + 1);
            indices.push(a + 1);
            proof {
                assert forall|a2: int, b2: int, k: int|
                    0 <= a2 && 0 <= b2 < 20 && 0 <= k < 6 && a2 * 20 + b2 < i * 20 + j
                        + 1 implies #[trigger] indices@[(a2 * 20 + b2) * 6 + k] == cell_index(a2, b2, k) by {
                    if a2 * 20 + b2 == i * 20 + j {
                        assert(a2 == i && b2 == j) by (nonlinear_arith)
                            requires
                                a2 * 20 + b2 == i * 20 + j,
                                0 <= b2 < 20,
                                0 <= j < 20,
                                0 <= a2,
                                0 <= i,
                        ;
                    } else {
                        assert((a2 * 20 + b2) * 6 + k < before.len()) by (nonlinear_arith)
                            requires
                                a2 * 20 + b2 < i * 20 + j,
                                0 <= k < 6,
                                before.len() == i * 120 + j * 6,
                        ;
                    }
                }
            }
            j += 1;
        }
        i += 1;
    }
    (vertices, indices)
}

/// Unit primitives addressable by name: `"cube"`, `"sphere"`, `"plane"`,
/// `"quad"`. Cube spans -0.5..0.5; plane lies on XZ; quad faces +Z.
pub fn builtin_mesh(name: &str) -> (r: Option<(Vec<MeshVertex>, Vec<u32>)>)
    ensures
        r is None <==> !is_builtin(name@),
        r matches Some((v, ix)) ==> builtin_ok(name@, v@, ix@),
{
    proof {
        lemma_builtin_names_distinct();
    }
    let mut vertices: Vec<MeshVertex> = Vec::new();
    let mut indices: Vec<u32> = Vec::new();
    if str_eq(name, "cube") {
        push_face(&mut vertices, &mut indices, (0, 0, 1), (1, 0, 0), (0, 1, 0));
        push_face(&mut vertices, &mut indices, (0, 0, -1), (-1, 0, 0), (0, 1, 0));
        push_face(&mut vertices, &mut indices, (1, 0, 0), (0, 0, -1), (0, 1, 0));
        push_face(&mut vertices, &mut indices, (-1, 0, 0), (0, 0, 1), (0, 1, 0));
        push_face(&mut vertices, &mut indices, (0, 1, 0), (1, 0, 0), (0, 0, -1));
        push_face(&mut vertices, &mut indices, (0, -1, 0), (1, 0, 0), (0, 0, 1));
        proof {
            assert(vertices@ =~= cube_vertices());
            assert(indices@ =~= cube_indices());
        }

    } else if str_eq(name, "sphere") {
        let (v, ix) = sphere_mesh();
        vertices = v;
        indices = ix;

    } else if str_eq(name, "plane") {
        let q = [
            lattice_vertex((-1, 0, -1), (0, 1, 0), (0, 0)),
            lattice_vertex((1, 0, -1), (0, 1, 0), (1, 0)),
            lattice_vertex((1, 0, 1), (0, 1, 0), (1, 1)),
            lattice_vertex((-1, 0, 1), (0, 1, 0), (0, 1)),
        ];
        push_quad(&mut vertices, &mut indices, q);
        proof {
            assert(vertices@ =~= plane_vertices());
            assert(indices@ =~= quad_indices(0));
        }
    } else if str_eq(name, "quad") {
        let q = [
            lattice_vertex((-1, -1, 0), (0, 0, 1), (0, 0)),
            lattice_vertex((1, -1, 0), (0, 0, 1), (1, 0)),
            lattice_vertex((1, 1, 0), (0, 0, 1), (1, 1)),
            lattice_vertex((-1, 1, 0), (0, 0, 1), (0, 1)),
        ];
        push_quad(&mut vertices, &mut indices, q);
        proof {
            assert(vertices@ =~= quad_vertices());
            assert(indices@ =~= quad_indices(0));
        }
    } else {
        return None;
    }
    Some((vertices, indices))
}

/// Law: every builtin mesh is a well-formed triangle list: its index count
/// is a multiple of three and every index names one of its vertices.
pub proof fn law_builtin_mesh_well_formed(name: Seq<char>, v: Seq<MeshVertex>, ix: Seq<u32>)
    requires
        builtin_ok(name, v, ix),
    ensures
        ix.len() % 3 == 0,
        forall|t: int| 0 <= t < ix.len() ==> (#[trigger] ix[t] as int) < v.len(),
{
    lemma_builtin_names_distinct();
    if name == "sphere"@ {
        assert forall|t: int| 0 <= t < ix.len() implies (#[trigger] ix[t] as int) < v.len() by {
            let c = t / 6;
            let k = t % 6;
            let i = c / 20;
            let j = c % 20;
            assert(t == (i * 20 + j) * 6 + k && 0 <= i < 14 && 0 <= j < 20 && 0 <= k < 6)
                by (nonlinear_arith)
                requires
                    0 <= t < 1680,
                    c == t / 6,
                    k == t % 6,
                    i == c / 20,
                    j == c % 20,
            ;
            assert(ix[(i * 20 + j) * 6 + k] == cell_index(i, j, k));
        }
    } else if name == "cube"@ {
        assert forall|t: int| 0 <= t < ix.len() implies (#[trigger] ix[t] as int) < v.len() by {
            assert(ix[t] == cube_indices()[t]);
        }
    } else {
        assert forall|t: int| 0 <= t < ix.len() implies (#[trigger] ix[t] as int) < v.len() by {
            assert(ix[t] == quad_indices(0)[t]);
        }
    }
}

} // verus!
