//! Editor-only state that needs no window: the active tool, which gizmo
//! part is being dragged, and the multi-selection with its bookkeeping
//! against the world (entities that were despawned drop out).
use vstd::prelude::*;
use hecs::{Entity, World};
use crate::ecs::{alive, bits_of, entity_bits, ids_of, w_contains, world_view};
use crate::editor::gizmo::GizmoHit;
use crate::scene::Dimension;

verus! {

/// Active editor tool (toolbar + Q/W/E/R/T/Y shortcuts).
#[derive(Clone, Copy, Debug, PartialEq, Eq, Structural, Default)]
pub enum Tool {
    /// Move the editor camera only; never touches the selection.
    #[default]
    Hand,
    Move,
    Rotate,
    Scale,
    /// 2D rectangular editing: move + resize sprites by their corners.
    Rect,
    /// Unified gizmo: move arrows + rotate rings + scale boxes at once.
    Transform,
}

/// The toolbar text of a tool.
pub open spec fn tool_label(t: Tool) -> Seq<char> {
    match t {
        Tool::Hand => "Hand"@,
        Tool::Move => "Move"@,
        Tool::Rotate => "Rotate"@,
        Tool::Scale => "Scale"@,
        Tool::Rect => "Rect"@,
        Tool::Transform => "Transform"@,
    }
}

/// The shortcut key of a tool (no modifiers).
pub open spec fn tool_key(t: Tool) -> char {
    match t {
        Tool::Hand => 'Q',
        Tool::Move => 'W',
        Tool::Rotate => 'E',
        Tool::Scale => 'R',
        Tool::Rect => 'T',
        Tool::Transform => 'Y',
    }
}

impl Tool {
    pub fn label(self) -> (r: &'static str)
        ensures
            r@ == tool_label(self),
    {
        match self {
            Tool::Hand => "Hand",
            Tool::Move => "Move",
            Tool::Rotate => "Rotate",
            Tool::Scale => "Scale",
            Tool::Rect => "Rect",
            Tool::Transform => "Transform",
        }
    }

    /// The letter of the tool's shortcut key (pressed without modifiers).
    pub fn key(self) -> (r: Option<char>)
        ensures
            r == Some(tool_key(self)),
    {
        let k = match self {
            Tool::Hand => 'Q',
            Tool::Move => 'W',
            Tool::Rotate => 'E',
            Tool::Scale => 'R',
            Tool::Rect => 'T',
            Tool::Transform => 'Y',
        };
        Some(k)
    }
}

/// Law: every tool has its own shortcut key, so a key press selects at most
/// one tool.
pub proof fn law_tool_keys_distinct(a: Tool, b: Tool)
    requires
        tool_key(a) == tool_key(b),
    ensures
        a == b,
{
}

/// Which part of a gizmo is being dragged.
#[derive(Clone, Copy, Debug, PartialEq, Eq, Structural)]
pub enum GizmoDrag {
    TranslateAxis { axis: usize },
    /// 0 = XY, 1 = XZ, 2 = YZ.
    TranslatePlane { plane: usize },
    /// Free move on the camera-facing plane through the gizmo (or exact 2D).
    TranslateScreen,
    RotateAxis { axis: usize },
    ScaleAxis { axis: usize },
    ScaleUniform,
    /// Rect tool corner (0..3, counter-clockwise from (-x,-y) in local space).
    RectCorner { corner: usize },
}

/// Snapshot for play-in-editor (scene serialized before play).
#[derive(Clone, Debug)]
pub struct PlaySnapshot {
    pub scene_text: String,
}

/// Transient editor state that the editor's panels read and write. The
/// snapping settings and the live drag (both in floating point) are kept by
/// the editor front end beside it.
pub struct EditorState {
    /// Multi-selection; the **last** entry is the primary (inspector target).
    pub selected: Vec<Entity>,
    pub viewport_px: [u32; 4],
    pub show_new_project: bool,
    pub show_open_project: bool,
    pub new_project_name: String,
    pub new_project_dim: Dimension,
    pub open_path: String,
    pub tool: Tool,
    /// Gizmo axes in entity-local space (true) or world space (false).
    pub local_space: bool,
    /// Gizmo part under the pointer this frame.
    pub hovered: Option<GizmoHit>,
    /// Hierarchy rows the user expanded.
    pub tree_open: Vec<Entity>,
    /// Hierarchy row being inline-renamed.
    pub renaming: Option<Entity>,
    /// Hierarchy drag & drop source (reparenting).
    pub hierarchy_drag: Option<Entity>,
}

impl Default for EditorState {
    fn default() -> (r: Self)
        ensures
            r.selected@.len() == 0,
            r.viewport_px@ == seq![0u32, 0u32, 1280u32, 720u32],
            !r.show_new_project,
            !r.show_open_project,
            r.new_project_name@ == "MyGame"@,
            r.new_project_dim == Dimension::D2,
            r.open_path@ == "."@,
            r.tool == Tool::Move,
            !r.local_space,
            r.hovered is None,
            r.tree_open@.len() == 0,
            r.renaming is None,
            r.hierarchy_drag is None,
    {
        EditorState {
            selected: Vec::new(),
            viewport_px: [0, 0, 1280, 720],
            show_new_project: false,
            show_open_project: false,
            new_project_name: String::from_str("MyGame"),
            new_project_dim: Dimension::D2,
            open_path: String::from_str("."),
            tool: Tool::Move,
            local_space: false,
            hovered: None,
            tree_open: Vec::new(),
            renaming: None,
            hierarchy_drag: None,
        }
    }
}

/// Ids of the selection, in selection order.
pub open spec fn sel_ids(s: &EditorState) -> Seq<u64> {
    ids_of(s.selected@)
}

/// First position of `x` in `s` (`s.len()` when absent).
pub open spec fn first_index(s: Seq<u64>, x: u64) -> int
    decreases s.len(),
{
    if s.len() == 0 {
        0
    } else if s[0] == x {
        0
    } else {
        1 + first_index(s.drop_first(), x)
    }
}

pub proof fn lemma_first_index(s: Seq<u64>, x: u64)
    ensures
        0 <= first_index(s, x) <= s.len(),
        first_index(s, x) < s.len() <==> s.contains(x),
        first_index(s, x) < s.len() ==> s[first_index(s, x)] == x,
        forall|j: int| 0 <= j < first_index(s, x) ==> s[j] != x,
    decreases s.len(),
{
    if s.len() > 0 {
        lemma_first_index(s.drop_first(), x);
        if s[0] != x {
            assert forall|j: int| 0 <= j < first_index(s, x) implies s[j] != x by {
                if j > 0 {
                    assert(s[j] == s.drop_first()[j - 1]);
                }
            }
            if s.contains(x) {
                let i = choose|i: int| 0 <= i < s.len() && s[i] == x;
                assert(s.drop_first()[i - 1] == x);
            }
            if s.drop_first().contains(x) {
                let i = choose|i: int| 0 <= i < s.drop_first().len() && s.drop_first()[i] == x;
                assert(s[i + 1] == x);
            }
        }
    }
}

/// The selection after a ctrl-click on `x`: the first occurrence removed
/// when selected, appended (as the new primary) otherwise.
pub open spec fn toggled(s: Seq<u64>, x: u64) -> Seq<u64> {
    if s.contains(x) {
        s.remove(first_index(s, x))
    } else {
        s.push(x)
    }
}

impl EditorState {
    /// Full-window viewport.
    pub fn full_viewport(&self) -> (r: (u32, u32, u32, u32))
        ensures
            r == (0u32, 0u32, self.viewport_px[2], self.viewport_px[3]),
    {
        (0, 0, self.viewport_px[2], self.viewport_px[3])
    }

    /// Central-panel viewport in physical pixels (edit mode).
    pub fn viewport_rect_px(&self) -> (r: (u32, u32, u32, u32))
        ensures
            r == (self.viewport_px[0], self.viewport_px[1], self.viewport_px[2], self.viewport_px[3]),
    {
        (self.viewport_px[0], self.viewport_px[1], self.viewport_px[2], self.viewport_px[3])
    }

    /// The primary (last-selected) entity, if any.
    pub fn primary(&self) -> (r: Option<Entity>)
        ensures
            self.selected@.len() == 0 ==> r is None,
            self.selected@.len() > 0 ==> r == Some(self.selected@.last()),
    {
        let n = self.selected.len();
        if n == 0 {
            None
        } else {
            Some(self.selected[n - 1])
        }
    }

    /// Position of the first selected entity with id `b`.
    fn position(&self, b: u64) -> (r: Option<usize>)
        ensures
            r is None ==> !sel_ids(self).contains(b),
            r matches Some(i) ==> i == first_index(sel_ids(self), b) && i < self.selected@.len(),
    {
        proof {
            lemma_first_index(sel_ids(self), b);
        }
        let mut i: usize = 0;
        while i < self.selected.len()
            invariant
                i <= self.selected@.len(),
                forall|j: int| 0 <= j < i ==> sel_ids(self)[j] != b,
                0 <= first_index(sel_ids(self), b) <= sel_ids(self).len(),
                first_index(sel_ids(self), b) < sel_ids(self).len() ==> sel_ids(self)[first_index(sel_ids(self), b)] == b,
                forall|j: int| 0 <= j < first_index(sel_ids(self), b) ==> sel_ids(self)[j] != b,
                first_index(sel_ids(self), b) < sel_ids(self).len() <==> sel_ids(self).contains(b),
            decreases self.selected@.len() - i,
        {
            if bits_of(self.selected[i]) == b {
                assert(sel_ids(self)[i as int] == b);
                return Some(i);
            }
            i += 1;
        }
        None
    }

    pub fn is_selected(&self, e: Entity) -> (r: bool)
        ensures
            r == sel_ids(self).contains(entity_bits(e)),
    {
        let b = bits_of(e);
        proof {
            lemma_first_index(sel_ids(self), b);
        }
        self.position(b).is_some()
    }

    /// Replace the selection with a single entity.
    pub fn select(&mut self, e: Entity)
        ensures
            final(self).selected@ == seq![e],
    {
        self.selected = vec![e];
    }

    /// Ctrl-click: toggle membership; a newly added entity becomes primary.
    pub fn toggle_select(&mut self, e: Entity)
        ensures
            sel_ids(final(self)) == toggled(sel_ids(old(self)), entity_bits(e)),
            !sel_ids(old(self)).contains(entity_bits(e)) ==> final(self).selected@ == old(
                self,
            ).selected@.push(e),
    {
        let b = bits_of(e);
        proof {
            lemma_first_index(sel_ids(self), b);
        }
        match self.position(b) {
            Some(i) => {
                let ghost s0 = self.selected@;
                self.selected.remove(i);
                proof {
                    assert(ids_of(self.selected@) =~= ids_of(s0).remove(i as int));
                }
            },
            None => {
                let ghost s0 = self.selected@;
                self.selected.push(e);
                proof {
                    assert(ids_of(self.selected@) =~= ids_of(s0).push(b));
                }
            },
        }
    }

    /// Drop selections (and expanded rows, the rename target and the
    /// reparenting source) that no longer exist in the world.
    pub fn retain_existing(&mut self, world: &World)
        ensures
            final(self).selected@ == old(self).selected@.filter(
                |x: Entity| alive(world_view(*world), entity_bits(x)),
            ),
            final(self).tree_open@ == old(self).tree_open@.filter(
                |x: Entity| alive(world_view(*world), entity_bits(x)),
            ),
            final(self).renaming == match old(self).renaming {
                Some(x) => if alive(world_view(*world), entity_bits(x)) {
                    Some(x)
                } else {
                    None
                },
                None => None,
            },
            final(self).hierarchy_drag == match old(self).hierarchy_drag {
                Some(x) => if alive(world_view(*world), entity_bits(x)) {
                    Some(x)
                } else {
                    None
                },
                None => None,
            },
            final(self).tool == old(self).tool,
            final(self).local_space == old(self).local_space,
            final(self).hovered == old(self).hovered,
    {
        self.selected = live_only(&self.selected, world);
        self.tree_open = live_only(&self.tree_open, world);
        if let Some(e) = self.renaming {
            if !w_contains(world, e) {
                self.renaming = None;
            }
        }
        if let Some(e) = self.hierarchy_drag {
            if !w_contains(world, e) {
                self.hierarchy_drag = None;
            }
        }
    }
}

/// The entities of `list` that are alive in `world`, in order.
fn live_only(list: &Vec<Entity>, world: &World) -> (r: Vec<Entity>)
    ensures
        r@ == list@.filter(|x: Entity| alive(world_view(*world), entity_bits(x))),
{
    let ghost f = |x: Entity| alive(world_view(*world), entity_bits(x));
    let mut out: Vec<Entity> = Vec::new();
    let mut i: usize = 0;
    while i < list.len()
        invariant
            i <= list@.len(),
            out@ == list@.take(i as int).filter(f),
            f == (|x: Entity| alive(world_view(*world), entity_bits(x))),
        decreases list@.len() - i,
    {
        let x = list[i];
        proof {
            assert(list@.take(i + 1).drop_last() =~= list@.take(i as int));
            reveal(Seq::filter);
        }
        if w_contains(world, x) {
            out.push(x);
        }
        i += 1;
    }
    proof {
        assert(list@.take(list@.len() as int) =~= list@);
    }
    out
}

/// Law: ctrl-clicking an entity flips whether it is selected, when the
/// selection holds each entity at most once; two ctrl-clicks on an entity
/// that was not selected restore the selection exactly.
pub proof fn law_toggle_select(s: Seq<u64>, x: u64)
    requires
        s.no_duplicates(),
    ensures
        toggled(s, x).contains(x) == !s.contains(x),
        toggled(s, x).no_duplicates(),
        !s.contains(x) ==> toggled(toggled(s, x), x) == s,
{
    lemma_first_index(s, x);
    if s.contains(x) {
        let i = first_index(s, x);
        let t = s.remove(i);
        assert forall|k: int| 0 <= k < t.len() implies t[k] != x by {
            if k < i {
            } else {
                assert(t[k] == s[k + 1]);
                assert(s[i] == s[k + 1] ==> i == k + 1);
            }
        }
        assert forall|a: int, b: int| 0 <= a < b < t.len() implies t[a] != t[b] by {
            let a0 = if a < i { a } else { a + 1 };
            let b0 = if b < i { b } else { b + 1 };
            assert(t[a] == s[a0] && t[b] == s[b0]);
        }
    } else {
        let t = s.push(x);
        lemma_first_index(t, x);
        assert(t.contains(x)) by {
            assert(t[s.len() as int] == x);
        }
        assert forall|a: int, b: int| 0 <= a < b < t.len() implies t[a] != t[b] by {
            if b == s.len() {
                assert(!s.contains(t[a]) ==> t[a] != x);
                assert(s[a] == t[a]);
            }
        }
        assert(first_index(t, x) == s.len()) by {
            assert(forall|j: int| 0 <= j < s.len() ==> t[j] == s[j]);
        }
        assert(t.remove(s.len() as int) =~= s);
    }
}

} // verus!
