//! Play-mode state machine: Stopped (editing) → Playing ↔ Paused → Stopped.
//!
//! Entering play keeps the serialized edit-state scene; leaving play hands
//! exactly that text back so the editor restores the pre-play scene.
use vstd::prelude::*;
use crate::editor::state::PlaySnapshot;

verus! {

#[derive(Clone, Copy, Debug, PartialEq, Eq, Structural, Default)]
pub enum PlayState {
    #[default]
    Stopped,
    Playing,
    Paused,
}

/// The editor's play mode: its state and, while not stopped, the snapshot
/// of the scene as it was when play started.
pub struct PlayMode {
    state: PlayState,
    snapshot: Option<PlaySnapshot>,
}

/// What a pause toggle did.
#[derive(Clone, Copy, Debug, PartialEq, Eq, Structural)]
pub enum PauseToggle {
    Paused,
    Resumed,
    Unchanged,
}

impl PlayMode {
    pub closed spec fn state_spec(&self) -> PlayState {
        self.state
    }

    /// The snapshot text held while playing or paused.
    pub closed spec fn snapshot_spec(&self) -> Option<Seq<char>> {
        match self.snapshot {
            Some(s) => Some(s.scene_text@),
            None => None,
        }
    }

    /// (state, snapshot text).
    pub open spec fn model(&self) -> PlayModel {
        (self.state_spec(), self.snapshot_spec())
    }

    /// A snapshot is held exactly when play mode is not stopped.
    pub closed spec fn wf(&self) -> bool {
        (self.state == PlayState::Stopped) <==> self.snapshot is None
    }

    /// Editing, no snapshot.
    pub fn new() -> (r: Self)
        ensures
            r.wf(),
            r.state_spec() == PlayState::Stopped,
    {
        PlayMode { state: PlayState::Stopped, snapshot: None }
    }

    pub fn state(&self) -> (r: PlayState)
        ensures
            r == self.state_spec(),
    {
        self.state
    }

    /// Start playing from the edit state whose serialized form is
    /// `scene_text`. Only from `Stopped`; returns whether play started.
    pub fn play(&mut self, scene_text: String) -> (started: bool)
        requires
            old(self).wf(),
        ensures
            final(self).wf(),
            started == (old(self).state_spec() == PlayState::Stopped),
            started ==> final(self).state_spec() == PlayState::Playing && final(self).snapshot_spec()
                == Some(scene_text@),
            !started ==> final(self).state_spec() == old(self).state_spec()
                && final(self).snapshot_spec() == old(self).snapshot_spec(),
    {
        if self.state != PlayState::Stopped {
            return false;
        }
        self.snapshot = Some(PlaySnapshot { scene_text });
        self.state = PlayState::Playing;
        true
    }

    /// Pause the simulation (only while playing).
    pub fn pause(&mut self) -> (changed: bool)
        requires
            old(self).wf(),
        ensures
            final(self).model() == apply_op(old(self).model(), PlayOp::Pause),
            final(self).wf(),
            changed == (old(self).state_spec() == PlayState::Playing),
            final(self).state_spec() == if changed {
                PlayState::Paused
            } else {
                old(self).state_spec()
            },
            final(self).snapshot_spec() == old(self).snapshot_spec(),
    {
        if self.state == PlayState::Playing {
            self.state = PlayState::Paused;
            true
        } else {
            false
        }
    }

    /// Resume a paused simulation.
    pub fn resume(&mut self) -> (changed: bool)
        requires
            old(self).wf(),
        ensures
            final(self).model() == apply_op(old(self).model(), PlayOp::Resume),
            final(self).wf(),
            changed == (old(self).state_spec() == PlayState::Paused),
            final(self).state_spec() == if changed {
                PlayState::Playing
            } else {
                old(self).state_spec()
            },
            final(self).snapshot_spec() == old(self).snapshot_spec(),
    {
        if self.state == PlayState::Paused {
            self.state = PlayState::Playing;
            true
        } else {
            false
        }
    }

    /// Pause when playing, resume when paused, nothing when stopped.
    pub fn toggle_pause(&mut self) -> (r: PauseToggle)
        requires
            old(self).wf(),
        ensures
            final(self).model() == apply_op(old(self).model(), PlayOp::TogglePause),
            final(self).wf(),
            final(self).snapshot_spec() == old(self).snapshot_spec(),
            old(self).state_spec() == PlayState::Playing ==> r == PauseToggle::Paused
                && final(self).state_spec() == PlayState::Paused,
            old(self).state_spec() == PlayState::Paused ==> r == PauseToggle::Resumed
                && final(self).state_spec() == PlayState::Playing,
            old(self).state_spec() == PlayState::Stopped ==> r == PauseToggle::Unchanged
                && final(self).state_spec() == PlayState::Stopped,
    {
        match self.state {
            PlayState::Playing => {
                self.state = PlayState::Paused;
                PauseToggle::Paused
            },
            PlayState::Paused => {
                self.state = PlayState::Playing;
                PauseToggle::Resumed
            },
            PlayState::Stopped => PauseToggle::Unchanged,
        }
    }

    /// Stop playing: back to `Stopped`, handing out the snapshot taken when
    /// play started (to be restored). Nothing when already stopped.
    pub fn stop(&mut self) -> (restore: Option<String>)
        requires
            old(self).wf(),
        ensures
            final(self).wf(),
            final(self).state_spec() == PlayState::Stopped,
            old(self).state_spec() == PlayState::Stopped ==> restore is None,
            old(self).state_spec() != PlayState::Stopped ==> restore is Some && Some(
                restore.unwrap()@,
            ) == old(self).snapshot_spec(),
    {
        if self.state == PlayState::Stopped {
            return None;
        }
        self.state = PlayState::Stopped;
        match self.snapshot.take() {
            Some(s) => Some(s.scene_text),
            None => None,
        }
    }

    /// Whether a single-frame step runs now (only from `Paused`); the state
    /// stays paused.
    pub fn step(&self) -> (tick: bool)
        ensures
            tick == (self.state_spec() == PlayState::Paused),
    {
        self.state == PlayState::Paused
    }

    /// Whether the simulation advances this frame.
    pub fn runs(&self) -> (r: bool)
        ensures
            r == (self.state_spec() == PlayState::Playing),
    {
        self.state == PlayState::Playing
    }

    /// F5: start playing when stopped (with the given edit-state text),
    /// otherwise stop and hand back the snapshot.
    pub fn toggle_play(&mut self, scene_text: String) -> (restore: Option<String>)
        requires
            old(self).wf(),
        ensures
            final(self).wf(),
            old(self).state_spec() == PlayState::Stopped ==> restore is None
                && final(self).state_spec() == PlayState::Playing && final(self).snapshot_spec()
                == Some(scene_text@),
            old(self).state_spec() != PlayState::Stopped ==> final(self).state_spec()
                == PlayState::Stopped && restore is Some && Some(restore.unwrap()@) == old(
                self,
            ).snapshot_spec(),
    {
        if self.state == PlayState::Stopped {
            self.play(scene_text);
            None
        } else {
            self.stop()
        }
    }
}

/// An operation of play mode that leaves the snapshot alone.
pub enum PlayOp {
    Pause,
    Resume,
    TogglePause,
    Step,
}

/// (state, snapshot text) of a play mode.
pub type PlayModel = (PlayState, Option<Seq<char>>);

/// What `pause`, `resume`, `toggle_pause` and `step` do to the model.
pub open spec fn apply_op(m: PlayModel, op: PlayOp) -> PlayModel {
    match op {
        PlayOp::Pause => if m.0 == PlayState::Playing {
            (PlayState::Paused, m.1)
        } else {
            m
        },
        PlayOp::Resume => if m.0 == PlayState::Paused {
            (PlayState::Playing, m.1)
        } else {
            m
        },
        PlayOp::TogglePause => match m.0 {
            PlayState::Playing => (PlayState::Paused, m.1),
            PlayState::Paused => (PlayState::Playing, m.1),
            PlayState::Stopped => m,
        },
        PlayOp::Step => m,
    }
}

/// The model after a run of operations, in order.
pub open spec fn run_ops(m: PlayModel, ops: Seq<PlayOp>) -> PlayModel
    decreases ops.len(),
{
    if ops.len() == 0 {
        m
    } else {
        apply_op(run_ops(m, ops.drop_last()), ops.last())
    }
}

/// Law: after `play(text)` from the edit state, any run of pauses, resumes,
/// pause toggles and single steps leaves play mode running or paused with
/// `text` as its snapshot, so the `stop` that follows hands back exactly
/// `text` (the scene is restored to its pre-play state).
pub proof fn law_stop_restores_snapshot(text: Seq<char>, ops: Seq<PlayOp>)
    ensures
        run_ops((PlayState::Playing, Some(text)), ops).1 == Some(text),
        run_ops((PlayState::Playing, Some(text)), ops).0 != PlayState::Stopped,
    decreases ops.len(),
{
    if ops.len() > 0 {
        law_stop_restores_snapshot(text, ops.drop_last());
    }
}

} // verus!
