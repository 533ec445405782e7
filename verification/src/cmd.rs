//! Command pattern: every editor mutation is a [`Command`] with `apply` and
//! `revert`, so undo/redo is uniform across the whole editor. The engine
//! provides the stack; the editor defines its commands against its own
//! context type `X`.
use vstd::prelude::*;

verus! {

/// A reversible editor mutation over a context of type `X`.
pub trait Command<X> {
    /// The text of the command's label (each command type says what it is;
    /// by default nothing is known of it).
    closed spec fn label_view(&self) -> Seq<char> {
        arbitrary()
    }

    /// Short description for the editor's undo history UI.
    fn label(&self) -> (r: String)
        ensures
            r@ == self.label_view(),
    ;

    /// Carry the command out; its label stays what it was.
    fn apply(&mut self, ctx: &mut X)
        ensures
            final(self).label_view() == old(self).label_view(),
    ;

    /// Undo the command; its label stays what it was.
    fn revert(&mut self, ctx: &mut X)
        ensures
            final(self).label_view() == old(self).label_view(),
    ;
}

/// Undo/redo stacks with a bounded history (the oldest command is dropped
/// when the undo stack would exceed the limit).
pub struct CommandStack<C> {
    undo: Vec<C>,
    redo: Vec<C>,
    limit: usize,
}

/// Default history length.
pub const HISTORY_LIMIT: usize = 256;

/// One `undo`: the newest undo entry moved (reverted) onto the redo stack.
pub open spec fn undo_step<C>(u0: Seq<C>, r0: Seq<C>, u1: Seq<C>, r1: Seq<C>) -> bool {
    &&& u0.len() > 0
    &&& u1 == u0.drop_last()
    &&& r1.len() == r0.len() + 1
    &&& r1.drop_last() == r0
}

/// One `redo`: the newest redo entry moved (re-applied) onto the undo stack.
pub open spec fn redo_step<C>(u0: Seq<C>, r0: Seq<C>, u1: Seq<C>, r1: Seq<C>) -> bool {
    &&& r0.len() > 0
    &&& r1 == r0.drop_last()
    &&& u1.len() == u0.len() + 1
    &&& u1.drop_last() == u0
}

/// The labels of a stack of commands, oldest first.
pub open spec fn labels<X, C: Command<X>>(s: Seq<C>) -> Seq<Seq<char>> {
    s.map_values(|c: C| c.label_view())
}

/// One `undo` as the history shows it: the newest label moves from the undo
/// list to the redo list.
pub open spec fn undo_label_step(
    lu0: Seq<Seq<char>>,
    lr0: Seq<Seq<char>>,
    lu1: Seq<Seq<char>>,
    lr1: Seq<Seq<char>>,
) -> bool {
    &&& lu0.len() > 0
    &&& lu1 == lu0.drop_last()
    &&& lr1 == lr0.push(lu0.last())
}

/// One `redo` as the history shows it: the newest redo label moves back.
pub open spec fn redo_label_step(
    lu0: Seq<Seq<char>>,
    lr0: Seq<Seq<char>>,
    lu1: Seq<Seq<char>>,
    lr1: Seq<Seq<char>>,
) -> bool {
    &&& lr0.len() > 0
    &&& lr1 == lr0.drop_last()
    &&& lu1 == lu0.push(lr0.last())
}

impl<C> Default for CommandStack<C> {
    /// Empty stacks with the default history limit.
    fn default() -> (r: Self)
        ensures
            r.wf(),
            r.undo_seq().len() == 0,
            r.redo_seq().len() == 0,
            r.limit() == HISTORY_LIMIT,
    {
        CommandStack { undo: Vec::new(), redo: Vec::new(), limit: HISTORY_LIMIT }
    }
}

impl<C> CommandStack<C> {
    pub closed spec fn undo_seq(&self) -> Seq<C> {
        self.undo@
    }

    pub closed spec fn redo_seq(&self) -> Seq<C> {
        self.redo@
    }

    pub closed spec fn limit(&self) -> nat {
        self.limit as nat
    }

    /// The two stacks together never hold more than `limit` commands.
    pub closed spec fn wf(&self) -> bool {
        &&& self.limit >= 1
        &&& self.undo@.len() + self.redo@.len() <= self.limit
    }

    /// Empty stacks with the default history limit.
    pub fn new() -> (r: Self)
        ensures
            r.wf(),
            r.undo_seq().len() == 0,
            r.redo_seq().len() == 0,
            r.limit() == HISTORY_LIMIT,
    {
        CommandStack { undo: Vec::new(), redo: Vec::new(), limit: HISTORY_LIMIT }
    }

    /// Empty stacks keeping at most `limit` commands.
    pub fn with_limit(limit: usize) -> (r: Self)
        requires
            limit >= 1,
        ensures
            r.wf(),
            r.undo_seq().len() == 0,
            r.redo_seq().len() == 0,
            r.limit() == limit,
    {
        CommandStack { undo: Vec::new(), redo: Vec::new(), limit }
    }

    /// Apply `cmd` and push it onto the undo stack (clears redo; drops the
    /// oldest command past the limit).
    pub fn push<X>(&mut self, ctx: &mut X, cmd: C)
        where C: Command<X>,
        requires
            old(self).wf(),
        ensures
            final(self).wf(),
            final(self).limit() == old(self).limit(),
            final(self).redo_seq().len() == 0,
            old(self).undo_seq().len() < old(self).limit() ==> final(self).undo_seq().len()
                == old(self).undo_seq().len() + 1 && final(self).undo_seq().drop_last()
                == old(self).undo_seq(),
            old(self).undo_seq().len() == old(self).limit() ==> final(self).undo_seq().len()
                == old(self).limit() && final(self).undo_seq().drop_last()
                == old(self).undo_seq().drop_first(),
            final(self).undo_seq().last().label_view() == cmd.label_view(),
            labels::<X, C>(final(self).undo_seq()).last() == cmd.label_view(),
    {
        let mut cmd = cmd;
        let ghost l = cmd.label_view();
        cmd.apply(ctx);
        let ghost u0 = self.undo@;
        self.undo.push(cmd);
        self.redo.clear();
        if self.undo.len() > self.limit {
            let ghost u1 = self.undo@;
            self.undo.remove(0);
            assert(self.undo@.drop_last() =~= u0.drop_first());
            assert(self.undo@.last() == u1.last());
        } else {
            assert(self.undo@.drop_last() =~= u0);
        }
    }

    /// Revert the newest command and move it onto the redo stack; its label.
    pub fn undo<X>(&mut self, ctx: &mut X) -> (r: Option<String>)
        where C: Command<X>,
        requires
            old(self).wf(),
        ensures
            final(self).wf(),
            final(self).limit() == old(self).limit(),
            r is Some <==> old(self).undo_seq().len() > 0,
            r is Some ==> undo_step(
                old(self).undo_seq(),
                old(self).redo_seq(),
                final(self).undo_seq(),
                final(self).redo_seq(),
            ),
            r is None ==> final(self).undo_seq() == old(self).undo_seq() && final(self).redo_seq()
                == old(self).redo_seq(),
            r is Some ==> undo_label_step(
                labels::<X, C>(old(self).undo_seq()),
                labels::<X, C>(old(self).redo_seq()),
                labels::<X, C>(final(self).undo_seq()),
                labels::<X, C>(final(self).redo_seq()),
            ),
            r matches Some(l) ==> l@ == old(self).undo_seq().last().label_view(),
    {
        match self.undo.pop() {
            None => None,
            Some(cmd) => {
                let mut cmd = cmd;
                let label = cmd.label();
                cmd.revert(ctx);
                let ghost r0 = self.redo@;
                self.redo.push(cmd);
                assert(self.redo@.drop_last() =~= r0);
                assert(labels::<X, C>(self.undo@) =~= labels::<X, C>(old(self).undo@).drop_last());
                assert(labels::<X, C>(self.redo@) =~= labels::<X, C>(r0).push(
                    labels::<X, C>(old(self).undo@).last(),
                ));
                Some(label)
            },
        }
    }

    /// Re-apply the newest undone command and move it back onto the undo
    /// stack; its label.
    pub fn redo<X>(&mut self, ctx: &mut X) -> (r: Option<String>)
        where C: Command<X>,
        requires
            old(self).wf(),
        ensures
            final(self).wf(),
            final(self).limit() == old(self).limit(),
            r is Some <==> old(self).redo_seq().len() > 0,
            r is Some ==> redo_step(
                old(self).undo_seq(),
                old(self).redo_seq(),
                final(self).undo_seq(),
                final(self).redo_seq(),
            ),
            r is None ==> final(self).undo_seq() == old(self).undo_seq() && final(self).redo_seq()
                == old(self).redo_seq(),
            r is Some ==> redo_label_step(
                labels::<X, C>(old(self).undo_seq()),
                labels::<X, C>(old(self).redo_seq()),
                labels::<X, C>(final(self).undo_seq()),
                labels::<X, C>(final(self).redo_seq()),
            ),
            r matches Some(l) ==> l@ == old(self).redo_seq().last().label_view(),
    {
        match self.redo.pop() {
            None => None,
            Some(cmd) => {
                let mut cmd = cmd;
                let label = cmd.label();
                cmd.apply(ctx);
                let ghost u0 = self.undo@;
                self.undo.push(cmd);
                assert(self.undo@.drop_last() =~= u0);
                assert(labels::<X, C>(self.redo@) =~= labels::<X, C>(old(self).redo@).drop_last());
                assert(labels::<X, C>(self.undo@) =~= labels::<X, C>(u0).push(
                    labels::<X, C>(old(self).redo@).last(),
                ));
                Some(label)
            },
        }
    }

    pub fn can_undo(&self) -> (r: bool)
        ensures
            r == (self.undo_seq().len() > 0),
    {
        self.undo.len() > 0
    }

    pub fn can_redo(&self) -> (r: bool)
        ensures
            r == (self.redo_seq().len() > 0),
    {
        self.redo.len() > 0
    }

    /// Forget the whole history.
    pub fn clear(&mut self)
        requires
            old(self).wf(),
        ensures
            final(self).wf(),
            final(self).limit() == old(self).limit(),
            final(self).undo_seq().len() == 0,
            final(self).redo_seq().len() == 0,
    {
        self.undo.clear();
        self.redo.clear();
    }

    /// Label of the most recent undo entry (for the edit menu).
    pub fn peek_undo<X>(&self) -> (r: Option<String>)
        where C: Command<X>,
        ensures
            r is Some <==> self.undo_seq().len() > 0,
            r matches Some(l) ==> l@ == self.undo_seq().last().label_view(),
    {
        if self.undo.len() == 0 {
            None
        } else {
            Some(self.undo[self.undo.len() - 1].label())
        }
    }

    /// Label of the most recent redo entry (for the edit menu).
    pub fn peek_redo<X>(&self) -> (r: Option<String>)
        where C: Command<X>,
        ensures
            r is Some <==> self.redo_seq().len() > 0,
            r matches Some(l) ==> l@ == self.redo_seq().last().label_view(),
    {
        if self.redo.len() == 0 {
            None
        } else {
            Some(self.redo[self.redo.len() - 1].label())
        }
    }
}

/// Law: undo followed by redo puts both stacks back as they were, except
/// that the command on top of the undo stack is the one that was reverted
/// and re-applied.
pub proof fn law_undo_then_redo<C>(
    u0: Seq<C>,
    r0: Seq<C>,
    u1: Seq<C>,
    r1: Seq<C>,
    u2: Seq<C>,
    r2: Seq<C>,
)
    requires
        undo_step(u0, r0, u1, r1),
        redo_step(u1, r1, u2, r2),
    ensures
        u2.len() == u0.len(),
        u2.drop_last() == u0.drop_last(),
        r2 == r0,
{
}

/// Law: as the history shows it, undo followed by redo puts both lists of
/// labels back exactly as they were.
pub proof fn law_undo_then_redo_labels(
    lu0: Seq<Seq<char>>,
    lr0: Seq<Seq<char>>,
    lu1: Seq<Seq<char>>,
    lr1: Seq<Seq<char>>,
    lu2: Seq<Seq<char>>,
    lr2: Seq<Seq<char>>,
)
    requires
        undo_label_step(lu0, lr0, lu1, lr1),
        redo_label_step(lu1, lr1, lu2, lr2),
    ensures
        lu2 == lu0,
        lr2 == lr0,
{
    assert(lu0.drop_last().push(lu0.last()) =~= lu0);
    assert(lr0.push(lu0.last()).drop_last() =~= lr0);
}

/// Law: as the history shows it, redo followed by undo puts both lists of
/// labels back exactly as they were.
pub proof fn law_redo_then_undo_labels(
    lu0: Seq<Seq<char>>,
    lr0: Seq<Seq<char>>,
    lu1: Seq<Seq<char>>,
    lr1: Seq<Seq<char>>,
    lu2: Seq<Seq<char>>,
    lr2: Seq<Seq<char>>,
)
    requires
        redo_label_step(lu0, lr0, lu1, lr1),
        undo_label_step(lu1, lr1, lu2, lr2),
    ensures
        lu2 == lu0,
        lr2 == lr0,
{
    assert(lr0.drop_last().push(lr0.last()) =~= lr0);
    assert(lu0.push(lr0.last()).drop_last() =~= lu0);
}

/// Law: redo followed by undo puts both stacks back as they were, except
/// that the command on top of the redo stack is the one that was re-applied
/// and reverted.
pub proof fn law_redo_then_undo<C>(
    u0: Seq<C>,
    r0: Seq<C>,
    u1: Seq<C>,
    r1: Seq<C>,
    u2: Seq<C>,
    r2: Seq<C>,
)
    requires
        redo_step(u0, r0, u1, r1),
        undo_step(u1, r1, u2, r2),
    ensures
        r2.len() == r0.len(),
        r2.drop_last() == r0.drop_last(),
        u2 == u0,
{
}

} // verus!
