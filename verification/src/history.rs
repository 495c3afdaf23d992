//! A bounded, reversible command stack.
//!
//! `commands[0 .. current_index)` are the applied commands; the rest of the
//! list is the redo timeline.  The list never grows beyond `max_steps`
//! entries: recording a command while full evicts the oldest entry.

use vstd::prelude::*;

verus! {

/// A reversible unit of document mutation.  `undo` after a successful
/// `execute` is expected to restore the state the command found; that is a
/// contract on implementors, not checked here.
pub trait Command {
    fn execute(&self) -> Result<(), String>;

    fn undo(&self) -> Result<(), String>;
}

#[derive(Debug)]
pub enum HistoryError {
    NoUndoAvailable,
    NoRedoAvailable,
    CommandFailed(String),
}

/// The model of a history failure.
pub enum HistoryErrorView {
    NoUndoAvailable,
    NoRedoAvailable,
    CommandFailed(Seq<char>),
}

impl View for HistoryError {
    type V = HistoryErrorView;

    open spec fn view(&self) -> HistoryErrorView {
        match self {
            HistoryError::NoUndoAvailable => HistoryErrorView::NoUndoAvailable,
            HistoryError::NoRedoAvailable => HistoryErrorView::NoRedoAvailable,
            HistoryError::CommandFailed(s) => HistoryErrorView::CommandFailed(s@),
        }
    }
}

/// The number of history entries kept when no explicit bound is given.
pub const DEFAULT_MAX_STEPS: usize = 100;

pub struct History {
    pub commands: Vec<Box<dyn Command>>,
    pub current_index: usize,
    pub max_steps: usize,
}

/// One recording step of the history: discard the redo timeline, append the
/// new command, and evict the oldest entry if the stack would exceed `max`.
/// Returns the new command list and the new current index.
pub open spec fn record_step<T>(cs: Seq<T>, i: int, max: int, c: T) -> (Seq<T>, int) {
    let appended = cs.take(i).push(c);
    if appended.len() > max {
        (appended.drop_first(), i)
    } else {
        (appended, i + 1)
    }
}

/// `record_step` folded over a whole sequence of commands, oldest first.
pub open spec fn record_all<T>(cs: Seq<T>, i: int, max: int, ds: Seq<T>) -> (Seq<T>, int)
    decreases ds.len(),
{
    if ds.len() == 0 {
        (cs, i)
    } else {
        let stepped = record_step(cs, i, max, ds[0]);
        record_all(stepped.0, stepped.1, max, ds.drop_first())
    }
}

impl History {
    /// Structural invariant: the applied prefix fits in the list, and the
    /// list fits in the bound.
    pub open spec fn wf(&self) -> bool {
        &&& self.current_index <= self.commands@.len()
        &&& self.commands@.len() <= self.max_steps
        &&& self.max_steps >= 1
    }

    pub fn new() -> (h: History)
        ensures
            h.wf(),
            h.commands@.len() == 0,
            h.current_index == 0,
            h.max_steps == DEFAULT_MAX_STEPS,
    {
        History { commands: Vec::new(), current_index: 0, max_steps: DEFAULT_MAX_STEPS }
    }

    pub fn with_max_steps(max_steps: usize) -> (h: History)
        requires
            max_steps >= 1,
        ensures
            h.wf(),
            h.commands@.len() == 0,
            h.current_index == 0,
            h.max_steps == max_steps,
    {
        History { commands: Vec::new(), current_index: 0, max_steps }
    }

    /// Runs the command; on success, records it.  A command that fails to
    /// execute leaves the history exactly as it was.
    pub fn execute(&mut self, command: Box<dyn Command>) -> (r: Result<(), HistoryError>)
        requires
            old(self).wf(),
        ensures
            final(self).wf(),
            final(self).max_steps == old(self).max_steps,
            r is Ok ==> final(self).commands@ == record_step(
                old(self).commands@,
                old(self).current_index as int,
                old(self).max_steps as int,
                command,
            ).0,
            r is Ok ==> final(self).current_index as int == record_step(
                old(self).commands@,
                old(self).current_index as int,
                old(self).max_steps as int,
                command,
            ).1,
            r is Ok ==> final(self).current_index as int == (if old(self).current_index + 1 > old(
                self,
            ).max_steps {
                old(self).current_index as int
            } else {
                old(self).current_index + 1
            }),
            r is Ok ==> final(self).commands@.len() == (if old(self).current_index + 1 > old(
                self,
            ).max_steps {
                old(self).max_steps as int
            } else {
                old(self).current_index + 1
            }),
            r is Err ==> *final(self) == *old(self) && r matches Err(
                HistoryError::CommandFailed(_),
            ),
    {
        match command.execute() {
            Err(message) => Err(HistoryError::CommandFailed(message)),
            Ok(()) => {
                proof {
                    lemma_record_step_facts(
                        old(self).commands@,
                        old(self).current_index as int,
                        old(self).max_steps as int,
                        command,
                    );
                }
                self.commands.truncate(self.current_index);
                self.commands.push(command);
                self.current_index = self.commands.len();
                if self.commands.len() > self.max_steps {
                    self.commands.remove(0);
                    self.current_index = self.current_index - 1;
                }
                Ok(())
            },
        }
    }

    /// Steps the applied prefix back by one and runs that command's `undo`.
    /// Fails with `NoUndoAvailable`, changing nothing, when nothing is
    /// applied.  The index is stepped back even when the command's own
    /// `undo` reports a failure.
    pub fn undo(&mut self) -> (r: Result<(), HistoryError>)
        requires
            old(self).wf(),
        ensures
            final(self).wf(),
            final(self).commands@ == old(self).commands@,
            final(self).max_steps == old(self).max_steps,
            old(self).current_index == 0 ==> *final(self) == *old(self) && r matches Err(
                HistoryError::NoUndoAvailable,
            ),
            old(self).current_index > 0 ==> {
                &&& final(self).current_index == old(self).current_index - 1
                &&& (r is Err ==> r matches Err(HistoryError::CommandFailed(_)))
            },
    {
        if self.current_index == 0 {
            return Err(HistoryError::NoUndoAvailable);
        }
        self.current_index = self.current_index - 1;
        match self.commands[self.current_index].undo() {
            Ok(()) => Ok(()),
            Err(message) => Err(HistoryError::CommandFailed(message)),
        }
    }

    /// Re-runs the first redoable command and, on success, advances the
    /// applied prefix over it.  Fails with `NoRedoAvailable`, changing
    /// nothing, when every recorded command is applied.
    pub fn redo(&mut self) -> (r: Result<(), HistoryError>)
        requires
            old(self).wf(),
        ensures
            final(self).wf(),
            final(self).commands@ == old(self).commands@,
            final(self).max_steps == old(self).max_steps,
            old(self).current_index == old(self).commands@.len() ==> *final(self) == *old(self)
                && r matches Err(HistoryError::NoRedoAvailable),
            old(self).current_index < old(self).commands@.len() ==> {
                &&& r is Ok ==> final(self).current_index == old(self).current_index + 1
                &&& r is Err ==> *final(self) == *old(self) && r matches Err(
                    HistoryError::CommandFailed(_),
                )
            },
    {
        if self.current_index >= self.commands.len() {
            return Err(HistoryError::NoRedoAvailable);
        }
        match self.commands[self.current_index].execute() {
            Ok(()) => {
                self.current_index = self.current_index + 1;
                Ok(())
            },
            Err(message) => Err(HistoryError::CommandFailed(message)),
        }
    }

    pub fn can_undo(&self) -> (r: bool)
        ensures
            r == (self.current_index > 0),
    {
        self.current_index > 0
    }

    pub fn can_redo(&self) -> (r: bool)
        ensures
            r == (self.current_index < self.commands@.len()),
    {
        self.current_index < self.commands.len()
    }
}

/// Shape of one `record_step`: how the step relates to the truncate, push
/// and front-eviction operations that implement it, with the length facts
/// the structural invariant needs.
proof fn lemma_record_step_facts<T>(cs: Seq<T>, i: int, max: int, c: T)
    requires
        0 <= i <= cs.len(),
        cs.len() <= max,
        1 <= max,
    ensures
        ({
            let appended = cs.take(i).push(c);
            let stepped = record_step(cs, i, max, c);
            &&& appended.len() == i + 1
            &&& (i + 1 > max ==> stepped == (appended.remove(0), i))
            &&& (i + 1 <= max ==> stepped == (appended, i + 1))
            &&& stepped.0.len() == if i + 1 > max { i } else { i + 1 }
            &&& 0 <= stepped.1 <= stepped.0.len() <= max
        }),
{
    let appended = cs.take(i).push(c);
    if i + 1 > max {
        assert(appended.remove(0) =~= appended.drop_first());
    }
}

/// Recording a batch of commands from a state with no redo timeline and
/// enough room appends them in order and advances the index over them.
pub proof fn lemma_record_all_appends<T>(cs: Seq<T>, i: int, max: int, ds: Seq<T>)
    requires
        0 <= i,
        i == cs.len(),
        cs.len() + ds.len() <= max,
    ensures
        record_all(cs, i, max, ds) == (cs + ds, i + ds.len()),
    decreases ds.len(),
{
    if ds.len() == 0 {
        assert(cs + ds =~= cs);
    } else {
        let stepped = record_step(cs, i, max, ds[0]);
        assert(cs.take(i) =~= cs);
        assert(stepped.0 =~= cs.push(ds[0]));
        lemma_record_all_appends(cs.push(ds[0]), i + 1, max, ds.drop_first());
        assert(cs.push(ds[0]) + ds.drop_first() =~= cs + ds);
    }
}

/// `record_all` peels one command off the end of the batch.
pub proof fn lemma_record_all_snoc<T>(cs: Seq<T>, i: int, max: int, ds: Seq<T>, d: T)
    ensures
        record_all(cs, i, max, ds.push(d)) == {
            let folded = record_all(cs, i, max, ds);
            record_step(folded.0, folded.1, max, d)
        },
    decreases ds.len(),
{
    if ds.len() == 0 {
        assert(ds.push(d).drop_first() =~= ds);
        assert(ds.push(d)[0] == d);
        let stepped = record_step(cs, i, max, d);
        assert(record_all(stepped.0, stepped.1, max, ds) == (stepped.0, stepped.1));
        assert(record_all(cs, i, max, ds.push(d)) == stepped);
        assert(record_all(cs, i, max, ds) == (cs, i));
    } else {
        let stepped = record_step(cs, i, max, ds[0]);
        assert(ds.push(d)[0] == ds[0]);
        assert(ds.push(d).drop_first() =~= ds.drop_first().push(d));
        assert(record_all(cs, i, max, ds.push(d)) == record_all(
            stepped.0,
            stepped.1,
            max,
            ds.drop_first().push(d),
        ));
        assert(record_all(cs, i, max, ds) == record_all(stepped.0, stepped.1, max, ds.drop_first()));
        lemma_record_all_snoc(stepped.0, stepped.1, max, ds.drop_first(), d);
    }
}

/// Undoing n times after recording n commands restores the applied prefix:
/// the index returns to where it started, and the k-th undo steps over
/// exactly the (n - k)-th recorded command — the batch is unwound in
/// reverse order.  Holds for a history that had no redo timeline and room
/// for the whole batch.
pub proof fn lemma_undo_reverses_record<T>(cs: Seq<T>, i: int, max: int, ds: Seq<T>, k: int)
    requires
        0 <= i,
        i == cs.len(),
        cs.len() + ds.len() <= max,
        0 <= k < ds.len(),
    ensures
        ({
            // The state after recording the batch, then undoing k times:
            // commands are unchanged by undo, and the index has moved back
            // k places.  The command the next undo steps over is the
            // (ds.len() - 1 - k)-th of the batch.
            let folded = record_all(cs, i, max, ds);
            let index_after_undos = folded.1 - k;
            &&& folded.0 == cs + ds
            &&& folded.1 == i + ds.len()
            &&& folded.0[index_after_undos - 1] == ds[ds.len() - 1 - k]
            &&& folded.0.take(i) == cs
        }),
{
    lemma_record_all_appends(cs, i, max, ds);
    assert((cs + ds)[i + ds.len() - k - 1] == ds[ds.len() - 1 - k]);
    assert((cs + ds).take(i) =~= cs);
}

/// Redo replays what undo stepped over, in the original order: after k
/// undos from a fully-applied history, the j-th of the next k redos
/// re-executes exactly the command recorded at position index - k + j.
pub proof fn lemma_redo_replays<T>(cs: Seq<T>, i: int, max: int, ds: Seq<T>, k: int, j: int)
    requires
        0 <= i,
        i == cs.len(),
        cs.len() + ds.len() <= max,
        0 <= j < k <= ds.len(),
    ensures
        ({
            let folded = record_all(cs, i, max, ds);
            // After k undos the index is folded.1 - k; the j-th redo
            // executes the command at index (folded.1 - k) + j, which is
            // the one the (k - j)-th-from-last undo stepped over.
            folded.0[folded.1 - k + j] == ds[ds.len() - k + j]
        }),
{
    lemma_record_all_appends(cs, i, max, ds);
    assert((cs + ds)[i + ds.len() - k + j] == ds[ds.len() - k + j]);
}

/// Recording max_steps + 1 commands into an empty history keeps exactly
/// max_steps entries — the oldest is evicted — and leaves the index at
/// max_steps, one less than unbounded growth would have left it.
pub proof fn lemma_bounded_eviction<T>(max: int, ds: Seq<T>)
    requires
        max >= 1,
        ds.len() == max + 1,
    ensures
        ({
            let folded = record_all(Seq::<T>::empty(), 0, max, ds);
            &&& folded.0 == ds.drop_first()
            &&& folded.0.len() == max
            &&& folded.1 == max
        }),
{
    let empty = Seq::<T>::empty();
    let front = ds.take(max);
    let last = ds.last();
    assert(ds =~= front.push(last));
    lemma_record_all_snoc(empty, 0, max, front, last);
    lemma_record_all_appends(empty, 0, max, front);
    assert(empty + front =~= front);
    let folded = record_all(empty, 0, max, ds);
    assert(front.take(max) =~= front);
    assert(folded.0 =~= front.push(last).drop_first());
    assert(front.push(last).drop_first() =~= ds.drop_first());
}

} // verus!
