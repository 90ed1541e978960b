//! Lazy, forkable readers.
//!
//! A reader yields a stream of values and ends with a return value. The
//! analyzer explores branch points by forking a reader: each fork replays the
//! values from the point where it was forked.
use vstd::prelude::*;

verus! {

/// One step of a reader: a yielded value or the final return.
pub enum Step<T, R> {
    /// A yielded value.
    Value(T),
    /// The reader finished with this return value.
    Done(R),
}

/// A reader that yields nothing and returns its value once.
pub struct EmptyReader<R> {
    /// The value to return, until it has been returned.
    pub value: Option<R>,
}

impl<R> EmptyReader<R> {
    /// Finishes with the stored value.
    pub fn next<T>(&mut self) -> (res: Step<T, R>)
        requires
            old(self).value is Some,
        ensures
            res == Step::<T, R>::Done(old(self).value.unwrap()),
            final(self).value is None,
    {
        Step::Done(self.value.take().unwrap())
    }
}

/// Builds a reader that yields nothing and returns `R::default()`.
pub fn empty_reader<R: Default>() -> (res: EmptyReader<R>)
    ensures
        res.value is Some,
{
    EmptyReader { value: Some(R::default()) }
}

/// A reader that yields each item of a vector in order, then its return
/// value once.
pub struct ArrayReader<T, R> {
    /// The items still to yield, last first.
    pub pending: Vec<T>,
    /// The value to return, until it has been returned.
    pub value: Option<R>,
}

impl<T, R> ArrayReader<T, R> {
    /// The items still to yield, in order.
    pub open spec fn remaining(&self) -> Seq<T> {
        self.pending@.reverse()
    }

    /// Yields the next item, or finishes with the stored value.
    pub fn next(&mut self) -> (res: Step<T, R>)
        requires
            old(self).remaining().len() > 0 || old(self).value is Some,
        ensures
            old(self).remaining().len() > 0 ==> {
                &&& res == Step::<T, R>::Value(old(self).remaining()[0])
                &&& final(self).remaining() == old(self).remaining().drop_first()
                &&& final(self).value == old(self).value
            },
            old(self).remaining().len() == 0 ==> {
                &&& res == Step::<T, R>::Done(old(self).value.unwrap())
                &&& final(self).remaining().len() == 0
                &&& final(self).value is None
            },
    {
        match self.pending.pop() {
            Some(item) => {
                proof {
                    assert(self.remaining() =~= old(self).remaining().drop_first());
                }
                Step::Value(item)
            },
            None => Step::Done(self.value.take().unwrap()),
        }
    }
}

/// Builds a reader over `items` that finishes with `R::default()`.
pub fn build_array_reader<T, R: Default>(items: Vec<T>) -> (res: ArrayReader<T, R>)
    ensures
        res.remaining() == items@,
        res.value is Some,
{
    let mut items = items;
    let ghost all = items@;
    let mut pending: Vec<T> = Vec::new();
    while items.len() > 0
        invariant
            items@ + pending@.reverse() == all,
        decreases items.len(),
    {
        let ghost before_items = items@;
        let ghost before_pending = pending@;
        let item = items.pop().unwrap();
        pending.push(item);
        proof {
            assert(pending@.reverse() =~= seq![item] + before_pending.reverse());
            assert(before_items =~= items@.push(item));
            assert(items@ + pending@.reverse() =~= before_items + before_pending.reverse());
        }
    }
    proof {
        assert(items@ + pending@.reverse() =~= pending@.reverse());
    }
    ArrayReader { pending, value: Some(R::default()) }
}

/// A reader that runs a list of readers back to back and returns `()`.
pub struct ChainReader<T> {
    /// The readers still to run, last first; the current one is at the end.
    pub readers: Vec<ArrayReader<T, ()>>,
}

/// All items of a list of array readers, in order.
pub open spec fn chain_items<T>(readers: Seq<ArrayReader<T, ()>>) -> Seq<T>
    decreases readers.len(),
{
    if readers.len() == 0 {
        Seq::<T>::empty()
    } else {
        readers[0].remaining() + chain_items(readers.drop_first())
    }
}

impl<T> ChainReader<T> {
    /// Every reader still to run can finish.
    pub open spec fn wf(&self) -> bool {
        forall|i: int| 0 <= i < self.readers@.len() ==> (#[trigger] self.readers@[i]).value is Some
    }

    /// The items still to yield, in order.
    pub open spec fn remaining(&self) -> Seq<T> {
        chain_items(self.readers@.reverse())
    }

    /// Yields the next item of the chain, or finishes.
    pub fn next(&mut self) -> (res: Step<T, ()>)
        requires
            old(self).wf(),
        ensures
            final(self).wf(),
            old(self).remaining().len() > 0 ==> {
                &&& res == Step::<T, ()>::Value(old(self).remaining()[0])
                &&& final(self).remaining() == old(self).remaining().drop_first()
            },
            old(self).remaining().len() == 0 ==> res == Step::<T, ()>::Done(()) && final(self).remaining().len() == 0,
        decreases old(self).readers@.len(),
    {
        loop
            invariant
                self.wf(),
                self.remaining() == old(self).remaining(),
            decreases self.readers@.len(),
        {
            let n = self.readers.len();
            if n == 0 {
                return Step::Done(());
            }
            let ghost before = self.readers@;
            proof {
                assert(before.reverse()[0] == before[n - 1]);
                assert(before.reverse().drop_first() =~= before.drop_last().reverse());
            }
            if self.readers[n - 1].pending.len() > 0 {
                let mut current = self.readers.pop().unwrap();
                let step = current.next();
                self.readers.push(current);
                proof {
                    assert(self.readers@.drop_last() =~= before.drop_last());
                    assert(self.readers@.reverse()[0] == current);
                    assert(self.readers@.reverse().drop_first() =~= before.reverse().drop_first());
                    assert(self.remaining() =~= old(self).remaining().drop_first());
                    assert forall|i: int| 0 <= i < self.readers@.len() implies (#[trigger] self.readers@[i]).value is Some by {
                        if i < n - 1 {
                            assert(self.readers@[i] == before[i]);
                        }
                    }
                }
                return step;
            }
            let finished = self.readers.pop();
            proof {
                assert(self.readers@ =~= before.drop_last());
                assert(before[n - 1].remaining().len() == 0);
                assert(self.remaining() =~= before.reverse()[0].remaining() + self.remaining());
            }
        }
    }
}

/// Builds a reader that concatenates `readers`.
pub fn chain_readers<T>(readers: Vec<ArrayReader<T, ()>>) -> (res: ChainReader<T>)
    requires
        forall|i: int| 0 <= i < readers@.len() ==> (#[trigger] readers@[i]).value is Some,
    ensures
        res.wf(),
        res.remaining() == chain_items(readers@),
{
    let mut readers = readers;
    let ghost all = readers@;
    let mut stack: Vec<ArrayReader<T, ()>> = Vec::new();
    while readers.len() > 0
        invariant
            readers@ + stack@.reverse() == all,
            forall|i: int| 0 <= i < all.len() ==> (#[trigger] all[i]).value is Some,
        decreases readers.len(),
    {
        let ghost before_readers = readers@;
        let ghost before_stack = stack@;
        let r = readers.pop().unwrap();
        stack.push(r);
        proof {
            assert(stack@.reverse() =~= seq![r] + before_stack.reverse());
            assert(before_readers =~= readers@.push(r));
            assert(readers@ + stack@.reverse() =~= before_readers + before_stack.reverse());
        }
    }
    proof {
        assert(readers@ + stack@.reverse() =~= stack@.reverse());
        assert(stack@.reverse().reverse() =~= stack@);
        assert forall|i: int| 0 <= i < stack@.len() implies (#[trigger] stack@[i]).value is Some by {
            assert(stack@[i] == all[stack@.len() - 1 - i]);
        }
    }
    ChainReader { readers: stack }
}

/// What the forks of one reader have read so far, shared between them.
///
/// Each fork reads at its own position: from the log while the log holds a
/// value there, the return value once the source has ended, and otherwise
/// from the source, recording what it read for the other forks.
pub struct ForkLog<T, R> {
    /// The values read from the source, in order.
    pub values: Vec<T>,
    /// What the source returned, once it has ended.
    pub done: Option<R>,
}

/// Where a fork's next read comes from.
#[derive(Clone, Copy, Debug, PartialEq, Eq, Structural)]
pub enum LogRead {
    /// The value the log holds at the fork's position.
    Value,
    /// The return value the log holds.
    Done,
    /// The source, which the log has not read this far.
    Pull,
}

impl<T, R> ForkLog<T, R> {
    /// A log of a source nothing was read from yet.
    pub fn new() -> (res: Self)
        ensures
            res.values@.len() == 0,
            res.done is None,
    {
        ForkLog { values: Vec::new(), done: None }
    }

    /// Where a fork at `cursor` reads next: the log's value there, the
    /// return value once the source has ended, or else the source.
    pub fn read_at(&self, cursor: usize) -> (res: LogRead)
        ensures
            res == if cursor < self.values@.len() {
                LogRead::Value
            } else if self.done is Some {
                LogRead::Done
            } else {
                LogRead::Pull
            },
    {
        if cursor < self.values.len() {
            LogRead::Value
        } else if self.done.is_some() {
            LogRead::Done
        } else {
            LogRead::Pull
        }
    }

    /// Records what the source gave next: a value is appended, a return
    /// value ends the log.
    pub fn record(&mut self, step: Step<T, R>)
        requires
            old(self).done is None,
        ensures
            step matches Step::Value(v) ==> final(self).values@ == old(self).values@.push(v) && final(self).done is None,
            step matches Step::Done(r) ==> final(self).values@ == old(self).values@ && final(self).done == Some(r),
    {
        match step {
            Step::Value(v) => self.values.push(v),
            Step::Done(r) => self.done = Some(r),
        }
    }
}

} // verus!
