//! What receivers read, over runs of several calls on one channel.
//!
//! A run is a sequence of channel states, each step related to the next by
//! the contract of the call that made it.

use vstd::prelude::*;

use crate::channel::BroadcastChannel;

verus! {

/// Each step of `states` appends one value of `vs`, in order.
pub open spec fn sends_run<T: Clone>(states: Seq<BroadcastChannel<T>>, vs: Seq<T>) -> bool {
    &&& states.len() == vs.len() + 1
    &&& forall|i: int|
        0 <= i < vs.len() ==> #[trigger] BroadcastChannel::appended(
            states[i],
            states[i + 1],
            seq![vs[i]],
        )
}

/// Each step of `states` is an advance of the receiver in slot `r`, which
/// got `outs[i]`.
pub open spec fn reads_run<T: Clone>(
    states: Seq<BroadcastChannel<T>>,
    r: int,
    outs: Seq<Option<T>>,
) -> bool {
    &&& states.len() == outs.len() + 1
    &&& forall|i: int|
        0 <= i < outs.len() ==> #[trigger] BroadcastChannel::advanced(
            states[i],
            states[i + 1],
            r,
            outs[i],
        )
}

/// Each step of `states` is an advance of the receiver in slot
/// `readers[i]`, none of them the receiver in slot `r`.
pub open spec fn others_read<T: Clone>(
    states: Seq<BroadcastChannel<T>>,
    readers: Seq<int>,
    outs: Seq<Option<T>>,
    r: int,
) -> bool {
    &&& states.len() == outs.len() + 1
    &&& readers.len() == outs.len()
    &&& forall|i: int| 0 <= i < readers.len() ==> #[trigger] readers[i] != r
    &&& forall|i: int|
        0 <= i < outs.len() ==> #[trigger] BroadcastChannel::advanced(
            states[i],
            states[i + 1],
            readers[i],
            outs[i],
        )
}

/// `outs` is what reading `p` front to back yields: a clone of each value
/// in order, then nothing.
pub open spec fn yields<T: Clone>(p: Seq<T>, outs: Seq<Option<T>>) -> bool {
    forall|i: int|
        0 <= i < outs.len() ==> if i < p.len() {
            #[trigger] outs[i] is Some && cloned(p[i], outs[i]->0)
        } else {
            outs[i] is None
        }
}

/// Every receiver present before a run of sends keeps its place and has
/// the values sent appended, in the order sent, to what it had to read.
pub proof fn lemma_sends_append<T: Clone>(states: Seq<BroadcastChannel<T>>, vs: Seq<T>, r: int)
    requires
        sends_run(states, vs),
        states[0].is_reader(r),
    ensures
        states.last().is_reader(r),
        states.last().pending(r) == states[0].pending(r) + vs,
    decreases vs.len(),
{
    if vs.len() == 0 {
        assert(states[0].pending(r) + vs =~= states[0].pending(r));
    } else {
        let n = vs.len() - 1;
        let init = states.drop_last();
        let vinit = vs.drop_last();
        assert forall|i: int| 0 <= i < vinit.len() implies #[trigger] BroadcastChannel::appended(
            init[i],
            init[i + 1],
            seq![vinit[i]],
        ) by {
            assert(BroadcastChannel::appended(states[i], states[i + 1], seq![vs[i]]));
        }
        lemma_sends_append(init, vinit, r);
        assert(BroadcastChannel::appended(states[n], states[n + 1], seq![vs[n]]));
        assert(init.last() == states[n]);
        assert(states[0].pending(r) + vs =~= (states[0].pending(r) + vinit) + seq![vs[n]]);
    }
}

/// A receiver reading on its own gets a clone of each value it had to
/// read, in order, then nothing; it keeps its place throughout.
pub proof fn lemma_reads_in_order<T: Clone>(
    states: Seq<BroadcastChannel<T>>,
    r: int,
    outs: Seq<Option<T>>,
)
    requires
        reads_run(states, r, outs),
        states[0].is_reader(r),
    ensures
        yields(states[0].pending(r), outs),
        states.last().is_reader(r),
        states.last().pending(r) == states[0].pending(r).skip(
            if outs.len() < states[0].pending(r).len() {
                outs.len() as int
            } else {
                states[0].pending(r).len() as int
            },
        ),
    decreases outs.len(),
{
    let p = states[0].pending(r);
    if outs.len() == 0 {
        assert(p.skip(0) =~= p);
    } else {
        let n = outs.len() - 1;
        let init = states.drop_last();
        let oinit = outs.drop_last();
        assert forall|i: int| 0 <= i < oinit.len() implies #[trigger] BroadcastChannel::advanced(
            init[i],
            init[i + 1],
            r,
            oinit[i],
        ) by {
            assert(BroadcastChannel::advanced(states[i], states[i + 1], r, outs[i]));
        }
        lemma_reads_in_order(init, r, oinit);
        assert(init.last() == states[n]);
        assert(BroadcastChannel::advanced(states[n], states[n + 1], r, outs[n]));
        if n < p.len() {
            assert(p.skip(n).drop_first() =~= p.skip(n + 1));
            assert(p.skip(n)[0] == p[n]);
        }
        assert forall|i: int| 0 <= i < outs.len() implies if i < p.len() {
            #[trigger] outs[i] is Some && cloned(p[i], outs[i]->0)
        } else {
            outs[i] is None
        } by {
            if i < n {
                assert(outs[i] == oinit[i]);
            }
        }
    }
}

/// A receiver present before a run of sends, with nothing left to read,
/// reads exactly the values sent, in the order sent, then nothing.
pub proof fn lemma_reads_follow_sends<T: Clone>(
    sends: Seq<BroadcastChannel<T>>,
    vs: Seq<T>,
    reads: Seq<BroadcastChannel<T>>,
    r: int,
    outs: Seq<Option<T>>,
)
    requires
        sends_run(sends, vs),
        sends[0].is_reader(r),
        sends[0].pending(r).len() == 0,
        reads_run(reads, r, outs),
        reads[0] == sends.last(),
    ensures
        yields(vs, outs),
{
    lemma_sends_append(sends, vs, r);
    assert(sends[0].pending(r) + vs =~= vs);
    lemma_reads_in_order(reads, r, outs);
}

/// A receiver cloned into `attach[1]` reads only what is sent after the
/// clone, and from then on reads the same values, in the same order, as
/// any receiver present before.
pub proof fn lemma_clone_isolation<T: Clone>(
    attach: Seq<BroadcastChannel<T>>,
    slot: Option<usize>,
    sends: Seq<BroadcastChannel<T>>,
    vs: Seq<T>,
    r: int,
)
    requires
        attach.len() == 2,
        BroadcastChannel::attached(attach[0], attach[1], slot),
        slot is Some,
        attach[0].is_reader(r),
        sends_run(sends, vs),
        sends[0] == attach[1],
    ensures
        sends.last().is_reader(slot->0 as int),
        sends.last().pending(slot->0 as int) == vs,
        sends.last().pending(r) == attach[0].pending(r) + vs,
{
    let c = slot->0 as int;
    assert(attach[1].is_reader(c));
    assert(attach[1].is_reader(r));
    lemma_sends_append(sends, vs, c);
    lemma_sends_append(sends, vs, r);
    assert(Seq::<T>::empty() + vs =~= vs);
}

/// Reads by other receivers take nothing from a receiver: it keeps its
/// place and what it has to read.
pub proof fn lemma_no_stealing<T: Clone>(
    states: Seq<BroadcastChannel<T>>,
    readers: Seq<int>,
    outs: Seq<Option<T>>,
    r: int,
)
    requires
        others_read(states, readers, outs, r),
        states[0].is_reader(r),
    ensures
        states.last().is_reader(r),
        states.last().pending(r) == states[0].pending(r),
    decreases outs.len(),
{
    if outs.len() > 0 {
        let n = outs.len() - 1;
        let init = states.drop_last();
        assert forall|i: int| 0 <= i < n implies #[trigger] BroadcastChannel::advanced(
            init[i],
            init[i + 1],
            readers.drop_last()[i],
            outs.drop_last()[i],
        ) by {
            assert(BroadcastChannel::advanced(states[i], states[i + 1], readers[i], outs[i]));
        }
        assert forall|i: int| 0 <= i < n implies #[trigger] readers.drop_last()[i] != r by {
            assert(readers[i] != r);
        }
        lemma_no_stealing(init, readers.drop_last(), outs.drop_last(), r);
        assert(init.last() == states[n]);
        assert(readers[n] != r);
        assert(BroadcastChannel::advanced(states[n], states[n + 1], readers[n], outs[n]));
    }
}

/// Sends land in one order, whichever sender made them, and every receiver
/// present before them, with nothing left to read, has exactly those
/// values to read in that same order.
pub proof fn lemma_one_order_for_all<T: Clone>(
    states: Seq<BroadcastChannel<T>>,
    vs: Seq<T>,
    r1: int,
    r2: int,
)
    requires
        sends_run(states, vs),
        states[0].is_reader(r1),
        states[0].is_reader(r2),
        states[0].pending(r1).len() == 0,
        states[0].pending(r2).len() == 0,
    ensures
        states.last().pending(r1) == vs,
        states.last().pending(r2) == vs,
{
    lemma_sends_append(states, vs, r1);
    lemma_sends_append(states, vs, r2);
    assert(states[0].pending(r1) + vs =~= vs);
    assert(states[0].pending(r2) + vs =~= vs);
}

} // verus!
