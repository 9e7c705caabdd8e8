//! The channel engine: an arena of nodes from the oldest one still reachable
//! (the tail, index 0) to the newest one (the head, the last index), and one
//! cursor per receiver slot.

use vstd::prelude::*;

use crate::counting::{
    at_or_before, lemma_agree, lemma_bounded, lemma_counted, lemma_monotone, lemma_push,
    lemma_shifted, lemma_some_reader, lemma_update, live_readers, readers_upto, shifted,
};

verus! {

/// The payload of a node; the sentinel holds none.
pub open spec fn payload<T>(o: Option<T>) -> T {
    match o {
        Some(v) => v,
        None => arbitrary(),
    }
}

/// Shared state of a broadcast channel.
///
/// `values[i]` and `readers[i]` describe node `i`: its payload (absent only
/// for the sentinel) and the number of cursors positioned at or before it.
/// `cursors[r]` is the node at which the receiver in slot `r` stands, or
/// `None` once that receiver has gone.
pub struct BroadcastChannel<T> {
    values: Vec<Option<T>>,
    readers: Vec<usize>,
    cursors: Vec<Option<usize>>,
    reader_total: usize,
}

impl<T: Clone> BroadcastChannel<T> {
    /// Everything but the rule that a reclaimable tail has been reclaimed.
    pub closed spec fn wf_links(&self) -> bool {
        &&& self.values@.len() >= 1
        &&& self.readers@.len() == self.values@.len()
        &&& forall|i: int| 0 < i < self.values@.len() ==> (#[trigger] self.values@[i]) is Some
        &&& forall|r: int|
            0 <= r < self.cursors@.len() ==> (#[trigger] self.cursors@[r] matches Some(p) ==> p
                < self.values@.len())
        &&& forall|i: int|
            0 <= i < self.readers@.len() ==> #[trigger] self.readers@[i] == readers_upto(
                self.cursors@,
                i,
            )
        &&& self.reader_total == live_readers(self.cursors@)
    }

    /// The channel is well formed: the reader counts match the cursors, and
    /// no node that every reader has passed is still held (the head stays).
    pub closed spec fn wf(&self) -> bool {
        &&& self.wf_links()
        &&& self.values@.len() > 1 ==> self.readers@[0] > 0
    }

    /// Number of receiver slots ever handed out.
    pub closed spec fn slots(&self) -> nat {
        self.cursors@.len()
    }

    /// Slot `r` holds a live receiver.
    pub closed spec fn is_reader(&self, r: int) -> bool {
        0 <= r < self.cursors@.len() && self.cursors@[r] is Some
    }

    /// Number of live receivers.
    pub closed spec fn reader_count(&self) -> nat {
        self.reader_total as nat
    }

    /// Node at which the receiver in slot `r` stands.
    pub closed spec fn position(&self, r: int) -> int {
        payload(self.cursors@[r]) as int
    }

    /// Number of nodes the channel holds, the head included.
    pub closed spec fn nodes(&self) -> nat {
        self.values@.len()
    }

    /// Some receiver stands on the oldest node held unless that node is the
    /// head, so every node held but the head can still be read: a node that
    /// no receiver can reach any more has been freed. Every receiver stands
    /// on a node held.
    pub proof fn lemma_held_nodes_reachable(&self)
        requires
            self.wf(),
        ensures
            self.nodes() > 1 ==> exists|r: int| #[trigger]
                self.is_reader(r) && self.position(r) == 0,
            forall|r: int| #[trigger] self.is_reader(r) ==> 0 <= self.position(r) < self.nodes(),
    {
        if self.nodes() > 1 {
            lemma_some_reader(self.cursors@, 0);
            let k = choose|k: int| 0 <= k < self.cursors@.len() && at_or_before(self.cursors@[k], 0) == 1;
            assert(self.is_reader(k) && self.position(k) == 0);
        }
        assert forall|r: int| #[trigger] self.is_reader(r) implies 0 <= self.position(r) < self.nodes() by {
            assert(self.cursors@[r] is Some);
        }
    }

    /// Values that the receiver in slot `r` has still to read, oldest first.
    pub closed spec fn pending(&self, r: int) -> Seq<T> {
        self.values@.subrange(self.position(r) + 1, self.values@.len() as int).map_values(
            |o: Option<T>| payload(o),
        )
    }

    /// `after` is `before` with `vs` appended for every reader; the set of
    /// readers stays.
    pub open spec fn appended(before: Self, after: Self, vs: Seq<T>) -> bool {
        &&& after.wf()
        &&& after.slots() == before.slots()
        &&& after.reader_count() == before.reader_count()
        &&& forall|r: int| #[trigger] after.is_reader(r) == before.is_reader(r)
        &&& forall|r: int| #[trigger]
            before.is_reader(r) ==> after.pending(r) == before.pending(r) + vs
    }

    /// Creates a channel holding the sentinel node, with one receiver,
    /// in slot 0, standing on it.
    pub fn new() -> (c: Self)
        ensures
            c.wf(),
            c.slots() == 1,
            c.reader_count() == 1,
            c.is_reader(0),
            c.pending(0) == Seq::<T>::empty(),
            c.nodes() == 1,
    {
        let mut values: Vec<Option<T>> = Vec::new();
        values.push(None);
        let mut readers: Vec<usize> = Vec::new();
        readers.push(1);
        let mut cursors: Vec<Option<usize>> = Vec::new();
        cursors.push(Some(0));
        let c = BroadcastChannel { values, readers, cursors, reader_total: 1 };
        proof {
            let empty = Seq::<Option<usize>>::empty();
            assert(c.cursors@ =~= empty.push(Some(0usize)));
            lemma_push(empty, Some(0usize), 0);
            lemma_push(empty, Some(0usize), usize::MAX as int);
            assert(c.pending(0) =~= Seq::<T>::empty());
        }
        c
    }

    /// Appends one node holding `value` after the head; its reader count is
    /// the number of live receivers.
    pub fn send(&mut self, value: T)
        requires
            old(self).wf(),
        ensures
            Self::appended(*old(self), *final(self), seq![value]),
    {
        let ghost before = *self;
        let n = self.values.len();
        proof {
            assert forall|k: int| 0 <= k < self.cursors@.len() implies at_or_before(
                #[trigger] self.cursors@[k],
                n as int,
            ) == at_or_before(self.cursors@[k], usize::MAX as int) by {}
            lemma_agree(self.cursors@, n as int, usize::MAX as int);
        }
        self.values.push(Some(value));
        self.readers.push(self.reader_total);
        let ghost pushed = *self;
        proof {
            assert forall|i: int| 0 <= i < self.readers@.len() implies #[trigger] self.readers@[i]
                == readers_upto(self.cursors@, i) by {
                if i < n {
                    assert(self.readers@[i] == before.readers@[i]);
                }
            }
            assert forall|r: int| #[trigger] before.is_reader(r) implies pushed.pending(r)
                == before.pending(r) + seq![value] by {
                assert(pushed.pending(r) =~= before.pending(r) + seq![value]);
            }
        }
        self.reclaim();
        proof {
            assert forall|r: int| #[trigger] before.is_reader(r) implies self.pending(r)
                == before.pending(r) + seq![value] by {
                assert(pushed.is_reader(r));
            }
        }
    }
}

impl<T: Clone> BroadcastChannel<T> {
    /// `after` is `before` after the receiver in slot `r` tried to advance
    /// and got `out`: the next value it had to read, now behind it, or
    /// nothing, with the channel unchanged, when it had caught up.
    pub open spec fn advanced(before: Self, after: Self, r: int, out: Option<T>) -> bool {
        &&& after.wf()
        &&& if before.is_reader(r) && before.pending(r).len() > 0 {
            &&& out is Some
            &&& cloned(before.pending(r)[0], out->0)
            &&& after.pending(r) == before.pending(r).drop_first()
            &&& after.nodes() <= before.nodes() <= after.nodes() + 1
            &&& after.slots() == before.slots()
            &&& after.reader_count() == before.reader_count()
            &&& forall|s: int| #[trigger] after.is_reader(s) == before.is_reader(s)
            &&& forall|s: int|
                s != r && #[trigger] before.is_reader(s) ==> after.pending(s) == before.pending(s)
        } else {
            &&& out is None
            &&& after == before
        }
    }

    /// `after` is `before` with one receiver more, standing on the head, so
    /// that it has nothing to read yet. Its slot `out` is the lowest one
    /// whose receiver has gone, or else a new one; `None` and no change when
    /// every slot is taken and no new one can be made.
    pub open spec fn attached(before: Self, after: Self, out: Option<usize>) -> bool {
        &&& after.wf()
        &&& if before.slots() < usize::MAX || exists|s: int|
            0 <= s < before.slots() && !#[trigger] before.is_reader(s) {
            &&& out is Some
            &&& out->0 <= before.slots()
            &&& !before.is_reader(out->0 as int)
            &&& forall|s: int| 0 <= s < out->0 ==> #[trigger] before.is_reader(s)
            &&& after.slots() == if out->0 < before.slots() {
                before.slots()
            } else {
                before.slots() + 1
            }
            &&& after.reader_count() == before.reader_count() + 1
            &&& forall|s: int| #[trigger]
                after.is_reader(s) == (before.is_reader(s) || s == out->0)
            &&& after.pending(out->0 as int) == Seq::<T>::empty()
            &&& forall|s: int| #[trigger]
                before.is_reader(s) ==> after.pending(s) == before.pending(s)
        } else {
            &&& out is None
            &&& after == before
        }
    }

    /// `after` is `before` without the receiver in slot `r`; no change when
    /// that slot holds no receiver.
    pub open spec fn detached(before: Self, after: Self, r: int) -> bool {
        &&& after.wf()
        &&& if before.is_reader(r) {
            &&& after.slots() == before.slots()
            &&& after.reader_count() + 1 == before.reader_count()
            &&& forall|s: int| #[trigger] after.is_reader(s) == (before.is_reader(s) && s != r)
            &&& forall|s: int|
                s != r && #[trigger] before.is_reader(s) ==> after.pending(s) == before.pending(s)
        } else {
            after == before
        }
    }

    /// Moves the receiver in slot `r` to the next node and returns a clone of
    /// the value there; releases the node it left, which is freed once no
    /// receiver stands at or before it. Returns `None` when the receiver has
    /// read everything sent so far, or `r` is no receiver.
    pub fn advance(&mut self, r: usize) -> (out: Option<T>)
        requires
            old(self).wf(),
        ensures
            Self::advanced(*old(self), *final(self), r as int, out),
    {
        let ghost before = *self;
        if r >= self.cursors.len() {
            return None;
        }
        let p = match self.cursors[r] {
            Some(p) => p,
            None => {
                return None;
            },
        };
        proof {
            assert(before.cursors@[r as int] == Some(p));
        }
        if p >= self.values.len() - 1 {
            proof {
                assert(before.pending(r as int) =~= Seq::<T>::empty());
            }
            return None;
        }
        let out = match &self.values[p + 1] {
            Some(v) => Some(v.clone()),
            None => None,
        };
        proof {
            lemma_counted(before.cursors@, r as int, p as int);
        }
        self.cursors.set(r, Some(p + 1));
        let c = self.readers[p];
        self.readers.set(p, c - 1);
        proof {
            let cs = before.cursors@;
            assert forall|i: int| 0 <= i < self.readers@.len() implies #[trigger] self.readers@[i]
                == readers_upto(self.cursors@, i) by {
                lemma_update(cs, r as int, Some((p + 1) as usize), i);
            }
            lemma_update(cs, r as int, Some((p + 1) as usize), usize::MAX as int);
            assert forall|s: int| s != r && #[trigger] before.is_reader(s) implies self.pending(s)
                == before.pending(s) by {
                assert(self.pending(s) =~= before.pending(s));
            }
            assert(self.pending(r as int) =~= before.pending(r as int).drop_first());
        }
        let ghost moved = *self;
        proof {
            if p == 0 {
                lemma_counted(self.cursors@, r as int, 1);
                assert(self.readers@[1] > 0);
            } else {
                assert(self.readers@[0] == before.readers@[0]);
                assert(self.readers@[0] > 0);
            }
        }
        self.reclaim();
        proof {
            assert forall|s: int| #[trigger] before.is_reader(s) implies self.pending(s)
                == moved.pending(s) by {
                assert(moved.is_reader(s));
            }
        }
        out
    }

    /// Adds a receiver standing on the head, in a new slot, which it
    /// returns; `None` when no slot is left.
    pub fn attach(&mut self) -> (out: Option<usize>)
        requires
            old(self).wf(),
        ensures
            Self::attached(*old(self), *final(self), out),
    {
        let ghost before = *self;
        let ghost cs = before.cursors@;
        let n = self.cursors.len();
        let mut k: usize = 0;
        while k < n && self.cursors[k].is_some()
            invariant
                n == self.cursors@.len(),
                k <= n,
                *self == before,
                forall|j: int| 0 <= j < k ==> #[trigger] before.is_reader(j),
            decreases n - k,
        {
            k += 1;
        }
        if k == n && n == usize::MAX {
            return None;
        }
        let h = self.values.len() - 1;
        let ghost fresh = if k < n {
            cs.update(k as int, Some(h))
        } else {
            cs.push(Some(h))
        };
        proof {
            if k < n {
                lemma_update(cs, k as int, Some(0usize), usize::MAX as int);
                lemma_bounded(cs.update(k as int, Some(0usize)), usize::MAX as int);
                assert forall|i: int| #[trigger] readers_upto(fresh, i) == readers_upto(cs, i)
                    + at_or_before(Some(h), i) by {
                    lemma_update(cs, k as int, Some(h), i);
                }
            } else {
                lemma_bounded(cs, usize::MAX as int);
                assert forall|i: int| #[trigger] readers_upto(fresh, i) == readers_upto(cs, i)
                    + at_or_before(Some(h), i) by {
                    lemma_push(cs, Some(h), i);
                }
            }
            lemma_monotone(cs, h as int, usize::MAX as int);
        }
        if k < n {
            self.cursors.set(k, Some(h));
        } else {
            self.cursors.push(Some(h));
        }
        let c = self.readers[h];
        self.readers.set(h, c + 1);
        self.reader_total = self.reader_total + 1;
        proof {
            assert(self.cursors@ == fresh);
            assert(readers_upto(fresh, usize::MAX as int) == readers_upto(cs, usize::MAX as int)
                + at_or_before(Some(h), usize::MAX as int));
            assert forall|i: int| 0 <= i < self.readers@.len() implies #[trigger] self.readers@[i]
                == readers_upto(self.cursors@, i) by {
                assert(readers_upto(fresh, i) == readers_upto(cs, i) + at_or_before(Some(h), i));
            }
            assert forall|s: int| #[trigger] before.is_reader(s) implies self.pending(s)
                == before.pending(s) by {
                assert(self.cursors@[s] == cs[s]);
                assert(self.pending(s) =~= before.pending(s));
            }
            assert(self.pending(k as int) =~= Seq::<T>::empty());
            if k < n {
                assert(!before.is_reader(k as int));
            } else {
                assert(before.slots() < usize::MAX);
            }
        }
        Some(k)
    }

    /// Removes the receiver in slot `r`: every node from the one it stands on
    /// to the head loses it as a reader, and those nodes that no receiver can
    /// reach any more are freed.
    pub fn detach(&mut self, r: usize)
        requires
            old(self).wf(),
        ensures
            Self::detached(*old(self), *final(self), r as int),
    {
        let ghost before = *self;
        if r >= self.cursors.len() {
            return;
        }
        let p = match self.cursors[r] {
            Some(p) => p,
            None => {
                return;
            },
        };
        let ghost cs = before.cursors@;
        proof {
            assert(cs[r as int] == Some(p));
            assert forall|j: int| p <= j < self.readers@.len() implies #[trigger] self.readers@[j]
                >= 1 by {
                lemma_counted(cs, r as int, j);
            }
            lemma_counted(cs, r as int, usize::MAX as int);
        }
        self.cursors.set(r, None);
        let n = self.readers.len();
        let mut i: usize = p;
        while i < n
            invariant
                n == self.readers@.len(),
                n == before.readers@.len(),
                p <= i <= n,
                self.cursors@ == cs.update(r as int, None),
                self.values@ == before.values@,
                self.reader_total == before.reader_total,
                forall|j: int| p <= j < n ==> #[trigger] before.readers@[j] >= 1,
                forall|j: int|
                    0 <= j < n ==> #[trigger] self.readers@[j] == before.readers@[j] - (if p <= j
                        < i {
                        1int
                    } else {
                        0int
                    }),
            decreases n - i,
        {
            let c = self.readers[i];
            self.readers.set(i, c - 1);
            i += 1;
        }
        self.reader_total = self.reader_total - 1;
        proof {
            assert forall|i: int| 0 <= i < self.readers@.len() implies #[trigger] self.readers@[i]
                == readers_upto(self.cursors@, i) by {
                lemma_update(cs, r as int, None, i);
            }
            lemma_update(cs, r as int, None, usize::MAX as int);
            assert forall|s: int| s != r && #[trigger] before.is_reader(s) implies self.pending(s)
                == before.pending(s) by {
                assert(self.pending(s) =~= before.pending(s));
            }
        }
        let ghost released = *self;
        self.reclaim();
        proof {
            assert forall|s: int| s != r && #[trigger] before.is_reader(s) implies self.pending(s)
                == released.pending(s) by {
                assert(released.is_reader(s));
            }
        }
    }

    /// Appends the values in order, as that many calls of `send` would.
    pub fn send_all(&mut self, values: Vec<T>)
        requires
            old(self).wf(),
        ensures
            Self::appended(*old(self), *final(self), values@),
    {
        let ghost before = *self;
        let ghost all = values@;
        let n = values.len();
        let mut rest = values;
        let mut stack: Vec<T> = Vec::new();
        while rest.len() > 0
            invariant
                rest@ == all.subrange(0, rest@.len() as int),
                stack@.len() + rest@.len() == n,
                n == all.len(),
                forall|k: int| 0 <= k < stack@.len() ==> #[trigger] stack@[k] == all[n - 1 - k],
            decreases rest@.len(),
        {
            let v = rest.pop().unwrap();
            stack.push(v);
        }
        proof {
            assert(before.pending(0) + Seq::<T>::empty() =~= before.pending(0));
            assert forall|r: int| #[trigger] before.is_reader(r) implies self.pending(r)
                == before.pending(r) + all.subrange(0, 0) by {
                assert(before.pending(r) + all.subrange(0, 0) =~= before.pending(r));
            }
        }
        while stack.len() > 0
            invariant
                self.wf(),
                n == all.len(),
                stack@.len() <= n,
                forall|k: int| 0 <= k < stack@.len() ==> #[trigger] stack@[k] == all[n - 1 - k],
                self.slots() == before.slots(),
                self.reader_count() == before.reader_count(),
                forall|r: int| #[trigger] self.is_reader(r) == before.is_reader(r),
                forall|r: int| #[trigger]
                    before.is_reader(r) ==> self.pending(r) == before.pending(r) + all.subrange(
                        0,
                        n - stack@.len(),
                    ),
            decreases stack@.len(),
        {
            let ghost mid = *self;
            let ghost m = n - stack@.len();
            let v = stack.pop().unwrap();
            self.send(v);
            proof {
                assert forall|r: int| #[trigger] before.is_reader(r) implies self.pending(r)
                    == before.pending(r) + all.subrange(0, m + 1) by {
                    assert(mid.is_reader(r));
                    assert(all.subrange(0, m + 1) =~= all.subrange(0, m).push(all[m]));
                    assert(before.pending(r) + all.subrange(0, m + 1) =~= (before.pending(r)
                        + all.subrange(0, m)) + seq![v]);
                }
            }
        }
        proof {
            assert(all.subrange(0, n as int) =~= all);
        }
    }

    /// Readers and what each has still to read are those of `before`.
    pub open spec fn same_readers(before: Self, after: Self) -> bool {
        &&& after.slots() == before.slots()
        &&& after.reader_count() == before.reader_count()
        &&& forall|r: int| #[trigger] after.is_reader(r) == before.is_reader(r)
        &&& forall|r: int| #[trigger]
            before.is_reader(r) ==> after.pending(r) == before.pending(r)
    }

    /// Frees the `k` oldest nodes, on none of which a cursor stands, and
    /// moves every cursor back by `k` indices.
    fn drop_front(&mut self, k: usize)
        requires
            old(self).wf_links(),
            0 < k < old(self).values@.len(),
            old(self).readers@[k - 1] == 0,
        ensures
            final(self).wf_links(),
            final(self).values@.len() == old(self).values@.len() - k,
            final(self).readers@[0] == old(self).readers@[k as int],
            Self::same_readers(*old(self), *final(self)),
    {
        let ghost before = *self;
        let ghost cs = before.cursors@;
        proof {
            assert forall|j: int| 0 <= j < cs.len() implies (#[trigger] cs[j] matches Some(p) ==> p
                >= k) by {
                lemma_counted(cs, j, k - 1);
            }
        }
        let values = self.values.split_off(k);
        self.values = values;
        let readers = self.readers.split_off(k);
        self.readers = readers;
        let n = self.cursors.len();
        let mut j: usize = 0;
        while j < n
            invariant
                n == self.cursors@.len(),
                n == cs.len(),
                j <= n,
                self.values@ == before.values@.subrange(k as int, before.values@.len() as int),
                self.readers@ == before.readers@.subrange(k as int, before.readers@.len() as int),
                self.reader_total == before.reader_total,
                forall|i: int| 0 <= i < n ==> (#[trigger] cs[i] matches Some(p) ==> p >= k),
                forall|i: int| 0 <= i < j ==> #[trigger] self.cursors@[i] == shifted(cs, k as int)[i],
                forall|i: int| j <= i < n ==> #[trigger] self.cursors@[i] == cs[i],
            decreases n - j,
        {
            match self.cursors[j] {
                Some(p) => {
                    self.cursors.set(j, Some(p - k));
                },
                None => {},
            }
            j += 1;
        }
        proof {
            assert(self.cursors@ =~= shifted(cs, k as int));
            assert forall|i: int| 0 <= i < self.readers@.len() implies #[trigger] self.readers@[i]
                == readers_upto(self.cursors@, i) by {
                lemma_shifted(cs, k as int, i);
                assert(self.readers@[i] == before.readers@[i + k]);
            }
            lemma_shifted(cs, k as int, usize::MAX as int);
            assert forall|i: int| 0 <= i < cs.len() implies at_or_before(#[trigger] cs[i], usize::MAX + k)
                == at_or_before(cs[i], usize::MAX as int) by {}
            lemma_agree(cs, usize::MAX + k, usize::MAX as int);
            assert forall|i: int| 0 < i < self.values@.len() implies (#[trigger] self.values@[i]) is Some by {
                assert(self.values@[i] == before.values@[i + k]);
            }
            assert forall|r: int| #[trigger] before.is_reader(r) implies self.pending(r)
                == before.pending(r) by {
                assert(self.pending(r) =~= before.pending(r));
            }
        }
    }

    /// Frees, in one step, the oldest nodes that every cursor has passed,
    /// keeping the head.
    fn reclaim(&mut self)
        requires
            old(self).wf_links(),
        ensures
            final(self).wf(),
            final(self).values@.len() <= old(self).values@.len(),
            forall|j: int|
                0 <= j < old(self).readers@.len() && #[trigger] old(self).readers@[j] > 0
                    ==> final(self).values@.len() + j >= old(self).values@.len(),
            Self::same_readers(*old(self), *final(self)),
    {
        let ghost before = *self;
        let n = self.values.len();
        let mut k: usize = 0;
        while k + 1 < n && self.readers[k] == 0
            invariant
                n == self.values@.len(),
                k < n,
                *self == before,
                self.wf_links(),
                forall|j: int| 0 <= j < k ==> #[trigger] self.readers@[j] == 0,
            decreases n - k,
        {
            k += 1;
        }
        if k > 0 {
            self.drop_front(k);
        }
    }
}

} // verus!
