//! Handles that share one channel between threads: any number of senders
//! and receivers, each receiver with a place of its own in the channel.
//!
//! The state sits behind one lock rather than behind compare-and-swap on
//! atomic pointers: every send, read, clone and close takes it once, so
//! each is one verified step of the engine, and sends land in one total
//! order that all receivers see. The handles' contracts say which engine
//! step each call made, on the state the lock handed over; what each step
//! does is stated exactly on [`BroadcastChannel`].
//!
//! A panic under the lock (in a payload's `Clone` or `Drop`) takes the state
//! with it: from then on the channel is closed, reads return `None` and
//! sends drop their values. No call panics on that account.
//!
//! Dropping a `Receiver` does not give its place back, since a destructor
//! here may not take a lock: call [`Receiver::close`] on a receiver that is
//! done. A receiver dropped without it keeps the nodes it had still to read
//! until the last handle of the channel goes, and then they are freed with
//! the rest.

use std::sync::{Arc, Mutex};

use vstd::prelude::*;

use crate::channel::BroadcastChannel;

verus! {

/// std::sync::Mutex, which the handles share the channel state through;
/// its contents stay opaque.
#[verifier::external_type_specification]
#[verifier::external_body]
#[verifier::reject_recursive_types(T)]
pub struct ExMutex<T: ?Sized>(Mutex<T>);

/// Relies on std::sync::Mutex::new, which only wraps the value.
pub assume_specification<T>[ Mutex::<T>::new ](t: T) -> Mutex<T>;

/// The channel state as the lock holds it: always well formed.
pub struct Shared<T: Clone> {
    chan: BroadcastChannel<T>,
}

impl<T: Clone> Shared<T> {
    #[verifier::type_invariant]
    spec fn inv(self) -> bool {
        self.chan.wf()
    }
}

/// Relies on std::sync::Mutex::lock: while the guard lives no other thread
/// reaches the state, so `f` runs on what the lock holds as one step and
/// what it returns replaces it. A lock poisoned by a panic under it is taken
/// over as it stands (`PoisonError::into_inner`): the state was moved into
/// the `f` that panicked, so the lock then holds `None`.
#[verifier::external_body]
fn locked<T: Clone, R, F: FnOnce(Option<Shared<T>>) -> (Option<Shared<T>>, R)>(
    m: &Mutex<Option<Shared<T>>>,
    f: F,
) -> (r: R)
    requires
        forall|s: Option<Shared<T>>| f.requires((s,)),
    ensures
        exists|s: Option<Shared<T>>, t: Option<Shared<T>>| f.ensures((s,), (t, r)),
{
    let mut guard = match m.lock() {
        Ok(guard) => guard,
        Err(poisoned) => poisoned.into_inner(),
    };
    let (next, r) = f(guard.take());
    *guard = next;
    r
}

/// Creates a connected sender and receiver; the receiver stands on the
/// sentinel node and will read every value sent from now on.
pub fn broadcaster<T: Clone>() -> (r: (Sender<T>, Receiver<T>))
    ensures
        r.0.shared() == r.1.shared(),
        r.1.slot() == 0,
{
    let shared = Shared { chan: BroadcastChannel::new() };
    let channel = Arc::new(Mutex::new(Some(shared)));
    (Sender::new(channel.clone()), Receiver::new(channel, 0))
}

/// The sending half of a channel; clones share the channel.
#[verifier::reject_recursive_types(T)]
pub struct Sender<T: Clone> {
    channel: Arc<Mutex<Option<Shared<T>>>>,
}

impl<T: Clone> Clone for Sender<T> {
    fn clone(&self) -> (r: Self)
        ensures
            r.shared() == self.shared(),
    {
        Sender { channel: self.channel.clone() }
    }
}

impl<T: Clone> Sender<T> {
    /// The channel this handle shares with its clones.
    pub closed spec fn shared(&self) -> Arc<Mutex<Option<Shared<T>>>> {
        self.channel
    }

    fn new(channel: Arc<Mutex<Option<Shared<T>>>>) -> (r: Self)
        ensures
            r.shared() == channel,
    {
        Sender { channel }
    }

    /// Appends `value` for every receiver that exists now; the step it
    /// makes on the channel state is `BroadcastChannel::send`. On a channel
    /// that a panic under its lock has closed, the value is dropped.
    pub fn send(&self, value: T) {
        let ghost v = value;
        let step = move |s: Option<Shared<T>>| -> (r: (Option<Shared<T>>, ()))
            ensures
                match s {
                    Some(x) => r.0 matches Some(y) && BroadcastChannel::appended(
                        x.chan,
                        y.chan,
                        seq![v],
                    ),
                    None => r.0 is None,
                },
            {
                match s {
                    Some(x) => {
                        proof {
                            use_type_invariant(&x);
                        }
                        let Shared { mut chan } = x;
                        chan.send(value);
                        (Some(Shared { chan }), ())
                    },
                    None => (None, ()),
                }
            };
        locked(&self.channel, step);
    }

    /// Appends the values in order, with no other send between them; the
    /// step it makes is `BroadcastChannel::send_all`.
    pub fn send_all(&self, values: Vec<T>) {
        let ghost vs = values@;
        let step = move |s: Option<Shared<T>>| -> (r: (Option<Shared<T>>, ()))
            ensures
                match s {
                    Some(x) => r.0 matches Some(y) && BroadcastChannel::appended(
                        x.chan,
                        y.chan,
                        vs,
                    ),
                    None => r.0 is None,
                },
            {
                match s {
                    Some(x) => {
                        proof {
                            use_type_invariant(&x);
                        }
                        let Shared { mut chan } = x;
                        chan.send_all(values);
                        (Some(Shared { chan }), ())
                    },
                    None => (None, ()),
                }
            };
        locked(&self.channel, step);
    }
}

/// The receiving half of a channel: a cursor of its own, which reads every
/// value sent after the receiver was made, in the order the sends landed.
/// Close it with [`Receiver::close`] when done, so that nodes only it still
/// had to read are freed at once.
#[verifier::reject_recursive_types(T)]
pub struct Receiver<T: Clone> {
    channel: Arc<Mutex<Option<Shared<T>>>>,
    slot: usize,
}

impl<T: Clone> Receiver<T> {
    /// The slot of the channel that holds this receiver's cursor.
    pub closed spec fn slot(&self) -> int {
        self.slot as int
    }

    /// The channel this receiver reads from.
    pub closed spec fn shared(&self) -> Arc<Mutex<Option<Shared<T>>>> {
        self.channel
    }

    fn new(channel: Arc<Mutex<Option<Shared<T>>>>, slot: usize) -> (r: Self)
        ensures
            r.shared() == channel,
            r.slot() == slot,
    {
        Receiver { channel, slot }
    }

    /// Reads the next value this receiver has not read yet, or `None` when it
    /// has read everything sent so far (or the channel was closed by a panic
    /// under its lock).
    pub fn next(&mut self) -> (out: Option<T>)
        ensures
            final(self).slot() == old(self).slot(),
            final(self).shared() == old(self).shared(),
            out is Some ==> exists|a: BroadcastChannel<T>, b: BroadcastChannel<T>|
                #[trigger] BroadcastChannel::advanced(a, b, old(self).slot(), out),
    {
        let r = self.slot;
        let step = move |s: Option<Shared<T>>| -> (res: (Option<Shared<T>>, Option<T>))
            ensures
                match s {
                    Some(x) => res.0 matches Some(y) && BroadcastChannel::advanced(
                        x.chan,
                        y.chan,
                        r as int,
                        res.1,
                    ),
                    None => res.0 is None && res.1 is None,
                },
            {
                match s {
                    Some(x) => {
                        proof {
                            use_type_invariant(&x);
                        }
                        let Shared { mut chan } = x;
                        let out = chan.advance(r);
                        (Some(Shared { chan }), out)
                    },
                    None => (None, None),
                }
            };
        let out = locked(&self.channel, step);
        proof {
            if out is Some {
                let (a, b) = choose|a: Option<Shared<T>>, b: Option<Shared<T>>|
                    step.ensures((a,), (b, out));
                assert(BroadcastChannel::advanced(a->0.chan, b->0.chan, r as int, out));
                assert(r as int == old(self).slot());
            }
        }
        out
    }

    /// Gives up this receiver's place: the nodes it could still read are
    /// released, and freed when no other receiver can reach them; the step
    /// it makes is `BroadcastChannel::detach`.
    pub fn close(self) {
        let r = self.slot;
        let step = move |s: Option<Shared<T>>| -> (res: (Option<Shared<T>>, ()))
            ensures
                match s {
                    Some(x) => res.0 matches Some(y) && BroadcastChannel::detached(
                        x.chan,
                        y.chan,
                        r as int,
                    ),
                    None => res.0 is None,
                },
            {
                match s {
                    Some(x) => {
                        proof {
                            use_type_invariant(&x);
                        }
                        let Shared { mut chan } = x;
                        chan.detach(r);
                        (Some(Shared { chan }), ())
                    },
                    None => (None, ()),
                }
            };
        locked(&self.channel, step);
    }
}

impl<T: Clone> Clone for Receiver<T> {
    /// A receiver standing on the current head: it reads only what is sent
    /// after the clone. It takes the lowest slot a closed receiver left, or
    /// a new one; when all `usize::MAX` slots hold live receivers, or the
    /// channel was closed by a panic under its lock, the clone is never a
    /// reader and reads nothing.
    fn clone(&self) -> (r: Self)
        ensures
            r.shared() == self.shared(),
            r.slot() == usize::MAX || exists|
                a: BroadcastChannel<T>,
                b: BroadcastChannel<T>,
                s: Option<usize>,
            | #[trigger] BroadcastChannel::attached(a, b, s) && s == Some(r.slot() as usize),
    {
        let step = |s: Option<Shared<T>>| -> (res: (Option<Shared<T>>, Option<usize>))
            ensures
                match s {
                    Some(x) => res.0 matches Some(y) && BroadcastChannel::attached(
                        x.chan,
                        y.chan,
                        res.1,
                    ),
                    None => res.0 is None && res.1 is None,
                },
            {
                match s {
                    Some(x) => {
                        proof {
                            use_type_invariant(&x);
                        }
                        let Shared { mut chan } = x;
                        let slot = chan.attach();
                        (Some(Shared { chan }), slot)
                    },
                    None => (None, None),
                }
            };
        let got = locked(&self.channel, step);
        let slot = match got {
            Some(slot) => slot,
            None => usize::MAX,
        };
        proof {
            if got is Some {
                let (a, b) = choose|a: Option<Shared<T>>, b: Option<Shared<T>>|
                    step.ensures((a,), (b, got));
                assert(BroadcastChannel::attached(a->0.chan, b->0.chan, got));
            }
        }
        Receiver { channel: self.channel.clone(), slot }
    }
}

} // verus!
