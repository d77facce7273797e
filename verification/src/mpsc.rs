use vstd::prelude::*;

use crate::bits::{find_nearest, nearest_bit};
use crate::seqs::count_some;
use crate::spsc::{PopError, PushError, MAX_POSITION};
use crate::unbounded::{kept_shape, popped_or_refused, unbounded_pushed, UnboundedSpsc, UnboundedState};
use crate::waker::{WakerState, WorkerWaker, STATUS_SUMMARY_MASK};

verus! {

/// Number of producer slots: one per bit of the signal words.
pub const MAX_QUEUES: usize = 3968;

/// Most producers at once.
pub const MAX_PRODUCERS: usize = 3968;

/// Number of signal words (one summary bit each in the waker).
pub const SIGNAL_WORDS: usize = 62;

pub const RND_MULTIPLIER: u64 = 0x5DEECE66D;

pub const RND_ADDEND: u64 = 0xB;

pub const RND_MASK: u64 = 0xFFFF_FFFF_FFFF;

/// The queue of one producer: 1024 items per segment, 256 directory slots.
pub type ProducerQueue<T> = UnboundedSpsc<T, 10, 8>;

/// The state shared by a channel's producers and its consumer: one unbounded queue
/// per registered producer, one signal bit per producer telling that its queue was
/// scheduled, and the waker whose summary tells which signal words are active.
pub struct Inner<T> {
    queues: Vec<Option<ProducerQueue<T>>>,
    queue_count: usize,
    producer_count: usize,
    max_producer_id: usize,
    closed: bool,
    waker: WorkerWaker,
    signals: Vec<u64>,
}

/// The abstract state of a channel.
pub struct InnerState<T> {
    pub queues: Seq<Option<UnboundedState<T>>>,
    pub queue_count: usize,
    pub producer_count: usize,
    pub max_producer_id: usize,
    pub closed: bool,
    pub waker: WakerState,
    pub signals: Seq<u64>,
}

/// The view of a producer slot.
pub open spec fn slot_view<T>(q: Option<ProducerQueue<T>>) -> Option<UnboundedState<T>> {
    match q {
        Some(x) => Some(x@),
        None => None,
    }
}

impl<T> View for Inner<T> {
    type V = InnerState<T>;

    closed spec fn view(&self) -> InnerState<T> {
        InnerState {
            queues: self.queues@.map_values(|q: Option<ProducerQueue<T>>| slot_view(q)),
            queue_count: self.queue_count,
            producer_count: self.producer_count,
            max_producer_id: self.max_producer_id,
            closed: self.closed,
            waker: self.waker@,
            signals: self.signals@,
        }
    }
}

/// The state after producer `pid`'s queue is scheduled: its signal bit is set, and
/// the waker's summary bit of its signal word when the word was empty.
pub open spec fn scheduled_signal<T>(s: InnerState<T>, pid: int) -> InnerState<T> {
    let w = pid / 64;
    let prev = s.signals[w];
    InnerState {
        signals: s.signals.update(w, prev | (1u64 << ((pid % 64) as u64))),
        waker: if prev == 0 {
            crate::waker::flag_marked(s.waker, 1u64 << (w as u64))
        } else {
            s.waker
        },
        ..s
    }
}

/// The waker after bit `bit` of signal word `idx`, whose value was `value`, is
/// taken down: the word's summary bit is cleared when that bit was the word's only
/// one.
pub open spec fn signal_taken(w: WakerState, idx: int, value: u64, bit: u64) -> WakerState {
    if value == 1u64 << bit {
        WakerState { status: w.status & !(1u64 << (idx as u64)), ..w }
    } else {
        w
    }
}

/// Whether the node the consumer is on holds items.
pub open spec fn consumer_node_holds_items<T>(q: UnboundedState<T>) -> bool {
    q.nodes[q.head].items.len() > 0
}

/// Producer `pid` is the one a pick finds: its signal bit is the only one set in
/// its word, its word is the only one the waker's summary marks, and its slot holds
/// a queue.
pub open spec fn sole_signalled<T>(s: InnerState<T>, pid: int) -> bool {
    &&& 0 <= pid < MAX_QUEUES
    &&& s.signals[pid / 64] == 1u64 << ((pid % 64) as u64)
    &&& s.waker.status & STATUS_SUMMARY_MASK == 1u64 << ((pid / 64) as u64)
    &&& s.queues[pid] is Some
}

impl<T> InnerState<T> {
    /// The channel's consistency: a slot per producer, a queue per registered
    /// producer, and the counts agree with the occupied slots.
    pub open spec fn wf(&self) -> bool {
        &&& self.queues.len() == MAX_QUEUES
        &&& self.signals.len() == SIGNAL_WORDS
        &&& self.queue_count == count_some(self.queues)
        &&& self.producer_count == self.queue_count
        &&& forall|i: int|
            0 <= i < self.queues.len() && #[trigger] self.queues[i] is Some ==> self.queues[i]->0.wf()
                && self.queues[i]->0.config == crate::spsc::DynSpscConfig::from_exponents(10, 8, 0)
    }
}

impl<T> Inner<T> {
    /// The channel's consistency.
    pub open spec fn wf(&self) -> bool {
        self@.wf()
    }

    proof fn lemma_view(&self)
        ensures
            self@.queues.len() == self.queues@.len(),
            forall|i: int| 0 <= i < self.queues@.len() ==> #[trigger] self@.queues[i] == slot_view(self.queues@[i]),
            self@.signals == self.signals@,
    {
    }

    /// The producer's position and the node count of queue `pid`, or `None` when
    /// its slot is free.
    pub fn push_room(&self, pid: usize) -> (r: Option<(u64, usize)>)
        requires
            self.wf(),
            pid < MAX_QUEUES,
        ensures
            match self@.queues[pid as int] {
                Some(q) => r == Some((q.tail().head, q.nodes.len() as usize)),
                None => r is None,
            },
    {
        proof {
            self.lemma_view();
        }
        match &self.queues[pid] {
            Some(q) => Some((q.push_position(), q.node_count())),
            None => None,
        }
    }

    /// An open channel with no producer, signalling through `waker`.
    pub fn new_with_waker(waker: WorkerWaker) -> (c: Self)
        ensures
            c.wf(),
            !c@.closed,
            c@.producer_count == 0,
            c@.max_producer_id == 0,
            c@.waker == waker@,
            forall|i: int| 0 <= i < MAX_QUEUES ==> #[trigger] c@.queues[i] is None,
            c@.signals == Seq::new(SIGNAL_WORDS as nat, |i: int| 0u64),
    {
        let mut queues: Vec<Option<ProducerQueue<T>>> = Vec::new();
        while queues.len() < MAX_QUEUES
            invariant
                queues.len() <= MAX_QUEUES,
                forall|k: int| 0 <= k < queues@.len() ==> #[trigger] queues@[k] is None,
            decreases MAX_QUEUES - queues.len(),
        {
            queues.push(None);
        }
        let mut signals: Vec<u64> = Vec::new();
        while signals.len() < SIGNAL_WORDS
            invariant
                signals.len() <= SIGNAL_WORDS,
                forall|k: int| 0 <= k < signals@.len() ==> #[trigger] signals@[k] == 0u64,
            decreases SIGNAL_WORDS - signals.len(),
        {
            signals.push(0);
        }
        let c = Inner {
            queues,
            queue_count: 0,
            producer_count: 0,
            max_producer_id: 0,
            closed: false,
            waker,
            signals,
        };
        proof {
            c.lemma_view();
            crate::seqs::lemma_count_some_none::<UnboundedState<T>>(MAX_QUEUES as nat);
            assert(c@.queues =~= Seq::new(MAX_QUEUES as nat, |k: int| None::<UnboundedState<T>>));
            assert(c@.signals =~= Seq::new(SIGNAL_WORDS as nat, |i: int| 0u64));
        }
        c
    }

    /// Whether the channel was closed.
    pub fn is_closed(&self) -> (r: bool)
        ensures
            r == self@.closed,
    {
        self.closed
    }

    /// Number of registered producers.
    pub fn producer_count(&self) -> (r: usize)
        ensures
            r == self@.producer_count,
    {
        self.producer_count
    }

    /// Signals that producer `pid`'s queue has something for the consumer.
    fn schedule(&mut self, pid: usize)
        requires
            old(self).wf(),
            pid < MAX_QUEUES,
        ensures
            final(self).wf(),
            final(self)@ == scheduled_signal(old(self)@, pid as int),
    {
        proof {
            self.lemma_view();
        }
        let w = pid / 64;
        let bit = (pid % 64) as u64;
        let prev = self.signals[w];
        self.signals.set(w, prev | (1u64 << bit));
        if prev == 0 {
            self.waker.mark_active(w as u64);
        }
        proof {
            self.lemma_view();
        }
    }

    /// Registers a producer in the first free slot and returns its handle; a closed
    /// channel refuses with `Closed`, a full one with `Full`. (The segment pool size
    /// is not used.)
    pub fn create_sender_with_config(&mut self, max_pooled_segments: usize) -> (r: Result<
        Sender,
        PushError<()>,
    >)
        requires
            old(self).wf(),
        ensures
            final(self).wf(),
            sender_created(old(self)@, r, final(self)@),
    {
        proof {
            self.lemma_view();
            crate::seqs::lemma_count_some_bound(self@.queues);
        }
        if self.closed {
            return Err(PushError::Closed(()));
        }
        if self.producer_count >= MAX_PRODUCERS {
            return Err(PushError::Full(()));
        }
        let ghost o = self@;
        let mut queue_index: usize = 0;
        while queue_index < MAX_QUEUES
            invariant
                self@ == o,
                self.wf(),
                queue_index <= MAX_QUEUES,
                forall|k: int| 0 <= k < queue_index ==> #[trigger] o.queues[k] is Some,
            ensures
                self@ == o,
                self.wf(),
                queue_index <= MAX_QUEUES,
                forall|k: int| 0 <= k < queue_index ==> #[trigger] o.queues[k] is Some,
                queue_index < MAX_QUEUES ==> o.queues[queue_index as int] is None,
            decreases MAX_QUEUES - queue_index,
        {
            proof {
                self.lemma_view();
            }
            if self.queues[queue_index].is_none() {
                break;
            }
            queue_index = queue_index + 1;
        }
        if queue_index >= MAX_QUEUES {
            proof {
                lemma_all_some(o.queues);
            }
            return Err(PushError::Full(()));
        }
        let queue = UnboundedSpsc::<T, 10, 8>::new();
        proof {
            self.lemma_view();
            crate::seqs::lemma_count_some_update(self@.queues, queue_index as int, Some(queue@));
        }
        self.queues.set(queue_index, Some(queue));
        self.queue_count = self.queue_count + 1;
        self.producer_count = self.producer_count + 1;
        let producer_id = queue_index;
        if producer_id >= self.max_producer_id {
            self.max_producer_id = producer_id;
        }
        proof {
            self.lemma_view();
            assert(self@.queues =~= o.queues.update(producer_id as int, Some(queue@)));
        }
        Ok(Sender { producer_id })
    }

    /// Registers a producer; see `create_sender_with_config`.
    pub fn create_sender(&mut self) -> (r: Result<Sender, PushError<()>>)
        requires
            old(self).wf(),
        ensures
            final(self).wf(),
            sender_created(old(self)@, r, final(self)@),
    {
        self.create_sender_with_config(0)
    }

    /// Closes the channel: marks it closed (waking the consumer once with a permit
    /// per queue, at least one), closes and removes every producer queue, and
    /// returns whether no producer is left.
    pub fn close(&mut self) -> (r: bool)
        requires
            old(self).wf(),
        ensures
            final(self).wf(),
            r,
            final(self)@.closed,
            final(self)@.producer_count == 0,
            forall|i: int| 0 <= i < MAX_QUEUES ==> #[trigger] final(self)@.queues[i] is None,
            final(self)@.max_producer_id == old(self)@.max_producer_id,
    {
        proof {
            self.lemma_view();
            crate::seqs::lemma_count_some_bound(self@.queues);
        }
        let was_open = !self.closed;
        self.closed = true;
        if was_open {
            let permits = if self.queue_count > 1 {
                self.queue_count
            } else {
                1
            };
            self.waker.release(permits);
        }
        let ghost mid = self@;
        let mut i: usize = 0;
        while i < MAX_QUEUES
            invariant
                self.wf(),
                self@.closed,
                self@.max_producer_id == mid.max_producer_id,
                i <= MAX_QUEUES,
                forall|k: int| 0 <= k < i ==> #[trigger] self@.queues[k] is None,
            decreases MAX_QUEUES - i,
        {
            proof {
                self.lemma_view();
            }
            let ghost before = self@;
            let mut slot: Option<ProducerQueue<T>> = None;
            self.queues.set_and_swap(i, &mut slot);
            proof {
                self.lemma_view();
                assert(self@.queues =~= before.queues.update(i as int, None));
                crate::seqs::lemma_count_some_update(before.queues, i as int, None);
                assert(before.queues[i as int] == slot_view(slot));
            }
            match slot {
                Some(mut q) => {
                    q.close();
                    self.queue_count = self.queue_count - 1;
                    self.producer_count = self.producer_count - 1;
                    self.schedule(i);
                },
                None => {},
            }
            i = i + 1;
        }
        proof {
            self.lemma_view();
            lemma_none_count(self@.queues);
        }
        self.producer_count == 0
    }
}

/// What registering a producer does: a closed channel refuses with `Closed`, a
/// full one with `Full`, both unchanged; otherwise the first free slot gets a new
/// empty queue, the producer count grows by one, and the highest producer id is
/// raised to the new one.
pub open spec fn sender_created<T>(o: InnerState<T>, r: Result<Sender, PushError<()>>, f: InnerState<T>) -> bool {
    if o.closed {
        r == Err::<Sender, PushError<()>>(PushError::Closed(())) && f == o
    } else if o.producer_count >= MAX_PRODUCERS {
        r == Err::<Sender, PushError<()>>(PushError::Full(())) && f == o
    } else {
        let pid = r->Ok_0.producer_id;
        &&& r is Ok
        &&& first_free(o.queues, pid as int)
        &&& f.queues[pid as int] is Some
        &&& f.queues[pid as int]->0.items().len() == 0
        &&& f.queues[pid as int]->0.nodes.len() == 1
        &&& !f.queues[pid as int]->0.tail().closed
        &&& f.queues[pid as int]->0.tail().head == 0
        &&& f.queues == o.queues.update(pid as int, f.queues[pid as int])
        &&& f.producer_count == o.producer_count + 1
        &&& f.max_producer_id == if pid < o.max_producer_id {
            o.max_producer_id
        } else {
            pid
        }
        &&& f.closed == o.closed && f.signals == o.signals && f.waker == o.waker
    }
}

/// The slots before `i` were taken and slot `i` is free.
pub open spec fn first_free<T>(queues: Seq<Option<UnboundedState<T>>>, i: int) -> bool {
    &&& 0 <= i < queues.len()
    &&& queues[i] is None
    &&& forall|k: int| 0 <= k < i ==> #[trigger] queues[k] is Some
}

proof fn lemma_all_some<A>(s: Seq<Option<A>>)
    requires
        forall|k: int| 0 <= k < s.len() ==> #[trigger] s[k] is Some,
    ensures
        count_some(s) == s.len(),
    decreases s.len(),
{
    if s.len() > 0 {
        lemma_all_some(s.drop_last());
    }
}

proof fn lemma_none_count<A>(s: Seq<Option<A>>)
    requires
        forall|k: int| 0 <= k < s.len() ==> #[trigger] s[k] is None,
    ensures
        count_some(s) == 0,
    decreases s.len(),
{
    if s.len() > 0 {
        lemma_none_count(s.drop_last());
    }
}

/// A producer's handle: the slot of its queue.
#[derive(Debug)]
pub struct Sender {
    pub producer_id: usize,
}


/// The items of producer `pid`'s queue (none when the slot is free).
pub open spec fn queue_items<T>(s: InnerState<T>, pid: int) -> Seq<T> {
    match s.queues[pid] {
        Some(q) => q.items(),
        None => Seq::empty(),
    }
}

/// What a push by producer `pid` does: a freed slot or a closed queue refuses the
/// value with `Closed` and changes nothing; otherwise the value joins the back of
/// the producer's queue, which is then signalled.
pub open spec fn producer_pushed<T>(o: InnerState<T>, pid: int, value: T, r: Result<(), PushError<T>>, f: InnerState<T>) -> bool {
    if o.queues[pid] is None || o.queues[pid]->0.tail().closed {
        r == Err::<(), PushError<T>>(PushError::Closed(value)) && f == o
    } else {
        &&& r is Ok
        &&& f.queues[pid] is Some
        &&& f.queues[pid]->0.items() == o.queues[pid]->0.items().push(value)
        &&& f.queues[pid]->0.nodes.len() <= o.queues[pid]->0.nodes.len() + 1
        &&& f == scheduled_signal(InnerState { queues: o.queues.update(pid, f.queues[pid]), ..o }, pid)
    }
}

/// `f` differs from `o` at most in slot `pid`, the signals and the waker.
pub open spec fn only_slot_changed<T>(o: InnerState<T>, f: InnerState<T>, pid: int) -> bool {
    &&& f.queues.len() == o.queues.len()
    &&& forall|k: int| 0 <= k < o.queues.len() && k != pid ==> #[trigger] f.queues[k] == o.queues[k]
    &&& f.closed == o.closed
    &&& f.max_producer_id == o.max_producer_id
}

impl<T> Inner<T> {
    /// Pushes `value` onto producer `pid`'s queue and signals it when the push
    /// succeeds; a freed slot (its queue was closed and reaped) refuses with `Closed`.
    fn push_to(&mut self, pid: usize, value: T) -> (r: Result<(), PushError<T>>)
        requires
            old(self).wf(),
            pid < MAX_QUEUES,
            old(self)@.queues[pid as int] is Some ==> old(self)@.queues[pid as int]->0.tail().head < MAX_POSITION
                && old(self)@.queues[pid as int]->0.nodes.len() < usize::MAX,
        ensures
            final(self).wf(),
            producer_pushed(old(self)@, pid as int, value, r, final(self)@),
    {
        proof {
            self.lemma_view();
        }
        let ghost o = self@;
        let mut slot: Option<ProducerQueue<T>> = None;
        self.queues.set_and_swap(pid, &mut slot);
        proof {
            assert(o.queues[pid as int] == slot_view(slot));
        }
        match slot {
            None => {
                self.queues.set_and_swap(pid, &mut slot);
                proof {
                    self.lemma_view();
                    assert(self@.queues =~= o.queues);
                }
                Err(PushError::Closed(value))
            },
            Some(mut q) => {
                proof {
                    assert(o.queues[pid as int] == Some(q@));
                }
                let r = q.try_push(value);
                let mut back = Some(q);
                self.queues.set_and_swap(pid, &mut back);
                proof {
                    self.lemma_view();
                    assert(self@.queues =~= o.queues.update(pid as int, Some(q@)));
                    crate::seqs::lemma_count_some_update(o.queues, pid as int, Some(q@));
                    if r is Err {
                        assert(self@.queues =~= o.queues);
                    }
                }
                if r.is_ok() {
                    self.schedule(pid);
                }
                r
            },
        }
    }

    /// Closes producer `pid`'s queue (its producer node) and signals it; nothing for
    /// a freed slot.
    fn close_queue(&mut self, pid: usize)
        requires
            old(self).wf(),
            pid < MAX_QUEUES,
        ensures
            final(self).wf(),
            old(self)@.queues[pid as int] is None ==> final(self)@ == old(self)@,
            old(self)@.queues[pid as int] is Some ==> final(self)@.queues[pid as int] is Some
                && final(self)@.queues[pid as int]->0.tail().closed && final(self)@.queues[pid as int]->0.items()
                == old(self)@.queues[pid as int]->0.items(),
            only_slot_changed(old(self)@, final(self)@, pid as int),
            final(self)@.producer_count == old(self)@.producer_count,
    {
        proof {
            self.lemma_view();
        }
        let ghost o = self@;
        let mut slot: Option<ProducerQueue<T>> = None;
        self.queues.set_and_swap(pid, &mut slot);
        proof {
            assert(o.queues[pid as int] == slot_view(slot));
        }
        match slot {
            None => {
                self.queues.set_and_swap(pid, &mut slot);
                proof {
                    self.lemma_view();
                    assert(self@.queues =~= o.queues);
                }
            },
            Some(mut q) => {
                q.close_channel();
                let mut back = Some(q);
                self.queues.set_and_swap(pid, &mut back);
                proof {
                    self.lemma_view();
                    assert(self@.queues =~= o.queues.update(pid as int, Some(q@)));
                    crate::seqs::lemma_count_some_update(o.queues, pid as int, Some(q@));
                }
                self.schedule(pid);
            },
        }
    }
}

impl<T: Copy> Inner<T> {
    /// Pushes `values` onto producer `pid`'s queue (see `UnboundedSpsc::try_push_n`)
    /// and signals it when something was pushed; a closed channel or a freed slot
    /// refuses with `Closed`.
    fn push_n_to(&mut self, pid: usize, values: &mut Vec<T>) -> (r: Result<usize, PushError<()>>)
        requires
            old(self).wf(),
            pid < MAX_QUEUES,
            old(self)@.queues[pid as int] is Some ==> old(self)@.queues[pid as int]->0.tail().head + old(
                values,
            )@.len() <= MAX_POSITION && old(self)@.queues[pid as int]->0.nodes.len() + old(values)@.len() + 1
                < usize::MAX,
        ensures
            final(self).wf(),
            old(self)@.closed || old(self)@.queues[pid as int] is None ==> r == Err::<usize, PushError<()>>(
                PushError::Closed(()),
            ) && final(self)@ == old(self)@ && final(values)@ == old(values)@,
            !old(self)@.closed && old(self)@.queues[pid as int] is Some ==> ({
                let q = old(self)@.queues[pid as int]->0;
                let f = final(self)@;
                &&& f.queues[pid as int] is Some
                &&& if old(values)@.len() == 0 {
                    r == Ok::<usize, PushError<()>>(0) && f == old(self)@ && final(values)@ == old(values)@
                } else if q.tail().closed {
                    r == Err::<usize, PushError<()>>(PushError::Closed(())) && f == old(self)@ && final(values)@
                        == old(values)@
                } else {
                    &&& r == Ok::<usize, PushError<()>>(old(values)@.len() as usize)
                    &&& f.queues[pid as int]->0.items() == q.items() + old(values)@
                    &&& final(values)@.len() == 0
                    &&& f == scheduled_signal(
                        InnerState { queues: old(self)@.queues.update(pid as int, f.queues[pid as int]), ..old(self)@ },
                        pid as int,
                    )
                }
            }),
    {
        proof {
            self.lemma_view();
        }
        if self.closed {
            return Err(PushError::Closed(()));
        }
        let ghost o = self@;
        let mut slot: Option<ProducerQueue<T>> = None;
        self.queues.set_and_swap(pid, &mut slot);
        proof {
            assert(o.queues[pid as int] == slot_view(slot));
        }
        match slot {
            None => {
                self.queues.set_and_swap(pid, &mut slot);
                proof {
                    self.lemma_view();
                    assert(self@.queues =~= o.queues);
                }
                Err(PushError::Closed(()))
            },
            Some(mut q) => {
                proof {
                    assert(o.queues[pid as int] == Some(q@));
                }
                let r = q.try_push_n(values);
                let mut back = Some(q);
                self.queues.set_and_swap(pid, &mut back);
                proof {
                    self.lemma_view();
                    assert(self@.queues =~= o.queues.update(pid as int, Some(q@)));
                    crate::seqs::lemma_count_some_update(o.queues, pid as int, Some(q@));
                }
                match r {
                    Ok(n) => {
                        if n > 0 {
                            self.schedule(pid);
                        } else {
                            proof {
                                assert(self@.queues =~= o.queues);
                            }
                        }
                        Ok(n)
                    },
                    Err(e) => {
                        proof {
                            assert(self@.queues =~= o.queues);
                        }
                        Err(e)
                    },
                }
            },
        }
    }
}

/// Slot `b` is slot `a` untouched but for consumption that took nothing: both free,
/// or both hold a queue with the same items and the same shape.
pub open spec fn slot_kept<T>(a: Option<UnboundedState<T>>, b: Option<UnboundedState<T>>) -> bool {
    ||| a is None && b is None
    ||| a is Some && b is Some && kept_shape(a->0, b->0) && b->0.items() == a->0.items()
}

/// Slot `b` is slot `a` kept (see `slot_kept`), or `a` held a queue that the
/// consumer found closed and freed.
pub open spec fn slot_kept_or_reaped<T>(a: Option<UnboundedState<T>>, b: Option<UnboundedState<T>>) -> bool {
    slot_kept(a, b) || (a is Some && b is None)
}

/// What consuming rounds that took nothing do: every slot is kept or reaped, and the
/// channel's flags stay.
pub open spec fn kept_or_reaped<T>(o: InnerState<T>, f: InnerState<T>) -> bool {
    &&& f.queues.len() == o.queues.len()
    &&& forall|k: int| 0 <= k < o.queues.len() ==> slot_kept_or_reaped(#[trigger] o.queues[k], f.queues[k])
    &&& f.closed == o.closed
    &&& f.max_producer_id == o.max_producer_id
}

/// The front `n` items of producer `pid`'s queue left it: they are `taken`, the
/// queue keeps the rest, and every other slot is kept or reaped.
pub open spec fn drained_from<T>(o: InnerState<T>, pid: int, n: int, taken: Seq<T>, f: InnerState<T>) -> bool {
    &&& 0 <= pid < o.queues.len()
    &&& o.queues[pid] is Some
    &&& f.queues[pid] is Some
    &&& 0 < n <= o.queues[pid]->0.items().len()
    &&& taken == o.queues[pid]->0.items().take(n)
    &&& f.queues[pid]->0.items() == o.queues[pid]->0.items().skip(n)
    &&& kept_shape(o.queues[pid]->0, f.queues[pid]->0)
    &&& f.queues.len() == o.queues.len()
    &&& forall|k: int| 0 <= k < o.queues.len() && k != pid ==> slot_kept_or_reaped(#[trigger] o.queues[k], f.queues[k])
    &&& f.closed == o.closed
    &&& f.max_producer_id == o.max_producer_id
}

proof fn lemma_kept_shape_trans<T>(a: UnboundedState<T>, b: UnboundedState<T>, c: UnboundedState<T>)
    requires
        kept_shape(a, b),
        kept_shape(b, c),
    ensures
        kept_shape(a, c),
{
    assert forall|i: int| 0 <= i < a.nodes.len() implies (#[trigger] c.nodes[i]).closed == a.nodes[i].closed
        && c.nodes[i].head == a.nodes[i].head by {
        assert(b.nodes[i].closed == a.nodes[i].closed);
    }
}

proof fn lemma_slot_trans<T>(a: Option<UnboundedState<T>>, b: Option<UnboundedState<T>>, c: Option<UnboundedState<T>>)
    requires
        slot_kept_or_reaped(a, b),
        slot_kept_or_reaped(b, c),
    ensures
        slot_kept_or_reaped(a, c),
        slot_kept(a, b) && slot_kept(b, c) ==> slot_kept(a, c),
{
    if a is Some && b is Some && c is Some {
        lemma_kept_shape_trans(a->0, b->0, c->0);
    }
}

impl<T> Inner<T> {
    /// Number of producer queues held.
    pub fn queue_count(&self) -> (r: usize)
        ensures
            r == self@.queue_count,
    {
        self.queue_count
    }

    /// Takes down bit `bit` of signal word `index`, and the word's summary bit in the
    /// waker when the word empties.
    fn take_signal(&mut self, index: usize, bit: u64)
        requires
            old(self).wf(),
            index < SIGNAL_WORDS,
            bit < 64,
        ensures
            final(self).wf(),
            final(self)@ == (InnerState {
                signals: old(self)@.signals.update(index as int, old(self)@.signals[index as int] & !(1u64 << bit)),
                waker: signal_taken(old(self)@.waker, index as int, old(self)@.signals[index as int], bit),
                ..old(self)@
            }),
    {
        proof {
            self.lemma_view();
        }
        let ghost o = self@;
        let value = self.signals[index];
        let mask = 1u64 << bit;
        let rest = value & !mask;
        self.signals.set(index, rest);
        if value == mask {
            proof {
                lemma_signal_bits(0, bit, 0);
            }
            self.waker.try_unmark_if_empty(index as u64, rest);
        }
        proof {
            self.lemma_view();
            assert(self@.queues == o.queues);
        }
    }

    /// Frees producer `pid`'s slot, whose queue was found closed.
    fn reap(&mut self, pid: usize)
        requires
            old(self).wf(),
            pid < MAX_QUEUES,
            old(self)@.queues[pid as int] is Some,
        ensures
            final(self).wf(),
            final(self)@ == (InnerState {
                queues: old(self)@.queues.update(pid as int, None),
                queue_count: (old(self)@.queue_count - 1) as usize,
                producer_count: (old(self)@.producer_count - 1) as usize,
                ..old(self)@
            }),
    {
        proof {
            self.lemma_view();
            crate::seqs::lemma_count_some_update(self@.queues, pid as int, None);
            crate::seqs::lemma_count_some_pos(self@.queues, pid as int);
        }
        let ghost o = self@;
        self.queues.set(pid, None);
        self.producer_count = self.producer_count - 1;
        self.queue_count = self.queue_count - 1;
        proof {
            self.lemma_view();
            assert(self@.queues =~= o.queues.update(pid as int, None));
        }
    }

    /// Pops one item from producer `pid`'s queue, as a batch with room for one
    /// does: the queue is signalled again when its consumer node still holds items,
    /// and a queue found closed and drained is reaped.
    fn pop_from(&mut self, pid: usize) -> (r: Result<T, PopError>)
        requires
            old(self).wf(),
            pid < MAX_QUEUES,
            old(self)@.queues[pid as int] is Some,
        ensures
            final(self).wf(),
            match r {
                Ok(x) => drained_from(old(self)@, pid as int, 1, seq![x], final(self)@),
                Err(_) => kept_or_reaped(old(self)@, final(self)@),
            },
            r == Err::<T, PopError>(PopError::Empty) ==> old(self)@.queues[pid as int]->0.items().len() == 0,
            r is Err <==> old(self)@.queues[pid as int]->0.items().len() == 0,
            r == Err::<T, PopError>(PopError::Closed) ==> final(self)@.queues[pid as int] is None,
            r is Ok ==> final(self)@ == (if consumer_node_holds_items(final(self)@.queues[pid as int]->0) {
                scheduled_signal(InnerState { queues: final(self)@.queues, ..old(self)@ }, pid as int)
            } else {
                InnerState { queues: final(self)@.queues, ..old(self)@ }
            }),
    {
        proof {
            self.lemma_view();
        }
        let ghost o = self@;
        let mut slot: Option<ProducerQueue<T>> = None;
        self.queues.set_and_swap(pid, &mut slot);
        proof {
            assert(o.queues[pid as int] == slot_view(slot));
        }
        let mut q = match slot {
            Some(q) => q,
            None => {
                proof {
                    assert(false);
                }
                return Err(PopError::Empty);
            },
        };
        let r = q.pop_one();
        let remaining = !q.is_empty();
        let mut back = Some(q);
        self.queues.set_and_swap(pid, &mut back);
        proof {
            self.lemma_view();
            assert(self@.queues =~= o.queues.update(pid as int, Some(q@)));
            crate::seqs::lemma_count_some_update(o.queues, pid as int, Some(q@));
        }
        let ghost mid = self@;
        proof {
            assert forall|k: int| 0 <= k < o.queues.len() && k != pid implies #[trigger] mid.queues[k] == o.queues[k]
                by {}
        }
        match r {
            Ok(x) => {
                if remaining {
                    self.schedule(pid);
                }
                proof {
                    let a = o.queues[pid as int]->0.items();
                    assert(seq![x] =~= a.take(1));
                    assert(a.drop_first() =~= a.skip(1));
                    assert forall|k: int| 0 <= k < o.queues.len() && k != pid implies slot_kept_or_reaped(
                        #[trigger] o.queues[k],
                        self@.queues[k],
                    ) by {
                        assert(self@.queues[k] == o.queues[k]);
                    }
                }
                Ok(x)
            },
            Err(PopError::Closed) => {
                self.reap(pid);
                proof {
                    assert forall|k: int| 0 <= k < o.queues.len() implies slot_kept_or_reaped(
                        #[trigger] o.queues[k],
                        self@.queues[k],
                    ) by {
                        if k != pid {
                            assert(self@.queues[k] == o.queues[k]);
                        }
                    }
                }
                Err(PopError::Closed)
            },
            Err(PopError::Empty) => {
                proof {
                    assert forall|k: int| 0 <= k < o.queues.len() implies slot_kept_or_reaped(
                        #[trigger] o.queues[k],
                        self@.queues[k],
                    ) by {
                        if k != pid {
                            assert(self@.queues[k] == o.queues[k]);
                        }
                    }
                }
                Err(PopError::Empty)
            },
        }
    }
}

impl<T> Inner<T> {
    /// Pops into `batch` from producer `pid`'s queue (see `UnboundedSpsc::try_pop_n`):
    /// the queue is signalled again when its consumer node still holds items, and a
    /// queue found closed is reaped (with whatever that call took from it).
    fn pop_n_from(&mut self, pid: usize, batch: &mut [T]) -> (r: Result<usize, PopError>)
        requires
            old(self).wf(),
            pid < MAX_QUEUES,
            old(self)@.queues[pid as int] is Some,
        ensures
            final(self).wf(),
            final(batch)@.len() == old(batch)@.len(),
            match r {
                Ok(n) => n <= old(batch)@.len() && drained_from(
                    old(self)@,
                    pid as int,
                    n as int,
                    final(batch)@.take(n as int),
                    final(self)@,
                ),
                Err(_) => kept_or_reaped(old(self)@, final(self)@),
            },
            r == Err::<usize, PopError>(PopError::Empty) ==> final(batch)@ == old(batch)@ && (old(batch)@.len() == 0
                || old(self)@.queues[pid as int]->0.items().len() == 0),
            r == Err::<usize, PopError>(PopError::Closed) ==> final(self)@.queues[pid as int] is None,
    {
        proof {
            self.lemma_view();
        }
        let ghost o = self@;
        let mut slot: Option<ProducerQueue<T>> = None;
        self.queues.set_and_swap(pid, &mut slot);
        proof {
            assert(o.queues[pid as int] == slot_view(slot));
        }
        let mut q = match slot {
            Some(q) => q,
            None => {
                proof {
                    assert(false);
                }
                return Err(PopError::Empty);
            },
        };
        let ghost b0 = batch@;
        let ghost q0 = q@;
        let blen = batch.len();
        let r = q.try_pop_n(batch);
        let remaining = !q.is_empty();
        let mut back = Some(q);
        self.queues.set_and_swap(pid, &mut back);
        proof {
            self.lemma_view();
            assert(self@.queues =~= o.queues.update(pid as int, Some(q@)));
            crate::seqs::lemma_count_some_update(o.queues, pid as int, Some(q@));
        }
        let ghost mid = self@;
        proof {
            assert forall|k: int| 0 <= k < o.queues.len() && k != pid implies #[trigger] mid.queues[k] == o.queues[k]
                by {}
        }
        match r {
            Ok(n) => {
                if remaining {
                    self.schedule(pid);
                }
                proof {
                    let a = o.queues[pid as int]->0.items();
                    assert(o.queues[pid as int]->0 == q0);
                    assert(n > 0);
                    assert(q@.items() == a.skip(n as int));
                    assert(batch@.take(n as int) =~= a.take(n as int));
                    assert forall|k: int| 0 <= k < o.queues.len() && k != pid implies slot_kept_or_reaped(
                        #[trigger] o.queues[k],
                        self@.queues[k],
                    ) by {
                        assert(self@.queues[k] == o.queues[k]);
                    }
                }
                Ok(n)
            },
            Err(PopError::Closed) => {
                self.reap(pid);
                proof {
                    assert forall|k: int| 0 <= k < o.queues.len() implies slot_kept_or_reaped(
                        #[trigger] o.queues[k],
                        self@.queues[k],
                    ) by {
                        if k != pid {
                            assert(self@.queues[k] == o.queues[k]);
                        }
                    }
                }
                Err(PopError::Closed)
            },
            Err(PopError::Empty) => {
                proof {
                    let a = o.queues[pid as int]->0.items();
                    assert(a.skip(0) =~= a);
                    assert(batch@ =~= b0);
                    assert forall|k: int| 0 <= k < o.queues.len() implies slot_kept_or_reaped(
                        #[trigger] o.queues[k],
                        self@.queues[k],
                    ) by {
                        if k != pid {
                            assert(self@.queues[k] == o.queues[k]);
                        }
                    }
                }
                Err(PopError::Empty)
            },
        }
    }
}

proof fn lemma_kept_or_reaped_trans<T>(a: InnerState<T>, b: InnerState<T>, c: InnerState<T>)
    requires
        kept_or_reaped(a, b),
        kept_or_reaped(b, c),
    ensures
        kept_or_reaped(a, c),
{
    assert forall|k: int| 0 <= k < a.queues.len() implies slot_kept_or_reaped(#[trigger] a.queues[k], c.queues[k]) by {
        lemma_slot_trans(a.queues[k], b.queues[k], c.queues[k]);
    }
}

proof fn lemma_drained_after_kept<T>(a: InnerState<T>, b: InnerState<T>, pid: int, n: int, taken: Seq<T>, c: InnerState<T>)
    requires
        kept_or_reaped(a, b),
        drained_from(b, pid, n, taken, c),
    ensures
        drained_from(a, pid, n, taken, c),
{
    lemma_slot_trans(a.queues[pid], b.queues[pid], b.queues[pid]);
    lemma_kept_shape_trans(a.queues[pid]->0, b.queues[pid]->0, c.queues[pid]->0);
    assert forall|k: int| 0 <= k < a.queues.len() && k != pid implies slot_kept_or_reaped(
        #[trigger] a.queues[k],
        c.queues[k],
    ) by {
        lemma_slot_trans(a.queues[k], b.queues[k], c.queues[k]);
    }
}

impl Sender {
    /// The producer's slot.
    pub fn producer_id(&self) -> (r: usize)
        ensures
            r == self.producer_id,
    {
        self.producer_id
    }

    /// Whether the channel was closed.
    pub fn is_closed<T>(&self, rx: &Receiver<T>) -> (r: bool)
        ensures
            r == rx.inner@.closed,
    {
        rx.inner.is_closed()
    }

    /// Number of registered producers.
    pub fn producer_count<T>(&self, rx: &Receiver<T>) -> (r: usize)
        ensures
            r == rx.inner@.producer_count,
    {
        rx.inner.producer_count()
    }

    /// The producer's position and the node count of this producer's queue, or
    /// `None` when its slot is free.
    pub fn push_room<T>(&self, rx: &Receiver<T>) -> (r: Option<(u64, usize)>)
        requires
            rx.inner.wf(),
            self.producer_id < MAX_QUEUES,
        ensures
            match rx.inner@.queues[self.producer_id as int] {
                Some(q) => r == Some((q.tail().head, q.nodes.len() as usize)),
                None => r is None,
            },
    {
        rx.inner.push_room(self.producer_id)
    }

    /// Pushes `value` onto this producer's queue; see `Inner::push_to`.
    pub fn try_push<T>(&mut self, rx: &mut Receiver<T>, value: T) -> (r: Result<(), PushError<T>>)
        requires
            old(rx).inner.wf(),
            old(self).producer_id < MAX_QUEUES,
            old(rx).inner@.queues[old(self).producer_id as int] is Some ==> old(rx).inner@.queues[old(self).producer_id as int]->0.tail().head
                < MAX_POSITION && old(rx).inner@.queues[old(self).producer_id as int]->0.nodes.len() < usize::MAX,
        ensures
            final(self).producer_id == old(self).producer_id,
            final(rx).inner.wf(),
            final(rx).seed == old(rx).seed,
            producer_pushed(old(rx).inner@, old(self).producer_id as int, value, r, final(rx).inner@),
    {
        rx.inner.push_to(self.producer_id, value)
    }

    /// Pushes `values` onto this producer's queue; a closed channel refuses them.
    pub fn try_push_n<T: Copy>(&mut self, rx: &mut Receiver<T>, values: &mut Vec<T>) -> (r: Result<usize, PushError<()>>)
        requires
            old(rx).inner.wf(),
            old(self).producer_id < MAX_QUEUES,
            old(rx).inner@.queues[old(self).producer_id as int] is Some ==> old(rx).inner@.queues[old(self).producer_id as int]->0.tail().head
                + old(values)@.len() <= MAX_POSITION && old(rx).inner@.queues[old(self).producer_id as int]->0.nodes.len()
                + old(values)@.len() + 1 < usize::MAX,
        ensures
            final(self).producer_id == old(self).producer_id,
            final(rx).inner.wf(),
            final(rx).seed == old(rx).seed,
            old(rx).inner@.closed || old(rx).inner@.queues[old(self).producer_id as int] is None ==> r == Err::<usize, PushError<()>>(
                PushError::Closed(()),
            ) && final(values)@ == old(values)@,
            !old(rx).inner@.closed && old(rx).inner@.queues[old(self).producer_id as int] is Some && !old(rx).inner@.queues[old(self).producer_id as int]->0.tail().closed
                ==> r == Ok::<usize, PushError<()>>(old(values)@.len() as usize) && queue_items(
                final(rx).inner@,
                old(self).producer_id as int,
            ) == queue_items(old(rx).inner@, old(self).producer_id as int) + old(values)@ && final(values)@.len() == 0,
            !old(rx).inner@.closed && old(rx).inner@.queues[old(self).producer_id as int] is Some && !old(rx).inner@.queues[old(self).producer_id as int]->0.tail().closed
                && old(values)@.len() > 0 ==> final(rx).inner@ == scheduled_signal(
                InnerState {
                    queues: old(rx).inner@.queues.update(
                        old(self).producer_id as int,
                        final(rx).inner@.queues[old(self).producer_id as int],
                    ),
                    ..old(rx).inner@
                },
                old(self).producer_id as int,
            ),
    {
        let ghost v0 = values@;
        let ghost pid = self.producer_id as int;
        let r = rx.inner.push_n_to(self.producer_id, values);
        proof {
            assert(queue_items(old(rx).inner@, pid) + Seq::<T>::empty() =~= queue_items(old(rx).inner@, pid));
            assert(v0.len() == 0 ==> v0 =~= Seq::<T>::empty());
        }
        r
    }

    /// Closes the whole channel; see `Inner::close`.
    pub fn close<T>(&mut self, rx: &mut Receiver<T>) -> (r: bool)
        requires
            old(rx).inner.wf(),
        ensures
            final(self).producer_id == old(self).producer_id,
            final(rx).inner.wf(),
            r,
            final(rx).inner@.closed,
            final(rx).inner@.producer_count == 0,
    {
        rx.inner.close()
    }

    /// Closes this producer's queue, as dropping the producer does.
    pub fn close_channel<T>(&self, rx: &mut Receiver<T>)
        requires
            old(rx).inner.wf(),
            self.producer_id < MAX_QUEUES,
        ensures
            final(rx).inner.wf(),
            final(rx).seed == old(rx).seed,
            old(rx).inner@.queues[self.producer_id as int] is Some ==> final(rx).inner@.queues[self.producer_id as int]->0.tail().closed,
            final(rx).inner@.producer_count == old(rx).inner@.producer_count,
    {
        rx.inner.close_queue(self.producer_id)
    }
}

/// The consumer of a channel; it owns the channel's shared state.
pub struct Receiver<T> {
    pub inner: Inner<T>,
    pub misses: u64,
    pub seed: u64,
}

/// The consumer's generator step: a 48-bit linear congruential generator.
pub open spec fn lcg_next(seed: u64) -> u64 {
    vstd::wrapping::u64_specs::wrapping_add(vstd::wrapping::u64_specs::wrapping_mul(seed, RND_MULTIPLIER), RND_ADDEND)
        & RND_MASK
}

/// The generator `n` steps on from `seed`.
pub open spec fn lcg_iter(seed: u64, n: nat) -> u64
    decreases n,
{
    if n == 0 {
        seed
    } else {
        lcg_next(lcg_iter(seed, (n - 1) as nat))
    }
}

/// Whether `idx` is the signal word a consumer looks at for the draw `rw` (below
/// 62): the word the waker's summary marks nearest to `rw` (the lower one on a tie),
/// or `rw` itself when no word is marked.
pub open spec fn word_picked(w: WakerState, rw: u64, idx: int) -> bool {
    let sm = w.status & STATUS_SUMMARY_MASK;
    if sm == 0 {
        idx == rw
    } else {
        exists|b: u64|
            #[trigger] nearest_bit(sm, rw, b) && idx == (if b >= 62 {
                rw as int
            } else {
                b as int
            })
    }
}

/// What one pick of a signalled producer does with the generator at `seed`: the
/// first draw picks a signal word (see `word_picked`), the second a position; a word
/// with no bit set gives nothing and changes nothing; otherwise its set bit nearest
/// the position is taken down, and the producer of that bit is picked when its slot
/// holds a queue.
pub open spec fn acquired<T>(o: InnerState<T>, seed: u64, r: Option<usize>, f: InnerState<T>) -> bool {
    let rw = ((lcg_next(seed) >> 16u64) % 62) as u64;
    let start = (lcg_next(lcg_next(seed)) >> 16u64) & 63;
    exists|idx: int|
        #[trigger] word_picked(o.waker, rw, idx) && 0 <= idx < SIGNAL_WORDS && ({
            let value = o.signals[idx];
            if value == 0 {
                r is None && f == o
            } else {
                exists|bit: u64|
                    #[trigger] nearest_bit(value, start, bit) && f == (InnerState {
                        signals: o.signals.update(idx, value & !(1u64 << bit)),
                        waker: signal_taken(o.waker, idx, value, bit),
                        ..o
                    }) && r == (if o.queues[idx * 64 + bit] is Some {
                        Some((idx * 64 + bit) as usize)
                    } else {
                        None::<usize>
                    })
            }
        })
}

/// Whether a round of picking a producer from `o`, with the generator at `seed`,
/// took nothing and left `f`: no producer was picked (see `acquired`), or the picked
/// producer's queue gave nothing.
pub open spec fn round_missed<T>(o: InnerState<T>, seed: u64, f: InnerState<T>) -> bool {
    exists|pick: Option<usize>, mid: InnerState<T>|
        #[trigger] acquired(o, seed, pick, mid) && match pick {
            None => f == mid,
            Some(pid) => kept_or_reaped(mid, f) && mid.queues[pid as int]->0.items().len() == 0,
        }
}

/// Whether a round of picking a producer to take a batch of `room` items from `o`,
/// with the generator at `seed`, took nothing and left `f`: no producer was picked,
/// or the batch had no room, or the picked producer's queue was empty, or its
/// consumer node was found empty and closed and the queue was freed.
pub open spec fn batch_round_missed<T>(o: InnerState<T>, seed: u64, room: nat, f: InnerState<T>) -> bool {
    exists|pick: Option<usize>, mid: InnerState<T>|
        #[trigger] acquired(o, seed, pick, mid) && match pick {
            None => f == mid,
            Some(pid) => kept_or_reaped(mid, f) && (room == 0 || mid.queues[pid as int]->0.items().len() == 0
                || f.queues[pid as int] is None),
        }
}

/// Whether `n` batch rounds with room for `room` items from `o`, the generator
/// starting at `seed` and drawing twice a round, all took nothing and left `f`.
pub open spec fn batch_rounds_missed<T>(o: InnerState<T>, seed: u64, room: nat, n: nat, f: InnerState<T>) -> bool {
    exists|states: Seq<InnerState<T>>|
        states.len() == n + 1 && states[0] == o && states[n as int] == f && forall|i: int|
            0 <= i < n ==> #[trigger] batch_round_missed(
                states[i],
                lcg_iter(seed, (2 * i) as nat),
                room,
                states[i + 1],
            )
}

/// Whether `n` rounds from `o`, the generator starting at `seed` and drawing twice a
/// round, all took nothing and left `f`.
pub open spec fn rounds_missed<T>(o: InnerState<T>, seed: u64, n: nat, f: InnerState<T>) -> bool {
    exists|states: Seq<InnerState<T>>|
        states.len() == n + 1 && states[0] == o && states[n as int] == f && forall|i: int|
            0 <= i < n ==> #[trigger] round_missed(states[i], lcg_iter(seed, (2 * i) as nat), states[i + 1])
}

impl<T> Receiver<T> {
    /// Advances the consumer's generator and returns the high bits of the new seed.
    pub fn next(&mut self) -> (r: u64)
        ensures
            final(self).seed == lcg_next(old(self).seed),
            r == final(self).seed >> 16u64,
            final(self).inner@ == old(self).inner@,
            final(self).misses == old(self).misses,
    {
        let old_seed = self.seed;
        let next_seed = old_seed.wrapping_mul(RND_MULTIPLIER).wrapping_add(RND_ADDEND) & RND_MASK;
        self.seed = next_seed;
        next_seed >> 16
    }

    /// Whether the channel was closed.
    pub fn is_closed(&self) -> (r: bool)
        ensures
            r == self.inner@.closed,
    {
        self.inner.is_closed()
    }

    /// Closes the channel; see `Inner::close`.
    pub fn close(&mut self) -> (r: bool)
        requires
            old(self).inner.wf(),
        ensures
            final(self).inner.wf(),
            r,
            final(self).inner@.closed,
            final(self).inner@.producer_count == 0,
            forall|i: int| 0 <= i < MAX_QUEUES ==> #[trigger] final(self).inner@.queues[i] is None,
    {
        self.inner.close()
    }

    /// Number of registered producers.
    pub fn producer_count(&self) -> (r: usize)
        ensures
            r == self.inner@.producer_count,
    {
        self.inner.producer_count()
    }

    /// Registers a producer; see `Inner::create_sender_with_config`.
    pub fn create_sender(&mut self) -> (r: Result<Sender, PushError<()>>)
        requires
            old(self).inner.wf(),
        ensures
            final(self).inner.wf(),
            sender_created(old(self).inner@, r, final(self).inner@),
    {
        self.inner.create_sender()
    }

    /// Registers a producer; see `Inner::create_sender_with_config`.
    pub fn create_sender_with_config(&mut self, max_pooled_segments: usize) -> (r: Result<Sender, PushError<()>>)
        requires
            old(self).inner.wf(),
        ensures
            final(self).inner.wf(),
            sender_created(old(self).inner@, r, final(self).inner@),
    {
        self.inner.create_sender_with_config(max_pooled_segments)
    }

    /// Picks a signalled producer: a signal word near a random one among those the
    /// waker's summary marks (the random one when none is), then the signalled bit
    /// nearest a random position in it, which is taken down (and the summary bit
    /// too when the word empties). A miss when the word has no bit set or the bit's
    /// slot is free.
    #[verifier::rlimit(30)]
    fn acquire(&mut self) -> (r: Option<usize>)
        requires
            old(self).inner.wf(),
        ensures
            final(self).inner.wf(),
            final(self).inner@ == (InnerState {
                signals: final(self).inner@.signals,
                waker: final(self).inner@.waker,
                ..old(self).inner@
            }),
            r matches Some(pid) ==> pid < MAX_QUEUES && old(self).inner@.queues[pid as int] is Some,
            final(self).seed == lcg_next(lcg_next(old(self).seed)),
            acquired(old(self).inner@, old(self).seed, r, final(self).inner@),
            final(self).misses == if r is None {
                old(self).misses.wrapping_add(1)
            } else {
                old(self).misses
            },
    {
        proof {
            self.inner.lemma_view();
        }
        let ghost o = self.inner@;
        let random = self.next();
        let random_word = (random % 62) as usize;
        let mut signal_index = self.inner.waker.summary_select(random_word as u64) as usize;
        if signal_index >= SIGNAL_WORDS {
            signal_index = random_word;
        }
        proof {
            let rw = random_word as u64;
            let sm = o.waker.status & STATUS_SUMMARY_MASK;
            assert(word_picked(o.waker, rw, signal_index as int));
        }
        let draw = self.next();
        let start = draw & 63;
        assert(start < 64) by (bit_vector)
            requires
                start == draw & 63,
        ;
        let value = self.inner.signals[signal_index];
        let signal_bit = find_nearest(value, start);
        if signal_bit >= 64 {
            self.misses = self.misses.wrapping_add(1);
            return None;
        }
        self.inner.take_signal(signal_index, signal_bit);
        let producer_id = signal_index * 64 + signal_bit as usize;
        proof {
            self.inner.lemma_view();
        }
        if self.inner.queues[producer_id].is_none() {
            self.misses = self.misses.wrapping_add(1);
            return None;
        }
        Some(producer_id)
    }

    /// Up to 64 attempts to take a batch from a signalled producer; the number taken
    /// and the producer, or nothing.
    fn try_pop_n_with_producer(&mut self, batch: &mut [T]) -> (r: (usize, Option<usize>))
        requires
            old(self).inner.wf(),
        ensures
            final(self).inner.wf(),
            final(batch)@.len() == old(batch)@.len(),
            r.0 <= old(batch)@.len(),
            r.0 == 0 ==> r.1 is None && kept_or_reaped(old(self).inner@, final(self).inner@) && final(self).seed
                == lcg_iter(old(self).seed, 128) && batch_rounds_missed(
                old(self).inner@,
                old(self).seed,
                old(batch)@.len(),
                64,
                final(self).inner@,
            ),
            r.0 > 0 ==> r.1 is Some && drained_from(
                old(self).inner@,
                r.1->0 as int,
                r.0 as int,
                final(batch)@.take(r.0 as int),
                final(self).inner@,
            ),
    {
        let ghost o = self.inner@;
        let ghost blen = batch@.len();
        let ghost mut states: Seq<InnerState<T>> = seq![o];
        let mut round: u32 = 0;
        while round < 64
            invariant
                self.inner.wf(),
                o == old(self).inner@,
                blen == old(batch)@.len(),
                batch@.len() == blen,
                kept_or_reaped(o, self.inner@),
                round <= 64,
                self.seed == lcg_iter(old(self).seed, (2 * round) as nat),
                states.len() == round + 1,
                states[0] == o,
                states[round as int] == self.inner@,
                forall|i: int|
                    0 <= i < round ==> #[trigger] batch_round_missed(
                        states[i],
                        lcg_iter(old(self).seed, (2 * i) as nat),
                        blen,
                        states[i + 1],
                    ),
            decreases 64 - round,
        {
            let ghost before = self.inner@;
            let ghost seed_before = self.seed;
            match self.acquire() {
                Some(producer_id) => {
                    proof {
                        assert(kept_or_reaped(before, self.inner@));
                        lemma_kept_or_reaped_trans(o, before, self.inner@);
                    }
                    let ghost mid = self.inner@;
                    match self.inner.pop_n_from(producer_id, batch) {
                        Ok(size) => {
                            proof {
                                lemma_drained_after_kept(o, mid, producer_id as int, size as int, batch@.take(size as int), self.inner@);
                            }
                            return (size, Some(producer_id));
                        },
                        Err(PopError::Closed) => {
                            proof {
                                lemma_kept_or_reaped_trans(o, mid, self.inner@);
                            }
                        },
                        Err(PopError::Empty) => {
                            self.misses = self.misses.wrapping_add(1);
                            proof {
                                lemma_kept_or_reaped_trans(o, mid, self.inner@);
                            }
                        },
                    }
                },
                None => {
                    proof {
                        assert(kept_or_reaped(before, self.inner@));
                        lemma_kept_or_reaped_trans(o, before, self.inner@);
                    }
                },
            }
            proof {
                assert(lcg_iter(old(self).seed, (2 * round + 2) as nat) == lcg_next(
                    lcg_iter(old(self).seed, (2 * round + 1) as nat),
                ));
                assert(lcg_iter(old(self).seed, (2 * round + 1) as nat) == lcg_next(
                    lcg_iter(old(self).seed, (2 * round) as nat),
                ));
                assert(batch_round_missed(before, seed_before, blen, self.inner@));
                let ghost prev = states;
                states = states.push(self.inner@);
                assert forall|i: int| 0 <= i < round + 1 implies #[trigger] batch_round_missed(
                    states[i],
                    lcg_iter(old(self).seed, (2 * i) as nat),
                    blen,
                    states[i + 1],
                ) by {
                    if i < round {
                        assert(states[i] == prev[i] && states[i + 1] == prev[i + 1]);
                    }
                }
            }
            round = round + 1;
        }
        proof {
            assert(batch_rounds_missed(o, old(self).seed, blen, 64, self.inner@));
        }
        (0, None)
    }

    /// Up to 64 attempts to take one item from a signalled producer.
    fn pop_with_producer(&mut self) -> (r: Option<(T, usize)>)
        requires
            old(self).inner.wf(),
        ensures
            final(self).inner.wf(),
            match r {
                Some((x, pid)) => drained_from(old(self).inner@, pid as int, 1, seq![x], final(self).inner@),
                None => kept_or_reaped(old(self).inner@, final(self).inner@) && final(self).seed == lcg_iter(
                old(self).seed,
                128,
            ) && rounds_missed(old(self).inner@, old(self).seed, 64, final(self).inner@),
            },
            forall|p: int|
                #[trigger] sole_signalled(old(self).inner@, p) && old(self).inner@.queues[p]->0.items().len() > 0 ==> (r
                    matches Some((_, q)) && q == p) && (consumer_node_holds_items(final(self).inner@.queues[p]->0)
                    ==> sole_signalled(final(self).inner@, p)),
    {
        let ghost o = self.inner@;
        let ghost mut states: Seq<InnerState<T>> = seq![o];
        let mut round: u32 = 0;
        while round < 64
            invariant
                self.inner.wf(),
                o == old(self).inner@,
                kept_or_reaped(o, self.inner@),
                round <= 64,
                self.seed == lcg_iter(old(self).seed, (2 * round) as nat),
                states.len() == round + 1,
                states[0] == o,
                states[round as int] == self.inner@,
                forall|i: int|
                    0 <= i < round ==> #[trigger] round_missed(
                        states[i],
                        lcg_iter(old(self).seed, (2 * i) as nat),
                        states[i + 1],
                    ),
                forall|p: int| #[trigger] sole_signalled(o, p) && o.queues[p]->0.items().len() > 0 ==> round == 0,
            decreases 64 - round,
        {
            let ghost before = self.inner@;
            let ghost seed_before = self.seed;
            match self.acquire() {
                Some(producer_id) => {
                    proof {
                        assert(kept_or_reaped(before, self.inner@));
                        lemma_kept_or_reaped_trans(o, before, self.inner@);
                    }
                    let ghost mid = self.inner@;
                    match self.inner.pop_from(producer_id) {
                        Ok(x) => {
                            proof {
                                lemma_drained_after_kept(o, mid, producer_id as int, 1, seq![x], self.inner@);
                                assert forall|p: int|
                                    #[trigger] sole_signalled(o, p) && o.queues[p]->0.items().len() > 0 implies producer_id
                                        == p && (consumer_node_holds_items(self.inner@.queues[p]->0) ==> sole_signalled(
                                        self.inner@,
                                        p,
                                    )) by {
                                    lemma_sole_acquired(o, seed_before, Some(producer_id), mid, p);
                                    if consumer_node_holds_items(self.inner@.queues[p]->0) {
                                        lemma_sole_resignalled(
                                            o,
                                            InnerState { queues: self.inner@.queues, ..mid },
                                            p,
                                        );
                                    }
                                }
                            }
                            return Some((x, producer_id));
                        },
                        Err(PopError::Closed) => {
                            proof {
                                lemma_kept_or_reaped_trans(o, mid, self.inner@);
                                assert forall|p: int|
                                    #[trigger] sole_signalled(o, p) && o.queues[p]->0.items().len() > 0 implies false by {
                                    lemma_sole_acquired(o, seed_before, Some(producer_id), mid, p);
                                }
                            }
                        },
                        Err(PopError::Empty) => {
                            self.misses = self.misses.wrapping_add(1);
                            proof {
                                lemma_kept_or_reaped_trans(o, mid, self.inner@);
                                assert forall|p: int|
                                    #[trigger] sole_signalled(o, p) && o.queues[p]->0.items().len() > 0 implies false by {
                                    lemma_sole_acquired(o, seed_before, Some(producer_id), mid, p);
                                }
                            }
                        },
                    }
                },
                None => {
                    proof {
                        assert(kept_or_reaped(before, self.inner@));
                        lemma_kept_or_reaped_trans(o, before, self.inner@);
                        assert forall|p: int|
                            #[trigger] sole_signalled(o, p) && o.queues[p]->0.items().len() > 0 implies false by {
                            lemma_sole_acquired(o, seed_before, None, self.inner@, p);
                        }
                    }
                },
            }
            proof {
                assert(lcg_iter(old(self).seed, (2 * round + 2) as nat) == lcg_next(
                    lcg_iter(old(self).seed, (2 * round + 1) as nat),
                ));
                assert(lcg_iter(old(self).seed, (2 * round + 1) as nat) == lcg_next(
                    lcg_iter(old(self).seed, (2 * round) as nat),
                ));
                assert(round_missed(before, seed_before, self.inner@));
                let ghost prev = states;
                states = states.push(self.inner@);
                assert forall|i: int| 0 <= i < round + 1 implies #[trigger] round_missed(
                    states[i],
                    lcg_iter(old(self).seed, (2 * i) as nat),
                    states[i + 1],
                ) by {
                    if i < round {
                        assert(states[i] == prev[i] && states[i + 1] == prev[i + 1]);
                    }
                }
            }
            round = round + 1;
        }
        proof {
            assert(rounds_missed(o, old(self).seed, 64, self.inner@));
        }
        None
    }

    /// Takes up to `batch.len()` items from one signalled producer into the front of
    /// `batch`; the number taken (0 when none was found).
    pub fn try_pop_n(&mut self, batch: &mut [T]) -> (r: usize)
        requires
            old(self).inner.wf(),
        ensures
            final(self).inner.wf(),
            final(batch)@.len() == old(batch)@.len(),
            r <= old(batch)@.len(),
            r == 0 ==> kept_or_reaped(old(self).inner@, final(self).inner@) && final(self).seed == lcg_iter(
                old(self).seed,
                128,
            ) && batch_rounds_missed(old(self).inner@, old(self).seed, old(batch)@.len(), 64, final(self).inner@),
            r > 0 ==> exists|pid: int|
                #[trigger] drained_from(old(self).inner@, pid, r as int, final(batch)@.take(r as int), final(self).inner@),
    {
        let (n, producer) = self.try_pop_n_with_producer(batch);
        proof {
            if n > 0 {
                assert(drained_from(old(self).inner@, producer->0 as int, n as int, batch@.take(n as int), self.inner@));
            }
        }
        n
    }

    /// Takes one item and tells which producer it came from; `Closed` when nothing
    /// was found and the channel is closed with no producer left, else `Empty`.
    pub fn try_pop_with_id(&mut self) -> (r: Result<(T, usize), PopError>)
        requires
            old(self).inner.wf(),
        ensures
            final(self).inner.wf(),
            match r {
                Ok((x, pid)) => drained_from(old(self).inner@, pid as int, 1, seq![x], final(self).inner@),
                Err(e) => kept_or_reaped(old(self).inner@, final(self).inner@) && (e is Closed <==> (final(self).inner@.closed
                    && final(self).inner@.producer_count == 0)) && final(self).seed == lcg_iter(old(self).seed, 128)
                    && rounds_missed(old(self).inner@, old(self).seed, 64, final(self).inner@),
            },
            forall|p: int|
                #[trigger] sole_signalled(old(self).inner@, p) && old(self).inner@.queues[p]->0.items().len() > 0 ==> (r
                    matches Ok((_, q)) && q == p) && (consumer_node_holds_items(final(self).inner@.queues[p]->0)
                    ==> sole_signalled(final(self).inner@, p)),
    {
        match self.pop_with_producer() {
            Some(found) => Ok(found),
            None => {
                if self.inner.is_closed() && self.inner.producer_count() == 0 {
                    Err(PopError::Closed)
                } else {
                    Err(PopError::Empty)
                }
            },
        }
    }

    /// Takes one item; see `try_pop_with_id`.
    pub fn try_pop(&mut self) -> (r: Result<T, PopError>)
        requires
            old(self).inner.wf(),
        ensures
            final(self).inner.wf(),
            r is Ok ==> exists|pid: int| #[trigger] drained_from(old(self).inner@, pid, 1, seq![r->Ok_0], final(self).inner@),
            r is Err ==> kept_or_reaped(old(self).inner@, final(self).inner@) && (r->Err_0 is Closed <==> (final(self).inner@.closed
                && final(self).inner@.producer_count == 0)) && final(self).seed == lcg_iter(old(self).seed, 128)
                && rounds_missed(old(self).inner@, old(self).seed, 64, final(self).inner@),
            forall|p: int|
                #[trigger] sole_signalled(old(self).inner@, p) && old(self).inner@.queues[p]->0.items().len() > 0 ==> r
                    == Ok::<T, PopError>(old(self).inner@.queues[p]->0.items()[0]) && (consumer_node_holds_items(
                    final(self).inner@.queues[p]->0,
                ) ==> sole_signalled(final(self).inner@, p)),
    {
        match self.try_pop_with_id() {
            Ok((x, pid)) => {
                let r = Ok(x);
                proof {
                    assert(seq![x][0] == old(self).inner@.queues[pid as int]->0.items().take(1)[0]);
                    assert(drained_from(old(self).inner@, pid as int, 1, seq![x], self.inner@));
                    assert(seq![x] =~= seq![r->Ok_0]);
                    assert(exists|p: int| #[trigger] drained_from(old(self).inner@, p, 1, seq![r->Ok_0], self.inner@));
                }
                r
            },
            Err(e) => Err(e),
        }
    }
}

/// The number of items a producer slot holds.
pub open spec fn slot_len<T>(q: Option<UnboundedState<T>>) -> nat {
    match q {
        Some(x) => x.items().len(),
        None => 0,
    }
}

/// The number of items queued over all producer slots.
pub open spec fn total_items<T>(qs: Seq<Option<UnboundedState<T>>>) -> nat
    decreases qs.len(),
{
    if qs.len() == 0 {
        0
    } else {
        total_items(qs.drop_last()) + slot_len(qs.last())
    }
}

proof fn lemma_total_items_le<T>(a: Seq<Option<UnboundedState<T>>>, b: Seq<Option<UnboundedState<T>>>, p: int)
    requires
        a.len() == b.len(),
        forall|k: int| 0 <= k < a.len() ==> slot_len(#[trigger] b[k]) <= slot_len(a[k]),
    ensures
        total_items(b) <= total_items(a),
        0 <= p < a.len() && slot_len(b[p]) < slot_len(a[p]) ==> total_items(b) < total_items(a),
    decreases a.len(),
{
    if a.len() > 0 {
        let n = a.len() - 1;
        assert forall|k: int| 0 <= k < n implies slot_len(#[trigger] b.drop_last()[k]) <= slot_len(a.drop_last()[k]) by {
            assert(b.drop_last()[k] == b[k]);
            assert(a.drop_last()[k] == a[k]);
        }
        lemma_total_items_le(a.drop_last(), b.drop_last(), p);
        assert(slot_len(b[n]) <= slot_len(a[n]));
        if 0 <= p < n {
            assert(b.drop_last()[p] == b[p]);
            assert(a.drop_last()[p] == a[p]);
        }
    }
}

/// Consuming rounds that took nothing leave no more items queued.
pub proof fn lemma_kept_or_reaped_items<T>(o: InnerState<T>, f: InnerState<T>)
    requires
        kept_or_reaped(o, f),
    ensures
        total_items(f.queues) <= total_items(o.queues),
{
    assert forall|k: int| 0 <= k < o.queues.len() implies slot_len(#[trigger] f.queues[k]) <= slot_len(o.queues[k]) by {
        assert(slot_kept_or_reaped(o.queues[k], f.queues[k]));
    }
    lemma_total_items_le(o.queues, f.queues, -1);
}

/// Taking items from a producer leaves fewer items queued.
pub proof fn lemma_drained_items<T>(o: InnerState<T>, pid: int, n: int, taken: Seq<T>, f: InnerState<T>)
    requires
        drained_from(o, pid, n, taken, f),
    ensures
        total_items(f.queues) < total_items(o.queues),
{
    assert forall|k: int| 0 <= k < o.queues.len() implies slot_len(#[trigger] f.queues[k]) <= slot_len(o.queues[k]) by {
        if k != pid {
            assert(slot_kept_or_reaped(o.queues[k], f.queues[k]));
        }
    }
    lemma_total_items_le(o.queues, f.queues, pid);
}

/// A channel with a fresh waker and a random seed.
pub fn new<T>() -> (r: Receiver<T>)
    ensures
        r.inner.wf(),
        !r.inner@.closed,
        r.inner@.producer_count == 0,
        r.inner@.max_producer_id == 0,
        forall|i: int| 0 <= i < MAX_QUEUES ==> #[trigger] r.inner@.queues[i] is None,
        r.inner@.signals == Seq::new(SIGNAL_WORDS as nat, |i: int| 0u64),
        r.inner@.waker.status == 0,
        r.misses == 0,
{
    new_with_waker(WorkerWaker::new())
}

/// A channel signalling through `waker`, with a random seed.
pub fn new_with_waker<T>(waker: WorkerWaker) -> (r: Receiver<T>)
    ensures
        r.inner.wf(),
        !r.inner@.closed,
        r.inner@.producer_count == 0,
        r.inner@.waker == waker@,
        r.inner@.max_producer_id == 0,
        forall|i: int| 0 <= i < MAX_QUEUES ==> #[trigger] r.inner@.queues[i] is None,
        r.inner@.signals == Seq::new(SIGNAL_WORDS as nat, |i: int| 0u64),
        r.misses == 0,
{
    let inner = Inner::new_with_waker(waker);
    Receiver { inner, misses: 0, seed: crate::rng::random_seed() }
}

/// A channel and its first producer.
pub fn new_with_sender<T>() -> (r: (Sender, Receiver<T>))
    ensures
        r.1.inner.wf(),
        !r.1.inner@.closed,
        r.1.inner@.producer_count == 1,
        r.0.producer_id == 0,
        r.1.inner@.queues[0] is Some,
        r.1.inner@.queues[0]->0.items().len() == 0,
        r.1.inner@.queues[0]->0.nodes.len() == 1,
        r.1.inner@.queues[0]->0.tail().head == 0,
        !r.1.inner@.queues[0]->0.tail().closed,
        forall|i: int| 1 <= i < MAX_QUEUES ==> #[trigger] r.1.inner@.queues[i] is None,
        r.1.inner@.signals == Seq::new(SIGNAL_WORDS as nat, |i: int| 0u64),
        r.1.inner@.waker.status == 0,
{
    let mut rx = new();
    proof {
        rx.inner.lemma_view();
        assert(rx.inner@.queues[0] is None);
        crate::seqs::lemma_count_some_bound(rx.inner@.queues);
    }
    let res = rx.inner.create_sender();
    proof {
        assert(rx.inner@.queues.len() == MAX_QUEUES);
    }
    let tx = match res {
        Ok(s) => s,
        Err(_) => Sender { producer_id: 0 },
    };
    proof {
        rx.inner.lemma_view();
    }
    (tx, rx)
}

/// Each producer's items come out in the order it pushed them: after a successful
/// push by producer `pid`, taking an item from that producer yields its oldest
/// queued item (the pushed one when its queue was empty), and the pushed item stays
/// queued behind the rest.
pub proof fn lemma_producer_fifo<T>(
    o: InnerState<T>,
    pid: int,
    value: T,
    r: Result<(), PushError<T>>,
    f: InnerState<T>,
    x: T,
    g: InnerState<T>,
)
    requires
        0 <= pid < o.queues.len(),
        producer_pushed(o, pid, value, r, f),
        r is Ok,
        drained_from(f, pid, 1, seq![x], g),
    ensures
        o.queues[pid] is Some,
        o.queues[pid]->0.items().len() == 0 ==> x == value && g.queues[pid]->0.items().len() == 0,
        o.queues[pid]->0.items().len() > 0 ==> x == o.queues[pid]->0.items()[0] && g.queues[pid]->0.items()
            == o.queues[pid]->0.items().drop_first().push(value),
{
    let a = o.queues[pid]->0.items();
    let b = f.queues[pid]->0.items();
    assert(b == a.push(value));
    assert(seq![x][0] == b.take(1)[0]);
    if a.len() > 0 {
        assert(b.skip(1) =~= a.drop_first().push(value));
    } else {
        assert(b.skip(1) =~= Seq::<T>::empty());
    }
}

/// A closed channel with no producer left has nothing to take from any producer,
/// so a pop finds nothing and answers `Closed`, and it refuses every push with
/// `Closed`.
pub proof fn lemma_closed_channel_refuses<T>(s: InnerState<T>, pid: int, value: T, n: int, taken: Seq<T>, f: InnerState<T>)
    requires
        s.wf(),
        s.closed,
        s.producer_count == 0,
        0 <= pid < MAX_QUEUES,
    ensures
        !drained_from(s, pid, n, taken, f),
        producer_pushed(s, pid, value, Err(PushError::Closed(value)), s),
{
    if s.queues[pid] is Some {
        crate::seqs::lemma_count_some_pos(s.queues, pid);
    }
}

/// Bit facts about single-bit signal words and summary marks: bit `b` of the word
/// `1 << i` is set only when `b == i`, and raising or taking down bit `i` of a
/// summary status that marks only it (or nothing) leaves it marking only `i`.
proof fn lemma_signal_bits(st: u64, i: u64, b: u64)
    by (bit_vector)
    requires
        i < 64,
        b < 64,
    ensures
        1u64 << i != 0,
        (1u64 << i) & !(1u64 << i) == 0,
        0u64 | (1u64 << i) == 1u64 << i,
        (1u64 << i) | (1u64 << i) == 1u64 << i,
        ((1u64 << i) >> b) & 1u64 == 1u64 ==> b == i,
        i < 62 && st & 0x3FFF_FFFF_FFFF_FFFFu64 == 1u64 << i ==> ((st & !(1u64 << i)) | (1u64 << i))
            & 0x3FFF_FFFF_FFFF_FFFFu64 == 1u64 << i,
        i < 62 && st & 0x3FFF_FFFF_FFFF_FFFFu64 == 0 ==> (st | (1u64 << i)) & 0x3FFF_FFFF_FFFF_FFFFu64 == 1u64 << i,
{
}

/// A pick from a state where producer `pid` is the one signalled (see
/// `sole_signalled`) picks `pid`, takes its signal bit down and clears its word's
/// summary bit, and changes nothing else.
proof fn lemma_sole_acquired<T>(o: InnerState<T>, seed: u64, pick: Option<usize>, mid: InnerState<T>, pid: int)
    requires
        o.wf(),
        sole_signalled(o, pid),
        acquired(o, seed, pick, mid),
    ensures
        pick == Some(pid as usize),
        mid == (InnerState {
            signals: o.signals.update(pid / 64, 0u64),
            waker: WakerState { status: o.waker.status & !(1u64 << ((pid / 64) as u64)), ..o.waker },
            ..o
        }),
{
    let w = pid / 64;
    let bb = pid % 64;
    let rw = ((lcg_next(seed) >> 16u64) % 62) as u64;
    let start = (lcg_next(lcg_next(seed)) >> 16u64) & 63;
    let idx = choose|idx: int|
        #[trigger] word_picked(o.waker, rw, idx) && 0 <= idx < SIGNAL_WORDS && ({
            let value = o.signals[idx];
            if value == 0 {
                pick is None && mid == o
            } else {
                exists|bit: u64|
                    #[trigger] nearest_bit(value, start, bit) && mid == (InnerState {
                        signals: o.signals.update(idx, value & !(1u64 << bit)),
                        waker: signal_taken(o.waker, idx, value, bit),
                        ..o
                    }) && pick == (if o.queues[idx * 64 + bit] is Some {
                        Some((idx * 64 + bit) as usize)
                    } else {
                        None::<usize>
                    })
            }
        });
    let sm = o.waker.status & STATUS_SUMMARY_MASK;
    let wu = w as u64;
    let bu = bb as u64;
    lemma_signal_bits(0, wu, 0);
    let b = choose|b: u64|
        #[trigger] nearest_bit(sm, rw, b) && idx == (if b >= 62 {
            rw as int
        } else {
            b as int
        });
    lemma_signal_bits(0, wu, b);
    assert(idx == w);
    let value = o.signals[w];
    lemma_signal_bits(0, bu, 0);
    let bit = choose|bit: u64|
        #[trigger] nearest_bit(value, start, bit) && mid == (InnerState {
            signals: o.signals.update(idx, value & !(1u64 << bit)),
            waker: signal_taken(o.waker, idx, value, bit),
            ..o
        }) && pick == (if o.queues[idx * 64 + bit] is Some {
            Some((idx * 64 + bit) as usize)
        } else {
            None::<usize>
        });
    lemma_signal_bits(0, bu, bit);
    assert(idx * 64 + bit == pid);
}

/// Signalling producer `pid` again after a pick took its signal down restores the
/// state in which it is the one a pick finds.
proof fn lemma_sole_resignalled<T>(o: InnerState<T>, g: InnerState<T>, pid: int)
    requires
        o.wf(),
        sole_signalled(o, pid),
        g.queues[pid] is Some,
        g.signals == o.signals.update(pid / 64, 0u64),
        g.waker.status == o.waker.status & !(1u64 << ((pid / 64) as u64)),
    ensures
        sole_signalled(scheduled_signal(g, pid), pid),
{
    let w = pid / 64;
    let wu = w as u64;
    let bu = (pid % 64) as u64;
    let st = o.waker.status;
    assert(w < 62);
    lemma_signal_bits(st, bu, 0);
    lemma_signal_bits(st, wu, 0);
    let h = scheduled_signal(g, pid);
    assert(g.signals[w] == 0);
    assert(h.signals[w] == 1u64 << bu);
    assert(h.waker.status == g.waker.status | (1u64 << wu));
}

/// A signalled producer is found: when producer `pid` is the one a pick finds (see
/// `sole_signalled`) and its queue holds items, the first round of a pop picks it
/// and takes from it, so a pop of any number of rounds never comes back empty,
/// whatever the generator's seed.
pub proof fn lemma_sole_signalled_producer_is_found<T>(o: InnerState<T>, seed: u64, n: nat, f: InnerState<T>, pid: int)
    requires
        o.wf(),
        sole_signalled(o, pid),
        o.queues[pid]->0.items().len() > 0,
        n > 0,
    ensures
        !rounds_missed(o, seed, n, f),
{
    if rounds_missed(o, seed, n, f) {
        let states = choose|states: Seq<InnerState<T>>|
            states.len() == n + 1 && states[0] == o && states[n as int] == f && forall|i: int|
                0 <= i < n ==> #[trigger] round_missed(states[i], lcg_iter(seed, (2 * i) as nat), states[i + 1]);
        assert(round_missed(states[0], lcg_iter(seed, (2 * 0int) as nat), states[0int + 1]));
        assert(lcg_iter(seed, 0) == seed);
        let (pick, mid) = choose|pick: Option<usize>, mid: InnerState<T>|
            #[trigger] acquired(o, seed, pick, mid) && match pick {
                None => states[1] == mid,
                Some(p) => kept_or_reaped(mid, states[1]) && mid.queues[p as int]->0.items().len() == 0,
            };
        lemma_sole_acquired(o, seed, pick, mid, pid);
        assert(false);
    }
}

/// A push signals its producer: after producer `pid` pushes onto its queue, it is
/// the one a pick finds, provided no other signal was raised before (its own bit
/// may have been).
pub proof fn lemma_push_signals_producer<T>(o: InnerState<T>, pid: int, f: InnerState<T>)
    requires
        o.wf(),
        0 <= pid < MAX_QUEUES,
        sole_signalled(o, pid) || (o.signals[pid / 64] == 0 && o.waker.status & STATUS_SUMMARY_MASK == 0),
        f == scheduled_signal(
            InnerState { queues: o.queues.update(pid, f.queues[pid]), ..o },
            pid,
        ),
        f.queues[pid] is Some,
    ensures
        sole_signalled(f, pid),
{
    let w = pid / 64;
    let wu = w as u64;
    let bu = (pid % 64) as u64;
    let st = o.waker.status;
    assert(w < 62);
    lemma_signal_bits(st, bu, 0);
    lemma_signal_bits(st, wu, 0);
    let prev = o.signals[w];
    assert(f.signals[w] == prev | (1u64 << bu));
    if prev == 0 {
        assert(f.waker.status == st | (1u64 << wu));
    } else {
        assert(f.waker == o.waker);
    }
}

/// When producer `pid` is the only one whose queue holds items, an item taken from
/// the channel is that producer's oldest.
pub proof fn lemma_pop_takes_the_only_queued_item<T>(o: InnerState<T>, pid: int, q: int, x: T, f: InnerState<T>)
    requires
        0 <= pid < o.queues.len(),
        forall|k: int| 0 <= k < o.queues.len() && k != pid && #[trigger] o.queues[k] is Some ==> o.queues[k]->0.items().len() == 0,
        drained_from(o, q, 1, seq![x], f),
    ensures
        q == pid,
        x == o.queues[pid]->0.items()[0],
{
    assert(seq![x][0] == o.queues[q]->0.items().take(1)[0]);
}

} // verus!
