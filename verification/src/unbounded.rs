use vstd::prelude::*;

use crate::spsc::{
    consumed_all_or_short, stopped_short,
    at_least_one, consumed, popped_into, DynSpsc, DynSpscConfig, DynSpscState, PopError, PushError,
    MAX_POSITION,
};

verus! {

/// The items of `nodes[from..]`, node after node.
pub open spec fn items_from<T>(nodes: Seq<DynSpscState<T>>, from: int) -> Seq<T>
    decreases nodes.len() - from,
{
    if from < 0 || from >= nodes.len() {
        Seq::empty()
    } else {
        nodes[from].items + items_from(nodes, from + 1)
    }
}

/// Changing a node at or after `from` changes only its part of the items.
proof fn lemma_items_update<T>(nodes: Seq<DynSpscState<T>>, from: int, k: int, x: DynSpscState<T>)
    requires
        0 <= from <= k < nodes.len(),
    ensures
        items_from(nodes.update(k, x), from) == items_from(nodes, from).take(
            items_from(nodes, from).len() - items_from(nodes, k).len(),
        ) + x.items + items_from(nodes, k + 1),
        items_from(nodes, from).len() >= items_from(nodes, k).len(),
    decreases k - from,
{
    let u = nodes.update(k, x);
    if from == k {
        lemma_items_tail_same(nodes, u, k + 1);
        assert(items_from(nodes, from).take(0) =~= Seq::<T>::empty());
        assert(items_from(u, from) =~= x.items + items_from(nodes, k + 1));
    } else {
        lemma_items_update(nodes, from + 1, k, x);
        let a = items_from(nodes, from);
        let b = items_from(nodes, from + 1);
        let c = items_from(nodes, k);
        assert(a =~= nodes[from].items + b);
        assert(items_from(u, from) =~= nodes[from].items + items_from(u, from + 1));
        assert(a.take(a.len() - c.len()) =~= nodes[from].items + b.take(b.len() - c.len()));
    }
}

/// Nodes that agree from `from` on give the same items.
proof fn lemma_items_tail_same<T>(a: Seq<DynSpscState<T>>, b: Seq<DynSpscState<T>>, from: int)
    requires
        a.len() == b.len(),
        forall|i: int| from <= i < a.len() ==> a[i] == b[i],
    ensures
        items_from(a, from) == items_from(b, from),
    decreases a.len() - from,
{
    if 0 <= from < a.len() {
        lemma_items_tail_same(a, b, from + 1);
    }
}

/// The last node's items end the sequence.
proof fn lemma_items_last<T>(nodes: Seq<DynSpscState<T>>, from: int)
    requires
        0 <= from < nodes.len(),
    ensures
        items_from(nodes, nodes.len() - 1) == nodes.last().items,
{
    assert(items_from(nodes, nodes.len() as int) =~= Seq::<T>::empty());
    assert(nodes.last().items + Seq::<T>::empty() =~= nodes.last().items);
}

/// Appending an empty node adds no item.
proof fn lemma_items_push_empty<T>(nodes: Seq<DynSpscState<T>>, from: int, x: DynSpscState<T>)
    requires
        0 <= from <= nodes.len(),
        x.items.len() == 0,
    ensures
        items_from(nodes.push(x), from) == items_from(nodes, from),
    decreases nodes.len() - from,
{
    if from == nodes.len() {
        assert(items_from(nodes.push(x), from + 1) =~= Seq::<T>::empty());
        assert(items_from(nodes.push(x), from) =~= Seq::<T>::empty());
    } else {
        lemma_items_push_empty(nodes, from + 1, x);
        assert(items_from(nodes.push(x), from) =~= nodes[from].items + items_from(nodes.push(x), from + 1));
    }
}

/// Pushing onto the last node appends to the items.
proof fn lemma_items_push_last<T>(nodes: Seq<DynSpscState<T>>, from: int, x: DynSpscState<T>, v: Seq<T>)
    requires
        0 <= from < nodes.len(),
        x.items == nodes.last().items + v,
    ensures
        items_from(nodes.update(nodes.len() - 1, x), from) == items_from(nodes, from) + v,
{
    let k = nodes.len() - 1;
    lemma_items_update(nodes, from, k, x);
    lemma_items_last(nodes, from);
    let a = items_from(nodes, from);
    assert(items_from(nodes, k + 1) =~= Seq::<T>::empty());
    assert(a.take(a.len() - nodes.last().items.len()) + nodes.last().items =~= a) by {
        lemma_items_suffix(nodes, from, k);
    }
    assert(items_from(nodes.update(k, x), from) =~= a + v);
}

/// The items from `k` are a suffix of the items from `from`.
proof fn lemma_items_suffix<T>(nodes: Seq<DynSpscState<T>>, from: int, k: int)
    requires
        0 <= from <= k <= nodes.len(),
    ensures
        items_from(nodes, from).len() >= items_from(nodes, k).len(),
        items_from(nodes, from) == items_from(nodes, from).take(
            items_from(nodes, from).len() - items_from(nodes, k).len(),
        ) + items_from(nodes, k),
    decreases k - from,
{
    let a = items_from(nodes, from);
    if from == k {
        assert(a.take(0) + a =~= a);
    } else {
        lemma_items_suffix(nodes, from + 1, k);
        let b = items_from(nodes, from + 1);
        let c = items_from(nodes, k);
        assert(a =~= nodes[from].items + b);
        assert(a.take(a.len() - c.len()) =~= nodes[from].items + b.take(b.len() - c.len()));
        assert(a =~= a.take(a.len() - c.len()) + c);
    }
}

/// The abstract state of an unbounded queue: its nodes, the node the consumer is
/// on, and the node and capacity counters.
pub struct UnboundedState<T> {
    pub config: DynSpscConfig,
    pub nodes: Seq<DynSpscState<T>>,
    pub head: int,
    pub node_count: usize,
    pub total_capacity: usize,
}

impl<T> UnboundedState<T> {
    /// The queued items, oldest first.
    pub open spec fn items(&self) -> Seq<T> {
        items_from(self.nodes, self.head)
    }

    /// The node the producer pushes to.
    pub open spec fn tail(&self) -> DynSpscState<T> {
        self.nodes.last()
    }

    /// The queue's consistency.
    pub open spec fn wf(&self) -> bool {
        &&& self.config.wf()
        &&& self.config.capacity < usize::MAX
        &&& self.nodes.len() >= 1
        &&& 0 <= self.head < self.nodes.len()
        &&& forall|i: int| 0 <= i < self.nodes.len() ==> (#[trigger] self.nodes[i]).wf() && self.nodes[i].config
            == self.config
        &&& self.node_count == self.nodes.len()
        &&& self.total_capacity == (self.nodes.len() * self.config.capacity) % (usize::MAX + 1)
    }
}

/// An unbounded single-producer single-consumer queue: a chain of bounded queues of
/// one configuration; the producer opens a new one when its current one is full,
/// the consumer moves on when its current one is drained.
pub struct DynUnboundedSpsc<T> {
    config: DynSpscConfig,
    nodes: Vec<DynSpsc<T>>,
    head: usize,
    node_count: usize,
    total_capacity: usize,
}

impl<T> View for DynUnboundedSpsc<T> {
    type V = UnboundedState<T>;

    closed spec fn view(&self) -> UnboundedState<T> {
        UnboundedState {
            config: self.config,
            nodes: self.nodes@.map_values(|q: DynSpsc<T>| q@),
            head: self.head as int,
            node_count: self.node_count,
            total_capacity: self.total_capacity,
        }
    }
}

impl<T> DynUnboundedSpsc<T> {
    /// The queue's consistency.
    pub open spec fn wf(&self) -> bool {
        self@.wf()
    }

    proof fn lemma_view(&self)
        ensures
            self@.nodes.len() == self.nodes@.len(),
            forall|i: int| 0 <= i < self.nodes@.len() ==> #[trigger] self@.nodes[i] == self.nodes@[i]@,
            self@.head == self.head,
    {
    }

    /// A queue of one empty node, with segments of 64 items and 256 directory slots.
    pub fn new() -> (q: Self)
        ensures
            q.wf(),
            q@.config == DynSpscConfig::from_exponents(6, 8, 0),
            q@.items().len() == 0,
            q@.nodes.len() == 1,
            !q@.tail().closed,
    {
        let config = DynSpscConfig::new(6, 8);
        proof {
            vstd::arithmetic::power2::lemma2_to64();
            assert(vstd::arithmetic::power2::pow2(6) == 64);
            assert(vstd::arithmetic::power2::pow2(8) == 256);
            assert(vstd::arithmetic::power2::pow2(6) * vstd::arithmetic::power2::pow2(8) == 16384);
            assert(config.capacity == 16383);
        }
        Self::new_with_config(config)
    }

    /// A queue of one empty node of configuration `config`.
    pub fn new_with_config(config: DynSpscConfig) -> (q: Self)
        requires
            config.wf(),
            config.capacity < usize::MAX,
        ensures
            q.wf(),
            q@.config == config,
            q@.items().len() == 0,
            q@.nodes.len() == 1,
            q@.head == 0,
            !q@.tail().closed,
            q@.tail().head == 0,
            q@.total_capacity == config.capacity,
    {
        let first = DynSpsc::new_with_config(config);
        let mut nodes: Vec<DynSpsc<T>> = Vec::new();
        nodes.push(first);
        let q = DynUnboundedSpsc { config, nodes, head: 0, node_count: 1, total_capacity: config.capacity };
        proof {
            q.lemma_view();
            assert(items_from(q@.nodes, 1) =~= Seq::<T>::empty());
            assert(q@.items() =~= Seq::<T>::empty());
            assert((1 * config.capacity) % (usize::MAX + 1) == config.capacity) by (nonlinear_arith)
                requires
                    config.capacity < usize::MAX,
            ;
        }
        q
    }

    /// The configuration of every node.
    pub fn config(&self) -> (r: DynSpscConfig)
        ensures
            r == self@.config,
    {
        self.config
    }

    /// Number of nodes created.
    pub fn node_count(&self) -> (r: usize)
        ensures
            r == self@.node_count,
    {
        self.node_count
    }

    /// The producer's position in the node it pushes to.
    pub fn push_position(&self) -> (r: u64)
        requires
            self.wf(),
        ensures
            r == self@.tail().head,
    {
        proof {
            self.lemma_view();
        }
        self.nodes[self.nodes.len() - 1].push_position()
    }

    /// Capacity summed over the nodes created (wrapping).
    pub fn total_capacity(&self) -> (r: usize)
        ensures
            r == self@.total_capacity,
    {
        self.total_capacity
    }

    /// Number of queued items, summed over the nodes from the consumer's on.
    pub fn len(&self) -> (r: usize)
        requires
            self.wf(),
            self@.items().len() <= usize::MAX,
        ensures
            r == self@.items().len(),
    {
        proof {
            self.lemma_view();
        }
        let mut len: usize = 0;
        let mut i = self.nodes.len();
        while i > self.head
            invariant
                self.wf(),
                self.head <= i <= self.nodes@.len(),
                self@.items().len() <= usize::MAX,
                len == items_from(self@.nodes, i as int).len(),
            decreases i,
        {
            proof {
                self.lemma_view();
                lemma_items_suffix(self@.nodes, self.head as int, i - 1);
            }
            i = i - 1;
            len = len + self.nodes[i].len();
        }
        len
    }

    /// Whether the consumer's node is empty (later nodes are not looked at).
    pub fn is_empty(&self) -> (r: bool)
        requires
            self.wf(),
        ensures
            r == (self@.nodes[self@.head].items.len() == 0),
    {
        proof {
            self.lemma_view();
            assert(self@.nodes[self@.head].wf());
        }
        self.nodes[self.head].is_empty()
    }

    /// Whether the consumer's node was closed.
    pub fn is_closed(&self) -> (r: bool)
        requires
            self.wf(),
        ensures
            r == self@.nodes[self@.head].closed,
    {
        proof {
            self.lemma_view();
        }
        self.nodes[self.head].is_closed()
    }
}


proof fn lemma_capacity_step(n: int, c: int, t: int)
    requires
        n >= 0,
        0 <= c < usize::MAX,
        t == (n * c) % (usize::MAX + 1),
    ensures
        (if t + c > usize::MAX {
            t + c - (usize::MAX + 1)
        } else {
            t + c
        }) == ((n + 1) * c) % (usize::MAX + 1),
{
    let m = usize::MAX + 1;
    vstd::arithmetic::div_mod::lemma_add_mod_noop(n * c, c, m);
    vstd::arithmetic::div_mod::lemma_small_mod(c as nat, m as nat);
    vstd::arithmetic::div_mod::lemma_mod_bound(n * c, m);
    assert((n + 1) * c == n * c + c) by (nonlinear_arith);
    crate::partition::lemma_mod_wrap(t + c, m);
}

impl<T> DynUnboundedSpsc<T> {
    /// Appends a new empty node, which the producer pushes to from now on.
    fn create_new_node(&mut self)
        requires
            old(self).wf(),
            old(self)@.nodes.len() < usize::MAX,
        ensures
            final(self).wf(),
            final(self)@.items() == old(self)@.items(),
            final(self)@.nodes.len() == old(self)@.nodes.len() + 1,
            final(self)@.nodes.drop_last() == old(self)@.nodes,
            final(self)@.tail().items.len() == 0,
            final(self)@.tail().head == 0,
            !final(self)@.tail().closed,
            final(self)@.head == old(self)@.head,
            final(self)@.config == old(self)@.config,
    {
        proof {
            self.lemma_view();
            lemma_capacity_step(self@.nodes.len() as int, self.config.capacity as int, self.total_capacity as int);
        }
        let ghost o = self@;
        let node = DynSpsc::new_with_config(self.config);
        self.nodes.push(node);
        self.node_count = self.node_count + 1;
        self.total_capacity = self.total_capacity.wrapping_add(self.config.capacity);
        proof {
            self.lemma_view();
            assert(self@.nodes =~= o.nodes.push(node@));
            lemma_items_push_empty(o.nodes, o.head, node@);
            assert(self@.nodes.drop_last() =~= o.nodes);
        }
    }

    /// Pushes `item` onto the producer's node.
    fn try_push_to_current(&mut self, item: T) -> (r: Result<(), PushError<T>>)
        requires
            old(self).wf(),
            old(self)@.tail().head < MAX_POSITION,
        ensures
            final(self).wf(),
            final(self)@.head == old(self)@.head,
            final(self)@.config == old(self)@.config,
            final(self)@.nodes.len() == old(self)@.nodes.len(),
            final(self)@.node_count == old(self)@.node_count,
            final(self)@.total_capacity == old(self)@.total_capacity,
            ({
                let o = old(self)@.tail();
                if o.closed {
                    r == Err::<(), PushError<T>>(PushError::Closed(item)) && final(self)@ == old(self)@
                } else if o.items.len() == o.config.capacity {
                    r == Err::<(), PushError<T>>(PushError::Full(item)) && final(self)@ == old(self)@
                } else {
                    &&& r is Ok
                    &&& final(self)@.items() == old(self)@.items().push(item)
                    &&& final(self)@.tail().head == o.head + 1
                    &&& !final(self)@.tail().closed
                    &&& final(self)@.nodes.drop_last() == old(self)@.nodes.drop_last()
                    &&& final(self)@.tail().items == o.items.push(item)
                }
            }),
    {
        proof {
            self.lemma_view();
        }
        let ghost o = self@;
        let last = self.nodes.len() - 1;
        let mut node = self.nodes.pop().unwrap();
        proof {
            assert(node@ == o.nodes[last as int]);
        }
        let r = node.try_push(item);
        self.nodes.push(node);
        proof {
            self.lemma_view();
            assert(self@.nodes =~= o.nodes.update(last as int, node@));
            assert(self@.nodes.drop_last() =~= o.nodes.drop_last());
            if r is Ok {
                assert(node@.items =~= o.nodes.last().items + seq![item]);
                lemma_items_push_last(o.nodes, o.head, node@, seq![item]);
                assert(o.items().push(item) =~= o.items() + seq![item]);
            } else {
                assert(self@.nodes =~= o.nodes);
            }
        }
        r
    }

    /// Pushes `item`, opening a new node when the producer's node is full; a closed
    /// producer node refuses it with `Closed`, and a new node that is full too (a
    /// capacity of zero) with `Full`.
    pub fn try_push(&mut self, item: T) -> (r: Result<(), PushError<T>>)
        requires
            old(self).wf(),
            old(self)@.tail().head < MAX_POSITION,
            old(self)@.nodes.len() < usize::MAX,
        ensures
            final(self).wf(),
            final(self)@.head == old(self)@.head,
            final(self)@.config == old(self)@.config,
            unbounded_pushed(old(self)@, item, r, final(self)@),
            r is Ok ==> !final(self)@.tail().closed,
            final(self)@.nodes.len() <= old(self)@.nodes.len() + 1,
    {
        match self.try_push_to_current(item) {
            Ok(()) => Ok(()),
            Err(PushError::Full(item)) => {
                self.create_new_node();
                let ghost m = self@;
                match self.try_push_to_current(item) {
                    Ok(()) => {
                        proof {
                            assert(m.tail().items.push(item) =~= seq![item]);
                            assert(self@.nodes.drop_last() =~= m.nodes.drop_last());
                        }
                        Ok(())
                    },
                    Err(PushError::Full(item)) => Err(PushError::Full(item)),
                    Err(PushError::Closed(item)) => Err(PushError::Closed(item)),
                }
            },
            Err(PushError::Closed(item)) => Err(PushError::Closed(item)),
        }
    }

    /// Closes every node from the consumer's on.
    pub fn close(&mut self)
        requires
            old(self).wf(),
        ensures
            final(self).wf(),
            final(self)@.items() == old(self)@.items(),
            final(self)@.head == old(self)@.head,
            final(self)@.config == old(self)@.config,
            final(self)@.nodes.len() == old(self)@.nodes.len(),
            forall|i: int| old(self)@.head <= i < old(self)@.nodes.len() ==> #[trigger] final(self)@.nodes[i].closed,
    {
        proof {
            self.lemma_view();
        }
        let ghost o = self@;
        let mut i = self.head;
        while i < self.nodes.len()
            invariant
                self.wf(),
                self@.head == o.head,
                self@.config == o.config,
                self@.nodes.len() == o.nodes.len(),
                self@.node_count == o.node_count,
                self@.total_capacity == o.total_capacity,
                o.head <= i <= o.nodes.len(),
                forall|k: int| 0 <= k < o.nodes.len() ==> #[trigger] self@.nodes[k].items == o.nodes[k].items,
                forall|k: int| o.head <= k < i ==> #[trigger] self@.nodes[k].closed,
            decreases self.nodes@.len() - i,
        {
            proof {
                self.lemma_view();
            }
            let ghost before = self@;
            let mut node = self.nodes.remove(i);
            proof {
                assert(node@ == before.nodes[i as int]);
                assert(node@.wf());
            }
            node.close();
            self.nodes.insert(i, node);
            proof {
                self.lemma_view();
                assert(self@.nodes =~= before.nodes.update(i as int, node@));
            }
            i = i + 1;
        }
        proof {
            self.lemma_view();
            lemma_items_same_items(o.nodes, self@.nodes, o.head);
        }
    }

    /// Closes the producer's node.
    pub fn close_channel(&mut self)
        requires
            old(self).wf(),
        ensures
            final(self).wf(),
            final(self)@.items() == old(self)@.items(),
            final(self)@.tail().closed,
            final(self)@.head == old(self)@.head,
            final(self)@.config == old(self)@.config,
            final(self)@.nodes.len() == old(self)@.nodes.len(),
            final(self)@.nodes.drop_last() == old(self)@.nodes.drop_last(),
    {
        proof {
            self.lemma_view();
        }
        let ghost o = self@;
        let mut node = self.nodes.pop().unwrap();
        proof {
            assert(node@ == o.nodes[o.nodes.len() - 1]);
            assert(o.nodes[o.nodes.len() - 1].wf());
        }
        node.close();
        self.nodes.push(node);
        proof {
            self.lemma_view();
            assert(self@.nodes =~= o.nodes.update(o.nodes.len() - 1, node@));
            assert(self@.nodes.drop_last() =~= o.nodes.drop_last());
            lemma_items_same_items(o.nodes, self@.nodes, o.head);
        }
    }
}

impl<T> DynUnboundedSpsc<T> {
    /// Pops from the consumer's node, moving on to the next node while the current
    /// one is empty; `None` when every node from the consumer's on is empty.
    pub fn try_pop(&mut self) -> (r: Option<T>)
        requires
            old(self).wf(),
        ensures
            final(self).wf(),
            kept_shape(old(self)@, final(self)@),
            unbounded_popped(old(self)@, r, final(self)@),
    {
        proof {
            self.lemma_view();
        }
        let ghost o = self@;
        loop
            invariant
                self.wf(),
                o == old(self)@,
                kept_shape(o, self@),
                self@.items() == o.items(),
            decreases self.nodes@.len() - self.head,
        {
            proof {
                self.lemma_view();
            }
            let h = self.head;
            let ghost before = self@;
            proof {
                assert(before.nodes[h as int].wf());
            }
            let item = self.nodes[h].try_pop();
            proof {
                self.lemma_view();
                assert(self@.nodes =~= before.nodes.update(h as int, self@.nodes[h as int]));
            }
            if item.is_some() {
                proof {
                    let a = before.nodes[h as int].items;
                    let nh = self@.nodes[h as int];
                    assert(a.len() > 0);
                    assert(nh.items == a.drop_first());
                    assert(nh.closed == before.nodes[h as int].closed);
                    assert(nh.head == before.nodes[h as int].head);
                    assert(item == Some(a[0]));
                    lemma_items_update(before.nodes, h as int, h as int, nh);
                    assert(before.items() =~= a + items_from(before.nodes, h + 1));
                    assert(self@.items() =~= nh.items + items_from(before.nodes, h + 1));
                    assert(self@.items() =~= before.items().drop_first());
                    assert(before.items()[0] == a[0]);
                    assert forall|i: int| 0 <= i < o.nodes.len() implies (#[trigger] self@.nodes[i]).closed
                        == o.nodes[i].closed && self@.nodes[i].head == o.nodes[i].head by {
                        if i != h {
                            assert(self@.nodes[i] == before.nodes[i]);
                        }
                    }
                }
                return item;
            }
            proof {
                assert(self@.nodes =~= before.nodes);
            }
            if self.nodes[h].is_empty() {
                if h + 1 < self.nodes.len() {
                    self.head = h + 1;
                    proof {
                        self.lemma_view();
                        assert(before.items() =~= before.nodes[h as int].items + items_from(before.nodes, h + 1));
                        assert(self@.items() =~= before.items());
                    }
                } else {
                    proof {
                        lemma_items_last(before.nodes, h as int);
                    }
                    return None;
                }
            } else {
                return None;
            }
        }
    }
}

impl<T> DynUnboundedSpsc<T> {
    /// Pops into `dst` from its front, node after node: stops when `dst` is full,
    /// when a drained node is closed, or when the last node is drained. Returns the
    /// number popped, `Empty` when none was, and `Closed` when it reached a node that
    /// was empty and closed before it could pop from it (even after popping from
    /// earlier nodes).
    pub fn try_pop_n(&mut self, dst: &mut [T]) -> (r: Result<usize, PopError>)
        requires
            old(self).wf(),
        ensures
            final(self).wf(),
            kept_shape(old(self)@, final(self)@),
            ({
                let o = old(self)@.items();
                let f = final(self)@;
                let k = o.len() - f.items().len();
                let h = f.nodes[f.head];
                &&& 0 <= k <= old(dst)@.len()
                &&& f.items() == o.skip(k)
                &&& final(dst)@ == o.take(k) + old(dst)@.skip(k)
                &&& match r {
                    Ok(m) => m == k && k > 0 && (k == old(dst)@.len() || k == o.len() || (h.items.len()
                        == 0 && h.closed)),
                    Err(PopError::Empty) => k == 0 && (old(dst)@.len() == 0 || o.len() == 0),
                    Err(PopError::Closed) => h.items.len() == 0 && h.closed,
                }
            }),
    {
        proof {
            self.lemma_view();
            assert(self@.items().skip(0) =~= self@.items());
        }
        let ghost o = self@;
        let ghost d0 = dst@;
        let dlen = dst.len();
        let mut filled: usize = 0;
        while filled < dlen
            invariant
                self.wf(),
                o == old(self)@,
                d0 == old(dst)@,
                dlen == d0.len(),
                dst@.len() == dlen,
                kept_shape(o, self@),
                filled <= dlen,
                filled <= o.items().len(),
                self@.items() == o.items().skip(filled as int),
                dst@ == o.items().take(filled as int) + d0.skip(filled as int),
            ensures
                self.wf(),
                kept_shape(o, self@),
                filled <= dlen,
                filled <= o.items().len(),
                self@.items() == o.items().skip(filled as int),
                dst@ == o.items().take(filled as int) + d0.skip(filled as int),
                filled == dlen || filled == o.items().len() || (filled > 0 && self@.nodes[self@.head].items.len()
                    == 0 && self@.nodes[self@.head].closed),
            decreases dlen - filled, self.nodes@.len() - self.head,
        {
            proof {
                self.lemma_view();
            }
            let h = self.head;
            let ghost before = self@;
            let ghost bd = dst@;
            proof {
                assert(before.nodes[h as int].wf());
                assert(before.items() =~= before.nodes[h as int].items + items_from(before.nodes, h + 1));
            }
            let res = self.nodes[h].pop_into(dst, filled);
            proof {
                self.lemma_view();
                assert(self@.nodes =~= before.nodes.update(h as int, self@.nodes[h as int]));
                assert forall|i: int| 0 <= i < o.nodes.len() implies (#[trigger] self@.nodes[i]).closed
                    == o.nodes[i].closed && self@.nodes[i].head == o.nodes[i].head by {
                    if i != h {
                        assert(self@.nodes[i] == before.nodes[i]);
                    }
                }
            }
            match res {
                Ok(n) => {
                    proof {
                        let a = before.nodes[h as int].items;
                        let nh = self@.nodes[h as int];
                        lemma_items_update(before.nodes, h as int, h as int, nh);
                        assert(self@.items() =~= nh.items + items_from(before.nodes, h + 1));
                        assert(nh.items =~= a.skip(n as int));
                        assert(self@.items() =~= before.items().skip(n as int));
                        assert(o.items().skip(filled as int).skip(n as int) =~= o.items().skip(filled + n));
                        assert(before.items().take(n as int) =~= a.take(n as int));
                        assert(o.items().take(filled + n) =~= o.items().take(filled as int) + before.items().take(
                            n as int,
                        ));
                        assert(dst@ =~= o.items().take(filled + n) + d0.skip(filled + n));
                    }
                    filled = filled + n;
                    if filled == dlen || (self.nodes[h].is_empty() && self.nodes[h].is_closed()) {
                        break;
                    }
                },
                Err(PopError::Empty) => {
                    proof {
                        assert(self@.nodes =~= before.nodes);
                    }
                    if self.nodes[h].is_empty() {
                        if h + 1 < self.nodes.len() {
                            self.head = h + 1;
                            proof {
                                self.lemma_view();
                                assert(self@.items() =~= before.items());
                            }
                        } else {
                            proof {
                                lemma_items_last(before.nodes, h as int);
                            }
                            break;
                        }
                    } else {
                        break;
                    }
                },
                Err(e) => {
                    proof {
                        assert(self@.nodes =~= before.nodes);
                    }
                    return Err(e);
                },
            }
        }
        if filled == 0 {
            Err(PopError::Empty)
        } else {
            Ok(filled)
        }
    }

}

/// A callback that stopped short on a stretch of the items that starts `k` items in
/// stopped short on the items themselves, `k` items further on.
proof fn lemma_short_shift<T, F: FnMut(&[T]) -> usize>(items: Seq<T>, k: int, part: Seq<T>, c: int)
    requires
        0 <= k,
        k + part.len() <= items.len(),
        part == items.subrange(k, k + part.len()),
        stopped_short::<T, F>(part, c),
    ensures
        stopped_short::<T, F>(items, k + c),
{
    let (g, s, n) = choose|g: F, s: &[T], n: usize|
        #[trigger] call_ensures(g, (s,), n) && n < s@.len() && n <= c && c - n + s@.len() <= part.len()
            && s@ == part.subrange(c - n, c - n + s@.len());
    assert(s@ =~= items.subrange(k + c - n, k + c - n + s@.len()));
}

impl<T: Copy> DynUnboundedSpsc<T> {
    /// Hands queued items to `f` node after node, at most `max` in all (see
    /// `DynSpsc::consume_in_place`), moving on to the next node while the current
    /// one is empty; stops when `f` takes less than offered. Returns the number
    /// removed.
    pub fn consume_in_place<F: FnMut(&[T]) -> usize>(&mut self, max: usize, f: F) -> (r: usize)
        requires
            old(self).wf(),
            forall|g: F, s: &[T]| #[trigger] call_requires(g, (s,)),
        ensures
            final(self).wf(),
            kept_shape(old(self)@, final(self)@),
            r <= max,
            r <= old(self)@.items().len(),
            final(self)@.items() == old(self)@.items().skip(r as int),
            consumed_all_or_short::<T, F>(old(self)@.items(), max, r as int),
    {
        proof {
            self.lemma_view();
            assert(self@.items().skip(0) =~= self@.items());
        }
        let mut f = f;
        let ghost o = self@;
        let mut consumed_total: usize = 0;
        let mut remaining = max;
        let ghost mut short = false;
        while consumed_total < max
            invariant_except_break
                !short,
            invariant
                short ==> stopped_short::<T, F>(o.items(), consumed_total as int),
                self.wf(),
                o == old(self)@,
                kept_shape(o, self@),
                consumed_total + remaining == max,
                consumed_total <= o.items().len(),
                self@.items() == o.items().skip(consumed_total as int),
                forall|g: F, s: &[T]| #[trigger] call_requires(g, (s,)),
            ensures
                short || consumed_total == (if max < o.items().len() {
                    max as int
                } else {
                    o.items().len() as int
                }),
            decreases remaining, self.nodes@.len() - self.head,
        {
            proof {
                self.lemma_view();
            }
            let h = self.head;
            let ghost before = self@;
            proof {
                assert(before.nodes[h as int].wf());
                assert(before.items() =~= before.nodes[h as int].items + items_from(before.nodes, h + 1));
            }
            let node_len = self.nodes[h].len();
            let to_consume = if remaining < node_len {
                remaining
            } else {
                node_len
            };
            if to_consume == 0 {
                if self.nodes[h].is_empty() {
                    if h + 1 < self.nodes.len() {
                        self.head = h + 1;
                        proof {
                            self.lemma_view();
                            assert(self@.items() =~= before.items());
                        }
                        continue;
                    } else {
                        break;
                    }
                } else {
                    break;
                }
            }
            let consumed = self.nodes[h].consume_with(to_consume, &mut f);
            proof {
                self.lemma_view();
                assert(self@.nodes =~= before.nodes.update(h as int, self@.nodes[h as int]));
                assert forall|i: int| 0 <= i < o.nodes.len() implies (#[trigger] self@.nodes[i]).closed
                    == o.nodes[i].closed && self@.nodes[i].head == o.nodes[i].head by {
                    if i != h {
                        assert(self@.nodes[i] == before.nodes[i]);
                    }
                }
                let a = before.nodes[h as int].items;
                let nh = self@.nodes[h as int];
                lemma_items_update(before.nodes, h as int, h as int, nh);
                assert(self@.items() =~= nh.items + items_from(before.nodes, h + 1));
                assert(self@.items() =~= before.items().skip(consumed as int));
                assert(o.items().skip(consumed_total as int).skip(consumed as int) =~= o.items().skip(
                    consumed_total + consumed,
                ));
            }
            proof {
                if consumed < to_consume {
                    let part = before.nodes[h as int].items;
                    assert(part =~= o.items().subrange(consumed_total as int, consumed_total + part.len()));
                    lemma_short_shift::<T, F>(o.items(), consumed_total as int, part, consumed as int);
                    short = true;
                }
            }
            consumed_total = consumed_total + consumed;
            remaining = remaining - consumed;
            if consumed < to_consume {
                break;
            }
        }
        consumed_total
    }
}

impl<T: Copy> DynUnboundedSpsc<T> {
    /// Pushes the items of `items` in order, opening new nodes as the producer's
    /// node fills up, and empties `items`. A closed producer node refuses them all
    /// with `Closed` and leaves `items` as it was.
    pub fn try_push_n(&mut self, items: &mut Vec<T>) -> (r: Result<usize, PushError<()>>)
        requires
            old(self).wf(),
            old(self)@.config.capacity > 0,
            old(self)@.tail().head + old(items)@.len() <= MAX_POSITION,
            old(self)@.nodes.len() + old(items)@.len() + 1 < usize::MAX,
        ensures
            final(self).wf(),
            final(self)@.head == old(self)@.head,
            final(self)@.config == old(self)@.config,
            ({
                let o = old(self)@;
                if old(items)@.len() == 0 {
                    r == Ok::<usize, PushError<()>>(0) && final(self)@ == o && final(items)@ == old(items)@
                } else if o.tail().closed {
                    &&& r == Err::<usize, PushError<()>>(PushError::Closed(()))
                    &&& final(self)@ == o
                    &&& final(items)@ == old(items)@
                } else {
                    &&& r == Ok::<usize, PushError<()>>(old(items)@.len() as usize)
                    &&& final(self)@.items() == o.items() + old(items)@
                    &&& final(items)@.len() == 0
                    &&& !final(self)@.tail().closed
                }
            }),
    {
        if items.len() == 0 {
            return Ok(0);
        }
        let ghost o = self@;
        let ghost src = items@;
        let initial_len = items.len();
        let mut total_pushed: usize = 0;
        while total_pushed < initial_len
            invariant
                self.wf(),
                o == old(self)@,
                src == old(items)@,
                items@ == src,
                initial_len == src.len(),
                initial_len > 0,
                self@.config == o.config,
                self@.head == o.head,
                self@.config.capacity > 0,
                total_pushed <= initial_len,
                self@.items() == o.items() + src.take(total_pushed as int),
                self@.tail().head + (initial_len - total_pushed) <= MAX_POSITION,
                o.nodes.len() + initial_len + 1 < usize::MAX,
                o.nodes.len() <= self@.nodes.len() <= o.nodes.len() + total_pushed + 1,
                total_pushed > 0 ==> !self@.tail().closed && self@.nodes.len() > o.nodes.len(),
                self@.nodes.len() == o.nodes.len() ==> self@ == o && total_pushed == 0,
                self@.nodes.len() > o.nodes.len() ==> !self@.tail().closed && self@.tail().items.len()
                    < self@.config.capacity,
                o.tail().closed ==> self@ == o,
            decreases 2 * (initial_len - total_pushed) + if self@.tail().items.len() == self@.config.capacity {
                1int
            } else {
                0int
            },
        {
            proof {
                self.lemma_view();
            }
            let ghost before = self@;
            let last = self.nodes.len() - 1;
            let all: &[T] = items.as_slice();
            let rest: &[T] = &all[total_pushed..initial_len];
            proof {
                assert(before.nodes[last as int].wf());
                assert(rest@ =~= src.skip(total_pushed as int));
            }
            let res = self.nodes[last].try_push_n(rest);
            proof {
                self.lemma_view();
                assert(self@.nodes =~= before.nodes.update(last as int, self@.nodes[last as int]));
            }
            match res {
                Ok(n) => {
                    proof {
                        let nl = self@.nodes[last as int];
                        assert(nl.items =~= before.nodes.last().items + rest@.take(n as int));
                        lemma_items_push_last(before.nodes, before.head, nl, rest@.take(n as int));
                        assert(src.take(total_pushed as int) + rest@.take(n as int) =~= src.take(
                            total_pushed + n,
                        ));
                        assert(self@.items() =~= o.items() + src.take(total_pushed + n));
                    }
                    total_pushed = total_pushed + n;
                    if total_pushed == initial_len {
                        items.clear();
                        proof {
                            assert(src.take(initial_len as int) =~= src);
                        }
                        return Ok(total_pushed);
                    }
                    self.create_new_node();
                },
                Err(PushError::Full(())) => {
                    proof {
                        assert(self@.nodes =~= before.nodes);
                    }
                    self.create_new_node();
                },
                Err(PushError::Closed(())) => {
                    proof {
                        assert(self@.nodes =~= before.nodes);
                    }
                    return Err(PushError::Closed(()));
                },
            }
        }
        items.clear();
        Ok(total_pushed)
    }
}

/// An unbounded queue whose nodes have `2^P` items per segment and `2^NUM_SEGS_P2`
/// directory slots, fixed by the type.
pub struct UnboundedSpsc<T, const P: usize, const NUM_SEGS_P2: usize> {
    inner: DynUnboundedSpsc<T>,
}

impl<T, const P: usize, const NUM_SEGS_P2: usize> View for UnboundedSpsc<T, P, NUM_SEGS_P2> {
    type V = UnboundedState<T>;

    closed spec fn view(&self) -> UnboundedState<T> {
        self.inner@
    }
}

impl<T, const P: usize, const NUM_SEGS_P2: usize> UnboundedSpsc<T, P, NUM_SEGS_P2> {
    /// The queue's consistency.
    pub open spec fn wf(&self) -> bool {
        &&& self@.wf()
        &&& self@.config == DynSpscConfig::from_exponents(P, NUM_SEGS_P2, 0)
    }

    /// A queue of one empty node.
    pub fn new() -> (q: Self)
        requires
            P + NUM_SEGS_P2 <= 63,
            at_least_one(P) + at_least_one(NUM_SEGS_P2) < usize::BITS,
        ensures
            q.wf(),
            q@.items().len() == 0,
            q@.nodes.len() == 1,
            !q@.tail().closed,
            q@.tail().head == 0,
            q@.total_capacity == q@.config.capacity,
    {
        let config = DynSpscConfig::new(P, NUM_SEGS_P2);
        proof {
            let p1 = at_least_one(P);
            let q1 = at_least_one(NUM_SEGS_P2);
            vstd::arithmetic::power2::lemma_pow2_adds(p1, q1);
            vstd::arithmetic::power2::lemma_pow2_pos(p1 + q1);
            if usize::BITS == 32 {
                if p1 + q1 < 32 {
                    vstd::arithmetic::power2::lemma_pow2_strictly_increases(p1 + q1, 32);
                }
            } else {
                vstd::arithmetic::power2::lemma_pow2_strictly_increases(p1 + q1, 64);
            }
            vstd::arithmetic::power2::lemma2_to64();
        }
        UnboundedSpsc { inner: DynUnboundedSpsc::new_with_config(config) }
    }

    /// Number of nodes created.
    pub fn node_count(&self) -> (r: usize)
        ensures
            r == self@.node_count,
    {
        self.inner.node_count()
    }

    /// The producer's position in the node it pushes to.
    pub fn push_position(&self) -> (r: u64)
        requires
            self@.wf(),
        ensures
            r == self@.tail().head,
    {
        self.inner.push_position()
    }

    /// Capacity summed over the nodes created (wrapping).
    pub fn total_capacity(&self) -> (r: usize)
        ensures
            r == self@.total_capacity,
    {
        self.inner.total_capacity()
    }

    /// Number of queued items.
    pub fn len(&self) -> (r: usize)
        requires
            self.wf(),
            self@.items().len() <= usize::MAX,
        ensures
            r == self@.items().len(),
    {
        self.inner.len()
    }

    /// Whether the consumer's node is empty (later nodes are not looked at).
    pub fn is_empty(&self) -> (r: bool)
        requires
            self.wf(),
        ensures
            r == (self@.nodes[self@.head].items.len() == 0),
    {
        self.inner.is_empty()
    }

    /// Whether the consumer's node was closed.
    pub fn is_closed(&self) -> (r: bool)
        requires
            self.wf(),
        ensures
            r == self@.nodes[self@.head].closed,
    {
        self.inner.is_closed()
    }

    /// Closes every node from the consumer's on.
    pub fn close(&mut self)
        requires
            old(self).wf(),
        ensures
            final(self).wf(),
            final(self)@.items() == old(self)@.items(),
            forall|i: int| old(self)@.head <= i < old(self)@.nodes.len() ==> #[trigger] final(self)@.nodes[i].closed,
    {
        self.inner.close()
    }

    /// Closes the producer's node.
    pub fn close_channel(&mut self)
        requires
            old(self).wf(),
        ensures
            final(self).wf(),
            final(self)@.items() == old(self)@.items(),
            final(self)@.tail().closed,
    {
        self.inner.close_channel()
    }

    /// Pushes `item`, opening a new node when the producer's node is full.
    pub fn try_push(&mut self, item: T) -> (r: Result<(), PushError<T>>)
        requires
            old(self).wf(),
            old(self)@.tail().head < MAX_POSITION,
            old(self)@.nodes.len() < usize::MAX,
        ensures
            final(self).wf(),
            ({
                let o = old(self)@;
                if o.tail().closed {
                    r == Err::<(), PushError<T>>(PushError::Closed(item)) && final(self)@ == o
                } else {
                    r is Ok && final(self)@.items() == o.items().push(item)
                }
            }),
            final(self)@.nodes.len() <= old(self)@.nodes.len() + 1,
    {
        proof {
            lemma_fixed_capacity(self@.config);
        }
        self.inner.try_push(item)
    }

    /// Pops the oldest item; `None` when the queue is empty.
    pub fn try_pop(&mut self) -> (r: Option<T>)
        requires
            old(self).wf(),
        ensures
            final(self).wf(),
            kept_shape(old(self)@, final(self)@),
            unbounded_popped(old(self)@, r, final(self)@),
    {
        self.inner.try_pop()
    }

    /// Pops one item; see `DynUnboundedSpsc::pop_one`.
    pub fn pop_one(&mut self) -> (r: Result<T, PopError>)
        requires
            old(self).wf(),
        ensures
            final(self).wf(),
            kept_shape(old(self)@, final(self)@),
            popped_or_refused(old(self)@, r, final(self)@),
    {
        self.inner.pop_one()
    }

    /// Pops into `dst` from its front, node after node; see
    /// `DynUnboundedSpsc::try_pop_n`.
    pub fn try_pop_n(&mut self, dst: &mut [T]) -> (r: Result<usize, PopError>)
        requires
            old(self).wf(),
        ensures
            final(self).wf(),
            kept_shape(old(self)@, final(self)@),
            ({
                let o = old(self)@.items();
                let f = final(self)@;
                let k = o.len() - f.items().len();
                let h = f.nodes[f.head];
                &&& 0 <= k <= old(dst)@.len()
                &&& f.items() == o.skip(k)
                &&& final(dst)@ == o.take(k) + old(dst)@.skip(k)
                &&& match r {
                    Ok(m) => m == k && k > 0 && (k == old(dst)@.len() || k == o.len() || (h.items.len()
                        == 0 && h.closed)),
                    Err(PopError::Empty) => k == 0 && (old(dst)@.len() == 0 || o.len() == 0),
                    Err(PopError::Closed) => h.items.len() == 0 && h.closed,
                }
            }),
    {
        self.inner.try_pop_n(dst)
    }
}

impl<T: Copy, const P: usize, const NUM_SEGS_P2: usize> UnboundedSpsc<T, P, NUM_SEGS_P2> {
    /// Pushes the items of `items` in order and empties `items`; a closed producer
    /// node refuses them all.
    pub fn try_push_n(&mut self, items: &mut Vec<T>) -> (r: Result<usize, PushError<()>>)
        requires
            old(self).wf(),
            old(self)@.tail().head + old(items)@.len() <= MAX_POSITION,
            old(self)@.nodes.len() + old(items)@.len() + 1 < usize::MAX,
        ensures
            final(self).wf(),
            ({
                let o = old(self)@;
                if old(items)@.len() == 0 {
                    r == Ok::<usize, PushError<()>>(0) && final(self)@ == o && final(items)@ == old(items)@
                } else if o.tail().closed {
                    r == Err::<usize, PushError<()>>(PushError::Closed(())) && final(self)@ == o
                        && final(items)@ == old(items)@
                } else {
                    &&& r == Ok::<usize, PushError<()>>(old(items)@.len() as usize)
                    &&& final(self)@.items() == o.items() + old(items)@
                    &&& final(items)@.len() == 0
                }
            }),
    {
        proof {
            lemma_fixed_capacity(self@.config);
        }
        self.inner.try_push_n(items)
    }

    /// Hands queued items to `f`, at most `max` in all; see
    /// `DynUnboundedSpsc::consume_in_place`.
    pub fn consume_in_place<F: FnMut(&[T]) -> usize>(&mut self, max: usize, f: F) -> (r: usize)
        requires
            old(self).wf(),
            forall|g: F, s: &[T]| #[trigger] call_requires(g, (s,)),
        ensures
            final(self).wf(),
            r <= max,
            final(self)@.items() == old(self)@.items().skip(r as int),
            consumed_all_or_short::<T, F>(old(self)@.items(), max, r as int),
    {
        self.inner.consume_in_place(max, f)
    }
}

/// A configuration with both exponents at least 1 holds at least 3 items.
proof fn lemma_fixed_capacity(c: DynSpscConfig)
    requires
        c.wf(),
        c.p >= 1,
        c.num_segs_p2 >= 1,
    ensures
        c.capacity >= 3,
{
    let a = vstd::arithmetic::power2::pow2(c.p as nat);
    let b = vstd::arithmetic::power2::pow2(c.num_segs_p2 as nat);
    vstd::arithmetic::power2::lemma_pow2_strictly_increases(0, c.p as nat);
    vstd::arithmetic::power2::lemma_pow2_strictly_increases(0, c.num_segs_p2 as nat);
    vstd::arithmetic::power2::lemma2_to64();
    assert(a * b >= 4) by (nonlinear_arith)
        requires
            a >= 2,
            b >= 2,
    ;
}

impl<T> DynUnboundedSpsc<T> {
    /// Pops one item: an empty node is left for the next node if there is one; when
    /// the last node is drained, `Closed` if it is closed, else `Empty`.
    pub fn pop_one(&mut self) -> (r: Result<T, PopError>)
        requires
            old(self).wf(),
        ensures
            final(self).wf(),
            kept_shape(old(self)@, final(self)@),
            popped_or_refused(old(self)@, r, final(self)@),
    {
        proof {
            self.lemma_view();
        }
        let ghost o = self@;
        loop
            invariant
                self.wf(),
                o == old(self)@,
                kept_shape(o, self@),
                self@.items() == o.items(),
            decreases self.nodes@.len() - self.head,
        {
            proof {
                self.lemma_view();
            }
            let h = self.head;
            let ghost before = self@;
            proof {
                assert(before.nodes[h as int].wf());
                assert(before.items() =~= before.nodes[h as int].items + items_from(before.nodes, h + 1));
            }
            if !self.nodes[h].is_empty() {
                let item = self.nodes[h].try_pop();
                proof {
                    self.lemma_view();
                    assert(self@.nodes =~= before.nodes.update(h as int, self@.nodes[h as int]));
                    let a = before.nodes[h as int].items;
                    let nh = self@.nodes[h as int];
                    lemma_items_update(before.nodes, h as int, h as int, nh);
                    assert(self@.items() =~= nh.items + items_from(before.nodes, h + 1));
                    assert(self@.items() =~= before.items().drop_first());
                    assert forall|i: int| 0 <= i < o.nodes.len() implies (#[trigger] self@.nodes[i]).closed
                        == o.nodes[i].closed && self@.nodes[i].head == o.nodes[i].head by {
                        if i != h {
                            assert(self@.nodes[i] == before.nodes[i]);
                        }
                    }
                }
                return match item {
                    Some(x) => Ok(x),
                    None => Err(PopError::Empty),
                };
            }
            if h + 1 < self.nodes.len() {
                self.head = h + 1;
                proof {
                    self.lemma_view();
                    assert(self@.items() =~= before.items());
                }
            } else {
                proof {
                    lemma_items_last(before.nodes, h as int);
                }
                if self.nodes[h].is_closed() {
                    return Err(PopError::Closed);
                }
                return Err(PopError::Empty);
            }
        }
    }
}

/// What popping one item with `pop_one` does: the oldest item leaves and is returned
/// whenever one is queued; otherwise nothing leaves, and `Closed` says the producer's
/// node is closed, `Empty` that it is open.
pub open spec fn popped_or_refused<T>(o: UnboundedState<T>, r: Result<T, PopError>, f: UnboundedState<T>) -> bool {
    let s = o.items();
    match r {
        Ok(x) => s.len() > 0 && x == s[0] && f.items() == s.drop_first(),
        Err(PopError::Empty) => s.len() == 0 && f.items() == s && !f.tail().closed && f.head == f.nodes.len() - 1,
        Err(PopError::Closed) => s.len() == 0 && f.items() == s && f.nodes[f.head].items.len() == 0
            && f.nodes[f.head].closed && f.head == f.nodes.len() - 1,
    }
}

/// What pushing `item` onto an unbounded queue does: a closed producer node refuses
/// it; a producer node with room takes it at its back; a full one is followed by a
/// new node, which takes the item unless its capacity is zero.
pub open spec fn unbounded_pushed<T>(o: UnboundedState<T>, item: T, r: Result<(), PushError<T>>, f: UnboundedState<T>) -> bool {
    if o.tail().closed {
        r == Err::<(), PushError<T>>(PushError::Closed(item)) && f == o
    } else if o.tail().items.len() < o.config.capacity {
        &&& r is Ok
        &&& f.items() == o.items().push(item)
        &&& f.nodes.len() == o.nodes.len()
        &&& f.nodes.drop_last() == o.nodes.drop_last()
        &&& f.tail().items == o.tail().items.push(item)
    } else if o.config.capacity > 0 {
        &&& r is Ok
        &&& f.items() == o.items().push(item)
        &&& f.nodes.len() == o.nodes.len() + 1
        &&& f.nodes.drop_last() == o.nodes
        &&& f.tail().items == seq![item]
    } else {
        &&& r == Err::<(), PushError<T>>(PushError::Full(item))
        &&& f.items() == o.items()
        &&& f.nodes.len() == o.nodes.len() + 1
    }
}

/// What popping from an unbounded queue does to its items: the oldest leaves and is
/// returned; nothing when there is none.
pub open spec fn unbounded_popped<T>(o: UnboundedState<T>, r: Option<T>, f: UnboundedState<T>) -> bool {
    let s = o.items();
    if s.len() == 0 {
        r is None && f.items() == s
    } else {
        r == Some(s[0]) && f.items() == s.drop_first()
    }
}

/// First in, first out across nodes: after a successful push, a pop returns the
/// oldest item (the pushed one when the queue was empty) and the pushed item stays
/// queued behind the rest, however the items are spread over the nodes.
pub proof fn lemma_unbounded_fifo<T>(
    o: UnboundedState<T>,
    item: T,
    r1: Result<(), PushError<T>>,
    f1: UnboundedState<T>,
    r2: Option<T>,
    f2: UnboundedState<T>,
)
    requires
        unbounded_pushed(o, item, r1, f1),
        unbounded_popped(f1, r2, f2),
        r1 is Ok,
    ensures
        o.items().len() == 0 ==> r2 == Some(item) && f2.items().len() == 0,
        o.items().len() > 0 ==> r2 == Some(o.items()[0]) && f2.items() == o.items().drop_first().push(item),
{
    if o.items().len() == 0 {
        assert(f1.items() =~= seq![item]);
    } else {
        assert(f1.items().drop_first() =~= o.items().drop_first().push(item));
    }
}

/// `f` has the nodes of `o` with the same configuration, close flags and producer
/// positions: only consumption happened.
pub open spec fn kept_shape<T>(o: UnboundedState<T>, f: UnboundedState<T>) -> bool {
    &&& f.config == o.config
    &&& f.nodes.len() == o.nodes.len()
    &&& f.node_count == o.node_count
    &&& f.total_capacity == o.total_capacity
    &&& o.head <= f.head
    &&& forall|i: int| 0 <= i < o.nodes.len() ==> (#[trigger] f.nodes[i]).closed == o.nodes[i].closed
        && f.nodes[i].head == o.nodes[i].head
}

/// Nodes with the same items give the same sequence.
proof fn lemma_items_same_items<T>(a: Seq<DynSpscState<T>>, b: Seq<DynSpscState<T>>, from: int)
    requires
        a.len() == b.len(),
        forall|i: int| 0 <= i < a.len() ==> #[trigger] a[i].items == b[i].items,
    ensures
        items_from(a, from) == items_from(b, from),
    decreases a.len() - from,
{
    if 0 <= from < a.len() {
        lemma_items_same_items(a, b, from + 1);
        assert(a[from].items == b[from].items);
    }
}

} // verus!
