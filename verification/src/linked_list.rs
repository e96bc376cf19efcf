//! A doubly linked queue of nodes.
//!
//! Every node of a list has a number, given out by the list when the node
//! is added, and a pair of links to its neighbours in the queue. A node is
//! either queued, once, or not queued at all, in which case both of its
//! links are empty. The queue is modelled by the sequence of node numbers
//! from first to last.
use vstd::prelude::*;

verus! {

/// The neighbour before position `i` of `queue`, if there is one.
pub open spec fn before(queue: Seq<usize>, i: int) -> Option<usize> {
    if i <= 0 {
        None
    } else {
        Some(queue[i - 1])
    }
}

/// The neighbour after position `i` of `queue`, if there is one.
pub open spec fn after(queue: Seq<usize>, i: int) -> Option<usize> {
    if i >= queue.len() - 1 {
        None
    } else {
        Some(queue[i + 1])
    }
}

/// What the links of `node` hold when the queue is `queue`: its two
/// neighbours if it is queued, nothing otherwise.
pub open spec fn links_in(queue: Seq<usize>, node: usize) -> (Option<usize>, Option<usize>) {
    if queue.contains(node) {
        (before(queue, queue.index_of(node)), after(queue, queue.index_of(node)))
    } else {
        (None, None)
    }
}

/// `queue` with `node` at the front, unless it holds it already.
pub open spec fn pushed_front(queue: Seq<usize>, node: usize) -> Seq<usize> {
    if queue.contains(node) {
        queue
    } else {
        seq![node] + queue
    }
}

/// `queue` with `node` at the back, unless it holds it already.
pub open spec fn pushed_back(queue: Seq<usize>, node: usize) -> Seq<usize> {
    if queue.contains(node) {
        queue
    } else {
        queue.push(node)
    }
}

/// `queue` without `node`, where it holds it.
pub open spec fn without(queue: Seq<usize>, node: usize) -> Seq<usize> {
    if queue.contains(node) {
        queue.remove(queue.index_of(node))
    } else {
        queue
    }
}

/// In a queue without duplicates, a node's position is the one it is found at.
pub proof fn lemma_index_of_unique(queue: Seq<usize>, i: int)
    requires
        queue.no_duplicates(),
        0 <= i < queue.len(),
    ensures
        queue.contains(queue[i]),
        queue.index_of(queue[i]) == i,
{
    assert(queue.contains(queue[i]));
}

/// Taking a node out of a queue without duplicates leaves every other node
/// queued, the node queued no more, and no node queued twice.
pub proof fn law_without(queue: Seq<usize>, node: usize)
    requires
        queue.no_duplicates(),
    ensures
        !without(queue, node).contains(node),
        without(queue, node).no_duplicates(),
        forall|m: usize| m != node ==> (#[trigger] without(queue, node).contains(m) <==> queue.contains(m)),
{
    if queue.contains(node) {
        let i = queue.index_of(node);
        let q = queue.remove(i);
        assert forall|a: int, b: int| 0 <= a < q.len() && 0 <= b < q.len() && a != b implies q[a] != q[b] by {
            let oa = if a < i { a } else { a + 1 };
            let ob = if b < i { b } else { b + 1 };
            assert(q[a] == queue[oa] && q[b] == queue[ob]);
        }
        assert forall|m: usize| m != node implies (#[trigger] q.contains(m) <==> queue.contains(m)) by {
            if q.contains(m) {
                let a = choose|a: int| 0 <= a < q.len() && q[a] == m;
                let oa = if a < i { a } else { a + 1 };
                assert(queue[oa] == m);
            }
            if queue.contains(m) {
                let k = choose|k: int| 0 <= k < queue.len() && queue[k] == m;
                if k < i {
                    assert(q[k] == m);
                } else {
                    assert(k != i);
                    assert(q[k - 1] == m);
                }
            }
        }
        if q.contains(node) {
            let a = choose|a: int| 0 <= a < q.len() && q[a] == node;
            let oa = if a < i { a } else { a + 1 };
            assert(queue[oa] == node);
        }
    }
}

/// Taking out the node at position `i` of a queue without duplicates keeps
/// the nodes before `i` where they were and moves each node after `i` one
/// place forward: the queue without that node is the queue with position `i`
/// removed.
pub proof fn law_remove_at(queue: Seq<usize>, i: int)
    requires
        queue.no_duplicates(),
        0 <= i < queue.len(),
    ensures
        without(queue, queue[i]) == queue.remove(i),
        without(queue, queue[i]).len() == queue.len() - 1,
        forall|j: int| 0 <= j < i ==> #[trigger] without(queue, queue[i])[j] == queue[j],
        forall|j: int| i <= j < queue.len() - 1 ==> #[trigger] without(queue, queue[i])[j] == queue[j + 1],
{
    lemma_index_of_unique(queue, i);
}

/// Queuing a node at the back twice is queuing it once.
pub proof fn law_insert_back_idempotent(queue: Seq<usize>, node: usize)
    ensures
        pushed_back(pushed_back(queue, node), node) == pushed_back(queue, node),
{
    assert(queue.push(node)[queue.len() as int] == node);
}

/// Queuing a node at the front twice is queuing it once.
pub proof fn law_insert_front_idempotent(queue: Seq<usize>, node: usize)
    ensures
        pushed_front(pushed_front(queue, node), node) == pushed_front(queue, node),
{
    assert((seq![node] + queue)[0] == node);
}

/// A node queued at either end is queued.
pub proof fn law_inserted_is_queued(queue: Seq<usize>, node: usize)
    ensures
        pushed_back(queue, node).contains(node),
        pushed_front(queue, node).contains(node),
{
    assert(queue.push(node)[queue.len() as int] == node);
    assert((seq![node] + queue)[0] == node);
}

/// Taking out a node that was just queued at the back gives back the queue
/// as it was.
pub proof fn law_remove_undoes_insert_back(queue: Seq<usize>, node: usize)
    requires
        !queue.contains(node),
    ensures
        without(pushed_back(queue, node), node) == queue,
{
    let q = queue.push(node);
    assert(q[queue.len() as int] == node);
    if q.index_of(node) != queue.len() {
        let i = q.index_of(node);
        assert(queue[i] == node);
    }
    assert(q.remove(queue.len() as int) =~= queue);
}

/// Taking out a node that was just queued at the front gives back the queue
/// as it was.
pub proof fn law_remove_undoes_insert_front(queue: Seq<usize>, node: usize)
    requires
        !queue.contains(node),
    ensures
        without(pushed_front(queue, node), node) == queue,
{
    let q = seq![node] + queue;
    assert(q[0] == node);
    if q.index_of(node) != 0 {
        let i = q.index_of(node);
        assert(queue[i - 1] == node);
    }
    assert(q.remove(0) =~= queue);
}

/// `queue` after queuing each of `nodes` at the back, in order.
pub open spec fn pushed_back_all(queue: Seq<usize>, nodes: Seq<usize>) -> Seq<usize>
    decreases nodes.len(),
{
    if nodes.len() == 0 {
        queue
    } else {
        pushed_back(pushed_back_all(queue, nodes.drop_last()), nodes.last())
    }
}

/// `queue` after queuing each of `nodes` at the front, in order.
pub open spec fn pushed_front_all(queue: Seq<usize>, nodes: Seq<usize>) -> Seq<usize>
    decreases nodes.len(),
{
    if nodes.len() == 0 {
        queue
    } else {
        pushed_front(pushed_front_all(queue, nodes.drop_last()), nodes.last())
    }
}

/// Queuing distinct nodes one after another into an empty queue: at the
/// back they stand in the order they came, at the front in the reverse order.
pub proof fn law_insert_order(nodes: Seq<usize>)
    requires
        nodes.no_duplicates(),
    ensures
        pushed_back_all(Seq::empty(), nodes) == nodes,
        pushed_front_all(Seq::empty(), nodes) == nodes.reverse(),
    decreases nodes.len(),
{
    if nodes.len() > 0 {
        let rest = nodes.drop_last();
        let last = nodes.last();
        assert(rest.no_duplicates()) by {
            assert forall|a: int, b: int| 0 <= a < rest.len() && 0 <= b < rest.len() && a != b
                implies rest[a] != rest[b] by {
                assert(rest[a] == nodes[a] && rest[b] == nodes[b]);
            }
        }
        law_insert_order(rest);
        assert(!rest.contains(last)) by {
            if rest.contains(last) {
                let i = choose|i: int| 0 <= i < rest.len() && rest[i] == last;
                assert(nodes[i] == nodes[nodes.len() - 1]);
            }
        }
        assert(!rest.reverse().contains(last)) by {
            if rest.reverse().contains(last) {
                let i = choose|i: int| 0 <= i < rest.reverse().len() && rest.reverse()[i] == last;
                assert(rest[rest.len() - 1 - i] == last);
            }
        }
        assert(rest.push(last) =~= nodes);
        assert(seq![last] + rest.reverse() =~= nodes.reverse());
    }
}

/// The links of a node: the numbers of the nodes before and after it.
pub struct LinkedListLinks {
    previous: Option<usize>,
    next: Option<usize>,
}

impl View for LinkedListLinks {
    type V = (Option<usize>, Option<usize>);

    closed spec fn view(&self) -> (Option<usize>, Option<usize>) {
        (self.previous, self.next)
    }
}

impl Default for LinkedListLinks {
    fn default() -> (links: Self)
        ensures
            links@ == (None::<usize>, None::<usize>),
    {
        LinkedListLinks { previous: None, next: None }
    }
}

impl LinkedListLinks {
    /// The node before this one.
    pub fn previous(&self) -> (r: Option<usize>)
        ensures
            r == self@.0,
    {
        self.previous
    }

    /// The node after this one.
    pub fn next(&self) -> (r: Option<usize>)
        ensures
            r == self@.1,
    {
        self.next
    }
}

/// The two ends of a queue that is not empty.
#[derive(Clone, Copy)]
struct LinkedListCore {
    first: usize,
    last: usize,
}

/// A node: the item it carries and its links.
struct Node<T> {
    item: T,
    links: LinkedListLinks,
}

/// A handle on a node, to reach its item later.
pub struct LinkedListDeferred {
    inner: usize,
}

impl LinkedListDeferred {
    /// The number of the node.
    pub closed spec fn node_spec(&self) -> usize {
        self.inner
    }

    /// The number of the node.
    pub fn node(&self) -> (r: usize)
        ensures
            r == self.node_spec(),
    {
        self.inner
    }

    /// Calls `f` on the item of the node in `list`.
    pub fn with<T, F, R>(self, list: &LinkedList<T>, f: F) -> (r: R) where F: FnOnce(&T) -> R
        requires
            self.node_spec() < list.items().len(),
            f.requires((&list.items()[self.node_spec() as int],)),
        ensures
            f.ensures((&list.items()[self.node_spec() as int],), r),
    {
        f(list.item(self.inner))
    }
}

impl<T> Default for LinkedList<T> {
    fn default() -> (list: Self)
        ensures
            list.wf(),
            list.queue() == Seq::<usize>::empty(),
            list.items() == Seq::<T>::empty(),
    {
        Self::new()
    }
}

/// A queue of nodes, each carrying an item of type `T`.
pub struct LinkedList<T> {
    core: Option<LinkedListCore>,
    nodes: Vec<Node<T>>,
    queue: Ghost<Seq<usize>>,
}

impl<T> LinkedList<T> {
    /// The numbers of the queued nodes, from first to last.
    pub closed spec fn queue(&self) -> Seq<usize> {
        self.queue@
    }

    /// The items of all nodes, queued or not, by node number.
    pub closed spec fn items(&self) -> Seq<T> {
        self.nodes@.map_values(|n: Node<T>| n.item)
    }

    /// The links of the node at position `i` of the queue agree with the queue.
    closed spec fn linked_at(&self, i: int) -> bool {
        let q = self.queue@;
        &&& q[i] < self.nodes@.len()
        &&& self.nodes@[q[i] as int].links.previous == before(q, i)
        &&& self.nodes@[q[i] as int].links.next == after(q, i)
    }

    /// Node `n` has empty links.
    closed spec fn unlinked(&self, n: usize) -> bool {
        &&& self.nodes@[n as int].links.previous is None
        &&& self.nodes@[n as int].links.next is None
    }

    /// Every node out of the queue has empty links.
    closed spec fn unqueued_unlinked(&self) -> bool {
        forall|n: usize| n < self.nodes@.len() && !self.queue@.contains(n) ==> #[trigger] self.unlinked(n)
    }

    /// Nodes out of the queue have empty links when each node out of the
    /// queue either has empty links, or was out of the queue of `before`
    /// with the same links.
    proof fn lemma_unqueued_unlinked(&self, before: Self)
        requires
            before.unqueued_unlinked(),
            forall|n: usize|
                #![trigger self.unlinked(n)]
                n < self.nodes@.len() && !self.queue@.contains(n) ==> {
                    ||| self.unlinked(n)
                    ||| n < before.nodes@.len() && !before.queue@.contains(n)
                        && self.nodes@[n as int].links == before.nodes@[n as int].links
                },
        ensures
            self.unqueued_unlinked(),
    {
        assert forall|n: usize| n < self.nodes@.len() && !self.queue@.contains(n) implies #[trigger] self.unlinked(n) by {
            if !self.unlinked(n) {
                assert(before.unlinked(n));
            }
        }
    }

    /// Well-formedness: the links and the two ends agree with the queue.
    pub closed spec fn wf(&self) -> bool {
        let q = self.queue@;
        &&& q.no_duplicates()
        &&& forall|i: int| 0 <= i < q.len() ==> #[trigger] self.linked_at(i)
        &&& self.unqueued_unlinked()
        &&& match self.core {
            None => q.len() == 0,
            Some(c) => q.len() > 0 && c.first == q[0] && c.last == q.last(),
        }
    }

    /// Every queued node is a node of the list, and none is queued twice.
    pub proof fn lemma_queue_wf(&self)
        requires
            self.wf(),
        ensures
            self.queue().no_duplicates(),
            forall|i: int| 0 <= i < self.queue().len() ==> #[trigger] self.queue()[i] < self.items().len(),
    {
        assert forall|i: int| 0 <= i < self.queue().len() implies #[trigger] self.queue()[i] < self.items().len() by {
            assert(self.linked_at(i));
        }
    }

    /// A list with no nodes.
    pub fn new() -> (list: Self)
        ensures
            list.wf(),
            list.queue() == Seq::<usize>::empty(),
            list.items() == Seq::<T>::empty(),
    {
        let list = LinkedList { core: None, nodes: Vec::new(), queue: Ghost(Seq::empty()) };
        assert(list.items() =~= Seq::<T>::empty());
        list
    }

    /// Adds a node that carries `item` and is not queued; returns its number.
    pub fn add(&mut self, item: T) -> (node: usize)
        requires
            old(self).wf(),
            old(self).items().len() < usize::MAX,
        ensures
            final(self).wf(),
            node == old(self).items().len(),
            final(self).items() == old(self).items().push(item),
            final(self).queue() == old(self).queue(),
    {
        let node = self.nodes.len();
        self.nodes.push(Node { item, links: LinkedListLinks::default() });
        proof {
            let q = self.queue@;
            assert forall|i: int| 0 <= i < q.len() implies #[trigger] self.linked_at(i) by {
                assert(old(self).linked_at(i));
            }
            assert forall|n: usize| n < self.nodes@.len() && !q.contains(n) implies {
                ||| self.unlinked(n)
                ||| n < old(self).nodes@.len() && !old(self).queue@.contains(n)
                    && self.nodes@[n as int].links == old(self).nodes@[n as int].links
            } by {
                if n < node {
                    assert(old(self).nodes@[n as int] == self.nodes@[n as int]);
                }
            }
            self.lemma_unqueued_unlinked(*old(self));
            assert(self.items() =~= old(self).items().push(item));
        }
        node
    }


    /// The links of `node` agree with the queue.
    proof fn lemma_links(&self, node: usize)
        requires
            self.wf(),
            node < self.nodes@.len(),
        ensures
            self.nodes@[node as int].links@ == links_in(self.queue@, node),
    {
        let q = self.queue@;
        if q.contains(node) {
            let i = choose|i: int| 0 <= i < q.len() && q[i] == node;
            lemma_index_of_unique(q, i);
            assert(self.linked_at(i));
        } else {
            assert(self.unlinked(node));
        }
    }

    /// The links of `node`.
    pub fn links(&self, node: usize) -> (r: &LinkedListLinks)
        requires
            self.wf(),
            node < self.items().len(),
        ensures
            r@ == links_in(self.queue(), node),
    {
        proof {
            self.lemma_links(node);
        }
        &self.nodes[node].links
    }

    /// The first node of the queue, if the queue is not empty.
    pub fn get_first(&self) -> (r: Option<LinkedListDeferred>)
        requires
            self.wf(),
        ensures
            match r {
                None => self.queue().len() == 0,
                Some(d) => self.queue().len() > 0 && d.node_spec() == self.queue()[0]
                    && d.node_spec() < self.items().len(),
            },
    {
        match self.core {
            None => None,
            Some(core) => {
                proof {
                    assert(self.linked_at(0));
                }
                Some(LinkedListDeferred { inner: core.first })
            },
        }
    }

    /// Calls `f` on the item of the first node of the queue, if there is one.
    pub fn with_first<F, R>(&self, f: F) -> (r: Option<R>) where F: FnOnce(&T) -> R
        requires
            self.wf(),
            self.queue().len() > 0 ==> f.requires((&self.items()[self.queue()[0] as int],)),
        ensures
            self.queue().len() == 0 ==> r is None,
            self.queue().len() > 0 ==> (r matches Some(v) && f.ensures(
                (&self.items()[self.queue()[0] as int],),
                v,
            )),
    {
        match self.get_first() {
            None => None,
            Some(first) => Some(first.with(self, f)),
        }
    }

    /// Whether `node` is queued.
    pub fn is_in_queue(&self, node: usize) -> (r: bool)
        requires
            self.wf(),
            node < self.items().len(),
        ensures
            r == self.queue().contains(node),
    {
        let links = &self.nodes[node].links;
        let is_first = match self.core {
            Some(core) => core.first == node,
            None => false,
        };
        let r = links.previous.is_some() || links.next.is_some() || is_first;
        proof {
            let q = self.queue@;
            self.lemma_links(node);
            if q.contains(node) {
                let i = q.index_of(node);
                if q.len() == 1 {
                    assert(i == 0);
                } else if i == 0 {
                    assert(links.next is Some);
                } else {
                    assert(links.previous is Some);
                }
            } else if is_first {
                assert(q[0] == node);
            }
        }
        r
    }


    /// Queues `node` at the front, unless it is queued already.
    pub fn insert_front(&mut self, node: usize)
        requires
            old(self).wf(),
            node < old(self).items().len(),
        ensures
            final(self).wf(),
            final(self).items() == old(self).items(),
            final(self).queue() == pushed_front(old(self).queue(), node),
    {
        if self.is_in_queue(node) {
            return;
        }
        proof {
            old(self).lemma_links(node);
        }
        match self.core {
            Some(core) => {
                proof {
                    assert(old(self).linked_at(0));
                }
                self.nodes[node].links.next = Some(core.first);
                self.nodes[core.first].links.previous = Some(node);
                self.core = Some(LinkedListCore { first: node, last: core.last });
            },
            None => {
                self.core = Some(LinkedListCore { first: node, last: node });
            },
        }
        proof {
            let oq = old(self).queue@;
            let q = seq![node] + oq;
            self.queue@ = q;
            assert forall|i: int| 0 <= i < q.len() implies #[trigger] self.linked_at(i) by {
                if i > 0 {
                    assert(old(self).linked_at(i - 1));
                    assert(q[i] == oq[i - 1]);
                    assert(oq[i - 1] != node);
                }
            }
            assert forall|j: int, k: int| 0 <= j < q.len() && 0 <= k < q.len() && j != k
                implies q[j] != q[k] by {
                if j > 0 && k > 0 {
                    assert(q[j] == oq[j - 1] && q[k] == oq[k - 1]);
                } else if j == 0 {
                    assert(q[k] == oq[k - 1]);
                } else {
                    assert(q[j] == oq[j - 1]);
                }
            }
            assert forall|n: usize| n < self.nodes@.len() && !q.contains(n) implies {
                ||| self.unlinked(n)
                ||| n < old(self).nodes@.len() && !old(self).queue@.contains(n)
                    && self.nodes@[n as int].links == old(self).nodes@[n as int].links
            } by {
                assert(q[0] == node);
                if oq.len() > 0 {
                    assert(q[1] == oq[0]);
                }
                if oq.contains(n) {
                    let k = choose|k: int| 0 <= k < oq.len() && oq[k] == n;
                    assert(q[k + 1] == oq[k]);
                }
                assert(old(self).nodes@[n as int] == self.nodes@[n as int]);
            }
            self.lemma_unqueued_unlinked(*old(self));
            assert(self.items() =~= old(self).items());
        }
    }

    /// Queues `node` at the back, unless it is queued already.
    pub fn insert_back(&mut self, node: usize)
        requires
            old(self).wf(),
            node < old(self).items().len(),
        ensures
            final(self).wf(),
            final(self).items() == old(self).items(),
            final(self).queue() == pushed_back(old(self).queue(), node),
    {
        if self.is_in_queue(node) {
            return;
        }
        proof {
            old(self).lemma_links(node);
        }
        match self.core {
            Some(core) => {
                proof {
                    assert(old(self).linked_at(old(self).queue@.len() - 1));
                }
                self.nodes[node].links.previous = Some(core.last);
                self.nodes[core.last].links.next = Some(node);
                self.core = Some(LinkedListCore { first: core.first, last: node });
            },
            None => {
                self.core = Some(LinkedListCore { first: node, last: node });
            },
        }
        proof {
            let oq = old(self).queue@;
            let q = oq.push(node);
            self.queue@ = q;
            assert forall|i: int| 0 <= i < q.len() implies #[trigger] self.linked_at(i) by {
                if i < oq.len() {
                    assert(old(self).linked_at(i));
                    assert(q[i] == oq[i]);
                    assert(oq[i] != node);
                }
            }
            assert forall|j: int, k: int| 0 <= j < q.len() && 0 <= k < q.len() && j != k
                implies q[j] != q[k] by {
                if j < oq.len() && k < oq.len() {
                    assert(q[j] == oq[j] && q[k] == oq[k]);
                } else if j == oq.len() {
                    assert(q[k] == oq[k]);
                } else {
                    assert(q[j] == oq[j]);
                }
            }
            assert forall|n: usize| n < self.nodes@.len() && !q.contains(n) implies {
                ||| self.unlinked(n)
                ||| n < old(self).nodes@.len() && !old(self).queue@.contains(n)
                    && self.nodes@[n as int].links == old(self).nodes@[n as int].links
            } by {
                assert(q[oq.len() as int] == node);
                if oq.len() > 0 {
                    assert(q[oq.len() - 1] == oq[oq.len() - 1]);
                }
                if oq.contains(n) {
                    let k = choose|k: int| 0 <= k < oq.len() && oq[k] == n;
                    assert(q[k] == oq[k]);
                }
                assert(old(self).nodes@[n as int] == self.nodes@[n as int]);
            }
            self.lemma_unqueued_unlinked(*old(self));
            assert(self.items() =~= old(self).items());
        }
    }


    /// Takes `node` out of the queue, if it is queued.
    pub fn remove(&mut self, node: usize)
        requires
            old(self).wf(),
            node < old(self).items().len(),
        ensures
            final(self).wf(),
            final(self).items() == old(self).items(),
            final(self).queue() == without(old(self).queue(), node),
            forall|i: int|
                0 <= i < old(self).queue().len() && old(self).queue()[i] == node
                    ==> final(self).queue() == old(self).queue().remove(i),
            !old(self).queue().contains(node) ==> final(self).queue() == old(self).queue(),
    {
        proof {
            old(self).lemma_queue_wf();
            assert forall|i: int|
                0 <= i < old(self).queue().len() && old(self).queue()[i] == node implies without(
                    old(self).queue(),
                    node,
                ) == old(self).queue().remove(i) by {
                law_remove_at(old(self).queue(), i);
            }
            old(self).lemma_links(node);
            let oq = old(self).queue@;
            if oq.contains(node) {
                let i = oq.index_of(node);
                assert(old(self).linked_at(i));
                if i > 0 {
                    assert(old(self).linked_at(i - 1));
                }
                if i < oq.len() - 1 {
                    assert(old(self).linked_at(i + 1));
                }
                assert(old(self).linked_at(0));
                assert(old(self).linked_at(oq.len() - 1));
            }
        }
        let previous = self.nodes[node].links.previous.take();
        let next = self.nodes[node].links.next.take();
        match (previous, next) {
            (None, None) => {
                // Either the only node of the queue, or not queued at all.
                if let Some(ends) = self.core {
                    if ends.first == node {
                        self.core = None;
                    }
                }
            },
            (None, Some(next)) => {
                // First in the queue.
                if let Some(ends) = self.core {
                    self.core = Some(LinkedListCore { first: next, last: ends.last });
                }
                self.nodes[next].links.previous = None;
            },
            (Some(previous), Some(next)) => {
                // In the middle of the queue.
                self.nodes[previous].links.next = Some(next);
                self.nodes[next].links.previous = Some(previous);
            },
            (Some(previous), None) => {
                // Last in the queue.
                if let Some(ends) = self.core {
                    self.core = Some(LinkedListCore { first: ends.first, last: previous });
                }
                self.nodes[previous].links.next = None;
            },
        }
        proof {
            let oq = old(self).queue@;
            if oq.contains(node) {
                let i = oq.index_of(node);
                let q = oq.remove(i);
                self.queue@ = q;
                assert forall|j: int| 0 <= j < q.len() implies #[trigger] self.linked_at(j) by {
                    if j < i {
                        assert(q[j] == oq[j]);
                        assert(old(self).linked_at(j));
                        if j < i - 1 {
                            assert(q[j + 1] == oq[j + 1]);
                        }
                        if j > 0 {
                            assert(q[j - 1] == oq[j - 1]);
                        }
                    } else {
                        assert(q[j] == oq[j + 1]);
                        assert(old(self).linked_at(j + 1));
                        if j + 1 < q.len() {
                            assert(q[j + 1] == oq[j + 2]);
                        }
                        if j > i {
                            assert(q[j - 1] == oq[j]);
                        } else if j > 0 {
                            assert(q[j - 1] == oq[j - 1]);
                        }
                    }
                }
                assert forall|a: int, b: int| 0 <= a < q.len() && 0 <= b < q.len() && a != b
                    implies q[a] != q[b] by {
                    let oa = if a < i { a } else { a + 1 };
                    let ob = if b < i { b } else { b + 1 };
                    assert(q[a] == oq[oa] && q[b] == oq[ob]);
                }
                assert forall|n: usize| n < self.nodes@.len() && !q.contains(n) implies {
                    ||| self.unlinked(n)
                    ||| n < old(self).nodes@.len() && !old(self).queue@.contains(n)
                        && self.nodes@[n as int].links == old(self).nodes@[n as int].links
                } by {
                    if n != node && oq.contains(n) {
                        let k = choose|k: int| 0 <= k < oq.len() && oq[k] == n;
                        if k < i {
                            assert(q[k] == oq[k]);
                        } else {
                            assert(oq[i] == node);
                            assert(k != i);
                            assert(q[k - 1] == oq[k]);
                        }
                    }
                    if n != node {
                        if i > 0 {
                            assert(oq[i - 1] != n);
                        }
                        if i < oq.len() - 1 {
                            assert(oq[i + 1] != n);
                        }
                        assert(old(self).nodes@[n as int].links == self.nodes@[n as int].links);
                    }
                }
                self.lemma_unqueued_unlinked(*old(self));
                if q.len() > 0 {
                    if i == 0 {
                        assert(q[0] == oq[1]);
                    } else {
                        assert(q[0] == oq[0]);
                    }
                    if i == oq.len() - 1 {
                        assert(q.last() == oq[oq.len() - 2]);
                    } else {
                        assert(q.last() == oq.last());
                    }
                }
            } else {
                assert forall|j: int| 0 <= j < oq.len() implies #[trigger] self.linked_at(j) by {
                    assert(old(self).linked_at(j));
                }
                assert forall|n: usize| n < self.nodes@.len() && !oq.contains(n) implies {
                    ||| self.unlinked(n)
                    ||| n < old(self).nodes@.len() && !old(self).queue@.contains(n)
                        && self.nodes@[n as int].links == old(self).nodes@[n as int].links
                } by {
                    assert(old(self).nodes@[n as int].links == self.nodes@[n as int].links || n == node);
                }
                self.lemma_unqueued_unlinked(*old(self));
                if oq.len() > 0 {
                    assert(oq[0] != node);
                }
            }
            assert(self.items() =~= old(self).items());
        }
    }

    /// The number of nodes, queued or not.
    pub fn len(&self) -> (r: usize)
        ensures
            r == self.items().len(),
    {
        self.nodes.len()
    }

    /// The item of `node`.
    pub fn item(&self, node: usize) -> (r: &T)
        requires
            node < self.items().len(),
        ensures
            *r == self.items()[node as int],
    {
        &self.nodes[node].item
    }

    /// Puts `item` in `node` and returns the item it held.
    pub fn replace_item(&mut self, node: usize, item: T) -> (r: T)
        requires
            old(self).wf(),
            node < old(self).items().len(),
        ensures
            final(self).wf(),
            r == old(self).items()[node as int],
            final(self).items() == old(self).items().update(node as int, item),
            final(self).queue() == old(self).queue(),
    {
        let mut r = item;
        std::mem::swap(&mut self.nodes[node].item, &mut r);
        proof {
            let q = self.queue@;
            assert forall|i: int| 0 <= i < q.len() implies #[trigger] self.linked_at(i) by {
                assert(old(self).linked_at(i));
            }
            assert forall|n: usize| n < self.nodes@.len() && !q.contains(n) implies {
                ||| self.unlinked(n)
                ||| n < old(self).nodes@.len() && !old(self).queue@.contains(n)
                    && self.nodes@[n as int].links == old(self).nodes@[n as int].links
            } by {
                assert(old(self).nodes@[n as int].links == self.nodes@[n as int].links);
            }
            self.lemma_unqueued_unlinked(*old(self));
            assert(self.items() =~= old(self).items().update(node as int, item));
        }
        r
    }
}

} // verus!
