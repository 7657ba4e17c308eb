//! A doubly-linked list kept in an arena of nodes.
//!
//! Nodes live in a `Vec` and refer to their neighbours by slot index, so the
//! backward links never own anything and can never dangle. Removing a node
//! moves the last slot into the freed one (`swap_remove`) and re-points the
//! neighbours of the moved node, which keeps every operation at either end O(1)
//! and the arena exactly as long as the list.
use vstd::prelude::*;

verus! {

/// One element with the slots of its neighbours.
struct Node<T> {
    element: T,
    next: Option<usize>,
    prev: Option<usize>,
}

impl<T> Node<T> {
    /// A node linked to nothing.
    fn new(element: T) -> (r: Self)
        ensures
            r.element == element,
            r.next is None,
            r.prev is None,
    {
        Node { element, next: None, prev: None }
    }
}

/// A doubly-linked list with O(1) insertion and removal at both ends.
pub struct LinkedList<T> {
    nodes: Vec<Node<T>>,
    head: Option<usize>,
    tail: Option<usize>,
    length: usize,
    /// The slot of each element, front to back.
    order: Ghost<Seq<usize>>,
}

/// The first entry of `order`, if any.
spec fn first_of(order: Seq<usize>) -> Option<usize> {
    if order.len() > 0 { Some(order[0]) } else { None }
}

/// The last entry of `order`, if any.
spec fn last_of(order: Seq<usize>) -> Option<usize> {
    if order.len() > 0 { Some(order.last()) } else { None }
}

/// The slot after position `i` of `order`, if any.
spec fn next_of(order: Seq<usize>, i: int) -> Option<usize> {
    if i + 1 < order.len() { Some(order[i + 1]) } else { None }
}

/// The slot before position `i` of `order`, if any.
spec fn prev_of(order: Seq<usize>, i: int) -> Option<usize> {
    if i > 0 { Some(order[i - 1]) } else { None }
}

/// The slots of `order` are distinct arena slots, chained forward and backward
/// in that order, with `head` and `tail` at its two ends.
spec fn chained<T>(
    nodes: Seq<Node<T>>,
    head: Option<usize>,
    tail: Option<usize>,
    order: Seq<usize>,
) -> bool {
    &&& order.no_duplicates()
    &&& forall|i: int| 0 <= i < order.len() ==> (#[trigger] order[i] as int) < nodes.len()
    &&& head == first_of(order)
    &&& tail == last_of(order)
    &&& forall|i: int|
        0 <= i < order.len() ==> {
            &&& nodes[#[trigger] order[i] as int].next == next_of(order, i)
            &&& nodes[order[i] as int].prev == prev_of(order, i)
        }
}

/// Every slot below `n` but `hole` stands in `order`.
spec fn covers(order: Seq<usize>, n: int, hole: int) -> bool {
    forall|j: usize| (j as int) < n && j as int != hole ==> #[trigger] order.contains(j)
}

/// Once the node of the last arena slot has moved into the free slot `hole`
/// and its two neighbours point there, the chain runs through `hole` in place
/// of the last slot, over an arena one shorter.
#[verifier::spinoff_prover]
proof fn lemma_fill_hole<T>(
    old_nodes: Seq<Node<T>>,
    nodes: Seq<Node<T>>,
    old_head: Option<usize>,
    old_tail: Option<usize>,
    head: Option<usize>,
    tail: Option<usize>,
    order: Seq<usize>,
    p: int,
    hole: usize,
)
    requires
        chained(old_nodes, old_head, old_tail, order),
        old_nodes.len() == order.len() + 1,
        !order.contains(hole),
        hole < nodes.len(),
        covers(order, old_nodes.len() as int, hole as int),
        0 <= p < order.len(),
        order[p] == nodes.len(),
        nodes.len() + 1 == old_nodes.len(),
        nodes[hole as int] == old_nodes[nodes.len() as int],
        forall|x: int|
            0 <= x < nodes.len() && x != hole && (p == 0 || x != order[p - 1]) && (p + 1
                == order.len() || x != order[p + 1]) ==> #[trigger] nodes[x] == old_nodes[x],
        p > 0 ==> {
            &&& nodes[order[p - 1] as int].next == Some(hole)
            &&& nodes[order[p - 1] as int].prev == old_nodes[order[p - 1] as int].prev
            &&& nodes[order[p - 1] as int].element == old_nodes[order[p - 1] as int].element
        },
        p + 1 < order.len() ==> {
            &&& nodes[order[p + 1] as int].prev == Some(hole)
            &&& nodes[order[p + 1] as int].next == old_nodes[order[p + 1] as int].next
            &&& nodes[order[p + 1] as int].element == old_nodes[order[p + 1] as int].element
        },
        head == (if p == 0 { Some(hole) } else { old_head }),
        tail == (if p + 1 == order.len() { Some(hole) } else { old_tail }),
    ensures
        chained(nodes, head, tail, order.update(p, hole)),
        covers(order.update(p, hole), nodes.len() as int, -1),
        forall|i: int|
            0 <= i < order.len() ==> #[trigger] nodes[order.update(p, hole)[i] as int].element
                == old_nodes[order[i] as int].element,
{
    let new_order = order.update(p, hole);
    assert forall|i: int| 0 <= i < new_order.len() implies (#[trigger] new_order[i] as int)
        < nodes.len() by {
        if i != p {
            assert(order[i] != order[p]);
        }
    }
    assert forall|i: int| 0 <= i < new_order.len() implies {
        &&& nodes[#[trigger] new_order[i] as int].next == next_of(new_order, i)
        &&& nodes[new_order[i] as int].prev == prev_of(new_order, i)
        &&& nodes[new_order[i] as int].element == old_nodes[order[i] as int].element
    } by {
        if i != p {
            assert(order[i] != order[p]);
            assert(order[i] != hole);
            assert(old_nodes[order[i] as int].next == next_of(order, i));
            if i != p - 1 && i != p + 1 {
                if p > 0 {
                    assert(order[i] != order[p - 1]);
                }
                if p + 1 < order.len() {
                    assert(order[i] != order[p + 1]);
                }
                assert(nodes[order[i] as int] == old_nodes[order[i] as int]);
            }
        } else {
            assert(old_nodes[order[p] as int].next == next_of(order, p));
        }
    }
    assert forall|a: int, b: int|
        0 <= a < new_order.len() && 0 <= b < new_order.len() && a != b implies #[trigger] new_order[a]
        != #[trigger] new_order[b] by {
        if a != p && b != p {
            assert(order[a] != order[b]);
        } else if a != p {
            assert(order[a] != hole);
        } else {
            assert(order[b] != hole);
        }
    }
    assert forall|j: usize| (j as int) < nodes.len() implies #[trigger] new_order.contains(j) by {
        if j == hole {
            assert(new_order[p] == j);
        } else {
            assert(order.contains(j));
            let k = choose|k: int| 0 <= k < order.len() && order[k] == j;
            assert(new_order[k] == j);
        }
    }
    if p > 0 {
        assert(old_head == Some(order[0]));
        assert(order[0] != order[p]);
    }
    if p + 1 < order.len() {
        assert(order.last() != order[p]);
    }
}

impl<T> LinkedList<T> {
    /// The list's links form one chain over the whole arena.
    pub closed spec fn wf(&self) -> bool {
        &&& chained(self.nodes@, self.head, self.tail, self.order@)
        &&& self.order@.len() == self.nodes@.len()
        &&& covers(self.order@, self.nodes@.len() as int, -1)
        &&& self.length == self.nodes@.len()
    }
}

impl<T> View for LinkedList<T> {
    type V = Seq<T>;

    /// The elements, front to back.
    closed spec fn view(&self) -> Seq<T> {
        Seq::new(self.order@.len(), |i: int| self.nodes@[self.order@[i] as int].element)
    }
}

impl<T> LinkedList<T> {
    /// Appends `node` at the back.
    fn push_back_node(&mut self, node: Node<T>)
        requires
            old(self).wf(),
            old(self)@.len() < usize::MAX,
            node.next is None,
            node.prev is None,
        ensures
            final(self).wf(),
            final(self)@ == old(self)@.push(node.element),
    {
        let ghost old_order = self.order@;
        let ghost old_view = self@;
        let s = self.nodes.len();
        let mut node = node;
        node.prev = self.tail;
        match self.tail {
            Some(t) => {
                self.nodes[t].next = Some(s);
            },
            None => {
                self.head = Some(s);
            },
        }
        self.nodes.push(node);
        self.tail = Some(s);
        self.length = self.length + 1;
        self.order = Ghost(old_order.push(s));
        proof {
            let order = self.order@;
            assert forall|i: int| 0 <= i < order.len() implies {
                &&& self.nodes@[#[trigger] order[i] as int].next == next_of(order, i)
                &&& self.nodes@[order[i] as int].prev == prev_of(order, i)
            } by {
                if i < old_order.len() {
                    assert(old_order[i] == order[i]);
                }
            }
            assert forall|j: usize| (j as int) < self.nodes@.len() implies #[trigger] order.contains(j) by {
                if j == s {
                    assert(order[old_order.len() as int] == j);
                } else {
                    assert(old_order.contains(j));
                    let k = choose|k: int| 0 <= k < old_order.len() && old_order[k] == j;
                    assert(order[k] == j);
                }
            }
            assert(self@ =~= old_view.push(node.element));
        }
    }

    /// Puts `node` in front.
    fn push_front_node(&mut self, node: Node<T>)
        requires
            old(self).wf(),
            old(self)@.len() < usize::MAX,
            node.next is None,
            node.prev is None,
        ensures
            final(self).wf(),
            final(self)@ == seq![node.element] + old(self)@,
    {
        let ghost old_order = self.order@;
        let ghost old_view = self@;
        let s = self.nodes.len();
        let mut node = node;
        node.next = self.head;
        match self.head {
            Some(h) => {
                self.nodes[h].prev = Some(s);
            },
            None => {
                self.tail = Some(s);
            },
        }
        self.nodes.push(node);
        self.head = Some(s);
        self.length = self.length + 1;
        self.order = Ghost(seq![s] + old_order);
        proof {
            let order = self.order@;
            assert forall|i: int| 0 <= i < order.len() implies {
                &&& self.nodes@[#[trigger] order[i] as int].next == next_of(order, i)
                &&& self.nodes@[order[i] as int].prev == prev_of(order, i)
            } by {
                if i > 0 {
                    assert(old_order[i - 1] == order[i]);
                }
            }
            assert forall|a: int, b: int|
                0 <= a < order.len() && 0 <= b < order.len() && a != b implies #[trigger] order[a]
                != #[trigger] order[b] by {
                if a > 0 && b > 0 {
                    assert(old_order[a - 1] != old_order[b - 1]);
                } else if a > 0 {
                    assert(old_order[a - 1] < s);
                } else {
                    assert(old_order[b - 1] < s);
                }
            }
            assert forall|j: usize| (j as int) < self.nodes@.len() implies #[trigger] order.contains(j) by {
                if j == s {
                    assert(order[0] == j);
                } else {
                    assert(old_order.contains(j));
                    let k = choose|k: int| 0 <= k < old_order.len() && old_order[k] == j;
                    assert(order[k + 1] == j);
                }
            }
            assert(self@ =~= seq![node.element] + old_view);
        }
    }

    /// The list's links form one chain over every arena slot but `hole`.
    spec fn wf_with_hole(&self, hole: usize) -> bool {
        &&& chained(self.nodes@, self.head, self.tail, self.order@)
        &&& self.nodes@.len() == self.order@.len() + 1
        &&& hole < self.nodes@.len()
        &&& !self.order@.contains(hole)
        &&& covers(self.order@, self.nodes@.len() as int, hole as int)
        &&& self.length == self.order@.len()
    }

    /// Frees slot `hole`, which no link reaches, and returns its element. The
    /// last slot moves into it and its neighbours are pointed at its new place.
    #[verifier::spinoff_prover]
    #[verifier::rlimit(50)]
    fn remove_slot(&mut self, hole: usize) -> (e: T)
        requires
            old(self).wf_with_hole(hole),
        ensures
            final(self).wf(),
            final(self)@ == old(self)@,
            e == old(self).nodes@[hole as int].element,
    {
        let ghost old_order = self.order@;
        let ghost old_nodes = self.nodes@;
        let ghost old_view = self@;
        let ghost old_head = self.head;
        let ghost old_tail = self.tail;
        let last = self.nodes.len() - 1;
        let node = self.nodes.swap_remove(hole);
        if hole != last {
            assert(old_order.contains(last));
            let ghost p = choose|p: int| 0 <= p < old_order.len() && old_order[p] == last;
            assert(old_nodes[old_order[p] as int].prev == prev_of(old_order, p));
            let prev = self.nodes[hole].prev;
            let next = self.nodes[hole].next;
            match prev {
                Some(q) => {
                    assert(old_order[p - 1] != old_order[p]);
                    self.nodes[q].next = Some(hole);
                },
                None => {
                    self.head = Some(hole);
                },
            }
            match next {
                Some(q) => {
                    assert(old_order[p + 1] != old_order[p]);
                    assert(p > 0 ==> old_order[p + 1] != old_order[p - 1]);
                    self.nodes[q].prev = Some(hole);
                },
                None => {
                    self.tail = Some(hole);
                },
            }
            self.order = Ghost(old_order.update(p, hole));
            proof {
                lemma_fill_hole(
                    old_nodes,
                    self.nodes@,
                    old_head,
                    old_tail,
                    self.head,
                    self.tail,
                    old_order,
                    p,
                    hole,
                );
                assert(self@ =~= old_view);
            }
        } else {
            proof {
                let order = self.order@;
                assert forall|i: int| 0 <= i < order.len() implies (#[trigger] order[i] as int)
                    < self.nodes@.len() by {
                    assert(order[i] != hole);
                }
                assert forall|j: usize| (j as int) < self.nodes@.len() implies #[trigger] order.contains(j) by {
                    assert(j != hole);
                }
                assert(self@ =~= old_view);
            }
        }
        node.element
    }

    /// Takes the back node out and returns its element; `None` when empty.
    fn pop_back_node(&mut self) -> (r: Option<T>)
        requires
            old(self).wf(),
        ensures
            final(self).wf(),
            old(self)@.len() == 0 ==> r is None && final(self)@ == old(self)@,
            old(self)@.len() > 0 ==> r == Some(old(self)@.last()) && final(self)@ == old(self)@.drop_last(),
    {
        match self.tail {
            None => None,
            Some(t) => {
                let ghost old_order = self.order@;
                let ghost old_view = self@;
                let ghost n = old_order.len() as int;
                let prev = self.nodes[t].prev;
                match prev {
                    Some(q) => {
                        self.nodes[q].next = None;
                        self.tail = Some(q);
                    },
                    None => {
                        self.head = None;
                        self.tail = None;
                    },
                }
                self.length = self.length - 1;
                self.order = Ghost(old_order.drop_last());
                proof {
                    let order = self.order@;
                    assert forall|i: int| 0 <= i < order.len() implies {
                        &&& self.nodes@[#[trigger] order[i] as int].next == next_of(order, i)
                        &&& self.nodes@[order[i] as int].prev == prev_of(order, i)
                    } by {
                        assert(old_order[i] == order[i]);
                        assert(old_order[i] != old_order[n - 1]);
                    }
                    assert forall|i: int| 0 <= i < order.len() implies #[trigger] order[i] != t by {
                        assert(old_order[i] == order[i]);
                        assert(old_order[i] != old_order[n - 1]);
                    }
                    assert forall|j: usize|
                        (j as int) < self.nodes@.len() && j != t implies #[trigger] order.contains(
                        j) by {
                        assert(old_order.contains(j));
                        let k = choose|k: int| 0 <= k < old_order.len() && old_order[k] == j;
                        assert(order[k] == j);
                    }
                    assert(self@ =~= old_view.drop_last());
                }
                let e = self.remove_slot(t);
                Some(e)
            },
        }
    }

    /// Takes the front node out and returns its element; `None` when empty.
    fn pop_front_node(&mut self) -> (r: Option<T>)
        requires
            old(self).wf(),
        ensures
            final(self).wf(),
            old(self)@.len() == 0 ==> r is None && final(self)@ == old(self)@,
            old(self)@.len() > 0 ==> r == Some(old(self)@[0]) && final(self)@ == old(self)@.drop_first(),
    {
        match self.head {
            None => None,
            Some(h) => {
                let ghost old_order = self.order@;
                let ghost old_view = self@;
                let next = self.nodes[h].next;
                match next {
                    Some(q) => {
                        self.nodes[q].prev = None;
                        self.head = Some(q);
                    },
                    None => {
                        self.head = None;
                        self.tail = None;
                    },
                }
                self.length = self.length - 1;
                self.order = Ghost(old_order.drop_first());
                proof {
                    let order = self.order@;
                    assert forall|i: int| 0 <= i < order.len() implies {
                        &&& self.nodes@[#[trigger] order[i] as int].next == next_of(order, i)
                        &&& self.nodes@[order[i] as int].prev == prev_of(order, i)
                    } by {
                        assert(old_order[i + 1] == order[i]);
                        assert(old_order[i + 1] != old_order[0]);
                    }
                    assert forall|i: int| 0 <= i < order.len() implies #[trigger] order[i] != h by {
                        assert(old_order[i + 1] == order[i]);
                        assert(old_order[i + 1] != old_order[0]);
                    }
                    assert forall|j: usize|
                        (j as int) < self.nodes@.len() && j != h implies #[trigger] order.contains(
                        j) by {
                        assert(old_order.contains(j));
                        let k = choose|k: int| 0 <= k < old_order.len() && old_order[k] == j;
                        assert(k != 0);
                        assert(order[k - 1] == j);
                    }
                    assert(self@ =~= old_view.drop_first());
                }
                let e = self.remove_slot(h);
                Some(e)
            },
        }
    }

    /// An empty list.
    pub fn new() -> (r: Self)
        ensures
            r.wf(),
            r@ == Seq::<T>::empty(),
    {
        let r = LinkedList { nodes: Vec::new(), head: None, tail: None, length: 0, order: Ghost(Seq::empty()) };
        assert(r@ =~= Seq::<T>::empty());
        r
    }
}

impl<T> LinkedList<T> {
    /// Inserts the element at the end of the list.
    pub fn push(&mut self, element: T)
        requires
            old(self).wf(),
            old(self)@.len() < usize::MAX,
        ensures
            final(self).wf(),
            final(self)@ == old(self)@.push(element),
    {
        self.push_back(element);
    }

    /// Removes the element at the end of the list and returns it; `None` if
    /// the list is empty.
    pub fn pop(&mut self) -> (r: Option<T>)
        requires
            old(self).wf(),
        ensures
            final(self).wf(),
            old(self)@.len() == 0 ==> r is None && final(self)@ == old(self)@,
            old(self)@.len() > 0 ==> r == Some(old(self)@.last()) && final(self)@ == old(self)@.drop_last(),
    {
        self.pop_back()
    }

    /// Inserts the element at the end of the list.
    pub fn push_back(&mut self, element: T)
        requires
            old(self).wf(),
            old(self)@.len() < usize::MAX,
        ensures
            final(self).wf(),
            final(self)@ == old(self)@.push(element),
    {
        self.push_back_node(Node::new(element));
    }

    /// Removes the element at the end of the list and returns it; `None` if
    /// the list is empty.
    pub fn pop_back(&mut self) -> (r: Option<T>)
        requires
            old(self).wf(),
        ensures
            final(self).wf(),
            old(self)@.len() == 0 ==> r is None && final(self)@ == old(self)@,
            old(self)@.len() > 0 ==> r == Some(old(self)@.last()) && final(self)@ == old(self)@.drop_last(),
    {
        self.pop_back_node()
    }

    /// Inserts the element at the front of the list.
    pub fn push_front(&mut self, element: T)
        requires
            old(self).wf(),
            old(self)@.len() < usize::MAX,
        ensures
            final(self).wf(),
            final(self)@ == seq![element] + old(self)@,
    {
        self.push_front_node(Node::new(element));
    }

    /// Removes the element at the front of the list and returns it; `None` if
    /// the list is empty.
    pub fn pop_front(&mut self) -> (r: Option<T>)
        requires
            old(self).wf(),
        ensures
            final(self).wf(),
            old(self)@.len() == 0 ==> r is None && final(self)@ == old(self)@,
            old(self)@.len() > 0 ==> r == Some(old(self)@[0]) && final(self)@ == old(self)@.drop_first(),
    {
        self.pop_front_node()
    }

    /// The number of elements in the list.
    pub fn length(&self) -> (r: usize)
        requires
            self.wf(),
        ensures
            r == self@.len(),
    {
        self.length
    }

    /// Whether the list holds no element.
    pub fn is_empty(&self) -> (r: bool)
        requires
            self.wf(),
        ensures
            r == (self@.len() == 0),
    {
        self.length == 0
    }

    /// Removes all the elements from the list, front to back.
    pub fn clear(&mut self)
        requires
            old(self).wf(),
        ensures
            final(self).wf(),
            final(self)@ == Seq::<T>::empty(),
    {
        while !self.is_empty()
            invariant
                self.wf(),
            decreases self@.len(),
        {
            self.pop_front();
        }
        assert(self@ =~= Seq::<T>::empty());
    }

    /// The element at the front of the list; `None` if the list is empty.
    pub fn front(&self) -> (r: Option<&T>)
        requires
            self.wf(),
        ensures
            self@.len() == 0 ==> r is None,
            self@.len() > 0 ==> r == Some(&self@[0]),
    {
        match self.head {
            Some(h) => Some(&self.nodes[h].element),
            None => None,
        }
    }

    /// The element at the back of the list; `None` if the list is empty.
    pub fn back(&self) -> (r: Option<&T>)
        requires
            self.wf(),
        ensures
            self@.len() == 0 ==> r is None,
            self@.len() > 0 ==> r == Some(&self@.last()),
    {
        match self.tail {
            Some(t) => Some(&self.nodes[t].element),
            None => None,
        }
    }

    /// The element at the front of the list, to be changed in place; `None` if
    /// the list is empty.
    pub fn front_mut(&mut self) -> (r: Option<&mut T>)
        requires
            old(self).wf(),
        ensures
            final(self).wf(),
            old(self)@.len() == 0 ==> r is None && final(self)@ == old(self)@,
            old(self)@.len() > 0 ==> (r matches Some(x) && *x == old(self)@[0] && final(self)@
                == old(self)@.update(0, *final(x))),
    {
        match self.head {
            Some(h) => Some(&mut self.nodes[h].element),
            None => None,
        }
    }

    /// The element at the back of the list, to be changed in place; `None` if
    /// the list is empty.
    pub fn back_mut(&mut self) -> (r: Option<&mut T>)
        requires
            old(self).wf(),
        ensures
            final(self).wf(),
            old(self)@.len() == 0 ==> r is None && final(self)@ == old(self)@,
            old(self)@.len() > 0 ==> (r matches Some(x) && *x == old(self)@.last() && final(self)@
                == old(self)@.update(old(self)@.len() - 1, *final(x))),
    {
        match self.tail {
            Some(t) => Some(&mut self.nodes[t].element),
            None => None,
        }
    }
}

impl<T> LinkedList<T> {
    /// An iterator over references to the elements, front to back; it can also
    /// be driven from the back.
    pub fn iter(&self) -> (r: Iter<'_, T>)
        requires
            self.wf(),
        ensures
            r.wf(),
            r@ == self@,
    {
        let r = Iter { list: self, front: self.head, back: self.tail, len: self.length, start: Ghost(0) };
        assert(r@ =~= self@);
        r
    }

    /// An iterator that takes the elements out of the list.
    pub fn into_iter(self) -> (r: IntoIter<T>)
        requires
            self.wf(),
        ensures
            r.wf(),
            r@ == self@,
    {
        IntoIter(self)
    }
}

impl<T> Default for LinkedList<T> {
    /// An empty list.
    fn default() -> (r: Self)
        ensures
            r.wf(),
            r@ == Seq::<T>::empty(),
    {
        Self::new()
    }
}

/// A list taken apart element by element, from either end.
pub struct IntoIter<T>(LinkedList<T>);

impl<T> IntoIter<T> {
    /// The list being taken apart is well formed.
    pub closed spec fn wf(&self) -> bool {
        self.0.wf()
    }
}

impl<T> View for IntoIter<T> {
    type V = Seq<T>;

    /// The elements not taken yet, front to back.
    closed spec fn view(&self) -> Seq<T> {
        self.0@
    }
}

impl<T> IntoIter<T> {
    /// Takes the front element out; `None` once none is left.
    pub fn next(&mut self) -> (r: Option<T>)
        requires
            old(self).wf(),
        ensures
            final(self).wf(),
            old(self)@.len() == 0 ==> r is None && final(self)@ == old(self)@,
            old(self)@.len() > 0 ==> r == Some(old(self)@[0]) && final(self)@ == old(self)@.drop_first(),
    {
        self.0.pop_front()
    }

    /// Takes the back element out; `None` once none is left.
    pub fn next_back(&mut self) -> (r: Option<T>)
        requires
            old(self).wf(),
        ensures
            final(self).wf(),
            old(self)@.len() == 0 ==> r is None && final(self)@ == old(self)@,
            old(self)@.len() > 0 ==> r == Some(old(self)@.last()) && final(self)@ == old(self)@.drop_last(),
    {
        self.0.pop_back()
    }

    /// The number of elements left, as lower and upper bound.
    pub fn size_hint(&self) -> (r: (usize, Option<usize>))
        requires
            self.wf(),
        ensures
            r.0 == self@.len(),
            r.1 == Some(r.0),
    {
        let n = self.0.length();
        (n, Some(n))
    }
}

/// References to the elements of a list, handed out from the front or the back
/// until the two ends meet.
pub struct Iter<'a, T> {
    list: &'a LinkedList<T>,
    front: Option<usize>,
    back: Option<usize>,
    len: usize,
    /// The position of the front cursor in the list.
    start: Ghost<int>,
}

impl<'a, T> Iter<'a, T> {
    /// The two cursors bound a stretch of `len` elements of a well-formed list.
    pub closed spec fn wf(&self) -> bool {
        let order = self.list.order@;
        &&& self.list.wf()
        &&& 0 <= self.start@
        &&& self.start@ + self.len <= order.len()
        &&& self.len > 0 ==> self.front == Some(order[self.start@])
        &&& self.len > 0 ==> self.back == Some(order[self.start@ + self.len - 1])
    }
}

impl<'a, T> View for Iter<'a, T> {
    type V = Seq<T>;

    /// The elements not handed out yet, front to back.
    closed spec fn view(&self) -> Seq<T> {
        self.list@.subrange(self.start@, self.start@ + self.len)
    }
}

impl<'a, T> Iter<'a, T> {
    /// The front element not handed out yet; `None` once none is left.
    pub fn next(&mut self) -> (r: Option<&'a T>)
        requires
            old(self).wf(),
        ensures
            final(self).wf(),
            old(self)@.len() == 0 ==> r is None && final(self)@ == old(self)@,
            old(self)@.len() > 0 ==> r == Some(&old(self)@[0]) && final(self)@ == old(self)@.drop_first(),
    {
        if self.len == 0 {
            return None;
        }
        let ghost old_view = self@;
        let list: &'a LinkedList<T> = self.list;
        match self.front {
            Some(f) => {
                let node = &list.nodes[f];
                proof {
                    let i = self.start@;
                    assert(list.order@[i] == f);
                }
                self.front = node.next;
                self.len = self.len - 1;
                self.start = Ghost(self.start@ + 1);
                assert(self@ =~= old_view.drop_first());
                Some(&node.element)
            },
            None => None,
        }
    }

    /// The back element not handed out yet; `None` once none is left.
    pub fn next_back(&mut self) -> (r: Option<&'a T>)
        requires
            old(self).wf(),
        ensures
            final(self).wf(),
            old(self)@.len() == 0 ==> r is None && final(self)@ == old(self)@,
            old(self)@.len() > 0 ==> r == Some(&old(self)@.last()) && final(self)@ == old(self)@.drop_last(),
    {
        if self.len == 0 {
            return None;
        }
        let ghost old_view = self@;
        let list: &'a LinkedList<T> = self.list;
        match self.back {
            Some(b) => {
                let node = &list.nodes[b];
                proof {
                    let i = self.start@ + self.len - 1;
                    assert(list.order@[i] == b);
                }
                self.back = node.prev;
                self.len = self.len - 1;
                assert(self@ =~= old_view.drop_last());
                Some(&node.element)
            },
            None => None,
        }
    }

    /// The number of elements left, as lower and upper bound.
    pub fn size_hint(&self) -> (r: (usize, Option<usize>))
        requires
            self.wf(),
        ensures
            r.0 == self@.len(),
            r.1 == Some(r.0),
    {
        (self.len, Some(self.len))
    }
}

} // verus!
