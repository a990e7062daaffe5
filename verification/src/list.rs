//! An append-only list: values are only ever added at the head, and a node
//! that has been linked in is never moved or removed.

use vstd::prelude::*;

verus! {

/// A value and the link to the node that was the head when it was pushed.
struct Node<T> {
    next: Option<usize>,
    data: T,
}

/// A list to which values are only ever prepended.
///
/// The nodes live in a growable arena and are named by their position in it,
/// which never changes. A link is the position of a node, or `None` at the
/// end of the chain. Once a node is in the arena its link is never written
/// again.
pub struct AtomicLinkedList<T> {
    nodes: Vec<Node<T>>,
    root: Option<usize>,
}

/// A walk over the nodes that were in a list when the walk began, from the
/// head to the tail.
pub struct AtomicLinkedListIter<'a, T> {
    all: &'a AtomicLinkedList<T>,
    next: Option<usize>,
}

/// One more than the cell that `link` names, and zero at the end of a chain.
spec fn rank(link: Option<usize>) -> nat {
    match link {
        Some(cell) => (cell + 1) as nat,
        None => 0,
    }
}

/// Every link in the arena leads to a cell that was there before the node
/// that holds the link.
spec fn links_lead_back<T>(nodes: Seq<Node<T>>) -> bool {
    forall|cell: int| 0 <= cell < nodes.len() ==> rank((#[trigger] nodes[cell]).next) <= cell
}

/// The cells met on the way from `link` to the end of the chain.
spec fn cells<T>(nodes: Seq<Node<T>>, link: Option<usize>) -> Seq<int>
    decreases rank(link),
{
    match link {
        Some(cell) => if cell < nodes.len() && rank(nodes[cell as int].next) <= cell {
            seq![cell as int] + cells(nodes, nodes[cell as int].next)
        } else {
            Seq::empty()
        },
        None => Seq::empty(),
    }
}

/// The values met on the way from `link` to the end of the chain.
spec fn values<T>(nodes: Seq<Node<T>>, link: Option<usize>) -> Seq<T> {
    let on_chain = cells(nodes, link);
    Seq::new(on_chain.len(), |place: int| nodes[on_chain[place]].data)
}

/// The cells of a chain lie in the arena below the rank of its start, and
/// each lies below the one before it.
proof fn lemma_cells_descend<T>(nodes: Seq<Node<T>>, link: Option<usize>)
    ensures
        cells(nodes, link).len() <= rank(link),
        forall|place: int|
            0 <= place < cells(nodes, link).len() ==> 0 <= #[trigger] cells(nodes, link)[place]
                < nodes.len() && cells(nodes, link)[place] < rank(link),
        forall|first: int, second: int|
            0 <= first < second < cells(nodes, link).len() ==> cells(nodes, link)[first] > cells(
                nodes,
                link,
            )[second],
    decreases rank(link),
{
    if let Some(cell) = link {
        if cell < nodes.len() && rank(nodes[cell as int].next) <= cell {
            let rest = cells(nodes, nodes[cell as int].next);
            lemma_cells_descend(nodes, nodes[cell as int].next);
            assert forall|place: int| 0 <= place < cells(nodes, link).len() implies 0
                <= #[trigger] cells(nodes, link)[place] < nodes.len() && cells(nodes, link)[place]
                < rank(link) by {
                if place > 0 {
                    assert(cells(nodes, link)[place] == rest[place - 1]);
                }
            }
            assert forall|first: int, second: int|
                0 <= first < second < cells(nodes, link).len() implies cells(nodes, link)[first]
                > cells(nodes, link)[second] by {
                assert(cells(nodes, link)[second] == rest[second - 1]);
                if first > 0 {
                    assert(cells(nodes, link)[first] == rest[first - 1]);
                }
            }
        }
    }
}

/// A chain runs through the same cells in two arenas whose links agree
/// below the rank of its start.
proof fn lemma_cells_agree<T>(nodes: Seq<Node<T>>, other: Seq<Node<T>>, link: Option<usize>)
    requires
        rank(link) <= nodes.len(),
        rank(link) <= other.len(),
        forall|cell: int| 0 <= cell < rank(link) ==> nodes[cell].next == other[cell].next,
    ensures
        cells(other, link) == cells(nodes, link),
    decreases rank(link),
{
    if let Some(cell) = link {
        if rank(nodes[cell as int].next) <= cell {
            lemma_cells_agree(nodes, other, nodes[cell as int].next);
        }
    }
}

impl<T> View for AtomicLinkedList<T> {
    type V = Seq<T>;

    /// The values from the head (pushed last) to the tail (pushed first).
    closed spec fn view(&self) -> Seq<T> {
        values(self.nodes@, self.root)
    }
}

impl<T> AtomicLinkedList<T> {
    /// The head and every link name a node that is in the arena, and every
    /// link leads to a node that was pushed earlier.
    pub closed spec fn wf(&self) -> bool {
        &&& rank(self.root) <= self.nodes@.len()
        &&& links_lead_back(self.nodes@)
    }

    /// An empty list.
    pub fn new() -> (list: Self)
        ensures
            list.wf(),
            list@ == Seq::<T>::empty(),
    {
        let list = Self { nodes: Vec::new(), root: None };
        assert(list@ =~= Seq::<T>::empty());
        list
    }

    /// Makes `data` the new head; every older node keeps its place behind it.
    pub fn push(&mut self, data: T)
        requires
            old(self).wf(),
        ensures
            final(self).wf(),
            final(self)@ == seq![data] + old(self)@,
            final(self)@.len() <= usize::MAX,
    {
        let cell = self.nodes.len();
        self.nodes.push(Node { next: self.root, data });
        self.root = Some(cell);
        proof {
            lemma_cells_agree(old(self).nodes@, self.nodes@, old(self).root);
            lemma_cells_descend(old(self).nodes@, old(self).root);
            lemma_cells_descend(self.nodes@, self.root);
            assert(self@ =~= seq![data] + old(self)@);
            assert(self.nodes.len() == self.nodes@.len());
        }
    }

    /// Starts a walk over the nodes that the list holds now.
    pub fn iter(&self) -> (it: AtomicLinkedListIter<'_, T>)
        requires
            self.wf(),
        ensures
            it.remaining() == self@,
    {
        AtomicLinkedListIter { all: self, next: self.root }
    }

    /// The node `distance` links behind the head, for changing it in place.
    pub fn nth_mut(&mut self, distance: usize) -> (node: &mut T)
        requires
            old(self).wf(),
            distance < old(self)@.len(),
        ensures
            final(self).wf(),
            *node == old(self)@[distance as int],
            final(self)@ == old(self)@.update(distance as int, *final(node)),
    {
        let mut link = self.root;
        let mut steps: usize = 0;
        while steps < distance
            invariant
                steps <= distance < cells(self.nodes@, self.root).len(),
                rank(link) <= self.nodes@.len(),
                links_lead_back(self.nodes@),
                cells(self.nodes@, link) == cells(self.nodes@, self.root).skip(steps as int),
            decreases distance - steps,
        {
            let ghost ahead = cells(self.nodes@, link);
            assert(ahead.len() > 0);
            let cell = link.unwrap();
            link = self.nodes[cell].next;
            steps = steps + 1;
            assert(ahead == seq![cell as int] + cells(self.nodes@, link));
            assert(cells(self.nodes@, link) =~= ahead.skip(1));
            assert(ahead.skip(1) =~= cells(self.nodes@, self.root).skip(steps as int));
        }
        assert(cells(self.nodes@, link).len() > 0);
        let cell = link.unwrap();
        let ghost before = self.nodes@;
        let ghost on_chain = cells(before, self.root);
        assert(on_chain[distance as int] == cells(before, link)[0]);
        let node = &mut self.nodes[cell].data;
        proof {
            let after = before.update(
                cell as int,
                Node { next: before[cell as int].next, data: *final(node) },
            );
            lemma_cells_agree(before, after, self.root);
            lemma_cells_descend(before, self.root);
            assert(values(after, self.root).len() == on_chain.len());
            assert forall|place: int| 0 <= place < on_chain.len() implies #[trigger] values(
                after,
                self.root,
            )[place] == values(before, self.root).update(distance as int, *final(node))[place] by {
                if place < distance {
                    assert(on_chain[place] > on_chain[distance as int]);
                } else if place > distance {
                    assert(on_chain[place] < on_chain[distance as int]);
                }
            }
            assert(values(after, self.root) =~= values(before, self.root).update(
                distance as int,
                *final(node),
            ));
        }
        node
    }

    /// The number of nodes fits the machine's word.
    pub proof fn lemma_len_fits(&self)
        ensures
            self@.len() <= usize::MAX,
    {
        lemma_cells_descend(self.nodes@, self.root);
        assert(self.nodes.len() == self.nodes@.len());
    }
}

impl<'a, T> AtomicLinkedListIter<'a, T> {
    #[verifier::type_invariant]
    spec fn inv(self) -> bool {
        &&& rank(self.next) <= self.all.nodes@.len()
        &&& links_lead_back(self.all.nodes@)
    }

    /// The values that the walk has yet to yield, in the order in which it
    /// will yield them.
    pub closed spec fn remaining(&self) -> Seq<T> {
        values(self.all.nodes@, self.next)
    }

    /// Yields the next node of the walk, or `None` once the tail is behind it.
    pub fn next(&mut self) -> (item: Option<&'a T>)
        ensures
            match item {
                Some(value) => {
                    &&& old(self).remaining().len() > 0
                    &&& *value == old(self).remaining()[0]
                    &&& final(self).remaining() == old(self).remaining().skip(1)
                },
                None => {
                    &&& old(self).remaining().len() == 0
                    &&& final(self).remaining() == old(self).remaining()
                },
            },
    {
        proof {
            use_type_invariant(&*self);
        }
        match self.next {
            None => None,
            Some(cell) => {
                let node = &self.all.nodes[cell];
                self.next = node.next;
                assert(self.remaining() =~= old(self).remaining().skip(1));
                Some(&node.data)
            },
        }
    }
}

/// The contents of a list after each of `values` has been pushed onto it in
/// turn. The contents are given from the head to the tail.
pub open spec fn pushed_all<T>(list: Seq<T>, values: Seq<T>) -> Seq<T>
    decreases values.len(),
{
    if values.len() == 0 {
        list
    } else {
        pushed_all(seq![values[0]] + list, values.skip(1))
    }
}

/// Pushing puts the new values in front, the last pushed first, and leaves
/// what the list held behind them.
pub proof fn lemma_pushed_all<T>(list: Seq<T>, values: Seq<T>)
    ensures
        pushed_all(list, values) == values.reverse() + list,
    decreases values.len(),
{
    if values.len() == 0 {
        assert(values.reverse() + list =~= list);
    } else {
        lemma_pushed_all(seq![values[0]] + list, values.skip(1));
        assert(values.skip(1).reverse() + (seq![values[0]] + list) =~= values.reverse() + list);
    }
}

/// Snapshot isolation: a walk that began before some pushes yields the nodes
/// that the list held then, which are the nodes behind all those pushed
/// since. It reaches none of the new ones.
pub proof fn lemma_snapshot_isolation<T>(list: Seq<T>, values: Seq<T>)
    ensures
        pushed_all(list, values).skip(values.len() as int) == list,
{
    lemma_pushed_all(list, values);
    assert((values.reverse() + list).skip(values.len() as int) =~= list);
}

/// No lost updates: after `values.len()` pushes onto an empty list, a walk
/// yields exactly that many nodes, each pushed value once, the last first.
pub proof fn lemma_no_lost_updates<T>(values: Seq<T>)
    ensures
        pushed_all(Seq::empty(), values).len() == values.len(),
        pushed_all(Seq::empty(), values) == values.reverse(),
{
    lemma_pushed_all(Seq::empty(), values);
    assert(values.reverse() + Seq::<T>::empty() =~= values.reverse());
}

} // verus!
