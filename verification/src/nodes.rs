//! The part of a word graph that is still open: the path of the last key, and the
//! nodes that hang off it and wait to become chains.

use vstd::prelude::*;
use crate::chains;

verus! {

/// A node that is not yet a unit.
#[derive(Clone, Copy, Debug)]
pub struct DawgNode {
    pub child: u32,
    pub sibling: u32,
    pub label: u8,
    pub is_state: bool,
    pub has_sibling: bool,
}

/// The unit that a node becomes.
pub open spec fn node_unit(n: DawgNode) -> u32 {
    let next = if n.has_sibling {
        1u32
    } else {
        0u32
    };
    if n.label == 0 {
        (n.child << 1) | next
    } else {
        (n.child << 2) | (if n.is_state {
            2u32
        } else {
            0u32
        }) | next
    }
}

/// The unit of a node keeps what the node holds.
pub proof fn lemma_node_unit(n: DawgNode)
    ensures
        chains::unit_sibling(node_unit(n)) == n.has_sibling,
        n.label == 0 && n.child < 0x8000_0000 ==> chains::unit_value(node_unit(n)) == n.child as i32,
        n.label != 0 && n.child < 0x4000_0000 ==> chains::unit_child(node_unit(n)) == n.child,
        n.label != 0 ==> chains::unit_state(node_unit(n)) == n.is_state,
{
    let c = n.child;
    let next = if n.has_sibling {
        1u32
    } else {
        0u32
    };
    let state = if n.is_state {
        2u32
    } else {
        0u32
    };
    assert(next == 0 || next == 1);
    assert(state == 0 || state == 2);
    assert((next == 0 || next == 1) && (state == 0 || state == 2) ==> {
        let w = (c << 1) | next;
        let v = (c << 2) | state | next;
        &&& w & 1 == next
        &&& v & 1 == next
        &&& v & 2 == state
        &&& c < 0x8000_0000 ==> w >> 1 == c
        &&& c < 0x4000_0000 ==> v >> 2 == c
    }) by (bit_vector);
}

impl DawgNode {
    /// A node of which nothing is known yet.
    pub fn blank() -> (res: DawgNode)
        ensures
            res == (DawgNode { child: 0, sibling: 0, label: 0, is_state: false, has_sibling: false }),
    {
        DawgNode { child: 0, sibling: 0, label: 0, is_state: false, has_sibling: false }
    }

    /// The value of a node that ends a key.
    pub fn value(&self) -> (res: i32)
        ensures
            res == self.child as i32,
    {
        self.child as i32
    }

    /// Gives its value to a node that ends a key.
    pub fn set_value(&mut self, value: i32)
        ensures
            *final(self) == (DawgNode { child: value as u32, ..*old(self) }),
    {
        self.child = value as u32;
    }

    /// The unit that this node becomes.
    pub fn unit(&self) -> (res: u32)
        ensures
            res == node_unit(*self),
    {
        if self.label == 0 {
            (self.child << 1) | (if self.has_sibling {
                1
            } else {
                0
            })
        } else {
            (self.child << 2) | (if self.is_state {
                2
            } else {
                0
            }) | (if self.has_sibling {
                1
            } else {
                0
            })
        }
    }
}

/// Where a node is.
pub enum Place {
    Root,
    /// In no list.
    Loose,
    /// At this position of the nodes that can be used again.
    Free(int),
    /// At this position of the children of the path's node of that depth.
    At(int, int),
}

/// The number of elements in all lists.
pub open spec fn total(lists: Seq<Seq<u32>>) -> nat
    decreases lists.len(),
{
    if lists.len() == 0 {
        0
    } else {
        total(lists.drop_last()) + lists.last().len()
    }
}

/// The nodes, the path through them, and the nodes that can be used again.
pub struct NodeForest {
    pub nodes: Vec<DawgNode>,
    pub node_stack: Vec<u32>,
    pub recycle_bin: Vec<u32>,
    /// The children of each node of the path, from the largest label to the smallest.
    pub lists: Ghost<Seq<Seq<u32>>>,
    /// Where each node is.
    pub place: Ghost<Seq<Place>>,
    /// The labels on the path.
    pub path: Ghost<Seq<u8>>,
}

impl NodeForest {
    pub open spec fn node(&self, n: u32) -> DawgNode {
        self.nodes@[n as int]
    }

    /// The depth of the last node of the path.
    pub open spec fn depth(&self) -> int {
        self.node_stack@.len() - 1
    }

    /// The last node of the path.
    pub open spec fn tip(&self) -> u32 {
        self.node_stack@[self.depth()]
    }

    /// The children of the last node of the path.
    pub open spec fn hanging(&self) -> Seq<u32> {
        self.lists@[self.depth()]
    }

    pub open spec fn item(&self, i: int, j: int) -> u32 {
        self.lists@[i][j]
    }

    pub open spec fn label_at(&self, i: int, j: int) -> u8 {
        self.node(self.item(i, j)).label
    }

    pub open spec fn listed(&self, i: int, j: int) -> bool {
        0 <= i < self.lists@.len() && 0 <= j < self.lists@[i].len()
    }

    /// The links and flags of the `j`th child at depth `i`. The first child at depth
    /// `open` is marked as having a sibling that is still to come.
    pub open spec fn item_ok(&self, i: int, j: int, open: int) -> bool {
        let l = self.lists@[i];
        let n = l[j];
        &&& 0 < n < self.nodes@.len()
        &&& self.place@[n as int] == Place::At(i, j)
        &&& self.node(n).sibling == (if j + 1 < l.len() {
            l[j + 1]
        } else {
            0
        })
        &&& self.node(n).is_state == (j + 1 == l.len())
        &&& self.node(n).has_sibling == (j > 0 || i == open)
    }

    /// The node of depth `i` on the path has the next one as its first child.
    pub open spec fn link_ok(&self, i: int) -> bool {
        &&& self.lists@[i].len() >= 1
        &&& self.lists@[i][0] == self.node_stack@[i + 1]
        &&& self.path@[i] == self.node(self.node_stack@[i + 1]).label
    }

    pub open spec fn head_ok(&self, i: int) -> bool {
        self.lists@[i].len() > 0 ==> self.node(self.node_stack@[i]).child == self.lists@[i][0]
    }

    pub open spec fn bin_ok(&self, p: int) -> bool {
        let n = self.recycle_bin@[p];
        0 < n < self.nodes@.len() && self.place@[n as int] == Place::Free(p)
    }

    /// The path and the lists fit together.
    pub open spec fn shape(&self, open: int) -> bool {
        &&& self.node_stack@.len() >= 1
        &&& self.node_stack@[0] == 0
        &&& self.lists@.len() == self.node_stack@.len()
        &&& self.path@.len() + 1 == self.node_stack@.len()
        &&& 1 <= self.nodes@.len() <= 0x4000_0000
        &&& self.place@.len() == self.nodes@.len()
        &&& self.place@[0] == Place::Root
        &&& self.node(0).label == 0xFF
        &&& !self.node(0).is_state
        &&& !self.node(0).has_sibling
        &&& forall|i: int| 0 <= i < self.depth() ==> #[trigger] self.link_ok(i)
        &&& forall|i: int| 0 <= i <= self.depth() ==> #[trigger] self.head_ok(i)
        &&& forall|i: int, j: int| self.listed(i, j) ==> #[trigger] self.item_ok(i, j, open)
        &&& forall|i: int, j: int, k: int|
            #![trigger self.label_at(i, j), self.label_at(i, k)]
            self.listed(i, j) && self.listed(i, k) && j < k ==> self.label_at(i, j) > self.label_at(i, k)
        &&& forall|p: int| 0 <= p < self.recycle_bin@.len() ==> #[trigger] self.bin_ok(p)
        &&& self.nodes@.len() == 1 + total(self.lists@) + self.recycle_bin@.len()
    }

    /// The entries of the chain that the children of the last node will become, from the
    /// largest label to the smallest.
    pub open spec fn entries(&self) -> Seq<(u8, u32)> {
        Seq::new(
            self.hanging().len(),
            |j: int| (self.node(self.hanging()[j]).label, node_unit(self.node(self.hanging()[j]))),
        )
    }
}

proof fn lemma_total_top(lists: Seq<Seq<u32>>, l: Seq<u32>)
    requires
        lists.len() > 0,
    ensures
        total(lists.update(lists.len() - 1, l)) == total(lists) - lists.last().len() + l.len(),
{
    assert(lists.update(lists.len() - 1, l).drop_last() =~= lists.drop_last());
}

/// A list has no more elements than all lists together.
pub proof fn lemma_total_ge(lists: Seq<Seq<u32>>, i: int)
    requires
        0 <= i < lists.len(),
    ensures
        lists[i].len() <= total(lists),
    decreases lists.len(),
{
    if i < lists.len() - 1 {
        lemma_total_ge(lists.drop_last(), i);
    }
}

proof fn lemma_total_push(lists: Seq<Seq<u32>>, l: Seq<u32>)
    ensures
        total(lists.push(l)) == total(lists) + l.len(),
{
    assert(lists.push(l).drop_last() =~= lists);
}

impl NodeForest {
    /// No nodes, and so no lists, no places and no path.
    pub fn new() -> (res: NodeForest)
        ensures
            res.nodes@.len() == 0,
            res.node_stack@.len() == 0,
            res.recycle_bin@.len() == 0,
            res.lists@ == Seq::<Seq<u32>>::empty(),
            res.place@ == Seq::<Place>::empty(),
            res.path@ == Seq::<u8>::empty(),
    {
        NodeForest {
            nodes: Vec::new(),
            node_stack: Vec::new(),
            recycle_bin: Vec::new(),
            lists: Ghost(Seq::empty()),
            place: Ghost(Seq::empty()),
            path: Ghost(Seq::empty()),
        }
    }

    /// Makes the root, alone on the path.
    pub fn init(&mut self)
        requires
            old(self).nodes@.len() == 0,
            old(self).node_stack@.len() == 0,
            old(self).recycle_bin@.len() == 0,
        ensures
            final(self).shape(-1),
            final(self).node_stack@ == seq![0u32],
            final(self).lists@ == seq![Seq::<u32>::empty()],
            final(self).path@ == Seq::<u8>::empty(),
            final(self).nodes@.len() == 1,
            final(self).node(0).child == 0,
    {
        let root: u32 = self.append_node();
        self.nodes[0].label = 0xFF;
        self.node_stack.push(0);
        proof {
            self.lists@ = seq![Seq::<u32>::empty()];
            self.place@ = seq![Place::Root];
            self.path@ = Seq::empty();
            assert(self.lists@.drop_last() =~= Seq::<Seq<u32>>::empty());
            assert(total(Seq::<Seq<u32>>::empty()) == 0);
            assert(total(self.lists@) == 0);
        }
    }

    /// Gets a blank node, one that was used before if there is any.
    pub fn append_node(&mut self) -> (res: u32)
        requires
            old(self).recycle_bin@.len() == 0 ==> old(self).nodes@.len() < 0x4000_0000,
            forall|p: int| 0 <= p < old(self).recycle_bin@.len() ==> #[trigger] old(self).recycle_bin@[p] < old(
                self,
            ).nodes@.len(),
        ensures
            ({
                let blank = DawgNode { child: 0, sibling: 0, label: 0, is_state: false, has_sibling: false };
                if old(self).recycle_bin@.len() > 0 {
                    &&& res == old(self).recycle_bin@.last()
                    &&& final(self).recycle_bin@ == old(self).recycle_bin@.drop_last()
                    &&& final(self).nodes@ == old(self).nodes@.update(res as int, blank)
                } else {
                    &&& res == old(self).nodes@.len()
                    &&& final(self).recycle_bin@ == old(self).recycle_bin@
                    &&& final(self).nodes@ == old(self).nodes@.push(blank)
                }
            }),
            final(self).node_stack == old(self).node_stack,
            final(self).lists == old(self).lists,
            final(self).place == old(self).place,
            final(self).path == old(self).path,
    {
        match self.recycle_bin.pop() {
            Some(id) => {
                self.nodes.set(id as usize, DawgNode::blank());
                id
            },
            None => {
                let id: u32 = self.nodes.len() as u32;
                self.nodes.push(DawgNode::blank());
                id
            },
        }
    }

    /// Keeps a node for later use.
    pub fn free_node(&mut self, id: u32)
        ensures
            *final(self) == (NodeForest { recycle_bin: final(self).recycle_bin, ..*old(self) }),
            final(self).recycle_bin@ == old(self).recycle_bin@.push(id),
    {
        self.recycle_bin.push(id);
    }

    /// Takes the last node off the path.
    pub fn pop_tip(&mut self) -> (res: u32)
        requires
            exists|open: int| #[trigger] old(self).shape(open),
            old(self).depth() > 0,
            old(self).hanging().len() == 0,
        ensures
            forall|open: int| #[trigger] old(self).shape(open) ==> final(self).shape(open),
            res == old(self).tip(),
            final(self).nodes == old(self).nodes,
            final(self).recycle_bin == old(self).recycle_bin,
            final(self).place == old(self).place,
            final(self).node_stack@ == old(self).node_stack@.drop_last(),
            final(self).lists@ == old(self).lists@.drop_last(),
            final(self).path@ == old(self).path@.drop_last(),
    {
        let id: u32 = match self.node_stack.pop() {
            Some(id) => id,
            None => 0,
        };
        proof {
            self.lists@ = self.lists@.drop_last();
            self.path@ = self.path@.drop_last();
            assert forall|open: int| #[trigger] old(self).shape(open) implies self.shape(open) by {
                assert(total(old(self).lists@) == total(self.lists@));
                assert forall|i: int| 0 <= i < self.depth() implies #[trigger] self.link_ok(i) by {
                    assert(old(self).link_ok(i));
                }
                assert forall|i: int| 0 <= i <= self.depth() implies #[trigger] self.head_ok(i) by {
                    assert(old(self).head_ok(i));
                }
                assert forall|i: int, j: int| self.listed(i, j) implies #[trigger] self.item_ok(i, j, open) by {
                    assert(old(self).item_ok(i, j, open));
                }
                assert forall|i: int, j: int, k: int|
                    #![trigger self.label_at(i, j), self.label_at(i, k)]
                    self.listed(i, j) && self.listed(i, k) && j < k implies self.label_at(i, j) > self.label_at(
                    i,
                    k,
                ) by {
                    assert(old(self).label_at(i, j) > old(self).label_at(i, k));
                }
                assert forall|p: int| 0 <= p < self.recycle_bin@.len() implies #[trigger] self.bin_ok(p) by {
                    assert(old(self).bin_ok(p));
                }
            }
        }
        id
    }

    /// Gives its value to the last node of the path.
    pub fn set_value(&mut self, value: i32, Ghost(open): Ghost<int>)
        requires
            old(self).shape(open),
            old(self).hanging().len() == 0,
        ensures
            final(self).shape(open),
            *final(self) == (NodeForest { nodes: final(self).nodes, ..*old(self) }),
            final(self).nodes@ == old(self).nodes@.update(
                old(self).tip() as int,
                DawgNode { child: value as u32, ..old(self).node(old(self).tip()) },
            ),
    {
        let last: usize = self.node_stack.len() - 1;
        let id: u32 = self.node_stack[last];
        proof {
            if last > 0 {
                lemma_stack_distinct(*self, open, 0, last as int);
            }
        }
        self.nodes[id as usize].set_value(value);
        proof {
            assert(self.nodes@ =~= old(self).nodes@.update(
                id as int,
                DawgNode { child: value as u32, ..old(self).node(id) },
            ));
            lemma_child_written(*old(self), *self, open, value as u32);
        }
    }

    /// Sets what the last node of the path names as its child.
    pub fn set_child(&mut self, child: u32, Ghost(open): Ghost<int>)
        requires
            old(self).shape(open),
            old(self).hanging().len() == 0,
        ensures
            final(self).shape(open),
            *final(self) == (NodeForest { nodes: final(self).nodes, ..*old(self) }),
            final(self).nodes@ == old(self).nodes@.update(
                old(self).tip() as int,
                DawgNode { child: child, ..old(self).node(old(self).tip()) },
            ),
    {
        let last: usize = self.node_stack.len() - 1;
        let id: u32 = self.node_stack[last];
        proof {
            if last > 0 {
                assert(self.link_ok(last - 1));
                assert(self.listed(last - 1, 0));
                assert(self.item_ok(last - 1, 0, open));
            }
        }
        assert(id < self.nodes@.len());
        self.nodes[id as usize].child = child;
        proof {
            assert(self.nodes@ =~= old(self).nodes@.update(
                id as int,
                DawgNode { child: child, ..old(self).node(id) },
            ));
            lemma_child_written(*old(self), *self, open, child);
        }
    }
}

/// The child of the last node is free to change while no list hangs there.
proof fn lemma_child_written(a: NodeForest, b: NodeForest, open: int, child: u32)
    requires
        a.shape(open),
        a.hanging().len() == 0,
        b == (NodeForest { nodes: b.nodes, ..a }),
        b.nodes@ == a.nodes@.update(a.tip() as int, DawgNode { child: child, ..a.node(a.tip()) }),
    ensures
        b.shape(open),
{
    if a.depth() > 0 {
        lemma_stack_distinct(a, open, 0, a.depth());
    }
    assert forall|i: int| 0 <= i < b.depth() implies #[trigger] b.link_ok(i) by {
        assert(a.link_ok(i));
        lemma_stack_distinct(a, open, i, i + 1);
    }
    assert forall|i: int| 0 <= i <= b.depth() implies #[trigger] b.head_ok(i) by {
        assert(a.head_ok(i));
        if i < a.depth() {
            lemma_stack_distinct(a, open, i, a.depth());
        }
    }
    assert forall|i: int, j: int| b.listed(i, j) implies #[trigger] b.item_ok(i, j, open) by {
        assert(a.listed(i, j));
        assert(a.item_ok(i, j, open));
    }
    assert forall|i: int, j: int, k: int|
        #![trigger b.label_at(i, j), b.label_at(i, k)]
        b.listed(i, j) && b.listed(i, k) && j < k implies b.label_at(i, j) > b.label_at(i, k) by {
        assert(a.listed(i, j) && a.listed(i, k));
        assert(a.item_ok(i, j, open) && a.item_ok(i, k, open));
        assert(a.label_at(i, j) > a.label_at(i, k));
    }
    assert forall|p: int| 0 <= p < b.recycle_bin@.len() implies #[trigger] b.bin_ok(p) by {
        assert(a.bin_ok(p));
    }
}

/// The nodes of the path are different nodes.
pub proof fn lemma_stack_distinct(a: NodeForest, open: int, i: int, j: int)
    requires
        a.shape(open),
        0 <= i < j <= a.depth(),
    ensures
        a.node_stack@[i] != a.node_stack@[j],
        a.node_stack@[i] < a.nodes@.len(),
        a.node_stack@[j] < a.nodes@.len(),
{
    assert(a.link_ok(j - 1));
    assert(a.listed(j - 1, 0));
    assert(a.item_ok(j - 1, 0, open));
    if i > 0 {
        assert(a.link_ok(i - 1));
        assert(a.listed(i - 1, 0));
        assert(a.item_ok(i - 1, 0, open));
    }
}

impl NodeForest {
    /// Frees the children of the last node of the path, the first of which is `id`.
    pub fn free_list(&mut self, id: u32, Ghost(open): Ghost<int>)
        requires
            old(self).shape(open),
            old(self).hanging().len() > 0,
            id == old(self).hanging()[0],
        ensures
            final(self).shape(open),
            final(self).nodes == old(self).nodes,
            final(self).node_stack == old(self).node_stack,
            final(self).path == old(self).path,
            final(self).lists@ == old(self).lists@.update(old(self).depth(), Seq::empty()),
            final(self).recycle_bin@ == old(self).recycle_bin@ + old(self).hanging(),
    {
        let ghost l: Seq<u32> = self.hanging();
        let ghost d: int = self.depth();
        let ghost mut n: int = 0;
        let mut next_id: u32 = id;
        assert(self.listed(d, 0));
        assert(self.item_ok(d, 0, open));
        assert(self.recycle_bin@ =~= self.recycle_bin@ + l.take(0));
        while next_id != 0
            invariant
                0 <= n <= l.len(),
                old(self).shape(open),
                d == old(self).depth(),
                l == old(self).hanging(),
                *self == (NodeForest { recycle_bin: self.recycle_bin, ..*old(self) }),
                self.recycle_bin@ == old(self).recycle_bin@ + l.take(n),
                next_id == (if n < l.len() {
                    l[n]
                } else {
                    0
                }),
            decreases l.len() - n,
        {
            proof {
                assert(n < l.len());
                assert(old(self).listed(d, n));
                assert(old(self).item_ok(d, n, open));
                if n + 1 < l.len() {
                    assert(old(self).listed(d, n + 1));
                    assert(old(self).item_ok(d, n + 1, open));
                }
                assert(l.take(n + 1) =~= l.take(n).push(l[n]));
            }
            let current_id: u32 = next_id;
            next_id = self.nodes[current_id as usize].sibling;
            self.free_node(current_id);
            proof {
                n = n + 1;
            }
        }
        proof {
            if n < l.len() {
                assert(old(self).listed(d, n));
                assert(old(self).item_ok(d, n, open));
            }
            assert(l.take(n) =~= l);
            let base = old(self).recycle_bin@.len() as int;
            self.place@ = Seq::new(
                self.nodes@.len(),
                |v: int|
                    match old(self).place@[v] {
                        Place::At(i, j) => if i == d {
                            Place::Free(base + j)
                        } else {
                            Place::At(i, j)
                        },
                        p => p,
                    },
            );
            self.lists@ = self.lists@.update(d, Seq::empty());
            lemma_list_freed(*old(self), *self, open);
        }
    }
}

/// The nodes of a list go to the end of the bin.
proof fn lemma_list_freed(a: NodeForest, b: NodeForest, open: int)
    requires
        a.shape(open),
        a.hanging().len() > 0,
        b.nodes == a.nodes,
        b.node_stack == a.node_stack,
        b.path == a.path,
        b.lists@ == a.lists@.update(a.depth(), Seq::empty()),
        b.recycle_bin@ == a.recycle_bin@ + a.hanging(),
        b.place@.len() == a.nodes@.len(),
        forall|v: int|
            #![trigger b.place@[v]]
            0 <= v < a.nodes@.len() ==> b.place@[v] == (match a.place@[v] {
                Place::At(i, j) => if i == a.depth() {
                    Place::Free(a.recycle_bin@.len() + j)
                } else {
                    Place::At(i, j)
                },
                p => p,
            }),
    ensures
        b.shape(open),
{
    let d = a.depth();
    lemma_total_top(a.lists@, Seq::empty());
    assert forall|i: int| 0 <= i < b.depth() implies #[trigger] b.link_ok(i) by {
        assert(a.link_ok(i));
    }
    assert forall|i: int| 0 <= i <= b.depth() implies #[trigger] b.head_ok(i) by {
        assert(a.head_ok(i));
    }
    assert forall|i: int, j: int| b.listed(i, j) implies #[trigger] b.item_ok(i, j, open) by {
        assert(i != d);
        assert(a.listed(i, j));
        assert(a.item_ok(i, j, open));
    }
    assert forall|i: int, j: int, k: int|
        #![trigger b.label_at(i, j), b.label_at(i, k)]
        b.listed(i, j) && b.listed(i, k) && j < k implies b.label_at(i, j) > b.label_at(i, k) by {
        assert(i != d);
        assert(a.listed(i, j) && a.listed(i, k));
        assert(a.label_at(i, j) > a.label_at(i, k));
    }
    assert forall|p: int| 0 <= p < b.recycle_bin@.len() implies #[trigger] b.bin_ok(p) by {
        if p < a.recycle_bin@.len() {
            assert(a.bin_ok(p));
        } else {
            let j = p - a.recycle_bin@.len();
            assert(a.listed(d, j));
            assert(a.item_ok(d, j, open));
            assert(b.recycle_bin@[p] == a.hanging()[j]);
        }
    }
}

impl NodeForest {
    /// Marks the node after `depth` on the path as having a sibling that is to come.
    pub fn mark(&mut self, depth: usize, id: u32)
        requires
            old(self).shape(-1),
            depth < old(self).depth(),
            id == old(self).node_stack@[depth + 1],
        ensures
            final(self).shape(depth as int),
            *final(self) == (NodeForest { nodes: final(self).nodes, ..*old(self) }),
            final(self).nodes@ == old(self).nodes@.update(
                id as int,
                DawgNode { has_sibling: true, ..old(self).node(id) },
            ),
    {
        let ghost d: int = depth as int;
        proof {
            assert(self.link_ok(d));
            assert(self.listed(d, 0));
            assert(self.item_ok(d, 0, -1));
        }
        self.nodes[id as usize].has_sibling = true;
        proof {
            let a = *old(self);
            let b = *self;
            assert(b.nodes@ =~= a.nodes@.update(id as int, DawgNode { has_sibling: true, ..a.node(id) }));
            assert forall|i: int| 0 <= i < b.depth() implies #[trigger] b.link_ok(i) by {
                assert(a.link_ok(i));
                lemma_stack_distinct(a, -1, i, i + 1);
            }
            assert forall|i: int| 0 <= i <= b.depth() implies #[trigger] b.head_ok(i) by {
                assert(a.head_ok(i));
                if i < a.depth() {
                    lemma_stack_distinct(a, -1, i, i + 1);
                } else if i > 0 {
                    lemma_stack_distinct(a, -1, 0, i);
                }
            }
            assert forall|i: int, j: int| b.listed(i, j) implies #[trigger] b.item_ok(i, j, d) by {
                assert(a.listed(i, j));
                assert(a.item_ok(i, j, -1));
            }
            assert forall|i: int, j: int, k: int|
                #![trigger b.label_at(i, j), b.label_at(i, k)]
                b.listed(i, j) && b.listed(i, k) && j < k implies b.label_at(i, j) > b.label_at(i, k) by {
                assert(a.listed(i, j) && a.listed(i, k));
                assert(a.item_ok(i, j, -1) && a.item_ok(i, k, -1));
                assert(a.label_at(i, j) > a.label_at(i, k));
            }
            assert forall|p: int| 0 <= p < b.recycle_bin@.len() implies #[trigger] b.bin_ok(p) by {
                assert(a.bin_ok(p));
            }
        }
    }

    /// The hash of the chain that the children of the last node will become.
    pub fn hash_node(&self, id: u32, Ghost(open): Ghost<int>) -> (res: u32)
        requires
            self.shape(open),
            self.hanging().len() > 0,
            id == self.hanging()[0],
        ensures
            res == chains::entries_hash(self.entries()),
    {
        let ghost es: Seq<(u8, u32)> = self.entries();
        let ghost l: Seq<u32> = self.hanging();
        let ghost d: int = self.depth();
        let ghost mut n: int = 0;
        let mut hash_value: u32 = 0;
        let mut current: u32 = id;
        assert(self.listed(d, 0));
        assert(self.item_ok(d, 0, open));
        assert(es.take(0) =~= Seq::<(u8, u32)>::empty());
        assert(chains::entries_hash(es.take(0)) == 0);
        while current != 0
            invariant
                self.shape(open),
                es == self.entries(),
                l == self.hanging(),
                d == self.depth(),
                0 <= n <= l.len(),
                hash_value == chains::entries_hash(es.take(n)),
                current == (if n < l.len() {
                    l[n]
                } else {
                    0
                }),
            decreases l.len() - n,
        {
            proof {
                assert(self.listed(d, n));
                assert(self.item_ok(d, n, open));
                assert(es[n] == (self.node(l[n]).label, node_unit(self.node(l[n]))));
                assert(es.take(n + 1).drop_last() =~= es.take(n));
                assert(es.take(n + 1).last() == es[n]);
            }
            let unit: u32 = self.nodes[current as usize].unit();
            let label: u8 = self.nodes[current as usize].label;
            let mixed: u32 = chains::hash(((label as u32) << 24) ^ unit);
            hash_value = hash_value ^ mixed;
            current = self.nodes[current as usize].sibling;
            proof {
                n = n + 1;
            }
        }
        proof {
            if n < l.len() {
                assert(self.listed(d, n));
                assert(self.item_ok(d, n, open));
            }
            assert(es.take(n) =~= es);
        }
        hash_value
    }

    /// Makes a new node with this label the first child of the last node of the path, and
    /// the last node of the path.
    pub fn grow(&mut self, label: u8) -> (res: u32)
        requires
            old(self).shape(old(self).depth()) || (old(self).shape(-1) && old(self).hanging().len() == 0),
            old(self).hanging().len() == 0 ==> old(self).node(old(self).tip()).child == 0,
            old(self).hanging().len() > 0 ==> label > old(self).node(old(self).hanging()[0]).label,
            old(self).recycle_bin@.len() == 0 ==> old(self).nodes@.len() < 0x4000_0000,
        ensures
            final(self).shape(-1),
            0 < res < final(self).nodes@.len(),
            res >= old(self).nodes@.len() || old(self).place@[res as int] is Free,
            final(self).node_stack@ == old(self).node_stack@.push(res),
            final(self).path@ == old(self).path@.push(label),
            final(self).lists@ == old(self).lists@.update(
                old(self).depth(),
                seq![res] + old(self).hanging(),
            ).push(Seq::empty()),
            old(self).nodes@.len() <= final(self).nodes@.len() <= old(self).nodes@.len() + 1,
            final(self).nodes@.len() == old(self).nodes@.len() || final(self).recycle_bin@.len() == 0,
            old(self).tip() < old(self).nodes@.len(),
            old(self).tip() != res,
            final(self).node(old(self).tip()) == (DawgNode { child: res, ..old(self).node(old(self).tip()) }),
            forall|n: u32|
                #![trigger final(self).node(n)]
                n < old(self).nodes@.len() && n != res && n != old(self).tip() ==> final(self).node(n) == old(
                    self,
                ).node(n),
            final(self).node(res).child == 0,
            final(self).node(res).label == label,
    {
        let ghost a: NodeForest = *self;
        let ghost open: int = if a.shape(a.depth()) {
            a.depth()
        } else {
            -1
        };
        proof {
            assert(a.shape(open));
            if a.depth() > 0 {
                lemma_stack_distinct(a, open, 0, a.depth());
            }
            assert forall|p: int| 0 <= p < self.recycle_bin@.len() implies #[trigger] self.recycle_bin@[p]
                < self.nodes@.len() by {
                assert(self.bin_ok(p));
            }
            if a.recycle_bin@.len() > 0 {
                assert(a.bin_ok(a.recycle_bin@.len() - 1));
            }
            assert(a.head_ok(a.depth()));
            if a.hanging().len() > 0 {
                assert(a.listed(a.depth(), 0));
                assert(a.item_ok(a.depth(), 0, open));
            }
            if a.depth() > 0 {
                assert(a.link_ok(a.depth() - 1));
                assert(a.listed(a.depth() - 1, 0));
                assert(a.item_ok(a.depth() - 1, 0, open));
            }
        }
        let last: usize = self.node_stack.len() - 1;
        let id: u32 = self.node_stack[last];
        let child_id: u32 = self.append_node();
        assert(id != child_id);
        if self.nodes[id as usize].child == 0 {
            self.nodes[child_id as usize].is_state = true;
        }
        let before: u32 = self.nodes[id as usize].child;
        self.nodes[child_id as usize].sibling = before;
        self.nodes[child_id as usize].label = label;
        self.nodes[id as usize].child = child_id;
        self.node_stack.push(child_id);
        proof {
            let d = a.depth();
            let res = child_id;
            self.lists@ = a.lists@.update(d, seq![res] + a.hanging()).push(Seq::empty());
            self.path@ = a.path@.push(label);
            let old_place = a.place@;
            self.place@ = Seq::new(
                self.nodes@.len(),
                |v: int|
                    if v == res {
                        Place::At(d, 0)
                    } else {
                        match old_place[v] {
                            Place::At(i, j) => if i == d {
                                Place::At(i, j + 1)
                            } else {
                                Place::At(i, j)
                            },
                            p => p,
                        }
                    },
            );
            lemma_grown(a, *self, open, res, label);
        }
        child_id
    }
}

/// A new first child below the last node makes the path longer by one.
proof fn lemma_grown(a: NodeForest, b: NodeForest, open: int, res: u32, label: u8)
    requires
        a.shape(open),
        open == a.depth() || (open == -1 && a.hanging().len() == 0),
        a.hanging().len() > 0 ==> label > a.node(a.hanging()[0]).label,
        0 < res < b.nodes@.len(),
        if a.recycle_bin@.len() > 0 {
            &&& res == a.recycle_bin@.last()
            &&& b.recycle_bin@ == a.recycle_bin@.drop_last()
            &&& b.nodes@.len() == a.nodes@.len()
        } else {
            &&& res == a.nodes@.len()
            &&& b.recycle_bin@ == a.recycle_bin@
            &&& b.nodes@.len() == a.nodes@.len() + 1
        },
        b.nodes@.len() <= 0x4000_0000,
        a.tip() != res,
        b.node_stack@ == a.node_stack@.push(res),
        b.path@ == a.path@.push(label),
        b.lists@ == a.lists@.update(a.depth(), seq![res] + a.hanging()).push(Seq::empty()),
        b.node(a.tip()) == (DawgNode { child: res, ..a.node(a.tip()) }),
        forall|n: u32|
            #![trigger b.node(n)]
            n < a.nodes@.len() && n != res && n != a.tip() ==> b.node(n) == a.node(n),
        b.node(res) == (DawgNode {
            child: 0,
            sibling: if a.hanging().len() > 0 {
                a.hanging()[0]
            } else {
                0
            },
            label: label,
            is_state: a.hanging().len() == 0,
            has_sibling: false,
        }),
        b.place@.len() == b.nodes@.len(),
        b.place@[res as int] == Place::At(a.depth(), 0),
        forall|v: int|
            #![trigger b.place@[v]]
            0 <= v < a.nodes@.len() && v != res ==> b.place@[v] == (match a.place@[v] {
                Place::At(i, j) => if i == a.depth() {
                    Place::At(i, j + 1)
                } else {
                    Place::At(i, j)
                },
                p => p,
            }),
    ensures
        b.shape(-1),
{
    let d = a.depth();
    let l = seq![res] + a.hanging();
    lemma_total_top(a.lists@, l);
    lemma_total_push(a.lists@.update(d, l), Seq::empty());
    if a.recycle_bin@.len() > 0 {
        assert(a.bin_ok(a.recycle_bin@.len() - 1));
    }
    if d > 0 {
        lemma_stack_distinct(a, open, 0, d);
    }
    assert(b.node_stack@[d] == a.tip());
    assert(b.depth() == d + 1);
    assert forall|i: int| 0 <= i <= d implies #[trigger] b.node_stack@[i] == a.node_stack@[i] && a.node_stack@[i]
        < a.nodes@.len() && a.node_stack@[i] != res by {
        if i > 0 {
            assert(a.link_ok(i - 1));
            assert(a.listed(i - 1, 0));
            assert(a.item_ok(i - 1, 0, open));
        }
    }
    assert forall|i: int| 0 <= i < b.depth() implies #[trigger] b.link_ok(i) by {
        if i < d {
            assert(a.link_ok(i));
            assert(b.node_stack@[i + 1] == a.node_stack@[i + 1]);
        } else {
            assert(b.lists@[d] == l);
        }
    }
    assert forall|i: int| 0 <= i <= b.depth() implies #[trigger] b.head_ok(i) by {
        if i < d {
            assert(a.head_ok(i));
            assert(b.node_stack@[i] == a.node_stack@[i]);
            lemma_stack_distinct(a, open, i, d);
            assert(b.lists@[i] == a.lists@[i]);
        } else if i == d {
            assert(b.lists@[d] == l);
        } else {
            assert(b.lists@[i].len() == 0);
        }
    }
    assert forall|i: int, j: int| b.listed(i, j) implies #[trigger] b.item_ok(i, j, -1) by {
        if i == d {
            assert(b.lists@[d] == l);
            if j > 0 {
                assert(a.listed(d, j - 1));
                assert(a.item_ok(d, j - 1, open));
                assert(l[j] == a.hanging()[j - 1]);
                if j + 1 < l.len() {
                    assert(l[j + 1] == a.hanging()[j]);
                }
            }
        } else if i < d {
            assert(b.lists@[i] == a.lists@[i]);
            assert(a.listed(i, j));
            assert(a.item_ok(i, j, open));
        } else {
            assert(b.lists@[i].len() == 0);
        }
    }
    assert forall|i: int, j: int, k: int|
        #![trigger b.label_at(i, j), b.label_at(i, k)]
        b.listed(i, j) && b.listed(i, k) && j < k implies b.label_at(i, j) > b.label_at(i, k) by {
        if i == d {
            assert(b.lists@[d] == l);
            assert(a.listed(d, k - 1));
            assert(a.item_ok(d, k - 1, open));
            assert(a.listed(d, 0));
            assert(a.item_ok(d, 0, open));
            assert(l[k] == a.hanging()[k - 1]);
            if j > 0 {
                assert(a.listed(d, j - 1));
                assert(a.item_ok(d, j - 1, open));
                assert(l[j] == a.hanging()[j - 1]);
                assert(a.label_at(d, j - 1) > a.label_at(d, k - 1));
            } else if k > 1 {
                assert(a.label_at(d, 0) > a.label_at(d, k - 1));
            }
        } else if i < d {
            assert(b.lists@[i] == a.lists@[i]);
            assert(a.listed(i, j) && a.listed(i, k));
            assert(a.item_ok(i, j, open) && a.item_ok(i, k, open));
            assert(a.label_at(i, j) > a.label_at(i, k));
        } else {
            assert(b.lists@[i].len() == 0);
        }
    }
    assert forall|p: int| 0 <= p < b.recycle_bin@.len() implies #[trigger] b.bin_ok(p) by {
        assert(a.bin_ok(p));
    }
}

/// The number that a node becomes: for a node that ends a key twice its value, and for another
/// one four times what it names, and two more if it is the first of its chain; and in either
/// case one more if another follows it.
pub proof fn law_node_unit(n: DawgNode)
    requires
        n.child < 0x4000_0000,
    ensures
        node_unit(n) == (if n.label == 0 {
            2 * n.child
        } else {
            4 * n.child + (if n.is_state {
                2int
            } else {
                0
            })
        }) + (if n.has_sibling {
            1int
        } else {
            0
        }),
{
    let c = n.child;
    assert(c < 0x4000_0000 ==> {
        &&& (c << 1) | 0 == 2 * c
        &&& (c << 1) | 1 == 2 * c + 1
        &&& (c << 2) | 0 | 0 == 4 * c
        &&& (c << 2) | 0 | 1 == 4 * c + 1
        &&& (c << 2) | 2 | 0 == 4 * c + 2
        &&& (c << 2) | 2 | 1 == 4 * c + 3
    }) by (bit_vector);
}

} // verus!
