use vstd::prelude::*;
use vstd::set_lib::lemma_len_subset;
use vstd::set_lib::lemma_int_range;
use vstd::set_lib::set_int_range;
use crate::state::Key;

verus! {

/// A duplicate-free sequence over `0 .. cap` is no longer than `cap`.
pub proof fn lemma_nodup_len_le(fs: Seq<int>, cap: int)
    requires
        fs.no_duplicates(),
        forall|k: int| 0 <= k < fs.len() ==> 0 <= #[trigger] fs[k] < cap,
        0 <= cap,
    ensures
        fs.len() <= cap,
{
    fs.unique_seq_to_set();
    lemma_int_range(0, cap);
    assert(fs.to_set().subset_of(set_int_range(0, cap))) by {
        assert forall|x: int| fs.to_set().contains(x) implies set_int_range(0, cap).contains(
            x,
        ) by {
            assert(fs.contains(x));
            let k = choose|k: int| 0 <= k < fs.len() && fs[k] == x;
            assert(0 <= fs[k] < cap);
        }
    }
    lemma_len_subset(fs.to_set(), set_int_range(0, cap));
}

/// A duplicate-free sequence over `0 .. cap` that misses at least one value
/// of that range is shorter than `cap`.
pub proof fn lemma_nodup_missing_len(fs: Seq<int>, cap: int, t: int)
    requires
        fs.no_duplicates(),
        forall|k: int| 0 <= k < fs.len() ==> 0 <= #[trigger] fs[k] < cap,
        0 <= t < cap,
        !fs.contains(t),
    ensures
        fs.len() < cap,
{
    fs.unique_seq_to_set();
    lemma_int_range(0, cap);
    let r = set_int_range(0, cap).remove(t);
    assert(set_int_range(0, cap).contains(t));
    assert(r.len() == cap - 1);
    assert(fs.to_set().subset_of(r)) by {
        assert forall|x: int| fs.to_set().contains(x) implies r.contains(x) by {
            assert(fs.contains(x));
            let k = choose|k: int| 0 <= k < fs.len() && fs[k] == x;
            assert(0 <= fs[k] < cap);
        }
    }
    lemma_len_subset(fs.to_set(), r);
}

/// Sentinel index marking the absence of a node link.
pub const IDX_NULL: u32 = u32::MAX;

/// Fixed-size record carved out of a side's byte region: one resting order
/// plus the links that weave it into the search tree and the free list.
#[derive(Clone, Copy, Debug)]
pub struct SlabNode {
    pub price_ticks: u64,
    pub base_qty: u64,
    pub oo: Key,
    pub ts: u64,
    pub parent: u32,
    pub left: u32,
    pub right: u32,
    pub next: u32,
    pub prev: u32,
    pub flags: u8,
}

impl SlabNode {
    /// A blank record, as written into freshly added or recycled slots.
    pub fn blank() -> (n: SlabNode)
        ensures
            n == SlabNode::blank_spec(),
    {
        SlabNode {
            price_ticks: 0,
            base_qty: 0,
            oo: Key { w0: 0, w1: 0, w2: 0, w3: 0 },
            ts: 0,
            parent: IDX_NULL,
            left: IDX_NULL,
            right: IDX_NULL,
            next: IDX_NULL,
            prev: IDX_NULL,
            flags: 0,
        }
    }

    pub open spec fn blank_spec() -> SlabNode {
        SlabNode {
            price_ticks: 0,
            base_qty: 0,
            oo: Key { w0: 0, w1: 0, w2: 0, w3: 0 },
            ts: 0,
            parent: IDX_NULL,
            left: IDX_NULL,
            right: IDX_NULL,
            next: IDX_NULL,
            prev: IDX_NULL,
            flags: 0,
        }
    }
}

/// The order-describing fields of two records agree; the link fields may differ.
pub open spec fn data_eq(a: SlabNode, b: SlabNode) -> bool {
    &&& a.price_ticks == b.price_ticks
    &&& a.base_qty == b.base_qty
    &&& a.oo == b.oo
    &&& a.ts == b.ts
}

/// Two records describe the same order, though the remaining quantity may
/// have been consumed down.
pub open spec fn ident_eq(a: SlabNode, b: SlabNode) -> bool {
    &&& a.price_ticks == b.price_ticks
    &&& a.oo == b.oo
}

/// Ghost witness of the search tree: which slab index sits at each tree position.
pub enum Shape {
    Leaf,
    Branch { left: Box<Shape>, idx: int, right: Box<Shape> },
}

/// The set of slab indices a shape covers.
pub open spec fn sub_idxs(sh: Shape) -> Set<int>
    decreases sh,
{
    match sh {
        Shape::Leaf => Set::empty(),
        Shape::Branch { left, idx, right } => sub_idxs(*left).union(sub_idxs(*right)).insert(idx),
    }
}

/// The subtree rooted at `root` matches the shape `sh`: the link fields of
/// the records trace the shape, no index occurs twice, and prices obey the
/// search order (strictly smaller to the left, equal or greater to the right).
pub open spec fn shape_wf(nodes: Seq<SlabNode>, sh: Shape, root: u32) -> bool
    decreases sh,
{
    match sh {
        Shape::Leaf => root == IDX_NULL,
        Shape::Branch { left, idx, right } => {
            &&& root != IDX_NULL
            &&& root as int == idx
            &&& 0 <= idx < nodes.len()
            &&& shape_wf(nodes, *left, nodes[idx].left)
            &&& shape_wf(nodes, *right, nodes[idx].right)
            &&& !sub_idxs(*left).contains(idx)
            &&& !sub_idxs(*right).contains(idx)
            &&& sub_idxs(*left).disjoint(sub_idxs(*right))
            &&& (forall|j: int| sub_idxs(*left).contains(j) ==> nodes[j].price_ticks < nodes[idx].price_ticks)
            &&& (forall|j: int| sub_idxs(*right).contains(j) ==> nodes[j].price_ticks >= nodes[idx].price_ticks)
        },
    }
}

/// Every index covered by a well-formed shape lies inside the slab.
pub proof fn lemma_shape_in_range(nodes: Seq<SlabNode>, sh: Shape, root: u32)
    requires
        shape_wf(nodes, sh, root),
    ensures
        forall|j: int| sub_idxs(sh).contains(j) ==> 0 <= j < nodes.len(),
    decreases sh,
{
    match sh {
        Shape::Leaf => {},
        Shape::Branch { left, idx, right } => {
            lemma_shape_in_range(nodes, *left, nodes[idx].left);
            lemma_shape_in_range(nodes, *right, nodes[idx].right);
        },
    }
}

/// The fields of two records that the tree invariant reads agree: the child
/// links and the price. The parent link and the order data play no part.
pub open spec fn tree_eq(a: SlabNode, b: SlabNode) -> bool {
    &&& a.left == b.left
    &&& a.right == b.right
    &&& a.price_ticks == b.price_ticks
}

/// Well-formedness of a subtree depends only on the links and prices of the
/// records it covers.
pub proof fn lemma_shape_frame(n1: Seq<SlabNode>, n2: Seq<SlabNode>, sh: Shape, root: u32)
    requires
        shape_wf(n1, sh, root),
        n2.len() >= n1.len(),
        forall|j: int| #[trigger] sub_idxs(sh).contains(j) ==> 0 <= j < n2.len() && tree_eq(
            n2[j],
            n1[j],
        ),
    ensures
        shape_wf(n2, sh, root),
    decreases sh,
{
    match sh {
        Shape::Leaf => {},
        Shape::Branch { left, idx, right } => {
            assert(sub_idxs(sh).contains(idx));
            assert forall|j: int| #[trigger] sub_idxs(*left).contains(j) implies 0 <= j < n2.len()
                && tree_eq(n2[j], n1[j]) by {
                assert(sub_idxs(sh).contains(j));
            }
            assert forall|j: int| #[trigger] sub_idxs(*right).contains(j) implies 0 <= j
                < n2.len() && tree_eq(n2[j], n1[j]) by {
                assert(sub_idxs(sh).contains(j));
            }
            lemma_shape_frame(n1, n2, *left, n1[idx].left);
            lemma_shape_frame(n1, n2, *right, n1[idx].right);
        },
    }
}

/// Total remaining base quantity of the records a shape covers.
#[verifier::opaque]
pub open spec fn sub_qty(nodes: Seq<SlabNode>, sh: Shape) -> int
    decreases sh,
{
    match sh {
        Shape::Leaf => 0,
        Shape::Branch { left, idx, right } => sub_qty(nodes, *left) + nodes[idx].base_qty
            + sub_qty(nodes, *right),
    }
}

/// The covered quantity depends only on the covered records' quantities.
pub proof fn lemma_sub_qty_frame(n1: Seq<SlabNode>, n2: Seq<SlabNode>, sh: Shape)
    requires
        forall|j: int| #[trigger] sub_idxs(sh).contains(j) ==> 0 <= j < n1.len() && 0 <= j
            < n2.len() && n2[j].base_qty == n1[j].base_qty,
    ensures
        sub_qty(n2, sh) == sub_qty(n1, sh),
    decreases sh,
{
    reveal_with_fuel(sub_qty, 2);
    match sh {
        Shape::Leaf => {},
        Shape::Branch { left, idx, right } => {
            assert(sub_idxs(sh).contains(idx));
            assert forall|j: int| #[trigger] sub_idxs(*left).contains(j) implies 0 <= j < n1.len()
                && 0 <= j < n2.len() && n2[j].base_qty == n1[j].base_qty by {
                assert(sub_idxs(sh).contains(j));
            }
            assert forall|j: int| #[trigger] sub_idxs(*right).contains(j) implies 0 <= j
                < n1.len() && 0 <= j < n2.len() && n2[j].base_qty == n1[j].base_qty by {
                assert(sub_idxs(sh).contains(j));
            }
            lemma_sub_qty_frame(n1, n2, *left);
            lemma_sub_qty_frame(n1, n2, *right);
        },
    }
}

/// Changing one covered record's quantity moves the covered total by exactly
/// that difference; a well-formed shape covers each index once.
pub proof fn lemma_sub_qty_update(n1: Seq<SlabNode>, n2: Seq<SlabNode>, sh: Shape, root: u32, j: int)
    requires
        shape_wf(n1, sh, root),
        sub_idxs(sh).contains(j),
        forall|k: int| #[trigger] sub_idxs(sh).contains(k) && k != j ==> 0 <= k < n2.len()
            && n2[k].base_qty == n1[k].base_qty,
        0 <= j < n2.len(),
    ensures
        sub_qty(n2, sh) == sub_qty(n1, sh) + n2[j].base_qty - n1[j].base_qty,
    decreases sh,
{
    reveal_with_fuel(sub_qty, 2);
    match sh {
        Shape::Leaf => {},
        Shape::Branch { left, idx, right } => {
            lemma_shape_in_range(n1, sh, root);
            assert(sub_idxs(sh).contains(idx));
            assert forall|k: int| #[trigger] sub_idxs(*left).contains(k) implies sub_idxs(
                sh,
            ).contains(k) && 0 <= k < n1.len() by {}
            assert forall|k: int| #[trigger] sub_idxs(*right).contains(k) implies sub_idxs(
                sh,
            ).contains(k) && 0 <= k < n1.len() by {}
            if j == idx {
                assert forall|k: int| #[trigger] sub_idxs(*left).contains(k) implies 0 <= k
                    < n1.len() && 0 <= k < n2.len() && n2[k].base_qty == n1[k].base_qty by {
                    assert(k != j);
                }
                assert forall|k: int| #[trigger] sub_idxs(*right).contains(k) implies 0 <= k
                    < n1.len() && 0 <= k < n2.len() && n2[k].base_qty == n1[k].base_qty by {
                    assert(k != j);
                }
                lemma_sub_qty_frame(n1, n2, *left);
                lemma_sub_qty_frame(n1, n2, *right);
            } else if sub_idxs(*left).contains(j) {
                lemma_sub_qty_update(n1, n2, *left, n1[idx].left, j);
                assert forall|k: int| #[trigger] sub_idxs(*right).contains(k) implies 0 <= k
                    < n1.len() && 0 <= k < n2.len() && n2[k].base_qty == n1[k].base_qty by {
                    assert(k != j);
                }
                lemma_sub_qty_frame(n1, n2, *right);
            } else {
                assert(sub_idxs(*right).contains(j));
                lemma_sub_qty_update(n1, n2, *right, n1[idx].right, j);
                assert forall|k: int| #[trigger] sub_idxs(*left).contains(k) implies 0 <= k
                    < n1.len() && 0 <= k < n2.len() && n2[k].base_qty == n1[k].base_qty by {
                    assert(k != j);
                }
                lemma_sub_qty_frame(n1, n2, *left);
            }
        },
    }
}

/// Attaches the detached record `idx` as a new leaf below `cur`, walking the
/// search order: strictly smaller prices go left, equal or greater go right.
/// Returns the shape of the grown subtree.
fn insert_at(nodes: &mut Vec<SlabNode>, cur: u32, idx: u32, Ghost(sub): Ghost<Shape>) -> (res:
    Ghost<Shape>)
    requires
        shape_wf(old(nodes)@, sub, cur),
        cur != IDX_NULL,
        (idx as int) < old(nodes)@.len(),
        old(nodes)@.len() < IDX_NULL as int,
        !sub_idxs(sub).contains(idx as int),
        old(nodes)@[idx as int].left == IDX_NULL,
        old(nodes)@[idx as int].right == IDX_NULL,
    ensures
        final(nodes)@.len() == old(nodes)@.len(),
        shape_wf(final(nodes)@, res@, cur),
        sub_idxs(res@) == sub_idxs(sub).insert(idx as int),
        forall|j: int|
            0 <= j < old(nodes)@.len() && !sub_idxs(sub).contains(j) && j != idx as int
                ==> final(nodes)@[j] == old(nodes)@[j],
        forall|j: int| sub_idxs(sub).contains(j) ==> data_eq(final(nodes)@[j], old(nodes)@[j]),
        data_eq(final(nodes)@[idx as int], old(nodes)@[idx as int]),
        sub_qty(final(nodes)@, res@) == sub_qty(old(nodes)@, sub) + old(nodes)@[idx
            as int].base_qty,
    decreases sub,
{
    let ghost (lsh, rsh) = match sub {
        Shape::Branch { left, right, .. } => (*left, *right),
        Shape::Leaf => (Shape::Leaf, Shape::Leaf),
    };
    proof {
        reveal_with_fuel(sub_qty, 3);
        lemma_shape_in_range(old(nodes)@, sub, cur);
        match sub {
            Shape::Leaf => {
                assert(false);
            },
            Shape::Branch { left, idx: i0, right } => {
                assert(i0 == cur as int);
                assert(lsh == *left);
                assert(rsh == *right);
                assert(sub_qty(old(nodes)@, sub) == sub_qty(old(nodes)@, lsh) + old(nodes)@[cur
                    as int].base_qty + sub_qty(old(nodes)@, rsh));
                assert(shape_wf(old(nodes)@, lsh, old(nodes)@[cur as int].left));
                assert(shape_wf(old(nodes)@, rsh, old(nodes)@[cur as int].right));
                assert(sub_idxs(sub) == sub_idxs(lsh).union(sub_idxs(rsh)).insert(cur as int));
            },
        }
    }
    let cur_price = nodes[cur as usize].price_ticks;
    let new_price = nodes[idx as usize].price_ticks;
    if new_price < cur_price {
        let l = nodes[cur as usize].left;
        if l == IDX_NULL {
            proof {
                assert(lsh is Leaf);
            }
            nodes[cur as usize].left = idx;
            nodes[idx as usize].parent = cur;
            let ghost new_left = Shape::Branch {
                left: Box::new(Shape::Leaf),
                idx: idx as int,
                right: Box::new(Shape::Leaf),
            };
            let ghost res = Shape::Branch {
                left: Box::new(new_left),
                idx: cur as int,
                right: Box::new(rsh),
            };
            proof {
                reveal_with_fuel(sub_qty, 3);
                assert forall|j: int| sub_idxs(rsh).contains(j) implies 0 <= j < nodes@.len()
                    && nodes@[j] == old(nodes)@[j] by {
                    assert(sub_idxs(sub).contains(j));
                }
                lemma_shape_frame(old(nodes)@, nodes@, rsh, old(nodes)@[cur as int].right);
                assert(sub_idxs(new_left) =~= Set::empty().insert(idx as int));
                assert(sub_idxs(res) =~= sub_idxs(sub).insert(idx as int));
                assert(sub_idxs(new_left).disjoint(sub_idxs(rsh)));
                assert(shape_wf(nodes@, Shape::Leaf, IDX_NULL));
                assert(nodes@[idx as int].left == IDX_NULL);
                assert(nodes@[idx as int].right == IDX_NULL);
                assert(shape_wf(nodes@, new_left, idx));
                assert(shape_wf(nodes@, res, cur));
                lemma_sub_qty_frame(old(nodes)@, nodes@, rsh);
                assert(sub_qty(nodes@, Shape::Leaf) == 0);
                assert(sub_qty(nodes@, new_left) == nodes@[idx as int].base_qty);
                assert(sub_qty(nodes@, res) == sub_qty(old(nodes)@, sub) + old(nodes)@[idx
                    as int].base_qty);
            }
            Ghost(res)
        } else {
            let gl = insert_at(nodes, l, idx, Ghost(lsh));
            let ghost res = Shape::Branch {
                left: Box::new(gl@),
                idx: cur as int,
                right: Box::new(rsh),
            };
            proof {
                reveal_with_fuel(sub_qty, 3);
                assert forall|j: int| sub_idxs(rsh).contains(j) implies 0 <= j < nodes@.len()
                    && nodes@[j] == old(nodes)@[j] by {
                    assert(sub_idxs(sub).contains(j));
                    assert(!sub_idxs(lsh).contains(j));
                    assert(j != idx as int);
                }
                lemma_shape_frame(old(nodes)@, nodes@, rsh, old(nodes)@[cur as int].right);
                assert(nodes@[cur as int] == old(nodes)@[cur as int]);
                assert(sub_idxs(res) =~= sub_idxs(sub).insert(idx as int));
                assert(sub_idxs(gl@) == sub_idxs(lsh).insert(idx as int));
                assert(sub_idxs(gl@).disjoint(sub_idxs(rsh)));
                assert forall|j: int| sub_idxs(gl@).contains(j) implies nodes@[j].price_ticks
                    < nodes@[cur as int].price_ticks by {
                    if j == idx as int {
                        assert(data_eq(nodes@[j], old(nodes)@[j]));
                    } else {
                        assert(sub_idxs(lsh).contains(j));
                        assert(data_eq(nodes@[j], old(nodes)@[j]));
                    }
                }
                assert(shape_wf(nodes@, res, cur));
                lemma_sub_qty_frame(old(nodes)@, nodes@, rsh);
                assert(sub_qty(nodes@, res) == sub_qty(old(nodes)@, sub) + old(nodes)@[idx
                    as int].base_qty);
            }
            Ghost(res)
        }
    } else {
        let rr = nodes[cur as usize].right;
        if rr == IDX_NULL {
            proof {
                assert(rsh is Leaf);
            }
            nodes[cur as usize].right = idx;
            nodes[idx as usize].parent = cur;
            let ghost new_right = Shape::Branch {
                left: Box::new(Shape::Leaf),
                idx: idx as int,
                right: Box::new(Shape::Leaf),
            };
            let ghost res = Shape::Branch {
                left: Box::new(lsh),
                idx: cur as int,
                right: Box::new(new_right),
            };
            proof {
                reveal_with_fuel(sub_qty, 3);
                assert forall|j: int| sub_idxs(lsh).contains(j) implies 0 <= j < nodes@.len()
                    && nodes@[j] == old(nodes)@[j] by {
                    assert(sub_idxs(sub).contains(j));
                }
                lemma_shape_frame(old(nodes)@, nodes@, lsh, old(nodes)@[cur as int].left);
                assert(sub_idxs(new_right) =~= Set::empty().insert(idx as int));
                assert(sub_idxs(res) =~= sub_idxs(sub).insert(idx as int));
                assert(sub_idxs(lsh).disjoint(sub_idxs(new_right)));
                assert(shape_wf(nodes@, Shape::Leaf, IDX_NULL));
                assert(nodes@[idx as int].left == IDX_NULL);
                assert(nodes@[idx as int].right == IDX_NULL);
                assert(shape_wf(nodes@, new_right, idx));
                assert(shape_wf(nodes@, res, cur));
                lemma_sub_qty_frame(old(nodes)@, nodes@, lsh);
                assert(sub_qty(nodes@, Shape::Leaf) == 0);
                assert(sub_qty(nodes@, new_right) == nodes@[idx as int].base_qty);
                assert(sub_qty(nodes@, res) == sub_qty(old(nodes)@, sub) + old(nodes)@[idx
                    as int].base_qty);
            }
            Ghost(res)
        } else {
            let gr = insert_at(nodes, rr, idx, Ghost(rsh));
            let ghost res = Shape::Branch {
                left: Box::new(lsh),
                idx: cur as int,
                right: Box::new(gr@),
            };
            proof {
                reveal_with_fuel(sub_qty, 3);
                assert forall|j: int| sub_idxs(lsh).contains(j) implies 0 <= j < nodes@.len()
                    && nodes@[j] == old(nodes)@[j] by {
                    assert(sub_idxs(sub).contains(j));
                    assert(!sub_idxs(rsh).contains(j));
                    assert(j != idx as int);
                }
                lemma_shape_frame(old(nodes)@, nodes@, lsh, old(nodes)@[cur as int].left);
                assert(nodes@[cur as int] == old(nodes)@[cur as int]);
                assert(sub_idxs(res) =~= sub_idxs(sub).insert(idx as int));
                assert(sub_idxs(gr@) == sub_idxs(rsh).insert(idx as int));
                assert(sub_idxs(lsh).disjoint(sub_idxs(gr@)));
                assert forall|j: int| sub_idxs(gr@).contains(j) implies nodes@[j].price_ticks
                    >= nodes@[cur as int].price_ticks by {
                    if j == idx as int {
                        assert(data_eq(nodes@[j], old(nodes)@[j]));
                    } else {
                        assert(sub_idxs(rsh).contains(j));
                        assert(data_eq(nodes@[j], old(nodes)@[j]));
                    }
                }
                assert(shape_wf(nodes@, res, cur));
                lemma_sub_qty_frame(old(nodes)@, nodes@, lsh);
                assert(sub_qty(nodes@, res) == sub_qty(old(nodes)@, sub) + old(nodes)@[idx
                    as int].base_qty);
            }
            Ghost(res)
        }
    }
}

/// Detaches the leftmost (minimum-price) record of the subtree rooted at
/// `cur`. Returns that record's index, the subtree's new root and new shape.
/// The detached record's own fields are left as they were; the caller owns
/// both it and the relinking of the new root into its parent.
fn extract_min(nodes: &mut Vec<SlabNode>, cur: u32, Ghost(sub): Ghost<Shape>) -> (r: (
    u32,
    u32,
    Ghost<Shape>,
))
    requires
        shape_wf(old(nodes)@, sub, cur),
        cur != IDX_NULL,
    ensures
        ({
            let (min_idx, new_root, g) = r;
            &&& final(nodes)@.len() == old(nodes)@.len()
            &&& sub_idxs(sub).contains(min_idx as int)
            &&& shape_wf(final(nodes)@, g@, new_root)
            &&& sub_idxs(g@) == sub_idxs(sub).remove(min_idx as int)
            &&& (forall|j: int|
                0 <= j < old(nodes)@.len() && !sub_idxs(sub).contains(j) ==> final(nodes)@[j]
                    == old(nodes)@[j])
            &&& (forall|j: int|
                sub_idxs(sub).contains(j) ==> data_eq(final(nodes)@[j], old(nodes)@[j]))
            &&& (forall|j: int|
                sub_idxs(sub).contains(j) ==> old(nodes)@[j].price_ticks >= old(nodes)@[min_idx
                    as int].price_ticks)
            &&& sub_qty(final(nodes)@, g@) == sub_qty(old(nodes)@, sub) - old(nodes)@[min_idx
                as int].base_qty
        }),
    decreases sub,
{
    let ghost (lsh, rsh) = match sub {
        Shape::Branch { left, right, .. } => (*left, *right),
        Shape::Leaf => (Shape::Leaf, Shape::Leaf),
    };
    proof {
        reveal_with_fuel(sub_qty, 3);
        lemma_shape_in_range(old(nodes)@, sub, cur);
        match sub {
            Shape::Leaf => {
                assert(false);
            },
            Shape::Branch { left, idx: i0, right } => {
                assert(i0 == cur as int);
                assert(shape_wf(old(nodes)@, lsh, old(nodes)@[cur as int].left));
                assert(shape_wf(old(nodes)@, rsh, old(nodes)@[cur as int].right));
                assert(sub_idxs(sub) == sub_idxs(lsh).union(sub_idxs(rsh)).insert(cur as int));
                assert(sub_qty(old(nodes)@, sub) == sub_qty(old(nodes)@, lsh) + old(nodes)@[cur
                    as int].base_qty + sub_qty(old(nodes)@, rsh));
            },
        }
    }
    let l = nodes[cur as usize].left;
    if l == IDX_NULL {
        proof {
            reveal_with_fuel(sub_qty, 3);
            assert(lsh is Leaf);
            assert(sub_idxs(sub).remove(cur as int) =~= sub_idxs(rsh));
            assert(sub_qty(old(nodes)@, lsh) == 0);
        }
        let rc = nodes[cur as usize].right;
        (cur, rc, Ghost(rsh))
    } else {
        let (m, nl, gl) = extract_min(nodes, l, Ghost(lsh));
        let ghost n1 = nodes@;
        if nl != IDX_NULL {
            proof {
                lemma_shape_in_range(n1, gl@, nl);
                match gl@ {
                    Shape::Leaf => {
                        assert(false);
                    },
                    Shape::Branch { .. } => {},
                }
                assert(sub_idxs(gl@).contains(nl as int));
            }
            nodes[nl as usize].parent = cur;
        }
        nodes[cur as usize].left = nl;
        let ghost res = Shape::Branch {
            left: Box::new(gl@),
            idx: cur as int,
            right: Box::new(rsh),
        };
        proof {
            reveal_with_fuel(sub_qty, 3);
            assert(!sub_idxs(lsh).contains(cur as int));
            assert(sub_idxs(gl@) == sub_idxs(lsh).remove(m as int));
            assert(n1[cur as int] == old(nodes)@[cur as int]);
            assert(nodes@[cur as int].right == old(nodes)@[cur as int].right);
            assert(nodes@[cur as int].left == nl);
            assert(data_eq(nodes@[cur as int], old(nodes)@[cur as int]));
            assert forall|j: int| sub_idxs(gl@).contains(j) implies 0 <= j < nodes@.len()
                && tree_eq(nodes@[j], n1[j]) by {
                assert(j != cur as int);
                if j != nl as int {
                    assert(nodes@[j] == n1[j]);
                }
            }
            lemma_shape_frame(n1, nodes@, gl@, nl);
            assert forall|j: int| sub_idxs(rsh).contains(j) implies 0 <= j < nodes@.len()
                && nodes@[j] == old(nodes)@[j] by {
                assert(sub_idxs(sub).contains(j));
                assert(!sub_idxs(lsh).contains(j));
                assert(j != cur as int);
                assert(nl != IDX_NULL ==> j != nl as int);
            }
            lemma_shape_frame(old(nodes)@, nodes@, rsh, old(nodes)@[cur as int].right);
            assert forall|j: int| sub_idxs(gl@).contains(j) implies nodes@[j].price_ticks
                < nodes@[cur as int].price_ticks by {
                assert(sub_idxs(lsh).contains(j));
                assert(data_eq(n1[j], old(nodes)@[j]));
                assert(tree_eq(nodes@[j], n1[j]));
            }
            assert(shape_wf(nodes@, res, cur));
            assert(sub_idxs(res) =~= sub_idxs(sub).remove(m as int));
            assert forall|j: int| sub_idxs(sub).contains(j) implies old(nodes)@[j].price_ticks
                >= old(nodes)@[m as int].price_ticks by {
                assert(sub_idxs(lsh).contains(m as int));
                if j == cur as int || sub_idxs(rsh).contains(j) {
                    assert(old(nodes)@[m as int].price_ticks < old(nodes)@[cur
                        as int].price_ticks);
                }
            }
            assert forall|j: int| sub_idxs(sub).contains(j) implies data_eq(
                nodes@[j],
                old(nodes)@[j],
            ) by {
                if sub_idxs(lsh).contains(j) {
                    assert(data_eq(n1[j], old(nodes)@[j]));
                    if j != cur as int && (nl == IDX_NULL || j != nl as int) {
                        assert(nodes@[j] == n1[j]);
                    }
                }
            }
            assert forall|j: int| #[trigger] sub_idxs(gl@).contains(j) implies 0 <= j < n1.len()
                && 0 <= j < nodes@.len() && nodes@[j].base_qty == n1[j].base_qty by {
                assert(j != cur as int);
            }
            lemma_sub_qty_frame(n1, nodes@, gl@);
            assert forall|j: int| #[trigger] sub_idxs(rsh).contains(j) implies 0 <= j
                < old(nodes)@.len() && 0 <= j < nodes@.len() && nodes@[j].base_qty == old(
                nodes,
            )@[j].base_qty by {}
            lemma_sub_qty_frame(old(nodes)@, nodes@, rsh);
            assert(sub_qty(nodes@, res) == sub_qty(nodes@, gl@) + nodes@[cur as int].base_qty
                + sub_qty(nodes@, rsh));
            assert(sub_qty(nodes@, res) == sub_qty(old(nodes)@, sub) - old(nodes)@[m
                as int].base_qty);
        }
        (m, cur, Ghost(res))
    }
}

/// Detaches the record `target` from the subtree rooted at `cur`, descending
/// by price. A record with at most one child is spliced out; one with two
/// children receives the order data of its in-order successor, whose slot is
/// the one detached instead. Returns the new root, the index freed, and the
/// new shape.
fn delete_at(nodes: &mut Vec<SlabNode>, cur: u32, target: u32, Ghost(sub): Ghost<Shape>) -> (r: (
    u32,
    u32,
    Ghost<Shape>,
))
    requires
        shape_wf(old(nodes)@, sub, cur),
        sub_idxs(sub).contains(target as int),
    ensures
        ({
            let (new_root, freed, g) = r;
            &&& final(nodes)@.len() == old(nodes)@.len()
            &&& sub_idxs(sub).contains(freed as int)
            &&& shape_wf(final(nodes)@, g@, new_root)
            &&& sub_idxs(g@) == sub_idxs(sub).remove(freed as int)
            &&& (forall|j: int|
                0 <= j < old(nodes)@.len() && !sub_idxs(sub).contains(j) ==> final(nodes)@[j]
                    == old(nodes)@[j])
            &&& (forall|j: int|
                sub_idxs(g@).contains(j) && j != target as int ==> data_eq(
                    final(nodes)@[j],
                    old(nodes)@[j],
                ))
            &&& (freed == target || data_eq(final(nodes)@[target as int], old(nodes)@[freed as int]))
            &&& sub_qty(final(nodes)@, g@) == sub_qty(old(nodes)@, sub) - old(nodes)@[target
                as int].base_qty
        }),
    decreases sub,
{
    let ghost (lsh, rsh) = match sub {
        Shape::Branch { left, right, .. } => (*left, *right),
        Shape::Leaf => (Shape::Leaf, Shape::Leaf),
    };
    proof {
        reveal_with_fuel(sub_qty, 3);
        lemma_shape_in_range(old(nodes)@, sub, cur);
        match sub {
            Shape::Leaf => {
                assert(false);
            },
            Shape::Branch { left, idx: i0, right } => {
                assert(i0 == cur as int);
                assert(shape_wf(old(nodes)@, lsh, old(nodes)@[cur as int].left));
                assert(shape_wf(old(nodes)@, rsh, old(nodes)@[cur as int].right));
                assert(sub_idxs(sub) == sub_idxs(lsh).union(sub_idxs(rsh)).insert(cur as int));
                assert(sub_qty(old(nodes)@, sub) == sub_qty(old(nodes)@, lsh) + old(nodes)@[cur
                    as int].base_qty + sub_qty(old(nodes)@, rsh));
            },
        }
    }
    let tp = nodes[target as usize].price_ticks;
    let cp = nodes[cur as usize].price_ticks;
    if cur == target {
        let l = nodes[cur as usize].left;
        let rc = nodes[cur as usize].right;
        if l == IDX_NULL {
            proof {
                reveal_with_fuel(sub_qty, 3);
                assert(lsh is Leaf);
                assert(sub_idxs(sub).remove(cur as int) =~= sub_idxs(rsh));
                assert(sub_qty(old(nodes)@, lsh) == 0);
            }
            (rc, cur, Ghost(rsh))
        } else if rc == IDX_NULL {
            proof {
                reveal_with_fuel(sub_qty, 3);
                assert(rsh is Leaf);
                assert(sub_idxs(sub).remove(cur as int) =~= sub_idxs(lsh));
                assert(sub_qty(old(nodes)@, rsh) == 0);
            }
            (l, cur, Ghost(lsh))
        } else {
            proof {
                match rsh {
                    Shape::Leaf => {
                        assert(false);
                    },
                    Shape::Branch { .. } => {},
                }
            }
            let (m, nr, gr) = extract_min(nodes, rc, Ghost(rsh));
            let ghost n1 = nodes@;
            proof {
                assert(sub_idxs(rsh).contains(m as int));
                assert(sub_idxs(sub).contains(m as int));
                assert(m as int != cur as int);
                assert((m as int) < nodes@.len());
            }
            let mn = nodes[m as usize];
            proof {
                assert(data_eq(mn, old(nodes)@[m as int]));
            }
            if nr != IDX_NULL {
                proof {
                    lemma_shape_in_range(n1, gr@, nr);
                    match gr@ {
                        Shape::Leaf => {
                            assert(false);
                        },
                        Shape::Branch { .. } => {},
                    }
                    assert(sub_idxs(gr@).contains(nr as int));
                }
                nodes[nr as usize].parent = cur;
            }
            nodes[cur as usize].price_ticks = mn.price_ticks;
            nodes[cur as usize].base_qty = mn.base_qty;
            nodes[cur as usize].oo = mn.oo;
            nodes[cur as usize].ts = mn.ts;
            nodes[cur as usize].right = nr;
            let ghost res = Shape::Branch {
                left: Box::new(lsh),
                idx: cur as int,
                right: Box::new(gr@),
            };
            proof {
                reveal_with_fuel(sub_qty, 3);
                assert(sub_idxs(gr@) == sub_idxs(rsh).remove(m as int));
                assert(!sub_idxs(rsh).contains(cur as int));
                assert(n1[cur as int] == old(nodes)@[cur as int]);
                assert(nodes@[cur as int].left == old(nodes)@[cur as int].left);
                assert(nodes@[cur as int].price_ticks == old(nodes)@[m as int].price_ticks);
                assert forall|j: int| sub_idxs(lsh).contains(j) implies 0 <= j < nodes@.len()
                    && nodes@[j] == old(nodes)@[j] by {
                    assert(sub_idxs(sub).contains(j));
                    assert(!sub_idxs(rsh).contains(j));
                    assert(j != cur as int);
                    assert(nr != IDX_NULL ==> j != nr as int);
                }
                lemma_shape_frame(old(nodes)@, nodes@, lsh, old(nodes)@[cur as int].left);
                assert forall|j: int| sub_idxs(gr@).contains(j) implies 0 <= j < nodes@.len()
                    && tree_eq(nodes@[j], n1[j]) by {
                    assert(j != cur as int);
                    if nr == IDX_NULL || j != nr as int {
                        assert(nodes@[j] == n1[j]);
                    }
                }
                lemma_shape_frame(n1, nodes@, gr@, nr);
                assert forall|j: int| sub_idxs(lsh).contains(j) implies nodes@[j].price_ticks
                    < nodes@[cur as int].price_ticks by {
                    assert(old(nodes)@[j].price_ticks < old(nodes)@[cur as int].price_ticks);
                    assert(old(nodes)@[m as int].price_ticks >= old(nodes)@[cur
                        as int].price_ticks);
                }
                assert forall|j: int| sub_idxs(gr@).contains(j) implies nodes@[j].price_ticks
                    >= nodes@[cur as int].price_ticks by {
                    assert(sub_idxs(rsh).contains(j));
                    assert(j != cur as int);
                    assert(data_eq(n1[j], old(nodes)@[j]));
                    assert(tree_eq(nodes@[j], n1[j]));
                    assert(old(nodes)@[j].price_ticks >= old(nodes)@[m as int].price_ticks);
                }
                assert(shape_wf(nodes@, res, cur));
                assert(sub_idxs(res) =~= sub_idxs(sub).remove(m as int));
                assert(data_eq(nodes@[target as int], old(nodes)@[m as int]));
                assert forall|j: int|
                    sub_idxs(res).contains(j) && j != target as int implies data_eq(
                    nodes@[j],
                    old(nodes)@[j],
                ) by {
                    if sub_idxs(gr@).contains(j) {
                        assert(data_eq(n1[j], old(nodes)@[j]));
                    }
                }
                assert forall|j: int| #[trigger] sub_idxs(gr@).contains(j) implies 0 <= j
                    < n1.len() && 0 <= j < nodes@.len() && nodes@[j].base_qty
                    == n1[j].base_qty by {
                    assert(j != cur as int);
                }
                lemma_sub_qty_frame(n1, nodes@, gr@);
                assert forall|j: int| #[trigger] sub_idxs(lsh).contains(j) implies 0 <= j
                    < old(nodes)@.len() && 0 <= j < nodes@.len() && nodes@[j].base_qty == old(
                    nodes,
                )@[j].base_qty by {}
                lemma_sub_qty_frame(old(nodes)@, nodes@, lsh);
                assert(sub_qty(nodes@, res) == sub_qty(nodes@, lsh) + nodes@[cur as int].base_qty
                    + sub_qty(nodes@, gr@));
                assert(nodes@[cur as int].base_qty == old(nodes)@[m as int].base_qty);
                assert(sub_qty(nodes@, res) == sub_qty(old(nodes)@, sub) - old(nodes)@[cur
                    as int].base_qty);
            }
            (cur, m, Ghost(res))
        }
    } else if tp < cp {
        proof {
            assert(!sub_idxs(rsh).contains(target as int));
            assert(sub_idxs(lsh).contains(target as int));
            match lsh {
                Shape::Leaf => {
                    assert(false);
                },
                Shape::Branch { .. } => {},
            }
        }
        let l = nodes[cur as usize].left;
        let (nl, freed, gl) = delete_at(nodes, l, target, Ghost(lsh));
        let ghost n1 = nodes@;
        if nl != IDX_NULL {
            proof {
                lemma_shape_in_range(n1, gl@, nl);
                match gl@ {
                    Shape::Leaf => {
                        assert(false);
                    },
                    Shape::Branch { .. } => {},
                }
                assert(sub_idxs(gl@).contains(nl as int));
            }
            nodes[nl as usize].parent = cur;
        }
        nodes[cur as usize].left = nl;
        let ghost res = Shape::Branch {
            left: Box::new(gl@),
            idx: cur as int,
            right: Box::new(rsh),
        };
        proof {
            reveal_with_fuel(sub_qty, 3);
            assert(sub_idxs(gl@) == sub_idxs(lsh).remove(freed as int));
            assert(!sub_idxs(lsh).contains(cur as int));
            assert(n1[cur as int] == old(nodes)@[cur as int]);
            assert(data_eq(nodes@[cur as int], old(nodes)@[cur as int]));
            assert(nodes@[cur as int].right == old(nodes)@[cur as int].right);
            assert(nodes@[cur as int].left == nl);
            assert forall|j: int| sub_idxs(gl@).contains(j) implies 0 <= j < nodes@.len()
                && tree_eq(nodes@[j], n1[j]) by {
                assert(j != cur as int);
                if nl == IDX_NULL || j != nl as int {
                    assert(nodes@[j] == n1[j]);
                }
            }
            lemma_shape_frame(n1, nodes@, gl@, nl);
            assert forall|j: int| sub_idxs(rsh).contains(j) implies 0 <= j < nodes@.len()
                && nodes@[j] == old(nodes)@[j] by {
                assert(sub_idxs(sub).contains(j));
                assert(!sub_idxs(lsh).contains(j));
                assert(j != cur as int);
                assert(nl != IDX_NULL ==> j != nl as int);
            }
            lemma_shape_frame(old(nodes)@, nodes@, rsh, old(nodes)@[cur as int].right);
            assert(sub_idxs(lsh).contains(freed as int));
            assert forall|j: int| sub_idxs(gl@).contains(j) implies nodes@[j].price_ticks
                < nodes@[cur as int].price_ticks by {
                assert(sub_idxs(lsh).contains(j));
                assert(tree_eq(nodes@[j], n1[j]));
                if j != target as int {
                    assert(data_eq(n1[j], old(nodes)@[j]));
                } else {
                    assert(data_eq(n1[j], old(nodes)@[freed as int]));
                }
            }
            assert(shape_wf(nodes@, res, cur));
            assert(sub_idxs(res) =~= sub_idxs(sub).remove(freed as int));
            assert forall|j: int|
                sub_idxs(res).contains(j) && j != target as int implies data_eq(
                nodes@[j],
                old(nodes)@[j],
            ) by {
                if sub_idxs(gl@).contains(j) {
                    assert(data_eq(n1[j], old(nodes)@[j]));
                    assert(data_eq(nodes@[j], n1[j]));
                }
            }
            assert(freed == target || data_eq(nodes@[target as int], old(nodes)@[freed as int]))
                by {
                if freed != target {
                    assert(data_eq(n1[target as int], old(nodes)@[freed as int]));
                    assert(sub_idxs(gl@).contains(target as int));
                    assert(data_eq(nodes@[target as int], n1[target as int]));
                }
            }
            assert forall|j: int| #[trigger] sub_idxs(gl@).contains(j) implies 0 <= j < n1.len()
                && 0 <= j < nodes@.len() && nodes@[j].base_qty == n1[j].base_qty by {
                assert(j != cur as int);
            }
            lemma_sub_qty_frame(n1, nodes@, gl@);
            assert forall|j: int| #[trigger] sub_idxs(rsh).contains(j) implies 0 <= j
                < old(nodes)@.len() && 0 <= j < nodes@.len() && nodes@[j].base_qty == old(
                nodes,
            )@[j].base_qty by {}
            lemma_sub_qty_frame(old(nodes)@, nodes@, rsh);
            assert(sub_qty(nodes@, res) == sub_qty(nodes@, gl@) + nodes@[cur as int].base_qty
                + sub_qty(nodes@, rsh));
            assert(sub_qty(nodes@, res) == sub_qty(old(nodes)@, sub) - old(nodes)@[target
                as int].base_qty);
        }
        (cur, freed, Ghost(res))
    } else {
        proof {
            assert(!sub_idxs(lsh).contains(target as int));
            assert(sub_idxs(rsh).contains(target as int));
            match rsh {
                Shape::Leaf => {
                    assert(false);
                },
                Shape::Branch { .. } => {},
            }
        }
        let rc = nodes[cur as usize].right;
        let (nr, freed, gr) = delete_at(nodes, rc, target, Ghost(rsh));
        let ghost n1 = nodes@;
        if nr != IDX_NULL {
            proof {
                lemma_shape_in_range(n1, gr@, nr);
                match gr@ {
                    Shape::Leaf => {
                        assert(false);
                    },
                    Shape::Branch { .. } => {},
                }
                assert(sub_idxs(gr@).contains(nr as int));
            }
            nodes[nr as usize].parent = cur;
        }
        nodes[cur as usize].right = nr;
        let ghost res = Shape::Branch {
            left: Box::new(lsh),
            idx: cur as int,
            right: Box::new(gr@),
        };
        proof {
            reveal_with_fuel(sub_qty, 3);
            assert(sub_idxs(gr@) == sub_idxs(rsh).remove(freed as int));
            assert(!sub_idxs(rsh).contains(cur as int));
            assert(n1[cur as int] == old(nodes)@[cur as int]);
            assert(data_eq(nodes@[cur as int], old(nodes)@[cur as int]));
            assert(nodes@[cur as int].left == old(nodes)@[cur as int].left);
            assert(nodes@[cur as int].right == nr);
            assert forall|j: int| sub_idxs(gr@).contains(j) implies 0 <= j < nodes@.len()
                && tree_eq(nodes@[j], n1[j]) by {
                assert(j != cur as int);
                if nr == IDX_NULL || j != nr as int {
                    assert(nodes@[j] == n1[j]);
                }
            }
            lemma_shape_frame(n1, nodes@, gr@, nr);
            assert forall|j: int| sub_idxs(lsh).contains(j) implies 0 <= j < nodes@.len()
                && nodes@[j] == old(nodes)@[j] by {
                assert(sub_idxs(sub).contains(j));
                assert(!sub_idxs(rsh).contains(j));
                assert(j != cur as int);
                assert(nr != IDX_NULL ==> j != nr as int);
            }
            lemma_shape_frame(old(nodes)@, nodes@, lsh, old(nodes)@[cur as int].left);
            assert(sub_idxs(rsh).contains(freed as int));
            assert forall|j: int| sub_idxs(gr@).contains(j) implies nodes@[j].price_ticks
                >= nodes@[cur as int].price_ticks by {
                assert(sub_idxs(rsh).contains(j));
                assert(tree_eq(nodes@[j], n1[j]));
                if j != target as int {
                    assert(data_eq(n1[j], old(nodes)@[j]));
                } else {
                    assert(data_eq(n1[j], old(nodes)@[freed as int]));
                }
            }
            assert(shape_wf(nodes@, res, cur));
            assert(sub_idxs(res) =~= sub_idxs(sub).remove(freed as int));
            assert forall|j: int|
                sub_idxs(res).contains(j) && j != target as int implies data_eq(
                nodes@[j],
                old(nodes)@[j],
            ) by {
                if sub_idxs(gr@).contains(j) {
                    assert(data_eq(n1[j], old(nodes)@[j]));
                    assert(data_eq(nodes@[j], n1[j]));
                }
            }
            assert(freed == target || data_eq(nodes@[target as int], old(nodes)@[freed as int]))
                by {
                if freed != target {
                    assert(data_eq(n1[target as int], old(nodes)@[freed as int]));
                    assert(sub_idxs(gr@).contains(target as int));
                    assert(data_eq(nodes@[target as int], n1[target as int]));
                }
            }
            assert forall|j: int| #[trigger] sub_idxs(gr@).contains(j) implies 0 <= j < n1.len()
                && 0 <= j < nodes@.len() && nodes@[j].base_qty == n1[j].base_qty by {
                assert(j != cur as int);
            }
            lemma_sub_qty_frame(n1, nodes@, gr@);
            assert forall|j: int| #[trigger] sub_idxs(lsh).contains(j) implies 0 <= j
                < old(nodes)@.len() && 0 <= j < nodes@.len() && nodes@[j].base_qty == old(
                nodes,
            )@[j].base_qty by {}
            lemma_sub_qty_frame(old(nodes)@, nodes@, lsh);
            assert(sub_qty(nodes@, res) == sub_qty(nodes@, lsh) + nodes@[cur as int].base_qty
                + sub_qty(nodes@, gr@));
            assert(sub_qty(nodes@, res) == sub_qty(old(nodes)@, sub) - old(nodes)@[target
                as int].base_qty);
        }
        (cur, freed, Ghost(res))
    }
}

/// Under the side's ordering, `a` is at least as good a price as `b`.
pub open spec fn better_or_equal(is_bid: bool, a: u64, b: u64) -> bool {
    if is_bid {
        a >= b
    } else {
        a <= b
    }
}

/// Walks from `cur` toward the side's extreme: rightmost (maximum price) for
/// the bid book, leftmost (minimum price) for the ask book.
fn extreme(nodes: &Vec<SlabNode>, cur: u32, is_bid: bool, Ghost(sub): Ghost<Shape>) -> (r: u32)
    requires
        shape_wf(nodes@, sub, cur),
        cur != IDX_NULL,
    ensures
        sub_idxs(sub).contains(r as int),
        forall|j: int|
            sub_idxs(sub).contains(j) ==> better_or_equal(
                is_bid,
                nodes@[r as int].price_ticks,
                nodes@[j].price_ticks,
            ),
    decreases sub,
{
    let ghost (lsh, rsh) = match sub {
        Shape::Branch { left, right, .. } => (*left, *right),
        Shape::Leaf => (Shape::Leaf, Shape::Leaf),
    };
    proof {
        lemma_shape_in_range(nodes@, sub, cur);
        match sub {
            Shape::Leaf => {
                assert(false);
            },
            Shape::Branch { left, idx: i0, right } => {
                assert(i0 == cur as int);
                assert(shape_wf(nodes@, lsh, nodes@[cur as int].left));
                assert(shape_wf(nodes@, rsh, nodes@[cur as int].right));
                assert(sub_idxs(sub) == sub_idxs(lsh).union(sub_idxs(rsh)).insert(cur as int));
            },
        }
    }
    let nxt = if is_bid {
        nodes[cur as usize].right
    } else {
        nodes[cur as usize].left
    };
    if nxt == IDX_NULL {
        proof {
            if is_bid {
                assert(rsh is Leaf);
            } else {
                assert(lsh is Leaf);
            }
        }
        cur
    } else {
        let r = extreme(nodes, nxt, is_bid, Ghost(if is_bid { rsh } else { lsh }));
        proof {
            if is_bid {
                assert(sub_idxs(rsh).contains(r as int));
                assert(nodes@[r as int].price_ticks >= nodes@[cur as int].price_ticks);
            } else {
                assert(sub_idxs(lsh).contains(r as int));
                assert(nodes@[r as int].price_ticks < nodes@[cur as int].price_ticks);
            }
        }
        r
    }
}

/// The marks vector with every index covered by `sh` switched on.
pub open spec fn or_marks(pre: Seq<bool>, sh: Shape) -> Seq<bool> {
    pre.map(|j: int, b: bool| b || sub_idxs(sh).contains(j))
}

/// Marks every record of the subtree `sub` as live in `marks`.
fn mark_live_at(nodes: &Vec<SlabNode>, cur: u32, marks: &mut Vec<bool>, sub: Ghost<Shape>)
    requires
        shape_wf(nodes@, sub@, cur),
        old(marks)@.len() == nodes@.len(),
    ensures
        final(marks)@ == or_marks(old(marks)@, sub@),
    decreases sub@,
{
    if cur == IDX_NULL {
        proof {
            match sub@ {
                Shape::Leaf => {
                    assert(sub_idxs(sub@) =~= Set::empty());
                },
                Shape::Branch { .. } => {
                    assert(false);
                },
            }
            assert(marks@ =~= or_marks(marks@, sub@));
        }
        return ;
    }
    let ghost (lsh, rsh) = match sub@ {
        Shape::Branch { left, right, .. } => (*left, *right),
        Shape::Leaf => (Shape::Leaf, Shape::Leaf),
    };
    proof {
        lemma_shape_in_range(nodes@, sub@, cur);
        match sub@ {
            Shape::Leaf => {
                assert(false);
            },
            Shape::Branch { idx: i0, .. } => {
                assert(i0 == cur as int);
                assert(sub_idxs(sub@) == sub_idxs(lsh).union(sub_idxs(rsh)).insert(cur as int));
            },
        }
    }
    marks[cur as usize] = true;
    let ghost m0 = marks@;
    let l = nodes[cur as usize].left;
    mark_live_at(nodes, l, marks, Ghost(lsh));
    let ghost m1 = marks@;
    let rr = nodes[cur as usize].right;
    mark_live_at(nodes, rr, marks, Ghost(rsh));
    proof {
        assert(m1 == or_marks(m0, lsh));
        assert(marks@ == or_marks(m1, rsh));
        assert(marks@ =~= or_marks(old(marks)@, sub@)) by {
            assert forall|j: int|
                0 <= j < or_marks(old(marks)@, sub@).len() implies marks@[j] == or_marks(
                old(marks)@,
                sub@,
            )[j] by {
                assert(or_marks(old(marks)@, sub@)[j] == (old(marks)@[j] || sub_idxs(
                    sub@,
                ).contains(j)));
                assert(marks@[j] == (m1[j] || sub_idxs(rsh).contains(j)));
                assert(m1[j] == (m0[j] || sub_idxs(lsh).contains(j)));
                assert(m0[j] == (old(marks)@[j] || j == cur as int));
                assert(sub_idxs(sub@).contains(j) <==> (sub_idxs(lsh).contains(j) || sub_idxs(
                    rsh,
                ).contains(j) || j == cur as int));
            }
        }
    }
}

/// Error conditions raised by the slab allocator and its search tree.
#[derive(Clone, Copy, PartialEq, Eq, Structural, Debug)]
pub enum SlabError {
    InvalidHeader,
    InvalidGrow,
    NoFreeNodes,
    NoGrowth,
}

/// One side's order book: a fixed-stride arena of records, a free list
/// threaded through their `next` links, a binary search tree over the live
/// records keyed by price, and a cached best index.
pub struct Slab {
    pub nodes: Vec<SlabNode>,
    pub capacity: u32,
    pub used: u32,
    pub free_head: u32,
    pub root: u32,
    pub best: u32,
    pub version: u8,
    pub is_bid: bool,
    pub shape: Ghost<Shape>,
    pub free_list: Ghost<Seq<int>>,
}

impl Slab {
    /// The set of slab indices holding live (tree-reachable) records.
    pub closed spec fn live(self) -> Set<int> {
        sub_idxs(self.shape@)
    }

    /// Total remaining base quantity resting on this side.
    pub closed spec fn book_qty(self) -> int {
        sub_qty(self.nodes@, self.shape@)
    }

    /// On the bid side a higher price is at least as good; on the ask side a lower one.
    pub open spec fn at_least_as_good(self, price: u64, than: u64) -> bool {
        if self.is_bid {
            price >= than
        } else {
            price <= than
        }
    }

    /// The free list is a chain through the `next` links, headed by `free_head`.
    pub open spec fn free_chain_ok(self) -> bool {
        &&& (self.free_list@.len() == 0 <==> self.free_head == IDX_NULL)
        &&& (self.free_list@.len() > 0 ==> self.free_head as int == self.free_list@[0])
        &&& (forall|k: int| 0 <= k < self.free_list@.len() ==> {
            &&& 0 <= #[trigger] self.free_list@[k] < self.nodes@.len()
            &&& self.nodes@[self.free_list@[k]].next as int == (if k + 1 < self.free_list@.len() {
                self.free_list@[k + 1]
            } else {
                IDX_NULL as int
            })
        })
        &&& self.free_list@.no_duplicates()
    }

    /// The cached best index names a live record whose price no other live
    /// record beats under the side's ordering.
    pub open spec fn best_ok(self) -> bool {
        if self.root == IDX_NULL {
            self.best == IDX_NULL
        } else {
            &&& self.live().contains(self.best as int)
            &&& (forall|j: int| self.live().contains(j) ==> self.at_least_as_good(
                self.nodes@[self.best as int].price_ticks,
                self.nodes@[j].price_ticks,
            ))
        }
    }

    /// Structural invariant: free list and tree partition the index range
    /// with no overlap and no gap, the counters agree, live quantities are
    /// positive, and the cached best is the side's extreme.
    pub closed spec fn wf(self) -> bool {
        &&& self.capacity as int == self.nodes@.len()
        &&& self.capacity < IDX_NULL
        &&& shape_wf(self.nodes@, self.shape@, self.root)
        &&& self.free_chain_ok()
        &&& (forall|j: int|
            0 <= j < self.nodes@.len() ==> (self.live().contains(j) <==> !self.free_list@.contains(
                j,
            )))
        &&& self.free_list@.len() <= self.capacity
        &&& self.used as int == self.capacity - self.free_list@.len()
        &&& self.best_ok()
        &&& (forall|j: int| self.live().contains(j) ==> self.nodes@[j].base_qty > 0)
    }

    /// A slab is empty exactly when its root is the null sentinel.
    pub proof fn lemma_empty_iff(self)
        requires
            self.wf(),
        ensures
            self.live().is_empty() <==> self.root == IDX_NULL,
    {
        match self.shape@ {
            Shape::Leaf => {
                assert(self.live() =~= Set::empty());
            },
            Shape::Branch { left, idx, right } => {
                assert(self.live().contains(idx));
            },
        }
    }

    /// Builds a fresh slab of exactly `capacity` blank records whose free
    /// list chains slot 0 through slot `capacity - 1` in order.
    pub fn init(is_bid: bool, capacity: u32) -> (s: Slab)
        requires
            capacity < IDX_NULL,
        ensures
            s.wf(),
            s.is_bid == is_bid,
            s.capacity == capacity,
            s.used == 0,
            s.live().is_empty(),
            s.book_qty() == 0,
            s.version == 1,
            s.root == IDX_NULL,
            s.best == IDX_NULL,
            s.free_head == (if capacity > 0 {
                0u32
            } else {
                IDX_NULL
            }),
            s.shape@ == Shape::Leaf,
            s.free_list@ == Seq::new(capacity as nat, |k: int| k),
            s.nodes@.len() == capacity as int,
            forall|k: int|
                0 <= k < capacity as int ==> #[trigger] s.nodes@[k] == (SlabNode {
                    next: if k + 1 < capacity as int {
                        (k + 1) as u32
                    } else {
                        IDX_NULL
                    },
                    ..SlabNode::blank_spec()
                }),
    {
        let mut nodes: Vec<SlabNode> = Vec::new();
        let mut i: u32 = 0;
        while i < capacity
            invariant
                0 <= i <= capacity,
                capacity < IDX_NULL,
                nodes@.len() == i as int,
                forall|k: int|
                    0 <= k < i as int ==> #[trigger] nodes@[k] == (SlabNode {
                        next: if k + 1 < capacity as int {
                            (k + 1) as u32
                        } else {
                            IDX_NULL
                        },
                        ..SlabNode::blank_spec()
                    }),
            decreases capacity - i,
        {
            let mut n = SlabNode::blank();
            n.next = if i + 1 < capacity {
                i + 1
            } else {
                IDX_NULL
            };
            nodes.push(n);
            i = i + 1;
        }
        let s = Slab {
            nodes,
            capacity,
            used: 0,
            free_head: if capacity > 0 {
                0
            } else {
                IDX_NULL
            },
            root: IDX_NULL,
            best: IDX_NULL,
            version: 1,
            is_bid,
            shape: Ghost(Shape::Leaf),
            free_list: Ghost(Seq::new(capacity as nat, |k: int| k)),
        };
        proof {
            reveal_with_fuel(sub_qty, 2);
            assert(s.live() =~= Set::empty());
            assert(s.book_qty() == 0);
            assert forall|j: int| 0 <= j < s.nodes@.len() implies !s.live().contains(j)
                && s.free_list@.contains(j) by {
                assert(s.free_list@[j] == j);
            }
        }
        s
    }

    /// Pops the head of the free list, marking one record as allocated.
    /// Leaves the tree untouched; the popped record is neither live nor free
    /// until the caller attaches it.
    fn allocate(&mut self) -> (r: Result<u32, SlabError>)
        requires
            old(self).wf(),
        ensures
            match r {
                Ok(idx) => {
                    &&& old(self).used < old(self).capacity
                    &&& (idx as int) < old(self).nodes@.len()
                    &&& !old(self).live().contains(idx as int)
                    &&& final(self).shape == old(self).shape
                    &&& final(self).root == old(self).root
                    &&& final(self).best == old(self).best
                    &&& final(self).is_bid == old(self).is_bid
                    &&& final(self).capacity == old(self).capacity
                    &&& final(self).version == old(self).version
                    &&& final(self).used == old(self).used + 1
                    &&& final(self).nodes@.len() == old(self).nodes@.len()
                    &&& (forall|j: int|
                        0 <= j < old(self).nodes@.len() && j != idx as int
                            ==> final(self).nodes@[j] == old(self).nodes@[j])
                    &&& final(self).free_chain_ok()
                    &&& !final(self).free_list@.contains(idx as int)
                    &&& (forall|j: int|
                        0 <= j < old(self).nodes@.len() && j != idx as int ==> (
                        old(self).live().contains(j) <==> !final(self).free_list@.contains(j)))
                    &&& final(self).used as int == final(self).capacity
                        - final(self).free_list@.len()
                },
                Err(e) => {
                    &&& e == SlabError::NoFreeNodes
                    &&& *final(self) == *old(self)
                    &&& old(self).used == old(self).capacity
                },
            },
    {
        if self.free_head == IDX_NULL && self.used < self.capacity {
            // Impossible under the invariant: the free-list length accounts for
            // every slot outside the tree. Kept as the defensive repair path of
            // the allocator; a linear scan afterwards could find nothing either.
            self.rebuild_freelist();
            proof {
                assert(false);
            }
        }
        if self.free_head == IDX_NULL {
            proof {
                assert(self.free_list@.len() == 0);
            }
            return Err(SlabError::NoFreeNodes);
        }
        let ghost fs = self.free_list@;
        let idx = self.free_head;
        proof {
            assert(fs[0] == idx as int);
            assert((idx as int) < self.nodes@.len());
        }
        let nxt = self.nodes[idx as usize].next;
        self.nodes[idx as usize].next = IDX_NULL;
        self.nodes[idx as usize].prev = IDX_NULL;
        self.free_head = nxt;
        self.used = self.used + 1;
        proof {
            self.free_list@ = fs.subrange(1, fs.len() as int);
            let fs2 = self.free_list@;
            assert forall|k: int| 0 <= k < fs2.len() implies 0 <= #[trigger] fs2[k]
                < self.nodes@.len() && self.nodes@[fs2[k]].next as int == (if k + 1 < fs2.len() {
                fs2[k + 1]
            } else {
                IDX_NULL as int
            }) by {
                assert(fs2[k] == fs[k + 1]);
                assert(fs[k + 1] != fs[0]);
            }
            assert(fs2.len() > 0 ==> self.free_head as int == fs2[0]) by {
                if fs2.len() > 0 {
                    assert(fs2[0] == fs[1]);
                }
            }
            assert(fs2.len() == 0 ==> self.free_head == IDX_NULL);
            assert(fs2.no_duplicates());
            assert(!fs2.contains(idx as int)) by {
                if fs2.contains(idx as int) {
                    let k = choose|k: int| 0 <= k < fs2.len() && fs2[k] == idx as int;
                    assert(fs[k + 1] == fs[0]);
                }
            }
            assert forall|j: int|
                0 <= j < old(self).nodes@.len() && j != idx as int implies (old(
                self,
            ).live().contains(j) <==> !fs2.contains(j)) by {
                if fs.contains(j) {
                    let k = choose|k: int| 0 <= k < fs.len() && fs[k] == j;
                    assert(k != 0);
                    assert(fs2[k - 1] == j);
                    assert(fs2.contains(j));
                }
                if fs2.contains(j) {
                    let k = choose|k: int| 0 <= k < fs2.len() && fs2[k] == j;
                    assert(fs[k + 1] == j);
                    assert(fs.contains(j));
                }
            }
        }
        Ok(idx)
    }

    /// Allocates a record, fills it with the given order, and attaches it to
    /// the search tree, updating the cached best in constant time. Fails with
    /// `NoFreeNodes` exactly when every record is already live.
    pub fn insert_order(&mut self, price_ticks: u64, base_qty: u64, oo: Key, ts: u64) -> (r:
        Result<(), SlabError>)
        requires
            old(self).wf(),
            base_qty > 0,
        ensures
            final(self).is_bid == old(self).is_bid,
            final(self).capacity == old(self).capacity,
            match r {
                Ok(()) => {
                    &&& final(self).wf()
                    &&& old(self).used < old(self).capacity
                    &&& final(self).used == old(self).used + 1
                    &&& final(self).book_qty() == old(self).book_qty() + base_qty
                    &&& (exists|k: int|
                        {
                            &&& 0 <= k < final(self).nodes@.len()
                            &&& !old(self).live().contains(k)
                            &&& final(self).live() == old(self).live().insert(k)
                            &&& final(self).nodes@[k].price_ticks == price_ticks
                            &&& final(self).nodes@[k].base_qty == base_qty
                            &&& final(self).nodes@[k].oo == oo
                            &&& final(self).nodes@[k].ts == ts
                        })
                    &&& (forall|j: int|
                        old(self).live().contains(j) ==> data_eq(
                            final(self).nodes@[j],
                            old(self).nodes@[j],
                        ))
                },
                Err(e) => {
                    &&& e == SlabError::NoFreeNodes
                    &&& *final(self) == *old(self)
                    &&& old(self).used == old(self).capacity
                },
            },
    {
        let idx = match self.allocate() {
            Ok(i) => i,
            Err(e) => {
                return Err(e);
            },
        };
        proof {
            lemma_shape_in_range(old(self).nodes@, old(self).shape@, old(self).root);
        }
        let n = SlabNode {
            price_ticks,
            base_qty,
            oo,
            ts,
            parent: IDX_NULL,
            left: IDX_NULL,
            right: IDX_NULL,
            next: IDX_NULL,
            prev: IDX_NULL,
            flags: 0,
        };
        self.nodes[idx as usize] = n;
        let ghost mid = *self;
        proof {
            assert forall|j: int| old(self).live().contains(j) implies 0 <= j
                < mid.nodes@.len() && mid.nodes@[j] == old(self).nodes@[j] by {}
            lemma_shape_frame(old(self).nodes@, mid.nodes@, old(self).shape@, old(self).root);
            assert forall|k: int| 0 <= k < mid.free_list@.len() implies 0
                <= #[trigger] mid.free_list@[k] < mid.nodes@.len()
                && mid.nodes@[mid.free_list@[k]].next as int == (if k + 1 < mid.free_list@.len() {
                mid.free_list@[k + 1]
            } else {
                IDX_NULL as int
            }) by {
                assert(mid.free_list@[k] != idx as int);
            }
        }
        if self.root == IDX_NULL {
            proof {
                match self.shape@ {
                    Shape::Leaf => {},
                    Shape::Branch { .. } => {
                        assert(false);
                    },
                }
            }
            self.root = idx;
            self.best = idx;
            proof {
                reveal_with_fuel(sub_qty, 3);
                self.shape@ = Shape::Branch {
                    left: Box::new(Shape::Leaf),
                    idx: idx as int,
                    right: Box::new(Shape::Leaf),
                };
                assert(shape_wf(self.nodes@, Shape::Leaf, IDX_NULL));
                assert(shape_wf(self.nodes@, self.shape@, self.root));
                assert(self.live() =~= old(self).live().insert(idx as int));
                assert(old(self).live() =~= Set::empty());
                assert forall|j: int|
                    0 <= j < self.nodes@.len() implies (self.live().contains(j)
                    <==> !self.free_list@.contains(j)) by {
                    if j != idx as int {
                        assert(!old(self).live().contains(j));
                    }
                }
                assert(self.wf());
                assert(sub_qty(self.nodes@, Shape::Leaf) == 0);
                assert(old(self).book_qty() == 0);
                assert(self.book_qty() == base_qty);
            }
            Ok(())
        } else {
            proof {
                match self.shape@ {
                    Shape::Leaf => {
                        assert(false);
                    },
                    Shape::Branch { .. } => {},
                }
            }
            let ghost pre = *self;
            let g = insert_at(&mut self.nodes, self.root, idx, Ghost(self.shape@));
            proof {
                self.shape@ = g@;
            }
            let bp = self.nodes[self.best as usize].price_ticks;
            let better = if self.is_bid {
                price_ticks > bp
            } else {
                price_ticks < bp
            };
            let ghost old_best = self.best;
            if better {
                self.best = idx;
            }
            proof {
                reveal_with_fuel(sub_qty, 3);
                assert(shape_wf(self.nodes@, self.shape@, self.root));
                assert(self.live() =~= old(self).live().insert(idx as int));
                // free records were not touched by the attach
                assert forall|k: int| 0 <= k < self.free_list@.len() implies 0
                    <= #[trigger] self.free_list@[k] < self.nodes@.len()
                    && self.nodes@[self.free_list@[k]].next as int == (if k + 1
                    < self.free_list@.len() {
                    self.free_list@[k + 1]
                } else {
                    IDX_NULL as int
                }) by {
                    assert(!pre.live().contains(self.free_list@[k]));
                    assert(self.free_list@[k] != idx as int);
                    assert(self.nodes@[self.free_list@[k]] == mid.nodes@[self.free_list@[k]]);
                }
                assert forall|j: int|
                    0 <= j < self.nodes@.len() implies (self.live().contains(j)
                    <==> !self.free_list@.contains(j)) by {
                    if j != idx as int {
                        assert(old(self).live().contains(j) <==> !self.free_list@.contains(j));
                    }
                }
                assert forall|j: int| old(self).live().contains(j) implies data_eq(
                    self.nodes@[j],
                    old(self).nodes@[j],
                ) by {
                    assert(data_eq(self.nodes@[j], mid.nodes@[j]));
                }
                // the cached best still names the side's extreme
                assert(self.root != IDX_NULL);
                assert(self.live().contains(self.best as int));
                assert forall|j: int| self.live().contains(j) implies self.at_least_as_good(
                    self.nodes@[self.best as int].price_ticks,
                    self.nodes@[j].price_ticks,
                ) by {
                    assert(data_eq(self.nodes@[old_best as int], old(self).nodes@[old_best as int]));
                    if j != idx as int {
                        assert(old(self).live().contains(j));
                        assert(data_eq(self.nodes@[j], old(self).nodes@[j]));
                        assert(old(self).at_least_as_good(
                            old(self).nodes@[old_best as int].price_ticks,
                            old(self).nodes@[j].price_ticks,
                        ));
                    }
                }
                assert(self.wf());
                assert forall|j: int| #[trigger] sub_idxs(pre.shape@).contains(j) implies 0 <= j
                    < old(self).nodes@.len() && 0 <= j < mid.nodes@.len()
                    && mid.nodes@[j].base_qty == old(self).nodes@[j].base_qty by {
                    assert(j != idx as int);
                }
                lemma_sub_qty_frame(old(self).nodes@, mid.nodes@, pre.shape@);
                assert(mid.nodes@[idx as int].base_qty == base_qty);
                assert(self.book_qty() == old(self).book_qty() + base_qty);
            }
            Ok(())
        }
    }

    /// Extends the slab with `new_cap - capacity` blank records, chaining
    /// each new slot onto the head of the free list. Live records and the
    /// tree are untouched; a `new_cap` equal to the capacity is a no-op.
    #[verifier::rlimit(100)]
    pub fn grow(&mut self, new_cap: u32) -> (r: Result<(), SlabError>)
        requires
            old(self).wf(),
            new_cap < IDX_NULL,
        ensures
            final(self).is_bid == old(self).is_bid,
            match r {
                Ok(()) => {
                    &&& new_cap >= old(self).capacity
                    &&& final(self).wf()
                    &&& final(self).capacity == new_cap
                    &&& final(self).used == old(self).used
                    &&& final(self).live() == old(self).live()
                    &&& final(self).root == old(self).root
                    &&& final(self).best == old(self).best
                    &&& (forall|j: int|
                        0 <= j < old(self).nodes@.len() ==> final(self).nodes@[j] == old(
                            self,
                        ).nodes@[j])
                    &&& final(self).free_list@.len() == old(self).free_list@.len() + (new_cap
                        - old(self).capacity)
                    &&& final(self).book_qty() == old(self).book_qty()
                },
                Err(e) => {
                    &&& e == SlabError::InvalidGrow
                    &&& *final(self) == *old(self)
                    &&& new_cap < old(self).capacity
                },
            },
    {
        if new_cap < self.capacity {
            return Err(SlabError::InvalidGrow);
        }
        proof {
            lemma_shape_in_range(old(self).nodes@, old(self).shape@, old(self).root);
        }
        let ghost old_cap = self.capacity;
        let mut i: u32 = self.capacity;
        while i < new_cap
            invariant
                old(self).capacity <= i <= new_cap,
                new_cap < IDX_NULL,
                self.nodes@.len() == i as int,
                self.root == old(self).root,
                self.best == old(self).best,
                self.shape == old(self).shape,
                self.used == old(self).used,
                self.is_bid == old(self).is_bid,
                self.capacity == old(self).capacity,
                self.version == old(self).version,
                old(self).wf(),
                forall|j: int|
                    0 <= j < old(self).nodes@.len() ==> self.nodes@[j] == old(self).nodes@[j],
                forall|j: int|
                    #[trigger] old(self).live().contains(j) ==> 0 <= j < old(
                        self,
                    ).capacity as int,
                self.free_list@.len() == old(self).free_list@.len() + (i - old(self).capacity),
                self.free_list@.len() == 0 <==> self.free_head == IDX_NULL,
                self.free_list@.len() > 0 ==> self.free_head as int == self.free_list@[0],
                forall|k: int|
                    0 <= k < self.free_list@.len() ==> {
                        &&& 0 <= #[trigger] self.free_list@[k] < i as int
                        &&& self.nodes@[self.free_list@[k]].next as int == (if k + 1
                            < self.free_list@.len() {
                            self.free_list@[k + 1]
                        } else {
                            IDX_NULL as int
                        })
                    },
                self.free_list@.no_duplicates(),
                forall|j: int|
                    0 <= j < i as int ==> (old(self).live().contains(j)
                        <==> !self.free_list@.contains(j)),
            decreases new_cap - i,
        {
            let mut n = SlabNode::blank();
            n.next = self.free_head;
            self.nodes.push(n);
            self.free_head = i;
            let ghost fs = self.free_list@;
            proof {
                self.free_list@ = seq![i as int] + fs;
                let fs2 = self.free_list@;
                assert forall|k: int| 0 <= k < fs2.len() implies 0 <= #[trigger] fs2[k] < (i as int
                    + 1) && self.nodes@[fs2[k]].next as int == (if k + 1 < fs2.len() {
                    fs2[k + 1]
                } else {
                    IDX_NULL as int
                }) by {
                    if k > 0 {
                        assert(fs2[k] == fs[k - 1]);
                        if k < fs.len() {
                            assert(fs2[k + 1] == fs[k]);
                        }
                    }
                }
                assert(fs2.no_duplicates()) by {
                    assert forall|a: int, b: int|
                        0 <= a < fs2.len() && 0 <= b < fs2.len() && a != b implies fs2[a]
                        != fs2[b] by {
                        if a > 0 && b > 0 {
                            assert(fs2[a] == fs[a - 1]);
                            assert(fs2[b] == fs[b - 1]);
                        }
                    }
                }
                assert forall|j: int|
                    0 <= j < i as int + 1 implies (old(self).live().contains(j)
                    <==> !fs2.contains(j)) by {
                    assert forall|x: int| fs2.contains(x) implies x == i as int || fs.contains(
                        x,
                    ) by {
                        let k = choose|k: int| 0 <= k < fs2.len() && fs2[k] == x;
                        if k > 0 {
                            assert(fs[k - 1] == x);
                        }
                    }
                    if j == i as int {
                        assert(fs2[0] == i as int);
                        assert(!old(self).live().contains(j));
                    } else if j < i as int {
                        if fs.contains(j) {
                            let k = choose|k: int| 0 <= k < fs.len() && fs[k] == j;
                            assert(fs2[k + 1] == j);
                        }
                    }
                }
            }
            i = i + 1;
        }
        self.capacity = new_cap;
        proof {
            reveal_with_fuel(sub_qty, 3);
            assert forall|j: int| sub_idxs(self.shape@).contains(j) implies 0 <= j
                < self.nodes@.len() && tree_eq(self.nodes@[j], old(self).nodes@[j]) by {}
            lemma_shape_frame(old(self).nodes@, self.nodes@, self.shape@, self.root);
            lemma_nodup_len_le(self.free_list@, self.capacity as int);
            assert forall|j: int| #[trigger] sub_idxs(self.shape@).contains(j) implies 0 <= j
                < old(self).nodes@.len() && 0 <= j < self.nodes@.len() && self.nodes@[j].base_qty
                == old(self).nodes@[j].base_qty by {}
            lemma_sub_qty_frame(old(self).nodes@, self.nodes@, self.shape@);
            assert(self.best_ok()) by {
                if self.root != IDX_NULL {
                    assert(old(self).live().contains(self.best as int));
                    assert(self.nodes@[self.best as int] == old(self).nodes@[self.best as int]);
                }
            }
            assert(self.wf());
        }
        Ok(())
    }

    /// Makes sure at least `need_free` slots can still be allocated, growing
    /// the slab in bounded steps of at most 64 records up to `max_cap`. An
    /// uninitialized slab (capacity zero) is left alone. Fails with
    /// `NoGrowth` exactly when no growth is possible and the free estimate
    /// falls short.
    pub fn ensure_free_nodes_grow(&mut self, max_cap: u32, need_free: u32) -> (r: Result<
        (),
        SlabError,
    >)
        requires
            old(self).wf(),
            max_cap < IDX_NULL,
        ensures
            final(self).is_bid == old(self).is_bid,
            match r {
                Ok(()) => {
                    &&& final(self).wf()
                    &&& (old(self).capacity == 0 ==> *final(self) == *old(self))
                    &&& (old(self).capacity > 0 ==> final(self).capacity as int
                        - final(self).used as int >= need_free as int || final(self).capacity
                        >= max_cap)
                    &&& final(self).used == old(self).used
                    &&& final(self).live() == old(self).live()
                    &&& final(self).book_qty() == old(self).book_qty()
                    &&& final(self).capacity >= old(self).capacity
                    &&& (final(self).capacity <= max_cap || final(self).capacity == old(
                        self,
                    ).capacity)
                    &&& (old(self).capacity > 0 && old(self).capacity - old(self).used
                        >= need_free && old(self).used < old(self).capacity ==> *final(self)
                        == *old(self))
                    &&& (forall|j: int|
                        0 <= j < old(self).nodes@.len() ==> final(self).nodes@[j] == old(
                            self,
                        ).nodes@[j])
                },
                Err(e) => {
                    &&& e == SlabError::NoGrowth
                    &&& *final(self) == *old(self)
                },
            },
            r is Err <==> (old(self).capacity > 0 && old(self).capacity >= max_cap && !(old(
                self,
            ).capacity - old(self).used >= need_free && old(self).used < old(self).capacity)),
    {
        if self.capacity == 0 {
            return Ok(());
        }
        // Under the invariant the free-list head is null exactly when the slab
        // is full, so the original's repair-before-grow step has nothing to do.
        let free_est = self.capacity - self.used;
        if free_est >= need_free && self.free_head != IDX_NULL {
            return Ok(());
        }
        let mut new_cap: u32 = self.capacity;
        loop
            invariant_except_break
                old(self).capacity <= new_cap,
                new_cap <= max_cap || new_cap == old(self).capacity,
                self == old(self),
                old(self).wf(),
                max_cap < IDX_NULL,
            ensures
                self == old(self),
                old(self).capacity <= new_cap,
                new_cap < IDX_NULL,
                new_cap >= max_cap || new_cap as int - self.used as int >= need_free as int,
                max_cap > old(self).capacity ==> new_cap > old(self).capacity,
                new_cap <= max_cap || new_cap == old(self).capacity,
            decreases max_cap - new_cap,
        {
            if new_cap >= max_cap {
                break ;
            }
            let step = if max_cap - new_cap < 64 {
                max_cap - new_cap
            } else {
                64
            };
            new_cap = new_cap + step;
            if new_cap - self.used >= need_free {
                break ;
            }
        }
        if new_cap == self.capacity {
            return Err(SlabError::NoGrowth);
        }
        match self.grow(new_cap) {
            Ok(()) => Ok(()),
            Err(_) => {
                proof {
                    assert(false);
                }
                Err(SlabError::NoGrowth)
            },
        }
    }

    /// Detaches the record `target` from the tree, returns its slot to the
    /// free list, and recomputes the cached best by walking from the root
    /// toward the side's extreme.
    fn remove_idx(&mut self, target: u32)
        requires
            old(self).wf(),
            old(self).live().contains(target as int),
        ensures
            final(self).wf(),
            final(self).is_bid == old(self).is_bid,
            final(self).capacity == old(self).capacity,
            final(self).used == old(self).used - 1,
            final(self).book_qty() == old(self).book_qty() - old(self).nodes@[target
                as int].base_qty,
            forall|j: int|
                final(self).live().contains(j) && j != target as int ==> data_eq(
                    final(self).nodes@[j],
                    old(self).nodes@[j],
                ),
            exists|freed: int|
                {
                    &&& old(self).live().contains(freed)
                    &&& final(self).live() == old(self).live().remove(freed)
                    &&& (freed == target as int || data_eq(
                        final(self).nodes@[target as int],
                        old(self).nodes@[freed],
                    ))
                },
    {
        proof {
            lemma_shape_in_range(old(self).nodes@, old(self).shape@, old(self).root);
            match self.shape@ {
                Shape::Leaf => {
                    assert(false);
                },
                Shape::Branch { .. } => {},
            }
        }
        let (nr, freed, g) = delete_at(&mut self.nodes, self.root, target, Ghost(self.shape@));
        let ghost n1 = self.nodes@;
        self.root = nr;
        proof {
            self.shape@ = g@;
        }
        if nr != IDX_NULL {
            proof {
                lemma_shape_in_range(n1, g@, nr);
                match g@ {
                    Shape::Leaf => {
                        assert(false);
                    },
                    Shape::Branch { .. } => {},
                }
                assert(sub_idxs(g@).contains(nr as int));
            }
            self.nodes[nr as usize].parent = IDX_NULL;
        }
        let ghost n2 = self.nodes@;
        proof {
            assert(!old(self).free_list@.contains(freed as int));
            assert((freed as int) < self.nodes@.len());
            lemma_nodup_missing_len(
                old(self).free_list@,
                old(self).capacity as int,
                freed as int,
            );
        }
        self.nodes[freed as usize].next = self.free_head;
        self.free_head = freed;
        self.used = self.used - 1;
        let ghost fs = self.free_list@;
        proof {
            self.free_list@ = seq![freed as int] + fs;
            let fs2 = self.free_list@;
            assert(fs2[0] == freed as int);
            assert forall|k: int| 0 <= k < fs2.len() implies 0 <= #[trigger] fs2[k]
                < self.nodes@.len() && self.nodes@[fs2[k]].next as int == (if k + 1 < fs2.len() {
                fs2[k + 1]
            } else {
                IDX_NULL as int
            }) by {
                if k > 0 {
                    assert(fs2[k] == fs[k - 1]);
                    assert(!sub_idxs(g@).contains(fs[k - 1]));
                    assert(!old(self).live().contains(fs[k - 1]));
                    assert(fs[k - 1] != freed as int);
                    assert(self.nodes@[fs[k - 1]] == old(self).nodes@[fs[k - 1]]);
                    if k < fs.len() {
                        assert(fs2[k + 1] == fs[k]);
                    }
                }
            }
            assert forall|j: int| fs2.contains(j) implies j == freed as int || fs.contains(
                j,
            ) by {
                let k = choose|k: int| 0 <= k < fs2.len() && fs2[k] == j;
                if k > 0 {
                    assert(fs[k - 1] == j);
                }
            }
            assert forall|j: int| fs.contains(j) implies fs2.contains(j) by {
                let k = choose|k: int| 0 <= k < fs.len() && fs[k] == j;
                assert(fs2[k + 1] == j);
            }
            assert(fs2.contains(freed as int));
            assert(fs2.no_duplicates()) by {
                assert forall|a: int, b: int|
                    0 <= a < fs2.len() && 0 <= b < fs2.len() && a != b implies fs2[a] != fs2[b] by {
                    if a > 0 && b > 0 {
                        assert(fs2[a] == fs[a - 1]);
                        assert(fs2[b] == fs[b - 1]);
                    }
                }
            }
        }
        if self.root == IDX_NULL {
            self.best = IDX_NULL;
        } else {
            proof {
                assert forall|j: int| sub_idxs(g@).contains(j) implies 0 <= j
                    < self.nodes@.len() && tree_eq(self.nodes@[j], n1[j]) by {
                    lemma_shape_in_range(n1, g@, nr);
                    assert(j != freed as int);
                    if j != nr as int {
                        assert(self.nodes@[j] == n1[j]);
                    }
                }
                lemma_shape_frame(n1, self.nodes@, g@, nr);
            }
            let b = extreme(&self.nodes, self.root, self.is_bid, Ghost(self.shape@));
            self.best = b;
        }
        proof {
            reveal_with_fuel(sub_qty, 3);
            assert(shape_wf(self.nodes@, self.shape@, self.root)) by {
                if self.root != IDX_NULL {
                } else {
                    match g@ {
                        Shape::Leaf => {},
                        Shape::Branch { .. } => {
                            assert(false);
                        },
                    }
                }
            }
            assert(self.live() == old(self).live().remove(freed as int));
            assert forall|j: int|
                0 <= j < self.nodes@.len() implies (self.live().contains(j)
                <==> !self.free_list@.contains(j)) by {
                if j == freed as int {
                    assert(self.free_list@.contains(j));
                    assert(!self.live().contains(j));
                } else {
                    assert(self.free_list@.contains(j) <==> fs.contains(j));
                    assert(old(self).live().contains(j) <==> !fs.contains(j));
                }
            }
            assert forall|j: int|
                self.live().contains(j) && j != target as int implies data_eq(
                self.nodes@[j],
                old(self).nodes@[j],
            ) by {
                assert(data_eq(n1[j], old(self).nodes@[j]));
                assert(j != freed as int);
            }
            assert forall|j: int| self.live().contains(j) implies self.nodes@[j].base_qty > 0 by {
                if j == target as int {
                    assert(data_eq(n1[j], old(self).nodes@[freed as int]));
                    assert(old(self).live().contains(freed as int));
                } else {
                    assert(data_eq(self.nodes@[j], old(self).nodes@[j]));
                }
            }
            assert(self.best_ok()) by {
                if self.root != IDX_NULL {
                    assert(self.live().contains(self.best as int));
                }
            }
            assert(self.wf());
            assert(freed == target || data_eq(self.nodes@[target as int], old(self).nodes@[freed as int]));
            assert forall|j: int| #[trigger] sub_idxs(g@).contains(j) implies 0 <= j < n1.len()
                && 0 <= j < self.nodes@.len() && self.nodes@[j].base_qty == n1[j].base_qty by {
                assert(j != freed as int);
            }
            lemma_sub_qty_frame(n1, self.nodes@, g@);
            assert(self.book_qty() == old(self).book_qty() - old(self).nodes@[target
                as int].base_qty);
        }
    }

    /// Reduces the best record's remaining quantity by `qty`; when `qty`
    /// meets or exceeds it, the record is deleted instead. Does nothing on an
    /// empty side.
    pub fn consume_best_by(&mut self, qty: u64)
        requires
            old(self).wf(),
        ensures
            final(self).wf(),
            final(self).is_bid == old(self).is_bid,
            final(self).capacity == old(self).capacity,
            forall|j: int|
                final(self).live().contains(j) ==> (exists|i: int|
                    old(self).live().contains(i) && ident_eq(
                        final(self).nodes@[j],
                        old(self).nodes@[i],
                    ) && final(self).nodes@[j].base_qty <= old(self).nodes@[i].base_qty),
            old(self).live().is_empty() ==> *final(self) == *old(self),
            !old(self).live().is_empty() && qty >= old(self).nodes@[old(self).best
                as int].base_qty ==> {
                &&& final(self).used == old(self).used - 1
                &&& final(self).book_qty() == old(self).book_qty() - old(self).nodes@[old(
                    self,
                ).best as int].base_qty
                &&& (forall|j: int|
                    final(self).live().contains(j) && j != old(self).best as int ==> data_eq(
                        final(self).nodes@[j],
                        old(self).nodes@[j],
                    ))
                &&& (exists|freed: int|
                    {
                        &&& old(self).live().contains(freed)
                        &&& final(self).live() == old(self).live().remove(freed)
                        &&& (freed == old(self).best as int || data_eq(
                            final(self).nodes@[old(self).best as int],
                            old(self).nodes@[freed],
                        ))
                    })
            },
            !old(self).live().is_empty() && qty < old(self).nodes@[old(self).best
                as int].base_qty ==> {
                &&& final(self).used == old(self).used
                &&& final(self).book_qty() == old(self).book_qty() - qty
                &&& final(self).live() == old(self).live()
                &&& final(self).best == old(self).best
                &&& final(self).nodes@[old(self).best as int].base_qty == old(self).nodes@[old(
                    self,
                ).best as int].base_qty - qty
                &&& final(self).nodes@[old(self).best as int].price_ticks == old(
                    self,
                ).nodes@[old(self).best as int].price_ticks
                &&& final(self).nodes@[old(self).best as int].oo == old(self).nodes@[old(
                    self,
                ).best as int].oo
                &&& final(self).nodes@[old(self).best as int].ts == old(self).nodes@[old(
                    self,
                ).best as int].ts
                &&& final(self).root == old(self).root
                &&& final(self).free_head == old(self).free_head
                &&& final(self).free_list == old(self).free_list
                &&& (forall|j: int|
                    old(self).live().contains(j) && j != old(self).best as int
                        ==> final(self).nodes@[j] == old(self).nodes@[j])
            },
    {
        proof {
            self.lemma_empty_iff();
        }
        if self.best == IDX_NULL {
            proof {
                if self.root != IDX_NULL {
                    lemma_shape_in_range(self.nodes@, self.shape@, self.root);
                    assert(self.live().contains(self.best as int));
                }
                assert forall|j: int| self.live().contains(j) implies (exists|i: int|
                    old(self).live().contains(i) && ident_eq(self.nodes@[j], old(self).nodes@[i])
                        && self.nodes@[j].base_qty <= old(self).nodes@[i].base_qty) by {
                    assert(old(self).live().contains(j));
                    assert(ident_eq(self.nodes@[j], old(self).nodes@[j]));
                }
            }
            return ;
        }
        proof {
            assert(self.live().contains(self.best as int));
            lemma_shape_in_range(self.nodes@, self.shape@, self.root);
        }
        let best = self.best;
        let have = self.nodes[best as usize].base_qty;
        if qty >= have {
            self.remove_idx(best);
            proof {
                let freed = choose|freed: int|
                    old(self).live().contains(freed) && self.live() == old(self).live().remove(
                        freed,
                    ) && (freed == best as int || data_eq(
                        self.nodes@[best as int],
                        old(self).nodes@[freed],
                    ));
                assert forall|j: int| self.live().contains(j) implies (exists|i: int|
                    old(self).live().contains(i) && ident_eq(self.nodes@[j], old(self).nodes@[i])
                        && self.nodes@[j].base_qty <= old(self).nodes@[i].base_qty) by {
                    assert(old(self).live().contains(j));
                    if j == best as int {
                        assert(freed != j);
                        assert(data_eq(self.nodes@[j], old(self).nodes@[freed]));
                        assert(old(self).live().contains(freed) && ident_eq(
                            self.nodes@[j],
                            old(self).nodes@[freed],
                        ) && self.nodes@[j].base_qty <= old(self).nodes@[freed].base_qty);
                    } else {
                        assert(data_eq(self.nodes@[j], old(self).nodes@[j]));
                        assert(old(self).live().contains(j) && ident_eq(
                            self.nodes@[j],
                            old(self).nodes@[j],
                        ) && self.nodes@[j].base_qty <= old(self).nodes@[j].base_qty);
                    }
                }
            }
        } else {
            self.nodes[best as usize].base_qty = have - qty;
            proof {
                reveal_with_fuel(sub_qty, 3);
                assert forall|j: int| sub_idxs(self.shape@).contains(j) implies 0 <= j
                    < self.nodes@.len() && tree_eq(self.nodes@[j], old(self).nodes@[j]) by {}
                lemma_shape_frame(old(self).nodes@, self.nodes@, self.shape@, self.root);
                assert(self.wf());
                assert forall|j: int| self.live().contains(j) implies (exists|i: int|
                    old(self).live().contains(i) && ident_eq(self.nodes@[j], old(self).nodes@[i])
                        && self.nodes@[j].base_qty <= old(self).nodes@[i].base_qty) by {
                    assert(old(self).live().contains(j) && ident_eq(
                        self.nodes@[j],
                        old(self).nodes@[j],
                    ) && self.nodes@[j].base_qty <= old(self).nodes@[j].base_qty);
                }
                assert forall|k: int| #[trigger] sub_idxs(self.shape@).contains(k) && k != best
                    as int implies 0 <= k < self.nodes@.len() && self.nodes@[k].base_qty == old(
                    self,
                ).nodes@[k].base_qty by {}
                lemma_sub_qty_update(
                    old(self).nodes@,
                    self.nodes@,
                    self.shape@,
                    self.root,
                    best as int,
                );
                assert(self.book_qty() == old(self).book_qty() - qty);
            }
        }
    }

    /// Depth-first search for a record owned by `target`.
    fn find_owner_at(nodes: &Vec<SlabNode>, cur: u32, target: Key, Ghost(sub): Ghost<Shape>) -> (r:
        Option<u32>)
        requires
            shape_wf(nodes@, sub, cur),
        ensures
            match r {
                Some(i) => sub_idxs(sub).contains(i as int) && nodes@[i as int].oo == target,
                None => forall|j: int| sub_idxs(sub).contains(j) ==> nodes@[j].oo != target,
            },
        decreases sub,
    {
        if cur == IDX_NULL {
            proof {
                match sub {
                    Shape::Leaf => {},
                    Shape::Branch { .. } => {
                        assert(false);
                    },
                }
            }
            return None;
        }
        let ghost (lsh, rsh) = match sub {
            Shape::Branch { left, right, .. } => (*left, *right),
            Shape::Leaf => (Shape::Leaf, Shape::Leaf),
        };
        proof {
            lemma_shape_in_range(nodes@, sub, cur);
            match sub {
                Shape::Leaf => {
                    assert(false);
                },
                Shape::Branch { idx: i0, .. } => {
                    assert(i0 == cur as int);
                    assert(sub_idxs(sub) == sub_idxs(lsh).union(sub_idxs(rsh)).insert(cur as int));
                },
            }
        }
        if nodes[cur as usize].oo == target {
            return Some(cur);
        }
        let l = nodes[cur as usize].left;
        match Self::find_owner_at(nodes, l, target, Ghost(lsh)) {
            Some(i) => Some(i),
            None => {
                let rr = nodes[cur as usize].right;
                Self::find_owner_at(nodes, rr, target, Ghost(rsh))
            },
        }
    }

    /// After a deletion, exactly one live entry is gone: the one at index
    /// `k`, whose slot `freed` went back to the free list; every other live
    /// entry keeps its order data. When `freed` differs from `k`, the record
    /// at `k` now carries the order data that `freed` held before.
    pub open spec fn removed_entry_ok(pre: Slab, post: Slab, target: Key, k: int, freed: int) -> bool {
        &&& pre.live().contains(k)
        &&& pre.nodes@[k].oo == target
        &&& pre.live().contains(freed)
        &&& post.live() == pre.live().remove(freed)
        &&& (forall|j: int|
            post.live().contains(j) && j != k ==> data_eq(post.nodes@[j], pre.nodes@[j]))
        &&& (freed == k || data_eq(post.nodes@[k], pre.nodes@[freed]))
    }

    /// Scans the whole tree for the first record owned by `target` and
    /// deletes it. Returns whether a record was found; a missing record is
    /// not an error.
    pub fn remove_by_oo(&mut self, target: Key) -> (r: bool)
        requires
            old(self).wf(),
        ensures
            final(self).wf(),
            final(self).is_bid == old(self).is_bid,
            final(self).capacity == old(self).capacity,
            r <==> (exists|j: int|
                old(self).live().contains(j) && old(self).nodes@[j].oo == target),
            !r ==> *final(self) == *old(self),
            r ==> final(self).used == old(self).used - 1,
            r ==> (exists|k: int, freed: int|
                Slab::removed_entry_ok(*old(self), *final(self), target, k, freed)),
    {
        let found = Self::find_owner_at(&self.nodes, self.root, target, Ghost(self.shape@));
        match found {
            Some(i) => {
                self.remove_idx(i);
                proof {
                    let freed = choose|freed: int|
                        {
                            &&& old(self).live().contains(freed)
                            &&& self.live() == old(self).live().remove(freed)
                            &&& (freed == i as int || data_eq(
                                self.nodes@[i as int],
                                old(self).nodes@[freed],
                            ))
                        };
                    assert(Slab::removed_entry_ok(*old(self), *self, target, i as int, freed));
                }
                true
            },
            None => false,
        }
    }

    /// Rebuilds the free list from scratch: walks the tree to find the live
    /// set, then rechains every other slot, lowest index first, resetting
    /// each to a blank record. The repair path for a region whose free list
    /// was lost to a partially completed growth step; under this slab's
    /// invariant it reproduces the state it found.
    #[verifier::rlimit(100)]
    pub fn rebuild_freelist(&mut self)
        requires
            old(self).wf(),
        ensures
            final(self).wf(),
            final(self).used == old(self).used,
            final(self).capacity == old(self).capacity,
            final(self).is_bid == old(self).is_bid,
            final(self).root == old(self).root,
            final(self).best == old(self).best,
            final(self).live() == old(self).live(),
            forall|j: int|
                old(self).live().contains(j) ==> final(self).nodes@[j] == old(self).nodes@[j],
    {
        let marks = self.live_marks();
        let ghost old_fs = self.free_list@;
        let mut free_head: u32 = IDX_NULL;
        let ghost fs = Seq::<int>::empty();
        let mut i: u32 = self.capacity;
        proof {
            lemma_shape_in_range(old(self).nodes@, old(self).shape@, old(self).root);
        }
        while i > 0
            invariant
                0 <= i <= old(self).capacity,
                old(self).wf(),
                marks@.len() == old(self).capacity as int,
                forall|j: int|
                    0 <= j < marks@.len() ==> (marks@[j] <==> old(self).live().contains(j)),
                forall|j: int|
                    #[trigger] old(self).live().contains(j) ==> 0 <= j < old(
                        self,
                    ).capacity as int,
                self.capacity == old(self).capacity,
                self.used == old(self).used,
                self.root == old(self).root,
                self.best == old(self).best,
                self.is_bid == old(self).is_bid,
                self.version == old(self).version,
                self.shape == old(self).shape,
                self.free_list == old(self).free_list,
                self.nodes@.len() == old(self).nodes@.len(),
                forall|j: int|
                    0 <= j < i as int ==> self.nodes@[j] == old(self).nodes@[j],
                forall|j: int|
                    #[trigger] old(self).live().contains(j) ==> self.nodes@[j] == old(
                        self,
                    ).nodes@[j],
                fs.len() == 0 <==> free_head == IDX_NULL,
                fs.len() > 0 ==> free_head as int == fs[0],
                forall|k: int|
                    0 <= k < fs.len() ==> {
                        &&& i as int <= #[trigger] fs[k] < self.nodes@.len()
                        &&& self.nodes@[fs[k]].next as int == (if k + 1 < fs.len() {
                            fs[k + 1]
                        } else {
                            IDX_NULL as int
                        })
                    },
                fs.no_duplicates(),
                forall|j: int|
                    i as int <= j < self.capacity as int ==> (old(self).live().contains(j)
                        <==> !fs.contains(j)),
            decreases i,
        {
            i = i - 1;
            if !marks[i as usize] {
                let mut n = SlabNode::blank();
                n.next = free_head;
                self.nodes[i as usize] = n;
                free_head = i;
                let ghost fs0 = fs;
                proof {
                    fs = seq![i as int] + fs0;
                    assert forall|k: int| 0 <= k < fs.len() implies i as int <= #[trigger] fs[k]
                        < self.nodes@.len() && self.nodes@[fs[k]].next as int == (if k + 1
                        < fs.len() {
                        fs[k + 1]
                    } else {
                        IDX_NULL as int
                    }) by {
                        if k > 0 {
                            assert(fs[k] == fs0[k - 1]);
                            if k < fs0.len() {
                                assert(fs[k + 1] == fs0[k]);
                            }
                        }
                    }
                    assert(fs.no_duplicates()) by {
                        assert forall|a: int, b: int|
                            0 <= a < fs.len() && 0 <= b < fs.len() && a != b implies fs[a]
                            != fs[b] by {
                            if a > 0 && b > 0 {
                                assert(fs[a] == fs0[a - 1]);
                                assert(fs[b] == fs0[b - 1]);
                            }
                        }
                    }
                    assert forall|j: int|
                        i as int <= j < self.capacity as int implies (old(self).live().contains(j)
                        <==> !fs.contains(j)) by {
                        assert forall|x: int| fs.contains(x) implies x == i as int
                            || fs0.contains(x) by {
                            let k = choose|k: int| 0 <= k < fs.len() && fs[k] == x;
                            if k > 0 {
                                assert(fs0[k - 1] == x);
                            }
                        }
                        if j == i as int {
                            assert(fs[0] == i as int);
                            assert(!old(self).live().contains(j));
                        } else if fs0.contains(j) {
                            let k = choose|k: int| 0 <= k < fs0.len() && fs0[k] == j;
                            assert(fs[k + 1] == j);
                        }
                    }
                    assert forall|j: int| #[trigger] old(self).live().contains(j) implies
                        self.nodes@[j] == old(self).nodes@[j] by {
                        assert(0 <= j < marks@.len());
                        assert(marks@[j]);
                        assert(j != i as int);
                    }
                }
            } else {
                proof {
                    assert(old(self).live().contains(i as int));
                    if fs.contains(i as int) {
                        let k = choose|k: int| 0 <= k < fs.len() && fs[k] == i as int;
                        assert(i as int <= fs[k]);
                        assert(false);
                    }
                }
            }
        }
        self.free_head = free_head;
        proof {
            self.free_list@ = fs;
            assert forall|x: int| fs.to_set().contains(x) implies old_fs.to_set().contains(x) by {
                assert(fs.contains(x));
                let k = choose|k: int| 0 <= k < fs.len() && fs[k] == x;
                assert(0 <= x < self.capacity as int);
                assert(!old(self).live().contains(x));
                assert(old_fs.contains(x));
            }
            assert forall|x: int| old_fs.to_set().contains(x) implies fs.to_set().contains(x) by {
                assert(old_fs.contains(x));
                let k = choose|k: int| 0 <= k < old_fs.len() && old_fs[k] == x;
                assert(0 <= x < self.capacity as int);
                assert(!old(self).live().contains(x));
                assert(fs.contains(x));
            }
            assert(fs.to_set() =~= old_fs.to_set());
            fs.unique_seq_to_set();
            old_fs.unique_seq_to_set();
            assert(fs.len() == old_fs.len());
            assert forall|j: int| sub_idxs(self.shape@).contains(j) implies 0 <= j
                < self.nodes@.len() && tree_eq(self.nodes@[j], old(self).nodes@[j]) by {}
            lemma_shape_frame(old(self).nodes@, self.nodes@, self.shape@, self.root);
            assert(self.best_ok()) by {
                if self.root != IDX_NULL {
                    assert(old(self).live().contains(self.best as int));
                }
            }
            assert(self.wf());
        }
    }

    /// Builds the live-set bitmap by walking the tree from the root.
    fn live_marks(&self) -> (marks: Vec<bool>)
        requires
            self.wf(),
        ensures
            marks@.len() == self.capacity as int,
            forall|j: int| 0 <= j < marks@.len() ==> (marks@[j] <==> self.live().contains(j)),
    {
        let mut marks: Vec<bool> = Vec::new();
        let mut i: u32 = 0;
        while i < self.capacity
            invariant
                0 <= i <= self.capacity,
                marks@.len() == i as int,
                forall|j: int| 0 <= j < i as int ==> !marks@[j],
            decreases self.capacity - i,
        {
            marks.push(false);
            i = i + 1;
        }
        let ghost pre = marks@;
        mark_live_at(&self.nodes, self.root, &mut marks, Ghost(self.shape@));
        proof {
            assert forall|j: int|
                0 <= j < marks@.len() implies (marks@[j] <==> self.live().contains(j)) by {
                assert(marks@[j] == (pre[j] || sub_idxs(self.shape@).contains(j)));
            }
        }
        marks
    }

    /// Linear scan for a slot outside the live set; `None` exactly when the
    /// slab is full.
    #[verifier::rlimit(100)]
    pub fn find_unused_index(&self) -> (r: Option<u32>)
        requires
            self.wf(),
        ensures
            match r {
                Some(i) => (i as int) < self.capacity as int && !self.live().contains(i as int),
                None => self.used == self.capacity,
            },
    {
        let marks = self.live_marks();
        let mut i: u32 = 0;
        while i < self.capacity
            invariant
                0 <= i <= self.capacity,
                marks@.len() == self.capacity as int,
                forall|j: int| 0 <= j < marks@.len() ==> (marks@[j] <==> self.live().contains(j)),
                forall|j: int| 0 <= j < i as int ==> self.live().contains(j),
            decreases self.capacity - i,
        {
            if !marks[i as usize] {
                return Some(i);
            }
            i = i + 1;
        }
        proof {
            if self.free_list@.len() > 0 {
                assert(self.free_list@.contains(self.free_list@[0]));
                assert(self.live().contains(self.free_list@[0]));
                assert(false);
            }
        }
        None
    }

    /// Number of live records.
    pub fn used_nodes(&self) -> (r: u32)
        ensures
            r == self.used,
    {
        self.used
    }

    /// Declared record capacity.
    pub fn capacity_nodes(&self) -> (r: u32)
        ensures
            r == self.capacity,
    {
        self.capacity
    }

    /// Owner, price and remaining quantity of the best-priced live record,
    /// or `None` when the side is empty.
    #[verifier::rlimit(60)]
    pub fn peek_best(&self) -> (r: Option<(Key, u64, u64)>)
        requires
            self.wf(),
        ensures
            (r is None <==> self.live().is_empty()),
            r is Some ==> {
                &&& self.live().contains(self.best as int)
                &&& self.nodes@[self.best as int].base_qty > 0
                &&& r == Some(
                    (
                        self.nodes@[self.best as int].oo,
                        self.nodes@[self.best as int].price_ticks,
                        self.nodes@[self.best as int].base_qty,
                    ),
                )
                &&& (forall|j: int| self.live().contains(j) ==> self.at_least_as_good(
                    self.nodes@[self.best as int].price_ticks,
                    self.nodes@[j].price_ticks,
                ))
            },
    {
        proof {
            self.lemma_empty_iff();
        }
        if self.best == IDX_NULL {
            proof {
                assert(self.root == IDX_NULL) by {
                    if self.root != IDX_NULL {
                        lemma_shape_in_range(self.nodes@, self.shape@, self.root);
                        assert(self.live().contains(self.best as int));
                    }
                }
            }
            None
        } else {
            proof {
                assert(self.root != IDX_NULL);
                assert(self.live().contains(self.best as int));
                lemma_shape_in_range(self.nodes@, self.shape@, self.root);
            }
            let n = self.nodes[self.best as usize];
            Some((n.oo, n.price_ticks, n.base_qty))
        }
    }
}

/// The slab header exactly as it sits at the front of a side's byte region,
/// after the blob header.
#[derive(Clone, Copy, PartialEq, Eq, Structural, Debug)]
pub struct SlabHeader {
    pub capacity: u32,
    pub used: u32,
    pub free_head: u32,
    pub root: u32,
    pub best: u32,
    pub version: u8,
}

/// Encoded size of a `SlabHeader` in bytes, padding included.
pub const SLAB_HEADER_LEN: usize = 4 + 4 + 4 + 4 + 4 + 1 + 3;

/// Encoded size of a `SlabNode` in bytes, padding included.
pub const SLAB_NODE_LEN: usize = 8 + 8 + 32 + 8 + 4 * 5 + 1 + 3;

impl Slab {
    /// The header record describing this slab's bookkeeping state.
    pub fn header(&self) -> (h: SlabHeader)
        ensures
            h == (SlabHeader {
                capacity: self.capacity,
                used: self.used,
                free_head: self.free_head,
                root: self.root,
                best: self.best,
                version: self.version,
            }),
    {
        SlabHeader {
            capacity: self.capacity,
            used: self.used,
            free_head: self.free_head,
            root: self.root,
            best: self.best,
            version: self.version,
        }
    }
}

/// Bytes needed past the blob header for a slab of `nodes` records.
pub fn region_len_for(nodes: u32) -> (r: usize)
    requires
        SLAB_HEADER_LEN + SLAB_NODE_LEN * nodes as int <= usize::MAX as int,
    ensures
        r == SLAB_HEADER_LEN + SLAB_NODE_LEN * nodes as int,
{
    SLAB_HEADER_LEN + SLAB_NODE_LEN * nodes as usize
}

/// How many whole records fit in a region of `total_len` bytes, blob and
/// slab headers deducted. Narrowing to 32 bits truncates as the header
/// field does.
pub fn capacity_from_len(total_len: usize) -> (r: u32)
    ensures
        total_len < crate::state::BLOB_LEN + SLAB_HEADER_LEN ==> r == 0,
        total_len >= crate::state::BLOB_LEN + SLAB_HEADER_LEN ==> r == (((total_len
            - crate::state::BLOB_LEN - SLAB_HEADER_LEN) as int / SLAB_NODE_LEN as int) as u32),
{
    if total_len < crate::state::BLOB_LEN + SLAB_HEADER_LEN {
        return 0;
    }
    let slab_bytes = total_len - crate::state::BLOB_LEN - SLAB_HEADER_LEN;
    (slab_bytes / SLAB_NODE_LEN) as u32
}

/// The cached best of a well-formed slab always prices at least as well as
/// every live record on its side: the maximum price on the bid side, the
/// minimum on the ask side.
pub proof fn lemma_peek_best_extreme(s: Slab)
    requires
        s.wf(),
        !s.live().is_empty(),
    ensures
        s.live().contains(s.best as int),
        forall|j: int|
            s.live().contains(j) ==> better_or_equal(
                s.is_bid,
                s.nodes@[s.best as int].price_ticks,
                s.nodes@[j].price_ticks,
            ),
{
    s.lemma_empty_iff();
    assert forall|j: int| s.live().contains(j) implies better_or_equal(
        s.is_bid,
        s.nodes@[s.best as int].price_ticks,
        s.nodes@[j].price_ticks,
    ) by {
        assert(s.at_least_as_good(
            s.nodes@[s.best as int].price_ticks,
            s.nodes@[j].price_ticks,
        ));
    }
}

/// In a well-formed slab the used count never exceeds the capacity, the
/// declared capacity equals the allocated record count, and every live index
/// is in range.
pub proof fn lemma_live_in_range(s: Slab)
    requires
        s.wf(),
    ensures
        s.used <= s.capacity,
        s.capacity as int == s.nodes@.len(),
        forall|j: int| #[trigger] s.live().contains(j) ==> 0 <= j < s.nodes@.len(),
{
    lemma_shape_in_range(s.nodes@, s.shape@, s.root);
    assert(s.free_list@.len() >= 0);
}

/// Under a well-formed shape whose covered records all hold positive
/// quantity, the covered total is positive exactly when the shape is not a
/// leaf.
proof fn lemma_sub_qty_positive(nodes: Seq<SlabNode>, sh: Shape, root: u32)
    requires
        shape_wf(nodes, sh, root),
        forall|j: int| #[trigger] sub_idxs(sh).contains(j) ==> nodes[j].base_qty > 0,
    ensures
        sub_qty(nodes, sh) >= 0,
        !(sh is Leaf) ==> sub_qty(nodes, sh) > 0,
    decreases sh,
{
    reveal_with_fuel(sub_qty, 2);
    match sh {
        Shape::Leaf => {},
        Shape::Branch { left, idx, right } => {
            assert(sub_idxs(sh).contains(idx));
            assert forall|j: int| #[trigger] sub_idxs(*left).contains(j) implies nodes[j].base_qty
                > 0 by {
                assert(sub_idxs(sh).contains(j));
            }
            assert forall|j: int| #[trigger] sub_idxs(*right).contains(j) implies nodes[j].base_qty
                > 0 by {
                assert(sub_idxs(sh).contains(j));
            }
            lemma_sub_qty_positive(nodes, *left, nodes[idx].left);
            lemma_sub_qty_positive(nodes, *right, nodes[idx].right);
        },
    }
}

/// A well-formed side holds zero total quantity exactly when it holds no
/// orders: live records always carry positive quantity.
pub proof fn lemma_book_qty_empty(s: Slab)
    requires
        s.wf(),
    ensures
        s.book_qty() == 0 <==> s.live().is_empty(),
        s.book_qty() >= 0,
{
    lemma_sub_qty_positive(s.nodes@, s.shape@, s.root);
    match s.shape@ {
        Shape::Leaf => {
            reveal_with_fuel(sub_qty, 1);
            assert(s.live() =~= Set::empty());
        },
        Shape::Branch { left, idx, right } => {
            assert(s.live().contains(idx));
        },
    }
}

/// In a well-formed slab the used count never exceeds the capacity, and the
/// free list and the tree partition the whole index range: every slot is on
/// exactly one side.
pub proof fn lemma_used_capacity_partition(s: Slab)
    requires
        s.wf(),
    ensures
        s.used <= s.capacity,
        s.capacity as int == s.nodes@.len(),
        forall|j: int|
            0 <= j < s.capacity as int ==> (s.live().contains(j) <==> !s.free_list@.contains(j)),
        forall|j: int| s.live().contains(j) ==> 0 <= j < s.capacity as int,
        forall|j: int| s.free_list@.contains(j) ==> 0 <= j < s.capacity as int,
{
    lemma_shape_in_range(s.nodes@, s.shape@, s.root);
    assert forall|j: int| s.free_list@.contains(j) implies 0 <= j < s.capacity as int by {
        let k = choose|k: int| 0 <= k < s.free_list@.len() && s.free_list@[k] == j;
        assert(0 <= s.free_list@[k] < s.nodes@.len());
    }
}

} // verus!