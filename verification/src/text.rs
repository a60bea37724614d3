use crate::heap::{
    is_floor_log2, lemma_leading_zeros_log2, lemma_two_pow_32, lemma_two_pow_is_pow2, lemma_two_pow_monotone, left_size,
    is_descendant, lemma_child_descendant, lemma_children_disjoint, lemma_descendant_ge,
    lemma_descendant_split, lemma_descendant_trans, lemma_left_subtree_size, lemma_root_subtree_size,
    subtree_size, two_pow,
};
use crate::point::{point_diff, point_le, Point};
use crate::utf16::{encode_utf16, utf16_encode};
use crate::Error;
use vstd::prelude::*;

verus! {

/// The UTF-16 code unit of `'\n'`.
pub open spec fn newline() -> u16 {
    10
}

/// The lengths of the rows of `s`: the runs of code units between newlines.
/// There is always one row more than there are newlines.
pub open spec fn row_lengths(s: Seq<u16>) -> Seq<int>
    decreases s.len(),
{
    if s.len() == 0 {
        seq![0]
    } else {
        let prev = row_lengths(s.drop_last());
        if s.last() == newline() {
            prev.push(0)
        } else {
            prev.update(prev.len() - 1, prev.last() + 1)
        }
    }
}

/// The number of code units covered by rows `l`, counting one newline after each row.
pub open spec fn span(l: Seq<int>) -> int
    decreases l.len(),
{
    if l.len() == 0 {
        0
    } else {
        span(l.drop_last()) + l.last() + 1
    }
}

/// The offset at which row `k` of a text with row lengths `l` starts.
pub open spec fn row_start(l: Seq<int>, k: int) -> int {
    span(l.take(k))
}

/// The greatest row length in `l` (0 for no rows).
pub open spec fn seq_max(l: Seq<int>) -> int
    decreases l.len(),
{
    if l.len() == 0 {
        0
    } else {
        let m = seq_max(l.drop_last());
        if l.last() > m {
            l.last()
        } else {
            m
        }
    }
}

/// The first row whose length is the greatest (0 for no rows).
pub open spec fn first_argmax(l: Seq<int>) -> int
    decreases l.len(),
{
    if l.len() == 0 {
        0
    } else if l.last() > seq_max(l.drop_last()) {
        l.len() - 1
    } else {
        first_argmax(l.drop_last())
    }
}

pub open spec fn all_nonneg(l: Seq<int>) -> bool {
    forall|i: int| 0 <= i < l.len() ==> l[i] >= 0
}

/// A node of the balanced binary tree that indexes the rows of a text. Each node
/// stands for one row; the in-order traversal of the tree lists the rows in order.
/// The other fields summarize the subtree rooted at the node.
#[derive(Clone, Copy, Debug, PartialEq, Eq, Structural)]
pub struct LineNode {
    pub len: u32,
    pub longest_row: u32,
    pub longest_row_len: u32,
    pub offset: usize,
    pub rows: u32,
}

/// The row lengths of the subtree rooted at heap index `i`, in order.
pub open spec fn inorder(nodes: Seq<LineNode>, i: nat) -> Seq<int>
    decreases (if i < nodes.len() { nodes.len() - i } else { 0 }),
{
    if i >= nodes.len() {
        seq![]
    } else {
        inorder(nodes, 2 * i + 1) + seq![nodes[i as int].len as int] + inorder(nodes, 2 * i + 2)
    }
}

/// `node` correctly summarizes rows `s`.
pub open spec fn summarizes(node: LineNode, s: Seq<int>) -> bool {
    &&& node.rows == s.len()
    &&& node.offset == span(s)
    &&& node.longest_row_len == seq_max(s)
    &&& node.longest_row == first_argmax(s)
}

/// Every node of the subtree rooted at `i` summarizes its own subtree.
pub open spec fn subtree_ok(nodes: Seq<LineNode>, i: nat) -> bool {
    forall|j: nat|
        j < nodes.len() && is_descendant(i, j) ==> #[trigger] summarizes(
            nodes[j as int],
            inorder(nodes, j),
        )
}

/// A node at heap index `i` of a tree of `n` nodes, `e` levels below the root,
/// shows that the tree has at least `2^e` nodes.
pub proof fn lemma_two_pow_bound(i: nat, e: nat, n: nat)
    requires
        i + 1 >= two_pow(e),
        i < n,
    ensures
        two_pow(e) <= n,
{
}

/// `nodes` index rows `rows`: a complete binary tree in heap order (the children
/// of node `i` are `2i + 1` and `2i + 2`) with one node per row, whose in-order
/// traversal lists the row lengths and each of whose nodes summarizes the rows of
/// its subtree.
pub open spec fn indexes_rows(nodes: Seq<LineNode>, rows: Seq<int>) -> bool {
    &&& nodes.len() == rows.len()
    &&& inorder(nodes, 0) == rows
    &&& subtree_ok(nodes, 0)
}

pub open spec fn u32s_as_ints(s: Seq<u32>) -> Seq<int> {
    Seq::new(s.len(), |i: int| s[i] as int)
}

pub proof fn lemma_span_concat(a: Seq<int>, b: Seq<int>)
    ensures
        span(a + b) == span(a) + span(b),
    decreases b.len(),
{
    if b.len() > 0 {
        assert((a + b).drop_last() =~= a + b.drop_last());
        lemma_span_concat(a, b.drop_last());
    } else {
        assert(a + b =~= a);
    }
}

pub proof fn lemma_max_concat(a: Seq<int>, b: Seq<int>)
    ensures
        seq_max(a + b) == (if seq_max(b) > seq_max(a) { seq_max(b) } else { seq_max(a) }),
        first_argmax(a + b) == (if seq_max(b) > seq_max(a) {
            a.len() + first_argmax(b)
        } else {
            first_argmax(a)
        }),
    decreases b.len(),
{
    lemma_max_nonneg(a);
    if b.len() > 0 {
        let b0 = b.drop_last();
        assert((a + b).drop_last() =~= a + b0);
        assert((a + b).last() == b.last());
        lemma_max_concat(a, b0);
        assert(seq_max(a + b) == (if b.last() > seq_max(a + b0) { b.last() } else { seq_max(a + b0) }));
        assert(seq_max(b) == (if b.last() > seq_max(b0) { b.last() } else { seq_max(b0) }));
        assert(first_argmax(a + b) == (if b.last() > seq_max(a + b0) { (a + b).len() - 1 } else { first_argmax(a + b0) }));
        assert(first_argmax(b) == (if b.last() > seq_max(b0) { b.len() - 1 } else { first_argmax(b0) }));
    } else {
        assert(a + b =~= a);
    }
}

pub proof fn lemma_max_nonneg(l: Seq<int>)
    ensures
        seq_max(l) >= 0,
        0 <= first_argmax(l) <= (if l.len() == 0 { 0 } else { l.len() - 1 }),
    decreases l.len(),
{
    if l.len() > 0 {
        lemma_max_nonneg(l.drop_last());
    }
}

pub proof fn lemma_max_bounded(l: Seq<int>, bound: int)
    requires
        bound >= 0,
        forall|i: int| 0 <= i < l.len() ==> l[i] <= bound,
    ensures
        seq_max(l) <= bound,
    decreases l.len(),
{
    if l.len() > 0 {
        lemma_max_bounded(l.drop_last(), bound);
    }
}

pub proof fn lemma_span_lower(l: Seq<int>)
    requires
        all_nonneg(l),
    ensures
        span(l) >= l.len(),
        forall|i: int| 0 <= i < l.len() ==> l[i] < span(l),
    decreases l.len(),
{
    if l.len() > 0 {
        lemma_span_lower(l.drop_last());
        assert forall|i: int| 0 <= i < l.len() implies l[i] < span(l) by {
            if i < l.len() - 1 {
                assert(l.drop_last()[i] == l[i]);
            }
        }
    }
}

/// The rows of a subtree depend only on the nodes inside that subtree.
pub proof fn lemma_inorder_frame(t1: Seq<LineNode>, t2: Seq<LineNode>, k: nat)
    requires
        t1.len() == t2.len(),
        forall|j: nat| j < t1.len() && is_descendant(k, j) ==> t1[j as int] == t2[j as int],
    ensures
        inorder(t1, k) == inorder(t2, k),
    decreases (if k < t1.len() { t1.len() - k } else { 0 }),
{
    if k < t1.len() {
        assert(is_descendant(k, k));
        assert forall|j: nat| j < t1.len() && is_descendant(2 * k + 1, j) implies t1[j as int]
            == t2[j as int] by {
            lemma_child_descendant(k, j);
        }
        assert forall|j: nat| j < t1.len() && is_descendant(2 * k + 2, j) implies t1[j as int]
            == t2[j as int] by {
            lemma_child_descendant(k, j);
        }
        lemma_inorder_frame(t1, t2, 2 * k + 1);
        lemma_inorder_frame(t1, t2, 2 * k + 2);
    }
}

/// The number of rows in a subtree is the size of that subtree.
pub proof fn lemma_inorder_len(t: Seq<LineNode>, k: nat)
    ensures
        inorder(t, k).len() == subtree_size(k, t.len()),
    decreases (if k < t.len() { t.len() - k } else { 0 }),
{
    if k < t.len() {
        lemma_inorder_len(t, 2 * k + 1);
        lemma_inorder_len(t, 2 * k + 2);
    }
}

pub proof fn lemma_max_zero(l: Seq<int>)
    requires
        seq_max(l) == 0,
    ensures
        first_argmax(l) == 0,
    decreases l.len(),
{
    if l.len() > 0 {
        lemma_max_nonneg(l.drop_last());
        lemma_max_zero(l.drop_last());
    }
}

pub proof fn lemma_max_single(x: int)
    ensures
        seq_max(seq![x]) == (if x > 0 { x } else { 0 }),
        first_argmax(seq![x]) == 0,
{
    let s = seq![x];
    assert(s.drop_last() =~= Seq::<int>::empty());
    assert(s.last() == x);
    assert(seq_max(Seq::<int>::empty()) == 0);
    assert(first_argmax(Seq::<int>::empty()) == 0);
}

pub proof fn lemma_span_single(x: int)
    ensures
        span(seq![x]) == x + 1,
{
    let s = seq![x];
    assert(s.drop_last() =~= Seq::<int>::empty());
    assert(s.last() == x);
    assert(span(Seq::<int>::empty()) == 0);
}

/// `floor(log2(x))` for a positive `x`.
fn log2_fast(x: usize) -> (d: usize)
    requires
        x >= 1,
    ensures
        d < 64,
        is_floor_log2(x as int, d as nat),
{
    let lz = (x as u64).leading_zeros();
    proof {
        lemma_leading_zeros_log2(x as u64);
    }
    (63 - lz) as usize
}

/// The summary of a child that may lie outside the tree (then its subtree is empty).
fn child_summary(tree: &Vec<LineNode>, index: usize) -> (r: (u32, u32, usize, u32))
    ensures
        index < tree.len() ==> r == (
            tree@[index as int].longest_row,
            tree@[index as int].longest_row_len,
            tree@[index as int].offset,
            tree@[index as int].rows,
        ),
        index >= tree.len() ==> r == (0u32, 0u32, 0usize, 0u32),
{
    if index < tree.len() {
        let c = &tree[index];
        (c.longest_row, c.longest_row_len, c.offset, c.rows)
    } else {
        (0, 0, 0, 0)
    }
}

/// Lays out rows `lo..hi` of `line_lengths` as the complete binary subtree rooted
/// at heap index `index`, filling in each node's subtree summary.
#[verifier::rlimit(40)]
fn build_tree(index: usize, line_lengths: &Vec<u32>, lo: usize, hi: usize, tree: &mut Vec<LineNode>)
    requires
        lo <= hi <= line_lengths.len(),
        hi - lo == subtree_size(index as nat, old(tree).len() as nat),
        span(u32s_as_ints(line_lengths@).subrange(lo as int, hi as int)) <= u32::MAX,
        old(tree).len() <= u32::MAX,
        2 * old(tree).len() + 2 <= usize::MAX,
    ensures
        final(tree).len() == old(tree).len(),
        forall|j: nat|
            j < old(tree).len() && !is_descendant(index as nat, j) ==> final(tree)@[j as int]
                == old(tree)@[j as int],
        inorder(final(tree)@, index as nat) == u32s_as_ints(line_lengths@).subrange(
            lo as int,
            hi as int,
        ),
        subtree_ok(final(tree)@, index as nat),
    decreases hi - lo,
{
    let ghost n = tree.len() as nat;
    let ghost t0 = tree@;
    let ghost lines = u32s_as_ints(line_lengths@);
    if lo == hi {
        proof {
            assert(index >= n);
            assert(inorder(tree@, index as nat) =~= lines.subrange(lo as int, hi as int));
            assert forall|j: nat| j < tree.len() && is_descendant(index as nat, j) implies #[trigger] summarizes(
                tree@[j as int],
                inorder(tree@, j),
            ) by {
                lemma_descendant_ge(index as nat, j);
            }
        }
        return ;
    }
    let c = hi - lo;
    assert(index < n);
    proof {
        assert(all_nonneg(lines.subrange(lo as int, hi as int)));
        lemma_span_lower(lines.subrange(lo as int, hi as int));
    }
    let mid = if c == 1 {
        0
    } else {
        let depth = log2_fast(c);
        proof {
            assert(depth >= 1) by {
                if depth == 0 {
                    assert(two_pow(1) == 2 * two_pow(0));
                }
            }
            assert(depth < 32) by {
                if depth >= 32 {
                    lemma_two_pow_monotone(32, depth as nat);
                    lemma_two_pow_32();
                }
            }
            lemma_two_pow_is_pow2(depth as nat);
            lemma_two_pow_is_pow2((depth - 1) as nat);
            lemma_two_pow_monotone(depth as nat, 32);
            lemma_two_pow_32();
            vstd::bits::lemma_usize_shl_is_mul(1, depth);
            vstd::bits::lemma_usize_shl_is_mul(1, (depth - 1) as usize);
            assert(two_pow(depth as nat) == 2 * two_pow((depth - 1) as nat));
        }
        let max_elements = (1usize << depth) - 1;
        let right_subtree_elements = 1usize << (depth - 1);
        proof {
            lemma_left_subtree_size(index as nat, n, depth as nat);
        }
        if c - right_subtree_elements < max_elements {
            c - right_subtree_elements
        } else {
            max_elements
        }
    };
    proof {
        if c == 1 {
            let depth = 0nat;
            assert(two_pow(1) == 2 * two_pow(0));
            lemma_left_subtree_size(index as nat, n, depth);
        }
        assert(mid == subtree_size(2 * index as nat + 1, n));
    }
    let len = line_lengths[lo + mid];
    let left_child_index = index * 2 + 1;
    let right_child_index = index * 2 + 2;
    proof {
        let whole = lines.subrange(lo as int, hi as int);
        assert(whole =~= lines.subrange(lo as int, (lo + mid) as int) + seq![lines[lo + mid]]
            + lines.subrange((lo + mid + 1) as int, hi as int));
        lemma_span_concat(
            lines.subrange(lo as int, (lo + mid) as int) + seq![lines[lo + mid]],
            lines.subrange((lo + mid + 1) as int, hi as int),
        );
        lemma_span_concat(
            lines.subrange(lo as int, (lo + mid) as int),
            seq![lines[lo + mid]],
        );
        assert(seq![lines[lo + mid]].drop_last() =~= Seq::<int>::empty());
        lemma_span_single(lines[lo + mid]);
        assert(span(whole) == span(lines.subrange(lo as int, (lo + mid) as int)) + lines[lo + mid] + 1
            + span(lines.subrange((lo + mid + 1) as int, hi as int)));
        assert(all_nonneg(lines.subrange((lo + mid + 1) as int, hi as int)));
        assert(all_nonneg(lines.subrange(lo as int, (lo + mid) as int)));
        lemma_span_lower(lines.subrange((lo + mid + 1) as int, hi as int));
        lemma_span_lower(lines.subrange(lo as int, (lo + mid) as int));
    }
    build_tree(left_child_index, line_lengths, lo, lo + mid, tree);
    let ghost t1 = tree@;
    build_tree(right_child_index, line_lengths, lo + mid + 1, hi, tree);
    let ghost t2 = tree@;
    let (left_child_longest_row, left_child_longest_row_len, left_child_offset, left_child_rows) =
        child_summary(tree, left_child_index);
    let (right_child_longest_row, right_child_longest_row_len, right_child_offset, right_child_rows) =
        child_summary(tree, right_child_index);
    let ghost left_rows = lines.subrange(lo as int, (lo + mid) as int);
    let ghost right_rows = lines.subrange((lo + mid + 1) as int, hi as int);
    proof {
        // The left subtree is untouched by the second call.
        assert forall|j: nat| j < n && is_descendant(left_child_index as nat, j) implies t2[j as int]
            == t1[j as int] by {
            lemma_children_disjoint(index as nat, j);
        }
        lemma_inorder_frame(t1, t2, left_child_index as nat);
        lemma_max_nonneg(left_rows);
        lemma_max_nonneg(right_rows);
        if left_child_index < n {
            assert(is_descendant(left_child_index as nat, left_child_index as nat));
            assert(summarizes(t1[left_child_index as int], inorder(t1, left_child_index as nat)));
        }
        if right_child_index < n {
            assert(is_descendant(right_child_index as nat, right_child_index as nat));
            assert(summarizes(t2[right_child_index as int], inorder(t2, right_child_index as nat)));
        }
        assert(left_child_rows == left_rows.len());
        assert(left_child_offset == span(left_rows));
        assert(left_child_longest_row_len == seq_max(left_rows));
        assert(left_child_longest_row == first_argmax(left_rows));
        assert(right_child_rows == right_rows.len());
        assert(right_child_offset == span(right_rows));
        assert(right_child_longest_row_len == seq_max(right_rows));
        assert(right_child_longest_row == first_argmax(right_rows));
        lemma_max_bounded(left_rows, u32::MAX as int);
        lemma_max_bounded(right_rows, u32::MAX as int);
        lemma_max_nonneg(left_rows);
        lemma_max_nonneg(right_rows);
        assert(left_rows.len() + right_rows.len() + 1 == c);
    }
    let mut longest_row: u32 = 0;
    let mut longest_row_len: u32 = 0;
    if left_child_longest_row_len > longest_row_len {
        longest_row = left_child_longest_row;
        longest_row_len = left_child_longest_row_len;
    }
    proof {
        if seq_max(left_rows) == 0 {
            lemma_max_zero(left_rows);
        }
        assert(longest_row == first_argmax(left_rows));
        assert(longest_row_len == seq_max(left_rows));
        lemma_max_single(len as int);
        lemma_max_concat(left_rows, seq![len as int]);
    }
    if len > longest_row_len {
        longest_row = left_child_rows;
        longest_row_len = len;
    }
    proof {
        let with_mid = left_rows + seq![len as int];
        assert(longest_row == first_argmax(with_mid));
        assert(longest_row_len == seq_max(with_mid));
        lemma_max_concat(with_mid, right_rows);
        lemma_max_nonneg(right_rows);
    }
    if right_child_longest_row_len > longest_row_len {
        longest_row = left_child_rows + right_child_longest_row + 1;
        longest_row_len = right_child_longest_row_len;
    }
    let node = LineNode {
        len,
        longest_row,
        longest_row_len,
        offset: left_child_offset + len as usize + right_child_offset + 1,
        rows: left_child_rows + right_child_rows + 1,
    };
    tree.set(index, node);
    proof {
        lemma_assemble_subtree(t0, t1, t2, tree@, index as nat, node, left_rows, right_rows);
        assert(lines.subrange(lo as int, hi as int) =~= left_rows + seq![len as int] + right_rows);
    }
}

/// Putting a node that summarizes its rows on top of two correctly built child
/// subtrees yields a correctly built subtree.
proof fn lemma_assemble_subtree(
    t0: Seq<LineNode>,
    t1: Seq<LineNode>,
    t2: Seq<LineNode>,
    t3: Seq<LineNode>,
    index: nat,
    node: LineNode,
    left_rows: Seq<int>,
    right_rows: Seq<int>,
)
    requires
        index < t0.len(),
        t1.len() == t0.len(),
        t2.len() == t0.len(),
        t3 == t2.update(index as int, node),
        forall|j: nat| j < t0.len() && !is_descendant(2 * index + 1, j) ==> t1[j as int] == t0[j as int],
        forall|j: nat| j < t0.len() && !is_descendant(2 * index + 2, j) ==> t2[j as int] == t1[j as int],
        inorder(t1, 2 * index + 1) == left_rows,
        inorder(t2, 2 * index + 2) == right_rows,
        subtree_ok(t1, 2 * index + 1),
        subtree_ok(t2, 2 * index + 2),
        summarizes(node, left_rows + seq![node.len as int] + right_rows),
    ensures
        forall|j: nat| j < t0.len() && !is_descendant(index, j) ==> t3[j as int] == t0[j as int],
        inorder(t3, index) == left_rows + seq![node.len as int] + right_rows,
        subtree_ok(t3, index),
{
    let n = t0.len();
    let l = 2 * index + 1;
    let r = 2 * index + 2;
    assert forall|j: nat| j < n && is_descendant(l, j) implies t3[j as int] == t1[j as int] by {
        lemma_children_disjoint(index, j);
        lemma_descendant_ge(l, j);
    }
    assert forall|j: nat| j < n && is_descendant(r, j) implies t3[j as int] == t2[j as int] by {
        lemma_descendant_ge(r, j);
    }
    lemma_inorder_frame(t1, t3, l);
    lemma_inorder_frame(t2, t3, r);
    assert forall|j: nat| j < n && !is_descendant(index, j) implies t3[j as int] == t0[j as int] by {
        lemma_child_descendant(index, j);
    }
    assert forall|j: nat| j < n && is_descendant(index, j) implies #[trigger] summarizes(
        t3[j as int],
        inorder(t3, j),
    ) by {
        if j != index {
            lemma_descendant_split(index, j);
            if is_descendant(l, j) {
                assert forall|m: nat| m < n && is_descendant(j, m) implies t3[m as int] == t1[m as int] by {
                    lemma_descendant_trans(l, j, m);
                }
                lemma_inorder_frame(t1, t3, j);
            } else {
                assert forall|m: nat| m < n && is_descendant(j, m) implies t3[m as int] == t2[m as int] by {
                    lemma_descendant_trans(r, j, m);
                }
                lemma_inorder_frame(t2, t3, j);
            }
        }
    }
}

/// Every heap index lies in the subtree of the root.
pub proof fn lemma_descendant_of_root(j: nat)
    ensures
        is_descendant(0, j),
    decreases j,
{
    if j > 0 {
        lemma_descendant_of_root(((j - 1) / 2) as nat);
    }
}

/// Row lengths are non-negative, sum (with newlines) to one more than the text
/// length, and none exceeds the text length.
pub proof fn lemma_row_lengths(s: Seq<u16>)
    ensures
        row_lengths(s).len() >= 1,
        row_lengths(s).len() <= s.len() + 1,
        span(row_lengths(s)) == s.len() + 1,
        forall|i: int| 0 <= i < row_lengths(s).len() ==> 0 <= #[trigger] row_lengths(s)[i] <= s.len(),
    decreases s.len(),
{
    if s.len() == 0 {
        lemma_span_single(0);
    }
    if s.len() > 0 {
        let prev = row_lengths(s.drop_last());
        lemma_row_lengths(s.drop_last());
        if s.last() == newline() {
            assert(prev.push(0).drop_last() =~= prev);
            assert(prev.push(0).last() == 0);
            assert(row_lengths(s) == prev.push(0));
        } else {
            let upd = prev.update(prev.len() - 1, prev.last() + 1);
            assert(row_lengths(s) == upd);
            assert(upd.drop_last() =~= prev.drop_last());
            assert(upd.last() == prev.last() + 1);
            assert(span(upd) == span(upd.drop_last()) + upd.last() + 1);
            assert(prev.drop_last().push(prev.last()) =~= prev);
            assert(span(prev) == span(prev.drop_last()) + prev.last() + 1);
        }
    }
}

/// Where row `m` starts, counted from the start of row `lo`.
pub proof fn lemma_row_start_split(l: Seq<int>, lo: int, m: int)
    requires
        0 <= lo <= m <= l.len(),
    ensures
        row_start(l, m) == row_start(l, lo) + span(l.subrange(lo, m)),
{
    assert(l.take(m) =~= l.take(lo) + l.subrange(lo, m));
    lemma_span_concat(l.take(lo), l.subrange(lo, m));
}

/// Each row starts right after the previous row and its newline.
pub proof fn lemma_row_start_next(l: Seq<int>, m: int)
    requires
        0 <= m < l.len(),
    ensures
        row_start(l, m + 1) == row_start(l, m) + l[m] + 1,
{
    assert(l.take(m + 1).drop_last() =~= l.take(m));
}

/// Row starts grow with the row index.
pub proof fn lemma_row_start_monotone(l: Seq<int>, a: int, b: int)
    requires
        0 <= a <= b <= l.len(),
        all_nonneg(l),
    ensures
        row_start(l, a) + (b - a) <= row_start(l, b),
{
    lemma_row_start_split(l, a, b);
    assert(all_nonneg(l.subrange(a, b)));
    lemma_span_lower(l.subrange(a, b));
}

/// What a search through the row tree looks for.
pub enum SearchTarget {
    /// The row whose range of offsets (its end included) holds this offset.
    Offset(usize),
    /// The row with this index.
    Row(u32),
}

/// The text of one insertion, stored as UTF-16 code units together with an index
/// of its rows: a complete binary tree in heap order whose in-order traversal
/// lists the row lengths and whose nodes summarize their subtrees.
#[derive(Debug)]
pub struct Text {
    code_units: Vec<u16>,
    nodes: Vec<LineNode>,
}

impl View for Text {
    type V = Seq<u16>;

    closed spec fn view(&self) -> Seq<u16> {
        self.code_units@
    }
}

impl Text {
    #[verifier::type_invariant]
    closed spec fn inv(self) -> bool {
        &&& self.code_units.len() < u32::MAX
        &&& 2 * self.nodes.len() + 2 <= usize::MAX
        &&& self.nodes.len() == row_lengths(self.code_units@).len()
        &&& inorder(self.nodes@, 0) == row_lengths(self.code_units@)
        &&& subtree_ok(self.nodes@, 0)
    }

    /// The lengths of the rows of this text.
    pub open spec fn rows(&self) -> Seq<int> {
        row_lengths(self@)
    }

    /// The nodes of the index of the rows.
    pub closed spec fn row_index(&self) -> Seq<LineNode> {
        self.nodes@
    }

    /// Indexes the rows of `code_units`.
    pub fn new(code_units: Vec<u16>) -> (text: Text)
        requires
            code_units.len() < u32::MAX,
            2 * code_units.len() + 4 <= usize::MAX,
        ensures
            text@ == code_units@,
            indexes_rows(text.row_index(), text.rows()),
    {
        let ghost s = code_units@;
        let mut line_lengths: Vec<u32> = Vec::new();
        let mut prev_offset: usize = 0;
        let mut offset: usize = 0;
        while offset < code_units.len()
            invariant
                s == code_units@,
                code_units.len() < u32::MAX,
                prev_offset <= offset <= code_units.len(),
                u32s_as_ints(line_lengths@).push(offset - prev_offset) =~= row_lengths(
                    s.take(offset as int),
                ),
            decreases code_units.len() - offset,
        {
            proof {
                assert(s.take(offset + 1).drop_last() =~= s.take(offset as int));
                assert(s.take(offset + 1).last() == s[offset as int]);
            }
            if code_units[offset] == 10u16 {
                line_lengths.push((offset - prev_offset) as u32);
                prev_offset = offset + 1;
            }
            offset = offset + 1;
        }
        line_lengths.push((code_units.len() - prev_offset) as u32);
        proof {
            assert(s.take(s.len() as int) =~= s);
            assert(u32s_as_ints(line_lengths@) =~= row_lengths(s));
            lemma_row_lengths(s);
        }
        let n = line_lengths.len();
        let mut nodes: Vec<LineNode> = Vec::new();
        let empty = LineNode { len: 0, longest_row_len: 0, longest_row: 0, offset: 0, rows: 0 };
        while nodes.len() < n
            invariant
                nodes.len() <= n,
            decreases n - nodes.len(),
        {
            nodes.push(empty);
        }
        proof {
            lemma_root_subtree_size(n as nat);
            assert(u32s_as_ints(line_lengths@).subrange(0, n as int) =~= u32s_as_ints(line_lengths@));
        }
        build_tree(0, &line_lengths, 0, n, &mut nodes);
        proof {
            assert(u32s_as_ints(line_lengths@).subrange(0, n as int) =~= row_lengths(s));
        }
        Text { code_units, nodes }
    }

    /// Indexes the rows of the UTF-16 encoding of `s`.
    pub fn from(s: &str) -> (text: Text)
        requires
            utf16_encode(s@).len() < u32::MAX,
            2 * utf16_encode(s@).len() + 4 <= usize::MAX,
        ensures
            text@ == utf16_encode(s@),
            indexes_rows(text.row_index(), text.rows()),
    {
        Text::new(encode_utf16(s))
    }

    /// The code unit at `offset`.
    pub fn code_unit_at(&self, offset: usize) -> (c: u16)
        requires
            offset < self@.len(),
        ensures
            c == self@[offset as int],
    {
        self.code_units[offset]
    }

    /// The number of code units.
    pub fn len(&self) -> (n: usize)
        ensures
            n == self@.len(),
            n < u32::MAX,
    {
        proof {
            use_type_invariant(self);
        }
        self.code_units.len()
    }

    /// Walks the row tree from the root towards the row described by `target`.
    /// Returns the row's start and end offsets, its index and its node.
    fn search(&self, target: &SearchTarget) -> (res: (Option<(usize, usize, u32, LineNode)>, Ghost<Seq<nat>>))
        ensures
            ({
                let (r, path) = (res.0, res.1@);
                // The walk goes down one path from the root, one child at a time,
                // so it visits at most floor(log2(n)) + 1 nodes.
                &&& path.len() >= 1
                &&& path[0] == 0
                &&& forall|k: int| 0 <= k < path.len() ==> #[trigger] path[k] < self.row_index().len()
                &&& forall|k: int|
                    0 <= k < path.len() - 1 ==> #[trigger] path[k + 1] == 2 * path[k] + 1 || path[k
                        + 1] == 2 * path[k] + 2
                &&& two_pow((path.len() - 1) as nat) <= self.row_index().len()
                &&& r matches Some((_, _, _, node)) ==> node == self.row_index()[path.last() as int]
            }),
            ({
            let r = res.0;
            &&& match *target {
                SearchTarget::Offset(o) => r is Some <==> o <= self@.len(),
                SearchTarget::Row(row) => r is Some <==> row < self.rows().len(),
            }
            &&& r matches Some((start, end, row, node)) ==> {
                &&& row < self.rows().len()
                &&& start == row_start(self.rows(), row as int)
                &&& end == start + self.rows()[row as int]
                &&& node.len == self.rows()[row as int]
                &&& match *target {
                    SearchTarget::Offset(o) => start <= o <= end,
                    SearchTarget::Row(target_row) => row == target_row,
                }
            }
            }),
    {
        proof {
            use_type_invariant(self);
            reveal(all_summarized);
            lemma_row_lengths(self@);
        }
        let ghost l = self.rows();
        let ghost n = self.nodes.len() as int;
        let ghost nodes = self.nodes@;
        let mut left_ancestor_end_offset: usize = 0;
        let mut left_ancestor_row: u32 = 0;
        let mut cur_node_index: usize = 0;
        let ghost mut lo: int = 0;
        let ghost mut hi: int = n;
        let ghost mut path: Seq<nat> = Seq::empty();
        proof {
            assert(l.subrange(0, n) =~= l);
            assert(l.take(0) =~= Seq::<int>::empty());
            assert(l.take(n) =~= l);
        }
        while cur_node_index < self.nodes.len()
            invariant
                l == self.rows(),
                n == self.nodes.len(),
                nodes == self.nodes@,
                n == l.len(),
                2 * n + 2 <= usize::MAX,
                inorder(nodes, 0) == l,
                all_summarized(nodes),
                all_nonneg(l),
                forall|i: int| 0 <= i < l.len() ==> l[i] <= self@.len(),
                span(l) == self@.len() + 1,
                self@.len() < u32::MAX,
                0 <= lo <= hi <= n,
                cur_node_index <= 2 * n,
                left_ancestor_row == lo,
                left_ancestor_end_offset == row_start(l, lo),
                inorder(nodes, cur_node_index as nat) == l.subrange(lo, hi),
                match *target {
                    SearchTarget::Offset(o) => o <= self@.len() ==> row_start(l, lo) <= o < row_start(l, hi),
                    SearchTarget::Row(row) => row < n ==> lo <= row < hi,
                },
                n >= 1,
                path.len() == 0 ==> cur_node_index == 0,
                path.len() > 0 ==> path[0] == 0 && (cur_node_index == 2 * path.last() + 1
                    || cur_node_index == 2 * path.last() + 2),
                forall|k: int| 0 <= k < path.len() ==> #[trigger] path[k] < n,
                forall|k: int|
                    0 <= k < path.len() - 1 ==> #[trigger] path[k + 1] == 2 * path[k] + 1 || path[k
                        + 1] == 2 * path[k] + 2,
                cur_node_index + 1 >= two_pow(path.len()),
                path.len() > 0 ==> path.last() + 1 >= two_pow((path.len() - 1) as nat),
            decreases hi - lo,
        {
            let ghost i = cur_node_index as nat;
            proof {
                let p2 = path.push(i);
                assert(p2.last() + 1 >= two_pow((p2.len() - 1) as nat));
                assert(two_pow(p2.len()) == 2 * two_pow((p2.len() - 1) as nat));
                path = p2;
            }
            let left_child_index = cur_node_index * 2 + 1;
            let right_child_index = cur_node_index * 2 + 2;
            let cur_node = self.nodes[cur_node_index];
            let (_, _, left_child_offset, left_child_rows) = child_summary(&self.nodes, left_child_index);
            let ghost left_rows = inorder(nodes, 2 * i + 1);
            let ghost m = lo + left_rows.len();
            proof {
                let right_rows = inorder(nodes, 2 * i + 2);
                let whole = left_rows + seq![cur_node.len as int] + right_rows;
                assert(nodes[i as int] == cur_node);
                assert(inorder(nodes, i) == whole);
                assert(whole.len() == hi - lo);
                assert(whole[left_rows.len() as int] == cur_node.len);
                assert(l.subrange(lo, hi)[left_rows.len() as int] == l[m]);
                assert(left_rows =~= l.subrange(lo, m));
                assert forall|k: int| 0 <= k < right_rows.len() implies right_rows[k] == l[m + 1 + k] by {
                    assert(whole[left_rows.len() + 1 + k] == right_rows[k]);
                    assert(l.subrange(lo, hi)[left_rows.len() + 1 + k] == l[m + 1 + k]);
                }
                assert(right_rows =~= l.subrange(m + 1, hi));
                assert(l[m] == cur_node.len);
                reveal(all_summarized);
                if left_child_index < n {
                    lemma_descendant_of_root(left_child_index as nat);
                    assert(summarizes(nodes[left_child_index as int], inorder(nodes, left_child_index as nat)));
                }
                lemma_row_start_split(l, lo, m);
                lemma_row_start_next(l, m);
                lemma_row_start_monotone(l, m + 1, n);
                lemma_row_start_monotone(l, 0, m);
                assert(row_start(l, 0) == 0) by {
                    assert(l.take(0) =~= Seq::<int>::empty());
                }
                assert(row_start(l, n) == span(l)) by {
                    assert(l.take(n) =~= l);
                }
            }
            let start = left_ancestor_end_offset + left_child_offset;
            let end = start + cur_node.len as usize;
            let cur_row = left_ancestor_row + left_child_rows;
            let go_left = match target {
                SearchTarget::Offset(o) => *o < start,
                SearchTarget::Row(row) => *row < cur_row,
            };
            let go_right = match target {
                SearchTarget::Offset(o) => *o > end,
                SearchTarget::Row(row) => *row > cur_row,
            };
            if go_left {
                cur_node_index = left_child_index;
                proof {
                    hi = m;
                }
            } else if go_right {
                cur_node_index = right_child_index;
                left_ancestor_end_offset = end + 1;
                left_ancestor_row = cur_row + 1;
                proof {
                    lo = m + 1;
                }
            } else {
                proof {
                    lemma_two_pow_bound(path.last(), (path.len() - 1) as nat, n as nat);
                }
                return (Some((start, end, cur_row, cur_node)), Ghost(path));
            }
        }
        proof {
            assert(lo == hi);
            lemma_two_pow_bound(path.last(), (path.len() - 1) as nat, n as nat);
        }
        (None, Ghost(path))
    }

    /// The position (row and column) of `offset`; the end of the text is a valid
    /// offset.
    pub fn point_for_offset(&self, offset: usize) -> (r: Result<Point, Error>)
        ensures
            self@.len() < u32::MAX,
            match r {
                Ok(p) => {
                    &&& offset <= self@.len()
                    &&& p.row == row_of(self.rows(), offset as int)
                    &&& p.row < self.rows().len()
                    &&& row_start(self.rows(), p.row as int) <= offset <= row_start(self.rows(), p.row as int)
                        + self.rows()[p.row as int]
                    &&& p.column == offset - row_start(self.rows(), p.row as int)
                },
                Err(e) => offset > self@.len() && e == Error::OffsetOutOfRange,
            },
    {
        proof {
            use_type_invariant(self);
        }
        let (search_result, Ghost(_path)) = self.search(&SearchTarget::Offset(offset));
        if let Some((start, _end, row, _node)) = search_result {
            proof {
                use_type_invariant(self);
                lemma_row_lengths(self@);
                lemma_row_unique(self.rows(), offset as int, row as int);
            }
            Ok(Point::new(row, (offset - start) as u32))
        } else {
            Err(Error::OffsetOutOfRange)
        }
    }

    /// The longest row among the row holding `start` (clipped to the range) and
    /// the following rows that lie inside the range, up to the node where the
    /// paths to `start` and `end` part; found walking down towards `start`. Rows
    /// found later lie further left, so they win ties.
    #[verifier::rlimit(100)]
    #[verifier::spinoff_prover]
    fn longest_row_from_start(&self, start: usize, end: usize) -> (r: (u32, u32))
        requires
            start <= end <= self@.len(),
        ensures
            ({
                let l = self.rows();
                let r0 = row_of(l, start as int);
                let r1 = row_of(l, end as int);
                let split = split_row(self.nodes@, 0, 0, r0, r1);
                let best = clipped(l, start as int, end as int, r0, max_int(r0 + 1, min_int(r1, split + 1)));
                &&& r.1 == seq_max(best)
                &&& r.0 == r0 + first_argmax(best)
            }),
    {
        proof {
            use_type_invariant(self);
            reveal(all_summarized);
            lemma_row_lengths(self@);
        }
        let ghost l = self.rows();
        let ghost n = self.nodes.len() as int;
        let ghost nodes = self.nodes@;
        let ghost r0 = row_of(l, start as int);
        let ghost r1 = row_of(l, end as int);
        let ghost split = split_row(nodes, 0, 0, r0, r1);
        proof {
            lemma_row_of(l, start as int);
            lemma_row_of(l, end as int);
            lemma_row_position(l, end as int, r0);
            assert(l.subrange(0, n) =~= l);
            assert(l.take(0) =~= Seq::<int>::empty());
            lemma_row_start_end(l);
            assert(clipped(l, start as int, end as int, n, max_int(n, min_int(r1, n))) =~= Seq::<int>::empty());
            assert(seq_max(Seq::<int>::empty()) == 0);
            reveal(start_walk_ok);
        }
        let mut left_ancestor_end_offset: usize = 0;
        let mut left_ancestor_row: u32 = 0;
        let mut right_ancestor_start_offset: usize = self.nodes[0].offset;
        let mut cur_node_index: usize = 0;
        let mut longest_row: u32 = 0;
        let mut longest_row_len: u32 = 0;
        let ghost mut lo: int = 0;
        let ghost mut hi: int = n;
        let ghost mut c: int = n;
        proof {
            assert(is_descendant(0, 0));
            assert(summarizes(nodes[0], inorder(nodes, 0)));
        }
        while cur_node_index < self.nodes.len()
            invariant
                l == self.rows(),
                n == self.nodes.len(),
                nodes == self.nodes@,
                n == l.len(),
                n >= 1,
                2 * n + 2 <= usize::MAX,
                inorder(nodes, 0) == l,
                all_summarized(nodes),
                all_nonneg(l),
                span(l) == self@.len() + 1,
                self@.len() < u32::MAX,
                start <= end <= self@.len(),
                r0 == row_of(l, start as int),
                r1 == row_of(l, end as int),
                0 <= r0 <= r1 < n,
                split == split_row(nodes, 0, 0, r0, r1),
                0 <= lo <= r0 < hi <= n,
                cur_node_index <= 2 * n,
                left_ancestor_row == lo,
                left_ancestor_end_offset == row_start(l, lo),
                right_ancestor_start_offset == row_start(l, hi),
                inorder(nodes, cur_node_index as nat) == l.subrange(lo, hi),
                hi <= c <= n,
                r1 < hi ==> split_row(nodes, cur_node_index as nat, lo, r0, r1) == split,
                r1 >= hi ==> c == split + 1,
                start_walk_ok(l, start as int, end as int, r1, hi, c, longest_row as int, longest_row_len as int),
                longest_row_len <= self@.len(),
                forall|i: int| 0 <= i < l.len() ==> l[i] <= self@.len(),
                n <= self@.len() + 1,
            decreases hi - lo,
        {
            let ghost i = cur_node_index as nat;
            proof {
                lemma_tree_step(nodes, l, i, lo, hi);
            }
            let left_child_index = cur_node_index * 2 + 1;
            let right_child_index = cur_node_index * 2 + 2;
            let cur_node = self.nodes[cur_node_index];
            let (_, _, left_child_offset, left_child_rows) = child_summary(&self.nodes, left_child_index);
            let (right_child_longest_row, right_child_longest_row_len, _, _) = child_summary(&self.nodes, right_child_index);
            let ghost m = lo + inorder(nodes, 2 * i + 1).len();
            proof {
                lemma_row_start_split(l, lo, m);
                lemma_row_start_next(l, m);
                lemma_row_vs_range(l, start as int, end as int, m);
                if hi < n {
                    lemma_row_vs_range(l, start as int, end as int, hi);
                    lemma_row_start_split(l, m + 1, hi);
                } else {
                    lemma_row_start_end(l);
                }
                lemma_row_start_monotone(l, m + 1, n);
                lemma_row_start_end(l);
                lemma_max_bounded(l.subrange(m + 1, hi), self@.len() as int);
                assert(left_child_rows == inorder(nodes, 2 * i + 1).len());
                if right_child_index < n {
                    assert(inorder(nodes, 2 * i + 2).len() > 0);
                }
            }
            let start_n = left_ancestor_end_offset + left_child_offset;
            let end_n = start_n + cur_node.len as usize;
            let row = left_ancestor_row + left_child_rows;
            let ghost lr0 = longest_row as int;
            let ghost lrl0 = longest_row_len as int;
            let take_right = start <= end_n && right_ancestor_start_offset <= end;
            if take_right {
                proof {
                    lemma_start_walk_subtree(l, start as int, end as int, r0, r1, m, hi, c, lr0, lrl0,
                        right_child_longest_row as int, right_child_longest_row_len as int);
                }
                if right_child_index < self.nodes.len() {
                    if right_child_longest_row_len >= longest_row_len {
                        longest_row = row + 1 + right_child_longest_row;
                        longest_row_len = right_child_longest_row_len;
                    }
                }
            }
            if start < start_n {
                let ghost lr1 = longest_row as int;
                let ghost lrl1 = longest_row_len as int;
                if end_n < end && cur_node.len >= longest_row_len {
                    longest_row = row;
                    longest_row_len = cur_node.len;
                }
                proof {
                    if r1 < hi {
                        lemma_start_walk_restart(l, start as int, end as int, r0, r1, m, hi, c, lr0, lrl0);
                        c = m + 1;
                    } else {
                        lemma_start_walk_row(l, start as int, end as int, r0, r1, m, c, lr1, lrl1);
                    }
                    hi = m;
                }
                cur_node_index = left_child_index;
                right_ancestor_start_offset = start_n;
            } else if start > end_n {
                cur_node_index = right_child_index;
                left_ancestor_end_offset = end_n + 1;
                left_ancestor_row = row + 1;
                proof {
                    lo = m + 1;
                }
            } else {
                let node_end = if end_n < end {
                    end_n
                } else {
                    end
                };
                let node_len = (node_end - start) as u32;
                proof {
                    if r1 < hi {
                        lemma_start_walk_reset(l, start as int, end as int, r1, hi, c, r0 + 1, r0 + 1,
                            longest_row as int, longest_row_len as int);
                    }
                    lemma_start_walk_found(l, start as int, end as int, r0, r1, hi, c,
                        longest_row as int, longest_row_len as int, split);
                }
                if node_len >= longest_row_len {
                    longest_row = row;
                    longest_row_len = node_len;
                }
                return (longest_row, longest_row_len);
            }
        }
        proof {
            assert(l.subrange(lo, hi).len() == 0);
        }
        (longest_row, longest_row_len)
    }

    /// Continues from the result of the walk towards the start (`longest_row`,
    /// `longest_row_len`) with the rows inside the range up to the row holding
    /// `end`, walking down towards `end`. Rows found later lie further right, so
    /// they win only when strictly longer.
    #[verifier::rlimit(100)]
    #[verifier::spinoff_prover]
    fn longest_row_to_end(&self, start: usize, end: usize, longest_row: u32, longest_row_len: u32) -> (r: (u32, u32))
        requires
            start <= end <= self@.len(),
            ({
                let l = self.rows();
                let r0 = row_of(l, start as int);
                let r1 = row_of(l, end as int);
                let split = split_row(self.nodes@, 0, 0, r0, r1);
                end_walk_ok(l, start as int, end as int, r0, max_int(r0 + 1, min_int(r1, split + 1)),
                    longest_row as int, longest_row_len as int)
            }),
        ensures
            ({
                let l = self.rows();
                let r0 = row_of(l, start as int);
                let r1 = row_of(l, end as int);
                end_walk_ok(l, start as int, end as int, r0, r1 + 1, r.0 as int, r.1 as int)
            }),
    {
        proof {
            use_type_invariant(self);
            reveal(all_summarized);
            lemma_row_lengths(self@);
        }
        let ghost l = self.rows();
        let ghost n = self.nodes.len() as int;
        let ghost nodes = self.nodes@;
        let ghost r0 = row_of(l, start as int);
        let ghost r1 = row_of(l, end as int);
        let ghost split = split_row(nodes, 0, 0, r0, r1);
        let ghost d1 = max_int(r0 + 1, min_int(r1, split + 1));
        proof {
            lemma_row_of(l, start as int);
            lemma_row_of(l, end as int);
            lemma_row_position(l, end as int, r0);
            assert(l.subrange(0, n) =~= l);
            assert(l.take(0) =~= Seq::<int>::empty());
            lemma_row_start_end(l);
            lemma_clipped_nonneg(l, start as int, end as int);
            let best = clipped(l, start as int, end as int, r0, d1);
            assert(all_nonneg(best)) by {
                let whole = clipped(l, start as int, end as int, r0, r1 + 1);
                assert forall|i: int| 0 <= i < best.len() implies best[i] >= 0 by {
                    assert(best[i] == whole[i]);
                }
            }
            lemma_first_argmax_char(best);
            reveal(end_walk_ok);
            assert(longest_row_len <= self@.len()) by {
                let k = first_argmax(best);
                assert(best[k] == clipped_len(l, start as int, end as int, r0 + k));
                lemma_row_vs_range(l, start as int, end as int, r0 + k);
            }
            assert(is_descendant(0, 0));
        }
        let mut longest_row = longest_row;
        let mut longest_row_len = longest_row_len;
        let mut left_ancestor_end_offset: usize = 0;
        let mut left_ancestor_row: u32 = 0;
        let mut cur_node_index: usize = 0;
        let ghost mut lo: int = 0;
        let ghost mut hi: int = n;
        let ghost mut e: int = d1;
        while cur_node_index < self.nodes.len()
            invariant
                l == self.rows(),
                n == self.nodes.len(),
                nodes == self.nodes@,
                n == l.len(),
                n >= 1,
                2 * n + 2 <= usize::MAX,
                inorder(nodes, 0) == l,
                all_summarized(nodes),
                all_nonneg(l),
                forall|i: int| 0 <= i < l.len() ==> l[i] <= self@.len(),
                n <= self@.len() + 1,
                span(l) == self@.len() + 1,
                self@.len() < u32::MAX,
                start <= end <= self@.len(),
                r0 == row_of(l, start as int),
                r1 == row_of(l, end as int),
                0 <= r0 <= r1 < n,
                split == split_row(nodes, 0, 0, r0, r1),
                d1 == max_int(r0 + 1, min_int(r1, split + 1)),
                0 <= lo <= r1 < hi <= n,
                cur_node_index <= 2 * n,
                left_ancestor_row == lo,
                left_ancestor_end_offset == row_start(l, lo),
                inorder(nodes, cur_node_index as nat) == l.subrange(lo, hi),
                r0 < e <= r1 + 1,
                lo <= r0 ==> e == d1 && split_row(nodes, cur_node_index as nat, lo, r0, r1) == split,
                lo > r0 ==> e >= lo,
                end_walk_ok(l, start as int, end as int, r0, e, longest_row as int, longest_row_len as int),
                longest_row_len <= self@.len(),
            decreases hi - lo,
        {
            let ghost i = cur_node_index as nat;
            proof {
                lemma_tree_step(nodes, l, i, lo, hi);
            }
            let left_child_index = cur_node_index * 2 + 1;
            let right_child_index = cur_node_index * 2 + 2;
            let cur_node = self.nodes[cur_node_index];
            let (left_child_longest_row, left_child_longest_row_len, left_child_offset, left_child_rows) =
                child_summary(&self.nodes, left_child_index);
            let ghost m = lo + inorder(nodes, 2 * i + 1).len();
            proof {
                lemma_row_start_split(l, lo, m);
                lemma_row_start_next(l, m);
                lemma_row_vs_range(l, start as int, end as int, m);
                lemma_row_vs_range(l, start as int, end as int, lo);
                lemma_row_start_monotone(l, m + 1, n);
                lemma_row_start_monotone(l, lo, m);
                lemma_row_start_end(l);
                lemma_max_bounded(l.subrange(lo, m), self@.len() as int);
                lemma_max_nonneg(l.subrange(lo, m));
                assert(left_child_rows == inorder(nodes, 2 * i + 1).len());
            }
            let start_n = left_ancestor_end_offset + left_child_offset;
            let end_n = start_n + cur_node.len as usize;
            let row = left_ancestor_row + left_child_rows;
            let ghost lr0 = longest_row as int;
            let ghost lrl0 = longest_row_len as int;
            let ghost e0 = e;
            let take_left = end >= start_n && left_ancestor_end_offset >= start;
            if take_left {
                proof {
                    lemma_end_walk_left(l, start as int, end as int, lo, m, e, lr0, lrl0,
                        left_child_longest_row as int, left_child_longest_row_len as int);
                    e = max_int(e, m);
                }
                if left_child_index < self.nodes.len() {
                    if left_child_longest_row_len > longest_row_len {
                        longest_row = left_ancestor_row + left_child_longest_row;
                        longest_row_len = left_child_longest_row_len;
                    }
                }
            }
            if end < start_n {
                cur_node_index = left_child_index;
                proof {
                    hi = m;
                }
            } else if end > end_n {
                let ghost lr1 = longest_row as int;
                let ghost lrl1 = longest_row_len as int;
                if start < start_n && cur_node.len > longest_row_len {
                    longest_row = row;
                    longest_row_len = cur_node.len;
                }
                proof {
                    if r0 < m {
                        lemma_full_rows(l, start as int, end as int, m, m + 1);
                        assert(clipped(l, start as int, end as int, m, m + 1) =~= seq![l[m]]);
                        lemma_max_single(l[m]);
                        lemma_end_walk_block(l, start as int, end as int, e, m, m + 1, lr1, lrl1, 0, l[m]);
                        e = max_int(e, m + 1);
                    }
                    lo = m + 1;
                }
                cur_node_index = right_child_index;
                left_ancestor_end_offset = end_n + 1;
                left_ancestor_row = row + 1;
            } else {
                let node_start = if start > start_n {
                    start
                } else {
                    start_n
                };
                let node_len = (end - node_start) as u32;
                proof {
                    let v = clipped_len(l, start as int, end as int, m);
                    assert(v == node_len);
                    assert(clipped(l, start as int, end as int, m, m + 1) =~= seq![v]);
                    lemma_max_single(v);
                    lemma_end_walk_block(l, start as int, end as int, e, m, m + 1,
                        longest_row as int, longest_row_len as int, 0, v);
                }
                if node_len > longest_row_len {
                    longest_row = row;
                    longest_row_len = node_len;
                }
                return (longest_row, longest_row_len);
            }
        }
        proof {
            assert(l.subrange(lo, hi).len() == 0);
        }
        (longest_row, longest_row_len)
    }

    /// The longest row within the offset range `target_range` (each row clipped to
    /// the range) and its length; the first such row when several are equally long.
    pub fn longest_row_in_range(&self, target_range: std::ops::Range<usize>) -> (r: Result<(u32, u32), Error>)
        requires
            target_range.start <= target_range.end || target_range.start > self@.len(),
        ensures
            match r {
                Ok((row, len)) => {
                    let rows = row_lengths(self@.subrange(target_range.start as int, target_range.end as int));
                    &&& target_range.end <= self@.len()
                    &&& row == row_of(self.rows(), target_range.start as int) + first_argmax(rows)
                    &&& len == seq_max(rows)
                },
                Err(e) => {
                    &&& (target_range.start > self@.len() || target_range.end > self@.len())
                    &&& e == Error::OffsetOutOfRange
                },
            },
    {
        if target_range.start > self.len() || target_range.end > self.len() {
            return Err(Error::OffsetOutOfRange);
        }
        let (longest_row, longest_row_len) = self.longest_row_from_start(target_range.start, target_range.end);
        proof {
            reveal(end_walk_ok);
        }
        let (longest_row, longest_row_len) = self.longest_row_to_end(
            target_range.start,
            target_range.end,
            longest_row,
            longest_row_len,
        );
        proof {
            reveal(end_walk_ok);
            lemma_clipped_rows_of_slice(self@, target_range.start as int, target_range.end as int);
        }
        Ok((longest_row, longest_row_len))
    }

    /// The offset of `point`, if its row exists and its column lies within that row
    /// (the row's end included).
    pub fn offset_for_point(&self, point: Point) -> (r: Result<usize, Error>)
        ensures
            match r {
                Ok(o) => {
                    &&& point.row < self.rows().len()
                    &&& point.column <= self.rows()[point.row as int]
                    &&& o == row_start(self.rows(), point.row as int) + point.column
                },
                Err(e) => {
                    &&& !(point.row < self.rows().len() && point.column <= self.rows()[point.row as int])
                    &&& e == Error::OffsetOutOfRange
                },
            },
    {
        let (search_result, Ghost(_path)) = self.search(&SearchTarget::Row(point.row));
        if let Some((start, _end, _row, node)) = search_result {
            if point.column <= node.len {
                Ok(start + point.column as usize)
            } else {
                Err(Error::OffsetOutOfRange)
            }
        } else {
            Err(Error::OffsetOutOfRange)
        }
    }
}

/// `first_argmax` picks the first position holding the maximum.
pub proof fn lemma_first_argmax_char(l: Seq<int>)
    requires
        l.len() > 0,
        all_nonneg(l),
    ensures
        0 <= first_argmax(l) < l.len(),
        l[first_argmax(l)] == seq_max(l),
        forall|i: int| 0 <= i < first_argmax(l) ==> l[i] < seq_max(l),
        forall|i: int| 0 <= i < l.len() ==> l[i] <= seq_max(l),
    decreases l.len(),
{
    let p = l.drop_last();
    if p.len() == 0 {
        lemma_max_single(l[0]);
        assert(l =~= seq![l[0]]);
    } else {
        assert(all_nonneg(p));
        lemma_first_argmax_char(p);
        assert forall|i: int| 0 <= i < l.len() - 1 implies l[i] == p[i] by {}
    }
}

/// A position that holds the maximum, with only smaller entries before it, is
/// the first argmax.
pub proof fn lemma_first_argmax_unique(l: Seq<int>, q: int)
    requires
        l.len() > 0,
        all_nonneg(l),
        0 <= q < l.len(),
        forall|i: int| 0 <= i < l.len() ==> l[i] <= l[q],
        forall|i: int| 0 <= i < q ==> l[i] < l[q],
    ensures
        first_argmax(l) == q,
        seq_max(l) == l[q],
{
    lemma_first_argmax_char(l);
}

/// Clipping row `k` to the offset range `start..end`: the part of the row (its end
/// included) that lies in the range.
pub open spec fn clipped_len(l: Seq<int>, start: int, end: int, k: int) -> int {
    let s = row_start(l, k);
    let e = s + l[k];
    (if e < end { e } else { end }) - (if s > start { s } else { start })
}

/// The clipped lengths of rows `a..b`.
pub open spec fn clipped(l: Seq<int>, start: int, end: int, a: int, b: int) -> Seq<int> {
    Seq::new((b - a) as nat, |i: int| clipped_len(l, start, end, a + i))
}

/// The row holding offset `o` (a row's end offset belongs to the row).
pub open spec fn row_of(l: Seq<int>, o: int) -> int
    decreases l.len(),
{
    if l.len() <= 1 || o <= l[0] {
        0
    } else {
        1 + row_of(l.drop_first(), o - l[0] - 1)
    }
}

pub proof fn lemma_row_start_drop_first(l: Seq<int>, k: int)
    requires
        1 <= k <= l.len(),
    ensures
        row_start(l, k) == l[0] + 1 + row_start(l.drop_first(), k - 1),
{
    assert(l.take(k) =~= seq![l[0]] + l.drop_first().take(k - 1));
    lemma_span_concat(seq![l[0]], l.drop_first().take(k - 1));
    lemma_span_single(l[0]);
}

/// `row_of` finds the row whose offsets hold `o`.
pub proof fn lemma_row_of(l: Seq<int>, o: int)
    requires
        l.len() >= 1,
        all_nonneg(l),
        0 <= o < span(l),
    ensures
        0 <= row_of(l, o) < l.len(),
        row_start(l, row_of(l, o)) <= o <= row_start(l, row_of(l, o)) + l[row_of(l, o)],
    decreases l.len(),
{
    assert(l.take(0) =~= Seq::<int>::empty());
    if l.len() <= 1 || o <= l[0] {
        if l.len() == 1 {
            assert(l =~= seq![l[0]]);
            lemma_span_single(l[0]);
        }
    } else {
        let t = l.drop_first();
        assert(l =~= seq![l[0]] + t);
        lemma_span_concat(seq![l[0]], t);
        lemma_span_single(l[0]);
        assert(all_nonneg(t));
        lemma_row_of(t, o - l[0] - 1);
        lemma_row_start_drop_first(l, 1 + row_of(t, o - l[0] - 1));
    }
}

/// The rows' closed offset ranges do not overlap, so at most one row holds an offset.
pub proof fn lemma_row_unique(l: Seq<int>, o: int, k: int)
    requires
        all_nonneg(l),
        0 <= k < l.len(),
        row_start(l, k) <= o <= row_start(l, k) + l[k],
        l.len() >= 1,
        0 <= o < span(l),
    ensures
        k == row_of(l, o),
{
    lemma_row_of(l, o);
    let r = row_of(l, o);
    if k < r {
        lemma_row_start_next(l, k);
        lemma_row_start_monotone(l, k + 1, r);
    } else if k > r {
        lemma_row_start_next(l, r);
        lemma_row_start_monotone(l, r + 1, k);
    }
}

/// Comparing a row's start and end with an offset tells whether the row comes
/// before, holds, or follows the offset's row.
pub proof fn lemma_row_position(l: Seq<int>, o: int, k: int)
    requires
        all_nonneg(l),
        l.len() >= 1,
        0 <= o < span(l),
        0 <= k < l.len(),
    ensures
        (k <= row_of(l, o)) == (row_start(l, k) <= o),
        (k < row_of(l, o)) == (row_start(l, k) + l[k] < o),
{
    lemma_row_of(l, o);
    let r = row_of(l, o);
    if k < r {
        lemma_row_start_next(l, k);
        lemma_row_start_monotone(l, k + 1, r);
    } else if k > r {
        lemma_row_start_next(l, r);
        lemma_row_start_monotone(l, r + 1, k);
    }
}

/// The row after the last row starts past every offset of the text.
pub proof fn lemma_row_start_end(l: Seq<int>)
    ensures
        row_start(l, l.len() as int) == span(l),
{
    assert(l.take(l.len() as int) =~= l);
}

/// Rows that lie entirely inside the range keep their full length when clipped.
pub proof fn lemma_full_rows(l: Seq<int>, start: int, end: int, a: int, b: int)
    requires
        0 <= a <= b <= l.len(),
        forall|k: int| a <= k < b ==> start <= row_start(l, k) && row_start(l, k) + l[k] < end,
    ensures
        clipped(l, start, end, a, b) =~= l.subrange(a, b),
{
}

/// Prepending a block to the rows already considered, keeping the first of equal
/// maxima: the block wins ties because it comes first.
pub proof fn lemma_prepend_best(block: Seq<int>, acc: Seq<int>, base: int, lr: int, lrl: int)
    requires
        lrl == seq_max(acc),
        acc.len() > 0 ==> lr == base + block.len() + first_argmax(acc),
    ensures
        seq_max(block + acc) == (if seq_max(block) >= lrl { seq_max(block) } else { lrl }),
        block.len() > 0 ==> base + first_argmax(block + acc) == (if seq_max(block) >= lrl {
            base + first_argmax(block)
        } else {
            lr
        }),
{
    lemma_max_concat(block, acc);
    lemma_max_nonneg(block);
    lemma_max_nonneg(acc);
    if acc.len() == 0 {
        assert(block + acc =~= block);
    }
}

/// Extending the rows considered by a block that starts inside or right after
/// them, keeping the first of equal maxima: the block wins only when strictly
/// greater.
pub proof fn lemma_extend_best(l: Seq<int>, start: int, end: int, r0: int, e: int, x: int, y: int, r1: int)
    requires
        r0 < e,
        r0 <= x <= e,
        x <= y,
        e <= r1 + 1,
        y <= r1 + 1,
        all_nonneg(clipped(l, start, end, r0, r1 + 1)),
    ensures
        ({
            let a = clipped(l, start, end, r0, e);
            let b = clipped(l, start, end, x, y);
            let c = clipped(l, start, end, r0, if e > y { e } else { y });
            &&& seq_max(c) == (if seq_max(b) > seq_max(a) { seq_max(b) } else { seq_max(a) })
            &&& r0 + first_argmax(c) == (if seq_max(b) > seq_max(a) {
                x + first_argmax(b)
            } else {
                r0 + first_argmax(a)
            })
        }),
{
    let whole = clipped(l, start, end, r0, r1 + 1);
    let a = clipped(l, start, end, r0, e);
    let b = clipped(l, start, end, x, y);
    let ye = if e > y { e } else { y };
    let c = clipped(l, start, end, r0, ye);
    assert(all_nonneg(a)) by {
        assert forall|i: int| 0 <= i < a.len() implies a[i] >= 0 by {
            assert(a[i] == whole[i]);
        }
    }
    assert(all_nonneg(c)) by {
        assert forall|i: int| 0 <= i < c.len() implies c[i] >= 0 by {
            assert(c[i] == whole[i]);
        }
    }
    lemma_first_argmax_char(a);
    lemma_first_argmax_char(c);
    if b.len() == 0 {
        assert(c =~= a);
        lemma_max_nonneg(b);
        return;
    }
    assert(all_nonneg(b)) by {
        assert forall|i: int| 0 <= i < b.len() implies b[i] >= 0 by {
            assert(b[i] == whole[x - r0 + i]);
        }
    }
    lemma_first_argmax_char(b);
    let pa = first_argmax(a);
    let pb = first_argmax(b);
    // Every entry of `c` is an entry of `a` or of `b`.
    assert forall|i: int| 0 <= i < c.len() implies c[i] <= (if seq_max(b) > seq_max(a) { seq_max(b) } else { seq_max(a) }) by {
        if i < a.len() {
            assert(c[i] == a[i]);
        } else {
            assert(c[i] == b[r0 + i - x]);
        }
    }
    if seq_max(b) > seq_max(a) {
        // The block's first maximum lies after `a`, where nothing reaches it.
        let q = x - r0 + pb;
        assert(q >= a.len()) by {
            if q < a.len() {
                assert(a[q] == b[pb]);
            }
        }
        assert(c[q] == b[pb]);
        assert forall|i: int| 0 <= i < q implies c[i] < c[q] by {
            if i < a.len() {
                assert(c[i] == a[i]);
            } else {
                assert(c[i] == b[r0 + i - x]);
            }
        }
        lemma_first_argmax_unique(c, q);
    } else {
        assert(c[pa] == a[pa]);
        assert forall|i: int| 0 <= i < pa implies c[i] < c[pa] by {
            assert(c[i] == a[i]);
        }
        lemma_first_argmax_unique(c, pa);
    }
}

/// The row of the lowest node whose subtree holds both rows `r0` and `r1`
/// (`r0 <= r1`): the node where the paths to the two rows part.
pub open spec fn split_row(nodes: Seq<LineNode>, i: nat, lo: int, r0: int, r1: int) -> int
    decreases (if i < nodes.len() { nodes.len() - i } else { 0 }),
{
    if i >= nodes.len() {
        lo
    } else {
        let m = lo + inorder(nodes, 2 * i + 1).len();
        if r1 < m {
            split_row(nodes, 2 * i + 1, lo, r0, r1)
        } else if r0 > m {
            split_row(nodes, 2 * i + 2, m + 1, r0, r1)
        } else {
            m
        }
    }
}

/// Every node of the row tree summarizes its subtree.
#[verifier::opaque]
pub open spec fn all_summarized(nodes: Seq<LineNode>) -> bool {
    subtree_ok(nodes, 0)
}

/// Facts about one step of a walk down the row tree.
pub proof fn lemma_tree_step(
    nodes: Seq<LineNode>,
    l: Seq<int>,
    i: nat,
    lo: int,
    hi: int,
)
    requires
        i < nodes.len(),
        0 <= lo <= hi <= l.len(),
        inorder(nodes, i) == l.subrange(lo, hi),
        all_summarized(nodes),
    ensures
        ({
            let left = inorder(nodes, 2 * i + 1);
            let right = inorder(nodes, 2 * i + 2);
            let m = lo + left.len();
            &&& lo <= m < hi
            &&& left == l.subrange(lo, m)
            &&& right == l.subrange(m + 1, hi)
            &&& l[m] == nodes[i as int].len
            &&& 2 * i + 1 < nodes.len() ==> summarizes(nodes[2 * i + 1 as int], left)
            &&& 2 * i + 2 < nodes.len() ==> summarizes(nodes[2 * i + 2 as int], right)
            &&& 2 * i + 1 >= nodes.len() ==> left.len() == 0
            &&& 2 * i + 2 >= nodes.len() ==> right.len() == 0
        }),
{
    reveal(all_summarized);
    let left = inorder(nodes, 2 * i + 1);
    let right = inorder(nodes, 2 * i + 2);
    let m = lo + left.len();
    let whole = left + seq![nodes[i as int].len as int] + right;
    assert(inorder(nodes, i) == whole);
    assert(whole[left.len() as int] == nodes[i as int].len);
    assert(l.subrange(lo, hi)[left.len() as int] == l[m]);
    assert(left =~= l.subrange(lo, m));
    assert forall|k: int| 0 <= k < right.len() implies right[k] == l[m + 1 + k] by {
        assert(whole[left.len() + 1 + k] == right[k]);
        assert(l.subrange(lo, hi)[left.len() + 1 + k] == l[m + 1 + k]);
    }
    assert(right =~= l.subrange(m + 1, hi));
    if 2 * i + 1 < nodes.len() {
        lemma_descendant_of_root((2 * i + 1) as nat);
        assert(summarizes(nodes[2 * i + 1 as int], inorder(nodes, (2 * i + 1) as nat)));
    }
    if 2 * i + 2 < nodes.len() {
        lemma_descendant_of_root((2 * i + 2) as nat);
        assert(summarizes(nodes[2 * i + 2 as int], inorder(nodes, (2 * i + 2) as nat)));
    }
}

pub open spec fn min_int(a: int, b: int) -> int {
    if a < b {
        a
    } else {
        b
    }
}

/// The rows `h..max(h, min(r1, c))` have been considered by the walk towards the
/// range's start, and `(lr, lrl)` is their first longest row and its length.
#[verifier::opaque]
pub open spec fn start_walk_ok(
    l: Seq<int>,
    start: int,
    end: int,
    r1: int,
    h: int,
    c: int,
    lr: int,
    lrl: int,
) -> bool {
    let d = max_int(h, min_int(r1, c));
    let acc = clipped(l, start, end, h, d);
    &&& lrl == seq_max(acc)
    &&& acc.len() > 0 ==> lr == h + first_argmax(acc)
}

pub open spec fn max_int(a: int, b: int) -> int {
    if a > b {
        a
    } else {
        b
    }
}

/// How a row compares with the range's start and end.
pub proof fn lemma_row_vs_range(l: Seq<int>, start: int, end: int, k: int)
    requires
        all_nonneg(l),
        l.len() >= 1,
        0 <= start <= end < span(l),
        0 <= k < l.len(),
    ensures
        (start < row_start(l, k)) == (row_of(l, start) < k),
        (start > row_start(l, k) + l[k]) == (row_of(l, start) > k),
        (row_start(l, k) <= end) == (k <= row_of(l, end)),
        (row_start(l, k) + l[k] < end) == (k < row_of(l, end)),
        (end < row_start(l, k)) == (row_of(l, end) < k),
        (end > row_start(l, k) + l[k]) == (row_of(l, end) > k),
        (start <= row_start(l, k)) == (k > row_of(l, start) || start == row_start(l, k)),
{
    lemma_row_position(l, start, k);
    lemma_row_position(l, end, k);
    lemma_row_of(l, start);
}

/// Taking in the right subtree of a node on the walk towards the start.
pub proof fn lemma_start_walk_subtree(
    l: Seq<int>,
    start: int,
    end: int,
    r0: int,
    r1: int,
    m: int,
    h: int,
    c: int,
    lr: int,
    lrl: int,
    block_lr: int,
    block_lrl: int,
)
    requires
        all_nonneg(l),
        l.len() >= 1,
        0 <= start <= end < span(l),
        r0 == row_of(l, start),
        r1 == row_of(l, end),
        r0 <= m,
        m < h <= r1,
        h <= c,
        h <= l.len(),
        start_walk_ok(l, start, end, r1, h, c, lr, lrl),
        block_lrl == seq_max(l.subrange(m + 1, h)),
        block_lr == first_argmax(l.subrange(m + 1, h)),
    ensures
        m + 1 < h ==> block_lr < h - m - 1,
        start_walk_ok(
            l,
            start,
            end,
            r1,
            m + 1,
            c,
            if m + 1 < h && block_lrl >= lrl { m + 1 + block_lr } else { lr },
            if m + 1 < h && block_lrl >= lrl { block_lrl } else { lrl },
        ),
{
    reveal(start_walk_ok);
    reveal(end_walk_ok);
    lemma_row_of(l, start);
    lemma_row_of(l, end);
    let block = l.subrange(m + 1, h);
    let d = max_int(h, min_int(r1, c));
    let acc = clipped(l, start, end, h, d);
    lemma_max_nonneg(block);
    assert forall|k: int| m + 1 <= k < h implies start <= row_start(l, k) && row_start(l, k) + l[k] < end by {
        lemma_row_vs_range(l, start, end, k);
    }
    lemma_full_rows(l, start, end, m + 1, h);
    assert(clipped(l, start, end, m + 1, d) =~= block + acc);
    lemma_prepend_best(block, acc, m + 1, lr, lrl);
    if block.len() == 0 {
        assert(block + acc =~= acc);
    }
}

/// Taking in the row of a node on the walk towards the start that lies entirely
/// inside the range.
pub proof fn lemma_start_walk_row(
    l: Seq<int>,
    start: int,
    end: int,
    r0: int,
    r1: int,
    m: int,
    c: int,
    lr: int,
    lrl: int,
)
    requires
        all_nonneg(l),
        l.len() >= 1,
        0 <= start <= end < span(l),
        r0 == row_of(l, start),
        r1 == row_of(l, end),
        r0 < m < r1,
        m + 1 <= c,
        start_walk_ok(l, start, end, r1, m + 1, c, lr, lrl),
    ensures
        start_walk_ok(
            l,
            start,
            end,
            r1,
            m,
            c,
            if l[m] >= lrl { m } else { lr },
            if l[m] >= lrl { l[m] } else { lrl },
        ),
{
    reveal(start_walk_ok);
    reveal(end_walk_ok);
    lemma_row_of(l, start);
    lemma_row_of(l, end);
    let d = max_int(m + 1, min_int(r1, c));
    let acc = clipped(l, start, end, m + 1, d);
    lemma_row_vs_range(l, start, end, m);
    lemma_full_rows(l, start, end, m, m + 1);
    assert(clipped(l, start, end, m, d) =~= seq![l[m]] + acc);
    lemma_prepend_best(seq![l[m]], acc, m, lr, lrl);
    lemma_max_single(l[m]);
}

/// At the node where the paths to the two rows part (or below it), the walk
/// towards the start starts over with only the node's own row.
pub proof fn lemma_start_walk_restart(
    l: Seq<int>,
    start: int,
    end: int,
    r0: int,
    r1: int,
    m: int,
    h: int,
    c: int,
    lr: int,
    lrl: int,
)
    requires
        all_nonneg(l),
        l.len() >= 1,
        0 <= start <= end < span(l),
        r0 == row_of(l, start),
        r1 == row_of(l, end),
        r0 < m,
        r1 < h,
        m < h,
        h <= c,
        start_walk_ok(l, start, end, r1, h, c, lr, lrl),
    ensures
        lrl == 0,
        start_walk_ok(
            l,
            start,
            end,
            r1,
            m,
            m + 1,
            if m < r1 && l[m] >= lrl { m } else { lr },
            if m < r1 && l[m] >= lrl { l[m] } else { lrl },
        ),
{
    reveal(start_walk_ok);
    reveal(end_walk_ok);
    lemma_row_of(l, start);
    lemma_row_of(l, end);
    let d = max_int(h, min_int(r1, c));
    assert(clipped(l, start, end, h, d).len() == 0);
    assert(seq_max(Seq::<int>::empty()) == 0);
    assert(clipped(l, start, end, h, d) =~= Seq::<int>::empty());
    let d2 = max_int(m, min_int(r1, m + 1));
    if m < r1 {
        lemma_row_vs_range(l, start, end, m);
        lemma_full_rows(l, start, end, m, m + 1);
        assert(clipped(l, start, end, m, d2) =~= seq![l[m]]);
        lemma_max_single(l[m]);
    } else {
        assert(clipped(l, start, end, m, d2) =~= Seq::<int>::empty());
    }
}

/// At the row holding the start, the walk towards the start ends with that row
/// clipped to the range.
pub proof fn lemma_start_walk_found(
    l: Seq<int>,
    start: int,
    end: int,
    r0: int,
    r1: int,
    h: int,
    c: int,
    lr: int,
    lrl: int,
    split: int,
)
    requires
        all_nonneg(l),
        l.len() >= 1,
        0 <= start <= end < span(l),
        r0 == row_of(l, start),
        r1 == row_of(l, end),
        r0 < h,
        h <= c,
        h <= l.len(),
        r1 < h ==> split == r0,
        r1 >= h ==> c == split + 1,
        start_walk_ok(l, start, end, r1, r0 + 1, if r1 < h { r0 + 1 } else { c }, lr, lrl),
    ensures
        ({
            let d = max_int(r0 + 1, min_int(r1, split + 1));
            let best = clipped(l, start, end, r0, d);
            let v = clipped_len(l, start, end, r0);
            &&& v >= 0
            &&& seq_max(best) == (if v >= lrl { v } else { lrl })
            &&& r0 + first_argmax(best) == (if v >= lrl { r0 } else { lr })
        }),
{
    reveal(start_walk_ok);
    reveal(end_walk_ok);
    lemma_row_of(l, start);
    lemma_row_of(l, end);
    lemma_row_of(l, start);
    let c2 = if r1 < h { r0 + 1 } else { c };
    let d = max_int(r0 + 1, min_int(r1, split + 1));
    let d_old = max_int(r0 + 1, min_int(r1, c2));
    assert(d == d_old);
    let acc = clipped(l, start, end, r0 + 1, d);
    let v = clipped_len(l, start, end, r0);
    assert(clipped(l, start, end, r0, d) =~= seq![v] + acc);
    lemma_prepend_best(seq![v], acc, r0, lr, lrl);
    lemma_max_single(v);
}

/// Clipped to the range, the rows from the start's row to the end's row have
/// non-negative lengths.
pub proof fn lemma_clipped_nonneg(l: Seq<int>, start: int, end: int)
    requires
        all_nonneg(l),
        l.len() >= 1,
        0 <= start <= end < span(l),
    ensures
        all_nonneg(clipped(l, start, end, row_of(l, start), row_of(l, end) + 1)),
{
    let r0 = row_of(l, start);
    let r1 = row_of(l, end);
    lemma_row_of(l, start);
    lemma_row_of(l, end);
    lemma_row_position(l, end, r0);
    let c = clipped(l, start, end, r0, r1 + 1);
    assert forall|i: int| 0 <= i < c.len() implies c[i] >= 0 by {
        let k = r0 + i;
        assert(c[i] == clipped_len(l, start, end, k));
        lemma_row_vs_range(l, start, end, k);
    }
}

/// The rows `r0..e` have been considered by the walk towards the range's end,
/// and `(lr, lrl)` is their first longest row and its length.
#[verifier::opaque]
pub open spec fn end_walk_ok(l: Seq<int>, start: int, end: int, r0: int, e: int, lr: int, lrl: int) -> bool {
    let best = clipped(l, start, end, r0, e);
    &&& lrl == seq_max(best)
    &&& lr == r0 + first_argmax(best)
}

/// Taking in the rows `x..y` on the walk towards the end; they start inside or
/// right after the rows considered so far.
pub proof fn lemma_end_walk_block(
    l: Seq<int>,
    start: int,
    end: int,
    e: int,
    x: int,
    y: int,
    lr: int,
    lrl: int,
    block_lr: int,
    block_lrl: int,
)
    requires
        all_nonneg(l),
        l.len() >= 1,
        0 <= start <= end < span(l),
        row_of(l, start) < e <= row_of(l, end) + 1,
        row_of(l, start) <= x <= e,
        x <= y <= row_of(l, end) + 1,
        end_walk_ok(l, start, end, row_of(l, start), e, lr, lrl),
        block_lrl == seq_max(clipped(l, start, end, x, y)),
        block_lr == first_argmax(clipped(l, start, end, x, y)),
    ensures
        end_walk_ok(
            l,
            start,
            end,
            row_of(l, start),
            max_int(e, y),
            if y > x && block_lrl > lrl { x + block_lr } else { lr },
            if y > x && block_lrl > lrl { block_lrl } else { lrl },
        ),
{
    reveal(start_walk_ok);
    reveal(end_walk_ok);
    lemma_clipped_nonneg(l, start, end);
    lemma_extend_best(l, start, end, row_of(l, start), e, x, y, row_of(l, end));
    if y == x {
        lemma_max_nonneg(clipped(l, start, end, row_of(l, start), e));
        assert(seq_max(clipped(l, start, end, x, y)) == 0) by {
            assert(clipped(l, start, end, x, y) =~= Seq::<int>::empty());
        }
    }
}

/// The end offset of row `k` (where its newline, if any, sits).
pub open spec fn row_end(l: Seq<int>, k: int) -> int {
    row_start(l, k) + l[k]
}

/// Row starts depend only on the rows before.
pub proof fn lemma_row_start_prefix(l: Seq<int>, l2: Seq<int>, k: int)
    requires
        0 <= k <= l.len(),
        k <= l2.len(),
        l.take(k) == l2.take(k),
    ensures
        row_start(l, k) == row_start(l2, k),
{
}

/// A newline sits exactly at the end of each row but the last.
pub proof fn lemma_newlines(s: Seq<u16>, j: int)
    requires
        0 <= j < s.len(),
    ensures
        (s[j] == newline()) == (j == row_end(row_lengths(s), row_of(row_lengths(s), j))),
        s[j] == newline() ==> row_of(row_lengths(s), j + 1) == row_of(row_lengths(s), j) + 1
            && row_start(row_lengths(s), row_of(row_lengths(s), j + 1)) == j + 1,
        s[j] != newline() ==> row_of(row_lengths(s), j + 1) == row_of(row_lengths(s), j),
    decreases s.len(),
{
    let l = row_lengths(s);
    let s0 = s.drop_last();
    let l0 = row_lengths(s0);
    lemma_row_lengths(s);
    lemma_row_lengths(s0);
    let last = s0.len() as int;
    if s.last() == newline() {
        assert(l == l0.push(0));
        // Rows of the shorter text keep their place.
        assert forall|o: int| 0 <= o <= last implies row_of(l, o) == row_of(l0, o) by {
            lemma_row_of(l0, o);
            let k = row_of(l0, o);
            assert(l.take(k) =~= l0.take(k));
            lemma_row_unique(l, o, k);
        }
        assert(l.take(l0.len() as int) =~= l0);
        lemma_row_start_end(l0);
        lemma_row_of(l0, last);
        lemma_row_position(l0, last, l0.len() - 1);
        assert(l.take(l0.len() - 1) =~= l0.take(l0.len() - 1));
        assert(row_of(l, last + 1) == l0.len()) by {
            lemma_row_unique(l, last + 1, l0.len() as int);
        }
        if j < last {
            lemma_newlines(s0, j);
            lemma_row_of(l0, j);
            let k = row_of(l0, j);
            assert(l.take(k) =~= l0.take(k));
            assert(l[k] == l0[k]);
            assert(s0[j] == s[j]);
            if s[j] == newline() {
                let k2 = row_of(l0, j + 1);
                lemma_row_of(l0, j + 1);
                assert(l.take(k2) =~= l0.take(k2));
                assert(row_of(l, j + 1) == k2);
                assert(row_start(l, k2) == row_start(l0, k2));
            }
        } else {
            assert(row_of(l, j) == l0.len() - 1) by {
                lemma_row_unique(l0, last, l0.len() - 1);
            }
            assert(l.take(l0.len() - 1) =~= l0.take(l0.len() - 1));
            assert(row_start(l, l0.len() as int) == span(l0));
            assert(row_of(l, j + 1) == row_of(l, j) + 1);
        }
    } else {
        let upd = l0.update(l0.len() - 1, l0.last() + 1);
        assert(l == upd);
        assert forall|o: int| 0 <= o <= last implies row_of(l, o) == row_of(l0, o) by {
            lemma_row_of(l0, o);
            let k = row_of(l0, o);
            assert(l.take(k) =~= l0.take(k));
            lemma_row_unique(l, o, k);
        }
        assert(l.take(l0.len() - 1) =~= l0.take(l0.len() - 1));
        assert(row_of(l, last + 1) == l0.len() - 1) by {
            lemma_row_start_end(l0);
            lemma_row_unique(l, last + 1, l0.len() - 1);
        }
        if j < last {
            lemma_newlines(s0, j);
            let k = row_of(l0, j);
            lemma_row_of(l0, j);
            assert(l.take(k) =~= l0.take(k));
            assert(s0[j] == s[j]);
            if k < l0.len() - 1 {
                assert(l[k] == l0[k]);
            } else {
                lemma_row_start_end(l0);
            }
            lemma_row_of(l0, j + 1);
            if s[j] == newline() {
                let k2 = row_of(l0, j + 1);
                assert(l.take(k2) =~= l0.take(k2));
                assert(row_of(l, j + 1) == k2);
                assert(row_start(l, k2) == row_start(l0, k2));
            }
        } else {
            lemma_row_start_end(l0);
            assert(row_of(l, j) == l0.len() - 1) by {
                lemma_row_unique(l, j, l0.len() - 1);
            }
        }
    }
}

/// Clipping the rows of a text to an offset range gives the rows of the slice of
/// the text in that range.
pub proof fn lemma_clipped_rows_of_slice(s: Seq<u16>, a: int, b: int)
    requires
        0 <= a <= b <= s.len(),
    ensures
        clipped(row_lengths(s), a, b, row_of(row_lengths(s), a), row_of(row_lengths(s), b) + 1)
            == row_lengths(s.subrange(a, b)),
    decreases b - a,
{
    let l = row_lengths(s);
    lemma_row_lengths(s);
    lemma_row_of(l, a);
    lemma_row_of(l, b);
    let r0 = row_of(l, a);
    if b == a {
        assert(s.subrange(a, b) =~= Seq::<u16>::empty());
        assert(clipped(l, a, b, r0, r0 + 1) =~= seq![0int]);
    } else {
        let b0 = b - 1;
        lemma_clipped_rows_of_slice(s, a, b0);
        lemma_row_of(l, b0);
        lemma_newlines(s, b0);
        let rb = row_of(l, b0);
        let prev = clipped(l, a, b0, r0, rb + 1);
        let sub = s.subrange(a, b);
        assert(sub.drop_last() =~= s.subrange(a, b0));
        assert(sub.last() == s[b0]);
        lemma_row_position(l, b0, r0);
        assert(r0 <= rb);
        // Rows before `rb` end before `b0`.
        assert forall|k: int| r0 <= k < rb implies row_end(l, k) < b0 by {
            lemma_row_position(l, b0, k);
        }
        if s[b0] == newline() {
            assert(row_of(l, b) == rb + 1);
            assert forall|i: int| 0 <= i < prev.len() implies clipped(l, a, b, r0, rb + 2)[i] == prev[i] by {
                let k = r0 + i;
                if k < rb {
                    lemma_row_position(l, b0, k);
                }
            }
            assert(clipped(l, a, b, r0, rb + 2) =~= prev.push(0));
        } else {
            assert(row_of(l, b) == rb);
            lemma_row_position(l, b0, rb);
            assert forall|i: int| 0 <= i < prev.len() - 1 implies clipped(l, a, b, r0, rb + 1)[i] == prev[i] by {
                let k = r0 + i;
                lemma_row_position(l, b0, k);
            }
            assert(clipped(l, a, b, r0, rb + 1) =~= prev.update(prev.len() - 1, prev.last() + 1));
        }
    }
}

/// The position (row, column) of offset `o` in a text with rows `l`.
pub open spec fn text_point(l: Seq<int>, o: int) -> Point {
    Point { row: row_of(l, o) as u32, column: (o - row_start(l, row_of(l, o))) as u32 }
}

/// The extent of a text: how many newlines it holds and how long its last row is.
pub open spec fn extent_of(s: Seq<u16>) -> (int, int) {
    (row_lengths(s).len() - 1, row_lengths(s).last())
}

/// The extent from offset `a` to offset `b` is the extent of the text between them.
pub proof fn lemma_slice_extent(s: Seq<u16>, a: int, b: int)
    requires
        0 <= a <= b <= s.len(),
        s.len() < u32::MAX,
    ensures
        point_le(text_point(row_lengths(s), a), text_point(row_lengths(s), b)),
        point_diff(text_point(row_lengths(s), b), text_point(row_lengths(s), a)) == extent_of(
            s.subrange(a, b),
        ),
        row_lengths(s.subrange(a, b)).len() - 1 == row_of(row_lengths(s), b) - row_of(
            row_lengths(s),
            a,
        ),
        row_lengths(s.subrange(a, b))[0] == clipped_len(row_lengths(s), a, b, row_of(row_lengths(s), a)),
{
    let l = row_lengths(s);
    lemma_row_lengths(s);
    lemma_row_of(l, a);
    lemma_row_of(l, b);
    lemma_clipped_rows_of_slice(s, a, b);
    lemma_row_position(l, b, row_of(l, a));
    let r0 = row_of(l, a);
    let r1 = row_of(l, b);
    let rows = row_lengths(s.subrange(a, b));
    assert(rows.last() == clipped_len(l, a, b, r1));
    lemma_row_vs_range(l, a, b, r1);
    lemma_row_vs_range(l, a, b, r0);
    assert(rows[0] == clipped_len(l, a, b, r0));
}

/// With nothing considered yet, the state of the walk towards the start does not
/// depend on the bounds of the (empty) range.
pub proof fn lemma_start_walk_reset(
    l: Seq<int>,
    start: int,
    end: int,
    r1: int,
    h: int,
    c: int,
    h2: int,
    c2: int,
    lr: int,
    lrl: int,
)
    requires
        max_int(h, min_int(r1, c)) == h,
        max_int(h2, min_int(r1, c2)) == h2,
        start_walk_ok(l, start, end, r1, h, c, lr, lrl),
    ensures
        start_walk_ok(l, start, end, r1, h2, c2, lr, lrl),
{
    reveal(start_walk_ok);
    assert(clipped(l, start, end, h, h) =~= Seq::<int>::empty());
    assert(clipped(l, start, end, h2, h2) =~= Seq::<int>::empty());
}

/// Taking in the left subtree of a node on the walk towards the end: its rows
/// `lo..m` lie inside the range.
pub proof fn lemma_end_walk_left(
    l: Seq<int>,
    start: int,
    end: int,
    lo: int,
    m: int,
    e: int,
    lr: int,
    lrl: int,
    block_lr: int,
    block_lrl: int,
)
    requires
        all_nonneg(l),
        l.len() >= 1,
        0 <= start <= end < span(l),
        0 <= lo <= m < l.len(),
        row_start(l, lo) >= start,
        row_start(l, m) <= end,
        m <= row_of(l, end),
        lo > row_of(l, start) ==> e >= lo,
        row_of(l, start) < e <= row_of(l, end) + 1,
        end_walk_ok(l, start, end, row_of(l, start), e, lr, lrl),
        block_lrl == seq_max(l.subrange(lo, m)),
        block_lr == first_argmax(l.subrange(lo, m)),
    ensures
        end_walk_ok(
            l,
            start,
            end,
            row_of(l, start),
            max_int(e, m),
            if m > lo && block_lrl > lrl { lo + block_lr } else { lr },
            if m > lo && block_lrl > lrl { block_lrl } else { lrl },
        ),
{
    lemma_row_of(l, start);
    lemma_row_of(l, end);
    lemma_row_vs_range(l, start, end, lo);
    assert forall|k: int| lo <= k < m implies start <= row_start(l, k) && row_start(l, k) + l[k] < end by {
        lemma_row_start_monotone(l, lo, k);
        lemma_row_start_next(l, k);
        lemma_row_start_monotone(l, k + 1, m);
    }
    lemma_full_rows(l, start, end, lo, m);
    lemma_end_walk_block(l, start, end, e, lo, m, lr, lrl, block_lr, block_lrl);
}

/// The point of an offset lies in the text: its row exists and its column does
/// not pass the end of that row, so converting it back gives the offset.
pub proof fn lemma_offset_point_round_trip(s: Seq<u16>, o: int)
    requires
        0 <= o <= s.len(),
    ensures
        ({
            let l = row_lengths(s);
            let r = row_of(l, o);
            &&& 0 <= r < l.len()
            &&& 0 <= o - row_start(l, r) <= l[r]
            &&& row_start(l, r) + (o - row_start(l, r)) == o
        }),
{
    lemma_row_lengths(s);
    lemma_row_of(row_lengths(s), o);
}

/// The offset of a point inside the text (its row exists and its column does not
/// pass the end of that row) lies in the text, and converting it back gives the
/// point.
pub proof fn lemma_point_offset_round_trip(s: Seq<u16>, row: int, column: int)
    requires
        0 <= row < row_lengths(s).len(),
        0 <= column <= row_lengths(s)[row],
    ensures
        ({
            let l = row_lengths(s);
            let o = row_start(l, row) + column;
            &&& 0 <= o <= s.len()
            &&& row_of(l, o) == row
            &&& o - row_start(l, row_of(l, o)) == column
        }),
{
    let l = row_lengths(s);
    lemma_row_lengths(s);
    lemma_row_start_next(l, row);
    lemma_row_start_monotone(l, row + 1, l.len() as int);
    lemma_row_start_end(l);
    lemma_row_start_monotone(l, 0, row);
    assert(l.take(0) =~= Seq::<int>::empty());
    lemma_row_unique(l, row_start(l, row) + column, row);
}

} // verus!
