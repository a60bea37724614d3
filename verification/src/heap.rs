use vstd::prelude::*;

verus! {

/// `2^e`.
pub open spec fn two_pow(e: nat) -> nat
    decreases e,
{
    if e == 0 {
        1
    } else {
        2 * two_pow((e - 1) as nat)
    }
}

/// The number of nodes in the subtree rooted at heap index `i` of a complete
/// binary tree of `n` nodes laid out in breadth-first (heap) order, where the
/// children of `i` sit at `2i + 1` and `2i + 2`.
pub open spec fn subtree_size(i: nat, n: nat) -> nat
    decreases (if i < n { n - i } else { 0 }),
{
    if i >= n {
        0
    } else {
        1 + subtree_size(2 * i + 1, n) + subtree_size(2 * i + 2, n)
    }
}

/// `j` lies in the subtree rooted at `i` (heap order).
pub open spec fn is_descendant(i: nat, j: nat) -> bool
    decreases j,
{
    if j == i {
        true
    } else if j <= i || j == 0 {
        false
    } else {
        is_descendant(i, ((j - 1) / 2) as nat)
    }
}

pub open spec fn clamp(x: int, lo: int, hi: int) -> int {
    if x < lo {
        lo
    } else if x > hi {
        hi
    } else {
        x
    }
}

pub proof fn lemma_two_pow_pos(e: nat)
    ensures
        two_pow(e) >= 1,
    decreases e,
{
    if e > 0 {
        lemma_two_pow_pos((e - 1) as nat);
    }
}

pub proof fn lemma_two_pow_monotone(a: nat, b: nat)
    requires
        a <= b,
    ensures
        two_pow(a) <= two_pow(b),
    decreases b,
{
    if a < b {
        lemma_two_pow_monotone(a, (b - 1) as nat);
        lemma_two_pow_pos((b - 1) as nat);
    }
}

/// The exponent of a power of two bracketing `x` is unique.
pub proof fn lemma_log_unique(x: int, d: nat, e: nat)
    requires
        two_pow(d) <= x < two_pow(d + 1),
        two_pow(e) <= x < two_pow(e + 1),
    ensures
        d == e,
{
    if d < e {
        lemma_two_pow_monotone(d + 1, e);
    } else if e < d {
        lemma_two_pow_monotone(e + 1, d);
    }
}

proof fn lemma_mul_two_pow(i: int, e: nat)
    requires
        e >= 1,
    ensures
        (2 * i + 2) * two_pow((e - 1) as nat) == (i + 1) * two_pow(e),
        (2 * i + 3) * two_pow((e - 1) as nat) == (i + 1) * two_pow(e) + two_pow((e - 1) as nat),
{
    let p = two_pow((e - 1) as nat);
    assert(two_pow(e) == 2 * p);
    assert((2 * i + 2) * p == (i + 1) * (2 * p)) by (nonlinear_arith);
    assert((2 * i + 3) * p == (i + 1) * (2 * p) + p) by (nonlinear_arith);
}

/// Closed form of the subtree size for a node at depth `k` of a complete tree
/// whose last level is `h`: all levels above `h` are full and the last level holds
/// the part of the node's span that lies below `n`.
pub proof fn lemma_subtree_size_closed_form(i: nat, n: nat, k: nat, h: nat)
    requires
        two_pow(k) - 1 <= i < two_pow(k + 1) - 1,
        two_pow(h) <= n < two_pow(h + 1),
        k <= h,
    ensures
        subtree_size(i, n) == two_pow((h - k) as nat) - 1 + clamp(
            n - ((i + 1) * two_pow((h - k) as nat) - 1),
            0,
            two_pow((h - k) as nat) as int,
        ),
    decreases h - k,
{
    lemma_two_pow_pos(k);
    if k == h {
        assert(two_pow(0) == 1);
        assert(subtree_size(2 * i + 1, n) == 0);
        assert(subtree_size(2 * i + 2, n) == 0);
    } else {
        lemma_two_pow_monotone(k + 1, h);
        assert(i < n);
        let d = (h - k) as nat;
        let p = two_pow((d - 1) as nat);
        assert(two_pow(d) == 2 * p);
        assert(two_pow(k + 2) == 2 * two_pow(k + 1));
        assert(two_pow(k + 1) == 2 * two_pow(k));
        lemma_subtree_size_closed_form(2 * i + 1, n, k + 1, h);
        lemma_subtree_size_closed_form(2 * i + 2, n, k + 1, h);
        assert((h - (k + 1)) as nat == (d - 1) as nat);
        lemma_mul_two_pow(i as int, d);
        assert(((2 * i + 1) + 1) * p == (i + 1) * two_pow(d));
        assert(((2 * i + 2) + 1) * p == (i + 1) * two_pow(d) + p);
    }
}

/// `floor(log2(x))` for a positive `x`.
pub open spec fn is_floor_log2(x: int, d: nat) -> bool {
    two_pow(d) <= x < two_pow(d + 1)
}

/// The size of the left subtree of a complete tree with `c` nodes, as computed
/// when such a tree is laid out.
pub open spec fn left_size(c: int, depth: nat) -> int {
    if c == 1 {
        0
    } else {
        let max_elements = two_pow(depth) - 1;
        let right_subtree_elements = two_pow((depth - 1) as nat) as int;
        if c - right_subtree_elements < max_elements {
            c - right_subtree_elements
        } else {
            max_elements
        }
    }
}

/// In a complete tree the left child's subtree has the size that the layout
/// computes from the parent's subtree size alone.
pub proof fn lemma_left_subtree_size(i: nat, n: nat, depth: nat)
    requires
        i < n,
        is_floor_log2(subtree_size(i, n) as int, depth),
    ensures
        subtree_size(2 * i + 1, n) == left_size(subtree_size(i, n) as int, depth),
        subtree_size(i, n) == 1 + subtree_size(2 * i + 1, n) + subtree_size(2 * i + 2, n),
{
    let (k, h) = lemma_depths(i, n);
    let c = subtree_size(i, n) as int;
    lemma_subtree_size_closed_form(i, n, k, h);
    let dd = (h - k) as nat;
    let b = clamp(n - ((i + 1) * two_pow(dd) - 1), 0, two_pow(dd) as int);
    assert(c == two_pow(dd) - 1 + b);
    lemma_two_pow_pos(dd);
    if k == h {
        assert(two_pow(0) == 1);
        assert(c == 1) by {
            assert(b == 1);
        }
        lemma_two_pow_pos(k);
        assert(two_pow(k + 1) == 2 * two_pow(k));
        assert(subtree_size(2 * i + 1, n) == 0);
    } else {
        lemma_two_pow_monotone(k + 1, h);
        assert(two_pow(k + 2) == 2 * two_pow(k + 1));
        assert(two_pow(k + 1) == 2 * two_pow(k));
        lemma_two_pow_pos(k);
        lemma_subtree_size_closed_form(2 * i + 1, n, k + 1, h);
        let p = two_pow((dd - 1) as nat);
        assert(two_pow(dd) == 2 * p);
        assert((h - (k + 1)) as nat == (dd - 1) as nat);
        lemma_mul_two_pow(i as int, dd);
        assert(((2 * i + 1) + 1) * p == (i + 1) * two_pow(dd));
        let bl = clamp(n - ((i + 1) * two_pow(dd) - 1), 0, p as int);
        assert(subtree_size(2 * i + 1, n) == p - 1 + bl);
        if c == 1 {
        } else if b >= 1 {
            assert(two_pow(dd + 1) == 2 * two_pow(dd));
            lemma_log_unique(c, depth, dd);
        } else {
            assert(dd >= 2) by {
                if dd == 1 {
                    assert(two_pow(1) == 2);
                }
            }
            lemma_log_unique(c, depth, (dd - 1) as nat);
            assert(two_pow((dd - 2) as nat) * 2 == p);
            lemma_two_pow_pos((dd - 2) as nat);
        }
    }
}

/// Depth of a node index and of the last level of a tree with `n` nodes.
pub proof fn lemma_depths(i: nat, n: nat) -> (r: (nat, nat))
    requires
        i < n,
    ensures
        two_pow(r.0) - 1 <= i < two_pow(r.0 + 1) - 1,
        two_pow(r.1) <= n < two_pow(r.1 + 1),
        r.0 <= r.1,
{
    let k = lemma_floor_log2_exists((i + 1) as nat);
    let h = lemma_floor_log2_exists(n);
    if k > h {
        lemma_two_pow_monotone(h + 1, k);
    }
    (k, h)
}

pub proof fn lemma_floor_log2_exists(x: nat) -> (d: nat)
    requires
        x >= 1,
    ensures
        is_floor_log2(x as int, d),
    decreases x,
{
    if x == 1 {
        assert(two_pow(1) == 2 * two_pow(0));
        0
    } else {
        let d0 = lemma_floor_log2_exists(x / 2);
        assert(two_pow(d0 + 2) == 2 * two_pow(d0 + 1));
        assert(two_pow(d0 + 1) == 2 * two_pow(d0));
        d0 + 1
    }
}

/// A complete tree of `n` nodes rooted at index 0 holds all `n` nodes.
pub proof fn lemma_root_subtree_size(n: nat)
    ensures
        subtree_size(0, n) == n,
{
    if n > 0 {
        let (k, h) = lemma_depths(0, n);
        lemma_subtree_size_closed_form(0, n, k, h);
        assert(two_pow(1) == 2 * two_pow(0));
        if k > 0 {
            lemma_two_pow_monotone(1, k);
        }
        assert(k == 0);
        assert(two_pow(h + 1) == 2 * two_pow(h));
        assert((h - k) as nat == h);
        let t = two_pow(h);
        assert((0 + 1) * t == t) by (nonlinear_arith);
    }
}

} // verus!

verus! {

pub proof fn lemma_descendant_ge(i: nat, j: nat)
    requires
        is_descendant(i, j),
    ensures
        j >= i,
    decreases j,
{
    if j != i && j > i && j != 0 {
        lemma_descendant_ge(i, ((j - 1) / 2) as nat);
    }
}

/// Descendants of a child are descendants of the parent.
pub proof fn lemma_child_descendant(i: nat, j: nat)
    ensures
        is_descendant(2 * i + 1, j) ==> is_descendant(i, j),
        is_descendant(2 * i + 2, j) ==> is_descendant(i, j),
    decreases j,
{
    if j > 0 && j > i {
        let p = ((j - 1) / 2) as nat;
        lemma_child_descendant(i, p);
        assert(is_descendant(i, j) == is_descendant(i, p));
        if j == 2 * i + 1 || j == 2 * i + 2 {
            assert(p == i);
            assert(is_descendant(i, i));
        } else if j > 2 * i + 2 {
            assert(is_descendant(2 * i + 1, j) == is_descendant(2 * i + 1, p));
            assert(is_descendant(2 * i + 2, j) == is_descendant(2 * i + 2, p));
        }
    }
}

/// The subtrees of the two children of a node are disjoint.
pub proof fn lemma_children_disjoint(i: nat, j: nat)
    ensures
        !(is_descendant(2 * i + 1, j) && is_descendant(2 * i + 2, j)),
    decreases j,
{
    if j > 2 * i + 2 {
        lemma_children_disjoint(i, ((j - 1) / 2) as nat);
    } else if j == 2 * i + 2 {
        assert(!is_descendant(2 * i + 1, i)) by {
            if is_descendant(2 * i + 1, i) {
                lemma_descendant_ge(2 * i + 1, i);
            }
        }
    }
}

/// A proper descendant of a node lies below one of its children.
pub proof fn lemma_descendant_split(i: nat, j: nat)
    requires
        is_descendant(i, j),
        j != i,
    ensures
        is_descendant(2 * i + 1, j) || is_descendant(2 * i + 2, j),
    decreases j,
{
    let p = ((j - 1) / 2) as nat;
    if p != i {
        lemma_descendant_split(i, p);
        lemma_descendant_ge(i, p);
    }
}

/// Being a descendant is transitive.
pub proof fn lemma_descendant_trans(a: nat, b: nat, c: nat)
    requires
        is_descendant(a, b),
        is_descendant(b, c),
    ensures
        is_descendant(a, c),
    decreases c,
{
    if c != b {
        lemma_descendant_ge(b, c);
        lemma_descendant_trans(a, b, ((c - 1) / 2) as nat);
        lemma_descendant_ge(a, b);
    }
}

} // verus!

verus! {

/// `two_pow` agrees with vstd's `pow2`.
pub proof fn lemma_two_pow_is_pow2(e: nat)
    ensures
        two_pow(e) == vstd::arithmetic::power2::pow2(e),
    decreases e,
{
    if e == 0 {
        vstd::arithmetic::power2::lemma_pow2(0);
        reveal(vstd::arithmetic::power::pow);
    } else {
        lemma_two_pow_is_pow2((e - 1) as nat);
        vstd::arithmetic::power2::lemma_pow2_unfold(e);
    }
}

/// `63 - leading_zeros(x)` is `floor(log2(x))` for a positive 64-bit `x`.
pub proof fn lemma_leading_zeros_log2(x: u64)
    requires
        x >= 1,
    ensures
        1 <= 64 - vstd::std_specs::bits::u64_leading_zeros(x) <= 64,
        is_floor_log2(x as int, (63 - vstd::std_specs::bits::u64_leading_zeros(x)) as nat),
    decreases x,
{
    reveal(vstd::std_specs::bits::u64_leading_zeros);
    if x == 1 {
        assert(vstd::std_specs::bits::u64_leading_zeros(0) == 64);
        assert(two_pow(1) == 2 * two_pow(0));
    } else {
        lemma_leading_zeros_log2(x / 2);
        let d = (63 - vstd::std_specs::bits::u64_leading_zeros(x / 2)) as nat;
        assert(two_pow(d + 2) == 2 * two_pow(d + 1));
        assert(two_pow(d + 1) == 2 * two_pow(d));
    }
}

pub proof fn lemma_two_pow_32()
    ensures
        two_pow(32) == 0x1_0000_0000,
{
    reveal_with_fuel(two_pow, 33);
}

} // verus!
