//! Dense identifiers that order the fragments of a buffer: between any two of
//! them a new one can be made.

use vstd::prelude::*;

verus! {

/// Lexicographic order on sequences of code units; a proper prefix comes first.
pub open spec fn lex_lt(a: Seq<u16>, b: Seq<u16>) -> bool {
    exists|i: int|
        #![trigger a.take(i), b.take(i)]
        0 <= i <= a.len() && i <= b.len() && a.take(i) == b.take(i) && ((i == a.len() && i
            < b.len()) || (i < a.len() && i < b.len() && a[i] < b[i]))
}

/// Entry `i` of `s`, where `s` counts as followed by endless `fill` entries.
pub open spec fn padded(s: Seq<u16>, i: int, fill: u16) -> int {
    if 0 <= i < s.len() {
        s[i] as int
    } else {
        fill as int
    }
}

/// How far apart `left` and `right` are at position `i` (left padded with 0,
/// right padded with `max_value`).
pub open spec fn gap(left: Seq<u16>, right: Seq<u16>, max_value: u16, i: int) -> int {
    padded(right, i, max_value) - padded(left, i, 0)
}

/// Scanning from the start, `left` never overtakes `right` before they first
/// differ by more than one.
pub open spec fn no_crossing(left: Seq<u16>, right: Seq<u16>, max_value: u16) -> bool {
    forall|j: int|
        #![trigger gap(left, right, max_value, j)]
        0 <= j ==> (forall|i: int| 0 <= i < j ==> gap(left, right, max_value, i) <= 1) ==> gap(
            left,
            right,
            max_value,
            j,
        ) >= 0
}

/// The first position at which the two (padded) identifiers differ by more than one.
pub open spec fn split_position(left: Seq<u16>, right: Seq<u16>, max_value: u16, k: int) -> bool {
    &&& 0 <= k
    &&& gap(left, right, max_value, k) > 1
    &&& forall|i: int| 0 <= i < k ==> 0 <= #[trigger] gap(left, right, max_value, i) <= 1
}

/// The identifier made between `left` and `right`: it copies `left` (padded with 0)
/// up to the split position and then takes the midpoint there.
pub open spec fn between_spec(left: Seq<u16>, right: Seq<u16>, max_value: u16, k: int) -> Seq<u16> {
    Seq::new(
        (k + 1) as nat,
        |i: int|
            if i < k {
                padded(left, i, 0) as u16
            } else {
                (padded(left, k, 0) + gap(left, right, max_value, k) / 2) as u16
            },
    )
}

/// Identifies a fragment; fragments are ordered by their identifiers.
#[derive(Clone, Debug, PartialEq, Eq)]
pub struct FragmentId(Vec<u16>);

impl View for FragmentId {
    type V = Seq<u16>;

    closed spec fn view(&self) -> Seq<u16> {
        self.0@
    }
}

impl FragmentId {
    /// Makes an identifier from its entries.
    pub fn from_entries(entries: Vec<u16>) -> (id: FragmentId)
        ensures
            id@ == entries@,
    {
        FragmentId(entries)
    }

    /// The entries of the identifier.
    pub fn entries(&self) -> (e: &Vec<u16>)
        ensures
            e@ == self@,
    {
        &self.0
    }

    /// The identifier of the first fragment.
    pub fn min_value() -> (id: FragmentId)
        ensures
            id@ == seq![0u16],
    {
        FragmentId(vec![0])
    }

    /// An identifier after every identifier that `between` makes.
    pub fn max_value() -> (id: FragmentId)
        ensures
            id@ == seq![u16::MAX],
    {
        FragmentId(vec![u16::MAX])
    }

    /// `self` comes before `other`.
    pub fn lt(&self, other: &FragmentId) -> (b: bool)
        ensures
            b == lex_lt(self@, other@),
    {
        let a = &self.0;
        let b = &other.0;
        let mut i: usize = 0;
        while i < a.len() && i < b.len()
            invariant
                i <= a.len(),
                i <= b.len(),
                a@.take(i as int) == b@.take(i as int),
                a@ == self@,
                b@ == other@,
            decreases a.len() - i,
        {
            if a[i] != b[i] {
                proof {
                    if a[i as int] < b[i as int] {
                        assert(a@.take(i as int) == b@.take(i as int));
                    } else {
                        lemma_lex_lt_first_difference(a@, b@, i as int);
                    }
                }
                return a[i] < b[i];
            }
            proof {
                assert(a@.take(i + 1) =~= a@.take(i as int).push(a[i as int]));
                assert(b@.take(i + 1) =~= b@.take(i as int).push(b[i as int]));
            }
            i = i + 1;
        }
        proof {
            if i < b.len() {
                assert(a@.take(i as int) == b@.take(i as int));
            } else {
                lemma_lex_lt_prefix(a@, b@, i as int);
            }
        }
        i < b.len()
    }

    /// An identifier between `left` and `right`.
    pub fn between(left: &FragmentId, right: &FragmentId) -> (id: FragmentId)
        requires
            no_crossing(left@, right@, u16::MAX),
        ensures
            exists|k: int|
                split_position(left@, right@, u16::MAX, k) && id@ == between_spec(
                    left@,
                    right@,
                    u16::MAX,
                    k,
                ),
    {
        FragmentId::between_with_max(left, right, u16::MAX)
    }

    /// An identifier between `left` and `right`, where `right` counts as padded
    /// with `max_value`.
    pub fn between_with_max(left: &FragmentId, right: &FragmentId, max_value: u16) -> (id: FragmentId)
        requires
            max_value >= 2,
            no_crossing(left@, right@, max_value),
        ensures
            exists|k: int|
                split_position(left@, right@, max_value, k) && id@ == between_spec(
                    left@,
                    right@,
                    max_value,
                    k,
                ),
    {
        let ghost l = left@;
        let ghost r = right@;
        let mut new_entries: Vec<u16> = Vec::new();
        let n = if left.0.len() > right.0.len() {
            left.0.len()
        } else {
            right.0.len()
        };
        let mut i: usize = 0;
        loop
            invariant
                i <= n,
                l == left@,
                r == right@,
                max_value >= 2,
                no_crossing(l, r, max_value),
                n >= l.len(),
                n >= r.len(),
                new_entries@.len() == i,
                forall|j: int| 0 <= j < i ==> #[trigger] new_entries@[j] == padded(l, j, 0),
                forall|j: int| 0 <= j < i ==> 0 <= #[trigger] gap(l, r, max_value, j) <= 1,
            decreases n - i,
        {
            let li = if i < left.0.len() {
                left.0[i]
            } else {
                0
            };
            let ri = if i < right.0.len() {
                right.0[i]
            } else {
                max_value
            };
            proof {
                assert(gap(l, r, max_value, i as int) >= 0);
                if i == n {
                    assert(gap(l, r, max_value, i as int) == max_value);
                }
            }
            let interval = ri - li;
            if interval > 1 {
                new_entries.push(li + interval / 2);
                proof {
                    assert(split_position(l, r, max_value, i as int));
                    assert(new_entries@ =~= between_spec(l, r, max_value, i as int));
                }
                return FragmentId(new_entries);
            }
            new_entries.push(li);
            i = i + 1;
        }
    }
}

/// Two sequences that agree up to `i` and then differ there are ordered by that entry.
proof fn lemma_lex_lt_first_difference(a: Seq<u16>, b: Seq<u16>, i: int)
    requires
        0 <= i < a.len(),
        i < b.len(),
        a.take(i) == b.take(i),
        a[i] > b[i],
    ensures
        !lex_lt(a, b),
{
    if lex_lt(a, b) {
        let j = choose|j: int|
            #![trigger a.take(j), b.take(j)]
            0 <= j <= a.len() && j <= b.len() && a.take(j) == b.take(j) && ((j == a.len() && j
                < b.len()) || (j < a.len() && j < b.len() && a[j] < b[j]));
        if j < i {
            assert(a.take(i)[j] == b.take(i)[j]);
            assert(a.take(i)[j] == a[j]);
            assert(b.take(i)[j] == b[j]);
        } else if j > i {
            assert(a.take(j)[i] == b.take(j)[i]);
            assert(a[i] == b[i]);
        }
        assert(false);
    }
}

/// When `b` is a prefix of `a`, `a` does not come before `b`.
proof fn lemma_lex_lt_prefix(a: Seq<u16>, b: Seq<u16>, i: int)
    requires
        i == b.len(),
        i <= a.len(),
        a.take(i) == b.take(i),
    ensures
        !lex_lt(a, b),
{
    if lex_lt(a, b) {
        let j = choose|j: int|
            #![trigger a.take(j), b.take(j)]
            0 <= j <= a.len() && j <= b.len() && a.take(j) == b.take(j) && ((j == a.len() && j
                < b.len()) || (j < a.len() && j < b.len() && a[j] < b[j]));
        if j < i {
            assert(a.take(i)[j] == b.take(i)[j]);
            assert(a.take(i)[j] == a[j]);
            assert(b.take(i)[j] == b[j]);
        }
        assert(false);
    }
}

/// The first position before `m`, at or after `t`, where the gap is one; `m` if
/// there is none.
proof fn first_unit_gap(l: Seq<u16>, r: Seq<u16>, max_value: u16, m: int, t: int) -> (j: int)
    requires
        0 <= t <= m,
        forall|i: int| 0 <= i < t ==> gap(l, r, max_value, i) == 0,
        forall|i: int| 0 <= i < m ==> 0 <= #[trigger] gap(l, r, max_value, i) <= 1,
    ensures
        t <= j <= m,
        forall|i: int| 0 <= i < j ==> gap(l, r, max_value, i) == 0,
        j < m ==> gap(l, r, max_value, j) == 1,
    decreases m - t,
{
    if t == m {
        m
    } else if gap(l, r, max_value, t) == 1 {
        t
    } else {
        first_unit_gap(l, r, max_value, m, t + 1)
    }
}

/// The identifier made between `left` and `right` lies strictly between them, and
/// like `right` it does not end in 0 (identifiers that end in 0 could be
/// followed by nothing but their own extensions).
pub proof fn lemma_between_is_between(left: Seq<u16>, right: Seq<u16>, max_value: u16, k: int)
    requires
        lex_lt(left, right),
        right.len() > 0,
        right.last() != 0,
        split_position(left, right, max_value, k),
    ensures
        lex_lt(left, between_spec(left, right, max_value, k)),
        lex_lt(between_spec(left, right, max_value, k), right),
        between_spec(left, right, max_value, k).last() != 0,
{
    let res = between_spec(left, right, max_value, k);
    let g = gap(left, right, max_value, k);
    assert(res[k] as int == padded(left, k, 0) + g / 2);
    // `left` comes first.
    if left.len() <= k {
        let i = left.len() as int;
        assert(left.take(i) =~= res.take(i));
    } else {
        assert(left.take(k) =~= res.take(k));
    }
    // `right` comes last.
    let m = if right.len() < k { right.len() as int } else { k };
    let j = first_unit_gap(left, right, max_value, m, 0);
    if j < m {
        assert forall|t: int| 0 <= t < j implies res[t] == right[t] by {
            assert(gap(left, right, max_value, t) == 0);
        }
        assert(res.take(j) =~= right.take(j));
        assert(res[j] as int == padded(left, j, 0));
    } else if right.len() > k {
        assert forall|t: int| 0 <= t < k implies res[t] == right[t] by {
            assert(gap(left, right, max_value, t) == 0);
        }
        assert(res.take(k) =~= right.take(k));
    } else {
        // `right` would be a prefix of `left`.
        let n = right.len() as int;
        assert(gap(left, right, max_value, n - 1) == 0);
        assert(padded(right, n - 1, max_value) == padded(left, n - 1, 0));
        assert(n - 1 < left.len());
        let i = choose|i: int|
            #![trigger left.take(i), right.take(i)]
            0 <= i <= left.len() && i <= right.len() && left.take(i) == right.take(i) && ((i
                == left.len() && i < right.len()) || (i < left.len() && i < right.len() && left[i]
                < right[i]));
        assert(gap(left, right, max_value, i) == 0);
        assert(false);
    }
}

} // verus!
