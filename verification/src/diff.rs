//! Turning the character-level edit script between two strings into the
//! replacements that take a buffer holding the first string to the second.

use crate::point::Point;
use crate::summary::lemma_rows_concat;
use crate::text::{
    extent_of, lemma_row_lengths, lemma_row_start_end, lemma_row_start_next, lemma_row_start_prefix,
    row_lengths, row_start,
};
use crate::utf16::{encode_utf16, utf16_encode};
use std::ops::Range;
use vstd::prelude::*;

verus! {

/// A run of the edit script between an old string and a new one.
#[derive(Debug)]
pub enum Difference {
    /// Text that both strings share.
    Same(String),
    /// Text that only the new string holds.
    Add(String),
    /// Text that only the old string holds.
    Rem(String),
}

/// What a run of an edit script holds: its kind and its text.
pub enum Run {
    Same(Seq<char>),
    Add(Seq<char>),
    Rem(Seq<char>),
}

impl View for Difference {
    type V = Run;

    open spec fn view(&self) -> Run {
        match self {
            Difference::Same(t) => Run::Same(t@),
            Difference::Add(t) => Run::Add(t@),
            Difference::Rem(t) => Run::Rem(t@),
        }
    }
}

/// The kinds and texts of the runs `v`.
pub open spec fn run_views(v: Seq<Difference>) -> Seq<Run> {
    v.map_values(|d: Difference| d@)
}

/// The text of a run.
pub open spec fn text_of(d: Run) -> Seq<char> {
    match d {
        Run::Same(t) => t,
        Run::Add(t) => t,
        Run::Rem(t) => t,
    }
}

/// The UTF-16 code units of a run.
pub open spec fn units_of(d: Run) -> Seq<u16> {
    utf16_encode(text_of(d))
}

/// The old string as the runs of an edit script rebuild it: its shared and
/// removed runs, in order.
pub open spec fn old_side(ds: Seq<Run>) -> Seq<char>
    decreases ds.len(),
{
    if ds.len() == 0 {
        seq![]
    } else {
        old_side(ds.drop_last()) + if ds.last() is Add {
            Seq::<char>::empty()
        } else {
            text_of(ds.last())
        }
    }
}

/// The new string as the runs of an edit script rebuild it: its shared and
/// added runs, in order.
pub open spec fn new_side(ds: Seq<Run>) -> Seq<char>
    decreases ds.len(),
{
    if ds.len() == 0 {
        seq![]
    } else {
        new_side(ds.drop_last()) + if ds.last() is Rem {
            Seq::<char>::empty()
        } else {
            text_of(ds.last())
        }
    }
}

/// The edit script that `difference::Changeset::new(orig, edit, split)` computes,
/// as the kinds and texts of its runs.
pub uninterp spec fn changeset(orig: Seq<char>, edit: Seq<char>, split: Seq<char>) -> Seq<Run>;

/// Computes the edit script from `orig` to `edit` with `difference::Changeset::new`,
/// cutting both strings at `split`, and hands its runs back in order.
///
/// The crate's merge step gives each piece of `orig` to a shared or a removed run
/// and each piece of `edit` to a shared or an added run, keeping their order; with
/// the empty split the pieces are the characters, so the runs rebuild both strings.
/// That is all this contract states of the script: which runs it forms (the longest
/// common subsequence that the crate picks) is left to the name `changeset`.
#[verifier::external_body]
fn changeset_runs(orig: &str, edit: &str, split: &str) -> (diffs: Vec<Difference>)
    ensures
        run_views(diffs@) == changeset(orig@, edit@, split@),
        split@.len() == 0 ==> old_side(run_views(diffs@)) == orig@ && new_side(run_views(diffs@))
            == edit@,
{
    difference::Changeset::new(orig, edit, split).diffs.into_iter().map(
        |d|
            match d {
                difference::Difference::Same(t) => Difference::Same(t),
                difference::Difference::Add(t) => Difference::Add(t),
                difference::Difference::Rem(t) => Difference::Rem(t),
            },
    ).collect()
}

/// Extent `e` placed after position `p`: columns continue `p`'s row when `e` spans
/// no newline, otherwise `e`'s last row decides the column.
pub open spec fn advance(p: (int, int), e: (int, int)) -> (int, int) {
    if e.0 == 0 {
        (p.0, p.1 + e.1)
    } else {
        (p.0 + e.0, e.1)
    }
}

pub open spec fn pair(p: Point) -> (int, int) {
    (p.row as int, p.column as int)
}

/// The code units of the runs of kind `kind` among `ds`, in order
/// (kind 0: shared, 1: added, 2: removed).
pub open spec fn units_of_kind(ds: Seq<Run>, kind: int) -> Seq<u16>
    decreases ds.len(),
{
    if ds.len() == 0 {
        seq![]
    } else {
        units_of_kind(ds.drop_last(), kind) + if kind_of(ds.last()) == kind {
            units_of(ds.last())
        } else {
            Seq::<u16>::empty()
        }
    }
}

pub open spec fn kind_of(d: Run) -> int {
    match d {
        Run::Same(_) => 0,
        Run::Add(_) => 1,
        Run::Rem(_) => 2,
    }
}

/// The first run at or after `i` that is not shared (`ds.len()` when none is).
pub open spec fn first_change(ds: Seq<Run>, i: int) -> int
    decreases ds.len() - i,
{
    if i < 0 || i >= ds.len() {
        ds.len() as int
    } else if ds[i] is Same {
        first_change(ds, i + 1)
    } else {
        i
    }
}

/// The first shared run at or after `i` (`ds.len()` when none is).
pub open spec fn next_same(ds: Seq<Run>, i: int) -> int
    decreases ds.len() - i,
{
    if i < 0 || i >= ds.len() {
        ds.len() as int
    } else if ds[i] is Same {
        i
    } else {
        next_same(ds, i + 1)
    }
}

/// What a replacement holds: the range it replaces, the code units it puts there
/// and their extent, each position as (row, column).
pub struct ChangeView {
    pub start: (int, int),
    pub end: (int, int),
    pub code_units: Seq<u16>,
    pub new_extent: (int, int),
}

/// The replacement that the runs `ds`, read from position `pos`, produce next, the
/// position after it and how many runs it takes up.
///
/// Shared runs before the replacement move the position on. The replacement is the
/// maximal stretch of added and removed runs that follows: it replaces, from where
/// it starts, the extent of its removed text with its added text, and the position
/// moves past the added text. The shared run that closes it is taken up too. With no
/// such stretch, every run is taken up and there is no replacement.
pub open spec fn next_change(pos: (int, int), ds: Seq<Run>) -> (
    Option<ChangeView>,
    (int, int),
    int,
) {
    let j = first_change(ds, 0);
    let start = advance(pos, extent_of(units_of_kind(ds.take(j), 0)));
    if j >= ds.len() {
        (None, start, ds.len() as int)
    } else {
        let k = next_same(ds, j);
        let run = ds.subrange(j, k);
        let added = units_of_kind(run, 1);
        let after = advance(start, extent_of(added));
        let change = ChangeView {
            start,
            end: advance(start, extent_of(units_of_kind(run, 2))),
            code_units: added,
            new_extent: extent_of(added),
        };
        if k < ds.len() {
            (Some(change), advance(after, extent_of(units_of(ds[k]))), k + 1)
        } else {
            (Some(change), after, k)
        }
    }
}

/// Every replacement that the runs `ds` produce when read from position `pos`.
pub open spec fn changes_from(pos: (int, int), ds: Seq<Run>) -> Seq<ChangeView>
    decreases ds.len(),
{
    let (c, p, n) = next_change(pos, ds);
    match c {
        None => seq![],
        Some(ch) => if 0 < n <= ds.len() {
            seq![ch] + changes_from(p, ds.skip(n))
        } else {
            seq![ch]
        },
    }
}

/// The total number of code units in the runs `ds`.
pub open spec fn units_len(ds: Seq<Run>) -> int
    decreases ds.len(),
{
    if ds.len() == 0 {
        0
    } else {
        units_len(ds.drop_last()) + units_of(ds.last()).len()
    }
}

/// A replacement of the range `range` of a buffer by `code_units`, whose extent is
/// `new_extent`.
#[derive(Debug, PartialEq, Eq)]
pub struct Change {
    pub range: Range<Point>,
    pub code_units: Vec<u16>,
    pub new_extent: Point,
}

impl View for Change {
    type V = ChangeView;

    open spec fn view(&self) -> ChangeView {
        ChangeView {
            start: pair(self.range.start),
            end: pair(self.range.end),
            code_units: self.code_units@,
            new_extent: pair(self.new_extent),
        }
    }
}

/// Extents are at most as large as the text they measure.
pub proof fn lemma_extent_bound(s: Seq<u16>)
    ensures
        0 <= extent_of(s).0,
        0 <= extent_of(s).1,
        extent_of(s).0 + extent_of(s).1 <= s.len(),
    decreases s.len(),
{
    lemma_row_lengths(s);
    if s.len() > 0 {
        lemma_extent_bound(s.drop_last());
        lemma_row_lengths(s.drop_last());
    }
}

pub proof fn lemma_extent_empty()
    ensures
        extent_of(Seq::<u16>::empty()) == (0int, 0int),
{
}

/// The extent of a concatenation is the first extent followed by the second.
pub proof fn lemma_extent_concat(x: Seq<u16>, y: Seq<u16>)
    ensures
        extent_of(x + y) == advance(extent_of(x), extent_of(y)),
{
    lemma_rows_concat(x, y);
    lemma_row_lengths(x);
    lemma_row_lengths(y);
    let rx = row_lengths(x);
    let ry = row_lengths(y);
    let m = rx.drop_last() + seq![rx.last() + ry[0]] + ry.drop_first();
    assert(m.len() == rx.len() + ry.len() - 1);
    if ry.len() == 1 {
        assert(m.last() == rx.last() + ry[0]);
    } else {
        assert(m.last() == ry.last());
    }
}

/// Moving by `x` and then by `y` is moving by `x` followed by `y`.
pub proof fn lemma_advance_concat(p: (int, int), x: Seq<u16>, y: Seq<u16>)
    ensures
        advance(advance(p, extent_of(x)), extent_of(y)) == advance(p, extent_of(x + y)),
{
    lemma_extent_concat(x, y);
    lemma_extent_bound(x);
    lemma_extent_bound(y);
}

/// Encoding a concatenation encodes the parts one after the other.
pub proof fn lemma_utf16_concat(x: Seq<char>, y: Seq<char>)
    ensures
        utf16_encode(x + y) == utf16_encode(x) + utf16_encode(y),
    decreases y.len(),
{
    if y.len() == 0 {
        assert(x + y =~= x);
        assert(utf16_encode(x) + utf16_encode(y) =~= utf16_encode(x));
    } else {
        lemma_utf16_concat(x, y.drop_last());
        assert((x + y).drop_last() =~= x + y.drop_last());
        assert((x + y).last() == y.last());
        assert(utf16_encode(x + y) =~= utf16_encode(x) + utf16_encode(y));
    }
}

pub proof fn lemma_units_len_concat(a: Seq<Run>, b: Seq<Run>)
    ensures
        units_len(a + b) == units_len(a) + units_len(b),
    decreases b.len(),
{
    if b.len() == 0 {
        assert(a + b =~= a);
    } else {
        lemma_units_len_concat(a, b.drop_last());
        assert((a + b).drop_last() =~= a + b.drop_last());
    }
}

/// The runs from `i` on hold the code units of run `i` and those of the runs after it.
pub proof fn lemma_units_len_split(ds: Seq<Run>, i: int)
    requires
        0 <= i <= ds.len(),
    ensures
        i < ds.len() ==> units_len(ds.skip(i)) == units_of(ds[i]).len() + units_len(
            ds.skip(i + 1),
        ),
        units_len(ds.skip(i)) >= 0,
        i == 0 ==> ds.skip(i) == ds,
{
    assert(ds.skip(0) =~= ds);
    if i < ds.len() {
        assert(ds.skip(i) =~= seq![ds[i]] + ds.skip(i + 1));
        lemma_units_len_concat(seq![ds[i]], ds.skip(i + 1));
        assert(seq![ds[i]].drop_last() =~= Seq::<Run>::empty());
        assert(seq![ds[i]].last() == ds[i]);
        assert(units_len(Seq::<Run>::empty()) == 0);
        assert(units_len(seq![ds[i]]) == units_of(ds[i]).len());
    }
    lemma_units_len_nonneg(ds.skip(i));
}

pub proof fn lemma_units_len_nonneg(ds: Seq<Run>)
    ensures
        units_len(ds) >= 0,
    decreases ds.len(),
{
    if ds.len() > 0 {
        lemma_units_len_nonneg(ds.drop_last());
    }
}

/// The runs of a script hold no more code units than the two strings they rebuild.
pub proof fn lemma_units_len_sides(ds: Seq<Run>)
    ensures
        units_len(ds) <= utf16_encode(old_side(ds)).len() + utf16_encode(new_side(ds)).len(),
    decreases ds.len(),
{
    if ds.len() > 0 {
        let d = ds.last();
        let rest = ds.drop_last();
        lemma_units_len_sides(rest);
        let o = if d is Add { Seq::<char>::empty() } else { text_of(d) };
        let n = if d is Rem { Seq::<char>::empty() } else { text_of(d) };
        lemma_utf16_concat(old_side(rest), o);
        lemma_utf16_concat(new_side(rest), n);
    }
}

/// Appending a run to a prefix appends its code units to those of its kind.
pub proof fn lemma_subrange_push_kind(ds: Seq<Run>, j: int, i: int)
    requires
        0 <= j <= i < ds.len(),
    ensures
        forall|k: int|
            #[trigger] units_of_kind(ds.subrange(j, i + 1), k) == units_of_kind(
                ds.subrange(j, i),
                k,
            ) + if kind_of(ds[i]) == k {
                units_of(ds[i])
            } else {
                Seq::<u16>::empty()
            },
{
    assert(ds.subrange(j, i + 1).drop_last() =~= ds.subrange(j, i));
}

/// A run on its own holds its code units under its kind and nothing under the others.
pub proof fn lemma_single_kind(d: Run)
    ensures
        forall|k: int|
            #[trigger] units_of_kind(seq![d], k) == if kind_of(d) == k {
                units_of(d)
            } else {
                Seq::<u16>::empty()
            },
{
    assert(seq![d].drop_last() =~= Seq::<Run>::empty());
    assert forall|k: int| #[trigger]
        units_of_kind(seq![d], k) == if kind_of(d) == k {
            units_of(d)
        } else {
            Seq::<u16>::empty()
        } by {
        assert(seq![d].drop_last() =~= Seq::<Run>::empty());
        assert(seq![d].last() == d);
        assert(units_of_kind(Seq::<Run>::empty(), k) == Seq::<u16>::empty());
        assert(Seq::<u16>::empty() + units_of(d) =~= units_of(d));
        assert(Seq::<u16>::empty() + Seq::<u16>::empty() =~= Seq::<u16>::empty());
    }
}

/// `first_change` finds the first run from `i` on that is not shared.
pub proof fn lemma_first_change(ds: Seq<Run>, i: int)
    requires
        0 <= i <= ds.len(),
    ensures
        i <= first_change(ds, i) <= ds.len(),
        forall|t: int| i <= t < first_change(ds, i) ==> ds[t] is Same,
        first_change(ds, i) < ds.len() ==> !(ds[first_change(ds, i)] is Same),
    decreases ds.len() - i,
{
    if i < ds.len() && ds[i] is Same {
        lemma_first_change(ds, i + 1);
    }
}

/// `next_same` finds the first shared run from `i` on.
pub proof fn lemma_next_same(ds: Seq<Run>, i: int)
    requires
        0 <= i <= ds.len(),
    ensures
        i <= next_same(ds, i) <= ds.len(),
        forall|t: int| i <= t < next_same(ds, i) ==> !(ds[t] is Same),
        next_same(ds, i) < ds.len() ==> ds[next_same(ds, i)] is Same,
    decreases ds.len() - i,
{
    if i < ds.len() && !(ds[i] is Same) {
        lemma_next_same(ds, i + 1);
    }
}

/// The extent of `code_units`, counting newlines and the length of the last row.
fn extent_of_units(code_units: &Vec<u16>) -> (extent: Point)
    requires
        code_units.len() <= u32::MAX,
    ensures
        pair(extent) == extent_of(code_units@),
{
    let mut rows: u32 = 0;
    let mut last_row_len: u32 = 0;
    let mut i: usize = 0;
    proof {
        assert(code_units@.take(0) =~= Seq::<u16>::empty());
    }
    while i < code_units.len()
        invariant
            i <= code_units.len() <= u32::MAX,
            (rows as int, last_row_len as int) == extent_of(code_units@.take(i as int)),
        decreases code_units.len() - i,
    {
        let ch = code_units[i];
        proof {
            let t = code_units@.take(i as int + 1);
            assert(t.drop_last() =~= code_units@.take(i as int));
            assert(t.last() == ch);
            lemma_row_lengths(code_units@.take(i as int));
            lemma_extent_bound(code_units@.take(i as int));
        }
        if ch == 10u16 {
            rows = rows + 1;
            last_row_len = 0;
        } else {
            last_row_len = last_row_len + 1;
        }
        i = i + 1;
    }
    proof {
        assert(code_units@.take(i as int) =~= code_units@);
    }
    Point::new(rows, last_row_len)
}

/// Reads the runs of an edit script in order and hands out the replacements they
/// describe, one at a time.
pub struct DiffIter {
    position: Point,
    diff: Vec<Difference>,
    next_index: usize,
}

impl DiffIter {
    /// The position reached, as (row, column).
    pub closed spec fn position(&self) -> (int, int) {
        pair(self.position)
    }

    /// The runs not read yet.
    pub closed spec fn remaining(&self) -> Seq<Run> {
        run_views(self.diff@).skip(self.next_index as int)
    }

    pub closed spec fn wf(&self) -> bool {
        self.next_index <= self.diff@.len()
    }

    /// Starts reading `diff` at the origin.
    pub fn new(diff: Vec<Difference>) -> (it: DiffIter)
        ensures
            it.wf(),
            it.position() == (0int, 0int),
            it.remaining() == run_views(diff@),
    {
        let it = DiffIter { position: Point::zero(), diff, next_index: 0 };
        assert(run_views(it.diff@).skip(0) =~= run_views(it.diff@));
        it
    }

    /// The next replacement, if any run is left to produce one.
    pub fn next(&mut self) -> (change: Option<Change>)
        requires
            old(self).wf(),
            old(self).position().0 + old(self).position().1 + units_len(old(self).remaining())
                <= u32::MAX,
            old(self).position().0 >= 0,
            old(self).position().1 >= 0,
        ensures
            final(self).wf(),
            ({
                let (c, p, n) = next_change(old(self).position(), old(self).remaining());
                &&& change matches Some(ch) ==> c == Some(ch@)
                &&& change is None ==> c is None
                &&& final(self).position() == p
                &&& 0 <= n <= old(self).remaining().len()
                &&& change is Some ==> n > 0
                &&& final(self).remaining() == old(self).remaining().skip(n)
            }),
            final(self).position().0 + final(self).position().1 + units_len(final(self).remaining())
                <= u32::MAX,
    {
        let ghost ds = old(self).remaining();
        let ghost pos0 = old(self).position();
        let ghost i0 = self.next_index as int;
        let mut change: Option<Change> = None;
        // where the replacement begins, once one has begun
        let ghost mut j: int = ds.len() as int;
        proof {
            lemma_units_len_split(ds, 0);
            assert(ds.take(0) =~= Seq::<Run>::empty());
            assert(units_of_kind(Seq::<Run>::empty(), 0) == Seq::<u16>::empty());
            lemma_first_change(ds, 0);
        }
        loop
            invariant_except_break
                self.diff@ == old(self).diff@,
                0 <= i0 <= self.next_index <= self.diff@.len(),
                pos0.0 >= 0,
                pos0.1 >= 0,
                ds == run_views(self.diff@).skip(i0),
                pair(self.position).0 + pair(self.position).1 + units_len(
                    ds.skip(self.next_index - i0),
                ) <= u32::MAX,
                change is None ==> {
                    &&& first_change(ds, 0) >= self.next_index - i0
                    &&& pair(self.position) == advance(
                        pos0,
                        extent_of(units_of_kind(ds.take(self.next_index - i0), 0)),
                    )
                },
                change matches Some(ch) ==> {
                    &&& j == first_change(ds, 0)
                    &&& 0 <= j < self.next_index - i0
                    &&& next_same(ds, j) >= self.next_index - i0
                    &&& pair(ch.range.start) == advance(
                        pos0,
                        extent_of(units_of_kind(ds.take(j), 0)),
                    )
                    &&& pair(ch.range.end) == advance(
                        pair(ch.range.start),
                        extent_of(units_of_kind(ds.subrange(j, self.next_index - i0), 2)),
                    )
                    &&& ch.code_units@ == units_of_kind(ds.subrange(j, self.next_index - i0), 1)
                    &&& pair(ch.new_extent) == extent_of(ch.code_units@)
                    &&& pair(self.position) == advance(
                        pair(ch.range.start),
                        extent_of(ch.code_units@),
                    )
                    &&& pair(ch.range.end).0 + pair(ch.range.end).1 + units_len(
                        ds.skip(self.next_index - i0),
                    ) <= u32::MAX
                },
            ensures
                self.diff@ == old(self).diff@,
                i0 <= self.next_index <= self.diff@.len(),
                ({
                    let (c, p, n) = next_change(pos0, ds);
                    &&& change matches Some(ch) ==> c == Some(ch@)
                    &&& change is None ==> c is None
                    &&& pair(self.position) == p
                    &&& self.next_index - i0 == n
                    &&& pair(self.position).0 + pair(self.position).1 + units_len(ds.skip(n))
                        <= u32::MAX
                }),
            decreases self.diff@.len() - self.next_index,
        {
            if self.next_index >= self.diff.len() {
                proof {
                    let idx = self.next_index - i0;
                    assert(idx == ds.len());
                    lemma_first_change(ds, 0);
                    if change is None {
                        assert(ds.take(idx) =~= ds);
                    } else {
                        lemma_next_same(ds, j);
                    }
                }
                break;
            }
            let ghost idx = self.next_index - i0;
            let diff = &self.diff[self.next_index];
            let code_units = match diff {
                Difference::Same(text) => encode_utf16(text.as_str()),
                Difference::Rem(text) => encode_utf16(text.as_str()),
                Difference::Add(text) => encode_utf16(text.as_str()),
            };
            proof {
                assert(ds.len() == self.diff@.len() - i0);
                assert(ds[idx] == self.diff@[self.next_index as int]@);
                assert(code_units@ == units_of(ds[idx]));
                lemma_units_len_split(ds, idx);
                lemma_units_len_nonneg(ds.skip(idx + 1));
                lemma_extent_bound(code_units@);
                lemma_first_change(ds, 0);
                assert(ds.take(idx + 1).drop_last() =~= ds.take(idx));
            }
            let extent = extent_of_units(&code_units);
            self.next_index = self.next_index + 1;
            match diff {
                Difference::Same(_) => {
                    proof {
                        lemma_advance_concat(
                            pos0,
                            units_of_kind(ds.take(idx), 0),
                            units_of(ds[idx]),
                        );
                    }
                    self.position.add_assign(&extent);
                    if change.is_some() {
                        proof {
                            lemma_next_same(ds, j);
                        }
                        break;
                    }
                },
                Difference::Rem(_) => {
                    if change.is_some() {
                        let mut ch = change.unwrap();
                        proof {
                            lemma_subrange_push_kind(ds, j, idx);
                            lemma_advance_concat(
                                pair(ch.range.start),
                                units_of_kind(ds.subrange(j, idx), 2),
                                units_of(ds[idx]),
                            );
                            lemma_next_same(ds, j);
                        }
                        ch.range.end.add_assign(&extent);
                        change = Some(ch);
                    } else {
                        proof {
                            j = idx;
                            assert(ds.subrange(j, idx + 1) =~= seq![ds[idx]]);
                            lemma_single_kind(ds[idx]);
                            lemma_extent_empty();
                            lemma_next_same(ds, idx + 1);
                        }
                        let end = self.position.add(&extent);
                        change = Some(
                            Change {
                                range: Range { start: self.position, end },
                                code_units: Vec::new(),
                                new_extent: Point::zero(),
                            },
                        );
                    }
                },
                Difference::Add(_) => {
                    if change.is_some() {
                        let mut ch = change.unwrap();
                        proof {
                            lemma_subrange_push_kind(ds, j, idx);
                            lemma_advance_concat(
                                pair(ch.range.start),
                                ch.code_units@,
                                units_of(ds[idx]),
                            );
                            lemma_extent_concat(ch.code_units@, units_of(ds[idx]));
                            lemma_extent_bound(ch.code_units@);
                            lemma_next_same(ds, j);
                        }
                        let mut more = code_units;
                        ch.code_units.append(&mut more);
                        ch.new_extent.add_assign(&extent);
                        change = Some(ch);
                    } else {
                        proof {
                            j = idx;
                            assert(ds.subrange(j, idx + 1) =~= seq![ds[idx]]);
                            lemma_single_kind(ds[idx]);
                            lemma_extent_empty();
                            lemma_next_same(ds, idx + 1);
                        }
                        change = Some(
                            Change {
                                range: Range { start: self.position, end: self.position },
                                code_units,
                                new_extent: extent,
                            },
                        );
                    }
                    self.position.add_assign(&extent);
                },
            }
        }
        proof {
            let idx = self.next_index - i0;
            assert(run_views(self.diff@).skip(self.next_index as int) =~= ds.skip(idx));
            assert(ds.len() == self.diff@.len() - i0);
            lemma_first_change(ds, 0);
            if first_change(ds, 0) < ds.len() {
                lemma_next_same(ds, first_change(ds, 0));
            }
        }
        change
    }
}

/// The replacements that take a buffer holding `a` to one holding `b`, read from
/// the character-level edit script of `difference::Changeset`.
pub fn diff(a: &str, b: &str) -> (changes: Vec<Change>)
    requires
        utf16_encode(a@).len() + utf16_encode(b@).len() <= u32::MAX,
    ensures
        changes@.map_values(|c: Change| c@) == changes_from(
            (0int, 0int),
            changeset(a@, b@, Seq::empty()),
        ),
        apply_changes(utf16_encode(a@), changes@.map_values(|c: Change| c@)) == utf16_encode(b@),
{
    let split = "";
    proof {
        reveal_strlit("");
    }
    let runs = changeset_runs(a, b, split);
    proof {
        assert(split@ =~= Seq::<char>::empty());
        assert(run_views(runs@) == changeset(a@, b@, Seq::empty()));
        lemma_units_len_sides(run_views(runs@));
        lemma_units_len_nonneg(run_views(runs@));
        lemma_replay(Seq::empty(), run_views(runs@));
        lemma_extent_empty();
        assert(Seq::<u16>::empty() + utf16_encode(a@) =~= utf16_encode(a@));
        assert(Seq::<u16>::empty() + utf16_encode(b@) =~= utf16_encode(b@));
    }
    let mut it = DiffIter::new(runs);
    let mut changes: Vec<Change> = Vec::new();
    let ghost all = it.remaining();
    proof {
        assert(changes@.map_values(|c: Change| c@) + changes_from(it.position(), all) =~= changes_from(
            (0int, 0int),
            all,
        ));
    }
    loop
        invariant_except_break
            it.wf(),
            it.position().0 >= 0,
            it.position().1 >= 0,
            it.position().0 + it.position().1 + units_len(it.remaining()) <= u32::MAX,
            changes@.map_values(|c: Change| c@) + changes_from(it.position(), it.remaining())
                == changes_from((0int, 0int), all),
        ensures
            changes@.map_values(|c: Change| c@) == changes_from((0int, 0int), all),
        decreases it.remaining().len(),
    {
        let ghost before = it;
        let next = it.next();
        proof {
            lemma_next_change_nonneg(before.position(), before.remaining());
        }
        match next {
            Some(c) => {
                let ghost prev = changes@;
                let ghost cv = c@;
                changes.push(c);
                proof {
                    assert(changes@.map_values(|c: Change| c@) =~= prev.map_values(
                        |c: Change| c@,
                    ).push(cv));
                    assert(prev.map_values(|c: Change| c@).push(cv) + changes_from(
                        it.position(),
                        it.remaining(),
                    ) =~= prev.map_values(|c: Change| c@) + (seq![cv] + changes_from(
                        it.position(),
                        it.remaining(),
                    )));
                }
            },
            None => {
                proof {
                    assert(changes@.map_values(|c: Change| c@) + changes_from(
                        before.position(),
                        before.remaining(),
                    ) =~= changes@.map_values(|c: Change| c@));
                }
                break;
            },
        }
    }
    changes
}

/// Positions stay at or above the origin as runs are read.
pub proof fn lemma_next_change_nonneg(pos: (int, int), ds: Seq<Run>)
    requires
        pos.0 >= 0,
        pos.1 >= 0,
    ensures
        next_change(pos, ds).1.0 >= 0,
        next_change(pos, ds).1.1 >= 0,
{
    let j = first_change(ds, 0);
    lemma_extent_bound(units_of_kind(ds.take(j), 0));
    if j < ds.len() {
        let k = next_same(ds, j);
        let start = advance(pos, extent_of(units_of_kind(ds.take(j), 0)));
        let added = units_of_kind(ds.subrange(j, k), 1);
        lemma_extent_bound(added);
        if k < ds.len() {
            lemma_extent_bound(units_of(ds[k]));
        }
    }
}

/// The offset of point `p` (row, column) in `text`.
pub open spec fn offset_of(text: Seq<u16>, p: (int, int)) -> int {
    row_start(row_lengths(text), p.0) + p.1
}

/// `text` with the code units from `c.start` to `c.end` replaced by `c.code_units`.
pub open spec fn apply_change(text: Seq<u16>, c: ChangeView) -> Seq<u16> {
    text.take(offset_of(text, c.start)) + c.code_units + text.skip(offset_of(text, c.end))
}

/// `text` after replacements `cs`, made one after the other.
pub open spec fn apply_changes(text: Seq<u16>, cs: Seq<ChangeView>) -> Seq<u16>
    decreases cs.len(),
{
    if cs.len() == 0 {
        text
    } else {
        apply_changes(apply_change(text, cs[0]), cs.drop_first())
    }
}

/// The end of a text's prefix, as a point, lies at the prefix's length.
pub proof fn lemma_offset_of_prefix(x: Seq<u16>, y: Seq<u16>)
    ensures
        offset_of(x + y, extent_of(x)) == x.len(),
{
    lemma_rows_concat(x, y);
    lemma_row_lengths(x);
    lemma_row_lengths(y);
    let rx = row_lengths(x);
    let l = row_lengths(x + y);
    let k = rx.len() - 1;
    assert(l.take(k) =~= rx.take(k));
    lemma_row_start_prefix(l, rx, k);
    lemma_row_start_next(rx, k);
    lemma_row_start_end(rx);
    assert(rx.take(k + 1) =~= rx);
}

pub proof fn lemma_sides_concat(x: Seq<Run>, y: Seq<Run>)
    ensures
        old_side(x + y) == old_side(x) + old_side(y),
        new_side(x + y) == new_side(x) + new_side(y),
    decreases y.len(),
{
    if y.len() == 0 {
        assert(x + y =~= x);
        assert(old_side(x) + old_side(y) =~= old_side(x));
        assert(new_side(x) + new_side(y) =~= new_side(x));
    } else {
        lemma_sides_concat(x, y.drop_last());
        assert((x + y).drop_last() =~= x + y.drop_last());
        assert((x + y).last() == y.last());
        assert(old_side(x + y) =~= old_side(x) + old_side(y));
        assert(new_side(x + y) =~= new_side(x) + new_side(y));
    }
}

/// Runs that are all shared rebuild the same text on both sides.
pub proof fn lemma_shared_sides(x: Seq<Run>)
    requires
        forall|t: int| 0 <= t < x.len() ==> x[t] is Same,
    ensures
        utf16_encode(old_side(x)) == units_of_kind(x, 0),
        utf16_encode(new_side(x)) == units_of_kind(x, 0),
    decreases x.len(),
{
    if x.len() > 0 {
        let r = x.drop_last();
        lemma_shared_sides(r);
        lemma_utf16_concat(old_side(r), text_of(x.last()));
        lemma_utf16_concat(new_side(r), text_of(x.last()));
    }
}

/// Runs with no shared one rebuild their removed text on the old side and their
/// added text on the new side.
pub proof fn lemma_changed_sides(x: Seq<Run>)
    requires
        forall|t: int| 0 <= t < x.len() ==> !(x[t] is Same),
    ensures
        utf16_encode(old_side(x)) == units_of_kind(x, 2),
        utf16_encode(new_side(x)) == units_of_kind(x, 1),
    decreases x.len(),
{
    if x.len() > 0 {
        let r = x.drop_last();
        let d = x.last();
        lemma_changed_sides(r);
        let o = if d is Add { Seq::<char>::empty() } else { text_of(d) };
        let n = if d is Rem { Seq::<char>::empty() } else { text_of(d) };
        lemma_utf16_concat(old_side(r), o);
        lemma_utf16_concat(new_side(r), n);
        assert(utf16_encode(Seq::<char>::empty()) =~= Seq::<u16>::empty());
        assert(units_of_kind(r, 2) + Seq::<u16>::empty() =~= units_of_kind(r, 2));
        assert(units_of_kind(r, 1) + Seq::<u16>::empty() =~= units_of_kind(r, 1));
    }
}

/// How the runs split around the next replacement: shared runs, then the
/// replacement's added and removed runs, then the rest.
pub proof fn lemma_run_shape(ds: Seq<Run>)
    requires
        first_change(ds, 0) < ds.len(),
    ensures
        ({
            let j = first_change(ds, 0);
            let k = next_same(ds, j);
            let u0 = units_of_kind(ds.take(j), 0);
            let run = ds.subrange(j, k);
            &&& j < k <= ds.len()
            &&& k < ds.len() ==> ds[k] is Same
            &&& utf16_encode(old_side(ds)) == u0 + units_of_kind(run, 2) + utf16_encode(
                old_side(ds.skip(k)),
            )
            &&& utf16_encode(new_side(ds)) == u0 + units_of_kind(run, 1) + utf16_encode(
                new_side(ds.skip(k)),
            )
        }),
{
    let j = first_change(ds, 0);
    lemma_first_change(ds, 0);
    let s = ds.take(j);
    assert forall|t: int| 0 <= t < s.len() implies s[t] is Same by {
        assert(s[t] == ds[t]);
    }
    lemma_shared_sides(s);
    let k = next_same(ds, j);
    lemma_next_same(ds, j);
    let run = ds.subrange(j, k);
    assert forall|t: int| 0 <= t < run.len() implies !(run[t] is Same) by {
        assert(run[t] == ds[j + t]);
    }
    lemma_changed_sides(run);
    let tail = ds.skip(k);
    assert(ds =~= s + run + tail);
    lemma_sides_concat(s + run, tail);
    lemma_sides_concat(s, run);
    lemma_utf16_concat(old_side(s) + old_side(run), old_side(tail));
    lemma_utf16_concat(old_side(s), old_side(run));
    lemma_utf16_concat(new_side(s) + new_side(run), new_side(tail));
    lemma_utf16_concat(new_side(s), new_side(run));
}

/// A shared run at the front of `ds.skip(k)` stands on both sides.
pub proof fn lemma_shared_front(ds: Seq<Run>, k: int)
    requires
        0 <= k < ds.len(),
        ds[k] is Same,
    ensures
        utf16_encode(old_side(ds.skip(k))) == units_of(ds[k]) + utf16_encode(
            old_side(ds.skip(k + 1)),
        ),
        utf16_encode(new_side(ds.skip(k))) == units_of(ds[k]) + utf16_encode(
            new_side(ds.skip(k + 1)),
        ),
{
    let d = ds[k];
    let rest = ds.skip(k + 1);
    assert(ds.skip(k) =~= seq![d] + rest);
    lemma_sides_concat(seq![d], rest);
    assert(seq![d].drop_last() =~= Seq::<Run>::empty());
    assert(seq![d].last() == d);
    assert(old_side(Seq::<Run>::empty()) == Seq::<char>::empty());
    assert(new_side(Seq::<Run>::empty()) == Seq::<char>::empty());
    assert(old_side(seq![d]) =~= text_of(d));
    assert(new_side(seq![d]) =~= text_of(d));
    lemma_utf16_concat(text_of(d), old_side(rest));
    lemma_utf16_concat(text_of(d), new_side(rest));
}

/// One replacement of the replay: read from the end of `done`, the runs `ds`
/// produce a replacement that turns `done` followed by the rest of the old text into
/// `done2` followed by the rest of the runs' old text, where `done2` ends at the
/// position reached and still leads to the same new text.
#[verifier::spinoff_prover]
pub proof fn lemma_replay_step(done: Seq<u16>, ds: Seq<Run>) -> (done2: Seq<u16>)
    requires
        first_change(ds, 0) < ds.len(),
    ensures
        ({
            let (c, p, n) = next_change(extent_of(done), ds);
            &&& c is Some
            &&& 0 < n <= ds.len()
            &&& p == extent_of(done2)
            &&& apply_change(done + utf16_encode(old_side(ds)), c.unwrap()) == done2
                + utf16_encode(old_side(ds.skip(n)))
            &&& done2 + utf16_encode(new_side(ds.skip(n))) == done + utf16_encode(new_side(ds))
        }),
{
    let pos = extent_of(done);
    lemma_run_shape(ds);
    let j = first_change(ds, 0);
    let k = next_same(ds, j);
    let u0 = units_of_kind(ds.take(j), 0);
    let run = ds.subrange(j, k);
    let urem = units_of_kind(run, 2);
    let uadd = units_of_kind(run, 1);
    let otail = utf16_encode(old_side(ds.skip(k)));
    let ntail = utf16_encode(new_side(ds.skip(k)));
    let buffer = done + utf16_encode(old_side(ds));
    lemma_extent_concat(done, u0);
    assert(buffer =~= (done + u0) + (urem + otail));
    lemma_offset_of_prefix(done + u0, urem + otail);
    assert(buffer =~= (done + u0 + urem) + otail);
    lemma_offset_of_prefix(done + u0 + urem, otail);
    lemma_extent_concat(done + u0, urem);
    lemma_extent_concat(done + u0, uadd);
    let (c, p, n) = next_change(pos, ds);
    let ch = c.unwrap();
    assert(offset_of(buffer, ch.start) == (done + u0).len());
    assert(offset_of(buffer, ch.end) == (done + u0 + urem).len());
    assert(apply_change(buffer, ch) =~= (done + u0 + uadd) + otail);
    assert(done + utf16_encode(new_side(ds)) =~= (done + u0 + uadd) + ntail);
    if k < ds.len() {
        lemma_shared_front(ds, k);
        lemma_extent_concat(done + u0 + uadd, units_of(ds[k]));
        let done2 = done + u0 + uadd + units_of(ds[k]);
        assert(apply_change(buffer, ch) =~= done2 + utf16_encode(old_side(ds.skip(k + 1))));
        assert(done2 + utf16_encode(new_side(ds.skip(k + 1))) =~= (done + u0 + uadd) + ntail);
        done2
    } else {
        assert(ds.skip(k) =~= Seq::<Run>::empty());
        done + u0 + uadd
    }
}

/// Replaying the replacements read from an edit script, from the end of text
/// `done`, on `done` followed by the rest of the old text turns it into `done`
/// followed by the rest of the new text.
pub proof fn lemma_replay(done: Seq<u16>, ds: Seq<Run>)
    ensures
        apply_changes(
            done + utf16_encode(old_side(ds)),
            changes_from(extent_of(done), ds),
        ) == done + utf16_encode(new_side(ds)),
    decreases ds.len(),
{
    let pos = extent_of(done);
    lemma_first_change(ds, 0);
    if first_change(ds, 0) >= ds.len() {
        let s = ds.take(first_change(ds, 0));
        assert(s =~= ds);
        assert forall|t: int| 0 <= t < ds.len() implies ds[t] is Same by {
            assert(s[t] == ds[t]);
        }
        lemma_shared_sides(ds);
        assert(changes_from(pos, ds) =~= Seq::<ChangeView>::empty());
    } else {
        let done2 = lemma_replay_step(done, ds);
        let (c, p, n) = next_change(pos, ds);
        let rest = ds.skip(n);
        lemma_replay(done2, rest);
        assert(changes_from(pos, ds) == seq![c.unwrap()] + changes_from(p, rest));
        assert((seq![c.unwrap()] + changes_from(p, rest)).drop_first() =~= changes_from(p, rest));
    }
}

} // verus!
