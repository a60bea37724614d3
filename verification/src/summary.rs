//! Summaries of runs of text: what a tree of fragments keeps about the visible
//! text below each node, and how two summaries combine when their texts are
//! placed one after the other.

use crate::fragment_id::{lex_lt, FragmentId};
use crate::point::{point_sum, Point};
use crate::text::{
    first_argmax, lemma_max_concat, lemma_max_nonneg, lemma_max_single, lemma_row_lengths,
    newline, row_lengths, seq_max,
};
use crate::time::{join, Global};
use vstd::prelude::*;

verus! {

/// The rows of `x` followed by the rows of `y`: the last row of `x` and the first
/// row of `y` become one row.
pub open spec fn merge_rows(x: Seq<int>, y: Seq<int>) -> Seq<int> {
    x.drop_last() + seq![x.last() + y[0]] + y.drop_first()
}

/// The rows of a concatenation are the merged rows of its parts.
pub proof fn lemma_rows_concat(x: Seq<u16>, y: Seq<u16>)
    ensures
        row_lengths(x + y) == merge_rows(row_lengths(x), row_lengths(y)),
    decreases y.len(),
{
    lemma_row_lengths(x);
    lemma_row_lengths(y);
    let rx = row_lengths(x);
    if y.len() == 0 {
        assert(x + y =~= x);
        assert(row_lengths(y) == seq![0int]);
        assert(merge_rows(rx, seq![0int]) =~= rx);
    } else {
        let y0 = y.drop_last();
        lemma_rows_concat(x, y0);
        lemma_row_lengths(y0);
        assert((x + y).drop_last() =~= x + y0);
        assert((x + y).last() == y.last());
        let ry0 = row_lengths(y0);
        let m0 = merge_rows(rx, ry0);
        if y.last() == newline() {
            assert(merge_rows(rx, ry0.push(0)) =~= m0.push(0));
        } else {
            let ry = ry0.update(ry0.len() - 1, ry0.last() + 1);
            assert(merge_rows(rx, ry) =~= m0.update(m0.len() - 1, m0.last() + 1));
        }
    }
}

/// What a summary records of the visible text below a node.
#[derive(Debug)]
pub struct FragmentSummary {
    /// The number of code units.
    pub extent: usize,
    /// The number of newlines and the length of the last row.
    pub extent_2d: Point,
    /// The identifier of the last fragment.
    pub max_fragment_id: FragmentId,
    /// The length of the first row.
    pub first_row_len: u32,
    /// The first longest row.
    pub longest_row: u32,
    /// The length of the longest row.
    pub longest_row_len: u32,
    /// Every insertion and deletion that the fragments record.
    pub max_version: Global,
}

/// `sum` records text `s`.
pub open spec fn summarizes_text(sum: &FragmentSummary, s: Seq<u16>) -> bool {
    let rows = row_lengths(s);
    &&& sum.extent == s.len()
    &&& sum.extent_2d.row == rows.len() - 1
    &&& sum.extent_2d.column == rows.last()
    &&& sum.first_row_len == rows[0]
    &&& sum.longest_row == first_argmax(rows)
    &&& sum.longest_row_len == seq_max(rows)
}

impl Clone for FragmentSummary {
    fn clone(&self) -> (c: FragmentSummary)
        ensures
            c.extent == self.extent,
            c.extent_2d == self.extent_2d,
            c.max_fragment_id@ == self.max_fragment_id@,
            c.first_row_len == self.first_row_len,
            c.longest_row == self.longest_row,
            c.longest_row_len == self.longest_row_len,
            c.max_version@ == self.max_version@,
    {
        FragmentSummary {
            extent: self.extent,
            extent_2d: self.extent_2d,
            max_fragment_id: FragmentId::from_entries(self.max_fragment_id.entries().clone()),
            first_row_len: self.first_row_len,
            longest_row: self.longest_row,
            longest_row_len: self.longest_row_len,
            max_version: self.max_version.clone(),
        }
    }
}

impl Default for FragmentSummary {
    /// The summary of no text.
    fn default() -> (s: FragmentSummary)
        ensures
            summarizes_text(&s, Seq::<u16>::empty()),
            s.max_fragment_id@ == seq![0u16],
            s.max_version@ == Map::<u128, u64>::empty(),
    {
        proof {
            assert(row_lengths(Seq::<u16>::empty()) == seq![0int]);
            lemma_max_single(0);
        }
        FragmentSummary {
            extent: 0,
            extent_2d: Point { row: 0, column: 0 },
            max_fragment_id: FragmentId::min_value(),
            first_row_len: 0,
            longest_row: 0,
            longest_row_len: 0,
            max_version: Global::new(),
        }
    }
}

impl FragmentSummary {
    /// Appends the summary of the text that follows.
    pub fn add_assign(&mut self, other: &FragmentSummary)
        requires
            !lex_lt(other.max_fragment_id@, old(self).max_fragment_id@),
            old(self).extent + other.extent <= usize::MAX,
            old(self).extent_2d.column + other.first_row_len <= u32::MAX,
            old(self).extent_2d.row + other.longest_row <= u32::MAX,
            old(self).extent_2d.row + other.extent_2d.row <= u32::MAX,
            old(self).extent_2d.column + other.extent_2d.column <= u32::MAX,
            old(self).first_row_len + other.first_row_len <= u32::MAX,
        ensures
            final(self).extent == old(self).extent + other.extent,
            (final(self).extent_2d.row as int, final(self).extent_2d.column as int) == point_sum(
                old(self).extent_2d,
                other.extent_2d,
            ),
            final(self).first_row_len == (if old(self).extent_2d.row == 0 {
                old(self).first_row_len + other.first_row_len
            } else {
                old(self).first_row_len as int
            }),
            final(self).max_fragment_id@ == other.max_fragment_id@,
            final(self).max_version@ == join(old(self).max_version@, other.max_version@),
            // The longest row: the first of the old longest row, the row where the
            // two texts meet and the other's longest row that is strictly longer
            // than the ones before it.
            ({
                let meet = old(self).extent_2d.column + other.first_row_len;
                let (lr1, lrl1) = if meet > old(self).longest_row_len {
                    (old(self).extent_2d.row as int, meet)
                } else {
                    (old(self).longest_row as int, old(self).longest_row_len as int)
                };
                &&& final(self).longest_row_len == (if other.longest_row_len > lrl1 {
                    other.longest_row_len as int
                } else {
                    lrl1
                })
                &&& final(self).longest_row == (if other.longest_row_len > lrl1 {
                    old(self).extent_2d.row + other.longest_row
                } else {
                    lr1
                })
            }),
            forall|x: Seq<u16>, y: Seq<u16>|
                summarizes_text(old(self), x) && summarizes_text(other, y) ==> summarizes_text(
                    final(self),
                    x + y,
                ),
    {
        let ghost old_self = *self;
        let last_row_len = self.extent_2d.column + other.first_row_len;
        if last_row_len > self.longest_row_len {
            self.longest_row = self.extent_2d.row;
            self.longest_row_len = last_row_len;
        }
        if other.longest_row_len > self.longest_row_len {
            self.longest_row = self.extent_2d.row + other.longest_row;
            self.longest_row_len = other.longest_row_len;
        }
        if self.extent_2d.row == 0 {
            self.first_row_len = self.first_row_len + other.first_row_len;
        }
        self.extent = self.extent + other.extent;
        self.extent_2d.add_assign(&other.extent_2d);
        self.max_fragment_id = FragmentId::from_entries(other.max_fragment_id.entries().clone());
        self.max_version.observe_all(&other.max_version);
        proof {
            assert forall|x: Seq<u16>, y: Seq<u16>|
                summarizes_text(&old_self, x) && summarizes_text(other, y) implies summarizes_text(
                    self,
                    x + y,
                ) by {
                lemma_summary_concat(x, y);
            }
        }
    }
}

/// How the rows of a concatenation compare: the lengths and first longest row
/// of `x + y` follow from those of `x` and `y`.
pub proof fn lemma_summary_concat(x: Seq<u16>, y: Seq<u16>)
    ensures
        ({
            let rx = row_lengths(x);
            let ry = row_lengths(y);
            let r = row_lengths(x + y);
            let meet = rx.last() + ry[0];
            let (lr1, lrl1) = if meet > seq_max(rx) {
                (rx.len() - 1, meet)
            } else {
                (first_argmax(rx), seq_max(rx))
            };
            &&& r.len() - 1 == (rx.len() - 1) + (ry.len() - 1)
            &&& r.last() == (if ry.len() == 1 { rx.last() + ry[0] } else { ry.last() })
            &&& r[0] == (if rx.len() == 1 { rx[0] + ry[0] } else { rx[0] })
            &&& seq_max(r) == (if seq_max(ry) > lrl1 { seq_max(ry) } else { lrl1 })
            &&& first_argmax(r) == (if seq_max(ry) > lrl1 {
                rx.len() - 1 + first_argmax(ry)
            } else {
                lr1
            })
        }),
{
    lemma_rows_concat(x, y);
    lemma_row_lengths(x);
    lemma_row_lengths(y);
    let rx = row_lengths(x);
    let ry = row_lengths(y);
    let a = rx.drop_last();
    let b = ry.drop_first();
    let meet = rx.last() + ry[0];
    assert(rx =~= a + seq![rx.last()]);
    assert(ry =~= seq![ry[0]] + b);
    lemma_max_concat(a, seq![rx.last()]);
    lemma_max_concat(a, seq![meet]);
    lemma_max_single(rx.last());
    lemma_max_single(meet);
    lemma_max_single(ry[0]);
    lemma_max_concat(seq![ry[0]], b);
    lemma_max_concat(a + seq![meet], b);
    lemma_max_nonneg(a);
    lemma_max_nonneg(b);
    assert(merge_rows(rx, ry) =~= (a + seq![meet]) + b);
}

} // verus!
