//! Fragments: the pieces of insertions that make up a buffer, in order, each
//! visible unless some deletion covers it.

use crate::fragment_id::FragmentId;
use crate::point::{fits_u32, point_diff, point_le, point_sum, Point};
use crate::summary::{summarizes_text, FragmentSummary};
use crate::text::{
    extent_of, lemma_row_lengths, lemma_row_of, lemma_row_position, lemma_row_start_next,
    lemma_row_vs_range, lemma_slice_extent, row_lengths, row_of, row_start, text_point, Text,
};
use crate::time::{entry, lemma_observe_is_max, observe_view, Global, Lamport, Local, ReplicaId};
use crate::Error;
use std::sync::Arc;
use vstd::prelude::*;

verus! {

/// A run of text inserted by one replica at one moment, with where it was inserted.
#[derive(Clone, Debug)]
pub struct Insertion {
    pub id: Local,
    pub parent_id: Local,
    pub offset_in_parent: usize,
    pub text: Arc<Text>,
    pub lamport_timestamp: Lamport,
}

/// A piece `start_offset..end_offset` of an insertion's text, with the
/// timestamps of the deletions that removed it.
#[derive(Clone, Debug)]
pub struct Fragment {
    pub id: FragmentId,
    pub insertion: Insertion,
    pub start_offset: usize,
    pub end_offset: usize,
    /// The timestamps of the deletions that removed the fragment, each recorded
    /// once (see `wf`).
    pub deletions: Vec<Local>,
}

/// The version vector `m` after observing each of `ts` in turn.
pub open spec fn observe_seq(m: Map<ReplicaId, u64>, ts: Seq<Local>) -> Map<ReplicaId, u64>
    decreases ts.len(),
{
    if ts.len() == 0 {
        m
    } else {
        observe_view(observe_seq(m, ts.drop_last()), ts.last())
    }
}

/// Observing timestamps one after the other keeps, for each replica, the greatest
/// value seen: every entry is at least its value before and at least the value of
/// each observed timestamp of that replica, and is one of those values.
pub proof fn lemma_observe_seq_is_max(m: Map<ReplicaId, u64>, ts: Seq<Local>)
    ensures
        forall|i: int|
            0 <= i < ts.len() ==> entry(observe_seq(m, ts), #[trigger] ts[i].replica_id)
                >= ts[i].value,
        forall|r: ReplicaId| #[trigger] entry(observe_seq(m, ts), r) >= entry(m, r),
        forall|r: ReplicaId|
            #[trigger] entry(observe_seq(m, ts), r) == entry(m, r) || exists|i: int|
                0 <= i < ts.len() && ts[i].replica_id == r && entry(observe_seq(m, ts), r)
                    == ts[i].value,
    decreases ts.len(),
{
    if ts.len() > 0 {
        let p = ts.drop_last();
        let t = ts.last();
        let before = observe_seq(m, p);
        lemma_observe_seq_is_max(m, p);
        assert(observe_seq(m, ts) == observe_view(before, t));
        assert forall|r: ReplicaId| #[trigger] entry(observe_seq(m, ts), r) >= entry(m, r) by {
            lemma_observe_is_max(before, t, r);
            assert(entry(before, r) >= entry(m, r));
        }
        assert forall|r: ReplicaId| true implies {
            &&& entry(observe_view(before, t), r) >= entry(before, r)
            &&& (r == t.replica_id ==> entry(observe_view(before, t), r) >= t.value)
            &&& (entry(observe_view(before, t), r) == entry(before, r) || (r == t.replica_id
                && entry(observe_view(before, t), r) == t.value))
        } by {
            lemma_observe_is_max(before, t, r);
        }
        assert forall|i: int|
            0 <= i < ts.len() implies entry(observe_seq(m, ts), #[trigger] ts[i].replica_id)
            >= ts[i].value by {
            if i < p.len() {
                assert(ts[i] == p[i]);
                assert(entry(before, p[i].replica_id) >= p[i].value);
            }
        }
        assert forall|r: ReplicaId|
            #[trigger] entry(observe_seq(m, ts), r) == entry(m, r) || exists|i: int|
                0 <= i < ts.len() && ts[i].replica_id == r && entry(observe_seq(m, ts), r)
                    == ts[i].value by {
            assert(entry(before, r) >= entry(m, r));
            if entry(observe_seq(m, ts), r) == entry(before, r) {
                if entry(before, r) != entry(m, r) {
                    let i = choose|i: int|
                        0 <= i < p.len() && p[i].replica_id == r && entry(before, r)
                            == p[i].value;
                    assert(ts[i] == p[i]);
                }
            } else {
                assert(ts[ts.len() - 1] == t);
            }
        }
    }
}

/// The offset of `point` in a text with row lengths `l`, if the point lies in it.
pub open spec fn offset_of_point(l: Seq<int>, p: (int, int)) -> Option<int> {
    if 0 <= p.0 < l.len() && 0 <= p.1 <= l[p.0] {
        Some(row_start(l, p.0) + p.1)
    } else {
        None
    }
}

impl Fragment {
    /// The piece lies within its insertion's text, and no deletion is recorded twice.
    pub open spec fn wf(&self) -> bool {
        &&& self.start_offset <= self.end_offset <= self.insertion.text@.len()
        &&& self.deletions@.no_duplicates()
    }

    /// The code units of the piece.
    pub open spec fn piece(&self) -> Seq<u16> {
        self.insertion.text@.subrange(self.start_offset as int, self.end_offset as int)
    }

    /// The text the fragment contributes to the buffer: its piece, unless deleted.
    pub open spec fn visible_text(&self) -> Seq<u16> {
        if self.deletions@.len() == 0 {
            self.piece()
        } else {
            Seq::empty()
        }
    }

    /// A fragment holding all of `insertion`'s text.
    pub fn new(id: FragmentId, insertion: Insertion) -> (f: Fragment)
        ensures
            f.id == id,
            f.insertion == insertion,
            f.start_offset == 0,
            f.end_offset == insertion.text@.len(),
            f.deletions@.len() == 0,
            f.wf(),
    {
        let end_offset = insertion.text.len();
        Fragment { id, insertion, start_offset: 0, end_offset, deletions: Vec::new() }
    }

    /// The visible code unit at `offset`.
    pub fn code_unit(&self, offset: usize) -> (c: Option<u16>)
        requires
            self.wf(),
        ensures
            c == (if offset < self.visible_text().len() {
                Some(self.visible_text()[offset as int])
            } else {
                None
            }),
    {
        if offset < self.len() {
            Some(self.insertion.text.code_unit_at(self.start_offset + offset))
        } else {
            None
        }
    }

    /// The code units of the piece.
    pub fn code_units(&self) -> (units: Vec<u16>)
        requires
            self.wf(),
        ensures
            units@ == self.piece(),
    {
        let mut units: Vec<u16> = Vec::new();
        let mut i = self.start_offset;
        while i < self.end_offset
            invariant
                self.wf(),
                self.start_offset <= i <= self.end_offset,
                units@ == self.insertion.text@.subrange(self.start_offset as int, i as int),
            decreases self.end_offset - i,
        {
            units.push(self.insertion.text.code_unit_at(i));
            proof {
                assert(self.insertion.text@.subrange(self.start_offset as int, i + 1) =~= units@);
            }
            i = i + 1;
        }
        units
    }

    /// The number of visible code units.
    pub fn len(&self) -> (n: usize)
        requires
            self.wf(),
        ensures
            n == self.visible_text().len(),
    {
        if self.is_visible() {
            self.extent()
        } else {
            0
        }
    }

    /// The number of code units of the piece, visible or not.
    pub fn extent(&self) -> (n: usize)
        requires
            self.wf(),
        ensures
            n == self.piece().len(),
    {
        self.end_offset - self.start_offset
    }

    /// The two-dimensional extent of the piece, visible or not.
    pub fn extent_2d(&self) -> (p: Point)
        requires
            self.wf(),
        ensures
            (p.row as int, p.column as int) == extent_of(self.piece()),
    {
        let extent = self.extent();
        let r = self.point_for_offset(extent);
        proof {
            assert(self.insertion.text@.subrange(self.start_offset as int, self.start_offset + extent) == self.piece());
        }
        r.unwrap()
    }

    /// No deletion covers the fragment.
    pub fn is_visible(&self) -> (b: bool)
        ensures
            b == (self.deletions@.len() == 0),
    {
        self.deletions.len() == 0
    }

    /// The fragment was visible in the state described by `version`: its
    /// insertion had been observed and none of its deletions had.
    pub fn was_visible(&self, version: &Global) -> (b: bool)
        ensures
            b == (entry(version@, self.insertion.id.replica_id) >= self.insertion.id.value
                && forall|i: int|
                0 <= i < self.deletions@.len() ==> !(entry(
                    version@,
                    #[trigger] self.deletions@[i].replica_id,
                ) >= self.deletions@[i].value)),
    {
        if !version.observed(self.insertion.id) {
            return false;
        }
        let mut i: usize = 0;
        while i < self.deletions.len()
            invariant
                i <= self.deletions.len(),
                forall|j: int|
                    0 <= j < i ==> !(entry(version@, #[trigger] self.deletions@[j].replica_id)
                        >= self.deletions@[j].value),
            decreases self.deletions.len() - i,
        {
            if version.observed(self.deletions[i]) {
                return false;
            }
            i = i + 1;
        }
        true
    }

    /// The extent from the start of the piece to `offset` within it.
    pub fn point_for_offset(&self, offset: usize) -> (r: Result<Point, Error>)
        requires
            self.wf(),
            self.start_offset + offset <= usize::MAX,
        ensures
            match r {
                Ok(p) => {
                    &&& self.start_offset + offset <= self.insertion.text@.len()
                    &&& (p.row as int, p.column as int) == extent_of(
                        self.insertion.text@.subrange(
                            self.start_offset as int,
                            self.start_offset + offset,
                        ),
                    )
                },
                Err(e) => {
                    &&& self.start_offset + offset > self.insertion.text@.len()
                    &&& e == Error::OffsetOutOfRange
                },
            },
    {
        let text = &self.insertion.text;
        let offset_in_insertion = self.start_offset + offset;
        let end_point = text.point_for_offset(offset_in_insertion)?;
        let start_point = text.point_for_offset(self.start_offset)?;
        proof {
            lemma_slice_extent(text@, self.start_offset as int, offset_in_insertion as int);
        }
        Ok(end_point.sub(&start_point))
    }

    /// The offset within the piece of `point`, an extent from the start of the piece.
    pub fn offset_for_point(&self, point: Point) -> (r: Result<usize, Error>)
        requires
            self.wf(),
            fits_u32(point_sum(text_point(row_lengths(self.insertion.text@), self.start_offset as int), point)),
        ensures
            ({
                let l = row_lengths(self.insertion.text@);
                let q = point_sum(text_point(l, self.start_offset as int), point);
                match r {
                    Ok(o) => offset_of_point(l, q) == Some(o + self.start_offset),
                    Err(e) => offset_of_point(l, q) is None && e == Error::OffsetOutOfRange,
                }
            }),
    {
        let text = &self.insertion.text;
        let start_point = text.point_for_offset(self.start_offset)?;
        let point_in_insertion = start_point.add(&point);
        let o = text.offset_for_point(point_in_insertion)?;
        proof {
            let l = row_lengths(text@);
            lemma_row_lengths(text@);
            let r0 = row_of(l, self.start_offset as int);
            lemma_row_of(l, self.start_offset as int);
            if point_in_insertion.row > r0 {
                lemma_row_start_next(l, r0);
                crate::text::lemma_row_start_monotone(l, r0 + 1, point_in_insertion.row as int);
            }
        }
        Ok(o - self.start_offset)
    }

    /// The summary of the fragment: its visible text, its identifier and the
    /// timestamps of its insertion and deletions.
    pub fn summarize(&self) -> (sum: FragmentSummary)
        requires
            self.wf(),
        ensures
            summarizes_text(&sum, self.visible_text()),
            sum.max_fragment_id@ == self.id@,
            sum.max_version@ == observe_seq(
                observe_view(Map::<ReplicaId, u64>::empty(), self.insertion.id),
                self.deletions@,
            ),
            entry(sum.max_version@, self.insertion.id.replica_id) >= self.insertion.id.value,
            forall|i: int|
                0 <= i < self.deletions@.len() ==> entry(
                    sum.max_version@,
                    #[trigger] self.deletions@[i].replica_id,
                ) >= self.deletions@[i].value,
    {
        let mut max_version = Global::new();
        max_version.observe(self.insertion.id);
        let ghost first = observe_view(Map::<ReplicaId, u64>::empty(), self.insertion.id);
        let mut i: usize = 0;
        while i < self.deletions.len()
            invariant
                i <= self.deletions.len(),
                max_version@ == observe_seq(first, self.deletions@.take(i as int)),
            decreases self.deletions.len() - i,
        {
            proof {
                assert(self.deletions@.take(i + 1).drop_last() =~= self.deletions@.take(i as int));
            }
            max_version.observe(self.deletions[i]);
            i = i + 1;
        }
        proof {
            assert(self.deletions@.take(i as int) =~= self.deletions@);
            lemma_observe_is_max(
                Map::<ReplicaId, u64>::empty(),
                self.insertion.id,
                self.insertion.id.replica_id,
            );
            lemma_observe_seq_is_max(first, self.deletions@);
        }
        let max_fragment_id = FragmentId::from_entries(self.id.entries().clone());
        if self.is_visible() {
            let text = &self.insertion.text;
            let fragment_2d_start = text.point_for_offset(self.start_offset).unwrap();
            let fragment_2d_end = text.point_for_offset(self.end_offset).unwrap();
            let ghost l = row_lengths(text@);
            let ghost a = self.start_offset as int;
            let ghost b = self.end_offset as int;
            proof {
                lemma_row_lengths(text@);
                lemma_slice_extent(text@, a, b);
                lemma_row_of(l, a);
                lemma_row_of(l, b);
            }
            let first_row_len = if fragment_2d_start.row == fragment_2d_end.row {
                self.extent() as u32
            } else {
                proof {
                    lemma_row_start_next(l, row_of(l, a));
                    lemma_row_vs_range(l, a, b, row_of(l, a));
                }
                let next_row = self.offset_for_point(Point::new(1, 0)).unwrap();
                (next_row as u32) - 1
            };
            let (longest_row, longest_row_len) = text.longest_row_in_range(
                self.start_offset..self.end_offset,
            ).unwrap();
            proof {
                crate::text::lemma_max_nonneg(row_lengths(self.piece()));
            }
            FragmentSummary {
                extent: self.len(),
                extent_2d: fragment_2d_end.sub(&fragment_2d_start),
                max_fragment_id,
                first_row_len,
                longest_row: longest_row - fragment_2d_start.row,
                longest_row_len,
                max_version,
            }
        } else {
            proof {
                assert(row_lengths(Seq::<u16>::empty()) == seq![0int]);
                crate::text::lemma_max_single(0);
            }
            FragmentSummary {
                extent: 0,
                extent_2d: Point { row: 0, column: 0 },
                max_fragment_id,
                first_row_len: 0,
                longest_row: 0,
                longest_row_len: 0,
                max_version,
            }
        }
    }
}

} // verus!
