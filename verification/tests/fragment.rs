use memo_core::fragment::{Fragment, Insertion};
use memo_core::fragment_id::FragmentId;
use memo_core::summary::FragmentSummary;
use memo_core::time::{Global, Lamport, Local};
use memo_core::{Error, Point, Text};
use std::sync::Arc;

fn insertion(text: &str) -> Insertion {
    Insertion {
        id: Local { replica_id: 1, value: 1 },
        parent_id: Local { replica_id: 0, value: 0 },
        offset_in_parent: 0,
        text: Arc::new(Text::from(text)),
        lamport_timestamp: Lamport { value: 1, replica_id: 1 },
    }
}

fn units(s: &str) -> Vec<u16> {
    s.encode_utf16().collect()
}

#[test]
fn fragment_covers_its_piece() {
    let mut f = Fragment::new(FragmentId::from_entries(vec![5]), insertion("abc\ndefg\nhi"));
    assert_eq!(f.len(), 11);
    assert_eq!(f.extent(), 11);
    assert_eq!(f.extent_2d(), Point::new(2, 2));
    assert_eq!(f.code_units(), units("abc\ndefg\nhi"));

    f.start_offset = 2;
    f.end_offset = 7;
    assert_eq!(f.code_units(), units("c\ndef"));
    assert_eq!(f.len(), 5);
    assert_eq!(f.extent_2d(), Point::new(1, 3));
    assert_eq!(f.code_unit(0), Some(b'c' as u16));
    assert_eq!(f.code_unit(4), Some(b'f' as u16));
    assert_eq!(f.code_unit(5), None);
}

#[test]
fn fragment_visibility() {
    let mut f = Fragment::new(FragmentId::from_entries(vec![5]), insertion("abc"));
    assert!(f.is_visible());
    let mut version = Global::new();
    // The insertion itself has not been observed yet.
    assert!(!f.was_visible(&version));
    version.observe(Local { replica_id: 1, value: 1 });
    assert!(f.was_visible(&version));

    let deletion = Local { replica_id: 2, value: 3 };
    f.deletions.push(deletion);
    assert!(!f.is_visible());
    assert_eq!(f.len(), 0);
    assert_eq!(f.extent(), 3);
    assert_eq!(f.code_unit(0), None);
    // Before the deletion was observed, the fragment was visible.
    assert!(f.was_visible(&version));
    version.observe(deletion);
    assert!(!f.was_visible(&version));
}

#[test]
fn fragment_points_and_offsets() {
    let mut f = Fragment::new(FragmentId::from_entries(vec![5]), insertion("ab\ncd\nef"));
    f.start_offset = 1;
    f.end_offset = 7;
    // The piece is "b\ncd\ne", which starts at column 1 of the insertion's first row.
    assert_eq!(f.point_for_offset(0), Ok(Point::new(0, 0)));
    assert_eq!(f.point_for_offset(1), Ok(Point::new(0, 1)));
    assert_eq!(f.point_for_offset(2), Ok(Point::new(1, 0)));
    assert_eq!(f.point_for_offset(5), Ok(Point::new(2, 0)));
    assert_eq!(f.point_for_offset(6), Ok(Point::new(2, 1)));
    // Offsets are read in the insertion's text, past the end of the piece too.
    assert_eq!(f.point_for_offset(7), Ok(Point::new(2, 2)));
    assert_eq!(f.point_for_offset(8), Err(Error::OffsetOutOfRange));

    assert_eq!(f.offset_for_point(Point::new(0, 0)), Ok(0));
    assert_eq!(f.offset_for_point(Point::new(1, 1)), Ok(3));
    assert_eq!(f.offset_for_point(Point::new(2, 1)), Ok(6));
    assert_eq!(f.offset_for_point(Point::new(2, 2)), Ok(7));
    assert_eq!(f.offset_for_point(Point::new(2, 3)), Err(Error::OffsetOutOfRange));
    assert_eq!(f.offset_for_point(Point::new(3, 0)), Err(Error::OffsetOutOfRange));
}

#[test]
fn fragment_summary_records_rows() {
    let f = Fragment::new(FragmentId::from_entries(vec![5]), insertion("ab\nlonger\nc"));
    let s = f.summarize();
    assert_eq!(s.extent, 11);
    assert_eq!(s.extent_2d, Point::new(2, 1));
    assert_eq!(s.first_row_len, 2);
    assert_eq!(s.longest_row, 1);
    assert_eq!(s.longest_row_len, 6);
    assert_eq!(s.max_fragment_id, FragmentId::from_entries(vec![5]));
    assert_eq!(s.max_version.get(1), 1);
}

#[test]
fn fragment_summaries_add_like_their_texts() {
    let a = Fragment::new(FragmentId::from_entries(vec![5]), insertion("abc\nde"));
    let b = Fragment::new(FragmentId::from_entries(vec![7]), insertion("fghij\nk"));
    let mut sum = a.summarize();
    sum.add_assign(&b.summarize());

    let whole = Fragment::new(FragmentId::from_entries(vec![7]), insertion("abc\ndefghij\nk"));
    let expected = whole.summarize();
    assert_eq!(sum.extent, expected.extent);
    assert_eq!(sum.extent_2d, expected.extent_2d);
    assert_eq!(sum.first_row_len, expected.first_row_len);
    assert_eq!(sum.longest_row, expected.longest_row);
    assert_eq!(sum.longest_row_len, expected.longest_row_len);
    assert_eq!(sum.max_fragment_id, FragmentId::from_entries(vec![7]));

    let mut from_empty = FragmentSummary::default();
    from_empty.add_assign(&a.summarize());
    assert_eq!(from_empty.extent_2d, Point::new(1, 2));
    assert_eq!(from_empty.longest_row_len, 3);
}
