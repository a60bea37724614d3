use memo_core::diff::{diff, Change};
use memo_core::Point;

fn units(s: &str) -> Vec<u16> {
    s.encode_utf16().collect()
}

/// Replays `changes` on the code units of `text`, one after the other.
fn replay(text: &str, changes: &[Change]) -> Vec<u16> {
    let mut buffer = units(text);
    for change in changes {
        let offset = |p: Point| {
            let mut row = 0;
            let mut start = 0;
            for (i, u) in buffer.iter().enumerate() {
                if row == p.row {
                    break;
                }
                if *u == b'\n' as u16 {
                    row += 1;
                    start = i + 1;
                }
            }
            start + p.column as usize
        };
        let start = offset(change.range.start);
        let end = offset(change.range.end);
        buffer.splice(start..end, change.code_units.iter().cloned());
    }
    buffer
}

#[test]
fn diff_of_single_substitution() {
    let changes = diff("test", "tent");
    assert_eq!(
        changes,
        vec![Change {
            range: Point::new(0, 2)..Point::new(0, 3),
            code_units: units("n"),
            new_extent: Point::new(0, 1),
        }]
    );
}

#[test]
fn diff_of_equal_texts_is_empty() {
    assert_eq!(diff("abc\ndef", "abc\ndef"), vec![]);
    assert_eq!(diff("", ""), vec![]);
}

#[test]
fn diff_insertion_into_empty_text() {
    let changes = diff("", "ab\nc");
    assert_eq!(
        changes,
        vec![Change {
            range: Point::new(0, 0)..Point::new(0, 0),
            code_units: units("ab\nc"),
            new_extent: Point::new(1, 1),
        }]
    );
}

#[test]
fn diff_deletion_of_everything() {
    let changes = diff("ab\nc", "");
    assert_eq!(
        changes,
        vec![Change {
            range: Point::new(0, 0)..Point::new(1, 1),
            code_units: vec![],
            new_extent: Point::new(0, 0),
        }]
    );
}

#[test]
fn diff_positions_count_rows() {
    let changes = diff("a\nbc\nd", "a\nbXc\nd");
    assert_eq!(
        changes,
        vec![Change {
            range: Point::new(1, 1)..Point::new(1, 1),
            code_units: units("X"),
            new_extent: Point::new(0, 1),
        }]
    );
}

#[test]
fn diff_changes_replay_to_the_new_text() {
    let cases = [
        ("test", "tent"),
        ("abc\ndef\nghi", "abc\nXef\ngh"),
        ("one\ntwo\nthree\n", "zero\none\nthree\nfour\n"),
        ("", "x\ny"),
        ("x\ny", ""),
        ("héllo wörld", "hello world!"),
        ("a😀b", "ab😀"),
    ];
    for (a, b) in cases.iter() {
        let changes = diff(a, b);
        assert_eq!(replay(a, &changes), units(b), "{:?} -> {:?}", a, b);
    }
}
