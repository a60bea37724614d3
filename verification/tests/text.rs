use memo_core::{Error, Point, Text};
use rand::{Rng, SeedableRng, StdRng};

#[test]
fn test_point_for_offset() {
    let text = Text::from("abc\ndefgh\nijklm\nopq");
    assert_eq!(text.point_for_offset(0), Ok(Point { row: 0, column: 0 }));
    assert_eq!(text.point_for_offset(1), Ok(Point { row: 0, column: 1 }));
    assert_eq!(text.point_for_offset(2), Ok(Point { row: 0, column: 2 }));
    assert_eq!(text.point_for_offset(3), Ok(Point { row: 0, column: 3 }));
    assert_eq!(text.point_for_offset(4), Ok(Point { row: 1, column: 0 }));
    assert_eq!(text.point_for_offset(5), Ok(Point { row: 1, column: 1 }));
    assert_eq!(text.point_for_offset(9), Ok(Point { row: 1, column: 5 }));
    assert_eq!(text.point_for_offset(10), Ok(Point { row: 2, column: 0 }));
    assert_eq!(text.point_for_offset(14), Ok(Point { row: 2, column: 4 }));
    assert_eq!(text.point_for_offset(15), Ok(Point { row: 2, column: 5 }));
    assert_eq!(text.point_for_offset(16), Ok(Point { row: 3, column: 0 }));
    assert_eq!(text.point_for_offset(17), Ok(Point { row: 3, column: 1 }));
    assert_eq!(text.point_for_offset(19), Ok(Point { row: 3, column: 3 }));
    assert_eq!(text.point_for_offset(20), Err(Error::OffsetOutOfRange));

    let text = Text::from("abc");
    assert_eq!(text.point_for_offset(0), Ok(Point { row: 0, column: 0 }));
    assert_eq!(text.point_for_offset(1), Ok(Point { row: 0, column: 1 }));
    assert_eq!(text.point_for_offset(2), Ok(Point { row: 0, column: 2 }));
    assert_eq!(text.point_for_offset(3), Ok(Point { row: 0, column: 3 }));
    assert_eq!(text.point_for_offset(4), Err(Error::OffsetOutOfRange));
}

#[test]
fn test_offset_for_point() {
    let text = Text::from("abc\ndefgh");
    assert_eq!(text.offset_for_point(Point { row: 0, column: 0 }), Ok(0));
    assert_eq!(text.offset_for_point(Point { row: 0, column: 1 }), Ok(1));
    assert_eq!(text.offset_for_point(Point { row: 0, column: 2 }), Ok(2));
    assert_eq!(text.offset_for_point(Point { row: 0, column: 3 }), Ok(3));
    assert_eq!(
        text.offset_for_point(Point { row: 0, column: 4 }),
        Err(Error::OffsetOutOfRange)
    );
    assert_eq!(text.offset_for_point(Point { row: 1, column: 0 }), Ok(4));
    assert_eq!(text.offset_for_point(Point { row: 1, column: 1 }), Ok(5));
    assert_eq!(text.offset_for_point(Point { row: 1, column: 5 }), Ok(9));
    assert_eq!(
        text.offset_for_point(Point { row: 1, column: 6 }),
        Err(Error::OffsetOutOfRange)
    );

    let text = Text::from("abc");
    assert_eq!(text.offset_for_point(Point { row: 0, column: 0 }), Ok(0));
    assert_eq!(text.offset_for_point(Point { row: 0, column: 1 }), Ok(1));
    assert_eq!(text.offset_for_point(Point { row: 0, column: 2 }), Ok(2));
    assert_eq!(text.offset_for_point(Point { row: 0, column: 3 }), Ok(3));
    assert_eq!(
        text.offset_for_point(Point { row: 0, column: 4 }),
        Err(Error::OffsetOutOfRange)
    );
}

/// The first longest row (counted in the whole text) of `units[start..end]` and
/// its length, computed directly.
fn longest_row_reference(units: &[u16], start: usize, end: usize) -> (u32, u32) {
    let mut rows = vec![0u32];
    for u in &units[start..end] {
        if *u == b'\n' as u16 {
            rows.push(0);
        } else {
            *rows.last_mut().unwrap() += 1;
        }
    }
    let base = units[..start].iter().filter(|u| **u == b'\n' as u16).count() as u32;
    let mut best = (base, rows[0]);
    for (i, len) in rows.iter().enumerate() {
        if *len > best.1 {
            best = (base + i as u32, *len);
        }
    }
    best
}

#[test]
fn longest_row_in_range_matches_reference() {
    let samples = [
        "",
        "abc",
        "abcd\nefg\nhij",
        "a\n\nbcdef\ngh\nijklmnop\n\nq\nrstuvwxyz\n",
        "\n\n\n",
        "xx\nxx\nxx",
    ];
    for s in samples.iter() {
        let text = Text::from(s);
        let units: Vec<u16> = s.encode_utf16().collect();
        for start in 0..=units.len() {
            for end in start..=units.len() {
                assert_eq!(
                    text.longest_row_in_range(start..end),
                    Ok(longest_row_reference(&units, start, end)),
                    "{:?} {}..{}",
                    s,
                    start,
                    end
                );
            }
        }
        assert_eq!(
            text.longest_row_in_range(units.len() + 1..units.len() + 2),
            Err(Error::OffsetOutOfRange)
        );
    }
}

#[test]
fn text_len_and_code_units() {
    let text = Text::from("ab\u{1F600}c");
    // The emoji takes a surrogate pair.
    assert_eq!(text.len(), 5);
    assert_eq!(text.code_unit_at(0), b'a' as u16);
    assert_eq!(text.code_unit_at(2), 0xD83D);
    assert_eq!(text.code_unit_at(3), 0xDE00);
    assert_eq!(text.code_unit_at(4), b'c' as u16);

    let same = Text::new(vec![b'x' as u16, b'\n' as u16, b'y' as u16]);
    assert_eq!(same.len(), 3);
    assert_eq!(same.point_for_offset(2), Ok(Point { row: 1, column: 0 }));
}

struct RandomCharIter<T: Rng>(T);

impl<T: Rng> Iterator for RandomCharIter<T> {
    type Item = char;

    fn next(&mut self) -> Option<Self::Item> {
        if self.0.gen_weighted_bool(5) {
            Some('\n')
        } else {
            Some(self.0.gen_range(b'a', b'z' + 1).into())
        }
    }
}

#[test]
fn test_longest_row_in_range() {
    for seed in 0..100 {
        println!("{:?}", seed);
        let mut rng = StdRng::from_seed(&[seed]);
        let string = RandomCharIter(rng)
            .take(rng.gen_range(1, 10))
            .collect::<String>();
        let text = Text::from(string.as_ref());

        for _i in 0..10 {
            let end = rng.gen_range(1, string.len() + 1);
            let start = rng.gen_range(0, end);

            let mut cur_row = string[0..start].chars().filter(|c| *c == '\n').count() as u32;
            let mut cur_row_len = 0;
            let mut expected_longest_row = cur_row;
            let mut expected_longest_row_len = cur_row_len;
            for ch in string[start..end].chars() {
                if ch == '\n' {
                    if cur_row_len > expected_longest_row_len {
                        expected_longest_row = cur_row;
                        expected_longest_row_len = cur_row_len;
                    }
                    cur_row += 1;
                    cur_row_len = 0;
                } else {
                    cur_row_len += 1;
                }
            }
            if cur_row_len > expected_longest_row_len {
                expected_longest_row = cur_row;
                expected_longest_row_len = cur_row_len;
            }

            assert_eq!(
                text.longest_row_in_range(start..end),
                Ok((expected_longest_row, expected_longest_row_len))
            );
        }
    }
}
