use memo_core::anchor::{Anchor, AnchorBias, Selection};
use memo_core::time::Local;

fn middle(offset: usize) -> Anchor {
    Anchor::Middle {
        insertion_id: Local { replica_id: 1, value: 1 },
        offset,
        bias: AnchorBias::Left,
    }
}

#[test]
fn selection_head_and_tail() {
    let forward = Selection { start: middle(1), end: middle(4), reversed: false };
    assert_eq!(*forward.head(), middle(4));
    assert_eq!(*forward.tail(), middle(1));

    let backward = Selection { start: middle(1), end: middle(4), reversed: true };
    assert_eq!(*backward.head(), middle(1));
    assert_eq!(*backward.tail(), middle(4));
}

#[test]
fn selection_anchor_range() {
    let s = Selection { start: Anchor::Start, end: Anchor::End, reversed: true };
    let r = s.anchor_range();
    assert_eq!(r.start, Anchor::Start);
    assert_eq!(r.end, Anchor::End);
}
