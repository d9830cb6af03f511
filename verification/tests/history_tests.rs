use disk_flashlight::history::History;
use disk_flashlight::model::NO_NODE;

#[test]
fn navigate_back_forward() {
    let mut h = History::default();
    assert!(!h.navigate(0)); // already there
    assert!(!h.navigate(NO_NODE));
    assert!(h.navigate(5));
    assert!(h.navigate(9));
    assert_eq!(h.root(), 9);
    assert!(h.can_back() && !h.can_forward());
    assert!(h.back());
    assert_eq!(h.root(), 5);
    assert!(h.can_forward());
    assert!(h.back());
    assert_eq!(h.root(), 0);
    assert!(!h.back());
    assert!(h.forward());
    assert_eq!(h.root(), 5);
    // A new navigation drops the forward stack.
    assert!(h.navigate(7));
    assert!(!h.can_forward());
    assert!(h.back());
    assert_eq!(h.root(), 5);
    h.reset();
    assert_eq!(h.root(), 0);
    assert!(!h.can_back());
}

#[test]
fn remap_collapses_duplicates() {
    let mut h = History::default();
    for id in [1, 2, 3, 4] {
        h.navigate(id);
    }
    h.back(); // back: 0 1 2, root 3, fwd: 4
    // 2 and 3 vanished and fall back to 1; 4 becomes 40.
    h.remap(|id| match id {
        2 | 3 => 1,
        4 => 40,
        x => x,
    });
    assert_eq!(h.root(), 1);
    assert_eq!(*h.back_stack(), vec![0]);
    assert_eq!(*h.fwd_stack(), vec![40]);
}

#[test]
fn back_then_forward_restores_state() {
    let mut h = History::default();
    h.navigate(3);
    h.navigate(8);
    let (root, back, fwd) = (h.root(), h.back_stack().clone(), h.fwd_stack().clone());
    assert!(h.back());
    assert_eq!(*h.fwd_stack(), vec![8]);
    assert!(h.forward());
    assert_eq!((h.root(), h.back_stack().clone(), h.fwd_stack().clone()), (root, back, fwd));
}

#[test]
fn back_after_navigate_returns() {
    let mut h = History::default();
    h.navigate(2);
    let back = h.back_stack().clone();
    assert!(h.navigate(6));
    assert!(h.back());
    assert_eq!(h.root(), 2);
    assert_eq!(*h.back_stack(), back);
    assert_eq!(*h.fwd_stack(), vec![6]);
}

#[test]
fn remap_drops_top_equal_to_root() {
    let mut h = History::default();
    h.navigate(4);
    h.navigate(5);
    // back: 0 4, root 5; everything collapses onto 0.
    h.remap(|_| 0);
    assert_eq!(h.root(), 0);
    assert!(h.back_stack().is_empty());
    assert!(!h.can_back());
}
