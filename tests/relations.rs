use sphereorder::LoadState;

fn pairs() -> Vec<(u32, u32)> {
    vec![(0, 1), (0, 2), (1, 2), (2, 3), (3, 4)]
}

#[test]
fn loader_hands_out_batches_both_ways() {
    let mut s = LoadState::new(pairs());
    assert_eq!(s.loader(2), vec![(0, 1), (1, 0), (0, 2), (2, 0)]);
    assert!(s.is_active());
    assert_eq!(s.loader(2), vec![(1, 2), (2, 1), (2, 3), (3, 2)]);
    assert!(s.is_active());
    assert_eq!(s.loader(2), vec![(3, 4), (4, 3)]);
    assert!(!s.is_active());
    assert_eq!(s.loader(2), vec![]);
}

#[test]
fn exact_batches_stop_on_the_empty_one() {
    let mut s = LoadState::new(vec![(0, 1), (1, 2)]);
    assert_eq!(s.loader(2).len(), 4);
    assert!(s.is_active());
    assert_eq!(s.loader(2), vec![]);
    assert!(!s.is_active());
}

#[test]
fn load_all_takes_the_rest() {
    let mut s = LoadState::new(pairs());
    assert_eq!(s.loader(3).len(), 6);
    assert_eq!(s.load_all(), vec![(2, 3), (3, 2), (3, 4), (4, 3)]);
    assert!(s.is_active());
}

#[test]
fn load_all_drops_the_pass_and_keeps_the_planet() {
    let mut s = LoadState::new(vec![(0, 1), (1, 2)]);
    assert_eq!(s.load_all(), vec![(0, 1), (1, 0), (1, 2), (2, 1)]);
    assert!(s.is_active());
    assert_eq!(s.load_all().len(), 4);
    assert_eq!(s.loader(1), vec![(0, 1), (1, 0)]);
}

#[test]
fn short_batch_deselects_the_planet() {
    let mut s = LoadState::new(vec![(0, 1)]);
    assert_eq!(s.loader(3), vec![(0, 1), (1, 0)]);
    assert!(!s.is_active());
    assert_eq!(s.load_all(), vec![]);
    assert!(!s.is_active());
}

#[test]
fn idle_state_hands_out_nothing() {
    let mut s = LoadState::idle();
    assert!(!s.is_active());
    assert_eq!(s.loader(5), vec![]);
    assert_eq!(s.load_all(), vec![]);
}
