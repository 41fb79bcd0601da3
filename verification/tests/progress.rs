use rikky_modoki::progress::{OwnerLocks, ProgressState, Status};

#[test]
fn the_first_ending_decides_the_outcome() {
    let mut state = ProgressState::new();
    assert!(state.running());
    assert!(state.update(2500, false));
    assert_eq!(state.position, 2500);
    assert!(state.update(20000, false));
    assert_eq!(state.position, 10000);
    assert!(state.cancel());
    assert!(!state.complete());
    assert!(!state.update(5000, true));
    assert_eq!(state.status, Status::Cancelled);
    let mut done = ProgressState::new();
    assert!(done.update(10000, true));
    assert_eq!(done.status, Status::Completed);
    assert!(!done.cancel());
}

#[test]
fn a_window_stays_held_until_its_last_display_closes() {
    let mut locks = OwnerLocks::new();
    assert!(locks.acquire(7));
    locks.insert(7, true);
    assert!(!locks.acquire(7));
    assert!(locks.acquire(8));
    locks.insert(8, false);
    assert_eq!(locks.release(7), None);
    assert_eq!(locks.release(8), Some(false));
    assert_eq!(locks.release(7), Some(true));
    assert!(locks.acquire(7));
}
