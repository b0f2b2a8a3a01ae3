use logic_sim::blocks::Component;
use logic_sim::clock::{Clock, DetectClockWake};

#[test]
fn clock_test() {
    let mut clock = Clock::new();
    let mut s = false;
    assert_eq!(clock.eval(&[]), [false]);

    for _ in 0..10 {
        s = !s;
        assert_eq!(clock.eval_mut(&[]), [s]);
    }
}

#[test]
fn detect_clock_wake_test() {
    let mut clock_wake = DetectClockWake::new();

    assert_eq!([false], clock_wake.eval_mut(&[true])[..]);
    assert_eq!([false], clock_wake.eval_mut(&[false])[..]);
    assert_eq!([true], clock_wake.eval_mut(&[true])[..]);
    assert_eq!([false], clock_wake.eval_mut(&[true])[..]);
    assert_eq!([false], clock_wake.eval_mut(&[false])[..]);
}
