use ahc_solvers::clock::before_deadline;
use ahc_solvers::util::{ChangeMinMax, SchedulerType};
use std::time::{Duration, Instant};

#[test]
fn change_min_max() {
    let mut x: i64 = 5;
    assert!(x.chmin(3));
    assert_eq!(x, 3);
    assert!(!x.chmin(4));
    assert_eq!(x, 3);
    assert!(x.chmax(10));
    assert!(!x.chmax(10));
    assert_eq!(x, 10);
    let mut u: usize = 2;
    assert!(!u.chmin(2));
    assert!(u.chmax(7));
    assert_eq!(u, 7);
}

#[test]
fn scheduler_types_differ() {
    assert_ne!(SchedulerType::Exp, SchedulerType::Linear);
}

#[test]
fn deadlines() {
    let start = Instant::now();
    assert!(before_deadline(&start, &Duration::from_secs(3600)));
    assert!(!before_deadline(&start, &Duration::from_secs(0)));
}
