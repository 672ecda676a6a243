use oslo::frecency::FrecencyTracker;

#[test]
fn a_use_counts_and_dates_the_command() {
    let mut t = FrecencyTracker::new();
    t.record_use_at("git", 100);
    t.record_use_at("ls", 150);
    t.record_use_at("git", 200);
    assert_eq!(
        t.entries(),
        vec![("git".to_string(), 2, 200), ("ls".to_string(), 1, 150)]
    );
}

#[test]
fn a_merged_use_keeps_the_newer_time() {
    let mut t = FrecencyTracker::new();
    t.record_use_at("make", 500);
    t.merge("make", 3, 100);
    t.merge("cargo", 4, 50);
    assert_eq!(
        t.entries(),
        vec![("make".to_string(), 4, 500), ("cargo".to_string(), 4, 50)]
    );
    t.merge("cargo", u64::MAX, 70);
    assert_eq!(t.entries()[1], ("cargo".to_string(), u64::MAX, 70));
}

#[test]
fn recording_now_dates_the_use_by_the_clock() {
    let mut t = FrecencyTracker::new();
    t.record_use("x");
    let e = t.entries();
    assert_eq!(e.len(), 1);
    assert_eq!(e[0].1, 1);
    assert!(e[0].2 > 1_600_000_000);
}
