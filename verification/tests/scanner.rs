use oslo::scanner::Scanner;

fn scanner() -> Scanner {
    Scanner {
        width: 8,
        step_ms: 75,
        hold: 9,
    }
}

fn at(frame: u64) -> String {
    scanner().plain(frame * 75)
}

#[test]
fn the_cycle_is_out_hold_back_hold() {
    assert_eq!(scanner().cycle(), 33);
}

#[test]
fn the_head_sweeps_out_from_the_left() {
    assert_eq!(at(0), "■⬝⬝⬝⬝⬝⬝⬝");
    assert_eq!(at(1), "■■⬝⬝⬝⬝⬝⬝");
    assert_eq!(at(3), "■■■■⬝⬝⬝⬝");
    assert_eq!(at(6), "⬝■■■■■■⬝");
    assert_eq!(at(7), "⬝⬝■■■■■■");
}

#[test]
fn the_tail_drains_while_the_head_holds() {
    assert_eq!(at(8), "⬝⬝■■■■■■", "the hold begins");
    assert_eq!(at(11), "⬝⬝⬝⬝⬝■■■", "still draining");
    assert_eq!(at(13), "⬝⬝⬝⬝⬝⬝⬝■");
    assert_eq!(at(14), "⬝⬝⬝⬝⬝⬝⬝⬝", "dark before it comes back");
}

#[test]
fn the_tail_follows_on_the_way_back() {
    assert_eq!(at(17), "⬝⬝⬝⬝⬝⬝■■");
    assert_eq!(at(20), "⬝⬝⬝■■■■■");
    assert_eq!(at(23), "■■■■■■⬝⬝");
}

#[test]
fn the_cycle_returns_to_the_start() {
    assert_eq!(at(26), "■■■■⬝⬝⬝⬝");
    assert_eq!(at(29), "■⬝⬝⬝⬝⬝⬝⬝");
    assert_eq!(at(32), "⬝⬝⬝⬝⬝⬝⬝⬝");
    assert_eq!(at(33), at(0), "the cycle wraps");
}

#[test]
fn the_frame_comes_from_the_clock() {
    let s = scanner();
    assert_eq!(s.frame_at(0), 0);
    assert_eq!(s.frame_at(74), 0, "still within the first step");
    assert_eq!(s.frame_at(75), 1);
    assert_eq!(s.frame_at(75 * 33), 0, "a whole cycle later, back to the start");
    assert_eq!(s.frame_at(75 * 33 * 1000 + 150), 2);
}

#[test]
fn every_frame_is_the_same_width() {
    for frame in 0..scanner().cycle() {
        assert_eq!(at(frame).chars().count(), 8, "frame {frame} is the wrong width");
    }
}

#[test]
fn the_width_is_clamped() {
    let tiny = Scanner {
        width: 0,
        ..scanner()
    };
    assert_eq!(tiny.plain(0).chars().count(), 2);
    let huge = Scanner {
        width: 200,
        ..scanner()
    };
    assert_eq!(huge.plain(0).chars().count(), 32);
}

#[test]
fn a_zero_step_does_not_divide_by_zero() {
    let s = Scanner {
        step_ms: 0,
        ..scanner()
    };
    assert_eq!(s.frame_at(0), 0);
    assert_eq!(s.frame_at(5), 5);
}

#[test]
fn the_head_is_brighter_than_its_tail() {
    let painted = scanner().render(75 * 5);
    assert!(painted.contains("38;5;243"), "no head colour: {painted:?}");
    assert!(painted.contains("38;5;238"), "no faded tail: {painted:?}");
    assert!(painted.contains("38;5;240"), "no unlit track: {painted:?}");
}

#[test]
fn the_default_scanner_is_eight_wide() {
    let s = Scanner::default();
    assert_eq!(s.plain(0).chars().count(), 8);
    assert_eq!(s.cycle(), 33);
}
