//! The smaller parts: gestures that wait, figures, palettes, paths and words.

use mindmap::coord::Coord;
use mindmap::cursor::{
    grapheme_end_after, grapheme_start_before, word_at, word_end_after, word_start_before,
};
use mindmap::dev::{app_title, folder, is_dev, switch_is_on};
use mindmap::hash::digest_hex;
use mindmap::paths::{file_stem, is_same, is_under, join, names};
use mindmap::perf::Meter;
use mindmap::pinch::{Pinch, Queue, MAX_QUEUED};
use mindmap::sandbox::{location, needs_bookmark};
use mindmap::text::decimal;
use mindmap::theme::Theme;

fn c(v: f32) -> Coord {
    Coord { bits: v.to_bits() }
}

fn f(v: Coord) -> f32 {
    f32::from_bits(v.bits)
}

fn pinch(magnification: f32, x: f32, y: f32) -> Pinch {
    Pinch { magnification: c(magnification), x: c(x), y: c(y) }
}

#[test]
fn queue_hands_events_over_once_and_stays_bounded() {
    let mut q = Queue::new();
    let _ = q.drain();
    assert!(!q.pending());

    q.push(pinch(0.05, 10.0, 20.0));
    assert!(q.pending());
    let got = q.drain();
    assert_eq!(got.len(), 1);
    assert!((f(got[0].magnification) - 0.05).abs() < 1e-6);
    assert!(!q.pending(), "a drained queue is empty");
    assert!(q.drain().is_empty(), "events are not delivered twice");

    for _ in 0..(MAX_QUEUED + 100) {
        q.push(pinch(0.01, 0.0, 0.0));
    }
    assert_eq!(q.drain().len(), MAX_QUEUED, "a stalled UI must not grow the queue forever");
}

#[test]
fn a_pinch_that_tells_nothing_is_not_queued() {
    let mut q = Queue::new();
    q.observe(pinch(0.0, 1.0, 1.0));
    q.observe(pinch(-0.0, 1.0, 1.0));
    q.observe(pinch(f32::NAN, 1.0, 1.0));
    q.observe(pinch(f32::INFINITY, 1.0, 1.0));
    assert!(!q.pending());
    q.observe(pinch(-0.5, 1.0, 1.0));
    assert!(q.pending());
}

#[test]
fn figures_are_smoothed() {
    let ms = |t: u64| format!("{:.2}", t as f64 / 1_000_000.0);
    let mut m = Meter::new();
    m.record_paint(1000, 104, 34, 2000);
    assert_eq!(m.paint, 1_000_000);
    m.record_paint(2000, 104, 34, 2000);
    assert_eq!(m.paint, 1_200_000);
    m.record_build(20);
    assert_eq!(m.build, 20_000);
    assert_eq!(m.readout(false, &ms), None);
    assert_eq!(
        m.readout(true, &ms).unwrap(),
        "paint 1.20ms · build 0.02ms · 104 paths · 34/2000"
    );
}

#[test]
fn there_are_two_palettes() {
    let light = Theme::from_dark(false);
    assert_eq!((light.bg, light.ink, light.dark), (0xffffff, 0x000000, false));
    assert_eq!(light.toggled().bg, 0x0b0d10);
    assert_eq!(light.toggled().toggled(), light);
}

#[test]
fn the_two_copies_are_apart() {
    assert_eq!(app_title(false), "mind67");
    assert_eq!(app_title(true), "mind67 Dev");
    assert_ne!(folder(false), folder(true));
    assert!(!switch_is_on(None) && !switch_is_on(Some("")) && !switch_is_on(Some("0")));
    assert!(switch_is_on(Some("1")));
    assert!(is_dev(None, Some("/opt/app-dev")));
    assert!(!is_dev(None, Some("/opt/app-dev/app")));
    assert!(is_dev(Some("yes"), None));
    assert!(!is_dev(Some("0"), Some("/opt/app")));
}

#[test]
fn only_files_of_others_need_a_bookmark() {
    assert!(!needs_bookmark("/Users/a", "/Users/a/Library/Application Support/jotmind/map.json"));
    assert!(needs_bookmark("/Users/a", "/Users/a/Documents/map.json"));
    assert_eq!(
        location("/Users/a", false, "abc"),
        "/Users/a/Library/Application Support/jotmind/bookmarks/\
ba7816bf8f01cfea414140de5dae2223b00361a396177a9cb410ff61f20015ad.bookmark"
    );
}

#[test]
fn a_digest_is_written_in_hexadecimal() {
    assert_eq!(digest_hex(b"abc", 4), "ba7816bf");
    assert_eq!(digest_hex(b"", 2), "e3b0");
}

#[test]
fn paths_are_taken_apart() {
    assert_eq!(join("/a", "b"), "/a/b");
    assert_eq!(join("/a/", "b"), "/a/b");
    assert_eq!(join("/a", "/b"), "/b");
    assert_eq!(join("", "b"), "b");
    assert_eq!(names("/a/b.json"), (Some("b.json".to_string()), Some("a".to_string())));
    assert_eq!(names("/.."), (None, None));
    assert_eq!(file_stem("/a/b.tar.gz"), Some("b.tar".to_string()));
    assert_eq!(file_stem("/a/.hidden"), Some(".hidden".to_string()));
    assert_eq!(file_stem("/"), None);
    assert!(is_same("/a/./b", "/a//b/") && !is_same("/a/b", "a/b"));
    assert!(is_under("/a/b/c", "/a/b") && !is_under("/a/bc", "/a/b"));
}

#[test]
fn numbers_are_written_in_decimal() {
    assert_eq!(decimal(0), "0");
    assert_eq!(decimal(u64::MAX), "18446744073709551615");
}

#[test]
fn the_caret_goes_by_what_is_read_as_one() {
    let s = "e\u{301}\u{1F1F3}\u{1F1F1}x";
    assert_eq!(grapheme_end_after(s, 0), Some(3));
    assert_eq!(grapheme_end_after(s, 3), Some(11));
    assert_eq!(grapheme_end_after(s, 12), None);
    assert_eq!(grapheme_start_before(s, 11), Some(3));
    assert_eq!(grapheme_start_before(s, 0), None);
    assert_eq!(word_start_before("ship the whole", 14), 9);
    assert_eq!(word_end_after("ship the whole", 4), 8);
    assert_eq!(word_at("ship the whole", 6), (5, 8));
}

#[test]
fn coordinates_are_ordered_as_numbers() {
    assert!(c(-1.0).is_below(c(1.0)) && !c(1.0).is_below(c(-1.0)));
    assert!(c(0.0).equals(c(-0.0)) && !c(0.0).is_below(c(-0.0)));
    assert!(!c(f32::NAN).equals(c(f32::NAN)) && !c(f32::NAN).is_below(c(0.0)));
    for i in [0i128, 1, -1, 27, 210, 16_777_215, 16_777_216, -1_000_003] {
        assert_eq!(f(Coord::whole(i)), i as f32);
    }
}
