use mangobar::clock::from_strftime;
use mangobar::status::{render, ClockState, LayoutState, VolumeState};

fn clock(text: &str) -> ClockState {
    let mut bytes = [0u8; 22];
    let raw = text.as_bytes();
    bytes[..raw.len()].copy_from_slice(raw);
    ClockState::from_bytes(bytes, raw.len() as u8)
}

fn line(volume: VolumeState, layout: LayoutState, time: ClockState) -> String {
    let mut out = String::from("stale text");
    let res = render(&mut out, volume, layout, time);
    assert_eq!(out, res);
    res
}

#[test]
fn readme_status_line() {
    let res = line(
        VolumeState::new(42, false),
        LayoutState::from_ascii("us"),
        clock("2026-04-24 09:49:57 PM"),
    );
    assert_eq!(res, "42% us 2026-04-24 09:49:57 PM");
}

#[test]
fn muted_volume_shows_zero() {
    let res = line(VolumeState::new(87, true), LayoutState::from_ascii("ru"), clock("x"));
    assert_eq!(res, "0% ru x");
}

#[test]
fn unknown_volume_and_layout() {
    let res = line(VolumeState::unknown(), LayoutState::unknown(), clock(""));
    assert_eq!(res, "??% ?? ");
}

#[test]
fn volume_digits() {
    assert_eq!(line(VolumeState::new(0, false), LayoutState::unknown(), clock("")), "0% ?? ");
    assert_eq!(line(VolumeState::new(999, false), LayoutState::unknown(), clock("")), "999% ?? ");
    assert_eq!(line(VolumeState::new(100, false), LayoutState::unknown(), clock("")), "100% ?? ");
}

#[test]
fn invalid_utf8_layout_falls_back() {
    let layout = LayoutState::from_ascii("é");
    // two bytes of one character: valid
    assert_eq!(line(VolumeState::new(1, false), layout, clock("")), "1% é ");
    let cut = LayoutState::from_ascii("aé");
    assert_eq!(line(VolumeState::new(1, false), cut, clock("")), "1% aé ");
    let broken = LayoutState::from_ascii("ab€");
    assert_eq!(line(VolumeState::new(1, false), broken, clock("")), "1% ?? ");
    let raw = LayoutState::from_bytes([0xff, b'a', 0], 2);
    assert_eq!(line(VolumeState::new(1, false), raw, clock("")), "1% ?? ");
}

#[test]
fn invalid_utf8_clock_is_empty() {
    let mut bytes = [b'a'; 22];
    bytes[3] = 0xc3;
    let time = ClockState::from_bytes(bytes, 5);
    assert_eq!(line(VolumeState::new(5, false), LayoutState::unknown(), time), "5% ?? ");
}

#[test]
fn layout_from_name_known_languages() {
    let l = LayoutState::from_name("English (US)");
    assert_eq!(line(VolumeState::new(1, false), l, clock("")), "1% us ");
    let l = LayoutState::from_name("Russian (phonetic)");
    assert_eq!(line(VolumeState::new(1, false), l, clock("")), "1% ru ");
    let l = LayoutState::from_name("Ukrainian");
    assert_eq!(line(VolumeState::new(1, false), l, clock("")), "1% ua ");
    assert!(LayoutState::from_name("Russian").same_as(&LayoutState::from_ascii("ru")));
}

#[test]
fn layout_from_name_takes_letters() {
    let l = LayoutState::from_name("German");
    assert_eq!(line(VolumeState::new(1, false), l, clock("")), "1% ger ");
    let l = LayoutState::from_name("1-F r");
    assert_eq!(line(VolumeState::new(1, false), l, clock("")), "1% fr ");
    let l = LayoutState::from_name("Élan");
    assert_eq!(line(VolumeState::new(1, false), l, clock("")), "1% lan ");
    let l = LayoutState::from_name("12 34 ()");
    assert!(l.same_as(&LayoutState::unknown()));
    let l = LayoutState::from_name("");
    assert!(l.same_as(&LayoutState::unknown()));
}

#[test]
fn layout_from_ascii_keeps_three_bytes() {
    assert!(LayoutState::from_ascii("abcd").same_as(&LayoutState::from_bytes(*b"abc", 3)));
    assert!(LayoutState::from_ascii("").same_as(&LayoutState::from_bytes([0, 0, 0], 0)));
    assert!(!LayoutState::from_ascii("ab").same_as(&LayoutState::from_bytes(*b"ab\0", 3)));
}

#[test]
fn replace_if_changed_reports_once() {
    let mut v = VolumeState::new(10, false);
    assert!(v.replace_if_changed(VolumeState::new(11, false)));
    assert!(!v.replace_if_changed(VolumeState::new(11, false)));
    assert_eq!(v, VolumeState::new(11, false));
    let mut l = LayoutState::unknown();
    assert!(l.replace_if_changed(LayoutState::from_ascii("us")));
    assert!(!l.replace_if_changed(LayoutState::from_ascii("us")));
    let mut c = clock("a");
    assert!(c.replace_if_changed(clock("b")));
    assert!(!c.replace_if_changed(clock("b")));
    assert!(c.same_as(&clock("b")));
}

#[test]
fn strftime_results() {
    let mut buf = [0u8; 23];
    buf[..22].copy_from_slice(b"2026-04-24 09:49:57 PM");
    let ok = from_strftime(true, 22, &buf);
    assert!(ok.same_as(&clock("2026-04-24 09:49:57 PM")));
    let epoch = clock("1970-01-01 12:00:00 AM");
    assert!(from_strftime(false, 22, &buf).same_as(&epoch));
    assert!(from_strftime(true, 0, &buf).same_as(&epoch));
    assert!(from_strftime(true, 23, &buf).same_as(&epoch));
    let line_text = line(VolumeState::unknown(), LayoutState::unknown(), from_strftime(false, 0, &buf));
    assert_eq!(line_text, "??% ?? 1970-01-01 12:00:00 AM");
}
