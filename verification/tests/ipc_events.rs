use mangobar::ipc::{MangoEvent, OutputEvent, PendingTags};
use mangobar::layout::layout_to_publish;
use mangobar::status::{LayoutState, VolumeState};
use mangobar::tags::{Tag, TagState};
use mangobar::text::{failure_message, U32ParseFailure};
use mangobar::volume::volume_after_poll;

fn tag_event(index: u32, state: Option<TagState>, clients: u32) -> OutputEvent {
    OutputEvent::Tag { index, state, clients, focused: 0 }
}

fn numbers(event: Option<MangoEvent>) -> Option<Vec<u32>> {
    match event {
        Some(MangoEvent::Tags(tags)) => Some(tags.iter().map(|t: &Tag| t.number).collect()),
        _ => None,
    }
}

#[test]
fn frame_gives_the_pending_tags_of_its_output() {
    let mut p = PendingTags::new();
    assert!(p.step("DP-1", tag_event(2, None, 1)).is_none());
    assert!(p.step("HDMI-A-1", tag_event(0, Some(TagState::Active), 0)).is_none());
    assert!(p.step("DP-1", tag_event(0, Some(TagState::Active), 0)).is_none());
    assert_eq!(numbers(p.step("DP-1", OutputEvent::Frame)), Some(vec![1, 3]));
    // taken: a second frame has nothing
    assert_eq!(numbers(p.step("DP-1", OutputEvent::Frame)), None);
    assert_eq!(numbers(p.step("HDMI-A-1", OutputEvent::Frame)), Some(vec![1]));
}

#[test]
fn frame_without_shown_tags_gives_nothing() {
    let mut p = PendingTags::new();
    p.step("DP-1", tag_event(0, None, 0));
    p.step("DP-1", tag_event(1, Some(TagState::Idle), 0));
    assert!(p.step("DP-1", OutputEvent::Frame).is_none());
    assert!(p.take("DP-1").is_none());
}

#[test]
fn layout_event_and_others() {
    let mut p = PendingTags::new();
    match p.step("DP-1", OutputEvent::KbLayout(String::from("English (US)"))) {
        Some(MangoEvent::Layout(l)) => assert!(l.same_as(&LayoutState::from_ascii("us"))),
        _ => panic!("expected a layout"),
    }
    assert!(p.step("DP-1", OutputEvent::Other).is_none());
}

#[test]
fn push_and_take() {
    let mut p = PendingTags::new();
    let t = Tag { number: 4, active: false, urgent: false, occupied: true, focused_client: false };
    p.push_tag("A", t);
    p.push_tag("A", t);
    assert_eq!(p.take("A"), Some(vec![t, t]));
    assert_eq!(p.take("A"), None);
}

#[test]
fn poll_outcomes() {
    let v = VolumeState::new(30, false);
    assert_eq!(volume_after_poll(Some(Ok(v))), v);
    assert_eq!(volume_after_poll(Some(Err(String::from("x")))), VolumeState::unknown());
    assert_eq!(volume_after_poll(None), VolumeState::unknown());
    let l = LayoutState::from_ascii("de");
    assert!(layout_to_publish(Some(Ok(l))).unwrap().same_as(&l));
    assert!(layout_to_publish(Some(Err(String::from("x")))).is_none());
    assert!(layout_to_publish(None).is_none());
}

#[test]
fn failure_texts_match_std() {
    assert_eq!(failure_message(U32ParseFailure::Empty), "".parse::<u32>().unwrap_err().to_string());
    assert_eq!(failure_message(U32ParseFailure::InvalidDigit), "x".parse::<u32>().unwrap_err().to_string());
    assert_eq!(
        failure_message(U32ParseFailure::TooLarge),
        "99999999999".parse::<u32>().unwrap_err().to_string()
    );
}
