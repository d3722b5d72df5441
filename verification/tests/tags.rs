use mangobar::tags::{
    frame_tags, merge_tags, parse_tags, same_tags, scroll_target, sort_tags, tag_button_classes, tag_from_event,
    visible_tags, Tag, TagState,
};

fn tag(number: u32, active: bool, urgent: bool, occupied: bool, focused: bool) -> Tag {
    Tag { number, active, urgent, occupied, focused_client: focused }
}

#[test]
fn parse_tags_sorts_and_merges() {
    let out = "DP-1 tag 3 0 2 0\nDP-1 tag 1 1 1 1\nHDMI-A-1 tag 3 2 0 0\n";
    let tags = parse_tags(out).unwrap();
    assert_eq!(
        tags,
        vec![tag(1, true, false, true, true), tag(3, false, true, true, false)]
    );
}

#[test]
fn parse_tags_accepts_leading_tag_word_and_crlf() {
    let out = "tag 2 1 0 0\r\nnoise line here\n\n  tag 5 0 0 0";
    let tags = parse_tags(out).unwrap();
    assert_eq!(tags, vec![tag(2, true, false, false, false), tag(5, false, false, false, false)]);
}

#[test]
fn parse_tags_no_tag_lines() {
    assert_eq!(parse_tags("").unwrap_err(), "mmsg returned no tag lines");
    assert_eq!(parse_tags("DP-1 title foo\n").unwrap_err(), "mmsg returned no tag lines");
}

#[test]
fn parse_tags_missing_field() {
    assert_eq!(
        parse_tags("DP-1 tag 1 1 0").unwrap_err(),
        "missing focused client in `DP-1 tag 1 1 0`"
    );
    assert_eq!(parse_tags("tag").unwrap_err(), "missing tag number in `tag`");
}

#[test]
fn parse_tags_invalid_field() {
    assert_eq!(
        parse_tags("DP-1 tag x 1 0 0\r\n").unwrap_err(),
        "invalid tag number in `DP-1 tag x 1 0 0`: invalid digit found in string"
    );
    assert_eq!(
        parse_tags("tag 1 99999999999 0 0").unwrap_err(),
        "invalid tag state in `tag 1 99999999999 0 0`: number too large to fit in target type"
    );
    assert_eq!(
        parse_tags("tag 1 1 -1 0").unwrap_err(),
        "invalid client count in `tag 1 1 -1 0`: invalid digit found in string"
    );
}

#[test]
fn parse_tags_first_error_wins() {
    assert_eq!(
        parse_tags("tag 1 1 0 0\ntag 2 a 0 0\ntag b 0 0 0").unwrap_err(),
        "invalid tag state in `tag 2 a 0 0`: invalid digit found in string"
    );
}

#[test]
fn parse_tags_plus_sign_and_zeros() {
    let tags = parse_tags("tag +07 1 0 0").unwrap();
    assert_eq!(tags, vec![tag(7, true, false, false, false)]);
}

#[test]
fn merge_is_order_independent() {
    let a = vec![tag(2, true, false, false, false), tag(1, false, false, true, false), tag(2, false, true, false, false)];
    let b = vec![tag(2, false, true, false, false), tag(2, true, false, false, false), tag(1, false, false, true, false), tag(1, false, false, true, false)];
    assert_eq!(merge_tags(&a), merge_tags(&b));
    assert_eq!(merge_tags(&a), vec![tag(1, false, false, true, false), tag(2, true, true, false, false)]);
}

#[test]
fn stable_sort_keeps_order_of_equal_numbers() {
    let a = vec![tag(3, true, false, false, false), tag(1, false, false, false, false), tag(3, false, false, false, false), tag(2, false, false, false, false)];
    assert_eq!(
        sort_tags(&a),
        vec![tag(1, false, false, false, false), tag(2, false, false, false, false), tag(3, true, false, false, false), tag(3, false, false, false, false)]
    );
}

#[test]
fn frame_needs_a_shown_tag() {
    let hidden = vec![tag(2, false, false, false, true), tag(1, false, false, false, false)];
    assert_eq!(frame_tags(&hidden), None);
    let shown = vec![tag(2, false, false, true, false), tag(1, false, false, false, false)];
    assert_eq!(
        frame_tags(&shown),
        Some(vec![tag(1, false, false, false, false), tag(2, false, false, true, false)])
    );
    assert_eq!(frame_tags(&vec![]), None);
}

#[test]
fn tag_event_conversion() {
    assert_eq!(tag_from_event(0, Some(TagState::Active), 3, 1), tag(1, true, false, true, true));
    assert_eq!(tag_from_event(8, Some(TagState::Urgent), 0, 0), tag(9, false, true, false, false));
    assert_eq!(tag_from_event(4, None, 0, 0), tag(5, false, false, false, false));
    assert_eq!(tag_from_event(4, Some(TagState::Idle), 1, 0), tag(5, false, false, true, false));
}

#[test]
fn vacant_tags_are_hidden() {
    let tags = vec![tag(1, false, false, true, false), tag(2, false, false, false, true), tag(3, true, false, false, false), tag(4, false, true, false, false)];
    let shown: Vec<u32> = visible_tags(&tags).iter().map(|t| t.number).collect();
    assert_eq!(shown, vec![1, 3, 4]);
}

#[test]
fn scroll_moves_between_shown_tags() {
    let tags = vec![
        tag(1, false, false, true, false),
        tag(2, false, false, false, false),
        tag(3, true, false, true, false),
        tag(4, false, false, false, false),
        tag(5, false, true, false, false),
    ];
    assert_eq!(scroll_target(&tags, true), Some(1));
    assert_eq!(scroll_target(&tags, false), Some(5));
}

#[test]
fn scroll_stops_at_the_ends() {
    let tags = vec![tag(1, true, false, false, false), tag(2, false, false, true, false)];
    assert_eq!(scroll_target(&tags, true), None);
    assert_eq!(scroll_target(&tags, false), Some(2));
    let tags = vec![tag(1, false, false, true, false), tag(2, true, false, false, false)];
    assert_eq!(scroll_target(&tags, false), None);
    assert_eq!(scroll_target(&tags, true), Some(1));
}

#[test]
fn scroll_needs_two_shown_and_an_active() {
    assert_eq!(scroll_target(&vec![tag(1, true, false, false, false)], false), None);
    let none_active = vec![tag(1, false, false, true, false), tag(2, false, true, false, false)];
    assert_eq!(scroll_target(&none_active, false), None);
    let two_active = vec![tag(1, true, false, false, false), tag(2, true, false, false, false), tag(3, false, false, true, false)];
    assert_eq!(scroll_target(&two_active, false), Some(2));
}

#[test]
fn same_tags_compares_all_fields() {
    let a = vec![tag(1, true, false, false, false)];
    assert!(same_tags(&a, &a.clone()));
    assert!(!same_tags(&a, &vec![tag(1, true, false, false, true)]));
    assert!(!same_tags(&a, &vec![]));
}

#[test]
fn scroll_never_lands_on_the_active_tag() {
    let tags = vec![
        tag(1, false, false, true, false),
        tag(2, true, false, true, false),
        tag(3, false, false, true, false),
    ];
    for previous in [true, false] {
        let n = scroll_target(&tags, previous).unwrap();
        assert_ne!(n, 2);
        assert!(tags.iter().any(|t| t.number == n && t.visible()));
    }
}

#[test]
fn parse_tags_empty_field_reasons() {
    assert_eq!(
        parse_tags("tag + 1 0 0").unwrap_err(),
        "invalid tag number in `tag + 1 0 0`: invalid digit found in string"
    );
}

#[test]
fn button_classes() {
    assert_eq!(tag_button_classes(&tag(1, false, false, true, false)), vec!["tag"]);
    assert_eq!(tag_button_classes(&tag(1, true, true, true, false)), vec!["tag", "active", "urgent"]);
    assert_eq!(tag_button_classes(&tag(1, false, true, false, false)), vec!["tag", "urgent"]);
}
