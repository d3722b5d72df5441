use mangobar::args::parse_args;
use mangobar::commands::{mmsg_args, MmsgRequest};
use mangobar::ipc::{should_bind, OutputInfo};
use mangobar::layout;
use mangobar::logs::{is_silenced, LogLevel};
use mangobar::status::LayoutState;
use mangobar::volume;

fn strings(v: &[&str]) -> Vec<String> {
    v.iter().map(|s| s.to_string()).collect()
}

#[test]
fn args_output() {
    let a = parse_args(&strings(&["--output", "DP-1"]));
    assert_eq!(a.output.as_deref(), Some("DP-1"));
    assert!(!a.help);
    let a = parse_args(&strings(&["-o", "A", "-o", "B"]));
    assert_eq!(a.output.as_deref(), Some("B"));
    let a = parse_args(&strings(&["-o", "A", "-o"]));
    assert_eq!(a.output, None);
}

#[test]
fn args_help_and_unknown() {
    let a = parse_args(&strings(&["-x", "-h", "-y"]));
    assert!(a.help);
    assert_eq!(a.ignored, strings(&["-x"]));
    let a = parse_args(&strings(&["--what", "DP-1"]));
    assert!(!a.help);
    assert_eq!(a.ignored, strings(&["--what", "DP-1"]));
    assert_eq!(parse_args(&vec![]).output, None);
}

#[test]
fn mmsg_arguments() {
    assert_eq!(mmsg_args(None, MmsgRequest::Tags), strings(&["-g", "-t"]));
    assert_eq!(mmsg_args(Some("DP-1"), MmsgRequest::Layout), strings(&["-o", "DP-1", "-g", "-k"]));
    assert_eq!(mmsg_args(None, MmsgRequest::SwitchTo(12)), strings(&["-s", "-t", "12"]));
}

#[test]
fn layout_parse() {
    let l = layout::parse("DP-1 kb_layout English (US)\n").unwrap();
    assert!(l.same_as(&LayoutState::from_ascii("us")));
    let l = layout::parse("foo\nkb_layout\nDP-1 kb_layout German  kb_layout x\n").unwrap();
    assert!(l.same_as(&LayoutState::from_ascii("ger")));
    assert_eq!(
        layout::parse("kb_layout\n").unwrap_err(),
        "mmsg returned no keyboard layout line"
    );
    assert_eq!(layout::parse("").unwrap_err(), "mmsg returned no keyboard layout line");
}

#[test]
fn volume_parse() {
    let out = "Volume: 0.40 [MUTED]\n";
    let v = volume::parse(out, &vec![None, Some(40), None]).unwrap();
    assert_eq!(v, mangobar::status::VolumeState::new(40, true));
    let v = volume::parse("Volume: 0.55", &vec![None, Some(55)]).unwrap();
    assert_eq!(v, mangobar::status::VolumeState::new(55, false));
    assert_eq!(
        volume::parse("  oops  \n", &vec![None]).unwrap_err(),
        "missing volume in `oops`"
    );
}

#[test]
fn bind_decision() {
    let out = OutputInfo { has_wl_output: true, name: Some(String::from("DP-1")), ipc_bound: false };
    assert!(should_bind(true, Some(&out), None));
    assert!(should_bind(true, Some(&out), Some("DP-1")));
    assert!(!should_bind(true, Some(&out), Some("HDMI-A-1")));
    assert!(!should_bind(false, Some(&out), None));
    assert!(!should_bind(true, None, None));
    let bound = OutputInfo { has_wl_output: true, name: Some(String::from("DP-1")), ipc_bound: true };
    assert!(!should_bind(true, Some(&bound), None));
    let unnamed = OutputInfo { has_wl_output: true, name: None, ipc_bound: false };
    assert!(!should_bind(true, Some(&unnamed), None));
    let no_output = OutputInfo { has_wl_output: false, name: Some(String::from("DP-1")), ipc_bound: false };
    assert!(!should_bind(true, Some(&no_output), None));
}

#[test]
fn log_filter() {
    let portal = vec![
        (String::from("GLIB_DOMAIN"), Some(String::from("Gdk"))),
        (String::from("MESSAGE"), Some(String::from("Cannot get portal org.freedesktop.portal.Inhibit version: x"))),
    ];
    assert!(is_silenced(LogLevel::Warning, &portal));
    assert!(!is_silenced(LogLevel::Critical, &portal));
    assert!(is_silenced(LogLevel::Debug, &vec![]));
    assert!(is_silenced(LogLevel::Info, &vec![]));
    assert!(!is_silenced(LogLevel::Warning, &vec![]));
    let other = vec![
        (String::from("GLIB_DOMAIN"), Some(String::from("Gtk"))),
        (String::from("MESSAGE"), Some(String::from("Cannot get portal org.freedesktop.portal.Inhibit version"))),
    ];
    assert!(!is_silenced(LogLevel::Warning, &other));
    let overwritten = vec![
        (String::from("GLIB_DOMAIN"), Some(String::from("Gdk"))),
        (String::from("MESSAGE"), Some(String::from("Cannot get portal org.freedesktop.portal.Inhibit version"))),
        (String::from("GLIB_DOMAIN"), None),
    ];
    assert!(!is_silenced(LogLevel::Warning, &overwritten));
}

#[test]
fn output_is_bound_once() {
    let mut out = OutputInfo { has_wl_output: true, name: Some(String::from("DP-1")), ipc_bound: false };
    assert!(!out.bind_if_ready(false, None));
    assert!(!out.ipc_bound);
    assert!(out.bind_if_ready(true, Some("DP-1")));
    assert!(out.ipc_bound);
    assert!(!out.bind_if_ready(true, Some("DP-1")));
    assert!(!out.bind_if_ready(true, None));
    assert!(out.ipc_bound);
    let mut other = OutputInfo { has_wl_output: true, name: Some(String::from("DP-2")), ipc_bound: false };
    assert!(!other.bind_if_ready(true, Some("DP-1")));
    assert!(!other.ipc_bound);
}
