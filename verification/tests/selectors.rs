use shelve::location::Location;
use shelve::menu::{color_enabled, paint, prompt, prompt_step, render, PromptStep, PROMPT};
use shelve::paths::{folder_name, is_pdf};
use shelve::picker::{group_label, resolve};
use shelve::text::{decimal_string, trim};

fn location(group: &str, path: &str, move_here: bool) -> Location {
    Location {
        group: group.into(),
        label: "x".into(),
        path: path.into(),
        move_here,
        root: None,
        is_section_root: false,
    }
}

#[test]
fn group_codes_continue_after_z() {
    assert_eq!(group_label(0), "A");
    assert_eq!(group_label(27), "AB");
    assert_eq!(group_label(701), "ZZ");
    assert_eq!(group_label(702), "AAA");
}

#[test]
fn selector_errors_say_why() {
    let locations = vec![location("G", "/a/one", true), location("G", "/a/two", false)];
    assert_eq!(
        resolve(&locations, "7", false).err().as_deref(),
        Some("use a group letter and folder number, for example A1")
    );
    assert_eq!(
        resolve(&locations, "A99999999999999999999999", false).err().as_deref(),
        Some("invalid position: 99999999999999999999999")
    );
    assert_eq!(
        resolve(&locations, "b1", false).err().as_deref(),
        Some("unknown destination: b1")
    );
    assert_eq!(
        resolve(&locations, "A0", true).err().as_deref(),
        Some("group roots are for opening, not PDF moves")
    );
    assert_eq!(
        resolve(&locations, "a2", true).err().as_deref(),
        Some("a2 is not a PDF move destination")
    );
    assert_eq!(resolve(&locations, "\u{3000}A01\t", true).unwrap().path, "/a/one");
    assert_eq!(resolve(&locations, "A0", false).unwrap().path, "/a");
    let rootless = vec![location("G", "one", false), location("G", "two", false)];
    assert_eq!(
        resolve(&rootless, "A0", false).err().as_deref(),
        Some("group has no common root")
    );
}

#[test]
fn section_groups_open_their_configured_root() {
    let mut root = location("/lib", "/lib", false);
    root.is_section_root = true;
    root.root = Some("/lib".into());
    let locations = vec![root, location("/lib", "/lib/deep/er", true)];
    assert_eq!(resolve(&locations, "A0", false).unwrap().path, "/lib");
    assert_eq!(resolve(&locations, "A1", false).unwrap().path, "/lib/deep/er");
    let mut out = String::new();
    render(&mut out, "Folders", &locations, false, false);
    assert!(out.contains("\n  A.  lib (/)\n      1) er (deep/er)\n"));
}

#[test]
fn menus_number_entries_in_two_columns() {
    let mut locations = Vec::new();
    for i in 0..10 {
        locations.push(location("G", &format!("/base/f{i}"), false));
    }
    let mut out = String::new();
    render(&mut out, "Folders", &locations, false, false);
    assert!(out.contains("      9) f8\n     10) f9\n"));
    assert!(out.starts_with("\n  * Shelve (v0.1.0)\n\n  -------------- Folders --------------\n"));
    assert!(out.ends_with("\n\n"));
}

#[test]
fn colors_wrap_text_in_ansi_codes() {
    assert_eq!(paint(true, "33", "A"), "\x1b[33mA\x1b[0m");
    assert_eq!(paint(false, "33", "A"), "A");
    let locations = vec![location("G", "/a/b", true)];
    let mut out = String::new();
    render(&mut out, "T", &locations, false, true);
    assert!(out.contains("\x1b[33mA\x1b[0m.  \x1b[1ma\x1b[0m\x1b[90m (/)\x1b[0m"));
}

#[test]
fn prompt_steps_cancel_choose_or_retry() {
    let locations = vec![location("G", "/a/b", true)];
    assert!(matches!(prompt_step(&locations, " Q \n", false), PromptStep::Cancel));
    assert!(matches!(prompt_step(&locations, "\u{1b}\n", false), PromptStep::Cancel));
    assert!(matches!(prompt_step(&locations, "a1\n", false), PromptStep::Chosen(_)));
    match prompt_step(&locations, "A2\n", false) {
        PromptStep::Retry(e) => assert_eq!(e, "unknown destination: A2"),
        _ => panic!("A2 picks nothing"),
    }
    let mut out = String::new();
    assert!(prompt("A2\nzz\n", &mut out, &locations, false).unwrap().is_none());
    assert_eq!(
        out,
        format!("{PROMPT}\n  unknown destination: A2\n\n{PROMPT}\n  use a group letter and folder number, for example A1\n\n{PROMPT}")
    );
}

#[test]
fn names_and_extensions_come_from_paths() {
    assert_eq!(folder_name("/a/b/"), "b");
    assert_eq!(folder_name("/"), "/");
    assert_eq!(folder_name("a/.."), "a/..");
    assert!(is_pdf("/x/Report.Pdf"));
    assert!(!is_pdf("/x/.pdf"));
    assert!(!is_pdf("/x/pdf"));
    assert!(is_pdf("a..pdf"));
}

#[test]
fn text_helpers() {
    assert_eq!(trim("\u{a0} a b \u{2009}"), "a b");
    assert_eq!(decimal_string(0), "0");
    assert_eq!(decimal_string(1203), "1203");
}

#[test]
fn color_needs_a_capable_terminal() {
    assert!(color_enabled(true, false, Some("xterm-256color")));
    assert!(!color_enabled(true, false, Some("dumb")));
    assert!(!color_enabled(true, false, None));
    assert!(!color_enabled(true, true, Some("xterm")));
    assert!(!color_enabled(false, false, Some("xterm")));
}
