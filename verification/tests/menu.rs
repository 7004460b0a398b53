use shelve::config::check_config_version;
use shelve::location::Location;
use shelve::menu::{prompt_text, render, render_with_home, PROMPT};
use shelve::picker::resolve;

fn section(root: &str, entries: &[(&str, bool)], root_move_here: bool) -> Vec<Location> {
    let mut locations = vec![Location {
        group: root.into(),
        label: "Work".into(),
        path: root.into(),
        move_here: root_move_here,
        root: Some(root.into()),
        is_section_root: true,
    }];
    for (path, move_here) in entries {
        locations.push(Location {
            group: root.into(),
            label: "entry".into(),
            path: (*path).into(),
            move_here: *move_here,
            root: Some(root.into()),
            is_section_root: false,
        });
    }
    locations
}

#[test]
fn headings_and_entries_show_home_as_tilde() {
    let locations = section(
        "/Users/u/Documents/Work",
        &[("/Users/u/Documents/Work/Tax", false), ("/Users/u/Music/Mix", false)],
        false,
    );
    let mut out = String::new();
    render_with_home(&mut out, "Folders", &locations, false, false, Some("/Users/u/"));
    assert!(out.contains("\n  A.  Work (~/Documents/)\n"), "{out}");
    assert!(out.contains("      1) Tax\n      2) Mix (~/Music/Mix)\n"), "{out}");
    assert!(!out.contains("/Users/u"), "{out}");
}

#[test]
fn without_a_home_paths_are_shown_in_full() {
    let locations = section(
        "/Users/u/Documents/Work",
        &[("/Users/u/Documents/Work/Tax", false)],
        false,
    );
    let mut with_none = String::new();
    render_with_home(&mut with_none, "Folders", &locations, false, false, None);
    let mut plain = String::new();
    render(&mut plain, "Folders", &locations, false, false);
    assert_eq!(with_none, plain);
    assert!(plain.contains("\n  A.  Work (/Users/u/Documents/)\n"), "{plain}");
}

#[test]
fn a_home_that_is_only_a_prefix_of_a_name_is_not_abbreviated() {
    let locations = section(
        "/Users/uma/Work",
        &[("/Users/uma/Work/Tax", false)],
        false,
    );
    let mut out = String::new();
    render_with_home(&mut out, "Folders", &locations, false, false, Some("/Users/u"));
    assert!(out.contains("\n  A.  Work (/Users/uma/)\n"), "{out}");
}

#[test]
fn title_is_bright_blue_when_colored() {
    let locations = section("/w", &[("/w/a", false)], false);
    let mut out = String::new();
    render(&mut out, "Folders", &locations, false, true);
    assert!(out.contains("\x1b[94mFolders\x1b[0m"), "{out}");
    assert!(!out.contains("\x1b[34m"), "{out}");
}

#[test]
fn prompt_styles_marker_action_and_placeholder() {
    assert_eq!(prompt_text(false), PROMPT);
    assert_eq!(
        prompt_text(true),
        "  \x1b[94m>\x1b[0m \x1b[1mopen\x1b[0m \x1b[2m<sector><position>\x1b[0m: "
    );
}

#[test]
fn root_code_gives_the_root_as_an_open_only_folder() {
    let locations = section("/w/Work", &[("/w/Work/a", true)], true);
    let root = resolve(&locations, "A0", false).unwrap();
    assert_eq!(root.path, "/w/Work");
    assert!(!root.move_here);
    assert!(root.is_section_root);
    assert!(resolve(&locations, "A0", true).is_err());
    assert_eq!(resolve(&locations, "A1", true).unwrap().path, "/w/Work/a");
}

#[test]
fn version_is_checked_before_sections_are_read() {
    assert!(check_config_version(1, 0).is_ok());
    assert!(check_config_version(2, 3).is_ok());
    assert_eq!(
        check_config_version(0, 0),
        Err("unsupported config version 0".to_string())
    );
    assert_eq!(
        check_config_version(3, 1),
        Err("unsupported config version 3".to_string())
    );
    assert_eq!(
        check_config_version(1, 1),
        Err("sections require config version = 2".to_string())
    );
}
