use shelve::location::Location;
use shelve::menu::{prompt, render};
use shelve::picker::{group_label, resolve};

fn locations() -> Vec<Location> {
    [
        ("Home", "Desktop", false),
        ("Business", "Root", false),
        ("Business", "Invoices", true),
        ("Home", "Downloads", false),
    ]
    .into_iter()
    .map(|(group, label, move_here)| Location {
        group: group.into(),
        label: label.into(),
        path: format!("/{label}"),
        move_here,
        root: None,
        is_section_root: false,
    })
    .collect()
}

#[test]
fn selectors_group_nonadjacent_entries_and_accept_lowercase() {
    let locations = locations();
    assert_eq!(
        resolve(&locations, " a2 ", false).unwrap().label,
        "Downloads"
    );
    assert_eq!(resolve(&locations, "B 2", false).unwrap().label, "Invoices");
    for choice in [
        "",
        "A",
        "1",
        "A3",
        "Z1",
        "A-1",
        "A1x",
        "А1",
        "A999999999999999999999999999999",
    ] {
        assert!(resolve(&locations, choice, false).is_err(), "{choice}");
    }
}

#[test]
fn move_menu_preserves_codes_and_rejects_open_only_destinations() {
    let locations = locations();
    assert_eq!(resolve(&locations, "B2", true).unwrap().label, "Invoices");
    assert!(resolve(&locations, "B1", true).is_err());
    let mut out = String::new();
    render(&mut out, "Move PDF", &locations, true, false);
    let text = out;
    assert!(text.contains("\n\n  B.  / (/)\n      2) Invoices"));
    assert!(!text.contains("Desktop"));
    assert!(!text.contains("\x1b["));
}

#[test]
fn zero_opens_the_group_root_and_names_come_from_paths() {
    let locations = vec![Location {
        group: "Custom group".into(),
        label: "Custom alias".into(),
        path: "~/Documents/Business/In Invoices".into(),
        move_here: true,
        root: None,
        is_section_root: false,
    }];
    assert_eq!(
        resolve(&locations, "a0", false).unwrap().path,
        "~/Documents/Business"
    );
    assert_eq!(
        resolve(&locations, "A1", false).unwrap().path,
        locations[0].path
    );
    assert!(resolve(&locations, "A0", true).is_err());
    let mut out = String::new();
    render(&mut out, "Open folder", &locations, false, false);
    let text = out;
    assert!(text.contains("A.  Business (~/Documents/)"));
    assert!(text.contains("1) In Invoices"));
    assert!(!text.contains("Custom"));
    assert!(!text.lines().any(|line| line.trim_start().starts_with("0)")));
}

#[test]
fn supports_multiletter_groups_and_multidigit_positions() {
    assert_eq!(group_label(25), "Z");
    assert_eq!(group_label(26), "AA");
    let mut locations = locations();
    for i in 0..27 {
        locations.push(Location {
            group: format!("Group {i}"),
            label: "Folder".into(),
            path: "/folder".into(),
            move_here: false,
            root: None,
            is_section_root: false,
        });
    }
    assert_eq!(resolve(&locations, "AA1", false).unwrap().group, "Group 24");
    for _ in 0..10 {
        locations.push(locations[0].clone());
    }
    assert_eq!(resolve(&locations, "A12", false).unwrap().label, "Desktop");
}

#[test]
fn invalid_input_retries_and_eof_or_empty_input_cancels() {
    let locations = locations();
    let mut out = String::new();
    let selected = prompt("Z8\nb2\n", &mut out, &locations, false)
        .unwrap()
        .unwrap();
    assert_eq!(selected.label, "Invoices");
    assert!(out.contains("unknown destination"));
    for input in ["", "\n", "q\n"] {
        assert!(
            prompt(input, &mut String::new(), &locations, false)
                .unwrap()
                .is_none()
        );
    }
}
