use shelve::config::{
    default_config_version, materialize_config, materialize_section, resolve_section_path,
    ChildEntry, ConfigFile, RootListing, Section,
};
use shelve::location::Location;
use shelve::picker::resolve;

const HOME: &str = "/Users/someone";

fn dir(name: &str) -> ChildEntry {
    ChildEntry::Entry { name: name.into(), is_dir: Ok(true) }
}

fn file(name: &str) -> ChildEntry {
    ChildEntry::Entry { name: name.into(), is_dir: Ok(false) }
}

fn listing(entries: Vec<ChildEntry>) -> RootListing {
    RootListing { is_dir: true, entries: Ok(entries) }
}

#[test]
fn legacy_locations_remain_supported() {
    let parsed = ConfigFile {
        version: default_config_version(),
        inboxes: vec!["~/Downloads".into()],
        locations: vec![Location {
            group: "Documents".into(),
            label: "Archive".into(),
            path: "~/Documents/Archive".into(),
            move_here: true,
            root: None,
            is_section_root: false,
        }],
        sections: Vec::new(),
    };
    let config = materialize_config(parsed, Some(HOME), &[]).unwrap();

    assert_eq!(config.locations.len(), 1);
    assert_eq!(config.locations[0].path, "~/Documents/Archive");
    assert_eq!(config.locations[0].root, None);
    assert!(!config.locations[0].is_section_root);
    assert!(config.locations[0].move_here);
    assert_eq!(config.inboxes, vec!["~/Downloads".to_string()]);
}

#[test]
fn sections_require_config_version_two() {
    let parsed = ConfigFile {
        version: default_config_version(),
        inboxes: Vec::new(),
        locations: Vec::new(),
        sections: vec![Section {
            root: "~".into(),
            children: false,
            pins: vec!["Documents".into()],
            move_here: Vec::new(),
        }],
    };
    let listings = vec![listing(Vec::new())];

    assert_eq!(
        materialize_config(parsed, Some(HOME), &listings).err().as_deref(),
        Some("sections require config version = 2")
    );
}

#[test]
fn section_combines_pins_at_any_depth_and_direct_children() {
    let root = "/tmp/shelf/Library".to_string();
    let books = format!("{root}/Books");
    let guides = format!("{root}/Guides");
    let english = format!("{guides}/English");
    let section = Section {
        root: root.clone(),
        children: true,
        pins: vec!["Books".into(), "Guides/English".into()],
        move_here: vec!["Books".into()],
    };
    let entries = listing(vec![dir("Guides"), dir(".hidden"), dir("Books"), file("notes.txt")]);

    let locations = materialize_section(&section, Some(HOME), &entries).unwrap();
    let paths = locations
        .iter()
        .filter(|location| !location.is_section_root)
        .map(|location| location.path.clone())
        .collect::<Vec<_>>();
    assert_eq!(paths, vec![books, english, guides]);
    assert!(locations[1].move_here);
    assert_eq!(locations[0].root.as_deref(), Some(root.as_str()));
    assert!(locations[0].is_section_root);
}

#[test]
fn section_rejects_a_pin_outside_its_root() {
    let root = "/tmp/shelf/Library".to_string();
    let outside = "/tmp/shelf/Storage".to_string();
    let section = Section {
        root: root.clone(),
        children: false,
        pins: vec![outside.clone()],
        move_here: Vec::new(),
    };

    let error = materialize_section(&section, Some(HOME), &listing(Vec::new())).err().unwrap();
    assert!(error.contains("section path is outside its root"));
    assert!(error.contains(&outside));
}

#[test]
fn section_rejects_move_destination_that_is_not_visible() {
    let section = Section {
        root: "/tmp/shelf".into(),
        children: false,
        pins: Vec::new(),
        move_here: vec!["Invoices".into()],
    };

    assert!(materialize_section(&section, Some(HOME), &listing(Vec::new())).is_err());
}

#[test]
fn section_root_is_available_without_children_or_pins() {
    let root = "/tmp/shelf".to_string();
    let section = Section {
        root: root.clone(),
        children: false,
        pins: Vec::new(),
        move_here: Vec::new(),
    };

    let locations = materialize_section(&section, Some(HOME), &listing(Vec::new())).unwrap();
    assert_eq!(locations.len(), 1);
    assert!(locations[0].is_section_root);
    assert_eq!(resolve(&locations, "A0", false).unwrap().path, root);
    assert!(resolve(&locations, "A1", false).is_err());
}

#[test]
fn unsupported_versions_are_refused() {
    for version in [0u32, 3] {
        let parsed = ConfigFile {
            version,
            inboxes: Vec::new(),
            locations: Vec::new(),
            sections: Vec::new(),
        };
        assert_eq!(
            materialize_config(parsed, Some(HOME), &[]).err(),
            Some(format!("unsupported config version {version}"))
        );
    }
}

#[test]
fn a_config_without_locations_is_refused() {
    let parsed = ConfigFile { version: 2, inboxes: Vec::new(), locations: Vec::new(), sections: Vec::new() };
    assert_eq!(
        materialize_config(parsed, Some(HOME), &[]).err().as_deref(),
        Some("config has no locations")
    );
}

#[test]
fn version_two_sections_follow_flat_locations() {
    let parsed = ConfigFile {
        version: 2,
        inboxes: Vec::new(),
        locations: vec![Location {
            group: "Flat".into(),
            label: "Flat".into(),
            path: "/flat".into(),
            move_here: false,
            root: None,
            is_section_root: false,
        }],
        sections: vec![Section {
            root: "~".into(),
            children: false,
            pins: vec!["Desktop".into(), "~/Downloads".into(), "Desktop".into(), "~".into()],
            move_here: vec!["~/Downloads".into()],
        }],
    };
    let config = materialize_config(parsed, Some(HOME), &[listing(Vec::new())]).unwrap();
    let paths: Vec<&str> = config.locations.iter().map(|l| l.path.as_str()).collect();
    assert_eq!(
        paths,
        vec!["/flat", HOME, "/Users/someone/Desktop", "/Users/someone/Downloads"]
    );
    assert!(config.locations[1].is_section_root);
    assert_eq!(config.locations[1].label, "someone");
    assert!(!config.locations[2].move_here);
    assert!(config.locations[3].move_here);
    assert_eq!(config.locations[3].group, HOME);
}

#[test]
fn section_errors_name_their_cause() {
    let section = Section { root: "/nowhere".into(), children: false, pins: Vec::new(), move_here: Vec::new() };
    let not_dir = RootListing { is_dir: false, entries: Ok(Vec::new()) };
    assert_eq!(
        materialize_section(&section, None, &not_dir).err().as_deref(),
        Some("section root is not a folder: /nowhere")
    );

    let home_section = Section { root: "~/x".into(), children: false, pins: Vec::new(), move_here: Vec::new() };
    assert_eq!(
        materialize_section(&home_section, None, &listing(Vec::new())).err().as_deref(),
        Some("HOME is not set")
    );

    let listed = Section { root: "/r".into(), children: true, pins: Vec::new(), move_here: Vec::new() };
    let unreadable = RootListing { is_dir: true, entries: Err("denied".into()) };
    assert_eq!(
        materialize_section(&listed, None, &unreadable).err().as_deref(),
        Some("cannot read section root /r: denied")
    );
    let bad_entry = listing(vec![dir("a"), ChildEntry::Unreadable("gone".into())]);
    assert_eq!(
        materialize_section(&listed, None, &bad_entry).err().as_deref(),
        Some("cannot read section root /r: gone")
    );
    let bad_kind = listing(vec![ChildEntry::Entry { name: "b".into(), is_dir: Err("odd".into()) }]);
    assert_eq!(
        materialize_section(&listed, None, &bad_kind).err().as_deref(),
        Some("cannot inspect section child /r/b: odd")
    );
    let hidden_bad = listing(vec![ChildEntry::Entry { name: ".b".into(), is_dir: Err("odd".into()) }]);
    assert_eq!(materialize_section(&listed, None, &hidden_bad).unwrap().len(), 1);

    let unlisted = Section { root: "/r".into(), children: false, pins: Vec::new(), move_here: vec!["x".into()] };
    assert_eq!(
        materialize_section(&unlisted, None, &listing(Vec::new())).err().as_deref(),
        Some("move_here path is not a pin or discovered child: /r/x")
    );
}

#[test]
fn children_are_sorted_by_name_ignoring_case() {
    let section = Section { root: "/r".into(), children: true, pins: Vec::new(), move_here: Vec::new() };
    let entries = listing(vec![dir("cherry"), dir("Banana"), dir("apple"), dir("banana")]);
    let locations = materialize_section(&section, None, &entries).unwrap();
    let labels: Vec<&str> = locations.iter().map(|l| l.label.as_str()).collect();
    assert_eq!(labels, vec!["r", "apple", "Banana", "banana", "cherry"]);
}

#[test]
fn section_paths_must_stay_below_the_root() {
    assert_eq!(
        resolve_section_path("/r", "a/../b", None).err().as_deref(),
        Some("relative section path must stay below its root: a/../b")
    );
    assert_eq!(resolve_section_path("/r", "a/..b", None).unwrap(), "/r/a/..b");
    assert_eq!(resolve_section_path("/r/", "a", None).unwrap(), "/r/a");
    assert_eq!(resolve_section_path("/r", "/r/a/b", None).unwrap(), "/r/a/b");
    assert_eq!(
        resolve_section_path("/r", "/rx", None).err().as_deref(),
        Some("section path is outside its root /r: /rx")
    );
    assert_eq!(resolve_section_path("/home/u", "~/a", Some("/home/u")).unwrap(), "/home/u/a");
    assert_eq!(
        resolve_section_path("/home/u", "~/a", None).err().as_deref(),
        Some("HOME is not set")
    );
}
