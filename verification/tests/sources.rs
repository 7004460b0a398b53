use shelve::menu::render;
use shelve::sources::{select_sources, source_locations, split_codes, SourceStep};

fn candidates() -> Vec<String> {
    vec![
        "/Users/u/Desktop/a.pdf".into(),
        "/Users/u/Desktop/b.pdf".into(),
        "/Users/u/Downloads/c.pdf".into(),
    ]
}

#[test]
fn files_are_grouped_by_folder() {
    let locations = source_locations(&candidates());
    assert_eq!(locations[0].group, "/Users/u/Desktop");
    assert_eq!(locations[2].label, "c.pdf");
    assert!(locations.iter().all(|l| l.move_here));
    let mut out = String::new();
    render(&mut out, "Files", &locations, true, false);
    assert!(out.contains("\n  A.  Desktop (/Users/u/)\n      1) a.pdf\n      2) b.pdf\n"));
    assert!(out.contains("\n  B.  Downloads (/Users/u/)\n      1) c.pdf\n"));
}

#[test]
fn codes_are_split_on_spaces_and_commas() {
    assert_eq!(split_codes("A1 a2,,B1"), vec!["A1", "a2", "B1"]);
    assert_eq!(split_codes(" , "), Vec::<String>::new());
}

#[test]
fn several_codes_choose_several_files_once() {
    let locations = source_locations(&candidates());
    match select_sources(&locations, "b1, A2 a2\n") {
        SourceStep::Chosen(chosen) => assert_eq!(
            chosen,
            vec!["/Users/u/Downloads/c.pdf".to_string(), "/Users/u/Desktop/b.pdf".to_string()]
        ),
        _ => panic!("codes choose files"),
    }
}

#[test]
fn any_invalid_code_rejects_the_selection() {
    let locations = source_locations(&candidates());
    match select_sources(&locations, "A1 A0") {
        SourceStep::Retry(e) => assert_eq!(e, "group roots are for opening, not PDF moves"),
        _ => panic!("a root code rejects the selection"),
    }
    match select_sources(&locations, "A1 C1") {
        SourceStep::Retry(e) => assert_eq!(e, "unknown destination: C1"),
        _ => panic!("an unknown code rejects the selection"),
    }
    assert!(matches!(select_sources(&locations, ","), SourceStep::Retry(_)));
    assert!(matches!(select_sources(&locations, "  \n"), SourceStep::Cancel));
    assert!(matches!(select_sources(&locations, "q"), SourceStep::Cancel));
}
