use shelve::moves::{
    add_source, collect_candidates, count_ready, FolderEntry, InputKind, destination_for, has_move_destination, move_inputs, move_summary,
    plan_move, preview_line, sort_paths,
};
use shelve::location::Location;

#[test]
fn sources_are_found_once() {
    let mut found = Vec::new();
    add_source("a.pdf", Ok("/x/a.pdf".into()), &mut found).unwrap();
    add_source("./a.pdf", Ok("/x/a.pdf".into()), &mut found).unwrap();
    add_source("b.pdf", Ok("/x/b.pdf".into()), &mut found).unwrap();
    assert_eq!(found, vec!["/x/a.pdf".to_string(), "/x/b.pdf".to_string()]);
    assert_eq!(
        add_source("c.pdf", Err("missing".into()), &mut found),
        Err("cannot read c.pdf: missing".to_string())
    );
    assert_eq!(found.len(), 2);
}

#[test]
fn paths_sort_by_components() {
    let sorted = sort_paths(vec!["/a-c".into(), "/b".into(), "/a/b".into(), "/a".into()]);
    assert_eq!(sorted, vec!["/a", "/a/b", "/a-c", "/b"]);
}

#[test]
fn a_move_never_overwrites() {
    let plan = plan_move("/in/x.pdf".into(), "/out/x.pdf".into(), true);
    assert!(!plan.ready);
    assert_eq!(preview_line(&plan), "  [destination exists] /in/x.pdf -> /out/x.pdf");
    let same = plan_move("/in/x.pdf".into(), "/in/x.pdf".into(), false);
    assert!(!same.ready);
    assert_eq!(preview_line(&same), "  [already there] /in/x.pdf -> /in/x.pdf");
    let ok = plan_move("/in/x.pdf".into(), "/out/x.pdf".into(), false);
    assert!(ok.ready);
    assert_eq!(preview_line(&ok), "  [ready] /in/x.pdf -> /out/x.pdf");
    assert_eq!(count_ready(&[plan, same, ok]), 1);
}

#[test]
fn destinations_keep_the_file_name() {
    assert_eq!(destination_for("/in/x.pdf", "/out").unwrap(), "/out/x.pdf");
    assert_eq!(destination_for("/in/x.pdf", "/out/").unwrap(), "/out/x.pdf");
    assert_eq!(destination_for("/", "/out").err().as_deref(), Some("source has no filename"));
}

#[test]
fn summary_reports_failures() {
    let (line, outcome) = move_summary(3, 0);
    assert_eq!(line, "Done: 3 moved, 0 failed.");
    assert!(outcome.is_ok());
    let (line, outcome) = move_summary(1, 12);
    assert_eq!(line, "Done: 1 moved, 12 failed.");
    assert_eq!(outcome, Err("one or more files could not be moved".to_string()));
}

#[test]
fn inputs_default_to_inboxes() {
    let inboxes = vec!["~/Desktop".to_string()];
    assert_eq!(move_inputs(Vec::new(), &inboxes), inboxes);
    assert_eq!(move_inputs(vec!["a".into()], &inboxes), vec!["a".to_string()]);
}

#[test]
fn moves_need_a_destination() {
    let mut locations = vec![Location {
        group: "G".into(),
        label: "L".into(),
        path: "/p".into(),
        move_here: false,
        root: None,
        is_section_root: false,
    }];
    assert!(!has_move_destination(&locations));
    locations[0].move_here = true;
    assert!(has_move_destination(&locations));
}

#[test]
fn paths_that_compare_equal_keep_their_order() {
    let sorted = sort_paths(vec!["/b".into(), "/a//x".into(), "/a/x".into(), "/a".into()]);
    assert_eq!(sorted, vec!["/a", "/a//x", "/a/x", "/b"]);
    let sorted = sort_paths(vec!["/a/x".into(), "/b".into(), "/a//x".into()]);
    assert_eq!(sorted, vec!["/a/x", "/a//x", "/b"]);
}

fn entry(path: &str, is_file: bool, canonical: &str) -> FolderEntry {
    FolderEntry::Entry { path: path.into(), is_file, canonical: Ok(canonical.into()) }
}

#[test]
fn candidates_are_the_pdf_files_of_folders_and_files_given() {
    let inputs = vec!["~/In".to_string(), "/c/z.PDF".to_string(), "/c/notes.txt".to_string(), "/gone".to_string()];
    let kinds = vec![
        InputKind::Folder(Ok(vec![
            entry("/h/In/b.pdf", true, "/real/b.pdf"),
            entry("/h/In/a.txt", true, "/real/a.txt"),
            entry("/h/In/sub.pdf", false, "/real/sub.pdf"),
            entry("/h/In/again.pdf", true, "/real/b.pdf"),
        ])),
        InputKind::File(Ok("/c/z.PDF".into())),
        InputKind::File(Ok("/c/notes.txt".into())),
        InputKind::Other,
    ];
    let (skipped, found) = collect_candidates(&inputs, Some("/h"), &kinds);
    assert_eq!(
        skipped,
        vec![
            "skipped: /c/notes.txt (not a PDF file or directory)".to_string(),
            "skipped: /gone (not a PDF file or directory)".to_string(),
        ]
    );
    assert_eq!(found, Ok(vec!["/c/z.PDF".to_string(), "/real/b.pdf".to_string()]));
}

#[test]
fn the_first_unreadable_input_stops_collecting() {
    let inputs = vec!["/skip.txt".to_string(), "/d".to_string(), "/e".to_string()];
    let kinds = vec![
        InputKind::Other,
        InputKind::Folder(Ok(vec![
            entry("/d/a.pdf", true, "/d/a.pdf"),
            FolderEntry::Unreadable("denied".into()),
        ])),
        InputKind::Folder(Err("gone".into())),
    ];
    let (skipped, found) = collect_candidates(&inputs, None, &kinds);
    assert_eq!(skipped, vec!["skipped: /skip.txt (not a PDF file or directory)".to_string()]);
    assert_eq!(found, Err("cannot read /d: denied".to_string()));

    let kinds = vec![InputKind::Other, InputKind::Folder(Err("gone".into())), InputKind::Other];
    let (_, found) = collect_candidates(&inputs, None, &kinds);
    assert_eq!(found, Err("cannot read /d: gone".to_string()));

    let kinds = vec![
        InputKind::File(Err("lost".into())),
        InputKind::Other,
        InputKind::Other,
    ];
    let inputs = vec!["/x.pdf".to_string(), "/d".to_string(), "/e".to_string()];
    let (skipped, found) = collect_candidates(&inputs, None, &kinds);
    assert!(skipped.is_empty());
    assert_eq!(found, Err("cannot read /x.pdf: lost".to_string()));
}

#[test]
fn an_input_under_an_unknown_home_is_refused() {
    let inputs = vec!["~/In".to_string()];
    let kinds = vec![InputKind::Other];
    let (_, found) = collect_candidates(&inputs, None, &kinds);
    assert!(found.is_err());
}
