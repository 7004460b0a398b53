use shelve::paths::{expand_home, is_pdf};

#[test]
fn pdf_extension_is_case_insensitive() {
    assert!(is_pdf("invoice.PDF"));
    assert!(!is_pdf("invoice.txt"));
}

#[test]
fn home_expansion_handles_home_itself_and_descendants() {
    let home = "/Users/someone";
    assert_eq!(expand_home("~", Some(home)).unwrap(), home);
    assert_eq!(
        expand_home("~/Documents", Some(home)).unwrap(),
        "/Users/someone/Documents"
    );
}
