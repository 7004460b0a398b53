use shelve::batch::{move_step, start_moves, Line, MoveAction, MoveEvent, MoveState, MoveStep};
use shelve::location::Location;

const HOME: Option<&str> = Some("/h");

fn folder(path: &str) -> Location {
    Location {
        group: "G".into(),
        label: "L".into(),
        path: path.into(),
        move_here: true,
        root: None,
        is_section_root: false,
    }
}

fn notes(step: &MoveStep) -> Vec<String> {
    step.lines
        .iter()
        .map(|line| match line {
            Line::Note(text) => format!("out: {text}"),
            Line::Warning(text) => format!("err: {text}"),
        })
        .collect()
}

fn answer(step: MoveStep, event: MoveEvent) -> MoveStep {
    move_step(step.state, event, HOME)
}

fn finished(step: &MoveStep) -> Option<Result<(), String>> {
    match &step.action {
        MoveAction::Finish(outcome) => Some(outcome.clone()),
        _ => None,
    }
}

/// Runs a batch of one file up to the question whether to move it.
fn planned(exists: bool) -> MoveStep {
    let step = start_moves(vec!["/in/a.pdf".into()]);
    let step = answer(step, MoveEvent::SourcesChosen(Some(vec!["/in/a.pdf".into()])));
    let step = answer(step, MoveEvent::DestinationChosen(Some(folder("~/Out"))));
    let step = answer(step, MoveEvent::FolderChecked(true));
    assert!(matches!(&step.action, MoveAction::CheckDestination(d) if d == "/h/Out/a.pdf"));
    answer(step, MoveEvent::DestinationChecked(exists))
}

#[test]
fn a_confirmed_batch_moves_each_ready_file() {
    let step = start_moves(vec!["/in/a.pdf".into(), "/in/b.pdf".into()]);
    assert!(matches!(step.state, MoveState::ChoosingSources));
    assert!(matches!(&step.action, MoveAction::ChooseSources(c) if c.len() == 2));
    let step = answer(step, MoveEvent::SourcesChosen(Some(vec!["/in/a.pdf".into()])));
    assert!(matches!(&step.action, MoveAction::ChooseDestination(s) if s == "/in/a.pdf"));
    let step = answer(step, MoveEvent::DestinationChosen(Some(folder("~/Out"))));
    assert!(matches!(&step.action, MoveAction::CheckFolder(d) if d == "/h/Out"));
    let step = answer(step, MoveEvent::FolderChecked(true));
    let step = answer(step, MoveEvent::DestinationChecked(false));
    assert_eq!(
        notes(&step),
        vec!["out: \nPreview:", "out:   [ready] /in/a.pdf -> /h/Out/a.pdf"]
    );
    assert!(matches!(step.action, MoveAction::Confirm(1)));
    let step = answer(step, MoveEvent::Confirmed(true));
    assert!(matches!(
        &step.action,
        MoveAction::Move { source, destination } if source == "/in/a.pdf" && destination == "/h/Out/a.pdf"
    ));
    let step = answer(step, MoveEvent::Moved(Ok(())));
    assert_eq!(
        notes(&step),
        vec!["out: moved: /h/Out/a.pdf", "out: Done: 1 moved, 0 failed."]
    );
    assert_eq!(finished(&step), Some(Ok(())));
    assert!(matches!(step.state, MoveState::Done));
}

#[test]
fn each_source_gets_its_own_folder() {
    let step = start_moves(vec!["/in/a.pdf".into(), "/in/b.pdf".into()]);
    let step = answer(
        step,
        MoveEvent::SourcesChosen(Some(vec!["/in/a.pdf".into(), "/in/b.pdf".into()])),
    );
    let step = answer(step, MoveEvent::DestinationChosen(Some(folder("/x"))));
    let step = answer(step, MoveEvent::FolderChecked(true));
    let step = answer(step, MoveEvent::DestinationChecked(true));
    assert!(matches!(&step.action, MoveAction::ChooseDestination(s) if s == "/in/b.pdf"));
    let step = answer(step, MoveEvent::DestinationChosen(Some(folder("/y"))));
    let step = answer(step, MoveEvent::FolderChecked(true));
    let step = answer(step, MoveEvent::DestinationChecked(false));
    assert_eq!(
        notes(&step),
        vec![
            "out: \nPreview:",
            "out:   [destination exists] /in/a.pdf -> /x/a.pdf",
            "out:   [ready] /in/b.pdf -> /y/b.pdf",
        ]
    );
    assert!(matches!(step.action, MoveAction::Confirm(1)));
    let step = answer(step, MoveEvent::Confirmed(true));
    assert!(matches!(&step.action, MoveAction::Move { source, .. } if source == "/in/b.pdf"));
}

#[test]
fn no_candidates_means_nothing_to_choose() {
    let step = start_moves(Vec::new());
    assert_eq!(notes(&step), vec!["out: No PDFs found."]);
    assert_eq!(finished(&step), Some(Ok(())));
}

#[test]
fn cancelling_any_question_moves_nothing() {
    let step = start_moves(vec!["/in/a.pdf".into()]);
    let step = answer(step, MoveEvent::SourcesChosen(None));
    assert_eq!(notes(&step), vec!["out: Cancelled."]);
    assert_eq!(finished(&step), Some(Ok(())));

    let step = start_moves(vec!["/in/a.pdf".into()]);
    let step = answer(step, MoveEvent::SourcesChosen(Some(vec!["/in/a.pdf".into()])));
    let step = answer(step, MoveEvent::DestinationChosen(None));
    assert_eq!(notes(&step), vec!["out: Cancelled."]);
    assert_eq!(finished(&step), Some(Ok(())));

    let step = answer(planned(false), MoveEvent::Confirmed(false));
    assert_eq!(notes(&step), vec!["out: Cancelled."]);
    assert_eq!(finished(&step), Some(Ok(())));
}

#[test]
fn nothing_ready_ends_after_the_preview() {
    let step = planned(true);
    assert_eq!(
        notes(&step),
        vec![
            "out: \nPreview:",
            "out:   [destination exists] /in/a.pdf -> /h/Out/a.pdf",
            "out: Nothing to move.",
        ]
    );
    assert_eq!(finished(&step), Some(Ok(())));
}

#[test]
fn a_missing_folder_stops_the_batch() {
    let step = start_moves(vec!["/in/a.pdf".into()]);
    let step = answer(step, MoveEvent::SourcesChosen(Some(vec!["/in/a.pdf".into()])));
    let step = answer(step, MoveEvent::DestinationChosen(Some(folder("/gone"))));
    let step = answer(step, MoveEvent::FolderChecked(false));
    assert_eq!(
        finished(&step),
        Some(Err("folder does not exist: /gone".to_string()))
    );
}

#[test]
fn a_failed_move_is_reported_and_fails_the_batch() {
    let step = answer(planned(false), MoveEvent::Confirmed(true));
    let step = answer(step, MoveEvent::Moved(Err("busy".into())));
    assert_eq!(
        notes(&step),
        vec!["err: failed: /in/a.pdf: busy", "out: Done: 0 moved, 1 failed."]
    );
    assert_eq!(
        finished(&step),
        Some(Err("one or more files could not be moved".to_string()))
    );
}

#[test]
fn an_answer_to_another_question_ends_the_batch() {
    let step = answer(planned(false), MoveEvent::FolderChecked(true));
    assert_eq!(finished(&step), Some(Err("unexpected answer".to_string())));
    assert!(matches!(step.state, MoveState::Done));
}
