//! Shelving a batch of PDFs, step by step: choosing the files, a folder for
//! each, the preview and its confirmation, then the moves. Each step takes
//! what the user or the file system answered to the previous action and
//! gives the next action; the program performs the actions.
use vstd::prelude::*;

use crate::location::{Location, texts};
use crate::moves::{
    MovePlan, MovePlanView, count_ready, destination_for, move_summary, plan_move, plan_spec,
    plan_views, preview_line, preview_text, ready_count, summary_outcome, summary_text,
};
use crate::paths::{expand_home, expand_home_spec, file_name_of, join_path};
use crate::text::{opt_view, to_owned_string};

verus! {

/// A line to print: a note on the output, or a warning on the error stream.
pub enum Line {
    Note(String),
    Warning(String),
}

pub enum LineView {
    Note(Seq<char>),
    Warning(Seq<char>),
}

impl View for Line {
    type V = LineView;

    open spec fn view(&self) -> LineView {
        match self {
            Line::Note(t) => LineView::Note(t@),
            Line::Warning(t) => LineView::Warning(t@),
        }
    }
}

/// The views of a sequence of lines.
pub open spec fn line_views(s: Seq<Line>) -> Seq<LineView> {
    s.map_values(|l: Line| l@)
}

/// Where a batch stands.
pub enum MoveState {
    /// The files menu is shown.
    ChoosingSources,
    /// The folders menu is shown for the source after the planned ones.
    ChoosingDestination { sources: Vec<String>, plans: Vec<MovePlan> },
    /// Asking whether the chosen folder exists.
    CheckingFolder { sources: Vec<String>, plans: Vec<MovePlan>, directory: String },
    /// Asking whether something exists where the source would go.
    CheckingDestination { sources: Vec<String>, plans: Vec<MovePlan>, destination: String },
    /// The preview is shown and the user is asked to confirm.
    Confirming { plans: Vec<MovePlan> },
    /// The plan at `next` is being moved; `moved` and `failed` count the
    /// moves done before it.
    Moving { plans: Vec<MovePlan>, next: usize, moved: usize, failed: usize },
    /// The batch is over.
    Done,
}

pub enum MoveStateView {
    ChoosingSources,
    ChoosingDestination { sources: Seq<Seq<char>>, plans: Seq<MovePlanView> },
    CheckingFolder { sources: Seq<Seq<char>>, plans: Seq<MovePlanView>, directory: Seq<char> },
    CheckingDestination {
        sources: Seq<Seq<char>>,
        plans: Seq<MovePlanView>,
        destination: Seq<char>,
    },
    Confirming { plans: Seq<MovePlanView> },
    Moving { plans: Seq<MovePlanView>, next: nat, moved: nat, failed: nat },
    Done,
}

impl View for MoveState {
    type V = MoveStateView;

    open spec fn view(&self) -> MoveStateView {
        match self {
            MoveState::ChoosingSources => MoveStateView::ChoosingSources,
            MoveState::ChoosingDestination { sources, plans } => MoveStateView::ChoosingDestination {
                sources: texts(sources@),
                plans: plan_views(plans@),
            },
            MoveState::CheckingFolder { sources, plans, directory } => MoveStateView::CheckingFolder {
                sources: texts(sources@),
                plans: plan_views(plans@),
                directory: directory@,
            },
            MoveState::CheckingDestination { sources, plans, destination } =>
            MoveStateView::CheckingDestination {
                sources: texts(sources@),
                plans: plan_views(plans@),
                destination: destination@,
            },
            MoveState::Confirming { plans } => MoveStateView::Confirming { plans: plan_views(plans@) },
            MoveState::Moving { plans, next, moved, failed } => MoveStateView::Moving {
                plans: plan_views(plans@),
                next: *next as nat,
                moved: *moved as nat,
                failed: *failed as nat,
            },
            MoveState::Done => MoveStateView::Done,
        }
    }
}

/// The invariant of a batch: a source is pending while one is being
/// planned, and a move is under way only for a plan that is ready, with
/// the counts of earlier moves not above its place.
pub open spec fn batch_wf(s: MoveStateView) -> bool {
    match s {
        MoveStateView::ChoosingDestination { sources, plans } => plans.len() < sources.len(),
        MoveStateView::CheckingFolder { sources, plans, .. } => plans.len() < sources.len(),
        MoveStateView::CheckingDestination { sources, plans, .. } => plans.len() < sources.len(),
        MoveStateView::Moving { plans, next, moved, failed } => next < plans.len() && plans[next as int].ready
            && moved + failed <= next,
        _ => true,
    }
}

/// What the user or the file system answered.
pub enum MoveEvent {
    /// The files chosen in the files menu, or `None` when it was cancelled.
    SourcesChosen(Option<Vec<String>>),
    /// The folder chosen in the folders menu, or `None` when it was cancelled.
    DestinationChosen(Option<Location>),
    /// Whether the folder asked about is a folder.
    FolderChecked(bool),
    /// Whether something exists at the destination asked about.
    DestinationChecked(bool),
    /// Whether the user confirmed the batch.
    Confirmed(bool),
    /// How the move asked for went.
    Moved(Result<(), String>),
}

pub enum MoveEventView {
    SourcesChosen(Option<Seq<Seq<char>>>),
    DestinationChosen(Option<Seq<char>>),
    FolderChecked(bool),
    DestinationChecked(bool),
    Confirmed(bool),
    Moved(Result<(), Seq<char>>),
}

impl View for MoveEvent {
    type V = MoveEventView;

    open spec fn view(&self) -> MoveEventView {
        match self {
            MoveEvent::SourcesChosen(c) => MoveEventView::SourcesChosen(
                match c {
                    Some(v) => Some(texts(v@)),
                    None => None,
                },
            ),
            MoveEvent::DestinationChosen(l) => MoveEventView::DestinationChosen(
                match l {
                    Some(l) => Some(l.path@),
                    None => None,
                },
            ),
            MoveEvent::FolderChecked(b) => MoveEventView::FolderChecked(*b),
            MoveEvent::DestinationChecked(b) => MoveEventView::DestinationChecked(*b),
            MoveEvent::Confirmed(b) => MoveEventView::Confirmed(*b),
            MoveEvent::Moved(r) => MoveEventView::Moved(
                match r {
                    Ok(()) => Ok(()),
                    Err(e) => Err(e@),
                },
            ),
        }
    }
}

/// What the program is to do next.
pub enum MoveAction {
    /// Show the files menu of these candidates.
    ChooseSources(Vec<String>),
    /// Show the folders menu for this source.
    ChooseDestination(String),
    /// Find out whether this is a folder.
    CheckFolder(String),
    /// Find out whether something exists at this path.
    CheckDestination(String),
    /// Ask whether to move this many files.
    Confirm(usize),
    /// Move a file without overwriting anything.
    Move { source: String, destination: String },
    /// End the batch with this outcome.
    Finish(Result<(), String>),
}

pub enum MoveActionView {
    ChooseSources(Seq<Seq<char>>),
    ChooseDestination(Seq<char>),
    CheckFolder(Seq<char>),
    CheckDestination(Seq<char>),
    Confirm(nat),
    Move { source: Seq<char>, destination: Seq<char> },
    Finish(Result<(), Seq<char>>),
}

impl View for MoveAction {
    type V = MoveActionView;

    open spec fn view(&self) -> MoveActionView {
        match self {
            MoveAction::ChooseSources(c) => MoveActionView::ChooseSources(texts(c@)),
            MoveAction::ChooseDestination(s) => MoveActionView::ChooseDestination(s@),
            MoveAction::CheckFolder(d) => MoveActionView::CheckFolder(d@),
            MoveAction::CheckDestination(d) => MoveActionView::CheckDestination(d@),
            MoveAction::Confirm(n) => MoveActionView::Confirm(*n as nat),
            MoveAction::Move { source, destination } => MoveActionView::Move {
                source: source@,
                destination: destination@,
            },
            MoveAction::Finish(r) => MoveActionView::Finish(
                match r {
                    Ok(()) => Ok(()),
                    Err(e) => Err(e@),
                },
            ),
        }
    }
}

/// One step: the new state, the lines to print first, and the next action.
pub struct MoveStep {
    pub state: MoveState,
    pub lines: Vec<Line>,
    pub action: MoveAction,
}

pub struct MoveStepView {
    pub state: MoveStateView,
    pub lines: Seq<LineView>,
    pub action: MoveActionView,
}

impl View for MoveStep {
    type V = MoveStepView;

    open spec fn view(&self) -> MoveStepView {
        MoveStepView { state: self.state@, lines: line_views(self.lines@), action: self.action@ }
    }
}

/// The batch ends with `outcome` after printing `lines`.
pub open spec fn finish(lines: Seq<LineView>, outcome: Result<(), Seq<char>>) -> MoveStepView {
    MoveStepView { state: MoveStateView::Done, lines, action: MoveActionView::Finish(outcome) }
}

/// The batch ends, moving nothing.
pub open spec fn cancelled() -> MoveStepView {
    finish(seq![LineView::Note("Cancelled."@)], Ok(()))
}

/// An answer that does not fit the question ends the batch with an error.
pub open spec fn unexpected() -> MoveStepView {
    finish(Seq::empty(), Err("unexpected answer"@))
}

/// The place of the first ready plan from `i` on.
pub open spec fn first_ready(plans: Seq<MovePlanView>, i: nat) -> Option<nat>
    decreases plans.len() - i,
{
    if i >= plans.len() {
        None
    } else if plans[i as int].ready {
        Some(i)
    } else {
        first_ready(plans, i + 1)
    }
}

/// After `lines`: the next ready plan from `i` on is moved, or, when there
/// is none, the batch ends with its summary.
pub open spec fn next_move(plans: Seq<MovePlanView>, i: nat, moved: nat, failed: nat, lines: Seq<
    LineView,
>) -> MoveStepView {
    match first_ready(plans, i) {
        Some(j) => MoveStepView {
            state: MoveStateView::Moving { plans, next: j, moved, failed },
            lines,
            action: MoveActionView::Move {
                source: plans[j as int].source,
                destination: plans[j as int].destination,
            },
        },
        None => finish(lines.push(LineView::Note(summary_text(moved, failed))), summary_outcome(failed)),
    }
}

/// The preview: a heading, then a line for each plan.
pub open spec fn preview_lines(plans: Seq<MovePlanView>) -> Seq<LineView> {
    seq![LineView::Note("\nPreview:"@)] + plans.map_values(|p: MovePlanView| LineView::Note(preview_text(p)))
}

/// Once every source is planned: the preview, then the question whether to
/// move the ready ones, or the end of the batch when none is ready.
pub open spec fn after_planning(plans: Seq<MovePlanView>) -> MoveStepView {
    let n = ready_count(plans, plans.len() as int);
    if n == 0 {
        finish(preview_lines(plans).push(LineView::Note("Nothing to move."@)), Ok(()))
    } else {
        MoveStepView {
            state: MoveStateView::Confirming { plans },
            lines: preview_lines(plans),
            action: MoveActionView::Confirm(n),
        }
    }
}

/// The folders menu for the next source, or the preview once all are
/// planned.
pub open spec fn ask_destination(sources: Seq<Seq<char>>, plans: Seq<MovePlanView>) -> MoveStepView {
    if plans.len() < sources.len() {
        MoveStepView {
            state: MoveStateView::ChoosingDestination { sources, plans },
            lines: Seq::empty(),
            action: MoveActionView::ChooseDestination(sources[plans.len() as int]),
        }
    } else {
        after_planning(plans)
    }
}

/// What a batch does with an answer. `home` stands for `~` in the chosen
/// folders' paths.
pub open spec fn move_step_spec(s: MoveStateView, e: MoveEventView, home: Option<Seq<char>>) -> MoveStepView {
    match s {
        MoveStateView::ChoosingSources => match e {
            MoveEventView::SourcesChosen(None) => cancelled(),
            MoveEventView::SourcesChosen(Some(chosen)) => ask_destination(chosen, Seq::empty()),
            _ => unexpected(),
        },
        MoveStateView::ChoosingDestination { sources, plans } => match e {
            MoveEventView::DestinationChosen(None) => cancelled(),
            MoveEventView::DestinationChosen(Some(path)) => match expand_home_spec(path, home) {
                Err(msg) => finish(Seq::empty(), Err(msg)),
                Ok(directory) => MoveStepView {
                    state: MoveStateView::CheckingFolder { sources, plans, directory },
                    lines: Seq::empty(),
                    action: MoveActionView::CheckFolder(directory),
                },
            },
            _ => unexpected(),
        },
        MoveStateView::CheckingFolder { sources, plans, directory } => match e {
            MoveEventView::FolderChecked(is_dir) => if !is_dir {
                finish(Seq::empty(), Err("folder does not exist: "@ + directory))
            } else {
                match file_name_of(sources[plans.len() as int]) {
                    None => finish(Seq::empty(), Err("source has no filename"@)),
                    Some(name) => {
                        let destination = join_path(directory, name);
                        MoveStepView {
                            state: MoveStateView::CheckingDestination { sources, plans, destination },
                            lines: Seq::empty(),
                            action: MoveActionView::CheckDestination(destination),
                        }
                    },
                }
            },
            _ => unexpected(),
        },
        MoveStateView::CheckingDestination { sources, plans, destination } => match e {
            MoveEventView::DestinationChecked(exists) => ask_destination(
                sources,
                plans.push(plan_spec(sources[plans.len() as int], destination, exists)),
            ),
            _ => unexpected(),
        },
        MoveStateView::Confirming { plans } => match e {
            MoveEventView::Confirmed(yes) => if yes {
                next_move(plans, 0, 0, 0, Seq::empty())
            } else {
                cancelled()
            },
            _ => unexpected(),
        },
        MoveStateView::Moving { plans, next, moved, failed } => match e {
            MoveEventView::Moved(Ok(())) => next_move(
                plans,
                next + 1,
                moved + 1,
                failed,
                seq![LineView::Note("moved: "@ + plans[next as int].destination)],
            ),
            MoveEventView::Moved(Err(msg)) => next_move(
                plans,
                next + 1,
                moved,
                failed + 1,
                seq![LineView::Warning("failed: "@ + plans[next as int].source + ": "@ + msg)],
            ),
            _ => unexpected(),
        },
        MoveStateView::Done => unexpected(),
    }
}

/// How a batch begins with the candidate PDFs found.
pub open spec fn start_moves_spec(candidates: Seq<Seq<char>>) -> MoveStepView {
    if candidates.len() == 0 {
        finish(seq![LineView::Note("No PDFs found."@)], Ok(()))
    } else {
        MoveStepView {
            state: MoveStateView::ChoosingSources,
            lines: Seq::empty(),
            action: MoveActionView::ChooseSources(candidates),
        }
    }
}

/// Begins a batch with the candidate PDFs found.
pub fn start_moves(candidates: Vec<String>) -> (r: MoveStep)
    ensures
        r@ == start_moves_spec(texts(candidates@)),
        batch_wf(r.state@),
{
    if candidates.len() == 0 {
        let lines = vec![Line::Note(to_owned_string("No PDFs found."))];
        assert(line_views(lines@) =~= seq![LineView::Note("No PDFs found."@)]);
        MoveStep { state: MoveState::Done, lines, action: MoveAction::Finish(Ok(())) }
    } else {
        let lines: Vec<Line> = Vec::new();
        assert(line_views(lines@) =~= Seq::<LineView>::empty());
        MoveStep { state: MoveState::ChoosingSources, lines, action: MoveAction::ChooseSources(candidates) }
    }
}

fn finish_with(lines: Vec<Line>, outcome: Result<(), String>) -> (r: MoveStep)
    ensures
        r@ == finish(
            line_views(lines@),
            match outcome {
                Ok(()) => Ok(()),
                Err(e) => Err(e@),
            },
        ),
        batch_wf(r.state@),
{
    MoveStep { state: MoveState::Done, lines, action: MoveAction::Finish(outcome) }
}

fn no_lines() -> (r: Vec<Line>)
    ensures
        line_views(r@) == Seq::<LineView>::empty(),
{
    let r: Vec<Line> = Vec::new();
    assert(line_views(r@) =~= Seq::<LineView>::empty());
    r
}

fn cancel() -> (r: MoveStep)
    ensures
        r@ == cancelled(),
        batch_wf(r.state@),
{
    let lines = vec![Line::Note(to_owned_string("Cancelled."))];
    assert(line_views(lines@) =~= seq![LineView::Note("Cancelled."@)]);
    finish_with(lines, Ok(()))
}

fn unexpected_answer() -> (r: MoveStep)
    ensures
        r@ == unexpected(),
        batch_wf(r.state@),
{
    finish_with(no_lines(), Err(to_owned_string("unexpected answer")))
}

fn next_move_step(plans: Vec<MovePlan>, i: usize, moved: usize, failed: usize, lines: Vec<Line>) -> (r:
    MoveStep)
    requires
        i <= plans@.len(),
        moved + failed <= i,
    ensures
        r@ == next_move(plan_views(plans@), i as nat, moved as nat, failed as nat, line_views(lines@)),
        batch_wf(r.state@),
    decreases plans@.len() - i,
{
    let ghost pv = plan_views(plans@);
    if i >= plans.len() {
        let (summary, outcome) = move_summary(moved, failed);
        let mut lines = lines;
        let ghost before = line_views(lines@);
        lines.push(Line::Note(summary));
        assert(line_views(lines@) =~= before.push(LineView::Note(summary_text(moved as nat, failed as nat))));
        assert(first_ready(pv, i as nat) is None);
        let r = finish_with(lines, outcome);
        assert(match outcome {
            Ok(()) => Ok::<(), Seq<char>>(()),
            Err(e) => Err(e@),
        } == summary_outcome(failed as nat));
        r
    } else if plans[i].ready {
        assert(pv[i as int] == plans@[i as int]@);
        let source = plans[i].source.clone();
        let destination = plans[i].destination.clone();
        MoveStep {
            state: MoveState::Moving { plans, next: i, moved, failed },
            lines,
            action: MoveAction::Move { source, destination },
        }
    } else {
        assert(pv[i as int] == plans@[i as int]@);
        next_move_step(plans, i + 1, moved, failed, lines)
    }
}

fn after_planning_step(plans: Vec<MovePlan>) -> (r: MoveStep)
    ensures
        r@ == after_planning(plan_views(plans@)),
        batch_wf(r.state@),
{
    let ghost pv = plan_views(plans@);
    let mut lines: Vec<Line> = vec![Line::Note(to_owned_string("\nPreview:"))];
    let mut i: usize = 0;
    assert(line_views(lines@) =~= seq![LineView::Note("\nPreview:"@)] + pv.take(0).map_values(
        |p: MovePlanView| LineView::Note(preview_text(p)),
    ));
    while i < plans.len()
        invariant
            i <= plans@.len(),
            pv == plan_views(plans@),
            line_views(lines@) == seq![LineView::Note("\nPreview:"@)] + pv.take(i as int).map_values(
                |p: MovePlanView| LineView::Note(preview_text(p)),
            ),
        decreases plans.len() - i,
    {
        let ghost before = line_views(lines@);
        assert(pv[i as int] == plans@[i as int]@);
        lines.push(Line::Note(preview_line(&plans[i])));
        assert(line_views(lines@) =~= before.push(LineView::Note(preview_text(pv[i as int]))));
        assert(pv.take(i + 1) =~= pv.take(i as int).push(pv[i as int]));
        assert(pv.take(i + 1).map_values(|p: MovePlanView| LineView::Note(preview_text(p)))
            =~= pv.take(i as int).map_values(|p: MovePlanView| LineView::Note(preview_text(p))).push(
            LineView::Note(preview_text(pv[i as int])),
        ));
        assert(line_views(lines@) =~= seq![LineView::Note("\nPreview:"@)] + pv.take(i + 1).map_values(
            |p: MovePlanView| LineView::Note(preview_text(p)),
        ));
        i = i + 1;
    }
    assert(pv.take(plans@.len() as int) =~= pv);
    assert(line_views(lines@) == preview_lines(pv));
    let n = count_ready(&plans);
    if n == 0 {
        let ghost before = line_views(lines@);
        lines.push(Line::Note(to_owned_string("Nothing to move.")));
        assert(line_views(lines@) =~= before.push(LineView::Note("Nothing to move."@)));
        finish_with(lines, Ok(()))
    } else {
        MoveStep { state: MoveState::Confirming { plans }, lines, action: MoveAction::Confirm(n) }
    }
}

fn ask_destination_step(sources: Vec<String>, plans: Vec<MovePlan>) -> (r: MoveStep)
    ensures
        r@ == ask_destination(texts(sources@), plan_views(plans@)),
        batch_wf(r.state@),
{
    if plans.len() < sources.len() {
        let next = sources[plans.len()].clone();
        MoveStep {
            state: MoveState::ChoosingDestination { sources, plans },
            lines: no_lines(),
            action: MoveAction::ChooseDestination(next),
        }
    } else {
        after_planning_step(plans)
    }
}

/// Takes the answer to the last action and gives the next step. `home`
/// stands for `~` in the chosen folders' paths.
pub fn move_step(state: MoveState, event: MoveEvent, home: Option<&str>) -> (r: MoveStep)
    requires
        batch_wf(state@),
    ensures
        r@ == move_step_spec(state@, event@, opt_view(home)),
        batch_wf(r.state@),
{
    match state {
        MoveState::ChoosingSources => match event {
            MoveEvent::SourcesChosen(None) => cancel(),
            MoveEvent::SourcesChosen(Some(chosen)) => {
                let plans: Vec<MovePlan> = Vec::new();
                assert(plan_views(plans@) =~= Seq::<MovePlanView>::empty());
                ask_destination_step(chosen, plans)
            },
            _ => unexpected_answer(),
        },
        MoveState::ChoosingDestination { sources, plans } => match event {
            MoveEvent::DestinationChosen(None) => cancel(),
            MoveEvent::DestinationChosen(Some(location)) => match expand_home(
                location.path.as_str(),
                home,
            ) {
                Err(msg) => finish_with(no_lines(), Err(msg)),
                Ok(directory) => {
                    let ask = directory.clone();
                    MoveStep {
                        state: MoveState::CheckingFolder { sources, plans, directory },
                        lines: no_lines(),
                        action: MoveAction::CheckFolder(ask),
                    }
                },
            },
            _ => unexpected_answer(),
        },
        MoveState::CheckingFolder { sources, plans, directory } => match event {
            MoveEvent::FolderChecked(is_dir) => {
                if !is_dir {
                    let mut msg = to_owned_string("folder does not exist: ");
                    msg.append(directory.as_str());
                    finish_with(no_lines(), Err(msg))
                } else {
                    let source = sources[plans.len()].as_str();
                    match destination_for(source, directory.as_str()) {
                        Err(msg) => finish_with(no_lines(), Err(msg)),
                        Ok(destination) => {
                            let ask = destination.clone();
                            MoveStep {
                                state: MoveState::CheckingDestination { sources, plans, destination },
                                lines: no_lines(),
                                action: MoveAction::CheckDestination(ask),
                            }
                        },
                    }
                }
            },
            _ => unexpected_answer(),
        },
        MoveState::CheckingDestination { sources, plans, destination } => match event {
            MoveEvent::DestinationChecked(exists) => {
                let source = sources[plans.len()].clone();
                let ghost sv = texts(sources@);
                let ghost before = plan_views(plans@);
                assert(sv[plans@.len() as int] == source@);
                let plan = plan_move(source, destination, exists);
                let mut plans = plans;
                plans.push(plan);
                assert(plan_views(plans@) =~= before.push(plan@));
                ask_destination_step(sources, plans)
            },
            _ => unexpected_answer(),
        },
        MoveState::Confirming { plans } => match event {
            MoveEvent::Confirmed(yes) => if yes {
                next_move_step(plans, 0, 0, 0, no_lines())
            } else {
                cancel()
            },
            _ => unexpected_answer(),
        },
        MoveState::Moving { plans, next, moved, failed } => {
            assert(plan_views(plans@).len() == plans@.len());
            assert(next < plans.len());
            assert(plan_views(plans@)[next as int] == plans@[next as int]@);
            match event {
            MoveEvent::Moved(Ok(())) => {
                let mut note = to_owned_string("moved: ");
                note.append(plans[next].destination.as_str());
                let lines = vec![Line::Note(note)];
                assert(line_views(lines@) =~= seq![
                    LineView::Note("moved: "@ + plan_views(plans@)[next as int].destination),
                ]);
                next_move_step(plans, next + 1, moved + 1, failed, lines)
            },
            MoveEvent::Moved(Err(msg)) => {
                let mut note = to_owned_string("failed: ");
                note.append(plans[next].source.as_str());
                note.append(": ");
                note.append(msg.as_str());
                let lines = vec![Line::Warning(note)];
                assert(line_views(lines@) =~= seq![
                    LineView::Warning("failed: "@ + plan_views(plans@)[next as int].source + ": "@ + msg@),
                ]);
                next_move_step(plans, next + 1, moved, failed + 1, lines)
            },
            _ => unexpected_answer(),
        }},
        MoveState::Done => unexpected_answer(),
    }
}

} // verus!
