//! Planning PDF moves: which sources are candidates, where each goes,
//! whether it can go there without overwriting anything, and the text of
//! the preview and the summary.
use vstd::prelude::*;

use crate::location::{Location, texts};
use crate::paths::{
    expand_home, expand_home_spec, is_pdf, is_pdf_spec, file_name_of, join, join_path, path_file_name, path_less, path_precedes, paths_equal, same_path,
};
use crate::text::{decimal, opt_view, push_decimal, to_owned_string};
use crate::config::{add_unique, is_listed};

verus! {

/// Adds a PDF, by the path the file system resolved it to, unless that path
/// is already found. When resolving failed, `canonical` holds the error and
/// nothing is added.
pub fn add_source(path: &str, canonical: Result<String, String>, found: &mut Vec<String>) -> (r:
    Result<(), String>)
    ensures
        match canonical {
            Ok(c) => r is Ok && texts(final(found)@) == add_unique(texts(old(found)@), c@),
            Err(e) => final(found)@ == old(found)@ && (r matches Err(m) && m@ == "cannot read "@
                + path@ + ": "@ + e@),
        },
{
    match canonical {
        Err(e) => {
            let mut m = to_owned_string("cannot read ");
            m.append(path);
            m.append(": ");
            m.append(e.as_str());
            Err(m)
        },
        Ok(c) => {
            if is_listed(found, c.as_str()) {
                return Ok(());
            }
            let ghost before = texts(found@);
            let ghost cv = c@;
            found.push(c);
            assert(texts(found@) =~= before.push(cv));
            Ok(())
        },
    }
}


/// Whether no path of `s` comes, in the order of paths, before the one
/// just ahead of it.
pub open spec fn paths_in_order(s: Seq<Seq<char>>) -> bool {
    forall|i: int| 0 <= i < s.len() - 1 ==> !path_precedes(#[trigger] s[i + 1], s[i])
}

/// Inserting an element anywhere adds it to the multiset.
proof fn lemma_insert_multiset<A>(s: Seq<A>, p: int, x: A)
    requires
        0 <= p <= s.len(),
    ensures
        s.insert(p, x).to_multiset() == s.to_multiset().insert(x),
{
    broadcast use vstd::seq_lib::group_to_multiset_ensures;

    let t = s.insert(p, x);
    assert(t.remove(p) =~= s);
    assert(t[p] == x);
    assert(t.remove(p).to_multiset() == t.to_multiset().remove(x));
    assert(t.contains(x));
    assert(t.to_multiset().count(x) > 0);
    assert(t.to_multiset() =~= t.to_multiset().remove(x).insert(x));
}

/// Whether `r` is `ps` rearranged stably, where `perm` gives for each place
/// of `r` the place of `ps` it comes from: each place of `ps` is used once,
/// and two paths change their order only when the one put first comes
/// before the other in the order of paths. Paths that do not come before
/// one another keep their order.
pub open spec fn stable_rearrangement(r: Seq<Seq<char>>, ps: Seq<Seq<char>>, perm: Seq<int>) -> bool {
    &&& perm.len() == r.len()
    &&& r.len() == ps.len()
    &&& forall|k: int| 0 <= k < r.len() ==> 0 <= #[trigger] perm[k] < ps.len() && r[k] == ps[perm[k]]
    &&& forall|a: int, b: int| 0 <= a < b < r.len() ==> #[trigger] perm[a] != #[trigger] perm[b]
    &&& forall|a: int, b: int|
        0 <= a < b < r.len() && #[trigger] perm[a] > #[trigger] perm[b] ==> path_precedes(r[a], r[b])
}

/// The paths sorted in the order of paths (`Ord for Path`), stably: a
/// permutation of the input in which no path comes before the one ahead of
/// it, and paths that do not come before one another keep their order.
pub fn sort_paths(paths: Vec<String>) -> (r: Vec<String>)
    ensures
        texts(r@).to_multiset() == texts(paths@).to_multiset(),
        paths_in_order(texts(r@)),
        exists|perm: Seq<int>| stable_rearrangement(texts(r@), texts(paths@), perm),
{
    broadcast use vstd::seq_lib::group_to_multiset_ensures;

    let ghost ps = texts(paths@);
    let mut sorted: Vec<String> = Vec::new();
    let mut i: usize = 0;
    let ghost mut perm: Seq<int> = Seq::empty();
    assert(ps.take(0) =~= Seq::<Seq<char>>::empty());
    assert(texts(sorted@) =~= Seq::<Seq<char>>::empty());
    while i < paths.len()
        invariant
            i <= paths@.len(),
            ps == texts(paths@),
            texts(sorted@).to_multiset() == ps.take(i as int).to_multiset(),
            paths_in_order(texts(sorted@)),
            stable_rearrangement(texts(sorted@), ps.take(i as int), perm),
        decreases paths.len() - i,
    {
        let x = paths[i].as_str();
        let mut p: usize = sorted.len();
        let mut done = false;
        while p > 0 && !done
            invariant
                p <= sorted@.len(),
                forall|j: int|
                    p <= j < sorted@.len() ==> !path_precedes(#[trigger] texts(sorted@)[j], x@)
                        && path_precedes(x@, texts(sorted@)[j]),
                done ==> p > 0 && !path_precedes(x@, texts(sorted@)[p - 1]),
            decreases p + (if done { 0int } else { 1int }),
        {
            assert(texts(sorted@)[p - 1] == sorted@[p - 1]@);
            if path_less(x, sorted[p - 1].as_str()) {
                p = p - 1;
            } else {
                done = true;
            }
        }
        let ghost before = texts(sorted@);
        assert(forall|j: int| p <= j < before.len() ==> !path_precedes(#[trigger] before[j], x@));
        assert(p > 0 ==> !path_precedes(x@, before[p - 1]));
        assert(paths_in_order(before));
        proof {
            if p > 0 {
                assert(before[p - 1] == sorted@[p - 1]@);
            }
            ps.take(i as int).to_multiset_ensures();
            lemma_insert_multiset(before, p as int, x@);
            assert(ps[i as int] == x@);
            assert(ps.take(i + 1) =~= ps.take(i as int).push(x@));
            assert(ps.take(i + 1).to_multiset() == ps.take(i as int).to_multiset().insert(x@));
        }
        sorted.insert(p, paths[i].clone());
        assert(texts(sorted@) =~= before.insert(p as int, x@));
        proof {
            let old_perm = perm;
            let t = texts(sorted@);
            let q = ps.take(i + 1);
            perm = old_perm.insert(p as int, i as int);
            assert(before.len() == i);
            assert forall|k: int| 0 <= k < t.len() implies 0 <= #[trigger] perm[k] < q.len() && t[k]
                == q[perm[k]] by {
                if k < p {
                    assert(perm[k] == old_perm[k] && t[k] == before[k]);
                    assert(ps.take(i as int)[old_perm[k]] == ps[old_perm[k]]);
                } else if k == p {
                    assert(perm[k] == i && t[k] == x@);
                } else {
                    assert(perm[k] == old_perm[k - 1] && t[k] == before[k - 1]);
                    assert(ps.take(i as int)[old_perm[k - 1]] == ps[old_perm[k - 1]]);
                }
            }
            assert forall|a: int, b: int| 0 <= a < b < t.len() implies #[trigger] perm[a]
                != #[trigger] perm[b] by {
                let oa = if a < p { a } else { a - 1 };
                let ob = if b < p { b } else { b - 1 };
                if a != p && b != p {
                    assert(perm[a] == old_perm[oa] && perm[b] == old_perm[ob]);
                    assert(old_perm[oa] != old_perm[ob]);
                } else if a == p {
                    assert(perm[b] == old_perm[ob]);
                    assert(0 <= old_perm[ob] < i);
                } else {
                    assert(perm[a] == old_perm[oa]);
                    assert(0 <= old_perm[oa] < i);
                }
            }
            assert forall|a: int, b: int| 0 <= a < b < t.len() && #[trigger] perm[a]
                > #[trigger] perm[b] implies path_precedes(t[a], t[b]) by {
                let oa = if a < p { a } else { a - 1 };
                let ob = if b < p { b } else { b - 1 };
                if a != p && b != p {
                    assert(perm[a] == old_perm[oa] && perm[b] == old_perm[ob]);
                    assert(t[a] == before[oa] && t[b] == before[ob]);
                    assert(old_perm[oa] > old_perm[ob]);
                } else if a == p {
                    assert(t[a] == x@ && t[b] == before[b - 1]);
                    assert(path_precedes(x@, texts(sorted@)[b]));
                } else {
                    assert(perm[b] == i);
                    assert(0 <= old_perm[oa] < i);
                }
            }
            assert(stable_rearrangement(t, q, perm));
        }
        assert(texts(sorted@).to_multiset() == ps.take(i + 1).to_multiset());
        assert(paths_in_order(texts(sorted@))) by {
            let t = texts(sorted@);
            assert forall|k: int| 0 <= k < t.len() - 1 implies !path_precedes(
                #[trigger] t[k + 1],
                t[k],
            ) by {
                if k + 1 < p {
                    assert(t[k] == before[k] && t[k + 1] == before[k + 1]);
                    assert(!path_precedes(before[k + 1], before[k]));
                } else if k + 1 == p {
                    assert(t[k + 1] == x@ && t[k] == before[k]);
                } else if k == p {
                    assert(t[k] == x@ && t[k + 1] == before[k]);
                } else {
                    assert(t[k] == before[k - 1] && t[k + 1] == before[k]);
                    assert(!path_precedes(before[(k - 1) + 1], before[k - 1]));
                }
            }
        }
        i = i + 1;
    }
    assert(ps.take(paths@.len() as int) =~= ps);
    assert(stable_rearrangement(texts(sorted@), ps, perm));
    sorted
}


/// One planned move: a source, its destination, and whether it will be
/// moved.
pub struct MovePlan {
    pub source: String,
    pub destination: String,
    pub ready: bool,
}

pub struct MovePlanView {
    pub source: Seq<char>,
    pub destination: Seq<char>,
    pub ready: bool,
}

impl View for MovePlan {
    type V = MovePlanView;

    open spec fn view(&self) -> MovePlanView {
        MovePlanView { source: self.source@, destination: self.destination@, ready: self.ready }
    }
}

/// The views of a sequence of plans.
pub open spec fn plan_views(s: Seq<MovePlan>) -> Seq<MovePlanView> {
    s.map_values(|p: MovePlan| p@)
}

/// The plan for moving `source` to `destination`: ready only when the two
/// are different paths and nothing exists at the destination.
pub open spec fn plan_spec(source: Seq<char>, destination: Seq<char>, destination_exists: bool) -> MovePlanView {
    MovePlanView { source, destination, ready: !same_path(source, destination) && !destination_exists }
}

/// The paths to scan for PDFs: those given, or the inboxes when none is.
pub fn move_inputs(inputs: Vec<String>, inboxes: &Vec<String>) -> (r: Vec<String>)
    ensures
        texts(r@) == if inputs@.len() == 0 {
            texts(inboxes@)
        } else {
            texts(inputs@)
        },
{
    if inputs.len() == 0 {
        let mut out: Vec<String> = Vec::new();
        let mut i: usize = 0;
        while i < inboxes.len()
            invariant
                i <= inboxes@.len(),
                texts(out@) == texts(inboxes@).take(i as int),
            decreases inboxes.len() - i,
        {
            let ghost before = texts(out@);
            out.push(inboxes[i].clone());
            assert(texts(out@) =~= before.push(inboxes@[i as int]@));
            assert(texts(out@) =~= texts(inboxes@).take(i + 1));
            i = i + 1;
        }
        assert(texts(inboxes@).take(inboxes@.len() as int) =~= texts(inboxes@));
        out
    } else {
        inputs
    }
}

/// Whether some location accepts PDFs.
pub fn has_move_destination(locations: &[Location]) -> (r: bool)
    ensures
        r == exists|i: int| 0 <= i < locations@.len() && (#[trigger] locations@[i]).move_here,
{
    let mut i: usize = 0;
    while i < locations.len()
        invariant
            i <= locations@.len(),
            forall|k: int| 0 <= k < i ==> !(#[trigger] locations@[k]).move_here,
        decreases locations.len() - i,
    {
        if locations[i].move_here {
            return true;
        }
        i = i + 1;
    }
    false
}

/// Where a source goes in `directory`: the directory joined with the
/// source's file name.
pub fn destination_for(source: &str, directory: &str) -> (r: Result<String, String>)
    ensures
        match r {
            Ok(d) => file_name_of(source@) matches Some(n) && d@ == join_path(directory@, n),
            Err(e) => file_name_of(source@) is None && e@ == "source has no filename"@,
        },
{
    match path_file_name(source) {
        Some(n) => Ok(join(directory, n.as_str())),
        None => Err(to_owned_string("source has no filename")),
    }
}

/// The plan for moving `source` to `destination`: ready only when the two
/// are different paths and nothing exists at the destination.
pub fn plan_move(source: String, destination: String, destination_exists: bool) -> (r: MovePlan)
    ensures
        r@ == plan_spec(source@, destination@, destination_exists),
{
    let same = paths_equal(source.as_str(), destination.as_str());
    MovePlan { source, destination, ready: !same && !destination_exists }
}

pub open spec fn plan_status_spec(ready: bool, source: Seq<char>, destination: Seq<char>) -> Seq<char> {
    if ready {
        "ready"@
    } else if same_path(source, destination) {
        "already there"@
    } else {
        "destination exists"@
    }
}

/// The line of the preview for a plan: its status, source and destination.
pub open spec fn preview_text(plan: MovePlanView) -> Seq<char> {
    "  ["@ + plan_status_spec(plan.ready, plan.source, plan.destination) + "] "@ + plan.source
        + " -> "@ + plan.destination
}

/// The line of the preview for a plan: its status, source and destination.
pub fn preview_line(plan: &MovePlan) -> (r: String)
    ensures
        r@ == preview_text(plan@),
{
    let mut s = to_owned_string("  [");
    if plan.ready {
        s.append("ready");
    } else if paths_equal(plan.source.as_str(), plan.destination.as_str()) {
        s.append("already there");
    } else {
        s.append("destination exists");
    }
    s.append("] ");
    s.append(plan.source.as_str());
    s.append(" -> ");
    s.append(plan.destination.as_str());
    s
}

/// The number of the first `k` plans that are ready.
pub open spec fn ready_count(plans: Seq<MovePlanView>, k: int) -> nat
    decreases k,
{
    if k <= 0 {
        0
    } else {
        ready_count(plans, k - 1) + if plans[k - 1].ready {
            1nat
        } else {
            0nat
        }
    }
}

/// How many plans are ready.
pub fn count_ready(plans: &[MovePlan]) -> (r: usize)
    ensures
        r == ready_count(plan_views(plans@), plans@.len() as int),
{
    let mut n: usize = 0;
    let mut i: usize = 0;
    while i < plans.len()
        invariant
            i <= plans@.len(),
            n == ready_count(plan_views(plans@), i as int),
            n <= i,
        decreases plans.len() - i,
    {
        if plans[i].ready {
            n = n + 1;
        }
        i = i + 1;
    }
    n
}

/// The closing line of a batch of moves.
pub open spec fn summary_text(moved: nat, failed: nat) -> Seq<char> {
    "Done: "@ + decimal(moved) + " moved, "@ + decimal(failed) + " failed."@
}

/// Whether a batch of moves failed: it fails when any move did.
pub open spec fn summary_outcome(failed: nat) -> Result<(), Seq<char>> {
    if failed == 0 {
        Ok(())
    } else {
        Err("one or more files could not be moved"@)
    }
}

/// The closing line of a batch of moves, and whether the batch failed:
/// it fails when any move did.
pub fn move_summary(moved: usize, failed: usize) -> (r: (String, Result<(), String>))
    ensures
        r.0@ == summary_text(moved as nat, failed as nat),
        r.1 is Ok <==> failed == 0,
        r.1 matches Err(e) ==> summary_outcome(failed as nat) == Err::<(), Seq<char>>(e@),
{
    let mut s = to_owned_string("Done: ");
    push_decimal(&mut s, moved);
    s.append(" moved, ");
    push_decimal(&mut s, failed);
    s.append(" failed.");
    if failed == 0 {
        (s, Ok(()))
    } else {
        (s, Err(to_owned_string("one or more files could not be moved")))
    }
}

/// What the file system says of one entry of a folder given as input: it
/// could not be read, or its path, whether it is a file, and the path it
/// resolves to (or why that failed).
pub enum FolderEntry {
    Unreadable(String),
    Entry { path: String, is_file: bool, canonical: Result<String, String> },
}

pub enum FolderEntryView {
    Unreadable(Seq<char>),
    Entry { path: Seq<char>, is_file: bool, canonical: Result<Seq<char>, Seq<char>> },
}

/// The view of a result that holds text either way.
pub open spec fn text_result(r: Result<String, String>) -> Result<Seq<char>, Seq<char>> {
    match r {
        Ok(t) => Ok(t@),
        Err(e) => Err(e@),
    }
}

impl View for FolderEntry {
    type V = FolderEntryView;

    open spec fn view(&self) -> FolderEntryView {
        match self {
            FolderEntry::Unreadable(e) => FolderEntryView::Unreadable(e@),
            FolderEntry::Entry { path, is_file, canonical } => FolderEntryView::Entry {
                path: path@,
                is_file: *is_file,
                canonical: text_result(*canonical),
            },
        }
    }
}

/// What the file system says of one input, at its path with `~` expanded:
/// a folder with its entries (or why they could not be listed), a file
/// with the path it resolves to (or why that failed), or something else.
pub enum InputKind {
    Folder(Result<Vec<FolderEntry>, String>),
    File(Result<String, String>),
    Other,
}

pub enum InputKindView {
    Folder(Result<Seq<FolderEntryView>, Seq<char>>),
    File(Result<Seq<char>, Seq<char>>),
    Other,
}

impl View for InputKind {
    type V = InputKindView;

    open spec fn view(&self) -> InputKindView {
        match self {
            InputKind::Folder(Ok(es)) => InputKindView::Folder(
                Ok(es@.map_values(|e: FolderEntry| e@)),
            ),
            InputKind::Folder(Err(e)) => InputKindView::Folder(Err(e@)),
            InputKind::File(c) => InputKindView::File(text_result(*c)),
            InputKind::Other => InputKindView::Other,
        }
    }
}

/// `found` with the PDF at `path` added by the path it resolves to, unless
/// that is already found; an error when it did not resolve.
pub open spec fn add_candidate(found: Seq<Seq<char>>, path: Seq<char>, canonical: Result<
    Seq<char>,
    Seq<char>,
>) -> Result<Seq<Seq<char>>, Seq<char>> {
    match canonical {
        Ok(c) => Ok(add_unique(found, c)),
        Err(e) => Err("cannot read "@ + path + ": "@ + e),
    }
}

/// `found` with the PDF files among the first `k` entries of the folder
/// `dir` added; the first entry that cannot be read, or PDF that does not
/// resolve, gives the error.
pub open spec fn scan_folder(found: Seq<Seq<char>>, dir: Seq<char>, entries: Seq<FolderEntryView>, k: int) -> Result<
    Seq<Seq<char>>,
    Seq<char>,
>
    decreases k,
{
    if k <= 0 {
        Ok(found)
    } else {
        match scan_folder(found, dir, entries, k - 1) {
            Err(e) => Err(e),
            Ok(f) => match entries[k - 1] {
                FolderEntryView::Unreadable(e) => Err("cannot read "@ + dir + ": "@ + e),
                FolderEntryView::Entry { path, is_file, canonical } => if is_file && is_pdf_spec(path) {
                    add_candidate(f, path, canonical)
                } else {
                    Ok(f)
                },
            },
        }
    }
}

/// The note for an input that is neither a folder nor a PDF file.
pub open spec fn skipped_note(path: Seq<char>) -> Seq<char> {
    "skipped: "@ + path + " (not a PDF file or directory)"@
}

/// The candidate PDFs of the first `k` inputs, unsorted, with the notes on
/// the inputs skipped before it stopped: a folder gives its PDF files, a
/// PDF file itself, anything else a note; each PDF by the path it resolves
/// to, once. The first input whose `~` cannot be expanded, folder that
/// cannot be read or PDF that does not resolve gives the error.
pub open spec fn collect_spec(inputs: Seq<Seq<char>>, home: Option<Seq<char>>, kinds: Seq<InputKindView>, k: int) -> (
    Seq<Seq<char>>,
    Result<Seq<Seq<char>>, Seq<char>>,
)
    decreases k,
{
    if k <= 0 {
        (Seq::empty(), Ok(Seq::empty()))
    } else {
        let prev = collect_spec(inputs, home, kinds, k - 1);
        match prev.1 {
            Err(e) => prev,
            Ok(found) => match expand_home_spec(inputs[k - 1], home) {
                Err(e) => (prev.0, Err(e)),
                Ok(path) => match kinds[k - 1] {
                    InputKindView::Folder(Err(e)) => (prev.0, Err("cannot read "@ + path + ": "@ + e)),
                    InputKindView::Folder(Ok(entries)) => (
                        prev.0,
                        scan_folder(found, path, entries, entries.len() as int),
                    ),
                    InputKindView::File(canonical) => if is_pdf_spec(path) {
                        (prev.0, add_candidate(found, path, canonical))
                    } else {
                        (prev.0.push(skipped_note(path)), Ok(found))
                    },
                    InputKindView::Other => (prev.0.push(skipped_note(path)), Ok(found)),
                },
            },
        }
    }
}

/// Whether `r` is `ps` sorted stably in the order of paths.
pub open spec fn sorted_paths_of(r: Seq<Seq<char>>, ps: Seq<Seq<char>>) -> bool {
    &&& r.to_multiset() == ps.to_multiset()
    &&& paths_in_order(r)
    &&& exists|perm: Seq<int>| stable_rearrangement(r, ps, perm)
}

fn copy_result(r: &Result<String, String>) -> (c: Result<String, String>)
    ensures
        text_result(c) == text_result(*r),
{
    match r {
        Ok(t) => Ok(t.clone()),
        Err(e) => Err(e.clone()),
    }
}

fn skipped_text(path: &str) -> (r: String)
    ensures
        r@ == skipped_note(path@),
{
    let mut s = to_owned_string("skipped: ");
    s.append(path);
    s.append(" (not a PDF file or directory)");
    s
}

fn read_error(path: &str, e: &str) -> (r: String)
    ensures
        r@ == "cannot read "@ + path@ + ": "@ + e@,
{
    let mut s = to_owned_string("cannot read ");
    s.append(path);
    s.append(": ");
    s.append(e);
    s
}

/// Adds the PDF files among the entries of the folder `dir` to `found`.
fn scan_entries(dir: &str, entries: &Vec<FolderEntry>, found: &mut Vec<String>) -> (r: Result<(), String>)
    ensures
        match r {
            Ok(()) => scan_folder(
                texts(old(found)@),
                dir@,
                entries@.map_values(|e: FolderEntry| e@),
                entries@.len() as int,
            ) == Ok::<Seq<Seq<char>>, Seq<char>>(texts(final(found)@)),
            Err(e) => scan_folder(
                texts(old(found)@),
                dir@,
                entries@.map_values(|e: FolderEntry| e@),
                entries@.len() as int,
            ) == Err::<Seq<Seq<char>>, Seq<char>>(e@),
        },
{
    let ghost start = texts(found@);
    let ghost es = entries@.map_values(|e: FolderEntry| e@);
    let mut i: usize = 0;
    while i < entries.len()
        invariant
            i <= entries@.len(),
            es == entries@.map_values(|e: FolderEntry| e@),
            start == texts(old(found)@),
            scan_folder(start, dir@, es, i as int) == Ok::<Seq<Seq<char>>, Seq<char>>(texts(found@)),
        decreases entries.len() - i,
    {
        assert(es[i as int] == entries@[i as int]@);
        match &entries[i] {
            FolderEntry::Unreadable(e) => {
                proof {
                    lemma_scan_error(start, dir@, es, i as int + 1);
                }
                return Err(read_error(dir, e.as_str()));
            },
            FolderEntry::Entry { path, is_file, canonical } => {
                if *is_file && is_pdf(path.as_str()) {
                    let r = add_source(path.as_str(), copy_result(canonical), found);
                    if r.is_err() {
                        proof {
                            lemma_scan_error(start, dir@, es, i as int + 1);
                        }
                        return r;
                    }
                }
            },
        }
        i = i + 1;
    }
    Ok(())
}

/// Once scanning a folder fails, the entries after it change nothing.
proof fn lemma_scan_error(found: Seq<Seq<char>>, dir: Seq<char>, entries: Seq<FolderEntryView>, k: int)
    requires
        0 < k <= entries.len(),
        scan_folder(found, dir, entries, k) is Err,
    ensures
        scan_folder(found, dir, entries, entries.len() as int) == scan_folder(found, dir, entries, k),
    decreases entries.len() - k,
{
    if k < entries.len() {
        lemma_scan_error(found, dir, entries, k + 1);
    }
}

/// Once collecting fails, the inputs after it change nothing.
proof fn lemma_collect_error(inputs: Seq<Seq<char>>, home: Option<Seq<char>>, kinds: Seq<InputKindView>, k: int)
    requires
        0 < k <= inputs.len(),
        collect_spec(inputs, home, kinds, k).1 is Err,
    ensures
        collect_spec(inputs, home, kinds, inputs.len() as int) == collect_spec(inputs, home, kinds, k),
    decreases inputs.len() - k,
{
    if k < inputs.len() {
        lemma_collect_error(inputs, home, kinds, k + 1);
    }
}

/// The candidate PDFs of the inputs, sorted in the order of paths, and
/// the notes on the inputs skipped before it stopped. `kinds` holds, for
/// each input in order, what the file system says of it with `~`
/// expanded by `home`.
pub fn collect_candidates(inputs: &Vec<String>, home: Option<&str>, kinds: &Vec<InputKind>) -> (r: (
    Vec<String>,
    Result<Vec<String>, String>,
))
    requires
        kinds@.len() == inputs@.len(),
    ensures
        ({
            let c = collect_spec(
                texts(inputs@),
                opt_view(home),
                kinds@.map_values(|k: InputKind| k@),
                inputs@.len() as int,
            );
            &&& texts(r.0@) == c.0
            &&& match r.1 {
                Ok(v) => c.1 matches Ok(f) && sorted_paths_of(texts(v@), f),
                Err(e) => c.1 == Err::<Seq<Seq<char>>, Seq<char>>(e@),
            }
        }),
{
    let ghost ins = texts(inputs@);
    let ghost ks = kinds@.map_values(|k: InputKind| k@);
    let ghost h = opt_view(home);
    let mut skipped: Vec<String> = Vec::new();
    let mut found: Vec<String> = Vec::new();
    let mut i: usize = 0;
    assert(texts(skipped@) =~= Seq::<Seq<char>>::empty());
    assert(texts(found@) =~= Seq::<Seq<char>>::empty());
    while i < inputs.len()
        invariant
            i <= inputs@.len(),
            kinds@.len() == inputs@.len(),
            ins == texts(inputs@),
            ks == kinds@.map_values(|k: InputKind| k@),
            h == opt_view(home),
            collect_spec(ins, h, ks, i as int) == (
                texts(skipped@),
                Ok::<Seq<Seq<char>>, Seq<char>>(texts(found@)),
            ),
        decreases inputs.len() - i,
    {
        assert(ins[i as int] == inputs@[i as int]@);
        assert(ks[i as int] == kinds@[i as int]@);
        let path = match expand_home(inputs[i].as_str(), home) {
            Ok(p) => p,
            Err(e) => {
                proof {
                    lemma_collect_error(ins, h, ks, i as int + 1);
                }
                return (skipped, Err(e));
            },
        };
        match &kinds[i] {
            InputKind::Folder(Err(e)) => {
                proof {
                    lemma_collect_error(ins, h, ks, i as int + 1);
                }
                return (skipped, Err(read_error(path.as_str(), e.as_str())));
            },
            InputKind::Folder(Ok(entries)) => {
                let r = scan_entries(path.as_str(), entries, &mut found);
                if let Err(e) = r {
                    proof {
                        lemma_collect_error(ins, h, ks, i as int + 1);
                    }
                    return (skipped, Err(e));
                }
            },
            InputKind::File(canonical) => {
                if is_pdf(path.as_str()) {
                    let r = add_source(path.as_str(), copy_result(canonical), &mut found);
                    if let Err(e) = r {
                        proof {
                            lemma_collect_error(ins, h, ks, i as int + 1);
                        }
                        return (skipped, Err(e));
                    }
                } else {
                    let ghost before = texts(skipped@);
                    skipped.push(skipped_text(path.as_str()));
                    assert(texts(skipped@) =~= before.push(skipped_note(path@)));
                }
            },
            InputKind::Other => {
                let ghost before = texts(skipped@);
                skipped.push(skipped_text(path.as_str()));
                assert(texts(skipped@) =~= before.push(skipped_note(path@)));
            },
        }
        i = i + 1;
    }
    let sorted = sort_paths(found);
    (skipped, Ok(sorted))
}

} // verus!
