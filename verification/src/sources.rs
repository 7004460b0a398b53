//! Choosing which PDFs to move: the candidates are listed as a menu of
//! files grouped by folder, and a line of codes (`A1 A3`, `a1,b2`) picks
//! some of them.
use vstd::prelude::*;

use crate::location::{Location, LocationView, texts, views};
use crate::paths::{folder_name, folder_name_spec, parent_of, path_parent};
use crate::picker::{resolve, resolve_spec, usage_message};
use crate::text::{eq_ignore_ascii_case, eq_ignore_case, is_ws, is_ws_char, push_char, str_eq, to_owned_string, trim, trim_ws};

verus! {

/// The menu entry of a candidate file: grouped by its folder, named by its
/// file name, and selectable in the move menu.
pub open spec fn source_location(p: Seq<char>) -> LocationView {
    LocationView {
        group: match parent_of(p) {
            Some(q) => q,
            None => p,
        },
        label: folder_name_spec(p),
        path: p,
        move_here: true,
        root: None,
        is_section_root: false,
    }
}

/// The menu entries of the candidate files, in order.
pub fn source_locations(sources: &Vec<String>) -> (r: Vec<Location>)
    ensures
        views(r@) == texts(sources@).map_values(|p: Seq<char>| source_location(p)),
{
    let mut out: Vec<Location> = Vec::new();
    let mut i: usize = 0;
    while i < sources.len()
        invariant
            i <= sources@.len(),
            views(out@) == texts(sources@).take(i as int).map_values(
                |p: Seq<char>| source_location(p),
            ),
        decreases sources.len() - i,
    {
        let p = sources[i].as_str();
        let group = match path_parent(p) {
            Some(q) => q,
            None => to_owned_string(p),
        };
        let label = folder_name(p);
        let ghost before = views(out@);
        out.push(
            Location {
                group,
                label,
                path: sources[i].clone(),
                move_here: true,
                root: None,
                is_section_root: false,
            },
        );
        assert(views(out@) =~= before.push(source_location(p@)));
        assert(texts(sources@).take(i + 1) =~= texts(sources@).take(i as int).push(p@));
        assert(views(out@) =~= texts(sources@).take(i + 1).map_values(
            |p: Seq<char>| source_location(p),
        ));
        i = i + 1;
    }
    assert(texts(sources@).take(sources@.len() as int) =~= texts(sources@));
    out
}

/// Codes are separated by white space or commas.
pub open spec fn is_code_sep(c: char) -> bool {
    is_ws(c) || c == ','
}

/// The codes written in `s`: its maximal runs of characters that are not
/// separators, in order.
pub open spec fn code_tokens(s: Seq<char>) -> Seq<Seq<char>>
    decreases s.len(),
{
    if s.len() == 0 {
        seq![]
    } else {
        let t = code_tokens(s.drop_last());
        let c = s.last();
        if is_code_sep(c) {
            t
        } else if s.len() >= 2 && !is_code_sep(s[s.len() - 2]) && t.len() > 0 {
            t.update(t.len() - 1, t.last().push(c))
        } else {
            t.push(seq![c])
        }
    }
}

/// Text ending in a code has a code.
proof fn lemma_code_tokens_nonempty(s: Seq<char>)
    requires
        s.len() > 0,
        !is_code_sep(s.last()),
    ensures
        code_tokens(s).len() > 0,
    decreases s.len(),
{
}

/// The paths chosen by the first `k` codes, each once, in the order of the
/// codes; the first code that picks nothing gives the error.
pub open spec fn selection_run(locs: Seq<LocationView>, codes: Seq<Seq<char>>, k: int) -> Result<
    Seq<Seq<char>>,
    Seq<char>,
>
    decreases k,
{
    if k <= 0 {
        Ok(seq![])
    } else {
        match selection_run(locs, codes, k - 1) {
            Err(e) => Err(e),
            Ok(ps) => match resolve_spec(locs, codes[k - 1], true) {
                Err(e) => Err(e),
                Ok(l) => Ok(
                    if ps.contains(l.path) {
                        ps
                    } else {
                        ps.push(l.path)
                    },
                ),
            },
        }
    }
}

/// What a line does at the file prompt: `None` cancels (an empty line, `q`
/// or Escape); otherwise the paths its codes choose, or, when a code picks
/// nothing or there is no code, why the line chooses nothing.
pub open spec fn select_sources_spec(locs: Seq<LocationView>, line: Seq<char>) -> Option<
    Result<Seq<Seq<char>>, Seq<char>>,
> {
    let choice = trim_ws(line);
    if choice.len() == 0 || eq_ignore_case(choice, "q"@) || choice == seq!['\x1b'] {
        None
    } else {
        let codes = code_tokens(choice);
        if codes.len() == 0 {
            Some(Err(usage_message()))
        } else {
            Some(selection_run(locs, codes, codes.len() as int))
        }
    }
}

/// What one line does at the file prompt.
pub enum SourceStep {
    /// Nothing is chosen and nothing moves.
    Cancel,
    /// These paths are chosen.
    Chosen(Vec<String>),
    /// The line chooses nothing, for this reason; the prompt asks again.
    Retry(String),
}

/// The codes written in `s`.
pub fn split_codes(s: &str) -> (r: Vec<String>)
    ensures
        texts(r@) == code_tokens(s@),
{
    let n = s.unicode_len();
    let mut out: Vec<String> = Vec::new();
    let mut i: usize = 0;
    assert(s@.take(0) =~= Seq::<char>::empty());
    assert(texts(out@) =~= Seq::<Seq<char>>::empty());
    while i < n
        invariant
            n == s@.len(),
            i <= n,
            texts(out@) == code_tokens(s@.take(i as int)),
        decreases n - i,
    {
        let c = s.get_char(i);
        let ghost t = s@.take(i + 1);
        assert(t.drop_last() =~= s@.take(i as int));
        assert(t.last() == c);
        if !(is_ws_char(c) || c == ',') {
            let joins = i >= 1 && !(is_ws_char(s.get_char(i - 1)) || s.get_char(i - 1) == ',');
            if joins {
                assert(t[t.len() - 2] == s@[i - 1]);
                proof {
                    lemma_code_tokens_nonempty(s@.take(i as int));
                }
                let ghost before = texts(out@);
                let mut last = out.pop().unwrap();
                push_char(&mut last, c);
                out.push(last);
                assert(texts(out@) =~= before.update(before.len() - 1, before.last().push(c)));
            } else {
                proof {
                    if i >= 1 {
                        assert(t[t.len() - 2] == s@[i - 1]);
                    }
                }
                let ghost before = texts(out@);
                let mut token = String::new();
                push_char(&mut token, c);
                out.push(token);
                assert(texts(out@) =~= before.push(seq![c]));
            }
        }
        i = i + 1;
    }
    assert(s@.take(n as int) =~= s@);
    out
}

/// The paths that codes choose, each once.
fn select_codes(locations: &[Location], codes: &Vec<String>) -> (r: Result<Vec<String>, String>)
    ensures
        match r {
            Ok(v) => selection_run(views(locations@), texts(codes@), codes@.len() as int) == Ok::<
                Seq<Seq<char>>,
                Seq<char>,
            >(texts(v@)),
            Err(e) => selection_run(views(locations@), texts(codes@), codes@.len() as int) == Err::<
                Seq<Seq<char>>,
                Seq<char>,
            >(e@),
        },
{
    let ghost locs = views(locations@);
    let mut chosen: Vec<String> = Vec::new();
    assert(texts(chosen@) =~= Seq::<Seq<char>>::empty());
    let mut i: usize = 0;
    while i < codes.len()
        invariant
            i <= codes@.len(),
            locs == views(locations@),
            selection_run(locs, texts(codes@), i as int) == Ok::<Seq<Seq<char>>, Seq<char>>(
                texts(chosen@),
            ),
        decreases codes.len() - i,
    {
        assert(texts(codes@)[i as int] == codes@[i as int]@);
        match resolve(locations, codes[i].as_str(), true) {
            Err(e) => {
                proof {
                    lemma_selection_error(locs, texts(codes@), i as int + 1);
                }
                return Err(e);
            },
            Ok(l) => {
                let mut present = false;
                let mut j: usize = 0;
                while j < chosen.len()
                    invariant
                        j <= chosen@.len(),
                        present == exists|k: int| 0 <= k < j && texts(chosen@)[k] == l.path@,
                    decreases chosen.len() - j,
                {
                    assert(texts(chosen@)[j as int] == chosen@[j as int]@);
                    if str_eq(chosen[j].as_str(), l.path.as_str()) {
                        present = true;
                    }
                    j = j + 1;
                }
                let ghost before = texts(chosen@);
                proof {
                    if present {
                        let k = choose|k: int| 0 <= k < j && texts(chosen@)[k] == l.path@;
                        assert(before.contains(l.path@));
                    } else {
                        assert(!before.contains(l.path@));
                    }
                }
                if !present {
                    let ghost p = l.path@;
                    chosen.push(l.path);
                    assert(texts(chosen@) =~= before.push(p));
                }
            },
        }
        i = i + 1;
    }
    Ok(chosen)
}

/// Once a code fails, the codes after it change nothing.
proof fn lemma_selection_error(locs: Seq<LocationView>, codes: Seq<Seq<char>>, k: int)
    requires
        0 < k <= codes.len(),
        selection_run(locs, codes, k) is Err,
    ensures
        selection_run(locs, codes, codes.len() as int) == selection_run(locs, codes, k),
    decreases codes.len() - k,
{
    if k < codes.len() {
        lemma_selection_error(locs, codes, k + 1);
    }
}

/// What one line does at the file prompt, over the menu entries of the
/// candidate files.
pub fn select_sources(locations: &[Location], line: &str) -> (r: SourceStep)
    ensures
        match r {
            SourceStep::Cancel => select_sources_spec(views(locations@), line@) is None,
            SourceStep::Chosen(v) => select_sources_spec(views(locations@), line@) == Some(
                Ok::<Seq<Seq<char>>, Seq<char>>(texts(v@)),
            ),
            SourceStep::Retry(e) => select_sources_spec(views(locations@), line@) == Some(
                Err::<Seq<Seq<char>>, Seq<char>>(e@),
            ),
        },
{
    let choice = trim(line);
    let escape = choice.unicode_len() == 1 && choice.get_char(0) == '\x1b';
    proof {
        if choice@ == seq!['\x1b'] {
            assert(choice@.len() == 1 && choice@[0] == '\x1b');
        }
        if escape {
            assert(choice@ =~= seq!['\x1b']);
        }
    }
    if choice.unicode_len() == 0 || eq_ignore_ascii_case(choice, "q") || escape {
        return SourceStep::Cancel;
    }
    let codes = split_codes(choice);
    if codes.len() == 0 {
        return SourceStep::Retry(to_owned_string("use a group letter and folder number, for example A1"));
    }
    match select_codes(locations, &codes) {
        Ok(v) => SourceStep::Chosen(v),
        Err(e) => SourceStep::Retry(e),
    }
}

} // verus!
