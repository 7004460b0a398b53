//! Laws of the library: properties that span functions or hold of every
//! input, proved over the specifications that the functions' contracts use.
use vstd::prelude::*;

use crate::config::{
    ChildEntryView, RootListingView, materialize_config_spec, sections_locations, SectionView, add_all_unique, add_unique, child_dirs, first_unlisted, listed,
    materialize_section_spec, pin_paths, resolve_all, resolve_section_path_spec, root_location,
    child_before, insert_child, section_location, section_paths, sort_children,
};
use crate::location::LocationView;
use crate::menu::{
    banner_spec, entries_text, entry_line, group_heading, group_root_path, group_text, groups_text,
    render_spec, visible,
};
use crate::sources::selection_run;
use crate::cli::{CommandView, parse_command_spec};
use crate::batch::{
    LineView, MoveActionView, MoveEventView, MoveStateView, first_ready, move_step_spec,
};
use crate::moves::{
    FolderEntryView, InputKindView, MovePlanView, ready_count, add_candidate, collect_spec, scan_folder,
};
use crate::paths::{parent_of, extension_of, file_name_of, is_pdf_spec, expand_home_spec, has_path_prefix, join_path, lowercase_of, same_path};
use crate::picker::{
    GroupView, climb, climb_all, entry_paths, shared_parent_spec,
    alpha_end, group_root_location, no_common_root, roots_are_open_only, entries_of, first_label_match, group_names, groups_spec, label_of, resolve_spec,
};
use crate::text::{
    all_digits, decimal, digits_value, eq_ignore_case, first_non_ws, fold_code, is_ascii_alpha,
    is_ascii_digit, is_ascii_upper, is_ws, last_non_ws, lemma_decimal_round_trip,
    lemma_text_lt_strict_total, trim_ws,
};

verus! {

/// The lower-case form of an ASCII capital; other characters unchanged.
pub open spec fn ascii_lower(c: char) -> char {
    if is_ascii_upper(c) {
        ((c as u32 + 32) as u8) as char
    } else {
        c
    }
}

/// `s` with its ASCII capitals in lower case.
pub open spec fn ascii_lower_text(s: Seq<char>) -> Seq<char> {
    s.map_values(|c: char| ascii_lower(c))
}

// ----- group codes ----------------------------------------------------------------

/// Every group code is a non-empty string of capitals `A`..`Z`.
pub proof fn law_group_label_letters(i: nat)
    ensures
        label_of(i).len() >= 1,
        forall|k: int| 0 <= k < label_of(i).len() ==> is_ascii_upper(#[trigger] label_of(i)[k]),
    decreases i,
{
    if i >= 26 {
        law_group_label_letters((i / 26 - 1) as nat);
        let p = label_of((i / 26 - 1) as nat);
        assert forall|k: int| 0 <= k < label_of(i).len() implies is_ascii_upper(
            #[trigger] label_of(i)[k],
        ) by {
            if k < p.len() {
                assert(label_of(i)[k] == p[k]);
            }
        }
    }
}

/// Different groups have different codes: the codes are a numeral in
/// bijective base 26.
pub proof fn law_group_labels_distinct(i: nat, j: nat)
    requires
        i != j,
    ensures
        label_of(i) != label_of(j),
    decreases i + j,
{
    law_group_label_letters(i);
    law_group_label_letters(j);
    if i < 26 && j < 26 {
        assert(label_of(i)[0] as u32 != label_of(j)[0] as u32);
    } else if i < 26 {
        law_group_label_letters((j / 26 - 1) as nat);
        assert(label_of(j).len() >= 2);
    } else if j < 26 {
        law_group_label_letters((i / 26 - 1) as nat);
        assert(label_of(i).len() >= 2);
    } else {
        let pi = (i / 26 - 1) as nat;
        let pj = (j / 26 - 1) as nat;
        if i % 26 != j % 26 {
            assert(label_of(i).last() as u32 != label_of(j).last() as u32);
        } else {
            assert(pi != pj);
            law_group_labels_distinct(pi, pj);
            assert(label_of(i).drop_last() =~= label_of(pi));
            assert(label_of(j).drop_last() =~= label_of(pj));
        }
    }
}

/// Two strings of capitals match in any case only when equal, and a string
/// of capitals matches the lower-case form of another only when equal.
pub proof fn lemma_capitals_match(a: Seq<char>, b: Seq<char>)
    requires
        forall|k: int| 0 <= k < a.len() ==> is_ascii_upper(#[trigger] a[k]),
        forall|k: int| 0 <= k < b.len() ==> is_ascii_upper(#[trigger] b[k]),
    ensures
        eq_ignore_case(a, b) <==> a == b,
        eq_ignore_case(a, ascii_lower_text(b)) <==> a == b,
{
    if eq_ignore_case(a, b) {
        assert forall|k: int| 0 <= k < a.len() implies a[k] == b[k] by {
            assert(fold_code(a[k]) == fold_code(b[k]));
            vstd::utf8::char_u32_cast(a[k], a[k] as u32);
            vstd::utf8::char_u32_cast(b[k], b[k] as u32);
        }
        assert(a =~= b);
    }
    if eq_ignore_case(a, ascii_lower_text(b)) {
        assert forall|k: int| 0 <= k < a.len() implies a[k] == b[k] by {
            assert(fold_code(a[k]) == fold_code(ascii_lower_text(b)[k]));
            vstd::utf8::char_u32_cast(a[k], a[k] as u32);
            vstd::utf8::char_u32_cast(b[k], b[k] as u32);
        }
        assert(a =~= b);
    }
    if a == b {
        assert forall|k: int| 0 <= k < a.len() implies fold_code(#[trigger] a[k]) == fold_code(
            ascii_lower_text(b)[k],
        ) by {}
    }
}

/// The group found for a code is the group that has it.
proof fn lemma_first_label_match(label: Seq<char>, g: int, h: int, count: int)
    requires
        0 <= h <= g < count,
        eq_ignore_case(label_of(g as nat), label),
        forall|x: int| h <= x < g ==> !eq_ignore_case(#[trigger] label_of(x as nat), label),
    ensures
        first_label_match(label, h, count) == Some(g),
    decreases g - h,
{
    if h < g {
        lemma_first_label_match(label, g, h + 1, count);
    }
}

// ----- selector parsing ------------------------------------------------------------

proof fn lemma_first_non_ws_at_start(s: Seq<char>)
    requires
        s.len() > 0,
        !is_ws(s[0]),
    ensures
        first_non_ws(s, 0) == 0,
{
}

proof fn lemma_last_non_ws_at_end(s: Seq<char>)
    requires
        s.len() > 0,
        !is_ws(s[s.len() - 1]),
    ensures
        last_non_ws(s, 0, s.len() as int) == s.len(),
{
}

/// A text that starts and ends with a visible character is its own trim.
pub proof fn lemma_trim_visible(s: Seq<char>)
    requires
        s.len() > 0,
        !is_ws(s[0]),
        !is_ws(s[s.len() - 1]),
    ensures
        trim_ws(s) == s,
{
    lemma_first_non_ws_at_start(s);
    lemma_last_non_ws_at_end(s);
    assert(s.subrange(0, s.len() as int) =~= s);
}

proof fn lemma_alpha_end(s: Seq<char>, i: int, l: int)
    requires
        0 <= i <= l <= s.len(),
        forall|k: int| i <= k < l ==> is_ascii_alpha(#[trigger] s[k]),
        l < s.len() ==> !is_ascii_alpha(s[l]),
    ensures
        alpha_end(s, i) == l,
    decreases l - i,
{
    if i < l {
        lemma_alpha_end(s, i + 1, l);
    }
}


/// How a code made of letters and a numeral reads: it is its own trim, its
/// letters are the group code, and its numeral is the position.
proof fn lemma_code_parse(label: Seq<char>, j: nat)
    requires
        label.len() >= 1,
        forall|k: int| 0 <= k < label.len() ==> is_ascii_alpha(#[trigger] label[k]),
    ensures
        ({
            let code = label + decimal(j);
            &&& trim_ws(code) == code
            &&& alpha_end(code, 0) == label.len()
            &&& code.take(label.len() as int) == label
            &&& trim_ws(code.skip(label.len() as int)) == decimal(j)
            &&& all_digits(decimal(j))
            &&& digits_value(decimal(j)) == j
        }),
{
    lemma_decimal_round_trip(j);
    let code = label + decimal(j);
    let d = decimal(j);
    assert(is_ascii_alpha(label[0]));
    assert(code[0] == label[0]);
    assert(is_ascii_digit(d[d.len() - 1]));
    assert(code[code.len() - 1] == d[d.len() - 1]);
    lemma_trim_visible(code);
    assert(is_ascii_digit(d[0]));
    assert(code[label.len() as int] == d[0]);
    assert forall|k: int| 0 <= k < label.len() implies is_ascii_alpha(#[trigger] code[k]) by {
        assert(code[k] == label[k]);
    }
    lemma_alpha_end(code, 0, label.len() as int);
    assert(code.take(label.len() as int) =~= label);
    assert(code.skip(label.len() as int) =~= d);
    lemma_trim_visible(d);
}

/// The code of the `g`-th group, as written or in lower case, finds the
/// `g`-th group.
proof fn lemma_code_finds_group(g: nat, count: int, lower: bool)
    requires
        g < count,
    ensures
        first_label_match(
            if lower {
                ascii_lower_text(label_of(g))
            } else {
                label_of(g)
            },
            0,
            count,
        ) == Some(g as int),
{
    let label = if lower {
        ascii_lower_text(label_of(g))
    } else {
        label_of(g)
    };
    law_group_label_letters(g);
    assert forall|x: int| 0 <= x < g implies !eq_ignore_case(#[trigger] label_of(x as nat), label) by {
        law_group_label_letters(x as nat);
        law_group_labels_distinct(x as nat, g);
        lemma_capitals_match(label_of(x as nat), label_of(g));
    }
    lemma_capitals_match(label_of(g), label_of(g));
    lemma_first_label_match(label, g as int, 0, count);
}

/// A group's code followed by a position (from 1) selects that entry of the
/// group, whether the letters are written in capitals or in lower case; in
/// the move menu the same code selects the same entry when it accepts
/// PDFs, and nothing otherwise.
pub proof fn law_codes_select_entries(locs: Seq<LocationView>, g: nat, j: nat, lower: bool)
    requires
        g < groups_spec(locs).len(),
        1 <= j <= groups_spec(locs)[g as int].entries.len(),
        j <= usize::MAX,
    ensures
        ({
            let code = (if lower {
                ascii_lower_text(label_of(g))
            } else {
                label_of(g)
            }) + decimal(j);
            let entry = locs[groups_spec(locs)[g as int].entries[j - 1] as int];
            &&& resolve_spec(locs, code, false) == Ok::<LocationView, Seq<char>>(entry)
            &&& (entry.move_here ==> resolve_spec(locs, code, true) == Ok::<
                LocationView,
                Seq<char>,
            >(entry))
            &&& (!entry.move_here ==> resolve_spec(locs, code, true) is Err)
        }),
{
    let label = if lower {
        ascii_lower_text(label_of(g))
    } else {
        label_of(g)
    };
    law_group_label_letters(g);
    assert forall|k: int| 0 <= k < label.len() implies is_ascii_alpha(#[trigger] label[k]) by {
        assert(is_ascii_upper(label_of(g)[k]));
    }
    lemma_code_parse(label, j);
    lemma_code_finds_group(g, groups_spec(locs).len() as int, lower);
}

/// The move menu picks exactly what the open menu picks when that accepts
/// PDFs: codes are shared, and root shortcuts are for opening only.
pub proof fn law_move_selection_is_open_selection(locs: Seq<LocationView>, input: Seq<char>)
    ensures
        resolve_spec(locs, input, true) matches Ok(l) ==> l.move_here && resolve_spec(
            locs,
            input,
            false,
        ) == Ok::<LocationView, Seq<char>>(l),
        resolve_spec(locs, input, false) matches Ok(l) ==> (l.move_here <==> resolve_spec(
            locs,
            input,
            true,
        ) == Ok::<LocationView, Seq<char>>(l)),
{
}


/// The code of a group followed by `0` opens the group's root in the open
/// menu, and is refused in the move menu.
pub proof fn law_zero_code_opens_root(locs: Seq<LocationView>, g: nat, lower: bool)
    requires
        g < groups_spec(locs).len(),
    ensures
        ({
            let code = (if lower {
                ascii_lower_text(label_of(g))
            } else {
                label_of(g)
            }) + decimal(0);
            &&& resolve_spec(locs, code, false) == match group_root_location(
                locs,
                groups_spec(locs)[g as int],
            ) {
                Some(l) => Ok::<LocationView, Seq<char>>(l),
                None => Err::<LocationView, Seq<char>>(no_common_root()),
            }
            &&& resolve_spec(locs, code, true) == Err::<LocationView, Seq<char>>(
                roots_are_open_only(),
            )
        }),
{
    let label = if lower {
        ascii_lower_text(label_of(g))
    } else {
        label_of(g)
    };
    law_group_label_letters(g);
    assert forall|k: int| 0 <= k < label.len() implies is_ascii_alpha(#[trigger] label[k]) by {
        assert(is_ascii_upper(label_of(g)[k]));
    }
    lemma_code_parse(label, 0);
    lemma_code_finds_group(g, groups_spec(locs).len() as int, lower);
}

// ----- groups ---------------------------------------------------------------------

proof fn lemma_group_names(locs: Seq<LocationView>, n: int)
    requires
        0 <= n <= locs.len(),
    ensures
        ({
            let names = group_names(locs, n);
            &&& forall|a: int, b: int|
                0 <= a < b < names.len() ==> #[trigger] names[a] != #[trigger] names[b]
            &&& forall|i: int| 0 <= i < n ==> names.contains(#[trigger] locs[i].group)
            &&& forall|x: int|
                0 <= x < names.len() ==> exists|i: int|
                    0 <= i < n && #[trigger] locs[i].group == #[trigger] names[x]
        }),
    decreases n,
{
    if n > 0 {
        lemma_group_names(locs, n - 1);
        let p = group_names(locs, n - 1);
        let names = group_names(locs, n);
        if !p.contains(locs[n - 1].group) {
            assert forall|a: int, b: int| 0 <= a < b < names.len() implies #[trigger] names[a]
                != #[trigger] names[b] by {
                if b == names.len() - 1 {
                    assert(names[a] == p[a]);
                    if names[a] == names[b] {
                        assert(p.contains(locs[n - 1].group));
                    }
                } else {
                    assert(names[a] == p[a] && names[b] == p[b]);
                }
            }
            assert forall|i: int| 0 <= i < n implies names.contains(#[trigger] locs[i].group) by {
                if i < n - 1 {
                    let x = choose|x: int| 0 <= x < p.len() && p[x] == locs[i].group;
                    assert(names[x] == p[x]);
                } else {
                    assert(names[names.len() - 1] == locs[i].group);
                }
            }
            assert forall|x: int| 0 <= x < names.len() implies exists|i: int|
                0 <= i < n && #[trigger] locs[i].group == #[trigger] names[x] by {
                if x < p.len() {
                    assert(names[x] == p[x]);
                    let i = choose|i: int| 0 <= i < n - 1 && #[trigger] locs[i].group == p[x];
                    assert(locs[i].group == names[x]);
                } else {
                    assert(locs[n - 1].group == names[x]);
                }
            }
        }
    }
}

proof fn lemma_entries_exact(locs: Seq<LocationView>, name: Seq<char>, n: int)
    requires
        0 <= n <= locs.len(),
        locs.len() <= usize::MAX,
    ensures
        ({
            let es = entries_of(locs, name, n);
            &&& forall|k: int|
                0 <= k < es.len() ==> #[trigger] es[k] < n && locs[es[k] as int].group == name
                    && !locs[es[k] as int].is_section_root
            &&& forall|a: int, b: int| 0 <= a < b < es.len() ==> #[trigger] es[a] < #[trigger] es[b]
            &&& forall|i: int|
                0 <= i < n && #[trigger] locs[i].group == name && !locs[i].is_section_root
                    ==> es.contains(i as usize)
        }),
    decreases n,
{
    if n > 0 {
        lemma_entries_exact(locs, name, n - 1);
        let p = entries_of(locs, name, n - 1);
        let es = entries_of(locs, name, n);
        if locs[n - 1].group == name && !locs[n - 1].is_section_root {
            assert(es == p.push((n - 1) as usize));
            assert forall|k: int| 0 <= k < es.len() implies #[trigger] es[k] < n && locs[es[k] as int].group
                == name && !locs[es[k] as int].is_section_root by {
                if k < p.len() {
                    assert(es[k] == p[k]);
                }
            }
            assert forall|a: int, b: int| 0 <= a < b < es.len() implies #[trigger] es[a]
                < #[trigger] es[b] by {
                assert(es[a] == p[a]);
                if b < p.len() {
                    assert(es[b] == p[b]);
                }
            }
            assert forall|i: int|
                0 <= i < n && #[trigger] locs[i].group == name && !locs[i].is_section_root implies es.contains(
                i as usize,
            ) by {
                if i < n - 1 {
                    let k = choose|k: int| 0 <= k < p.len() && p[k] == i as usize;
                    assert(es[k] == p[k]);
                } else {
                    assert(es[es.len() - 1] == (n - 1) as usize);
                }
            }
        }
    }
}

/// The groups partition the locations: their names are distinct, every
/// location's group is among them, and the entries of a group are exactly
/// its locations that are not a section root, in their order.
pub proof fn law_groups_partition(locs: Seq<LocationView>)
    requires
        locs.len() <= usize::MAX,
    ensures
        ({
            let gs = groups_spec(locs);
            &&& forall|a: int, b: int|
                0 <= a < b < gs.len() ==> #[trigger] gs[a].name != #[trigger] gs[b].name
            &&& forall|i: int|
                0 <= i < locs.len() ==> exists|g: int|
                    0 <= g < gs.len() && #[trigger] gs[g].name == #[trigger] locs[i].group
            &&& forall|g: int, k: int|
                0 <= g < gs.len() && 0 <= k < gs[g].entries.len() ==> #[trigger] gs[g].entries[k]
                    < locs.len() && locs[gs[g].entries[k] as int].group == gs[g].name
                    && !locs[gs[g].entries[k] as int].is_section_root
            &&& forall|g: int, a: int, b: int|
                0 <= g < gs.len() && 0 <= a < b < gs[g].entries.len() ==> #[trigger] gs[g].entries[a]
                    < #[trigger] gs[g].entries[b]
            &&& forall|g: int, i: int|
                0 <= g < gs.len() && 0 <= i < locs.len() && #[trigger] locs[i].group == #[trigger] gs[g].name
                    && !locs[i].is_section_root ==> gs[g].entries.contains(i as usize)
        }),
{
    let n = locs.len() as int;
    let names = group_names(locs, n);
    let gs = groups_spec(locs);
    lemma_group_names(locs, n);
    assert forall|a: int, b: int| 0 <= a < b < gs.len() implies #[trigger] gs[a].name
        != #[trigger] gs[b].name by {
        assert(gs[a].name == names[a] && gs[b].name == names[b]);
    }
    assert forall|i: int| 0 <= i < locs.len() implies exists|g: int|
        0 <= g < gs.len() && #[trigger] gs[g].name == #[trigger] locs[i].group by {
        assert(names.contains(locs[i].group));
        let g = choose|g: int| 0 <= g < names.len() && names[g] == locs[i].group;
        assert(gs[g].name == locs[i].group);
    }
    assert forall|g: int, k: int| 0 <= g < gs.len() && 0 <= k < gs[g].entries.len() implies #[trigger] gs[g].entries[k]
        < locs.len() && locs[gs[g].entries[k] as int].group == gs[g].name
        && !locs[gs[g].entries[k] as int].is_section_root by {
        lemma_entries_exact(locs, names[g], n);
        assert(gs[g].entries == entries_of(locs, names[g], n));
    }
    assert forall|g: int, a: int, b: int|
        0 <= g < gs.len() && 0 <= a < b < gs[g].entries.len() implies #[trigger] gs[g].entries[a]
        < #[trigger] gs[g].entries[b] by {
        lemma_entries_exact(locs, names[g], n);
        assert(gs[g].entries == entries_of(locs, names[g], n));
    }
    assert forall|g: int, i: int|
        0 <= g < gs.len() && 0 <= i < locs.len() && #[trigger] locs[i].group == #[trigger] gs[g].name
            && !locs[i].is_section_root implies gs[g].entries.contains(i as usize) by {
        lemma_entries_exact(locs, names[g], n);
        assert(gs[g].entries == entries_of(locs, names[g], n));
    }
}


// ----- sections -------------------------------------------------------------------

/// No path of `ps` is the same path as one before it.
pub open spec fn no_repeats(ps: Seq<Seq<char>>) -> bool {
    forall|a: int, b: int| 0 <= a < b < ps.len() ==> !same_path(#[trigger] ps[b], #[trigger] ps[a])
}

proof fn lemma_add_unique(ps: Seq<Seq<char>>, p: Seq<char>)
    requires
        no_repeats(ps),
    ensures
        no_repeats(add_unique(ps, p)),
        add_unique(ps, p).len() >= ps.len(),
        add_unique(ps, p).take(ps.len() as int) == ps,
{
    let r = add_unique(ps, p);
    if !listed(ps, p) {
        assert forall|a: int, b: int| 0 <= a < b < r.len() implies !same_path(
            #[trigger] r[b],
            #[trigger] r[a],
        ) by {
            assert(r[a] == ps[a]);
            if b < ps.len() {
                assert(r[b] == ps[b]);
            } else {
                assert(r[b] == p);
                assert(!same_path(p, ps[a]));
            }
        }
    }
    assert(r.take(ps.len() as int) =~= ps);
}

proof fn lemma_add_all_unique(ps: Seq<Seq<char>>, qs: Seq<Seq<char>>, k: int)
    requires
        no_repeats(ps),
        0 <= k <= qs.len(),
    ensures
        no_repeats(add_all_unique(ps, qs, k)),
        add_all_unique(ps, qs, k).len() >= ps.len(),
        add_all_unique(ps, qs, k).take(ps.len() as int) == ps,
    decreases k,
{
    if k <= 0 {
        assert(ps.take(ps.len() as int) =~= ps);
    } else {
        lemma_add_all_unique(ps, qs, k - 1);
        let prev = add_all_unique(ps, qs, k - 1);
        lemma_add_unique(prev, qs[k - 1]);
        let r = add_all_unique(ps, qs, k);
        assert(r.take(prev.len() as int) == prev);
        assert(r.take(ps.len() as int) =~= prev.take(ps.len() as int));
    }
}

/// The paths of a section's pins lie below its root, are not the root, and
/// are each listed once.
pub proof fn law_pins_below_root(root: Seq<char>, pins: Seq<Seq<char>>, home: Option<Seq<char>>, k: int)
    requires
        0 <= k <= pins.len(),
    ensures
        pin_paths(root, pins, home, k) matches Ok(ps) ==> no_repeats(ps) && forall|j: int|
            0 <= j < ps.len() ==> has_path_prefix(#[trigger] ps[j], root) && !same_path(ps[j], root),
    decreases k,
{
    if k > 0 {
        law_pins_below_root(root, pins, home, k - 1);
        if let Ok(prev) = pin_paths(root, pins, home, k - 1) {
            if let Ok(p) = resolve_section_path_spec(root, pins[k - 1], home) {
                if !same_path(p, root) {
                    lemma_add_unique(prev, p);
                    let r = add_unique(prev, p);
                    assert forall|j: int| 0 <= j < r.len() implies has_path_prefix(
                        #[trigger] r[j],
                        root,
                    ) && !same_path(r[j], root) by {
                        if j < prev.len() {
                            assert(r[j] == prev[j]);
                        }
                    }
                }
            }
        }
    }
}

/// Whether the listing of a section's root shows `name` as a folder that is
/// not hidden.
pub open spec fn listed_folder(listing: RootListingView, name: Seq<char>) -> bool {
    &&& listing.entries is Ok
    &&& exists|i: int|
        0 <= i < listing.entries->Ok_0.len() && #[trigger] listing.entries->Ok_0[i]
            == ChildEntryView::Entry { name, is_dir: Ok(true) }
    &&& !(name.len() > 0 && name[0] == '.')
}

/// The names that the listing gives as folders are its folders that are
/// not hidden.
proof fn lemma_child_dirs_listed(root: Seq<char>, listing: RootListingView, k: int)
    requires
        listing.entries is Ok,
        0 <= k <= listing.entries->Ok_0.len(),
    ensures
        child_dirs(root, listing.entries->Ok_0, k) matches Ok(ns) ==> forall|j: int|
            0 <= j < ns.len() ==> listed_folder(listing, #[trigger] ns[j]),
    decreases k,
{
    let es = listing.entries->Ok_0;
    if k > 0 {
        lemma_child_dirs_listed(root, listing, k - 1);
        if let Ok(ns) = child_dirs(root, es, k) {
            let prev = child_dirs(root, es, k - 1)->Ok_0;
            assert forall|j: int| 0 <= j < ns.len() implies listed_folder(listing, #[trigger] ns[j]) by {
                if j < prev.len() {
                    assert(ns[j] == prev[j]);
                } else {
                    assert(es[k - 1] == ChildEntryView::Entry { name: ns[j], is_dir: Ok(true) });
                }
            }
        }
    }
}

/// What `add_all_unique` gives holds only paths it was given.
proof fn lemma_add_all_unique_from(ps: Seq<Seq<char>>, qs: Seq<Seq<char>>, k: int)
    requires
        0 <= k <= qs.len(),
    ensures
        forall|x: int|
            0 <= x < add_all_unique(ps, qs, k).len() ==> ps.contains(
                #[trigger] add_all_unique(ps, qs, k)[x],
            ) || exists|j: int| 0 <= j < k && qs[j] == add_all_unique(ps, qs, k)[x],
    decreases k,
{
    if k > 0 {
        lemma_add_all_unique_from(ps, qs, k - 1);
        let prev = add_all_unique(ps, qs, k - 1);
        let r = add_all_unique(ps, qs, k);
        assert forall|x: int| 0 <= x < r.len() implies ps.contains(#[trigger] r[x]) || exists|j: int|
            0 <= j < k && qs[j] == r[x] by {
            if x < prev.len() {
                assert(r[x] == prev[x]);
                if !ps.contains(prev[x]) {
                    let j = choose|j: int| 0 <= j < k - 1 && qs[j] == prev[x];
                    assert(0 <= j < k && qs[j] == r[x]);
                }
            } else {
                assert(r[x] == qs[k - 1]);
            }
        }
    }
}

/// What a section becomes: its root first, as a section root; then each
/// path of the section once, in its group, with the section's root; first
/// the pins, which lie below the root; each of the others the root joined
/// with the name of a folder that the root's listing shows; every
/// `move_here` path among them, and exactly the paths named by `move_here`
/// accepting PDFs.
pub proof fn law_section_locations(sec: SectionView, home: Option<Seq<char>>, listing: RootListingView)
    requires
        materialize_section_spec(sec, home, listing) is Ok,
    ensures
        ({
            let locs = materialize_section_spec(sec, home, listing)->Ok_0;
            let root = expand_home_spec(sec.root, home)->Ok_0;
            &&& locs.len() >= 1
            &&& locs[0] == root_location(root)
            &&& forall|k: int|
                1 <= k < locs.len() ==> (#[trigger] locs[k]).group == root && locs[k].root == Some(
                    root,
                ) && !locs[k].is_section_root
            &&& forall|a: int, b: int|
                1 <= a < b < locs.len() ==> !same_path(
                    (#[trigger] locs[b]).path,
                    (#[trigger] locs[a]).path,
                )
            &&& pin_paths(root, sec.pins, home, sec.pins.len() as int) matches Ok(pp) && pp.len()
                < locs.len() && forall|j: int|
                0 <= j < pp.len() ==> locs[j + 1].path == #[trigger] pp[j] && has_path_prefix(
                    pp[j],
                    root,
                )
            &&& forall|k: int|
                1 <= k < locs.len() ==> has_path_prefix((#[trigger] locs[k]).path, root) || exists|
                    n: Seq<char>,
                | #[trigger] listed_folder(listing, n) && locs[k].path == join_path(root, n)
            &&& resolve_all(root, sec.move_here, home, sec.move_here.len() as int) matches Ok(ms)
                && (forall|x: int|
                0 <= x < ms.len() ==> exists|k: int|
                    1 <= k < locs.len() && same_path(#[trigger] ms[x], (#[trigger] locs[k]).path))
                && forall|k: int|
                1 <= k < locs.len() ==> ((#[trigger] locs[k]).move_here == listed(ms, locs[k].path))
        }),
{
    let locs = materialize_section_spec(sec, home, listing)->Ok_0;
    let root = expand_home_spec(sec.root, home)->Ok_0;
    let pp = pin_paths(root, sec.pins, home, sec.pins.len() as int)->Ok_0;
    let ps = section_paths(root, sec, home, listing)->Ok_0;
    let ms = resolve_all(root, sec.move_here, home, sec.move_here.len() as int)->Ok_0;
    law_pins_below_root(root, sec.pins, home, sec.pins.len() as int);
    assert(no_repeats(ps) && ps.len() >= pp.len() && ps.take(pp.len() as int) == pp) by {
        if sec.children {
            let es = listing.entries->Ok_0;
            let names = child_dirs(root, es, es.len() as int)->Ok_0;
            let sorted = sort_children(names);
            lemma_add_all_unique(
                pp,
                sorted.map_values(|n: Seq<char>| join_path(root, n)),
                sorted.len() as int,
            );
        } else {
            assert(pp.take(pp.len() as int) =~= pp);
        }
    }
    assert(locs == seq![root_location(root)] + ps.map_values(
        |p: Seq<char>| section_location(root, p, ms),
    ));
    assert forall|a: int, b: int| 1 <= a < b < locs.len() implies !same_path(
        (#[trigger] locs[b]).path,
        (#[trigger] locs[a]).path,
    ) by {
        assert(locs[a].path == ps[a - 1] && locs[b].path == ps[b - 1]);
    }
    assert forall|j: int| 0 <= j < pp.len() implies locs[j + 1].path == #[trigger] pp[j]
        && has_path_prefix(pp[j], root) by {
        assert(ps.take(pp.len() as int)[j] == ps[j]);
    }
    assert forall|k: int| 1 <= k < locs.len() implies has_path_prefix((#[trigger] locs[k]).path, root)
        || exists|n: Seq<char>| #[trigger] listed_folder(listing, n) && locs[k].path == join_path(
        root,
        n,
    ) by {
        let p = ps[k - 1];
        assert(locs[k].path == p);
        if sec.children {
            let es = listing.entries->Ok_0;
            let names = child_dirs(root, es, es.len() as int)->Ok_0;
            let sorted = sort_children(names);
            let qs = sorted.map_values(|n: Seq<char>| join_path(root, n));
            lemma_add_all_unique_from(pp, qs, sorted.len() as int);
            if pp.contains(p) {
                let j = choose|j: int| 0 <= j < pp.len() && pp[j] == p;
                assert(has_path_prefix(pp[j], root));
            } else {
                let j = choose|j: int| 0 <= j < sorted.len() && qs[j] == p;
                law_children_sorted(names);
                broadcast use vstd::seq_lib::group_to_multiset_ensures;
                assert(sorted.contains(sorted[j]));
                assert(sorted.to_multiset().count(sorted[j]) > 0);
                assert(names.to_multiset().count(sorted[j]) > 0);
                assert(names.contains(sorted[j]));
                let i = choose|i: int| 0 <= i < names.len() && names[i] == sorted[j];
                lemma_child_dirs_listed(root, listing, es.len() as int);
                assert(listed_folder(listing, names[i]));
                assert(p == join_path(root, sorted[j]));
            }
        } else {
            assert(ps == pp);
            assert(has_path_prefix(pp[k - 1], root));
        }
    }
    assert(first_unlisted(ms, ps, 0) is None);
    assert forall|x: int| 0 <= x < ms.len() implies exists|k: int|
        1 <= k < locs.len() && same_path(#[trigger] ms[x], (#[trigger] locs[k]).path) by {
        lemma_first_unlisted_none(ms, ps, 0, x);
        let j = choose|j: int| 0 <= j < ps.len() && same_path(ms[x], #[trigger] ps[j]);
        assert(locs[j + 1].path == ps[j]);
    }
}

/// When no path of `ms` from the `i`-th on is unlisted, each of them is
/// listed.
proof fn lemma_first_unlisted_none(ms: Seq<Seq<char>>, ps: Seq<Seq<char>>, i: int, x: int)
    requires
        0 <= i <= x < ms.len(),
        first_unlisted(ms, ps, i) is None,
    ensures
        listed(ps, ms[x]),
    decreases x - i,
{
    if i < x {
        lemma_first_unlisted_none(ms, ps, i + 1, x);
    }
}


// ----- order of listed children ----------------------------------------------------------

/// Whether no child of `s` is listed before the one ahead of it.
pub open spec fn children_in_order(s: Seq<Seq<char>>) -> bool {
    forall|i: int| 0 <= i < s.len() - 1 ==> !child_before(#[trigger] s[i + 1], s[i])
}

/// The order of children is asymmetric.
pub proof fn lemma_child_before_asymmetric(a: Seq<char>, b: Seq<char>)
    ensures
        child_before(a, b) ==> !child_before(b, a),
{
    lemma_text_lt_strict_total(lowercase_of(a), lowercase_of(b));
    lemma_text_lt_strict_total(a, b);
}

proof fn lemma_insert_child(x: Seq<char>, t: Seq<Seq<char>>)
    requires
        children_in_order(t),
    ensures
        ({
            let r = insert_child(x, t);
            &&& children_in_order(r)
            &&& r.to_multiset() == t.to_multiset().insert(x)
            &&& r.len() == t.len() + 1
            &&& (r.last() == x || (t.len() > 0 && r.last() == t.last()))
        }),
    decreases t.len(),
{
    broadcast use vstd::seq_lib::group_to_multiset_ensures;

    if t.len() == 0 {
        assert(insert_child(x, t) =~= t.push(x));
    } else if child_before(x, t.last()) {
        let u = t.drop_last();
        assert(children_in_order(u)) by {
            assert forall|i: int| 0 <= i < u.len() - 1 implies !child_before(#[trigger] u[i + 1], u[i]) by {
                assert(u[i + 1] == t[i + 1] && u[i] == t[i]);
            }
        }
        lemma_insert_child(x, u);
        let r0 = insert_child(x, u);
        let r = insert_child(x, t);
        assert(r == r0.push(t.last()));
        lemma_child_before_asymmetric(x, t.last());
        assert forall|i: int| 0 <= i < r.len() - 1 implies !child_before(#[trigger] r[i + 1], r[i]) by {
            if i < r0.len() - 1 {
                assert(r[i + 1] == r0[i + 1] && r[i] == r0[i]);
            } else {
                assert(r[i] == r0.last() && r[i + 1] == t.last());
                if r0.last() != x {
                    assert(r0.last() == u.last());
                    assert(u.last() == t[t.len() - 2]);
                    assert(!child_before(t[(t.len() - 2) + 1], t[t.len() - 2]));
                }
            }
        }
        assert(t =~= u.push(t.last()));
        assert(t.to_multiset() == u.to_multiset().insert(t.last()));
        assert(r.to_multiset() == r0.to_multiset().insert(t.last()));
        assert(r.to_multiset() =~= t.to_multiset().insert(x));
    } else {
        let r = insert_child(x, t);
        assert(r == t.push(x));
        assert forall|i: int| 0 <= i < r.len() - 1 implies !child_before(#[trigger] r[i + 1], r[i]) by {
            if i < t.len() - 1 {
                assert(r[i + 1] == t[i + 1] && r[i] == t[i]);
            }
        }
    }
}

/// Children are listed in their order: the sort keeps every child, and no
/// child comes before the one ahead of it.
pub proof fn law_children_sorted(s: Seq<Seq<char>>)
    ensures
        sort_children(s).to_multiset() == s.to_multiset(),
        children_in_order(sort_children(s)),
    decreases s.len(),
{
    broadcast use vstd::seq_lib::group_to_multiset_ensures;

    if s.len() > 0 {
        law_children_sorted(s.drop_last());
        lemma_insert_child(s.last(), sort_children(s.drop_last()));
        assert(s =~= s.drop_last().push(s.last()));
        assert(s.to_multiset() == s.drop_last().to_multiset().insert(s.last()));
    }
}


// ----- configuration ---------------------------------------------------------------

proof fn lemma_sections_keep_prefix(
    locs: Seq<LocationView>,
    sections: Seq<SectionView>,
    home: Option<Seq<char>>,
    listings: Seq<RootListingView>,
    k: int,
)
    ensures
        sections_locations(locs, sections, home, listings, k) matches Ok(all) ==> all.len()
            >= locs.len() && all.take(locs.len() as int) == locs,
    decreases k,
{
    if k <= 0 {
        assert(locs.take(locs.len() as int) =~= locs);
    } else {
        lemma_sections_keep_prefix(locs, sections, home, listings, k - 1);
        if let Ok(acc) = sections_locations(locs, sections, home, listings, k - 1) {
            if let Ok(more) = materialize_section_spec(sections[k - 1], home, listings[k - 1]) {
                assert((acc + more).take(locs.len() as int) =~= acc.take(locs.len() as int));
            }
        }
    }
}

/// A configuration that is accepted has version 1 or 2, sections only in
/// version 2, its inboxes unchanged, at least one location, and its flat
/// locations first, unchanged.
pub proof fn law_config_accepted(
    version: u32,
    inboxes: Seq<Seq<char>>,
    locations: Seq<LocationView>,
    sections: Seq<SectionView>,
    home: Option<Seq<char>>,
    listings: Seq<RootListingView>,
)
    requires
        materialize_config_spec(version, inboxes, locations, sections, home, listings) is Ok,
    ensures
        ({
            let c = materialize_config_spec(version, inboxes, locations, sections, home, listings)->Ok_0;
            &&& 1 <= version <= 2
            &&& sections.len() > 0 ==> version == 2
            &&& c.inboxes == inboxes
            &&& c.locations.len() >= 1
            &&& c.locations.len() >= locations.len()
            &&& c.locations.take(locations.len() as int) == locations
        }),
{
    lemma_sections_keep_prefix(locations, sections, home, listings, sections.len() as int);
}


// ----- choosing files ---------------------------------------------------------------

/// A selector that the move menu accepts picks one of the listed locations,
/// one that accepts PDFs.
pub proof fn law_move_selection_is_listed(locs: Seq<LocationView>, input: Seq<char>)
    requires
        locs.len() <= usize::MAX,
    ensures
        resolve_spec(locs, input, true) matches Ok(l) ==> l.move_here && exists|i: int|
            0 <= i < locs.len() && #[trigger] locs[i] == l,
{
    if let Ok(l) = resolve_spec(locs, input, true) {
        let choice = trim_ws(input);
        let k = alpha_end(choice, 0);
        let label = choice.take(k);
        let number = trim_ws(choice.skip(k));
        let gs = groups_spec(locs);
        let g = first_label_match(label, 0, gs.len() as int)->Some_0;
        lemma_first_label_match_in_range(label, 0, gs.len() as int);
        let grp = gs[g];
        let v = digits_value(number);
        crate::picker::lemma_entries_in_range(locs, grp.name, locs.len() as int);
        let i = grp.entries[v - 1] as int;
        assert(locs[i] == l);
    }
}

proof fn lemma_first_label_match_in_range(label: Seq<char>, g: int, count: int)
    ensures
        first_label_match(label, g, count) matches Some(x) ==> 0 <= g <= x < count,
    decreases count - g,
{
    if 0 <= g < count && !eq_ignore_case(label_of(g as nat), label) {
        lemma_first_label_match_in_range(label, g + 1, count);
    }
}

/// Choosing files: every file chosen is one of the candidates, offered for
/// moving, and each is chosen once however often its code is given.
pub proof fn law_file_selection(locs: Seq<LocationView>, codes: Seq<Seq<char>>, k: int)
    requires
        locs.len() <= usize::MAX,
        0 <= k <= codes.len(),
    ensures
        selection_run(locs, codes, k) matches Ok(ps) ==> (forall|a: int, b: int|
            0 <= a < b < ps.len() ==> #[trigger] ps[a] != #[trigger] ps[b]) && forall|x: int|
            0 <= x < ps.len() ==> exists|i: int|
                0 <= i < locs.len() && (#[trigger] locs[i]).path == #[trigger] ps[x]
                    && locs[i].move_here,
    decreases k,
{
    if k > 0 {
        law_file_selection(locs, codes, k - 1);
        law_move_selection_is_listed(locs, codes[k - 1]);
        if let Ok(prev) = selection_run(locs, codes, k - 1) {
            if let Ok(l) = resolve_spec(locs, codes[k - 1], true) {
                if !prev.contains(l.path) {
                    let ps = prev.push(l.path);
                    assert forall|a: int, b: int| 0 <= a < b < ps.len() implies #[trigger] ps[a]
                        != #[trigger] ps[b] by {
                        assert(ps[a] == prev[a]);
                        if b < prev.len() {
                            assert(ps[b] == prev[b]);
                        } else if ps[a] == ps[b] {
                            assert(prev.contains(l.path));
                        }
                    }
                    assert forall|x: int| 0 <= x < ps.len() implies exists|i: int|
                        0 <= i < locs.len() && (#[trigger] locs[i]).path == #[trigger] ps[x]
                            && locs[i].move_here by {
                        if x < prev.len() {
                            assert(ps[x] == prev[x]);
                        } else {
                            let i = choose|i: int| 0 <= i < locs.len() && #[trigger] locs[i] == l;
                            assert(locs[i].path == ps[x]);
                        }
                    }
                }
            }
        }
    }
}


// ----- the menu and its codes -----------------------------------------------------------

/// `whole` is `before`, then `part`, then `after`.
pub open spec fn splits(whole: Seq<char>, before: Seq<char>, part: Seq<char>, after: Seq<char>) -> bool {
    whole == before + part + after
}

/// The lines of the first `n` entries of a group begin with those of the
/// first `k`.
proof fn lemma_entries_text_prefix(
    locs: Seq<LocationView>,
    grp: GroupView,
    parent: Option<Seq<char>>,
    move_only: bool,
    color: bool,
    home: Option<Seq<char>>,
    k: int,
    n: int,
) -> (rest: Seq<char>)
    requires
        0 <= k <= n,
    ensures
        entries_text(locs, grp, parent, move_only, color, home, n) == entries_text(
            locs,
            grp,
            parent,
            move_only,
            color, home,
            k,
        ) + rest,
    decreases n - k,
{
    if k == n {
        assert(entries_text(locs, grp, parent, move_only, color, home, n) =~= entries_text(
            locs,
            grp,
            parent,
            move_only,
            color, home,
            k,
        ) + Seq::<char>::empty());
        Seq::<char>::empty()
    } else {
        let r = lemma_entries_text_prefix(locs, grp, parent, move_only, color, home, k, n - 1);
        let l = locs[grp.entries[n - 1] as int];
        let last = if !move_only || l.move_here {
            entry_line(parent, l.path, (n - 1) as nat, color, home)
        } else {
            Seq::<char>::empty()
        };
        assert(entries_text(locs, grp, parent, move_only, color, home, n) =~= entries_text(
            locs,
            grp,
            parent,
            move_only,
            color, home,
            k,
        ) + (r + last));
        r + last
    }
}

/// The blocks of the first `n` groups begin with those of the first `k`.
proof fn lemma_groups_text_prefix(
    locs: Seq<LocationView>,
    move_only: bool,
    color: bool,
    home: Option<Seq<char>>,
    k: int,
    n: int,
) -> (rest:
    Seq<char>)
    requires
        0 <= k <= n,
    ensures
        groups_text(locs, move_only, color, home, n) == groups_text(locs, move_only, color, home, k) + rest,
    decreases n - k,
{
    if k == n {
        assert(groups_text(locs, move_only, color, home, n) =~= groups_text(locs, move_only, color, home, k)
            + Seq::<char>::empty());
        Seq::<char>::empty()
    } else {
        let r = lemma_groups_text_prefix(locs, move_only, color, home, k, n - 1);
        let last = group_text(locs, n - 1, move_only, color, home);
        assert(groups_text(locs, move_only, color, home, n) =~= groups_text(locs, move_only, color, home, k) + (
        r + last));
        r + last
    }
}

/// Each entry the menu lists stands on a line under its group's heading,
/// after the group's earlier entries: the line shows the entry's position
/// and folder name; and the heading's code followed by that position
/// selects that entry in the same menu.
pub proof fn law_menu_lines_select_their_entries(
    title: Seq<char>,
    locs: Seq<LocationView>,
    move_only: bool,
    color: bool,
    home: Option<Seq<char>>,
    g: nat,
    j: nat,
)
    requires
        locs.len() <= usize::MAX,
        g < groups_spec(locs).len(),
        j < groups_spec(locs)[g as int].entries.len(),
        j + 1 <= usize::MAX,
        !move_only || locs[groups_spec(locs)[g as int].entries[j as int] as int].move_here,
    ensures
        ({
            let grp = groups_spec(locs)[g as int];
            let parent = group_root_path(locs, grp);
            let l = locs[grp.entries[j as int] as int];
            &&& exists|before: Seq<char>, after: Seq<char>|
                #[trigger] splits(
                    render_spec(title, locs, move_only, color, home),
                    before,
                    group_heading(locs, g as int, color, home) + entries_text(
                        locs,
                        grp,
                        parent,
                        move_only,
                        color, home,
                        j as int,
                    ) + entry_line(parent, l.path, j, color, home),
                    after,
                )
            &&& resolve_spec(locs, label_of(g) + decimal(j + 1), move_only) == Ok::<
                LocationView,
                Seq<char>,
            >(l)
        }),
{
    let gs = groups_spec(locs);
    let grp = gs[g as int];
    let l = locs[grp.entries[j as int] as int];
    assert(resolve_spec(locs, label_of(g) + decimal(j + 1), move_only) == Ok::<
        LocationView,
        Seq<char>,
    >(l)) by {
        law_codes_select_entries(locs, g, j + 1, false);
    }
    assert(visible(locs, grp.name, move_only)) by {
        lemma_entries_exact(locs, grp.name, locs.len() as int);
        let i = grp.entries[j as int] as int;
        assert(locs[i].group == grp.name);
    }
    lemma_menu_line_position(title, locs, move_only, color, home, g, j);
}

/// Concatenation regrouped.
proof fn lemma_regroup(
    b: Seq<char>,
    f: Seq<char>,
    h: Seq<char>,
    e: Seq<char>,
    l: Seq<char>,
    r: Seq<char>,
    t: Seq<char>,
    n: Seq<char>,
)
    ensures
        b + ((f + (h + ((e + l) + r))) + t) + n == (b + f) + (h + e + l) + (r + t + n),
{
    assert(b + ((f + (h + ((e + l) + r))) + t) + n =~= (b + f) + (h + e + l) + (r + t + n));
}

/// Where the line of a listed entry stands in the menu.
proof fn lemma_menu_line_position(
    title: Seq<char>,
    locs: Seq<LocationView>,
    move_only: bool,
    color: bool,
    home: Option<Seq<char>>,
    g: nat,
    j: nat,
)
    requires
        g < groups_spec(locs).len(),
        j < groups_spec(locs)[g as int].entries.len(),
        !move_only || locs[groups_spec(locs)[g as int].entries[j as int] as int].move_here,
        visible(locs, groups_spec(locs)[g as int].name, move_only),
    ensures
        ({
            let grp = groups_spec(locs)[g as int];
            let parent = group_root_path(locs, grp);
            let l = locs[grp.entries[j as int] as int];
            exists|before: Seq<char>, after: Seq<char>|
                #[trigger] splits(
                    render_spec(title, locs, move_only, color, home),
                    before,
                    group_heading(locs, g as int, color, home) + entries_text(
                        locs,
                        grp,
                        parent,
                        move_only,
                        color, home,
                        j as int,
                    ) + entry_line(parent, l.path, j, color, home),
                    after,
                )
        }),
{
    let gs = groups_spec(locs);
    let grp = gs[g as int];
    let parent = group_root_path(locs, grp);
    let l = locs[grp.entries[j as int] as int];
    let count = gs.len() as int;
    let tail = lemma_groups_text_prefix(locs, move_only, color, home, g as int + 1, count);
    let rest = lemma_entries_text_prefix(
        locs,
        grp,
        parent,
        move_only,
        color,
        home,
        j as int + 1,
        grp.entries.len() as int,
    );
    let head = group_heading(locs, g as int, color, home);
    let earlier = entries_text(locs, grp, parent, move_only, color, home, j as int);
    let line = entry_line(parent, l.path, j, color, home);
    let banner = banner_spec(color, title);
    let first = groups_text(locs, move_only, color, home, g as int);
    assert(entries_text(locs, grp, parent, move_only, color, home, j as int + 1) == earlier + line);
    assert(group_text(locs, g as int, move_only, color, home) == head + entries_text(
        locs,
        grp,
        parent,
        move_only,
        color, home,
        grp.entries.len() as int,
    ));
    assert(groups_text(locs, move_only, color, home, g as int + 1) == first + group_text(
        locs,
        g as int,
        move_only,
        color, home,
    ));
    assert(render_spec(title, locs, move_only, color, home) == banner + groups_text(
        locs,
        move_only,
        color, home,
        count,
    ) + "\n"@);
    lemma_regroup(banner, first, head, earlier, line, rest, tail, "\n"@);
    assert(splits(
        render_spec(title, locs, move_only, color, home),
        banner + first,
        head + earlier + line,
        rest + tail + "\n"@,
    ));
}


// ----- a batch of moves ---------------------------------------------------------

/// The state of a batch begun in `s0` after the first `n` answers; once the
/// batch is over, later answers change nothing.
pub open spec fn batch_state(s0: MoveStateView, events: Seq<MoveEventView>, home: Option<Seq<char>>, n: nat) -> MoveStateView
    decreases n,
{
    if n == 0 {
        s0
    } else {
        let s = batch_state(s0, events, home, (n - 1) as nat);
        if s is Done {
            s
        } else {
            move_step_spec(s, events[n - 1], home).state
        }
    }
}

/// The action that the `n`-th answer (from 1) is given; it is answered by
/// the answer at place `n`.
pub open spec fn batch_action(s0: MoveStateView, events: Seq<MoveEventView>, home: Option<Seq<char>>, n: nat) -> MoveActionView {
    move_step_spec(batch_state(s0, events, home, (n - 1) as nat), events[n - 1], home).action
}

/// Whether the `n`-th answer (from 1) was taken: the batch was not over
/// before it.
pub open spec fn batch_answered(s0: MoveStateView, events: Seq<MoveEventView>, home: Option<Seq<char>>, n: nat) -> bool {
    1 <= n && !(batch_state(s0, events, home, (n - 1) as nat) is Done)
}

/// Whether, among the first `n` answers, the file system was asked about
/// `d` and said that nothing exists there.
pub open spec fn found_free(s0: MoveStateView, events: Seq<MoveEventView>, home: Option<Seq<char>>, d: Seq<char>, n: nat) -> bool {
    exists|i: nat|
        i < n && #[trigger] batch_answered(s0, events, home, i) && batch_action(s0, events, home, i)
            == MoveActionView::CheckDestination(d) && events[i as int]
            == MoveEventView::DestinationChecked(false)
}

/// Whether, among the first `n` answers, the user confirmed the preview.
pub open spec fn confirmed_within(s0: MoveStateView, events: Seq<MoveEventView>, home: Option<Seq<char>>, n: nat) -> bool {
    exists|j: nat|
        1 <= j <= n && #[trigger] batch_state(s0, events, home, (j - 1) as nat) is Confirming
            && events[j - 1] == MoveEventView::Confirmed(true)
}

/// The plans a state holds.
pub open spec fn state_plans(s: MoveStateView) -> Seq<MovePlanView> {
    match s {
        MoveStateView::ChoosingDestination { plans, .. } => plans,
        MoveStateView::CheckingFolder { plans, .. } => plans,
        MoveStateView::CheckingDestination { plans, .. } => plans,
        MoveStateView::Confirming { plans } => plans,
        MoveStateView::Moving { plans, .. } => plans,
        _ => Seq::empty(),
    }
}

/// Every ready plan goes between different paths, to a destination found
/// free among the first `n` answers.
pub open spec fn plans_checked(s0: MoveStateView, events: Seq<MoveEventView>, home: Option<Seq<char>>, plans: Seq<MovePlanView>, n: nat) -> bool {
    forall|p: int|
        0 <= p < plans.len() && (#[trigger] plans[p]).ready ==> !same_path(plans[p].source, plans[p].destination)
            && found_free(s0, events, home, plans[p].destination, n)
}

spec fn batch_inv(s0: MoveStateView, events: Seq<MoveEventView>, home: Option<Seq<char>>, n: nat) -> bool {
    let s = batch_state(s0, events, home, n);
    &&& s is Moving ==> confirmed_within(s0, events, home, n)
    &&& plans_checked(s0, events, home, state_plans(s), n)
    &&& s matches MoveStateView::CheckingDestination { destination, .. } ==> batch_answered(
        s0,
        events,
        home,
        n,
    ) && batch_action(s0, events, home, n) == MoveActionView::CheckDestination(destination)
}

proof fn lemma_first_ready(plans: Seq<MovePlanView>, i: nat)
    ensures
        first_ready(plans, i) matches Some(j) ==> i <= j < plans.len() && plans[j as int].ready,
    decreases plans.len() - i,
{
    if i < plans.len() && !plans[i as int].ready {
        lemma_first_ready(plans, i + 1);
    }
}

proof fn lemma_found_free_grows(s0: MoveStateView, events: Seq<MoveEventView>, home: Option<Seq<char>>, d: Seq<char>, n: nat)
    requires
        found_free(s0, events, home, d, n),
    ensures
        found_free(s0, events, home, d, n + 1),
{
    let i = choose|i: nat|
        i < n && #[trigger] batch_answered(s0, events, home, i) && batch_action(s0, events, home, i)
            == MoveActionView::CheckDestination(d) && events[i as int]
            == MoveEventView::DestinationChecked(false);
    assert(i < n + 1 && batch_answered(s0, events, home, i));
}

proof fn lemma_plans_checked_grow(s0: MoveStateView, events: Seq<MoveEventView>, home: Option<Seq<char>>, plans: Seq<MovePlanView>, n: nat)
    requires
        plans_checked(s0, events, home, plans, n),
    ensures
        plans_checked(s0, events, home, plans, n + 1),
{
    assert forall|p: int| 0 <= p < plans.len() && (#[trigger] plans[p]).ready implies !same_path(
        plans[p].source,
        plans[p].destination,
    ) && found_free(s0, events, home, plans[p].destination, n + 1) by {
        lemma_found_free_grows(s0, events, home, plans[p].destination, n);
    }
}

proof fn lemma_confirmed_grows(s0: MoveStateView, events: Seq<MoveEventView>, home: Option<Seq<char>>, n: nat)
    requires
        confirmed_within(s0, events, home, n),
    ensures
        confirmed_within(s0, events, home, n + 1),
{
    let j = choose|j: nat|
        1 <= j <= n && #[trigger] batch_state(s0, events, home, (j - 1) as nat) is Confirming
            && events[j - 1] == MoveEventView::Confirmed(true);
    assert(batch_state(s0, events, home, (j - 1) as nat) is Confirming);
}

/// A step ends the batch exactly when its action is `Finish`.
proof fn lemma_step_finish(s: MoveStateView, e: MoveEventView, home: Option<Seq<char>>)
    ensures
        (move_step_spec(s, e, home).action is Finish) == (move_step_spec(s, e, home).state is Done),
{
}

proof fn lemma_batch_inv(s0: MoveStateView, events: Seq<MoveEventView>, home: Option<Seq<char>>, n: nat)
    requires
        s0 == MoveStateView::ChoosingSources,
    ensures
        batch_inv(s0, events, home, n),
    decreases n,
{
    if n > 0 {
        let m = (n - 1) as nat;
        lemma_batch_inv(s0, events, home, m);
        let s = batch_state(s0, events, home, m);
        if !(s is Done) {
            let e = events[m as int];
            let r = move_step_spec(s, e, home);
            assert(batch_state(s0, events, home, n) == r.state);
            assert(batch_answered(s0, events, home, n));
            assert(batch_action(s0, events, home, n) == r.action);
            lemma_plans_checked_grow(s0, events, home, state_plans(s), m);
            if s is Moving {
                lemma_confirmed_grows(s0, events, home, m);
            }
            match s {
                MoveStateView::CheckingDestination { sources, plans, destination } => {
                    if let MoveEventView::DestinationChecked(exists) = e {
                        let np = plans.push(
                            crate::moves::plan_spec(sources[plans.len() as int], destination, exists),
                        );
                        assert(plans_checked(s0, events, home, np, n)) by {
                            assert forall|p: int| 0 <= p < np.len() && (#[trigger] np[p]).ready implies !same_path(
                                np[p].source,
                                np[p].destination,
                            ) && found_free(s0, events, home, np[p].destination, n) by {
                                if p < plans.len() {
                                    assert(np[p] == plans[p]);
                                } else {
                                    assert(!exists);
                                    assert(batch_answered(s0, events, home, m));
                                    assert(m < n && batch_action(s0, events, home, m)
                                        == MoveActionView::CheckDestination(np[p].destination)
                                        && events[m as int] == MoveEventView::DestinationChecked(false));
                                }
                            }
                        }
                    }
                },
                MoveStateView::Confirming { plans } => {
                    if e == MoveEventView::Confirmed(true) {
                        assert(batch_state(s0, events, home, (n - 1) as nat) is Confirming);
                        assert(confirmed_within(s0, events, home, n));
                    }
                },
                _ => {},
            }
        }
    }
}

/// In any run of a batch, from the files menu on: a file is moved only
/// after the user confirmed the preview, only when its source and
/// destination differ and the file system said that nothing exists at the
/// destination; cancelling the files menu or a folders menu, or declining
/// the preview, ends the batch; and once the batch ends, no answer is
/// taken any more.
pub proof fn law_moves_only_after_confirmation(events: Seq<MoveEventView>, home: Option<Seq<char>>, k: nat)
    requires
        batch_answered(MoveStateView::ChoosingSources, events, home, k),
    ensures
        ({
            let s0 = MoveStateView::ChoosingSources;
            let action = batch_action(s0, events, home, k);
            &&& action is Move ==> confirmed_within(s0, events, home, k)
            &&& action matches MoveActionView::Move { source, destination } ==> !same_path(source, destination)
                && found_free(s0, events, home, destination, k)
            &&& action is Finish ==> forall|later: nat| later > k ==> !#[trigger] batch_answered(
                s0,
                events,
                home,
                later,
            )
            &&& (events[k - 1] == MoveEventView::SourcesChosen(None) || events[k - 1]
                == MoveEventView::DestinationChosen(None) || events[k - 1] == MoveEventView::Confirmed(false))
                ==> action is Finish
        }),
{
    let s0 = MoveStateView::ChoosingSources;
    let m = (k - 1) as nat;
    lemma_batch_inv(s0, events, home, m);
    let s = batch_state(s0, events, home, m);
    let e = events[m as int];
    let r = move_step_spec(s, e, home);
    lemma_step_finish(s, e, home);
    match s {
        MoveStateView::Confirming { plans } => {
            if let MoveEventView::Confirmed(yes) = e {
                if yes {
                    lemma_first_ready(plans, 0);
                    assert(batch_state(s0, events, home, (k - 1) as nat) is Confirming);
                }
            }
        },
        MoveStateView::Moving { plans, next, moved, failed } => {
            lemma_confirmed_grows(s0, events, home, m);
            lemma_first_ready(plans, next + 1);
            if let Some(j) = first_ready(plans, next + 1) {
                assert(plans[j as int].ready);
                lemma_found_free_grows(s0, events, home, plans[j as int].destination, m);
            }
        },
        _ => {},
    }
    if r.action is Finish {
        assert(batch_state(s0, events, home, k) is Done);
        assert forall|later: nat| later > k implies !#[trigger] batch_answered(s0, events, home, later) by {
            lemma_done_stays(s0, events, home, k, (later - 1) as nat);
        }
    }
}

/// Once a batch is over, it stays over.
proof fn lemma_done_stays(s0: MoveStateView, events: Seq<MoveEventView>, home: Option<Seq<char>>, k: nat, n: nat)
    requires
        k <= n,
        batch_state(s0, events, home, k) is Done,
    ensures
        batch_state(s0, events, home, n) is Done,
    decreases n - k,
{
    if k < n {
        lemma_done_stays(s0, events, home, k, (n - 1) as nat);
    }
}


// ----- the command line ------------------------------------------------------------

/// Each documented spelling gives its command, whatever follows it: no
/// arguments, `-h` or `--help` ask for help, `-V` or `--version` for the
/// version, `update` for an update, `move` for a move of the files that
/// follow; `open` takes at most one selector. Any other first word is an
/// unknown command.
pub proof fn law_command_spellings(args: Seq<Seq<char>>)
    ensures
        args.len() == 0 ==> parse_command_spec(args) == Ok::<CommandView, Seq<char>>(CommandView::Help),
        args.len() > 0 && (args[0] == "--help"@ || args[0] == "-h"@) ==> parse_command_spec(args)
            == Ok::<CommandView, Seq<char>>(CommandView::Help),
        args.len() > 0 && (args[0] == "--version"@ || args[0] == "-V"@) ==> parse_command_spec(args)
            == Ok::<CommandView, Seq<char>>(CommandView::Version),
        args.len() > 0 && args[0] == "update"@ ==> parse_command_spec(args) == Ok::<CommandView, Seq<char>>(
            CommandView::Update,
        ),
        args.len() > 0 && args[0] == "move"@ ==> parse_command_spec(args) == Ok::<CommandView, Seq<char>>(
            CommandView::Move(args.skip(1)),
        ),
        args.len() == 1 && args[0] == "open"@ ==> parse_command_spec(args) == Ok::<CommandView, Seq<char>>(
            CommandView::Open(None),
        ),
        args.len() == 2 && args[0] == "open"@ ==> parse_command_spec(args) == Ok::<CommandView, Seq<char>>(
            CommandView::Open(Some(args[1])),
        ),
        args.len() > 2 && args[0] == "open"@ ==> parse_command_spec(args) is Err,
        args.len() > 0 && args[0] != "open"@ && args[0] != "move"@ && args[0] != "update"@ && args[0]
            != "--version"@ && args[0] != "-V"@ && args[0] != "--help"@ && args[0] != "-h"@
            ==> parse_command_spec(args) is Err,
{
    reveal_strlit("open");
    reveal_strlit("move");
    reveal_strlit("update");
    reveal_strlit("--version");
    reveal_strlit("-V");
    reveal_strlit("--help");
    reveal_strlit("-h");
    assert("open"@[0] != "move"@[0]);
    assert("open"@.len() != "update"@.len());
    assert("open"@.len() != "--version"@.len());
    assert("open"@.len() != "-V"@.len());
    assert("open"@.len() != "--help"@.len());
    assert("open"@.len() != "-h"@.len());
    assert("move"@.len() != "update"@.len());
    assert("move"@.len() != "--version"@.len());
    assert("move"@.len() != "-V"@.len());
    assert("move"@.len() != "--help"@.len());
    assert("move"@.len() != "-h"@.len());
    assert("update"@.len() != "--version"@.len());
    assert("update"@.len() != "-V"@.len());
    assert("update"@[0] != "--help"@[0]);
    assert("update"@.len() != "-h"@.len());
    assert("--version"@.len() != "-V"@.len());
    assert("--version"@.len() != "--help"@.len());
    assert("--version"@.len() != "-h"@.len());
    assert("-V"@.len() != "--help"@.len());
    assert("-V"@[1] != "-h"@[1]);
    assert("--help"@.len() != "-h"@.len());
}


// ----- folders of a section ---------------------------------------------------------

/// Whether `ps` holds `p`, or a path that is the same as `p`.
pub open spec fn holds_path(ps: Seq<Seq<char>>, p: Seq<char>) -> bool {
    exists|x: int| 0 <= x < ps.len() && (ps[x] == p || same_path(p, #[trigger] ps[x]))
}

proof fn lemma_holds_path_prefix(ps: Seq<Seq<char>>, qs: Seq<Seq<char>>, p: Seq<char>)
    requires
        holds_path(ps, p),
        qs.len() >= ps.len(),
        qs.take(ps.len() as int) == ps,
    ensures
        holds_path(qs, p),
{
    let x = choose|x: int| 0 <= x < ps.len() && (ps[x] == p || same_path(p, #[trigger] ps[x]));
    assert(qs[x] == qs.take(ps.len() as int)[x]);
    assert(0 <= x < qs.len() && (qs[x] == p || same_path(p, qs[x])));
}

proof fn lemma_add_all_unique_keeps(ps: Seq<Seq<char>>, qs: Seq<Seq<char>>, k: int)
    requires
        0 <= k <= qs.len(),
    ensures
        add_all_unique(ps, qs, k).len() >= ps.len(),
        add_all_unique(ps, qs, k).take(ps.len() as int) == ps,
    decreases k,
{
    if k <= 0 {
        assert(ps.take(ps.len() as int) =~= ps);
    } else {
        lemma_add_all_unique_keeps(ps, qs, k - 1);
        let prev = add_all_unique(ps, qs, k - 1);
        let r = add_all_unique(ps, qs, k);
        assert(r.take(prev.len() as int) =~= prev);
        assert(r.take(ps.len() as int) =~= prev.take(ps.len() as int));
    }
}

/// Adding paths one by one, each unless it is already there, leaves each
/// of them there.
proof fn lemma_add_all_unique_holds(ps: Seq<Seq<char>>, qs: Seq<Seq<char>>, k: int, j: int)
    requires
        0 <= j < k <= qs.len(),
    ensures
        holds_path(add_all_unique(ps, qs, k), qs[j]),
    decreases k,
{
    let prev = add_all_unique(ps, qs, k - 1);
    let r = add_all_unique(ps, qs, k);
    assert(r.len() >= prev.len() && r.take(prev.len() as int) =~= prev);
    if j == k - 1 {
        if listed(prev, qs[j]) {
            let x = choose|x: int| 0 <= x < prev.len() && same_path(qs[j], #[trigger] prev[x]);
            assert(holds_path(prev, qs[j]));
            lemma_holds_path_prefix(prev, r, qs[j]);
        } else {
            assert(r[prev.len() as int] == qs[j]);
            assert(holds_path(r, qs[j]));
        }
    } else {
        lemma_add_all_unique_holds(ps, qs, k - 1, j);
        lemma_holds_path_prefix(prev, r, qs[j]);
    }
}

/// Every folder of the listing that is not hidden is among the names that
/// the listing gives.
proof fn lemma_child_dirs_has(root: Seq<char>, es: Seq<ChildEntryView>, k: int, idx: int, name: Seq<char>)
    requires
        0 <= idx < k <= es.len(),
        child_dirs(root, es, k) is Ok,
        es[idx] == (ChildEntryView::Entry { name, is_dir: Ok(true) }),
        !(name.len() > 0 && name[0] == '.'),
    ensures
        child_dirs(root, es, k)->Ok_0.contains(name),
    decreases k,
{
    let prev = child_dirs(root, es, k - 1);
    assert(prev is Ok);
    let r = child_dirs(root, es, k)->Ok_0;
    if idx == k - 1 {
        assert(r == prev->Ok_0.push(name));
        assert(r[r.len() - 1] == name);
    } else {
        lemma_child_dirs_has(root, es, k - 1, idx, name);
        let ns = prev->Ok_0;
        let x = choose|x: int| 0 <= x < ns.len() && ns[x] == name;
        assert(r.len() >= ns.len() && r.take(ns.len() as int) =~= ns) by {
            match es[k - 1] {
                ChildEntryView::Unreadable(_) => {},
                ChildEntryView::Entry { name: n2, is_dir } => {
                    if !(n2.len() > 0 && n2[0] == '.') && is_dir == Ok::<bool, Seq<char>>(true) {
                        assert(r =~= ns.push(n2));
                    } else {
                        assert(r =~= ns);
                    }
                },
            }
        }
        assert(r[x] == r.take(ns.len() as int)[x]);
    }
}

/// A section that lists its children lists every folder of its root's
/// listing whose name does not start with `.`: the root joined with that
/// name is among the section's locations (once, so possibly as a pin that
/// is the same path).
pub proof fn law_sections_list_every_folder(
    sec: SectionView,
    home: Option<Seq<char>>,
    listing: RootListingView,
    idx: int,
    name: Seq<char>,
)
    requires
        materialize_section_spec(sec, home, listing) is Ok,
        sec.children,
        listing.entries is Ok,
        0 <= idx < listing.entries->Ok_0.len(),
        listing.entries->Ok_0[idx] == (ChildEntryView::Entry { name, is_dir: Ok(true) }),
        !(name.len() > 0 && name[0] == '.'),
    ensures
        ({
            let locs = materialize_section_spec(sec, home, listing)->Ok_0;
            let root = expand_home_spec(sec.root, home)->Ok_0;
            exists|k: int|
                1 <= k < locs.len() && ((#[trigger] locs[k]).path == join_path(root, name) || same_path(
                    join_path(root, name),
                    locs[k].path,
                ))
        }),
{
    let locs = materialize_section_spec(sec, home, listing)->Ok_0;
    let root = expand_home_spec(sec.root, home)->Ok_0;
    let pp = pin_paths(root, sec.pins, home, sec.pins.len() as int)->Ok_0;
    let ps = section_paths(root, sec, home, listing)->Ok_0;
    let ms = resolve_all(root, sec.move_here, home, sec.move_here.len() as int)->Ok_0;
    let es = listing.entries->Ok_0;
    let names = child_dirs(root, es, es.len() as int)->Ok_0;
    let sorted = sort_children(names);
    let qs = sorted.map_values(|n: Seq<char>| join_path(root, n));
    lemma_child_dirs_has(root, es, es.len() as int, idx, name);
    law_children_sorted(names);
    assert(sorted.contains(name)) by {
        broadcast use vstd::seq_lib::group_to_multiset_ensures;

        assert(names.to_multiset().count(name) > 0);
        assert(sorted.to_multiset().count(name) > 0);
    }
    let j = choose|j: int| 0 <= j < sorted.len() && sorted[j] == name;
    assert(qs[j] == join_path(root, name));
    lemma_add_all_unique_holds(pp, qs, sorted.len() as int, j);
    assert(ps == add_all_unique(pp, qs, sorted.len() as int));
    let x = choose|x: int| 0 <= x < ps.len() && (ps[x] == join_path(root, name) || same_path(
        join_path(root, name),
        #[trigger] ps[x],
    ));
    assert(locs == seq![root_location(root)] + ps.map_values(
        |p: Seq<char>| section_location(root, p, ms),
    ));
    assert(locs[x + 1].path == ps[x]);
}


// ----- candidate PDFs --------------------------------------------------------------

/// Whether an extension is `pdf` in any mix of ASCII capitals.
pub open spec fn pdf_extension(x: Seq<char>) -> bool {
    &&& x.len() == 3
    &&& (x[0] == 'p' || x[0] == 'P')
    &&& (x[1] == 'd' || x[1] == 'D')
    &&& (x[2] == 'f' || x[2] == 'F')
}

/// Whether the file name of `p` has the extension `pdf` in any case.
pub open spec fn pdf_named(p: Seq<char>) -> bool {
    extension_of(file_name_of(p)) matches Some(x) && pdf_extension(x)
}

proof fn lemma_pdf_named(p: Seq<char>)
    requires
        pdf_named(p),
    ensures
        is_pdf_spec(p),
{
    reveal_strlit("pdf");
    let x = extension_of(file_name_of(p))->Some_0;
    assert(eq_ignore_case(x, "pdf"@)) by {
        assert forall|i: int| 0 <= i < x.len() implies fold_code(#[trigger] x[i]) == fold_code("pdf"@[i]) by {
            assert(is_ascii_upper('P') && is_ascii_upper('D') && is_ascii_upper('F'));
            assert(!is_ascii_upper('p') && !is_ascii_upper('d') && !is_ascii_upper('f'));
        }
    }
}

proof fn lemma_add_candidate(found: Seq<Seq<char>>, path: Seq<char>, c: Seq<char>)
    ensures
        ({
            let r = add_candidate(found, path, Ok(c))->Ok_0;
            &&& r.len() >= found.len()
            &&& r.take(found.len() as int) == found
            &&& holds_path(r, c)
        }),
{
    let r = add_candidate(found, path, Ok(c))->Ok_0;
    if listed(found, c) {
        let x = choose|x: int| 0 <= x < found.len() && same_path(c, #[trigger] found[x]);
        assert(found.take(found.len() as int) =~= found);
        assert(holds_path(r, c));
    } else {
        assert(r.take(found.len() as int) =~= found);
        assert(r[found.len() as int] == c);
        assert(holds_path(r, c));
    }
}

proof fn lemma_add_candidate_keeps(found: Seq<Seq<char>>, path: Seq<char>, canonical: Result<Seq<char>, Seq<char>>)
    requires
        add_candidate(found, path, canonical) is Ok,
    ensures
        add_candidate(found, path, canonical)->Ok_0.len() >= found.len(),
        add_candidate(found, path, canonical)->Ok_0.take(found.len() as int) == found,
{
    lemma_add_candidate(found, path, canonical->Ok_0);
}

proof fn lemma_scan_keeps(found: Seq<Seq<char>>, dir: Seq<char>, es: Seq<FolderEntryView>, k: int)
    requires
        scan_folder(found, dir, es, k) is Ok,
    ensures
        scan_folder(found, dir, es, k)->Ok_0.len() >= found.len(),
        scan_folder(found, dir, es, k)->Ok_0.take(found.len() as int) == found,
    decreases k,
{
    if k <= 0 {
        assert(found.take(found.len() as int) =~= found);
    } else {
        lemma_scan_keeps(found, dir, es, k - 1);
        let f = scan_folder(found, dir, es, k - 1)->Ok_0;
        let r = scan_folder(found, dir, es, k)->Ok_0;
        match es[k - 1] {
            FolderEntryView::Unreadable(_) => {},
            FolderEntryView::Entry { path, is_file, canonical } => {
                if is_file && is_pdf_spec(path) {
                    lemma_add_candidate_keeps(f, path, canonical);
                }
                assert(r.take(f.len() as int) == f);
                assert(r.take(found.len() as int) =~= f.take(found.len() as int));
            },
        }
    }
}

/// Scanning a folder keeps every PDF file of it that resolves, by the path
/// it resolves to.
proof fn lemma_scan_holds(found: Seq<Seq<char>>, dir: Seq<char>, es: Seq<FolderEntryView>, k: int, e: int, p: Seq<char>, c: Seq<char>)
    requires
        0 <= e < k <= es.len(),
        scan_folder(found, dir, es, k) is Ok,
        es[e] == (FolderEntryView::Entry { path: p, is_file: true, canonical: Ok(c) }),
        is_pdf_spec(p),
    ensures
        holds_path(scan_folder(found, dir, es, k)->Ok_0, c),
    decreases k,
{
    let f = scan_folder(found, dir, es, k - 1)->Ok_0;
    let r = scan_folder(found, dir, es, k)->Ok_0;
    if e == k - 1 {
        lemma_add_candidate(f, p, c);
    } else {
        lemma_scan_holds(found, dir, es, k - 1, e, p, c);
        match es[k - 1] {
            FolderEntryView::Unreadable(_) => {},
            FolderEntryView::Entry { path, is_file, canonical } => {
                if is_file && is_pdf_spec(path) {
                    lemma_add_candidate_keeps(f, path, canonical);
                } else {
                    assert(r.take(f.len() as int) =~= f);
                }
            },
        }
        lemma_holds_path_prefix(f, r, c);
    }
}

/// Collecting only adds: what the first `k` inputs give stays in what all
/// of them give.
proof fn lemma_collect_keeps(inputs: Seq<Seq<char>>, home: Option<Seq<char>>, kinds: Seq<InputKindView>, k: int, n: int)
    requires
        0 <= k <= n,
        collect_spec(inputs, home, kinds, n).1 is Ok,
    ensures
        collect_spec(inputs, home, kinds, k).1 is Ok,
        collect_spec(inputs, home, kinds, n).1->Ok_0.len() >= collect_spec(inputs, home, kinds, k).1->Ok_0.len(),
        collect_spec(inputs, home, kinds, n).1->Ok_0.take(
            collect_spec(inputs, home, kinds, k).1->Ok_0.len() as int,
        ) == collect_spec(inputs, home, kinds, k).1->Ok_0,
    decreases n - k,
{
    let fk = collect_spec(inputs, home, kinds, k).1;
    if k == n {
        assert(fk->Ok_0.take(fk->Ok_0.len() as int) =~= fk->Ok_0);
    } else {
        lemma_collect_keeps(inputs, home, kinds, k + 1, n);
        let f1 = collect_spec(inputs, home, kinds, k + 1).1;
        assert(fk is Ok);
        let found = fk->Ok_0;
        let g = f1->Ok_0;
        assert(g.len() >= found.len() && g.take(found.len() as int) == found) by {
            let path = expand_home_spec(inputs[k], home)->Ok_0;
            match kinds[k] {
                InputKindView::Folder(Ok(entries)) => {
                    lemma_scan_keeps(found, path, entries, entries.len() as int);
                },
                InputKindView::File(canonical) => {
                    if is_pdf_spec(path) {
                        lemma_add_candidate_keeps(found, path, canonical);
                    } else {
                        assert(g.take(found.len() as int) =~= found);
                    }
                },
                _ => {
                    assert(g.take(found.len() as int) =~= found);
                },
            }
        }
        let all = collect_spec(inputs, home, kinds, n).1->Ok_0;
        assert(all.take(found.len() as int) =~= all.take(g.len() as int).take(found.len() as int));
    }
}

/// Every file of a folder given to collect whose name ends in `.pdf`, in
/// any case, and that resolves is among the candidates by the path it
/// resolves to; so is a file given itself when its name ends in `.pdf`.
/// Folder entries and files given are judged by the same test.
pub proof fn law_pdf_files_are_candidates(
    inputs: Seq<Seq<char>>,
    home: Option<Seq<char>>,
    kinds: Seq<InputKindView>,
    i: int,
    p: Seq<char>,
    c: Seq<char>,
)
    requires
        kinds.len() == inputs.len(),
        0 <= i < inputs.len(),
        collect_spec(inputs, home, kinds, inputs.len() as int).1 is Ok,
        expand_home_spec(inputs[i], home) is Ok,
    ensures
        ({
            let found = collect_spec(inputs, home, kinds, inputs.len() as int).1->Ok_0;
            let path = expand_home_spec(inputs[i], home)->Ok_0;
            &&& (kinds[i] matches InputKindView::Folder(Ok(es)) && (exists|e: int|
                0 <= e < es.len() && #[trigger] es[e] == (FolderEntryView::Entry {
                    path: p,
                    is_file: true,
                    canonical: Ok(c),
                })) && pdf_named(p) ==> holds_path(found, c))
            &&& (kinds[i] == InputKindView::File(Ok(c)) && pdf_named(path) ==> holds_path(found, c))
        }),
{
    let n = inputs.len() as int;
    let found = collect_spec(inputs, home, kinds, n).1->Ok_0;
    let path = expand_home_spec(inputs[i], home)->Ok_0;
    lemma_collect_keeps(inputs, home, kinds, i, n);
    lemma_collect_keeps(inputs, home, kinds, i + 1, n);
    let before = collect_spec(inputs, home, kinds, i).1->Ok_0;
    let after = collect_spec(inputs, home, kinds, i + 1).1->Ok_0;
    if let InputKindView::Folder(Ok(es)) = kinds[i] {
        if (exists|e: int|
            0 <= e < es.len() && #[trigger] es[e] == (FolderEntryView::Entry {
                path: p,
                is_file: true,
                canonical: Ok(c),
            })) && pdf_named(p) {
            let e = choose|e: int|
                0 <= e < es.len() && #[trigger] es[e] == (FolderEntryView::Entry {
                    path: p,
                    is_file: true,
                    canonical: Ok(c),
                });
            lemma_pdf_named(p);
            lemma_scan_holds(before, path, es, es.len() as int, e, p, c);
            lemma_holds_path_prefix(after, found, c);
        }
    }
    if kinds[i] == InputKindView::File(Ok(c)) && pdf_named(path) {
        lemma_pdf_named(path);
        lemma_add_candidate(before, path, c);
        lemma_holds_path_prefix(after, found, c);
    }
}


// ----- the root of a group ----------------------------------------------------------

/// `p` raised `k` times to its parent, if it can be.
pub open spec fn ancestor(p: Seq<char>, k: nat) -> Option<Seq<char>>
    decreases k,
{
    if k == 0 {
        Some(p)
    } else {
        match parent_of(p) {
            Some(q) => ancestor(q, (k - 1) as nat),
            None => None,
        }
    }
}

proof fn lemma_ancestor_compose(p: Seq<char>, s: nat, t: nat)
    requires
        ancestor(p, s) is Some,
    ensures
        ancestor(p, s + t) == ancestor(ancestor(p, s)->Some_0, t),
    decreases s,
{
    if s > 0 {
        let q = parent_of(p)->Some_0;
        lemma_ancestor_compose(q, (s - 1) as nat, t);
        assert((s + t - 1) as nat == (s - 1) as nat + t);
    }
}

/// Climbing from `base` for `p` stops at the nearest ancestor of `base`
/// that `p` starts with.
proof fn lemma_climb(base: Seq<char>, p: Seq<char>)
    requires
        climb(base, p) is Some,
    ensures
        exists|t: nat|
            #[trigger] ancestor(base, t) == climb(base, p) && has_path_prefix(p, climb(base, p)->Some_0)
                && forall|u: nat| u < t ==> (#[trigger] ancestor(base, u) matches Some(a) ==> !has_path_prefix(p, a)),
    decreases base.len(),
{
    if has_path_prefix(p, base) {
        assert(ancestor(base, 0) == Some(base));
        assert forall|u: nat| u < 0 implies (#[trigger] ancestor(base, u) matches Some(a) ==> !has_path_prefix(p, a)) by {}
    } else {
        let q = parent_of(base)->Some_0;
        lemma_climb(q, p);
        let t = choose|t: nat|
            #[trigger] ancestor(q, t) == climb(q, p) && has_path_prefix(p, climb(q, p)->Some_0)
                && forall|u: nat| u < t ==> (#[trigger] ancestor(q, u) matches Some(a) ==> !has_path_prefix(p, a));
        assert(ancestor(base, t + 1) == ancestor(q, t));
        assert forall|u: nat| u < t + 1 implies (#[trigger] ancestor(base, u) matches Some(a) ==> !has_path_prefix(p, a)) by {
            if u > 0 {
                assert(ancestor(base, u) == ancestor(q, (u - 1) as nat));
            }
        }
    }
}

/// Climbing through the paths from the `i`-th on ends at an ancestor of
/// `first`, and every ancestor below it misses one of the paths.
proof fn lemma_climb_all(first: Seq<char>, s: nat, d: nat, paths: Seq<Seq<char>>, i: int)
    requires
        0 <= i <= paths.len(),
        s <= d,
        ancestor(first, d) is Some,
        climb_all(ancestor(first, d)->Some_0, paths, i) is Some,
        forall|u: nat|
            s <= u < d ==> (#[trigger] ancestor(first, u) matches Some(a) ==> exists|x: int|
                0 <= x < i && !has_path_prefix(paths[x], a)),
    ensures
        exists|k: nat|
            d <= k && #[trigger] ancestor(first, k) == climb_all(ancestor(first, d)->Some_0, paths, i)
                && forall|u: nat|
                s <= u < k ==> (#[trigger] ancestor(first, u) matches Some(a) ==> exists|x: int|
                    0 <= x < paths.len() && !has_path_prefix(paths[x], a)),
    decreases paths.len() - i,
{
    let base = ancestor(first, d)->Some_0;
    if i == paths.len() {
        assert(ancestor(first, d) == climb_all(base, paths, i));
        assert forall|u: nat| s <= u < d implies (#[trigger] ancestor(first, u) matches Some(a) ==> exists|x: int|
            0 <= x < paths.len() && !has_path_prefix(paths[x], a)) by {
            if ancestor(first, u) is Some {
                let a = ancestor(first, u)->Some_0;
                let x = choose|x: int| 0 <= x < i && !has_path_prefix(paths[x], a);
            }
        }
    } else {
        lemma_climb(base, paths[i]);
        let t = choose|t: nat|
            #[trigger] ancestor(base, t) == climb(base, paths[i]) && has_path_prefix(paths[i], climb(base, paths[i])->Some_0)
                && forall|u: nat| u < t ==> (#[trigger] ancestor(base, u) matches Some(a) ==> !has_path_prefix(paths[i], a));
        lemma_ancestor_compose(first, d, t);
        assert forall|u: nat| s <= u < d + t implies (#[trigger] ancestor(first, u) matches Some(a) ==> exists|x: int|
            0 <= x < i + 1 && !has_path_prefix(paths[x], a)) by {
            if ancestor(first, u) is Some {
                let a = ancestor(first, u)->Some_0;
                if u < d {
                    let x = choose|x: int| 0 <= x < i && !has_path_prefix(paths[x], a);
                    assert(0 <= x < i + 1 && !has_path_prefix(paths[x], a));
                } else {
                    let w = (u - d) as nat;
                    lemma_ancestor_compose(first, d, w);
                    assert(u == d + w);
                    assert(ancestor(base, w) == Some(a));
                    assert(!has_path_prefix(paths[i], a));
                }
            }
        }
        lemma_climb_all(first, s, d + t, paths, i + 1);
    }
}

/// The root of a group inferred from its paths, when there is one: it is
/// the first path raised some number of times to its parent (at least
/// once when the group has one path); each path between the first (or
/// its parent, for one path) and the root misses one of the paths, so the
/// root is the deepest candidate that every path can start with; and it is
/// not empty.
pub proof fn law_shared_parent_is_deepest(paths: Seq<Seq<char>>)
    requires
        shared_parent_spec(paths) is Some,
    ensures
        ({
            let b = shared_parent_spec(paths)->Some_0;
            let s: nat = if paths.len() == 1 { 1 } else { 0 };
            &&& paths.len() > 0
            &&& b.len() > 0
            &&& exists|k: nat|
                s <= k && #[trigger] ancestor(paths[0], k) == Some(b) && forall|u: nat|
                    s <= u < k ==> (#[trigger] ancestor(paths[0], u) matches Some(a) ==> exists|x: int|
                        0 <= x < paths.len() && !has_path_prefix(paths[x], a))
        }),
{
    let first = paths[0];
    let s: nat = if paths.len() == 1 { 1 } else { 0 };
    if paths.len() == 1 {
        let q = parent_of(first)->Some_0;
        assert(ancestor(first, 1) == ancestor(q, 0));
    }
    lemma_climb_all(first, s, s, paths, 0);
}


proof fn lemma_climb_all_stays(base: Seq<char>, paths: Seq<Seq<char>>, i: int)
    requires
        0 <= i <= paths.len(),
        forall|x: int| 0 <= x < paths.len() ==> has_path_prefix(#[trigger] paths[x], base),
    ensures
        climb_all(base, paths, i) == Some(base),
    decreases paths.len() - i,
{
    if i < paths.len() {
        assert(has_path_prefix(paths[i], base));
        lemma_climb_all_stays(base, paths, i + 1);
    }
}

/// When a group has two or more paths and every one of them starts with
/// the first, the group's root is the first path itself (unless it is
/// empty).
pub proof fn law_first_path_shared_is_root(paths: Seq<Seq<char>>)
    requires
        paths.len() >= 2,
        paths[0].len() > 0,
        forall|x: int| 0 <= x < paths.len() ==> has_path_prefix(#[trigger] paths[x], paths[0]),
    ensures
        shared_parent_spec(paths) == Some(paths[0]),
{
    lemma_climb_all_stays(paths[0], paths, 0);
}

/// In a group without a section root that lists two or more folders, all
/// below the first one, the group's code followed by `0` opens that first
/// folder.
pub proof fn law_zero_code_opens_shared_first_folder(locs: Seq<LocationView>, g: nat)
    requires
        g < groups_spec(locs).len(),
        groups_spec(locs)[g as int].root is None,
        groups_spec(locs)[g as int].entries.len() >= 2,
        locs[groups_spec(locs)[g as int].entries[0] as int].path.len() > 0,
        forall|j: int|
            0 <= j < groups_spec(locs)[g as int].entries.len() ==> has_path_prefix(
                #[trigger] locs[groups_spec(locs)[g as int].entries[j] as int].path,
                locs[groups_spec(locs)[g as int].entries[0] as int].path,
            ),
    ensures
        resolve_spec(locs, label_of(g) + decimal(0), false) matches Ok(l) && l.path
            == locs[groups_spec(locs)[g as int].entries[0] as int].path,
{
    let grp = groups_spec(locs)[g as int];
    let paths = entry_paths(locs, grp.entries);
    assert forall|x: int| 0 <= x < paths.len() implies has_path_prefix(#[trigger] paths[x], paths[0]) by {
        assert(paths[x] == locs[grp.entries[x] as int].path);
    }
    law_first_path_shared_is_root(paths);
    law_zero_code_opens_root(locs, g, false);
}


// ----- moving every ready plan -------------------------------------------------------

proof fn lemma_first_ready_least(plans: Seq<MovePlanView>, i: nat)
    ensures
        first_ready(plans, i) matches Some(j) ==> i <= j < plans.len() && plans[j as int].ready && forall|x: int|
            i <= x < j ==> !(#[trigger] plans[x]).ready,
        first_ready(plans, i) is None ==> forall|x: int| i <= x < plans.len() ==> !(#[trigger] plans[x]).ready,
    decreases plans.len() - i,
{
    if i < plans.len() && !plans[i as int].ready {
        lemma_first_ready_least(plans, i + 1);
    }
}

proof fn lemma_ready_count_skip(plans: Seq<MovePlanView>, a: int, b: int)
    requires
        0 <= a <= b <= plans.len(),
        forall|x: int| a <= x < b ==> !(#[trigger] plans[x]).ready,
    ensures
        ready_count(plans, b) == ready_count(plans, a),
    decreases b - a,
{
    if a < b {
        lemma_ready_count_skip(plans, a, b - 1);
        assert(!plans[b - 1].ready);
    }
}

/// What follows a step that looks for the next ready plan from `i` on,
/// after `moved + failed` moves that were all the ready plans before `i`:
/// the first ready plan from `i` on is moved next, with the counts kept;
/// when there is none, the batch ends, its summary counting every ready
/// plan, and failing exactly when a move failed.
pub open spec fn moves_on(plans: Seq<MovePlanView>, i: nat, moved: nat, failed: nat, state: MoveStateView, lines: Seq<LineView>, action: MoveActionView) -> bool {
    &&& (exists|j: int| i <= j < plans.len() && (#[trigger] plans[j]).ready) ==> exists|j: nat|
        i <= j < plans.len() && #[trigger] plans[j as int].ready && (forall|x: int|
            i <= x < j ==> !(#[trigger] plans[x]).ready) && action == (MoveActionView::Move {
            source: plans[j as int].source,
            destination: plans[j as int].destination,
        }) && state == (MoveStateView::Moving { plans, next: j, moved, failed }) && moved + failed
            == ready_count(plans, j as int)
    &&& (forall|x: int| i <= x < plans.len() ==> !(#[trigger] plans[x]).ready) ==> state is Done
        && action == MoveActionView::Finish(
        if failed == 0 {
            Ok(())
        } else {
            Err("one or more files could not be moved"@)
        },
    ) && lines.len() > 0 && lines.last() == LineView::Note(
        "Done: "@ + decimal(moved) + " moved, "@ + decimal(failed) + " failed."@,
    ) && moved + failed == ready_count(plans, plans.len() as int)
}

proof fn lemma_next_move(plans: Seq<MovePlanView>, i: nat, moved: nat, failed: nat, lines: Seq<LineView>)
    requires
        i <= plans.len(),
        moved + failed == ready_count(plans, i as int),
    ensures
        ({
            let r = crate::batch::next_move(plans, i, moved, failed, lines);
            moves_on(plans, i, moved, failed, r.state, r.lines, r.action)
        }),
{
    lemma_first_ready_least(plans, i);
    match first_ready(plans, i) {
        Some(j) => {
            lemma_ready_count_skip(plans, i as int, j as int);
        },
        None => {
            lemma_ready_count_skip(plans, i as int, plans.len() as int);
            assert(!(exists|j: int| i <= j < plans.len() && (#[trigger] plans[j]).ready));
        },
    }
}

/// Once the user confirms the preview, the first ready plan is moved,
/// with nothing moved yet; with no ready plan the batch ends saying that
/// nothing was moved.
pub proof fn law_confirming_moves_the_first_ready_plan(plans: Seq<MovePlanView>, home: Option<Seq<char>>)
    ensures
        ({
            let r = move_step_spec(
                MoveStateView::Confirming { plans },
                MoveEventView::Confirmed(true),
                home,
            );
            moves_on(plans, 0, 0, 0, r.state, r.lines, r.action)
        }),
{
    lemma_next_move(plans, 0, 0, 0, Seq::empty());
}

/// After each move, done or failed, the next ready plan is moved: none is
/// skipped, the counts of moved and failed files together are the number
/// of ready plans before it, and the batch ends only when no ready plan is
/// left, with a summary that counts every ready plan.
pub proof fn law_each_move_leads_to_the_next_ready_plan(
    plans: Seq<MovePlanView>,
    next: nat,
    moved: nat,
    failed: nat,
    result: Result<(), Seq<char>>,
    home: Option<Seq<char>>,
)
    requires
        next < plans.len(),
        plans[next as int].ready,
        moved + failed == ready_count(plans, next as int),
    ensures
        ({
            let r = move_step_spec(
                MoveStateView::Moving { plans, next, moved, failed },
                MoveEventView::Moved(result),
                home,
            );
            let m2: nat = if result is Ok { moved + 1 } else { moved };
            let f2: nat = if result is Ok { failed } else { failed + 1 };
            &&& m2 + f2 == ready_count(plans, next + 1int)
            &&& moves_on(plans, next + 1, m2, f2, r.state, r.lines, r.action)
        }),
{
    let m2: nat = if result is Ok { moved + 1 } else { moved };
    let f2: nat = if result is Ok { failed } else { failed + 1 };
    let lines = match result {
        Ok(()) => seq![LineView::Note("moved: "@ + plans[next as int].destination)],
        Err(msg) => seq![LineView::Warning("failed: "@ + plans[next as int].source + ": "@ + msg)],
    };
    lemma_next_move(plans, next + 1, m2, f2, lines);
}

/// In any run of a batch from the files menu on, a move under way is for
/// a ready plan, and the files moved or failed so far are exactly the
/// ready plans before it.
pub proof fn law_batch_moves_in_order(events: Seq<MoveEventView>, home: Option<Seq<char>>, n: nat)
    ensures
        batch_state(MoveStateView::ChoosingSources, events, home, n) matches MoveStateView::Moving {
            plans,
            next,
            moved,
            failed,
        } ==> next < plans.len() && plans[next as int].ready && moved + failed == ready_count(
            plans,
            next as int,
        ),
    decreases n,
{
    let s0 = MoveStateView::ChoosingSources;
    if n > 0 {
        let m = (n - 1) as nat;
        law_batch_moves_in_order(events, home, m);
        let s = batch_state(s0, events, home, m);
        if !(s is Done) {
            let e = events[m as int];
            match s {
                MoveStateView::Confirming { plans } => {
                    if e == MoveEventView::Confirmed(true) {
                        law_confirming_moves_the_first_ready_plan(plans, home);
                    }
                },
                MoveStateView::Moving { plans, next, moved, failed } => {
                    if let MoveEventView::Moved(result) = e {
                        law_each_move_leads_to_the_next_ready_plan(plans, next, moved, failed, result, home);
                    }
                },
                _ => {},
            }
        }
    }
}


/// The number the user is asked to confirm is the number of ready plans
/// that the batch then holds, and it is never zero: a batch with nothing
/// ready does not ask.
pub proof fn law_confirm_counts_ready_plans(s: MoveStateView, e: MoveEventView, home: Option<Seq<char>>)
    ensures
        ({
            let r = move_step_spec(s, e, home);
            r.action matches MoveActionView::Confirm(n) ==> r.state matches MoveStateView::Confirming {
                plans,
            } && n == ready_count(plans, plans.len() as int) && n > 0
        }),
{
}

} // verus!
