//! Groups, their letter codes, and the selectors (`B2`, `a0`) that pick a
//! folder from them.
use vstd::prelude::*;

use crate::location::{Location, LocationView, texts, views};
use crate::paths::{
    folder_name, folder_name_spec, has_path_prefix, parent_of, path_parent, path_starts_with,
};
use crate::text::{
    all_ascii_digits, all_digits, digits_value, eq_ignore_ascii_case, eq_ignore_case, is_ascii_alpha,
    is_ascii_alpha_char, parse_digits, push_char, str_eq, to_owned_string, trim, trim_ws,
};

verus! {

// ----- groups ---------------------------------------------------------------

/// The group names of the first `n` locations, each once, in the order in
/// which they first appear.
pub open spec fn group_names(locs: Seq<LocationView>, n: int) -> Seq<Seq<char>>
    decreases n,
{
    if n <= 0 {
        seq![]
    } else {
        let p = group_names(locs, n - 1);
        if p.contains(locs[n - 1].group) {
            p
        } else {
            p.push(locs[n - 1].group)
        }
    }
}

/// Indices, among the first `n` locations, of the numbered entries of the
/// group `name`: its locations that are not a section root, in order.
pub open spec fn entries_of(locs: Seq<LocationView>, name: Seq<char>, n: int) -> Seq<usize>
    decreases n,
{
    if n <= 0 {
        seq![]
    } else {
        let p = entries_of(locs, name, n - 1);
        if locs[n - 1].group == name && !locs[n - 1].is_section_root {
            p.push((n - 1) as usize)
        } else {
            p
        }
    }
}

/// Index, among the first `n` locations, of the first section root of the
/// group `name`.
pub open spec fn root_of(locs: Seq<LocationView>, name: Seq<char>, n: int) -> Option<usize>
    decreases n,
{
    if n <= 0 {
        None
    } else {
        match root_of(locs, name, n - 1) {
            Some(i) => Some(i),
            None => if locs[n - 1].group == name && locs[n - 1].is_section_root {
                Some((n - 1) as usize)
            } else {
                None
            },
        }
    }
}

/// A group of the menu: its name, the section root it has if any, and its
/// numbered entries, as indices into the locations.
pub struct Group {
    pub name: String,
    pub root: Option<usize>,
    pub entries: Vec<usize>,
}

pub struct GroupView {
    pub name: Seq<char>,
    pub root: Option<usize>,
    pub entries: Seq<usize>,
}

impl View for Group {
    type V = GroupView;

    open spec fn view(&self) -> GroupView {
        GroupView { name: self.name@, root: self.root, entries: self.entries@ }
    }
}

/// The `g`-th group of `locs`.
pub open spec fn group_at(locs: Seq<LocationView>, g: int) -> GroupView {
    let name = group_names(locs, locs.len() as int)[g];
    GroupView {
        name,
        root: root_of(locs, name, locs.len() as int),
        entries: entries_of(locs, name, locs.len() as int),
    }
}

/// The groups of `locs`, in order.
pub open spec fn groups_spec(locs: Seq<LocationView>) -> Seq<GroupView> {
    Seq::new(group_names(locs, locs.len() as int).len(), |g: int| group_at(locs, g))
}

/// Position of `name` in `names`.
fn position_of(names: &Vec<String>, name: &str) -> (r: Option<usize>)
    ensures
        match r {
            Some(j) => j < names.len() && names@[j as int]@ == name@,
            None => !texts(names@).contains(name@),
        },
{
    let mut j: usize = 0;
    while j < names.len()
        invariant
            j <= names.len(),
            forall|k: int| 0 <= k < j ==> names@[k]@ != name@,
        decreases names.len() - j,
    {
        if str_eq(names[j].as_str(), name) {
            return Some(j);
        }
        j = j + 1;
    }
    proof {
        if texts(names@).contains(name@) {
            let k = choose|k: int| 0 <= k < texts(names@).len() && texts(names@)[k] == name@;
            assert(names@[k]@ == name@);
        }
    }
    None
}

/// The group names of `locations`, each once, in order of first appearance.
pub fn group_name_list(locations: &[Location]) -> (r: Vec<String>)
    ensures
        texts(r@) == group_names(views(locations@), locations@.len() as int),
{
    let ghost locs = views(locations@);
    let mut names: Vec<String> = Vec::new();
    let mut i: usize = 0;
    while i < locations.len()
        invariant
            i <= locations@.len(),
            locs == views(locations@),
            texts(names@) == group_names(locs, i as int),
        decreases locations.len() - i,
    {
        let group = locations[i].group.as_str();
        assert(locs[i as int].group == group@);
        match position_of(&names, group) {
            Some(j) => {
                assert(texts(names@)[j as int] == group@);
                assert(texts(names@).contains(group@));
            },
            None => {
                names.push(locations[i].group.clone());
                assert(texts(names@) =~= group_names(locs, i as int).push(group@));
            },
        }
        i = i + 1;
    }
    names
}

fn entries_for(locations: &[Location], name: &str) -> (r: Vec<usize>)
    ensures
        r@ == entries_of(views(locations@), name@, locations@.len() as int),
{
    let ghost locs = views(locations@);
    let mut out: Vec<usize> = Vec::new();
    let mut i: usize = 0;
    while i < locations.len()
        invariant
            i <= locations@.len(),
            locs == views(locations@),
            out@ == entries_of(locs, name@, i as int),
        decreases locations.len() - i,
    {
        assert(locs[i as int] == locations@[i as int]@);
        if str_eq(locations[i].group.as_str(), name) && !locations[i].is_section_root {
            out.push(i);
        }
        i = i + 1;
    }
    out
}

fn root_for(locations: &[Location], name: &str) -> (r: Option<usize>)
    ensures
        r == root_of(views(locations@), name@, locations@.len() as int),
{
    let ghost locs = views(locations@);
    let mut found: Option<usize> = None;
    let mut i: usize = 0;
    while i < locations.len()
        invariant
            i <= locations@.len(),
            locs == views(locations@),
            found == root_of(locs, name@, i as int),
        decreases locations.len() - i,
    {
        assert(locs[i as int] == locations@[i as int]@);
        if found.is_none() && str_eq(locations[i].group.as_str(), name)
            && locations[i].is_section_root {
            found = Some(i);
        }
        i = i + 1;
    }
    found
}

/// The groups of `locations`: one per group name, in order of first
/// appearance, each with its section root and its numbered entries.
pub fn groups(locations: &[Location]) -> (r: Vec<Group>)
    ensures
        r@.map_values(|g: Group| g@) == groups_spec(views(locations@)),
{
    let ghost locs = views(locations@);
    let names = group_name_list(locations);
    let mut out: Vec<Group> = Vec::new();
    let mut g: usize = 0;
    while g < names.len()
        invariant
            g <= names.len(),
            locs == views(locations@),
            texts(names@) == group_names(locs, locs.len() as int),
            out@.len() == g,
            forall|k: int| 0 <= k < g ==> (#[trigger] out@[k])@ == group_at(locs, k),
        decreases names.len() - g,
    {
        let name = names[g].as_str();
        assert(texts(names@)[g as int] == name@);
        let entries = entries_for(locations, name);
        let root = root_for(locations, name);
        out.push(Group { name: names[g].clone(), root, entries });
        g = g + 1;
    }
    assert(out@.map_values(|g: Group| g@) =~= groups_spec(locs));
    out
}

// ----- group letters ----------------------------------------------------------

/// The capital letter `A + d`.
pub open spec fn letter(d: int) -> char {
    ((65 + d) as u8) as char
}

/// The code of the `i`-th group: `A`..`Z`, then `AA`, `AB`, and so on, a
/// numeral in bijective base 26.
pub open spec fn label_of(i: nat) -> Seq<char>
    decreases i,
{
    if i < 26 {
        seq![letter(i as int)]
    } else {
        label_of((i / 26 - 1) as nat).push(letter((i % 26) as int))
    }
}

fn letter_char(d: usize) -> (c: char)
    requires
        d < 26,
    ensures
        c == letter(d as int),
{
    (65u8 + d as u8) as char
}

/// The letter code of the group at `index`.
pub fn group_label(index: usize) -> (r: String)
    ensures
        r@ == label_of(index as nat),
    decreases index,
{
    if index < 26 {
        let mut s = String::new();
        push_char(&mut s, letter_char(index));
        assert(s@ =~= label_of(index as nat));
        s
    } else {
        let mut s = group_label(index / 26 - 1);
        push_char(&mut s, letter_char(index % 26));
        s
    }
}

// ----- common root of a legacy group --------------------------------------------

/// The nearest of `base` and its ancestors that `p` starts with.
pub open spec fn climb(base: Seq<char>, p: Seq<char>) -> Option<Seq<char>>
    decreases base.len(),
{
    if has_path_prefix(p, base) {
        Some(base)
    } else {
        match parent_of(base) {
            None => None,
            Some(q) => if q.len() < base.len() {
                climb(q, p)
            } else {
                None
            },
        }
    }
}

/// `base` raised, path after path from the `i`-th on, to the nearest
/// ancestor that each of them starts with.
pub open spec fn climb_all(base: Seq<char>, paths: Seq<Seq<char>>, i: int) -> Option<Seq<char>>
    decreases paths.len() - i,
{
    if i < 0 || i >= paths.len() {
        Some(base)
    } else {
        match climb(base, paths[i]) {
            None => None,
            Some(b) => climb_all(b, paths, i + 1),
        }
    }
}

/// The root inferred for a group of paths: from the first path (from its
/// parent when it is the only one), the nearest ancestor that every path
/// starts with, when it is not empty.
pub open spec fn shared_parent_spec(paths: Seq<Seq<char>>) -> Option<Seq<char>> {
    if paths.len() == 0 {
        None
    } else {
        let start = if paths.len() == 1 {
            parent_of(paths[0])
        } else {
            Some(paths[0])
        };
        match start {
            None => None,
            Some(s) => match climb_all(s, paths, 0) {
                Some(b) => if b.len() > 0 {
                    Some(b)
                } else {
                    None
                },
                None => None,
            },
        }
    }
}

/// The paths of the entries `es`.
pub open spec fn entry_paths(locs: Seq<LocationView>, es: Seq<usize>) -> Seq<Seq<char>> {
    es.map_values(|i: usize| locs[i as int].path)
}

/// Whether every index of `es` is a location.
pub open spec fn indices_in(es: Seq<usize>, n: int) -> bool {
    forall|k: int| 0 <= k < es.len() ==> #[trigger] es[k] < n
}

/// The root shared by the entries of a group.
pub fn shared_parent(locations: &[Location], group: &Group) -> (r: Option<String>)
    requires
        indices_in(group.entries@, locations@.len() as int),
    ensures
        match r {
            Some(s) => shared_parent_spec(entry_paths(views(locations@), group.entries@)) == Some(
                s@,
            ),
            None => shared_parent_spec(entry_paths(views(locations@), group.entries@)) is None,
        },
{
    let ghost locs = views(locations@);
    let ghost paths = entry_paths(locs, group.entries@);
    let n = group.entries.len();
    if n == 0 {
        return None;
    }
    let first = locations[group.entries[0]].path.as_str();
    assert(paths[0] == first@);
    let mut base: String = if n == 1 {
        match path_parent(first) {
            Some(q) => q,
            None => {
                return None;
            },
        }
    } else {
        to_owned_string(first)
    };
    let ghost start = base@;
    assert(start == (if paths.len() == 1 { parent_of(paths[0]).unwrap() } else { paths[0] }));
    let mut i: usize = 0;
    while i < n
        invariant
            n == group.entries@.len(),
            i <= n,
            indices_in(group.entries@, locations@.len() as int),
            locs == views(locations@),
            paths == entry_paths(locs, group.entries@),
            paths.len() == n,
            climb_all(base@, paths, i as int) == climb_all(start, paths, 0),
            paths.len() > 0,
            start == (if paths.len() == 1 { parent_of(paths[0]).unwrap() } else { paths[0] }),
            paths.len() == 1 ==> parent_of(paths[0]) is Some,
        decreases n - i,
    {
        let p = locations[group.entries[i]].path.as_str();
        assert(paths[i as int] == p@);
        let ghost b0 = base@;
        loop
            invariant
                climb(base@, p@) == climb(b0, p@),
                0 <= i < paths.len(),
                paths[i as int] == p@,
                climb_all(b0, paths, i as int) == climb_all(start, paths, 0),
                paths.len() > 0,
                start == (if paths.len() == 1 { parent_of(paths[0]).unwrap() } else { paths[0] }),
                paths.len() == 1 ==> parent_of(paths[0]) is Some,
                locs == views(locations@),
                paths == entry_paths(locs, group.entries@),
            ensures
                climb(b0, p@) == Some(base@),
            decreases base@.len(),
        {
            if path_starts_with(p, base.as_str()) {
                break;
            }
            match path_parent(base.as_str()) {
                Some(q) => {
                    base = q;
                },
                None => {
                    assert(climb(base@, p@) is None);
                    assert(climb_all(b0, paths, i as int) is None);
                    return None;
                },
            }
        }
        i = i + 1;
    }
    assert(climb_all(start, paths, 0) == Some(base@));
    if base.as_str().unicode_len() > 0 {
        Some(base)
    } else {
        None
    }
}

} // verus!

verus! {

// ----- selectors -----------------------------------------------------------------

/// Entry indices are indices of locations.
pub proof fn lemma_entries_in_range(locs: Seq<LocationView>, name: Seq<char>, n: int)
    requires
        0 <= n <= locs.len(),
    ensures
        indices_in(entries_of(locs, name, n), n),
    decreases n,
{
    if n > 0 {
        lemma_entries_in_range(locs, name, n - 1);
        let p = entries_of(locs, name, n - 1);
        assert forall|k: int| 0 <= k < entries_of(locs, name, n).len() implies #[trigger] entries_of(
            locs,
            name,
            n,
        )[k] < n by {
            if k < p.len() {
                assert(entries_of(locs, name, n)[k] == p[k]);
            }
        }
    }
}

/// A section root index is an index of a location.
pub proof fn lemma_root_in_range(locs: Seq<LocationView>, name: Seq<char>, n: int)
    requires
        0 <= n <= locs.len(),
    ensures
        root_of(locs, name, n) matches Some(i) ==> i < n,
    decreases n,
{
    if n > 0 {
        lemma_root_in_range(locs, name, n - 1);
    }
}

/// End of the run of ASCII letters that starts at `i`.
pub open spec fn alpha_end(s: Seq<char>, i: int) -> int
    decreases s.len() - i,
{
    if i < 0 || i >= s.len() || !is_ascii_alpha(s[i]) {
        i
    } else {
        alpha_end(s, i + 1)
    }
}

/// The first group, from the `g`-th on, whose code matches `label` in any
/// ASCII case.
pub open spec fn first_label_match(label: Seq<char>, g: int, count: int) -> Option<int>
    decreases count - g,
{
    if g < 0 || g >= count {
        None
    } else if eq_ignore_case(label_of(g as nat), label) {
        Some(g)
    } else {
        first_label_match(label, g + 1, count)
    }
}

pub open spec fn usage_message() -> Seq<char> {
    "use a group letter and folder number, for example A1"@
}

pub open spec fn roots_are_open_only() -> Seq<char> {
    "group roots are for opening, not PDF moves"@
}

pub open spec fn no_common_root() -> Seq<char> {
    "group has no common root"@
}

/// The folder that `<letter>0` opens: the group's section root, or for a
/// group without one the root its entries share; either way listed under
/// the group, named by its folder, and not a move destination.
pub open spec fn group_root_location(locs: Seq<LocationView>, grp: GroupView) -> Option<LocationView> {
    match grp.root {
        Some(i) => Some(
            LocationView {
                group: grp.name,
                label: folder_name_spec(locs[i as int].path),
                path: locs[i as int].path,
                move_here: false,
                root: locs[i as int].root,
                is_section_root: locs[i as int].is_section_root,
            },
        ),
        None => match shared_parent_spec(entry_paths(locs, grp.entries)) {
            Some(r) => Some(
                LocationView {
                    group: grp.name,
                    label: folder_name_spec(r),
                    path: r,
                    move_here: false,
                    root: None,
                    is_section_root: false,
                },
            ),
            None => None,
        },
    }
}

/// What a selector picks. The input is trimmed; its leading ASCII letters
/// are the group code, in any case, and the rest, trimmed, is a decimal
/// position: 0 for the group's root, which moves cannot use, and 1, 2, ...
/// for its entries, of which moves accept only `move_here` ones.
pub open spec fn resolve_spec(locs: Seq<LocationView>, input: Seq<char>, move_only: bool) -> Result<
    LocationView,
    Seq<char>,
> {
    let choice = trim_ws(input);
    let k = alpha_end(choice, 0);
    let label = choice.take(k);
    let number = trim_ws(choice.skip(k));
    if label.len() == 0 || number.len() == 0 || !all_digits(number) {
        Err(usage_message())
    } else if digits_value(number) > usize::MAX {
        Err("invalid position: "@ + number)
    } else {
        let gs = groups_spec(locs);
        match first_label_match(label, 0, gs.len() as int) {
            None => Err("unknown destination: "@ + choice),
            Some(g) => {
                let grp = gs[g];
                let v = digits_value(number);
                if v == 0 {
                    if move_only {
                        Err(roots_are_open_only())
                    } else {
                        match group_root_location(locs, grp) {
                            Some(l) => Ok(l),
                            None => Err(no_common_root()),
                        }
                    }
                } else if v > grp.entries.len() {
                    Err("unknown destination: "@ + choice)
                } else {
                    let l = locs[grp.entries[v - 1] as int];
                    if move_only && !l.move_here {
                        Err(choice + " is not a PDF move destination"@)
                    } else {
                        Ok(l)
                    }
                }
            },
        }
    }
}

fn text_with(prefix: &str, rest: &str) -> (r: String)
    ensures
        r@ == prefix@ + rest@,
{
    let mut s = to_owned_string(prefix);
    s.append(rest);
    s
}

/// The location that a selector such as `B2`, ` a0 ` or `AA12` picks, or
/// the reason why it picks none.
pub fn resolve(locations: &[Location], input: &str, move_only: bool) -> (r: Result<Location, String>)
    ensures
        match r {
            Ok(l) => resolve_spec(views(locations@), input@, move_only) == Ok::<
                LocationView,
                Seq<char>,
            >(l@),
            Err(e) => resolve_spec(views(locations@), input@, move_only) == Err::<
                LocationView,
                Seq<char>,
            >(e@),
        },
{
    let ghost locs = views(locations@);
    let choice = trim(input);
    let n = choice.unicode_len();
    let mut k: usize = 0;
    while k < n && is_ascii_alpha_char(choice.get_char(k))
        invariant
            n == choice@.len(),
            k <= n,
            alpha_end(choice@, 0) == alpha_end(choice@, k as int),
        decreases n - k,
    {
        k = k + 1;
    }
    let label = choice.substring_char(0, k);
    let number = trim(choice.substring_char(k, n));
    assert(label@ =~= choice@.take(k as int));
    assert(choice@.subrange(k as int, n as int) =~= choice@.skip(k as int));
    if label.unicode_len() == 0 || number.unicode_len() == 0 || !all_ascii_digits(number) {
        return Err(to_owned_string("use a group letter and folder number, for example A1"));
    }
    let value = match parse_digits(number) {
        Some(v) => v,
        None => {
            return Err(text_with("invalid position: ", number));
        },
    };
    let grouped = groups(locations);
    let ghost gs = groups_spec(locs);
    assert(grouped@.len() == gs.len() && forall|j: int|
        0 <= j < gs.len() ==> (#[trigger] grouped@[j])@ == gs[j]) by {
        assert(grouped@.map_values(|g: Group| g@).len() == grouped@.len());
        assert forall|j: int| 0 <= j < gs.len() implies (#[trigger] grouped@[j])@ == gs[j] by {
            assert(grouped@.map_values(|g: Group| g@)[j] == grouped@[j]@);
        }
    }
    let count = grouped.len();
    let mut g: usize = 0;
    let mut found: Option<usize> = None;
    while found.is_none() && g < count
        invariant
            count == gs.len(),
            g <= count,
            found matches Some(x) ==> first_label_match(label@, 0, count as int) == Some(x as int)
                && x < count,
            found is None ==> first_label_match(label@, 0, count as int) == first_label_match(
                label@,
                g as int,
                count as int,
            ),
        decreases count - g + (if found is None { 1int } else { 0int }),
    {
        let code = group_label(g);
        if eq_ignore_ascii_case(code.as_str(), label) {
            found = Some(g);
        } else {
            g = g + 1;
        }
    }
    let g = match found {
        None => {
            return Err(text_with("unknown destination: ", choice));
        },
        Some(x) => x,
    };
    let group = &grouped[g];
    assert(group@ == gs[g as int]);
    let name = group.name.as_str();
    assert(gs[g as int] == group_at(locs, g as int));
    proof {
        lemma_entries_in_range(locs, name@, locs.len() as int);
        lemma_root_in_range(locs, name@, locs.len() as int);
    }
    if value == 0 {
        if move_only {
            return Err(to_owned_string("group roots are for opening, not PDF moves"));
        }
        match group.root {
            Some(i) => {
                let stored = &locations[i];
                let root = match &stored.root {
                    Some(r) => Some(r.clone()),
                    None => None,
                };
                return Ok(
                    Location {
                        group: group.name.clone(),
                        label: folder_name(stored.path.as_str()),
                        path: stored.path.clone(),
                        move_here: false,
                        root,
                        is_section_root: stored.is_section_root,
                    },
                );
            },
            None => match shared_parent(locations, group) {
                Some(root) => {
                    let label = folder_name(root.as_str());
                    return Ok(
                        Location {
                            group: group.name.clone(),
                            label,
                            path: root,
                            move_here: false,
                            root: None,
                            is_section_root: false,
                        },
                    );
                },
                None => {
                    return Err(to_owned_string("group has no common root"));
                },
            },
        }
    }
    if value > group.entries.len() {
        return Err(text_with("unknown destination: ", choice));
    }
    let index = group.entries[value - 1];
    let location = &locations[index];
    if move_only && !location.move_here {
        let mut e = to_owned_string(choice);
        e.append(" is not a PDF move destination");
        return Err(e);
    }
    Ok(location.duplicate())
}

} // verus!
