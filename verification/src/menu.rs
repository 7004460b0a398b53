//! The folder menu as text, and the prompt that reads selectors until one
//! picks a folder or the user cancels.
use vstd::prelude::*;

use crate::location::{Location, LocationView, views};
use crate::paths::{
    home_display, tilde_home, folder_name, folder_name_spec, parent_of, path_parent, path_strip_prefix,
    suffix_after,
};
use crate::picker::{
    Group, GroupView, entry_paths, group_at, group_label, groups, groups_spec,
    indices_in, label_of, lemma_entries_in_range, lemma_root_in_range, resolve, resolve_spec,
    shared_parent, shared_parent_spec,
};
use crate::text::{
    decimal, decimal_string, eq_ignore_ascii_case, eq_ignore_case, push_char, str_eq,
    to_owned_string, trailing_end, trim, trim_end_char, trim_ws,
};

verus! {

/// The version shown at the top of the menu.
pub const VERSION: &'static str = "0.1.0";

/// `text` in the ANSI style `code` when `color` is on.
pub open spec fn paint_spec(color: bool, code: Seq<char>, text: Seq<char>) -> Seq<char> {
    if color {
        "\x1b["@ + code + "m"@ + text + "\x1b[0m"@
    } else {
        text
    }
}

/// `text` in the ANSI style `code` when `color` is on.
pub fn paint(color: bool, code: &str, text: &str) -> (r: String)
    ensures
        r@ == paint_spec(color, code@, text@),
{
    if color {
        let mut s = to_owned_string("\x1b[");
        s.append(code);
        s.append("m");
        s.append(text);
        s.append("\x1b[0m");
        s
    } else {
        to_owned_string(text)
    }
}

pub open spec fn divider() -> Seq<char> {
    "--------------"@
}

/// The two lines at the top of the menu: the name and version, then the
/// title between dividers.
pub open spec fn banner_spec(color: bool, title: Seq<char>) -> Seq<char> {
    "\n  "@ + paint_spec(color, "33"@, "*"@) + " "@ + paint_spec(color, "1"@, "Shelve"@) + " "@
        + paint_spec(color, "2"@, "(v"@ + VERSION@ + ")"@) + "\n"@ + "\n  "@ + paint_spec(
        color,
        "2"@,
        divider(),
    ) + " "@ + paint_spec(color, "94"@, title) + " "@ + paint_spec(color, "2"@, divider()) + "\n"@
}

/// The root shown in a group's heading: its section root, or for a group
/// without one the root its entries share.
pub open spec fn group_root_path(locs: Seq<LocationView>, grp: GroupView) -> Option<Seq<char>> {
    match grp.root {
        Some(i) => Some(locs[i as int].path),
        None => shared_parent_spec(entry_paths(locs, grp.entries)),
    }
}

/// The parent path shown after a heading: the root's parent (the root
/// itself when it has none or it is empty), with the home directory as `~`,
/// without trailing `/`, then `/`.
pub open spec fn heading_context(root: Seq<char>, home: Option<Seq<char>>) -> Seq<char> {
    let up = match parent_of(root) {
        Some(q) => if q.len() > 0 {
            q
        } else {
            root
        },
        None => root,
    };
    let shown = home_display(up, home);
    " ("@ + shown.take(trailing_end(shown, '/', shown.len() as int)) + "/)"@
}

/// Whether some location of the group `name` is listed: any of them in the
/// open menu, the `move_here` ones in the move menu.
pub open spec fn visible(locs: Seq<LocationView>, name: Seq<char>, move_only: bool) -> bool {
    exists|i: int|
        0 <= i < locs.len() && #[trigger] locs[i].group == name && (!move_only || locs[i].move_here)
}

/// A position right-aligned in two columns, then `)`.
pub open spec fn position_code(n: nat) -> Seq<char> {
    let d = decimal(n);
    (if d.len() < 2 {
        seq![' '] + d
    } else {
        d
    }) + ")"@
}

/// The path of an entry as shown: relative to the group root when it lies
/// under it.
pub open spec fn shown_path(parent: Option<Seq<char>>, path: Seq<char>) -> Seq<char> {
    match parent {
        Some(par) => match suffix_after(path, par) {
            Some(s) => s,
            None => path,
        },
        None => path,
    }
}

/// The line of the entry at position `j` (from 0): its position, its folder
/// name, and where it lies (the home directory as `~`) when that is not
/// simply the name under the root.
pub open spec fn entry_line(parent: Option<Seq<char>>, path: Seq<char>, j: nat, color: bool, home: Option<Seq<char>>) -> Seq<
    char,
> {
    let shown = shown_path(parent, path);
    let name = folder_name_spec(path);
    let ctx = if parent is Some && shown == name {
        Seq::<char>::empty()
    } else {
        " ("@ + (if shown.len() == 0 {
            "."@
        } else {
            home_display(shown, home)
        }) + ")"@
    };
    "     "@ + paint_spec(color, "36"@, position_code(j + 1)) + " "@ + paint_spec(color, "32"@, name)
        + paint_spec(color, "90"@, ctx) + "\n"@
}

/// The lines of the first `j` entries of a group.
pub open spec fn entries_text(
    locs: Seq<LocationView>,
    grp: GroupView,
    parent: Option<Seq<char>>,
    move_only: bool,
    color: bool,
    home: Option<Seq<char>>,
    j: int,
) -> Seq<char>
    decreases j,
{
    if j <= 0 {
        Seq::<char>::empty()
    } else {
        let l = locs[grp.entries[j - 1] as int];
        entries_text(locs, grp, parent, move_only, color, home, j - 1) + if !move_only || l.move_here {
            entry_line(parent, l.path, (j - 1) as nat, color, home)
        } else {
            Seq::<char>::empty()
        }
    }
}

/// The heading of the `g`-th group: its code, its root's name (or the
/// group's name when it has no root) and the root's parent path.
pub open spec fn group_heading(locs: Seq<LocationView>, g: int, color: bool, home: Option<Seq<char>>) -> Seq<char> {
    let grp = groups_spec(locs)[g];
    let parent = group_root_path(locs, grp);
    let ctx = match parent {
        Some(root) => heading_context(root, home),
        None => Seq::<char>::empty(),
    };
    let heading = match parent {
        Some(root) => folder_name_spec(root),
        None => grp.name,
    };
    "\n  "@ + paint_spec(color, "33"@, label_of(g as nat)) + ".  "@ + paint_spec(color, "1"@, heading)
        + paint_spec(color, "90"@, ctx) + "\n"@
}

/// The block of the `g`-th group: nothing when it lists no location,
/// otherwise its heading, then its entries.
pub open spec fn group_text(locs: Seq<LocationView>, g: int, move_only: bool, color: bool, home: Option<Seq<char>>) -> Seq<
    char,
> {
    let grp = groups_spec(locs)[g];
    if !visible(locs, grp.name, move_only) {
        Seq::<char>::empty()
    } else {
        group_heading(locs, g, color, home) + entries_text(
            locs,
            grp,
            group_root_path(locs, grp),
            move_only,
            color, home,
            grp.entries.len() as int,
        )
    }
}

/// The blocks of the first `g` groups.
pub open spec fn groups_text(locs: Seq<LocationView>, move_only: bool, color: bool,
    home: Option<Seq<char>>, g: int) -> Seq<
    char,
>
    decreases g,
{
    if g <= 0 {
        Seq::<char>::empty()
    } else {
        groups_text(locs, move_only, color, home, g - 1) + group_text(locs, g - 1, move_only, color, home)
    }
}

/// The whole menu.
pub open spec fn render_spec(title: Seq<char>, locs: Seq<LocationView>, move_only: bool, color: bool, home: Option<Seq<char>>) -> Seq<
    char,
> {
    banner_spec(color, title) + groups_text(locs, move_only, color, home, groups_spec(locs).len() as int)
        + "\n"@
}

fn position_text(n: usize) -> (r: String)
    ensures
        r@ == position_code(n as nat),
{
    let d = decimal_string(n);
    let mut s = String::new();
    proof {
        crate::text::lemma_decimal_round_trip(n as nat);
    }
    if d.as_str().unicode_len() < 2 {
        push_char(&mut s, ' ');
        assert(s@ =~= seq![' ']);
    }
    s.append(d.as_str());
    s.append(")");
    s
}

fn heading_context_text(root: &str, home: Option<&str>) -> (r: String)
    ensures
        r@ == heading_context(root@, crate::text::opt_view(home)),
{
    let parent = path_parent(root);
    let up: String = match parent {
        Some(q) => if q.as_str().unicode_len() > 0 {
            q
        } else {
            to_owned_string(root)
        },
        None => to_owned_string(root),
    };
    let shown = tilde_home(up.as_str(), home);
    let mut s = to_owned_string(" (");
    s.append(trim_end_char(shown.as_str(), '/'));
    s.append("/)");
    s
}

fn entry_line_text(parent: Option<&str>, path: &str, j: usize, color: bool, home: Option<&str>) -> (r:
    String)
    requires
        j < usize::MAX,
    ensures
        r@ == entry_line(crate::text::opt_view(parent), path@, j as nat, color, crate::text::opt_view(home)),
{
    let shown: String = match parent {
        Some(par) => match path_strip_prefix(path, par) {
            Some(s) => s,
            None => to_owned_string(path),
        },
        None => to_owned_string(path),
    };
    let name = folder_name(path);
    let ctx: String = if parent.is_some() && str_eq(shown.as_str(), name.as_str()) {
        String::new()
    } else {
        let mut c = to_owned_string(" (");
        if shown.as_str().unicode_len() == 0 {
            c.append(".");
        } else {
            c.append(tilde_home(shown.as_str(), home).as_str());
        }
        c.append(")");
        c
    };
    let mut s = to_owned_string("     ");
    let code = position_text(j + 1);
    s.append(paint(color, "36", code.as_str()).as_str());
    s.append(" ");
    s.append(paint(color, "32", name.as_str()).as_str());
    s.append(paint(color, "90", ctx.as_str()).as_str());
    s.append("\n");
    s
}

fn is_visible(locations: &[Location], name: &str, move_only: bool) -> (r: bool)
    ensures
        r == visible(views(locations@), name@, move_only),
{
    let ghost locs = views(locations@);
    let mut i: usize = 0;
    while i < locations.len()
        invariant
            i <= locations@.len(),
            locs == views(locations@),
            forall|k: int|
                0 <= k < i ==> !(#[trigger] locs[k].group == name@ && (!move_only
                    || locs[k].move_here)),
        decreases locations.len() - i,
    {
        assert(locs[i as int] == locations@[i as int]@);
        if str_eq(locations[i].group.as_str(), name) && (!move_only || locations[i].move_here) {
            assert(locs[i as int].group == name@);
            return true;
        }
        i = i + 1;
    }
    false
}


fn group_block(
    locations: &[Location],
    group: &Group,
    g: usize,
    move_only: bool,
    color: bool,
    home: Option<&str>,
) -> (r: String)
    requires
        g < groups_spec(views(locations@)).len(),
        group@ == groups_spec(views(locations@))[g as int],
    ensures
        r@ == group_text(views(locations@), g as int, move_only, color, crate::text::opt_view(home)),
{
    let ghost locs = views(locations@);
    let ghost grp = group@;
    assert(grp == group_at(locs, g as int));
    proof {
        lemma_entries_in_range(locs, grp.name, locs.len() as int);
        lemma_root_in_range(locs, grp.name, locs.len() as int);
    }
    if !is_visible(locations, group.name.as_str(), move_only) {
        return String::new();
    }
    let parent: Option<String> = match group.root {
        Some(i) => Some(locations[i].path.clone()),
        None => shared_parent(locations, group),
    };
    let ghost parent_view: Option<Seq<char>> = match &parent {
        Some(p) => Some(p@),
        None => None,
    };
    assert(parent_view == group_root_path(locs, grp));
    let ctx: String = match &parent {
        Some(root) => heading_context_text(root.as_str(), home),
        None => String::new(),
    };
    let heading: String = match &parent {
        Some(root) => folder_name(root.as_str()),
        None => group.name.clone(),
    };
    let mut s = to_owned_string("\n  ");
    let code = group_label(g);
    s.append(paint(color, "33", code.as_str()).as_str());
    s.append(".  ");
    s.append(paint(color, "1", heading.as_str()).as_str());
    s.append(paint(color, "90", ctx.as_str()).as_str());
    s.append("\n");
    let ghost head = s@;
    let n = group.entries.len();
    let parent_str: Option<&str> = match &parent {
        Some(p) => Some(p.as_str()),
        None => None,
    };
    assert(crate::text::opt_view(parent_str) == parent_view);
    let mut j: usize = 0;
    while j < n
        invariant
            n == grp.entries.len(),
            j <= n,
            locs == views(locations@),
            grp == group@,
            indices_in(grp.entries, locs.len() as int),
            crate::text::opt_view(parent_str) == parent_view,
            s@ == head + entries_text(locs, grp, parent_view, move_only, color, crate::text::opt_view(home), j as int),
        decreases n - j,
    {
        let loc = &locations[group.entries[j]];
        assert(locs[grp.entries[j as int] as int] == loc@);
        if !move_only || loc.move_here {
            let line = entry_line_text(parent_str, loc.path.as_str(), j, color, home);
            s.append(line.as_str());
        }
        assert(s@ =~= head + entries_text(locs, grp, parent_view, move_only, color, crate::text::opt_view(home), j as int + 1));
        j = j + 1;
    }
    s
}

fn write_banner(out: &mut String, title: &str, color: bool)
    ensures
        final(out)@ == old(out)@ + banner_spec(color, title@),
{
    let ghost start = out@;
    out.append("\n  ");
    out.append(paint(color, "33", "*").as_str());
    out.append(" ");
    out.append(paint(color, "1", "Shelve").as_str());
    out.append(" ");
    let mut version = to_owned_string("(v");
    version.append(VERSION);
    version.append(")");
    out.append(paint(color, "2", version.as_str()).as_str());
    out.append("\n");
    out.append("\n  ");
    out.append(paint(color, "2", "--------------").as_str());
    out.append(" ");
    out.append(paint(color, "94", title).as_str());
    out.append(" ");
    out.append(paint(color, "2", "--------------").as_str());
    out.append("\n");
    assert(out@ =~= start + banner_spec(color, title@));
}

/// Writes the menu: the banner, then each group that lists a location, by
/// its letter code, with its entries by position; paths are shown as they
/// are.
pub fn render(out: &mut String, title: &str, locations: &[Location], move_only: bool, color: bool)
    ensures
        final(out)@ == old(out)@ + render_spec(title@, views(locations@), move_only, color, None),
{
    render_with_home(out, title, locations, move_only, color, None);
}

/// Writes the menu: the banner, then each group that lists a location, by
/// its letter code, with its entries by position; paths below `home` are
/// shown with `~`.
pub fn render_with_home(
    out: &mut String,
    title: &str,
    locations: &[Location],
    move_only: bool,
    color: bool,
    home: Option<&str>,
)
    ensures
        final(out)@ == old(out)@ + render_spec(title@, views(locations@), move_only, color, crate::text::opt_view(home)),
{
    let ghost locs = views(locations@);
    let ghost start = out@;
    write_banner(out, title, color);
    assert(out@ =~= start + banner_spec(color, title@));
    let grouped = groups(locations);
    let ghost gs = groups_spec(locs);
    assert(grouped@.len() == gs.len() && forall|j: int|
        0 <= j < gs.len() ==> (#[trigger] grouped@[j])@ == gs[j]) by {
        assert(grouped@.map_values(|g: Group| g@).len() == grouped@.len());
        assert forall|j: int| 0 <= j < gs.len() implies (#[trigger] grouped@[j])@ == gs[j] by {
            assert(grouped@.map_values(|g: Group| g@)[j] == grouped@[j]@);
        }
    }
    let mut g: usize = 0;
    while g < grouped.len()
        invariant
            g <= grouped@.len(),
            locs == views(locations@),
            gs == groups_spec(locs),
            grouped@.len() == gs.len(),
            forall|j: int| 0 <= j < gs.len() ==> (#[trigger] grouped@[j])@ == gs[j],
            out@ == start + banner_spec(color, title@) + groups_text(locs, move_only, color, crate::text::opt_view(home), g as int),
        decreases grouped.len() - g,
    {
        let block = group_block(locations, &grouped[g], g, move_only, color, home);
        out.append(block.as_str());
        assert(out@ =~= start + banner_spec(color, title@) + groups_text(
            locs,
            move_only,
            color, crate::text::opt_view(home),
            g as int + 1,
        ));
        g = g + 1;
    }
    out.append("\n");
    assert(out@ =~= start + render_spec(title@, locs, move_only, color, crate::text::opt_view(home)));
}


/// What the prompt asks before each selector, without color.
pub const PROMPT: &'static str = "  > open <sector><position>: ";

/// The prompt in its styles: the marker bright blue, the action bold, the
/// placeholder dim.
pub open spec fn prompt_text_spec(color: bool) -> Seq<char> {
    "  "@ + paint_spec(color, "94"@, ">"@) + " "@ + paint_spec(color, "1"@, "open"@) + " "@
        + paint_spec(color, "2"@, "<sector><position>"@) + ": "@
}

/// The prompt in its styles when `color` is on.
pub fn prompt_text(color: bool) -> (r: String)
    ensures
        r@ == prompt_text_spec(color),
{
    let mut s = to_owned_string("  ");
    s.append(paint(color, "94", ">").as_str());
    s.append(" ");
    s.append(paint(color, "1", "open").as_str());
    s.append(" ");
    s.append(paint(color, "2", "<sector><position>").as_str());
    s.append(": ");
    s
}

/// What one line of input does at the prompt.
pub enum PromptStep {
    /// Empty input, `q` or Escape: nothing is chosen.
    Cancel,
    /// The selector picked this location.
    Chosen(Location),
    /// The selector picked nothing, for this reason; the prompt asks again.
    Retry(String),
}

/// What one line does: `None` cancels, otherwise what the trimmed line
/// resolves to.
pub open spec fn prompt_step_spec(locs: Seq<LocationView>, line: Seq<char>, move_only: bool) -> Option<
    Result<LocationView, Seq<char>>,
> {
    let choice = trim_ws(line);
    if choice.len() == 0 || eq_ignore_case(choice, "q"@) || choice == seq!['\x1b'] {
        None
    } else {
        Some(resolve_spec(locs, choice, move_only))
    }
}

/// Index just past the end of the line that starts at `i`: past its
/// newline, or the end of the input.
pub open spec fn line_end(s: Seq<char>, i: int) -> int
    decreases s.len() - i,
{
    if i < 0 || i >= s.len() {
        s.len() as int
    } else if s[i] == '\n' {
        i + 1
    } else {
        line_end(s, i + 1)
    }
}

/// The prompt run on the input from index `i`: what it chooses and what it
/// writes. Each round writes the prompt and reads a line; a selector that
/// picks nothing has its reason written before the next round.
pub open spec fn prompt_run(locs: Seq<LocationView>, input: Seq<char>, i: int, move_only: bool) -> (
    Option<LocationView>,
    Seq<char>,
)
    decreases input.len() - i,
{
    let e = line_end(input, i);
    let line = input.subrange(i, e);
    match prompt_step_spec(locs, line, move_only) {
        None => (None, PROMPT@),
        Some(Ok(l)) => (Some(l), PROMPT@),
        Some(Err(err)) => if i < e <= input.len() {
            let rest = prompt_run(locs, input, e, move_only);
            (rest.0, PROMPT@ + "\n  "@ + err + "\n\n"@ + rest.1)
        } else {
            (None, PROMPT@)
        },
    }
}

/// What one line of input does at the prompt.
pub fn prompt_step(locations: &[Location], line: &str, move_only: bool) -> (r: PromptStep)
    ensures
        match r {
            PromptStep::Cancel => prompt_step_spec(views(locations@), line@, move_only) is None,
            PromptStep::Chosen(l) => prompt_step_spec(views(locations@), line@, move_only) == Some(
                Ok::<LocationView, Seq<char>>(l@),
            ),
            PromptStep::Retry(e) => prompt_step_spec(views(locations@), line@, move_only) == Some(
                Err::<LocationView, Seq<char>>(e@),
            ),
        },
{
    let choice = trim(line);
    let escape = choice.unicode_len() == 1 && choice.get_char(0) == '\x1b';
    proof {
        if choice@ == seq!['\x1b'] {
            assert(choice@.len() == 1 && choice@[0] == '\x1b');
        }
        if escape {
            assert(choice@ =~= seq!['\x1b']);
        }
    }
    if choice.unicode_len() == 0 || eq_ignore_ascii_case(choice, "q") || escape {
        return PromptStep::Cancel;
    }
    match resolve(locations, choice, move_only) {
        Ok(l) => PromptStep::Chosen(l),
        Err(e) => PromptStep::Retry(e),
    }
}

/// Reads selectors from `input`, one per line, writing the prompt and any
/// error to `out`, until one picks a location or a line cancels; the end of
/// the input cancels too.
pub fn prompt(input: &str, out: &mut String, locations: &[Location], move_only: bool) -> (r: Result<
    Option<Location>,
    String,
>)
    ensures
        r is Ok,
        match r {
            Ok(Some(l)) => prompt_run(views(locations@), input@, 0, move_only).0 == Some(l@),
            Ok(None) => prompt_run(views(locations@), input@, 0, move_only).0 is None,
            Err(_) => false,
        },
        final(out)@ == old(out)@ + prompt_run(views(locations@), input@, 0, move_only).1,
{
    let ghost locs = views(locations@);
    let ghost start = out@;
    let n = input.unicode_len();
    let mut i: usize = 0;
    loop
        invariant
            n == input@.len(),
            i <= n,
            locs == views(locations@),
            start == old(out)@,
            start + prompt_run(locs, input@, 0, move_only).1 == out@ + prompt_run(
                locs,
                input@,
                i as int,
                move_only,
            ).1,
            prompt_run(locs, input@, 0, move_only).0 == prompt_run(locs, input@, i as int, move_only).0,
        decreases n - i,
    {
        let ghost before = out@;
        out.append(PROMPT);
        let mut e: usize = i;
        while e < n && input.get_char(e) != '\n'
            invariant
                n == input@.len(),
                i <= e <= n,
                line_end(input@, i as int) == line_end(input@, e as int),
            decreases n - e,
        {
            e = e + 1;
        }
        let e = if e < n {
            e + 1
        } else {
            e
        };
        assert(e as int == line_end(input@, i as int));
        let line = input.substring_char(i, e);
        assert(line@ == input@.subrange(i as int, e as int));
        match prompt_step(locations, line, move_only) {
            PromptStep::Cancel => {
                assert(prompt_run(locs, input@, i as int, move_only).1 == PROMPT@);
                assert(out@ =~= before + PROMPT@);
                assert(out@ == start + prompt_run(locs, input@, 0, move_only).1);
                return Ok(None);
            },
            PromptStep::Chosen(l) => {
                assert(prompt_run(locs, input@, i as int, move_only).1 == PROMPT@);
                assert(out@ =~= before + PROMPT@);
                assert(out@ == start + prompt_run(locs, input@, 0, move_only).1);
                return Ok(Some(l));
            },
            PromptStep::Retry(err) => {
                if e == i {
                    assert(line@ =~= Seq::<char>::empty());
                    assert(trim_ws(line@) =~= Seq::<char>::empty());
                }
                out.append("\n  ");
                out.append(err.as_str());
                out.append("\n\n");
                assert(out@ =~= before + (PROMPT@ + "\n  "@ + err@ + "\n\n"@));
                i = e;
            },
        }
    }
}

/// Whether the menu is drawn in color: only on a terminal, without
/// `NO_COLOR`, and with a `TERM` that is set and not `dumb`.
pub fn color_enabled(is_terminal: bool, no_color: bool, term: Option<&str>) -> (r: bool)
    ensures
        r == (is_terminal && !no_color && match term {
            Some(t) => t@ != "dumb"@,
            None => false,
        }),
{
    let term_ok = match term {
        Some(t) => !str_eq(t, "dumb"),
        None => false,
    };
    is_terminal && !no_color && term_ok
}
} // verus!
