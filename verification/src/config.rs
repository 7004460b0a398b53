//! The configuration: legacy flat locations, and sections whose root,
//! pins and discovered children become locations.
use vstd::prelude::*;

use crate::location::{Location, LocationView, texts, views};
use crate::paths::{
    expand_home, expand_home_spec, folder_name, folder_name_spec, has_parent_component,
    has_parent_ref, has_path_prefix, is_absolute, join, join_path, lowercase_of, path_starts_with,
    paths_equal, same_path, to_lowercase,
};
use crate::text::{decimal, opt_view, push_decimal, str_less, text_lt, to_owned_string};

verus! {

/// A section of the configuration: a root folder, whether its direct
/// subfolders are listed, the pinned folders below it, and the folders
/// among those that PDFs may be moved into.
pub struct Section {
    pub root: String,
    pub children: bool,
    pub pins: Vec<String>,
    pub move_here: Vec<String>,
}

pub struct SectionView {
    pub root: Seq<char>,
    pub children: bool,
    pub pins: Seq<Seq<char>>,
    pub move_here: Seq<Seq<char>>,
}

impl View for Section {
    type V = SectionView;

    open spec fn view(&self) -> SectionView {
        SectionView {
            root: self.root@,
            children: self.children,
            pins: texts(self.pins@),
            move_here: texts(self.move_here@),
        }
    }
}

/// One entry of a section root as the file system reported it: an entry
/// that could not be read, with the error, or an entry's name with whether
/// it is a folder (or the error that its type gave).
pub enum ChildEntry {
    Unreadable(String),
    Entry { name: String, is_dir: Result<bool, String> },
}

pub enum ChildEntryView {
    Unreadable(Seq<char>),
    Entry { name: Seq<char>, is_dir: Result<bool, Seq<char>> },
}

impl View for ChildEntry {
    type V = ChildEntryView;

    open spec fn view(&self) -> ChildEntryView {
        match self {
            ChildEntry::Unreadable(e) => ChildEntryView::Unreadable(e@),
            ChildEntry::Entry { name, is_dir } => ChildEntryView::Entry {
                name: name@,
                is_dir: match is_dir {
                    Ok(b) => Ok(*b),
                    Err(e) => Err(e@),
                },
            },
        }
    }
}

/// What the file system says of a section root: whether it is a folder,
/// and its entries, or the error that listing it gave.
pub struct RootListing {
    pub is_dir: bool,
    pub entries: Result<Vec<ChildEntry>, String>,
}

pub struct RootListingView {
    pub is_dir: bool,
    pub entries: Result<Seq<ChildEntryView>, Seq<char>>,
}

impl View for RootListing {
    type V = RootListingView;

    open spec fn view(&self) -> RootListingView {
        RootListingView {
            is_dir: self.is_dir,
            entries: match &self.entries {
                Ok(v) => Ok(v@.map_values(|e: ChildEntry| e@)),
                Err(e) => Err(e@),
            },
        }
    }
}

// ----- section paths ------------------------------------------------------------

pub open spec fn is_home_relative(p: Seq<char>) -> bool {
    p =~= seq!['~'] || (p.len() >= 2 && p[0] == '~' && p[1] == '/')
}

/// A path of a section, made absolute: absolute and home-relative paths as
/// written, other paths below the root, where they may not climb with `..`;
/// either way the result must lie below the root.
pub open spec fn resolve_section_path_spec(root: Seq<char>, configured: Seq<char>, home: Option<
    Seq<char>,
>) -> Result<Seq<char>, Seq<char>> {
    let resolved = if is_absolute(configured) || is_home_relative(configured) {
        expand_home_spec(configured, home)
    } else if has_parent_ref(configured) {
        Err("relative section path must stay below its root: "@ + configured)
    } else {
        Ok(join_path(root, configured))
    };
    match resolved {
        Err(e) => Err(e),
        Ok(p) => if has_path_prefix(p, root) {
            Ok(p)
        } else {
            Err("section path is outside its root "@ + root + ": "@ + p)
        },
    }
}

/// A path of a section, made absolute and checked to lie below the root.
pub fn resolve_section_path(root: &str, configured: &str, home: Option<&str>) -> (r: Result<
    String,
    String,
>)
    ensures
        match r {
            Ok(p) => resolve_section_path_spec(root@, configured@, opt_view(home)) == Ok::<
                Seq<char>,
                Seq<char>,
            >(p@),
            Err(e) => resolve_section_path_spec(root@, configured@, opt_view(home)) == Err::<
                Seq<char>,
                Seq<char>,
            >(e@),
        },
{
    let n = configured.unicode_len();
    let absolute = n > 0 && configured.get_char(0) == '/';
    let tilde = (n == 1 && configured.get_char(0) == '~') || (n >= 2 && configured.get_char(0)
        == '~' && configured.get_char(1) == '/');
    proof {
        if n == 1 && configured@[0] == '~' {
            assert(configured@ =~= seq!['~']);
        }
    }
    let resolved = if absolute || tilde {
        expand_home(configured, home)?
    } else {
        if has_parent_component(configured) {
            let mut e = to_owned_string("relative section path must stay below its root: ");
            e.append(configured);
            return Err(e);
        }
        join(root, configured)
    };
    if !path_starts_with(resolved.as_str(), root) {
        let mut e = to_owned_string("section path is outside its root ");
        e.append(root);
        e.append(": ");
        e.append(resolved.as_str());
        return Err(e);
    }
    Ok(resolved)
}


// ----- sections ------------------------------------------------------------------

/// Whether `p` is the same path as one of `ps`.
pub open spec fn listed(ps: Seq<Seq<char>>, p: Seq<char>) -> bool {
    exists|j: int| 0 <= j < ps.len() && same_path(p, #[trigger] ps[j])
}

/// `ps` with `p` added at the end unless it is already listed.
pub open spec fn add_unique(ps: Seq<Seq<char>>, p: Seq<char>) -> Seq<Seq<char>> {
    if listed(ps, p) {
        ps
    } else {
        ps.push(p)
    }
}

/// `ps` with the first `k` of `qs` added, each unless already listed.
pub open spec fn add_all_unique(ps: Seq<Seq<char>>, qs: Seq<Seq<char>>, k: int) -> Seq<Seq<char>>
    decreases k,
{
    if k <= 0 {
        ps
    } else {
        add_unique(add_all_unique(ps, qs, k - 1), qs[k - 1])
    }
}

/// The paths of the first `k` pins, in order, without the root and without
/// repeats; the first pin that does not resolve gives the error.
pub open spec fn pin_paths(root: Seq<char>, pins: Seq<Seq<char>>, home: Option<Seq<char>>, k: int) -> Result<
    Seq<Seq<char>>,
    Seq<char>,
>
    decreases k,
{
    if k <= 0 {
        Ok(seq![])
    } else {
        match pin_paths(root, pins, home, k - 1) {
            Err(e) => Err(e),
            Ok(ps) => match resolve_section_path_spec(root, pins[k - 1], home) {
                Err(e) => Err(e),
                Ok(p) => if same_path(p, root) {
                    Ok(ps)
                } else {
                    Ok(add_unique(ps, p))
                },
            },
        }
    }
}

pub open spec fn read_error(root: Seq<char>, e: Seq<char>) -> Seq<char> {
    "cannot read section root "@ + root + ": "@ + e
}

/// The names of the folders among the first `k` entries of a root, hidden
/// ones (starting with `.`) left out; the first entry that cannot be read
/// or inspected gives the error.
pub open spec fn child_dirs(root: Seq<char>, entries: Seq<ChildEntryView>, k: int) -> Result<
    Seq<Seq<char>>,
    Seq<char>,
>
    decreases k,
{
    if k <= 0 {
        Ok(seq![])
    } else {
        match child_dirs(root, entries, k - 1) {
            Err(e) => Err(e),
            Ok(ns) => match entries[k - 1] {
                ChildEntryView::Unreadable(e) => Err(read_error(root, e)),
                ChildEntryView::Entry { name, is_dir } => if name.len() > 0 && name[0] == '.' {
                    Ok(ns)
                } else {
                    match is_dir {
                        Err(e) => Err(
                            "cannot inspect section child "@ + join_path(root, name) + ": "@ + e,
                        ),
                        Ok(d) => if d {
                            Ok(ns.push(name))
                        } else {
                            Ok(ns)
                        },
                    }
                },
            },
        }
    }
}

/// The order of listed children: by lower-cased name, then by name. For
/// entries of one folder the second key orders as their paths do.
pub open spec fn child_before(a: Seq<char>, b: Seq<char>) -> bool {
    text_lt(lowercase_of(a), lowercase_of(b)) || (lowercase_of(a) == lowercase_of(b) && text_lt(a, b))
}

/// `x` put into `s` after every element that does not follow it.
pub open spec fn insert_child(x: Seq<char>, s: Seq<Seq<char>>) -> Seq<Seq<char>>
    decreases s.len(),
{
    if s.len() == 0 {
        seq![x]
    } else if child_before(x, s.last()) {
        insert_child(x, s.drop_last()).push(s.last())
    } else {
        s.push(x)
    }
}

/// `s` sorted by `child_before`, stably (insertion sort).
pub open spec fn sort_children(s: Seq<Seq<char>>) -> Seq<Seq<char>>
    decreases s.len(),
{
    if s.len() == 0 {
        s
    } else {
        insert_child(s.last(), sort_children(s.drop_last()))
    }
}

/// The paths below a section's root that become its entries: its pins,
/// then, when it lists children, its folders sorted by name, each path once.
pub open spec fn section_paths(root: Seq<char>, sec: SectionView, home: Option<Seq<char>>, listing: RootListingView) -> Result<
    Seq<Seq<char>>,
    Seq<char>,
> {
    match pin_paths(root, sec.pins, home, sec.pins.len() as int) {
        Err(e) => Err(e),
        Ok(ps) => if !sec.children {
            Ok(ps)
        } else {
            match listing.entries {
                Err(e) => Err(read_error(root, e)),
                Ok(es) => match child_dirs(root, es, es.len() as int) {
                    Err(e) => Err(e),
                    Ok(names) => {
                        let sorted = sort_children(names);
                        Ok(
                            add_all_unique(
                                ps,
                                sorted.map_values(|n: Seq<char>| join_path(root, n)),
                                sorted.len() as int,
                            ),
                        )
                    },
                },
            }
        },
    }
}

/// The first `k` paths resolved; the first failure gives the error.
pub open spec fn resolve_all(root: Seq<char>, ms: Seq<Seq<char>>, home: Option<Seq<char>>, k: int) -> Result<
    Seq<Seq<char>>,
    Seq<char>,
>
    decreases k,
{
    if k <= 0 {
        Ok(seq![])
    } else {
        match resolve_all(root, ms, home, k - 1) {
            Err(e) => Err(e),
            Ok(rs) => match resolve_section_path_spec(root, ms[k - 1], home) {
                Err(e) => Err(e),
                Ok(p) => Ok(rs.push(p)),
            },
        }
    }
}

/// The first of `ms`, from the `i`-th on, that is not one of `ps`.
pub open spec fn first_unlisted(ms: Seq<Seq<char>>, ps: Seq<Seq<char>>, i: int) -> Option<Seq<char>>
    decreases ms.len() - i,
{
    if i < 0 || i >= ms.len() {
        None
    } else if !listed(ps, ms[i]) {
        Some(ms[i])
    } else {
        first_unlisted(ms, ps, i + 1)
    }
}

/// The location of a section's root itself.
pub open spec fn root_location(root: Seq<char>) -> LocationView {
    LocationView {
        group: root,
        label: folder_name_spec(root),
        path: root,
        move_here: false,
        root: Some(root),
        is_section_root: true,
    }
}

/// The location of a path of a section.
pub open spec fn section_location(root: Seq<char>, p: Seq<char>, ms: Seq<Seq<char>>) -> LocationView {
    LocationView {
        group: root,
        label: folder_name_spec(p),
        path: p,
        move_here: listed(ms, p),
        root: Some(root),
        is_section_root: false,
    }
}

/// The locations of a section: its root, then one per path, those named
/// by `move_here` accepting PDFs. The root must be a folder, and every
/// `move_here` path must be one of the section's paths.
pub open spec fn materialize_section_spec(sec: SectionView, home: Option<Seq<char>>, listing: RootListingView) -> Result<
    Seq<LocationView>,
    Seq<char>,
> {
    match expand_home_spec(sec.root, home) {
        Err(e) => Err(e),
        Ok(root) => if !listing.is_dir {
            Err("section root is not a folder: "@ + root)
        } else {
            match section_paths(root, sec, home, listing) {
                Err(e) => Err(e),
                Ok(ps) => match resolve_all(root, sec.move_here, home, sec.move_here.len() as int) {
                    Err(e) => Err(e),
                    Ok(ms) => match first_unlisted(ms, ps, 0) {
                        Some(m) => Err("move_here path is not a pin or discovered child: "@ + m),
                        None => Ok(
                            seq![root_location(root)] + ps.map_values(
                                |p: Seq<char>| section_location(root, p, ms),
                            ),
                        ),
                    },
                },
            }
        },
    }
}

/// Whether `p` is the same path as one of `ps`.
pub(crate) fn is_listed(ps: &Vec<String>, p: &str) -> (r: bool)
    ensures
        r == listed(texts(ps@), p@),
{
    let mut j: usize = 0;
    while j < ps.len()
        invariant
            j <= ps@.len(),
            forall|k: int| 0 <= k < j ==> !same_path(p@, #[trigger] texts(ps@)[k]),
        decreases ps.len() - j,
    {
        if paths_equal(p, ps[j].as_str()) {
            assert(same_path(p@, texts(ps@)[j as int]));
            return true;
        }
        j = j + 1;
    }
    false
}

fn push_unique(ps: &mut Vec<String>, p: String)
    ensures
        texts(final(ps)@) == add_unique(texts(old(ps)@), p@),
{
    if !is_listed(ps, p.as_str()) {
        ps.push(p);
        assert(texts(ps@) =~= texts(old(ps)@).push(p@));
    }
}

fn pins_of(root: &str, pins: &Vec<String>, home: Option<&str>) -> (r: Result<Vec<String>, String>)
    ensures
        match r {
            Ok(v) => pin_paths(root@, texts(pins@), opt_view(home), pins@.len() as int) == Ok::<
                Seq<Seq<char>>,
                Seq<char>,
            >(texts(v@)),
            Err(e) => pin_paths(root@, texts(pins@), opt_view(home), pins@.len() as int) == Err::<
                Seq<Seq<char>>,
                Seq<char>,
            >(e@),
        },
{
    let mut paths: Vec<String> = Vec::new();
    let mut i: usize = 0;
    assert(texts(paths@) =~= Seq::<Seq<char>>::empty());
    while i < pins.len()
        invariant
            i <= pins@.len(),
            pin_paths(root@, texts(pins@), opt_view(home), i as int) == Ok::<
                Seq<Seq<char>>,
                Seq<char>,
            >(texts(paths@)),
        decreases pins.len() - i,
    {
        assert(texts(pins@)[i as int] == pins@[i as int]@);
        let p = match resolve_section_path(root, pins[i].as_str(), home) {
            Ok(p) => p,
            Err(e) => {
                proof {
                    lemma_pin_paths_error(root@, texts(pins@), opt_view(home), i as int + 1);
                }
                return Err(e);
            },
        };
        if !paths_equal(p.as_str(), root) {
            push_unique(&mut paths, p);
        }
        i = i + 1;
    }
    Ok(paths)
}

/// Once a pin fails, the pins after it change nothing.
proof fn lemma_pin_paths_error(root: Seq<char>, pins: Seq<Seq<char>>, home: Option<Seq<char>>, k: int)
    requires
        0 < k <= pins.len(),
        pin_paths(root, pins, home, k) is Err,
    ensures
        pin_paths(root, pins, home, pins.len() as int) == pin_paths(root, pins, home, k),
    decreases pins.len() - k,
{
    if k < pins.len() {
        lemma_pin_paths_error(root, pins, home, k + 1);
    }
}


/// Once an entry fails, the entries after it change nothing.
proof fn lemma_child_dirs_error(root: Seq<char>, es: Seq<ChildEntryView>, k: int)
    requires
        0 < k <= es.len(),
        child_dirs(root, es, k) is Err,
    ensures
        child_dirs(root, es, es.len() as int) == child_dirs(root, es, k),
    decreases es.len() - k,
{
    if k < es.len() {
        lemma_child_dirs_error(root, es, k + 1);
    }
}

fn read_error_text(root: &str, e: &str) -> (r: String)
    ensures
        r@ == read_error(root@, e@),
{
    let mut s = to_owned_string("cannot read section root ");
    s.append(root);
    s.append(": ");
    s.append(e);
    s
}

fn child_dir_names(root: &str, entries: &Vec<ChildEntry>) -> (r: Result<Vec<String>, String>)
    ensures
        match r {
            Ok(v) => child_dirs(root@, entries@.map_values(|e: ChildEntry| e@), entries@.len() as int)
                == Ok::<Seq<Seq<char>>, Seq<char>>(texts(v@)),
            Err(e) => child_dirs(root@, entries@.map_values(|e: ChildEntry| e@), entries@.len() as int)
                == Err::<Seq<Seq<char>>, Seq<char>>(e@),
        },
{
    let ghost es = entries@.map_values(|e: ChildEntry| e@);
    let mut names: Vec<String> = Vec::new();
    assert(texts(names@) =~= Seq::<Seq<char>>::empty());
    let mut i: usize = 0;
    while i < entries.len()
        invariant
            i <= entries@.len(),
            es == entries@.map_values(|e: ChildEntry| e@),
            child_dirs(root@, es, i as int) == Ok::<Seq<Seq<char>>, Seq<char>>(texts(names@)),
        decreases entries.len() - i,
    {
        assert(es[i as int] == entries@[i as int]@);
        match &entries[i] {
            ChildEntry::Unreadable(e) => {
                proof {
                    lemma_child_dirs_error(root@, es, i as int + 1);
                }
                return Err(read_error_text(root, e.as_str()));
            },
            ChildEntry::Entry { name, is_dir } => {
                let hidden = name.as_str().unicode_len() > 0 && name.as_str().get_char(0) == '.';
                if !hidden {
                    match is_dir {
                        Err(e) => {
                            let mut m = to_owned_string("cannot inspect section child ");
                            m.append(join(root, name.as_str()).as_str());
                            m.append(": ");
                            m.append(e.as_str());
                            proof {
                                lemma_child_dirs_error(root@, es, i as int + 1);
                            }
                            return Err(m);
                        },
                        Ok(d) => {
                            if *d {
                                let ghost before = names@;
                                names.push(name.clone());
                                assert(texts(names@) =~= texts(before).push(name@));
                            }
                        },
                    }
                }
            },
        }
        i = i + 1;
    }
    Ok(names)
}


/// Whether child `a` is listed before child `b`.
fn child_less(a: &str, b: &str) -> (r: bool)
    ensures
        r == child_before(a@, b@),
{
    let la = to_lowercase(a);
    let lb = to_lowercase(b);
    str_less(la.as_str(), lb.as_str()) || (crate::text::str_eq(la.as_str(), lb.as_str()) && str_less(
        a,
        b,
    ))
}

/// Insertion at the position found from the back is `insert_child`.
proof fn lemma_insert_child_at(x: Seq<char>, s: Seq<Seq<char>>, p: int)
    requires
        0 <= p <= s.len(),
        forall|j: int| p <= j < s.len() ==> child_before(x, #[trigger] s[j]),
        p == 0 || !child_before(x, s[p - 1]),
    ensures
        insert_child(x, s) == s.insert(p, x),
    decreases s.len(),
{
    if s.len() == 0 {
        assert(s.insert(p, x) =~= seq![x]);
    } else if p == s.len() {
        assert(s.insert(p, x) =~= s.push(x));
    } else {
        assert(child_before(x, s[s.len() - 1]));
        lemma_insert_child_at(x, s.drop_last(), p);
        assert(s.drop_last().insert(p, x).push(s.last()) =~= s.insert(p, x));
    }
}

/// The names sorted by `child_before`.
fn sort_child_names(names: Vec<String>) -> (r: Vec<String>)
    ensures
        texts(r@) == sort_children(texts(names@)),
{
    let ghost ns = texts(names@);
    let mut sorted: Vec<String> = Vec::new();
    let mut i: usize = 0;
    assert(ns.take(0) =~= Seq::<Seq<char>>::empty());
    assert(texts(sorted@) =~= Seq::<Seq<char>>::empty());
    while i < names.len()
        invariant
            i <= names@.len(),
            ns == texts(names@),
            texts(sorted@) == sort_children(ns.take(i as int)),
            sorted@.len() == i,
        decreases names.len() - i,
    {
        let x = names[i].as_str();
        let mut p: usize = sorted.len();
        while p > 0 && child_less(x, sorted[p - 1].as_str())
            invariant
                p <= sorted@.len(),
                forall|j: int| p <= j < sorted@.len() ==> child_before(x@, #[trigger] texts(sorted@)[j]),
            decreases p,
        {
            assert(texts(sorted@)[p - 1] == sorted@[p - 1]@);
            p = p - 1;
        }
        proof {
            if p > 0 {
                assert(texts(sorted@)[p - 1] == sorted@[p - 1]@);
            }
            lemma_insert_child_at(x@, texts(sorted@), p as int);
            assert(ns.take(i + 1).drop_last() =~= ns.take(i as int));
            assert(ns.take(i + 1).last() == x@);
        }
        let ghost before = sorted@;
        sorted.insert(p, names[i].clone());
        assert(texts(sorted@) =~= texts(before).insert(p as int, x@));
        i = i + 1;
    }
    assert(ns.take(names@.len() as int) =~= ns);
    sorted
}

/// Adds the children's paths, each unless already listed.
fn add_children(paths: &mut Vec<String>, root: &str, sorted: &Vec<String>)
    ensures
        texts(final(paths)@) == add_all_unique(
            texts(old(paths)@),
            texts(sorted@).map_values(|n: Seq<char>| join_path(root@, n)),
            sorted@.len() as int,
        ),
{
    let ghost start = texts(paths@);
    let ghost qs = texts(sorted@).map_values(|n: Seq<char>| join_path(root@, n));
    let mut i: usize = 0;
    while i < sorted.len()
        invariant
            i <= sorted@.len(),
            qs == texts(sorted@).map_values(|n: Seq<char>| join_path(root@, n)),
            start == texts(old(paths)@),
            texts(paths@) == add_all_unique(start, qs, i as int),
        decreases sorted.len() - i,
    {
        let child = join(root, sorted[i].as_str());
        assert(qs[i as int] == child@);
        push_unique(paths, child);
        i = i + 1;
    }
}

fn resolve_move_here(root: &str, ms: &Vec<String>, home: Option<&str>) -> (r: Result<
    Vec<String>,
    String,
>)
    ensures
        match r {
            Ok(v) => resolve_all(root@, texts(ms@), opt_view(home), ms@.len() as int) == Ok::<
                Seq<Seq<char>>,
                Seq<char>,
            >(texts(v@)),
            Err(e) => resolve_all(root@, texts(ms@), opt_view(home), ms@.len() as int) == Err::<
                Seq<Seq<char>>,
                Seq<char>,
            >(e@),
        },
{
    let mut out: Vec<String> = Vec::new();
    assert(texts(out@) =~= Seq::<Seq<char>>::empty());
    let mut i: usize = 0;
    while i < ms.len()
        invariant
            i <= ms@.len(),
            resolve_all(root@, texts(ms@), opt_view(home), i as int) == Ok::<
                Seq<Seq<char>>,
                Seq<char>,
            >(texts(out@)),
            out@.len() == i,
        decreases ms.len() - i,
    {
        assert(texts(ms@)[i as int] == ms@[i as int]@);
        match resolve_section_path(root, ms[i].as_str(), home) {
            Ok(p) => {
                let ghost before = out@;
                let ghost pv = p@;
                out.push(p);
                assert(texts(out@) =~= texts(before).push(pv));
            },
            Err(e) => {
                proof {
                    lemma_resolve_all_error(root@, texts(ms@), opt_view(home), i as int + 1);
                }
                return Err(e);
            },
        }
        i = i + 1;
    }
    Ok(out)
}

/// Once a path fails, the paths after it change nothing.
proof fn lemma_resolve_all_error(root: Seq<char>, ms: Seq<Seq<char>>, home: Option<Seq<char>>, k: int)
    requires
        0 < k <= ms.len(),
        resolve_all(root, ms, home, k) is Err,
    ensures
        resolve_all(root, ms, home, ms.len() as int) == resolve_all(root, ms, home, k),
    decreases ms.len() - k,
{
    if k < ms.len() {
        lemma_resolve_all_error(root, ms, home, k + 1);
    }
}

fn find_unlisted(ms: &Vec<String>, ps: &Vec<String>) -> (r: Option<usize>)
    ensures
        match r {
            Some(i) => i < ms@.len() && first_unlisted(texts(ms@), texts(ps@), 0) == Some(
                ms@[i as int]@,
            ),
            None => first_unlisted(texts(ms@), texts(ps@), 0) is None,
        },
{
    let mut i: usize = 0;
    while i < ms.len()
        invariant
            i <= ms@.len(),
            first_unlisted(texts(ms@), texts(ps@), 0) == first_unlisted(
                texts(ms@),
                texts(ps@),
                i as int,
            ),
        decreases ms.len() - i,
    {
        assert(texts(ms@)[i as int] == ms@[i as int]@);
        if !is_listed(ps, ms[i].as_str()) {
            return Some(i);
        }
        i = i + 1;
    }
    None
}

/// The locations of a section: its root first, then its pins, then (when
/// it lists children) its subfolders sorted by name, each path once; those
/// named by `move_here` accept PDFs. `home` stands for `~`; `listing` is
/// what the file system says of the root.
pub fn materialize_section(section: &Section, home: Option<&str>, listing: &RootListing) -> (r:
    Result<Vec<Location>, String>)
    ensures
        match r {
            Ok(v) => materialize_section_spec(section@, opt_view(home), listing@) == Ok::<
                Seq<LocationView>,
                Seq<char>,
            >(views(v@)),
            Err(e) => materialize_section_spec(section@, opt_view(home), listing@) == Err::<
                Seq<LocationView>,
                Seq<char>,
            >(e@),
        },
{
    let root = expand_home(section.root.as_str(), home)?;
    if !listing.is_dir {
        let mut e = to_owned_string("section root is not a folder: ");
        e.append(root.as_str());
        return Err(e);
    }
    let r = root.as_str();
    let mut paths = pins_of(r, &section.pins, home)?;
    if section.children {
        match &listing.entries {
            Err(e) => {
                return Err(read_error_text(r, e.as_str()));
            },
            Ok(entries) => {
                let names = child_dir_names(r, entries)?;
                let sorted = sort_child_names(names);
                add_children(&mut paths, r, &sorted);
            },
        }
    }
    let ghost ps = texts(paths@);
    assert(section_paths(root@, section@, opt_view(home), listing@) == Ok::<
        Seq<Seq<char>>,
        Seq<char>,
    >(ps));
    let ms = resolve_move_here(r, &section.move_here, home)?;
    if let Some(i) = find_unlisted(&ms, &paths) {
        let mut e = to_owned_string("move_here path is not a pin or discovered child: ");
        e.append(ms[i].as_str());
        return Err(e);
    }
    let mut out: Vec<Location> = Vec::new();
    let label = folder_name(r);
    out.push(
        Location {
            group: root.clone(),
            label,
            path: root.clone(),
            move_here: false,
            root: Some(root.clone()),
            is_section_root: true,
        },
    );
    let ghost mv = texts(ms@);
    let mut i: usize = 0;
    while i < paths.len()
        invariant
            i <= paths@.len(),
            ps == texts(paths@),
            mv == texts(ms@),
            out@.len() == i + 1,
            views(out@)[0] == root_location(root@),
            forall|k: int|
                0 <= k < i ==> #[trigger] views(out@)[k + 1] == section_location(root@, ps[k], mv),
        decreases paths.len() - i,
    {
        let p = paths[i].as_str();
        assert(ps[i as int] == p@);
        let label = folder_name(p);
        let move_here = is_listed(&ms, p);
        let ghost before = out@;
        out.push(
            Location {
                group: root.clone(),
                label,
                path: paths[i].clone(),
                move_here,
                root: Some(root.clone()),
                is_section_root: false,
            },
        );
        assert(views(out@)[0] == views(before)[0]);
        assert forall|k: int| 0 <= k < i + 1 implies #[trigger] views(out@)[k + 1] == section_location(
            root@,
            ps[k],
            mv,
        ) by {
            if k < i {
                assert(views(out@)[k + 1] == views(before)[k + 1]);
            }
        }
        i = i + 1;
    }
    let ghost expected = seq![root_location(root@)] + ps.map_values(
        |p: Seq<char>| section_location(root@, p, mv),
    );
    assert(views(out@).len() == expected.len());
    assert forall|k: int| 0 <= k < expected.len() implies views(out@)[k] == expected[k] by {
        if k > 0 {
            assert(views(out@)[(k - 1) + 1] == section_location(root@, ps[k - 1], mv));
        }
    }
    assert(views(out@) =~= expected);
    Ok(out)
}


// ----- the whole configuration ------------------------------------------------------

/// The newest configuration format.
pub const CONFIG_VERSION: u32 = 2;

/// The format version of a configuration that names none.
pub fn default_config_version() -> (r: u32)
    ensures
        r == 1,
{
    1
}

/// A configuration as written: its format version, the folders scanned for
/// PDFs, flat locations, and sections.
pub struct ConfigFile {
    pub version: u32,
    pub inboxes: Vec<String>,
    pub locations: Vec<Location>,
    pub sections: Vec<Section>,
}

/// A configuration ready for use: the inboxes and every location.
pub struct Config {
    pub inboxes: Vec<String>,
    pub locations: Vec<Location>,
}

pub struct ConfigView {
    pub inboxes: Seq<Seq<char>>,
    pub locations: Seq<LocationView>,
}

impl View for Config {
    type V = ConfigView;

    open spec fn view(&self) -> ConfigView {
        ConfigView { inboxes: texts(self.inboxes@), locations: views(self.locations@) }
    }
}

/// The locations of the first `k` sections appended to `locs`; the first
/// section that fails gives the error.
pub open spec fn sections_locations(
    locs: Seq<LocationView>,
    sections: Seq<SectionView>,
    home: Option<Seq<char>>,
    listings: Seq<RootListingView>,
    k: int,
) -> Result<Seq<LocationView>, Seq<char>>
    decreases k,
{
    if k <= 0 {
        Ok(locs)
    } else {
        match sections_locations(locs, sections, home, listings, k - 1) {
            Err(e) => Err(e),
            Ok(acc) => match materialize_section_spec(sections[k - 1], home, listings[k - 1]) {
                Err(e) => Err(e),
                Ok(more) => Ok(acc + more),
            },
        }
    }
}

/// Why a configuration of `version` with `section_count` sections is
/// refused before any section is looked at, if it is: its version must be
/// 1 or 2, and only version 2 may have sections.
pub open spec fn version_error(version: u32, section_count: nat) -> Option<Seq<char>> {
    if !(1 <= version && version <= 2) {
        Some("unsupported config version "@ + decimal(version as nat))
    } else if version < 2 && section_count > 0 {
        Some("sections require config version = 2"@)
    } else {
        None
    }
}

/// Checks a configuration's version against its number of sections.
pub fn check_config_version(version: u32, section_count: usize) -> (r: Result<(), String>)
    ensures
        match r {
            Ok(()) => version_error(version, section_count as nat) is None,
            Err(e) => version_error(version, section_count as nat) == Some(e@),
        },
{
    if !(1 <= version && version <= CONFIG_VERSION) {
        let mut e = to_owned_string("unsupported config version ");
        push_decimal(&mut e, version as usize);
        return Err(e);
    }
    if version < 2 && section_count > 0 {
        return Err(to_owned_string("sections require config version = 2"));
    }
    Ok(())
}

/// A configuration made ready: its version must be 1 or 2, only version 2
/// may have sections, its flat locations come first and then each
/// section's, and there must be at least one location.
pub open spec fn materialize_config_spec(
    version: u32,
    inboxes: Seq<Seq<char>>,
    locations: Seq<LocationView>,
    sections: Seq<SectionView>,
    home: Option<Seq<char>>,
    listings: Seq<RootListingView>,
) -> Result<ConfigView, Seq<char>> {
    if let Some(e) = version_error(version, sections.len()) {
        Err(e)
    } else {
        match sections_locations(locations, sections, home, listings, sections.len() as int) {
            Err(e) => Err(e),
            Ok(all) => if all.len() == 0 {
                Err("config has no locations"@)
            } else {
                Ok(ConfigView { inboxes, locations: all })
            },
        }
    }
}

/// Once a section fails, the sections after it change nothing.
proof fn lemma_sections_error(
    locs: Seq<LocationView>,
    sections: Seq<SectionView>,
    home: Option<Seq<char>>,
    listings: Seq<RootListingView>,
    k: int,
)
    requires
        0 < k <= sections.len(),
        sections_locations(locs, sections, home, listings, k) is Err,
    ensures
        sections_locations(locs, sections, home, listings, sections.len() as int)
            == sections_locations(locs, sections, home, listings, k),
    decreases sections.len() - k,
{
    if k < sections.len() {
        lemma_sections_error(locs, sections, home, listings, k + 1);
    }
}

/// Makes a configuration ready for use. `home` stands for `~`, and
/// `listings` holds, for each section in order, what the file system says
/// of its root.
pub fn materialize_config(config: ConfigFile, home: Option<&str>, listings: &[RootListing]) -> (r:
    Result<Config, String>)
    requires
        listings@.len() == config.sections@.len(),
    ensures
        match r {
            Ok(c) => materialize_config_spec(
                config.version,
                texts(config.inboxes@),
                views(config.locations@),
                config.sections@.map_values(|s: Section| s@),
                opt_view(home),
                listings@.map_values(|l: RootListing| l@),
            ) == Ok::<ConfigView, Seq<char>>(c@),
            Err(e) => materialize_config_spec(
                config.version,
                texts(config.inboxes@),
                views(config.locations@),
                config.sections@.map_values(|s: Section| s@),
                opt_view(home),
                listings@.map_values(|l: RootListing| l@),
            ) == Err::<ConfigView, Seq<char>>(e@),
        },
{
    let ghost secs = config.sections@.map_values(|s: Section| s@);
    let ghost lst = listings@.map_values(|l: RootListing| l@);
    let ghost locs0 = views(config.locations@);
    check_config_version(config.version, config.sections.len())?;
    let mut locations = config.locations;
    let mut i: usize = 0;
    while i < config.sections.len()
        invariant
            i <= config.sections@.len(),
            1 <= config.version <= 2,
            !(config.version < 2 && config.sections@.len() > 0),
            locs0 == views(config.locations@),
            listings@.len() == config.sections@.len(),
            secs == config.sections@.map_values(|s: Section| s@),
            lst == listings@.map_values(|l: RootListing| l@),
            sections_locations(locs0, secs, opt_view(home), lst, i as int) == Ok::<
                Seq<LocationView>,
                Seq<char>,
            >(views(locations@)),
        decreases config.sections.len() - i,
    {
        assert(secs[i as int] == config.sections@[i as int]@);
        assert(lst[i as int] == listings@[i as int]@);
        match materialize_section(&config.sections[i], home, &listings[i]) {
            Err(e) => {
                proof {
                    lemma_sections_error(locs0, secs, opt_view(home), lst, i as int + 1);
                }
                return Err(e);
            },
            Ok(more) => {
                let ghost before = views(locations@);
                let ghost added = views(more@);
                let mut more = more;
                locations.append(&mut more);
                assert(views(locations@) =~= before + added);
            },
        }
        i = i + 1;
    }
    if locations.len() == 0 {
        return Err(to_owned_string("config has no locations"));
    }
    Ok(Config { inboxes: config.inboxes, locations })
}

} // verus!
