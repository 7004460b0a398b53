//! A configured folder, as the menus and selectors see it.
use vstd::prelude::*;

use crate::text::to_owned_string;

verus! {

/// One folder of the configuration: the group it is listed under, a label,
/// its path, whether PDFs may be moved into it, the root of the section it
/// belongs to, and whether it is that section's root itself.
#[derive(Clone, Debug)]
pub struct Location {
    pub group: String,
    pub label: String,
    pub path: String,
    pub move_here: bool,
    pub root: Option<String>,
    pub is_section_root: bool,
}

pub struct LocationView {
    pub group: Seq<char>,
    pub label: Seq<char>,
    pub path: Seq<char>,
    pub move_here: bool,
    pub root: Option<Seq<char>>,
    pub is_section_root: bool,
}

impl View for Location {
    type V = LocationView;

    open spec fn view(&self) -> LocationView {
        LocationView {
            group: self.group@,
            label: self.label@,
            path: self.path@,
            move_here: self.move_here,
            root: match self.root {
                Some(r) => Some(r@),
                None => None,
            },
            is_section_root: self.is_section_root,
        }
    }
}

/// The views of a sequence of locations.
pub open spec fn views(s: Seq<Location>) -> Seq<LocationView> {
    s.map_values(|l: Location| l@)
}

/// The texts of a sequence of strings.
pub open spec fn texts(s: Seq<String>) -> Seq<Seq<char>> {
    s.map_values(|t: String| t@)
}

impl Location {
    /// A copy of this location.
    pub fn duplicate(&self) -> (r: Location)
        ensures
            r@ == self@,
    {
        Location {
            group: self.group.clone(),
            label: self.label.clone(),
            path: self.path.clone(),
            move_here: self.move_here,
            root: match &self.root {
                Some(r) => Some(r.clone()),
                None => None,
            },
            is_section_root: self.is_section_root,
        }
    }

    /// The location as text: its group, ` / `, and its label.
    pub fn to_display_string(&self) -> (r: String)
        ensures
            r@ == self.group@ + " / "@ + self.label@,
    {
        let mut s = to_owned_string(self.group.as_str());
        s.append(" / ");
        s.append(self.label.as_str());
        s
    }
}

} // verus!
