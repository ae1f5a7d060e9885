//! The label-to-style lookup the caller supplies.
//!
//! The engine is theme-agnostic: labels are resolved through this pure
//! mapping, and a label the mapping does not know resolves to the
//! fully-unset style, never to an error.
use vstd::prelude::*;

use crate::strutil::str_eq;
use crate::style::{spec_unset, Style};

verus! {

/// An ordered list of label-to-style entries; the first entry with a
/// matching label wins.
pub struct Theme {
    pub entries: Vec<(String, Style)>,
}

/// The style of the first entry whose label matches, if any.
pub open spec fn spec_style_for(entries: Seq<(String, Style)>, label: Seq<char>) -> Option<Style>
    decreases entries.len(),
{
    if entries.len() == 0 {
        None
    } else if entries.first().0@ == label {
        Some(entries.first().1)
    } else {
        spec_style_for(entries.drop_first(), label)
    }
}

/// The style a label resolves to: the first matching entry's style, or the
/// fully-unset style when no entry matches.
pub open spec fn spec_resolve(entries: Seq<(String, Style)>, label: Seq<char>) -> Style {
    match spec_style_for(entries, label) {
        Some(st) => st,
        None => spec_unset(),
    }
}

impl Theme {
    /// A theme with no entries: every label resolves to the unset style.
    pub fn new() -> (r: Theme)
        ensures
            r.entries@.len() == 0,
    {
        Theme { entries: Vec::new() }
    }

    /// Append an entry; earlier entries for the same label keep priority.
    pub fn add(&mut self, label: String, style: Style)
        ensures
            final(self).entries@ == old(self).entries@.push((label, style)),
    {
        self.entries.push((label, style));
    }

    /// Look the label up: the first matching entry's style, if any.
    pub fn style(&self, label: &str) -> (r: Option<Style>)
        ensures
            r == spec_style_for(self.entries@, label@),
    {
        let mut i: usize = 0;
        proof {
            assert(self.entries@.skip(0) =~= self.entries@);
        }
        while i < self.entries.len()
            invariant
                i <= self.entries@.len(),
                spec_style_for(self.entries@, label@) == spec_style_for(
                    self.entries@.skip(i as int),
                    label@,
                ),
            decreases self.entries@.len() - i,
        {
            proof {
                assert(self.entries@.skip(i as int).first() == self.entries@[i as int]);
                assert(self.entries@.skip(i as int).drop_first() =~= self.entries@.skip(i + 1));
            }
            if str_eq(self.entries[i].0.as_str(), label) {
                return Some(self.entries[i].1);
            }
            i = i + 1;
        }
        proof {
            assert(self.entries@.skip(self.entries@.len() as int) =~= Seq::<(
                String,
                Style,
            )>::empty());
        }
        None
    }

    /// Resolve the label, falling back to the fully-unset style when the
    /// theme does not know it.
    pub fn resolve(&self, label: &str) -> (r: Style)
        ensures
            r == spec_resolve(self.entries@, label@),
    {
        match self.style(label) {
            Some(st) => st,
            None => Style::unset(),
        }
    }
}

} // verus!
