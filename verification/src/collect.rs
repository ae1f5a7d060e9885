//! The match collector's merge rule and the injection decision.
//!
//! Matching emits captures one by one.  Each new capture range is merged
//! against the most recently appended span by an ordered rule: coalesce
//! adjacent same-label tokens; on an exact duplicate range keep the earlier
//! label (first-declared pattern wins); otherwise append and let the
//! interval normalizer resolve overlaps later.
use vstd::prelude::*;

use crate::span::LabelSpan;
use crate::strutil::str_eq;

verus! {

/// What appending one capture does to the collected list: extend the last
/// span when the capture starts exactly at its end with the same label; keep
/// the list unchanged when the capture duplicates the last range (the
/// earlier label wins); append otherwise.
pub open spec fn spec_merge_step(s: Seq<LabelSpan>, sp: LabelSpan) -> Seq<LabelSpan> {
    if s.len() == 0 {
        s.push(sp)
    } else {
        let last = s.last();
        if last.end == sp.start && last.label@ == sp.label@ {
            s.update(
                s.len() - 1,
                LabelSpan { start: last.start, end: sp.end, label: last.label },
            )
        } else if last.start == sp.start && last.end == sp.end {
            s
        } else {
            s.push(sp)
        }
    }
}

/// Merge one capture into the collected list according to the ordered rule.
pub fn merge_push(items: &mut Vec<LabelSpan>, sp: LabelSpan)
    ensures
        final(items)@ == spec_merge_step(old(items)@, sp),
{
    let n = items.len();
    if n == 0 {
        items.push(sp);
        return ;
    }
    let last_start = items[n - 1].start;
    let last_end = items[n - 1].end;
    let same_label = str_eq(items[n - 1].label.as_str(), sp.label.as_str());
    if last_end == sp.start && same_label {
        let mut last = items.pop().unwrap();
        last.end = sp.end;
        items.push(last);
        proof {
            assert(items@ =~= spec_merge_step(old(items)@, sp));
        }
    } else if last_start == sp.start && last_end == sp.end {
    } else {
        items.push(sp);
    }
}

/// One recorded `#set!` property of a matched pattern: a key with an
/// optional literal value.
#[derive(Clone, Debug)]
pub struct PropertySetting {
    pub key: String,
    pub value: Option<String>,
}

/// The first `injection.language` property that carries an explicit
/// literal value, if any.
pub open spec fn spec_explicit_language(settings: Seq<PropertySetting>) -> Option<Seq<char>>
    decreases settings.len(),
{
    if settings.len() == 0 {
        None
    } else if settings.first().key@ == "injection.language"@ && settings.first().value is Some {
        Some(settings.first().value->0@)
    } else {
        spec_explicit_language(settings.drop_first())
    }
}

/// Does some property carry the given key?
pub open spec fn spec_has_key(settings: Seq<PropertySetting>, key: Seq<char>) -> bool {
    exists|i: int| 0 <= i < settings.len() && (#[trigger] settings[i]).key@ == key
}

/// The language that a match's properties select for an injected region, if
/// any, by priority: an explicit `injection.language` value names the
/// language directly; failing that, `injection.self` selects the current
/// layer's language; failing that, `injection.parent` selects the immediate
/// calling layer's language, when there is one.
pub open spec fn spec_resolve_language(
    settings: Seq<PropertySetting>,
    self_lang: Seq<char>,
    parent: Option<Seq<char>>,
) -> Option<Seq<char>> {
    if spec_explicit_language(settings) is Some {
        spec_explicit_language(settings)
    } else if spec_has_key(settings, "injection.self"@) {
        Some(self_lang)
    } else if spec_has_key(settings, "injection.parent"@) && parent is Some {
        parent
    } else {
        None
    }
}

/// Does some property set `injection.include-children`?  Recorded, but with
/// no further effect.
pub open spec fn spec_include_children(settings: Seq<PropertySetting>) -> bool {
    exists|i: int|
        0 <= i < settings.len() && (#[trigger] settings[i]).key@ == "injection.include-children"@
}

/// The character sequence of an optional borrowed name.
pub open spec fn opt_name_view(p: Option<&String>) -> Option<Seq<char>> {
    match p {
        Some(s) => Some(s@),
        None => None,
    }
}

/// Does some property carry the given key?
fn has_key(settings: &Vec<PropertySetting>, key: &str) -> (r: bool)
    ensures
        r == spec_has_key(settings@, key@),
{
    let mut i: usize = 0;
    while i < settings.len()
        invariant
            i <= settings@.len(),
            forall|j: int| 0 <= j < i ==> (#[trigger] settings@[j]).key@ != key@,
        decreases settings@.len() - i,
    {
        if str_eq(settings[i].key.as_str(), key) {
            proof {
                assert((settings@[i as int]).key@ == key@);
            }
            return true;
        }
        i = i + 1;
    }
    false
}

/// The first explicit `injection.language` value, if any.
fn explicit_language(settings: &Vec<PropertySetting>) -> (r: Option<String>)
    ensures
        match r {
            Some(name) => Some(name@) == spec_explicit_language(settings@),
            None => spec_explicit_language(settings@) is None,
        },
{
    let mut i: usize = 0;
    proof {
        assert(settings@.skip(0) =~= settings@);
    }
    while i < settings.len()
        invariant
            i <= settings@.len(),
            spec_explicit_language(settings@) == spec_explicit_language(
                settings@.skip(i as int),
            ),
        decreases settings@.len() - i,
    {
        proof {
            assert(settings@.skip(i as int).first() == settings@[i as int]);
            assert(settings@.skip(i as int).drop_first() =~= settings@.skip(i + 1));
        }
        if str_eq(settings[i].key.as_str(), "injection.language") {
            match &settings[i].value {
                Some(v) => {
                    let r = v.clone();
                    proof {
                        assert(spec_explicit_language(settings@.skip(i as int)) == Some(r@));
                    }
                    return Some(r);
                },
                None => {},
            }
        }
        i = i + 1;
    }
    proof {
        assert(settings@.skip(settings@.len() as int) =~= Seq::<PropertySetting>::empty());
    }
    None
}

/// Resolve the injected language named by a match's properties, by the
/// priority: explicit `injection.language` value, then `injection.self`,
/// then `injection.parent`.
pub fn resolve_injection_language(
    settings: &Vec<PropertySetting>,
    self_lang: &String,
    parent: Option<&String>,
) -> (r: Option<String>)
    ensures
        match r {
            Some(name) => Some(name@) == spec_resolve_language(
                settings@,
                self_lang@,
                opt_name_view(parent),
            ),
            None => spec_resolve_language(settings@, self_lang@, opt_name_view(parent)) is None,
        },
{
    match explicit_language(settings) {
        Some(name) => {
            return Some(name);
        },
        None => {},
    }
    if has_key(settings, "injection.self") {
        return Some(self_lang.clone());
    }
    if has_key(settings, "injection.parent") {
        match parent {
            Some(p) => {
                return Some(p.clone());
            },
            None => {},
        }
    }
    None
}

/// Does some property set `injection.include-children`?
pub fn include_children(settings: &Vec<PropertySetting>) -> (r: bool)
    ensures
        r == spec_include_children(settings@),
{
    let mut i: usize = 0;
    while i < settings.len()
        invariant
            i <= settings@.len(),
            forall|j: int|
                0 <= j < i ==> (#[trigger] settings@[j]).key@ != "injection.include-children"@,
        decreases settings@.len() - i,
    {
        if str_eq(settings[i].key.as_str(), "injection.include-children") {
            proof {
                assert((settings@[i as int]).key@ == "injection.include-children"@);
            }
            return true;
        }
        i = i + 1;
    }
    false
}

} // verus!
