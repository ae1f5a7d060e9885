//! Resolved display attributes for a span of text.
//!
//! Every field is independently optional: `None` means "unset", which is
//! distinct from any set value.  Folding two styles is field-wise
//! "last write wins": a set field of the later style replaces the earlier
//! value, an unset field keeps it.
use vstd::prelude::*;

verus! {

/// A set of display attributes, each independently optional.
///
/// The values are opaque tokens chosen by the caller (for example a color
/// table index); the engine only compares and copies them.
#[derive(Clone, Copy, Debug, PartialEq)]
pub struct Style {
    pub color: Option<u32>,
    pub font_weight: Option<u32>,
    pub font_style: Option<u32>,
    pub background_color: Option<u32>,
    pub underline: Option<u32>,
    pub strikethrough: Option<u32>,
    pub fade_out: Option<u32>,
}

/// The fully-unset style.
pub open spec fn spec_unset() -> Style {
    Style {
        color: None,
        font_weight: None,
        font_style: None,
        background_color: None,
        underline: None,
        strikethrough: None,
        fade_out: None,
    }
}

/// Field-wise "last write wins": each attribute of the result is the
/// attribute of `above` when set, else the attribute of `below`.
pub open spec fn spec_merge(below: Style, above: Style) -> Style {
    Style {
        color: if above.color is Some { above.color } else { below.color },
        font_weight: if above.font_weight is Some { above.font_weight } else { below.font_weight },
        font_style: if above.font_style is Some { above.font_style } else { below.font_style },
        background_color: if above.background_color is Some { above.background_color } else { below.background_color },
        underline: if above.underline is Some { above.underline } else { below.underline },
        strikethrough: if above.strikethrough is Some { above.strikethrough } else { below.strikethrough },
        fade_out: if above.fade_out is Some { above.fade_out } else { below.fade_out },
    }
}

/// Merging the unset style on top of any style leaves it unchanged, and
/// merging any style on top of the unset style yields that style.
pub proof fn lemma_merge_unset(s: Style)
    ensures
        spec_merge(s, spec_unset()) == s,
        spec_merge(spec_unset(), s) == s,
{
}

impl Style {
    /// The fully-unset (default) style.
    pub fn unset() -> (r: Style)
        ensures
            r == spec_unset(),
    {
        Style {
            color: None,
            font_weight: None,
            font_style: None,
            background_color: None,
            underline: None,
            strikethrough: None,
            fade_out: None,
        }
    }

    /// Field-wise equality.
    pub fn same(&self, other: &Style) -> (r: bool)
        ensures
            r == (*self == *other),
    {
        let r = opt_eq(&self.color, &other.color) && opt_eq(&self.font_weight, &other.font_weight)
            && opt_eq(&self.font_style, &other.font_style)
            && opt_eq(&self.background_color, &other.background_color)
            && opt_eq(&self.underline, &other.underline)
            && opt_eq(&self.strikethrough, &other.strikethrough)
            && opt_eq(&self.fade_out, &other.fade_out);
        proof {
            if r {
                assert(*self == *other);
            }
        }
        r
    }

    /// Overwrite each attribute of `self` that `above` sets; keep the rest.
    pub fn merge_from(&mut self, above: &Style)
        ensures
            *final(self) == spec_merge(*old(self), *above),
    {
        if above.color.is_some() {
            self.color = above.color;
        }
        if above.font_weight.is_some() {
            self.font_weight = above.font_weight;
        }
        if above.font_style.is_some() {
            self.font_style = above.font_style;
        }
        if above.background_color.is_some() {
            self.background_color = above.background_color;
        }
        if above.underline.is_some() {
            self.underline = above.underline;
        }
        if above.strikethrough.is_some() {
            self.strikethrough = above.strikethrough;
        }
        if above.fade_out.is_some() {
            self.fade_out = above.fade_out;
        }
    }
}

impl Default for Style {
    /// The fully-unset style.
    fn default() -> (r: Style)
        ensures
            r == spec_unset(),
    {
        Style::unset()
    }
}

/// Equality of two optional attribute values.
pub fn opt_eq(a: &Option<u32>, b: &Option<u32>) -> (r: bool)
    ensures
        r == (*a == *b),
{
    match (a, b) {
        (Some(x), Some(y)) => *x == *y,
        (None, None) => true,
        _ => false,
    }
}

} // verus!
