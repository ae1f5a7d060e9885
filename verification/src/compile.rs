//! Classification of compiled query patterns.
//!
//! One matcher is compiled from the three query sources laid end to end:
//! injection rules, then local-variable rules, then highlight rules.  Each
//! compiled pattern is classified by comparing its source offset against the
//! two concatenation boundaries.  The capture list is scanned once for the
//! special capture names, and a table records which patterns declare a
//! negated `local` property.
use vstd::prelude::*;

use crate::strutil::str_eq;

verus! {

/// How many of the pattern source offsets lie before `boundary`.
pub open spec fn spec_count_before(offsets: Seq<usize>, boundary: int) -> int
    decreases offsets.len(),
{
    if offsets.len() == 0 {
        0
    } else {
        spec_count_before(offsets.drop_last(), boundary) + if offsets.last() < boundary {
            1int
        } else {
            0int
        }
    }
}

/// Count the patterns whose source offset lies before `boundary`: those
/// belong to the query sections concatenated before that boundary.
pub fn count_patterns_before(offsets: &Vec<usize>, boundary: usize) -> (n: usize)
    ensures
        n == spec_count_before(offsets@, boundary as int),
{
    let mut n: usize = 0;
    let mut i: usize = 0;
    proof {
        assert(offsets@.take(0) =~= Seq::<usize>::empty());
    }
    while i < offsets.len()
        invariant
            i <= offsets@.len(),
            n <= i,
            n == spec_count_before(offsets@.take(i as int), boundary as int),
        decreases offsets@.len() - i,
    {
        proof {
            assert(offsets@.take(i + 1).drop_last() =~= offsets@.take(i as int));
            assert(offsets@.take(i + 1).last() == offsets@[i as int]);
        }
        if offsets[i] < boundary {
            n = n + 1;
        }
        i = i + 1;
    }
    proof {
        assert(offsets@.take(offsets@.len() as int) =~= offsets@);
    }
    n
}

/// `r` is the index of the last occurrence of `t` in `names`, or nothing
/// when `t` does not occur.
pub open spec fn is_last_index_of(names: Seq<Seq<char>>, t: Seq<char>, r: Option<usize>) -> bool {
    match r {
        Some(i) => i < names.len() && names[i as int] == t && (forall|j: int|
            i < j < names.len() ==> names[j] != t),
        None => forall|j: int| 0 <= j < names.len() ==> names[j] != t,
    }
}

/// The index of the last capture with the given name, if any: when a name
/// occurs more than once, the latest declaration wins.
pub fn find_capture_index(names: &Vec<String>, target: &str) -> (r: Option<usize>)
    ensures
        is_last_index_of(names.deep_view(), target@, r),
{
    let mut r: Option<usize> = None;
    let mut i: usize = 0;
    while i < names.len()
        invariant
            i <= names@.len(),
            match r {
                Some(k) => k < i && names@[k as int]@ == target@ && (forall|j: int|
                    k < j < i ==> (#[trigger] names@[j])@ != target@),
                None => forall|j: int| 0 <= j < i ==> (#[trigger] names@[j])@ != target@,
            },
        decreases names@.len() - i,
    {
        if str_eq(names[i].as_str(), target) {
            r = Some(i);
        }
        i = i + 1;
    }
    r
}

/// Does this pattern's predicate list declare a negated `local` property?
/// Highlighting is suppressed for such patterns inside local-variable
/// scopes.
pub open spec fn spec_negates_local(preds: Seq<(Seq<char>, bool)>) -> bool {
    exists|j: int|
        0 <= j < preds.len() && (#[trigger] preds[j]).0 == "local"@ && preds[j].1 == false
}

/// Build the table, indexed by pattern id, flagging the patterns whose
/// property predicates declare a negated `local` property.
pub fn non_local_flags(preds: &Vec<Vec<(String, bool)>>) -> (flags: Vec<bool>)
    ensures
        flags@.len() == preds@.len(),
        forall|i: int|
            0 <= i < preds@.len() ==> flags@[i] == spec_negates_local(
                (#[trigger] preds@[i]).deep_view(),
            ),
{
    let mut flags: Vec<bool> = Vec::new();
    let mut i: usize = 0;
    while i < preds.len()
        invariant
            i <= preds@.len(),
            flags@.len() == i,
            forall|k: int|
                0 <= k < i ==> flags@[k] == spec_negates_local(
                    (#[trigger] preds@[k]).deep_view(),
                ),
        decreases preds@.len() - i,
    {
        let row = &preds[i];
        let mut found = false;
        let mut j: usize = 0;
        while j < row.len()
            invariant
                j <= row@.len(),
                found == exists|m: int|
                    0 <= m < j && (#[trigger] row@[m]).0@ == "local"@ && row@[m].1 == false,
            decreases row@.len() - j,
        {
            if !row[j].1 && str_eq(row[j].0.as_str(), "local") {
                proof {
                    assert((row@[j as int]).0@ == "local"@ && row@[j as int].1 == false);
                }
                found = true;
            }
            j = j + 1;
        }
        flags.push(found);
        proof {
            assert(row.deep_view() =~= Seq::new(row@.len(), |m: int| (row@[m].0@, row@[m].1)));
            assert(found == spec_negates_local(row.deep_view())) by {
                if found {
                    let m = choose|m: int|
                        0 <= m < row@.len() && (#[trigger] row@[m]).0@ == "local"@ && row@[m].1
                            == false;
                    assert(row.deep_view()[m].0 == "local"@ && row.deep_view()[m].1 == false);
                } else {
                    if spec_negates_local(row.deep_view()) {
                        let m = choose|m: int|
                            0 <= m < row.deep_view().len() && (#[trigger] row.deep_view()[m]).0
                                == "local"@ && row.deep_view()[m].1 == false;
                        assert((row@[m]).0@ == "local"@ && row@[m].1 == false);
                    }
                }
            }
        }
        i = i + 1;
    }
    flags
}

} // verus!
