//! The process table's filtering and ordering.
//!
//! A process row matches a (lower-cased) filter query when the query occurs
//! in the lower-cased process name or in the decimal rendering of the
//! process id.  Rows are ordered by one chosen column, ascending or
//! descending; names order byte-wise lexicographically, which for UTF-8
//! text is code-point order.
use vstd::prelude::*;
use vstd::seq_lib::{to_multiset_build, to_multiset_insert};
use vstd::slice::slice_index_get;
use vstd::utf8::encode_utf8;

use crate::monitor::{dec_chars, dec_string, ProcessColumn, ProcessInfo};
use crate::strutil::{lower_of, spec_contains_sub, str_contains, to_lowercase};

verus! {

/// Byte-wise lexicographic order.
pub open spec fn lex_le(a: Seq<u8>, b: Seq<u8>) -> bool
    decreases a.len(),
{
    if a.len() == 0 {
        true
    } else if b.len() == 0 {
        false
    } else if a.first() < b.first() {
        true
    } else if a.first() > b.first() {
        false
    } else {
        lex_le(a.drop_first(), b.drop_first())
    }
}

/// Lexicographic order is total.
proof fn lemma_lex_total(a: Seq<u8>, b: Seq<u8>)
    ensures
        lex_le(a, b) || lex_le(b, a),
    decreases a.len(),
{
    if a.len() > 0 && b.len() > 0 && a.first() == b.first() {
        lemma_lex_total(a.drop_first(), b.drop_first());
    }
}

/// Compare two byte strings lexicographically.
fn bytes_le(a: &[u8], b: &[u8]) -> (r: bool)
    ensures
        r == lex_le(a@, b@),
{
    let mut i: usize = 0;
    proof {
        assert(a@.skip(0) =~= a@);
        assert(b@.skip(0) =~= b@);
    }
    while i < a.len() && i < b.len()
        invariant
            i <= a@.len(),
            i <= b@.len(),
            lex_le(a@, b@) == lex_le(a@.skip(i as int), b@.skip(i as int)),
            lex_le(b@, a@) == lex_le(b@.skip(i as int), a@.skip(i as int)),
        decreases a@.len() - i,
    {
        let x = *slice_index_get(a, i);
        let y = *slice_index_get(b, i);
        proof {
            assert(a@.skip(i as int).first() == a@[i as int]);
            assert(b@.skip(i as int).first() == b@[i as int]);
            assert(a@.skip(i as int).drop_first() =~= a@.skip(i + 1));
            assert(b@.skip(i as int).drop_first() =~= b@.skip(i + 1));
        }
        if x < y {
            return true;
        }
        if x > y {
            return false;
        }
        i = i + 1;
    }
    proof {
        if i == a@.len() {
            assert(a@.skip(i as int) =~= Seq::<u8>::empty());
        } else {
            assert(b@.skip(i as int) =~= Seq::<u8>::empty());
            assert(a@.skip(i as int).len() > 0);
        }
    }
    a.len() <= b.len()
}

/// Does `a` come no later than `b` under the column's ascending order?
pub open spec fn spec_col_le(column: ProcessColumn, a: ProcessInfo, b: ProcessInfo) -> bool {
    match column {
        ProcessColumn::Name => lex_le(encode_utf8(a.name@), encode_utf8(b.name@)),
        ProcessColumn::Pid => a.pid <= b.pid,
        ProcessColumn::Cpu => a.cpu_centi_percent <= b.cpu_centi_percent,
        ProcessColumn::Memory => a.memory <= b.memory,
        ProcessColumn::Disk => a.disk_usage <= b.disk_usage,
    }
}

/// The chosen row order: the column's order, reversed when descending.
pub open spec fn spec_row_le(
    column: ProcessColumn,
    ascending: bool,
    a: ProcessInfo,
    b: ProcessInfo,
) -> bool {
    if ascending {
        spec_col_le(column, a, b)
    } else {
        spec_col_le(column, b, a)
    }
}

/// The row order is total.
proof fn lemma_row_le_total(column: ProcessColumn, ascending: bool, a: ProcessInfo, b: ProcessInfo)
    ensures
        spec_row_le(column, ascending, a, b) || spec_row_le(column, ascending, b, a),
{
    if column is Name {
        lemma_lex_total(encode_utf8(a.name@), encode_utf8(b.name@));
    }
}

/// Compare two rows under the chosen order.
fn row_le(column: ProcessColumn, ascending: bool, a: &ProcessInfo, b: &ProcessInfo) -> (r: bool)
    ensures
        r == spec_row_le(column, ascending, *a, *b),
{
    let (x, y) = if ascending {
        (a, b)
    } else {
        (b, a)
    };
    match column {
        ProcessColumn::Name => bytes_le(x.name.as_str().as_bytes(), y.name.as_str().as_bytes()),
        ProcessColumn::Pid => x.pid <= y.pid,
        ProcessColumn::Cpu => x.cpu_centi_percent <= y.cpu_centi_percent,
        ProcessColumn::Memory => x.memory <= y.memory,
        ProcessColumn::Disk => x.disk_usage <= y.disk_usage,
    }
}

/// A field-for-field copy of one row.
fn duplicate(p: &ProcessInfo) -> (r: ProcessInfo)
    ensures
        r == *p,
{
    ProcessInfo {
        pid: p.pid,
        name: p.name.clone(),
        cpu_centi_percent: p.cpu_centi_percent,
        memory: p.memory,
        disk_usage: p.disk_usage,
    }
}

/// Does the row match the lower-cased filter query: does the query occur in
/// the lower-cased name or in the decimal process id?
pub open spec fn spec_matches_filter(p: ProcessInfo, query: Seq<char>) -> bool {
    spec_contains_sub(lower_of(p.name@), query) || spec_contains_sub(
        dec_chars(p.pid as int),
        query,
    )
}

/// Does the row match the lower-cased filter query?
pub fn matches_filter(p: &ProcessInfo, query_lower: &str) -> (r: bool)
    ensures
        r == spec_matches_filter(*p, query_lower@),
{
    let lowered = to_lowercase(p.name.as_str());
    if str_contains(lowered.as_str(), query_lower) {
        return true;
    }
    let pid_text = dec_string(p.pid as u64);
    str_contains(pid_text.as_str(), query_lower)
}

/// The rows that stay under a filter: all of them for the empty query, else
/// exactly the matching ones, in order.
pub open spec fn spec_filtered(ps: Seq<ProcessInfo>, query: Seq<char>) -> Seq<ProcessInfo>
    decreases ps.len(),
{
    if ps.len() == 0 {
        Seq::empty()
    } else {
        let rest = spec_filtered(ps.drop_last(), query);
        if query.len() == 0 || spec_matches_filter(ps.last(), query) {
            rest.push(ps.last())
        } else {
            rest
        }
    }
}

/// Keep the rows that match the lower-cased filter query; an empty query
/// keeps everything.
pub fn apply_filter(processes: &Vec<ProcessInfo>, query_lower: &str) -> (r: Vec<ProcessInfo>)
    ensures
        r@ == spec_filtered(processes@, query_lower@),
{
    let keep_all = query_lower.is_empty();
    let mut r: Vec<ProcessInfo> = Vec::new();
    let mut i: usize = 0;
    proof {
        assert(processes@.take(0) =~= Seq::<ProcessInfo>::empty());
    }
    while i < processes.len()
        invariant
            i <= processes@.len(),
            keep_all == (query_lower@.len() == 0),
            r@ == spec_filtered(processes@.take(i as int), query_lower@),
        decreases processes@.len() - i,
    {
        proof {
            assert(processes@.take(i + 1).drop_last() =~= processes@.take(i as int));
            assert(processes@.take(i + 1).last() == processes@[i as int]);
        }
        if keep_all || matches_filter(&processes[i], query_lower) {
            r.push(duplicate(&processes[i]));
        }
        i = i + 1;
    }
    proof {
        assert(processes@.take(processes@.len() as int) =~= processes@);
    }
    r
}

/// Insert one row after every row that precedes or equals it under the
/// order: the stable insertion position, which keeps equal keys in their
/// arrival order.
pub open spec fn spec_row_insert(
    s: Seq<ProcessInfo>,
    column: ProcessColumn,
    ascending: bool,
    p: ProcessInfo,
) -> Seq<ProcessInfo>
    decreases s.len(),
{
    if s.len() == 0 {
        seq![p]
    } else if spec_row_le(column, ascending, s.first(), p) {
        seq![s.first()] + spec_row_insert(s.drop_first(), column, ascending, p)
    } else {
        seq![p] + s
    }
}

/// The stable insertion sort of the rows under the chosen order: rows with
/// equal keys keep their input order.
pub open spec fn spec_sorted_rows(
    s: Seq<ProcessInfo>,
    column: ProcessColumn,
    ascending: bool,
) -> Seq<ProcessInfo>
    decreases s.len(),
{
    if s.len() == 0 {
        Seq::empty()
    } else {
        spec_row_insert(
            spec_sorted_rows(s.drop_last(), column, ascending),
            column,
            ascending,
            s.last(),
        )
    }
}

/// Inserting before the first strictly-later row is the stable insertion.
proof fn lemma_insert_at_first_gt(
    s: Seq<ProcessInfo>,
    column: ProcessColumn,
    ascending: bool,
    p: ProcessInfo,
    pos: int,
)
    requires
        0 <= pos <= s.len(),
        forall|k: int| 0 <= k < pos ==> spec_row_le(column, ascending, #[trigger] s[k], p),
        pos < s.len() ==> !spec_row_le(column, ascending, s[pos], p),
    ensures
        s.insert(pos, p) == spec_row_insert(s, column, ascending, p),
    decreases s.len(),
{
    if pos == 0 {
        if s.len() == 0 {
            assert(s.insert(0, p) =~= seq![p]);
        } else {
            assert(s.insert(0, p) =~= seq![p] + s);
        }
    } else {
        assert(spec_row_le(column, ascending, s[0], p));
        let rest = s.drop_first();
        assert(forall|k: int|
            0 <= k < pos - 1 ==> spec_row_le(column, ascending, #[trigger] rest[k], p));
        lemma_insert_at_first_gt(rest, column, ascending, p, pos - 1);
        assert(s.insert(pos, p) =~= seq![s.first()] + rest.insert(pos - 1, p));
    }
}

/// Order the rows by the chosen column: the result is the stable insertion
/// sort of the input — the same rows as a multiset, neighbours in the
/// chosen order, and rows with equal keys in their input order.
pub fn sort_processes(processes: &Vec<ProcessInfo>, column: ProcessColumn, ascending: bool) -> (r:
    Vec<ProcessInfo>)
    ensures
        r@ == spec_sorted_rows(processes@, column, ascending),
        r@.len() == processes@.len(),
        r@.to_multiset() == processes@.to_multiset(),
        forall|k: int|
            0 <= k < r@.len() - 1 ==> spec_row_le(column, ascending, #[trigger] r@[k], r@[k + 1]),
{
    let mut out: Vec<ProcessInfo> = Vec::new();
    let mut i: usize = 0;
    proof {
        assert(processes@.take(0) =~= Seq::<ProcessInfo>::empty());
        assert(out@.to_multiset() =~= processes@.take(0).to_multiset());
    }
    while i < processes.len()
        invariant
            i <= processes@.len(),
            out@.len() == i,
            out@ == spec_sorted_rows(processes@.take(i as int), column, ascending),
            out@.to_multiset() == processes@.take(i as int).to_multiset(),
            forall|k: int|
                0 <= k < out@.len() - 1 ==> spec_row_le(
                    column,
                    ascending,
                    #[trigger] out@[k],
                    out@[k + 1],
                ),
        decreases processes@.len() - i,
    {
        let p = duplicate(&processes[i]);
        let mut pos: usize = 0;
        while pos < out.len() && row_le(column, ascending, &out[pos], &p)
            invariant
                pos <= out@.len(),
                forall|k: int|
                    0 <= k < pos ==> spec_row_le(column, ascending, #[trigger] out@[k], p),
            decreases out@.len() - pos,
        {
            pos = pos + 1;
        }
        proof {
            if pos < out@.len() {
                lemma_row_le_total(column, ascending, out@[pos as int], p);
            }
        }
        let ghost before = out@;
        out.insert(pos, p);
        proof {
            lemma_insert_at_first_gt(before, column, ascending, p, pos as int);
            assert(out@ == spec_row_insert(before, column, ascending, p));
            to_multiset_insert(before, pos as int, p);
            assert(processes@.take(i + 1).drop_last() =~= processes@.take(i as int));
            assert(processes@.take(i + 1) =~= processes@.take(i as int).push(
                processes@[i as int],
            ));
            to_multiset_build(processes@.take(i as int), processes@[i as int]);
            assert forall|k: int|
                0 <= k < out@.len() - 1 implies spec_row_le(
                column,
                ascending,
                #[trigger] out@[k],
                out@[k + 1],
            ) by {
                if k + 1 < pos {
                    assert(out@[k] == before[k] && out@[k + 1] == before[k + 1]);
                } else if k + 1 == pos {
                    assert(out@[k] == before[k] && out@[k + 1] == p);
                } else if k == pos {
                    assert(out@[k] == p && out@[k + 1] == before[k]);
                } else {
                    assert(out@[k] == before[k - 1] && out@[k + 1] == before[k]);
                }
            }
        }
        i = i + 1;
    }
    proof {
        assert(processes@.take(processes@.len() as int) =~= processes@);
    }
    out
}

} // verus!
