//! The trusted boundary to the incremental parser and to the text buffer.
//!
//! The engine's parsing, query compilation and query execution are done by
//! the `tree_sitter` crate, and the text it highlights arrives as a `ropey`
//! rope.  Their types are opaque here; each call the engine makes goes
//! through one item of this module, whose contract states only what the
//! crates' sources show.  What a query run returns is given a name,
//! `query_tree_matches`: a function of the query, the tree, the text and
//! the byte range alone, so that equal states yield equal match lists.
use vstd::prelude::*;

use ropey::Rope;
use tree_sitter::StreamingIterator;
use tree_sitter::{Language, LanguageError, Parser, Query, QueryError, Tree};

use crate::collect::PropertySetting;
use crate::span::EditDescriptor;

verus! {

#[verifier::external_type_specification]
#[verifier::external_body]
pub struct ExLanguage(Language);

#[verifier::external_type_specification]
#[verifier::external_body]
pub struct ExLanguageError(LanguageError);

#[verifier::external_type_specification]
#[verifier::external_body]
pub struct ExParser(Parser);

#[verifier::external_type_specification]
#[verifier::external_body]
pub struct ExTree(Tree);

#[verifier::external_type_specification]
#[verifier::external_body]
pub struct ExQuery(Query);

#[verifier::external_type_specification]
#[verifier::external_body]
pub struct ExQueryError(QueryError);

#[verifier::external_type_specification]
#[verifier::external_body]
pub struct ExRope(Rope);

/// The bytes of the text a rope holds.
pub uninterp spec fn rope_bytes(r: Rope) -> Seq<u8>;

/// The source byte offset at which each compiled pattern of a query starts.
pub uninterp spec fn query_pattern_offsets(q: Query) -> Seq<usize>;

/// The capture names of a compiled query, in declaration order.
pub uninterp spec fn query_capture_names(q: Query) -> Seq<Seq<char>>;

/// The `#is?`/`#is-not?` property predicates of one pattern of a query:
/// each a key with a positive/negative flag.
pub uninterp spec fn query_property_predicates(q: Query, i: int) -> Seq<(Seq<char>, bool)>;

/// The `#set!` property settings of one pattern of a query: each a key with
/// an optional literal value.
pub uninterp spec fn query_property_settings(q: Query, i: int) -> Seq<(Seq<char>, Option<Seq<char>>)>;

/// One capture of one query match: the capture's index in the query's
/// capture list and the captured node's byte range.
#[derive(Clone, Copy, Debug)]
pub struct RawCapture {
    pub index: usize,
    pub start: usize,
    pub end: usize,
}

/// One query match: the index of the pattern that matched and its captures
/// in order.
#[derive(Clone, Debug)]
pub struct RawMatch {
    pub pattern: usize,
    pub captures: Vec<RawCapture>,
}

/// The plain value of a capture list.
pub open spec fn capture_views(cs: Seq<RawCapture>) -> Seq<(int, int, int)> {
    cs.map_values(|c: RawCapture| (c.index as int, c.start as int, c.end as int))
}

/// The plain value of a match list.
pub open spec fn match_views(ms: Seq<RawMatch>) -> Seq<(int, Seq<(int, int, int)>)> {
    ms.map_values(|m: RawMatch| (m.pattern as int, capture_views(m.captures@)))
}

/// The matches that running a query over a tree, reading the given text,
/// bounded to the given byte range, yields: a function of these four alone,
/// in match order.
pub uninterp spec fn query_tree_matches(
    q: Query,
    t: Tree,
    text: Seq<u8>,
    start: int,
    end: int,
) -> Seq<(int, Seq<(int, int, int)>)>;

/// The plain value of a property-setting list.
pub open spec fn setting_views(s: Seq<PropertySetting>) -> Seq<(Seq<char>, Option<Seq<char>>)> {
    s.map_values(
        |p: PropertySetting|
            (
                p.key@,
                match p.value {
                    Some(v) => Some(v@),
                    None => None,
                },
            ),
    )
}

/// Does a parser accept this grammar?  `Parser::set_language` checks only
/// the grammar's ABI version, so the outcome is a function of the grammar
/// handle alone.
pub uninterp spec fn grammar_accepted(l: Language) -> bool;

/// Does this query source compile for this grammar?  `Query::new` is a
/// pure compilation, so the outcome is a function of the grammar and the
/// source alone.
pub uninterp spec fn query_compiles(l: Language, source: Seq<char>) -> bool;

/// Relies on `Parser::new`: a fresh parser with no language set.
pub assume_specification[ Parser::new ]() -> (r: Parser);

/// Relies on `Parser::set_language`: accepts the grammar exactly when its
/// ABI version is compatible, else reports the mismatch.
pub assume_specification[ Parser::set_language ](
    p: &mut Parser,
    language: &Language,
) -> (r: Result<(), LanguageError>)
    ensures
        r is Ok <==> grammar_accepted(*language),
;

/// Relies on `Query::new`: compiles the query source for the grammar
/// exactly when it is well-formed for it, else reports why it is not.
pub assume_specification[ Query::new ](
    language: &Language,
    source: &str,
) -> (r: Result<Query, QueryError>)
    ensures
        r is Ok <==> query_compiles(*language, source@),
;

/// Relies on `Query::pattern_count`: the number of compiled patterns.
pub assume_specification[ Query::pattern_count ](q: &Query) -> (r: usize)
    ensures
        r as int == query_pattern_offsets(*q).len(),
;

/// Relies on `Query::start_byte_for_pattern`: the byte offset in the query
/// source at which the pattern starts.  Panics on an out-of-range index.
pub assume_specification[ Query::start_byte_for_pattern ](q: &Query, i: usize) -> (r: usize)
    requires
        (i as int) < query_pattern_offsets(*q).len(),
    ensures
        r == query_pattern_offsets(*q)[i as int],
;

/// Relies on `Language::clone`: a language handle denotes an immutable
/// grammar, and its clone denotes the same grammar.
pub assume_specification[ <Language as Clone>::clone ](l: &Language) -> (r: Language)
    ensures
        r == *l,
;

/// Relies on `Tree::clone`: a cheap snapshot copy of the same syntax tree.
pub assume_specification[ <Tree as Clone>::clone ](t: &Tree) -> (r: Tree)
    ensures
        r == *t,
;

/// Relies on `Query::capture_names`: the query's capture names in
/// declaration order.
#[verifier::external_body]
pub(crate) fn capture_names(q: &Query) -> (r: Vec<String>)
    ensures
        r.deep_view() == query_capture_names(*q),
{
    q.capture_names().iter().map(|s| s.to_string()).collect()
}

/// Relies on `Query::property_predicates`: the `#is?`/`#is-not?` predicates
/// of one pattern.  Panics on an out-of-range index.
#[verifier::external_body]
pub(crate) fn property_predicates(q: &Query, i: usize) -> (r: Vec<(String, bool)>)
    requires
        (i as int) < query_pattern_offsets(*q).len(),
    ensures
        r.deep_view() == query_property_predicates(*q, i as int),
{
    q.property_predicates(i).iter().map(|(p, positive)| (p.key.to_string(), *positive)).collect()
}

/// Relies on `Query::property_settings`: the `#set!` properties of one
/// pattern.  Panics on an out-of-range index.
#[verifier::external_body]
pub(crate) fn property_settings(q: &Query, i: usize) -> (r: Vec<PropertySetting>)
    requires
        (i as int) < query_pattern_offsets(*q).len(),
    ensures
        setting_views(r@) == query_property_settings(*q, i as int),
{
    q.property_settings(i)
        .iter()
        .map(
            |p| PropertySetting {
                key: p.key.to_string(),
                value: p.value.as_ref().map(|v| v.to_string()),
            },
        )
        .collect()
}

/// Relies on `Parser::parse`: parses the bytes, reusing unaffected parts of
/// the given previous tree, and returns no tree only when parsing was
/// cancelled or no language is set.
#[verifier::external_body]
pub(crate) fn parse_bytes(p: &mut Parser, text: &Vec<u8>, old: Option<&Tree>) -> (r: Option<Tree>) {
    p.parse(text.as_slice(), old)
}

/// Relies on `Tree::edit`: shifts and invalidates the tree's node ranges as
/// the described byte edit demands, preparing the tree for reuse.
#[verifier::external_body]
pub(crate) fn tree_edit(t: &mut Tree, e: &EditDescriptor) {
    t.edit(
        &tree_sitter::InputEdit {
            start_byte: e.start_byte,
            old_end_byte: e.old_end_byte,
            new_end_byte: e.new_end_byte,
            start_position: tree_sitter::Point::new(e.start_point.row, e.start_point.column),
            old_end_position: tree_sitter::Point::new(e.old_end_point.row, e.old_end_point.column),
            new_end_position: tree_sitter::Point::new(e.new_end_point.row, e.new_end_point.column),
        },
    );
}

/// Relies on `QueryCursor::matches` run to exhaustion: the matches of the
/// query over the tree, bounded to the byte range, reading the given text;
/// deterministic in those four, with every pattern index inside the query's
/// pattern list and every capture index inside its capture list.
#[verifier::external_body]
pub(crate) fn run_query(q: &Query, t: &Tree, text: &Vec<u8>, start: usize, end: usize) -> (r: Vec<
    RawMatch,
>)
    ensures
        match_views(r@) == query_tree_matches(*q, *t, text@, start as int, end as int),
        forall|i: int|
            0 <= i < r@.len() ==> (#[trigger] r@[i]).pattern < query_pattern_offsets(*q).len(),
        forall|i: int, j: int|
            0 <= i < r@.len() && 0 <= j < r@[i].captures@.len() ==> (#[trigger] r@[i].captures@[j]).index
                < query_capture_names(*q).len() && r@[i].captures@[j].start
                <= r@[i].captures@[j].end,
{
    let mut cursor = tree_sitter::QueryCursor::new();
    cursor.set_byte_range(start..end);
    let mut it = cursor.matches(q, t.root_node(), text.as_slice());
    let mut out = Vec::new();
    while let Some(m) = it.next() {
        let captures = m.captures.iter().map(
            |c| RawCapture { index: c.index as usize, start: c.node.start_byte(), end: c.node.end_byte() },
        ).collect();
        out.push(RawMatch { pattern: m.pattern_index, captures });
    }
    out
}

/// Relies on ropey's byte iterator: the bytes of the rope's text, in order.
#[verifier::external_body]
pub(crate) fn rope_to_bytes(r: &Rope) -> (v: Vec<u8>)
    ensures
        v@ == rope_bytes(*r),
{
    r.bytes().collect()
}

} // verus!
