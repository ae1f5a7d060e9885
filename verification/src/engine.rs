//! The syntax-highlighting engine: one instance per (language, document).
//!
//! The engine owns the current text and syntax tree.  `update` applies an
//! edit and reparses incrementally, reusing unaffected subtrees; `styles`
//! runs the compiled matcher over a byte range, resolves injected
//! sub-language regions, and returns a sorted, non-overlapping,
//! style-resolved covering of the range.
use vstd::prelude::*;
use vstd::string::StringExecFns;

use ropey::Rope;
use tree_sitter::{Language, Parser, Query, Tree};

use crate::collect::{
    merge_push, resolve_injection_language, spec_merge_step, spec_resolve_language,
    PropertySetting,
};
use crate::compile::{
    count_patterns_before, find_capture_index, is_last_index_of, non_local_flags,
    spec_count_before, spec_negates_local,
};
use crate::normalize::{is_partition, norm_rel, unique_styles};
use crate::registry::{spec_find, LanguageConfig, LanguageRegistry};
use crate::span::{EditDescriptor, LabelSpan, StyleSpan, TextPoint};
use crate::style::Style;
use crate::text::{is_clip_left, is_clip_right};
use crate::theme::{spec_resolve, Theme};
use crate::ts;
use crate::ts::{
    capture_views, grammar_accepted, match_views, query_capture_names, query_compiles,
    query_pattern_offsets, query_property_predicates, query_property_settings,
    query_tree_matches, setting_views, RawCapture,
};
use vstd::utf8::encode_utf8;

verus! {

/// The styled form of a list of label spans: each label resolved through
/// the lookup, ranges kept.
pub open spec fn spec_styled(items: Seq<LabelSpan>, entries: Seq<(String, Style)>) -> Seq<
    StyleSpan,
> {
    items.map_values(
        |it: LabelSpan|
            StyleSpan { start: it.start, end: it.end, style: spec_resolve(entries, it.label@) },
    )
}

/// Resolve each label span's style through the lookup — a missing label
/// resolves to the fully-unset style — and normalize the styled spans over
/// `[lo, hi)`.
pub fn resolve_and_normalize(lo: usize, hi: usize, items: &Vec<LabelSpan>, theme: &Theme) -> (r:
    Vec<StyleSpan>)
    requires
        lo <= hi,
    ensures
        norm_rel(lo, hi, spec_styled(items@, theme.entries@), r@),
{
    let mut styled: Vec<StyleSpan> = Vec::new();
    let mut i: usize = 0;
    while i < items.len()
        invariant
            i <= items@.len(),
            styled@ == spec_styled(items@.take(i as int), theme.entries@),
        decreases items@.len() - i,
    {
        let it = &items[i];
        let st = theme.resolve(it.label.as_str());
        styled.push(StyleSpan::new(it.start, it.end, st));
        proof {
            assert(styled@ =~= spec_styled(items@.take(i + 1), theme.entries@));
        }
        i = i + 1;
    }
    proof {
        assert(items@.take(items@.len() as int) =~= items@);
    }
    unique_styles(lo, hi, &styled)
}

/// The last capture of a match whose capture index is `cci`, if any.
pub open spec fn spec_content_capture(caps: Seq<(int, int, int)>, cci: int) -> Option<
    (int, int, int),
>
    decreases caps.len(),
{
    if caps.len() == 0 {
        None
    } else if caps.last().0 == cci {
        Some(caps.last())
    } else {
        spec_content_capture(caps.drop_last(), cci)
    }
}

/// The collected list after appending one match's ordinary captures: each
/// in-range capture becomes a label span carrying the capture node's byte
/// range and the capture's name, merged by the collector's ordered rule, in
/// capture order.
pub open spec fn spec_push_captures(
    items: Seq<LabelSpan>,
    caps: Seq<(int, int, int)>,
    names: Seq<String>,
) -> Seq<LabelSpan>
    decreases caps.len(),
{
    if caps.len() == 0 {
        items
    } else {
        let prev = spec_push_captures(items, caps.drop_last(), names);
        let c = caps.last();
        if 0 <= c.0 < names.len() {
            spec_merge_step(
                prev,
                LabelSpan { start: c.1 as usize, end: c.2 as usize, label: names[c.0] },
            )
        } else {
            prev
        }
    }
}

/// Every span's label is one of the given capture names.
pub open spec fn labels_from(spans: Seq<LabelSpan>, names: Seq<Seq<char>>) -> bool {
    forall|i: int|
        0 <= i < spans.len() ==> exists|j: int|
            0 <= j < names.len() && (#[trigger] spans[i]).label@ == names[j]
}

/// The first prebuilt injection matcher for the named sub-language, if any.
pub open spec fn spec_find_entry(entries: Seq<InjectionEntry>, lang: Seq<char>) -> Option<
    InjectionEntry,
>
    decreases entries.len(),
{
    if entries.len() == 0 {
        None
    } else if entries.first().name@ == lang {
        Some(entries.first())
    } else {
        spec_find_entry(entries.drop_first(), lang)
    }
}

/// Construction for this language succeeds: it is registered, its grammar
/// is accepted, and its combined query source compiles.
pub open spec fn spec_buildable(registry: LanguageRegistry, lang: Seq<char>) -> bool {
    match spec_find(registry.configs@, lang) {
        Some(ci) => {
            let cfg = registry.configs@[ci];
            grammar_accepted(cfg.grammar) && query_compiles(
                cfg.grammar,
                cfg.injections@ + cfg.locals@ + cfg.highlights@,
            )
        },
        None => false,
    }
}

/// The names of the registered sub-languages whose highlights queries
/// compile, in the order of the injection list.
pub open spec fn spec_injection_names(configs: Seq<LanguageConfig>, list: Seq<String>) -> Seq<
    Seq<char>,
>
    decreases list.len(),
{
    if list.len() == 0 {
        Seq::empty()
    } else {
        let rest = spec_injection_names(configs, list.drop_last());
        match spec_find(configs, list.last()@) {
            Some(ci) => if query_compiles(configs[ci].grammar, configs[ci].highlights@) {
                rest.push(configs[ci].name@)
            } else {
                rest
            },
            None => rest,
        }
    }
}

/// A lazily-built highlights-only matcher for one injectable sub-language.
pub struct InjectionEntry {
    /// The sub-language's name.
    pub name: String,
    /// Its grammar handle.
    pub grammar: Language,
    /// Its compiled highlights-only matcher.
    pub query: Query,
    /// The matcher's capture names.
    pub capture_names: Vec<String>,
}

/// An incremental syntax highlighter for one document.
pub struct SyntaxHighlighter {
    /// The name of the language this engine highlights.
    pub language: String,
    /// The single matcher compiled from the three concatenated query
    /// sources, or nothing for the inert engine.
    pub query: Option<Query>,
    /// One highlights-only matcher per registered injectable sub-language.
    pub injection_queries: Vec<InjectionEntry>,
    /// The number of patterns that come before the local-variable section.
    pub locals_pattern_index: usize,
    /// The number of patterns that come before the highlights section.
    pub highlights_pattern_index: usize,
    /// Per pattern: does it declare a negated `local` property?
    pub non_local_variable_patterns: Vec<bool>,
    /// The capture index of `injection.content`, if declared.
    pub injection_content_capture_index: Option<usize>,
    /// The capture index of `injection.language`, if declared.
    pub injection_language_capture_index: Option<usize>,
    /// The capture index of `local.scope`, if declared.
    pub local_scope_capture_index: Option<usize>,
    /// The capture index of `local.definition`, if declared.
    pub local_def_capture_index: Option<usize>,
    /// The capture index of `local.definition-value`, if declared.
    pub local_def_value_capture_index: Option<usize>,
    /// The capture index of `local.reference`, if declared.
    pub local_ref_capture_index: Option<usize>,
    /// The matcher's capture names, in declaration order.
    pub capture_names: Vec<String>,
    /// Per pattern: its recorded `#set!` properties.
    pub settings_by_pattern: Vec<Vec<PropertySetting>>,
    /// The bytes of the last parsed text.
    pub text: Vec<u8>,
    /// The parser, with the language's grammar set.
    pub parser: Parser,
    /// The tree of the last successful parse.
    pub tree: Option<Tree>,
    /// How many times the parser has been invoked.
    pub parse_count: usize,
}

impl SyntaxHighlighter {
    /// The engine's tables are consistent with its compiled matchers, so
    /// every pattern and capture index a query run reports indexes into
    /// them.
    pub open spec fn wf(self) -> bool {
        &&& match self.query {
            Some(q) => {
                &&& self.capture_names.deep_view() == query_capture_names(q)
                &&& self.non_local_variable_patterns@.len() == query_pattern_offsets(q).len()
                &&& self.settings_by_pattern@.len() == query_pattern_offsets(q).len()
            },
            None => true,
        }
        &&& forall|i: int|
            0 <= i < self.injection_queries@.len() ==> (#[trigger] self.injection_queries@[i]).capture_names.deep_view()
                == query_capture_names(self.injection_queries@[i].query)
    }

    /// The engine's compiled state agrees exactly with one registered
    /// language configuration: its matcher's patterns are classified by the
    /// byte lengths of the concatenated query sections, the special capture
    /// indices are the last declarations of their names, and the per-pattern
    /// tables carry the matcher's recorded properties.
    pub open spec fn matches_config(self, cfg: LanguageConfig) -> bool {
        self.query matches Some(q) ==> {
            let locals_boundary = encode_utf8(cfg.injections@).len() as usize;
            let highlights_boundary = encode_utf8(cfg.injections@ + cfg.locals@).len() as usize;
            &&& self.language@ == cfg.name@
            &&& self.locals_pattern_index == spec_count_before(
                query_pattern_offsets(q),
                locals_boundary as int,
            )
            &&& self.highlights_pattern_index == spec_count_before(
                query_pattern_offsets(q),
                highlights_boundary as int,
            )
            &&& is_last_index_of(
                query_capture_names(q),
                "injection.content"@,
                self.injection_content_capture_index,
            )
            &&& is_last_index_of(
                query_capture_names(q),
                "injection.language"@,
                self.injection_language_capture_index,
            )
            &&& is_last_index_of(
                query_capture_names(q),
                "local.scope"@,
                self.local_scope_capture_index,
            )
            &&& is_last_index_of(
                query_capture_names(q),
                "local.definition"@,
                self.local_def_capture_index,
            )
            &&& is_last_index_of(
                query_capture_names(q),
                "local.definition-value"@,
                self.local_def_value_capture_index,
            )
            &&& is_last_index_of(
                query_capture_names(q),
                "local.reference"@,
                self.local_ref_capture_index,
            )
            &&& forall|i: int|
                0 <= i < self.non_local_variable_patterns@.len()
                    ==> self.non_local_variable_patterns@[i] == spec_negates_local(
                    #[trigger] query_property_predicates(q, i),
                )
            &&& forall|i: int|
                0 <= i < self.settings_by_pattern@.len() ==> setting_views(
                    (#[trigger] self.settings_by_pattern@[i])@,
                ) == query_property_settings(q, i)
        }
    }

    /// The engine holds one compiled highlights-only matcher for exactly
    /// the registered sub-languages of the configuration's injection list
    /// whose highlights queries compile, in order, each with its
    /// registration's grammar.
    pub open spec fn injection_entries_ok(
        self,
        configs: Seq<LanguageConfig>,
        cfg: LanguageConfig,
    ) -> bool {
        &&& self.injection_queries@.map_values(|e: InjectionEntry| e.name@)
            == spec_injection_names(configs, cfg.injection_languages@)
        &&& forall|k: int|
            0 <= k < self.injection_queries@.len() ==> {
                let e = #[trigger] self.injection_queries@[k];
                &&& spec_find(configs, e.name@) is Some
                &&& (spec_find(configs, e.name@) matches Some(ci) ==> e.grammar
                    == configs[ci].grammar && query_compiles(e.grammar, configs[ci].highlights@))
            }
    }

    /// Is this match (a pattern index with its captures, as plain values)
    /// an injection?  It is when an `injection.content` capture index is
    /// recorded, the match carries such a capture (the last one wins), and
    /// the pattern's properties resolve a language name.  The resolved name
    /// and the content capture are returned.
    pub open spec fn spec_is_injection(self, m: (int, Seq<(int, int, int)>)) -> Option<
        (Seq<char>, (int, int, int)),
    > {
        match self.injection_content_capture_index {
            None => None,
            Some(cci) => match spec_content_capture(m.1, cci as int) {
                None => None,
                Some(cap) => {
                    let settings = if 0 <= m.0 < self.settings_by_pattern@.len() {
                        self.settings_by_pattern@[m.0]@
                    } else {
                        Seq::empty()
                    };
                    match spec_resolve_language(settings, self.language@, None) {
                        Some(lang) => Some((lang, cap)),
                        None => None,
                    }
                },
            },
        }
    }

    /// What holds of one injected region's contribution: the spans lie in
    /// `[slice_lo, slice_hi]`, are ordered and disjoint; a sub-language with
    /// no prebuilt matcher contributes nothing; with one, an empty slice or
    /// a rejected grammar contributes nothing, and every emitted label is a
    /// capture name of that sub-language's matcher.
    pub open spec fn injection_result_ok(
        self,
        lang: Seq<char>,
        slice_lo: int,
        slice_hi: int,
        spans: Seq<LabelSpan>,
    ) -> bool {
        &&& forall|i: int|
            0 <= i < spans.len() ==> slice_lo <= (#[trigger] spans[i]).start && spans[i].start
                <= spans[i].end && spans[i].end <= slice_hi
        &&& forall|i: int, j: int|
            0 <= i < j < spans.len() ==> (#[trigger] spans[i]).end <= (#[trigger] spans[j]).start
        &&& match spec_find_entry(self.injection_queries@, lang) {
            None => spans.len() == 0,
            Some(e) => {
                &&& (slice_lo == slice_hi ==> spans.len() == 0)
                &&& (!grammar_accepted(e.grammar) ==> spans.len() == 0)
                &&& labels_from(spans, query_capture_names(e.query))
            },
        }
    }

    /// What one match adds to the collected list: an injection match
    /// contributes a span list bounded by its clipped content range as
    /// `injection_result_ok` states; every other match contributes its
    /// in-range captures, with the capture node's range and the capture's
    /// name, merged by the collector's ordered rule.
    pub open spec fn collect_step(
        self,
        m: (int, Seq<(int, int, int)>),
        text: Seq<u8>,
        prefix: Seq<LabelSpan>,
        items: Seq<LabelSpan>,
    ) -> bool {
        match self.spec_is_injection(m) {
            Some(li) => exists|lo2: int, hi2: int, spans: Seq<LabelSpan>|
                {
                    &&& is_clip_left(text, li.1.1, lo2)
                    &&& is_clip_right(text, li.1.2, hi2)
                    &&& #[trigger] self.injection_result_ok(li.0, lo2, hi2, spans)
                    &&& items == prefix + spans
                },
            None => items == spec_push_captures(prefix, m.1, self.capture_names@),
        }
    }

    /// The collected label spans are exactly what walking the match list in
    /// order produces, one `collect_step` per match.
    pub open spec fn collected_rel(
        self,
        ms: Seq<(int, Seq<(int, int, int)>)>,
        text: Seq<u8>,
        items: Seq<LabelSpan>,
    ) -> bool
        decreases ms.len(),
    {
        if ms.len() == 0 {
            items.len() == 0
        } else {
            exists|prefix: Seq<LabelSpan>|
                self.collected_rel(ms.drop_last(), text, prefix) && #[trigger] self.collect_step(
                    ms.last(),
                    text,
                    prefix,
                    items,
                )
        }
    }

    /// Appending one injection match's bounded span list extends the
    /// collection relation by one match.
    proof fn lemma_collected_step_injection(
        self,
        ms: Seq<(int, Seq<(int, int, int)>)>,
        text: Seq<u8>,
        prefix: Seq<LabelSpan>,
        lang: Seq<char>,
        cap: (int, int, int),
        lo2: int,
        hi2: int,
        spans: Seq<LabelSpan>,
        items: Seq<LabelSpan>,
    )
        requires
            ms.len() > 0,
            self.collected_rel(ms.drop_last(), text, prefix),
            self.spec_is_injection(ms.last()) == Some((lang, cap)),
            is_clip_left(text, cap.1, lo2),
            is_clip_right(text, cap.2, hi2),
            self.injection_result_ok(lang, lo2, hi2, spans),
            items == prefix + spans,
        ensures
            self.collected_rel(ms, text, items),
    {
        let li = self.spec_is_injection(ms.last())->0;
        assert(li.0 == lang && li.1 == cap);
        assert(is_clip_left(text, li.1.1, lo2));
        assert(is_clip_right(text, li.1.2, hi2));
        assert(self.injection_result_ok(li.0, lo2, hi2, spans));
        assert(self.collect_step(ms.last(), text, prefix, items));
    }

    /// Appending one ordinary match's merged captures extends the
    /// collection relation by one match.
    proof fn lemma_collected_step_plain(
        self,
        ms: Seq<(int, Seq<(int, int, int)>)>,
        text: Seq<u8>,
        prefix: Seq<LabelSpan>,
        items: Seq<LabelSpan>,
    )
        requires
            ms.len() > 0,
            self.collected_rel(ms.drop_last(), text, prefix),
            self.spec_is_injection(ms.last()) is None,
            items == spec_push_captures(prefix, ms.last().1, self.capture_names@),
        ensures
            self.collected_rel(ms, text, items),
    {
        assert(self.collect_step(ms.last(), text, prefix, items));
    }

    /// The label spans the matcher yields for a byte range: nothing without
    /// a tree or a compiled matcher, else the collection relation over the
    /// named match list of the current matcher, tree and text.
    pub open spec fn matched_items_ok(self, start: int, end: int, items: Seq<LabelSpan>) -> bool {
        if self.tree is Some && self.query is Some {
            self.collected_rel(
                query_tree_matches(self.query->0, self.tree->0, self.text@, start, end),
                self.text@,
                items,
            )
        } else {
            items.len() == 0
        }
    }

    /// An engine that highlights nothing: no matcher, every range resolves
    /// to one default-styled span.
    fn inert() -> (r: SyntaxHighlighter)
        ensures
            r.wf(),
            r.text@.len() == 0,
            r.parse_count == 0,
            r.language@.len() == 0,
            r.query is None,
            r.tree is None,
            r.injection_queries@.len() == 0,
    {
        SyntaxHighlighter {
            language: String::new(),
            query: None,
            injection_queries: Vec::new(),
            locals_pattern_index: 0,
            highlights_pattern_index: 0,
            non_local_variable_patterns: Vec::new(),
            injection_content_capture_index: None,
            injection_language_capture_index: None,
            local_scope_capture_index: None,
            local_def_capture_index: None,
            local_def_value_capture_index: None,
            local_ref_capture_index: None,
            capture_names: Vec::new(),
            settings_by_pattern: Vec::new(),
            text: Vec::new(),
            parser: Parser::new(),
            tree: None,
            parse_count: 0,
        }
    }

    /// Compile the engine for one registered language: concatenate the
    /// three query sources, compile one matcher, classify its patterns by
    /// section, record the special capture indices and the negated-`local`
    /// table, and build one highlights-only matcher per registered
    /// injectable sub-language (a missing registration is skipped).
    /// Nothing is returned when the language is not registered, its grammar
    /// is rejected, or its combined query does not compile.
    fn build(registry: &LanguageRegistry, lang: &str) -> (r: Option<SyntaxHighlighter>)
        ensures
            r is Some <==> spec_buildable(*registry, lang@),
            match r {
                Some(h) => {
                    &&& h.wf()
                    &&& h.text@.len() == 0
                    &&& h.parse_count == 0
                    &&& h.language@ == lang@
                    &&& h.query is Some
                    &&& h.tree is None
                    &&& (spec_find(registry.configs@, lang@) matches Some(ci)
                        ==> h.matches_config(registry.configs@[ci]) && h.injection_entries_ok(
                            registry.configs@,
                            registry.configs@[ci],
                        ))
                },
                None => true,
            },
    {
        let config = match registry.language(lang) {
            Some(c) => c,
            None => {
                return None;
            },
        };
        let mut parser = Parser::new();
        match parser.set_language(&config.grammar) {
            Ok(u) => u,
            Err(_) => {
                return None;
            },
        };
        // Concatenate the query sources, keeping the start offset of each
        // section.
        let mut query_source = String::new();
        query_source.append(config.injections.as_str());
        let locals_query_offset = query_source.as_str().len();
        query_source.append(config.locals.as_str());
        let highlights_query_offset = query_source.as_str().len();
        query_source.append(config.highlights.as_str());
        proof {
            assert(query_source@ =~= config.injections@ + config.locals@ + config.highlights@);
        }
        let query = match Query::new(&config.grammar, query_source.as_str()) {
            Ok(q) => q,
            Err(_) => {
                return None;
            },
        };
        // Classify the compiled patterns by their source offsets.
        let pattern_total = query.pattern_count();
        let mut offsets: Vec<usize> = Vec::new();
        let mut i: usize = 0;
        proof {
            assert(offsets@ =~= query_pattern_offsets(query).subrange(0, 0));
        }
        while i < pattern_total
            invariant
                pattern_total as int == query_pattern_offsets(query).len(),
                i <= pattern_total,
                offsets@ == query_pattern_offsets(query).subrange(0, i as int),
            decreases pattern_total - i,
        {
            let off = query.start_byte_for_pattern(i);
            offsets.push(off);
            proof {
                assert(query_pattern_offsets(query).subrange(0, i + 1) =~= query_pattern_offsets(
                    query,
                ).subrange(0, i as int).push(query_pattern_offsets(query)[i as int]));
            }
            i = i + 1;
        }
        proof {
            assert(offsets@ =~= query_pattern_offsets(query));
        }
        let locals_pattern_index = count_patterns_before(&offsets, locals_query_offset);
        let highlights_pattern_index = count_patterns_before(&offsets, highlights_query_offset);
        // Record the property predicates and settings of every pattern.
        let mut predicate_rows: Vec<Vec<(String, bool)>> = Vec::new();
        let mut settings_by_pattern: Vec<Vec<PropertySetting>> = Vec::new();
        let mut i: usize = 0;
        while i < pattern_total
            invariant
                pattern_total as int == query_pattern_offsets(query).len(),
                i <= pattern_total,
                predicate_rows@.len() == i,
                settings_by_pattern@.len() == i,
                forall|k: int|
                    0 <= k < i ==> (#[trigger] predicate_rows@[k]).deep_view()
                        == query_property_predicates(query, k),
                forall|k: int|
                    0 <= k < i ==> setting_views((#[trigger] settings_by_pattern@[k])@)
                        == query_property_settings(query, k),
            decreases pattern_total - i,
        {
            predicate_rows.push(ts::property_predicates(&query, i));
            settings_by_pattern.push(ts::property_settings(&query, i));
            i = i + 1;
        }
        let non_local_variable_patterns = non_local_flags(&predicate_rows);
        // Record the numeric indices of the special captures.
        let capture_names = ts::capture_names(&query);
        let injection_content_capture_index = find_capture_index(&capture_names, "injection.content");
        let injection_language_capture_index = find_capture_index(
            &capture_names,
            "injection.language",
        );
        let local_scope_capture_index = find_capture_index(&capture_names, "local.scope");
        let local_def_capture_index = find_capture_index(&capture_names, "local.definition");
        let local_def_value_capture_index = find_capture_index(
            &capture_names,
            "local.definition-value",
        );
        let local_ref_capture_index = find_capture_index(&capture_names, "local.reference");
        // Build one highlights-only matcher per registered sub-language.
        let mut injection_queries: Vec<InjectionEntry> = Vec::new();
        let mut i: usize = 0;
        proof {
            assert(injection_queries@.map_values(|e: InjectionEntry| e.name@)
                =~= spec_injection_names(
                registry.configs@,
                config.injection_languages@.take(0),
            ));
        }
        while i < config.injection_languages.len()
            invariant
                i <= config.injection_languages@.len(),
                forall|k: int|
                    0 <= k < injection_queries@.len() ==> (#[trigger] injection_queries@[k]).capture_names.deep_view()
                        == query_capture_names(injection_queries@[k].query),
                injection_queries@.map_values(|e: InjectionEntry| e.name@)
                    == spec_injection_names(
                    registry.configs@,
                    config.injection_languages@.take(i as int),
                ),
                forall|k: int|
                    0 <= k < injection_queries@.len() ==> {
                        let e = #[trigger] injection_queries@[k];
                        &&& spec_find(registry.configs@, e.name@) is Some
                        &&& (spec_find(registry.configs@, e.name@) matches Some(ci) ==> e.grammar
                            == registry.configs@[ci].grammar && query_compiles(
                            e.grammar,
                            registry.configs@[ci].highlights@,
                        ))
                    },
            decreases config.injection_languages@.len() - i,
        {
            proof {
                assert(config.injection_languages@.take(i + 1).drop_last()
                    =~= config.injection_languages@.take(i as int));
                assert(config.injection_languages@.take(i + 1).last()
                    == config.injection_languages@[i as int]);
            }
            let ghost before_entries = injection_queries@;
            match registry.language(config.injection_languages[i].as_str()) {
                Some(inj_config) => {
                    match Query::new(&inj_config.grammar, inj_config.highlights.as_str()) {
                        Ok(q2) => {
                            let names2 = ts::capture_names(&q2);
                            injection_queries.push(
                                InjectionEntry {
                                    name: inj_config.name.clone(),
                                    grammar: inj_config.grammar.clone(),
                                    query: q2,
                                    capture_names: names2,
                                },
                            );
                            proof {
                                assert(injection_queries@.map_values(
                                    |e: InjectionEntry| e.name@,
                                ) =~= before_entries.map_values(|e: InjectionEntry| e.name@).push(
                                    inj_config.name@,
                                ));
                            }
                        },
                        Err(_) => {},
                    }
                },
                None => {},
            }
            i = i + 1;
        }
        proof {
            assert(config.injection_languages@.take(config.injection_languages@.len() as int)
                =~= config.injection_languages@);
        }
        let h = SyntaxHighlighter {
            language: config.name.clone(),
            query: Some(query),
            injection_queries,
            locals_pattern_index,
            highlights_pattern_index,
            non_local_variable_patterns,
            injection_content_capture_index,
            injection_language_capture_index,
            local_scope_capture_index,
            local_def_capture_index,
            local_def_value_capture_index,
            local_ref_capture_index,
            capture_names,
            settings_by_pattern,
            text: Vec::new(),
            parser,
            tree: None,
            parse_count: 0,
        };
        proof {
            if spec_find(registry.configs@, lang@) is Some {
                let ci = spec_find(registry.configs@, lang@)->0;
                let cfg = registry.configs@[ci];
                let q = h.query->0;
                assert(cfg == *config);
                assert(q == query);
                assert(h.language@ == cfg.name@);
                assert(Seq::<char>::empty() + cfg.injections@ =~= cfg.injections@);
                assert(locals_query_offset == encode_utf8(cfg.injections@).len() as usize);
                assert(highlights_query_offset == encode_utf8(cfg.injections@ + cfg.locals@).len()
                    as usize);
                assert(h.locals_pattern_index == spec_count_before(
                    query_pattern_offsets(q),
                    locals_query_offset as int,
                ));
                assert(is_last_index_of(
                    query_capture_names(q),
                    "injection.content"@,
                    h.injection_content_capture_index,
                ));
                assert forall|i: int|
                    0 <= i < h.non_local_variable_patterns@.len()
                        implies h.non_local_variable_patterns@[i] == spec_negates_local(
                    #[trigger] query_property_predicates(q, i),
                ) by {
                    assert(predicate_rows@[i].deep_view() == query_property_predicates(query, i));
                    assert(h.non_local_variable_patterns@[i] == spec_negates_local(
                        predicate_rows@[i].deep_view(),
                    ));
                }
                assert(forall|i: int|
                    0 <= i < h.settings_by_pattern@.len() ==> setting_views(
                        (#[trigger] h.settings_by_pattern@[i])@,
                    ) == query_property_settings(q, i));
                assert(h.matches_config(cfg));
                assert(h.injection_entries_ok(registry.configs@, cfg));
                assert(spec_buildable(*registry, lang@)) by {
                    assert(grammar_accepted(cfg.grammar));
                    assert(query_compiles(cfg.grammar, cfg.injections@ + cfg.locals@
                        + cfg.highlights@));
                }
            }
        }
        Some(h)
    }

    /// Create an engine for the named language.  When the language is not
    /// registered or its queries do not compile, fall back to the
    /// registered plain-text pseudo-language `text`; failing that too, an
    /// inert engine that highlights nothing.  No failure is propagated.
    pub fn new(registry: &LanguageRegistry, lang: &str) -> (r: SyntaxHighlighter)
        ensures
            r.wf(),
            r.text@.len() == 0,
            r.parse_count == 0,
            r.tree is None,
            r.language@ == lang@ || r.language@ == "text"@ || r.language@.len() == 0,
            spec_buildable(*registry, lang@) ==> r.language@ == lang@ && r.query is Some,
            !spec_buildable(*registry, lang@) && spec_buildable(*registry, "text"@)
                ==> r.language@ == "text"@ && r.query is Some,
            !spec_buildable(*registry, lang@) && !spec_buildable(*registry, "text"@)
                ==> r.language@.len() == 0 && r.query is None,
            spec_find(registry.configs@, lang@) matches Some(ci) ==> ((r.language@ == lang@
                && r.query is Some) ==> r.matches_config(registry.configs@[ci])
                && r.injection_entries_ok(registry.configs@, registry.configs@[ci])),
            spec_find(registry.configs@, "text"@) matches Some(ci) ==> ((r.language@ == "text"@
                && r.query is Some) ==> r.matches_config(registry.configs@[ci])
                && r.injection_entries_ok(registry.configs@, registry.configs@[ci])),
    {
        match Self::build(registry, lang) {
            Some(h) => {
                proof {
                    if h.language@ == "text"@ {
                        assert(lang@ == "text"@);
                    }
                }
                h
            },
            None => match Self::build(registry, "text") {
                Some(h) => {
                    proof {
                        if h.language@ == lang@ {
                            assert(lang@ == "text"@);
                        }
                    }
                    h
                },
                None => Self::inert(),
            },
        }
    }

    /// Replace the stored text.  A no-op when the text is unchanged.
    /// Otherwise apply the edit descriptor — or, when none is given, a
    /// whole-text replacement — to the previous tree, and reparse with the
    /// previous tree as a reuse hint, counting one parser invocation.  When
    /// the reparse yields no tree, the previous text and tree are kept
    /// unchanged.
    pub fn update(&mut self, edit: Option<EditDescriptor>, text: &Rope)
        requires
            old(self).wf(),
        ensures
            final(self).wf(),
            ts::rope_bytes(*text) == old(self).text@ ==> *final(self) == *old(self),
            ts::rope_bytes(*text) != old(self).text@ ==> {
                &&& final(self).parse_count == if old(self).parse_count < usize::MAX {
                    (old(self).parse_count + 1) as usize
                } else {
                    usize::MAX
                }
                &&& final(self).language == old(self).language
                &&& final(self).query == old(self).query
                &&& final(self).injection_queries == old(self).injection_queries
                &&& final(self).capture_names == old(self).capture_names
                &&& final(self).settings_by_pattern == old(self).settings_by_pattern
                &&& final(self).non_local_variable_patterns == old(
                    self,
                ).non_local_variable_patterns
                &&& (final(self).text@ == ts::rope_bytes(*text) && final(self).tree is Some || (
                final(self).text@ == old(self).text@ && final(self).tree == old(self).tree))
            },
    {
        let new_text = ts::rope_to_bytes(text);
        if crate::text::bytes_eq(&self.text, &new_text) {
            return ;
        }
        let e = match edit {
            Some(e) => e,
            None => EditDescriptor {
                start_byte: 0,
                old_end_byte: self.text.len(),
                new_end_byte: new_text.len(),
                start_point: TextPoint { row: 0, column: 0 },
                old_end_point: TextPoint { row: 0, column: 0 },
                new_end_point: TextPoint { row: 0, column: 0 },
            },
        };
        // Edit a snapshot of the previous tree so that nothing is lost if
        // the reparse fails.
        let work: Option<Tree> = match &self.tree {
            Some(t) => {
                let mut c = t.clone();
                ts::tree_edit(&mut c, &e);
                Some(c)
            },
            None => None,
        };
        if self.parse_count < usize::MAX {
            self.parse_count = self.parse_count + 1;
        }
        let new_tree = ts::parse_bytes(&mut self.parser, &new_text, work.as_ref());
        match new_tree {
            Some(t) => {
                self.tree = Some(t);
                self.text = new_text;
            },
            None => {},
        }
    }

    /// Highlight one injected region: parse the slice `[slice_lo,
    /// slice_hi)` of the stored text fresh with the sub-language's grammar,
    /// run its highlights matcher bounded to the slice, and translate every
    /// capture's range back into the parent's coordinate space.  Captures
    /// that overlap an earlier one or reach past the slice are dropped, so
    /// the emitted spans are ordered, disjoint, and lie inside the slice.
    /// An unregistered sub-language contributes nothing.
    /// The index of the first prebuilt matcher for the named sub-language.
    fn find_entry(&self, lang: &String) -> (r: Option<usize>)
        ensures
            match r {
                Some(k) => k < self.injection_queries@.len() && spec_find_entry(
                    self.injection_queries@,
                    lang@,
                ) == Some(self.injection_queries@[k as int]),
                None => spec_find_entry(self.injection_queries@, lang@) is None,
            },
    {
        let mut ei: usize = 0;
        proof {
            assert(self.injection_queries@.skip(0) =~= self.injection_queries@);
        }
        while ei < self.injection_queries.len()
            invariant
                ei <= self.injection_queries@.len(),
                spec_find_entry(self.injection_queries@, lang@) == spec_find_entry(
                    self.injection_queries@.skip(ei as int),
                    lang@,
                ),
            decreases self.injection_queries@.len() - ei,
        {
            proof {
                assert(self.injection_queries@.skip(ei as int).first()
                    == self.injection_queries@[ei as int]);
                assert(self.injection_queries@.skip(ei as int).drop_first()
                    =~= self.injection_queries@.skip(ei + 1));
            }
            if crate::strutil::str_eq(self.injection_queries[ei].name.as_str(), lang.as_str()) {
                return Some(ei);
            }
            ei = ei + 1;
        }
        proof {
            assert(self.injection_queries@.skip(self.injection_queries@.len() as int) =~= Seq::<
                InjectionEntry,
            >::empty());
        }
        None
    }

    /// Highlight one injected region: parse the slice `[slice_lo,
    /// slice_hi)` of the stored text fresh with the sub-language's grammar,
    /// run its highlights matcher bounded to the slice, and translate every
    /// capture's range back into the parent's coordinate space.  Captures
    /// that overlap an earlier one or reach past the slice are dropped, so
    /// the emitted spans are ordered, disjoint, and lie inside the slice;
    /// their labels are the sub-matcher's capture names.  A sub-language
    /// with no prebuilt matcher, an empty slice, a rejected grammar or a
    /// failed sub-parse contributes nothing.
    fn handle_injection(&self, lang: &String, slice_lo: usize, slice_hi: usize) -> (r: Vec<
        LabelSpan,
    >)
        requires
            self.wf(),
            slice_lo <= slice_hi,
            slice_hi <= self.text@.len(),
        ensures
            self.injection_result_ok(lang@, slice_lo as int, slice_hi as int, r@),
    {
        let mut out: Vec<LabelSpan> = Vec::new();
        let idx = match self.find_entry(lang) {
            Some(k) => k,
            None => {
                return out;
            },
        };
        let entry = &self.injection_queries[idx];
        let slice = crate::text::slice_bytes(&self.text, slice_lo, slice_hi);
        let slice_len = slice.len();
        if slice_len == 0 {
            return out;
        }
        let mut parser = Parser::new();
        match parser.set_language(&entry.grammar) {
            Ok(u) => u,
            Err(_) => {
                return out;
            },
        };
        let tree = match ts::parse_bytes(&mut parser, &slice, None) {
            Some(t) => t,
            None => {
                return out;
            },
        };
        let matches = ts::run_query(&entry.query, &tree, &slice, 0, slice_len);
        // walk the captures, keeping them ordered and inside the slice, and
        // translate them by the slice start
        let mut last_end: usize = 0;
        let mut mi: usize = 0;
        while mi < matches.len()
            invariant
                self.wf(),
                idx < self.injection_queries@.len(),
                *entry == self.injection_queries@[idx as int],
                slice_lo <= slice_hi,
                slice_hi <= self.text@.len(),
                slice_len == slice_hi - slice_lo,
                last_end <= slice_len,
                mi <= matches@.len(),
                forall|i: int|
                    0 <= i < out@.len() ==> slice_lo <= (#[trigger] out@[i]).start && out@[i].start
                        <= out@[i].end && out@[i].end <= slice_lo + last_end,
                forall|i: int, j: int|
                    0 <= i < j < out@.len() ==> (#[trigger] out@[i]).end <= (#[trigger] out@[j]).start,
                labels_from(out@, query_capture_names(self.injection_queries@[idx as int].query)),
            decreases matches@.len() - mi,
        {
            let caps = &matches[mi].captures;
            let mut ci: usize = 0;
            while ci < caps.len()
                invariant
                    self.wf(),
                    idx < self.injection_queries@.len(),
                    *entry == self.injection_queries@[idx as int],
                    slice_lo <= slice_hi,
                    slice_hi <= self.text@.len(),
                    slice_len == slice_hi - slice_lo,
                    last_end <= slice_len,
                    ci <= caps@.len(),
                    forall|i: int|
                        0 <= i < out@.len() ==> slice_lo <= (#[trigger] out@[i]).start
                            && out@[i].start <= out@[i].end && out@[i].end <= slice_lo + last_end,
                    forall|i: int, j: int|
                        0 <= i < j < out@.len() ==> (#[trigger] out@[i]).end <= (#[trigger] out@[j]).start,
                    labels_from(
                        out@,
                        query_capture_names(self.injection_queries@[idx as int].query),
                    ),
                decreases caps@.len() - ci,
            {
                let cap = caps[ci];
                if cap.start >= last_end {
                    if cap.end > slice_len {
                        break ;
                    }
                    if cap.start <= cap.end && cap.index < entry.capture_names.len() {
                        last_end = cap.end;
                        let label = entry.capture_names[cap.index].clone();
                        let ghost prev_out = out@;
                        out.push(
                            LabelSpan::new(slice_lo + cap.start, slice_lo + cap.end, label),
                        );
                        proof {
                            let names_q = query_capture_names(
                                self.injection_queries@[idx as int].query,
                            );
                            let vn = self.injection_queries@[idx as int].capture_names;
                            assert(vn.deep_view() =~= names_q);
                            assert(vn.deep_view().len() == vn@.len());
                            assert(*entry == self.injection_queries@[idx as int]);
                            assert((cap.index as int) < vn@.len());
                            assert(label == vn@[cap.index as int]);
                            assert(vn.deep_view()[cap.index as int] == vn@[cap.index as int]@);
                            assert(label@ == names_q[cap.index as int]);
                            assert(labels_from(out@, names_q)) by {
                                assert forall|i2: int| 0 <= i2 < out@.len() implies exists|j: int|
                                    0 <= j < names_q.len() && (#[trigger] out@[i2]).label@
                                        == names_q[j] by {
                                    if i2 == out@.len() - 1 {
                                        assert(out@[i2].label@ == names_q[cap.index as int]);
                                    } else {
                                        assert(out@[i2] == prev_out[i2]);
                                        assert(labels_from(prev_out, names_q));
                                    }
                                }
                            }
                        }
                    }
                }
                ci = ci + 1;
            }
            mi = mi + 1;
        }
        out
    }

    /// The last capture of the list whose capture index is `cci`, if any:
    /// the content node of an injection match.
    fn content_capture(caps: &Vec<RawCapture>, cci: usize) -> (r: Option<RawCapture>)
        ensures
            match r {
                Some(c) => c.index == cci && spec_content_capture(capture_views(caps@), cci as int)
                    == Some((c.index as int, c.start as int, c.end as int)) && (exists|k: int|
                    0 <= k < caps@.len() && caps@[k] == c),
                None => spec_content_capture(capture_views(caps@), cci as int) is None,
            },
    {
        let mut r: Option<RawCapture> = None;
        let mut ci: usize = 0;
        proof {
            assert(capture_views(caps@.take(0)) =~= Seq::<(int, int, int)>::empty());
        }
        while ci < caps.len()
            invariant
                ci <= caps@.len(),
                match r {
                    Some(c) => c.index == cci && spec_content_capture(
                        capture_views(caps@.take(ci as int)),
                        cci as int,
                    ) == Some((c.index as int, c.start as int, c.end as int)) && (exists|k: int|
                        0 <= k < caps@.len() && caps@[k] == c),
                    None => spec_content_capture(
                        capture_views(caps@.take(ci as int)),
                        cci as int,
                    ) is None,
                },
            decreases caps@.len() - ci,
        {
            proof {
                assert(capture_views(caps@.take(ci + 1)).drop_last() =~= capture_views(
                    caps@.take(ci as int),
                ));
                assert(capture_views(caps@.take(ci + 1)).last() == (
                    caps@[ci as int].index as int,
                    caps@[ci as int].start as int,
                    caps@[ci as int].end as int,
                ));
            }
            if caps[ci].index == cci {
                r = Some(caps[ci]);
                proof {
                    assert(caps@[ci as int] == caps@.index(ci as int));
                }
            }
            ci = ci + 1;
        }
        proof {
            assert(caps@.take(caps@.len() as int) =~= caps@);
        }
        r
    }

    /// Run the compiled matcher over the byte range and collect label
    /// spans, in match order.  A match that names an injection splices in
    /// the injected region's translated spans and its ordinary captures are
    /// skipped; every other capture contributes its node's byte range and
    /// its capture name, merged by the collector's ordered rule.
    #[verifier::rlimit(50)]
    fn match_styles(&self, start: usize, end: usize) -> (r: Vec<LabelSpan>)
        requires
            self.wf(),
            start <= end,
        ensures
            self.matched_items_ok(start as int, end as int, r@),
    {
        let mut highlights: Vec<LabelSpan> = Vec::new();
        let tree = match &self.tree {
            Some(t) => t,
            None => {
                return highlights;
            },
        };
        let query = match &self.query {
            Some(q) => q,
            None => {
                return highlights;
            },
        };
        let matches = ts::run_query(query, tree, &self.text, start, end);
        let ghost v = match_views(matches@);
        proof {
            assert(v == query_tree_matches(*query, *tree, self.text@, start as int, end as int));
            assert(v.take(0) =~= Seq::<(int, Seq<(int, int, int)>)>::empty());
        }
        let mut mi: usize = 0;
        while mi < matches.len()
            invariant
                self.wf(),
                self.query matches Some(q2) && q2 == *query,
                mi <= matches@.len(),
                v == match_views(matches@),
                self.collected_rel(v.take(mi as int), self.text@, highlights@),
                forall|i: int|
                    0 <= i < matches@.len() ==> (#[trigger] matches@[i]).pattern
                        < query_pattern_offsets(*query).len(),
                forall|i: int, j: int|
                    0 <= i < matches@.len() && 0 <= j < matches@[i].captures@.len() ==> (#[trigger] matches@[i].captures@[j]).index
                        < query_capture_names(*query).len() && matches@[i].captures@[j].start
                        <= matches@[i].captures@[j].end,
            decreases matches@.len() - mi,
        {
            let ghost prefix = highlights@;
            let m = &matches[mi];
            let ghost mv = v[mi as int];
            proof {
                assert(mv == (m.pattern as int, capture_views(m.captures@)));
                assert(v.take(mi + 1).drop_last() =~= v.take(mi as int));
                assert(v.take(mi + 1).last() == mv);
            }
            let settings = &self.settings_by_pattern[m.pattern];
            // the content node: the last capture with the content index
            let mut content: Option<RawCapture> = None;
            match self.injection_content_capture_index {
                Some(cci) => {
                    content = Self::content_capture(&m.captures, cci);
                },
                None => {},
            }
            let lang = resolve_injection_language(settings, &self.language, None);
            proof {
                assert(crate::collect::opt_name_view(None::<&String>) is None);
            }
            match (lang, content) {
                (Some(lname), Some(cap)) => {
                    proof {
                        assert(self.spec_is_injection(mv) == Some((
                            lname@,
                            (cap.index as int, cap.start as int, cap.end as int),
                        )));
                    }
                    let lo2 = crate::text::clip_left(&self.text, cap.start);
                    let hi2 = crate::text::clip_right(&self.text, cap.end);
                    proof {
                        let k = choose|k: int| 0 <= k < m.captures@.len() && m.captures@[k] == cap;
                        assert(cap.start <= cap.end);
                        if cap.end <= self.text@.len() {
                            assert(lo2 <= cap.start && cap.end <= hi2);
                        } else {
                            assert(hi2 == self.text@.len());
                        }
                        assert(lo2 <= hi2);
                    }
                    let spans = self.handle_injection(&lname, lo2, hi2);
                    let mut si: usize = 0;
                    while si < spans.len()
                        invariant
                            si <= spans@.len(),
                            highlights@ == prefix + spans@.take(si as int),
                        decreases spans@.len() - si,
                    {
                        let sp = &spans[si];
                        highlights.push(LabelSpan::new(sp.start, sp.end, sp.label.clone()));
                        proof {
                            assert(highlights@ =~= prefix + spans@.take(si + 1));
                        }
                        si = si + 1;
                    }
                    proof {
                        assert(spans@.take(spans@.len() as int) =~= spans@);
                        assert(highlights@ == prefix + spans@);
                        assert(self.collected_rel(v.take(mi + 1).drop_last(), self.text@, prefix));
                        self.lemma_collected_step_injection(
                            v.take(mi + 1),
                            self.text@,
                            prefix,
                            lname@,
                            (cap.index as int, cap.start as int, cap.end as int),
                            lo2 as int,
                            hi2 as int,
                            spans@,
                            highlights@,
                        );
                    }
                },
                _ => {
                    proof {
                        assert(self.spec_is_injection(mv) is None);
                        assert(capture_views(m.captures@).take(0) =~= Seq::<
                            (int, int, int),
                        >::empty());
                    }
                    let mut ci: usize = 0;
                    while ci < m.captures.len()
                        invariant
                            self.wf(),
                            self.query matches Some(q2) && q2 == *query,
                            ci <= m.captures@.len(),
                            mi < matches@.len(),
                            m == matches@[mi as int],
                            highlights@ == spec_push_captures(
                                prefix,
                                capture_views(m.captures@).take(ci as int),
                                self.capture_names@,
                            ),
                            forall|i: int, j: int|
                                0 <= i < matches@.len() && 0 <= j < matches@[i].captures@.len()
                                    ==> (#[trigger] matches@[i].captures@[j]).index
                                    < query_capture_names(*query).len(),
                        decreases m.captures@.len() - ci,
                    {
                        proof {
                            assert(capture_views(m.captures@).take(ci + 1).drop_last()
                                =~= capture_views(m.captures@).take(ci as int));
                            assert(capture_views(m.captures@).take(ci + 1).last() == (
                                m.captures@[ci as int].index as int,
                                m.captures@[ci as int].start as int,
                                m.captures@[ci as int].end as int,
                            ));
                        }
                        let cap = m.captures[ci];
                        if cap.index < self.capture_names.len() {
                            let label = self.capture_names[cap.index].clone();
                            proof {
                                assert(label == self.capture_names@[cap.index as int]);
                            }
                            merge_push(
                                &mut highlights,
                                LabelSpan::new(cap.start, cap.end, label),
                            );
                        }
                        ci = ci + 1;
                    }
                    proof {
                        assert(capture_views(m.captures@).take(m.captures@.len() as int)
                            =~= capture_views(m.captures@));
                        assert(highlights@ == spec_push_captures(
                            prefix,
                            mv.1,
                            self.capture_names@,
                        ));
                        assert(self.collected_rel(v.take(mi + 1).drop_last(), self.text@, prefix));
                        self.lemma_collected_step_plain(
                            v.take(mi + 1),
                            self.text@,
                            prefix,
                            highlights@,
                        );
                    }
                },
            }
            mi = mi + 1;
        }
        proof {
            assert(v.take(matches@.len() as int) =~= v);
        }
        highlights
    }

    /// The syntax highlight styles for a byte range of the stored text: an
    /// ordered, non-overlapping, style-resolved covering of exactly that
    /// range.  The spans are collected fresh from the current matcher, tree
    /// and text — `matched_items_ok` ties them to the named match list —
    /// then resolved through the label-to-style lookup and normalized; with
    /// no tree, no matcher or no match, the whole range comes back as one
    /// default-styled span.
    pub fn styles(&self, range: &core::ops::Range<usize>, theme: &Theme) -> (r: Vec<StyleSpan>)
        requires
            self.wf(),
            range.start <= range.end,
        ensures
            is_partition(r@, range.start, range.end),
            exists|items: Seq<LabelSpan>|
                #[trigger] self.matched_items_ok(range.start as int, range.end as int, items)
                    && norm_rel(range.start, range.end, spec_styled(items, theme.entries@), r@),
    {
        let items = self.match_styles(range.start, range.end);
        let r = resolve_and_normalize(range.start, range.end, &items, theme);
        proof {
            assert(self.matched_items_ok(range.start as int, range.end as int, items@));
            assert(norm_rel(range.start, range.end, spec_styled(items@, theme.entries@), r@));
        }
        r
    }

    /// Is the stored text empty?
    pub fn is_empty(&self) -> (r: bool)
        ensures
            r == (self.text@.len() == 0),
    {
        self.text.len() == 0
    }

    /// How many times the parser has been invoked.
    pub fn parse_invocations(&self) -> (r: usize)
        ensures
            r == self.parse_count,
    {
        self.parse_count
    }
}

} // verus!
