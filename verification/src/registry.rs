//! The language registry: an immutable lookup from language name to a
//! grammar handle, the three pattern-query sources, and the names of the
//! languages that may be injected into it.
//!
//! The registry is built once at startup and passed by reference into each
//! engine instance; there is no hidden global state.
use vstd::prelude::*;

use tree_sitter::Language;

use crate::strutil::str_eq;

verus! {

/// Everything the engine needs to know about one registered language.
pub struct LanguageConfig {
    /// The language's name, the key it is looked up by.
    pub name: String,
    /// The grammar handle.
    pub grammar: Language,
    /// The injection-rules query source.
    pub injections: String,
    /// The local-variable-rules query source.
    pub locals: String,
    /// The highlight-rules query source.
    pub highlights: String,
    /// The names of the sub-languages that may be injected.
    pub injection_languages: Vec<String>,
}

/// An ordered list of language configurations; the first entry with a
/// matching name wins.
pub struct LanguageRegistry {
    pub configs: Vec<LanguageConfig>,
}

/// The index of the first configuration with the given name, if any.
pub open spec fn spec_find(configs: Seq<LanguageConfig>, name: Seq<char>) -> Option<int>
    decreases configs.len(),
{
    if configs.len() == 0 {
        None
    } else if configs.first().name@ == name {
        Some(0)
    } else {
        match spec_find(configs.drop_first(), name) {
            Some(i) => Some(i + 1),
            None => None,
        }
    }
}

impl LanguageRegistry {
    /// An empty registry.
    pub fn new() -> (r: LanguageRegistry)
        ensures
            r.configs@.len() == 0,
    {
        LanguageRegistry { configs: Vec::new() }
    }

    /// Register one language; earlier registrations of the same name keep
    /// priority.
    pub fn register(&mut self, config: LanguageConfig)
        ensures
            final(self).configs@ == old(self).configs@.push(config),
    {
        self.configs.push(config);
    }

    /// Look a language up by name: the first registration with that name.
    pub fn language(&self, name: &str) -> (r: Option<&LanguageConfig>)
        ensures
            match r {
                Some(c) => {
                    &&& c.name@ == name@
                    &&& spec_find(self.configs@, name@) matches Some(i)
                    &&& spec_find(self.configs@, name@) matches Some(i) ==> *c
                        == self.configs@[i]
                },
                None => spec_find(self.configs@, name@) is None,
            },
    {
        let mut i: usize = 0;
        proof {
            assert(self.configs@.skip(0) =~= self.configs@);
        }
        while i < self.configs.len()
            invariant
                i <= self.configs@.len(),
                spec_find(self.configs@.skip(i as int), name@) matches Some(k) ==> spec_find(
                    self.configs@,
                    name@,
                ) == Some(k + i),
                spec_find(self.configs@.skip(i as int), name@) is None ==> spec_find(
                    self.configs@,
                    name@,
                ) is None,
            decreases self.configs@.len() - i,
        {
            proof {
                assert(self.configs@.skip(i as int).first() == self.configs@[i as int]);
                assert(self.configs@.skip(i as int).drop_first() =~= self.configs@.skip(i + 1));
            }
            if str_eq(self.configs[i].name.as_str(), name) {
                return Some(&self.configs[i]);
            }
            i = i + 1;
        }
        proof {
            assert(self.configs@.skip(self.configs@.len() as int) =~= Seq::<
                LanguageConfig,
            >::empty());
        }
        None
    }
}

} // verus!
