//! The matcher tool's answer for a text: the exact dictionary first, then the rules, and
//! preference paragraphs translated part by part.
use vstd::prelude::*;
use vstd::hash_map::StringHashMap;
use crate::engine::{Translator, has_exact_rule, rule_translation, rules_wf};
use crate::preference::{
    answer, block_text, compose_preference_block, lemma_answer, preference_block_of,
    split_preference_block, translator_ok,
};

verus! {

/// The exact translations read from the dictionary files, by text; a later row for the
/// same text replaces an earlier one.
pub struct SimpleTranslations {
    pub entries: StringHashMap<String>,
}

impl SimpleTranslations {
    /// No translations.
    pub fn new() -> (r: Self)
        ensures
            r.entries@ == Map::<Seq<char>, String>::empty(),
    {
        let r = SimpleTranslations { entries: StringHashMap::new() };
        assert(r.entries@ =~= Map::<Seq<char>, String>::empty());
        r
    }

    /// Records the translation of a text, in place of an earlier one.
    pub fn insert(&mut self, text: String, translation: String)
        ensures
            final(self).entries@ == old(self).entries@.insert(text@, translation),
    {
        self.entries.insert(text, translation);
    }
}

/// The translation of one text: the exact dictionary's, where it has the text; else the
/// rules', where there are rules.
pub fn lookup(simple: &SimpleTranslations, translator: Option<&Translator>, text: &str) -> (r: Option<String>)
    requires
        translator matches Some(t) ==> rules_wf(t.rulesets@),
    ensures
        simple.entries@.contains_key(text@) ==> (r matches Some(x) && x@ == simple.entries@[text@]@),
        !simple.entries@.contains_key(text@) && translator is None ==> r is None,
        !simple.entries@.contains_key(text@) && (translator matches Some(t) && has_exact_rule(
            t.rulesets@,
            "::"@,
            text@,
        )) ==> r is Some,
        !simple.entries@.contains_key(text@) && r is Some ==> (translator matches Some(t)
            && rule_translation(t.rulesets@, text@, r->Some_0@)),
{
    match simple.entries.get(text) {
        Some(t) => Some(t.clone()),
        None => match translator {
            Some(t) => t.translate(text),
            None => None,
        },
    }
}

/// What the matcher answers for a text, given how single texts are translated: a
/// preference paragraph is put together from its translated parts, any other text is
/// translated whole.
pub open spec fn matched<F: Fn(&str) -> Option<String>>(translate: F, input: Seq<char>) -> Option<Seq<char>> {
    match preference_block_of(input) {
        Some(b) => Some(block_text(translate, b, b.len() as int)),
        None => answer(translate, input),
    }
}

/// Answers for `input` as the matcher does.
pub fn match_text<F: Fn(&str) -> Option<String>>(input: &str, translate: F) -> (r: Option<String>)
    requires
        translator_ok(translate),
    ensures
        match matched(translate, input@) {
            Some(t) => r matches Some(x) && x@ == t,
            None => r is None,
        },
{
    match split_preference_block(input) {
        Some(block) => Some(compose_preference_block(&block, translate)),
        None => {
            let r = translate(input);
            proof {
                lemma_answer(translate, input, r);
            }
            r
        },
    }
}

} // verus!
