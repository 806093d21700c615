//! Ruleset translators, by language.
use vstd::prelude::*;
use vstd::pervasive::VecAdditionalExecFns;
use crate::engine::{LoadedFile, Translator, has_complete_match, has_exact_rule, load_outcome, rule_translation, rules_wf};
use crate::replacer::replacer_names;
use crate::ruleset::{RuleSetsView, sets_ref_error};
use crate::ruleset::RuleError;
use crate::strs::str_eq;
use crate::translation::{TextAlignment, TranslationContext, TranslationResponse, context_original};
use crate::translator::simple::{color_prefix, single_color_prefix};

verus! {

/// The ruleset translators by language tag.
#[derive(Debug)]
pub struct RulesetTranslators {
    pub translators: Vec<(String, Translator)>,
}

/// Every translator's rules are well formed.
pub open spec fn translators_wf(t: &RulesetTranslators) -> bool {
    forall|i: int| 0 <= i < t.translators@.len() ==> rules_wf(#[trigger] t.translators@[i].1.rulesets@)
}

/// What the rules of `sets` give for `text`: a translation of the whole text, or of the
/// body behind a single leading color tag, with the tag put back in front.
pub open spec fn ruleset_answer(sets: RuleSetsView, text: Seq<char>, t: Seq<char>) -> bool {
    rule_translation(sets, text, t) || match color_prefix(text) {
        Some((p, body)) => exists|u: Seq<char>| #[trigger] rule_translation(sets, body, u) && t == p + u,
        None => false,
    }
}

/// What a translator with the rules `sets` and the replacers `reps` answers for `text`:
/// a translation of the whole text where the whole text has a match; else, behind a
/// single leading color tag, the tag followed by a translation of the body where the
/// body has a match; else nothing.
pub open spec fn ordered_answer(
    sets: RuleSetsView,
    reps: Seq<(Seq<char>, crate::replacer::ReplacerKind)>,
    text: Seq<char>,
    r: Option<Seq<char>>,
) -> bool {
    if has_complete_match(sets, reps, text) {
        r matches Some(t) && rule_translation(sets, text, t)
    } else {
        match color_prefix(text) {
            Some((p, body)) => if has_complete_match(sets, reps, body) {
                r matches Some(t) && exists|u: Seq<char>| #[trigger] rule_translation(sets, body, u) && t == p + u
            } else {
                r is None
            },
            None => r is None,
        }
    }
}

/// The translated text of a response, if any.
pub open spec fn answer_text(r: Option<TranslationResponse>) -> Option<Seq<char>> {
    match r {
        Some(x) => Some(x.translated@),
        None => None,
    }
}

/// The language tags, in order.
pub open spec fn langs(t: &RulesetTranslators) -> Seq<Seq<char>> {
    t.translators@.map_values(|e: (String, Translator)| e.0@)
}

impl RulesetTranslators {
    /// No translators.
    pub fn new() -> (r: Self)
        ensures
            translators_wf(&r),
            langs(&r).len() == 0,
    {
        RulesetTranslators { translators: Vec::new() }
    }

    /// Forgets every translator.
    pub fn reset(&mut self)
        ensures
            translators_wf(final(self)),
            langs(final(self)).len() == 0,
    {
        self.translators.clear();
    }

    fn find(&self, lang: &str) -> (r: Option<usize>)
        ensures
            r matches Some(i) ==> i < self.translators@.len() && langs(self)[i as int] == lang@ && forall|j: int|
                0 <= j < i ==> langs(self)[j] != lang@,
            r is None ==> !langs(self).contains(lang@),
    {
        let mut i: usize = 0;
        while i < self.translators.len()
            invariant
                i <= self.translators.len(),
                forall|j: int| 0 <= j < i ==> langs(self)[j] != lang@,
            decreases self.translators.len() - i,
        {
            if str_eq(self.translators[i].0.as_str(), lang) {
                return Some(i);
            }
            i += 1;
        }
        None
    }

    /// Translates a request's text with the translator of `lang`: the exact text
    /// first, then the body behind a single leading color tag, with the tag put back.
    pub fn translate(&self, lang_tag: &str, context: &TranslationContext) -> (r: Option<
        TranslationResponse,
    >)
        requires
            translators_wf(self),
        ensures
            !langs(self).contains(lang_tag@) ==> r is None,
            r matches Some(x) ==> x.alignment == TextAlignment::Left,
            r is Some && color_prefix(context_original(context)) is None ==> langs(self).contains(lang_tag@),
            forall|i: int|
                0 <= i < self.translators@.len() && langs(self)[i] == lang_tag@ && (forall|j: int|
                    0 <= j < i ==> langs(self)[j] != lang_tag@) && has_exact_rule(
                    self.translators@[i].1.rulesets@,
                    "::"@,
                    context_original(context),
                ) ==> r is Some,
            forall|i: int|
                0 <= i < self.translators@.len() && langs(self)[i] == lang_tag@ && (forall|j: int|
                    0 <= j < i ==> langs(self)[j] != lang_tag@) ==> #[trigger] ordered_answer(
                    self.translators@[i].1.rulesets@,
                    self.translators@[i].1.replacers@,
                    context_original(context),
                    answer_text(r),
                ),
            r is Some ==> exists|i: int|
                0 <= i < self.translators@.len() && langs(self)[i] == lang_tag@ && (forall|j: int|
                    0 <= j < i ==> langs(self)[j] != lang_tag@) && #[trigger] ruleset_answer(
                    self.translators@[i].1.rulesets@,
                    context_original(context),
                    r->Some_0.translated@,
                ),
    {
        let i = match self.find(lang_tag) {
            Some(i) => i,
            None => return None,
        };
        let translator = &self.translators[i].1;
        assert(rules_wf(self.translators@[i as int].1.rulesets@));
        let text = context.original();
        match translator.translate(text) {
            Some(translated) => {
                let out = Some(TranslationResponse { translated, alignment: TextAlignment::Left });
                assert(ruleset_answer(self.translators@[i as int].1.rulesets@, context_original(context), out->Some_0.translated@));
                assert(exists|k: int|
                0 <= k < self.translators@.len() && langs(self)[k] == lang_tag@ && (forall|j: int|
                    0 <= j < k ==> langs(self)[j] != lang_tag@) && #[trigger] ruleset_answer(
                    self.translators@[k].1.rulesets@,
                    context_original(context),
                    out->Some_0.translated@,
                ));
                return out;
            },
            None => {},
        }
        match single_color_prefix(text) {
            Some((prefix, body)) => match translator.translate(body.as_str()) {
                Some(translated) => {
                    let mut restored = prefix;
                    crate::strs::push_str(&mut restored, translated.as_str());
                    assert(rule_translation(self.translators@[i as int].1.rulesets@, body@, translated@));
                    let out = Some(TranslationResponse { translated: restored, alignment: TextAlignment::Left });
                    assert(ruleset_answer(self.translators@[i as int].1.rulesets@, context_original(context), out->Some_0.translated@));
                    assert(exists|k: int|
                        0 <= k < self.translators@.len() && langs(self)[k] == lang_tag@ && (forall|j: int|
                            0 <= j < k ==> langs(self)[j] != lang_tag@) && #[trigger] ruleset_answer(
                            self.translators@[k].1.rulesets@,
                            context_original(context),
                            out->Some_0.translated@,
                        ));
                    out
                },
                None => None,
            },
            None => None,
        }
    }

    /// Loads ruleset files into the translator of `lang`, created with the default
    /// replacers where missing; the other translators stay as they were.
    pub fn load(&mut self, lang_tag: &str, files: &Vec<LoadedFile>, separator: char) -> (r: Result<
        (),
        RuleError,
    >)
        requires
            translators_wf(old(self)),
        ensures
            translators_wf(final(self)),
            langs(final(self)) == if langs(old(self)).contains(lang_tag@) {
                langs(old(self))
            } else {
                langs(old(self)).push(lang_tag@)
            },
            lang_pos(langs(final(self)), lang_tag@) is Some,
            forall|j: int|
                0 <= j < old(self).translators@.len() && langs(old(self))[j] != lang_tag@
                    ==> final(self).translators@[j] == old(self).translators@[j],
            ({
                let k = lang_pos(langs(final(self)), lang_tag@)->Some_0;
                let existed = langs(old(self)).contains(lang_tag@);
                let start = if existed {
                    old(self).translators@[k].1.rulesets@
                } else {
                    RuleSetsView::empty()
                };
                let names = if existed {
                    replacer_names(old(self).translators@[k].1.replacers@)
                } else {
                    replacer_names(default_registry())
                };
                match load_outcome(start, files@, separator, files@.len() as int) {
                    Err(e) => r matches Err(x) && x@ == e,
                    Ok((m, _)) => final(self).translators@[k].1.rulesets@ == m && match sets_ref_error(
                        m,
                        names,
                        m.len() as int,
                    ) {
                        Some(e) => r matches Err(x) && x@ == e,
                        None => r is Ok,
                    },
                }
            }),
    {
        let ghost before = langs(self);
        let i = match self.find(lang_tag) {
            Some(i) => {
                proof {
                    lemma_lang_pos(langs(self), lang_tag@, i as int);
                }
                i
            },
            None => {
                let mut t = Translator::new();
                assert(t.rulesets@ =~= RuleSetsView::empty());
                assert(t.replacers@ =~= Seq::<(Seq<char>, crate::replacer::ReplacerKind)>::empty());
                crate::replacer::register_default_replacers(&mut t.replacers);
                assert(t.replacers@ == default_registry());
                let n = self.translators.len();
                self.translators.push((lang_tag.to_owned(), t));
                proof {
                    assert(langs(self) =~= before.push(lang_tag@));
                    assert(langs(self)[n as int] == lang_tag@);
                    assert forall|j: int| 0 <= j < n implies langs(self)[j] != lang_tag@ by {
                        assert(langs(self)[j] == before[j]);
                    }
                    lemma_lang_pos(langs(self), lang_tag@, n as int);
                }
                n
            },
        };
        let ghost mid = self.translators@;
        let ghost mid_langs = langs(self);
        let mut slot = (String::new(), Translator::new());
        self.translators.set_and_swap(i, &mut slot);
        assert(slot.1 == mid[i as int].1);
        assert(rules_wf(slot.1.rulesets@));
        let mut translator = slot.1;
        let r = translator.load_files(files, separator);
        self.translators.set(i, (slot.0, translator));
        proof {
            assert(langs(self) =~= mid_langs);
            assert(langs(self)[i as int] == lang_tag@);
            assert(self.translators@[i as int].1.rulesets@ == translator.rulesets@);
            if langs(old(self)).contains(lang_tag@) {
                assert(mid == old(self).translators@);
            } else {
                assert(mid[i as int].1.rulesets@ == RuleSetsView::empty());
                assert(mid[i as int].1.replacers@ == default_registry());
            }
        }
        r
    }
}

/// The position of the first translator of `lang`.
pub open spec fn lang_pos(ls: Seq<Seq<char>>, lang: Seq<char>) -> Option<int>
    decreases ls.len(),
{
    if ls.len() == 0 {
        None
    } else {
        match lang_pos(ls.drop_last(), lang) {
            Some(i) => Some(i),
            None => if ls.last() == lang {
                Some(ls.len() - 1)
            } else {
                None
            },
        }
    }
}

/// The first position holding `lang` is what `lang_pos` finds.
pub proof fn lemma_lang_pos(ls: Seq<Seq<char>>, lang: Seq<char>, i: int)
    requires
        0 <= i < ls.len(),
        ls[i] == lang,
        forall|j: int| 0 <= j < i ==> ls[j] != lang,
    ensures
        lang_pos(ls, lang) == Some(i),
    decreases ls.len(),
{
    if i < ls.len() - 1 {
        assert(ls.drop_last()[i] == lang);
        assert forall|j: int| 0 <= j < i implies ls.drop_last()[j] != lang by {
            assert(ls.drop_last()[j] == ls[j]);
        }
        lemma_lang_pos(ls.drop_last(), lang, i);
    } else {
        lemma_lang_pos_none(ls.drop_last(), lang);
    }
}

/// Without `lang`, `lang_pos` finds nothing.
pub proof fn lemma_lang_pos_none(ls: Seq<Seq<char>>, lang: Seq<char>)
    requires
        forall|j: int| 0 <= j < ls.len() ==> ls[j] != lang,
    ensures
        lang_pos(ls, lang) is None,
    decreases ls.len(),
{
    if ls.len() > 0 {
        assert forall|j: int| 0 <= j < ls.len() - 1 implies ls.drop_last()[j] != lang by {
            assert(ls.drop_last()[j] == ls[j]);
        }
        lemma_lang_pos_none(ls.drop_last(), lang);
    }
}

/// The replacers a new translator is given.
pub open spec fn default_registry() -> Seq<(Seq<char>, crate::replacer::ReplacerKind)> {
    crate::replacer::register(
        crate::replacer::register(
            crate::replacer::register(
                crate::replacer::register(
                    Seq::<(Seq<char>, crate::replacer::ReplacerKind)>::empty(),
                    "item_designation"@,
                    crate::replacer::ReplacerKind::ItemDesignation,
                ),
                "number"@,
                crate::replacer::ReplacerKind::Number,
            ),
            "word"@,
            crate::replacer::ReplacerKind::Word,
        ),
        "any"@,
        crate::replacer::ReplacerKind::Any,
    )
}


/// The translated text of a status, where it is translated.
pub open spec fn status_text(r: crate::hooks::TranslationStatus) -> Option<Seq<char>> {
    match r {
        crate::hooks::TranslationStatus::Translated(x) => Some(x.translated@),
        _ => None,
    }
}

/// What the local data says of a text: the dictionary of `lang_tag` first, then its
/// rules; missing where neither translates it.
pub fn local_status(
    dicts: &crate::translator::simple::SimpleDictionaries,
    rulesets: &RulesetTranslators,
    lang_tag: &str,
    context: &TranslationContext,
) -> (r: crate::hooks::TranslationStatus)
    requires
        translators_wf(rulesets),
    ensures
        !(r is Pending),
        match crate::translator::simple::simple_answer(
            crate::translator::simple::dicts_view(dicts),
            lang_tag@,
            context_original(context),
        ) {
            Some((t, a)) => r matches crate::hooks::TranslationStatus::Translated(x) && x.translated@ == t
                && x.alignment == a,
            None => {
                &&& (r matches crate::hooks::TranslationStatus::Translated(x) ==> x.alignment == TextAlignment::Left)
                &&& (!langs(rulesets).contains(lang_tag@) ==> r is Missing)
                &&& forall|i: int|
                    0 <= i < rulesets.translators@.len() && langs(rulesets)[i] == lang_tag@ && (forall|j: int|
                        0 <= j < i ==> langs(rulesets)[j] != lang_tag@) ==> #[trigger] ordered_answer(
                        rulesets.translators@[i].1.rulesets@,
                        rulesets.translators@[i].1.replacers@,
                        context_original(context),
                        status_text(r),
                    )
            },
        },
{
    if let Some(response) = dicts.translate(lang_tag, context) {
        return crate::hooks::TranslationStatus::Translated(response);
    }
    match rulesets.translate(lang_tag, context) {
        Some(response) => crate::hooks::TranslationStatus::Translated(response),
        None => crate::hooks::TranslationStatus::Missing,
    }
}

} // verus!
