//! Rulesets in the order they were loaded, and the loading of ruleset files.
use vstd::prelude::*;
use crate::rules::{
    IdentifierError, IdentifierErrorView, LayoutError, LayoutErrorView, Token, TokenError,
    TokenErrorView, TokenView, copy_tokens, identifier_error, layout_error, parse_tokens,
    parsed_tokens, tokens_eq, tokens_view, validate_identifier_format, validate_wildcard_layout,
};
use crate::strs::{chars_eq, push_str, slice_chars, str_eq, string_from_chars, to_chars};
use vstd::pervasive::VecAdditionalExecFns;

verus! {

/// A rule: the tokens it matches and the tokens of its translation.
pub type RuleView = (Seq<TokenView>, Seq<TokenView>);

/// The position of the rule whose original tokens are `k`, if there is one.
pub open spec fn rule_index(rules: Seq<RuleView>, k: Seq<TokenView>) -> Option<int>
    decreases rules.len(),
{
    if rules.len() == 0 {
        None
    } else {
        match rule_index(rules.drop_last(), k) {
            Some(i) => Some(i),
            None => if rules.last().0 == k {
                Some(rules.len() - 1)
            } else {
                None
            },
        }
    }
}

/// `IndexMap::insert`: a rule whose original tokens are already there replaces the
/// translation in place; a new one goes last.
pub open spec fn insert_rule(rules: Seq<RuleView>, k: Seq<TokenView>, v: Seq<TokenView>) -> Seq<
    RuleView,
> {
    match rule_index(rules, k) {
        Some(i) => rules.update(i, (k, v)),
        None => rules.push((k, v)),
    }
}

/// The rules of one ruleset, in the order they were first added.
#[derive(Debug)]
pub struct RuleSet {
    pub rules: Vec<(Vec<Token>, Vec<Token>)>,
}

impl View for RuleSet {
    type V = Seq<RuleView>;

    open spec fn view(&self) -> Seq<RuleView> {
        self.rules@.map_values(|r: (Vec<Token>, Vec<Token>)| (tokens_view(r.0@), tokens_view(r.1@)))
    }
}

impl RuleSet {
    /// An empty ruleset.
    pub fn new() -> (r: Self)
        ensures
            r@ == Seq::<RuleView>::empty(),
    {
        RuleSet { rules: Vec::new() }
    }

    /// Adds a rule, or replaces the translation of the rule with the same original tokens.
    pub fn insert(&mut self, original: Vec<Token>, translated: Vec<Token>)
        ensures
            final(self)@ == insert_rule(old(self)@, tokens_view(original@), tokens_view(
                translated@,
            )),
    {
        let ghost k = tokens_view(original@);
        let ghost v = tokens_view(translated@);
        let mut i: usize = 0;
        while i < self.rules.len()
            invariant
                i <= self.rules.len(),
                self@ == old(self)@,
                k == tokens_view(original@),
                v == tokens_view(translated@),
                rule_index(self@.take(i as int), k) is None,
            decreases self.rules.len() - i,
        {
            assert(self@.take(i + 1).drop_last() =~= self@.take(i as int));
            if tokens_eq(&self.rules[i].0, &original) {
                assert(rule_index(self@.take(i + 1), k) == Some(i as int));
                assert(rule_index(self@, k) == Some(i as int)) by {
                    lemma_rule_index_prefix(self@, k, i + 1);
                }
                self.rules.set(i, (original, translated));
                assert(self@ =~= old(self)@.update(i as int, (k, v)));
                return;
            }
            i += 1;
        }
        assert(self@.take(self.rules.len() as int) =~= self@);
        self.rules.push((original, translated));
        assert(self@ =~= old(self)@.push((k, v)));
    }
}

/// `rule_index` finds a rule whose original is the given tokens.
pub proof fn lemma_rule_index(rules: Seq<RuleView>, k: Seq<TokenView>)
    ensures
        rule_index(rules, k) matches Some(i) ==> 0 <= i < rules.len() && rules[i].0 == k,
    decreases rules.len(),
{
    if rules.len() > 0 {
        lemma_rule_index(rules.drop_last(), k);
    }
}

/// A key found in a prefix is found at the same place in the whole.
pub proof fn lemma_rule_index_prefix(rules: Seq<RuleView>, k: Seq<TokenView>, n: int)
    requires
        0 <= n <= rules.len(),
        rule_index(rules.take(n), k) is Some,
    ensures
        rule_index(rules, k) == rule_index(rules.take(n), k),
    decreases rules.len() - n,
{
    if n < rules.len() {
        assert(rules.take(n + 1).drop_last() =~= rules.take(n));
        lemma_rule_index_prefix(rules, k, n + 1);
    } else {
        assert(rules.take(n) =~= rules);
    }
}

/// Rulesets by identifier, in the order they were first created.
pub type RuleSetsView = Seq<(Seq<char>, Seq<RuleView>)>;

/// The position of the ruleset named `id`, if there is one.
pub open spec fn set_index(sets: RuleSetsView, id: Seq<char>) -> Option<int>
    decreases sets.len(),
{
    if sets.len() == 0 {
        None
    } else {
        match set_index(sets.drop_last(), id) {
            Some(i) => Some(i),
            None => if sets.last().0 == id {
                Some(sets.len() - 1)
            } else {
                None
            },
        }
    }
}

/// `set_index` finds a ruleset of the given name, or none exists.
pub proof fn lemma_set_index(sets: RuleSetsView, id: Seq<char>)
    ensures
        set_index(sets, id) matches Some(i) ==> 0 <= i < sets.len() && sets[i].0 == id,
        set_index(sets, id) is None ==> forall|j: int| 0 <= j < sets.len() ==> sets[j].0 != id,
    decreases sets.len(),
{
    if sets.len() > 0 {
        lemma_set_index(sets.drop_last(), id);
        if set_index(sets, id) is None {
            assert forall|j: int| 0 <= j < sets.len() implies sets[j].0 != id by {
                if j < sets.len() - 1 {
                    assert(sets.drop_last()[j] == sets[j]);
                }
            }
        }
    }
}

/// A ruleset found in a prefix of the rulesets is found at the same position in all of them.
pub proof fn lemma_set_index_prefix(sets: RuleSetsView, id: Seq<char>, n: int)
    requires
        0 <= n <= sets.len(),
        set_index(sets.take(n), id) is Some,
    ensures
        set_index(sets, id) == set_index(sets.take(n), id),
    decreases sets.len() - n,
{
    if n < sets.len() {
        assert(sets.take(n + 1).drop_last() =~= sets.take(n));
        lemma_set_index_prefix(sets, id, n + 1);
    } else {
        assert(sets.take(n) =~= sets);
    }
}

/// The rulesets with an empty one named `id` added last, where there is none yet.
pub open spec fn ensure_set(sets: RuleSetsView, id: Seq<char>) -> RuleSetsView {
    match set_index(sets, id) {
        Some(_) => sets,
        None => sets.push((id, Seq::<RuleView>::empty())),
    }
}

/// All rulesets, by identifier.
#[derive(Debug)]
pub struct RuleSets {
    pub sets: Vec<(String, RuleSet)>,
}

impl View for RuleSets {
    type V = RuleSetsView;

    open spec fn view(&self) -> RuleSetsView {
        self.sets@.map_values(|e: (String, RuleSet)| (e.0@, e.1@))
    }
}

impl RuleSets {
    /// No rulesets.
    pub fn new() -> (r: Self)
        ensures
            r@ == RuleSetsView::empty(),
    {
        RuleSets { sets: Vec::new() }
    }

    /// The position of the ruleset named `id`.
    pub fn find(&self, id: &str) -> (r: Option<usize>)
        ensures
            r matches Some(k) ==> set_index(self@, id@) == Some(k as int) && k < self@.len(),
            r is None ==> set_index(self@, id@) is None,
    {
        let mut i: usize = 0;
        while i < self.sets.len()
            invariant
                i <= self.sets.len(),
                set_index(self@.take(i as int), id@) is None,
            decreases self.sets.len() - i,
        {
            assert(self@.take(i + 1).drop_last() =~= self@.take(i as int));
            if str_eq(self.sets[i].0.as_str(), id) {
                assert(set_index(self@.take(i + 1), id@) == Some(i as int));
                proof {
                    lemma_set_index_prefix(self@, id@, i + 1);
                }
                return Some(i);
            }
            i += 1;
        }
        assert(self@.take(self.sets.len() as int) =~= self@);
        None
    }

    /// Whether a ruleset is named `id`.
    pub fn contains_key(&self, id: &str) -> (r: bool)
        ensures
            r == set_index(self@, id@) is Some,
    {
        self.find(id).is_some()
    }

    /// The ruleset named `id`, if there is one.
    pub fn get(&self, id: &str) -> (r: Option<&RuleSet>)
        ensures
            match set_index(self@, id@) {
                Some(i) => r matches Some(x) && x@ == self@[i].1,
                None => r is None,
            },
    {
        proof {
            lemma_set_index(self@, id@);
        }
        match self.find(id) {
            Some(i) => {
                assert(self@[i as int] == (self.sets@[i as int].0@, self.sets@[i as int].1@));
                Some(&self.sets[i].1)
            },
            None => None,
        }
    }

    /// The position of the ruleset named `id`, created empty where it is missing.
    pub fn entry(&mut self, id: &String) -> (r: usize)
        ensures
            final(self)@ == ensure_set(old(self)@, id@),
            set_index(final(self)@, id@) == Some(r as int),
            r < final(self)@.len(),
    {
        match self.find(id.as_str()) {
            Some(i) => {
                proof {
                    lemma_set_index(self@, id@);
                }
                i
            },
            None => {
                let n = self.sets.len();
                self.sets.push((id.clone(), RuleSet::new()));
                proof {
                    assert(self@ =~= old(self)@.push((id@, Seq::<RuleView>::empty())));
                    assert(self@.drop_last() =~= old(self)@);
                    assert(set_index(self@, id@) == Some(n as int));
                }
                n
            },
        }
    }

    /// Adds a rule to the ruleset at position `index`.
    pub fn insert_at(&mut self, index: usize, original: Vec<Token>, translated: Vec<Token>)
        requires
            index < old(self)@.len(),
        ensures
            final(self)@ == old(self)@.update(
                index as int,
                (
                    old(self)@[index as int].0,
                    insert_rule(
                        old(self)@[index as int].1,
                        tokens_view(original@),
                        tokens_view(translated@),
                    ),
                ),
            ),
    {
        let mut slot = (String::new(), RuleSet::new());
        self.sets.set_and_swap(index, &mut slot);
        slot.1.insert(original, translated);
        self.sets.set(index, slot);
        assert(self@ =~= old(self)@.update(
            index as int,
            (
                old(self)@[index as int].0,
                insert_rule(
                    old(self)@[index as int].1,
                    tokens_view(original@),
                    tokens_view(translated@),
                ),
            ),
        ));
    }
}

/// One ruleset of a file: its name under the file's base, whether it also matches
/// the empty text, and its rules as written.
#[derive(Debug)]
pub struct RuleSetEntry {
    pub name: Option<String>,
    pub optional: bool,
    pub rules: Vec<(String, String)>,
}

/// A ruleset file: its base namespace (none for the root file) and its rulesets.
#[derive(Debug)]
pub struct RuleSetFile {
    pub base: Option<String>,
    pub rulesets: Vec<RuleSetEntry>,
}

/// A ruleset entry as text.
pub struct EntryView {
    pub name: Option<Seq<char>>,
    pub optional: bool,
    pub rules: Seq<(Seq<char>, Seq<char>)>,
}

/// The text of an optional string.
pub open spec fn opt_chars(o: Option<String>) -> Option<Seq<char>> {
    match o {
        Some(s) => Some(s@),
        None => None,
    }
}

impl View for RuleSetEntry {
    type V = EntryView;

    open spec fn view(&self) -> EntryView {
        EntryView {
            name: opt_chars(self.name),
            optional: self.optional,
            rules: self.rules@.map_values(|r: (String, String)| (r.0@, r.1@)),
        }
    }
}

/// Why loading a ruleset file failed.
#[derive(Debug)]
pub enum RuleError {
    /// Two files without a base namespace: the first one seen, and this one.
    MultipleRootBases { first: String, second: String },
    /// A file whose base namespace does not follow from its path.
    BaseNamespaceMismatch { file: String, expected: String, found: String },
    /// A ruleset whose identifier is malformed.
    InvalidRuleset { identifier: String, error: IdentifierError },
    /// The original text of a rule does not parse.
    InvalidOriginal { ruleset: String, entry: String, error: TokenError },
    /// The translated text of a rule does not parse.
    InvalidTranslated { ruleset: String, entry: String, error: TokenError },
    /// The original text of a rule places its wildcards unsafely.
    UnsafeWildcardLayout { ruleset: String, entry: String, error: LayoutError },
    /// The original text of a rule references the same thing twice.
    DuplicateReferences { ruleset: String, entry: String },
    /// The translated text references what the original does not.
    UnknownTranslatedReference { ruleset: String, reference: String, entry: String },
    /// A rule calls a replacer that is not registered.
    UnregisteredReplacer { ruleset: String, name: String, reference: String },
    /// A rule references a ruleset that does not exist.
    UnknownReference { ruleset: String, reference: String },
}

/// A loading error, as text.
pub enum RuleErrorView {
    MultipleRootBases { first: Seq<char>, second: Seq<char> },
    BaseNamespaceMismatch { file: Seq<char>, expected: Seq<char>, found: Seq<char> },
    InvalidRuleset { identifier: Seq<char>, error: IdentifierErrorView },
    InvalidOriginal { ruleset: Seq<char>, entry: Seq<char>, error: TokenErrorView },
    InvalidTranslated { ruleset: Seq<char>, entry: Seq<char>, error: TokenErrorView },
    UnsafeWildcardLayout { ruleset: Seq<char>, entry: Seq<char>, error: LayoutErrorView },
    DuplicateReferences { ruleset: Seq<char>, entry: Seq<char> },
    UnknownTranslatedReference { ruleset: Seq<char>, reference: Seq<char>, entry: Seq<char> },
    UnregisteredReplacer { ruleset: Seq<char>, name: Seq<char>, reference: Seq<char> },
    UnknownReference { ruleset: Seq<char>, reference: Seq<char> },
}

/// The message of a loading error, as the loader words it: the names and texts it
/// quotes stand in their `{:?}` form.
pub open spec fn rule_error_message(e: RuleErrorView) -> Seq<char> {
    let q = |x: Seq<char>| crate::translation::debug_text(x);
    match e {
        RuleErrorView::MultipleRootBases { first, second } => "Multiple root bases found: "@ + q(first)
            + " and "@ + q(second),
        RuleErrorView::BaseNamespaceMismatch { file, expected, found } => "Base namespace mismatch in file "@
            + q(file) + ": expected "@ + q(expected) + ", found "@ + q(found),
        RuleErrorView::InvalidRuleset { identifier, .. } => "failed to parse ruleset "@ + q(identifier),
        RuleErrorView::InvalidOriginal { ruleset, entry, .. } => "failed to parse the original entry "@ + q(
            entry,
        ) + " in ruleset "@ + q(ruleset),
        RuleErrorView::InvalidTranslated { ruleset, entry, .. } => "failed to parse the translated entry "@
            + q(entry) + " in ruleset "@ + q(ruleset),
        RuleErrorView::UnsafeWildcardLayout { ruleset, entry, .. } => "unsafe wildcard layout in original entry "@
            + q(entry) + " in ruleset "@ + q(ruleset),
        RuleErrorView::DuplicateReferences { ruleset, entry } => "Original entry "@ + q(entry)
            + " has duplicate references in ruleset "@ + q(ruleset),
        RuleErrorView::UnknownTranslatedReference { ruleset, reference, entry } => "Translated reference "@ + q(
            reference,
        ) + " in translated entry "@ + q(entry) + " not found in the original entry in ruleset "@ + q(ruleset),
        RuleErrorView::UnregisteredReplacer { ruleset, name, reference } => "In ruleset "@ + q(ruleset)
            + ", replacer "@ + q(name) + " is not registered for reference "@ + q(reference),
        RuleErrorView::UnknownReference { ruleset, reference } => "In ruleset "@ + q(ruleset) + ", reference "@
            + q(reference) + " not found"@,
    }
}

impl RuleError {
    /// The message of the error (see `rule_error_message`).
    pub fn message(&self) -> (r: String)
        ensures
            r@ == rule_error_message(self@),
    {
        let mut m = String::new();
        match self {
            RuleError::MultipleRootBases { first, second } => {
                push_str(&mut m, "Multiple root bases found: ");
                push_str(&mut m, crate::translation::format_debug(first.as_str()).as_str());
                push_str(&mut m, " and ");
                push_str(&mut m, crate::translation::format_debug(second.as_str()).as_str());
            },
            RuleError::BaseNamespaceMismatch { file, expected, found } => {
                push_str(&mut m, "Base namespace mismatch in file ");
                push_str(&mut m, crate::translation::format_debug(file.as_str()).as_str());
                push_str(&mut m, ": expected ");
                push_str(&mut m, crate::translation::format_debug(expected.as_str()).as_str());
                push_str(&mut m, ", found ");
                push_str(&mut m, crate::translation::format_debug(found.as_str()).as_str());
            },
            RuleError::InvalidRuleset { identifier, .. } => {
                push_str(&mut m, "failed to parse ruleset ");
                push_str(&mut m, crate::translation::format_debug(identifier.as_str()).as_str());
            },
            RuleError::InvalidOriginal { ruleset, entry, .. } => {
                push_str(&mut m, "failed to parse the original entry ");
                push_str(&mut m, crate::translation::format_debug(entry.as_str()).as_str());
                push_str(&mut m, " in ruleset ");
                push_str(&mut m, crate::translation::format_debug(ruleset.as_str()).as_str());
            },
            RuleError::InvalidTranslated { ruleset, entry, .. } => {
                push_str(&mut m, "failed to parse the translated entry ");
                push_str(&mut m, crate::translation::format_debug(entry.as_str()).as_str());
                push_str(&mut m, " in ruleset ");
                push_str(&mut m, crate::translation::format_debug(ruleset.as_str()).as_str());
            },
            RuleError::UnsafeWildcardLayout { ruleset, entry, .. } => {
                push_str(&mut m, "unsafe wildcard layout in original entry ");
                push_str(&mut m, crate::translation::format_debug(entry.as_str()).as_str());
                push_str(&mut m, " in ruleset ");
                push_str(&mut m, crate::translation::format_debug(ruleset.as_str()).as_str());
            },
            RuleError::DuplicateReferences { ruleset, entry } => {
                push_str(&mut m, "Original entry ");
                push_str(&mut m, crate::translation::format_debug(entry.as_str()).as_str());
                push_str(&mut m, " has duplicate references in ruleset ");
                push_str(&mut m, crate::translation::format_debug(ruleset.as_str()).as_str());
            },
            RuleError::UnknownTranslatedReference { ruleset, reference, entry } => {
                push_str(&mut m, "Translated reference ");
                push_str(&mut m, crate::translation::format_debug(reference.as_str()).as_str());
                push_str(&mut m, " in translated entry ");
                push_str(&mut m, crate::translation::format_debug(entry.as_str()).as_str());
                push_str(&mut m, " not found in the original entry in ruleset ");
                push_str(&mut m, crate::translation::format_debug(ruleset.as_str()).as_str());
            },
            RuleError::UnregisteredReplacer { ruleset, name, reference } => {
                push_str(&mut m, "In ruleset ");
                push_str(&mut m, crate::translation::format_debug(ruleset.as_str()).as_str());
                push_str(&mut m, ", replacer ");
                push_str(&mut m, crate::translation::format_debug(name.as_str()).as_str());
                push_str(&mut m, " is not registered for reference ");
                push_str(&mut m, crate::translation::format_debug(reference.as_str()).as_str());
            },
            RuleError::UnknownReference { ruleset, reference } => {
                push_str(&mut m, "In ruleset ");
                push_str(&mut m, crate::translation::format_debug(ruleset.as_str()).as_str());
                push_str(&mut m, ", reference ");
                push_str(&mut m, crate::translation::format_debug(reference.as_str()).as_str());
                push_str(&mut m, " not found");
            },
        }
        proof {
            assert(m@ =~= rule_error_message(self@));
        }
        m
    }
}

impl View for RuleError {
    type V = RuleErrorView;

    open spec fn view(&self) -> RuleErrorView {
        match self {
            RuleError::MultipleRootBases { first, second } => RuleErrorView::MultipleRootBases {
                first: first@,
                second: second@,
            },
            RuleError::BaseNamespaceMismatch { file, expected, found } =>
                RuleErrorView::BaseNamespaceMismatch {
                file: file@,
                expected: expected@,
                found: found@,
            },
            RuleError::InvalidRuleset { identifier, error } => RuleErrorView::InvalidRuleset {
                identifier: identifier@,
                error: error@,
            },
            RuleError::InvalidOriginal { ruleset, entry, error } => RuleErrorView::InvalidOriginal {
                ruleset: ruleset@,
                entry: entry@,
                error: error@,
            },
            RuleError::InvalidTranslated { ruleset, entry, error } =>
                RuleErrorView::InvalidTranslated {
                ruleset: ruleset@,
                entry: entry@,
                error: error@,
            },
            RuleError::UnsafeWildcardLayout { ruleset, entry, error } =>
                RuleErrorView::UnsafeWildcardLayout {
                ruleset: ruleset@,
                entry: entry@,
                error: error@,
            },
            RuleError::DuplicateReferences { ruleset, entry } => RuleErrorView::DuplicateReferences {
                ruleset: ruleset@,
                entry: entry@,
            },
            RuleError::UnknownTranslatedReference { ruleset, reference, entry } =>
                RuleErrorView::UnknownTranslatedReference {
                ruleset: ruleset@,
                reference: reference@,
                entry: entry@,
            },
            RuleError::UnregisteredReplacer { ruleset, name, reference } =>
                RuleErrorView::UnregisteredReplacer {
                ruleset: ruleset@,
                name: name@,
                reference: reference@,
            },
            RuleError::UnknownReference { ruleset, reference } => RuleErrorView::UnknownReference {
                ruleset: ruleset@,
                reference: reference@,
            },
        }
    }
}

/// The references among the tokens, in order.
pub open spec fn references(ts: Seq<TokenView>) -> Seq<Seq<char>>
    decreases ts.len(),
{
    if ts.len() == 0 {
        seq![]
    } else {
        references(ts.drop_last()) + match ts.last() {
            TokenView::Reference(r) => seq![r],
            TokenView::Literal(_) => seq![],
        }
    }
}

/// Whether some text occurs twice.
pub open spec fn has_duplicate(s: Seq<Seq<char>>) -> bool {
    exists|i: int, j: int| 0 <= i < j < s.len() && s[i] == s[j]
}

/// The first reference of the translated tokens that the original tokens lack.
pub open spec fn first_unknown_reference(tt: Seq<TokenView>, known: Seq<Seq<char>>) -> Option<
    Seq<char>,
> {
    let refs = references(tt);
    if exists|i: int| 0 <= i < refs.len() && !known.contains(refs[i]) {
        let i = choose|i: int|
            0 <= i < refs.len() && !known.contains(refs[i]) && forall|j: int|
                0 <= j < i ==> known.contains(refs[j]);
        Some(refs[i])
    } else {
        None
    }
}

/// A rule of the ruleset `id`, checked: its tokens, or the first error.
pub open spec fn checked_rule(base: Seq<char>, id: Seq<char>, original: Seq<char>, translated: Seq<
    char,
>) -> Result<RuleView, RuleErrorView> {
    match parsed_tokens(base, original) {
        Err(e) => Err(RuleErrorView::InvalidOriginal { ruleset: id, entry: original, error: e }),
        Ok(ot) => match parsed_tokens(base, translated) {
            Err(e) => Err(
                RuleErrorView::InvalidTranslated { ruleset: id, entry: translated, error: e },
            ),
            Ok(tt) => match layout_error(ot, 0) {
                Some(e) => Err(
                    RuleErrorView::UnsafeWildcardLayout { ruleset: id, entry: original, error: e },
                ),
                None => if has_duplicate(references(ot)) {
                    Err(RuleErrorView::DuplicateReferences { ruleset: id, entry: original })
                } else {
                    match first_unknown_reference(tt, references(ot)) {
                        Some(r) => Err(
                            RuleErrorView::UnknownTranslatedReference {
                                ruleset: id,
                                reference: r,
                                entry: translated,
                            },
                        ),
                        None => Ok((ot, tt)),
                    }
                },
            },
        },
    }
}

/// The first `n` rules of a ruleset added to `rules`, or the first error.
pub open spec fn add_rules(
    rules: Seq<RuleView>,
    base: Seq<char>,
    id: Seq<char>,
    written: Seq<(Seq<char>, Seq<char>)>,
    n: int,
) -> Result<Seq<RuleView>, RuleErrorView>
    decreases n,
{
    if n <= 0 {
        Ok(rules)
    } else {
        match add_rules(rules, base, id, written, n - 1) {
            Err(e) => Err(e),
            Ok(rs) => match checked_rule(base, id, written[n - 1].0, written[n - 1].1) {
                Err(e) => Err(e),
                Ok(r) => Ok(insert_rule(rs, r.0, r.1)),
            },
        }
    }
}

/// The identifier of a ruleset named `name` in a file with base namespace `base`.
pub open spec fn ruleset_identifier(base: Seq<char>, name: Option<Seq<char>>) -> Seq<char> {
    match name {
        Some(n) => seq![':', ':'] + base + seq![':', ':'] + n,
        None => seq![':', ':'] + base,
    }
}

/// The rule that matches the empty text and translates it to nothing.
pub open spec fn empty_rule_tokens() -> Seq<TokenView> {
    seq![TokenView::Literal(Seq::<char>::empty())]
}

/// One entry of a file added to the rulesets, or the first error.
pub open spec fn add_entry(sets: RuleSetsView, base: Seq<char>, e: EntryView) -> Result<
    RuleSetsView,
    RuleErrorView,
> {
    let id = ruleset_identifier(base, e.name);
    match identifier_error(id) {
        Some(err) => Err(RuleErrorView::InvalidRuleset { identifier: id, error: err }),
        None => {
            let ss = ensure_set(sets, id);
            let i = set_index(ss, id).unwrap();
            let start = if e.optional {
                insert_rule(ss[i].1, empty_rule_tokens(), empty_rule_tokens())
            } else {
                ss[i].1
            };
            match add_rules(start, base, id, e.rules, e.rules.len() as int) {
                Err(x) => Err(x),
                Ok(rs) => Ok(ss.update(i, (id, rs))),
            }
        },
    }
}

/// The first `n` entries of a file added to the rulesets, or the first error.
pub open spec fn add_entries(sets: RuleSetsView, base: Seq<char>, es: Seq<EntryView>, n: int) -> Result<
    RuleSetsView,
    RuleErrorView,
>
    decreases n,
{
    if n <= 0 {
        Ok(sets)
    } else {
        match add_entries(sets, base, es, n - 1) {
            Err(e) => Err(e),
            Ok(ss) => add_entry(ss, base, es[n - 1]),
        }
    }
}

/// The references among the tokens, as strings.
fn reference_list(ts: &Vec<Token>) -> (r: Vec<String>)
    ensures
        r@.map_values(|x: String| x@) == references(tokens_view(ts@)),
{
    let mut out: Vec<String> = Vec::new();
    let mut i: usize = 0;
    while i < ts.len()
        invariant
            i <= ts.len(),
            out@.map_values(|x: String| x@) == references(tokens_view(ts@.take(i as int))),
        decreases ts.len() - i,
    {
        assert(tokens_view(ts@.take(i + 1)).drop_last() =~= tokens_view(ts@.take(i as int)));
        let ghost before = out@;
        match &ts[i] {
            Token::Reference(r) => {
                out.push(r.clone());
                assert(out@.map_values(|x: String| x@) =~= before.map_values(|x: String| x@)
                    + seq![r@]);
            },
            Token::Literal(_) => {
                assert(out@.map_values(|x: String| x@) =~= before.map_values(|x: String| x@)
                    + Seq::<Seq<char>>::empty());
            },
        }
        i += 1;
    }
    assert(ts@.take(ts.len() as int) =~= ts@);
    out
}

/// Whether the text is among the strings.
fn contains_string(v: &Vec<String>, s: &String) -> (r: bool)
    ensures
        r == v@.map_values(|x: String| x@).contains(s@),
{
    let ghost m = v@.map_values(|x: String| x@);
    let mut i: usize = 0;
    while i < v.len()
        invariant
            i <= v.len(),
            m == v@.map_values(|x: String| x@),
            forall|j: int| 0 <= j < i ==> m[j] != s@,
        decreases v.len() - i,
    {
        if str_eq(v[i].as_str(), s.as_str()) {
            assert(m[i as int] == s@);
            return true;
        }
        i += 1;
    }
    false
}

/// Whether some string occurs twice.
fn has_duplicate_string(v: &Vec<String>) -> (r: bool)
    ensures
        r == has_duplicate(v@.map_values(|x: String| x@)),
{
    let ghost m = v@.map_values(|x: String| x@);
    let mut j: usize = 0;
    while j < v.len()
        invariant
            j <= v.len(),
            m == v@.map_values(|x: String| x@),
            forall|a: int, b: int| 0 <= a < b < j ==> m[a] != m[b],
        decreases v.len() - j,
    {
        let mut i: usize = 0;
        while i < j
            invariant
                i <= j < v.len(),
                m == v@.map_values(|x: String| x@),
                forall|a: int| 0 <= a < i ==> m[a] != m[j as int],
            decreases j - i,
        {
            if str_eq(v[i].as_str(), v[j].as_str()) {
                assert(m[i as int] == m[j as int]);
                return true;
            }
            i += 1;
        }
        j += 1;
    }
    false
}

/// Checks one rule of the ruleset `id` and returns its tokens.
pub fn check_rule(base: &str, id: &String, original: &String, translated: &String) -> (r: Result<
    (Vec<Token>, Vec<Token>),
    RuleError,
>)
    ensures
        match checked_rule(base@, id@, original@, translated@) {
            Ok(rule) => r matches Ok(x) && tokens_view(x.0@) == rule.0 && tokens_view(x.1@)
                == rule.1,
            Err(e) => r matches Err(x) && x@ == e,
        },
{
    let ot = match parse_tokens(base, original.as_str()) {
        Ok(t) => t,
        Err(e) => {
            return Err(
                RuleError::InvalidOriginal { ruleset: id.clone(), entry: original.clone(), error: e },
            );
        },
    };
    let tt = match parse_tokens(base, translated.as_str()) {
        Ok(t) => t,
        Err(e) => {
            return Err(
                RuleError::InvalidTranslated {
                    ruleset: id.clone(),
                    entry: translated.clone(),
                    error: e,
                },
            );
        },
    };
    match validate_wildcard_layout(&ot) {
        Err(e) => {
            return Err(
                RuleError::UnsafeWildcardLayout {
                    ruleset: id.clone(),
                    entry: original.clone(),
                    error: e,
                },
            );
        },
        Ok(()) => {},
    }
    let known = reference_list(&ot);
    if has_duplicate_string(&known) {
        return Err(RuleError::DuplicateReferences { ruleset: id.clone(), entry: original.clone() });
    }
    let wanted = reference_list(&tt);
    let ghost km = known@.map_values(|x: String| x@);
    let ghost wm = wanted@.map_values(|x: String| x@);
    let ghost outcome = match first_unknown_reference(tokens_view(tt@), km) {
        Some(r) => Err(
            RuleErrorView::UnknownTranslatedReference {
                ruleset: id@,
                reference: r,
                entry: translated@,
            },
        ),
        None => Ok((tokens_view(ot@), tokens_view(tt@))),
    };
    assert(checked_rule(base@, id@, original@, translated@) == outcome);
    let mut i: usize = 0;
    while i < wanted.len()
        invariant
            i <= wanted.len(),
            checked_rule(base@, id@, original@, translated@) == outcome,
            outcome == match first_unknown_reference(tokens_view(tt@), km) {
                Some(r) => Err(
                    RuleErrorView::UnknownTranslatedReference {
                        ruleset: id@,
                        reference: r,
                        entry: translated@,
                    },
                ),
                None => Ok((tokens_view(ot@), tokens_view(tt@))),
            },
            km == known@.map_values(|x: String| x@),
            wm == wanted@.map_values(|x: String| x@),
            wm == references(tokens_view(tt@)),
            forall|j: int| 0 <= j < i ==> km.contains(wm[j]),
        decreases wanted.len() - i,
    {
        if !contains_string(&known, &wanted[i]) {
            proof {
                let refs = references(tokens_view(tt@));
                assert(0 <= i < refs.len() && !km.contains(refs[i as int]));
                let c = choose|c: int|
                    0 <= c < refs.len() && !km.contains(refs[c]) && forall|j: int|
                        0 <= j < c ==> km.contains(refs[j]);
                assert(forall|j: int| 0 <= j < i ==> km.contains(refs[j]));
                if c < i {
                    assert(km.contains(refs[c]));
                } else if c > i {
                    assert(km.contains(refs[i as int]));
                }
                assert(c == i);
            }
            return Err(
                RuleError::UnknownTranslatedReference {
                    ruleset: id.clone(),
                    reference: wanted[i].clone(),
                    entry: translated.clone(),
                },
            );
        }
        i += 1;
    }
    Ok((ot, tt))
}

/// A file's rulesets, as text.
pub open spec fn entries_view(file: &RuleSetFile) -> Seq<EntryView> {
    file.rulesets@.map_values(|e: RuleSetEntry| e@)
}

/// The characters `.toml`.
pub open spec fn toml_suffix() -> Seq<char> {
    seq!['.', 't', 'o', 'm', 'l']
}

/// `str::trim_end_matches(".toml")`: every trailing `.toml` removed.
pub open spec fn strip_toml(s: Seq<char>) -> Seq<char>
    decreases s.len(),
{
    if s.len() >= 5 && s.skip(s.len() - 5) == toml_suffix() {
        strip_toml(s.take(s.len() - 5))
    } else {
        s
    }
}

/// The first `n` parts joined with `::`.
pub open spec fn join_parts(ps: Seq<Seq<char>>, n: int) -> Seq<char>
    decreases n,
{
    if n <= 0 {
        seq![]
    } else if n == 1 {
        ps[0]
    } else {
        join_parts(ps, n - 1) + seq![':', ':'] + ps[n - 1]
    }
}

/// The base namespace that a file's path relative to the ruleset directory calls for:
/// the path without `.toml`, its directories joined by `::`, and a last `index` left out.
pub open spec fn expected_base(path: Seq<char>, sep: char) -> Seq<char> {
    let parts = crate::preference::split_on(strip_toml(path), sep);
    let kept = if parts.len() > 0 && parts.last() == seq!['i', 'n', 'd', 'e', 'x'] {
        parts.drop_last()
    } else {
        parts
    };
    join_parts(kept, kept.len() as int)
}

/// What loading a file does to the rulesets, or the first error.
pub open spec fn file_outcome(
    sets: RuleSetsView,
    file_name: Seq<char>,
    path: Seq<char>,
    sep: char,
    base: Option<Seq<char>>,
    entries: Seq<EntryView>,
    visited_root: Option<Seq<char>>,
) -> Result<RuleSetsView, RuleErrorView> {
    if base is None && visited_root is Some {
        Err(RuleErrorView::MultipleRootBases { first: visited_root.unwrap(), second: file_name })
    } else {
        let b = match base {
            Some(x) => x,
            None => seq![],
        };
        let expected = expected_base(path, sep);
        if b != expected {
            Err(RuleErrorView::BaseNamespaceMismatch { file: file_name, expected, found: b })
        } else {
            add_entries(sets, b, entries, entries.len() as int)
        }
    }
}

/// `str::split` on one character, on characters.
pub fn split_chars(v: &Vec<char>, c: char) -> (r: Vec<Vec<char>>)
    ensures
        crate::rules::chars_view(r@) == crate::preference::split_on(v@, c),
{
    let n = v.len();
    let mut out: Vec<Vec<char>> = Vec::new();
    let mut seg: usize = 0;
    let mut i: usize = 0;
    assert(v@.take(0) =~= Seq::<char>::empty());
    assert(v@.subrange(0, 0) =~= Seq::<char>::empty());
    assert(crate::preference::split_on(v@.take(0), c) =~= crate::rules::chars_view(out@) + seq![
        v@.subrange(0, 0),
    ]);
    while i < n
        invariant
            n == v.len(),
            seg <= i <= n,
            crate::preference::split_on(v@.take(i as int), c) == crate::rules::chars_view(out@)
                + seq![v@.subrange(seg as int, i as int)],
        decreases n - i,
    {
        let ghost cur = v@.subrange(seg as int, i as int);
        let ghost before = crate::rules::chars_view(out@);
        let ghost whole = crate::preference::split_on(v@.take(i + 1), c);
        assert(v@.take(i + 1).drop_last() =~= v@.take(i as int));
        assert(v@.take(i + 1).last() == v@[i as int]);
        if v[i] == c {
            let piece = slice_chars(v, seg, i);
            out.push(piece);
            assert(crate::rules::chars_view(out@) =~= before.push(cur));
            seg = i + 1;
            i += 1;
            assert(v@.subrange(seg as int, i as int) =~= Seq::<char>::empty());
            assert(whole =~= crate::rules::chars_view(out@) + seq![
                v@.subrange(seg as int, i as int),
            ]);
        } else {
            i += 1;
            assert(v@.subrange(seg as int, i as int) =~= cur.push(v@[i - 1]));
            assert(whole =~= crate::rules::chars_view(out@) + seq![
                v@.subrange(seg as int, i as int),
            ]);
        }
    }
    let last = slice_chars(v, seg, n);
    let ghost before = crate::rules::chars_view(out@);
    out.push(last);
    assert(v@.take(n as int) =~= v@);
    assert(crate::rules::chars_view(out@) =~= before.push(v@.subrange(seg as int, n as int)));
    out
}

/// The base namespace that a file's relative path calls for.
pub fn expected_base_namespace(relative_path: &str, separator: char) -> (r: String)
    ensures
        r@ == expected_base(relative_path@, separator),
{
    let mut p = to_chars(relative_path);
    let suffix = vec!['.', 't', 'o', 'm', 'l'];
    assert(suffix@ == toml_suffix());
    while p.len() >= 5 && crate::strs::starts_with_at(&p, p.len() - 5, &suffix)
        invariant
            suffix@ == toml_suffix(),
            strip_toml(p@) == strip_toml(relative_path@),
        decreases p.len(),
    {
        assert(p@.subrange(p.len() - 5, p.len() as int) =~= p@.skip(p.len() - 5));
        let ghost prev = p@;
        let n = p.len();
        p = slice_chars(&p, 0, n - 5);
        assert(p@ =~= prev.take(prev.len() - 5));
    }
    proof {
        if p@.len() >= 5 {
            assert(p@.subrange(p@.len() - 5, p@.len() as int) =~= p@.skip(p@.len() - 5));
        }
    }
    let parts = split_chars(&p, separator);
    let mut n = parts.len();
    let index = vec!['i', 'n', 'd', 'e', 'x'];
    if n > 0 && chars_eq(&parts[n - 1], &index) {
        n = n - 1;
    }
    let ghost all = crate::rules::chars_view(parts@);
    let ghost kept = all.take(n as int);
    assert(kept =~= if all.len() > 0 && all.last() == seq!['i', 'n', 'd', 'e', 'x'] {
        all.drop_last()
    } else {
        all
    });
    let mut out: Vec<char> = Vec::new();
    let mut k: usize = 0;
    while k < n
        invariant
            k <= n <= parts.len(),
            all == crate::rules::chars_view(parts@),
            kept == all.take(n as int),
            out@ == join_parts(kept, k as int),
        decreases n - k,
    {
        if k > 0 {
            out.push(':');
            out.push(':');
        }
        let mut piece = parts[k].clone();
        let ghost before = out@;
        out.append(&mut piece);
        k += 1;
        assert(out@ =~= join_parts(kept, k as int));
    }
    string_from_chars(&out)
}

impl RuleSets {
    /// Adds one ruleset entry of a file with base namespace `base`.
    pub fn load_entry(&mut self, base: &String, entry: &RuleSetEntry) -> (r: Result<(), RuleError>)
        ensures
            match add_entry(old(self)@, base@, entry@) {
                Ok(m) => r is Ok && final(self)@ == m,
                Err(e) => r matches Err(x) && x@ == e,
            },
            crate::engine::rules_wf(old(self)@) ==> crate::engine::rules_wf(final(self)@),
    {
        let mut identifier = String::new();
        identifier.push(':');
        identifier.push(':');
        push_str(&mut identifier, base.as_str());
        match &entry.name {
            Some(name) => {
                identifier.push(':');
                identifier.push(':');
                push_str(&mut identifier, name.as_str());
            },
            None => {},
        }
        assert(identifier@ =~= ruleset_identifier(base@, entry@.name));
        match validate_identifier_format(identifier.as_str()) {
            Err(e) => {
                return Err(RuleError::InvalidRuleset { identifier, error: e });
            },
            Ok(()) => {},
        }
        let ghost id = identifier@;
        let idx = self.entry(&identifier);
        let ghost ss = self@;
        proof {
            lemma_set_index(ss, id);
        }
        if entry.optional {
            let o = vec![Token::Literal(String::new())];
            let t = vec![Token::Literal(String::new())];
            assert(tokens_view(o@) =~= empty_rule_tokens());
            assert(tokens_view(t@) =~= empty_rule_tokens());
            self.insert_at(idx, o, t);
        }
        let ghost start = if entry@.optional {
            insert_rule(ss[idx as int].1, empty_rule_tokens(), empty_rule_tokens())
        } else {
            ss[idx as int].1
        };
        assert(self@ =~= ss.update(idx as int, (id, start)));
        proof {
            assert(add_rules(start, base@, id, entry@.rules, 0) == Ok::<Seq<RuleView>, RuleErrorView>(start));
            if crate::engine::rules_wf(old(self)@) {
                crate::engine::lemma_entry_prefix_wf(old(self)@, base@, entry@, 0);
            }
        }
        let mut k: usize = 0;
        while k < entry.rules.len()
            invariant
                k <= entry.rules.len(),
                id == identifier@,
                ss == ensure_set(old(self)@, id),
                set_index(ss, id) == Some(idx as int),
                idx < ss.len(),
                ss[idx as int].0 == id,
                self@.len() == ss.len(),
                identifier_error(id) is None,
                id == ruleset_identifier(base@, entry@.name),
                start == if entry@.optional {
                    insert_rule(ss[idx as int].1, empty_rule_tokens(), empty_rule_tokens())
                } else {
                    ss[idx as int].1
                },
                add_rules(start, base@, id, entry@.rules, k as int) matches Ok(rs) && self@ == ss.update(
                    idx as int,
                    (id, rs),
                ),
                crate::engine::rules_wf(old(self)@) ==> crate::engine::rules_wf(self@),
            decreases entry.rules.len() - k,
        {
            let ghost rs = add_rules(start, base@, id, entry@.rules, k as int)->Ok_0;
            assert(entry@.rules[k as int] == (entry.rules@[k as int].0@, entry.rules@[k as int].1@));
            match check_rule(base.as_str(), &identifier, &entry.rules[k].0, &entry.rules[k].1) {
                Err(e) => {
                    assert(add_rules(start, base@, id, entry@.rules, k + 1) == Err::<
                        Seq<RuleView>,
                        RuleErrorView,
                    >(e@));
                    assert(add_rules(start, base@, id, entry@.rules, entry@.rules.len() as int)
                        == Err::<Seq<RuleView>, RuleErrorView>(e@)) by {
                        lemma_add_rules_err(start, base@, id, entry@.rules, k + 1);
                    }
                    return Err(e);
                },
                Ok((o, t)) => {
                    self.insert_at(idx, o, t);
                    assert(self@ =~= ss.update(
                        idx as int,
                        (id, add_rules(start, base@, id, entry@.rules, k + 1)->Ok_0),
                    ));
                    proof {
                        if crate::engine::rules_wf(old(self)@) {
                            crate::engine::lemma_entry_prefix_wf(old(self)@, base@, entry@, k + 1);
                        }
                    }
                },
            }
            k += 1;
        }
        proof {
            lemma_set_index(ss, id);
            assert(entry@.rules.len() == entry.rules.len());
        }
        Ok(())
    }
}

impl RuleSets {
    /// Loads a ruleset file. `file_name` names the file in messages, `relative_path` is
    /// its path under the ruleset directory with `separator` between directories, and
    /// `visited_root` is the first file without a base namespace loaded so far. Only one
    /// file may lack a base namespace, and the base namespace must follow from the path.
    pub fn parse_file(
        &mut self,
        file_name: &str,
        relative_path: &str,
        separator: char,
        file: &RuleSetFile,
        visited_root: &mut Option<String>,
    ) -> (r: Result<(), RuleError>)
        ensures
            opt_chars(*final(visited_root)) == if file.base is None && *old(visited_root) is None {
                Some(file_name@)
            } else {
                opt_chars(*old(visited_root))
            },
            match file_outcome(
                old(self)@,
                file_name@,
                relative_path@,
                separator,
                opt_chars(file.base),
                entries_view(file),
                opt_chars(*old(visited_root)),
            ) {
                Ok(m) => r is Ok && final(self)@ == m,
                Err(e) => r matches Err(x) && x@ == e,
            },
            crate::engine::rules_wf(old(self)@) ==> crate::engine::rules_wf(final(self)@),
    {
        if file.base.is_none() {
            match visited_root {
                Some(first) => {
                    return Err(
                        RuleError::MultipleRootBases {
                            first: first.clone(),
                            second: file_name.to_owned(),
                        },
                    );
                },
                None => {},
            }
            *visited_root = Some(file_name.to_owned());
        }
        let base = match &file.base {
            Some(b) => b.clone(),
            None => String::new(),
        };
        let expected = expected_base_namespace(relative_path, separator);
        if !str_eq(base.as_str(), expected.as_str()) {
            return Err(
                RuleError::BaseNamespaceMismatch {
                    file: file_name.to_owned(),
                    expected,
                    found: base,
                },
            );
        }
        let ghost es = entries_view(file);
        assert(file_outcome(
            old(self)@,
            file_name@,
            relative_path@,
            separator,
            opt_chars(file.base),
            entries_view(file),
            opt_chars(*old(visited_root)),
        ) == add_entries(old(self)@, base@, es, es.len() as int));
        let mut k: usize = 0;
        while k < file.rulesets.len()
            invariant
                k <= file.rulesets.len(),
                es == entries_view(file),
                opt_chars(*visited_root) == if file.base is None && *old(visited_root) is None {
                    Some(file_name@)
                } else {
                    opt_chars(*old(visited_root))
                },
                file_outcome(
                    old(self)@,
                    file_name@,
                    relative_path@,
                    separator,
                    opt_chars(file.base),
                    entries_view(file),
                    opt_chars(*old(visited_root)),
                ) == add_entries(old(self)@, base@, es, es.len() as int),
                crate::engine::rules_wf(old(self)@) ==> crate::engine::rules_wf(self@),
                add_entries(old(self)@, base@, es, k as int) == Ok::<RuleSetsView, RuleErrorView>(
                    self@,
                ),
            decreases file.rulesets.len() - k,
        {
            match self.load_entry(&base, &file.rulesets[k]) {
                Err(e) => {
                    proof {
                        lemma_add_entries_err(old(self)@, base@, es, k + 1);
                    }
                    return Err(e);
                },
                Ok(()) => {},
            }
            k += 1;
        }
        Ok(())
    }
}

/// What is wrong with reference `r` in ruleset `id`, if anything: a replacer must be
/// registered, a ruleset must exist.
pub open spec fn ref_error(sets: RuleSetsView, names: Seq<Seq<char>>, id: Seq<char>, r: Seq<char>) -> Option<
    RuleErrorView,
> {
    if crate::rules::is_replacer_ref(r) {
        let name = match crate::rules::replacer_name_of(r) {
            Some(n) => n,
            None => seq![],
        };
        if names.contains(name) {
            None
        } else {
            Some(RuleErrorView::UnregisteredReplacer { ruleset: id, name, reference: r })
        }
    } else if set_index(sets, r) is Some {
        None
    } else {
        Some(RuleErrorView::UnknownReference { ruleset: id, reference: r })
    }
}

/// The first reference error among the first `n` tokens.
pub open spec fn tokens_ref_error(
    sets: RuleSetsView,
    names: Seq<Seq<char>>,
    id: Seq<char>,
    ts: Seq<TokenView>,
    n: int,
) -> Option<RuleErrorView>
    decreases n,
{
    if n <= 0 {
        None
    } else {
        match tokens_ref_error(sets, names, id, ts, n - 1) {
            Some(e) => Some(e),
            None => match ts[n - 1] {
                TokenView::Reference(r) => ref_error(sets, names, id, r),
                TokenView::Literal(_) => None,
            },
        }
    }
}

/// The first reference error among the original tokens of the first `n` rules.
pub open spec fn rules_ref_error(
    sets: RuleSetsView,
    names: Seq<Seq<char>>,
    id: Seq<char>,
    rules: Seq<RuleView>,
    n: int,
) -> Option<RuleErrorView>
    decreases n,
{
    if n <= 0 {
        None
    } else {
        match rules_ref_error(sets, names, id, rules, n - 1) {
            Some(e) => Some(e),
            None => tokens_ref_error(sets, names, id, rules[n - 1].0, rules[n - 1].0.len() as int),
        }
    }
}

/// The first reference error among the first `n` rulesets.
pub open spec fn sets_ref_error(sets: RuleSetsView, names: Seq<Seq<char>>, n: int) -> Option<
    RuleErrorView,
>
    decreases n,
{
    if n <= 0 {
        None
    } else {
        match sets_ref_error(sets, names, n - 1) {
            Some(e) => Some(e),
            None => rules_ref_error(sets, names, sets[n - 1].0, sets[n - 1].1, sets[n - 1].1.len() as int),
        }
    }
}

impl RuleSets {
    fn check_reference(&self, replacers: &crate::replacer::Replacers, id: &String, r: &String) -> (res:
        Result<(), RuleError>)
        ensures
            match ref_error(self@, crate::replacer::replacer_names(replacers@), id@, r@) {
                Some(e) => res matches Err(x) && x@ == e,
                None => res is Ok,
            },
    {
        let chars = to_chars(r.as_str());
        if chars.len() >= 1 && chars[0] == '%' {
            let name = match crate::rules::replacer_name(r.as_str()) {
                Some(n) => n,
                None => String::new(),
            };
            if !replacers.contains_key(name.as_str()) {
                return Err(
                    RuleError::UnregisteredReplacer {
                        ruleset: id.clone(),
                        name,
                        reference: r.clone(),
                    },
                );
            }
            Ok(())
        } else if !self.contains_key(r.as_str()) {
            Err(RuleError::UnknownReference { ruleset: id.clone(), reference: r.clone() })
        } else {
            Ok(())
        }
    }

    /// Checks that every reference of every rule names a registered replacer or an
    /// existing ruleset.
    pub fn validate_references(&self, replacers: &crate::replacer::Replacers) -> (r: Result<
        (),
        RuleError,
    >)
        ensures
            match sets_ref_error(
                self@,
                crate::replacer::replacer_names(replacers@),
                self@.len() as int,
            ) {
                Some(e) => r matches Err(x) && x@ == e,
                None => r is Ok,
            },
    {
        let ghost names = crate::replacer::replacer_names(replacers@);
        let mut k: usize = 0;
        while k < self.sets.len()
            invariant
                k <= self.sets.len(),
                names == crate::replacer::replacer_names(replacers@),
                sets_ref_error(self@, names, k as int) is None,
            decreases self.sets.len() - k,
        {
            let ghost id = self@[k as int].0;
            let ghost rules = self@[k as int].1;
            let set = &self.sets[k];
            let mut j: usize = 0;
            while j < set.1.rules.len()
                invariant
                    k < self.sets.len(),
                    set == &self.sets[k as int],
                    id == set.0@,
                    rules == set.1@,
                    j <= set.1.rules.len(),
                    names == crate::replacer::replacer_names(replacers@),
                    sets_ref_error(self@, names, k as int) is None,
                    rules_ref_error(self@, names, id, rules, j as int) is None,
                decreases set.1.rules.len() - j,
            {
                let ghost ts = rules[j as int].0;
                let tokens = &set.1.rules[j].0;
                let mut i: usize = 0;
                while i < tokens.len()
                    invariant
                        k < self.sets.len(),
                        set == &self.sets[k as int],
                        id == set.0@,
                        rules == set.1@,
                        j < set.1.rules.len(),
                        tokens == &set.1.rules[j as int].0,
                        ts == tokens_view(tokens@),
                        i <= tokens.len(),
                        names == crate::replacer::replacer_names(replacers@),
                        sets_ref_error(self@, names, k as int) is None,
                        rules_ref_error(self@, names, id, rules, j as int) is None,
                        tokens_ref_error(self@, names, id, ts, i as int) is None,
                    decreases tokens.len() - i,
                {
                    match &tokens[i] {
                        Token::Reference(r) => {
                            match self.check_reference(replacers, &set.0, r) {
                                Err(e) => {
                                    proof {
                                        lemma_tokens_ref_error(self@, names, id, ts, i + 1);
                                        lemma_rules_ref_error(self@, names, id, rules, j + 1);
                                        lemma_sets_ref_error(self@, names, k + 1);
                                    }
                                    return Err(e);
                                },
                                Ok(()) => {},
                            }
                        },
                        Token::Literal(_) => {},
                    }
                    i += 1;
                }
                j += 1;
            }
            k += 1;
        }
        Ok(())
    }
}

/// The first unknown reference among the tokens stays the first one when more tokens are checked.
pub proof fn lemma_tokens_ref_error(
    sets: RuleSetsView,
    names: Seq<Seq<char>>,
    id: Seq<char>,
    ts: Seq<TokenView>,
    n: int,
)
    requires
        tokens_ref_error(sets, names, id, ts, n) is Some,
        n <= ts.len(),
    ensures
        tokens_ref_error(sets, names, id, ts, ts.len() as int) == tokens_ref_error(sets, names, id, ts, n),
    decreases ts.len() - n,
{
    if n < ts.len() {
        lemma_tokens_ref_error(sets, names, id, ts, n + 1);
    }
}

/// The first unknown reference among the rules stays the first one when more rules are checked.
pub proof fn lemma_rules_ref_error(
    sets: RuleSetsView,
    names: Seq<Seq<char>>,
    id: Seq<char>,
    rules: Seq<RuleView>,
    n: int,
)
    requires
        rules_ref_error(sets, names, id, rules, n) is Some,
        n <= rules.len(),
    ensures
        rules_ref_error(sets, names, id, rules, rules.len() as int) == rules_ref_error(
            sets,
            names,
            id,
            rules,
            n,
        ),
    decreases rules.len() - n,
{
    if n < rules.len() {
        lemma_rules_ref_error(sets, names, id, rules, n + 1);
    }
}

/// The first unknown reference among the rulesets stays the first one when more rulesets are checked.
pub proof fn lemma_sets_ref_error(sets: RuleSetsView, names: Seq<Seq<char>>, n: int)
    requires
        sets_ref_error(sets, names, n) is Some,
        n <= sets.len(),
    ensures
        sets_ref_error(sets, names, sets.len() as int) == sets_ref_error(sets, names, n),
    decreases sets.len() - n,
{
    if n < sets.len() {
        lemma_sets_ref_error(sets, names, n + 1);
    }
}

/// An error among the first `n` rules is the error of all of them.
pub proof fn lemma_add_rules_err(
    rules: Seq<RuleView>,
    base: Seq<char>,
    id: Seq<char>,
    written: Seq<(Seq<char>, Seq<char>)>,
    n: int,
)
    requires
        add_rules(rules, base, id, written, n) is Err,
        n <= written.len(),
    ensures
        add_rules(rules, base, id, written, written.len() as int) == add_rules(
            rules,
            base,
            id,
            written,
            n,
        ),
    decreases written.len() - n,
{
    if n < written.len() {
        lemma_add_rules_err(rules, base, id, written, n + 1);
    }
}

/// An error among the first `n` entries is the error of all of them.
pub proof fn lemma_add_entries_err(sets: RuleSetsView, base: Seq<char>, es: Seq<EntryView>, n: int)
    requires
        add_entries(sets, base, es, n) is Err,
        n <= es.len(),
    ensures
        add_entries(sets, base, es, es.len() as int) == add_entries(sets, base, es, n),
    decreases es.len() - n,
{
    if n < es.len() {
        lemma_add_entries_err(sets, base, es, n + 1);
    }
}

} // verus!
