//! Matching text against rulesets and building translations from the matches.
use vstd::prelude::*;
use crate::rules::{
    Token, TokenView, copy_tokens, is_wildcard_name, is_wildcard_token, replacer_name,
    replacer_name_of, tokens_view,
};
use crate::ruleset::{RuleSets, RuleSetsView, references};
use crate::replacer::{
    AnyReplacer, ItemDesignationReplacer, NumberReplacer, ReplacerKind, ReplacerMatchHint, Replacers,
    WordReplacer, MAX_WILDCARD_CANDIDATES,
};
use crate::strs::{
    byte_len, sat, sat_nat, slice_chars, str_byte_len, str_eq, string_from_chars, string_of,
    to_chars, to_lowercase, push_str,
};
use vstd::pervasive::VecAdditionalExecFns;

verus! {

/// A successful match of a ruleset against the start of a text.
#[derive(Debug)]
pub struct ResultTree {
    /// The ruleset or replacer that matched.
    pub identifier: String,
    /// The matching rule, written back with its references in braces.
    pub original: String,
    /// The text that matched.
    pub matched: String,
    /// The translation of the matched text.
    pub translated: String,
    /// The text after the match.
    pub remaining: String,
    /// The matches of the rule's references, each under the reference's name, in the
    /// order they were first added.
    pub children: Vec<(String, ResultTree)>,
    /// The tokens of the matching rule, which rank its specificity.
    pub match_tokens: Vec<Token>,
    /// The tokens that rebuild the translation once captures are translated.
    pub translation_tokens: Vec<Token>,
}

/// The number of nodes of a result tree.
pub open spec fn tree_size(t: ResultTree) -> nat
    decreases t, 1nat, 0nat,
{
    1 + children_size(t, t.children@.len() as int)
}

/// The number of nodes under the first `n` children.
pub open spec fn children_size(t: ResultTree, n: int) -> nat
    decreases t, 0nat, n,
{
    if n <= 0 || n > t.children@.len() {
        0
    } else {
        proof {
            assert(decreases_to!(t => t.children));
            assert(decreases_to!(t.children => t.children@));
            assert(decreases_to!(t.children@ => t.children@[n - 1]));
            assert(decreases_to!(t.children@[n - 1] => t.children@[n - 1].1));
        }
        children_size(t, n - 1) + tree_size(t.children@[n - 1].1)
    }
}

/// The number of nodes of a tree that matched some text.
pub open spec fn tree_weight(t: ResultTree) -> nat
    decreases t, 1nat, 0nat,
{
    (if t.matched@.len() > 0 {
        1nat
    } else {
        0nat
    }) + children_weight(t, t.children@.len() as int)
}

/// `tree_weight` summed over the first `n` children.
pub open spec fn children_weight(t: ResultTree, n: int) -> nat
    decreases t, 0nat, n,
{
    if n <= 0 || n > t.children@.len() {
        0
    } else {
        proof {
            assert(decreases_to!(t => t.children));
            assert(decreases_to!(t.children => t.children@));
            assert(decreases_to!(t.children@ => t.children@[n - 1]));
            assert(decreases_to!(t.children@[n - 1] => t.children@[n - 1].1));
        }
        children_weight(t, n - 1) + tree_weight(t.children@[n - 1].1)
    }
}

/// The UTF-8 bytes of the literal tokens.
pub open spec fn literal_bytes(ts: Seq<TokenView>) -> nat
    decreases ts.len(),
{
    if ts.len() == 0 {
        0
    } else {
        literal_bytes(ts.drop_last()) + match ts.last() {
            TokenView::Literal(l) => byte_len(l),
            TokenView::Reference(_) => 0,
        }
    }
}

/// Whether the identifier calls the replacer of this name.
pub open spec fn calls_replacer(id: Seq<char>, name: Seq<char>) -> bool {
    replacer_name_of(id) == Some(name)
}

/// Totals over a tree: `%any` nodes, `%word` nodes, nodes that matched text, and the
/// literal bytes of the rules, counting a child's bytes only where the child holds a
/// wildcard.
pub open spec fn raw_score(t: ResultTree) -> (nat, nat, nat, nat)
    decreases t, 1nat, 0nat,
{
    let c = children_score(t, t.children@.len() as int);
    (
        (if calls_replacer(t.identifier@, seq!['a', 'n', 'y']) {
            1nat
        } else {
            0nat
        }) + c.0,
        (if calls_replacer(t.identifier@, seq!['w', 'o', 'r', 'd']) {
            1nat
        } else {
            0nat
        }) + c.1,
        (if t.matched@.len() > 0 {
            1nat
        } else {
            0nat
        }) + c.2,
        literal_bytes(tokens_view(t.match_tokens@)) + c.3,
    )
}

/// `raw_score` summed over the first `n` children.
pub open spec fn children_score(t: ResultTree, n: int) -> (nat, nat, nat, nat)
    decreases t, 0nat, n,
{
    if n <= 0 || n > t.children@.len() {
        (0, 0, 0, 0)
    } else {
        proof {
            assert(decreases_to!(t => t.children));
            assert(decreases_to!(t.children => t.children@));
            assert(decreases_to!(t.children@ => t.children@[n - 1]));
            assert(decreases_to!(t.children@[n - 1] => t.children@[n - 1].1));
        }
        let p = children_score(t, n - 1);
        let s = raw_score(t.children@[n - 1].1);
        (p.0 + s.0, p.1 + s.1, p.2 + s.2, p.3 + if s.0 + s.1 > 0 {
            s.3
        } else {
            0
        })
    }
}

/// How specific a match is; a smaller one is preferred (see `less_specific`).
#[derive(Debug, Clone, Copy, PartialEq, Eq)]
pub struct Specificity {
    /// 1 where the tree holds a wildcard, else 0.
    pub wildcard: usize,
    /// The literal bytes of a tree with wildcards (0 without); more is better.
    pub anchor_bytes: usize,
    /// The `%any` nodes.
    pub any: usize,
    /// The `%word` nodes.
    pub word: usize,
    /// The nodes that matched text.
    pub legacy_weight: usize,
    /// The bytes matched; more is better.
    pub matched_bytes: usize,
}

/// The specificity of a tree; totals saturate at `usize::MAX`.
pub open spec fn specificity_of(t: ResultTree) -> Specificity {
    let r = raw_score(t);
    let wild = r.0 + r.1 > 0;
    Specificity {
        wildcard: if wild {
            1
        } else {
            0
        },
        anchor_bytes: if wild {
            sat(r.3 as int) as usize
        } else {
            0
        },
        any: sat(r.0 as int) as usize,
        word: sat(r.1 as int) as usize,
        legacy_weight: sat(r.2 as int) as usize,
        matched_bytes: sat(byte_len(t.matched@) as int) as usize,
    }
}

/// The order of preference: fewer wildcards, then longer anchors, fewer `%any`, fewer
/// `%word`, fewer matching nodes, and a longer match.
pub open spec fn prefer(a: Specificity, b: Specificity) -> bool {
    if a.wildcard != b.wildcard {
        a.wildcard < b.wildcard
    } else if a.anchor_bytes != b.anchor_bytes {
        a.anchor_bytes > b.anchor_bytes
    } else if a.any != b.any {
        a.any < b.any
    } else if a.word != b.word {
        a.word < b.word
    } else if a.legacy_weight != b.legacy_weight {
        a.legacy_weight < b.legacy_weight
    } else {
        a.matched_bytes > b.matched_bytes
    }
}

/// The order of preference, tier by tier: a match without wildcards beats one with
/// them; then the longer literal anchor wins; then fewer `%any` captures; then fewer
/// `%word` captures; then fewer rule nodes that matched text (a direct literal rule
/// beats a rule that reaches the same text through a referenced ruleset); then the
/// longer match. No specificity is preferred to itself.
pub proof fn lemma_preference_tiers(a: Specificity, b: Specificity)
    ensures
        a.wildcard < b.wildcard ==> prefer(a, b),
        a.wildcard == b.wildcard && a.anchor_bytes > b.anchor_bytes ==> prefer(a, b),
        a.wildcard == b.wildcard && a.anchor_bytes == b.anchor_bytes && a.any < b.any ==> prefer(a, b),
        a.wildcard == b.wildcard && a.anchor_bytes == b.anchor_bytes && a.any == b.any && a.word < b.word
            ==> prefer(a, b),
        a.wildcard == b.wildcard && a.anchor_bytes == b.anchor_bytes && a.any == b.any && a.word == b.word
            && a.legacy_weight < b.legacy_weight ==> prefer(a, b),
        a.wildcard == b.wildcard && a.anchor_bytes == b.anchor_bytes && a.any == b.any && a.word == b.word
            && a.legacy_weight == b.legacy_weight && a.matched_bytes > b.matched_bytes ==> prefer(a, b),
        !prefer(a, a),
        prefer(a, b) ==> !prefer(b, a),
{
}

/// Of two trees alike in wildcards, anchors and captures, the one with fewer rule
/// nodes that matched text is preferred, and `less_specific` says so.
pub proof fn lemma_fewer_rule_nodes_preferred(a: ResultTree, b: ResultTree)
    requires
        raw_score(a).0 == raw_score(b).0,
        raw_score(a).1 == raw_score(b).1,
        raw_score(a).3 == raw_score(b).3,
        raw_score(a).2 < raw_score(b).2,
        raw_score(b).2 <= usize::MAX,
    ensures
        prefer(specificity_of(a), specificity_of(b)),
        !prefer(specificity_of(b), specificity_of(a)),
{
}

/// Whether `a` is strictly preferred to `b`.
pub fn less_specific(a: &Specificity, b: &Specificity) -> (r: bool)
    ensures
        r == prefer(*a, *b),
{
    if a.wildcard != b.wildcard {
        a.wildcard < b.wildcard
    } else if a.anchor_bytes != b.anchor_bytes {
        a.anchor_bytes > b.anchor_bytes
    } else if a.any != b.any {
        a.any < b.any
    } else if a.word != b.word {
        a.word < b.word
    } else if a.legacy_weight != b.legacy_weight {
        a.legacy_weight < b.legacy_weight
    } else {
        a.matched_bytes > b.matched_bytes
    }
}

fn literal_bytes_of(ts: &Vec<Token>) -> (r: usize)
    ensures
        r == sat(literal_bytes(tokens_view(ts@)) as int),
{
    let mut k: usize = 0;
    let mut i: usize = 0;
    while i < ts.len()
        invariant
            i <= ts.len(),
            k == sat(literal_bytes(tokens_view(ts@.take(i as int))) as int),
        decreases ts.len() - i,
    {
        assert(tokens_view(ts@.take(i + 1)).drop_last() =~= tokens_view(ts@.take(i as int)));
        match &ts[i] {
            Token::Literal(l) => {
                k = k.saturating_add(str_byte_len(l.as_str()));
            },
            Token::Reference(_) => {},
        }
        i += 1;
    }
    assert(ts@.take(ts.len() as int) =~= ts@);
    k
}

fn is_named(id: &String, name: &Vec<char>) -> (r: bool)
    ensures
        r == calls_replacer(id@, name@),
{
    match replacer_name(id.as_str()) {
        Some(n) => {
            let v = crate::strs::to_chars(n.as_str());
            crate::strs::chars_eq(&v, name)
        },
        None => false,
    }
}

impl ResultTree {
    /// The tokens of the matching rule.
    pub open spec fn match_tokens_view(&self) -> Seq<TokenView> {
        tokens_view(self.match_tokens@)
    }

    /// The tokens that rebuild the translation.
    pub open spec fn translation_tokens_view(&self) -> Seq<TokenView> {
        tokens_view(self.translation_tokens@)
    }

    /// A result tree of the given parts.
    pub fn new(
        identifier: String,
        original: String,
        matched: String,
        translated: String,
        remaining: String,
        children: Vec<(String, ResultTree)>,
        match_tokens: Vec<Token>,
        translation_tokens: Vec<Token>,
    ) -> (r: Self)
        ensures
            r.identifier == identifier,
            r.original == original,
            r.matched == matched,
            r.translated == translated,
            r.remaining == remaining,
            r.children == children,
            r.match_tokens_view() == tokens_view(match_tokens@),
            r.translation_tokens_view() == tokens_view(translation_tokens@),
    {
        ResultTree {
            identifier,
            original,
            matched,
            translated,
            remaining,
            children,
            match_tokens,
            translation_tokens,
        }
    }

    /// The number of nodes that matched some text (the smaller the better).
    pub fn weight(&self) -> (r: usize)
        ensures
            r == sat(tree_weight(*self) as int),
        decreases *self,
    {
        let mut w: usize = if self.matched.as_str().is_empty() {
            0
        } else {
            1
        };
        let mut i: usize = 0;
        while i < self.children.len()
            invariant
                i <= self.children.len(),
                w == sat_nat(
                    (if self.matched@.len() > 0 {
                        1nat
                    } else {
                        0nat
                    }) + children_weight(*self, i as int),
                ),
            decreases self.children.len() - i,
        {
            assert(decreases_to!(*self => self.children));
            assert(decreases_to!(self.children => self.children@));
            assert(decreases_to!(self.children@ => self.children@[i as int]));
            assert(decreases_to!(self.children@[i as int] => self.children@[i as int].1));
            let c = self.children[i].1.weight();
            w = w.saturating_add(c);
            i += 1;
        }
        w
    }

    /// How specific this match is.
    pub fn specificity(&self) -> (r: Specificity)
        ensures
            r == specificity_of(*self),
        decreases *self,
    {
        let mut any: usize = if is_named(&self.identifier, &vec!['a', 'n', 'y']) {
            1
        } else {
            0
        };
        let mut word: usize = if is_named(&self.identifier, &vec!['w', 'o', 'r', 'd']) {
            1
        } else {
            0
        };
        let mut legacy: usize = if self.matched.as_str().is_empty() {
            0
        } else {
            1
        };
        let mut lit: usize = literal_bytes_of(&self.match_tokens);
        let mut i: usize = 0;
        while i < self.children.len()
            invariant
                i <= self.children.len(),
                ({
                    let c = children_score(*self, i as int);
                    &&& any == sat_nat(
                        (if calls_replacer(self.identifier@, seq!['a', 'n', 'y']) {
                            1nat
                        } else {
                            0nat
                        }) + c.0,
                    )
                    &&& word == sat_nat(
                        (if calls_replacer(self.identifier@, seq!['w', 'o', 'r', 'd']) {
                            1nat
                        } else {
                            0nat
                        }) + c.1,
                    )
                    &&& legacy == sat_nat(
                        (if self.matched@.len() > 0 {
                            1nat
                        } else {
                            0nat
                        }) + c.2,
                    )
                    &&& lit == sat_nat(literal_bytes(tokens_view(self.match_tokens@)) + c.3)
                }),
            decreases self.children.len() - i,
        {
            assert(decreases_to!(*self => self.children));
            assert(decreases_to!(self.children => self.children@));
            assert(decreases_to!(self.children@ => self.children@[i as int]));
            assert(decreases_to!(self.children@[i as int] => self.children@[i as int].1));
            let cs = self.children[i].1.specificity();
            any = any.saturating_add(cs.any);
            word = word.saturating_add(cs.word);
            legacy = legacy.saturating_add(cs.legacy_weight);
            lit = lit.saturating_add(cs.anchor_bytes);
            i += 1;
        }
        let wild = any > 0 || word > 0;
        let matched_bytes = str_byte_len(self.matched.as_str());
        Specificity {
            wildcard: if wild {
                1
            } else {
                0
            },
            anchor_bytes: if wild {
                lit
            } else {
                0
            },
            any,
            word,
            legacy_weight: legacy,
            matched_bytes,
        }
    }
}

/// The keys of a tree's children.
pub open spec fn child_keys(ch: Seq<(String, ResultTree)>) -> Seq<Seq<char>> {
    ch.map_values(|c: (String, ResultTree)| c.0@)
}

/// The position of the first child with key `k`.
pub open spec fn key_index(keys: Seq<Seq<char>>, k: Seq<char>) -> Option<int>
    decreases keys.len(),
{
    if keys.len() == 0 {
        None
    } else {
        match key_index(keys.drop_last(), k) {
            Some(i) => Some(i),
            None => if keys.last() == k {
                Some(keys.len() - 1)
            } else {
                None
            },
        }
    }
}

/// `key_index` finds a key exactly when the keys contain it, at a position that holds it.
pub proof fn lemma_key_index(keys: Seq<Seq<char>>, k: Seq<char>)
    ensures
        key_index(keys, k) matches Some(i) ==> 0 <= i < keys.len() && keys[i] == k,
        (key_index(keys, k) is Some) == keys.contains(k),
    decreases keys.len(),
{
    if keys.len() > 0 {
        lemma_key_index(keys.drop_last(), k);
        if keys.contains(k) && !keys.drop_last().contains(k) {
            let i = choose|i: int| 0 <= i < keys.len() && keys[i] == k;
            if i < keys.len() - 1 {
                assert(keys.drop_last()[i] == k);
            }
        }
        if keys.drop_last().contains(k) {
            let i = choose|i: int| 0 <= i < keys.drop_last().len() && keys.drop_last()[i] == k;
            assert(keys[i] == k);
        }
        if keys.last() == k {
            assert(keys[keys.len() - 1] == k);
        }
    }
}

/// Every reference of the tokens is the key of some child.
pub open spec fn refs_covered(ts: Seq<TokenView>, keys: Seq<Seq<char>>) -> bool {
    forall|i: int|
        #![trigger ts[i]]
        0 <= i < ts.len() ==> (ts[i] matches TokenView::Reference(r) ==> keys.contains(r))
}

/// The translation that the tokens spell with the children's translations in place of
/// the references.
pub open spec fn composed(ts: Seq<TokenView>, ch: Seq<(String, ResultTree)>) -> Seq<char>
    decreases ts.len(),
{
    if ts.len() == 0 {
        seq![]
    } else {
        composed(ts.drop_last(), ch) + match ts.last() {
            TokenView::Literal(l) => l,
            TokenView::Reference(r) => match key_index(child_keys(ch), r) {
                Some(i) => ch[i].1.translated@,
                None => seq![],
            },
        }
    }
}

/// The position of the first child under `key`.
pub fn find_child(children: &Vec<(String, ResultTree)>, key: &str) -> (r: Option<usize>)
    ensures
        r matches Some(i) ==> key_index(child_keys(children@), key@) == Some(i as int) && i
            < children.len(),
        r is None ==> key_index(child_keys(children@), key@) is None,
{
    let ghost keys = child_keys(children@);
    let mut i: usize = 0;
    while i < children.len()
        invariant
            i <= children.len(),
            keys == child_keys(children@),
            key_index(keys.take(i as int), key@) is None,
        decreases children.len() - i,
    {
        assert(keys.take(i + 1).drop_last() =~= keys.take(i as int));
        if crate::strs::str_eq(children[i].0.as_str(), key) {
            assert(key_index(keys.take(i + 1), key@) == Some(i as int));
            proof {
                lemma_key_index_prefix(keys, key@, i + 1);
            }
            return Some(i);
        }
        i += 1;
    }
    assert(keys.take(children.len() as int) =~= keys);
    None
}

/// A key found in a prefix of the keys is found at the same position in all of them.
pub proof fn lemma_key_index_prefix(keys: Seq<Seq<char>>, k: Seq<char>, n: int)
    requires
        0 <= n <= keys.len(),
        key_index(keys.take(n), k) is Some,
    ensures
        key_index(keys, k) == key_index(keys.take(n), k),
    decreases keys.len() - n,
{
    if n < keys.len() {
        assert(keys.take(n + 1).drop_last() =~= keys.take(n));
        lemma_key_index_prefix(keys, k, n + 1);
    } else {
        assert(keys.take(n) =~= keys);
    }
}

/// Spells out a translation: literals stay, and each reference is replaced by
/// the translation of the child under its name.
pub fn compose_translation(
    tokens: &Vec<Token>,
    children: &Vec<(String, ResultTree)>,
    identifier: &str,
) -> (r: String)
    requires
        refs_covered(tokens_view(tokens@), child_keys(children@)),
    ensures
        r@ == composed(tokens_view(tokens@), children@),
{
    let ghost ts = tokens_view(tokens@);
    let mut translated = String::new();
    let mut i: usize = 0;
    while i < tokens.len()
        invariant
            i <= tokens.len(),
            ts == tokens_view(tokens@),
            refs_covered(ts, child_keys(children@)),
            translated@ == composed(ts.take(i as int), children@),
        decreases tokens.len() - i,
    {
        assert(ts.take(i + 1).drop_last() =~= ts.take(i as int));
        match &tokens[i] {
            Token::Literal(literal) => {
                crate::strs::push_str(&mut translated, literal.as_str());
            },
            Token::Reference(reference) => {
                assert(ts[i as int] == TokenView::Reference(reference@));
                proof {
                    lemma_key_index(child_keys(children@), reference@);
                }
                match find_child(children, reference.as_str()) {
                    Some(k) => {
                        crate::strs::push_str(&mut translated, children[k].1.translated.as_str());
                    },
                    None => {},
                }
            },
        }
        i += 1;
    }
    assert(ts.take(tokens.len() as int) =~= ts);
    translated
}

/// Every node's translation tokens reference only keys of its children.
pub open spec fn tree_wf(t: ResultTree) -> bool
    decreases t, 1nat, 0nat,
{
    refs_covered(tokens_view(t.translation_tokens@), child_keys(t.children@)) && children_wf(
        t,
        t.children@.len() as int,
    )
}

/// The first `n` children are well formed.
pub open spec fn children_wf(t: ResultTree, n: int) -> bool
    decreases t, 0nat, n,
{
    if n <= 0 || n > t.children@.len() {
        true
    } else {
        proof {
            assert(decreases_to!(t => t.children));
            assert(decreases_to!(t.children => t.children@));
            assert(decreases_to!(t.children@ => t.children@[n - 1]));
            assert(decreases_to!(t.children@[n - 1] => t.children@[n - 1].1));
        }
        children_wf(t, n - 1) && tree_wf(t.children@[n - 1].1)
    }
}

/// Whether all children of `ch` are well formed.
pub open spec fn all_wf(ch: Seq<(String, ResultTree)>) -> bool {
    forall|i: int| 0 <= i < ch.len() ==> #[trigger] tree_wf(ch[i].1)
}

/// `children_wf(t, n)` holds exactly when the first `n` children are well formed.
pub proof fn lemma_children_wf(t: ResultTree, n: int)
    requires
        0 <= n <= t.children@.len(),
    ensures
        children_wf(t, n) == (forall|i: int| 0 <= i < n ==> #[trigger] tree_wf(t.children@[i].1)),
    decreases n,
{
    if n > 0 {
        lemma_children_wf(t, n - 1);
        if children_wf(t, n) {
            assert forall|i: int| 0 <= i < n implies #[trigger] tree_wf(t.children@[i].1) by {
                if i < n - 1 {
                    assert(tree_wf(t.children@[i].1));
                }
            }
        }
        if forall|i: int| 0 <= i < n ==> #[trigger] tree_wf(t.children@[i].1) {
            assert(tree_wf(t.children@[n - 1].1));
            assert forall|i: int| 0 <= i < n - 1 implies #[trigger] tree_wf(t.children@[i].1) by {
                assert(tree_wf(t.children@[i].1));
            }
        }
    }
}

/// A tree of the given parts is well formed where its tokens and children are.
pub proof fn lemma_tree_wf_intro(t: ResultTree)
    requires
        refs_covered(tokens_view(t.translation_tokens@), child_keys(t.children@)),
        all_wf(t.children@),
    ensures
        tree_wf(t),
{
    lemma_children_wf(t, t.children@.len() as int);
}

/// A well-formed tree has well-formed children.
pub proof fn lemma_tree_wf_elim(t: ResultTree)
    requires
        tree_wf(t),
    ensures
        refs_covered(tokens_view(t.translation_tokens@), child_keys(t.children@)),
        all_wf(t.children@),
{
    lemma_children_wf(t, t.children@.len() as int);
}

/// A child of a tree is smaller than the tree.
pub proof fn lemma_child_smaller(t: ResultTree, i: int)
    requires
        0 <= i < t.children@.len(),
    ensures
        tree_size(t.children@[i].1) < tree_size(t),
{
    lemma_children_size(t, t.children@.len() as int, i);
}

/// A child is no larger than all the children together.
pub proof fn lemma_children_size(t: ResultTree, n: int, i: int)
    requires
        0 <= i < n <= t.children@.len(),
    ensures
        tree_size(t.children@[i].1) <= children_size(t, n),
    decreases n,
{
    if i < n - 1 {
        lemma_children_size(t, n - 1, i);
    }
}

/// Rule `j` of the tree's ruleset made the tree: its original is the tree's match
/// tokens, and its translation, spelled with the children's translations, is the tree's
/// translation.
pub open spec fn rule_used(sets: RuleSetsView, t: ResultTree, j: int) -> bool {
    match crate::ruleset::set_index(sets, t.identifier@) {
        Some(k) => {
            &&& 0 <= j < sets[k].1.len()
            &&& sets[k].1[j].0 == tokens_view(t.match_tokens@)
            &&& sets[k].1[j].1 == tokens_view(t.translation_tokens@)
            &&& t.translated@ == composed(sets[k].1[j].1, t.children@)
        },
        None => false,
    }
}

/// The node itself comes from the rules: a replacer's node, or one that a rule of its
/// ruleset made.
pub open spec fn node_from_rules(sets: RuleSetsView, t: ResultTree) -> bool {
    crate::rules::is_replacer_ref(t.identifier@) || exists|j: int| rule_used(sets, t, j)
}

/// A complete match of the whole of `text` against the root ruleset.
pub open spec fn complete_match(u: ResultTree, text: Seq<char>) -> bool {
    sound(u, text) && u.remaining@.len() == 0 && u.identifier@ == "::"@
}

/// Every node of the tree comes from the rules, with `b` layers of capture translation
/// left: each translation of a ruleset's match is a rule's translation with the
/// translations of the parts its references matched in their places; a wildcard's
/// capture keeps its text, or, with a layer left, is translated as a complete match of
/// the captured text that comes from the rules with one layer less; other replacers
/// translate on their own.
pub open spec fn derived(sets: RuleSetsView, b: nat, t: ResultTree) -> bool
    decreases b, t, 1nat, 0nat,
{
    node_from_rules(sets, t) && capture_from_rules(sets, b, t) && children_derived(
        sets,
        b,
        t,
        t.children@.len() as int,
    )
}

/// A wildcard's capture (a leaf of the `word` or `any` replacer) keeps the captured
/// text, or, with a layer left, is the translation of a complete match of it that comes
/// from the rules.
pub open spec fn capture_from_rules(sets: RuleSetsView, b: nat, t: ResultTree) -> bool
    decreases b, t, 0nat, 0nat,
{
    !crate::rules::is_wildcard_ref(t.identifier@) || t.children@.len() > 0 || t.translated@ == t.matched@ || (b > 0
        && exists|u: ResultTree|
        #[trigger] complete_match(u, t.matched@) && derived(sets, (b - 1) as nat, u) && u.translated@
            == t.translated@)
}

/// The first `n` children come from the rules.
pub open spec fn children_derived(sets: RuleSetsView, b: nat, t: ResultTree, n: int) -> bool
    decreases b, t, 0nat, n,
{
    if n <= 0 || n > t.children@.len() {
        true
    } else {
        proof {
            assert(decreases_to!(t => t.children));
            assert(decreases_to!(t.children => t.children@));
            assert(decreases_to!(t.children@ => t.children@[n - 1]));
            assert(decreases_to!(t.children@[n - 1] => t.children@[n - 1].1));
        }
        children_derived(sets, b, t, n - 1) && derived(sets, b, t.children@[n - 1].1)
    }
}

/// Whether all the children come from the rules.
pub open spec fn all_derived(sets: RuleSetsView, b: nat, ch: Seq<(String, ResultTree)>) -> bool {
    forall|i: int| 0 <= i < ch.len() ==> #[trigger] derived(sets, b, ch[i].1)
}

/// Whether all the results come from the rules.
pub open spec fn results_derived(sets: RuleSetsView, b: nat, r: Seq<ResultTree>) -> bool {
    forall|i: int| 0 <= i < r.len() ==> #[trigger] derived(sets, b, r[i])
}

/// `children_derived(sets, b, t, n)` holds exactly when the first `n` children come
/// from the rules.
pub proof fn lemma_children_derived(sets: RuleSetsView, b: nat, t: ResultTree, n: int)
    requires
        0 <= n <= t.children@.len(),
    ensures
        children_derived(sets, b, t, n) == (forall|i: int|
            0 <= i < n ==> #[trigger] derived(sets, b, t.children@[i].1)),
    decreases n,
{
    if n > 0 {
        lemma_children_derived(sets, b, t, n - 1);
        if children_derived(sets, b, t, n) {
            assert forall|i: int| 0 <= i < n implies #[trigger] derived(sets, b, t.children@[i].1) by {
                if i < n - 1 {
                    assert(derived(sets, b, t.children@[i].1));
                }
            }
        }
        if forall|i: int| 0 <= i < n ==> #[trigger] derived(sets, b, t.children@[i].1) {
            assert(derived(sets, b, t.children@[n - 1].1));
            assert forall|i: int| 0 <= i < n - 1 implies #[trigger] derived(sets, b, t.children@[i].1) by {
                assert(derived(sets, b, t.children@[i].1));
            }
        }
    }
}

/// A node from the rules whose children come from the rules comes from the rules.
pub proof fn lemma_derived_intro(sets: RuleSetsView, b: nat, t: ResultTree)
    requires
        node_from_rules(sets, t),
        capture_from_rules(sets, b, t),
        all_derived(sets, b, t.children@),
    ensures
        derived(sets, b, t),
{
    lemma_children_derived(sets, b, t, t.children@.len() as int);
}

/// A tree from the rules has a node and children from the rules.
pub proof fn lemma_derived_elim(sets: RuleSetsView, b: nat, t: ResultTree)
    requires
        derived(sets, b, t),
    ensures
        node_from_rules(sets, t),
        capture_from_rules(sets, b, t),
        all_derived(sets, b, t.children@),
{
    lemma_children_derived(sets, b, t, t.children@.len() as int);
}

/// A capture in a tree from the rules is translated through the root ruleset or keeps
/// its text: the translation of a wildcard's capture is the captured text, or, with a
/// capture layer left, the translation of a complete match of the captured text that
/// comes from the rules with one layer less; with no layer left it is the captured text.
pub proof fn lemma_capture_translated_or_kept(sets: RuleSetsView, b: nat, t: ResultTree)
    requires
        derived(sets, b, t),
        crate::rules::is_wildcard_ref(t.identifier@),
        t.children@.len() == 0,
    ensures
        t.translated@ == t.matched@ || (b > 0 && exists|u: ResultTree|
            #[trigger] complete_match(u, t.matched@) && derived(sets, (b - 1) as nat, u)
                && u.translated@ == t.translated@),
        b == 0 ==> t.translated@ == t.matched@,
{
    lemma_derived_elim(sets, b, t);
}

/// The spelled translation depends only on the children's keys and translations.
pub proof fn lemma_composed_same(ts: Seq<TokenView>, a: Seq<(String, ResultTree)>, b: Seq<(String, ResultTree)>)
    requires
        child_keys(a) == child_keys(b),
        a.len() == b.len(),
        forall|i: int| 0 <= i < a.len() ==> (#[trigger] a[i]).1.translated@ == b[i].1.translated@,
    ensures
        composed(ts, a) == composed(ts, b),
    decreases ts.len(),
{
    if ts.len() > 0 {
        lemma_composed_same(ts.drop_last(), a, b);
        if let TokenView::Reference(r) = ts.last() {
            lemma_key_index(child_keys(a), r);
            if let Some(i) = key_index(child_keys(a), r) {
                assert(a[i].1.translated@ == b[i].1.translated@);
            }
        }
    }
}

/// No tokens spell nothing.
pub proof fn lemma_composed_empty(ts: Seq<TokenView>, ch: Seq<(String, ResultTree)>)
    requires
        ts.len() == 0,
    ensures
        composed(ts, ch) == Seq::<char>::empty(),
{
}

impl ResultTree {
    /// A copy of the tree with the same texts, tokens and children's keys.
    pub fn duplicate(&self) -> (r: ResultTree)
        ensures
            r.identifier == self.identifier,
            r.original == self.original,
            r.matched == self.matched,
            r.translated == self.translated,
            r.remaining == self.remaining,
            child_keys(r.children@) == child_keys(self.children@),
            r.children@.len() == self.children@.len(),
            tokens_view(r.match_tokens@) == tokens_view(self.match_tokens@),
            tokens_view(r.translation_tokens@) == tokens_view(self.translation_tokens@),
            tree_wf(*self) ==> tree_wf(r),
            forall|sets: RuleSetsView, b: nat| derived(sets, b, *self) ==> #[trigger] derived(sets, b, r),
            forall|sets: RuleSetsView, j: int| rule_used(sets, *self, j) ==> #[trigger] rule_used(sets, r, j),
            raw_score(r) == raw_score(*self),
        decreases *self,
    {
        let children = duplicate_children(&self.children);
        let r = ResultTree {
            identifier: self.identifier.clone(),
            original: self.original.clone(),
            matched: self.matched.clone(),
            translated: self.translated.clone(),
            remaining: self.remaining.clone(),
            children,
            match_tokens: copy_tokens(&self.match_tokens),
            translation_tokens: copy_tokens(&self.translation_tokens),
        };
        proof {
            if tree_wf(*self) {
                lemma_tree_wf_elim(*self);
                lemma_tree_wf_intro(r);
            }
            lemma_children_score_same(r, *self, r.children@.len() as int);
            lemma_composed_same(tokens_view(self.translation_tokens@), r.children@, self.children@);
            assert forall|sets: RuleSetsView, b: nat| derived(sets, b, *self) implies #[trigger] derived(sets, b, r) by {
                lemma_derived_elim(sets, b, *self);
                assert(all_derived(sets, b, r.children@));
                assert(capture_from_rules(sets, b, r));
                if !crate::rules::is_replacer_ref(self.identifier@) {
                    let j = choose|j: int| rule_used(sets, *self, j);
                    lemma_composed_same(tokens_view(self.translation_tokens@), r.children@, self.children@);
                    assert(rule_used(sets, r, j));
                }
                lemma_derived_intro(sets, b, r);
            }
        }
        r
    }
}

/// Copies of the children with the same keys.
pub fn duplicate_children(ch: &Vec<(String, ResultTree)>) -> (r: Vec<(String, ResultTree)>)
    ensures
        r@.len() == ch@.len(),
        child_keys(r@) == child_keys(ch@),
        all_wf(ch@) ==> all_wf(r@),
        forall|sets: RuleSetsView, b: nat| all_derived(sets, b, ch@) ==> #[trigger] all_derived(sets, b, r@),
        forall|i: int|
            0 <= i < ch@.len() ==> (#[trigger] r@[i]).1.identifier == ch@[i].1.identifier
                && r@[i].1.remaining == ch@[i].1.remaining && r@[i].1.translated
                == ch@[i].1.translated && raw_score(r@[i].1) == raw_score(ch@[i].1),
    decreases ch@, 0nat,
{
    let mut out: Vec<(String, ResultTree)> = Vec::new();
    let mut i: usize = 0;
    while i < ch.len()
        invariant
            i <= ch.len(),
            out@.len() == i,
            child_keys(out@) == child_keys(ch@.take(i as int)),
            all_wf(ch@) ==> all_wf(out@),
            forall|sets: RuleSetsView, b: nat| all_derived(sets, b, ch@) ==> #[trigger] all_derived(sets, b, out@),
            forall|j: int|
                0 <= j < i ==> (#[trigger] out@[j]).1.identifier == ch@[j].1.identifier
                    && out@[j].1.remaining == ch@[j].1.remaining && out@[j].1.translated
                    == ch@[j].1.translated && raw_score(out@[j].1) == raw_score(ch@[j].1),
        decreases ch.len() - i,
    {
        assert(decreases_to!(ch@ => ch@[i as int]));
        assert(decreases_to!(ch@[i as int] => ch@[i as int].1));
        let c = ch[i].1.duplicate();
        let k = ch[i].0.clone();
        let ghost before = out@;
        out.push((k, c));
        proof {
            assert forall|sets: RuleSetsView, b: nat| all_derived(sets, b, ch@) implies #[trigger] all_derived(sets, b, out@) by {
                assert(derived(sets, b, ch@[i as int].1));
                assert(derived(sets, b, c));
                assert(all_derived(sets, b, before));
                assert forall|m: int| 0 <= m < out@.len() implies #[trigger] derived(sets, b, out@[m].1) by {
                    if m < before.len() {
                        assert(out@[m] == before[m]);
                        assert(derived(sets, b, before[m].1));
                    } else {
                        assert(out@[m].1 == c);
                    }
                }
            }
        }
        assert(k@ == ch@[i as int].0@);
        assert(child_keys(out@) =~= child_keys(before).push(k@));
        assert(ch@.take(i + 1) =~= ch@.take(i as int).push(ch@[i as int]));
        assert(child_keys(ch@.take(i + 1)) =~= child_keys(ch@.take(i as int)).push(
            ch@[i as int].0@,
        ));
        i += 1;
    }
    assert(ch@.take(ch.len() as int) =~= ch@);
    out
}

/// How deep captures are translated again.
pub const MAX_CAPTURE_DEPTH: usize = 4;

/// How deep rulesets may reference one another while one text is matched.
pub const MAX_RULE_DEPTH: usize = 256;

/// A rule of a ruleset, named by the ruleset and the rule's tokens.
#[derive(Debug)]
pub struct RuleNode {
    pub identifier: String,
    pub rule: Vec<Token>,
}

/// The state of one translation: the rulesets entered, the rules found to recurse on
/// themselves, and the translations of captures already made.
#[derive(Debug)]
pub struct Context {
    /// The rulesets being matched, outermost first.
    pub identifier_path: Vec<String>,
    /// The rules found to reference a ruleset already being matched.
    pub cyclic_rules: Vec<RuleNode>,
    /// Translations of captures by text and depth; none where none was found.
    pub capture_cache: Vec<(String, usize, Option<String>)>,
}

impl Context {
    /// A fresh context.
    pub fn new() -> (r: Self)
        ensures
            r.identifier_path@.len() == 0,
            r.cyclic_rules@.len() == 0,
            r.capture_cache@.len() == 0,
    {
        Context { identifier_path: Vec::new(), cyclic_rules: Vec::new(), capture_cache: Vec::new() }
    }
}

impl Default for Context {
    fn default() -> (r: Self)
        ensures
            r.identifier_path@.len() == 0,
            r.cyclic_rules@.len() == 0,
            r.capture_cache@.len() == 0,
    {
        Context::new()
    }
}

/// A partial match: the children found so far and the text still to match.
struct Candidate {
    results: Vec<(String, ResultTree)>,
    remaining: String,
}

/// `rem` is a tail of `text`.
pub open spec fn is_suffix(rem: Seq<char>, text: Seq<char>) -> bool {
    rem.len() <= text.len() && text.skip(text.len() - rem.len()) == rem
}

/// A result matched the start of `text`: what it matched followed by what remains is
/// the text.
pub open spec fn sound(t: ResultTree, text: Seq<char>) -> bool {
    t.matched@ + t.remaining@ == text
}

/// Every rule's translation references only what its original references.
pub open spec fn rules_wf(sets: RuleSetsView) -> bool {
    forall|k: int, j: int|
        0 <= k < sets.len() && 0 <= j < sets[k].1.len() ==> refs_covered(
            #[trigger] sets[k].1[j].1,
            references(sets[k].1[j].0),
        )
}

/// A reference among the tokens is in their list of references.
pub proof fn lemma_references(ts: Seq<TokenView>, r: Seq<char>)
    ensures
        references(ts).contains(r) <==> exists|i: int|
            0 <= i < ts.len() && ts[i] == TokenView::Reference(r),
    decreases ts.len(),
{
    if ts.len() > 0 {
        lemma_references(ts.drop_last(), r);
        let p = references(ts.drop_last());
        let tail = match ts.last() {
            TokenView::Reference(x) => seq![x],
            TokenView::Literal(_) => Seq::<Seq<char>>::empty(),
        };
        assert(references(ts) == p + tail);
        if references(ts).contains(r) {
            let k = choose|k: int| 0 <= k < references(ts).len() && references(ts)[k] == r;
            if k < p.len() {
                assert(p[k] == r);
                let i = choose|i: int|
                    0 <= i < ts.drop_last().len() && ts.drop_last()[i] == TokenView::Reference(r);
                assert(ts[i] == TokenView::Reference(r));
            } else {
                assert(ts[ts.len() - 1] == TokenView::Reference(r));
            }
        }
        if exists|i: int| 0 <= i < ts.len() && ts[i] == TokenView::Reference(r) {
            let i = choose|i: int| 0 <= i < ts.len() && ts[i] == TokenView::Reference(r);
            if i < ts.len() - 1 {
                assert(ts.drop_last()[i] == TokenView::Reference(r));
                let k = choose|k: int| 0 <= k < p.len() && p[k] == r;
                assert(references(ts)[k] == r);
            } else {
                assert(references(ts)[p.len() as int] == r);
            }
        }
    }
}

/// Inserts a child under `key`: in place of a child under the same key, else last.
fn insert_child(children: &mut Vec<(String, ResultTree)>, key: String, t: ResultTree, Ghost(sets): Ghost<RuleSetsView>, Ghost(b): Ghost<nat>)
    requires
        all_wf(old(children)@),
        tree_wf(t),
        all_derived(sets, b, old(children)@),
        derived(sets, b, t),
    ensures
        all_wf(final(children)@),
        all_derived(sets, b, final(children)@),
        child_keys(final(children)@).contains(key@),
        forall|k: Seq<char>| child_keys(old(children)@).contains(k) ==> child_keys(final(children)@).contains(k),
{
    let ghost kv = key@;
    match find_child(children, key.as_str()) {
        Some(i) => {
            proof {
                lemma_key_index(child_keys(children@), kv);
            }
            let ghost before = children@;
            children.set(i, (key, t));
            proof {
                assert(children@ == before.update(i as int, (key, t)));
                assert forall|m: int| 0 <= m < children@.len() implies #[trigger] derived(sets, b, children@[m].1) by {
                    if m != i {
                        assert(children@[m] == before[m]);
                        assert(derived(sets, b, before[m].1));
                    } else {
                        assert(children@[m].1 == t);
                    }
                }
                assert forall|m: int| 0 <= m < children@.len() implies #[trigger] tree_wf(children@[m].1) by {
                    if m != i {
                        assert(children@[m] == before[m]);
                        assert(tree_wf(before[m].1));
                    } else {
                        assert(children@[m].1 == t);
                    }
                }
                assert(child_keys(children@) =~= child_keys(before).update(i as int, kv));
                assert(child_keys(children@)[i as int] == kv);
                assert forall|k: Seq<char>| child_keys(before).contains(k) implies child_keys(
                    children@,
                ).contains(k) by {
                    let m = choose|m: int| 0 <= m < child_keys(before).len() && child_keys(before)[m] == k;
                    assert(child_keys(children@)[m] == k);
                }
            }
        },
        None => {
            let ghost before = children@;
            children.push((key, t));
            proof {
                assert(children@ == before.push((key, t)));
                assert forall|m: int| 0 <= m < children@.len() implies #[trigger] derived(sets, b, children@[m].1) by {
                    if m < before.len() {
                        assert(children@[m] == before[m]);
                        assert(derived(sets, b, before[m].1));
                    } else {
                        assert(children@[m].1 == t);
                    }
                }
                assert forall|m: int| 0 <= m < children@.len() implies #[trigger] tree_wf(children@[m].1) by {
                    if m < before.len() {
                        assert(children@[m] == before[m]);
                        assert(tree_wf(before[m].1));
                    } else {
                        assert(children@[m].1 == t);
                    }
                }
                assert(child_keys(children@) =~= child_keys(before).push(kv));
                assert(child_keys(children@)[before.len() as int] == kv);
                assert forall|k: Seq<char>| child_keys(before).contains(k) implies child_keys(
                    children@,
                ).contains(k) by {
                    let m = choose|m: int| 0 <= m < child_keys(before).len() && child_keys(before)[m] == k;
                    assert(child_keys(children@)[m] == k);
                }
            }
        },
    }
}

/// The position in `v` from which the bytes of `v` before it number `b`, if there is one.
fn cut_at_bytes(v: &Vec<char>, b: usize) -> (r: Option<usize>)
    ensures
        r matches Some(k) ==> k <= v.len(),
        forall|k: int| 0 <= k <= v.len() && byte_len(v@.take(k)) == b ==> r == Some(k as usize),
        b == byte_len(v@) ==> r == Some(v@.len() as usize),
        r is Some == cut_from(v@, b as int, 0) is Some,
        r matches Some(k) ==> cut_from(v@, b as int, 0) == Some(k as int),
{
    let mut c: usize = 0;
    let mut acc: usize = 0;
    while acc < b && c < v.len()
        invariant
            c <= v.len(),
            acc == sat(byte_len(v@.take(c as int)) as int),
            forall|k: int| 0 <= k <= v.len() && byte_len(v@.take(k)) == b ==> c <= k,
            cut_from(v@, b as int, c as int) == cut_from(v@, b as int, 0),
        decreases v.len() - c,
    {
        proof {
            assert(v@.take(c + 1).drop_last() =~= v@.take(c as int));
            assert forall|k: int| 0 <= k <= v.len() && byte_len(v@.take(k)) == b implies c + 1 <= k by {
                if k == c {
                    assert(byte_len(v@.take(c as int)) == b);
                    assert(acc == b);
                }
            }
        }
        acc = acc.saturating_add(crate::strs::char_width_of(v[c]));
        c += 1;
    }
    proof {
        assert forall|k: int| 0 <= k <= v.len() && byte_len(v@.take(k)) == b implies c == k && acc == b by {
            crate::replacer::lemma_byte_len_take_mono(v@, c as int, k);
            if c < k {
                if c < v.len() {
                    assert(acc >= b);
                    assert(byte_len(v@.take(c as int)) < byte_len(v@.take(k)));
                }
            }
        }
        if b == byte_len(v@) {
            assert(v@.take(v@.len() as int) =~= v@);
        }
    }
    if acc == b {
        Some(c)
    } else {
        None
    }
}

/// The texts of a list of strings.
pub open spec fn texts_view(v: Seq<String>) -> Seq<Seq<char>> {
    v.map_values(|x: String| x@)
}

/// Whether one of the strings is `s`.
fn contains_text(v: &Vec<String>, s: &str) -> (r: bool)
    ensures
        r == texts_view(v@).contains(s@),
{
    let mut i: usize = 0;
    while i < v.len()
        invariant
            i <= v.len(),
            forall|j: int| 0 <= j < i ==> texts_view(v@)[j] != s@,
        decreases v.len() - i,
    {
        if str_eq(v[i].as_str(), s) {
            assert(texts_view(v@)[i as int] == s@);
            return true;
        }
        i += 1;
    }
    false
}

/// The ruleset and rule tokens a rule node names.
pub open spec fn node_view(n: RuleNode) -> (Seq<char>, Seq<TokenView>) {
    (n.identifier@, tokens_view(n.rule@))
}

/// The views of a list of rule nodes.
pub open spec fn nodes_view(v: Seq<RuleNode>) -> Seq<(Seq<char>, Seq<TokenView>)> {
    v.map_values(|n: RuleNode| node_view(n))
}

/// The position of the first node of `identifier` and `rule`.
fn find_rule_node(v: &Vec<RuleNode>, identifier: &str, rule: &Vec<Token>) -> (r: Option<usize>)
    ensures
        r matches Some(i) ==> i < v.len() && nodes_view(v@)[i as int] == (identifier@, tokens_view(rule@))
            && forall|j: int| 0 <= j < i ==> nodes_view(v@)[j] != (identifier@, tokens_view(rule@)),
        r is None ==> !nodes_view(v@).contains((identifier@, tokens_view(rule@))),
{
    let ghost key = (identifier@, tokens_view(rule@));
    let mut i: usize = 0;
    while i < v.len()
        invariant
            i <= v.len(),
            key == (identifier@, tokens_view(rule@)),
            forall|j: int| 0 <= j < i ==> nodes_view(v@)[j] != key,
        decreases v.len() - i,
    {
        if str_eq(v[i].identifier.as_str(), identifier) && crate::rules::tokens_eq(&v[i].rule, rule) {
            assert(nodes_view(v@)[i as int] == key);
            return Some(i);
        }
        assert(nodes_view(v@)[i as int] == node_view(v@[i as int]));
        i += 1;
    }
    None
}


impl Context {
    /// Whether the rule of `identifier` was found to recurse on itself.
    fn is_cyclic(&self, identifier: &str, rule: &Vec<Token>) -> (r: bool)
        ensures
            r == nodes_view(self.cyclic_rules@).contains((identifier@, tokens_view(rule@))),
    {
        find_rule_node(&self.cyclic_rules, identifier, rule).is_some()
    }

    /// Records the rule of `identifier` as recursing on itself, once.
    fn mark_cyclic(&mut self, identifier: &str, rule: &Vec<Token>)
        ensures
            final(self).capture_cache == old(self).capture_cache,
            final(self).identifier_path == old(self).identifier_path,
            nodes_view(final(self).cyclic_rules@) == if nodes_view(old(self).cyclic_rules@).contains(
                (identifier@, tokens_view(rule@)),
            ) {
                nodes_view(old(self).cyclic_rules@)
            } else {
                nodes_view(old(self).cyclic_rules@).push((identifier@, tokens_view(rule@)))
            },
    {
        if find_rule_node(&self.cyclic_rules, identifier, rule).is_none() {
            let ghost before = self.cyclic_rules@;
            let node = RuleNode { identifier: identifier.to_owned(), rule: copy_tokens(rule) };
            self.cyclic_rules.push(node);
            assert(nodes_view(self.cyclic_rules@) =~= nodes_view(before).push((identifier@, tokens_view(rule@))));
        }
    }

    /// Forgets the first record of the rule of `identifier` as recursing on itself.
    fn unmark_cyclic(&mut self, identifier: &str, rule: &Vec<Token>)
        ensures
            final(self).capture_cache == old(self).capture_cache,
            final(self).identifier_path == old(self).identifier_path,
            !nodes_view(old(self).cyclic_rules@).contains((identifier@, tokens_view(rule@))) ==> nodes_view(
                final(self).cyclic_rules@,
            ) == nodes_view(old(self).cyclic_rules@),
            nodes_view(old(self).cyclic_rules@).contains((identifier@, tokens_view(rule@))) ==> exists|i: int|
                0 <= i < old(self).cyclic_rules@.len() && #[trigger] nodes_view(old(self).cyclic_rules@)[i]
                    == (identifier@, tokens_view(rule@)) && (forall|j: int|
                    0 <= j < i ==> nodes_view(old(self).cyclic_rules@)[j] != (identifier@, tokens_view(rule@)))
                    && nodes_view(final(self).cyclic_rules@) == nodes_view(old(self).cyclic_rules@).remove(i),
    {
        match find_rule_node(&self.cyclic_rules, identifier, rule) {
            Some(i) => {
                let ghost before = self.cyclic_rules@;
                self.cyclic_rules.remove(i);
                assert(nodes_view(self.cyclic_rules@) =~= nodes_view(before).remove(i as int));
                assert(nodes_view(before).contains((identifier@, tokens_view(rule@))));
            },
            None => {},
        }
    }
}

/// Tokens written back as text: literals as they are, references in braces.
pub open spec fn tokens_source(ts: Seq<TokenView>) -> Seq<char>
    decreases ts.len(),
{
    if ts.len() == 0 {
        seq![]
    } else {
        tokens_source(ts.drop_last()) + match ts.last() {
            TokenView::Literal(l) => l,
            TokenView::Reference(r) => seq!['{'] + r + seq!['}'],
        }
    }
}

/// A rule's tokens written back as text, references in braces.
fn tokens_text(tokens: &Vec<Token>) -> (r: String)
    ensures
        r@ == tokens_source(tokens_view(tokens@)),
{
    let ghost ts = tokens_view(tokens@);
    let mut joined = String::new();
    let mut i: usize = 0;
    while i < tokens.len()
        invariant
            i <= tokens.len(),
            ts == tokens_view(tokens@),
            joined@ == tokens_source(ts.take(i as int)),
        decreases tokens.len() - i,
    {
        assert(ts.take(i + 1).drop_last() =~= ts.take(i as int));
        match &tokens[i] {
            Token::Literal(literal) => push_str(&mut joined, literal.as_str()),
            Token::Reference(reference) => {
                joined.push('{');
                push_str(&mut joined, reference.as_str());
                joined.push('}');
                assert(ts[i as int] == TokenView::Reference(reference@));
            },
        }
        proof {
            if let TokenView::Literal(l) = ts[i as int] {
            }
        }
        i += 1;
    }
    assert(ts.take(tokens.len() as int) =~= ts);
    joined
}

/// Whether `text` begins with `literal`, both in Unicode lower case.
fn lowercase_starts_with(text: &str, literal: &str) -> (r: bool)
    ensures
        r == lower_prefix(text@, literal@),
        r == (crate::strs::lowercase(literal@).len() <= crate::strs::lowercase(text@).len()
            && crate::strs::lowercase(text@).take(crate::strs::lowercase(literal@).len() as int)
            == crate::strs::lowercase(literal@)),
        crate::strs::lowercase(text@) == crate::strs::lowercase(literal@) ==> r,
{
    let t = to_lowercase(text);
    let l = to_lowercase(literal);
    let tv = to_chars(t.as_str());
    let lv = to_chars(l.as_str());
    proof {
        if crate::strs::lowercase(text@) == crate::strs::lowercase(literal@) {
            assert(tv@.subrange(0, lv@.len() as int) =~= lv@);
        }
    }
    let r = crate::strs::starts_with_at(&tv, 0, &lv);
    assert(tv@.subrange(0, lv@.len() as int) =~= tv@.take(lv@.len() as int));
    r
}

/// The rulesets and the replacers that match text and translate it.
#[derive(Debug)]
pub struct Translator {
    pub rulesets: RuleSets,
    pub replacers: Replacers,
}

impl Translator {
    /// A translator without rulesets or replacers.
    pub fn new() -> (r: Self)
        ensures
            r.rulesets@.len() == 0,
            r.replacers@.len() == 0,
            rules_wf(r.rulesets@),
    {
        Translator { rulesets: RuleSets::new(), replacers: Replacers::new() }
    }

    /// All rulesets, by identifier.
    pub fn dump(&self) -> (r: &RuleSets)
        ensures
            r == &self.rulesets,
    {
        &self.rulesets
    }
}

impl Default for Translator {
    fn default() -> (r: Self)
        ensures
            r.rulesets@.len() == 0,
            r.replacers@.len() == 0,
    {
        Translator::new()
    }
}

/// Every result matched the start of `text` under `identifier` and is well formed.
pub open spec fn results_ok(r: Seq<ResultTree>, text: Seq<char>, identifier: Seq<char>) -> bool {
    forall|i: int|
        0 <= i < r.len() ==> sound(#[trigger] r[i], text) && r[i].identifier@ == identifier
            && tree_wf(r[i])
}

/// The candidate is a tail of `text` with a child, from the rules, for each reference
/// among the first `t` tokens.
spec fn candidate_ok(c: Candidate, text: Seq<char>, ot: Seq<TokenView>, t: int, sets: RuleSetsView, b: nat) -> bool {
    &&& is_suffix(c.remaining@, text)
    &&& all_wf(c.results@)
    &&& all_derived(sets, b, c.results@)
    &&& forall|i: int|
        #![trigger ot[i]]
        0 <= i < t ==> (ot[i] matches TokenView::Reference(r) ==> child_keys(c.results@).contains(r))
}

/// A literal that matches the whole of `text`: the same in lower case, and as many
/// bytes long.
pub open spec fn literal_matches_whole(l: Seq<char>, text: Seq<char>) -> bool {
    crate::strs::lowercase(l) == crate::strs::lowercase(text) && byte_len(l) == byte_len(text)
}

/// Whether the rule's original is a single literal that matches the whole of `text`.
pub open spec fn is_exact_original(ot: Seq<TokenView>, text: Seq<char>) -> bool {
    ot.len() == 1 && match ot[0] {
        TokenView::Literal(l) => literal_matches_whole(l, text),
        TokenView::Reference(_) => false,
    }
}

/// Rule `j` of the ruleset `id` matches exactly `text`: its original is one literal that
/// is `text` up to case (with as many bytes).
pub open spec fn exact_rule_at(sets: RuleSetsView, id: Seq<char>, text: Seq<char>, j: int) -> bool {
    match crate::ruleset::set_index(sets, id) {
        Some(k) => 0 <= j < sets[k].1.len() && is_exact_original(sets[k].1[j].0, text),
        None => false,
    }
}

/// The ruleset `id` has a rule whose original is one literal that is `text` up to case
/// (`text` of fewer than `usize::MAX` bytes).
pub open spec fn has_exact_rule(sets: RuleSetsView, id: Seq<char>, text: Seq<char>) -> bool {
    byte_len(text) < usize::MAX && exists|j: int| exact_rule_at(sets, id, text, j)
}

/// `t` wraps, in the designation pair `p`, a match `c` of the ruleset `reference`: the
/// text starts with the prefix mark, `c` matched what follows it and is followed by the
/// suffix mark, and the marks stay around both the match and its translation.
pub open spec fn wraps_designation(
    t: ResultTree,
    id: Seq<char>,
    reference: Seq<char>,
    text: Seq<char>,
    p: crate::designation::PairView,
) -> bool {
    let c = t.children@[0].1;
    &&& t.identifier@ == id
    &&& t.children@.len() == 1
    &&& t.children@[0].0@ == "item"@
    &&& c.identifier@ == reference
    &&& p.0.len() <= text.len() && text.take(p.0.len() as int) == p.0
    &&& sound(c, text.skip(p.0.len() as int))
    &&& p.1.len() <= c.remaining@.len() && c.remaining@.take(p.1.len() as int) == p.1
    &&& t.matched@ == p.0 + c.matched@ + p.1
    &&& t.translated@ == p.0 + c.translated@ + p.1
    &&& t.remaining@ == c.remaining@.skip(p.1.len() as int)
}

/// A tree built around a child in a designation pair wraps it.
proof fn lemma_wraps_designation(
    t: ResultTree,
    id: Seq<char>,
    reference: Seq<char>,
    text: Seq<char>,
    p: crate::designation::PairView,
)
    requires
        t.identifier@ == id,
        t.children@.len() == 1,
        t.children@[0].0@ == "item"@,
        t.children@[0].1.identifier@ == reference,
        p.0.len() <= text.len(),
        text.take(p.0.len() as int) == p.0,
        sound(t.children@[0].1, text.skip(p.0.len() as int)),
        p.1.len() <= t.children@[0].1.remaining@.len(),
        t.children@[0].1.remaining@.take(p.1.len() as int) == p.1,
        t.matched@ == text.take(text.len() - (t.children@[0].1.remaining@.len() - p.1.len())),
        t.translated@ == p.0 + t.children@[0].1.translated@ + p.1,
        t.remaining@ == t.children@[0].1.remaining@.skip(p.1.len() as int),
    ensures
        wraps_designation(t, id, reference, text, p),
{
    let c = t.children@[0].1;
    let pl = p.0.len() as int;
    let sl = p.1.len() as int;
    let tm = c.matched@;
    let tr = c.remaining@;
    assert(text =~= p.0 + tm + tr) by {
        assert(text.skip(pl) == tm + tr);
        assert(text =~= text.take(pl) + text.skip(pl));
    }
    assert(tr =~= p.1 + tr.skip(sl)) by {
        assert(tr =~= tr.take(sl) + tr.skip(sl));
    }
    assert(t.matched@ =~= p.0 + tm + p.1);
}

/// Each result wraps a match of `reference` in one of the designation pairs of `text`.
pub open spec fn designation_results(r: Seq<ResultTree>, id: Seq<char>, reference: Seq<char>, text: Seq<char>) -> bool {
    forall|i: int| 0 <= i < r.len() ==> #[trigger] wrapped_designation(r[i], id, reference, text)
}

/// `t` wraps a match of `reference` in one of the designation pairs of `text`.
pub open spec fn wrapped_designation(t: ResultTree, id: Seq<char>, reference: Seq<char>, text: Seq<char>) -> bool {
    exists|p: crate::designation::PairView|
        crate::designation::designation_pairs(text).contains(p) && #[trigger] wraps_designation(
            t,
            id,
            reference,
            text,
            p,
        )
}

/// The name, base namespace and configuration of a replacer reference
/// `%name:base[:config]`: the text after the `%` split at its first two colons. None
/// where there is no colon.
pub open spec fn replacer_parts(id: Seq<char>) -> Option<(Seq<char>, Seq<char>, Seq<char>)> {
    if id.len() == 0 {
        None
    } else {
        let body = id.skip(1);
        match crate::strs::find_from(body, seq![':'], 0) {
            None => None,
            Some(k) => {
                let rest = body.skip(k + 1);
                match crate::strs::find_from(rest, seq![':'], 0) {
                    Some(j) => Some((body.take(k), rest.take(j), rest.skip(j + 1))),
                    None => Some((body.take(k), rest, Seq::<char>::empty())),
                }
            },
        }
    }
}

/// A wrapped match added to wrapped matches leaves them all wrapped.
proof fn lemma_designation_results_push(
    r: Seq<ResultTree>,
    t: ResultTree,
    id: Seq<char>,
    reference: Seq<char>,
    text: Seq<char>,
    p: crate::designation::PairView,
)
    requires
        designation_results(r, id, reference, text),
        crate::designation::designation_pairs(text).contains(p),
        wraps_designation(t, id, reference, text, p),
    ensures
        designation_results(r.push(t), id, reference, text),
{
    let r2 = r.push(t);
    assert(wrapped_designation(t, id, reference, text));
    assert forall|i: int| 0 <= i < r2.len() implies #[trigger] wrapped_designation(r2[i], id, reference, text) by {
        if i < r.len() {
            assert(r2[i] == r[i]);
        } else {
            assert(r2[i] == t);
        }
    }
}

/// Whether the rule's original is one literal that the text begins with, up to case:
/// the lowercased text begins with the lowercased literal, and its first `k`
/// characters are as many bytes as the literal (fewer than `usize::MAX`).
pub open spec fn is_prefix_original(ot: Seq<TokenView>, text: Seq<char>, k: int) -> bool {
    ot.len() == 1 && match ot[0] {
        TokenView::Literal(l) => {
            &&& 0 <= k <= text.len()
            &&& byte_len(text.take(k)) == byte_len(l)
            &&& byte_len(l) < usize::MAX
            &&& crate::strs::lowercase(l).len() <= crate::strs::lowercase(text).len()
            &&& crate::strs::lowercase(text).take(crate::strs::lowercase(l).len() as int)
                == crate::strs::lowercase(l)
        },
        TokenView::Reference(_) => false,
    }
}

/// Rule `j` of the ruleset `id` is one literal that begins `text`, `k` characters long
/// in it.
pub open spec fn prefix_rule_at(sets: RuleSetsView, id: Seq<char>, text: Seq<char>, j: int, k: int) -> bool {
    match crate::ruleset::set_index(sets, id) {
        Some(s) => 0 <= j < sets[s].1.len() && is_prefix_original(sets[s].1[j].0, text, k),
        None => false,
    }
}

/// Among the results is rule `j`'s match of the first `k` characters of `text`, with no
/// children and no wildcard.
pub open spec fn prefix_result(r: Seq<ResultTree>, sets: RuleSetsView, text: Seq<char>, j: int, k: int) -> bool {
    exists|i: int|
        0 <= i < r.len() && (#[trigger] r[i]).remaining@ == text.skip(k) && r[i].children@.len() == 0
            && !uses_wildcard(r[i]) && rule_used(sets, r[i], j)
}

/// A result list keeps its matches when one more is added.
proof fn lemma_prefix_result_push(r: Seq<ResultTree>, t: ResultTree, sets: RuleSetsView, text: Seq<char>, j: int, k: int)
    requires
        prefix_result(r, sets, text, j, k),
    ensures
        prefix_result(r.push(t), sets, text, j, k),
{
    let i = choose|i: int|
        0 <= i < r.len() && (#[trigger] r[i]).remaining@ == text.skip(k) && r[i].children@.len() == 0
            && !uses_wildcard(r[i]) && rule_used(sets, r[i], j);
    assert(r.push(t)[i] == r[i]);
}

/// The text is cut where a literal begins it at only one place.
proof fn lemma_prefix_unique(ot: Seq<TokenView>, text: Seq<char>, k1: int, k2: int)
    requires
        is_prefix_original(ot, text, k1),
        is_prefix_original(ot, text, k2),
    ensures
        k1 == k2,
{
    if k1 < k2 {
        crate::replacer::lemma_byte_len_take_mono(text, k1, k2);
    } else if k2 < k1 {
        crate::replacer::lemma_byte_len_take_mono(text, k2, k1);
    }
}

/// A literal that matches the whole text begins it, as long as the text.
proof fn lemma_exact_is_prefix(sets: RuleSetsView, id: Seq<char>, text: Seq<char>, j: int)
    requires
        exact_rule_at(sets, id, text, j),
        byte_len(text) < usize::MAX,
    ensures
        prefix_rule_at(sets, id, text, j, text.len() as int),
{
    assert(text.take(text.len() as int) =~= text);
    let l = crate::strs::lowercase(text);
    assert(l.take(l.len() as int) =~= l);
}

/// Where `cut_at_bytes` cuts `v` for `b` bytes, looking from character `c` on: the first
/// position whose preceding bytes (counted up to `usize::MAX`) reach `b`, if they make
/// exactly `b`.
pub open spec fn cut_from(v: Seq<char>, b: int, c: int) -> Option<int>
    decreases v.len() - c,
{
    if c < 0 || c > v.len() {
        None
    } else if sat(byte_len(v.take(c)) as int) < b && c < v.len() {
        cut_from(v, b, c + 1)
    } else if sat(byte_len(v.take(c)) as int) == b {
        Some(c)
    } else {
        None
    }
}

/// Whether the lowercased `text` begins with the lowercased `literal`.
pub open spec fn lower_prefix(text: Seq<char>, literal: Seq<char>) -> bool {
    crate::strs::lower_text(literal).len() <= crate::strs::lower_text(text).len()
        && crate::strs::lower_text(text).take(crate::strs::lower_text(literal).len() as int)
        == crate::strs::lower_text(literal)
}

/// Whether some token of the rule is a wildcard.
pub open spec fn has_wildcard_token(ot: Seq<TokenView>) -> bool {
    exists|x: int| 0 <= x < ot.len() && crate::rules::is_wildcard_token_view(#[trigger] ot[x])
}

/// The literal after token `t`, where it is a non-empty literal.
pub open spec fn next_literal_of(ot: Seq<TokenView>, t: int) -> Option<Seq<char>> {
    if t + 1 < ot.len() {
        match ot[t + 1] {
            TokenView::Literal(l) => if l.len() > 0 {
                Some(l)
            } else {
                None
            },
            TokenView::Reference(_) => None,
        }
    } else {
        None
    }
}

/// The matches of the ruleset or replacer `id` at the start of `text`, as the number of
/// characters each takes, in the order they are found. `cyc` holds the rules found to
/// recurse on themselves and `path` the rulesets being matched; rules of the ruleset
/// are tried in order, token by token, each candidate in turn, and a rule with a
/// wildcard keeps at most `MAX_WILDCARD_CANDIDATES` candidates after each token.
pub open spec fn match_ends(
    sets: RuleSetsView,
    reps: Seq<(Seq<char>, ReplacerKind)>,
    cyc: Seq<(Seq<char>, Seq<TokenView>)>,
    path: Seq<Seq<char>>,
    text: Seq<char>,
    id: Seq<char>,
    level: int,
) -> Seq<int>
    decreases MAX_RULE_DEPTH - level, 10nat, 0nat,
{
    if level >= MAX_RULE_DEPTH || level < 0 {
        seq![]
    } else if crate::rules::is_replacer_ref(id) {
        replace_ends(sets, reps, cyc, path, text, id, level, None, false)
    } else {
        match crate::ruleset::set_index(sets, id) {
            None => seq![],
            Some(k) => rules_ends(sets, reps, cyc, path.push(id), text, id, level, sets[k].1, sets[k].1.len() as int),
        }
    }
}

/// The matches of the first `n` rules, rule after rule.
pub open spec fn rules_ends(
    sets: RuleSetsView,
    reps: Seq<(Seq<char>, ReplacerKind)>,
    cyc: Seq<(Seq<char>, Seq<TokenView>)>,
    path: Seq<Seq<char>>,
    text: Seq<char>,
    id: Seq<char>,
    level: int,
    rules: Seq<crate::ruleset::RuleView>,
    n: int,
) -> Seq<int>
    decreases MAX_RULE_DEPTH - level, 9nat, n,
{
    if n <= 0 || n > rules.len() {
        seq![]
    } else {
        rules_ends(sets, reps, cyc, path, text, id, level, rules, n - 1) + candidates_after(
            sets,
            reps,
            cyc,
            path,
            text,
            id,
            level,
            rules[n - 1].0,
            rules[n - 1].0.len() as int,
        )
    }
}

/// The rule that made each of the matches `rules_ends` lists, by its place among the
/// first `n` rules.
pub open spec fn rules_order(
    sets: RuleSetsView,
    reps: Seq<(Seq<char>, ReplacerKind)>,
    cyc: Seq<(Seq<char>, Seq<TokenView>)>,
    path: Seq<Seq<char>>,
    text: Seq<char>,
    id: Seq<char>,
    level: int,
    rules: Seq<crate::ruleset::RuleView>,
    n: int,
) -> Seq<int>
    decreases n,
{
    if n <= 0 || n > rules.len() {
        seq![]
    } else {
        rules_order(sets, reps, cyc, path, text, id, level, rules, n - 1) + Seq::new(
            candidates_after(sets, reps, cyc, path, text, id, level, rules[n - 1].0, rules[n - 1].0.len() as int).len(),
            |_i: int| n - 1,
        )
    }
}

/// The rule of the ruleset `id` that made each of the matches `match_ends` lists.
pub open spec fn match_rules(
    sets: RuleSetsView,
    reps: Seq<(Seq<char>, ReplacerKind)>,
    cyc: Seq<(Seq<char>, Seq<TokenView>)>,
    path: Seq<Seq<char>>,
    text: Seq<char>,
    id: Seq<char>,
    level: int,
) -> Seq<int> {
    match crate::ruleset::set_index(sets, id) {
        Some(k) => rules_order(sets, reps, cyc, path.push(id), text, id, level, sets[k].1, sets[k].1.len() as int),
        None => seq![],
    }
}

/// As many rules are listed as matches.
proof fn lemma_rules_order_len(
    sets: RuleSetsView,
    reps: Seq<(Seq<char>, ReplacerKind)>,
    cyc: Seq<(Seq<char>, Seq<TokenView>)>,
    path: Seq<Seq<char>>,
    text: Seq<char>,
    id: Seq<char>,
    level: int,
    rules: Seq<crate::ruleset::RuleView>,
    n: int,
)
    ensures
        rules_order(sets, reps, cyc, path, text, id, level, rules, n).len() == rules_ends(
            sets,
            reps,
            cyc,
            path,
            text,
            id,
            level,
            rules,
            n,
        ).len(),
    decreases n,
{
    if 0 < n <= rules.len() {
        lemma_rules_order_len(sets, reps, cyc, path, text, id, level, rules, n - 1);
    }
}

/// The candidates of a rule after its first `t` tokens, as the characters taken so far.
pub open spec fn candidates_after(
    sets: RuleSetsView,
    reps: Seq<(Seq<char>, ReplacerKind)>,
    cyc: Seq<(Seq<char>, Seq<TokenView>)>,
    path: Seq<Seq<char>>,
    text: Seq<char>,
    id: Seq<char>,
    level: int,
    ot: Seq<TokenView>,
    t: int,
) -> Seq<int>
    decreases MAX_RULE_DEPTH - level, 8nat, t,
{
    if t <= 0 || t > ot.len() {
        seq![0int]
    } else {
        let prev = candidates_after(sets, reps, cyc, path, text, id, level, ot, t - 1);
        if prev.len() == 0 {
            prev
        } else {
            let next = step_ends(sets, reps, cyc, path, text, id, level, ot, t - 1, prev, prev.len() as int);
            if has_wildcard_token(ot) && next.len() > MAX_WILDCARD_CANDIDATES {
                next.take(MAX_WILDCARD_CANDIDATES as int)
            } else {
                next
            }
        }
    }
}

/// The candidates that token `t` makes of the first `n` candidates, in order.
pub open spec fn step_ends(
    sets: RuleSetsView,
    reps: Seq<(Seq<char>, ReplacerKind)>,
    cyc: Seq<(Seq<char>, Seq<TokenView>)>,
    path: Seq<Seq<char>>,
    text: Seq<char>,
    id: Seq<char>,
    level: int,
    ot: Seq<TokenView>,
    t: int,
    prev: Seq<int>,
    n: int,
) -> Seq<int>
    decreases MAX_RULE_DEPTH - level, 7nat, n,
{
    if n <= 0 || n > prev.len() {
        seq![]
    } else {
        step_ends(sets, reps, cyc, path, text, id, level, ot, t, prev, n - 1) + token_ends(
            sets,
            reps,
            cyc,
            path,
            text,
            id,
            level,
            ot,
            t,
            prev[n - 1],
        )
    }
}

/// The candidates that token `t` makes of the candidate that took `pos` characters: a
/// literal is matched up to case; a reference (unless its rule was found to recurse on
/// itself) by each match of the ruleset or replacer on the rest of the text, the rule
/// being marked as recursing while its ruleset is already being matched.
pub open spec fn token_ends(
    sets: RuleSetsView,
    reps: Seq<(Seq<char>, ReplacerKind)>,
    cyc: Seq<(Seq<char>, Seq<TokenView>)>,
    path: Seq<Seq<char>>,
    text: Seq<char>,
    id: Seq<char>,
    level: int,
    ot: Seq<TokenView>,
    t: int,
    pos: int,
) -> Seq<int>
    decreases MAX_RULE_DEPTH - level, 6nat, 0nat,
{
    if level >= MAX_RULE_DEPTH || level < 0 || t < 0 || t >= ot.len() || pos < 0 || pos > text.len() {
        seq![]
    } else {
        let rem = text.skip(pos);
        match ot[t] {
            TokenView::Literal(l) => if lower_prefix(rem, l) {
                match cut_from(rem, sat(byte_len(l) as int), 0) {
                    Some(k) => seq![pos + k],
                    None => seq![],
                }
            } else {
                seq![]
            },
            TokenView::Reference(r) => if cyc.contains((id, ot)) {
                seq![]
            } else {
                let cyc2 = if path.contains(r) {
                    cyc.push((id, ot))
                } else {
                    cyc
                };
                let sub = if crate::rules::is_replacer_ref(r) {
                    replace_ends(
                        sets,
                        reps,
                        cyc2,
                        path,
                        rem,
                        r,
                        level + 1,
                        next_literal_of(ot, t),
                        t + 1 == ot.len(),
                    )
                } else {
                    match_ends(sets, reps, cyc2, path, rem, r, level + 1)
                };
                shifted(sub, pos)
            },
        }
    }
}

/// The matches of the replacer `id` at the start of `text`, as characters taken.
pub open spec fn replace_ends(
    sets: RuleSetsView,
    reps: Seq<(Seq<char>, ReplacerKind)>,
    cyc: Seq<(Seq<char>, Seq<TokenView>)>,
    path: Seq<Seq<char>>,
    text: Seq<char>,
    id: Seq<char>,
    level: int,
    next_literal: Option<Seq<char>>,
    terminal: bool,
) -> Seq<int>
    decreases MAX_RULE_DEPTH - level, 5nat, 0nat,
{
    if level >= MAX_RULE_DEPTH || level < 0 {
        seq![]
    } else {
        match replacer_parts(id) {
            None => seq![],
            Some(parts) => match crate::replacer::lookup_replacer(reps, parts.0) {
                None => seq![],
                Some(ReplacerKind::Number) => Seq::new(
                    (crate::replacer::digits_end(text, 0) as nat),
                    |i: int| i + 1,
                ),
                Some(ReplacerKind::Word) => crate::replacer::word_ends(text, next_literal),
                Some(ReplacerKind::Any) => crate::replacer::any_ends(text, next_literal, terminal),
                Some(ReplacerKind::ItemDesignation) => designation_ends(
                    sets,
                    reps,
                    cyc,
                    path,
                    text,
                    crate::rules::canonical_identifier(parts.2, parts.1),
                    level + 1,
                ),
            },
        }
    }
}

/// The designation pairs of `text` in ascending order.
pub open spec fn ordered_designations(text: Seq<char>) -> Seq<crate::designation::PairView> {
    choose|s: Seq<crate::designation::PairView>|
        s.to_set() == crate::designation::designation_pairs(text) && crate::designation::pairs_sorted(s)
}

/// The item designation matches of `text`: for each designation pair in order, each
/// match of `reference` on the text after the prefix mark that the suffix mark follows.
pub open spec fn designation_ends(
    sets: RuleSetsView,
    reps: Seq<(Seq<char>, ReplacerKind)>,
    cyc: Seq<(Seq<char>, Seq<TokenView>)>,
    path: Seq<Seq<char>>,
    text: Seq<char>,
    reference: Seq<char>,
    level: int,
) -> Seq<int>
    decreases MAX_RULE_DEPTH - level, 4nat, 0nat,
{
    if level >= MAX_RULE_DEPTH || level < 0 {
        seq![]
    } else {
        let ps = ordered_designations(text);
        pairs_ends(sets, reps, cyc, path, text, reference, level, ps, ps.len() as int)
    }
}

/// The item designation matches for the first `n` pairs.
pub open spec fn pairs_ends(
    sets: RuleSetsView,
    reps: Seq<(Seq<char>, ReplacerKind)>,
    cyc: Seq<(Seq<char>, Seq<TokenView>)>,
    path: Seq<Seq<char>>,
    text: Seq<char>,
    reference: Seq<char>,
    level: int,
    ps: Seq<crate::designation::PairView>,
    n: int,
) -> Seq<int>
    decreases MAX_RULE_DEPTH - level, 3nat, n,
{
    if n <= 0 || n > ps.len() || level >= MAX_RULE_DEPTH || level < 0 {
        seq![]
    } else {
        let p = ps[n - 1];
        pairs_ends(sets, reps, cyc, path, text, reference, level, ps, n - 1) + if p.0.len() <= text.len()
            && text.take(p.0.len() as int) == p.0 {
            let inner = text.skip(p.0.len() as int);
            let sub = match_ends(sets, reps, cyc, path, inner, reference, level + 1);
            suffixed_ends(inner, p, sub, sub.len() as int)
        } else {
            seq![]
        }
    }
}

/// Of the first `n` matches of the inner text, those the suffix mark follows, as
/// characters taken with both marks.
pub open spec fn suffixed_ends(inner: Seq<char>, p: crate::designation::PairView, sub: Seq<int>, n: int) -> Seq<int>
    decreases n,
{
    if n <= 0 || n > sub.len() {
        seq![]
    } else {
        let e = sub[n - 1];
        let rem = inner.skip(e);
        suffixed_ends(inner, p, sub, n - 1) + if 0 <= e <= inner.len() && p.1.len() <= rem.len() && rem.take(
            p.1.len() as int,
        ) == p.1 {
            seq![p.0.len() + e + p.1.len()]
        } else {
            seq![]
        }
    }
}

/// Each of `s` moved on by `p`.
pub open spec fn shifted(s: Seq<int>, p: int) -> Seq<int> {
    Seq::new(s.len(), |i: int| p + s[i])
}

/// The characters each result took of `text`.
pub open spec fn taken(r: Seq<ResultTree>, text: Seq<char>) -> Seq<int> {
    r.map_values(|t: ResultTree| text.len() - t.remaining@.len())
}

/// The matches of the root ruleset at the start of `text`, from a fresh context, as
/// characters taken, in the order they are found.
pub open spec fn root_ends(sets: RuleSetsView, reps: Seq<(Seq<char>, ReplacerKind)>, text: Seq<char>) -> Seq<int> {
    match_ends(sets, reps, seq![], seq![], text, "::"@, 0)
}

/// Of the first `k` of `ends`, those kept: all of them for a partial match, else those
/// that take all `whole` characters.
pub open spec fn kept_ends(ends: Seq<int>, whole: int, partial: bool, k: int) -> Seq<int>
    decreases k,
{
    if k <= 0 || k > ends.len() {
        seq![]
    } else {
        kept_ends(ends, whole, partial, k - 1) + if partial || ends[k - 1] == whole {
            seq![ends[k - 1]]
        } else {
            seq![]
        }
    }
}

/// Of the first `k` rules in `rules`, those of the matches `kept_ends` keeps.
pub open spec fn kept_rules(rules: Seq<int>, ends: Seq<int>, whole: int, partial: bool, k: int) -> Seq<int>
    decreases k,
{
    if k <= 0 || k > ends.len() {
        seq![]
    } else {
        kept_rules(rules, ends, whole, partial, k - 1) + if partial || ends[k - 1] == whole {
            seq![rules[k - 1]]
        } else {
            seq![]
        }
    }
}

/// The root rule that made each of the matches `get_all_translations` returns.
pub open spec fn all_rules(sets: RuleSetsView, reps: Seq<(Seq<char>, ReplacerKind)>, text: Seq<char>, partial: bool) -> Seq<int> {
    let e = root_ends(sets, reps, text);
    kept_rules(match_rules(sets, reps, seq![], seq![], text, "::"@, 0), e, text.len() as int, partial, e.len() as int)
}

/// The characters taken by the matches that `get_all_translations` returns.
pub open spec fn all_ends(sets: RuleSetsView, reps: Seq<(Seq<char>, ReplacerKind)>, text: Seq<char>, partial: bool) -> Seq<int> {
    let e = root_ends(sets, reps, text);
    kept_ends(e, text.len() as int, partial, e.len() as int)
}

/// Whether the root ruleset matches the whole of `text` in some way.
pub open spec fn has_complete_match(sets: RuleSetsView, reps: Seq<(Seq<char>, ReplacerKind)>, text: Seq<char>) -> bool {
    all_ends(sets, reps, text, false).len() > 0
}

/// Whether the text begins with `%`.
fn is_replacer_text(s: &str) -> (r: bool)
    ensures
        r == crate::rules::is_replacer_ref(s@),
{
    let v = to_chars(s);
    v.len() >= 1 && v[0] == '%'
}

/// The characters each candidate took of `text`.
spec fn cand_taken(cs: Seq<Candidate>, text: Seq<char>) -> Seq<int> {
    cs.map_values(|c: Candidate| text.len() - c.remaining@.len())
}

/// A rule that has lost all its candidates gains none with more tokens.
proof fn lemma_candidates_stay_empty(
    sets: RuleSetsView,
    reps: Seq<(Seq<char>, ReplacerKind)>,
    cyc: Seq<(Seq<char>, Seq<TokenView>)>,
    path: Seq<Seq<char>>,
    text: Seq<char>,
    id: Seq<char>,
    level: int,
    ot: Seq<TokenView>,
    t: int,
    t2: int,
)
    requires
        1 <= t <= t2 <= ot.len(),
        candidates_after(sets, reps, cyc, path, text, id, level, ot, t).len() == 0,
    ensures
        candidates_after(sets, reps, cyc, path, text, id, level, ot, t2).len() == 0,
    decreases t2 - t,
{
    if t < t2 {
        lemma_candidates_stay_empty(sets, reps, cyc, path, text, id, level, ot, t, t2 - 1);
    }
}

impl Translator {
    /// Matches the start of `text` against every rule of the ruleset `identifier`, or
    /// against the replacer it names, and returns each match.
    fn do_translate(&self, context: &mut Context, text: &str, identifier: &str, level: usize, Ghost(b): Ghost<nat>) -> (r:
        Vec<ResultTree>)
        requires
            rules_wf(self.rulesets@),
        ensures
            results_ok(r@, text@, identifier@),
            results_derived(self.rulesets@, b, r@),
            final(context).capture_cache@ == old(context).capture_cache@,
            final(context).identifier_path@ == old(context).identifier_path@,
            nodes_view(final(context).cyclic_rules@) == nodes_view(old(context).cyclic_rules@),
            taken(r@, text@) == match_ends(
                self.rulesets@,
                self.replacers@,
                nodes_view(old(context).cyclic_rules@),
                texts_view(old(context).identifier_path@),
                text@,
                identifier@,
                level as int,
            ),
            level < MAX_RULE_DEPTH && !crate::rules::is_replacer_ref(identifier@) ==> r@.len() == match_rules(
                self.rulesets@,
                self.replacers@,
                nodes_view(old(context).cyclic_rules@),
                texts_view(old(context).identifier_path@),
                text@,
                identifier@,
                level as int,
            ).len(),
            forall|i: int|
                0 <= i < r@.len() && level < MAX_RULE_DEPTH && !crate::rules::is_replacer_ref(identifier@) ==> rule_used(
                    self.rulesets@,
                    #[trigger] r@[i],
                    match_rules(
                self.rulesets@,
                self.replacers@,
                nodes_view(old(context).cyclic_rules@),
                texts_view(old(context).identifier_path@),
                text@,
                identifier@,
                level as int,
            )[i],
                ),
            forall|j: int, k: int|
                level < MAX_RULE_DEPTH && !crate::rules::is_replacer_ref(identifier@) && #[trigger] prefix_rule_at(
                    self.rulesets@,
                    identifier@,
                    text@,
                    j,
                    k,
                ) ==> prefix_result(r@, self.rulesets@, text@, j, k),
            level < MAX_RULE_DEPTH && !crate::rules::is_replacer_ref(identifier@) && has_exact_rule(
                self.rulesets@,
                identifier@,
                text@,
            ) ==> exists|i: int|
                0 <= i < r@.len() && (#[trigger] r@[i]).remaining@.len() == 0 && !uses_wildcard(r@[i]),
        decreases MAX_RULE_DEPTH - level, 2nat,
    {
        if level >= MAX_RULE_DEPTH {
            return Vec::new();
        }
        if is_replacer_text(identifier) {
            return self.do_replace(context, text, identifier, level, ReplacerMatchHint { next_literal: None, terminal: false }, Ghost(b));
        }
        let ruleset = match self.rulesets.get(identifier) {
            Some(r) => r,
            None => return Vec::new(),
        };
        context.identifier_path.push(identifier.to_owned());
        let ghost path1 = context.identifier_path@;
        let ghost cyc_v = nodes_view(old(context).cyclic_rules@);
        let ghost path_v = texts_view(path1);
        proof {
            assert(path_v =~= texts_view(old(context).identifier_path@).push(identifier@));
        }
        let text_chars = to_chars(text);
        let mut results: Vec<ResultTree> = Vec::new();
        let mut j: usize = 0;
        while j < ruleset.rules.len()
            invariant
                context.capture_cache@ == old(context).capture_cache@,
                nodes_view(context.cyclic_rules@) == nodes_view(old(context).cyclic_rules@),
                context.identifier_path@ == path1,
                j <= ruleset.rules.len(),
                level < MAX_RULE_DEPTH,
                rules_wf(self.rulesets@),
                text_chars@ == text@,
                crate::ruleset::set_index(self.rulesets@, identifier@) is Some,
                ruleset@ == self.rulesets@[crate::ruleset::set_index(self.rulesets@, identifier@)->Some_0].1,
                results_ok(results@, text@, identifier@),
                results_derived(self.rulesets@, b, results@),
                !crate::rules::is_replacer_ref(identifier@),
                forall|jj: int, k: int|
                    0 <= jj < j && #[trigger] prefix_rule_at(self.rulesets@, identifier@, text@, jj, k)
                        ==> prefix_result(results@, self.rulesets@, text@, jj, k),
                cyc_v == nodes_view(old(context).cyclic_rules@),
                path_v == texts_view(path1),
                taken(results@, text@) == rules_ends(
                    self.rulesets@,
                    self.replacers@,
                    cyc_v,
                    path_v,
                    text@,
                    identifier@,
                    level as int,
                    ruleset@,
                    j as int,
                ),
                forall|x: int| 0 <= x < results@.len() ==> rule_used(self.rulesets@, #[trigger] results@[x], rules_order(self.rulesets@, self.replacers@, cyc_v, path_v, text@, identifier@, level as int, ruleset@, j as int)[x]),
            decreases ruleset.rules.len() - j,
        {
            let original = &ruleset.rules[j].0;
            let translated_tokens = &ruleset.rules[j].1;
            let ghost ot = tokens_view(original@);
            proof {
                crate::ruleset::lemma_set_index(self.rulesets@, identifier@);
                let k = crate::ruleset::set_index(self.rulesets@, identifier@)->Some_0;
                assert(ruleset@[j as int] == (ot, tokens_view(translated_tokens@)));
                assert(refs_covered(self.rulesets@[k].1[j as int].1, references(self.rulesets@[k].1[j as int].0)));
            }
            let ghost exact = exists|k: int| is_prefix_original(ot, text@, k);
            let ghost pk = choose|k: int| is_prefix_original(ot, text@, k);
            let mut has_wildcard = false;
            let mut w: usize = 0;
            while w < original.len()
                invariant
                    w <= original.len(),
                    ot == tokens_view(original@),
                    has_wildcard == exists|x: int| 0 <= x < w && crate::rules::is_wildcard_token_view(#[trigger] ot[x]),
                decreases original.len() - w,
            {
                assert(ot[w as int] == original@[w as int]@);
                if is_wildcard_token(&original[w]) {
                    has_wildcard = true;
                }
                w += 1;
            }
            assert(has_wildcard == has_wildcard_token(ot));
            let mut candidates: Vec<Candidate> = Vec::new();
            candidates.push(Candidate { results: Vec::new(), remaining: text.to_owned() });
            proof {
                assert(text@.skip(0) =~= text@);
                assert(child_keys(candidates@[0].results@) =~= Seq::<Seq<char>>::empty());
                assert(cand_taken(candidates@, text@) =~= seq![0int]);
            }
            let mut t: usize = 0;
            while t < original.len()
                invariant
                    context.capture_cache@ == old(context).capture_cache@,
                    nodes_view(context.cyclic_rules@) == nodes_view(old(context).cyclic_rules@),
                    context.identifier_path@ == path1,
                    t <= original.len(),
                    level < MAX_RULE_DEPTH,
                    rules_wf(self.rulesets@),
                    ot == tokens_view(original@),
                    forall|c: int| 0 <= c < candidates@.len() ==> candidate_ok(#[trigger] candidates@[c], text@, ot, t as int, self.rulesets@, b),
                    exact ==> is_prefix_original(ot, text@, pk),
                    exact ==> !has_wildcard,
                    ot.len() == original@.len(),
                    exact && t == 0 ==> candidates@.len() == 1 && candidates@[0].remaining@ == text@
                        && candidates@[0].results@.len() == 0,
                    exact && t > 0 ==> exists|c: int|
                        0 <= c < candidates@.len() && (#[trigger] candidates@[c]).remaining@ == text@.skip(pk)
                            && candidates@[c].results@.len() == 0,
                    cyc_v == nodes_view(old(context).cyclic_rules@),
                    path_v == texts_view(path1),
                    has_wildcard == has_wildcard_token(ot),
                    cand_taken(candidates@, text@) == candidates_after(self.rulesets@, self.replacers@, cyc_v, path_v, text@, identifier@, level as int, ot, t as int),
                ensures
                    cand_taken(candidates@, text@) == candidates_after(self.rulesets@, self.replacers@, cyc_v, path_v, text@, identifier@, level as int, ot, ot.len() as int),
                    forall|c: int| 0 <= c < candidates@.len() ==> candidate_ok(#[trigger] candidates@[c], text@, ot, ot.len() as int, self.rulesets@, b),
                    exact ==> exists|c: int|
                        0 <= c < candidates@.len() && (#[trigger] candidates@[c]).remaining@ == text@.skip(pk)
                            && candidates@[c].results@.len() == 0,
                decreases original.len() - t,
            {
                if candidates.len() == 0 {
                    proof {
                        assert(cand_taken(candidates@, text@).len() == 0);
                        if t == 0 {
                            assert(candidates_after(self.rulesets@, self.replacers@, cyc_v, path_v, text@, identifier@, level as int, ot, 0).len() == 1);
                        }
                        lemma_candidates_stay_empty(self.rulesets@, self.replacers@, cyc_v, path_v, text@, identifier@, level as int, ot, t as int, ot.len() as int);
                        assert(cand_taken(candidates@, text@) =~= candidates_after(self.rulesets@, self.replacers@, cyc_v, path_v, text@, identifier@, level as int, ot, ot.len() as int));
                    }
                    break;
                }
                let ghost prevseq = cand_taken(candidates@, text@);
                let mut next: Vec<Candidate> = Vec::new();
                let mut ci: usize = 0;
                while ci < candidates.len()
                    invariant
                        context.capture_cache@ == old(context).capture_cache@,
                        nodes_view(context.cyclic_rules@) == nodes_view(old(context).cyclic_rules@),
                        context.identifier_path@ == path1,
                        ci <= candidates.len(),
                        t < original.len(),
                        level < MAX_RULE_DEPTH,
                        rules_wf(self.rulesets@),
                        ot == tokens_view(original@),
                        forall|c: int| 0 <= c < candidates@.len() ==> candidate_ok(#[trigger] candidates@[c], text@, ot, t as int, self.rulesets@, b),
                        forall|c: int| 0 <= c < next@.len() ==> candidate_ok(#[trigger] next@[c], text@, ot, t + 1, self.rulesets@, b),
                        exact ==> is_prefix_original(ot, text@, pk),
                        exact && t == 0 ==> candidates@.len() == 1 && candidates@[0].remaining@ == text@
                            && candidates@[0].results@.len() == 0,
                        exact && t == 0 && ci > 0 ==> exists|c: int|
                            0 <= c < next@.len() && (#[trigger] next@[c]).remaining@ == text@.skip(pk)
                                && next@[c].results@.len() == 0,
                        cyc_v == nodes_view(old(context).cyclic_rules@),
                        path_v == texts_view(path1),
                        prevseq == cand_taken(candidates@, text@),
                        cand_taken(next@, text@) == step_ends(self.rulesets@, self.replacers@, cyc_v, path_v, text@, identifier@, level as int, ot, t as int, prevseq, ci as int),
                    decreases candidates.len() - ci,
                {
                    let c = &candidates[ci];
                    assert(candidate_ok(candidates@[ci as int], text@, ot, t as int, self.rulesets@, b));
                    let ghost pos = text@.len() - c.remaining@.len();
                    let ghost te = token_ends(self.rulesets@, self.replacers@, cyc_v, path_v, text@, identifier@, level as int, ot, t as int, pos);
                    let ghost before_next = cand_taken(next@, text@);
                    proof {
                        assert(prevseq[ci as int] == pos);
                        assert(text@.skip(pos) == c.remaining@);
                        assert(step_ends(self.rulesets@, self.replacers@, cyc_v, path_v, text@, identifier@, level as int, ot, t as int, prevseq, ci + 1)
                            == before_next + te);
                    }
                    match &original[t] {
                        Token::Literal(literal) => {
                            proof {
                                if exact && t == 0 {
                                    assert(ot[0] == TokenView::Literal(literal@));
                                }
                            }
                            if lowercase_starts_with(c.remaining.as_str(), literal.as_str()) {
                                let rem = to_chars(c.remaining.as_str());
                                let bytes = str_byte_len(literal.as_str());
                                proof {
                                    if exact && t == 0 {
                                        assert(c.remaining@ == text@);
                                        assert(bytes == byte_len(literal@));
                                        assert(byte_len(rem@.take(pk)) == bytes);
                                    }
                                }
                                match cut_at_bytes(&rem, bytes) {
                                    Some(k) => {
                                        let remaining = string_of(&rem, k, rem.len());
                                        let results = duplicate_children(&c.results);
                                        let nc = Candidate { results, remaining };
                                        proof {
                                            let tl = text@.len();
                                            let rl = rem@.len();
                                            assert(remaining@ =~= rem@.skip(k as int));
                                            assert(text@.skip(tl - (rl - k)) =~= text@.skip(tl - rl).skip(k as int));
                                            assert forall|i: int|
                                                #![trigger ot[i]]
                                                0 <= i < t + 1 implies (ot[i] matches TokenView::Reference(r) ==> child_keys(nc.results@).contains(r)) by {
                                                if i < t {
                                                } else {
                                                    assert(ot[i] == TokenView::Literal(literal@));
                                                }
                                            }
                                        }
                                        next.push(nc);
                                        proof {
                                            if exact && t == 0 {
                                                assert(k == pk);
                                                assert(next@[next@.len() - 1].remaining@ == text@.skip(pk));
                                                assert(next@[next@.len() - 1].results@.len() == 0);
                                            }
                                            assert(te == seq![pos + k]);
                                            assert(cand_taken(next@, text@) =~= before_next + te);
                                        }
                                    },
                                    None => {
                                        proof {
                                            assert(te =~= seq![]);
                                            assert(cand_taken(next@, text@) =~= before_next + te);
                                        }
                                    },
                                }
                            } else {
                                proof {
                                    assert(te =~= seq![]);
                                    assert(cand_taken(next@, text@) =~= before_next + te);
                                }
                            }
                        },
                        Token::Reference(reference) => {
                            let ghost node = (identifier@, tokens_view(original@));
                            let ghost cyc0 = nodes_view(context.cyclic_rules@);
                            if context.is_cyclic(identifier, original) {
                                proof {
                                    assert(te =~= seq![]);
                                    assert(cand_taken(next@, text@) =~= before_next + te);
                                }
                                ci += 1;
                                continue;
                            }
                            let in_path = contains_text(&context.identifier_path, reference.as_str());
                            if in_path {
                                context.mark_cyclic(identifier, original);
                            }
                            let ghost cyc1 = nodes_view(context.cyclic_rules@);
                            assert(cyc1 == cyc0 || cyc1 == cyc0.push(node));
                            assert(cyc1 == if path_v.contains(reference@) { cyc_v.push(node) } else { cyc_v });
                            let trees = if is_replacer_text(reference.as_str()) {
                                let next_literal = if t + 1 < original.len() {
                                    match &original[t + 1] {
                                        Token::Literal(l) => if l.as_str().is_empty() {
                                            None
                                        } else {
                                            Some(l.as_str())
                                        },
                                        Token::Reference(_) => None,
                                    }
                                } else {
                                    None
                                };
                                let hint = ReplacerMatchHint {
                                    next_literal,
                                    terminal: t + 1 == original.len(),
                                };
                                proof {
                                    if t + 1 < original.len() {
                                        assert(ot[t + 1] == original@[t + 1]@);
                                    }
                                    assert(crate::replacer::opt_str(hint.next_literal) == next_literal_of(ot, t as int));
                                }
                                self.do_replace(context, c.remaining.as_str(), reference.as_str(), level + 1, hint, Ghost(b))
                            } else {
                                self.do_translate(context, c.remaining.as_str(), reference.as_str(), level + 1, Ghost(b))
                            };
                            context.unmark_cyclic(identifier, original);
                            proof {
                                if cyc1.contains(node) {
                                    assert(cyc1 == cyc0.push(node));
                                    let i = choose|i: int|
                                        0 <= i < cyc1.len() && #[trigger] cyc1[i] == node && (forall|j: int|
                                            0 <= j < i ==> cyc1[j] != node) && nodes_view(context.cyclic_rules@)
                                            == cyc1.remove(i);
                                    if i < cyc0.len() {
                                        assert(cyc0[i] == node);
                                        assert(cyc0.contains(node));
                                    }
                                    assert(cyc1.remove(i) =~= cyc0);
                                } else {
                                    if cyc1 != cyc0 {
                                        assert(cyc1[cyc0.len() as int] == node);
                                    }
                                    assert(cyc1 == cyc0);
                                }
                            }
                            let ghost sub = taken(trees@, c.remaining@);
                            let ghost base = cand_taken(next@, text@);
                            proof {
                                assert(sub == if crate::rules::is_replacer_ref(reference@) {
                                    replace_ends(self.rulesets@, self.replacers@, cyc1, path_v, c.remaining@, reference@, level + 1, next_literal_of(ot, t as int), t + 1 == ot.len())
                                } else {
                                    match_ends(self.rulesets@, self.replacers@, cyc1, path_v, c.remaining@, reference@, level + 1)
                                });
                                assert(te == shifted(sub, pos));
                                assert(shifted(sub.take(0), pos) =~= seq![]);
                                assert(base + shifted(sub.take(0), pos) =~= base);
                            }
                            let mut m: usize = 0;
                            while m < trees.len()
                                invariant
                                    m <= trees.len(),
                                    sub == taken(trees@, c.remaining@),
                                    pos == text@.len() - c.remaining@.len(),
                                    cand_taken(next@, text@) == base + shifted(sub.take(m as int), pos),
                                    ci < candidates.len(),
                                    t < original.len(),
                                    c == &candidates[ci as int],
                                    ot == tokens_view(original@),
                                    ot[t as int] == TokenView::Reference(reference@),
                                    candidate_ok(*c, text@, ot, t as int, self.rulesets@, b),
                                    results_ok(trees@, c.remaining@, reference@),
                                    results_derived(self.rulesets@, b, trees@),
                                    forall|c: int| 0 <= c < next@.len() ==> candidate_ok(#[trigger] next@[c], text@, ot, t + 1, self.rulesets@, b),
                                decreases trees.len() - m,
                            {
                                let tree = trees[m].duplicate();
                                assert(sound(trees@[m as int], c.remaining@));
                                let mut results = duplicate_children(&c.results);
                                let remaining = tree.remaining.clone();
                                let key = tree.identifier.clone();
                                assert(derived(self.rulesets@, b, trees@[m as int]));
                                insert_child(&mut results, key, tree, Ghost(self.rulesets@), Ghost(b));
                                let nc = Candidate { results, remaining };
                                proof {
                                    let rem = c.remaining@;
                                    let tm = trees@[m as int].matched@;
                                    let tr = trees@[m as int].remaining@;
                                    assert(tm + tr == rem);
                                    let tl = text@.len();
                                    assert(tr =~= rem.skip(tm.len() as int));
                                    assert(text@.skip(tl - tr.len()) =~= text@.skip(tl - rem.len()).skip(tm.len() as int));
                                    assert forall|i: int|
                                        #![trigger ot[i]]
                                        0 <= i < t + 1 implies (ot[i] matches TokenView::Reference(r) ==> child_keys(nc.results@).contains(r)) by {
                                        if i < t {
                                            if let TokenView::Reference(r) = ot[i] {
                                                assert(child_keys(c.results@).contains(r));
                                            }
                                        }
                                    }
                                }
                                let ghost next_before = next@;
                                next.push(nc);
                                proof {
                                    assert(nc.remaining@ == trees@[m as int].remaining@);
                                    assert(cand_taken(next@, text@) =~= cand_taken(next_before, text@).push(text@.len() - nc.remaining@.len()));
                                    assert(shifted(sub.take(m + 1), pos) =~= shifted(sub.take(m as int), pos).push(pos + sub[m as int]));
                                    assert(cand_taken(next@, text@) =~= base + shifted(sub.take(m + 1), pos));
                                }
                                m += 1;
                            }
                            proof {
                                assert(sub.take(sub.len() as int) =~= sub);
                                assert(cand_taken(next@, text@) =~= before_next + te);
                            }
                        },
                    }
                    ci += 1;
                }
                proof {
                    if exact {
                        assert(ot.len() == 1);
                        assert(tokens_view(original@).len() == original@.len());
                        assert(original@.len() == 1);
                        assert(t == 0);
                        assert(ci > 0);
                        assert(exists|c: int| 0 <= c < next@.len() && (#[trigger] next@[c]).remaining@ == text@.skip(pk) && next@[c].results@.len() == 0);
                    }
                }
                let ghost full = next@;
                proof {
                    assert(cand_taken(full, text@) == step_ends(self.rulesets@, self.replacers@, cyc_v, path_v, text@, identifier@, level as int, ot, t as int, prevseq, prevseq.len() as int));
                }
                if has_wildcard && next.len() > MAX_WILDCARD_CANDIDATES {
                    next.truncate(MAX_WILDCARD_CANDIDATES);
                    proof {
                        assert(cand_taken(next@, text@) =~= cand_taken(full, text@).take(MAX_WILDCARD_CANDIDATES as int));
                    }
                }
                proof {
                    assert(cand_taken(next@, text@) == candidates_after(self.rulesets@, self.replacers@, cyc_v, path_v, text@, identifier@, level as int, ot, t + 1));
                }
                candidates = next;
                t += 1;
            }
            proof {
                assert(cand_taken(candidates@, text@).take(0) =~= seq![]);
                assert(taken(results@, text@) =~= rules_ends(self.rulesets@, self.replacers@, cyc_v, path_v, text@, identifier@, level as int, ruleset@, j as int) + cand_taken(candidates@, text@).take(0));
            }
            let ghost ord = rules_order(self.rulesets@, self.replacers@, cyc_v, path_v, text@, identifier@, level as int, ruleset@, j as int);
            proof {
                lemma_rules_order_len(self.rulesets@, self.replacers@, cyc_v, path_v, text@, identifier@, level as int, ruleset@, j as int);
            }
            let mut ci: usize = 0;
            while ci < candidates.len()
                invariant
                    ci <= candidates.len(),
                    ord == rules_order(self.rulesets@, self.replacers@, cyc_v, path_v, text@, identifier@, level as int, ruleset@, j as int),
                    ord.len() + ci == results@.len(),
                    forall|x: int| 0 <= x < results@.len() ==> rule_used(
                        self.rulesets@,
                        #[trigger] results@[x],
                        if x < ord.len() { ord[x] } else { j as int },
                    ),
                    taken(results@, text@) == rules_ends(self.rulesets@, self.replacers@, cyc_v, path_v, text@, identifier@, level as int, ruleset@, j as int) + cand_taken(candidates@, text@).take(ci as int),
                    rules_wf(self.rulesets@),
                    text_chars@ == text@,
                    ot == tokens_view(original@),
                    refs_covered(tokens_view(translated_tokens@), references(ot)),
                    forall|c: int| 0 <= c < candidates@.len() ==> candidate_ok(#[trigger] candidates@[c], text@, ot, ot.len() as int, self.rulesets@, b),
                    results_ok(results@, text@, identifier@),
                    results_derived(self.rulesets@, b, results@),
                    crate::ruleset::set_index(self.rulesets@, identifier@) is Some,
                    self.rulesets@[crate::ruleset::set_index(self.rulesets@, identifier@)->Some_0].1[j as int] == (
                        ot,
                        tokens_view(translated_tokens@),
                    ),
                    j < self.rulesets@[crate::ruleset::set_index(self.rulesets@, identifier@)->Some_0].1.len(),
                    !crate::rules::is_replacer_ref(identifier@),
                    forall|jj: int, k: int|
                        0 <= jj < j && #[trigger] prefix_rule_at(self.rulesets@, identifier@, text@, jj, k)
                            ==> prefix_result(results@, self.rulesets@, text@, jj, k),
                    exact ==> is_prefix_original(ot, text@, pk),
                    (exists|c: int|
                        0 <= c < ci && (#[trigger] candidates@[c]).remaining@ == text@.skip(pk)
                            && candidates@[c].results@.len() == 0) ==> prefix_result(
                        results@,
                        self.rulesets@,
                        text@,
                        j as int,
                        pk,
                    ),
                decreases candidates.len() - ci,
            {
                let c = &candidates[ci];
                let rem = to_chars(c.remaining.as_str());
                let n = text_chars.len();
                let matched = string_of(&text_chars, 0, n - rem.len());
                let children = duplicate_children(&c.results);
                proof {
                    assert(candidate_ok(candidates@[ci as int], text@, ot, ot.len() as int, self.rulesets@, b));
                    assert forall|i: int|
                        #![trigger tokens_view(translated_tokens@)[i]]
                        0 <= i < tokens_view(translated_tokens@).len() implies (tokens_view(translated_tokens@)[i] matches TokenView::Reference(r) ==> child_keys(children@).contains(r)) by {
                        if let TokenView::Reference(r) = tokens_view(translated_tokens@)[i] {
                            lemma_references(ot, r);
                            let x = choose|x: int| 0 <= x < ot.len() && ot[x] == TokenView::Reference(r);
                            assert(ot[x] == TokenView::Reference(r));
                        }
                    }
                }
                let translated = compose_translation(translated_tokens, &children, identifier);
                let tree = ResultTree::new(
                    identifier.to_owned(),
                    tokens_text(original),
                    matched,
                    translated,
                    c.remaining.clone(),
                    children,
                    copy_tokens(original),
                    copy_tokens(translated_tokens),
                );
                proof {
                    assert(text_chars@.subrange(0, n - rem@.len()) + rem@ =~= text@);
                    lemma_tree_wf_intro(tree);
                    assert(rule_used(self.rulesets@, tree, j as int));
                    lemma_derived_intro(self.rulesets@, b, tree);
                }
                let ghost before = results@;
                let ghost cand_empty = candidates@[ci as int].remaining@ == text@.skip(pk) && candidates@[ci as int].results@.len() == 0;
                proof {
                    if cand_empty {
                        assert(tree.children@.len() == 0);
                        assert(crate::rules::replacer_name_of(tree.identifier@) is None);
                        assert(children_score(tree, 0) == (0nat, 0nat, 0nat, 0nat));
                        assert(!uses_wildcard(tree));
                    }
                }
                results.push(tree);
                proof {
                    assert(results@ == before.push(tree));
                    assert(tree.remaining@ == c.remaining@);
                    assert(taken(results@, text@) =~= taken(before, text@).push(text@.len() - tree.remaining@.len()));
                    assert(cand_taken(candidates@, text@).take(ci + 1) =~= cand_taken(candidates@, text@).take(ci as int).push(
                        cand_taken(candidates@, text@)[ci as int],
                    ));
                    assert(taken(results@, text@) =~= rules_ends(self.rulesets@, self.replacers@, cyc_v, path_v, text@, identifier@, level as int, ruleset@, j as int) + cand_taken(candidates@, text@).take(ci + 1));
                    assert forall|x: int| 0 <= x < results@.len() implies rule_used(
                        self.rulesets@,
                        #[trigger] results@[x],
                        if x < ord.len() { ord[x] } else { j as int },
                    ) by {
                        if x < before.len() {
                            assert(results@[x] == before[x]);
                        }
                    }
                    assert forall|i: int| 0 <= i < before.len() implies results@[i] == before[i] by {}
                    assert forall|i: int| 0 <= i < results@.len() implies #[trigger] derived(self.rulesets@, b, results@[i]) by {
                        if i < before.len() {
                            assert(results@[i] == before[i]);
                        }
                    }
                    assert forall|jj: int, k: int|
                        0 <= jj < j && #[trigger] prefix_rule_at(self.rulesets@, identifier@, text@, jj, k) implies prefix_result(
                        results@,
                        self.rulesets@,
                        text@,
                        jj,
                        k,
                    ) by {
                        lemma_prefix_result_push(before, tree, self.rulesets@, text@, jj, k);
                    }
                    if exists|c: int|
                        0 <= c < ci + 1 && (#[trigger] candidates@[c]).remaining@ == text@.skip(pk)
                            && candidates@[c].results@.len() == 0 {
                        if cand_empty {
                            assert(results@[results@.len() - 1] == tree);
                            assert(prefix_result(results@, self.rulesets@, text@, j as int, pk));
                        } else {
                            lemma_prefix_result_push(before, tree, self.rulesets@, text@, j as int, pk);
                        }
                    }
                }
                ci += 1;
            }
            proof {
                assert forall|jj: int, k: int|
                    0 <= jj < j + 1 && #[trigger] prefix_rule_at(self.rulesets@, identifier@, text@, jj, k) implies prefix_result(
                    results@,
                    self.rulesets@,
                    text@,
                    jj,
                    k,
                ) by {
                    if jj == j {
                        assert(is_prefix_original(ot, text@, k));
                        assert(exact);
                        lemma_prefix_unique(ot, text@, k, pk);
                    }
                }
                assert(cand_taken(candidates@, text@).take(candidates@.len() as int) =~= cand_taken(candidates@, text@));
                assert(ruleset@[j as int].0 == ot);
                let ord1 = rules_order(self.rulesets@, self.replacers@, cyc_v, path_v, text@, identifier@, level as int, ruleset@, j + 1);
                assert(ord1 == ord + Seq::new(
                    candidates_after(self.rulesets@, self.replacers@, cyc_v, path_v, text@, identifier@, level as int, ot, ot.len() as int).len(),
                    |_i: int| j as int,
                ));
                assert forall|x: int| 0 <= x < results@.len() implies rule_used(self.rulesets@, #[trigger] results@[x], ord1[x]) by {
                    if x >= ord.len() {
                        assert(ord1[x] == j as int);
                    }
                }
                assert(rules_ends(self.rulesets@, self.replacers@, cyc_v, path_v, text@, identifier@, level as int, ruleset@, j + 1)
                    == rules_ends(self.rulesets@, self.replacers@, cyc_v, path_v, text@, identifier@, level as int, ruleset@, j as int) + candidates_after(self.rulesets@, self.replacers@, cyc_v, path_v, text@, identifier@, level as int, ot, ot.len() as int));
            }
            j += 1;
        }
        proof {
            assert forall|jj: int, k: int| #[trigger] prefix_rule_at(self.rulesets@, identifier@, text@, jj, k) implies prefix_result(
                results@,
                self.rulesets@,
                text@,
                jj,
                k,
            ) by {
                assert(0 <= jj < ruleset.rules.len());
            }
            if has_exact_rule(self.rulesets@, identifier@, text@) {
                let jj = choose|jj: int| exact_rule_at(self.rulesets@, identifier@, text@, jj);
                lemma_exact_is_prefix(self.rulesets@, identifier@, text@, jj);
                assert(prefix_result(results@, self.rulesets@, text@, jj, text@.len() as int));
                assert(text@.skip(text@.len() as int).len() == 0);
            }
        }
        proof {
            assert(j as int == ruleset@.len());
            lemma_rules_order_len(self.rulesets@, self.replacers@, cyc_v, path_v, text@, identifier@, level as int, ruleset@, j as int);
            assert(taken(results@, text@) == match_ends(
                self.rulesets@,
                self.replacers@,
                nodes_view(old(context).cyclic_rules@),
                texts_view(old(context).identifier_path@),
                text@,
                identifier@,
                level as int,
            ));
        }
        context.identifier_path.pop();
        assert(context.identifier_path@ =~= old(context).identifier_path@);
        results
    }

    /// Matches the start of `text` with the replacer that `identifier`
    /// (`%name:base:config`) names.
    fn do_replace(
        &self,
        context: &mut Context,
        text: &str,
        identifier: &str,
        level: usize,
        hint: ReplacerMatchHint<'_>,
        Ghost(b): Ghost<nat>,
    ) -> (r: Vec<ResultTree>)
        requires
            rules_wf(self.rulesets@),
            crate::rules::is_replacer_ref(identifier@),
        ensures
            results_ok(r@, text@, identifier@),
            results_derived(self.rulesets@, b, r@),
            final(context).capture_cache@ == old(context).capture_cache@,
            final(context).identifier_path@ == old(context).identifier_path@,
            nodes_view(final(context).cyclic_rules@) == nodes_view(old(context).cyclic_rules@),
            taken(r@, text@) == replace_ends(
                self.rulesets@,
                self.replacers@,
                nodes_view(old(context).cyclic_rules@),
                texts_view(old(context).identifier_path@),
                text@,
                identifier@,
                level as int,
                crate::replacer::opt_str(hint.next_literal),
                hint.terminal,
            ),
            level >= MAX_RULE_DEPTH || replacer_parts(identifier@) is None ==> r@.len() == 0,
            level < MAX_RULE_DEPTH ==> match replacer_parts(identifier@) {
                None => true,
                Some(parts) => match crate::replacer::lookup_replacer(self.replacers@, parts.0) {
                    None => r@.len() == 0,
                    Some(ReplacerKind::Number) => crate::replacer::captures_at(
                        r@,
                        identifier@,
                        text@,
                        Seq::new((crate::replacer::digits_end(text@, 0) as nat), |i: int| i + 1),
                    ),
                    Some(ReplacerKind::Word) => crate::replacer::captures_at(
                        r@,
                        identifier@,
                        text@,
                        crate::replacer::word_ends(text@, crate::replacer::opt_str(hint.next_literal)),
                    ),
                    Some(ReplacerKind::Any) => crate::replacer::captures_at(
                        r@,
                        identifier@,
                        text@,
                        crate::replacer::any_ends(
                            text@,
                            crate::replacer::opt_str(hint.next_literal),
                            hint.terminal,
                        ),
                    ),
                    Some(ReplacerKind::ItemDesignation) => {
                        &&& designation_results(
                            r@,
                            identifier@,
                            crate::rules::canonical_identifier(parts.2, parts.1),
                            text@,
                        )
                        &&& (level + 2 < MAX_RULE_DEPTH && !crate::rules::is_replacer_ref(
                            crate::rules::canonical_identifier(parts.2, parts.1),
                        ) && has_exact_rule(
                            self.rulesets@,
                            crate::rules::canonical_identifier(parts.2, parts.1),
                            text@,
                        ) ==> exists|i: int| 0 <= i < r@.len() && (#[trigger] r@[i]).remaining@.len() == 0)
                    },
                },
            },
        decreases MAX_RULE_DEPTH - level, 1nat,
    {
        if level >= MAX_RULE_DEPTH {
            return Vec::new();
        }
        let id = to_chars(identifier);
        if id.len() == 0 {
            return Vec::new();
        }
        let body = slice_chars(&id, 1, id.len());
        assert(body@ =~= id@.skip(1));
        let colon = vec![':'];
        assert(colon@ =~= seq![':']);
        let first_colon = match crate::strs::find_at(&body, &colon, 0) {
            Some(k) => k,
            None => return Vec::new(),
        };
        proof {
            crate::strs::lemma_find_from(body@, colon@, 0);
        }
        let name = string_from_chars(&slice_chars(&body, 0, first_colon));
        let rest = slice_chars(&body, first_colon + 1, body.len());
        assert(rest@ =~= body@.skip(first_colon + 1));
        assert(name@ =~= body@.take(first_colon as int));
        let (base_namespace, config) = match crate::strs::find_at(&rest, &colon, 0) {
            Some(j) => {
                proof {
                    crate::strs::lemma_find_from(rest@, colon@, 0);
                }
                let base = string_from_chars(&slice_chars(&rest, 0, j));
                let conf = string_from_chars(&slice_chars(&rest, j + 1, rest.len()));
                assert(base@ =~= rest@.take(j as int));
                assert(conf@ =~= rest@.skip(j + 1));
                (base, conf)
            },
            None => {
                let base = string_from_chars(&rest);
                let conf = String::new();
                assert(conf@ =~= Seq::<char>::empty());
                (base, conf)
            },
        };
        assert(replacer_parts(identifier@) == Some((name@, base_namespace@, config@)));
        let kind = match self.replacers.get(name.as_str()) {
            Some(k) => k,
            None => return Vec::new(),
        };
        let results = match kind {
            ReplacerKind::Number => NumberReplacer {}.replace(identifier, text),
            ReplacerKind::Word => WordReplacer {}.replace(identifier, text, hint),
            ReplacerKind::Any => AnyReplacer {}.replace(identifier, text, hint),
            ReplacerKind::ItemDesignation => {
                return self.replace_item_designation(
                    context,
                    identifier,
                    base_namespace.as_str(),
                    config.as_str(),
                    text,
                    level + 1,
                    Ghost(b),
                );
            },
        };
        proof {
            assert forall|i: int| 0 <= i < results@.len() implies sound(#[trigger] results@[i], text@)
                && results@[i].identifier@ == identifier@ && tree_wf(results@[i]) by {
                let t = results@[i];
                assert(t.matched@ + t.remaining@ =~= text@);
            }
            assert forall|i: int| 0 <= i < results@.len() implies #[trigger] derived(self.rulesets@, b, results@[i]) by {
                lemma_derived_intro(self.rulesets@, b, results@[i]);
            }
            let ends = replace_ends(
                self.rulesets@,
                self.replacers@,
                nodes_view(old(context).cyclic_rules@),
                texts_view(old(context).identifier_path@),
                text@,
                identifier@,
                level as int,
                crate::replacer::opt_str(hint.next_literal),
                hint.terminal,
            );
            assert(results@.len() == ends.len());
            assert forall|i: int| 0 <= i < ends.len() implies #[trigger] taken(results@, text@)[i] == ends[i] by {
                assert(crate::replacer::is_capture(results@[i], identifier@, text@, ends[i]));
            }
            assert(taken(results@, text@) =~= ends);
        }
        results
    }

    /// Matches item designations at the start of `text`: for each pair of marks the
    /// inner text is matched against the ruleset that `config` names, and must be
    /// followed by the suffix mark.
    fn replace_item_designation(
        &self,
        context: &mut Context,
        identifier: &str,
        base_namespace: &str,
        config: &str,
        text: &str,
        level: usize,
        Ghost(b): Ghost<nat>,
    ) -> (r: Vec<ResultTree>)
        requires
            rules_wf(self.rulesets@),
            crate::rules::is_replacer_ref(identifier@),
        ensures
            results_ok(r@, text@, identifier@),
            results_derived(self.rulesets@, b, r@),
            final(context).capture_cache@ == old(context).capture_cache@,
            final(context).identifier_path@ == old(context).identifier_path@,
            nodes_view(final(context).cyclic_rules@) == nodes_view(old(context).cyclic_rules@),
            level >= MAX_RULE_DEPTH ==> r@.len() == 0,
            taken(r@, text@) == designation_ends(
                self.rulesets@,
                self.replacers@,
                nodes_view(old(context).cyclic_rules@),
                texts_view(old(context).identifier_path@),
                text@,
                crate::rules::canonical_identifier(config@, base_namespace@),
                level as int,
            ),
            designation_results(
                r@,
                identifier@,
                crate::rules::canonical_identifier(config@, base_namespace@),
                text@,
            ),
            level + 1 < MAX_RULE_DEPTH && !crate::rules::is_replacer_ref(
                crate::rules::canonical_identifier(config@, base_namespace@),
            ) && has_exact_rule(
                self.rulesets@,
                crate::rules::canonical_identifier(config@, base_namespace@),
                text@,
            ) ==> exists|i: int| 0 <= i < r@.len() && (#[trigger] r@[i]).remaining@.len() == 0,
        decreases MAX_RULE_DEPTH - level, 0nat,
    {
        if level >= MAX_RULE_DEPTH {
            return Vec::new();
        }
        let reference = crate::rules::to_canonical_identifier(config, base_namespace);
        let chars = to_chars(text);
        let pairs = crate::designation::match_item_designation(text);
        let ghost empty_pair = (Seq::<char>::empty(), Seq::<char>::empty());
        let ghost exact = level + 1 < MAX_RULE_DEPTH && !crate::rules::is_replacer_ref(reference@)
            && has_exact_rule(self.rulesets@, reference@, text@);
        let ghost ps = crate::designation::pairs_view(pairs@);
        let ghost cyc0 = nodes_view(old(context).cyclic_rules@);
        let ghost path0 = texts_view(old(context).identifier_path@);
        proof {
            assert(crate::designation::designation_pairs(text@).contains(empty_pair));
            assert(crate::designation::pairs_view(pairs@).to_set().contains(empty_pair));
            let o = ordered_designations(text@);
            assert(ps.to_set() == crate::designation::designation_pairs(text@) && crate::designation::pairs_sorted(ps));
            crate::designation::lemma_sorted_pairs_unique(o, ps);
            assert(o == ps);
        }
        let mut results: Vec<ResultTree> = Vec::new();
        let mut p: usize = 0;
        while p < pairs.len()
            invariant
                ps == crate::designation::pairs_view(pairs@),
                ps == ordered_designations(text@),
                cyc0 == nodes_view(old(context).cyclic_rules@),
                path0 == texts_view(old(context).identifier_path@),
                taken(results@, text@) == pairs_ends(
                    self.rulesets@,
                    self.replacers@,
                    cyc0,
                    path0,
                    text@,
                    reference@,
                    level as int,
                    ps,
                    p as int,
                ),
                context.capture_cache@ == old(context).capture_cache@,
                nodes_view(context.cyclic_rules@) == nodes_view(old(context).cyclic_rules@),
                context.identifier_path@ == old(context).identifier_path@,
                p <= pairs.len(),
                level < MAX_RULE_DEPTH,
                rules_wf(self.rulesets@),
                chars@ == text@,
                results_ok(results@, text@, identifier@),
                results_derived(self.rulesets@, b, results@),
                crate::rules::is_replacer_ref(identifier@),
                designation_results(results@, identifier@, reference@, text@),
                crate::designation::pairs_view(pairs@).to_set() == crate::designation::designation_pairs(text@),
                empty_pair == (Seq::<char>::empty(), Seq::<char>::empty()),
                exact == (level + 1 < MAX_RULE_DEPTH && !crate::rules::is_replacer_ref(reference@)
                    && has_exact_rule(self.rulesets@, reference@, text@)),
                exact && (exists|q: int| 0 <= q < p && crate::designation::pairs_view(pairs@)[q] == empty_pair)
                    ==> exists|i: int| 0 <= i < results@.len() && (#[trigger] results@[i]).remaining@.len() == 0,
            decreases pairs.len() - p,
        {
            let ghost pv = crate::designation::pairs_view(pairs@)[p as int];
            proof {
                assert(crate::designation::pairs_view(pairs@).contains(pv));
                assert(crate::designation::pairs_view(pairs@).to_set().contains(pv));
            }
            let prefix = to_chars(pairs[p].0.as_str());
            let suffix = to_chars(pairs[p].1.as_str());
            assert(pv == (prefix@, suffix@));
            if crate::strs::starts_with_at(&chars, 0, &prefix) {
                let inner = string_of(&chars, prefix.len(), chars.len());
                let ghost base = taken(results@, text@);
                let trees = self.do_translate(context, inner.as_str(), reference.as_str(), level + 1, Ghost(b));
                let ghost sub = taken(trees@, inner@);
                proof {
                    assert(sub == match_ends(self.rulesets@, self.replacers@, cyc0, path0, inner@, reference@, level + 1));
                    if pv == empty_pair {
                        assert(prefix@ == pv.0);
                        assert(prefix@.len() == 0);
                        assert(inner@ =~= text@);
                    }
                }
                let mut m: usize = 0;
                while m < trees.len()
                    invariant
                        m <= trees.len(),
                        p < pairs.len(),
                        prefix@ == pairs@[p as int].0@,
                        suffix@ == pairs@[p as int].1@,
                        pv == (prefix@, suffix@),
                        empty_pair == (Seq::<char>::empty(), Seq::<char>::empty()),
                        exact == (level + 1 < MAX_RULE_DEPTH && !crate::rules::is_replacer_ref(reference@)
                            && has_exact_rule(self.rulesets@, reference@, text@)),
                        crate::designation::designation_pairs(text@).contains(pv),
                        chars@ == text@,
                        prefix@.len() <= chars@.len(),
                        chars@.take(prefix@.len() as int) == prefix@,
                        inner@ == chars@.subrange(prefix@.len() as int, chars@.len() as int),
                        results_ok(trees@, inner@, reference@),
                        results_ok(results@, text@, identifier@),
                        results_derived(self.rulesets@, b, trees@),
                        results_derived(self.rulesets@, b, results@),
                        crate::rules::is_replacer_ref(identifier@),
                        designation_results(results@, identifier@, reference@, text@),
                        exact && (exists|q: int| 0 <= q < p && crate::designation::pairs_view(pairs@)[q] == empty_pair)
                            ==> exists|i: int| 0 <= i < results@.len() && (#[trigger] results@[i]).remaining@.len() == 0,
                        exact && pv == empty_pair && (exists|k: int| 0 <= k < m && (#[trigger] trees@[k]).remaining@.len() == 0)
                            ==> exists|i: int| 0 <= i < results@.len() && (#[trigger] results@[i]).remaining@.len() == 0,
                        sub == taken(trees@, inner@),
                        taken(results@, text@) == base + suffixed_ends(inner@, pv, sub, m as int),
                        text@.len() == prefix@.len() + inner@.len(),
                    decreases trees.len() - m,
                {
                    let rem = to_chars(trees[m].remaining.as_str());
                    let ghost e = sub[m as int];
                    let ghost before_taken = taken(results@, text@);
                    proof {
                        assert(sound(trees@[m as int], inner@));
                        assert(e == inner@.len() - trees@[m as int].remaining@.len());
                        assert(inner@.skip(e) =~= trees@[m as int].remaining@);
                        assert(rem@.take(suffix@.len() as int) =~= rem@.subrange(0, suffix@.len() as int));
                        assert(pv.1 == suffix@ && pv.0 == prefix@);
                    }
                    if crate::strs::starts_with_at(&rem, 0, &suffix) {
                        let remaining = string_of(&rem, suffix.len(), rem.len());
                        let n = chars.len();
                        assert(sound(trees@[m as int], inner@));
                        assert(rem@ == trees@[m as int].remaining@);
                        assert(rem@.len() <= inner@.len());
                        let matched = string_of(&chars, 0, n - (rem.len() - suffix.len()));
                        let mut translated = string_from_chars(&prefix);
                        push_str(&mut translated, trees[m].translated.as_str());
                        push_str(&mut translated, pairs[p].1.as_str());
                        let mut original = String::new();
                        original.push('{');
                        push_str(&mut original, identifier);
                        original.push(':');
                        push_str(&mut original, reference.as_str());
                        original.push('}');
                        let child = trees[m].duplicate();
                        let mut children: Vec<(String, ResultTree)> = Vec::new();
                        children.push(("item".to_owned(), child));
                        let composed_tokens = vec![
                            Token::Literal(pairs[p].0.clone()),
                            Token::Reference("item".to_owned()),
                            Token::Literal(pairs[p].1.clone()),
                        ];
                        let tree = ResultTree::new(
                            identifier.to_owned(),
                            original,
                            matched,
                            translated,
                            remaining,
                            children,
                            copy_tokens(&composed_tokens),
                            composed_tokens,
                        );
                        proof {
                            let tm = trees@[m as int].matched@;
                            let tr = trees@[m as int].remaining@;
                            assert(tm + tr == inner@);
                            assert(rem@ == tr);
                            let rv = rem@.subrange(suffix@.len() as int, rem@.len() as int);
                            assert(chars@.subrange(0, n - rv.len()) + rv =~= text@) by {
                                let pl = prefix@.len() as int;
                                let sl = suffix@.len() as int;
                                assert(inner@ =~= chars@.skip(pl));
                                assert(tr =~= inner@.skip(tm.len() as int));
                                assert(tr =~= chars@.skip(pl + tm.len()));
                                assert(rv =~= tr.skip(sl));
                                assert(rv =~= chars@.skip(pl + tm.len() + sl));
                                assert(n - rv.len() == pl + tm.len() + sl);
                                assert(rv =~= text@.skip(n - rv.len()));
                            }
                            assert(child_keys(tree.children@) =~= seq!["item"@]);
                            assert(child_keys(tree.children@)[0] == "item"@);
                            assert forall|i: int|
                                #![trigger tokens_view(tree.translation_tokens@)[i]]
                                0 <= i < tokens_view(tree.translation_tokens@).len() implies (tokens_view(tree.translation_tokens@)[i] matches TokenView::Reference(r) ==> child_keys(tree.children@).contains(r)) by {
                            }
                            lemma_tree_wf_intro(tree);
                            assert(derived(self.rulesets@, b, trees@[m as int]));
                            assert(tree.children@[0].1 == child);
                            lemma_derived_intro(self.rulesets@, b, tree);
                            let pl = prefix@.len() as int;
                            let sl = suffix@.len() as int;
                            assert(inner@ =~= text@.skip(pl));
                            assert(tr.take(sl) =~= rem@.subrange(0, sl));
                            assert(tree.matched@ =~= text@.take(text@.len() - (tr.len() - sl)));
                            assert(tree.remaining@ =~= tr.skip(sl));
                            lemma_wraps_designation(tree, identifier@, reference@, text@, pv);
                        }
                        let ghost before = results@;
                        results.push(tree);
                        proof {
                            assert forall|i: int| 0 <= i < results@.len() implies #[trigger] derived(self.rulesets@, b, results@[i]) by {
                                if i < before.len() {
                                    assert(results@[i] == before[i]);
                                }
                            }
                            assert(results@ == before.push(tree));
                            lemma_designation_results_push(before, tree, identifier@, reference@, text@, pv);
                            assert(taken(results@, text@) =~= before_taken.push(text@.len() - tree.remaining@.len()));
                            assert(text@.len() - tree.remaining@.len() == prefix@.len() + e + suffix@.len());
                            assert(suffixed_ends(inner@, pv, sub, m + 1) =~= suffixed_ends(inner@, pv, sub, m as int)
                                + seq![pv.0.len() + e + pv.1.len()]);
                            if exists|i: int| 0 <= i < before.len() && (#[trigger] before[i]).remaining@.len() == 0 {
                                let i = choose|i: int| 0 <= i < before.len() && (#[trigger] before[i]).remaining@.len() == 0;
                                assert(results@[i] == before[i]);
                            }
                            if tree.remaining@.len() == 0 {
                                assert(results@[before.len() as int] == tree);
                            }
                            if trees@[m as int].remaining@.len() == 0 && suffix@.len() == 0 {
                                assert(tree.remaining@.len() == 0);
                            }
                        }
                    } else {
                        proof {
                            if pv == empty_pair {
                                assert(suffix@ == pv.1);
                                assert(rem@.subrange(0, 0) =~= suffix@);
                            }
                            assert(suffixed_ends(inner@, pv, sub, m + 1) =~= suffixed_ends(inner@, pv, sub, m as int));
                        }
                    }
                    m += 1;
                }
                proof {
                    assert(chars@.subrange(0, prefix@.len() as int) =~= text@.take(prefix@.len() as int));
                    assert(inner@ =~= text@.skip(pv.0.len() as int));
                    assert(pairs_ends(self.rulesets@, self.replacers@, cyc0, path0, text@, reference@, level as int, ps, p + 1)
                        =~= base + suffixed_ends(inner@, pv, sub, sub.len() as int));
                }
                proof {
                    if exact && pv == empty_pair {
                        let k = choose|k: int| 0 <= k < trees@.len() && (#[trigger] trees@[k]).remaining@.len() == 0
                            && !uses_wildcard(trees@[k]);
                        assert(trees@[k].remaining@.len() == 0);
                    }
                }
            } else {
                proof {
                    if pv == empty_pair {
                        assert(prefix@ == pv.0);
                        assert(chars@.subrange(0, 0) =~= prefix@);
                    }
                    if prefix@.len() <= text@.len() {
                        assert(chars@.subrange(0, prefix@.len() as int) =~= text@.take(prefix@.len() as int));
                    }
                    assert(pairs_ends(self.rulesets@, self.replacers@, cyc0, path0, text@, reference@, level as int, ps, p + 1)
                        =~= pairs_ends(self.rulesets@, self.replacers@, cyc0, path0, text@, reference@, level as int, ps, p as int));
                }
            }
            proof {
                if exact && (exists|q: int| 0 <= q < p + 1 && crate::designation::pairs_view(pairs@)[q] == empty_pair) {
                    let q = choose|q: int| 0 <= q < p + 1 && crate::designation::pairs_view(pairs@)[q] == empty_pair;
                    if q < p {
                    } else {
                        assert(pv == empty_pair);
                    }
                }
            }
            p += 1;
        }
        proof {
            if exact {
                let q = choose|q: int| 0 <= q < crate::designation::pairs_view(pairs@).len() && crate::designation::pairs_view(pairs@)[q] == empty_pair;
            }
        }
        results
    }
}

/// `t` translates the whole of `text` by the rules: it is the translation of a complete
/// match of `text` against the root ruleset, every node of which comes from the rules.
pub open spec fn rule_translation(sets: RuleSetsView, text: Seq<char>, t: Seq<char>) -> bool {
    exists|tree: ResultTree|
        #[trigger] complete_match(tree, text) && derived(sets, MAX_CAPTURE_DEPTH as nat, tree)
            && tree.translated@ == t
}

/// `i` is the first of the most specific results: none is preferred to it, and it is
/// preferred to every result before it.
pub open spec fn is_first_best(specs: Seq<Specificity>, i: int) -> bool {
    &&& 0 <= i < specs.len()
    &&& forall|j: int| 0 <= j < specs.len() ==> !prefer(#[trigger] specs[j], specs[i])
    &&& forall|j: int| 0 <= j < i ==> prefer(specs[i], #[trigger] specs[j])
}

/// Children whose scores agree one by one give the same total.
proof fn lemma_children_score_same(a: ResultTree, b: ResultTree, n: int)
    requires
        0 <= n <= a.children@.len(),
        a.children@.len() == b.children@.len(),
        forall|k: int| 0 <= k < a.children@.len() ==> raw_score(#[trigger] a.children@[k].1) == raw_score(b.children@[k].1),
    ensures
        children_score(a, n) == children_score(b, n),
    decreases n,
{
    if n > 0 {
        lemma_children_score_same(a, b, n - 1);
        assert(raw_score(a.children@[n - 1].1) == raw_score(b.children@[n - 1].1));
    }
}

/// Whether a match uses a wildcard (`%any` or `%word`) anywhere in its tree.
pub open spec fn uses_wildcard(t: ResultTree) -> bool {
    raw_score(t).0 + raw_score(t).1 > 0
}

/// Exact rules are preferred over wildcard rules: a match without wildcards is preferred
/// to any match with one.
pub proof fn lemma_exact_preferred(a: ResultTree, b: ResultTree)
    requires
        !uses_wildcard(a),
        uses_wildcard(b),
    ensures
        prefer(specificity_of(a), specificity_of(b)),
{
}

/// Among wildcard matches, the one with more literal anchor bytes is preferred.
pub proof fn lemma_longer_anchor_preferred(a: ResultTree, b: ResultTree)
    requires
        uses_wildcard(a),
        uses_wildcard(b),
        raw_score(a).3 > raw_score(b).3,
        raw_score(b).3 < usize::MAX,
    ensures
        prefer(specificity_of(a), specificity_of(b)),
{
}

/// With equal anchors, a match that uses only `%word` is preferred to one that uses
/// `%any`.
pub proof fn lemma_word_preferred_over_any(a: ResultTree, b: ResultTree)
    requires
        raw_score(a).0 == 0,
        raw_score(a).1 > 0,
        raw_score(b).0 > 0,
        raw_score(a).3 == raw_score(b).3,
    ensures
        prefer(specificity_of(a), specificity_of(b)),
{
}

/// The chosen match uses no wildcard where some candidate match uses none.
pub proof fn lemma_best_avoids_wildcards(all: Seq<ResultTree>, i: int, k: int)
    requires
        is_first_best(specs_of(all), i),
        0 <= k < all.len(),
        !uses_wildcard(all[k]),
    ensures
        !uses_wildcard(all[i]),
{
    if uses_wildcard(all[i]) {
        lemma_exact_preferred(all[k], all[i]);
        assert(specs_of(all)[k] == specificity_of(all[k]));
        assert(!prefer(specs_of(all)[k], specs_of(all)[i]));
    }
}

/// The specificities of the results.
pub open spec fn specs_of(r: Seq<ResultTree>) -> Seq<Specificity> {
    r.map_values(|t: ResultTree| specificity_of(t))
}

/// The position of the first most specific result (`Iterator::min_by_key`).
pub fn best_index(results: &Vec<ResultTree>) -> (r: Option<usize>)
    ensures
        r is None <==> results@.len() == 0,
        r matches Some(i) ==> is_first_best(specs_of(results@), i as int),
{
    if results.len() == 0 {
        return None;
    }
    let ghost sp = specs_of(results@);
    let mut best: usize = 0;
    let mut best_spec = results[0].specificity();
    let mut j: usize = 1;
    while j < results.len()
        invariant
            1 <= j <= results.len(),
            best < j,
            sp == specs_of(results@),
            best_spec == sp[best as int],
            forall|k: int| 0 <= k < j ==> !prefer(#[trigger] sp[k], sp[best as int]),
            forall|k: int| 0 <= k < best ==> prefer(sp[best as int], #[trigger] sp[k]),
        decreases results.len() - j,
    {
        let s = results[j].specificity();
        if less_specific(&s, &best_spec) {
            proof {
                assert forall|k: int| 0 <= k < j + 1 implies !prefer(#[trigger] sp[k], sp[j as int]) by {
                    if k < j {
                        assert(!prefer(sp[k], sp[best as int]));
                    }
                }
                assert forall|k: int| 0 <= k < j implies prefer(sp[j as int], #[trigger] sp[k]) by {
                    assert(!prefer(sp[k], sp[best as int]));
                }
            }
            best = j;
            best_spec = s;
        }
        j += 1;
    }
    Some(best)
}

/// The translation of the first most specific result, if there is any result.
pub fn best_translation(results: &Vec<ResultTree>) -> (r: Option<String>)
    ensures
        r is None <==> results@.len() == 0,
        r matches Some(t) ==> exists|i: int|
            is_first_best(specs_of(results@), i) && t@ == results@[i].translated@,
{
    match best_index(results) {
        Some(i) => Some(results[i].translated.clone()),
        None => None,
    }
}

/// A result tree that matched nothing, to hold a place.
fn placeholder() -> (r: ResultTree)
    ensures
        tree_wf(r),
        r.identifier@.len() == 0,
        r.original@.len() == 0,
        r.matched@.len() == 0,
        r.translated@.len() == 0,
        r.remaining@.len() == 0,
        r.children@.len() == 0,
        r.match_tokens@.len() == 0,
        r.translation_tokens@.len() == 0,
{
    let r = ResultTree::new(
        String::new(),
        String::new(),
        String::new(),
        String::new(),
        String::new(),
        Vec::new(),
        Vec::new(),
        Vec::new(),
    );
    proof {
        assert(child_keys(r.children@) =~= Seq::<Seq<char>>::empty());
        lemma_tree_wf_intro(r);
        assert(r.match_tokens@.len() == tokens_view(r.match_tokens@).len());
        assert(r.translation_tokens@.len() == tokens_view(r.translation_tokens@).len());
    }
    r
}

/// A depth below the capture limit left to go.
pub open spec fn depth_left(depth: usize) -> int {
    if depth < MAX_CAPTURE_DEPTH {
        MAX_CAPTURE_DEPTH - depth
    } else {
        0
    }
}

/// A translation of the capture `m` at `depth` that comes from the rules: `m` itself, or,
/// below the capture limit, the translation of a complete match of `m` from the rules
/// with the layers left below that depth.
pub open spec fn cached_ok(sets: RuleSetsView, m: Seq<char>, depth: usize, v: Seq<char>) -> bool {
    v == m || (depth_left(depth) > 0 && exists|u: ResultTree|
        #[trigger] complete_match(u, m) && derived(sets, (depth_left(depth) - 1) as nat, u)
            && u.translated@ == v)
}

/// Every translation in the cache comes from the rules.
pub open spec fn cache_ok(sets: RuleSetsView, cache: Seq<(String, usize, Option<String>)>) -> bool {
    forall|i: int|
        0 <= i < cache.len() ==> ((#[trigger] cache[i]).2 matches Some(v) ==> cached_ok(
            sets,
            cache[i].0@,
            cache[i].1,
            v@,
        ))
}

/// The text of an optional string.
pub open spec fn opt_text(o: Option<String>) -> Option<Seq<char>> {
    match o {
        Some(x) => Some(x@),
        None => None,
    }
}

/// The cached translation of the capture `m` at `depth`: that of the first entry for
/// them, if there is one (itself none where no translation was found).
pub open spec fn cache_entry(cache: Seq<(String, usize, Option<String>)>, m: Seq<char>, depth: usize) -> Option<
    Option<Seq<char>>,
>
    decreases cache.len(),
{
    if cache.len() == 0 {
        None
    } else {
        match cache_entry(cache.drop_last(), m, depth) {
            Some(v) => Some(v),
            None => if cache.last().1 == depth && cache.last().0@ == m {
                Some(opt_text(cache.last().2))
            } else {
                None
            },
        }
    }
}

/// An entry found in a prefix of the cache is the one found in all of it.
pub proof fn lemma_cache_entry_prefix(cache: Seq<(String, usize, Option<String>)>, m: Seq<char>, depth: usize, n: int)
    requires
        0 <= n <= cache.len(),
        cache_entry(cache.take(n), m, depth) is Some,
    ensures
        cache_entry(cache, m, depth) == cache_entry(cache.take(n), m, depth),
    decreases cache.len() - n,
{
    if n < cache.len() {
        assert(cache.take(n + 1).drop_last() =~= cache.take(n));
        lemma_cache_entry_prefix(cache, m, depth, n + 1);
    } else {
        assert(cache.take(n) =~= cache);
    }
}

/// The cached translation of the capture `matched` at `depth`.
fn cache_lookup(
    cache: &Vec<(String, usize, Option<String>)>,
    matched: &String,
    depth: usize,
    Ghost(sets): Ghost<RuleSetsView>,
) -> (r: Option<Option<String>>)
    requires
        cache_ok(sets, cache@),
    ensures
        r is None <==> cache_entry(cache@, matched@, depth) is None,
        r matches Some(o) ==> cache_entry(cache@, matched@, depth) == Some(opt_text(o)),
        r matches Some(Some(v)) ==> cached_ok(sets, matched@, depth, v@),
{
    let mut i: usize = 0;
    while i < cache.len()
        invariant
            i <= cache.len(),
            cache_ok(sets, cache@),
            cache_entry(cache@.take(i as int), matched@, depth) is None,
        decreases cache.len() - i,
    {
        assert(cache@.take(i + 1).drop_last() =~= cache@.take(i as int));
        if cache[i].1 == depth && str_eq(cache[i].0.as_str(), matched.as_str()) {
            assert(cache_ok(sets, cache@));
            assert(cache@[i as int] == cache[i as int]);
            assert(cache_entry(cache@.take(i + 1), matched@, depth) == Some(opt_text(cache@[i as int].2)));
            proof {
                lemma_cache_entry_prefix(cache@, matched@, depth, i + 1);
            }
            return match &cache[i].2 {
                Some(v) => Some(Some(v.clone())),
                None => Some(None),
            };
        }
        i += 1;
    }
    assert(cache@.take(cache.len() as int) =~= cache@);
    None
}

impl Translator {
    /// Translates the captures of wildcards in a complete match: each capture is
    /// matched again against the root ruleset (at most `MAX_CAPTURE_DEPTH` deep, and
    /// not while the same text is being translated), and keeps its text where nothing
    /// matches it; the rules above it then rebuild their translations.
    fn resolve_captures(
        &self,
        context: &mut Context,
        tree: ResultTree,
        depth: usize,
        capture_path: &mut Vec<String>,
    ) -> (r: ResultTree)
        requires
            rules_wf(self.rulesets@),
            tree_wf(tree),
            derived(self.rulesets@, depth_left(depth) as nat, tree),
            cache_ok(self.rulesets@, old(context).capture_cache@),
            nodes_view(old(context).cyclic_rules@) == Seq::<(Seq<char>, Seq<TokenView>)>::empty(),
            texts_view(old(context).identifier_path@) == Seq::<Seq<char>>::empty(),
        ensures
            nodes_view(final(context).cyclic_rules@) == Seq::<(Seq<char>, Seq<TokenView>)>::empty(),
            texts_view(final(context).identifier_path@) == Seq::<Seq<char>>::empty(),
            r.identifier == tree.identifier,
            r.matched == tree.matched,
            r.remaining == tree.remaining,
            tree_wf(r),
            derived(self.rulesets@, depth_left(depth) as nat, r),
            cache_ok(self.rulesets@, final(context).capture_cache@),
            raw_score(r) == raw_score(tree),
            final(capture_path)@ == old(capture_path)@,
            tokens_view(r.match_tokens@) == tokens_view(tree.match_tokens@),
            tokens_view(r.translation_tokens@) == tokens_view(tree.translation_tokens@),
            crate::rules::is_wildcard_ref(tree.identifier@) ==> {
                &&& r.children@ == tree.children@
                &&& match cache_entry(old(context).capture_cache@, tree.matched@, depth) {
                    Some(Some(v)) => r.translated@ == v,
                    Some(None) => r.translated@ == tree.matched@,
                    None => {
                        &&& (depth >= MAX_CAPTURE_DEPTH || texts_view(old(capture_path)@).contains(tree.matched@))
                            ==> r.translated@ == tree.matched@
                        &&& cached_ok(self.rulesets@, tree.matched@, depth, r.translated@)
                        &&& (depth < MAX_CAPTURE_DEPTH && !texts_view(old(capture_path)@).contains(tree.matched@)
                            && !has_complete_match(self.rulesets@, self.replacers@, tree.matched@)) ==> r.translated@
                            == tree.matched@
                        &&& (depth < MAX_CAPTURE_DEPTH && !texts_view(old(capture_path)@).contains(tree.matched@)
                            && has_exact_rule(self.rulesets@, "::"@, tree.matched@)) ==> exists|u: ResultTree|
                            #[trigger] complete_match(u, tree.matched@) && derived(
                                self.rulesets@,
                                (depth_left(depth) - 1) as nat,
                                u,
                            ) && u.translated@ == r.translated@
                    },
                }
            },
            !crate::rules::is_wildcard_ref(tree.identifier@) ==> {
                &&& r.children@.len() == tree.children@.len()
                &&& child_keys(r.children@) == child_keys(tree.children@)
                &&& forall|k: int|
                    0 <= k < r.children@.len() ==> (#[trigger] r.children@[k]).1.identifier
                        == tree.children@[k].1.identifier && r.children@[k].1.matched
                        == tree.children@[k].1.matched && r.children@[k].1.remaining
                        == tree.children@[k].1.remaining
                &&& r.translated@ == if tree.translation_tokens@.len() > 0 {
                    composed(tokens_view(tree.translation_tokens@), r.children@)
                } else {
                    tree.translated@
                }
            },
        decreases depth_left(depth), tree_size(tree),
    {
        let ghost orig = tree;
        let ghost b: nat = depth_left(depth) as nat;
        proof {
            lemma_tree_wf_elim(orig);
            lemma_derived_elim(self.rulesets@, b, orig);
        }
        let mut result = tree;
        if crate::rules::is_translatable_wildcard(result.identifier.as_str()) {
            match cache_lookup(&context.capture_cache, &result.matched, depth, Ghost(self.rulesets@)) {
                Some(cached) => {
                    result.translated = match cached {
                        Some(t) => t,
                        None => result.matched.clone(),
                    };
                    proof {
                        lemma_tree_wf_intro(result);
                        lemma_children_score_same(result, orig, result.children@.len() as int);
                        lemma_derived_intro(self.rulesets@, b, result);
                    }
                    return result;
                },
                None => {},
            }
            if depth >= MAX_CAPTURE_DEPTH || contains_text(capture_path, result.matched.as_str()) {
                result.translated = result.matched.clone();
                let ghost before = context.capture_cache@;
                context.capture_cache.push((result.matched.clone(), depth, None));
                proof {
                    assert forall|i: int| 0 <= i < context.capture_cache@.len() implies ((#[trigger] context.capture_cache@[i]).2 matches Some(v) ==> cached_ok(
                        self.rulesets@,
                        context.capture_cache@[i].0@,
                        context.capture_cache@[i].1,
                        v@,
                    )) by {
                        if i < before.len() {
                            assert(context.capture_cache@[i] == before[i]);
                        }
                    }
                    lemma_tree_wf_intro(result);
                    lemma_children_score_same(result, orig, result.children@.len() as int);
                    lemma_derived_intro(self.rulesets@, b, result);
                }
                return result;
            }
            let ghost path0 = capture_path@;
            capture_path.push(result.matched.clone());
            let ghost m = result.matched@;
            let ghost exact = has_exact_rule(self.rulesets@, "::"@, m);
            proof {
                reveal_strlit("::");
            }
            let ghost inner_b: nat = (b - 1) as nat;
            let all = self.do_translate(context, result.matched.as_str(), "::", 0, Ghost(inner_b));
            let ghost ends = taken(all@, m);
            proof {
                assert(ends == root_ends(self.rulesets@, self.replacers@, m));
            }
            let mut complete: Vec<ResultTree> = Vec::new();
            let mut i: usize = 0;
            while i < all.len()
                invariant
                    i <= all.len(),
                    ends == taken(all@, m),
                    complete@.len() == kept_ends(ends, m.len() as int, false, i as int).len(),
                    results_ok(all@, result.matched@, "::"@),
                    m == result.matched@,
                    results_derived(self.rulesets@, inner_b, all@),
                    forall|k: int| 0 <= k < complete@.len() ==> tree_wf(#[trigger] complete@[k]),
                    forall|k: int| 0 <= k < complete@.len() ==> complete_match(#[trigger] complete@[k], m),
                    results_derived(self.rulesets@, inner_b, complete@),
                    (exists|k: int| 0 <= k < i && (#[trigger] all@[k]).remaining@.len() == 0) ==> complete@.len() > 0,
                decreases all.len() - i,
            {
                if all[i].remaining.as_str().is_empty() {
                    assert(tree_wf(all@[i as int]));
                    assert(derived(self.rulesets@, inner_b, all@[i as int]));
                    assert(sound(all@[i as int], m));
                    let d = all[i].duplicate();
                    let ghost before = complete@;
                    complete.push(d);
                    proof {
                        assert forall|k: int| 0 <= k < complete@.len() implies #[trigger] derived(self.rulesets@, inner_b, complete@[k]) by {
                            if k < before.len() {
                                assert(complete@[k] == before[k]);
                            }
                        }
                        assert forall|k: int| 0 <= k < complete@.len() implies complete_match(#[trigger] complete@[k], m) by {
                            if k < before.len() {
                                assert(complete@[k] == before[k]);
                            }
                        }
                    }
                }
                proof {
                    assert(ends[i as int] == m.len() - all@[i as int].remaining@.len());
                }
                i += 1;
            }
            let inner: Option<String> = match best_index(&complete) {
                Some(bi) => {
                    assert(complete_match(complete@[bi as int], m));
                    assert(derived(self.rulesets@, inner_b, complete@[bi as int]));
                    let candidate = complete[bi].duplicate();
                    assert(depth_left((depth + 1) as usize) == inner_b);
                    let resolved = self.resolve_captures(context, candidate, depth + 1, capture_path);
                    proof {
                        assert(complete_match(resolved, m));
                    }
                    assert(cached_ok(self.rulesets@, m, depth, resolved.translated@));
                    let out = Some(resolved.translated);
                    assert(exists|u: ResultTree|
                        #[trigger] complete_match(u, m) && derived(self.rulesets@, inner_b, u) && u.translated@
                            == out->Some_0@);
                    out
                },
                None => {
                    proof {
                        if exact {
                            let k = choose|k: int|
                                0 <= k < all@.len() && (#[trigger] all@[k]).remaining@.len() == 0 && !uses_wildcard(all@[k]);
                            assert(all@[k].remaining@.len() == 0);
                        }
                    }
                    None
                },
            };
            assert(exact ==> inner is Some);
            capture_path.pop();
            assert(capture_path@ =~= path0);
            result.translated = match inner {
                Some(t) => t,
                None => result.matched.clone(),
            };
            assert(exact ==> exists|u: ResultTree|
                #[trigger] complete_match(u, m) && derived(self.rulesets@, inner_b, u) && u.translated@
                    == result.translated@);
            assert(cached_ok(self.rulesets@, m, depth, result.translated@));
            let ghost before = context.capture_cache@;
            context.capture_cache.push((result.matched.clone(), depth, Some(result.translated.clone())));
            proof {
                assert forall|i: int| 0 <= i < context.capture_cache@.len() implies ((#[trigger] context.capture_cache@[i]).2 matches Some(v) ==> cached_ok(
                    self.rulesets@,
                    context.capture_cache@[i].0@,
                    context.capture_cache@[i].1,
                    v@,
                )) by {
                    if i < before.len() {
                        assert(context.capture_cache@[i] == before[i]);
                    }
                }
                lemma_tree_wf_intro(result);
                lemma_children_score_same(result, orig, result.children@.len() as int);
                lemma_derived_intro(self.rulesets@, b, result);
            }
            return result;
        }
        let mut children: Vec<(String, ResultTree)> = Vec::new();
        std::mem::swap(&mut children, &mut result.children);
        let mut i: usize = 0;
        while i < children.len()
            invariant
                orig == tree,
                i <= children.len(),
                rules_wf(self.rulesets@),
                children@.len() == orig.children@.len(),
                child_keys(children@) == child_keys(orig.children@),
                forall|k: int| i <= k < children@.len() ==> #[trigger] children@[k] == orig.children@[k],
                forall|k: int| 0 <= k < i ==> tree_wf(#[trigger] children@[k].1),
                forall|k: int| 0 <= k < i ==> raw_score(#[trigger] children@[k].1) == raw_score(orig.children@[k].1),
                all_wf(orig.children@),
                all_derived(self.rulesets@, b, orig.children@),
                capture_path@ == old(capture_path)@,
                forall|k: int|
                    0 <= k < i ==> (#[trigger] children@[k]).1.identifier == orig.children@[k].1.identifier
                        && children@[k].1.matched == orig.children@[k].1.matched && children@[k].1.remaining
                        == orig.children@[k].1.remaining,
                forall|k: int| 0 <= k < i ==> derived(self.rulesets@, b, #[trigger] children@[k].1),
                b == depth_left(depth) as nat,
                cache_ok(self.rulesets@, context.capture_cache@),
                nodes_view(context.cyclic_rules@) == Seq::<(Seq<char>, Seq<TokenView>)>::empty(),
                texts_view(context.identifier_path@) == Seq::<Seq<char>>::empty(),
            decreases children.len() - i,
        {
            let mut slot = (String::new(), placeholder());
            let ghost before = children@;
            children.set_and_swap(i, &mut slot);
            assert(slot == orig.children@[i as int]);
            proof {
                lemma_child_smaller(orig, i as int);
                assert(tree_wf(orig.children@[i as int].1));
                assert(derived(self.rulesets@, b, orig.children@[i as int].1));
            }
            let resolved = self.resolve_captures(context, slot.1, depth, capture_path);
            children.set(i, (slot.0, resolved));
            proof {
                assert(child_keys(children@) =~= child_keys(orig.children@)) by {
                    assert forall|k: int| 0 <= k < children@.len() implies child_keys(children@)[k]
                        == child_keys(orig.children@)[k] by {
                        if k != i {
                            assert(children@[k] == before[k]);
                        }
                    }
                }
                assert forall|k: int| 0 <= k < i + 1 implies tree_wf(#[trigger] children@[k].1) by {
                    if k < i {
                        assert(children@[k] == before[k]);
                    }
                }
                assert forall|k: int| 0 <= k < i + 1 implies derived(self.rulesets@, b, #[trigger] children@[k].1) by {
                    if k < i {
                        assert(children@[k] == before[k]);
                    }
                }
                assert forall|k: int| 0 <= k < i + 1 implies raw_score(#[trigger] children@[k].1) == raw_score(orig.children@[k].1) by {
                    if k < i {
                        assert(children@[k] == before[k]);
                    }
                }
                assert forall|k: int| 0 <= k < i + 1 implies (#[trigger] children@[k]).1.identifier == orig.children@[k].1.identifier
                        && children@[k].1.matched == orig.children@[k].1.matched && children@[k].1.remaining
                        == orig.children@[k].1.remaining by {
                    if k < i {
                        assert(children@[k] == before[k]);
                    }
                }
            }
            i += 1;
        }
        result.children = children;
        if result.translation_tokens.len() > 0 {
            let translated = compose_translation(
                &result.translation_tokens,
                &result.children,
                result.identifier.as_str(),
            );
            result.translated = translated;
        }
        proof {
            lemma_tree_wf_intro(result);
            lemma_children_score_same(result, orig, result.children@.len() as int);
            assert(all_derived(self.rulesets@, b, result.children@)) by {
                assert forall|k: int| 0 <= k < result.children@.len() implies #[trigger] derived(self.rulesets@, b, result.children@[k].1) by {
                    assert(derived(self.rulesets@, b, children@[k].1));
                }
            }
            if !crate::rules::is_replacer_ref(orig.identifier@) {
                let j = choose|j: int| rule_used(self.rulesets@, orig, j);
                if result.translation_tokens@.len() == 0 {
                    lemma_composed_empty(tokens_view(result.translation_tokens@), result.children@);
                    lemma_composed_empty(tokens_view(orig.translation_tokens@), orig.children@);
                }
                assert(rule_used(self.rulesets@, result, j));
            }
            lemma_derived_intro(self.rulesets@, b, result);
        }
        result
    }

    /// Every match of the whole text against the root ruleset (or, with
    /// `partial_match`, of a start of it), with the captures of complete matches
    /// translated again.
    pub fn get_all_translations(&self, text: &str, partial_match: bool) -> (r: Vec<ResultTree>)
        requires
            rules_wf(self.rulesets@),
        ensures
            forall|i: int|
                0 <= i < r@.len() ==> sound(#[trigger] r@[i], text@) && r@[i].identifier@ == "::"@
                    && (!partial_match ==> r@[i].remaining@.len() == 0) && derived(
                    self.rulesets@,
                    MAX_CAPTURE_DEPTH as nat,
                    r@[i],
                ),
            has_exact_rule(self.rulesets@, "::"@, text@) ==> exists|k: int|
                0 <= k < r@.len() && (#[trigger] r@[k]).remaining@.len() == 0 && !uses_wildcard(r@[k]),
            forall|j: int, k: int|
                #[trigger] prefix_rule_at(self.rulesets@, "::"@, text@, j, k) && (partial_match || k
                    == text@.len()) ==> prefix_result(r@, self.rulesets@, text@, j, k),
            taken(r@, text@) == all_ends(self.rulesets@, self.replacers@, text@, partial_match),
            forall|i: int|
                0 <= i < r@.len() ==> rule_used(
                    self.rulesets@,
                    #[trigger] r@[i],
                    all_rules(self.rulesets@, self.replacers@, text@, partial_match)[i],
                ),
    {
        let mut context = Context::new();
        proof {
            reveal_strlit("::");
            assert(nodes_view(context.cyclic_rules@) =~= seq![]);
            assert(texts_view(context.identifier_path@) =~= seq![]);
        }
        let ghost b: nat = MAX_CAPTURE_DEPTH as nat;
        let results = self.do_translate(&mut context, text, "::", 0, Ghost(b));
        let ghost ends = taken(results@, text@);
        let ghost rs = match_rules(self.rulesets@, self.replacers@, seq![], seq![], text@, "::"@, 0);
        proof {
            assert(!crate::rules::is_replacer_ref("::"@));
            assert(results@.len() == rs.len());
            assert(ends == root_ends(self.rulesets@, self.replacers@, text@));
            assert(taken(Seq::<ResultTree>::empty(), text@) =~= kept_ends(ends, text@.len() as int, partial_match, 0));
        }
        let mut out: Vec<ResultTree> = Vec::new();
        let mut i: usize = 0;
        while i < results.len()
            invariant
                i <= results.len(),
                ends == taken(results@, text@),
                taken(out@, text@) == kept_ends(ends, text@.len() as int, partial_match, i as int),
                results@.len() == rs.len(),
                forall|x: int| 0 <= x < results@.len() ==> rule_used(self.rulesets@, #[trigger] results@[x], rs[x]),
                kept_rules(rs, ends, text@.len() as int, partial_match, i as int).len() == out@.len(),
                forall|x: int|
                    0 <= x < out@.len() ==> rule_used(
                        self.rulesets@,
                        #[trigger] out@[x],
                        kept_rules(rs, ends, text@.len() as int, partial_match, i as int)[x],
                    ),
                rules_wf(self.rulesets@),
                results_ok(results@, text@, "::"@),
                results_ok(out@, text@, "::"@),
                results_derived(self.rulesets@, b, results@),
                results_derived(self.rulesets@, b, out@),
                b == MAX_CAPTURE_DEPTH as nat,
                cache_ok(self.rulesets@, context.capture_cache@),
                nodes_view(context.cyclic_rules@) == Seq::<(Seq<char>, Seq<TokenView>)>::empty(),
                texts_view(context.identifier_path@) == Seq::<Seq<char>>::empty(),
                forall|k: int| 0 <= k < out@.len() ==> (!partial_match ==> (#[trigger] out@[k]).remaining@.len() == 0),
                (exists|k: int|
                    0 <= k < i && (#[trigger] results@[k]).remaining@.len() == 0 && !uses_wildcard(results@[k]))
                    ==> exists|m: int|
                    0 <= m < out@.len() && (#[trigger] out@[m]).remaining@.len() == 0 && !uses_wildcard(out@[m]),
                forall|m: int, j: int|
                    #![trigger rule_used(self.rulesets@, results@[m], j)]
                    0 <= m < i && (partial_match || results@[m].remaining@.len() == 0) && results@[m].children@.len()
                        == 0 && !uses_wildcard(results@[m]) && rule_used(self.rulesets@, results@[m], j)
                        ==> exists|o: int|
                        0 <= o < out@.len() && (#[trigger] out@[o]).remaining@ == results@[m].remaining@
                            && out@[o].children@.len() == 0 && !uses_wildcard(out@[o]) && rule_used(
                            self.rulesets@,
                            out@[o],
                            j,
                        ),
            decreases results.len() - i,
        {
            let t = &results[i];
            assert(sound(results@[i as int], text@));
            assert(derived(self.rulesets@, b, results@[i as int]));
            let ghost before = out@;
            if t.remaining.as_str().is_empty() {
                let mut capture_path: Vec<String> = Vec::new();
                capture_path.push(t.matched.clone());
                let d = t.duplicate();
                let resolved = self.resolve_captures(&mut context, d, 0, &mut capture_path);
                out.push(resolved);
                proof {
                    assert(out@[out@.len() - 1] == resolved);
                    let tt = results@[i as int];
                    if tt.children@.len() == 0 {
                        reveal_strlit("::");
                        assert(tt.identifier@ == "::"@);
                        assert(!crate::rules::is_wildcard_ref("::"@));
                        assert(resolved.children@.len() == 0);
                        assert forall|j: int| rule_used(self.rulesets@, tt, j) implies rule_used(self.rulesets@, resolved, j) by {
                            lemma_composed_same(tokens_view(tt.translation_tokens@), resolved.children@, tt.children@);
                            lemma_composed_same(tokens_view(tt.translation_tokens@), d.children@, tt.children@);
                        }
                    }
                }
            } else if partial_match {
                let d = t.duplicate();
                out.push(d);
                proof {
                    let tt = results@[i as int];
                    if tt.children@.len() == 0 {
                        assert forall|j: int| rule_used(self.rulesets@, tt, j) implies rule_used(self.rulesets@, d, j) by {
                            lemma_composed_same(tokens_view(tt.translation_tokens@), d.children@, tt.children@);
                        }
                    }
                }
            }
            proof {
                assert forall|m: int| 0 <= m < before.len() implies out@[m] == before[m] by {}
                assert(ends[i as int] == text@.len() - results@[i as int].remaining@.len());
                if out@.len() > before.len() {
                    assert(out@ == before.push(out@[out@.len() - 1]));
                    assert(out@[out@.len() - 1].remaining@ == results@[i as int].remaining@);
                    assert(taken(out@, text@) =~= taken(before, text@).push(ends[i as int]));
                } else {
                    assert(out@ =~= before);
                }
                assert(taken(out@, text@) =~= kept_ends(ends, text@.len() as int, partial_match, i + 1));
                let kr0 = kept_rules(rs, ends, text@.len() as int, partial_match, i as int);
                let kr1 = kept_rules(rs, ends, text@.len() as int, partial_match, i + 1);
                assert(rule_used(self.rulesets@, results@[i as int], rs[i as int]));
                if out@.len() > before.len() {
                    assert(kr1 =~= kr0.push(rs[i as int]));
                    let last = out@[out@.len() - 1];
                    assert(rule_used(self.rulesets@, last, rs[i as int])) by {
                        reveal_strlit("::");
                        assert(!crate::rules::is_wildcard_ref("::"@));
                        if last.translation_tokens@.len() == 0 {
                            lemma_composed_empty(tokens_view(last.translation_tokens@), last.children@);
                            lemma_composed_empty(tokens_view(results@[i as int].translation_tokens@), results@[i as int].children@);
                        }
                    }
                } else {
                    assert(kr1 =~= kr0);
                }
                assert forall|x: int| 0 <= x < out@.len() implies rule_used(self.rulesets@, #[trigger] out@[x], kr1[x]) by {
                    if x < before.len() {
                        assert(out@[x] == before[x]);
                    }
                }
                assert forall|m: int, j: int|
                    #![trigger rule_used(self.rulesets@, results@[m], j)]
                    0 <= m < i + 1 && (partial_match || results@[m].remaining@.len() == 0) && results@[m].children@.len()
                        == 0 && !uses_wildcard(results@[m]) && rule_used(self.rulesets@, results@[m], j) implies exists|o: int|
                        0 <= o < out@.len() && (#[trigger] out@[o]).remaining@ == results@[m].remaining@
                            && out@[o].children@.len() == 0 && !uses_wildcard(out@[o]) && rule_used(
                            self.rulesets@,
                            out@[o],
                            j,
                        ) by {
                    if m < i {
                        let o = choose|o: int|
                            0 <= o < before.len() && (#[trigger] before[o]).remaining@ == results@[m].remaining@
                                && before[o].children@.len() == 0 && !uses_wildcard(before[o]) && rule_used(
                                self.rulesets@,
                                before[o],
                                j,
                            );
                        assert(out@[o] == before[o]);
                    } else {
                        assert(out@[out@.len() - 1].remaining@ == results@[m].remaining@);
                    }
                }
                assert forall|m: int| 0 <= m < out@.len() implies #[trigger] derived(self.rulesets@, b, out@[m]) by {
                    if m < before.len() {
                        assert(out@[m] == before[m]);
                    }
                }
            }
            i += 1;
        }
        proof {
            assert forall|j: int, k: int|
                #[trigger] prefix_rule_at(self.rulesets@, "::"@, text@, j, k) && (partial_match || k == text@.len())
                    implies prefix_result(out@, self.rulesets@, text@, j, k) by {
                let m = choose|m: int|
                    0 <= m < results@.len() && (#[trigger] results@[m]).remaining@ == text@.skip(k)
                        && results@[m].children@.len() == 0 && !uses_wildcard(results@[m]) && rule_used(
                        self.rulesets@,
                        results@[m],
                        j,
                    );
                assert(results@[m].remaining@.len() == text@.len() - k);
            }
        }
        out
    }

    /// The best translation of the whole text: among the complete matches against the
    /// root ruleset, the first most specific one. Every translation it gives is built by
    /// the rules: a rule's translation with the translations of what its references
    /// matched in their places, captures translated again or kept as they are.
    pub fn translate(&self, text: &str) -> (r: Option<String>)
        requires
            rules_wf(self.rulesets@),
        ensures
            has_exact_rule(self.rulesets@, "::"@, text@) ==> r is Some,
            r is None <==> !has_complete_match(self.rulesets@, self.replacers@, text@),
            r matches Some(t) ==> rule_translation(self.rulesets@, text@, t@),
            exists|all: Seq<ResultTree>|
                {
                    &&& taken(all, text@) == all_ends(self.rulesets@, self.replacers@, text@, false)
                    &&& forall|i: int|
                        0 <= i < all.len() ==> rule_used(
                            self.rulesets@,
                            #[trigger] all[i],
                            all_rules(self.rulesets@, self.replacers@, text@, false)[i],
                        )
                    &&& forall|i: int|
                        0 <= i < all.len() ==> sound(#[trigger] all[i], text@) && all[i].remaining@.len()
                            == 0 && all[i].identifier@ == "::"@ && derived(
                            self.rulesets@,
                            MAX_CAPTURE_DEPTH as nat,
                            all[i],
                        )
                    &&& forall|j: int|
                        #[trigger] prefix_rule_at(self.rulesets@, "::"@, text@, j, text@.len() as int)
                            ==> prefix_result(all, self.rulesets@, text@, j, text@.len() as int)
                    &&& (r is None <==> all.len() == 0)
                    &&& (r matches Some(t) ==> exists|i: int|
                        is_first_best(specs_of(all), i) && t@ == all[i].translated@)
                    &&& (has_exact_rule(self.rulesets@, "::"@, text@) ==> (r matches Some(t) && exists|i: int|
                        is_first_best(specs_of(all), i) && t@ == all[i].translated@ && !uses_wildcard(all[i])))
                },
    {
        let results = self.get_all_translations(text, false);
        let r = best_translation(&results);
        assert(forall|i: int| 0 <= i < results@.len() ==> sound(#[trigger] results@[i], text@) && results@[i].remaining@.len() == 0);
        proof {
            if r is Some {
                let t = r->Some_0;
                let i = choose|i: int| is_first_best(specs_of(results@), i) && t@ == results@[i].translated@;
                let tree = results@[i];
                assert(sound(tree, text@));
                assert(complete_match(tree, text@));
                assert(tree.translated@ == t@);
            }
            if has_exact_rule(self.rulesets@, "::"@, text@) {
                let k = choose|k: int|
                    0 <= k < results@.len() && (#[trigger] results@[k]).remaining@.len() == 0 && !uses_wildcard(results@[k]);
                let t = r->Some_0;
                let i = choose|i: int| is_first_best(specs_of(results@), i) && t@ == results@[i].translated@;
                lemma_best_avoids_wildcards(results@, i, k);
            }
        }
        r
    }
}

/// A ruleset file read from disk: its name for messages, its path under the ruleset
/// directory, and its contents.
#[derive(Debug)]
pub struct LoadedFile {
    pub file_name: String,
    pub relative_path: String,
    pub file: crate::ruleset::RuleSetFile,
}

impl Translator {
    /// Loads one ruleset file into the rulesets (see `RuleSets::parse_file`).
    pub fn parse_file(
        &mut self,
        file_name: &str,
        relative_path: &str,
        separator: char,
        file: &crate::ruleset::RuleSetFile,
        visited_root: &mut Option<String>,
    ) -> (r: Result<(), crate::ruleset::RuleError>)
        requires
            rules_wf(old(self).rulesets@),
        ensures
            final(self).replacers@ == old(self).replacers@,
            crate::ruleset::opt_chars(*final(visited_root)) == if file.base is None
                && *old(visited_root) is None {
                Some(file_name@)
            } else {
                crate::ruleset::opt_chars(*old(visited_root))
            },
            match crate::ruleset::file_outcome(
                old(self).rulesets@,
                file_name@,
                relative_path@,
                separator,
                crate::ruleset::opt_chars(file.base),
                crate::ruleset::entries_view(file),
                crate::ruleset::opt_chars(*old(visited_root)),
            ) {
                Ok(m) => r is Ok && final(self).rulesets@ == m,
                Err(e) => r matches Err(x) && x@ == e,
            },
            rules_wf(final(self).rulesets@),
    {
        let r = self.rulesets.parse_file(file_name, relative_path, separator, file, visited_root);
        proof {
            if r is Ok {
                let b = match crate::ruleset::opt_chars(file.base) {
                    Some(x) => x,
                    None => seq![],
                };
                let es = crate::ruleset::entries_view(file);
                lemma_add_entries_wf(old(self).rulesets@, b, es, es.len() as int);
            }
        }
        r
    }

    /// Checks that every reference of every rule names a registered replacer or an
    /// existing ruleset.
    pub fn validate_references(&self) -> (r: Result<(), crate::ruleset::RuleError>)
        ensures
            match crate::ruleset::sets_ref_error(
                self.rulesets@,
                crate::replacer::replacer_names(self.replacers@),
                self.rulesets@.len() as int,
            ) {
                Some(e) => r matches Err(x) && x@ == e,
                None => r is Ok,
            },
    {
        self.rulesets.validate_references(&self.replacers)
    }

    /// Loads ruleset files in the given order, each with `separator` between the
    /// directories of its path, and then checks every reference. The first error stops
    /// the loading.
    pub fn load_files(&mut self, files: &Vec<LoadedFile>, separator: char) -> (r: Result<
        (),
        crate::ruleset::RuleError,
    >)
        requires
            rules_wf(old(self).rulesets@),
        ensures
            rules_wf(final(self).rulesets@),
            final(self).replacers@ == old(self).replacers@,
            match load_outcome(old(self).rulesets@, files@, separator, files@.len() as int) {
                Err(e) => r matches Err(x) && x@ == e,
                Ok((m, _)) => final(self).rulesets@ == m && match crate::ruleset::sets_ref_error(
                    m,
                    crate::replacer::replacer_names(old(self).replacers@),
                    m.len() as int,
                ) {
                    Some(e) => r matches Err(x) && x@ == e,
                    None => r is Ok,
                },
            },
    {
        let mut visited_root: Option<String> = None;
        let mut i: usize = 0;
        while i < files.len()
            invariant
                i <= files.len(),
                rules_wf(self.rulesets@),
                self.replacers@ == old(self).replacers@,
                load_outcome(old(self).rulesets@, files@, separator, i as int) == Ok::<
                    (RuleSetsView, Option<Seq<char>>),
                    crate::ruleset::RuleErrorView,
                >((self.rulesets@, crate::ruleset::opt_chars(visited_root))),
            decreases files.len() - i,
        {
            let f = &files[i];
            match self.parse_file(
                f.file_name.as_str(),
                f.relative_path.as_str(),
                separator,
                &f.file,
                &mut visited_root,
            ) {
                Ok(()) => {},
                Err(e) => {
                    proof {
                        lemma_load_outcome_err(old(self).rulesets@, files@, separator, i as int);
                    }
                    return Err(e);
                },
            }
            i += 1;
        }
        self.validate_references()
    }
}

/// The rulesets after the first `n` files were parsed in order, and the file seen
/// without a base namespace; or the first error.
pub open spec fn load_outcome(sets: RuleSetsView, files: Seq<LoadedFile>, sep: char, n: int) -> Result<
    (RuleSetsView, Option<Seq<char>>),
    crate::ruleset::RuleErrorView,
>
    decreases n,
{
    if n <= 0 {
        Ok((sets, None))
    } else {
        match load_outcome(sets, files, sep, n - 1) {
            Err(e) => Err(e),
            Ok((s, v)) => {
                let f = files[n - 1];
                match crate::ruleset::file_outcome(
                    s,
                    f.file_name@,
                    f.relative_path@,
                    sep,
                    crate::ruleset::opt_chars(f.file.base),
                    crate::ruleset::entries_view(&f.file),
                    v,
                ) {
                    Err(e) => Err(e),
                    Ok(m) => Ok(
                        (
                            m,
                            if f.file.base is None && v is None {
                                Some(f.file_name@)
                            } else {
                                v
                            },
                        ),
                    ),
                }
            },
        }
    }
}

/// Once a file fails, loading more files fails with the same error.
pub proof fn lemma_load_outcome_err(sets: RuleSetsView, files: Seq<LoadedFile>, sep: char, n: int)
    requires
        0 <= n < files.len(),
        load_outcome(sets, files, sep, n + 1) is Err,
    ensures
        load_outcome(sets, files, sep, files.len() as int) == load_outcome(sets, files, sep, n + 1),
    decreases files.len() - n,
{
    if n + 1 < files.len() {
        lemma_load_outcome_err(sets, files, sep, n + 1);
    }
}

/// The rules' translations reference only what their originals reference.
pub open spec fn rule_list_wf(rules: Seq<crate::ruleset::RuleView>) -> bool {
    forall|j: int| 0 <= j < rules.len() ==> refs_covered(#[trigger] rules[j].1, references(rules[j].0))
}

/// A rule that passed the file checks refers in its translation only to references of its original.
pub proof fn lemma_checked_rule_wf(base: Seq<char>, id: Seq<char>, o: Seq<char>, t: Seq<char>)
    requires
        crate::ruleset::checked_rule(base, id, o, t) is Ok,
    ensures
        ({
            let r = crate::ruleset::checked_rule(base, id, o, t)->Ok_0;
            refs_covered(r.1, references(r.0))
        }),
{
    let r = crate::ruleset::checked_rule(base, id, o, t)->Ok_0;
    let known = references(r.0);
    let refs = references(r.1);
    assert forall|i: int|
        #![trigger r.1[i]]
        0 <= i < r.1.len() implies (r.1[i] matches TokenView::Reference(x) ==> known.contains(x)) by {
        if let TokenView::Reference(x) = r.1[i] {
            lemma_references(r.1, x);
            let k = choose|k: int| 0 <= k < refs.len() && refs[k] == x;
            assert(known.contains(refs[k]));
        }
    }
}

/// Inserting a rule whose translation refers only to its original's references keeps the rules well formed.
pub proof fn lemma_insert_rule_wf(rules: Seq<crate::ruleset::RuleView>, k: Seq<TokenView>, v: Seq<TokenView>)
    requires
        rule_list_wf(rules),
        refs_covered(v, references(k)),
    ensures
        rule_list_wf(crate::ruleset::insert_rule(rules, k, v)),
{
    let out = crate::ruleset::insert_rule(rules, k, v);
    crate::ruleset::lemma_rule_index(rules, k);
    assert forall|j: int| 0 <= j < out.len() implies refs_covered(#[trigger] out[j].1, references(out[j].0)) by {
        match crate::ruleset::rule_index(rules, k) {
            Some(i) => {
                if j != i {
                    assert(out[j] == rules[j]);
                }
            },
            None => {
                if j < rules.len() {
                    assert(out[j] == rules[j]);
                }
            },
        }
    }
}

/// Adding the written rules of an entry keeps the rules well formed.
pub proof fn lemma_add_rules_wf(
    rules: Seq<crate::ruleset::RuleView>,
    base: Seq<char>,
    id: Seq<char>,
    written: Seq<(Seq<char>, Seq<char>)>,
    n: int,
)
    requires
        rule_list_wf(rules),
        crate::ruleset::add_rules(rules, base, id, written, n) is Ok,
    ensures
        rule_list_wf(crate::ruleset::add_rules(rules, base, id, written, n)->Ok_0),
    decreases n,
{
    if n > 0 {
        lemma_add_rules_wf(rules, base, id, written, n - 1);
        let rs = crate::ruleset::add_rules(rules, base, id, written, n - 1)->Ok_0;
        lemma_checked_rule_wf(base, id, written[n - 1].0, written[n - 1].1);
        let r = crate::ruleset::checked_rule(base, id, written[n - 1].0, written[n - 1].1)->Ok_0;
        lemma_insert_rule_wf(rs, r.0, r.1);
    }
}

/// Adding the first `k` rules of an entry keeps the rulesets well formed.
pub proof fn lemma_entry_prefix_wf(sets: RuleSetsView, base: Seq<char>, e: crate::ruleset::EntryView, k: int)
    requires
        rules_wf(sets),
        0 <= k,
        ({
            let id = crate::ruleset::ruleset_identifier(base, e.name);
            let ss = crate::ruleset::ensure_set(sets, id);
            let i = crate::ruleset::set_index(ss, id).unwrap();
            let start = if e.optional {
                crate::ruleset::insert_rule(
                    ss[i].1,
                    crate::ruleset::empty_rule_tokens(),
                    crate::ruleset::empty_rule_tokens(),
                )
            } else {
                ss[i].1
            };
            crate::ruleset::add_rules(start, base, id, e.rules, k) is Ok
        }),
    ensures
        ({
            let id = crate::ruleset::ruleset_identifier(base, e.name);
            let ss = crate::ruleset::ensure_set(sets, id);
            let i = crate::ruleset::set_index(ss, id).unwrap();
            let start = if e.optional {
                crate::ruleset::insert_rule(
                    ss[i].1,
                    crate::ruleset::empty_rule_tokens(),
                    crate::ruleset::empty_rule_tokens(),
                )
            } else {
                ss[i].1
            };
            rules_wf(ss.update(i, (id, crate::ruleset::add_rules(start, base, id, e.rules, k)->Ok_0)))
        }),
{
    let id = crate::ruleset::ruleset_identifier(base, e.name);
    let ss = crate::ruleset::ensure_set(sets, id);
    crate::ruleset::lemma_set_index(ss, id);
    crate::ruleset::lemma_set_index(sets, id);
    let i = crate::ruleset::set_index(ss, id).unwrap();
    assert(rules_wf(ss)) by {
        assert forall|k2: int, j: int|
            0 <= k2 < ss.len() && 0 <= j < ss[k2].1.len() implies refs_covered(
            #[trigger] ss[k2].1[j].1,
            references(ss[k2].1[j].0),
        ) by {
            if k2 < sets.len() {
                assert(ss[k2] == sets[k2]);
            }
        }
    }
    assert(rule_list_wf(ss[i].1)) by {
        assert forall|j: int| 0 <= j < ss[i].1.len() implies refs_covered(#[trigger] ss[i].1[j].1, references(ss[i].1[j].0)) by {
            assert(refs_covered(ss[i].1[j].1, references(ss[i].1[j].0)));
        }
    }
    let start = if e.optional {
        crate::ruleset::insert_rule(
            ss[i].1,
            crate::ruleset::empty_rule_tokens(),
            crate::ruleset::empty_rule_tokens(),
        )
    } else {
        ss[i].1
    };
    if e.optional {
        let et = crate::ruleset::empty_rule_tokens();
        assert(refs_covered(et, references(et))) by {
            assert forall|x: int| #![trigger et[x]] 0 <= x < et.len() implies (et[x] matches TokenView::Reference(r) ==> references(et).contains(r)) by {
                assert(et[x] == TokenView::Literal(Seq::<char>::empty()));
            }
        }
        lemma_insert_rule_wf(ss[i].1, et, et);
    }
    lemma_add_rules_wf(start, base, id, e.rules, k);
    let rs = crate::ruleset::add_rules(start, base, id, e.rules, k)->Ok_0;
    let out = ss.update(i, (id, rs));
    assert forall|k2: int, j: int|
        0 <= k2 < out.len() && 0 <= j < out[k2].1.len() implies refs_covered(
        #[trigger] out[k2].1[j].1,
        references(out[k2].1[j].0),
    ) by {
        if k2 == i {
            assert(refs_covered(rs[j].1, references(rs[j].0)));
        } else {
            assert(out[k2] == ss[k2]);
        }
    }
}

/// Adding an entry keeps the rulesets well formed.
pub proof fn lemma_add_entry_wf(sets: RuleSetsView, base: Seq<char>, e: crate::ruleset::EntryView)
    requires
        rules_wf(sets),
        crate::ruleset::add_entry(sets, base, e) is Ok,
    ensures
        rules_wf(crate::ruleset::add_entry(sets, base, e)->Ok_0),
{
    lemma_entry_prefix_wf(sets, base, e, e.rules.len() as int);
}

/// Adding a file's entries keeps the rulesets well formed.
pub proof fn lemma_add_entries_wf(sets: RuleSetsView, base: Seq<char>, es: Seq<crate::ruleset::EntryView>, n: int)
    requires
        rules_wf(sets),
        crate::ruleset::add_entries(sets, base, es, n) is Ok,
    ensures
        rules_wf(crate::ruleset::add_entries(sets, base, es, n)->Ok_0),
    decreases n,
{
    if n > 0 {
        lemma_add_entries_wf(sets, base, es, n - 1);
        let ss = crate::ruleset::add_entries(sets, base, es, n - 1)->Ok_0;
        lemma_add_entry_wf(ss, base, es[n - 1]);
    }
}

} // verus!
