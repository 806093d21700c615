//! Replacers: matchers written in code that rules call by `%name:config` references.
use vstd::prelude::*;
use crate::engine::{ResultTree, tree_wf, child_keys};
use crate::rules::{Token, tokens_view};
use crate::strs::{
    byte_len, char_width, char_width_of, is_ws, is_whitespace, lowercase, slice_chars, str_eq,
    string_from_chars, string_of, to_chars, to_lowercase,
};
use crate::preference::{ascii_lower, ascii_lower_char};

verus! {

/// The replacers this library provides.
#[derive(Debug, Clone, Copy, PartialEq, Eq, Structural)]
pub enum ReplacerKind {
    /// Item names wrapped in designation marks, such as `-x-` or `«☼x☼»`.
    ItemDesignation,
    /// A run of ASCII digits.
    Number,
    /// One whitespace-free word, translated again afterwards.
    Word,
    /// Any text up to the next literal or the end of the line, translated again afterwards.
    Any,
}

/// The replacer that matches item designations.
#[derive(Debug, Default)]
pub struct ItemDesignationReplacer {}

/// The replacer that matches numbers.
#[derive(Debug, Default)]
pub struct NumberReplacer {}

/// The replacer that matches one word.
#[derive(Debug, Default)]
pub struct WordReplacer {}

/// The replacer that matches any text up to a boundary.
#[derive(Debug, Default)]
pub struct AnyReplacer {}

/// What the token after a replacer reference tells the replacer.
#[derive(Debug, Clone, Copy, PartialEq, Eq)]
pub struct ReplacerMatchHint<'a> {
    /// The next token, where it is a non-empty literal.
    pub next_literal: Option<&'a str>,
    /// Whether the reference is the last token of the rule.
    pub terminal: bool,
}

/// Registered replacers by name, in the order they were first registered.
#[derive(Debug)]
pub struct Replacers {
    pub entries: Vec<(String, ReplacerKind)>,
}

impl View for Replacers {
    type V = Seq<(Seq<char>, ReplacerKind)>;

    open spec fn view(&self) -> Seq<(Seq<char>, ReplacerKind)> {
        self.entries@.map_values(|e: (String, ReplacerKind)| (e.0@, e.1))
    }
}

/// The names of the registered replacers.
pub open spec fn replacer_names(r: Seq<(Seq<char>, ReplacerKind)>) -> Seq<Seq<char>> {
    r.map_values(|e: (Seq<char>, ReplacerKind)| e.0)
}

/// The replacer registered under `name`: the first entry of that name.
pub open spec fn lookup_replacer(r: Seq<(Seq<char>, ReplacerKind)>, name: Seq<char>) -> Option<
    ReplacerKind,
>
    decreases r.len(),
{
    if r.len() == 0 {
        None
    } else {
        match lookup_replacer(r.drop_last(), name) {
            Some(k) => Some(k),
            None => if r.last().0 == name {
                Some(r.last().1)
            } else {
                None
            },
        }
    }
}

/// A replacer is found exactly where its name is registered.
pub proof fn lemma_lookup_replacer(r: Seq<(Seq<char>, ReplacerKind)>, name: Seq<char>)
    ensures
        (lookup_replacer(r, name) is Some) == replacer_names(r).contains(name),
    decreases r.len(),
{
    if r.len() > 0 {
        lemma_lookup_replacer(r.drop_last(), name);
        assert(replacer_names(r.drop_last()) =~= replacer_names(r).drop_last());
        if replacer_names(r).contains(name) {
            let i = choose|i: int| 0 <= i < replacer_names(r).len() && replacer_names(r)[i] == name;
            if i < r.len() - 1 {
                assert(replacer_names(r.drop_last())[i] == name);
            }
        }
        if replacer_names(r.drop_last()).contains(name) {
            let i = choose|i: int|
                0 <= i < replacer_names(r.drop_last()).len() && replacer_names(r.drop_last())[i]
                    == name;
            assert(replacer_names(r)[i] == name);
        }
        if r.last().0 == name {
            assert(replacer_names(r)[r.len() - 1] == name);
        }
    }
}

/// `IndexMap::insert`: a name registered again keeps its place with the new replacer.
pub open spec fn register(r: Seq<(Seq<char>, ReplacerKind)>, name: Seq<char>, kind: ReplacerKind) -> Seq<
    (Seq<char>, ReplacerKind),
> {
    if exists|i: int| 0 <= i < r.len() && r[i].0 == name {
        let i = choose|i: int| 0 <= i < r.len() && r[i].0 == name;
        r.update(i, (name, kind))
    } else {
        r.push((name, kind))
    }
}

/// Names occur at most once.
pub open spec fn distinct_names(r: Seq<(Seq<char>, ReplacerKind)>) -> bool {
    forall|i: int, j: int| 0 <= i < j < r.len() ==> r[i].0 != r[j].0
}

impl Replacers {
    /// No replacers.
    pub fn new() -> (r: Self)
        ensures
            r@ == Seq::<(Seq<char>, ReplacerKind)>::empty(),
    {
        Replacers { entries: Vec::new() }
    }

    /// The replacer registered under `name`.
    pub fn get(&self, name: &str) -> (r: Option<ReplacerKind>)
        ensures
            r == lookup_replacer(self@, name@),
    {
        let mut i: usize = 0;
        while i < self.entries.len()
            invariant
                i <= self.entries.len(),
                lookup_replacer(self@.take(i as int), name@) is None,
            decreases self.entries.len() - i,
        {
            assert(self@.take(i + 1).drop_last() =~= self@.take(i as int));
            if str_eq(self.entries[i].0.as_str(), name) {
                assert(lookup_replacer(self@.take(i + 1), name@) == Some(self.entries[i as int].1));
                proof {
                    lemma_lookup_prefix(self@, name@, i + 1);
                }
                return Some(self.entries[i].1);
            }
            i += 1;
        }
        assert(self@.take(self.entries.len() as int) =~= self@);
        None
    }

    /// Whether a replacer is registered under `name`.
    pub fn contains_key(&self, name: &str) -> (r: bool)
        ensures
            r == replacer_names(self@).contains(name@),
    {
        proof {
            lemma_lookup_replacer(self@, name@);
        }
        self.get(name).is_some()
    }

    /// Registers a replacer under `name`, replacing one already registered so.
    pub fn register_replacer(&mut self, name: &str, kind: ReplacerKind)
        requires
            distinct_names(old(self)@),
        ensures
            distinct_names(final(self)@),
            final(self)@ == register(old(self)@, name@, kind),
    {
        let mut i: usize = 0;
        while i < self.entries.len()
            invariant
                i <= self.entries.len(),
                self@ == old(self)@,
                distinct_names(old(self)@),
                forall|j: int| 0 <= j < i ==> self@[j].0 != name@,
            decreases self.entries.len() - i,
        {
            if str_eq(self.entries[i].0.as_str(), name) {
                assert(old(self)@[i as int].0 == name@);
                self.entries.set(i, (name.to_owned(), kind));
                proof {
                    let k = choose|k: int| 0 <= k < old(self)@.len() && old(self)@[k].0 == name@;
                    assert(k == i);
                }
                assert(self@ =~= old(self)@.update(i as int, (name@, kind)));
                return;
            }
            i += 1;
        }
        self.entries.push((name.to_owned(), kind));
        assert(self@ =~= old(self)@.push((name@, kind)));
    }
}

/// A replacer found in a prefix is the one found in the whole.
pub proof fn lemma_lookup_prefix(r: Seq<(Seq<char>, ReplacerKind)>, name: Seq<char>, n: int)
    requires
        0 <= n <= r.len(),
        lookup_replacer(r.take(n), name) is Some,
    ensures
        lookup_replacer(r, name) == lookup_replacer(r.take(n), name),
    decreases r.len() - n,
{
    if n < r.len() {
        assert(r.take(n + 1).drop_last() =~= r.take(n));
        lemma_lookup_prefix(r, name, n + 1);
    } else {
        assert(r.take(n) =~= r);
    }
}

/// Registers the replacers that rules can use.
pub fn register_default_replacers(replacers: &mut Replacers)
    requires
        distinct_names(old(replacers)@),
    ensures
        distinct_names(final(replacers)@),
        final(replacers)@ == register(
            register(
                register(
                    register(old(replacers)@, "item_designation"@, ReplacerKind::ItemDesignation),
                    "number"@,
                    ReplacerKind::Number,
                ),
                "word"@,
                ReplacerKind::Word,
            ),
            "any"@,
            ReplacerKind::Any,
        ),
{
    replacers.register_replacer("item_designation", ReplacerKind::ItemDesignation);
    replacers.register_replacer("number", ReplacerKind::Number);
    replacers.register_replacer("word", ReplacerKind::Word);
    replacers.register_replacer("any", ReplacerKind::Any);
}

/// The largest number of candidates a wildcard offers.
pub const MAX_WILDCARD_CANDIDATES: usize = 64;

/// The largest number of bytes a wildcard captures.
pub const MAX_WILDCARD_CAPTURE_BYTES: usize = 4096;

/// The first position at or after `i` whose character satisfies `stop`, or the end.
pub open spec fn first_stop(s: Seq<char>, i: int, stop: spec_fn(char) -> bool) -> int
    decreases s.len() - i,
{
    if i < 0 || i >= s.len() || stop(s[i]) {
        i
    } else {
        first_stop(s, i + 1, stop)
    }
}

/// The first stopping character from `i` is found within `s`.
pub proof fn lemma_first_stop(s: Seq<char>, i: int, stop: spec_fn(char) -> bool)
    requires
        0 <= i <= s.len(),
    ensures
        i <= first_stop(s, i, stop) <= s.len(),
    decreases s.len() - i,
{
    if i < s.len() && !stop(s[i]) {
        lemma_first_stop(s, i + 1, stop);
    }
}

/// The position `c` at or after `i` where the text before it has `b` bytes, given that
/// the text before `i` has `acc` bytes.
pub open spec fn char_at_bytes(s: Seq<char>, i: int, acc: int, b: int) -> Option<int>
    decreases s.len() - i,
{
    if acc == b {
        Some(i)
    } else if i < 0 || i >= s.len() || acc > b {
        None
    } else {
        char_at_bytes(s, i + 1, acc + char_width(s[i]), b)
    }
}

/// The end of a wildcard capture: the first stop character, but no more than
/// `MAX_WILDCARD_CAPTURE_BYTES` bytes; none where that is empty or cuts a character.
pub open spec fn capture_end(s: Seq<char>, stop: spec_fn(char) -> bool) -> Option<int> {
    let w = first_stop(s, 0, stop);
    if byte_len(s.take(w)) <= MAX_WILDCARD_CAPTURE_BYTES {
        if w == 0 {
            None
        } else {
            Some(w)
        }
    } else {
        char_at_bytes(s, 0, 0, MAX_WILDCARD_CAPTURE_BYTES as int)
    }
}

/// Whether `lit` is a prefix of `s`.
pub open spec fn is_prefix(lit: Seq<char>, s: Seq<char>) -> bool {
    lit.len() <= s.len() && s.take(lit.len() as int) == lit
}

/// Whether `s` begins with `lit` ignoring ASCII case, or in Unicode lower case.
pub open spec fn starts_ci(s: Seq<char>, lit: Seq<char>) -> bool {
    (lit.len() <= s.len() && ascii_lower(s.take(lit.len() as int)) == ascii_lower(lit)) || is_prefix(
        crate::strs::lower_text(lit),
        crate::strs::lower_text(s),
    )
}

/// The capture ends from `c` down to 1 after which the text begins with `lit`, at most
/// `budget` of them.
pub open spec fn cut_list(s: Seq<char>, c: int, lit: Seq<char>, budget: int) -> Seq<int>
    decreases c,
{
    if c < 1 || budget <= 0 {
        seq![]
    } else if starts_ci(s.skip(c), lit) {
        seq![c] + cut_list(s, c - 1, lit, budget - 1)
    } else {
        cut_list(s, c - 1, lit, budget)
    }
}

/// The text of a wildcard reference written back in braces.
pub open spec fn braced(id: Seq<char>) -> Seq<char> {
    seq!['{'] + id + seq!['}']
}

/// `t` is the capture of `s[..c]` by the replacer `id`.
pub open spec fn is_capture(t: ResultTree, id: Seq<char>, s: Seq<char>, c: int) -> bool {
    &&& 0 <= c <= s.len()
    &&& t.identifier@ == id
    &&& t.original@ == braced(id)
    &&& t.matched@ == s.take(c)
    &&& t.translated@ == s.take(c)
    &&& t.remaining@ == s.skip(c)
    &&& t.children@.len() == 0
    &&& tokens_view(t.match_tokens@).len() == 0
    &&& tokens_view(t.translation_tokens@).len() == 0
}

/// The results are the captures at the given ends, in order.
pub open spec fn captures_at(r: Seq<ResultTree>, id: Seq<char>, s: Seq<char>, ends: Seq<int>) -> bool {
    r.len() == ends.len() && forall|i: int| 0 <= i < r.len() ==> is_capture(#[trigger] r[i], id, s, ends[i])
}

/// The capture of `v[..c]` by the replacer `identifier`.
fn capture(identifier: &str, v: &Vec<char>, c: usize) -> (r: ResultTree)
    requires
        c <= v.len(),
    ensures
        is_capture(r, identifier@, v@, c as int),
        tree_wf(r),
{
    let mut original = String::new();
    original.push('{');
    crate::strs::push_str(&mut original, identifier);
    original.push('}');
    assert(original@ =~= braced(identifier@));
    let matched = string_of(v, 0, c);
    let translated = string_of(v, 0, c);
    let remaining = string_of(v, c, v.len());
    assert(v@.subrange(0, c as int) =~= v@.take(c as int));
    assert(v@.subrange(c as int, v@.len() as int) =~= v@.skip(c as int));
    let r = ResultTree::new(
        identifier.to_owned(),
        original,
        matched,
        translated,
        remaining,
        Vec::new(),
        Vec::new(),
        Vec::new(),
    );
    proof {
        assert(child_keys(r.children@) =~= Seq::<Seq<char>>::empty());
        crate::engine::lemma_tree_wf_intro(r);
    }
    r
}

/// Whether the text from `from` on begins with the literal, ignoring ASCII case or in
/// Unicode lower case.
fn starts_with_case_insensitive(v: &Vec<char>, from: usize, lit: &Vec<char>, lit_lower: &Vec<char>) -> (r: bool)
    requires
        from <= v.len(),
        lit_lower@ == crate::strs::lower_text(lit@),
    ensures
        r == starts_ci(v@.skip(from as int), lit@),
{
    let rest = slice_chars(v, from, v.len());
    assert(rest@ =~= v@.skip(from as int));
    if lit.len() <= rest.len() {
        let head = slice_chars(&rest, 0, lit.len());
        assert(head@ =~= rest@.take(lit.len() as int));
        let a = crate::preference::ascii_lower_chars(&head);
        let b = crate::preference::ascii_lower_chars(lit);
        if crate::strs::chars_eq(&a, &b) {
            return true;
        }
    }
    let rest_text = string_from_chars(&rest);
    let lowered = to_lowercase(rest_text.as_str());
    let lv = to_chars(lowered.as_str());
    let r = crate::strs::starts_with_at(&lv, 0, lit_lower);
    assert(r == is_prefix(lit_lower@, lv@)) by {
        if lit_lower@.len() <= lv@.len() {
            assert(lv@.subrange(0, lit_lower@.len() as int) =~= lv@.take(lit_lower@.len() as int));
        }
    }
    r
}

/// The captures whose ends run from `end` down to 1 and are followed by the literal,
/// at most `MAX_WILDCARD_CANDIDATES` of them.
fn captures_before(identifier: &str, v: &Vec<char>, end: usize, literal: &str) -> (r: Vec<
    ResultTree,
>)
    requires
        end <= v.len(),
    ensures
        captures_at(r@, identifier@, v@, cut_list(v@, end as int, literal@, MAX_WILDCARD_CANDIDATES as int)),
        forall|i: int| 0 <= i < r@.len() ==> tree_wf(#[trigger] r@[i]),
{
    let lit = to_chars(literal);
    let lowered = to_lowercase(literal);
    let lit_lower = to_chars(lowered.as_str());
    let mut out: Vec<ResultTree> = Vec::new();
    let mut c: usize = end;
    let mut budget: usize = MAX_WILDCARD_CANDIDATES;
    while c >= 1 && budget > 0
        invariant
            c <= end <= v.len(),
            budget <= MAX_WILDCARD_CANDIDATES,
            lit@ == literal@,
            lit_lower@ == crate::strs::lower_text(lit@),
            ({
                let rest = cut_list(v@, c as int, literal@, budget as int);
                let all = cut_list(v@, end as int, literal@, MAX_WILDCARD_CANDIDATES as int);
                &&& out@.len() + rest.len() == all.len()
                &&& forall|i: int| 0 <= i < rest.len() ==> rest[i] == all[out@.len() + i]
                &&& captures_at(out@, identifier@, v@, all.take(out@.len() as int))
            }),
            forall|i: int| 0 <= i < out@.len() ==> tree_wf(#[trigger] out@[i]),
        decreases c,
    {
        let ghost all = cut_list(v@, end as int, literal@, MAX_WILDCARD_CANDIDATES as int);
        let ghost k = out@.len();
        let ghost rest = cut_list(v@, c as int, literal@, budget as int);
        if starts_with_case_insensitive(v, c, &lit, &lit_lower) {
            let t = capture(identifier, v, c);
            let ghost before = out@;
            out.push(t);
            budget -= 1;
            assert(rest[0] == c as int);
            assert(rest[0] == all[k as int]);
            let ghost rest2 = cut_list(v@, c - 1, literal@, budget as int);
            assert(rest == seq![c as int] + rest2);
            assert forall|i: int| 0 <= i < rest2.len() implies rest2[i] == all[out@.len() + i] by {
                assert(rest2[i] == rest[i + 1]);
                assert(rest[i + 1] == all[k as int + (i + 1)]);
            }
            assert(all.take(out@.len() as int) =~= all.take(k as int).push(c as int));
            assert forall|i: int| 0 <= i < out@.len() implies is_capture(
                #[trigger] out@[i],
                identifier@,
                v@,
                all.take(out@.len() as int)[i],
            ) by {
                if i < k {
                    assert(out@[i] == before[i]);
                }
            }
        } else {
            assert(rest == cut_list(v@, c - 1, literal@, budget as int));
        }
        c -= 1;
    }
    proof {
        let all = cut_list(v@, end as int, literal@, MAX_WILDCARD_CANDIDATES as int);
        assert(cut_list(v@, c as int, literal@, budget as int).len() == 0);
        assert(all.take(out@.len() as int) =~= all);
    }
    out
}

/// Whether a character ends a `%word` capture.
pub open spec fn word_stop() -> spec_fn(char) -> bool {
    |c: char| is_ws(c)
}

/// Whether a character ends a `%any` capture.
pub open spec fn line_stop() -> spec_fn(char) -> bool {
    |c: char| c == '\r' || c == '\n'
}

/// Whether the character ends the capture: white space for `%word`, a line break
/// for `%any`.
fn is_stop_char(c: char, is_word: bool) -> (r: bool)
    ensures
        r == (if is_word {
            word_stop()
        } else {
            line_stop()
        })(c),
{
    if is_word {
        is_whitespace(c)
    } else {
        c == '\r' || c == '\n'
    }
}

/// The end of a `%word` (`is_word`) or `%any` capture.
fn find_capture_end(v: &Vec<char>, is_word: bool) -> (r: Option<usize>)
    ensures
        r matches Some(k) ==> 1 <= k <= v.len() && capture_end(
            v@,
            if is_word {
                word_stop()
            } else {
                line_stop()
            },
        ) == Some(k as int),
        r is None ==> capture_end(
            v@,
            if is_word {
                word_stop()
            } else {
                line_stop()
            },
        ) is None,
{
    let ghost stop = if is_word {
        word_stop()
    } else {
        line_stop()
    };
    let n = v.len();
    let mut w: usize = 0;
    let mut bytes: usize = 0;
    while w < n && !is_stop_char(v[w], is_word)
        invariant
            n == v.len(),
            w <= n,
            stop == if is_word {
                word_stop()
            } else {
                line_stop()
            },
            first_stop(v@, w as int, stop) == first_stop(v@, 0, stop),
            bytes == crate::strs::sat(byte_len(v@.take(w as int)) as int),
        decreases n - w,
    {
        assert(v@.take(w + 1).drop_last() =~= v@.take(w as int));
        bytes = bytes.saturating_add(char_width_of(v[w]));
        w += 1;
    }
    assert(first_stop(v@, w as int, stop) == w);
    if bytes <= MAX_WILDCARD_CAPTURE_BYTES {
        if w == 0 {
            return None;
        }
        return Some(w);
    }
    let mut c: usize = 0;
    let mut acc: usize = 0;
    while acc < MAX_WILDCARD_CAPTURE_BYTES && c < n
        invariant
            n == v.len(),
            c <= n,
            acc <= MAX_WILDCARD_CAPTURE_BYTES + 4,
            c == 0 ==> acc == 0,
            char_at_bytes(v@, c as int, acc as int, MAX_WILDCARD_CAPTURE_BYTES as int)
                == char_at_bytes(v@, 0, 0, MAX_WILDCARD_CAPTURE_BYTES as int),
        decreases n - c,
    {
        acc = acc + char_width_of(v[c]);
        c += 1;
    }
    if acc == MAX_WILDCARD_CAPTURE_BYTES {
        assert(c >= 1);
        Some(c)
    } else {
        None
    }
}

/// The captures a wildcard offers: with a following literal, every capture end from the
/// furthest down to the first character after which the text begins with the literal
/// (at most `MAX_WILDCARD_CANDIDATES`); otherwise the whole capture.
pub open spec fn word_ends(s: Seq<char>, next_literal: Option<Seq<char>>) -> Seq<int> {
    match capture_end(s, word_stop()) {
        None => seq![],
        Some(k) => match next_literal {
            Some(l) => cut_list(s, k, l, MAX_WILDCARD_CANDIDATES as int),
            None => seq![k],
        },
    }
}

/// The captures `%any` offers: the rest of the line where it is last in its rule,
/// otherwise the capture ends followed by the next literal, as for `%word`.
pub open spec fn any_ends(s: Seq<char>, next_literal: Option<Seq<char>>, terminal: bool) -> Seq<
    int,
> {
    match capture_end(s, line_stop()) {
        None => seq![],
        Some(k) => if terminal {
            seq![k]
        } else {
            match next_literal {
                Some(l) => cut_list(s, k, l, MAX_WILDCARD_CANDIDATES as int),
                None => seq![],
            }
        },
    }
}

/// The text of an optional literal.
pub open spec fn opt_str(o: Option<&str>) -> Option<Seq<char>> {
    match o {
        Some(s) => Some(s@),
        None => None,
    }
}

impl WordReplacer {
    /// Captures one word at the start of `text`: up to the first white space, within
    /// `MAX_WILDCARD_CAPTURE_BYTES`.
    pub fn replace(&self, identifier: &str, text: &str, hint: ReplacerMatchHint<'_>) -> (r: Vec<
        ResultTree,
    >)
        ensures
            captures_at(r@, identifier@, text@, word_ends(text@, opt_str(hint.next_literal))),
            forall|i: int| 0 <= i < r@.len() ==> tree_wf(#[trigger] r@[i]),
    {
        let v = to_chars(text);
        let end = match find_capture_end(&v, true) {
            Some(k) => k,
            None => return Vec::new(),
        };
        match hint.next_literal {
            Some(literal) => captures_before(identifier, &v, end, literal),
            None => {
                let t = capture(identifier, &v, end);
                let r = vec![t];
                assert(r@ =~= seq![t]);
                r
            },
        }
    }
}

impl AnyReplacer {
    /// Captures text at the start of `text` up to the end of the line, within
    /// `MAX_WILDCARD_CAPTURE_BYTES`: all of it where the reference ends its rule, else
    /// each capture followed by the next literal.
    pub fn replace(&self, identifier: &str, text: &str, hint: ReplacerMatchHint<'_>) -> (r: Vec<
        ResultTree,
    >)
        ensures
            captures_at(
                r@,
                identifier@,
                text@,
                any_ends(text@, opt_str(hint.next_literal), hint.terminal),
            ),
            forall|i: int| 0 <= i < r@.len() ==> tree_wf(#[trigger] r@[i]),
    {
        let v = to_chars(text);
        let end = match find_capture_end(&v, false) {
            Some(k) => k,
            None => return Vec::new(),
        };
        if hint.terminal {
            let t = capture(identifier, &v, end);
            let r = vec![t];
            assert(r@ =~= seq![t]);
            return r;
        }
        match hint.next_literal {
            Some(literal) => captures_before(identifier, &v, end, literal),
            None => Vec::new(),
        }
    }
}

/// The number of ASCII digits at the start of `s` from `i` on.
pub open spec fn digits_end(s: Seq<char>, i: int) -> int
    decreases s.len() - i,
{
    if 0 <= i < s.len() && '0' <= s[i] <= '9' {
        digits_end(s, i + 1)
    } else {
        i
    }
}

impl NumberReplacer {
    /// Captures each non-empty run of ASCII digits at the start of `text`, shortest first.
    pub fn replace(&self, identifier: &str, text: &str) -> (r: Vec<ResultTree>)
        ensures
            captures_at(
                r@,
                identifier@,
                text@,
                Seq::new((digits_end(text@, 0) as nat), |i: int| i + 1),
            ),
            forall|i: int| 0 <= i < r@.len() ==> tree_wf(#[trigger] r@[i]),
    {
        let v = to_chars(text);
        let mut out: Vec<ResultTree> = Vec::new();
        let mut k: usize = 0;
        while k < v.len() && '0' <= v[k] && v[k] <= '9'
            invariant
                k <= v.len(),
                digits_end(v@, k as int) == digits_end(v@, 0),
                captures_at(out@, identifier@, v@, Seq::new(k as nat, |i: int| i + 1)),
                forall|i: int| 0 <= i < out@.len() ==> tree_wf(#[trigger] out@[i]),
            decreases v.len() - k,
        {
            let t = capture(identifier, &v, k + 1);
            out.push(t);
            k += 1;
        }
        proof {
            assert(digits_end(v@, k as int) == k);
            assert(Seq::new(k as nat, |i: int| i + 1) =~= Seq::new(
                (digits_end(text@, 0) as nat),
                |i: int| i + 1,
            ));
        }
        out
    }
}

/// The bytes of a prefix grow with its length.
pub proof fn lemma_byte_len_take_mono(s: Seq<char>, a: int, b: int)
    requires
        0 <= a <= b <= s.len(),
    ensures
        byte_len(s.take(a)) <= byte_len(s.take(b)),
        a < b ==> byte_len(s.take(a)) < byte_len(s.take(b)),
    decreases b - a,
{
    if a < b {
        lemma_byte_len_take_mono(s, a, b - 1);
        assert(s.take(b).drop_last() =~= s.take(b - 1));
    }
}

proof fn lemma_first_stop_clear(s: Seq<char>, i: int, stop: spec_fn(char) -> bool, j: int)
    requires
        0 <= i <= j < first_stop(s, i, stop),
        first_stop(s, i, stop) <= s.len(),
    ensures
        !stop(s[j]),
    decreases s.len() - i,
{
    if i < j {
        lemma_first_stop_clear(s, i + 1, stop, j);
    }
}

proof fn lemma_char_at_bytes(s: Seq<char>, i: int, acc: int, b: int)
    requires
        0 <= i <= s.len(),
        acc == byte_len(s.take(i)),
    ensures
        char_at_bytes(s, i, acc, b) matches Some(c) ==> i <= c <= s.len() && byte_len(s.take(c)) == b,
    decreases s.len() - i,
{
    if acc != b && i < s.len() && acc <= b {
        assert(s.take(i + 1).drop_last() =~= s.take(i));
        lemma_char_at_bytes(s, i + 1, acc + char_width(s[i]), b);
    }
}

/// A capture ends after at least one character, before any stop character, and within
/// `MAX_WILDCARD_CAPTURE_BYTES` bytes.
pub proof fn lemma_capture_end_bounds(s: Seq<char>, stop: spec_fn(char) -> bool)
    ensures
        capture_end(s, stop) matches Some(k) ==> {
            &&& 1 <= k <= s.len()
            &&& byte_len(s.take(k)) <= MAX_WILDCARD_CAPTURE_BYTES
            &&& forall|j: int| 0 <= j < k ==> !stop(#[trigger] s[j])
        },
{
    let w = first_stop(s, 0, stop);
    lemma_first_stop(s, 0, stop);
    if byte_len(s.take(w)) > MAX_WILDCARD_CAPTURE_BYTES {
        assert(s.take(0) =~= Seq::<char>::empty());
        lemma_char_at_bytes(s, 0, 0, MAX_WILDCARD_CAPTURE_BYTES as int);
        if let Some(c) = char_at_bytes(s, 0, 0, MAX_WILDCARD_CAPTURE_BYTES as int) {
            if c >= w {
                lemma_byte_len_take_mono(s, w, c);
            }
            assert(c < w);
            if c == 0 {
                assert(s.take(0) =~= Seq::<char>::empty());
            }
        }
    }
    if let Some(k) = capture_end(s, stop) {
        assert forall|j: int| 0 <= j < k implies !stop(#[trigger] s[j]) by {
            lemma_first_stop_clear(s, 0, stop, j);
        }
    }
}

proof fn lemma_cut_list_bounds(s: Seq<char>, c: int, lit: Seq<char>, budget: int)
    ensures
        cut_list(s, c, lit, budget).len() <= if budget < 0 { 0 } else { budget },
        forall|i: int|
            0 <= i < cut_list(s, c, lit, budget).len() ==> 1 <= #[trigger] cut_list(s, c, lit, budget)[i] <= c,
    decreases c,
{
    if c >= 1 && budget > 0 {
        if starts_ci(s.skip(c), lit) {
            lemma_cut_list_bounds(s, c - 1, lit, budget - 1);
            let rest = cut_list(s, c - 1, lit, budget - 1);
            assert forall|i: int| 0 <= i < cut_list(s, c, lit, budget).len() implies 1
                <= #[trigger] cut_list(s, c, lit, budget)[i] <= c by {
                if i > 0 {
                    assert(cut_list(s, c, lit, budget)[i] == rest[i - 1]);
                }
            }
        } else {
            lemma_cut_list_bounds(s, c - 1, lit, budget);
        }
    }
}

/// What wildcards capture stays bounded: at most `MAX_WILDCARD_CANDIDATES` captures per
/// step, each at least one character long, within `MAX_WILDCARD_CAPTURE_BYTES` bytes,
/// never across a line break for `%any` and never across white space for `%word`.
pub proof fn lemma_wildcard_captures_bounded(s: Seq<char>, next_literal: Option<Seq<char>>, terminal: bool)
    ensures
        any_ends(s, next_literal, terminal).len() <= MAX_WILDCARD_CANDIDATES,
        word_ends(s, next_literal).len() <= MAX_WILDCARD_CANDIDATES,
        forall|i: int|
            0 <= i < any_ends(s, next_literal, terminal).len() ==> {
                let e = #[trigger] any_ends(s, next_literal, terminal)[i];
                &&& 1 <= e <= s.len()
                &&& byte_len(s.take(e)) <= MAX_WILDCARD_CAPTURE_BYTES
                &&& forall|j: int| 0 <= j < e ==> #[trigger] s[j] != '\n' && s[j] != '\r'
            },
        forall|i: int|
            0 <= i < word_ends(s, next_literal).len() ==> {
                let e = #[trigger] word_ends(s, next_literal)[i];
                &&& 1 <= e <= s.len()
                &&& byte_len(s.take(e)) <= MAX_WILDCARD_CAPTURE_BYTES
                &&& forall|j: int| 0 <= j < e ==> !is_ws(#[trigger] s[j])
            },
{
    lemma_capture_end_bounds(s, line_stop());
    lemma_capture_end_bounds(s, word_stop());
    if let Some(k) = capture_end(s, line_stop()) {
        if let Some(l) = next_literal {
            lemma_cut_list_bounds(s, k, l, MAX_WILDCARD_CANDIDATES as int);
        }
        assert forall|i: int| 0 <= i < any_ends(s, next_literal, terminal).len() implies {
            let e = #[trigger] any_ends(s, next_literal, terminal)[i];
            &&& 1 <= e <= s.len()
            &&& byte_len(s.take(e)) <= MAX_WILDCARD_CAPTURE_BYTES
            &&& forall|j: int| 0 <= j < e ==> #[trigger] s[j] != '\n' && s[j] != '\r'
        } by {
            let e = any_ends(s, next_literal, terminal)[i];
            lemma_byte_len_take_mono(s, e, k);
            assert forall|j: int| 0 <= j < e implies #[trigger] s[j] != '\n' && s[j] != '\r' by {
                assert(!line_stop()(s[j]));
            }
        }
    }
    if let Some(k) = capture_end(s, word_stop()) {
        if let Some(l) = next_literal {
            lemma_cut_list_bounds(s, k, l, MAX_WILDCARD_CANDIDATES as int);
        }
        assert forall|i: int| 0 <= i < word_ends(s, next_literal).len() implies {
            let e = #[trigger] word_ends(s, next_literal)[i];
            &&& 1 <= e <= s.len()
            &&& byte_len(s.take(e)) <= MAX_WILDCARD_CAPTURE_BYTES
            &&& forall|j: int| 0 <= j < e ==> !is_ws(#[trigger] s[j])
        } by {
            let e = word_ends(s, next_literal)[i];
            lemma_byte_len_take_mono(s, e, k);
            assert forall|j: int| 0 <= j < e implies !is_ws(#[trigger] s[j]) by {
                assert(!word_stop()(s[j]));
            }
        }
    }
}

} // verus!
