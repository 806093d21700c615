//! Splitting a creature's preference paragraph into sentences, sections and items,
//! and composing a translation of it from translations of its parts.
use vstd::prelude::*;
use crate::strs::{
    count_char, count_chars, is_ascii_char, is_ws, is_whitespace, push_str, rsplit_once, rsplit_once_chars, slice_chars, split_once,
    split_once_chars, str_eq, string_from_chars, string_of, strip_prefix, strip_prefix_chars,
    strip_suffix, strip_suffix_char, strip_suffix_char_chars, strip_suffix_chars, to_chars, trim, trim_end_index, trim_start,
    trim_start_index,
};

verus! {

/// One section of a preference paragraph: the words that open it and the listed items.
#[derive(Debug, PartialEq, Eq)]
pub struct PreferenceSection {
    pub prefixes: Vec<String>,
    pub items: Vec<String>,
    pub join_last_with_and: bool,
}

/// A preference paragraph, cut into its three sections.
#[derive(Debug, PartialEq, Eq)]
pub struct PreferenceBlock {
    pub sections: Vec<PreferenceSection>,
}

/// A section as text: its prefixes, its items and how the last item is joined.
pub struct SectionModel {
    pub prefixes: Seq<Seq<char>>,
    pub items: Seq<Seq<char>>,
    pub join_last_with_and: bool,
}

/// The characters of each string, in order.
pub open spec fn strings_view(v: Seq<String>) -> Seq<Seq<char>> {
    v.map_values(|s: String| s@)
}

impl View for PreferenceSection {
    type V = SectionModel;

    open spec fn view(&self) -> SectionModel {
        SectionModel {
            prefixes: strings_view(self.prefixes@),
            items: strings_view(self.items@),
            join_last_with_and: self.join_last_with_and,
        }
    }
}

impl View for PreferenceBlock {
    type V = Seq<SectionModel>;

    open spec fn view(&self) -> Seq<SectionModel> {
        self.sections@.map_values(|s: PreferenceSection| s@)
    }
}

/// Characters that can end a sentence.
pub open spec fn is_terminal(c: char) -> bool {
    c == '.' || c == '!' || c == '?'
}

/// Closing quotes and brackets that may follow the end of a sentence.
pub open spec fn is_closer(c: char) -> bool {
    c == '"' || c == '\'' || c == ')' || c == ']' || c == '}' || c == '\u{201d}' || c
        == '\u{2019}'
}

/// The first position at or after `j` that does not hold a closer.
pub open spec fn closers_end(s: Seq<char>, j: int) -> int
    decreases s.len() - j,
{
    if 0 <= j < s.len() && is_closer(s[j]) {
        closers_end(s, j + 1)
    } else {
        j
    }
}

/// The first position at or after `j` that does not hold white space.
pub open spec fn ws_end(s: Seq<char>, j: int) -> int
    decreases s.len() - j,
{
    if 0 <= j < s.len() && is_ws(s[j]) {
        ws_end(s, j + 1)
    } else {
        j
    }
}

/// The run of closing characters from `j` ends within `s`, before a character that is not one.
pub proof fn lemma_closers_end(s: Seq<char>, j: int)
    requires
        0 <= j <= s.len(),
    ensures
        j <= closers_end(s, j) <= s.len(),
        closers_end(s, j) < s.len() ==> !is_closer(s[closers_end(s, j)]),
    decreases s.len() - j,
{
    if j < s.len() && is_closer(s[j]) {
        lemma_closers_end(s, j + 1);
    }
}

/// The run of white space from `j` ends within `s`, before a character that is not white space.
pub proof fn lemma_ws_end(s: Seq<char>, j: int)
    requires
        0 <= j <= s.len(),
    ensures
        j <= ws_end(s, j) <= s.len(),
        ws_end(s, j) < s.len() ==> !is_ws(s[ws_end(s, j)]),
    decreases s.len() - j,
{
    if j < s.len() && is_ws(s[j]) {
        lemma_ws_end(s, j + 1);
    }
}

/// A dot that belongs to a run of dots (an ellipsis).
pub open spec fn is_ellipsis_dot(s: Seq<char>, i: int) -> bool {
    s[i] == '.' && ((i > 0 && s[i - 1] == '.') || (i + 1 < s.len() && s[i + 1] == '.'))
}

/// Position `i` ends a sentence: a terminal that is no ellipsis dot, followed by closers
/// and then white space or the end of the text.
pub open spec fn is_boundary(s: Seq<char>, i: int) -> bool {
    &&& is_terminal(s[i])
    &&& !is_ellipsis_dot(s, i)
    &&& (closers_end(s, i + 1) >= s.len() || is_ws(s[closers_end(s, i + 1)]))
}

/// A one-element sequence holding `t`, or nothing where `t` is empty.
pub open spec fn piece(t: Seq<char>) -> Seq<Seq<char>> {
    if t.len() == 0 {
        seq![]
    } else {
        seq![t]
    }
}

/// The sentences of `s[start..]`, searching for the next boundary from `i`.
pub open spec fn split_from(s: Seq<char>, start: int, i: int) -> Seq<Seq<char>>
    decreases s.len() - i,
{
    if i < 0 || i >= s.len() || start < 0 || start > i {
        piece(trim(s.subrange(start, s.len() as int)))
    } else if is_boundary(s, i) {
        let e = closers_end(s, i + 1);
        let n = ws_end(s, e);
        proof {
            lemma_closers_end(s, i + 1);
            lemma_ws_end(s, e);
        }
        piece(trim(s.subrange(start, e))) + split_from(s, n, n)
    } else {
        split_from(s, start, i + 1)
    }
}

/// The sentences of a text: each trimmed and non-empty, in order.
pub open spec fn semantic_sentences(s: Seq<char>) -> Seq<Seq<char>> {
    split_from(s, 0, 0)
}

/// Whether the character is a closing quote or bracket.
pub fn is_closer_char_pub(c: char) -> (b: bool)
    ensures
        b == is_closer(c),
{
    is_closer_char(c)
}

fn is_closer_char(c: char) -> (b: bool)
    ensures
        b == is_closer(c),
{
    c == '"' || c == '\'' || c == ')' || c == ']' || c == '}' || c == '\u{201d}' || c
        == '\u{2019}'
}

/// Pushes the trimmed `v[from..to]` onto `out` unless it is empty.
fn push_trimmed_piece(out: &mut Vec<String>, v: &Vec<char>, from: usize, to: usize)
    requires
        from <= to <= v.len(),
    ensures
        strings_view(final(out)@) == strings_view(old(out)@) + piece(
            trim(v@.subrange(from as int, to as int)),
        ),
{
    let e = trim_end_index(v, from, to);
    let b = trim_start_index(v, from, e);
    assert(strings_view(out@) + piece(trim(v@.subrange(from as int, to as int))) =~= strings_view(
        out@,
    ) + piece(v@.subrange(b as int, e as int)));
    if b < e {
        let t = string_of(v, b, e);
        out.push(t);
        assert(strings_view(out@) =~= strings_view(old(out)@).push(t@));
    } else {
        assert(piece(v@.subrange(b as int, e as int)) =~= Seq::<Seq<char>>::empty());
        assert(strings_view(old(out)@) + Seq::<Seq<char>>::empty() =~= strings_view(old(out)@));
    }
}

/// Cuts a text into sentences. A sentence ends at `.`, `!` or `?` (a dot next to
/// another dot does not count), together with the closing quotes and brackets right
/// after it, where white space or the end of the text follows. Each sentence is
/// trimmed; empty ones are dropped.
pub fn split_semantic_sentences(text: &str) -> (r: Vec<String>)
    ensures
        strings_view(r@) == semantic_sentences(text@),
{
    let chars = to_chars(text);
    let n = chars.len();
    let mut out: Vec<String> = Vec::new();
    let mut start: usize = 0;
    let mut index: usize = 0;
    assert(strings_view(out@) + split_from(chars@, 0, 0) =~= split_from(chars@, 0, 0));
    while index < n
        invariant
            n == chars.len(),
            chars@ == text@,
            start <= index <= n,
            strings_view(out@) + split_from(chars@, start as int, index as int) == split_from(
                chars@,
                0,
                0,
            ),
        decreases n - index,
    {
        let c = chars[index];
        let is_ellipsis_dot = c == '.' && ((index > 0 && chars[index - 1] == '.') || (index + 1
            < n && chars[index + 1] == '.'));
        if !(c == '.' || c == '!' || c == '?') || is_ellipsis_dot {
            index += 1;
            continue;
        }
        let mut end = index + 1;
        while end < n && is_closer_char(chars[end])
            invariant
                n == chars.len(),
                index < n,
                index + 1 <= end <= n,
                closers_end(chars@, end as int) == closers_end(chars@, index + 1),
            decreases n - end,
        {
            end += 1;
        }
        if end < n && !is_whitespace(chars[end]) {
            index += 1;
            continue;
        }
        let ghost old_start = start as int;
        let ghost before = strings_view(out@);
        push_trimmed_piece(&mut out, &chars, start, end);
        start = end;
        while start < n && is_whitespace(chars[start])
            invariant
                n == chars.len(),
                end <= start <= n,
                ws_end(chars@, start as int) == ws_end(chars@, end as int),
            decreases n - start,
        {
            start += 1;
        }
        proof {
            assert(closers_end(chars@, end as int) == end as int);
            assert(ws_end(chars@, start as int) == start as int);
            assert(is_boundary(chars@, index as int));
            assert(split_from(chars@, old_start, index as int) == piece(
                trim(chars@.subrange(old_start, end as int)),
            ) + split_from(chars@, start as int, start as int));
            assert(before + split_from(chars@, old_start, index as int) =~= strings_view(out@)
                + split_from(chars@, start as int, start as int));
        }
        index = start;
    }
    let ghost before = strings_view(out@);
    push_trimmed_piece(&mut out, &chars, start, n);
    assert(before + split_from(chars@, start as int, index as int) =~= strings_view(out@));
    out
}

/// `str::split` on one character: the pieces between its occurrences, empty ones included.
pub open spec fn split_on(s: Seq<char>, c: char) -> Seq<Seq<char>>
    decreases s.len(),
{
    if s.len() == 0 {
        seq![Seq::<char>::empty()]
    } else {
        let rest = split_on(s.drop_last(), c);
        if s.last() == c {
            rest.push(Seq::<char>::empty())
        } else {
            rest.update(rest.len() - 1, rest.last().push(s.last()))
        }
    }
}

/// `split_on` always yields at least one piece.
pub proof fn lemma_split_on_len(s: Seq<char>, c: char)
    ensures
        split_on(s, c).len() >= 1,
    decreases s.len(),
{
    if s.len() > 0 {
        lemma_split_on_len(s.drop_last(), c);
    }
}

/// The pieces trimmed, with the empty ones dropped.
pub open spec fn kept(pieces: Seq<Seq<char>>) -> Seq<Seq<char>>
    decreases pieces.len(),
{
    if pieces.len() == 0 {
        seq![]
    } else {
        kept(pieces.drop_last()) + piece(trim(pieces.last()))
    }
}

/// The items of a comma-separated list; with `split_final_and`, a last item of the form
/// `a and b` counts as two, and the flag says so.
pub open spec fn preference_items(s: Seq<char>, split_final_and: bool) -> Option<
    (Seq<Seq<char>>, bool),
> {
    let items = kept(split_on(s, ','));
    if items.len() == 0 {
        None
    } else if !split_final_and {
        Some((items, false))
    } else {
        match rsplit_once(items.last(), " and "@) {
            Some((l, r)) => if trim(l).len() > 0 && trim(r).len() > 0 {
                Some((items.drop_last().push(trim(l)).push(trim(r)), true))
            } else {
                Some((items, false))
            },
            None => Some((items, false)),
        }
    }
}

/// The trimmed, non-empty comma-separated pieces of `v`.
fn comma_items(v: &Vec<char>) -> (r: Vec<String>)
    ensures
        strings_view(r@) == kept(split_on(v@, ',')),
{
    let n = v.len();
    let mut out: Vec<String> = Vec::new();
    let mut seg: usize = 0;
    let mut i: usize = 0;
    let ghost mut done: Seq<Seq<char>> = seq![];
    assert(v@.take(0) =~= Seq::<char>::empty());
    assert(v@.subrange(0, 0) =~= Seq::<char>::empty());
    assert(split_on(v@.take(0), ',') =~= done + seq![v@.subrange(0, 0)]);
    while i < n
        invariant
            n == v.len(),
            seg <= i <= n,
            split_on(v@.take(i as int), ',') == done + seq![v@.subrange(seg as int, i as int)],
            strings_view(out@) == kept(done),
        decreases n - i,
    {
        let ghost cur = v@.subrange(seg as int, i as int);
        let ghost whole = split_on(v@.take(i + 1), ',');
        assert(v@.take(i + 1).drop_last() =~= v@.take(i as int));
        assert(v@.take(i + 1).last() == v@[i as int]);
        if v[i] == ',' {
            push_trimmed_piece(&mut out, v, seg, i);
            proof {
                assert(kept(done.push(cur)) == kept(done) + piece(trim(cur))) by {
                    assert(done.push(cur).drop_last() =~= done);
                }
                done = done.push(cur);
            }
            assert(whole == split_on(v@.take(i as int), ',').push(Seq::<char>::empty()));
            seg = i + 1;
            i += 1;
            assert(v@.subrange(seg as int, i as int) =~= Seq::<char>::empty());
            assert(whole =~= done + seq![v@.subrange(seg as int, i as int)]);
        } else {
            i += 1;
            assert(v@.subrange(seg as int, i as int) =~= cur.push(v@[i - 1]));
            assert(split_on(v@.take(i as int), ',') =~= done + seq![v@.subrange(seg as int, i as int)]);
        }
    }
    let ghost last = v@.subrange(seg as int, n as int);
    push_trimmed_piece(&mut out, v, seg, n);
    proof {
        assert(v@.take(n as int) =~= v@);
        assert(done.push(last).drop_last() =~= done);
        assert(done + seq![last] =~= done.push(last));
    }
    out
}

/// The trimmed `v[..]` as a range `[b, e)` of `v`.
fn trim_bounds(v: &Vec<char>) -> (r: (usize, usize))
    ensures
        r.0 <= r.1 <= v.len(),
        v@.subrange(r.0 as int, r.1 as int) == trim(v@),
{
    let e = trim_end_index(v, 0, v.len());
    let b = trim_start_index(v, 0, e);
    assert(v@.subrange(0, v@.len() as int) =~= v@);
    (b, e)
}

fn split_preference_items(text: &Vec<char>, split_final_and: bool) -> (r: Option<
    (Vec<String>, bool),
>)
    ensures
        match preference_items(text@, split_final_and) {
            Some((items, j)) => r matches Some((v, b)) && strings_view(v@) == items && b == j,
            None => r is None,
        },
{
    let mut items = comma_items(text);
    if items.len() == 0 {
        return None;
    }
    if !split_final_and {
        return Some((items, false));
    }
    let ghost all = strings_view(items@);
    let last = match items.pop() {
        Some(l) => l,
        None => return None,
    };
    assert(strings_view(items@) =~= all.drop_last());
    assert(last@ == all.last());
    let lv = to_chars(last.as_str());
    let sep = to_chars(" and ");
    match rsplit_once_chars(&lv, &sep) {
        Some((l, r)) => {
            let (lb, le) = trim_bounds(&l);
            let (rb, re) = trim_bounds(&r);
            if lb < le && rb < re {
                let ls = string_of(&l, lb, le);
                let rs = string_of(&r, rb, re);
                items.push(ls);
                items.push(rs);
                assert(strings_view(items@) =~= all.drop_last().push(trim(l@)).push(trim(r@)));
                Some((items, true))
            } else {
                items.push(last);
                assert(strings_view(items@) =~= all);
                Some((items, false))
            }
        },
        None => {
            items.push(last);
            assert(strings_view(items@) =~= all);
            Some((items, false))
        },
    }
}

/// Characters that rule a text out as the subject of a sentence.
pub open spec fn is_stop(c: char) -> bool {
    c == ',' || c == '.' || c == '!' || c == '?'
}

fn has_stop(v: &Vec<char>) -> (r: bool)
    ensures
        r == exists|i: int| 0 <= i < v@.len() && is_stop(#[trigger] v@[i]),
{
    let mut i: usize = 0;
    while i < v.len()
        invariant
            i <= v.len(),
            forall|j: int| 0 <= j < i ==> !is_stop(#[trigger] v@[j]),
        decreases v.len() - i,
    {
        let c = v[i];
        if c == ',' || c == '.' || c == '!' || c == '?' {
            assert(is_stop(v@[i as int]));
            return true;
        }
        i += 1;
    }
    false
}

/// `char::to_ascii_lowercase`: `A` to `Z` become `a` to `z`, every other character stays.
pub open spec fn ascii_lower_char(c: char) -> char {
    if 'A' <= c <= 'Z' {
        ((c as u32) + 32) as char
    } else {
        c
    }
}

/// The character with an ASCII capital letter made small.
pub fn ascii_lower_of(c: char) -> (r: char)
    ensures
        r == ascii_lower_char(c),
{
    if 'A' <= c && c <= 'Z' {
        let b = c as u8;
        assert(b as int == c as int);
        ((b + 32) as char)
    } else {
        c
    }
}

/// The text with ASCII letters in lower case.
pub open spec fn ascii_lower(s: Seq<char>) -> Seq<char> {
    s.map_values(|c: char| ascii_lower_char(c))
}

/// The characters with ASCII letters in lower case.
pub fn ascii_lower_chars(v: &Vec<char>) -> (r: Vec<char>)
    ensures
        r@ == ascii_lower(v@),
{
    let mut out: Vec<char> = Vec::new();
    let mut i: usize = 0;
    while i < v.len()
        invariant
            i <= v.len(),
            out@ == ascii_lower(v@.take(i as int)),
        decreases v.len() - i,
    {
        let c = v[i];
        out.push(ascii_lower_of(c));
        i += 1;
        assert(out@ =~= ascii_lower(v@.take(i as int)));
    }
    assert(v@.take(v.len() as int) =~= v@);
    out
}

/// The pronouns that open the second and third sentences.
pub open spec fn is_pronoun(p: Seq<char>) -> bool {
    p == "he"@ || p == "she"@ || p == "it"@ || p == "they"@
}

fn is_pronoun_chars(v: &Vec<char>) -> (r: bool)
    ensures
        r == is_pronoun(v@),
{
    let s = string_from_chars(v);
    str_eq(s.as_str(), "he") || str_eq(s.as_str(), "she") || str_eq(s.as_str(), "it") || str_eq(
        s.as_str(),
        "they",
    )
}

/// The words that open the third sentence, after the pronoun of the second.
pub open spec fn detest_prefix(pronoun: Seq<char>) -> Seq<char> {
    if pronoun == "he"@ {
        "He absolutely detests"@
    } else if pronoun == "she"@ {
        "She absolutely detests"@
    } else if pronoun == "it"@ {
        "It absolutely detests"@
    } else {
        "They absolutely detest"@
    }
}

/// The third sentence opens with the pronoun of the second, capitalised, and
/// "absolutely detests" (for he, she and it) or "absolutely detest" (for they).
pub proof fn lemma_detest_prefix_pronoun(p: Seq<char>)
    requires
        p == "he"@ || p == "she"@ || p == "it"@ || p == "they"@,
    ensures
        p.len() > 0,
        detest_prefix(p) == seq![((p[0] as u32) - 32) as char] + p.skip(1) + if p == "they"@ {
            " absolutely detest"@
        } else {
            " absolutely detests"@
        },
{
    reveal_strlit("he");
    reveal_strlit("she");
    reveal_strlit("it");
    reveal_strlit("they");
    reveal_strlit("He absolutely detests");
    reveal_strlit("She absolutely detests");
    reveal_strlit("It absolutely detests");
    reveal_strlit("They absolutely detest");
    reveal_strlit(" absolutely detests");
    reveal_strlit(" absolutely detest");
    let q = seq![((p[0] as u32) - 32) as char] + p.skip(1) + if p == "they"@ {
        " absolutely detest"@
    } else {
        " absolutely detests"@
    };
    if p == "he"@ {
        assert(q =~= "He absolutely detests"@);
    } else if p == "she"@ {
        assert(p != "he"@);
        assert(q =~= "She absolutely detests"@);
    } else if p == "it"@ {
        assert(p != "he"@ && p != "she"@);
        assert(q =~= "It absolutely detests"@);
    } else {
        assert(p != "he"@ && p != "she"@ && p != "it"@);
        assert(q =~= "They absolutely detest"@);
    }
}

/// The first sentence, `<subject> likes <items>.`: the subject, the items and how the
/// last two are joined.
pub open spec fn likes_part(sentence: Seq<char>) -> Option<(Seq<char>, Seq<Seq<char>>, bool)> {
    match strip_suffix_char(sentence, '.') {
        None => None,
        Some(likes) => if count_char(likes, ',') < 4 {
            None
        } else {
            match split_once(likes, " likes "@) {
                None => None,
                Some((subject0, preferences)) => {
                    let subject = trim(subject0);
                    if subject.len() == 0 || (exists|i: int|
                        0 <= i < subject.len() && is_stop(#[trigger] subject[i])) || is_pronoun(
                        ascii_lower(subject),
                    ) {
                        None
                    } else {
                        match preference_items(preferences, true) {
                            None => None,
                            Some((items, join)) => if items.len() < 5 {
                                None
                            } else {
                                Some((subject, items, join))
                            },
                        }
                    }
                },
            }
        },
    }
}

/// The second sentence, `When possible, <pronoun> prefers to <verb> <items>.`.
pub open spec fn prefers_part(sentence: Seq<char>) -> Option<
    (Seq<char>, Seq<char>, Seq<Seq<char>>, bool),
> {
    match strip_suffix_char(sentence, '.') {
        None => None,
        Some(a) => match strip_prefix(a, "When possible, "@) {
            None => None,
            Some(b) => match split_once(b, " "@) {
                None => None,
                Some((pronoun, preference)) => if !is_pronoun(pronoun) {
                    None
                } else {
                    match strip_prefix(preference, "prefers to "@) {
                        None => None,
                        Some(c) => match split_once(c, " "@) {
                            None => None,
                            Some((verb, rest)) => match preference_items(rest, true) {
                                None => None,
                                Some((items, join)) => Some((pronoun, verb, items, join)),
                            },
                        },
                    }
                },
            },
        },
    }
}

/// The third sentence, `<Pronoun> absolutely detest(s) <items>.`.
pub open spec fn detests_part(sentence: Seq<char>, pronoun: Seq<char>) -> Option<Seq<Seq<char>>> {
    match strip_suffix_char(sentence, '.') {
        None => None,
        Some(a) => match strip_prefix(a, detest_prefix(pronoun)) {
            None => None,
            Some(b) => match preference_items(trim_start(b), false) {
                None => None,
                Some((items, _)) => Some(items),
            },
        },
    }
}

/// The three sections of a preference paragraph, where the text is one.
pub open spec fn preference_block_of(text: Seq<char>) -> Option<Seq<SectionModel>> {
    let ss = semantic_sentences(text);
    if ss.len() != 3 {
        None
    } else {
        match likes_part(ss[0]) {
            None => None,
            Some((subject, likes, likes_join)) => match prefers_part(ss[1]) {
                None => None,
                Some((pronoun, verb, prefs, prefs_join)) => match detests_part(ss[2], pronoun) {
                    None => None,
                    Some(detests) => Some(
                        seq![
                            SectionModel {
                                prefixes: seq![subject + " likes"@],
                                items: likes,
                                join_last_with_and: likes_join,
                            },
                            SectionModel {
                                prefixes: seq!["When possible"@, pronoun + " prefers to "@ + verb],
                                items: prefs,
                                join_last_with_and: prefs_join,
                            },
                            SectionModel {
                                prefixes: seq![detest_prefix(pronoun)],
                                items: detests,
                                join_last_with_and: false,
                            },
                        ],
                    ),
                },
            },
        }
    }
}

fn likes_section(sentence: &String) -> (r: Option<(Vec<char>, Vec<String>, bool)>)
    ensures
        match likes_part(sentence@) {
            Some((subject, items, join)) => r matches Some((sv, iv, j)) && sv@ == subject
                && strings_view(iv@) == items && j == join,
            None => r is None,
        },
{
    let chars = to_chars(sentence.as_str());
    let likes = match strip_suffix_char_chars(&chars, '.') {
        Some(l) => l,
        None => return None,
    };
    if count_chars(&likes, ',') < 4 {
        return None;
    }
    let sep = to_chars(" likes ");
    let (subject0, preferences) = match split_once_chars(&likes, &sep) {
        Some(p) => p,
        None => return None,
    };
    let (b, e) = trim_bounds(&subject0);
    let subject = slice_chars(&subject0, b, e);
    if subject.len() == 0 || has_stop(&subject) {
        return None;
    }
    let lowered = ascii_lower_chars(&subject);
    if is_pronoun_chars(&lowered) {
        return None;
    }
    let (items, join) = match split_preference_items(&preferences, true) {
        Some(p) => p,
        None => return None,
    };
    if items.len() < 5 {
        return None;
    }
    Some((subject, items, join))
}

fn prefers_section(sentence: &String) -> (r: Option<(Vec<char>, Vec<char>, Vec<String>, bool)>)
    ensures
        match prefers_part(sentence@) {
            Some((pronoun, verb, items, join)) => r matches Some((pv, vv, iv, j)) && pv@ == pronoun
                && vv@ == verb && strings_view(iv@) == items && j == join,
            None => r is None,
        },
{
    let chars = to_chars(sentence.as_str());
    let a = match strip_suffix_char_chars(&chars, '.') {
        Some(x) => x,
        None => return None,
    };
    let when = to_chars("When possible, ");
    let b = match strip_prefix_chars(&a, &when) {
        Some(x) => x,
        None => return None,
    };
    let space = to_chars(" ");
    let (pronoun, preference) = match split_once_chars(&b, &space) {
        Some(x) => x,
        None => return None,
    };
    if !is_pronoun_chars(&pronoun) {
        return None;
    }
    let prefers = to_chars("prefers to ");
    let c = match strip_prefix_chars(&preference, &prefers) {
        Some(x) => x,
        None => return None,
    };
    let (verb, rest) = match split_once_chars(&c, &space) {
        Some(x) => x,
        None => return None,
    };
    let (items, join) = match split_preference_items(&rest, true) {
        Some(x) => x,
        None => return None,
    };
    Some((pronoun, verb, items, join))
}

/// The opening words of the third sentence for a pronoun.
fn detest_prefix_for(pronoun: &Vec<char>) -> (r: String)
    ensures
        r@ == detest_prefix(pronoun@),
{
    let p = string_from_chars(pronoun);
    if str_eq(p.as_str(), "he") {
        "He absolutely detests".to_owned()
    } else if str_eq(p.as_str(), "she") {
        "She absolutely detests".to_owned()
    } else if str_eq(p.as_str(), "it") {
        "It absolutely detests".to_owned()
    } else {
        "They absolutely detest".to_owned()
    }
}

fn detests_section(sentence: &String, pronoun: &Vec<char>) -> (r: Option<Vec<String>>)
    ensures
        match detests_part(sentence@, pronoun@) {
            Some(items) => r matches Some(iv) && strings_view(iv@) == items,
            None => r is None,
        },
{
    let chars = to_chars(sentence.as_str());
    let a = match strip_suffix_char_chars(&chars, '.') {
        Some(x) => x,
        None => return None,
    };
    let prefix = detest_prefix_for(pronoun);
    let pv = to_chars(prefix.as_str());
    let b = match strip_prefix_chars(&a, &pv) {
        Some(x) => x,
        None => return None,
    };
    let start = trim_start_index(&b, 0, b.len());
    let rest = slice_chars(&b, start, b.len());
    assert(b@.subrange(0, b@.len() as int) =~= b@);
    match split_preference_items(&rest, false) {
        Some((items, _)) => Some(items),
        None => None,
    }
}

/// Recognises a creature's preference paragraph: three sentences, `<subject> likes
/// <at least five items>.`, `When possible, <pronoun> prefers to <verb> <items>.` and
/// `<Pronoun> absolutely detest(s) <items>.`, and cuts it into its three sections.
pub fn split_preference_block(text: &str) -> (r: Option<PreferenceBlock>)
    ensures
        match preference_block_of(text@) {
            Some(sections) => r matches Some(b) && b@ == sections,
            None => r is None,
        },
{
    let sentences = split_semantic_sentences(text);
    if sentences.len() != 3 {
        return None;
    }
    assert(sentences@[0]@ == semantic_sentences(text@)[0]);
    assert(sentences@[1]@ == semantic_sentences(text@)[1]);
    assert(sentences@[2]@ == semantic_sentences(text@)[2]);
    let (subject, likes, likes_join) = match likes_section(&sentences[0]) {
        Some(x) => x,
        None => return None,
    };
    let (pronoun, verb, prefs, prefs_join) = match prefers_section(&sentences[1]) {
        Some(x) => x,
        None => return None,
    };
    let detests = match detests_section(&sentences[2], &pronoun) {
        Some(x) => x,
        None => return None,
    };
    let mut likes_prefix = string_from_chars(&subject);
    push_str(&mut likes_prefix, " likes");
    let mut prefers_prefix = string_from_chars(&pronoun);
    push_str(&mut prefers_prefix, " prefers to ");
    let verb_text = string_from_chars(&verb);
    push_str(&mut prefers_prefix, verb_text.as_str());
    let first = PreferenceSection {
        prefixes: vec![likes_prefix],
        items: likes,
        join_last_with_and: likes_join,
    };
    let second = PreferenceSection {
        prefixes: vec!["When possible".to_owned(), prefers_prefix],
        items: prefs,
        join_last_with_and: prefs_join,
    };
    let third = PreferenceSection {
        prefixes: vec![detest_prefix_for(&pronoun)],
        items: detests,
        join_last_with_and: false,
    };
    let block = PreferenceBlock { sections: vec![first, second, third] };
    proof {
        assert(block.sections@[0]@.prefixes =~= seq![subject@ + " likes"@]);
        assert(block.sections@[1]@.prefixes =~= seq![
            "When possible"@,
            pronoun@ + " prefers to "@ + verb@,
        ]);
        assert(block.sections@[2]@.prefixes =~= seq![detest_prefix(pronoun@)]);
        assert(block@ =~= preference_block_of(text@).unwrap());
    }
    Some(block)
}

/// What a translation callback answers, as text.
pub open spec fn opt_view(o: Option<String>) -> Option<Seq<char>> {
    match o {
        Some(t) => Some(t@),
        None => None,
    }
}

/// The callback accepts every text and answers the same for the same text.
pub open spec fn translator_ok<F: Fn(&str) -> Option<String>>(f: F) -> bool {
    &&& forall|s: &str| call_requires(f, (s,))
    &&& forall|s1: &str, s2: &str, r1: Option<String>, r2: Option<String>|
        s1@ == s2@ && #[trigger] call_ensures(f, (s1,), r1) && #[trigger] call_ensures(
            f,
            (s2,),
            r2,
        ) ==> opt_view(r1) == opt_view(r2)
}

/// The callback's answer for a text.
pub open spec fn answer<F: Fn(&str) -> Option<String>>(f: F, t: Seq<char>) -> Option<Seq<char>> {
    let (s, o) = choose|s: &str, o: Option<String>| s@ == t && #[trigger] call_ensures(f, (s,), o);
    opt_view(o)
}

/// An answer that the callback gave is its answer for that text.
pub proof fn lemma_answer<F: Fn(&str) -> Option<String>>(f: F, s: &str, o: Option<String>)
    requires
        translator_ok(f),
        call_ensures(f, (s,), o),
    ensures
        answer(f, s@) == opt_view(o),
{
    assert(exists|s2: &str, o2: Option<String>|
        s2@ == s@ && #[trigger] call_ensures(f, (s2,), o2));
    let (s2, o2) = choose|s2: &str, o2: Option<String>|
        s2@ == s@ && #[trigger] call_ensures(f, (s2,), o2);
    assert(opt_view(o2) == opt_view(o));
}

/// The callback's answer, or the text itself where it has none.
pub open spec fn word<F: Fn(&str) -> Option<String>>(f: F, t: Seq<char>) -> Seq<char> {
    match answer(f, t) {
        Some(x) => x,
        None => t,
    }
}

/// Appends an item to a prefix, with a space between two ASCII characters.
pub open spec fn append_item(out: Seq<char>, item: Seq<char>) -> Seq<char> {
    if out.len() > 0 && is_ascii_char(out.last()) && item.len() > 0 && is_ascii_char(item[0]) {
        out.push(' ') + item
    } else {
        out + item
    }
}

fn append_prefix_item(output: &mut String, item: &str)
    ensures
        final(output)@ == append_item(old(output)@, item@),
{
    let cur = to_chars(output.as_str());
    let it = to_chars(item);
    if cur.len() > 0 && (cur[cur.len() - 1] as u32) < 128 && it.len() > 0 && (it[0] as u32) < 128 {
        output.push(' ');
    }
    push_str(output, item);
}

/// A prefix's translation: the callback's, or else for `<subject> likes` the subject
/// followed by the translation of `likes`.
pub open spec fn translated_prefix<F: Fn(&str) -> Option<String>>(f: F, p: Seq<char>) -> Option<
    Seq<char>,
> {
    match answer(f, p) {
        Some(t) => Some(t),
        None => match strip_suffix(p, " likes"@) {
            None => None,
            Some(subject) => match answer(f, "likes"@) {
                None => None,
                Some(l) => Some(append_item(subject, l)),
            },
        },
    }
}

fn translate_prefix<F: Fn(&str) -> Option<String>>(prefix: &str, translate: &F) -> (r: Option<
    String,
>)
    requires
        translator_ok(*translate),
    ensures
        opt_view(r) == translated_prefix(*translate, prefix@),
{
    let direct = translate(prefix);
    proof {
        lemma_answer(*translate, prefix, direct);
    }
    if let Some(t) = direct {
        return Some(t);
    }
    let pv = to_chars(prefix);
    let suffix = to_chars(" likes");
    let subject = match strip_suffix_chars(&pv, &suffix) {
        Some(x) => x,
        None => return None,
    };
    let likes = translate("likes");
    proof {
        lemma_answer(*translate, "likes", likes);
    }
    let tl = match likes {
        Some(x) => x,
        None => return None,
    };
    let mut translated = string_from_chars(&subject);
    append_prefix_item(&mut translated, tl.as_str());
    Some(translated)
}

/// The prefixes joined with `", "`.
pub open spec fn join_prefixes(ps: Seq<Seq<char>>, n: int) -> Seq<char>
    decreases n,
{
    if n <= 0 {
        seq![]
    } else if n == 1 {
        ps[0]
    } else {
        join_prefixes(ps, n - 1) + ", "@ + ps[n - 1]
    }
}

/// The text before the `k`-th item: a space, `" and "` before a last item that is joined
/// so, and `", "` otherwise.
pub open spec fn item_separator(k: int, len: int, join_last_with_and: bool) -> Seq<char> {
    if k == 0 {
        " "@
    } else if join_last_with_and && k + 1 == len {
        " and "@
    } else {
        ", "@
    }
}

/// The first `n` items, each after its separator.
pub open spec fn items_source(items: Seq<Seq<char>>, join_last_with_and: bool, n: int) -> Seq<char>
    decreases n,
{
    if n <= 0 {
        seq![]
    } else {
        items_source(items, join_last_with_and, n - 1) + item_separator(
            n - 1,
            items.len() as int,
            join_last_with_and,
        ) + items[n - 1]
    }
}

/// The English sentence a section stands for.
pub open spec fn section_source(sec: SectionModel) -> Seq<char> {
    (join_prefixes(sec.prefixes, sec.prefixes.len() as int) + items_source(
        sec.items,
        sec.join_last_with_and,
        sec.items.len() as int,
    )).push('.')
}

/// Writes a section back as the English sentence it was cut from.
pub fn preference_section_source(section: &PreferenceSection) -> (r: String)
    ensures
        r@ == section_source(section@),
{
    let mut source = String::new();
    let mut k: usize = 0;
    while k < section.prefixes.len()
        invariant
            k <= section.prefixes.len(),
            source@ == join_prefixes(section@.prefixes, k as int),
        decreases section.prefixes.len() - k,
    {
        if k > 0 {
            push_str(&mut source, ", ");
        }
        push_str(&mut source, section.prefixes[k].as_str());
        k += 1;
        assert(source@ =~= join_prefixes(section@.prefixes, k as int));
    }
    let mut i: usize = 0;
    while i < section.items.len()
        invariant
            i <= section.items.len(),
            source@ == join_prefixes(section@.prefixes, section@.prefixes.len() as int)
                + items_source(section@.items, section.join_last_with_and, i as int),
        decreases section.items.len() - i,
    {
        if i == 0 {
            push_str(&mut source, " ");
        } else if section.join_last_with_and && i + 1 == section.items.len() {
            push_str(&mut source, " and ");
        } else {
            push_str(&mut source, ", ");
        }
        push_str(&mut source, section.items[i].as_str());
        i += 1;
        assert(source@ =~= join_prefixes(section@.prefixes, section@.prefixes.len() as int)
            + items_source(section@.items, section.join_last_with_and, i as int));
    }
    source.push('.');
    source
}

/// The translated prefixes of a section, separated by `，`, and whether the last one was
/// translated.
pub open spec fn prefix_part<F: Fn(&str) -> Option<String>>(
    f: F,
    ps: Seq<Seq<char>>,
    n: int,
) -> (Seq<char>, bool)
    decreases n,
{
    if n <= 0 {
        (seq![], false)
    } else {
        let acc = prefix_part(f, ps, n - 1).0;
        let acc1 = if acc.len() > 0 {
            acc.push('\u{ff0c}')
        } else {
            acc
        };
        let tp = translated_prefix(f, ps[n - 1]);
        (
            acc1 + match tp {
                Some(t) => t,
                None => ps[n - 1],
            },
            tp is Some,
        )
    }
}

/// The first item after the prefixes: joined as `append_item` does after a translated
/// prefix, after a space otherwise.
pub open spec fn first_part<F: Fn(&str) -> Option<String>>(
    f: F,
    acc: Seq<char>,
    prefix_translated: bool,
    item: Seq<char>,
) -> Seq<char> {
    if prefix_translated {
        append_item(acc, word(f, item))
    } else {
        acc.push(' ') + word(f, item)
    }
}

/// The separator before the `k`-th item: `和` before a last item joined by "and", `，`
/// otherwise.
pub open spec fn item_joint(sec: SectionModel, k: int) -> char {
    if sec.join_last_with_and && k == sec.items.len() - 1 {
        '\u{548c}'
    } else {
        '\u{ff0c}'
    }
}

/// `base` followed by the items from the second to the `n`-th, each after its separator.
pub open spec fn rest_part<F: Fn(&str) -> Option<String>>(
    f: F,
    sec: SectionModel,
    base: Seq<char>,
    n: int,
) -> Seq<char>
    decreases n,
{
    if n <= 1 {
        base
    } else {
        rest_part(f, sec, base, n - 1).push(item_joint(sec, n - 1)) + word(f, sec.items[n - 1])
    }
}

/// The translation of one section, ending with `。`.
pub open spec fn section_text<F: Fn(&str) -> Option<String>>(f: F, sec: SectionModel) -> Seq<
    char,
> {
    let (p, translated) = prefix_part(f, sec.prefixes, sec.prefixes.len() as int);
    let body = if sec.items.len() == 0 {
        p
    } else {
        rest_part(f, sec, first_part(f, p, translated, sec.items[0]), sec.items.len() as int)
    };
    body.push('\u{3002}')
}

/// The translations of the first `n` sections, one after the other.
pub open spec fn block_text<F: Fn(&str) -> Option<String>>(
    f: F,
    secs: Seq<SectionModel>,
    n: int,
) -> Seq<char>
    decreases n,
{
    if n <= 0 {
        seq![]
    } else {
        block_text(f, secs, n - 1) + section_text(f, secs[n - 1])
    }
}

/// The callback's answer, or the text itself.
fn translate_or_keep<F: Fn(&str) -> Option<String>>(text: &String, translate: &F) -> (r: String)
    requires
        translator_ok(*translate),
    ensures
        r@ == word(*translate, text@),
{
    let s = text.as_str();
    let t = translate(s);
    proof {
        lemma_answer(*translate, s, t);
    }
    match t {
        Some(x) => x,
        None => text.clone(),
    }
}

fn compose_section<F: Fn(&str) -> Option<String>>(section: &PreferenceSection, translate: &F) -> (r:
    String)
    requires
        translator_ok(*translate),
    ensures
        r@ == section_text(*translate, section@),
{
    let ghost f = *translate;
    let ghost sec = section@;
    let mut out = String::new();
    let mut translated = false;
    let mut k: usize = 0;
    while k < section.prefixes.len()
        invariant
            translator_ok(f),
            f == *translate,
            sec == section@,
            k <= section.prefixes.len(),
            (out@, translated) == prefix_part(f, sec.prefixes, k as int),
        decreases section.prefixes.len() - k,
    {
        if !out.as_str().is_empty() {
            out.push('\u{ff0c}');
        }
        let tp = translate_prefix(section.prefixes[k].as_str(), translate);
        translated = tp.is_some();
        match tp {
            Some(t) => push_str(&mut out, t.as_str()),
            None => push_str(&mut out, section.prefixes[k].as_str()),
        }
        k += 1;
    }
    let len = section.items.len();
    if len > 0 {
        let first = translate_or_keep(&section.items[0], translate);
        if translated {
            append_prefix_item(&mut out, first.as_str());
        } else {
            out.push(' ');
            push_str(&mut out, first.as_str());
        }
        let ghost base = out@;
        let mut j: usize = 1;
        while j < len
            invariant
                translator_ok(f),
                f == *translate,
                sec == section@,
                len == section.items.len(),
                1 <= j <= len,
                out@ == rest_part(f, sec, base, j as int),
            decreases len - j,
        {
            if section.join_last_with_and && j + 1 == len {
                out.push('\u{548c}');
            } else {
                out.push('\u{ff0c}');
            }
            let w = translate_or_keep(&section.items[j], translate);
            push_str(&mut out, w.as_str());
            j += 1;
        }
    }
    out.push('\u{3002}');
    out
}

/// Composes the translation of a preference paragraph: each section's prefixes and
/// items are translated one by one by `translate`; a part without a translation stays
/// in English, so nothing of the original is lost. Items are joined by `，`, the last
/// two by `和` where the English joined them by "and", and each section ends with `。`.
pub fn compose_preference_block<F: Fn(&str) -> Option<String>>(
    block: &PreferenceBlock,
    translate: F,
) -> (r: String)
    requires
        translator_ok(translate),
    ensures
        r@ == block_text(translate, block@, block@.len() as int),
{
    let mut translated = String::new();
    let mut i: usize = 0;
    while i < block.sections.len()
        invariant
            translator_ok(translate),
            i <= block.sections.len(),
            translated@ == block_text(translate, block@, i as int),
        decreases block.sections.len() - i,
    {
        let text = compose_section(&block.sections[i], &translate);
        push_str(&mut translated, text.as_str());
        i += 1;
    }
    translated
}


/// Whether `t` occurs in `s` as a run of consecutive characters.
pub open spec fn occurs_in(s: Seq<char>, t: Seq<char>) -> bool {
    exists|i: int| 0 <= i && i + t.len() <= s.len() && #[trigger] s.subrange(i, i + t.len()) == t
}

proof fn lemma_occurs_self(t: Seq<char>)
    ensures
        occurs_in(t, t),
{
    let i: int = 0;
    assert(t.subrange(i, i + t.len()) =~= t);
}

proof fn lemma_occurs_left(a: Seq<char>, b: Seq<char>, t: Seq<char>)
    requires
        occurs_in(a, t),
    ensures
        occurs_in(a + b, t),
{
    let i = choose|i: int| 0 <= i && i + t.len() <= a.len() && #[trigger] a.subrange(i, i + t.len()) == t;
    assert((a + b).subrange(i, i + t.len()) =~= a.subrange(i, i + t.len()));
}

proof fn lemma_occurs_right(a: Seq<char>, b: Seq<char>, t: Seq<char>)
    requires
        occurs_in(b, t),
    ensures
        occurs_in(a + b, t),
{
    let i = choose|i: int| 0 <= i && i + t.len() <= b.len() && #[trigger] b.subrange(i, i + t.len()) == t;
    assert((a + b).subrange(a.len() + i, a.len() + i + t.len()) =~= b.subrange(i, i + t.len()));
}

proof fn lemma_occurs_push(a: Seq<char>, c: char, t: Seq<char>)
    requires
        occurs_in(a, t),
    ensures
        occurs_in(a.push(c), t),
{
    assert(a.push(c) =~= a + seq![c]);
    lemma_occurs_left(a, seq![c], t);
}

proof fn lemma_append_item_keeps(out: Seq<char>, item: Seq<char>, t: Seq<char>)
    ensures
        occurs_in(out, t) ==> occurs_in(append_item(out, item), t),
        occurs_in(append_item(out, item), item),
{
    lemma_occurs_self(item);
    if out.len() > 0 && is_ascii_char(out.last()) && item.len() > 0 && is_ascii_char(item[0]) {
        lemma_occurs_right(out.push(' '), item, item);
        if occurs_in(out, t) {
            lemma_occurs_push(out, ' ', t);
            lemma_occurs_left(out.push(' '), item, t);
        }
    } else {
        lemma_occurs_right(out, item, item);
        if occurs_in(out, t) {
            lemma_occurs_left(out, item, t);
        }
    }
}

proof fn lemma_prefix_part_keeps<F: Fn(&str) -> Option<String>>(f: F, ps: Seq<Seq<char>>, n: int, m: int)
    requires
        0 <= m < n <= ps.len(),
        translated_prefix(f, ps[m]) is None,
    ensures
        occurs_in(prefix_part(f, ps, n).0, ps[m]),
    decreases n,
{
    let acc = prefix_part(f, ps, n - 1).0;
    let acc1 = if acc.len() > 0 { acc.push('\u{ff0c}') } else { acc };
    let tp = translated_prefix(f, ps[n - 1]);
    let last = match tp {
        Some(t) => t,
        None => ps[n - 1],
    };
    if m == n - 1 {
        lemma_occurs_self(ps[m]);
        lemma_occurs_right(acc1, last, ps[m]);
    } else {
        lemma_prefix_part_keeps(f, ps, n - 1, m);
        if acc.len() > 0 {
            lemma_occurs_push(acc, '\u{ff0c}', ps[m]);
        }
        lemma_occurs_left(acc1, last, ps[m]);
    }
}

proof fn lemma_rest_part_keeps<F: Fn(&str) -> Option<String>>(
    f: F,
    sec: SectionModel,
    base: Seq<char>,
    n: int,
    t: Seq<char>,
)
    requires
        occurs_in(base, t) || exists|k: int| 1 <= k < n && k < sec.items.len() && t == word(f, sec.items[k]),
        n <= sec.items.len(),
    ensures
        occurs_in(rest_part(f, sec, base, n), t),
    decreases n,
{
    if n > 1 {
        let prev = rest_part(f, sec, base, n - 1);
        let w = word(f, sec.items[n - 1]);
        if t == w {
            lemma_occurs_self(w);
            lemma_occurs_right(prev.push(item_joint(sec, n - 1)), w, t);
        } else {
            lemma_rest_part_keeps(f, sec, base, n - 1, t);
            lemma_occurs_push(prev, item_joint(sec, n - 1), t);
            lemma_occurs_left(prev.push(item_joint(sec, n - 1)), w, t);
        }
    }
}

/// What a section's translation keeps in English: each prefix and each item that the
/// callback does not translate appears unchanged in it.
pub proof fn lemma_section_keeps_untranslated<F: Fn(&str) -> Option<String>>(f: F, sec: SectionModel, t: Seq<char>)
    requires
        (exists|m: int| 0 <= m < sec.prefixes.len() && translated_prefix(f, sec.prefixes[m]) is None && t
            == sec.prefixes[m]) || (exists|k: int|
            0 <= k < sec.items.len() && answer(f, sec.items[k]) is None && t == sec.items[k]),
    ensures
        occurs_in(section_text(f, sec), t),
{
    let (p, translated) = prefix_part(f, sec.prefixes, sec.prefixes.len() as int);
    if exists|m: int| 0 <= m < sec.prefixes.len() && translated_prefix(f, sec.prefixes[m]) is None && t
        == sec.prefixes[m] {
        let m = choose|m: int|
            0 <= m < sec.prefixes.len() && translated_prefix(f, sec.prefixes[m]) is None && t == sec.prefixes[m];
        lemma_prefix_part_keeps(f, sec.prefixes, sec.prefixes.len() as int, m);
        if sec.items.len() > 0 {
            let w0 = word(f, sec.items[0]);
            let fp = first_part(f, p, translated, sec.items[0]);
            if translated {
                lemma_append_item_keeps(p, w0, t);
            } else {
                lemma_occurs_push(p, ' ', t);
                lemma_occurs_left(p.push(' '), w0, t);
            }
            lemma_rest_part_keeps(f, sec, fp, sec.items.len() as int, t);
        }
    } else {
        let k = choose|k: int| 0 <= k < sec.items.len() && answer(f, sec.items[k]) is None && t == sec.items[k];
        assert(word(f, sec.items[k]) == t);
        let w0 = word(f, sec.items[0]);
        let fp = first_part(f, p, translated, sec.items[0]);
        if k == 0 {
            if translated {
                lemma_append_item_keeps(p, w0, t);
            } else {
                lemma_occurs_self(w0);
                lemma_occurs_right(p.push(' '), w0, t);
            }
        }
        lemma_rest_part_keeps(f, sec, fp, sec.items.len() as int, t);
    }
    let body = if sec.items.len() == 0 {
        p
    } else {
        rest_part(f, sec, first_part(f, p, translated, sec.items[0]), sec.items.len() as int)
    };
    lemma_occurs_push(body, '\u{3002}', t);
}

/// Unmatched preference parts remain in English: in the composed translation of a
/// preference block, every prefix and every item that the callback does not translate
/// appears unchanged, so no content is lost.
pub proof fn lemma_block_keeps_untranslated<F: Fn(&str) -> Option<String>>(
    f: F,
    secs: Seq<SectionModel>,
    j: int,
    t: Seq<char>,
)
    requires
        0 <= j < secs.len(),
        (exists|m: int| 0 <= m < secs[j].prefixes.len() && translated_prefix(f, secs[j].prefixes[m]) is None
            && t == secs[j].prefixes[m]) || (exists|k: int|
            0 <= k < secs[j].items.len() && answer(f, secs[j].items[k]) is None && t == secs[j].items[k]),
    ensures
        occurs_in(block_text(f, secs, secs.len() as int), t),
{
    lemma_block_text_keeps(f, secs, secs.len() as int, j, t);
}

proof fn lemma_block_text_keeps<F: Fn(&str) -> Option<String>>(
    f: F,
    secs: Seq<SectionModel>,
    n: int,
    j: int,
    t: Seq<char>,
)
    requires
        0 <= j < n <= secs.len(),
        (exists|m: int| 0 <= m < secs[j].prefixes.len() && translated_prefix(f, secs[j].prefixes[m]) is None
            && t == secs[j].prefixes[m]) || (exists|k: int|
            0 <= k < secs[j].items.len() && answer(f, secs[j].items[k]) is None && t == secs[j].items[k]),
    ensures
        occurs_in(block_text(f, secs, n), t),
    decreases n,
{
    if j == n - 1 {
        lemma_section_keeps_untranslated(f, secs[j], t);
        lemma_occurs_right(block_text(f, secs, n - 1), section_text(f, secs[j]), t);
    } else {
        lemma_block_text_keeps(f, secs, n - 1, j, t);
        lemma_occurs_left(block_text(f, secs, n - 1), section_text(f, secs[n - 1]), t);
    }
}

} // verus!
