//! Optional cloud translation: which texts may be sent, how they are keyed, the
//! endpoint's form, the lines written back to the configuration file, and the cache of
//! requests made.
use vstd::prelude::*;
use crate::preference::{is_closer, ws_end};
use crate::strs::{is_ws, is_whitespace, slice_chars, string_from_chars, to_chars, trim};

verus! {

/// The settings of cloud translation.
#[derive(Debug, Clone)]
pub struct Config {
    pub enabled: bool,
    pub endpoint: String,
    pub min_words: usize,
    pub max_characters: usize,
    pub require_terminal_punctuation: bool,
    pub allow_quoted_text: bool,
    pub max_concurrent_requests: usize,
    pub request_timeout_seconds: u64,
    pub failure_retry_seconds: u64,
}

impl Config {
    /// Cloud translation off, no endpoint, and the default limits.
    pub fn new() -> (r: Self)
        ensures
            !r.enabled,
            r.endpoint@.len() == 0,
            r.min_words == 6,
            r.max_characters == 2000,
            r.require_terminal_punctuation,
            r.allow_quoted_text,
            r.max_concurrent_requests == 4,
            r.request_timeout_seconds == 30,
            r.failure_retry_seconds == 300,
    {
        Config {
            enabled: false,
            endpoint: String::new(),
            min_words: 6,
            max_characters: 2_000,
            require_terminal_punctuation: true,
            allow_quoted_text: true,
            max_concurrent_requests: 4,
            request_timeout_seconds: 30,
            failure_retry_seconds: 300,
        }
    }

    /// The settings brought into range: the endpoint trimmed, at least one word, one to
    /// 20000 characters, one to 32 concurrent requests, a timeout of one to 120
    /// seconds and a retry delay of at least one second.
    pub fn validate(self) -> (r: Self)
        ensures
            r.enabled == self.enabled,
            r.endpoint@ == trim(self.endpoint@),
            r.min_words == if self.min_words < 1 { 1 } else { self.min_words },
            r.max_characters == clamp(self.max_characters as int, 1, 20_000),
            r.require_terminal_punctuation == self.require_terminal_punctuation,
            r.allow_quoted_text == self.allow_quoted_text,
            r.max_concurrent_requests == clamp(self.max_concurrent_requests as int, 1, 32),
            r.request_timeout_seconds == clamp(self.request_timeout_seconds as int, 1, 120),
            r.failure_retry_seconds == if self.failure_retry_seconds < 1 {
                1
            } else {
                self.failure_retry_seconds
            },
    {
        let mut c = self;
        let v = to_chars(c.endpoint.as_str());
        c.endpoint = crate::strs::trimmed(&v, 0, v.len());
        assert(v@.subrange(0, v@.len() as int) =~= v@);
        if c.min_words < 1 {
            c.min_words = 1;
        }
        c.max_characters = if c.max_characters < 1 {
            1
        } else if c.max_characters > 20_000 {
            20_000
        } else {
            c.max_characters
        };
        c.max_concurrent_requests = if c.max_concurrent_requests < 1 {
            1
        } else if c.max_concurrent_requests > 32 {
            32
        } else {
            c.max_concurrent_requests
        };
        c.request_timeout_seconds = if c.request_timeout_seconds < 1 {
            1
        } else if c.request_timeout_seconds > 120 {
            120
        } else {
            c.request_timeout_seconds
        };
        if c.failure_retry_seconds < 1 {
            c.failure_retry_seconds = 1;
        }
        c
    }

    /// Whether the endpoint is an HTTP or HTTPS address.
    pub fn has_supported_endpoint(&self) -> (r: bool)
        ensures
            r == supported_endpoint(self.endpoint@),
    {
        let v = to_chars(self.endpoint.as_str());
        let https = to_chars("https://");
        let http = to_chars("http://");
        crate::strs::starts_with_at(&v, 0, &https) || crate::strs::starts_with_at(&v, 0, &http)
    }

    /// Whether cloud translation is on and has an endpoint.
    pub fn is_ready(&self) -> (r: bool)
        ensures
            r == (self.enabled && supported_endpoint(self.endpoint@)),
    {
        self.enabled && self.has_supported_endpoint()
    }
}

impl Default for Config {
    fn default() -> (r: Self)
        ensures
            !r.enabled,
            r.endpoint@.len() == 0,
            r.min_words == 6,
            r.max_characters == 2000,
            r.require_terminal_punctuation,
            r.allow_quoted_text,
            r.max_concurrent_requests == 4,
            r.request_timeout_seconds == 30,
            r.failure_retry_seconds == 300,
    {
        Config::new()
    }
}

/// `x` brought into `[lo, hi]`.
pub open spec fn clamp(x: int, lo: int, hi: int) -> int {
    if x < lo {
        lo
    } else if x > hi {
        hi
    } else {
        x
    }
}

/// `p` begins `s`.
pub open spec fn begins(s: Seq<char>, p: Seq<char>) -> bool {
    p.len() <= s.len() && s.subrange(0, p.len() as int) == p
}

/// An endpoint that starts with `https://` or `http://`.
pub open spec fn supported_endpoint(e: Seq<char>) -> bool {
    begins(e, "https://"@) || begins(e, "http://"@)
}

/// The first position at or after `j` that holds white space, or the end.
pub open spec fn word_end(s: Seq<char>, j: int) -> int
    decreases s.len() - j,
{
    if 0 <= j < s.len() && !is_ws(s[j]) {
        word_end(s, j + 1)
    } else {
        j
    }
}

/// The end of the word at `j` lies between `j` and the end of `s`.
pub proof fn lemma_word_end(s: Seq<char>, j: int)
    requires
        0 <= j <= s.len(),
    ensures
        j <= word_end(s, j) <= s.len(),
    decreases s.len() - j,
{
    if j < s.len() && !is_ws(s[j]) {
        lemma_word_end(s, j + 1);
    }
}

/// The words of `s[i..]`: the maximal runs of characters that are not white space.
pub open spec fn words_from(s: Seq<char>, i: int) -> Seq<Seq<char>>
    decreases s.len() - i,
{
    if i < 0 || i >= s.len() {
        seq![]
    } else {
        let j = ws_end(s, i);
        proof {
            crate::preference::lemma_ws_end(s, i);
        }
        if j >= s.len() {
            seq![]
        } else {
            let e = word_end(s, j);
            proof {
                lemma_word_end(s, j + 1);
            }
            seq![s.subrange(j, e)] + words_from(s, e)
        }
    }
}

/// The words of a text (`str::split_whitespace`).
pub open spec fn words(s: Seq<char>) -> Seq<Seq<char>> {
    words_from(s, 0)
}

/// The words joined by single spaces.
pub open spec fn join_words(ws: Seq<Seq<char>>) -> Seq<char>
    decreases ws.len(),
{
    if ws.len() == 0 {
        seq![]
    } else if ws.len() == 1 {
        ws[0]
    } else {
        join_words(ws.drop_last()) + seq![' '] + ws.last()
    }
}

/// The words of a text, as strings.
fn split_words(v: &Vec<char>) -> (r: Vec<Vec<char>>)
    ensures
        crate::rules::chars_view(r@) == words(v@),
{
    let n = v.len();
    let mut out: Vec<Vec<char>> = Vec::new();
    let mut i: usize = 0;
    assert(crate::rules::chars_view(out@) + words_from(v@, 0) =~= words(v@));
    while i < n
        invariant
            n == v.len(),
            i <= n,
            crate::rules::chars_view(out@) + words_from(v@, i as int) == words(v@),
        decreases n - i,
    {
        let mut j = i;
        while j < n && is_whitespace(v[j])
            invariant
                n == v.len(),
                i <= j <= n,
                ws_end(v@, j as int) == ws_end(v@, i as int),
            decreases n - j,
        {
            j += 1;
        }
        assert(ws_end(v@, j as int) == j);
        if j >= n {
            assert(words_from(v@, i as int) =~= Seq::<Seq<char>>::empty());
            assert(crate::rules::chars_view(out@) + Seq::<Seq<char>>::empty() =~= crate::rules::chars_view(out@));
            i = n;
        } else {
            let mut e = j;
            while e < n && !is_whitespace(v[e])
                invariant
                    n == v.len(),
                    j <= e <= n,
                    word_end(v@, e as int) == word_end(v@, j as int),
                decreases n - e,
            {
                e += 1;
            }
            assert(word_end(v@, e as int) == e);
            let ghost before = crate::rules::chars_view(out@);
            let w = slice_chars(v, j, e);
            out.push(w);
            assert(crate::rules::chars_view(out@) =~= before.push(v@.subrange(j as int, e as int)));
            assert(words_from(v@, i as int) == seq![v@.subrange(j as int, e as int)] + words_from(
                v@,
                e as int,
            ));
            assert(before + words_from(v@, i as int) =~= crate::rules::chars_view(out@)
                + words_from(v@, e as int));
            i = e;
        }
    }
    assert(words_from(v@, i as int) =~= Seq::<Seq<char>>::empty());
    assert(crate::rules::chars_view(out@) + Seq::<Seq<char>>::empty() =~= crate::rules::chars_view(out@));
    out
}

/// The text's words joined by single spaces: the key under which it is cached.
pub fn normalize(text: &str) -> (r: String)
    ensures
        r@ == join_words(words(text@)),
{
    let v = to_chars(text);
    let ws = split_words(&v);
    let ghost wv = crate::rules::chars_view(ws@);
    let mut out: Vec<char> = Vec::new();
    let mut k: usize = 0;
    while k < ws.len()
        invariant
            k <= ws.len(),
            wv == crate::rules::chars_view(ws@),
            out@ == join_words(wv.take(k as int)),
        decreases ws.len() - k,
    {
        if k > 0 {
            out.push(' ');
        }
        let mut w = ws[k].clone();
        out.append(&mut w);
        k += 1;
        assert(wv.take(k as int).drop_last() =~= wv.take(k - 1));
        assert(out@ =~= join_words(wv.take(k as int)));
    }
    assert(wv.take(ws.len() as int) =~= wv);
    string_from_chars(&out)
}

/// A word with an ASCII letter in it.
pub open spec fn has_ascii_letter(w: Seq<char>) -> bool {
    exists|i: int| 0 <= i < w.len() && crate::strs::is_ascii_letter(#[trigger] w[i])
}

/// The number of words with an ASCII letter among the first `n`.
pub open spec fn count_lettered(ws: Seq<Seq<char>>, n: int) -> nat
    decreases n,
{
    if n <= 0 {
        0
    } else {
        count_lettered(ws, n - 1) + if has_ascii_letter(ws[n - 1]) {
            1nat
        } else {
            0nat
        }
    }
}

/// The number of words that hold an ASCII letter.
pub fn word_count(text: &str) -> (r: usize)
    ensures
        r == count_lettered(words(text@), words(text@).len() as int),
{
    let v = to_chars(text);
    let ws = split_words(&v);
    let ghost wv = crate::rules::chars_view(ws@);
    let mut count: usize = 0;
    let mut k: usize = 0;
    while k < ws.len()
        invariant
            k <= ws.len(),
            wv == crate::rules::chars_view(ws@),
            count == count_lettered(wv, k as int),
            count <= k,
        decreases ws.len() - k,
    {
        let w = &ws[k];
        let mut found = false;
        let mut i: usize = 0;
        while i < w.len()
            invariant
                i <= w.len(),
                found == exists|x: int| 0 <= x < i && crate::strs::is_ascii_letter(#[trigger] w@[x]),
            decreases w.len() - i,
        {
            let c = w[i];
            if ('a' <= c && c <= 'z') || ('A' <= c && c <= 'Z') {
                found = true;
            }
            i += 1;
        }
        assert(wv[k as int] == w@);
        if found {
            count += 1;
        }
        k += 1;
    }
    count
}

/// The text without trailing white space or closing quotes and brackets.
pub open spec fn trim_closers(s: Seq<char>) -> Seq<char>
    decreases s.len(),
{
    if s.len() > 0 && (is_ws(s.last()) || is_closer(s.last())) {
        trim_closers(s.drop_last())
    } else {
        s
    }
}

/// A sentence end: `.`, `!` or `?` after the closers, but not an ellipsis.
pub open spec fn terminal_punctuation(s: Seq<char>) -> bool {
    let t = trim_closers(s);
    !(t.len() >= 3 && t[t.len() - 3] == '.' && t[t.len() - 2] == '.' && t[t.len() - 1] == '.')
        && t.len() >= 1 && (t.last() == '.' || t.last() == '!' || t.last() == '?')
}

/// Closers and white space after the end of a text do not change where it ends.
proof fn lemma_trim_closers_tail(s: Seq<char>, tail: Seq<char>)
    requires
        forall|i: int| 0 <= i < tail.len() ==> is_ws(#[trigger] tail[i]) || is_closer(tail[i]),
    ensures
        trim_closers(s + tail) == trim_closers(s),
    decreases tail.len(),
{
    if tail.len() > 0 {
        let t = tail.drop_last();
        assert((s + tail).drop_last() =~= s + t);
        assert((s + tail).last() == tail.last());
        lemma_trim_closers_tail(s, t);
    }
}

/// A text ends a sentence when, before any closing quotes, brackets and white space,
/// it ends in `?` or `!`, or in a `.` that is not the last of an ellipsis.
pub proof fn lemma_sentence_end_marks(p: Seq<char>, c: char, tail: Seq<char>)
    requires
        c == '?' || c == '!' || (c == '.' && !(p.len() >= 2 && p[p.len() - 1] == '.' && p[p.len() - 2] == '.')),
        forall|i: int| 0 <= i < tail.len() ==> is_ws(#[trigger] tail[i]) || is_closer(tail[i]),
    ensures
        terminal_punctuation(p.push(c) + tail),
{
    lemma_trim_closers_tail(p.push(c), tail);
    assert(!is_ws(c) && !is_closer(c));
    assert(trim_closers(p.push(c)) == p.push(c));
}

/// A text whose last character before closers and white space is a letter or a digit
/// does not end a sentence.
pub proof fn lemma_no_sentence_end_after_word(p: Seq<char>, c: char, tail: Seq<char>)
    requires
        ('a' <= c <= 'z') || ('A' <= c <= 'Z') || ('0' <= c <= '9'),
        forall|i: int| 0 <= i < tail.len() ==> is_ws(#[trigger] tail[i]) || is_closer(tail[i]),
    ensures
        !terminal_punctuation(p.push(c) + tail),
{
    lemma_trim_closers_tail(p.push(c), tail);
    assert(!is_ws(c) && !is_closer(c));
    assert(trim_closers(p.push(c)) == p.push(c));
}

/// Whether the text ends a sentence.
pub fn has_terminal_punctuation(text: &str) -> (r: bool)
    ensures
        r == terminal_punctuation(text@),
{
    let v = to_chars(text);
    let mut e = v.len();
    assert(v@.take(v.len() as int) =~= v@);
    while e > 0 && (is_whitespace(v[e - 1]) || crate::preference::is_closer_char_pub(v[e - 1]))
        invariant
            e <= v.len(),
            trim_closers(v@.take(e as int)) == trim_closers(v@),
        decreases e,
    {
        assert(v@.take(e as int).drop_last() =~= v@.take(e - 1));
        e -= 1;
    }
    assert(v@.take(v.len() as int) =~= v@);
    let ghost t = v@.take(e as int);
    assert(trim_closers(t) == t);
    let ellipsis = e >= 3 && v[e - 3] == '.' && v[e - 2] == '.' && v[e - 1] == '.';
    !ellipsis && e >= 1 && (v[e - 1] == '.' || v[e - 1] == '!' || v[e - 1] == '?')
}

/// A text in matching quotes, once trimmed.
pub open spec fn quoted(s: Seq<char>) -> bool {
    let t = trim(s);
    t.len() >= 2 && {
        let (a, b) = (t[0], t.last());
        (a == '"' && b == '"') || (a == '\'' && b == '\'') || (a == '\u{201c}' && b == '\u{201d}')
            || (a == '\u{2018}' && b == '\u{2019}')
    }
}

/// Whether the trimmed text opens and closes with matching quotes.
pub fn is_quoted(text: &str) -> (r: bool)
    ensures
        r == quoted(text@),
{
    let v = to_chars(text);
    let e = crate::strs::trim_end_index(&v, 0, v.len());
    let b = crate::strs::trim_start_index(&v, 0, e);
    assert(v@.subrange(0, v@.len() as int) =~= v@);
    if e - b < 2 {
        return false;
    }
    let a = v[b];
    let z = v[e - 1];
    (a == '"' && z == '"') || (a == '\'' && z == '\'') || (a == '\u{201c}' && z == '\u{201d}') || (a
        == '\u{2018}' && z == '\u{2019}')
}

/// A text that may be sent: cloud translation ready, the text not empty and within
/// the character limit, a complete sentence (or quoted text where allowed), ending a
/// sentence where that is required (quoted text excepted), and with enough words.
pub open spec fn eligible_text(config: Config, text: Seq<char>, sentence_complete: bool) -> bool {
    let q = config.allow_quoted_text && quoted(text);
    &&& config.enabled && supported_endpoint(config.endpoint@)
    &&& text.len() > 0
    &&& text.len() <= config.max_characters
    &&& (sentence_complete || q)
    &&& (!config.require_terminal_punctuation || terminal_punctuation(text) || q)
    &&& count_lettered(words(text), words(text).len() as int) >= config.min_words
}

/// A complete sentence that ends in `?`, `!` or a lone `.` (before closers and white
/// space), fits the character limit and has enough words may go to an enabled service.
pub proof fn lemma_complete_sentence_eligible(config: Config, p: Seq<char>, c: char, tail: Seq<char>)
    requires
        config.enabled,
        supported_endpoint(config.endpoint@),
        c == '?' || c == '!' || (c == '.' && !(p.len() >= 2 && p[p.len() - 1] == '.' && p[p.len() - 2] == '.')),
        forall|i: int| 0 <= i < tail.len() ==> is_ws(#[trigger] tail[i]) || is_closer(tail[i]),
        (p.push(c) + tail).len() <= config.max_characters,
        count_lettered(words(p.push(c) + tail), words(p.push(c) + tail).len() as int) >= config.min_words,
    ensures
        eligible_text(config, p.push(c) + tail, true),
{
    lemma_sentence_end_marks(p, c, tail);
}

/// Whether the text may be sent to the cloud translation service.
pub fn eligible(config: &Config, text: &str, sentence_complete: bool) -> (r: bool)
    ensures
        r == eligible_text(*config, text@, sentence_complete),
{
    let v = to_chars(text);
    if !config.is_ready() || v.len() == 0 || v.len() > config.max_characters {
        return false;
    }
    let quoted = config.allow_quoted_text && is_quoted(text);
    if !sentence_complete && !quoted {
        return false;
    }
    if config.require_terminal_punctuation && !has_terminal_punctuation(text) && !quoted {
        return false;
    }
    word_count(text) >= config.min_words
}

/// The name of whether `url::Url::parse` accepts a text.
pub uninterp spec fn url_parses(s: Seq<char>) -> bool;

/// The URL type of the `url` crate.
#[verifier::external_type_specification]
#[verifier::external_body]
pub struct ExUrl(url::Url);

/// The name of the scheme of the URL `url::Url::parse` makes of a text.
pub uninterp spec fn url_scheme_of(s: Seq<char>) -> Seq<char>;

/// The name of whether the URL `url::Url::parse` makes of a text has a host.
pub uninterp spec fn url_has_host_of(s: Seq<char>) -> bool;

/// The name of the path of the URL `url::Url::parse` makes of a text.
pub uninterp spec fn url_path_of(s: Seq<char>) -> Seq<char>;

/// The name of the text of the URL `url::Url::parse` makes of `s`, after its path was
/// replaced by `new_path` (where there is one) and, where `fragment_cleared`, its
/// fragment removed.
pub uninterp spec fn url_text_of(s: Seq<char>, new_path: Option<Seq<char>>, fragment_cleared: bool) -> Seq<
    char,
>;

/// A URL that `url::Url::parse` made of the text `source`, with the changes made to it
/// since: the path it was given, if any, and whether its fragment was removed.
pub struct ParsedUrl {
    pub url: url::Url,
    pub source: Ghost<Seq<char>>,
    pub new_path: Ghost<Option<Seq<char>>>,
    pub fragment_cleared: Ghost<bool>,
}

/// Whether the URL is as `url::Url::parse` made it.
pub open spec fn unchanged(u: &ParsedUrl) -> bool {
    u.new_path@ is None && !u.fragment_cleared@
}

/// Calls `url::Url::parse`; whether it succeeds is named, not restated. The URL made
/// is that of the text, unchanged.
#[verifier::external_body]
fn url_parse(input: &str) -> (r: Option<ParsedUrl>)
    ensures
        r is Some == url_parses(input@),
        r matches Some(u) ==> u.source@ == input@ && unchanged(&u),
{
    match url::Url::parse(input) {
        Ok(url) => Some(ParsedUrl { url, source: Ghost(input@), new_path: Ghost(None), fragment_cleared: Ghost(false) }),
        Err(_) => None,
    }
}

/// Calls `url::Url::scheme` on a URL as parsed: the named scheme of its text.
#[verifier::external_body]
fn url_scheme(u: &ParsedUrl) -> (r: String)
    requires
        unchanged(u),
    ensures
        r@ == url_scheme_of(u.source@),
{
    u.url.scheme().to_owned()
}

/// Calls `url::Url::host_str` on a URL as parsed and tells whether there is a host: the
/// named answer for its text.
#[verifier::external_body]
fn url_has_host(u: &ParsedUrl) -> (r: bool)
    requires
        unchanged(u),
    ensures
        r == url_has_host_of(u.source@),
{
    u.url.host_str().is_some()
}

/// Calls `url::Url::path` on a URL as parsed: the named path of its text.
#[verifier::external_body]
fn url_path(u: &ParsedUrl) -> (r: String)
    requires
        unchanged(u),
    ensures
        r@ == url_path_of(u.source@),
{
    u.url.path().to_owned()
}

/// Calls `url::Url::set_path`: the URL now has `path` as its given path.
#[verifier::external_body]
fn url_set_path(u: &mut ParsedUrl, path: &str)
    ensures
        final(u).source == old(u).source,
        final(u).new_path@ == Some(path@),
        final(u).fragment_cleared == old(u).fragment_cleared,
{
    u.url.set_path(path);
    u.new_path = Ghost(Some(path@));
}

/// Calls `url::Url::set_fragment` with no fragment: the URL's fragment is removed.
#[verifier::external_body]
fn url_clear_fragment(u: &mut ParsedUrl)
    ensures
        final(u).source == old(u).source,
        final(u).new_path == old(u).new_path,
        final(u).fragment_cleared@,
{
    u.url.set_fragment(None);
    u.fragment_cleared = Ghost(true);
}

/// Calls `url::Url::as_str`: the named text of the URL after the changes made to it.
#[verifier::external_body]
fn url_text(u: &ParsedUrl) -> (r: String)
    ensures
        r@ == url_text_of(u.source@, u.new_path@, u.fragment_cleared@),
{
    u.url.as_str().to_owned()
}

/// What to do with a parsed endpoint.
#[derive(Debug, Clone, Copy, PartialEq, Eq, Structural)]
pub enum EndpointCheck {
    /// Not HTTP or HTTPS, or without a host.
    Rejected,
    /// A bare host: the service's default path goes after it.
    UseDefaultPath,
    /// A path was given: it stays.
    KeepPath,
}

/// The decision on a parsed endpoint, by its scheme, host and path.
pub open spec fn endpoint_check(scheme: Seq<char>, has_host: bool, path: Seq<char>) -> EndpointCheck {
    if !(scheme == "http"@ || scheme == "https"@) || !has_host {
        EndpointCheck::Rejected
    } else if path == "/"@ {
        EndpointCheck::UseDefaultPath
    } else {
        EndpointCheck::KeepPath
    }
}

/// Decides on a parsed endpoint: only HTTP and HTTPS with a host are accepted, and a
/// bare `/` path gets the service's default path.
pub fn check_parsed_endpoint(scheme: &str, has_host: bool, path: &str) -> (r: EndpointCheck)
    ensures
        r == endpoint_check(scheme@, has_host, path@),
{
    let http = crate::strs::str_eq(scheme, "http");
    let https = crate::strs::str_eq(scheme, "https");
    if !(http || https) || !has_host {
        EndpointCheck::Rejected
    } else if crate::strs::str_eq(path, "/") {
        EndpointCheck::UseDefaultPath
    } else {
        EndpointCheck::KeepPath
    }
}

/// Why an endpoint was refused.
#[derive(Debug, Clone, Copy, PartialEq, Eq, Structural)]
pub enum EndpointError {
    /// Nothing but white space was given.
    EmptyHost,
    /// The text is no URL.
    InvalidHost,
    /// Not HTTP or HTTPS, or without a host.
    UnsupportedScheme,
}

/// Whether `s` holds `p`.
pub open spec fn holds(s: Seq<char>, p: Seq<char>) -> bool {
    crate::strs::find_from(s, p, 0) is Some
}

/// The URL text tried for an endpoint: the trimmed input, with `https://` in front where
/// it names no scheme.
pub open spec fn endpoint_candidate(input: Seq<char>) -> Seq<char> {
    let t = trim(input);
    if holds(t, "://"@) {
        t
    } else {
        "https://"@ + t
    }
}

/// The endpoint made of an input: refused when empty, when it parses as no URL, or when
/// it is not HTTP or HTTPS with a host; else the URL's text with the service's default
/// path in place of a bare `/` and without its fragment.
pub open spec fn endpoint_result(input: Seq<char>) -> Result<Seq<char>, EndpointError> {
    let c = endpoint_candidate(input);
    if trim(input).len() == 0 {
        Err(EndpointError::EmptyHost)
    } else if !url_parses(c) {
        Err(EndpointError::InvalidHost)
    } else {
        match endpoint_check(url_scheme_of(c), url_has_host_of(c), url_path_of(c)) {
            EndpointCheck::Rejected => Err(EndpointError::UnsupportedScheme),
            EndpointCheck::UseDefaultPath => Ok(url_text_of(c, Some("/v1/translate"@), true)),
            EndpointCheck::KeepPath => Ok(url_text_of(c, None, true)),
        }
    }
}

/// The text of a result, where it is one.
pub open spec fn text_result<E>(r: Result<String, E>) -> Result<Seq<char>, E> {
    match r {
        Ok(t) => Ok(t@),
        Err(e) => Err(e),
    }
}

/// Turns a host or URL into the endpoint to call: a bare host becomes
/// `https://<host>/v1/translate`, a URL keeps its path, and any fragment is dropped.
pub fn normalize_endpoint(input: &str) -> (r: Result<String, EndpointError>)
    ensures
        text_result(r) == endpoint_result(input@),
        r == Err::<String, EndpointError>(EndpointError::EmptyHost) <==> trim(input@).len() == 0,
        trim(input@).len() > 0 ==> (r == Err::<String, EndpointError>(EndpointError::InvalidHost)
            <==> !url_parses(endpoint_candidate(input@))),
{
    let v = to_chars(input);
    let t = crate::strs::trimmed(&v, 0, v.len());
    assert(v@.subrange(0, v@.len() as int) =~= v@);
    let tv = to_chars(t.as_str());
    if tv.len() == 0 {
        return Err(EndpointError::EmptyHost);
    }
    let sep = to_chars("://");
    let candidate = match crate::strs::find_at(&tv, &sep, 0) {
        Some(_) => t,
        None => {
            let mut c = "https://".to_owned();
            crate::strs::push_str(&mut c, t.as_str());
            c
        },
    };
    assert(candidate@ == endpoint_candidate(input@));
    let mut url = match url_parse(candidate.as_str()) {
        Some(u) => u,
        None => return Err(EndpointError::InvalidHost),
    };
    let scheme = url_scheme(&url);
    let has_host = url_has_host(&url);
    let path = url_path(&url);
    match check_parsed_endpoint(scheme.as_str(), has_host, path.as_str()) {
        EndpointCheck::Rejected => return Err(EndpointError::UnsupportedScheme),
        EndpointCheck::UseDefaultPath => url_set_path(&mut url, "/v1/translate"),
        EndpointCheck::KeepPath => {},
    }
    url_clear_fragment(&mut url);
    Ok(url_text(&url))
}

/// The response's translation, trimmed; none where it is empty.
pub fn accept_translation(raw: &str) -> (r: Option<String>)
    ensures
        trim(raw@).len() == 0 ==> r is None,
        trim(raw@).len() > 0 ==> (r matches Some(t) && t@ == trim(raw@)),
{
    let v = to_chars(raw);
    let t = crate::strs::trimmed(&v, 0, v.len());
    assert(v@.subrange(0, v@.len() as int) =~= v@);
    if t.as_str().is_empty() {
        None
    } else {
        Some(t)
    }
}

/// A line without the `\r` of a `\r\n` ending.
pub open spec fn strip_cr(l: Seq<char>) -> Seq<char> {
    if l.len() > 0 && l.last() == '\r' {
        l.drop_last()
    } else {
        l
    }
}

/// `str::lines`: the text cut at `\n` and `\r\n`, with an optional final line ending.
pub open spec fn text_lines(s: Seq<char>) -> Seq<Seq<char>> {
    let ps = crate::preference::split_on(s, '\n');
    let body = ps.drop_last().map_values(|l: Seq<char>| strip_cr(l));
    if ps.last().len() == 0 {
        body
    } else {
        body.push(ps.last())
    }
}

/// A line that sets `key`: after leading white space, the key, then `=` after white space.
pub open spec fn is_key_line(l: Seq<char>, key: Seq<char>) -> bool {
    match crate::strs::strip_prefix(crate::strs::trim_start(l), key) {
        Some(rest) => {
            let r = crate::strs::trim_start(rest);
            r.len() > 0 && r[0] == '='
        },
        None => false,
    }
}

/// The lines joined by `sep`.
pub open spec fn join_lines(ls: Seq<Seq<char>>, sep: Seq<char>) -> Seq<char>
    decreases ls.len(),
{
    if ls.len() == 0 {
        seq![]
    } else if ls.len() == 1 {
        ls[0]
    } else {
        join_lines(ls.drop_last(), sep) + sep + ls.last()
    }
}

/// The line ending a file uses: `\r\n` where it holds one, `\n` otherwise.
pub open spec fn line_ending(contents: Seq<char>) -> Seq<char> {
    if holds(contents, seq!['\r', '\n']) {
        seq!['\r', '\n']
    } else {
        seq!['\n']
    }
}

/// The configuration text with each line that sets `key` replaced by `line`, or with
/// `line` added (first where `at_start`, else last) where none sets it; the lines are
/// joined by the file's line ending, with one at the end.
pub open spec fn rewritten(contents: Seq<char>, key: Seq<char>, line: Seq<char>, at_start: bool) -> Seq<char> {
    let ls = text_lines(contents);
    let replaced = ls.map_values(|l: Seq<char>| if is_key_line(l, key) { line } else { l });
    let any = exists|i: int| 0 <= i < ls.len() && is_key_line(#[trigger] ls[i], key);
    let all = if any {
        replaced
    } else if at_start {
        seq![line] + replaced
    } else {
        replaced.push(line)
    };
    join_lines(all, line_ending(contents)) + line_ending(contents)
}

/// The lines of a text (`str::lines`).
fn lines_of(v: &Vec<char>) -> (r: Vec<Vec<char>>)
    ensures
        crate::rules::chars_view(r@) == text_lines(v@),
{
    let ps = crate::ruleset::split_chars(v, '\n');
    proof {
        crate::preference::lemma_split_on_len(v@, '\n');
    }
    let ghost pv = crate::rules::chars_view(ps@);
    let n = ps.len();
    let mut out: Vec<Vec<char>> = Vec::new();
    let mut i: usize = 0;
    while i + 1 < n
        invariant
            n == ps.len(),
            n >= 1,
            i + 1 <= n,
            pv == crate::rules::chars_view(ps@),
            crate::rules::chars_view(out@) == pv.drop_last().take(i as int).map_values(
                |l: Seq<char>| strip_cr(l),
            ),
        decreases n - i,
    {
        let l = &ps[i];
        let k = l.len();
        let line = if k > 0 && l[k - 1] == '\r' {
            slice_chars(l, 0, k - 1)
        } else {
            slice_chars(l, 0, k)
        };
        assert(l@.subrange(0, k as int) =~= l@);
        assert(l@.subrange(0, k - 1) =~= l@.drop_last());
        assert(pv[i as int] == l@);
        assert(line@ == strip_cr(pv.drop_last()[i as int]));
        let ghost before = crate::rules::chars_view(out@);
        let ghost d = pv.drop_last();
        out.push(line);
        assert(crate::rules::chars_view(out@) =~= before.push(line@));
        assert(d.take(i + 1) =~= d.take(i as int).push(d[i as int]));
        assert(d.take(i + 1).map_values(|l: Seq<char>| strip_cr(l)) =~= d.take(i as int).map_values(
            |l: Seq<char>| strip_cr(l),
        ).push(strip_cr(d[i as int])));
        i += 1;
    }
    assert(pv.drop_last().take(i as int) =~= pv.drop_last());
    let last = &ps[n - 1];
    if last.len() > 0 {
        let ghost before = crate::rules::chars_view(out@);
        out.push(last.clone());
        assert(crate::rules::chars_view(out@) =~= before.push(pv.last()));
    }
    out
}

/// Whether the line sets `key`.
fn is_key_line_exec(l: &Vec<char>, key: &Vec<char>) -> (r: bool)
    ensures
        r == is_key_line(l@, key@),
{
    let b = crate::strs::trim_start_index(l, 0, l.len());
    assert(l@.subrange(0, l@.len() as int) =~= l@);
    let t = slice_chars(l, b, l.len());
    match crate::strs::strip_prefix_chars(&t, key) {
        Some(rest) => {
            let c = crate::strs::trim_start_index(&rest, 0, rest.len());
            assert(rest@.subrange(0, rest@.len() as int) =~= rest@);
            assert(rest@.subrange(c as int, rest@.len() as int).len() > 0 ==> rest@.subrange(
                c as int,
                rest@.len() as int,
            )[0] == rest@[c as int]);
            c < rest.len() && rest[c] == '='
        },
        None => false,
    }
}

/// Rewrites a configuration text so that `line` sets `key` (see `rewritten`).
pub fn rewrite_setting(contents: &str, key: &str, line: &str, at_start: bool) -> (r: String)
    ensures
        r@ == rewritten(contents@, key@, line@, at_start),
{
    let v = to_chars(contents);
    let kv = to_chars(key);
    let lv = to_chars(line);
    let ls = lines_of(&v);
    let ghost lsv = crate::rules::chars_view(ls@);
    let ghost replaced = lsv.map_values(|l: Seq<char>| if is_key_line(l, key@) { line@ } else { l });
    let mut out_lines: Vec<Vec<char>> = Vec::new();
    let mut any = false;
    let mut i: usize = 0;
    while i < ls.len()
        invariant
            i <= ls.len(),
            lsv == crate::rules::chars_view(ls@),
            lsv == text_lines(v@),
            kv@ == key@,
            lv@ == line@,
            replaced == lsv.map_values(|l: Seq<char>| if is_key_line(l, key@) { line@ } else { l }),
            crate::rules::chars_view(out_lines@) == replaced.take(i as int),
            any == exists|k: int| 0 <= k < i && is_key_line(#[trigger] lsv[k], key@),
        decreases ls.len() - i,
    {
        let ghost before = crate::rules::chars_view(out_lines@);
        assert(lsv[i as int] == ls@[i as int]@);
        if is_key_line_exec(&ls[i], &kv) {
            any = true;
            out_lines.push(slice_chars(&lv, 0, lv.len()));
            assert(lv@.subrange(0, lv@.len() as int) =~= lv@);
        } else {
            out_lines.push(slice_chars(&ls[i], 0, ls[i].len()));
            assert(ls@[i as int]@.subrange(0, ls@[i as int]@.len() as int) =~= ls@[i as int]@);
        }
        assert(crate::rules::chars_view(out_lines@) =~= before.push(out_lines@[i as int]@));
        assert(replaced.take(i + 1) =~= replaced.take(i as int).push(replaced[i as int]));
        i += 1;
    }
    assert(replaced.take(ls.len() as int) =~= replaced);
    if !any {
        if at_start {
            out_lines.insert(0, lv.clone());
            assert(crate::rules::chars_view(out_lines@) =~= seq![line@] + replaced);
        } else {
            out_lines.push(lv.clone());
            assert(crate::rules::chars_view(out_lines@) =~= replaced.push(line@));
        }
    }
    let crlf = vec!['\r', '\n'];
    let ending: Vec<char> = match crate::strs::find_at(&v, &crlf, 0) {
        Some(_) => vec!['\r', '\n'],
        None => vec!['\n'],
    };
    assert(crlf@ =~= seq!['\r', '\n']);
    assert(ending@ =~= line_ending(v@));
    let ghost all = crate::rules::chars_view(out_lines@);
    let mut out: Vec<char> = Vec::new();
    let mut k: usize = 0;
    while k < out_lines.len()
        invariant
            k <= out_lines.len(),
            all == crate::rules::chars_view(out_lines@),
            out@ == join_lines(all.take(k as int), ending@),
        decreases out_lines.len() - k,
    {
        if k > 0 {
            let mut e = ending.clone();
            out.append(&mut e);
        }
        let mut l = out_lines[k].clone();
        out.append(&mut l);
        k += 1;
        assert(all.take(k as int).drop_last() =~= all.take(k - 1));
        assert(out@ =~= join_lines(all.take(k as int), ending@));
    }
    assert(all.take(out_lines.len() as int) =~= all);
    let mut e = ending.clone();
    out.append(&mut e);
    string_from_chars(&out)
}

/// The name of what `toml::Value::String(s).to_string()` writes for `s`.
pub uninterp spec fn toml_string(s: Seq<char>) -> Seq<char>;

/// Calls `toml::Value::String(..).to_string()`: the TOML literal for a string; the
/// result is named, its escaping rules are not restated.
#[verifier::external_body]
fn toml_string_literal(s: &str) -> (r: String)
    ensures
        r@ == toml_string(s@),
{
    toml::Value::String(s.to_owned()).to_string()
}

/// The configuration text with its `endpoint` setting set to the endpoint.
pub fn rewrite_endpoint(contents: &str, endpoint: &str) -> (r: String)
    ensures
        r@ == rewritten(contents@, "endpoint"@, "endpoint = "@ + toml_string(endpoint@), false),
{
    let encoded = toml_string_literal(endpoint);
    let mut line = "endpoint = ".to_owned();
    crate::strs::push_str(&mut line, encoded.as_str());
    rewrite_setting(contents, "endpoint", line.as_str(), false)
}

/// The configuration text with its `enabled` setting set, added first where missing.
pub fn rewrite_enabled(contents: &str, enabled: bool) -> (r: String)
    ensures
        r@ == rewritten(
            contents@,
            "enabled"@,
            if enabled { "enabled = true"@ } else { "enabled = false"@ },
            true,
        ),
{
    let line = if enabled {
        "enabled = true"
    } else {
        "enabled = false"
    };
    rewrite_setting(contents, "enabled", line, true)
}

/// What the cache knows of a text.
#[derive(Debug, Clone)]
pub enum CacheEntry {
    /// A request is under way.
    Pending,
    /// The service translated it.
    Success(String),
    /// The request failed; it may be retried at this time, in milliseconds.
    Failed { retry_at_ms: u64 },
}

/// A cache entry, as text.
pub enum EntryView {
    Pending,
    Success(Seq<char>),
    Failed(u64),
}

impl View for CacheEntry {
    type V = EntryView;

    open spec fn view(&self) -> EntryView {
        match self {
            CacheEntry::Pending => EntryView::Pending,
            CacheEntry::Success(t) => EntryView::Success(t@),
            CacheEntry::Failed { retry_at_ms } => EntryView::Failed(*retry_at_ms),
        }
    }
}

/// The cache of cloud requests by normalized text, and the generation of the settings
/// they were made under.
#[derive(Debug)]
pub struct CloudCache {
    pub entries: Vec<(String, CacheEntry)>,
    pub generation: u64,
}

/// The cache, as text.
pub open spec fn cache_view(c: &CloudCache) -> Seq<(Seq<char>, EntryView)> {
    c.entries@.map_values(|e: (String, CacheEntry)| (e.0@, e.1@))
}

/// The entry for `key`: the first one under it.
pub open spec fn cache_get(es: Seq<(Seq<char>, EntryView)>, key: Seq<char>) -> Option<EntryView>
    decreases es.len(),
{
    if es.len() == 0 {
        None
    } else {
        match cache_get(es.drop_last(), key) {
            Some(e) => Some(e),
            None => if es.last().0 == key {
                Some(es.last().1)
            } else {
                None
            },
        }
    }
}

/// `HashMap::insert`: the entry for `key` replaced, or added.
pub open spec fn cache_put(es: Seq<(Seq<char>, EntryView)>, key: Seq<char>, e: EntryView) -> Seq<
    (Seq<char>, EntryView),
> {
    if exists|i: int| 0 <= i < es.len() && es[i].0 == key {
        let i = choose|i: int|
            0 <= i < es.len() && es[i].0 == key && forall|j: int| 0 <= j < i ==> es[j].0 != key;
        es.update(i, (key, e))
    } else {
        es.push((key, e))
    }
}

/// What a lookup in the cache answers.
#[derive(Debug, Clone)]
pub enum Lookup {
    /// The translation is known.
    Translated(String),
    /// A request is under way, or a failed one may not be retried yet.
    Wait,
    /// No usable entry: a request may be made.
    Submit,
}

/// The answer of the cache for `key` at time `now`.
pub open spec fn lookup_result(es: Seq<(Seq<char>, EntryView)>, key: Seq<char>, now: u64) -> Option<
    Option<Seq<char>>,
> {
    match cache_get(es, key) {
        Some(EntryView::Success(t)) => Some(Some(t)),
        Some(EntryView::Pending) => Some(None),
        Some(EntryView::Failed(at)) => if at > now {
            Some(None)
        } else {
            None
        },
        None => None,
    }
}

/// A key found in a prefix of the cache entries is found there in the whole list too.
pub proof fn lemma_cache_get_prefix(es: Seq<(Seq<char>, EntryView)>, key: Seq<char>, n: int)
    requires
        0 <= n <= es.len(),
        cache_get(es.take(n), key) is Some,
    ensures
        cache_get(es, key) == cache_get(es.take(n), key),
    decreases es.len() - n,
{
    if n < es.len() {
        assert(es.take(n + 1).drop_last() =~= es.take(n));
        lemma_cache_get_prefix(es, key, n + 1);
    } else {
        assert(es.take(n) =~= es);
    }
}

/// A cache lookup finds nothing exactly when no entry has the key, and otherwise the first entry that has it.
pub proof fn lemma_cache_get(es: Seq<(Seq<char>, EntryView)>, key: Seq<char>)
    ensures
        cache_get(es, key) is None <==> forall|j: int| 0 <= j < es.len() ==> es[j].0 != key,
        forall|i: int|
            0 <= i < es.len() && es[i].0 == key && (forall|j: int| 0 <= j < i ==> es[j].0 != key)
                ==> cache_get(es, key) == Some(es[i].1),
    decreases es.len(),
{
    if es.len() > 0 {
        lemma_cache_get(es.drop_last(), key);
        assert forall|j: int| 0 <= j < es.len() - 1 implies es.drop_last()[j] == es[j] by {}
    }
}

impl CloudCache {
    /// An empty cache.
    pub fn new() -> (r: Self)
        ensures
            cache_view(&r).len() == 0,
            r.generation == 0,
    {
        CloudCache { entries: Vec::new(), generation: 0 }
    }

    /// Forgets every entry and starts a new generation, so that answers to earlier
    /// requests are dropped.
    pub fn clear(&mut self)
        ensures
            cache_view(final(self)).len() == 0,
            final(self).generation == (old(self).generation + 1) % 0x1_0000_0000_0000_0000,
    {
        self.entries.clear();
        self.generation = self.generation.wrapping_add(1);
        assert(cache_view(self) =~= Seq::<(Seq<char>, EntryView)>::empty());
    }

    fn find(&self, key: &str) -> (r: Option<usize>)
        ensures
            r matches Some(i) ==> i < self.entries@.len() && cache_view(self)[i as int].0 == key@
                && forall|j: int| 0 <= j < i ==> cache_view(self)[j].0 != key@,
            r is None ==> forall|j: int| 0 <= j < cache_view(self).len() ==> cache_view(self)[j].0 != key@,
    {
        let mut i: usize = 0;
        while i < self.entries.len()
            invariant
                i <= self.entries.len(),
                forall|j: int| 0 <= j < i ==> cache_view(self)[j].0 != key@,
            decreases self.entries.len() - i,
        {
            if crate::strs::str_eq(self.entries[i].0.as_str(), key) {
                return Some(i);
            }
            i += 1;
        }
        None
    }

    /// What the cache knows of `key` at time `now_ms`: a translation, a reason to wait
    /// (a request under way, or a failure not yet due for retry), or nothing usable.
    pub fn lookup(&self, key: &str, now_ms: u64) -> (r: Lookup)
        ensures
            match lookup_result(cache_view(self), key@, now_ms) {
                Some(Some(t)) => r matches Lookup::Translated(x) && x@ == t,
                Some(None) => r is Wait,
                None => r is Submit,
            },
    {
        proof {
            lemma_cache_get(cache_view(self), key@);
        }
        match self.find(key) {
            Some(i) => match &self.entries[i].1 {
                CacheEntry::Success(t) => Lookup::Translated(t.clone()),
                CacheEntry::Pending => Lookup::Wait,
                CacheEntry::Failed { retry_at_ms } => if *retry_at_ms > now_ms {
                    Lookup::Wait
                } else {
                    Lookup::Submit
                },
            },
            None => Lookup::Submit,
        }
    }

    /// Records `entry` under `key`, in place of an entry already there.
    pub fn put(&mut self, key: String, entry: CacheEntry)
        ensures
            cache_view(final(self)) == cache_put(cache_view(old(self)), key@, entry@),
            final(self).generation == old(self).generation,
    {
        let ghost es = cache_view(self);
        let ghost kv = key@;
        let ghost ev = entry@;
        match self.find(key.as_str()) {
            Some(i) => {
                self.entries.set(i, (key, entry));
                proof {
                    let c = choose|c: int|
                        0 <= c < es.len() && es[c].0 == kv && forall|j: int| 0 <= j < c ==> es[j].0 != kv;
                    if c < i {
                        assert(es[c].0 != kv);
                    } else if c > i {
                        assert(es[i as int].0 != kv);
                    }
                    assert(cache_view(self) =~= es.update(i as int, (kv, ev)));
                }
            },
            None => {
                self.entries.push((key, entry));
                assert(cache_view(self) =~= es.push((kv, ev)));
            },
        }
    }

    /// Records the answer to a request made in `generation`: a translation, or a
    /// failure that may be retried `retry_seconds` after `now_ms`. An answer from an
    /// earlier generation is dropped; the result says whether it was recorded.
    pub fn complete(
        &mut self,
        key: String,
        generation: u64,
        translation: Option<String>,
        now_ms: u64,
        retry_seconds: u64,
    ) -> (r: bool)
        ensures
            r == (generation == old(self).generation),
            final(self).generation == old(self).generation,
            !r ==> cache_view(final(self)) == cache_view(old(self)),
            r ==> cache_view(final(self)) == cache_put(
                cache_view(old(self)),
                key@,
                match translation {
                    Some(t) => EntryView::Success(t@),
                    None => EntryView::Failed(
                        crate::strs::sat_u64(now_ms as int + retry_seconds as int * 1000),
                    ),
                },
            ),
    {
        if generation != self.generation {
            return false;
        }
        let delay: u64 = if retry_seconds > u64::MAX / 1000 {
            u64::MAX
        } else {
            retry_seconds * 1000
        };
        let entry = match translation {
            Some(t) => CacheEntry::Success(t),
            None => CacheEntry::Failed { retry_at_ms: now_ms.saturating_add(delay) },
        };
        self.put(key, entry);
        true
    }
}

/// The next step for a text that wants a cloud translation.
#[derive(Debug, Clone)]
pub enum CloudStep {
    /// The text may not be sent.
    Skip,
    /// The translation is known.
    Translated(String),
    /// Nothing to do yet.
    Wait,
    /// A request may be made for this normalized text.
    Submit(String),
}

/// Decides what to do for `text` at time `now_ms`: nothing for a text that may not be
/// sent, otherwise what the cache says of its normalized form.
pub fn decide_request(config: &Config, cache: &CloudCache, text: &str, sentence_complete: bool, now_ms: u64) -> (r:
    CloudStep)
    ensures
        !eligible_text(*config, join_words(words(text@)), sentence_complete) ==> r is Skip,
        eligible_text(*config, join_words(words(text@)), sentence_complete) ==> match lookup_result(
            cache_view(cache),
            join_words(words(text@)),
            now_ms,
        ) {
            Some(Some(t)) => r matches CloudStep::Translated(x) && x@ == t,
            Some(None) => r is Wait,
            None => r matches CloudStep::Submit(k) && k@ == join_words(words(text@)),
        },
{
    let normalized = normalize(text);
    if !eligible(config, normalized.as_str(), sentence_complete) {
        return CloudStep::Skip;
    }
    match cache.lookup(normalized.as_str(), now_ms) {
        Lookup::Translated(t) => CloudStep::Translated(t),
        Lookup::Wait => CloudStep::Wait,
        Lookup::Submit => CloudStep::Submit(normalized),
    }
}

/// What turning cloud translation on or off does.
#[derive(Debug, Clone, Copy, PartialEq, Eq, Structural)]
pub enum EnableAction {
    /// It cannot be turned on without an HTTP(S) endpoint.
    RefuseWithoutEndpoint,
    /// It is already so.
    Unchanged,
    /// The configuration was never loaded.
    NotLoaded,
    /// Write the setting, then apply it and clear the cache.
    Persist,
}

/// The action for a request to turn cloud translation on (`requested`) or off.
pub open spec fn enable_action_of(requested: bool, current: bool, endpoint_supported: bool, loaded: bool) -> EnableAction {
    if requested && !endpoint_supported {
        EnableAction::RefuseWithoutEndpoint
    } else if current == requested {
        EnableAction::Unchanged
    } else if !loaded {
        EnableAction::NotLoaded
    } else {
        EnableAction::Persist
    }
}

/// Decides what a request to turn cloud translation on or off does.
pub fn enable_action(requested: bool, current: bool, endpoint_supported: bool, loaded: bool) -> (r:
    EnableAction)
    ensures
        r == enable_action_of(requested, current, endpoint_supported, loaded),
{
    if requested && !endpoint_supported {
        EnableAction::RefuseWithoutEndpoint
    } else if current == requested {
        EnableAction::Unchanged
    } else if !loaded {
        EnableAction::NotLoaded
    } else {
        EnableAction::Persist
    }
}


/// What starting a request answers.
#[derive(Debug, Clone, PartialEq, Eq)]
pub enum Begin {
    /// The translation is known.
    Translated(String),
    /// A request is under way, or a failed one may not be retried yet.
    Wait,
    /// A request was started; its answer must carry this generation.
    Started(u64),
}

/// Why a new endpoint cannot be set.
#[derive(Debug, Clone, Copy, PartialEq, Eq, Structural)]
pub enum SetEndpointError {
    /// The endpoint itself was refused.
    Endpoint(EndpointError),
    /// The settings were never loaded, so there is no file to write it to.
    NotLoaded,
}

/// The cloud translation state: where the settings were read from, the settings, and
/// the cache of requests.
pub struct CloudState {
    pub config_path: Option<String>,
    pub config: Config,
    pub cache: CloudCache,
}

impl CloudState {
    /// No settings loaded: cloud translation off, and an empty cache.
    pub fn new() -> (r: Self)
        ensures
            r.config_path is None,
            !r.config.enabled,
            r.config.endpoint@.len() == 0,
            cache_view(&r.cache).len() == 0,
            r.cache.generation == 0,
    {
        CloudState { config_path: None, config: Config::new(), cache: CloudCache::new() }
    }

    /// Takes the settings read from `path` (the defaults where they could not be read):
    /// the path is kept for a reload, and the cache is cleared so that answers to
    /// requests made under the old settings are dropped.
    pub fn load(&mut self, path: String, config: Config)
        ensures
            final(self).config_path matches Some(p) && p@ == path@,
            final(self).config == config,
            cache_view(&final(self).cache).len() == 0,
            final(self).cache.generation == (old(self).cache.generation + 1) % 0x1_0000_0000_0000_0000,
    {
        self.config_path = Some(path);
        self.config = config;
        self.cache.clear();
    }

    /// The path to read the settings from again, where they were ever loaded.
    pub fn reload(&self) -> (r: Option<String>)
        ensures
            match self.config_path {
                Some(p) => r matches Some(q) && q@ == p@,
                None => r is None,
            },
    {
        match &self.config_path {
            Some(p) => Some(p.clone()),
            None => None,
        }
    }

    /// What a request to turn cloud translation on or off does in this state.
    pub fn enable_request(&self, enabled: bool) -> (r: EnableAction)
        ensures
            r == enable_action_of(
                enabled,
                self.config.enabled,
                supported_endpoint(self.config.endpoint@),
                self.config_path is Some,
            ),
    {
        enable_action(enabled, self.config.enabled, self.config.has_supported_endpoint(), self.config_path.is_some())
    }

    /// Starts a request for `key` at time `now_ms` unless the cache answers already: a
    /// known translation is returned, a request under way or a failure not yet due for
    /// retry means waiting; otherwise the key is marked pending and the generation the
    /// answer must carry is returned.
    pub fn begin_request(&mut self, key: String, now_ms: u64) -> (r: Begin)
        ensures
            final(self).config == old(self).config,
            final(self).config_path == old(self).config_path,
            final(self).cache.generation == old(self).cache.generation,
            match lookup_result(cache_view(&old(self).cache), key@, now_ms) {
                Some(Some(t)) => r matches Begin::Translated(x) && x@ == t && cache_view(&final(self).cache)
                    == cache_view(&old(self).cache),
                Some(None) => r is Wait && cache_view(&final(self).cache) == cache_view(&old(self).cache),
                None => r == Begin::Started(old(self).cache.generation) && cache_view(&final(self).cache)
                    == cache_put(cache_view(&old(self).cache), key@, EntryView::Pending),
            },
    {
        match self.cache.lookup(key.as_str(), now_ms) {
            Lookup::Translated(t) => Begin::Translated(t),
            Lookup::Wait => Begin::Wait,
            Lookup::Submit => {
                let generation = self.cache.generation;
                self.cache.put(key, CacheEntry::Pending);
                Begin::Started(generation)
            },
        }
    }

    /// Records the answer to a request started in `generation`: the translation, or a
    /// failure retried after the configured delay. Answers from an earlier generation
    /// are dropped; the result says whether it was recorded.
    pub fn finish_request(&mut self, key: String, generation: u64, translation: Option<String>, now_ms: u64) -> (r:
        bool)
        ensures
            r == (generation == old(self).cache.generation),
            final(self).config == old(self).config,
            final(self).config_path == old(self).config_path,
            final(self).cache.generation == old(self).cache.generation,
            !r ==> cache_view(&final(self).cache) == cache_view(&old(self).cache),
            r ==> cache_view(&final(self).cache) == cache_put(
                cache_view(&old(self).cache),
                key@,
                match translation {
                    Some(t) => EntryView::Success(t@),
                    None => EntryView::Failed(
                        crate::strs::sat_u64(now_ms as int + old(self).config.failure_retry_seconds as int * 1000),
                    ),
                },
            ),
    {
        let retry = self.config.failure_retry_seconds;
        self.cache.complete(key, generation, translation, now_ms, retry)
    }

    /// Checks a new endpoint before it is written to the configuration file: the
    /// endpoint normalized, or why it cannot be set.
    pub fn endpoint_request(&self, input: &str) -> (r: Result<String, SetEndpointError>)
        ensures
            match endpoint_result(input@) {
                Err(e) => r == Err::<String, SetEndpointError>(SetEndpointError::Endpoint(e)),
                Ok(t) => if self.config_path is None {
                    r == Err::<String, SetEndpointError>(SetEndpointError::NotLoaded)
                } else {
                    r matches Ok(x) && x@ == t
                },
            },
            trim(input@).len() == 0 ==> r == Err::<String, SetEndpointError>(
                SetEndpointError::Endpoint(EndpointError::EmptyHost),
            ),
            trim(input@).len() > 0 && !url_parses(endpoint_candidate(input@)) ==> r == Err::<
                String,
                SetEndpointError,
            >(SetEndpointError::Endpoint(EndpointError::InvalidHost)),
            r is Ok ==> self.config_path is Some,
            self.config_path is None && trim(input@).len() > 0 && url_parses(endpoint_candidate(input@))
                ==> r is Err,
    {
        let endpoint = match normalize_endpoint(input) {
            Ok(e) => e,
            Err(e) => return Err(SetEndpointError::Endpoint(e)),
        };
        if self.config_path.is_none() {
            return Err(SetEndpointError::NotLoaded);
        }
        Ok(endpoint)
    }

    /// Applies a new endpoint once it was written to the configuration file: the cache
    /// is cleared and a new generation starts.
    pub fn apply_endpoint(&mut self, endpoint: String)
        ensures
            final(self).config_path == old(self).config_path,
            final(self).config == (Config { endpoint, ..old(self).config }),
            cache_view(&final(self).cache).len() == 0,
            final(self).cache.generation == (old(self).cache.generation + 1) % 0x1_0000_0000_0000_0000,
    {
        self.config.endpoint = endpoint;
        self.cache.clear();
    }

    /// Applies the setting once it was written to the configuration file: the cache is
    /// cleared and a new generation starts.
    pub fn apply_enabled(&mut self, enabled: bool)
        ensures
            final(self).config_path == old(self).config_path,
            final(self).config == (Config { enabled, ..old(self).config }),
            cache_view(&final(self).cache).len() == 0,
            final(self).cache.generation == (old(self).cache.generation + 1) % 0x1_0000_0000_0000_0000,
    {
        self.config.enabled = enabled;
        self.cache.clear();
    }
}

/// The answer to a request started in generation `started` is dropped (`complete`
/// and `finish_request` answer false and leave the cache as it was) once the cache was
/// cleared `n` times since, for any `n` short of a full wrap of the counter: each load,
/// endpoint change and on/off switch clears it once.
pub proof fn lemma_stale_completion_dropped(started: u64, n: int, current: u64)
    requires
        1 <= n < 0x1_0000_0000_0000_0000,
        current == (started + n) % 0x1_0000_0000_0000_0000,
    ensures
        started != current,
{
}

} // verus!
