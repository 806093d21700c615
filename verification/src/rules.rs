//! The ruleset format: tokens of a rule, identifiers of rulesets and replacers, and the
//! checks that a ruleset file passes when it is loaded.
use vstd::prelude::*;
use crate::strs::{find_at, find_from, slice_chars, string_from_chars, to_chars};

verus! {

/// One token of a rule: literal text, or a reference to a ruleset or a replacer.
#[derive(Debug, Clone, PartialEq, Eq, PartialOrd, Ord, Hash)]
pub enum Token {
    Literal(String),
    Reference(String),
}

/// A token as text.
pub enum TokenView {
    Literal(Seq<char>),
    Reference(Seq<char>),
}

impl View for Token {
    type V = TokenView;

    open spec fn view(&self) -> TokenView {
        match self {
            Token::Literal(s) => TokenView::Literal(s@),
            Token::Reference(s) => TokenView::Reference(s@),
        }
    }
}

/// The tokens of a rule, as text.
pub open spec fn tokens_view(v: Seq<Token>) -> Seq<TokenView> {
    v.map_values(|t: Token| t@)
}

/// A copy of a token that keeps its text.
pub fn copy_token(t: &Token) -> (r: Token)
    ensures
        r@ == t@,
{
    match t {
        Token::Literal(s) => Token::Literal(s.clone()),
        Token::Reference(s) => Token::Reference(s.clone()),
    }
}

/// A copy of a token list that keeps its text.
pub fn copy_tokens(v: &Vec<Token>) -> (r: Vec<Token>)
    ensures
        tokens_view(r@) == tokens_view(v@),
{
    let mut out: Vec<Token> = Vec::new();
    let mut i: usize = 0;
    while i < v.len()
        invariant
            i <= v.len(),
            tokens_view(out@) == tokens_view(v@.take(i as int)),
        decreases v.len() - i,
    {
        let t = copy_token(&v[i]);
        let ghost before = out@;
        out.push(t);
        assert(v@.take(i + 1) =~= v@.take(i as int).push(v@[i as int]));
        assert(tokens_view(out@) =~= tokens_view(before).push(t@));
        assert(tokens_view(v@.take(i + 1)) =~= tokens_view(v@.take(i as int)).push(v@[i as int]@));
        i += 1;
    }
    assert(v@.take(v.len() as int) =~= v@);
    out
}

/// Whether two token lists hold the same tokens.
pub fn tokens_eq(a: &Vec<Token>, b: &Vec<Token>) -> (r: bool)
    ensures
        r == (tokens_view(a@) == tokens_view(b@)),
{
    if a.len() != b.len() {
        assert(tokens_view(a@).len() != tokens_view(b@).len());
        return false;
    }
    let mut i: usize = 0;
    while i < a.len()
        invariant
            a.len() == b.len(),
            i <= a.len(),
            forall|j: int| 0 <= j < i ==> a@[j]@ == b@[j]@,
        decreases a.len() - i,
    {
        let same = match (&a[i], &b[i]) {
            (Token::Literal(x), Token::Literal(y)) => crate::strs::str_eq(x.as_str(), y.as_str()),
            (Token::Reference(x), Token::Reference(y)) => crate::strs::str_eq(
                x.as_str(),
                y.as_str(),
            ),
            _ => false,
        };
        if !same {
            assert(tokens_view(a@)[i as int] != tokens_view(b@)[i as int]);
            return false;
        }
        i += 1;
    }
    assert(tokens_view(a@) =~= tokens_view(b@));
    true
}

/// The characters `::`.
pub open spec fn double_colon() -> Seq<char> {
    seq![':', ':']
}

/// Whether `s` begins with `::`.
pub open spec fn starts_with_double_colon(s: Seq<char>) -> bool {
    s.len() >= 2 && s[0] == ':' && s[1] == ':'
}

/// Whether `s` begins with `%`, the mark of a replacer reference.
pub open spec fn is_replacer_ref(s: Seq<char>) -> bool {
    s.len() >= 1 && s[0] == '%'
}

/// The canonical form of an identifier written in a file whose base namespace is `base`:
/// an absolute `::path` stays; a replacer `%name:config` gets the base after its name;
/// anything else is placed under `::base::`.
pub open spec fn canonical_identifier(id: Seq<char>, base: Seq<char>) -> Seq<char> {
    if starts_with_double_colon(id) {
        id
    } else if is_replacer_ref(id) {
        match find_from(id, seq![':'], 0) {
            Some(k) => id.take(k) + seq![':'] + base + seq![':'] + id.skip(k + 1),
            None => id + seq![':'] + base,
        }
    } else if base.len() == 0 {
        double_colon() + id
    } else {
        double_colon() + base + double_colon() + id
    }
}

/// Converts an identifier to its canonical form using the base namespace.
pub fn to_canonical_identifier(identifier: &str, base_namespace: &str) -> (r: String)
    ensures
        r@ == canonical_identifier(identifier@, base_namespace@),
{
    let id = to_chars(identifier);
    let base = to_chars(base_namespace);
    let mut out: Vec<char> = Vec::new();
    if id.len() >= 2 && id[0] == ':' && id[1] == ':' {
        return identifier.to_owned();
    } else if id.len() >= 1 && id[0] == '%' {
        let colon = vec![':'];
        assert(colon@ =~= seq![':']);
        proof {
            crate::strs::lemma_find_from(id@, colon@, 0);
        }
        match find_at(&id, &colon, 0) {
            Some(k) => {
                let n = id.len();
                let mut head = slice_chars(&id, 0, k);
                let mut b = base.clone();
                let mut tail = slice_chars(&id, k + 1, n);
                out.append(&mut head);
                out.push(':');
                out.append(&mut b);
                out.push(':');
                out.append(&mut tail);
                assert(out@ =~= id@.take(k as int) + seq![':'] + base@ + seq![':'] + id@.skip(
                    k + 1,
                ));
            },
            None => {
                let mut a = id.clone();
                let mut b = base.clone();
                out.append(&mut a);
                out.push(':');
                out.append(&mut b);
                assert(out@ =~= id@ + seq![':'] + base@);
            },
        }
    } else {
        out.push(':');
        out.push(':');
        if base.len() > 0 {
            let mut b = base.clone();
            out.append(&mut b);
            out.push(':');
            out.push(':');
        }
        let mut a = id.clone();
        out.append(&mut a);
        if base.len() > 0 {
            assert(out@ =~= double_colon() + base@ + double_colon() + id@);
        } else {
            assert(out@ =~= double_colon() + id@);
        }
    }
    string_from_chars(&out)
}

/// The name of a replacer reference: the text between `%` and the first `:`.
pub open spec fn replacer_name_of(id: Seq<char>) -> Option<Seq<char>> {
    if is_replacer_ref(id) {
        let rest = id.skip(1);
        match find_from(rest, seq![':'], 0) {
            Some(k) => Some(rest.take(k)),
            None => Some(rest),
        }
    } else {
        None
    }
}

/// The name of the replacer that a reference calls, where it is a replacer reference.
pub fn replacer_name(identifier: &str) -> (r: Option<String>)
    ensures
        match replacer_name_of(identifier@) {
            Some(n) => r matches Some(x) && x@ == n,
            None => r is None,
        },
{
    let id = to_chars(identifier);
    if id.len() == 0 || id[0] != '%' {
        return None;
    }
    let rest = slice_chars(&id, 1, id.len());
    assert(rest@ =~= id@.skip(1));
    let colon = vec![':'];
    assert(colon@ =~= seq![':']);
    match find_at(&rest, &colon, 0) {
        Some(k) => {
            proof {
                crate::strs::lemma_find_from(rest@, colon@, 0);
            }
            let name = slice_chars(&rest, 0, k);
            assert(name@ =~= rest@.take(k as int));
            Some(string_from_chars(&name))
        },
        None => Some(string_from_chars(&rest)),
    }
}

/// The replacers whose captures are translated again: `word` and `any`.
pub open spec fn is_wildcard_name(n: Seq<char>) -> bool {
    n == seq!['w', 'o', 'r', 'd'] || n == seq!['a', 'n', 'y']
}

/// A reference to the `word` or `any` replacer.
pub open spec fn is_wildcard_ref(id: Seq<char>) -> bool {
    match replacer_name_of(id) {
        Some(n) => is_wildcard_name(n),
        None => false,
    }
}

fn name_is(n: &String, expected: &Vec<char>) -> (r: bool)
    ensures
        r == (n@ == expected@),
{
    let v = to_chars(n.as_str());
    crate::strs::chars_eq(&v, expected)
}

/// Whether the reference calls the `word` or `any` replacer.
pub fn is_wildcard_reference(identifier: &str) -> (r: bool)
    ensures
        r == is_wildcard_ref(identifier@),
{
    match replacer_name(identifier) {
        Some(n) => name_is(&n, &vec!['w', 'o', 'r', 'd']) || name_is(&n, &vec!['a', 'n', 'y']),
        None => false,
    }
}

/// Whether a result of this identifier is a capture to translate again.
pub fn is_translatable_wildcard(identifier: &str) -> (r: bool)
    ensures
        r == is_wildcard_ref(identifier@),
{
    is_wildcard_reference(identifier)
}

/// A token that references a wildcard replacer.
pub open spec fn is_wildcard_token_view(t: TokenView) -> bool {
    match t {
        TokenView::Reference(r) => is_wildcard_ref(r),
        TokenView::Literal(_) => false,
    }
}

/// Whether the token references a wildcard replacer.
pub fn is_wildcard_token(token: &Token) -> (r: bool)
    ensures
        r == is_wildcard_token_view(token@),
{
    match token {
        Token::Reference(reference) => is_wildcard_reference(reference.as_str()),
        Token::Literal(_) => false,
    }
}

/// Why an identifier is malformed.
#[derive(Debug, Clone, PartialEq, Eq)]
pub enum IdentifierError {
    /// A replacer reference without the `:` between name and configuration.
    ReplacerWithoutColon,
    /// A ruleset identifier, other than `::`, that ends with `::`.
    TrailingColons,
    /// A run of colons other than `::`; the run is given.
    InvalidColons(String),
}

/// An identifier's malformation, as text.
pub enum IdentifierErrorView {
    ReplacerWithoutColon,
    TrailingColons,
    InvalidColons(Seq<char>),
}

impl View for IdentifierError {
    type V = IdentifierErrorView;

    open spec fn view(&self) -> IdentifierErrorView {
        match self {
            IdentifierError::ReplacerWithoutColon => IdentifierErrorView::ReplacerWithoutColon,
            IdentifierError::TrailingColons => IdentifierErrorView::TrailingColons,
            IdentifierError::InvalidColons(s) => IdentifierErrorView::InvalidColons(s@),
        }
    }
}

/// The first position at or after `i` that does not hold `:`.
pub open spec fn colon_run_end(s: Seq<char>, i: int) -> int
    decreases s.len() - i,
{
    if 0 <= i < s.len() && s[i] == ':' {
        colon_run_end(s, i + 1)
    } else {
        i
    }
}

/// The run of colons from `i` ends within `s`.
pub proof fn lemma_colon_run_end(s: Seq<char>, i: int)
    requires
        0 <= i <= s.len(),
    ensures
        i <= colon_run_end(s, i) <= s.len(),
    decreases s.len() - i,
{
    if i < s.len() && s[i] == ':' {
        lemma_colon_run_end(s, i + 1);
    }
}

/// The first maximal run of colons at or after `i` whose length is not two.
pub open spec fn bad_colon_run(s: Seq<char>, i: int) -> Option<Seq<char>>
    decreases s.len() - i,
{
    if i < 0 || i >= s.len() {
        None
    } else if s[i] == ':' {
        let e = colon_run_end(s, i);
        proof {
            lemma_colon_run_end(s, i);
        }
        if e - i != 2 {
            Some(s.subrange(i, e))
        } else {
            bad_colon_run(s, e)
        }
    } else {
        bad_colon_run(s, i + 1)
    }
}

/// What is wrong with an identifier, if anything.
pub open spec fn identifier_error(s: Seq<char>) -> Option<IdentifierErrorView> {
    if is_replacer_ref(s) {
        if s.contains(':') {
            None
        } else {
            Some(IdentifierErrorView::ReplacerWithoutColon)
        }
    } else if s != double_colon() && s.len() >= 2 && s[s.len() - 2] == ':' && s[s.len() - 1]
        == ':' {
        Some(IdentifierErrorView::TrailingColons)
    } else {
        match bad_colon_run(s, 0) {
            Some(run) => Some(IdentifierErrorView::InvalidColons(run)),
            None => None,
        }
    }
}

/// Checks an identifier: a replacer reference needs a `:`; a ruleset identifier other
/// than `::` cannot end with `::`, and its colons come in pairs.
pub fn validate_identifier_format(identifier: &str) -> (r: Result<(), IdentifierError>)
    ensures
        match identifier_error(identifier@) {
            Some(e) => r matches Err(x) && x@ == e,
            None => r is Ok,
        },
{
    let s = to_chars(identifier);
    let n = s.len();
    if n >= 1 && s[0] == '%' {
        if crate::strs::contains_char(&s, ':') {
            return Ok(());
        }
        return Err(IdentifierError::ReplacerWithoutColon);
    }
    let is_root = n == 2 && s[0] == ':' && s[1] == ':';
    assert(is_root == (s@ == double_colon())) by {
        if n == 2 && s[0] == ':' && s[1] == ':' {
            assert(s@ =~= double_colon());
        }
    }
    if !is_root && n >= 2 && s[n - 2] == ':' && s[n - 1] == ':' {
        return Err(IdentifierError::TrailingColons);
    }
    let mut i: usize = 0;
    while i < n
        invariant
            n == s.len(),
            s@ == identifier@,
            i <= n,
            bad_colon_run(s@, i as int) == bad_colon_run(s@, 0),
            identifier_error(s@) == match bad_colon_run(s@, 0) {
                Some(run) => Some(IdentifierErrorView::InvalidColons(run)),
                None => None,
            },
        decreases n - i,
    {
        if s[i] == ':' {
            let mut e = i;
            while e < n && s[e] == ':'
                invariant
                    n == s.len(),
                    i <= e <= n,
                    colon_run_end(s@, e as int) == colon_run_end(s@, i as int),
                decreases n - e,
            {
                e += 1;
            }
            assert(colon_run_end(s@, e as int) == e);
            if e - i != 2 {
                let run = slice_chars(&s, i, e);
                assert(bad_colon_run(s@, i as int) == Some(s@.subrange(i as int, e as int)));
                return Err(IdentifierError::InvalidColons(string_from_chars(&run)));
            }
            i = e;
        } else {
            i += 1;
        }
    }
    Ok(())
}

/// The first position at or after `j` that holds a brace, or the end.
pub open spec fn brace_free_end(s: Seq<char>, j: int) -> int
    decreases s.len() - j,
{
    if 0 <= j < s.len() && s[j] != '{' && s[j] != '}' {
        brace_free_end(s, j + 1)
    } else {
        j
    }
}

/// The run of characters that are not braces from `j` ends within `s`.
pub proof fn lemma_brace_free_end(s: Seq<char>, j: int)
    requires
        0 <= j <= s.len(),
    ensures
        j <= brace_free_end(s, j) <= s.len(),
    decreases s.len() - j,
{
    if j < s.len() && s[j] != '{' && s[j] != '}' {
        lemma_brace_free_end(s, j + 1);
    }
}

/// The end of the reference group `{name}` that starts at `i`, if one does: a `{`, at
/// least one character that is no brace, and a `}`.
pub open spec fn group_end(s: Seq<char>, i: int) -> Option<int> {
    if 0 <= i < s.len() && s[i] == '{' {
        let j = brace_free_end(s, i + 1);
        if j > i + 1 && j < s.len() && s[j] == '}' {
            Some(j + 1)
        } else {
            None
        }
    } else {
        None
    }
}

/// The pieces of `s[cut..]` when reference groups are searched from `i` on: the text
/// between groups, and each group, in order; empty pieces are left out.
pub open spec fn pieces(s: Seq<char>, cut: int, i: int) -> Seq<Seq<char>>
    decreases s.len() - i,
{
    if i < 0 || i >= s.len() || cut < 0 || cut > i {
        if 0 <= cut < s.len() {
            seq![s.subrange(cut, s.len() as int)]
        } else {
            seq![]
        }
    } else {
        match group_end(s, i) {
            Some(e) => {
                proof {
                    lemma_brace_free_end(s, i + 1);
                }
                (if cut < i {
                    seq![s.subrange(cut, i)]
                } else {
                    seq![]
                }) + seq![s.subrange(i, e)] + pieces(s, e, e)
            },
            None => pieces(s, cut, i + 1),
        }
    }
}

/// The token a piece stands for: a piece in braces is a reference, made canonical.
pub open spec fn token_of(piece: Seq<char>, base: Seq<char>) -> TokenView {
    if piece.len() >= 2 && piece[0] == '{' && piece.last() == '}' {
        TokenView::Reference(canonical_identifier(piece.subrange(1, piece.len() - 1), base))
    } else {
        TokenView::Literal(piece)
    }
}

/// Why a token string could not be parsed.
#[derive(Debug, Clone, PartialEq, Eq)]
pub enum TokenError {
    /// The numbers of `{` and of `}` differ.
    MismatchedBraces { left: usize, right: usize },
    /// A reference whose identifier is malformed.
    InvalidReference { token: Token, error: IdentifierError },
}

/// A token string's error, as text.
pub enum TokenErrorView {
    MismatchedBraces { left: nat, right: nat },
    InvalidReference { token: TokenView, error: IdentifierErrorView },
}

impl View for TokenError {
    type V = TokenErrorView;

    open spec fn view(&self) -> TokenErrorView {
        match self {
            TokenError::MismatchedBraces { left, right } => TokenErrorView::MismatchedBraces {
                left: *left as nat,
                right: *right as nat,
            },
            TokenError::InvalidReference { token, error } => TokenErrorView::InvalidReference {
                token: token@,
                error: error@,
            },
        }
    }
}

/// The first reference among `ts[i..]` whose identifier is malformed, with its error.
pub open spec fn first_invalid_reference(ts: Seq<TokenView>, i: int) -> Option<
    (TokenView, IdentifierErrorView),
>
    decreases ts.len() - i,
{
    if i < 0 || i >= ts.len() {
        None
    } else {
        match ts[i] {
            TokenView::Reference(r) => match identifier_error(r) {
                Some(e) => Some((ts[i], e)),
                None => first_invalid_reference(ts, i + 1),
            },
            TokenView::Literal(_) => first_invalid_reference(ts, i + 1),
        }
    }
}

/// The tokens of a rule's text written in a file with base namespace `base`.
pub open spec fn parsed_tokens(base: Seq<char>, input: Seq<char>) -> Result<
    Seq<TokenView>,
    TokenErrorView,
> {
    let left = crate::strs::count_char(input, '{');
    let right = crate::strs::count_char(input, '}');
    if left != right {
        Err(TokenErrorView::MismatchedBraces { left, right })
    } else {
        let ts = pieces(input, 0, 0).map_values(|p: Seq<char>| token_of(p, base));
        match first_invalid_reference(ts, 0) {
            Some((t, e)) => Err(TokenErrorView::InvalidReference { token: t, error: e }),
            None => Ok(ts),
        }
    }
}

/// The characters of each vector.
pub open spec fn chars_view(v: Seq<Vec<char>>) -> Seq<Seq<char>> {
    v.map_values(|x: Vec<char>| x@)
}

fn push_piece(out: &mut Vec<Vec<char>>, s: &Vec<char>, from: usize, to: usize)
    requires
        from <= to <= s.len(),
    ensures
        chars_view(final(out)@) == chars_view(old(out)@).push(s@.subrange(from as int, to as int)),
{
    let p = slice_chars(s, from, to);
    out.push(p);
    assert(chars_view(out@) =~= chars_view(old(out)@).push(s@.subrange(from as int, to as int)));
}

/// Cuts a token string into literal pieces and reference groups.
fn split_pieces(s: &Vec<char>) -> (r: Vec<Vec<char>>)
    ensures
        chars_view(r@) == pieces(s@, 0, 0),
{
    let n = s.len();
    let mut out: Vec<Vec<char>> = Vec::new();
    let mut cut: usize = 0;
    let mut i: usize = 0;
    assert(chars_view(out@) + pieces(s@, 0, 0) =~= pieces(s@, 0, 0));
    while i < n
        invariant
            n == s.len(),
            cut <= i <= n,
            chars_view(out@) + pieces(s@, cut as int, i as int) == pieces(s@, 0, 0),
        decreases n - i,
    {
        if s[i] == '{' {
            let mut j = i + 1;
            while j < n && s[j] != '{' && s[j] != '}'
                invariant
                    n == s.len(),
                    i < j <= n,
                    brace_free_end(s@, j as int) == brace_free_end(s@, i + 1),
                decreases n - j,
            {
                j += 1;
            }
            assert(brace_free_end(s@, j as int) == j);
            if j > i + 1 && j < n && s[j] == '}' {
                let ghost before = chars_view(out@);
                let ghost old_cut = cut as int;
                if cut < i {
                    push_piece(&mut out, s, cut, i);
                }
                push_piece(&mut out, s, i, j + 1);
                cut = j + 1;
                proof {
                    let e = j + 1;
                    assert(group_end(s@, i as int) == Some(e as int));
                    if old_cut < i {
                        assert(before + pieces(s@, old_cut, i as int) =~= chars_view(out@)
                            + pieces(s@, e as int, e as int));
                    } else {
                        assert(before + pieces(s@, old_cut, i as int) =~= chars_view(out@)
                            + pieces(s@, e as int, e as int));
                    }
                }
                i = j + 1;
            } else {
                assert(group_end(s@, i as int) is None);
                i += 1;
            }
        } else {
            i += 1;
        }
    }
    let ghost before = chars_view(out@);
    if cut < n {
        push_piece(&mut out, s, cut, n);
    }
    assert(before + pieces(s@, cut as int, i as int) =~= chars_view(out@));
    out
}

/// The token for one piece.
fn piece_token(piece: &Vec<char>, base_namespace: &str) -> (r: Token)
    ensures
        r@ == token_of(piece@, base_namespace@),
{
    let n = piece.len();
    if n >= 2 && piece[0] == '{' && piece[n - 1] == '}' {
        let inner = slice_chars(piece, 1, n - 1);
        let inner_text = string_from_chars(&inner);
        Token::Reference(to_canonical_identifier(inner_text.as_str(), base_namespace))
    } else {
        Token::Literal(string_from_chars(piece))
    }
}

/// Parses a rule's text into tokens: `{name}` groups are references, made canonical
/// under the base namespace, and the text between them is literal. The braces must
/// balance and every reference must be well formed.
pub fn parse_tokens(base_namespace: &str, input: &str) -> (r: Result<Vec<Token>, TokenError>)
    ensures
        match parsed_tokens(base_namespace@, input@) {
            Ok(ts) => r matches Ok(v) && tokens_view(v@) == ts,
            Err(e) => r matches Err(x) && x@ == e,
        },
{
    let s = to_chars(input);
    let left = crate::strs::count_chars(&s, '{');
    let right = crate::strs::count_chars(&s, '}');
    if left != right {
        return Err(TokenError::MismatchedBraces { left, right });
    }
    let ps = split_pieces(&s);
    let ghost ts = pieces(s@, 0, 0).map_values(|p: Seq<char>| token_of(p, base_namespace@));
    let mut tokens: Vec<Token> = Vec::new();
    let mut k: usize = 0;
    while k < ps.len()
        invariant
            k <= ps.len(),
            chars_view(ps@) == pieces(s@, 0, 0),
            ts == pieces(s@, 0, 0).map_values(|p: Seq<char>| token_of(p, base_namespace@)),
            tokens_view(tokens@) == ts.take(k as int),
        decreases ps.len() - k,
    {
        let t = piece_token(&ps[k], base_namespace);
        let ghost before = tokens@;
        tokens.push(t);
        assert(tokens_view(tokens@) =~= tokens_view(before).push(t@));
        k += 1;
        assert(ts.take(k as int) =~= ts.take(k - 1).push(ts[k - 1]));
    }
    assert(ts.take(ps.len() as int) =~= ts);
    let mut i: usize = 0;
    while i < tokens.len()
        invariant
            i <= tokens.len(),
            s@ == input@,
            crate::strs::count_char(input@, '{') == crate::strs::count_char(input@, '}'),
            ts == pieces(s@, 0, 0).map_values(|p: Seq<char>| token_of(p, base_namespace@)),
            tokens_view(tokens@) == ts,
            first_invalid_reference(ts, i as int) == first_invalid_reference(ts, 0),
        decreases tokens.len() - i,
    {
        if let Token::Reference(id) = &tokens[i] {
            match validate_identifier_format(id.as_str()) {
                Err(e) => {
                    assert(ts[i as int] == tokens@[i as int]@);
                    return Err(TokenError::InvalidReference { token: copy_token(&tokens[i]), error: e });
                },
                Ok(()) => {},
            }
        }
        i += 1;
    }
    Ok(tokens)
}

/// Why a rule's wildcards are laid out unsafely.
#[derive(Debug, Clone, PartialEq, Eq)]
pub enum LayoutError {
    /// A `%word` or `%any` directly followed by another wildcard; the first one's name.
    AdjacentWildcards { name: String },
    /// A `%any` followed by something other than a non-empty literal.
    UnboundedAny,
}

/// A layout error, as text.
pub enum LayoutErrorView {
    AdjacentWildcards { name: Seq<char> },
    UnboundedAny,
}

impl View for LayoutError {
    type V = LayoutErrorView;

    open spec fn view(&self) -> LayoutErrorView {
        match self {
            LayoutError::AdjacentWildcards { name } => LayoutErrorView::AdjacentWildcards {
                name: name@,
            },
            LayoutError::UnboundedAny => LayoutErrorView::UnboundedAny,
        }
    }
}

/// The layout error at token `i`, if it is a wildcard badly followed.
pub open spec fn layout_error_at(ts: Seq<TokenView>, i: int) -> Option<LayoutErrorView> {
    match ts[i] {
        TokenView::Reference(r) => match replacer_name_of(r) {
            Some(name) => if !is_wildcard_name(name) {
                None
            } else if i + 1 < ts.len() && is_wildcard_token_view(ts[i + 1]) {
                Some(LayoutErrorView::AdjacentWildcards { name })
            } else if name == seq!['a', 'n', 'y'] && i + 1 < ts.len() && !(match ts[i + 1] {
                TokenView::Literal(l) => l.len() > 0,
                TokenView::Reference(_) => false,
            }) {
                Some(LayoutErrorView::UnboundedAny)
            } else {
                None
            },
            None => None,
        },
        TokenView::Literal(_) => None,
    }
}

/// The first layout error among the tokens from `i` on.
pub open spec fn layout_error(ts: Seq<TokenView>, i: int) -> Option<LayoutErrorView>
    decreases ts.len() - i,
{
    if i < 0 || i >= ts.len() {
        None
    } else {
        match layout_error_at(ts, i) {
            Some(e) => Some(e),
            None => layout_error(ts, i + 1),
        }
    }
}

/// Checks where wildcards stand in a rule: a `%word` or `%any` must not be directly
/// followed by another wildcard, and a `%any` must be last or followed by a non-empty
/// literal.
pub fn validate_wildcard_layout(tokens: &Vec<Token>) -> (r: Result<(), LayoutError>)
    ensures
        match layout_error(tokens_view(tokens@), 0) {
            Some(e) => r matches Err(x) && x@ == e,
            None => r is Ok,
        },
{
    let ghost ts = tokens_view(tokens@);
    let n = tokens.len();
    let mut index: usize = 0;
    while index < n
        invariant
            n == tokens.len(),
            ts == tokens_view(tokens@),
            index <= n,
            layout_error(ts, index as int) == layout_error(ts, 0),
        decreases n - index,
    {
        if let Token::Reference(reference) = &tokens[index] {
            if let Some(name) = replacer_name(reference.as_str()) {
                let is_word = name_is(&name, &vec!['w', 'o', 'r', 'd']);
                let is_any = name_is(&name, &vec!['a', 'n', 'y']);
                if is_word || is_any {
                    if index + 1 < n && is_wildcard_token(&tokens[index + 1]) {
                        return Err(LayoutError::AdjacentWildcards { name });
                    }
                    if is_any && index + 1 < n {
                        let bounded = match &tokens[index + 1] {
                            Token::Literal(l) => !l.as_str().is_empty(),
                            Token::Reference(_) => false,
                        };
                        if !bounded {
                            return Err(LayoutError::UnboundedAny);
                        }
                    }
                }
            }
        }
        index += 1;
    }
    Ok(())
}

} // verus!
