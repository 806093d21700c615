//! Character-level helpers shared by the text-processing modules.
use vstd::prelude::*;

verus! {

/// `String::push` appends one character to the end of the string.
pub assume_specification[ String::push ](s: &mut String, ch: char)
    ensures
        final(s)@ == old(s)@.push(ch),
;

/// Unicode `White_Space` property, as `char::is_whitespace` documents it.
pub open spec fn is_ws(c: char) -> bool {
    let u = c as u32;
    ||| 9 <= u <= 13
    ||| u == 32
    ||| u == 0x85
    ||| u == 0xA0
    ||| u == 0x1680
    ||| 0x2000 <= u <= 0x200A
    ||| u == 0x2028
    ||| u == 0x2029
    ||| u == 0x202F
    ||| u == 0x205F
    ||| u == 0x3000
}

/// Whether a character has the Unicode `White_Space` property.
pub fn is_whitespace(c: char) -> (b: bool)
    ensures
        b == is_ws(c),
{
    let u = c as u32;
    (9 <= u && u <= 13) || u == 32 || u == 0x85 || u == 0xA0 || u == 0x1680 || (0x2000 <= u && u
        <= 0x200A) || u == 0x2028 || u == 0x2029 || u == 0x202F || u == 0x205F || u == 0x3000
}

/// Whether `c` is an ASCII character.
pub open spec fn is_ascii_char(c: char) -> bool {
    (c as u32) < 128
}

/// Whether `c` is an ASCII letter.
pub open spec fn is_ascii_letter(c: char) -> bool {
    ('a' <= c <= 'z') || ('A' <= c <= 'Z')
}

/// The name of the result of `char::is_alphabetic` (Unicode `Alphabetic`).
pub uninterp spec fn unicode_alphabetic(c: char) -> bool;

/// The name of the result of `char::is_lowercase` (Unicode `Lowercase`).
pub uninterp spec fn unicode_lowercase(c: char) -> bool;

/// The name of the result of `str::to_lowercase` (full Unicode lowercase mapping).
pub uninterp spec fn lowercase(s: Seq<char>) -> Seq<char>;

/// A text in lower case as `str::to_lowercase` gives it, spelled out where the text is
/// ASCII: there only capital letters change.
pub open spec fn lower_text(s: Seq<char>) -> Seq<char> {
    if forall|i: int| 0 <= i < s.len() ==> is_ascii_char(#[trigger] s[i]) {
        crate::preference::ascii_lower(s)
    } else {
        lowercase(s)
    }
}

/// Calls `char::is_alphabetic`; the result is named, its table is not restated.
#[verifier::external_body]
pub fn char_is_alphabetic(c: char) -> (b: bool)
    ensures
        b == unicode_alphabetic(c),
{
    c.is_alphabetic()
}

/// Calls `char::is_lowercase`; the result is named, its table is not restated.
#[verifier::external_body]
pub fn char_is_lowercase(c: char) -> (b: bool)
    ensures
        b == unicode_lowercase(c),
{
    c.is_lowercase()
}

/// Calls `str::to_lowercase`; the result is named. Of the Unicode mapping only its
/// ASCII part is restated: a text of ASCII characters has its capital letters made
/// small and keeps every other character (so the result is `lower_text` of the text).
#[verifier::external_body]
pub fn to_lowercase(s: &str) -> (r: String)
    ensures
        r@ == lowercase(s@),
        (forall|i: int| 0 <= i < s@.len() ==> (s@[i] as u32) < 128) ==> r@ == crate::preference::ascii_lower(s@),
        r@ == lower_text(s@),
{
    s.to_lowercase()
}

/// The characters of a string slice, in order.
pub fn to_chars(s: &str) -> (v: Vec<char>)
    ensures
        v@ == s@,
{
    let mut v: Vec<char> = Vec::new();
    for c in it: s.chars()
        invariant
            v@ == it.seq().take(it.index() as int),
            it.seq() == s@,
    {
        v.push(c);
    }
    v
}

/// A string made of `v[from..to]`.
pub fn string_of(v: &Vec<char>, from: usize, to: usize) -> (s: String)
    requires
        from <= to <= v.len(),
    ensures
        s@ == v@.subrange(from as int, to as int),
{
    let mut s = String::new();
    let mut i = from;
    while i < to
        invariant
            from <= i <= to <= v.len(),
            s@ == v@.subrange(from as int, i as int),
        decreases to - i,
    {
        s.push(v[i]);
        i += 1;
        assert(s@ =~= v@.subrange(from as int, i as int));
    }
    s
}

/// The string of all characters of `v`.
pub fn string_of_all(v: &Vec<char>) -> (s: String)
    ensures
        s@ == v@,
{
    let s = string_of(v, 0, v.len());
    assert(v@.subrange(0, v@.len() as int) =~= v@);
    s
}

/// Appends `v[from..to]` to `s`.
pub fn push_range(s: &mut String, v: &Vec<char>, from: usize, to: usize)
    requires
        from <= to <= v.len(),
    ensures
        final(s)@ == old(s)@ + v@.subrange(from as int, to as int),
{
    let mut i = from;
    while i < to
        invariant
            from <= i <= to <= v.len(),
            s@ == old(s)@ + v@.subrange(from as int, i as int),
        decreases to - i,
    {
        s.push(v[i]);
        i += 1;
        assert(s@ =~= old(s)@ + v@.subrange(from as int, i as int));
    }
}

/// Appends the characters of `t` to `s`.
pub fn push_str(s: &mut String, t: &str)
    ensures
        final(s)@ == old(s)@ + t@,
{
    let v = to_chars(t);
    push_range(s, &v, 0, v.len());
    assert(v@.subrange(0, v@.len() as int) =~= v@);
}

/// `s` with trailing white space removed (`str::trim_end`).
pub open spec fn trim_end(s: Seq<char>) -> Seq<char>
    decreases s.len(),
{
    if s.len() > 0 && is_ws(s.last()) {
        trim_end(s.drop_last())
    } else {
        s
    }
}

/// `s` with leading white space removed (`str::trim_start`).
pub open spec fn trim_start(s: Seq<char>) -> Seq<char>
    decreases s.len(),
{
    if s.len() > 0 && is_ws(s[0]) {
        trim_start(s.drop_first())
    } else {
        s
    }
}

/// `s` with white space removed at both ends (`str::trim`).
pub open spec fn trim(s: Seq<char>) -> Seq<char> {
    trim_start(trim_end(s))
}

/// The end of `v[from..to]` once trailing white space is dropped.
pub fn trim_end_index(v: &Vec<char>, from: usize, to: usize) -> (e: usize)
    requires
        from <= to <= v.len(),
    ensures
        from <= e <= to,
        v@.subrange(from as int, e as int) == trim_end(v@.subrange(from as int, to as int)),
{
    let mut e = to;
    while e > from && is_whitespace(v[e - 1])
        invariant
            from <= e <= to <= v.len(),
            trim_end(v@.subrange(from as int, e as int)) == trim_end(
                v@.subrange(from as int, to as int),
            ),
        decreases e,
    {
        assert(v@.subrange(from as int, e as int).drop_last() =~= v@.subrange(
            from as int,
            e - 1,
        ));
        e -= 1;
    }
    e
}

/// The start of `v[from..to]` once leading white space is dropped.
pub fn trim_start_index(v: &Vec<char>, from: usize, to: usize) -> (b: usize)
    requires
        from <= to <= v.len(),
    ensures
        from <= b <= to,
        v@.subrange(b as int, to as int) == trim_start(v@.subrange(from as int, to as int)),
{
    let mut b = from;
    while b < to && is_whitespace(v[b])
        invariant
            from <= b <= to <= v.len(),
            trim_start(v@.subrange(b as int, to as int)) == trim_start(
                v@.subrange(from as int, to as int),
            ),
        decreases to - b,
    {
        assert(v@.subrange(b as int, to as int).drop_first() =~= v@.subrange(b + 1, to as int));
        b += 1;
    }
    b
}

/// A trimmed copy of `v[from..to]` (`str::trim`).
pub fn trimmed(v: &Vec<char>, from: usize, to: usize) -> (s: String)
    requires
        from <= to <= v.len(),
    ensures
        s@ == trim(v@.subrange(from as int, to as int)),
{
    let e = trim_end_index(v, from, to);
    let b = trim_start_index(v, from, e);
    string_of(v, b, e)
}

/// Whether `v[at..]` starts with `p`.
pub fn starts_with_at(v: &Vec<char>, at: usize, p: &Vec<char>) -> (b: bool)
    requires
        at <= v.len(),
    ensures
        b == (at + p.len() <= v.len() && v@.subrange(at as int, at + p.len()) == p@),
{
    if p.len() > v.len() - at {
        return false;
    }
    let mut i: usize = 0;
    while i < p.len()
        invariant
            at + p.len() <= v.len(),
            i <= p.len(),
            forall|j: int| 0 <= j < i ==> v@[at + j] == p@[j],
        decreases p.len() - i,
    {
        if v[at + i] != p[i] {
            assert(v@.subrange(at as int, at + p.len())[i as int] != p@[i as int]);
            return false;
        }
        i += 1;
    }
    assert(v@.subrange(at as int, at + p.len()) =~= p@);
    true
}

/// Whether two character sequences are equal.
pub fn chars_eq(a: &Vec<char>, b: &Vec<char>) -> (r: bool)
    ensures
        r == (a@ == b@),
{
    if a.len() != b.len() {
        return false;
    }
    let r = starts_with_at(a, 0, b);
    assert(a@.subrange(0, b.len() as int) =~= a@);
    r
}

/// Whether two strings hold the same characters.
pub fn str_eq(a: &str, b: &str) -> (r: bool)
    ensures
        r == (a@ == b@),
{
    let va = to_chars(a);
    let vb = to_chars(b);
    chars_eq(&va, &vb)
}

/// Whether the character `c` occurs in `v`.
pub fn contains_char(v: &Vec<char>, c: char) -> (r: bool)
    ensures
        r == v@.contains(c),
{
    let mut i: usize = 0;
    while i < v.len()
        invariant
            i <= v.len(),
            forall|j: int| 0 <= j < i ==> v@[j] != c,
        decreases v.len() - i,
    {
        if v[i] == c {
            return true;
        }
        i += 1;
    }
    false
}

/// The first position at or after `i` where `p` occurs in `s`.
pub open spec fn find_from(s: Seq<char>, p: Seq<char>, i: int) -> Option<int>
    decreases s.len() + 1 - i,
{
    if i < 0 || i + p.len() > s.len() {
        None
    } else if s.subrange(i, i + p.len()) == p {
        Some(i)
    } else {
        find_from(s, p, i + 1)
    }
}

/// The last position at or before `i` where `p` occurs in `s`.
pub open spec fn rfind_from(s: Seq<char>, p: Seq<char>, i: int) -> Option<int>
    decreases i + 1,
{
    if i < 0 {
        None
    } else if i + p.len() <= s.len() && s.subrange(i, i + p.len()) == p {
        Some(i)
    } else {
        rfind_from(s, p, i - 1)
    }
}

/// `str::split_once`: the parts before and after the first `p`.
pub open spec fn split_once(s: Seq<char>, p: Seq<char>) -> Option<(Seq<char>, Seq<char>)> {
    match find_from(s, p, 0) {
        Some(k) => Some((s.take(k), s.skip(k + p.len()))),
        None => None,
    }
}

/// `str::rsplit_once`: the parts before and after the last `p`.
pub open spec fn rsplit_once(s: Seq<char>, p: Seq<char>) -> Option<(Seq<char>, Seq<char>)> {
    match rfind_from(s, p, s.len() - p.len()) {
        Some(k) => Some((s.take(k), s.skip(k + p.len()))),
        None => None,
    }
}

/// `str::strip_prefix`.
pub open spec fn strip_prefix(s: Seq<char>, p: Seq<char>) -> Option<Seq<char>> {
    if p.len() <= s.len() && s.take(p.len() as int) == p {
        Some(s.skip(p.len() as int))
    } else {
        None
    }
}

/// `str::strip_suffix` for one character.
pub open spec fn strip_suffix_char(s: Seq<char>, c: char) -> Option<Seq<char>> {
    if s.len() > 0 && s.last() == c {
        Some(s.drop_last())
    } else {
        None
    }
}

/// What `find_from` returns is a match at or after the start.
pub proof fn lemma_find_from(s: Seq<char>, p: Seq<char>, i: int)
    ensures
        find_from(s, p, i) matches Some(k) ==> i <= k && k + p.len() <= s.len() && s.subrange(
            k,
            k + p.len(),
        ) == p,
    decreases s.len() + 1 - i,
{
    if i < 0 || i + p.len() > s.len() {
    } else if s.subrange(i, i + p.len()) == p {
    } else {
        lemma_find_from(s, p, i + 1);
    }
}

/// What `rfind_from` returns is a match at or before the start.
pub proof fn lemma_rfind_from(s: Seq<char>, p: Seq<char>, i: int)
    ensures
        rfind_from(s, p, i) matches Some(k) ==> 0 <= k <= i && k + p.len() <= s.len() && s.subrange(
            k,
            k + p.len(),
        ) == p,
    decreases i + 1,
{
    if i < 0 {
    } else if i + p.len() <= s.len() && s.subrange(i, i + p.len()) == p {
    } else {
        lemma_rfind_from(s, p, i - 1);
    }
}

/// The position of the first `p` in `v` at or after `from`.
pub fn find_at(v: &Vec<char>, p: &Vec<char>, from: usize) -> (r: Option<usize>)
    requires
        from <= v.len(),
    ensures
        r matches Some(k) ==> find_from(v@, p@, from as int) == Some(k as int),
        r is None ==> find_from(v@, p@, from as int) is None,
{
    if p.len() == 0 {
        assert(v@.subrange(from as int, from as int) =~= p@);
        return Some(from);
    }
    let mut i = from;
    loop
        invariant
            from <= i <= v.len(),
            p.len() >= 1,
            find_from(v@, p@, i as int) == find_from(v@, p@, from as int),
        decreases v.len() - i,
    {
        if p.len() > v.len() - i {
            return None;
        }
        if starts_with_at(v, i, p) {
            return Some(i);
        }
        i += 1;
    }
}

/// The position of the last `p` in `v` at or before `at`.
pub fn rfind_at(v: &Vec<char>, p: &Vec<char>, at: usize) -> (r: Option<usize>)
    requires
        at <= v.len(),
    ensures
        r matches Some(k) ==> rfind_from(v@, p@, at as int) == Some(k as int),
        r is None ==> rfind_from(v@, p@, at as int) is None,
{
    let mut i = at;
    loop
        invariant
            i <= at <= v.len(),
            rfind_from(v@, p@, i as int) == rfind_from(v@, p@, at as int),
        decreases i,
    {
        if starts_with_at(v, i, p) {
            return Some(i);
        }
        if i == 0 {
            assert(rfind_from(v@, p@, -1) is None);
            return None;
        }
        i -= 1;
    }
}

/// `str::split_once` on characters.
pub fn split_once_chars(v: &Vec<char>, p: &Vec<char>) -> (r: Option<(Vec<char>, Vec<char>)>)
    ensures
        match split_once(v@, p@) {
            Some((a, b)) => r matches Some((x, y)) && x@ == a && y@ == b,
            None => r is None,
        },
{
    proof {
        lemma_find_from(v@, p@, 0);
    }
    match find_at(v, p, 0) {
        Some(k) => {
            let n: usize = v.len();
            let e: usize = k + p.len();
            let a = slice_chars(v, 0, k);
            let b = slice_chars(v, e, n);
            assert(a@ =~= v@.take(k as int));
            assert(b@ =~= v@.skip(k + p.len()));
            Some((a, b))
        },
        None => None,
    }
}

/// `str::rsplit_once` on characters.
pub fn rsplit_once_chars(v: &Vec<char>, p: &Vec<char>) -> (r: Option<(Vec<char>, Vec<char>)>)
    ensures
        match rsplit_once(v@, p@) {
            Some((a, b)) => r matches Some((x, y)) && x@ == a && y@ == b,
            None => r is None,
        },
{
    if p.len() > v.len() {
        assert(rfind_from(v@, p@, v@.len() - p@.len()) is None);
        return None;
    }
    proof {
        lemma_rfind_from(v@, p@, v@.len() - p@.len());
    }
    match rfind_at(v, p, v.len() - p.len()) {
        Some(k) => {
            let a = slice_chars(v, 0, k);
            let b = slice_chars(v, k + p.len(), v.len());
            assert(a@ =~= v@.take(k as int));
            assert(b@ =~= v@.skip(k + p.len()));
            Some((a, b))
        },
        None => None,
    }
}

/// `v[from..to]` as a new vector.
pub fn slice_chars(v: &Vec<char>, from: usize, to: usize) -> (r: Vec<char>)
    requires
        from <= to <= v.len(),
    ensures
        r@ == v@.subrange(from as int, to as int),
{
    let mut r: Vec<char> = Vec::new();
    let mut i = from;
    while i < to
        invariant
            from <= i <= to <= v.len(),
            r@ == v@.subrange(from as int, i as int),
        decreases to - i,
    {
        r.push(v[i]);
        i += 1;
        assert(r@ =~= v@.subrange(from as int, i as int));
    }
    r
}

/// `str::strip_prefix` on characters.
pub fn strip_prefix_chars(v: &Vec<char>, p: &Vec<char>) -> (r: Option<Vec<char>>)
    ensures
        match strip_prefix(v@, p@) {
            Some(a) => r matches Some(x) && x@ == a,
            None => r is None,
        },
{
    if starts_with_at(v, 0, p) {
        assert(v@.subrange(0, p@.len() as int) =~= v@.take(p@.len() as int));
        let r = slice_chars(v, p.len(), v.len());
        assert(r@ =~= v@.skip(p@.len() as int));
        Some(r)
    } else {
        assert(p.len() <= v.len() ==> v@.subrange(0, p@.len() as int) =~= v@.take(p@.len() as int));
        None
    }
}

/// `str::strip_suffix` of one character, on characters.
pub fn strip_suffix_char_chars(v: &Vec<char>, c: char) -> (r: Option<Vec<char>>)
    ensures
        match strip_suffix_char(v@, c) {
            Some(a) => r matches Some(x) && x@ == a,
            None => r is None,
        },
{
    if v.len() > 0 && v[v.len() - 1] == c {
        let r = slice_chars(v, 0, v.len() - 1);
        assert(r@ =~= v@.drop_last());
        Some(r)
    } else {
        None
    }
}

/// `str::strip_suffix` with a string pattern.
pub open spec fn strip_suffix(s: Seq<char>, p: Seq<char>) -> Option<Seq<char>> {
    if p.len() <= s.len() && s.skip(s.len() - p.len()) == p {
        Some(s.take(s.len() - p.len()))
    } else {
        None
    }
}

/// `str::strip_suffix` on characters.
pub fn strip_suffix_chars(v: &Vec<char>, p: &Vec<char>) -> (r: Option<Vec<char>>)
    ensures
        match strip_suffix(v@, p@) {
            Some(a) => r matches Some(x) && x@ == a,
            None => r is None,
        },
{
    if p.len() > v.len() {
        return None;
    }
    let k = v.len() - p.len();
    if starts_with_at(v, k, p) {
        assert(v@.subrange(k as int, v@.len() as int) =~= v@.skip(k as int));
        let r = slice_chars(v, 0, k);
        assert(r@ =~= v@.take(k as int));
        Some(r)
    } else {
        assert(v@.subrange(k as int, v@.len() as int) =~= v@.skip(k as int));
        None
    }
}

/// How many times `c` occurs in `s`.
pub open spec fn count_char(s: Seq<char>, c: char) -> nat
    decreases s.len(),
{
    if s.len() == 0 {
        0
    } else {
        count_char(s.drop_last(), c) + if s.last() == c {
            1nat
        } else {
            0nat
        }
    }
}

/// The number of times `c` occurs in `v`.
pub fn count_chars(v: &Vec<char>, c: char) -> (r: usize)
    ensures
        r == count_char(v@, c),
{
    let mut k: usize = 0;
    let mut i: usize = 0;
    while i < v.len()
        invariant
            i <= v.len(),
            k == count_char(v@.take(i as int), c),
            k <= i,
        decreases v.len() - i,
    {
        assert(v@.take(i + 1).drop_last() =~= v@.take(i as int));
        if v[i] == c {
            k += 1;
        }
        i += 1;
    }
    assert(v@.take(v.len() as int) =~= v@);
    k
}

/// The number of bytes of a character in UTF-8 (`char::len_utf8`).
pub open spec fn char_width(c: char) -> nat {
    let u = c as u32;
    if u <= 0x7F {
        1
    } else if u <= 0x7FF {
        2
    } else if u <= 0xFFFF {
        3
    } else {
        4
    }
}

/// The number of bytes of a text in UTF-8.
pub open spec fn byte_len(s: Seq<char>) -> nat
    decreases s.len(),
{
    if s.len() == 0 {
        0
    } else {
        byte_len(s.drop_last()) + char_width(s.last())
    }
}

/// `x`, or `usize::MAX` where `x` is larger.
pub open spec fn sat(x: int) -> int {
    if x > usize::MAX {
        usize::MAX as int
    } else {
        x
    }
}

/// `x`, or `u64::MAX` where `x` is larger.
pub open spec fn sat_u64(x: int) -> u64 {
    if x > u64::MAX {
        u64::MAX
    } else {
        x as u64
    }
}

/// `sat` of a natural number.
pub open spec fn sat_nat(x: nat) -> int {
    sat(x as int)
}

/// `char::len_utf8`.
pub fn char_width_of(c: char) -> (r: usize)
    ensures
        r == char_width(c),
{
    let u = c as u32;
    if u <= 0x7F {
        1
    } else if u <= 0x7FF {
        2
    } else if u <= 0xFFFF {
        3
    } else {
        4
    }
}

/// The number of UTF-8 bytes of `v`, saturating at `usize::MAX`.
pub fn byte_len_of(v: &Vec<char>) -> (r: usize)
    ensures
        r == sat(byte_len(v@) as int),
{
    let mut k: usize = 0;
    let mut i: usize = 0;
    while i < v.len()
        invariant
            i <= v.len(),
            k == sat(byte_len(v@.take(i as int)) as int),
        decreases v.len() - i,
    {
        assert(v@.take(i + 1).drop_last() =~= v@.take(i as int));
        k = k.saturating_add(char_width_of(v[i]));
        i += 1;
    }
    assert(v@.take(v.len() as int) =~= v@);
    k
}

/// The number of UTF-8 bytes of a string, saturating at `usize::MAX`.
pub fn str_byte_len(s: &str) -> (r: usize)
    ensures
        r == sat(byte_len(s@) as int),
{
    let v = to_chars(s);
    byte_len_of(&v)
}

/// The characters of a string literal or slice, as an owned string.
pub fn string_from_chars(v: &Vec<char>) -> (s: String)
    ensures
        s@ == v@,
{
    string_of_all(v)
}

} // verus!
