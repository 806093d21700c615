//! Which captured texts are logged: each request key once, and what the log names the
//! hook it came from.
use vstd::prelude::*;
use vstd::hash_map::StringHashMap;
use crate::translation::TranslationContext;

verus! {

/// The request keys already logged.
pub struct TextLog {
    pub visited: StringHashMap<()>,
}

impl TextLog {
    /// Nothing logged yet.
    pub fn new() -> (r: Self)
        ensures
            r.visited@.dom() == Set::<Seq<char>>::empty(),
    {
        let r = TextLog { visited: StringHashMap::new() };
        assert(r.visited@.dom() =~= Set::<Seq<char>>::empty());
        r
    }

    /// Records a request key; true the first time it is seen, so that each request is
    /// logged once.
    pub fn first_visit(&mut self, key: &str) -> (r: bool)
        ensures
            r == !old(self).visited@.dom().contains(key@),
            final(self).visited@.dom() == old(self).visited@.dom().insert(key@),
    {
        if self.visited.contains_key(key) {
            assert(self.visited@.dom() =~= old(self).visited@.dom().insert(key@));
            false
        } else {
            self.visited.insert(key.to_owned(), ());
            assert(self.visited@.dom() =~= old(self).visited@.dom().insert(key@));
            true
        }
    }
}

/// A key is logged on its first visit only: once `first_visit` recorded it, a second
/// visit of the same key answers false, whatever the keys seen before.
pub proof fn lemma_second_visit_not_logged(seen: Set<Seq<char>>, key: Seq<char>)
    ensures
        !seen.insert(key).contains(key) == false,
{
}

/// The name of the hook a context came from, as the log writes it.
pub open spec fn hook_name(c: TranslationContext) -> &'static str {
    match c {
        TranslationContext::addst { .. } => "addst",
        TranslationContext::addst_flag { .. } => "addst_flag",
        TranslationContext::addcoloredst { .. } => "addcoloredst",
        TranslationContext::top_addst { .. } => "top_addst",
        TranslationContext::markup_text_box { .. } => "mtb_process_string_to_lines",
        TranslationContext::visual_text_block { .. } => "visual_text_block",
        TranslationContext::dfhack { .. } => "dfhack",
    }
}

/// The name of the hook a context came from.
pub fn context_hook_name(c: &TranslationContext) -> (r: &'static str)
    ensures
        r == hook_name(*c),
{
    match c {
        TranslationContext::addst { .. } => "addst",
        TranslationContext::addst_flag { .. } => "addst_flag",
        TranslationContext::addcoloredst { .. } => "addcoloredst",
        TranslationContext::top_addst { .. } => "top_addst",
        TranslationContext::markup_text_box { .. } => "mtb_process_string_to_lines",
        TranslationContext::visual_text_block { .. } => "visual_text_block",
        TranslationContext::dfhack { .. } => "dfhack",
    }
}

/// The binary digits of `n`, most significant first; `0` for zero.
pub open spec fn binary(n: nat) -> Seq<char>
    decreases n,
{
    if n < 2 {
        seq![if n == 0 { '0' } else { '1' }]
    } else {
        binary(n / 2).push(if n % 2 == 0 { '0' } else { '1' })
    }
}

/// `0b` and the binary digits of `n`, padded with zeros to ten characters in all, as
/// `{:#010b}` writes it.
pub open spec fn flag_text(n: nat) -> Seq<char> {
    let d = binary(n);
    seq!['0', 'b'] + Seq::new(if d.len() < 8 { (8 - d.len()) as nat } else { 0 }, |i: int| '0') + d
}

fn push_binary(out: &mut Vec<char>, n: u32)
    ensures
        final(out)@ == old(out)@ + binary(n as nat),
    decreases n,
{
    if n >= 2 {
        push_binary(out, n / 2);
    }
    out.push(if n % 2 == 0 { '0' } else { '1' });
}

/// Writes a flag for the log in binary, `0b` and at least eight digits.
pub fn flag_binary(flag: u32) -> (r: String)
    ensures
        r@ == flag_text(flag as nat),
{
    let mut digits: Vec<char> = Vec::new();
    push_binary(&mut digits, flag);
    assert(digits@ =~= binary(flag as nat));
    let mut out: Vec<char> = vec!['0', 'b'];
    let pad: usize = if digits.len() < 8 {
        8 - digits.len()
    } else {
        0
    };
    let mut i: usize = 0;
    while i < pad
        invariant
            i <= pad,
            out@ == seq!['0', 'b'] + Seq::new(i as nat, |k: int| '0'),
        decreases pad - i,
    {
        out.push('0');
        i += 1;
        assert(out@ =~= seq!['0', 'b'] + Seq::new(i as nat, |k: int| '0'));
    }
    let mut j: usize = 0;
    while j < digits.len()
        invariant
            j <= digits.len(),
            out@ == seq!['0', 'b'] + Seq::new(pad as nat, |k: int| '0') + digits@.take(j as int),
        decreases digits.len() - j,
    {
        out.push(digits[j]);
        j += 1;
        assert(out@ =~= seq!['0', 'b'] + Seq::new(pad as nat, |k: int| '0') + digits@.take(j as int));
    }
    assert(digits@.take(digits@.len() as int) =~= digits@);
    crate::strs::string_from_chars(&out)
}

} // verus!
