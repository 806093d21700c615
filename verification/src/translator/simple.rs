//! Dictionaries that map exact texts to their translations, by language.
use vstd::prelude::*;
use vstd::hash_map::StringHashMap;
use vstd::pervasive::VecAdditionalExecFns;
use crate::strs::{find_from, slice_chars, str_eq, string_from_chars, to_chars};
use crate::translation::{TextAlignment, TranslationContext, TranslationResponse, context_original};

verus! {

/// A dictionary entry: the translation and the entry's tags.
pub struct SimpleEntry {
    pub translation: String,
    pub tags: StringHashMap<String>,
}

/// An entry, as text.
pub struct EntryView {
    pub translation: Seq<char>,
    pub tags: Map<Seq<char>, Seq<char>>,
}

impl View for SimpleEntry {
    type V = EntryView;

    open spec fn view(&self) -> EntryView {
        EntryView {
            translation: self.translation@,
            tags: self.tags@.map_values(|v: String| v@),
        }
    }
}

/// The dictionary of one language.
pub struct SimpleDictionary {
    pub entries: StringHashMap<SimpleEntry>,
}

impl View for SimpleDictionary {
    type V = Map<Seq<char>, EntryView>;

    open spec fn view(&self) -> Map<Seq<char>, EntryView> {
        self.entries@.map_values(|e: SimpleEntry| e@)
    }
}

/// The dictionaries by language tag.
pub struct SimpleDictionaries {
    pub dicts: Vec<(String, SimpleDictionary)>,
}

/// The dictionaries, as text: for each language its entries.
pub open spec fn dicts_view(d: &SimpleDictionaries) -> Seq<(Seq<char>, Map<Seq<char>, EntryView>)> {
    d.dicts@.map_values(|e: (String, SimpleDictionary)| (e.0@, e.1@))
}

/// The dictionary of `lang`: the first one under that tag.
pub open spec fn dict_of(ds: Seq<(Seq<char>, Map<Seq<char>, EntryView>)>, lang: Seq<char>) -> Option<
    Map<Seq<char>, EntryView>,
>
    decreases ds.len(),
{
    if ds.len() == 0 {
        None
    } else {
        match dict_of(ds.drop_last(), lang) {
            Some(d) => Some(d),
            None => if ds.last().0 == lang {
                Some(ds.last().1)
            } else {
                None
            },
        }
    }
}

/// The alignment an entry's `ALIGNMENT` tag asks for; left by default.
pub open spec fn alignment_of(tags: Map<Seq<char>, Seq<char>>) -> TextAlignment {
    if tags.contains_key("ALIGNMENT"@) {
        let v = tags["ALIGNMENT"@];
        if v == "RIGHT"@ {
            TextAlignment::Right
        } else if v == "CENTER"@ {
            TextAlignment::Center
        } else {
            TextAlignment::Left
        }
    } else {
        TextAlignment::Left
    }
}

/// An entry's `ALIGNMENT` tag decides its alignment: `RIGHT` aligns right, `CENTER`
/// centres, and any other value or no tag aligns left; the three are distinct.
pub proof fn lemma_alignment_tag(tags: Map<Seq<char>, Seq<char>>)
    ensures
        tags.contains_key("ALIGNMENT"@) && tags["ALIGNMENT"@] == "RIGHT"@ ==> alignment_of(tags) == TextAlignment::Right,
        tags.contains_key("ALIGNMENT"@) && tags["ALIGNMENT"@] == "CENTER"@ ==> alignment_of(tags) == TextAlignment::Center,
        tags.contains_key("ALIGNMENT"@) && tags["ALIGNMENT"@] != "RIGHT"@ && tags["ALIGNMENT"@] != "CENTER"@ ==> alignment_of(tags) == TextAlignment::Left,
        !tags.contains_key("ALIGNMENT"@) ==> alignment_of(tags) == TextAlignment::Left,
{
    reveal_strlit("RIGHT");
    reveal_strlit("CENTER");
    assert("RIGHT"@ != "CENTER"@) by {
        assert("RIGHT"@[0] != "CENTER"@[0]);
    }
}

/// A dictionary entry found for a text answers with its translation and the alignment
/// its `ALIGNMENT` tag asks for: right for `RIGHT`.
pub proof fn lemma_entry_alignment_answered(
    ds: Seq<(Seq<char>, Map<Seq<char>, EntryView>)>,
    lang: Seq<char>,
    text: Seq<char>,
)
    requires
        dict_of(ds, lang) matches Some(d) && d.contains_key(text) && d[text].tags.contains_key("ALIGNMENT"@)
            && d[text].tags["ALIGNMENT"@] == "RIGHT"@,
    ensures
        simple_answer(ds, lang, text) == Some((dict_of(ds, lang)->Some_0[text].translation, TextAlignment::Right)),
{
    lemma_alignment_tag(dict_of(ds, lang)->Some_0[text].tags);
}

/// The alignment the tags ask for.
pub fn alignment_from_tags(tags: &StringHashMap<String>) -> (r: TextAlignment)
    ensures
        r == alignment_of(tags@.map_values(|v: String| v@)),
{
    let key = "ALIGNMENT";
    assert(tags@.map_values(|v: String| v@).contains_key(key@) == tags@.contains_key(key@));
    match tags.get(key) {
        Some(v) => {
            assert(tags@.map_values(|v: String| v@)[key@] == v@);
            if str_eq(v.as_str(), "RIGHT") {
                TextAlignment::Right
            } else if str_eq(v.as_str(), "CENTER") {
                TextAlignment::Center
            } else {
                TextAlignment::Left
            }
        },
        None => TextAlignment::Left,
    }
}

/// A text with exactly one leading color tag `[C:...]`: the tag and the body after it.
pub open spec fn color_prefix(s: Seq<char>) -> Option<(Seq<char>, Seq<char>)> {
    if !(s.len() >= 3 && s[0] == '[' && s[1] == 'C' && s[2] == ':') {
        None
    } else {
        match find_from(s, seq![']'], 0) {
            None => None,
            Some(k) => {
                let body = s.skip(k + 1);
                if find_from(body, seq!['[', 'C', ':'], 0) is Some {
                    None
                } else {
                    Some((s.take(k + 1), body))
                }
            },
        }
    }
}

/// Splits off a single leading color tag.
pub fn single_color_prefix(text: &str) -> (r: Option<(String, String)>)
    ensures
        match color_prefix(text@) {
            Some((p, b)) => r matches Some(x) && x.0@ == p && x.1@ == b,
            None => r is None,
        },
{
    let v = to_chars(text);
    if !(v.len() >= 3 && v[0] == '[' && v[1] == 'C' && v[2] == ':') {
        return None;
    }
    let close = vec![']'];
    assert(close@ =~= seq![']']);
    proof {
        crate::strs::lemma_find_from(v@, close@, 0);
    }
    let k = match crate::strs::find_at(&v, &close, 0) {
        Some(k) => k,
        None => return None,
    };
    let n = v.len();
    let body = slice_chars(&v, k + 1, n);
    assert(body@ =~= v@.skip(k + 1));
    let tag = vec!['[', 'C', ':'];
    assert(tag@ =~= seq!['[', 'C', ':']);
    match crate::strs::find_at(&body, &tag, 0) {
        Some(_) => None,
        None => {
            let prefix = slice_chars(&v, 0, k + 1);
            assert(prefix@ =~= v@.take(k + 1));
            Some((string_from_chars(&prefix), string_from_chars(&body)))
        },
    }
}

/// What the dictionaries answer for a text: its entry, or the entry of its body
/// behind a single color tag with the tag put back.
pub open spec fn simple_answer(
    ds: Seq<(Seq<char>, Map<Seq<char>, EntryView>)>,
    lang: Seq<char>,
    text: Seq<char>,
) -> Option<(Seq<char>, TextAlignment)> {
    match dict_of(ds, lang) {
        None => None,
        Some(d) => if d.contains_key(text) {
            Some((d[text].translation, alignment_of(d[text].tags)))
        } else {
            match color_prefix(text) {
                Some((p, b)) => if d.contains_key(b) {
                    Some((p + d[b].translation, alignment_of(d[b].tags)))
                } else {
                    None
                },
                None => None,
            }
        },
    }
}

/// A dictionary found in a prefix of the languages is the one found in all of them.
pub proof fn lemma_dict_of_prefix(ds: Seq<(Seq<char>, Map<Seq<char>, EntryView>)>, lang: Seq<char>, n: int)
    requires
        0 <= n <= ds.len(),
        dict_of(ds.take(n), lang) is Some,
    ensures
        dict_of(ds, lang) == dict_of(ds.take(n), lang),
    decreases ds.len() - n,
{
    if n < ds.len() {
        assert(ds.take(n + 1).drop_last() =~= ds.take(n));
        lemma_dict_of_prefix(ds, lang, n + 1);
    } else {
        assert(ds.take(n) =~= ds);
    }
}

impl SimpleDictionaries {
    /// No dictionaries.
    pub fn new() -> (r: Self)
        ensures
            dicts_view(&r).len() == 0,
    {
        SimpleDictionaries { dicts: Vec::new() }
    }

    /// Forgets every dictionary.
    pub fn reset(&mut self)
        ensures
            dicts_view(final(self)).len() == 0,
    {
        self.dicts.clear();
    }

    fn find(&self, lang: &str) -> (r: Option<usize>)
        ensures
            r matches Some(i) ==> i < self.dicts@.len() && dict_of(dicts_view(self), lang@) == Some(
                dicts_view(self)[i as int].1,
            ) && dicts_view(self)[i as int].0 == lang@ && forall|j: int|
                0 <= j < i ==> dicts_view(self)[j].0 != lang@,
            r is None ==> dict_of(dicts_view(self), lang@) is None && forall|j: int|
                0 <= j < dicts_view(self).len() ==> dicts_view(self)[j].0 != lang@,
    {
        let ghost ds = dicts_view(self);
        let mut i: usize = 0;
        while i < self.dicts.len()
            invariant
                i <= self.dicts.len(),
                ds == dicts_view(self),
                forall|j: int| 0 <= j < i ==> ds[j].0 != lang@,
            decreases self.dicts.len() - i,
        {
            if str_eq(self.dicts[i].0.as_str(), lang) {
                proof {
                    lemma_first_dict(ds, i as int, lang@);
                }
                return Some(i);
            }
            i += 1;
        }
        proof {
            lemma_no_dict(ds, lang@);
        }
        None
    }

    /// Looks a text up in the dictionary of `lang`: the exact text first, then the body
    /// behind a single leading color tag, with the tag put back in front.
    pub fn translate(&self, lang_tag: &str, context: &TranslationContext) -> (r: Option<
        TranslationResponse,
    >)
        ensures
            match simple_answer(dicts_view(self), lang_tag@, context_original(context)) {
                Some((t, a)) => r matches Some(x) && x.translated@ == t && x.alignment == a,
                None => r is None,
            },
    {
        let text = context.original();
        let i = match self.find(lang_tag) {
            Some(i) => i,
            None => return None,
        };
        let dict = &self.dicts[i].1;
        match dict.entries.get(text) {
            Some(entry) => {
                return Some(
                    TranslationResponse {
                        translated: entry.translation.clone(),
                        alignment: alignment_from_tags(&entry.tags),
                    },
                );
            },
            None => {},
        }
        match single_color_prefix(text) {
            Some((prefix, body)) => match dict.entries.get(body.as_str()) {
                Some(entry) => {
                    let mut restored = prefix;
                    crate::strs::push_str(&mut restored, entry.translation.as_str());
                    Some(
                        TranslationResponse {
                            translated: restored,
                            alignment: alignment_from_tags(&entry.tags),
                        },
                    )
                },
                None => None,
            },
            None => None,
        }
    }

    /// Whether the dictionary of `lang` holds the text.
    pub fn contains(&self, lang_tag: &str, text: &str) -> (r: bool)
        ensures
            r == match dict_of(dicts_view(self), lang_tag@) {
                Some(d) => d.contains_key(text@),
                None => false,
            },
    {
        match self.find(lang_tag) {
            Some(i) => self.dicts[i].1.entries.contains_key(text),
            None => false,
        }
    }

    /// Adds an entry to the dictionary of `lang`, created where missing, in place of an
    /// entry for the same text.
    pub fn insert_entry(&mut self, lang_tag: &str, text: &str, entry: SimpleEntry)
        ensures
            dict_of(dicts_view(final(self)), lang_tag@) == Some(
                match dict_of(dicts_view(old(self)), lang_tag@) {
                    Some(d) => d,
                    None => Map::<Seq<char>, EntryView>::empty(),
                }.insert(text@, entry@),
            ),
            forall|l: Seq<char>| l != lang_tag@ ==> dict_of(dicts_view(final(self)), l) == dict_of(dicts_view(old(self)), l),
    {
        let ghost ds = dicts_view(self);
        let ghost ev = entry@;
        match self.find(lang_tag) {
            Some(i) => {
                let mut slot = (String::new(), SimpleDictionary { entries: StringHashMap::new() });
                self.dicts.set_and_swap(i, &mut slot);
                slot.1.entries.insert(text.to_owned(), entry);
                let ghost nd = slot.1@;
                self.dicts.set(i, slot);
                proof {
                    assert(nd =~= ds[i as int].1.insert(text@, ev));
                    lemma_dict_update(ds, i as int, lang_tag@, nd);
                    assert(dicts_view(self) =~= ds.update(i as int, (ds[i as int].0, nd)));
                }
            },
            None => {
                let mut d = SimpleDictionary { entries: StringHashMap::new() };
                d.entries.insert(text.to_owned(), entry);
                let ghost nd = d@;
                self.dicts.push((lang_tag.to_owned(), d));
                proof {
                    assert(nd =~= Map::<Seq<char>, EntryView>::empty().insert(text@, ev));
                    assert(dicts_view(self) =~= ds.push((lang_tag@, nd)));
                    assert(dicts_view(self).drop_last() =~= ds);
                    assert forall|l: Seq<char>| l != lang_tag@ implies dict_of(dicts_view(self), l) == dict_of(ds, l) by {}
                }
            },
        }
    }

    /// Adds a translation without tags to the dictionary of `lang`.
    pub fn insert_translation(&mut self, lang_tag: &str, text: &str, translation: &str)
        ensures
            dict_of(dicts_view(final(self)), lang_tag@) == Some(
                match dict_of(dicts_view(old(self)), lang_tag@) {
                    Some(d) => d,
                    None => Map::<Seq<char>, EntryView>::empty(),
                }.insert(
                    text@,
                    EntryView { translation: translation@, tags: Map::<Seq<char>, Seq<char>>::empty() },
                ),
            ),
            forall|l: Seq<char>| l != lang_tag@ ==> dict_of(dicts_view(final(self)), l) == dict_of(dicts_view(old(self)), l),
    {
        let entry = SimpleEntry { translation: translation.to_owned(), tags: StringHashMap::new() };
        assert(entry@.tags =~= Map::<Seq<char>, Seq<char>>::empty());
        self.insert_entry(lang_tag, text, entry);
    }
}

/// The first position at or after `j` holding one of the two stop characters, or the end.
pub open spec fn run_end(s: Seq<char>, j: int, a: char, b: char) -> int
    decreases s.len() - j,
{
    if 0 <= j < s.len() && s[j] != a && s[j] != b {
        run_end(s, j + 1, a, b)
    } else {
        j
    }
}

/// The run of characters other than `a` and `b` from `j` ends within `s`.
pub proof fn lemma_run_end(s: Seq<char>, j: int, a: char, b: char)
    requires
        0 <= j <= s.len(),
    ensures
        j <= run_end(s, j, a, b) <= s.len(),
    decreases s.len() - j,
{
    if j < s.len() && s[j] != a && s[j] != b {
        lemma_run_end(s, j + 1, a, b);
    }
}

/// The tag `[KEY:VALUE]` that starts at `i`, if one does: the end of its key and of its
/// value. The key holds no `[` or `:`, the value no `:` or `]`, and neither is empty.
pub open spec fn tag_at(s: Seq<char>, i: int) -> Option<(int, int)> {
    if 0 <= i < s.len() && s[i] == '[' {
        let k = run_end(s, i + 1, '[', ':');
        if k > i + 1 && k < s.len() && s[k] == ':' {
            let v = run_end(s, k + 1, ':', ']');
            if v > k + 1 && v < s.len() && s[v] == ']' {
                Some((k, v))
            } else {
                None
            }
        } else {
            None
        }
    } else {
        None
    }
}

/// The tags of `s[i..]` added to `m`, a later tag replacing an earlier one of the same key.
pub open spec fn tags_from(s: Seq<char>, i: int, m: Map<Seq<char>, Seq<char>>) -> Map<Seq<char>, Seq<char>>
    decreases s.len() - i,
{
    if i < 0 || i >= s.len() {
        m
    } else {
        match tag_at(s, i) {
            Some((k, v)) => {
                proof {
                    lemma_run_end(s, i + 1, '[', ':');
                    lemma_run_end(s, k + 1, ':', ']');
                }
                tags_from(s, v + 1, m.insert(s.subrange(i + 1, k), s.subrange(k + 1, v)))
            },
            None => tags_from(s, i + 1, m),
        }
    }
}

/// Reads the tags of an entry, written `[KEY:VALUE]` one after another.
pub fn parse_tags(tags: &str) -> (r: StringHashMap<String>)
    ensures
        r@.map_values(|v: String| v@) == tags_from(tags@, 0, Map::empty()),
{
    let s = to_chars(tags);
    let n = s.len();
    let mut out: StringHashMap<String> = StringHashMap::new();
    let mut i: usize = 0;
    assert(out@.map_values(|v: String| v@) =~= Map::<Seq<char>, Seq<char>>::empty());
    while i < n
        invariant
            n == s.len(),
            i <= n,
            tags_from(s@, i as int, out@.map_values(|v: String| v@)) == tags_from(s@, 0, Map::empty()),
        decreases n - i,
    {
        let mut matched = false;
        if s[i] == '[' {
            let mut k = i + 1;
            while k < n && s[k] != '[' && s[k] != ':'
                invariant
                    n == s.len(),
                    i < k <= n,
                    run_end(s@, k as int, '[', ':') == run_end(s@, i + 1, '[', ':'),
                decreases n - k,
            {
                k += 1;
            }
            assert(run_end(s@, k as int, '[', ':') == k);
            if k > i + 1 && k < n && s[k] == ':' {
                let mut v = k + 1;
                while v < n && s[v] != ':' && s[v] != ']'
                    invariant
                        n == s.len(),
                        k < v <= n,
                        run_end(s@, v as int, ':', ']') == run_end(s@, k + 1, ':', ']'),
                    decreases n - v,
                {
                    v += 1;
                }
                assert(run_end(s@, v as int, ':', ']') == v);
                if v > k + 1 && v < n && s[v] == ']' {
                    let key = string_from_chars(&slice_chars(&s, i + 1, k));
                    let value = string_from_chars(&slice_chars(&s, k + 1, v));
                    let ghost before = out@.map_values(|x: String| x@);
                    let ghost kv = key@;
                    let ghost vv = value@;
                    assert(tag_at(s@, i as int) == Some((k as int, v as int)));
                    out.insert(key, value);
                    assert(out@.map_values(|x: String| x@) =~= before.insert(kv, vv));
                    i = v + 1;
                    matched = true;
                }
            }
        }
        if !matched {
            assert(tag_at(s@, i as int) is None);
            i += 1;
        }
    }
    out
}

impl SimpleDictionaries {
    /// Adds a dictionary row: a text, its translation and its tags as written.
    pub fn load_entry(&mut self, lang_tag: &str, text: &str, translation: &str, tags: &str)
        ensures
            dict_of(dicts_view(final(self)), lang_tag@) == Some(
                match dict_of(dicts_view(old(self)), lang_tag@) {
                    Some(d) => d,
                    None => Map::<Seq<char>, EntryView>::empty(),
                }.insert(
                    text@,
                    EntryView { translation: translation@, tags: tags_from(tags@, 0, Map::empty()) },
                ),
            ),
            forall|l: Seq<char>| l != lang_tag@ ==> dict_of(dicts_view(final(self)), l) == dict_of(dicts_view(old(self)), l),
    {
        let entry = SimpleEntry { translation: translation.to_owned(), tags: parse_tags(tags) };
        self.insert_entry(lang_tag, text, entry);
    }
}

/// Replacing the dictionary found for `lang` replaces what `dict_of` finds for it and
/// nothing else.
pub proof fn lemma_dict_update(
    ds: Seq<(Seq<char>, Map<Seq<char>, EntryView>)>,
    i: int,
    lang: Seq<char>,
    nd: Map<Seq<char>, EntryView>,
)
    requires
        0 <= i < ds.len(),
        ds[i].0 == lang,
        dict_of(ds, lang) == Some(ds[i].1),
        forall|j: int| 0 <= j < i ==> ds[j].0 != lang,
    ensures
        dict_of(ds.update(i, (lang, nd)), lang) == Some(nd),
        forall|l: Seq<char>| l != lang ==> dict_of(ds.update(i, (lang, nd)), l) == dict_of(ds, l),
    decreases ds.len(),
{
    let u = ds.update(i, (lang, nd));
    if i < ds.len() - 1 {
        assert(u.drop_last() =~= ds.drop_last().update(i, (lang, nd)));
        lemma_first_dict(ds.drop_last(), i, lang);
        lemma_dict_update(ds.drop_last(), i, lang, nd);
        assert(u.last() == ds.last());
        assert forall|l: Seq<char>| l != lang implies dict_of(u, l) == dict_of(ds, l) by {
            assert(dict_of(u.drop_last(), l) == dict_of(ds.drop_last(), l));
        }
    } else {
        assert(u.drop_last() =~= ds.drop_last());
        lemma_no_dict(ds.drop_last(), lang);
        assert forall|l: Seq<char>| l != lang implies dict_of(u, l) == dict_of(ds, l) by {
            assert(u.last().0 == lang);
            assert(ds.last().0 == lang);
        }
    }
}

/// No dictionary is found for a language that none of the entries has.
pub proof fn lemma_no_dict(ds: Seq<(Seq<char>, Map<Seq<char>, EntryView>)>, lang: Seq<char>)
    requires
        forall|j: int| 0 <= j < ds.len() ==> ds[j].0 != lang,
    ensures
        dict_of(ds, lang) is None,
    decreases ds.len(),
{
    if ds.len() > 0 {
        lemma_no_dict(ds.drop_last(), lang);
    }
}

/// The dictionary found for a language is that of its first entry.
pub proof fn lemma_first_dict(ds: Seq<(Seq<char>, Map<Seq<char>, EntryView>)>, i: int, lang: Seq<char>)
    requires
        0 <= i < ds.len(),
        ds[i].0 == lang,
        forall|j: int| 0 <= j < i ==> ds[j].0 != lang,
    ensures
        dict_of(ds, lang) == Some(ds[i].1),
    decreases ds.len(),
{
    if i < ds.len() - 1 {
        lemma_first_dict(ds.drop_last(), i, lang);
    } else {
        lemma_no_dict(ds.drop_last(), lang);
    }
}

} // verus!
