//! Realtime translation of texts that no local data covers: the queue of captured
//! texts, the batches sent to the chat service, what is taken from its answers, and the
//! rows appended to the dictionary file.
use vstd::prelude::*;
use vstd::hash_map::StringHashMap;
use crate::strs::{find_from, rfind_from, slice_chars, str_eq, string_from_chars, to_chars};
use crate::translator::simple::{SimpleDictionaries, dict_of, dicts_view};

verus! {

/// The most texts the queue holds.
pub const QUEUE_LIMIT: usize = 8192;

/// The texts waiting for translation, and those already requested in this session.
pub struct RealtimeQueue {
    pub queue: Vec<String>,
    pub requested: StringHashMap<()>,
}

/// The queued texts.
pub open spec fn queue_view(q: &RealtimeQueue) -> Seq<Seq<char>> {
    q.queue@.map_values(|s: String| s@)
}

/// The texts already requested.
pub open spec fn requested_view(q: &RealtimeQueue) -> Set<Seq<char>> {
    q.requested@.dom()
}

impl RealtimeQueue {
    /// An empty queue.
    pub fn new() -> (r: Self)
        ensures
            queue_view(&r).len() == 0,
            requested_view(&r) == Set::<Seq<char>>::empty(),
    {
        let r = RealtimeQueue { queue: Vec::new(), requested: StringHashMap::new() };
        assert(requested_view(&r) =~= Set::<Seq<char>>::empty());
        r
    }

    /// Queues a captured text, unless it was requested already or the queue is full.
    pub fn push(&mut self, content: String)
        ensures
            requested_view(final(self)) == requested_view(old(self)),
            queue_view(final(self)) == if requested_view(old(self)).contains(content@)
                || queue_view(old(self)).len() >= QUEUE_LIMIT {
                queue_view(old(self))
            } else {
                queue_view(old(self)).push(content@)
            },
    {
        if self.requested.contains_key(content.as_str()) {
            return;
        }
        if self.queue.len() >= QUEUE_LIMIT {
            return;
        }
        let ghost c = content@;
        self.queue.push(content);
        assert(queue_view(self) =~= queue_view(old(self)).push(c));
    }
}

/// The state of a drain: the batch taken, the texts kept, and the requested texts.
pub type DrainState = (Seq<Seq<char>>, Seq<Seq<char>>, Set<Seq<char>>);

/// One queued text drained: dropped where it was requested already or the dictionary
/// holds it; taken into the batch while the batch has room (and marked requested);
/// kept for later otherwise.
pub open spec fn drain_step(st: DrainState, s: Seq<char>, translated: bool, max: nat) -> DrainState {
    if st.2.contains(s) || translated {
        st
    } else if st.0.len() < max {
        (st.0.push(s), st.1, st.2.insert(s))
    } else {
        (st.0, st.1.push(s), st.2)
    }
}

/// The first `n` queued texts drained.
pub open spec fn drain(
    q: Seq<Seq<char>>,
    n: int,
    start: Set<Seq<char>>,
    translated: spec_fn(Seq<char>) -> bool,
    max: nat,
) -> DrainState
    decreases n,
{
    if n <= 0 {
        (seq![], seq![], start)
    } else {
        drain_step(drain(q, n - 1, start, translated, max), q[n - 1], translated(q[n - 1]), max)
    }
}

/// Whether the dictionary of `lang` holds the text.
pub open spec fn in_dictionary(
    ds: Seq<(Seq<char>, Map<Seq<char>, crate::translator::simple::EntryView>)>,
    lang: Seq<char>,
) -> spec_fn(Seq<char>) -> bool {
    |s: Seq<char>|
        match dict_of(ds, lang) {
            Some(d) => d.contains_key(s),
            None => false,
        }
}

impl RealtimeQueue {
    /// Takes up to `batch_max` texts from the queue for one request: texts requested
    /// already or in the dictionary of `lang` are dropped, the ones taken are marked
    /// requested, and the rest stay queued in order.
    pub fn drain_batch(&mut self, dicts: &SimpleDictionaries, lang_tag: &str, batch_max: usize) -> (r:
        Vec<String>)
        ensures
            ({
                let d = drain(
                    queue_view(old(self)),
                    queue_view(old(self)).len() as int,
                    requested_view(old(self)),
                    in_dictionary(dicts_view(dicts), lang_tag@),
                    batch_max as nat,
                );
                &&& r@.map_values(|s: String| s@) == d.0
                &&& queue_view(final(self)) == d.1
                &&& requested_view(final(self)) == d.2
            }),
    {
        let ghost q = queue_view(self);
        let ghost tr = in_dictionary(dicts_view(dicts), lang_tag@);
        let mut pending: Vec<String> = Vec::new();
        std::mem::swap(&mut pending, &mut self.queue);
        let mut batch: Vec<String> = Vec::new();
        let mut keep: Vec<String> = Vec::new();
        let mut i: usize = 0;
        while i < pending.len()
            invariant
                i <= pending.len(),
                q == pending@.map_values(|s: String| s@),
                tr == in_dictionary(dicts_view(dicts), lang_tag@),
                ({
                    let d = drain(q, i as int, requested_view(old(self)), tr, batch_max as nat);
                    &&& batch@.map_values(|s: String| s@) == d.0
                    &&& keep@.map_values(|s: String| s@) == d.1
                    &&& self.requested@.dom() == d.2
                }),
            decreases pending.len() - i,
        {
            let s = &pending[i];
            let ghost sv = s@;
            let ghost bv = batch@.map_values(|x: String| x@);
            let ghost kv = keep@.map_values(|x: String| x@);
            assert(q[i as int] == sv);
            if self.requested.contains_key(s.as_str()) {
            } else if dicts.contains(lang_tag, s.as_str()) {
            } else if batch.len() < batch_max {
                let ghost rd = self.requested@.dom();
                self.requested.insert(s.clone(), ());
                batch.push(s.clone());
                assert(batch@.map_values(|x: String| x@) =~= bv.push(sv));
                assert(self.requested@.dom() =~= rd.insert(sv));
            } else {
                keep.push(s.clone());
                assert(keep@.map_values(|x: String| x@) =~= kv.push(sv));
            }
            i += 1;
        }
        self.queue = keep;
        batch
    }
}

/// What a drain of the first `n` queued texts keeps: the batch is at most `max` long
/// and holds no text twice; each text of the batch was neither requested before nor in
/// the dictionary, and is requested afterwards; what was requested stays requested; and
/// no text is added, so batch and kept texts together are no more than were queued.
pub proof fn lemma_drain_batch(
    q: Seq<Seq<char>>,
    n: int,
    start: Set<Seq<char>>,
    translated: spec_fn(Seq<char>) -> bool,
    max: nat,
)
    requires
        0 <= n <= q.len(),
    ensures
        ({
            let d = drain(q, n, start, translated, max);
            &&& d.0.len() <= max
            &&& d.0.len() + d.1.len() <= n
            &&& start.subset_of(d.2)
            &&& forall|i: int| 0 <= i < d.0.len() ==> {
                &&& !start.contains(#[trigger] d.0[i])
                &&& !translated(d.0[i])
                &&& d.2.contains(d.0[i])
            }
            &&& forall|i: int, j: int| 0 <= i < j < d.0.len() ==> d.0[i] != d.0[j]
        }),
    decreases n,
{
    if n > 0 {
        lemma_drain_batch(q, n - 1, start, translated, max);
        let p = drain(q, n - 1, start, translated, max);
        let s = q[n - 1];
        if !(p.2.contains(s) || translated(s)) && p.0.len() < max {
            let d = drain(q, n, start, translated, max);
            assert(d.0 == p.0.push(s));
            assert forall|i: int| 0 <= i < d.0.len() implies {
                &&& !start.contains(#[trigger] d.0[i])
                &&& !translated(d.0[i])
                &&& d.2.contains(d.0[i])
            } by {
                if i < p.0.len() {
                    assert(d.0[i] == p.0[i]);
                }
            }
            assert forall|i: int, j: int| 0 <= i < j < d.0.len() implies d.0[i] != d.0[j] by {
                if j < p.0.len() {
                    assert(d.0[i] == p.0[i] && d.0[j] == p.0[j]);
                } else {
                    assert(d.0[i] == p.0[i]);
                    assert(p.2.contains(p.0[i]));
                }
            }
        }
    }
}

/// The dictionary after the translations of `entries` up to `n` were added, in order.
pub open spec fn with_translations(
    d: Map<Seq<char>, crate::translator::simple::EntryView>,
    entries: Seq<(Seq<char>, Seq<char>)>,
    n: int,
) -> Map<Seq<char>, crate::translator::simple::EntryView>
    decreases n,
{
    if n <= 0 {
        d
    } else {
        with_translations(d, entries, n - 1).insert(
            entries[n - 1].0,
            crate::translator::simple::EntryView {
                translation: entries[n - 1].1,
                tags: Map::<Seq<char>, Seq<char>>::empty(),
            },
        )
    }
}

/// Adds the translations that came back to the dictionary of `lang_tag`, in order,
/// so that later lookups and drains find them.
pub fn apply_translations(dicts: &mut SimpleDictionaries, lang_tag: &str, entries: &Vec<(String, String)>)
    ensures
        dict_of(dicts_view(final(dicts)), lang_tag@) == if entries@.len() == 0 {
            dict_of(dicts_view(old(dicts)), lang_tag@)
        } else {
            Some(
                with_translations(
                    match dict_of(dicts_view(old(dicts)), lang_tag@) {
                        Some(d) => d,
                        None => Map::<Seq<char>, crate::translator::simple::EntryView>::empty(),
                    },
                    entries@.map_values(|p: (String, String)| (p.0@, p.1@)),
                    entries@.len() as int,
                ),
            )
        },
        forall|l: Seq<char>| l != lang_tag@ ==> dict_of(dicts_view(final(dicts)), l) == dict_of(dicts_view(old(dicts)), l),
{
    let ghost ev = entries@.map_values(|p: (String, String)| (p.0@, p.1@));
    let ghost base = match dict_of(dicts_view(dicts), lang_tag@) {
        Some(d) => d,
        None => Map::<Seq<char>, crate::translator::simple::EntryView>::empty(),
    };
    let mut i: usize = 0;
    while i < entries.len()
        invariant
            i <= entries.len(),
            ev == entries@.map_values(|p: (String, String)| (p.0@, p.1@)),
            base == match dict_of(dicts_view(old(dicts)), lang_tag@) {
                Some(d) => d,
                None => Map::<Seq<char>, crate::translator::simple::EntryView>::empty(),
            },
            dict_of(dicts_view(dicts), lang_tag@) == if i == 0 {
                dict_of(dicts_view(old(dicts)), lang_tag@)
            } else {
                Some(with_translations(base, ev, i as int))
            },
            forall|l: Seq<char>| l != lang_tag@ ==> dict_of(dicts_view(dicts), l) == dict_of(dicts_view(old(dicts)), l),
        decreases entries.len() - i,
    {
        assert(ev[i as int] == (entries@[i as int].0@, entries@[i as int].1@));
        let ghost cur = match dict_of(dicts_view(dicts), lang_tag@) {
            Some(d) => d,
            None => Map::<Seq<char>, crate::translator::simple::EntryView>::empty(),
        };
        assert(cur == with_translations(base, ev, i as int));
        dicts.insert_translation(lang_tag, entries[i].0.as_str(), entries[i].1.as_str());
        i += 1;
        assert(with_translations(base, ev, i as int) == with_translations(base, ev, i - 1).insert(
            ev[i - 1].0,
            crate::translator::simple::EntryView {
                translation: ev[i - 1].1,
                tags: Map::<Seq<char>, Seq<char>>::empty(),
            },
        ));
    }
}

/// After the translations of `entries` are added, the dictionary holds each text of
/// them, with the translation of its last pair.
pub proof fn lemma_translations_held(
    d: Map<Seq<char>, crate::translator::simple::EntryView>,
    entries: Seq<(Seq<char>, Seq<char>)>,
    n: int,
    k: int,
)
    requires
        0 <= k < n <= entries.len(),
        forall|j: int| k < j < n ==> entries[j].0 != entries[k].0,
    ensures
        with_translations(d, entries, n).contains_key(entries[k].0),
        with_translations(d, entries, n)[entries[k].0].translation == entries[k].1,
    decreases n,
{
    if n - 1 > k {
        lemma_translations_held(d, entries, n - 1, k);
    }
}

/// Whether the character makes a CSV field need quotes.
pub open spec fn needs_quotes(v: Seq<char>) -> bool {
    v.contains(',') || v.contains('"') || v.contains('\n')
}

/// The text with each `"` doubled.
pub open spec fn double_quotes(v: Seq<char>) -> Seq<char>
    decreases v.len(),
{
    if v.len() == 0 {
        seq![]
    } else {
        double_quotes(v.drop_last()) + if v.last() == '"' {
            seq!['"', '"']
        } else {
            seq![v.last()]
        }
    }
}

/// A CSV field: quoted, with quotes doubled, where it holds a comma, a quote or a line
/// break; as it is otherwise.
pub open spec fn csv_field(v: Seq<char>) -> Seq<char> {
    if needs_quotes(v) {
        seq!['"'] + double_quotes(v) + seq!['"']
    } else {
        v
    }
}

/// Writes a text as a CSV field.
pub fn escape_csv_field(v: &str) -> (r: String)
    ensures
        r@ == csv_field(v@),
{
    let s = to_chars(v);
    let quoted = crate::strs::contains_char(&s, ',') || crate::strs::contains_char(&s, '"')
        || crate::strs::contains_char(&s, '\n');
    if !quoted {
        return v.to_owned();
    }
    let mut out: Vec<char> = vec!['"'];
    let mut i: usize = 0;
    while i < s.len()
        invariant
            i <= s.len(),
            out@ == seq!['"'] + double_quotes(s@.take(i as int)),
        decreases s.len() - i,
    {
        assert(s@.take(i + 1).drop_last() =~= s@.take(i as int));
        if s[i] == '"' {
            out.push('"');
            out.push('"');
        } else {
            out.push(s[i]);
        }
        i += 1;
        assert(out@ =~= seq!['"'] + double_quotes(s@.take(i as int)));
    }
    assert(s@.take(s.len() as int) =~= s@);
    out.push('"');
    assert(out@ =~= seq!['"'] + double_quotes(s@) + seq!['"']);
    string_from_chars(&out)
}

/// The dictionary row for a translation, `text,translation,` and a line break; none
/// where the translation is empty or the text itself.
pub open spec fn csv_row(s: Seq<char>, t: Seq<char>) -> Option<Seq<char>> {
    if s == t || t.len() == 0 {
        None
    } else {
        Some(csv_field(s) + seq![','] + csv_field(t) + seq![',', '\n'])
    }
}

/// The dictionary row for a translation.
pub fn csv_line(s: &str, t: &str) -> (r: Option<String>)
    ensures
        match csv_row(s@, t@) {
            Some(x) => r matches Some(y) && y@ == x,
            None => r is None,
        },
{
    if str_eq(s, t) || t.is_empty() {
        return None;
    }
    let mut line = escape_csv_field(s);
    line.push(',');
    let f = escape_csv_field(t);
    crate::strs::push_str(&mut line, f.as_str());
    line.push(',');
    line.push('\n');
    Some(line)
}

/// The name of what `serde_json::from_str::<Vec<String>>` reads from a text.
pub uninterp spec fn json_string_list(s: Seq<char>) -> Option<Seq<Seq<char>>>;

/// Calls `serde_json::from_str::<Vec<String>>`; what it accepts and returns is named,
/// the JSON grammar is not restated.
#[verifier::external_body]
fn parse_string_list(s: &str) -> (r: Option<Vec<String>>)
    ensures
        match json_string_list(s@) {
            Some(l) => r matches Some(v) && v@.map_values(|x: String| x@) == l,
            None => r is None,
        },
{
    serde_json::from_str::<Vec<String>>(s).ok()
}

/// The name of what `serde_json::to_string` writes for a list of strings.
pub uninterp spec fn json_of_strings(v: Seq<Seq<char>>) -> Seq<char>;

/// Calls `serde_json::to_string` on a list of strings; the text is named, not
/// restated. It writes an empty text where serialisation fails.
#[verifier::external_body]
fn strings_to_json(v: &Vec<String>) -> (r: String)
    ensures
        r@ == json_of_strings(v@.map_values(|x: String| x@)),
{
    serde_json::to_string(v).unwrap_or_default()
}

/// The decimal digit `d`.
pub open spec fn digit_char(d: int) -> char {
    (('0' as int) + d) as char
}

/// The decimal notation of a number.
pub open spec fn decimal(n: nat) -> Seq<char>
    decreases n,
{
    if n < 10 {
        seq![digit_char(n as int)]
    } else {
        decimal(n / 10).push(digit_char((n % 10) as int))
    }
}

fn digit_of(d: usize) -> (c: char)
    requires
        d < 10,
    ensures
        c == digit_char(d as int),
{
    if d == 0 {
        '0'
    } else if d == 1 {
        '1'
    } else if d == 2 {
        '2'
    } else if d == 3 {
        '3'
    } else if d == 4 {
        '4'
    } else if d == 5 {
        '5'
    } else if d == 6 {
        '6'
    } else if d == 7 {
        '7'
    } else if d == 8 {
        '8'
    } else {
        '9'
    }
}

/// Appends the decimal notation of `n`.
pub fn push_decimal(out: &mut String, n: usize)
    ensures
        final(out)@ == old(out)@ + decimal(n as nat),
    decreases n,
{
    if n >= 10 {
        push_decimal(out, n / 10);
    }
    out.push(digit_of(n % 10));
}

/// The opening of the request to the chat service, up to the count of texts.
pub const PROMPT_HEAD: &'static str = "你是矮人要塞(Dwarf Fortress)简体中文专业译者。把以下英文界面/描述/想法文本逐条翻译成简体中文。\n规则：\n- translations 是 JSON 数组, 数量与输入完全一致, 第 i 个元素是第 i 条翻译(严格按顺序)。\n- 保留占位/标记/数字/标点(如 [R]、-->、*、括号、's、斜杠)。\n- 保留所有 [C:r:g:b] 颜色标记及其顺序。\n- 内部标识/无意义串原样保留不译。\n- 只输出 JSON 对象 {\"translations\": [...]}。\n\n输入(JSON数组, ";

/// What stands between the count of texts and the texts themselves.
pub const PROMPT_COUNT_END: &'static str = "条)：\n";

/// The request for a batch: the instructions, the number of texts, and the texts as
/// a JSON array.
pub fn batch_prompt(batch: &Vec<String>) -> (r: String)
    ensures
        r@ == PROMPT_HEAD@ + decimal(batch@.len()) + PROMPT_COUNT_END@ + json_of_strings(
            batch@.map_values(|x: String| x@),
        ),
{
    let mut out = PROMPT_HEAD.to_owned();
    push_decimal(&mut out, batch.len());
    crate::strs::push_str(&mut out, PROMPT_COUNT_END);
    let src = strings_to_json(batch);
    crate::strs::push_str(&mut out, src.as_str());
    out
}

/// The translations taken from an answer: the JSON array between the first `[` and
/// the last `]` of `content` must hold one string per text of the batch; each pair
/// whose translation is not empty and differs from the text is kept, in order.
pub open spec fn answer_pairs(batch: Seq<Seq<char>>, content: Seq<char>) -> Seq<(Seq<char>, Seq<char>)> {
    match (find_from(content, seq!['['], 0), rfind_from(content, seq![']'], content.len() - 1)) {
        (Some(a), Some(b)) => if b > a {
            match json_string_list(content.subrange(a, b + 1)) {
                Some(list) => if list.len() == batch.len() {
                    kept_pairs(batch, list, batch.len() as int)
                } else {
                    seq![]
                },
                None => seq![],
            }
        } else {
            seq![]
        },
        _ => seq![],
    }
}

/// The first `n` pairs of text and translation whose translation is not empty and
/// differs from the text.
pub open spec fn kept_pairs(batch: Seq<Seq<char>>, list: Seq<Seq<char>>, n: int) -> Seq<(Seq<char>, Seq<char>)>
    decreases n,
{
    if n <= 0 {
        seq![]
    } else {
        let p = kept_pairs(batch, list, n - 1);
        if list[n - 1].len() > 0 && list[n - 1] != batch[n - 1] {
            p.push((batch[n - 1], list[n - 1]))
        } else {
            p
        }
    }
}

/// Takes the translations of a batch out of the service's answer.
pub fn extract_translations(batch: &Vec<String>, content: &str) -> (r: Vec<(String, String)>)
    ensures
        r@.map_values(|p: (String, String)| (p.0@, p.1@)) == answer_pairs(
            batch@.map_values(|x: String| x@),
            content@,
        ),
{
    let ghost bv = batch@.map_values(|x: String| x@);
    let c = to_chars(content);
    let open = vec!['['];
    let close = vec![']'];
    assert(open@ =~= seq!['[']);
    assert(close@ =~= seq![']']);
    if c.len() == 0 {
        return Vec::new();
    }
    let a = match crate::strs::find_at(&c, &open, 0) {
        Some(a) => a,
        None => return Vec::new(),
    };
    let b = match crate::strs::rfind_at(&c, &close, c.len() - 1) {
        Some(b) => b,
        None => return Vec::new(),
    };
    if b <= a {
        return Vec::new();
    }
    proof {
        crate::strs::lemma_rfind_from(c@, close@, c@.len() - 1);
    }
    let inner = string_from_chars(&slice_chars(&c, a, b + 1));
    let list = match parse_string_list(inner.as_str()) {
        Some(l) => l,
        None => return Vec::new(),
    };
    if list.len() != batch.len() {
        return Vec::new();
    }
    let ghost lv = list@.map_values(|x: String| x@);
    let mut out: Vec<(String, String)> = Vec::new();
    let mut i: usize = 0;
    while i < batch.len()
        invariant
            i <= batch.len(),
            list.len() == batch.len(),
            bv == batch@.map_values(|x: String| x@),
            lv == list@.map_values(|x: String| x@),
            out@.map_values(|p: (String, String)| (p.0@, p.1@)) == kept_pairs(bv, lv, i as int),
        decreases batch.len() - i,
    {
        let ghost before = out@.map_values(|p: (String, String)| (p.0@, p.1@));
        assert(bv[i as int] == batch@[i as int]@ && lv[i as int] == list@[i as int]@);
        if !list[i].as_str().is_empty() && !str_eq(list[i].as_str(), batch[i].as_str()) {
            out.push((batch[i].clone(), list[i].clone()));
            assert(out@.map_values(|p: (String, String)| (p.0@, p.1@)) =~= before.push(
                (bv[i as int], lv[i as int]),
            ));
        }
        i += 1;
    }
    out
}

/// A configured API key: the text trimmed, where anything is left.
pub open spec fn key_of(raw: Seq<char>) -> Option<Seq<char>> {
    if crate::strs::trim(raw).len() == 0 {
        None
    } else {
        Some(crate::strs::trim(raw))
    }
}

fn trimmed_key(raw: &str) -> (r: Option<String>)
    ensures
        match key_of(raw@) {
            Some(k) => r matches Some(x) && x@ == k,
            None => r is None,
        },
{
    let v = to_chars(raw);
    let t = crate::strs::trimmed(&v, 0, v.len());
    assert(v@.subrange(0, v@.len() as int) =~= v@);
    if t.as_str().is_empty() {
        None
    } else {
        Some(t)
    }
}

/// Whether realtime translation starts, and with which API key: the key from the
/// environment wins where it is set and not blank, then the one from the key file;
/// without a key the feature stays off.
pub fn setup(env_key: Option<&str>, file_key: Option<&str>) -> (r: Option<String>)
    ensures
        match (
            match env_key {
                Some(e) => key_of(e@),
                None => None,
            },
            match file_key {
                Some(f) => key_of(f@),
                None => None,
            },
        ) {
            (Some(k), _) => r matches Some(x) && x@ == k,
            (None, Some(k)) => r matches Some(x) && x@ == k,
            (None, None) => r is None,
        },
{
    if let Some(e) = env_key {
        if let Some(k) = trimmed_key(e) {
            return Some(k);
        }
    }
    match file_key {
        Some(f) => trimmed_key(f),
        None => None,
    }
}

} // verus!
