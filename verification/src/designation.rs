//! Item designations: the marks that wrap an item's name to show its quality, wear,
//! ownership and so on, from the outermost layer to the innermost.
use vstd::prelude::*;
use crate::strs::{chars_eq, slice_chars, string_from_chars, to_chars};

verus! {

/// A designation layer: the prefix and suffix that wrap a name.
pub type PairView = (Seq<char>, Seq<char>);

/// The quality marks.
pub open spec fn quality_pairs() -> Seq<PairView> {
    seq![
        (seq!['-'], seq!['-']),
        (seq!['+'], seq!['+']),
        (seq!['*'], seq!['*']),
        (seq!['\u{2261}'], seq!['\u{2261}']),
        (seq!['\u{263c}'], seq!['\u{263c}']),
    ]
}

/// The designation layers from the outermost to the innermost: not owned, on fire,
/// wear, off site, unclaimed, quality, decoration, magic, and quality again.
pub open spec fn designation_patterns() -> Seq<Seq<PairView>> {
    seq![
        seq![(seq!['$'], seq!['$'])],
        seq![(seq!['\u{203c}'], seq!['\u{203c}'])],
        seq![(seq!['X', 'X'], seq!['X', 'X']), (seq!['X'], seq!['X']), (seq!['x'], seq!['x'])],
        seq![(seq!['('], seq![')'])],
        seq![(seq!['{'], seq!['}'])],
        quality_pairs(),
        seq![(seq!['\u{ab}'], seq!['\u{bb}'])],
        seq![(seq!['\u{25c4}'], seq!['\u{25ba}'])],
        quality_pairs(),
    ]
}

/// The number of designation layers.
pub open spec fn layer_count() -> int {
    9
}

/// Each pair's prefix and suffix are non-empty and equally long.
pub proof fn lemma_patterns_shape()
    ensures
        designation_patterns().len() == layer_count(),
        forall|g: int, j: int|
            0 <= g < layer_count() && 0 <= j < designation_patterns()[g].len() ==> {
                let p = #[trigger] designation_patterns()[g][j];
                p.0.len() == p.1.len() && p.0.len() >= 1
            },
{
    let ps = designation_patterns();
    assert forall|g: int, j: int|
        0 <= g < layer_count() && 0 <= j < designation_patterns()[g].len() implies {
            let p = #[trigger] designation_patterns()[g][j];
            p.0.len() == p.1.len() && p.0.len() >= 1
        } by {
        let q = quality_pairs();
        assert(q[0].0.len() == 1 && q[1].0.len() == 1 && q[2].0.len() == 1 && q[3].0.len() == 1
            && q[4].0.len() == 1);
    }
}

/// The first pair of a layer whose prefix begins with `c`.
pub open spec fn first_pair_with_head(group: Seq<PairView>, c: char, j: int) -> Option<int>
    decreases group.len() - j,
{
    if j < 0 || j >= group.len() {
        None
    } else if group[j].0.len() > 0 && group[j].0[0] == c {
        Some(j)
    } else {
        first_pair_with_head(group, c, j + 1)
    }
}

/// `s[..=i]` may be a designated name: it starts with the prefix mark of some layer and
/// `s[i]` is the last character of that layer's suffix.
pub open spec fn is_candidate_end(s: Seq<char>, i: int) -> bool {
    2 <= i < s.len() && exists|g: int|
        0 <= g < layer_count() && #[trigger] end_of_layer(s, g, i)
}

/// `s[i]` ends the suffix of the first pair of layer `g` that `s` starts like.
pub open spec fn end_of_layer(s: Seq<char>, g: int, i: int) -> bool {
    match first_pair_with_head(designation_patterns()[g], s[0], 0) {
        Some(j) => s[i] == designation_patterns()[g][j].1.last(),
        None => false,
    }
}

/// The layer pair wraps the whole of `rem`.
pub open spec fn pair_fits(rem: Seq<char>, p: PairView) -> bool {
    p.0.len() + p.1.len() <= rem.len() && rem.take(p.0.len() as int) == p.0 && rem.skip(
        rem.len() - p.1.len(),
    ) == p.1
}

/// The first pair of a layer from `j` on that wraps `rem`.
pub open spec fn first_fitting(group: Seq<PairView>, rem: Seq<char>, j: int) -> Option<int>
    decreases group.len() - j,
{
    if j < 0 || j >= group.len() {
        None
    } else if pair_fits(rem, group[j]) {
        Some(j)
    } else {
        first_fitting(group, rem, j + 1)
    }
}

/// The first fitting pair, when there is one, is at or after `j` and fits.
pub proof fn lemma_first_fitting(group: Seq<PairView>, rem: Seq<char>, j: int)
    ensures
        first_fitting(group, rem, j) matches Some(k) ==> 0 <= j <= k < group.len() && pair_fits(
            rem,
            group[k],
        ),
    decreases group.len() - j,
{
    if j >= 0 && j < group.len() && !pair_fits(rem, group[j]) {
        lemma_first_fitting(group, rem, j + 1);
    }
}

/// The length of the prefix marks peeled from `rem`, layer by layer from `g` on.
pub open spec fn wrapper_len(rem: Seq<char>, g: int) -> int
    decreases layer_count() - g,
{
    if g < 0 || g >= layer_count() {
        0
    } else {
        match first_fitting(designation_patterns()[g], rem, 0) {
            Some(j) => {
                let p = designation_patterns()[g][j];
                p.0.len() + wrapper_len(rem.subrange(p.0.len() as int, rem.len() - p.1.len()), g + 1)
            },
            None => wrapper_len(rem, g + 1),
        }
    }
}

/// The wrappers found around `rem` take at most all of it.
pub proof fn lemma_wrapper_len(rem: Seq<char>, g: int)
    ensures
        0 <= 2 * wrapper_len(rem, g) <= rem.len(),
    decreases layer_count() - g,
{
    if 0 <= g < layer_count() {
        lemma_patterns_shape();
        lemma_first_fitting(designation_patterns()[g], rem, 0);
        match first_fitting(designation_patterns()[g], rem, 0) {
            Some(j) => {
                let p = designation_patterns()[g][j];
                lemma_wrapper_len(rem.subrange(p.0.len() as int, rem.len() - p.1.len()), g + 1);
            },
            None => {
                lemma_wrapper_len(rem, g + 1);
            },
        }
    }
}

/// The designation of a candidate: its outer marks as prefix and suffix.
pub open spec fn designation_of(c: Seq<char>) -> PairView {
    let w = wrapper_len(c, 0);
    (c.take(w), c.skip(c.len() - w))
}

/// Every designation a text may carry: none, and that of each candidate.
pub open spec fn designation_pairs(s: Seq<char>) -> Set<PairView> {
    Set::new(
        |p: PairView|
            p == (Seq::<char>::empty(), Seq::<char>::empty()) || (s.len() > 2 && exists|i: int|
                is_candidate_end(s, i) && p == #[trigger] designation_of(s.take(i + 1))),
    )
}

/// The pairs of strings, as text.
pub open spec fn pairs_view(v: Seq<(String, String)>) -> Seq<PairView> {
    v.map_values(|p: (String, String)| (p.0@, p.1@))
}

/// The designation layers, as characters.
fn patterns() -> (r: Vec<Vec<(Vec<char>, Vec<char>)>>)
    ensures
        r@.len() == layer_count(),
        forall|g: int|
            0 <= g < layer_count() ==> #[trigger] r@[g]@.len() == designation_patterns()[g].len(),
        forall|g: int, j: int|
            0 <= g < layer_count() && 0 <= j < designation_patterns()[g].len() ==> (#[trigger] r@[g]@[j]).0@
                == designation_patterns()[g][j].0 && r@[g]@[j].1@ == designation_patterns()[g][j].1,
{
    let quality = || -> (q: Vec<(Vec<char>, Vec<char>)>)
        ensures
            q@.len() == 5,
            forall|j: int| 0 <= j < 5 ==> (#[trigger] q@[j]).0@ == quality_pairs()[j].0 && q@[j].1@
                == quality_pairs()[j].1,
        {
            let q = vec![
                (vec!['-'], vec!['-']),
                (vec!['+'], vec!['+']),
                (vec!['*'], vec!['*']),
                (vec!['\u{2261}'], vec!['\u{2261}']),
                (vec!['\u{263c}'], vec!['\u{263c}']),
            ];
            assert forall|j: int| 0 <= j < 5 implies (#[trigger] q@[j]).0@ == quality_pairs()[j].0
                && q@[j].1@ == quality_pairs()[j].1 by {
                assert(q@[0].0@ =~= quality_pairs()[0].0);
                assert(q@[0].1@ =~= quality_pairs()[0].1);
                assert(q@[1].0@ =~= quality_pairs()[1].0);
                assert(q@[1].1@ =~= quality_pairs()[1].1);
                assert(q@[2].0@ =~= quality_pairs()[2].0);
                assert(q@[2].1@ =~= quality_pairs()[2].1);
                assert(q@[3].0@ =~= quality_pairs()[3].0);
                assert(q@[3].1@ =~= quality_pairs()[3].1);
                assert(q@[4].0@ =~= quality_pairs()[4].0);
                assert(q@[4].1@ =~= quality_pairs()[4].1);
            }
            q
        };
    let r = vec![
        vec![(vec!['$'], vec!['$'])],
        vec![(vec!['\u{203c}'], vec!['\u{203c}'])],
        vec![(vec!['X', 'X'], vec!['X', 'X']), (vec!['X'], vec!['X']), (vec!['x'], vec!['x'])],
        vec![(vec!['('], vec![')'])],
        vec![(vec!['{'], vec!['}'])],
        quality(),
        vec![(vec!['\u{ab}'], vec!['\u{bb}'])],
        vec![(vec!['\u{25c4}'], vec!['\u{25ba}'])],
        quality(),
    ];
    let ghost ps = designation_patterns();
    assert(r@[0]@[0].0@ =~= ps[0][0].0 && r@[0]@[0].1@ =~= ps[0][0].1);
    assert(r@[1]@[0].0@ =~= ps[1][0].0 && r@[1]@[0].1@ =~= ps[1][0].1);
    assert(r@[2]@[0].0@ =~= ps[2][0].0 && r@[2]@[0].1@ =~= ps[2][0].1);
    assert(r@[2]@[1].0@ =~= ps[2][1].0 && r@[2]@[1].1@ =~= ps[2][1].1);
    assert(r@[2]@[2].0@ =~= ps[2][2].0 && r@[2]@[2].1@ =~= ps[2][2].1);
    assert(r@[3]@[0].0@ =~= ps[3][0].0 && r@[3]@[0].1@ =~= ps[3][0].1);
    assert(r@[4]@[0].0@ =~= ps[4][0].0 && r@[4]@[0].1@ =~= ps[4][0].1);
    assert(r@[6]@[0].0@ =~= ps[6][0].0 && r@[6]@[0].1@ =~= ps[6][0].1);
    assert(r@[7]@[0].0@ =~= ps[7][0].0 && r@[7]@[0].1@ =~= ps[7][0].1);
    r
}

/// The first pair of a layer whose prefix begins with `c`.
fn first_head(group: &Vec<(Vec<char>, Vec<char>)>, c: char, g: Ghost<int>) -> (r: Option<usize>)
    requires
        0 <= g@ < layer_count(),
        group@.len() == designation_patterns()[g@].len(),
        forall|j: int|
            0 <= j < group@.len() ==> (#[trigger] group@[j]).0@ == designation_patterns()[g@][j].0
                && group@[j].1@ == designation_patterns()[g@][j].1,
    ensures
        r matches Some(j) ==> j < group@.len() && first_pair_with_head(designation_patterns()[g@], c, 0)
            == Some(j as int),
        r is None ==> first_pair_with_head(designation_patterns()[g@], c, 0) is None,
{
    let ghost ps = designation_patterns()[g@];
    let mut j: usize = 0;
    while j < group.len()
        invariant
            j <= group.len(),
            ps == designation_patterns()[g@],
            group@.len() == ps.len(),
            forall|k: int|
                0 <= k < group@.len() ==> (#[trigger] group@[k]).0@ == ps[k].0 && group@[k].1@ == ps[k].1,
            first_pair_with_head(ps, c, j as int) == first_pair_with_head(ps, c, 0),
        decreases group.len() - j,
    {
        assert(group@[j as int].0@ == ps[j as int].0);
        if group[j].0.len() > 0 && group[j].0[0] == c {
            return Some(j);
        }
        j += 1;
    }
    None
}

/// The first pair of a layer that wraps the whole of `rem`.
fn fitting_pair(group: &Vec<(Vec<char>, Vec<char>)>, rem: &Vec<char>, g: Ghost<int>) -> (r: Option<usize>)
    requires
        0 <= g@ < layer_count(),
        group@.len() == designation_patterns()[g@].len(),
        forall|j: int|
            0 <= j < group@.len() ==> (#[trigger] group@[j]).0@ == designation_patterns()[g@][j].0
                && group@[j].1@ == designation_patterns()[g@][j].1,
    ensures
        r matches Some(j) ==> j < group@.len() && first_fitting(designation_patterns()[g@], rem@, 0)
            == Some(j as int),
        r is None ==> first_fitting(designation_patterns()[g@], rem@, 0) is None,
{
    let ghost ps = designation_patterns()[g@];
    let mut j: usize = 0;
    while j < group.len()
        invariant
            j <= group.len(),
            ps == designation_patterns()[g@],
            group@.len() == ps.len(),
            forall|k: int|
                0 <= k < group@.len() ==> (#[trigger] group@[k]).0@ == ps[k].0 && group@[k].1@ == ps[k].1,
            first_fitting(ps, rem@, j as int) == first_fitting(ps, rem@, 0),
        decreases group.len() - j,
    {
        let pl = &group[j].0;
        let pr = &group[j].1;
        assert(pl@ == ps[j as int].0 && pr@ == ps[j as int].1);
        let n = rem.len();
        if pl.len() <= n && pr.len() <= n - pl.len() {
            let fits_left = crate::strs::starts_with_at(rem, 0, pl);
            let fits_right = crate::strs::starts_with_at(rem, n - pr.len(), pr);
            assert(rem@.subrange(0, pl@.len() as int) =~= rem@.take(pl@.len() as int));
            assert(rem@.subrange(n - pr@.len(), n as int) =~= rem@.skip(n - pr@.len()));
            if fits_left && fits_right {
                return Some(j);
            }
        }
        j += 1;
    }
    None
}

/// The length of the marks peeled from `c` layer by layer.
fn wrapper_length(c: &Vec<char>, ps: &Vec<Vec<(Vec<char>, Vec<char>)>>) -> (r: usize)
    requires
        ps@.len() == layer_count(),
        forall|g: int|
            0 <= g < layer_count() ==> #[trigger] ps@[g]@.len() == designation_patterns()[g].len(),
        forall|g: int, j: int|
            0 <= g < layer_count() && 0 <= j < designation_patterns()[g].len() ==> (#[trigger] ps@[g]@[j]).0@
                == designation_patterns()[g][j].0 && ps@[g]@[j].1@ == designation_patterns()[g][j].1,
    ensures
        r == wrapper_len(c@, 0),
{
    let total = c.len();
    let mut cur = slice_chars(c, 0, c.len());
    assert(cur@ =~= c@);
    let mut acc: usize = 0;
    let mut g: usize = 0;
    while g < 9
        invariant
            g <= 9,
            ps@.len() == layer_count(),
            forall|g: int|
                0 <= g < layer_count() ==> #[trigger] ps@[g]@.len() == designation_patterns()[g].len(),
            forall|g: int, j: int|
                0 <= g < layer_count() && 0 <= j < designation_patterns()[g].len() ==> (
                #[trigger] ps@[g]@[j]).0@ == designation_patterns()[g][j].0 && ps@[g]@[j].1@
                    == designation_patterns()[g][j].1,
            wrapper_len(c@, 0) == acc + wrapper_len(cur@, g as int),
            total == c@.len(),
            acc + cur@.len() <= c@.len(),
        decreases 9 - g,
    {
        let group = &ps[g];
        proof {
            lemma_first_fitting(designation_patterns()[g as int], cur@, 0);
            lemma_patterns_shape();
        }
        match fitting_pair(group, &cur, Ghost(g as int)) {
            Some(j) => {
                let pl = group[j].0.len();
                let pr = group[j].1.len();
                let n = cur.len();
                assert(group@[j as int].0@ == designation_patterns()[g as int][j as int].0);
                assert(group@[j as int].1@ == designation_patterns()[g as int][j as int].1);
                cur = slice_chars(&cur, pl, n - pr);
                acc = acc + pl;
            },
            None => {},
        }
        g += 1;
    }
    acc
}

/// Whether `a` comes before `b` in code point order, looking from position `i` on.
pub open spec fn chars_lt_from(a: Seq<char>, b: Seq<char>, i: int) -> bool
    decreases a.len() - i,
{
    if 0 <= i < a.len() && i < b.len() {
        if a[i] != b[i] {
            (a[i] as int) < (b[i] as int)
        } else {
            chars_lt_from(a, b, i + 1)
        }
    } else {
        a.len() < b.len()
    }
}

/// The order of pairs: by prefix, then by suffix, each in code point order (the order
/// of their UTF-8 bytes).
pub open spec fn pair_lt(p: PairView, q: PairView) -> bool {
    if p.0 == q.0 {
        chars_lt_from(p.1, q.1, 0)
    } else {
        chars_lt_from(p.0, q.0, 0)
    }
}

/// Each pair comes before the ones after it.
pub open spec fn pairs_sorted(v: Seq<PairView>) -> bool {
    forall|i: int, j: int| 0 <= i < j < v.len() ==> pair_lt(#[trigger] v[i], #[trigger] v[j])
}

proof fn lemma_chars_lt_irreflexive(a: Seq<char>, i: int)
    requires
        0 <= i,
    ensures
        !chars_lt_from(a, a, i),
    decreases a.len() - i,
{
    if i < a.len() {
        lemma_chars_lt_irreflexive(a, i + 1);
    }
}

proof fn lemma_chars_lt_transitive(a: Seq<char>, b: Seq<char>, c: Seq<char>, i: int)
    requires
        0 <= i,
        chars_lt_from(a, b, i),
        chars_lt_from(b, c, i),
    ensures
        chars_lt_from(a, c, i),
    decreases a.len() - i,
{
    if i < a.len() && i < b.len() && i < c.len() && a[i] == b[i] && b[i] == c[i] {
        lemma_chars_lt_transitive(a, b, c, i + 1);
    }
}

proof fn lemma_chars_lt_total(a: Seq<char>, b: Seq<char>, i: int)
    requires
        0 <= i <= a.len(),
        i <= b.len(),
        a.take(i) == b.take(i),
        a != b,
    ensures
        chars_lt_from(a, b, i) || chars_lt_from(b, a, i),
    decreases a.len() - i,
{
    if i < a.len() && i < b.len() {
        if a[i] == b[i] {
            assert(a.take(i + 1) =~= a.take(i).push(a[i]));
            assert(b.take(i + 1) =~= b.take(i).push(b[i]));
            lemma_chars_lt_total(a, b, i + 1);
        } else {
            assert((a[i] as int) != (b[i] as int));
        }
    } else if a.len() == b.len() {
        assert(a =~= a.take(i));
        assert(b =~= b.take(i));
    }
}

proof fn lemma_pair_lt_order(p: PairView, q: PairView, r: PairView)
    ensures
        !pair_lt(p, p),
        pair_lt(p, q) && pair_lt(q, r) ==> pair_lt(p, r),
        p != q ==> pair_lt(p, q) || pair_lt(q, p),
{
    lemma_chars_lt_irreflexive(p.1, 0);
    if pair_lt(p, q) && pair_lt(q, r) {
        if p.0 == q.0 && q.0 == r.0 {
            lemma_chars_lt_transitive(p.1, q.1, r.1, 0);
        } else if p.0 == q.0 {
        } else if q.0 == r.0 {
        } else {
            lemma_chars_lt_transitive(p.0, q.0, r.0, 0);
            if p.0 == r.0 {
                lemma_chars_lt_irreflexive(p.0, 0);
                lemma_chars_lt_transitive(p.0, q.0, p.0, 0);
            }
        }
    }
    if p != q {
        assert(p.0.take(0) =~= q.0.take(0));
        assert(p.1.take(0) =~= q.1.take(0));
        if p.0 == q.0 {
            lemma_chars_lt_total(p.1, q.1, 0);
        } else {
            lemma_chars_lt_total(p.0, q.0, 0);
        }
    }
}

/// Inserts a pair into a list kept in ascending order, unless it is there already.
fn insert_pair(out: &mut Vec<(String, String)>, p: (String, String))
    ensures
        pairs_view(final(out)@).to_set() == pairs_view(old(out)@).to_set().insert((p.0@, p.1@)),
        pairs_view(old(out)@).no_duplicates() ==> pairs_view(final(out)@).no_duplicates(),
        pairs_sorted(pairs_view(old(out)@)) ==> pairs_sorted(pairs_view(final(out)@)),
{
    let ghost pv = (p.0@, p.1@);
    let ghost before = pairs_view(out@);
    let mut i: usize = 0;
    while i < out.len()
        invariant
            i <= out.len(),
            out@ == old(out)@,
            before == pairs_view(old(out)@),
            pv == (p.0@, p.1@),
            forall|k: int| 0 <= k < i ==> before[k] != pv,
        decreases out.len() - i,
    {
        if crate::strs::str_eq(out[i].0.as_str(), p.0.as_str()) && crate::strs::str_eq(
            out[i].1.as_str(),
            p.1.as_str(),
        ) {
            assert(before[i as int] == pv);
            assert(before.to_set().insert(pv) =~= before.to_set());
            return;
        }
        i += 1;
    }
    let mut pos: usize = 0;
    while pos < out.len() && pair_less(&out[pos], &p)
        invariant
            pos <= out.len(),
            out@ == old(out)@,
            before == pairs_view(old(out)@),
            pv == (p.0@, p.1@),
            forall|k: int| 0 <= k < pos ==> pair_lt(#[trigger] before[k], pv),
        decreases out.len() - pos,
    {
        assert(before[pos as int] == (out@[pos as int].0@, out@[pos as int].1@));
        pos += 1;
    }
    proof {
        if pos < out.len() {
            assert(before[pos as int] == (out@[pos as int].0@, out@[pos as int].1@));
        }
    }
    out.insert(pos, p);
    proof {
        let after = pairs_view(out@);
        assert(after =~= before.insert(pos as int, pv));
        assert(after.to_set() =~= before.to_set().insert(pv)) by {
            assert forall|x: PairView| after.to_set().contains(x) implies before.to_set().insert(
                pv,
            ).contains(x) by {
                let k = choose|k: int| 0 <= k < after.len() && after[k] == x;
                if k < pos {
                    assert(before[k] == x);
                } else if k > pos {
                    assert(before[k - 1] == x);
                }
            }
            assert forall|x: PairView| before.to_set().insert(pv).contains(x) implies after.to_set().contains(
                x,
            ) by {
                if x == pv {
                    assert(after[pos as int] == x);
                } else {
                    let k = choose|k: int| 0 <= k < before.len() && before[k] == x;
                    if k < pos {
                        assert(after[k] == x);
                    } else {
                        assert(after[k + 1] == x);
                    }
                }
            }
        }
        if pairs_sorted(before) {
            if pos < before.len() {
                lemma_pair_lt_order(before[pos as int], pv, pv);
                assert(before[pos as int] != pv);
                lemma_pair_lt_order(pv, before[pos as int], pv);
            }
            assert forall|a: int, b: int| 0 <= a < b < after.len() implies pair_lt(#[trigger] after[a], #[trigger] after[b]) by {
                if b < pos {
                    assert(after[a] == before[a] && after[b] == before[b]);
                } else if b == pos {
                    assert(after[a] == before[a]);
                } else if a < pos {
                    assert(after[a] == before[a] && after[b] == before[b - 1]);
                    lemma_pair_lt_order(before[a], pv, before[b - 1]);
                    if b - 1 > pos {
                        lemma_pair_lt_order(pv, before[pos as int], before[b - 1]);
                    }
                    lemma_pair_lt_order(before[a], before[pos as int], before[b - 1]);
                } else if a == pos {
                    assert(after[b] == before[b - 1]);
                    if b - 1 > pos {
                        lemma_pair_lt_order(pv, before[pos as int], before[b - 1]);
                    }
                } else {
                    assert(after[a] == before[a - 1] && after[b] == before[b - 1]);
                }
            }
        }
        if before.no_duplicates() {
            assert forall|a: int, b: int| 0 <= a < after.len() && 0 <= b < after.len() && a != b
                implies after[a] != after[b] by {
                let ia = if a < pos { a } else if a == pos { -1 } else { a - 1 };
                let ib = if b < pos { b } else if b == pos { -1 } else { b - 1 };
                if a == pos {
                    assert(before[ib] != pv);
                } else if b == pos {
                    assert(before[ia] != pv);
                } else {
                    assert(before[ia] != before[ib]);
                }
            }
        }
    }
}

/// Whether `a` comes before `b` in the order of their characters' code points.
fn chars_less(a: &Vec<char>, b: &Vec<char>) -> (r: bool)
    ensures
        r == chars_lt_from(a@, b@, 0),
{
    let mut i: usize = 0;
    while i < a.len() && i < b.len()
        invariant
            i <= a.len(),
            i <= b.len(),
            chars_lt_from(a@, b@, 0) == chars_lt_from(a@, b@, i as int),
        decreases a.len() - i,
    {
        if a[i] != b[i] {
            return a[i] < b[i];
        }
        i += 1;
    }
    a.len() < b.len()
}

/// Whether pair `a` comes before pair `b`: by prefix, then by suffix.
fn pair_less(a: &(String, String), b: &(String, String)) -> (r: bool)
    ensures
        r == pair_lt((a.0@, a.1@), (b.0@, b.1@)),
{
    let a0 = to_chars(a.0.as_str());
    let b0 = to_chars(b.0.as_str());
    if chars_eq(&a0, &b0) {
        let a1 = to_chars(a.1.as_str());
        let b1 = to_chars(b.1.as_str());
        chars_less(&a1, &b1)
    } else {
        chars_less(&a0, &b0)
    }
}

/// Whether `s[..=i]` is a candidate.
fn candidate_end_at(chars: &Vec<char>, ps: &Vec<Vec<(Vec<char>, Vec<char>)>>, i: usize) -> (r: bool)
    requires
        2 <= i < chars.len(),
        ps@.len() == layer_count(),
        forall|g: int|
            0 <= g < layer_count() ==> #[trigger] ps@[g]@.len() == designation_patterns()[g].len(),
        forall|g: int, j: int|
            0 <= g < layer_count() && 0 <= j < designation_patterns()[g].len() ==> (#[trigger] ps@[g]@[j]).0@
                == designation_patterns()[g][j].0 && ps@[g]@[j].1@ == designation_patterns()[g][j].1,
    ensures
        r == is_candidate_end(chars@, i as int),
{
    let ghost s = chars@;
    let first = chars[0];
    let mut g: usize = 0;
    while g < 9
        invariant
            g <= 9,
            2 <= i < chars.len(),
            s == chars@,
            first == s[0],
            ps@.len() == layer_count(),
            forall|g: int|
                0 <= g < layer_count() ==> #[trigger] ps@[g]@.len() == designation_patterns()[g].len(),
            forall|g: int, j: int|
                0 <= g < layer_count() && 0 <= j < designation_patterns()[g].len() ==> (
                #[trigger] ps@[g]@[j]).0@ == designation_patterns()[g][j].0 && ps@[g]@[j].1@
                    == designation_patterns()[g][j].1,
            forall|h: int| 0 <= h < g ==> !#[trigger] end_of_layer(s, h, i as int),
        decreases 9 - g,
    {
        let group = &ps[g];
        match first_head(group, first, Ghost(g as int)) {
            Some(j) => {
                let pr = &group[j].1;
                assert(pr@ == designation_patterns()[g as int][j as int].1);
                proof {
                    lemma_patterns_shape();
                }
                if chars[i] == pr[pr.len() - 1] {
                    assert(end_of_layer(s, g as int, i as int));
                    return true;
                }
            },
            None => {},
        }
        assert(!end_of_layer(s, g as int, i as int));
        g += 1;
    }
    false
}

/// The designations an item name may carry, each as its prefix and suffix marks; the
/// empty pair (no designation) is always among them. A candidate is a head of the text
/// that starts with the prefix mark of some layer and ends with that layer's suffix
/// mark; its marks are peeled layer by layer, from the outermost in. The pairs come in
/// ascending order, without repetition.
pub fn match_item_designation(input: &str) -> (r: Vec<(String, String)>)
    ensures
        pairs_view(r@).to_set() == designation_pairs(input@),
        pairs_view(r@).no_duplicates(),
        pairs_sorted(pairs_view(r@)),
{
    let chars = to_chars(input);
    let ghost s = chars@;
    let mut results: Vec<(String, String)> = vec![(String::new(), String::new())];
    let ghost empty_pair = (Seq::<char>::empty(), Seq::<char>::empty());
    assert(pairs_view(results@) =~= seq![empty_pair]);
    if chars.len() <= 2 {
        proof {
            assert(pairs_view(results@).to_set() =~= designation_pairs(input@)) by {
                assert(seq![empty_pair].to_set() =~= set![empty_pair]) by {
                    assert forall|x: PairView| seq![empty_pair].to_set().contains(x) implies x
                        == empty_pair by {
                        let k = choose|k: int| 0 <= k < 1 && seq![empty_pair][k] == x;
                    }
                    assert(seq![empty_pair][0] == empty_pair);
                }
            }
        }
        return results;
    }
    let ps = patterns();
    let n = chars.len();
    let mut ends: Vec<usize> = Vec::new();
    let mut i: usize = 2;
    while i < n
        invariant
            2 <= i <= n,
            n == chars.len(),
            s == chars@,
            n > 2,
            ps@.len() == layer_count(),
            forall|g: int|
                0 <= g < layer_count() ==> #[trigger] ps@[g]@.len() == designation_patterns()[g].len(),
            forall|g: int, j: int|
                0 <= g < layer_count() && 0 <= j < designation_patterns()[g].len() ==> (
                #[trigger] ps@[g]@[j]).0@ == designation_patterns()[g][j].0 && ps@[g]@[j].1@
                    == designation_patterns()[g][j].1,
            forall|k: int|
                0 <= k < ends@.len() ==> 2 <= #[trigger] ends@[k] < i && is_candidate_end(
                    s,
                    ends@[k] as int,
                ),
            forall|x: int|
                2 <= x < i && #[trigger] is_candidate_end(s, x) ==> exists|k: int|
                    0 <= k < ends@.len() && ends@[k] == x,
        decreases n - i,
    {
        let ghost before = ends@;
        if candidate_end_at(&chars, &ps, i) {
            ends.push(i);
        }
        proof {
            assert forall|x: int|
                2 <= x < i + 1 && #[trigger] is_candidate_end(s, x) implies exists|k: int|
                    0 <= k < ends@.len() && ends@[k] == x by {
                if x == i {
                    assert(ends@[ends@.len() - 1] == x);
                } else {
                    let k = choose|k: int| 0 <= k < before.len() && before[k] == x;
                    assert(ends@[k] == x);
                }
            }
        }
        i += 1;
    }
    proof {
        assert forall|x: PairView| #[trigger] pairs_view(results@).to_set().contains(x) <==> (x
            == empty_pair || exists|m: int| 0 <= m < 0 && x == designation_of(s.take(ends@[m] + 1))) by {
            if pairs_view(results@).to_set().contains(x) {
                let k = choose|k: int| 0 <= k < pairs_view(results@).len() && pairs_view(results@)[k] == x;
            }
            if x == empty_pair {
                assert(pairs_view(results@)[0] == x);
            }
        }
    }
    let mut k: usize = 0;
    while k < ends.len()
        invariant
            k <= ends.len(),
            n == chars.len(),
            s == chars@,
            n > 2,
            ps@.len() == layer_count(),
            forall|g: int|
                0 <= g < layer_count() ==> #[trigger] ps@[g]@.len() == designation_patterns()[g].len(),
            forall|g: int, j: int|
                0 <= g < layer_count() && 0 <= j < designation_patterns()[g].len() ==> (
                #[trigger] ps@[g]@[j]).0@ == designation_patterns()[g][j].0 && ps@[g]@[j].1@
                    == designation_patterns()[g][j].1,
            forall|k: int|
                0 <= k < ends@.len() ==> 2 <= #[trigger] ends@[k] < n && is_candidate_end(s, ends@[k] as int),
            forall|x: int|
                2 <= x < n && #[trigger] is_candidate_end(s, x) ==> exists|k: int|
                    0 <= k < ends@.len() && ends@[k] == x,
            pairs_view(results@).no_duplicates(),
            pairs_sorted(pairs_view(results@)),
            forall|x: PairView|
                #[trigger] pairs_view(results@).to_set().contains(x) <==> (x == empty_pair || exists|m: int|
                    0 <= m < k && x == designation_of(s.take(ends@[m] + 1))),
        decreases ends.len() - k,
    {
        let e = ends[k];
        let c = slice_chars(&chars, 0, e + 1);
        assert(c@ =~= s.take(e + 1));
        let w = wrapper_length(&c, &ps);
        proof {
            lemma_wrapper_len(c@, 0);
        }
        let len = c.len();
        let prefix = string_from_chars(&slice_chars(&c, 0, w));
        let suffix = string_from_chars(&slice_chars(&c, len - w, len));
        assert(prefix@ =~= designation_of(c@).0);
        assert(suffix@ =~= designation_of(c@).1);
        insert_pair(&mut results, (prefix, suffix));
        k += 1;
    }
    proof {
        assert forall|x: PairView| pairs_view(results@).to_set().contains(x) <==> designation_pairs(
            input@,
        ).contains(x) by {
            if exists|m: int| 0 <= m < ends@.len() && x == designation_of(s.take(ends@[m] + 1)) {
                let m = choose|m: int| 0 <= m < ends@.len() && x == designation_of(s.take(ends@[m] + 1));
                assert(is_candidate_end(s, ends@[m] as int));
            }
            if x != empty_pair && designation_pairs(input@).contains(x) {
                let i = choose|i: int| is_candidate_end(s, i) && x == #[trigger] designation_of(s.take(i + 1));
                let m = choose|m: int| 0 <= m < ends@.len() && ends@[m] == i;
                assert(x == designation_of(s.take(ends@[m] + 1)));
            }
        }
        assert(pairs_view(results@).to_set() =~= designation_pairs(input@));
    }
    results
}


/// Two ascending lists of the same pairs are the same list.
pub proof fn lemma_sorted_pairs_unique(a: Seq<PairView>, b: Seq<PairView>)
    requires
        pairs_sorted(a),
        pairs_sorted(b),
        a.to_set() == b.to_set(),
    ensures
        a == b,
    decreases a.len(),
{
    if a.len() == 0 {
        if b.len() > 0 {
            assert(b.to_set().contains(b[0]));
            assert(a.to_set().contains(b[0]));
        }
        assert(a =~= b);
    } else {
        assert(a.to_set().contains(a[0]));
        assert(b.to_set().contains(a[0]));
        let k = choose|k: int| 0 <= k < b.len() && b[k] == a[0];
        assert(b.len() > 0);
        assert(b.to_set().contains(b[0]));
        assert(a.to_set().contains(b[0]));
        let m = choose|m: int| 0 <= m < a.len() && a[m] == b[0];
        lemma_pair_lt_order(a[0], b[0], a[0]);
        if k > 0 {
            assert(pair_lt(b[0], b[k]));
            if m > 0 {
                assert(pair_lt(a[0], a[m]));
                lemma_pair_lt_order(a[0], a[m], a[0]);
            }
            assert(false);
        }
        assert(a[0] == b[0]);
        let a1 = a.drop_first();
        let b1 = b.drop_first();
        assert forall|x: PairView| a1.to_set().contains(x) <==> b1.to_set().contains(x) by {
            if a1.to_set().contains(x) {
                let i = choose|i: int| 0 <= i < a1.len() && a1[i] == x;
                assert(a[i + 1] == x);
                assert(pair_lt(a[0], a[i + 1]));
                lemma_pair_lt_order(a[0], x, a[0]);
                assert(a.to_set().contains(x));
                assert(b.to_set().contains(x));
                let j = choose|j: int| 0 <= j < b.len() && b[j] == x;
                assert(j != 0);
                assert(b1[j - 1] == x);
            }
            if b1.to_set().contains(x) {
                let i = choose|i: int| 0 <= i < b1.len() && b1[i] == x;
                assert(b[i + 1] == x);
                assert(pair_lt(b[0], b[i + 1]));
                lemma_pair_lt_order(b[0], x, b[0]);
                assert(b.to_set().contains(x));
                assert(a.to_set().contains(x));
                let j = choose|j: int| 0 <= j < a.len() && a[j] == x;
                assert(j != 0);
                assert(a1[j - 1] == x);
            }
        }
        assert(a1.to_set() =~= b1.to_set());
        assert forall|i: int, j: int| 0 <= i < j < a1.len() implies pair_lt(#[trigger] a1[i], #[trigger] a1[j]) by {
            assert(a1[i] == a[i + 1] && a1[j] == a[j + 1]);
        }
        assert forall|i: int, j: int| 0 <= i < j < b1.len() implies pair_lt(#[trigger] b1[i], #[trigger] b1[j]) by {
            assert(b1[i] == b[i + 1] && b1[j] == b[j + 1]);
        }
        lemma_sorted_pairs_unique(a1, b1);
        assert(a =~= seq![a[0]] + a1);
        assert(b =~= seq![b[0]] + b1);
    }
}

} // verus!
