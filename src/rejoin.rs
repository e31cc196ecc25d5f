//! Segmenting the tokens again, joined by spaces, gives the same tokens.
use crate::chars::{spec_is_alnum, spec_is_chinese};
use crate::chunk::{
    keep_key, lemma_keep_key, lemma_max_key, lemma_survivors, max_key,
    rule_key, survivors, total_len, winner, Word,
};
use crate::segment::{
    alnum_run, chinese_run, chinese_step, chunks_after1, chunks_after1_upto, chunks_after2,
    chunks_at, chunks_upto, lemma_alnum_run, lemma_alnum_run_bound, lemma_chinese_run,
    lemma_chinese_run_bound, lemma_chinese_step, lemma_chunks_at, lemma_match_words, match_words,
    segment, tokens_of, words_upto, Lexicon,
};
use vstd::prelude::*;

verus! {

/// The tokens with one space between each two.
pub open spec fn joined(ts: Seq<Seq<char>>) -> Seq<char>
    decreases ts.len(),
{
    if ts.len() == 0 {
        Seq::empty()
    } else if ts.len() == 1 {
        ts[0]
    } else {
        joined(ts.drop_last()) + seq![' '] + ts.last()
    }
}

/// A token as segmentation emits it: a run of ASCII letters and digits, or a
/// dictionary word of Chinese characters no longer than the longest length.
pub open spec fn good_token(lx: Lexicon, t: Seq<char>) -> bool {
    &&& t.len() >= 1
    &&& (forall|i: int| 0 <= i < t.len() ==> spec_is_alnum(#[trigger] t[i])) || ((forall|i: int|
        0 <= i < t.len() ==> spec_is_chinese(#[trigger] t[i])) && lx.words.contains_key(t)
        && t.len() <= lx.max_len)
}

proof fn lemma_good_tokens(lx: Lexicon, buf: Seq<char>, p: int, simple: bool)
    requires
        0 <= p,
    ensures
        forall|i: int|
            0 <= i < segment(lx, buf, p, simple).len() ==> good_token(
                lx,
                #[trigger] segment(lx, buf, p, simple)[i],
            ),
    decreases buf.len() - p,
{
    if p < buf.len() {
        let s = segment(lx, buf, p, simple);
        if spec_is_chinese(buf[p]) {
            let l = chinese_step(lx, buf, p, simple);
            lemma_chinese_step(lx, buf, p, simple);
            lemma_chinese_run_bound(buf, p, lx.max_len as nat);
            if l == 0 {
                lemma_good_tokens(lx, buf, p + 1, simple);
                assert(s == segment(lx, buf, p + 1, simple));
            } else {
                lemma_good_tokens(lx, buf, p + l, simple);
                let r = segment(lx, buf, p + l, simple);
                let t = buf.subrange(p, p + l);
                assert(s[0] == t);
                assert forall|i: int| 0 <= i < t.len() implies spec_is_chinese(#[trigger] t[i]) by {
                    assert(t[i] == buf[p + i]);
                }
                assert(good_token(lx, t));
                assert forall|i: int| 0 <= i < s.len() implies good_token(lx, #[trigger] s[i]) by {
                    if i > 0 {
                        assert(s[i] == r[i - 1]);
                    }
                }
            }
        } else if spec_is_alnum(buf[p]) {
            let e = p + alnum_run(buf, p);
            lemma_alnum_run_bound(buf, p);
            assert(alnum_run(buf, p) == 1 + alnum_run(buf, p + 1));
            lemma_good_tokens(lx, buf, e, simple);
            let r = segment(lx, buf, e, simple);
            let t = buf.subrange(p, e);
            assert(s[0] == t);
            assert forall|i: int| 0 <= i < t.len() implies spec_is_alnum(#[trigger] t[i]) by {
                assert(t[i] == buf[p + i]);
            }
            assert forall|i: int| 0 <= i < s.len() implies good_token(lx, #[trigger] s[i]) by {
                if i > 0 {
                    assert(s[i] == r[i - 1]);
                }
            }
        } else {
            lemma_good_tokens(lx, buf, p + 1, simple);
            assert(s == segment(lx, buf, p + 1, simple));
        }
    }
}

/// Where the `k`-th token begins in `joined(ts)`.
pub open spec fn token_start(ts: Seq<Seq<char>>, k: int) -> int {
    if k <= 0 {
        0
    } else {
        joined(ts.take(k)).len() as int + 1
    }
}

proof fn lemma_joined(ts: Seq<Seq<char>>, k: int)
    requires
        0 <= k < ts.len(),
    ensures
        token_start(ts, k) + ts[k].len() <= joined(ts).len(),
        joined(ts).subrange(token_start(ts, k), token_start(ts, k) + ts[k].len()) == ts[k],
        k < ts.len() - 1 ==> joined(ts)[token_start(ts, k) + ts[k].len()] == ' ' && token_start(
            ts,
            k + 1,
        ) == token_start(ts, k) + ts[k].len() + 1,
        k == ts.len() - 1 ==> token_start(ts, k) + ts[k].len() == joined(ts).len(),
    decreases ts.len(),
{
    let n = ts.len() as int;
    let j = joined(ts);
    if n == 1 {
        assert(j.subrange(0, ts[0].len() as int) =~= ts[0]);
    } else {
        let d = ts.drop_last();
        let jd = joined(d);
        assert(j == jd + seq![' '] + ts.last());
        assert(ts.take(n - 1) =~= d);
        if k < n - 1 {
            lemma_joined(d, k);
            assert(d.take(k) =~= ts.take(k));
            assert(d[k] == ts[k]);
            let st = token_start(ts, k);
            assert(token_start(d, k) == st);
            assert(j.subrange(st, st + ts[k].len()) =~= jd.subrange(st, st + ts[k].len()));
            if k < n - 2 {
                lemma_joined(d, k + 1);
                assert(d.take(k + 1) =~= ts.take(k + 1));
                assert(j[st + ts[k].len()] == jd[st + ts[k].len()]);
            } else {
                assert(joined(ts.take(k + 1)) == jd);
            }
        } else {
            let st = jd.len() as int + 1;
            assert(token_start(ts, k) == st);
            assert(j.subrange(st, st + ts[k].len()) =~= ts.last());
        }
    }
}

/// A Chinese run cannot continue past `s`: the buffer ends there or holds
/// something else.
pub open spec fn stops_at(buf: Seq<char>, s: int) -> bool {
    s == buf.len() || (0 <= s < buf.len() && !spec_is_chinese(buf[s]))
}

proof fn lemma_run_stop(buf: Seq<char>, x: int, lim: nat, s: int)
    requires
        0 <= x <= s <= buf.len(),
        stops_at(buf, s),
    ensures
        chinese_run(buf, x, lim) <= s - x,
    decreases lim,
{
    if chinese_run(buf, x, lim) > 0 {
        lemma_run_stop(buf, x + 1, (lim - 1) as nat, s);
    }
}

proof fn lemma_match_within(lx: Lexicon, buf: Seq<char>, x: int, s: int)
    requires
        0 <= x <= s <= buf.len(),
        stops_at(buf, s),
    ensures
        forall|i: int|
            0 <= i < match_words(lx, buf, x).len() ==> x + (#[trigger] match_words(lx, buf, x)[i]).len
                <= s,
{
    lemma_match_words(lx, buf, x);
    lemma_run_stop(buf, x, lx.max_len as nat, s);
}

proof fn lemma_total3(a: Word, b: Word, c: Word)
    ensures
        total_len(seq![a]) == a.len,
        total_len(seq![a, b]) == a.len + b.len,
        total_len(seq![a, b, c]) == a.len + b.len + c.len,
{
    reveal_with_fuel(total_len, 4);
    assert(seq![a, b, c].drop_last() =~= seq![a, b]);
    assert(seq![a, b].drop_last() =~= seq![a]);
    assert(seq![a].drop_last() =~= Seq::<Word>::empty());
}

proof fn lemma_after2_within(lx: Lexicon, buf: Seq<char>, q: int, w1: Word, w2: Word, s: int)
    requires
        0 <= q,
        q + w1.len + w2.len <= s <= buf.len(),
        stops_at(buf, s),
    ensures
        forall|i: int|
            0 <= i < chunks_after2(lx, buf, q, w1, w2).len() ==> total_len(
                #[trigger] chunks_after2(lx, buf, q, w1, w2)[i],
            ) <= s - q,
{
    let x = q + w1.len + w2.len;
    let ws3 = match_words(lx, buf, x);
    lemma_match_within(lx, buf, x, s);
    let cs = chunks_after2(lx, buf, q, w1, w2);
    assert forall|i: int| 0 <= i < cs.len() implies total_len(#[trigger] cs[i]) <= s - q by {
        if ws3.len() == 0 {
            lemma_total3(w1, w2, w2);
        } else {
            assert(cs[i] == seq![w1, w2, ws3[i]]);
            lemma_total3(w1, w2, ws3[i]);
        }
    }
}

proof fn lemma_after1_upto_within(
    lx: Lexicon,
    buf: Seq<char>,
    q: int,
    w1: Word,
    n: int,
    s: int,
)
    requires
        0 <= q,
        q + w1.len <= s <= buf.len(),
        stops_at(buf, s),
        n <= match_words(lx, buf, q + w1.len).len(),
    ensures
        forall|i: int|
            0 <= i < chunks_after1_upto(lx, buf, q, w1, match_words(lx, buf, q + w1.len), n).len()
                ==> total_len(
                #[trigger] chunks_after1_upto(lx, buf, q, w1, match_words(lx, buf, q + w1.len), n)[i],
            ) <= s - q,
    decreases n,
{
    let ws2 = match_words(lx, buf, q + w1.len);
    if n > 0 {
        lemma_after1_upto_within(lx, buf, q, w1, n - 1, s);
        lemma_match_within(lx, buf, q + w1.len, s);
        assert(q + w1.len + ws2[n - 1].len <= s);
        lemma_after2_within(lx, buf, q, w1, ws2[n - 1], s);
        let a = chunks_after1_upto(lx, buf, q, w1, ws2, n - 1);
        let b = chunks_after2(lx, buf, q, w1, ws2[n - 1]);
        assert forall|i: int| 0 <= i < (a + b).len() implies total_len(#[trigger] (a + b)[i]) <= s
            - q by {
            if i >= a.len() {
                assert((a + b)[i] == b[i - a.len()]);
            } else {
                assert((a + b)[i] == a[i]);
            }
        }
    }
}

proof fn lemma_upto_within(lx: Lexicon, buf: Seq<char>, q: int, n: int, s: int)
    requires
        0 <= q <= s <= buf.len(),
        stops_at(buf, s),
        n <= match_words(lx, buf, q).len(),
    ensures
        forall|i: int|
            0 <= i < chunks_upto(lx, buf, q, match_words(lx, buf, q), n).len() ==> total_len(
                #[trigger] chunks_upto(lx, buf, q, match_words(lx, buf, q), n)[i],
            ) <= s - q,
    decreases n,
{
    let ws1 = match_words(lx, buf, q);
    if n > 0 {
        lemma_upto_within(lx, buf, q, n - 1, s);
        lemma_match_within(lx, buf, q, s);
        let w1 = ws1[n - 1];
        assert(q + w1.len <= s);
        let ws2 = match_words(lx, buf, q + w1.len);
        lemma_after1_upto_within(lx, buf, q, w1, ws2.len() as int, s);
        let a = chunks_upto(lx, buf, q, ws1, n - 1);
        let b = chunks_after1(lx, buf, q, w1);
        assert forall|i: int| 0 <= i < b.len() implies total_len(#[trigger] b[i]) <= s - q by {
            if ws2.len() == 0 {
                lemma_total3(w1, w1, w1);
            }
        }
        assert forall|i: int| 0 <= i < (a + b).len() implies total_len(#[trigger] (a + b)[i]) <= s
            - q by {
            if i >= a.len() {
                assert((a + b)[i] == b[i - a.len()]);
            } else {
                assert((a + b)[i] == a[i]);
            }
        }
    }
}

proof fn lemma_keep_contains(cs: Seq<Seq<Word>>, r: int, m: int, i: int)
    requires
        0 <= i < cs.len(),
        rule_key(r, cs[i]) == m,
    ensures
        keep_key(cs, r, m).contains(cs[i]),
    decreases cs.len(),
{
    let d = cs.drop_last();
    if i < cs.len() - 1 {
        assert(d[i] == cs[i]);
        lemma_keep_contains(d, r, m, i);
        let k = keep_key(d, r, m);
        let j = choose|j: int| 0 <= j < k.len() && k[j] == cs[i];
        if rule_key(r, cs.last()) == m {
            assert(keep_key(cs, r, m)[j] == k[j]);
        }
    } else {
        assert(cs.last() == cs[i]);
        let k = keep_key(d, r, m);
        assert(keep_key(cs, r, m)[k.len() as int] == cs[i]);
    }
}

/// At a dictionary word of Chinese characters that a Chinese run ends with,
/// both modes emit exactly that word.
proof fn lemma_step_at_word(lx: Lexicon, buf: Seq<char>, q: int, l: nat, simple: bool)
    requires
        0 <= q,
        l >= 1,
        q + l <= buf.len(),
        forall|j: int| 0 <= j < l ==> spec_is_chinese(#[trigger] buf[q + j]),
        stops_at(buf, q + l),
        lx.words.contains_key(buf.subrange(q, q + l)),
        l <= lx.max_len,
    ensures
        chinese_step(lx, buf, q, simple) == l,
{
    lemma_chinese_run(buf, q, lx.max_len as nat, l);
    let ws = match_words(lx, buf, q);
    assert(ws == words_upto(lx, buf, q, l));
    let n = ws.len() as int;
    assert(n >= 1);
    let wl = ws[n - 1];
    assert(wl.len == l);
    assert(ws.last() == wl);
    if !simple {
        lemma_match_words(lx, buf, q);
        let cs = chunks_at(lx, buf, q);
        let a = chunks_upto(lx, buf, q, ws, n - 1);
        lemma_run_stop(buf, q + l, lx.max_len as nat, q + l);
        assert(match_words(lx, buf, q + l).len() == 0);
        assert(chunks_after1(lx, buf, q, wl) == seq![seq![wl]]);
        assert(cs == a + seq![seq![wl]]);
        let ia = a.len() as int;
        assert(cs[ia] == seq![wl]);
        lemma_total3(wl, wl, wl);
        lemma_upto_within(lx, buf, q, n, q + l);
        lemma_max_key(cs, 1);
        let km = choose|k: int| 0 <= k < cs.len() && rule_key(1, #[trigger] cs[k]) == max_key(cs, 1);
        assert(rule_key(1, cs[ia]) <= max_key(cs, 1));
        assert(max_key(cs, 1) == l);
        let s1 = survivors(cs, 1);
        lemma_keep_contains(cs, 1, l as int, ia);
        lemma_keep_key(cs, 1, l as int);
        lemma_chunks_at(lx, buf, q);
        let i1 = choose|i: int| 0 <= i < s1.len() && s1[i] == seq![wl];
        lemma_max_key(s1, 2);
        assert forall|i: int| 0 <= i < s1.len() implies rule_key(2, #[trigger] s1[i]) <= 6 * l && (
        rule_key(2, s1[i]) == 6 * l ==> s1[i].len() == 1) by {
            let c = s1[i];
            let j = choose|j: int| 0 <= j < cs.len() && cs[j] == c;
            assert(c.len() >= 1);
            assert(total_len(c) == l);
        }
        assert(rule_key(2, s1[i1]) == 6 * l);
        assert(max_key(s1, 2) == 6 * l);
        let s2 = survivors(s1, 2);
        lemma_keep_key(s1, 2, 6 * l as int);
        assert forall|i: int| 0 <= i < s2.len() implies #[trigger] s2[i] == seq![wl] by {
            let c = s2[i];
            let j1 = choose|j: int| 0 <= j < s1.len() && s1[j] == c;
            let j = choose|j: int| 0 <= j < cs.len() && cs[j] == c;
            assert(c.len() == 1);
            assert(c.drop_last() =~= Seq::<Word>::empty());
            assert(total_len(c.drop_last()) == 0);
            assert(c.last() == c[0]);
            assert(total_len(c) == c[0].len);
            let k = choose|k: int| 0 <= k < ws.len() && ws[k] == c[0];
            if k < n - 1 {
                assert(ws[k].len < ws[n - 1].len);
            }
            assert(c =~= seq![wl]);
        }
        lemma_survivors(s1, 2);
        let s3 = survivors(s2, 3);
        lemma_survivors(s2, 3);
        lemma_survivors(s3, 4);
        let w = winner(cs);
        assert(s3.contains(w));
        let i3 = choose|i: int| 0 <= i < s3.len() && s3[i] == w;
        assert(s2.contains(s3[i3]));
        let i2 = choose|i: int| 0 <= i < s2.len() && s2[i] == w;
        assert(w == seq![wl]);
    }
}

proof fn lemma_alnum_not_chinese(c: char)
    requires
        spec_is_alnum(c),
    ensures
        !spec_is_chinese(c),
{
    assert(('z' as u32) < 0x4e00);
}

proof fn lemma_rejoin_from(lx: Lexicon, ts: Seq<Seq<char>>, k: int, simple: bool)
    requires
        0 <= k <= ts.len(),
        forall|i: int| 0 <= i < ts.len() ==> good_token(lx, #[trigger] ts[i]),
    ensures
        segment(lx, joined(ts), token_start(ts, k), simple) == ts.subrange(k, ts.len() as int),
    decreases ts.len() - k,
{
    let j = joined(ts);
    let n = ts.len() as int;
    if k == n {
        assert(ts.take(n) =~= ts);
        assert(ts.subrange(k, n) =~= Seq::<Seq<char>>::empty());
    } else {
        lemma_joined(ts, k);
        let q = token_start(ts, k);
        let t = ts[k];
        let l = t.len() as int;
        assert(good_token(lx, t));
        assert forall|i: int| 0 <= i < l implies j[q + i] == #[trigger] t[i] by {
            assert(j.subrange(q, q + l)[i] == j[q + i]);
        }
        assert(j[q] == t[0]);
        if forall|i: int| 0 <= i < t.len() ==> spec_is_alnum(#[trigger] t[i]) {
            assert(spec_is_alnum(t[0]));
            lemma_alnum_not_chinese(j[q]);
            assert forall|i: int| 0 <= i < l implies spec_is_alnum(#[trigger] j[q + i]) by {
                assert(spec_is_alnum(t[i]));
            }
            lemma_alnum_run(j, q, l as nat);
        } else {
            assert forall|i: int| 0 <= i < l implies spec_is_chinese(#[trigger] j[q + i]) by {
                assert(spec_is_chinese(t[i]));
            }
            assert(spec_is_chinese(j[q + 0]));
            lemma_step_at_word(lx, j, q, l as nat, simple);
        }
        assert(segment(lx, j, q, simple) == seq![t] + segment(lx, j, q + l, simple));
        if k == n - 1 {
            assert(ts.subrange(k, n) =~= seq![t]);
            assert(seq![t] + Seq::<Seq<char>>::empty() =~= seq![t]);
        } else {
            lemma_rejoin_from(lx, ts, k + 1, simple);
            assert(segment(lx, j, q + l, simple) == segment(lx, j, q + l + 1, simple));
            assert(ts.subrange(k, n) =~= seq![t] + ts.subrange(k + 1, n));
        }
    }
}

/// Segmenting the tokens again, joined by single spaces, gives the same tokens.
pub proof fn rejoined_tokens_segment_the_same(lx: Lexicon, text: Seq<char>, simple: bool)
    ensures
        tokens_of(lx, joined(tokens_of(lx, text, simple)), simple) == tokens_of(lx, text, simple),
{
    let ts = tokens_of(lx, text, simple);
    lemma_good_tokens(lx, text, 0, simple);
    lemma_rejoin_from(lx, ts, 0, simple);
    assert(ts.subrange(0, ts.len() as int) =~= ts);
}

} // verus!
