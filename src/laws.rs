//! Properties of segmentation that hold for every dictionary and text.
use crate::chars::{spec_is_alnum, spec_is_chinese};
use crate::chunk::{
    keep_key, max_key, rule_key, survivors, total_len, variance_x36, winner, Word,
};
use crate::segment::{
    alnum_run, chinese_step, chunks_after1, chunks_at, chunks_upto, lemma_alnum_run_bound,
    lemma_chinese_step, lemma_chunks_after1, match_words, segment, tokens_of, words_upto, Lexicon,
};
use vstd::prelude::*;

verus! {

/// The maximal runs of ASCII letters and digits of `buf[p..]`, in order.
pub open spec fn ascii_runs(buf: Seq<char>, p: int) -> Seq<Seq<char>>
    decreases buf.len() - p,
{
    if p < 0 || p >= buf.len() {
        Seq::empty()
    } else if spec_is_alnum(buf[p]) {
        let e = p + alnum_run(buf, p);
        proof {
            lemma_alnum_run_bound(buf, p);
        }
        seq![buf.subrange(p, e)] + ascii_runs(buf, e)
    } else {
        ascii_runs(buf, p + 1)
    }
}

/// The tokens that begin with an ASCII letter or digit, in order.
pub open spec fn ascii_tokens(ts: Seq<Seq<char>>) -> Seq<Seq<char>>
    decreases ts.len(),
{
    if ts.len() == 0 {
        ts
    } else if ts[0].len() > 0 && spec_is_alnum(ts[0][0]) {
        seq![ts[0]] + ascii_tokens(ts.drop_first())
    } else {
        ascii_tokens(ts.drop_first())
    }
}

proof fn lemma_segment_nonempty(lx: Lexicon, buf: Seq<char>, p: int, simple: bool)
    requires
        0 <= p,
    ensures
        forall|i: int|
            0 <= i < segment(lx, buf, p, simple).len() ==> (#[trigger] segment(
                lx,
                buf,
                p,
                simple,
            )[i]).len() >= 1,
    decreases buf.len() - p,
{
    if p < buf.len() {
        let s = segment(lx, buf, p, simple);
        if spec_is_chinese(buf[p]) {
            let l = chinese_step(lx, buf, p, simple);
            lemma_chinese_step(lx, buf, p, simple);
            if l == 0 {
                lemma_segment_nonempty(lx, buf, p + 1, simple);
                assert(s == segment(lx, buf, p + 1, simple));
            } else {
                lemma_segment_nonempty(lx, buf, p + l, simple);
                let r = segment(lx, buf, p + l, simple);
                assert(s[0] == buf.subrange(p, p + l));
                assert forall|i: int| 0 <= i < s.len() implies (#[trigger] s[i]).len() >= 1 by {
                    if i > 0 {
                        assert(s[i] == r[i - 1]);
                    }
                }
            }
        } else if spec_is_alnum(buf[p]) {
            let e = p + alnum_run(buf, p);
            lemma_alnum_run_bound(buf, p);
            assert(alnum_run(buf, p) == 1 + alnum_run(buf, p + 1));
            lemma_segment_nonempty(lx, buf, e, simple);
            let r = segment(lx, buf, e, simple);
            assert(s[0] == buf.subrange(p, e));
            assert forall|i: int| 0 <= i < s.len() implies (#[trigger] s[i]).len() >= 1 by {
                if i > 0 {
                    assert(s[i] == r[i - 1]);
                }
            }
        } else {
            lemma_segment_nonempty(lx, buf, p + 1, simple);
            assert(s == segment(lx, buf, p + 1, simple));
        }
    }
}

/// No token is empty.
pub proof fn tokens_nonempty(lx: Lexicon, text: Seq<char>, simple: bool)
    ensures
        forall|i: int|
            0 <= i < tokens_of(lx, text, simple).len() ==> (#[trigger] tokens_of(
                lx,
                text,
                simple,
            )[i]).len() >= 1,
{
    lemma_segment_nonempty(lx, text, 0, simple);
}

proof fn lemma_runs_skip(buf: Seq<char>, p: int, q: int)
    requires
        0 <= p <= q <= buf.len(),
        forall|j: int| p <= j < q ==> !spec_is_alnum(#[trigger] buf[j]),
    ensures
        ascii_runs(buf, p) == ascii_runs(buf, q),
    decreases q - p,
{
    if p < q {
        lemma_runs_skip(buf, p + 1, q);
    }
}

proof fn lemma_ascii_tokens(lx: Lexicon, buf: Seq<char>, p: int, simple: bool)
    requires
        0 <= p,
    ensures
        ascii_tokens(segment(lx, buf, p, simple)) == ascii_runs(buf, p),
    decreases buf.len() - p,
{
    if p < buf.len() {
        if spec_is_chinese(buf[p]) {
            let l = chinese_step(lx, buf, p, simple);
            lemma_chinese_step(lx, buf, p, simple);
            if l == 0 {
                lemma_ascii_tokens(lx, buf, p + 1, simple);
            } else {
                lemma_ascii_tokens(lx, buf, p + l, simple);
                let t = buf.subrange(p, p + l);
                let r = segment(lx, buf, p + l, simple);
                assert((seq![t] + r).drop_first() =~= r);
                assert(spec_is_chinese(buf[p + 0]));
                assert(t[0] == buf[p]);
                assert forall|j: int| p <= j < p + l implies !spec_is_alnum(#[trigger] buf[j]) by {
                    assert(spec_is_chinese(buf[p + (j - p)]));
                }
                lemma_runs_skip(buf, p, p + l);
            }
        } else if spec_is_alnum(buf[p]) {
            let e = p + alnum_run(buf, p);
            lemma_alnum_run_bound(buf, p);
            lemma_ascii_tokens(lx, buf, e, simple);
            let t = buf.subrange(p, e);
            let r = segment(lx, buf, e, simple);
            assert((seq![t] + r).drop_first() =~= r);
            assert(t[0] == buf[p]);
        } else {
            lemma_ascii_tokens(lx, buf, p + 1, simple);
        }
    }
}

/// Each maximal run of ASCII letters and digits of the text is one token,
/// in order, and no other token begins with an ASCII letter or digit.
pub proof fn ascii_runs_are_tokens(lx: Lexicon, text: Seq<char>, simple: bool)
    ensures
        ascii_tokens(tokens_of(lx, text, simple)) == ascii_runs(text, 0),
{
    lemma_ascii_tokens(lx, text, 0, simple);
}

proof fn lemma_words_upto_empty(lx: Lexicon, buf: Seq<char>, p: int, n: nat)
    requires
        lx.words == Map::<Seq<char>, u32>::empty(),
    ensures
        words_upto(lx, buf, p, n).len() == 0,
    decreases n,
{
    if n > 0 {
        lemma_words_upto_empty(lx, buf, p, (n - 1) as nat);
    }
}

proof fn lemma_empty_dict(lx: Lexicon, buf: Seq<char>, p: int, simple: bool)
    requires
        0 <= p,
        lx.words == Map::<Seq<char>, u32>::empty(),
    ensures
        segment(lx, buf, p, simple) == ascii_runs(buf, p),
    decreases buf.len() - p,
{
    if p < buf.len() {
        if spec_is_chinese(buf[p]) {
            lemma_words_upto_empty(lx, buf, p, chinese_run_of(lx, buf, p));
            assert(match_words(lx, buf, p).len() == 0);
            assert(chunks_at(lx, buf, p).len() == 0);
            assert(chinese_step(lx, buf, p, simple) == 0);
            lemma_empty_dict(lx, buf, p + 1, simple);
        } else if spec_is_alnum(buf[p]) {
            lemma_alnum_run_bound(buf, p);
            lemma_empty_dict(lx, buf, p + alnum_run(buf, p), simple);
        } else {
            lemma_empty_dict(lx, buf, p + 1, simple);
        }
    }
}

spec fn chinese_run_of(lx: Lexicon, buf: Seq<char>, p: int) -> nat {
    crate::segment::chinese_run(buf, p, lx.max_len as nat)
}

/// With no words, the tokens are the ASCII runs of the text and nothing else.
pub proof fn empty_dictionary_gives_ascii_runs(lx: Lexicon, text: Seq<char>, simple: bool)
    requires
        lx.words == Map::<Seq<char>, u32>::empty(),
    ensures
        tokens_of(lx, text, simple) == ascii_runs(text, 0),
{
    lemma_empty_dict(lx, text, 0, simple);
}

proof fn lemma_keep_unique_prefix(cs: Seq<Seq<Word>>, r: int, i: int, m: int, j: int)
    requires
        0 <= i < cs.len(),
        0 <= j <= cs.len(),
        rule_key(r, cs[i]) == m,
        forall|k: int| 0 <= k < cs.len() && k != i ==> rule_key(r, #[trigger] cs[k]) != m,
    ensures
        keep_key(cs.take(j), r, m) == (if j > i {
            seq![cs[i]]
        } else {
            Seq::<Seq<Word>>::empty()
        }),
    decreases j,
{
    if j > 0 {
        lemma_keep_unique_prefix(cs, r, i, m, j - 1);
        assert(cs.take(j).drop_last() =~= cs.take(j - 1));
        assert(cs.take(j).last() == cs[j - 1]);
        if j - 1 == i {
            assert(Seq::<Seq<Word>>::empty().push(cs[i]) =~= seq![cs[i]]);
        }
    } else {
        assert(cs.take(0) =~= Seq::<Seq<Word>>::empty());
    }
}

/// Where one chunk alone has the best score of rule `r`, it alone survives.
proof fn lemma_unique_best(cs: Seq<Seq<Word>>, r: int, i: int)
    requires
        0 <= i < cs.len(),
        forall|k: int| 0 <= k < cs.len() && k != i ==> rule_key(r, #[trigger] cs[k]) < rule_key(r, cs[i]),
    ensures
        survivors(cs, r) == seq![cs[i]],
{
    crate::chunk::lemma_max_key(cs, r);
    let k = choose|k: int| 0 <= k < cs.len() && rule_key(r, #[trigger] cs[k]) == max_key(cs, r);
    assert(max_key(cs, r) == rule_key(r, cs[i]));
    lemma_keep_unique_prefix(cs, r, i, rule_key(r, cs[i]), cs.len() as int);
    assert(cs.take(cs.len() as int) =~= cs);
}

/// Where every chunk has the same score of rule `r`, all survive.
proof fn lemma_all_tied(cs: Seq<Seq<Word>>, r: int, m: int)
    requires
        forall|k: int| 0 <= k < cs.len() ==> rule_key(r, #[trigger] cs[k]) == m,
    ensures
        keep_key(cs, r, m) == cs,
    decreases cs.len(),
{
    if cs.len() > 0 {
        let d = cs.drop_last();
        assert forall|k: int| 0 <= k < d.len() implies rule_key(r, #[trigger] d[k]) == m by {
            assert(d[k] == cs[k]);
        }
        lemma_all_tied(d, r, m);
        assert(cs.last() == cs[cs.len() - 1]);
        assert(d.push(cs.last()) =~= cs);
    }
}

proof fn lemma_all_tied_survive(cs: Seq<Seq<Word>>, r: int)
    requires
        cs.len() > 0,
        forall|k: int| 0 <= k < cs.len() ==> rule_key(r, #[trigger] cs[k]) == rule_key(r, cs[0]),
    ensures
        survivors(cs, r) == cs,
{
    crate::chunk::lemma_max_key(cs, r);
    let k = choose|k: int| 0 <= k < cs.len() && rule_key(r, #[trigger] cs[k]) == max_key(cs, r);
    lemma_all_tied(cs, r, max_key(cs, r));
}

proof fn lemma_single_survives(c: Seq<Word>, r: int)
    ensures
        survivors(seq![c], r) == seq![c],
{
    let cs = seq![c];
    assert(cs.drop_last() =~= Seq::<Seq<Word>>::empty());
    assert(cs.last() == c);
    assert(max_key(cs, r) == rule_key(r, c));
    assert(keep_key(Seq::<Seq<Word>>::empty(), r, rule_key(r, c)) == Seq::<Seq<Word>>::empty());
    assert(Seq::<Seq<Word>>::empty().push(c) =~= cs);
}

/// A chunk whose total length is strictly larger than that of every other
/// candidate is selected, whatever the other rules say.
pub proof fn longest_chunk_wins(cs: Seq<Seq<Word>>, i: int)
    requires
        0 <= i < cs.len(),
        forall|k: int| 0 <= k < cs.len() && k != i ==> total_len(#[trigger] cs[k]) < total_len(cs[i]),
    ensures
        winner(cs) == cs[i],
{
    lemma_unique_best(cs, 1, i);
    lemma_single_survives(cs[i], 2);
    lemma_single_survives(cs[i], 3);
    lemma_single_survives(cs[i], 4);
}

/// Among candidates tied on total length, average length and frequencies, the
/// one of strictly smallest variance of word lengths (hence of standard
/// deviation) is selected.
pub proof fn smallest_variance_wins(cs: Seq<Seq<Word>>, i: int)
    requires
        0 <= i < cs.len(),
        forall|k: int|
            0 <= k < cs.len() ==> rule_key(1, #[trigger] cs[k]) == rule_key(1, cs[i]) && rule_key(
                2,
                cs[k],
            ) == rule_key(2, cs[i]) && rule_key(4, cs[k]) == rule_key(4, cs[i]),
        forall|k: int|
            0 <= k < cs.len() && k != i ==> variance_x36(cs[i]) < variance_x36(#[trigger] cs[k]),
    ensures
        winner(cs) == cs[i],
{
    assert(rule_key(1, cs[0]) == rule_key(1, cs[i]));
    lemma_all_tied_survive(cs, 1);
    lemma_all_tied_survive(cs, 2);
    assert forall|k: int| 0 <= k < cs.len() && k != i implies rule_key(3, #[trigger] cs[k]) < rule_key(
        3,
        cs[i],
    ) by {
        assert(variance_x36(cs[i]) < variance_x36(cs[k]));
    }
    lemma_unique_best(cs, 3, i);
    lemma_single_survives(cs[i], 4);
}

proof fn lemma_total_ge_first(c: Seq<Word>)
    requires
        c.len() >= 1,
    ensures
        total_len(c) >= c[0].len,
    decreases c.len(),
{
    if c.len() > 1 {
        lemma_total_ge_first(c.drop_last());
        assert(c.drop_last()[0] == c[0]);
    } else {
        assert(c.drop_last() =~= Seq::<Word>::empty());
        assert(total_len(c.drop_last()) == 0);
        assert(c.last() == c[0]);
    }
}

/// The selected chunk has the largest total length of all candidates.
proof fn lemma_winner_total(cs: Seq<Seq<Word>>)
    requires
        cs.len() > 0,
    ensures
        total_len(winner(cs)) == max_key(cs, 1),
{
    let s1 = survivors(cs, 1);
    let s2 = survivors(s1, 2);
    let s3 = survivors(s2, 3);
    crate::chunk::lemma_survivors(cs, 1);
    crate::chunk::lemma_survivors(s1, 2);
    crate::chunk::lemma_survivors(s2, 3);
    crate::chunk::lemma_survivors(s3, 4);
    crate::chunk::lemma_keep_key(cs, 1, max_key(cs, 1));
    let w = winner(cs);
    assert(s3.contains(w));
    let i3 = choose|i: int| 0 <= i < s3.len() && s3[i] == w;
    assert(s2.contains(s3[i3]));
    let i2 = choose|i: int| 0 <= i < s2.len() && s2[i] == w;
    assert(s1.contains(s2[i2]));
    let i1 = choose|i: int| 0 <= i < s1.len() && s1[i] == w;
    assert(rule_key(1, s1[i1]) == max_key(cs, 1));
}

/// At a position where some word matches, the word that simple mode takes is
/// no longer than the chunk that the four rules select.
pub proof fn simple_word_within_winning_chunk(lx: Lexicon, buf: Seq<char>, p: int)
    requires
        0 <= p,
        match_words(lx, buf, p).len() > 0,
    ensures
        chunks_at(lx, buf, p).len() > 0,
        chinese_step(lx, buf, p, true) <= total_len(winner(chunks_at(lx, buf, p))),
{
    let ws = match_words(lx, buf, p);
    let n = ws.len() as int;
    let w = ws[n - 1];
    let a = chunks_upto(lx, buf, p, ws, n - 1);
    let b = chunks_after1(lx, buf, p, w);
    let cs = chunks_at(lx, buf, p);
    assert(cs == a + b);
    lemma_chunks_after1(lx, buf, p, w);
    let c = b[0];
    assert(cs[a.len() as int] == c);
    lemma_total_ge_first(c);
    crate::chunk::lemma_max_key(cs, 1);
    assert(rule_key(1, cs[a.len() as int]) <= max_key(cs, 1));
    lemma_winner_total(cs);
    assert(ws.last() == w);
}

/// `idx` gives increasing positions, all at or after `p`, at which `b` holds
/// the elements of `a`.
pub open spec fn embedding(idx: Seq<int>, a: Seq<char>, b: Seq<char>, p: int) -> bool {
    &&& idx.len() == a.len()
    &&& forall|i: int| 0 <= i < idx.len() ==> p <= #[trigger] idx[i] < b.len() && a[i] == b[idx[i]]
    &&& forall|i: int, j: int| 0 <= i < j < idx.len() ==> idx[i] < idx[j]
}

/// `a` occurs in `b` at increasing positions, all at or after `p`.
pub open spec fn embeds_from(a: Seq<char>, b: Seq<char>, p: int) -> bool {
    exists|idx: Seq<int>| #[trigger] embedding(idx, a, b, p)
}

/// `a` is a subsequence of `b`.
pub open spec fn is_subsequence(a: Seq<char>, b: Seq<char>) -> bool {
    embeds_from(a, b, 0)
}

proof fn lemma_embed_token(t: Seq<char>, rest: Seq<char>, buf: Seq<char>, p: int, q: int)
    requires
        0 <= p <= q <= buf.len(),
        t == buf.subrange(p, q),
        embeds_from(rest, buf, q),
    ensures
        embeds_from(t + rest, buf, p),
{
    let idx = choose|idx: Seq<int>| #[trigger] embedding(idx, rest, buf, q);
    let n = t.len() as int;
    let all = Seq::new((n + rest.len()) as nat, |i: int| if i < n { p + i } else { idx[i - n] });
    let a = t + rest;
    assert forall|i: int| 0 <= i < all.len() implies p <= #[trigger] all[i] < buf.len() && a[i]
        == buf[all[i]] by {
        if i >= n {
            assert(idx[i - n] >= q);
        } else {
            assert(a[i] == t[i]);
        }
    }
    assert forall|i: int, j: int| 0 <= i < j < all.len() implies all[i] < all[j] by {
        if j >= n {
            assert(idx[j - n] >= q);
            if i >= n {
                assert(idx[i - n] < idx[j - n]);
            }
        }
    }
    assert(embedding(all, a, buf, p));
}

proof fn lemma_segment_embeds(lx: Lexicon, buf: Seq<char>, p: int, simple: bool)
    requires
        0 <= p <= buf.len(),
    ensures
        embeds_from(segment(lx, buf, p, simple).flatten(), buf, p),
    decreases buf.len() - p,
{
    let s = segment(lx, buf, p, simple);
    if p >= buf.len() {
        assert(s.flatten() =~= Seq::<char>::empty());
        let idx = Seq::<int>::empty();
        assert(embedding(idx, s.flatten(), buf, p));
    } else if spec_is_chinese(buf[p]) && chinese_step(lx, buf, p, simple) > 0 {
        let l = chinese_step(lx, buf, p, simple);
        lemma_chinese_step(lx, buf, p, simple);
        lemma_segment_embeds(lx, buf, p + l, simple);
        let r = segment(lx, buf, p + l, simple);
        assert(s.drop_first() =~= r);
        lemma_embed_token(buf.subrange(p, p + l), r.flatten(), buf, p, p + l);
    } else if !spec_is_chinese(buf[p]) && spec_is_alnum(buf[p]) {
        let e = p + alnum_run(buf, p);
        lemma_alnum_run_bound(buf, p);
        lemma_segment_embeds(lx, buf, e, simple);
        let r = segment(lx, buf, e, simple);
        assert(s.drop_first() =~= r);
        lemma_embed_token(buf.subrange(p, e), r.flatten(), buf, p, e);
    } else {
        lemma_segment_embeds(lx, buf, p + 1, simple);
        assert(s == segment(lx, buf, p + 1, simple));
        let x = s.flatten();
        let idx = choose|idx: Seq<int>| #[trigger] embedding(idx, x, buf, p + 1);
        assert(embedding(idx, x, buf, p));
    }
}

/// The tokens, joined, are a subsequence of the text.
pub proof fn tokens_are_a_subsequence(lx: Lexicon, text: Seq<char>, simple: bool)
    ensures
        is_subsequence(tokens_of(lx, text, simple).flatten(), text),
{
    lemma_segment_embeds(lx, text, 0, simple);
}

} // verus!
