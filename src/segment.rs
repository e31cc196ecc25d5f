//! Matching dictionary words, enumerating chunks, and the segmenter itself.
use crate::chars::{is_ascii_alnum, is_chinese_char, spec_is_alnum, spec_is_chinese};
use crate::chunk::{
    chunk_ok, chunk_views, lemma_winner_member, rule_key, select_first_word, total_len,
    variance_x36, winner, Chunk, Word,
};
use crate::dict::Dict;
use vstd::prelude::*;

verus! {

/// What a segmenter knows: its words with their frequencies, and the length
/// of its longest word.
pub struct Lexicon {
    pub words: Map<Seq<char>, u32>,
    pub max_len: u32,
}

/// The number of consecutive Chinese code points of `buf` from `p`, at most `lim`.
pub open spec fn chinese_run(buf: Seq<char>, p: int, lim: nat) -> nat
    decreases lim,
{
    if lim == 0 || p < 0 || p >= buf.len() || !spec_is_chinese(buf[p]) {
        0
    } else {
        1 + chinese_run(buf, p + 1, (lim - 1) as nat)
    }
}

/// The dictionary words `buf[p..p + k]` for `k` from 1 to `n`, shortest first.
pub open spec fn words_upto(lx: Lexicon, buf: Seq<char>, p: int, n: nat) -> Seq<Word>
    decreases n,
{
    if n == 0 {
        Seq::empty()
    } else {
        let prev = words_upto(lx, buf, p, (n - 1) as nat);
        let w = buf.subrange(p, p + n);
        if lx.words.contains_key(w) {
            prev.push(Word { len: n as u32, freq: lx.words[w] })
        } else {
            prev
        }
    }
}

/// The dictionary words that begin at `p`: prefixes of the Chinese run there,
/// at most `max_len` long, shortest first.
pub open spec fn match_words(lx: Lexicon, buf: Seq<char>, p: int) -> Seq<Word> {
    words_upto(lx, buf, p, chinese_run(buf, p, lx.max_len as nat))
}

pub proof fn lemma_chinese_run(buf: Seq<char>, p: int, lim: nat, k: nat)
    requires
        0 <= p,
        k <= lim,
        p + k <= buf.len(),
        forall|j: int| 0 <= j < k ==> spec_is_chinese(#[trigger] buf[p + j]),
        k == lim || p + k == buf.len() || !spec_is_chinese(buf[p + k]),
    ensures
        chinese_run(buf, p, lim) == k,
    decreases k,
{
    if k > 0 {
        assert(spec_is_chinese(buf[p + 0]));
        assert forall|j: int| 0 <= j < k - 1 implies spec_is_chinese(#[trigger] buf[(p + 1) + j]) by {
            assert(spec_is_chinese(buf[p + (j + 1)]));
        }
        lemma_chinese_run(buf, p + 1, (lim - 1) as nat, (k - 1) as nat);
    }
}

pub proof fn lemma_chinese_run_bound(buf: Seq<char>, p: int, lim: nat)
    requires
        0 <= p,
    ensures
        chinese_run(buf, p, lim) <= lim,
        chinese_run(buf, p, lim) > 0 ==> p + chinese_run(buf, p, lim) <= buf.len(),
        forall|j: int|
            0 <= j < chinese_run(buf, p, lim) ==> spec_is_chinese(#[trigger] buf[p + j]),
    decreases lim,
{
    if chinese_run(buf, p, lim) > 0 {
        lemma_chinese_run_bound(buf, p + 1, (lim - 1) as nat);
        assert forall|j: int| 0 <= j < chinese_run(buf, p, lim) implies spec_is_chinese(
            #[trigger] buf[p + j],
        ) by {
            if j > 0 {
                assert(buf[(p + 1) + (j - 1)] == buf[p + j]);
            }
        }
    }
}

/// The words found by `words_upto` are dictionary words, of lengths from 1
/// to `n`, strictly increasing.
pub proof fn lemma_words_upto(lx: Lexicon, buf: Seq<char>, p: int, n: nat)
    requires
        n <= u32::MAX,
    ensures
        forall|i: int|
            0 <= i < words_upto(lx, buf, p, n).len() ==> {
                let w = #[trigger] words_upto(lx, buf, p, n)[i];
                &&& 1 <= w.len <= n
                &&& lx.words.contains_key(buf.subrange(p, p + w.len))
                &&& w.freq == lx.words[buf.subrange(p, p + w.len)]
            },
        forall|i: int, j: int|
            0 <= i < j < words_upto(lx, buf, p, n).len() ==> (#[trigger] words_upto(
                lx,
                buf,
                p,
                n,
            )[i]).len < (#[trigger] words_upto(lx, buf, p, n)[j]).len,
    decreases n,
{
    if n > 0 {
        lemma_words_upto(lx, buf, p, (n - 1) as nat);
        let prev = words_upto(lx, buf, p, (n - 1) as nat);
        let cur = words_upto(lx, buf, p, n);
        assert forall|i: int| 0 <= i < prev.len() implies cur[i] == prev[i] by {}
        if cur.len() > prev.len() {
            assert(cur[prev.len() as int].len == n);
            assert(buf.subrange(p, p + cur[prev.len() as int].len) == buf.subrange(p, p + n));
        }
    }
}

/// The facts about matched words that the enumerator and the driver use.
pub proof fn lemma_match_words(lx: Lexicon, buf: Seq<char>, p: int)
    requires
        0 <= p,
    ensures
        forall|i: int|
            0 <= i < match_words(lx, buf, p).len() ==> {
                let w = #[trigger] match_words(lx, buf, p)[i];
                &&& 1 <= w.len
                &&& p + w.len <= buf.len()
                &&& w.len <= chinese_run(buf, p, lx.max_len as nat)
                &&& lx.words.contains_key(buf.subrange(p, p + w.len))
                &&& w.freq == lx.words[buf.subrange(p, p + w.len)]
            },
        forall|i: int, j: int|
            0 <= i < j < match_words(lx, buf, p).len() ==> (#[trigger] match_words(lx, buf, p)[i]).len
                < (#[trigger] match_words(lx, buf, p)[j]).len,
        p >= buf.len() ==> match_words(lx, buf, p).len() == 0,
{
    lemma_chinese_run_bound(buf, p, lx.max_len as nat);
    lemma_words_upto(lx, buf, p, chinese_run(buf, p, lx.max_len as nat));
}

/// The chunks whose first two words are `w1` and `w2`: one per dictionary
/// word that follows them, or the pair alone where none does.
pub open spec fn chunks_after2(lx: Lexicon, buf: Seq<char>, p: int, w1: Word, w2: Word) -> Seq<
    Seq<Word>,
> {
    let ws3 = match_words(lx, buf, p + w1.len + w2.len);
    if ws3.len() == 0 {
        seq![seq![w1, w2]]
    } else {
        ws3.map_values(|w3: Word| seq![w1, w2, w3])
    }
}

/// The chunks for `w1` followed by each of the first `n` words of `ws2`.
pub open spec fn chunks_after1_upto(
    lx: Lexicon,
    buf: Seq<char>,
    p: int,
    w1: Word,
    ws2: Seq<Word>,
    n: int,
) -> Seq<Seq<Word>>
    decreases n,
{
    if n <= 0 {
        Seq::empty()
    } else {
        chunks_after1_upto(lx, buf, p, w1, ws2, n - 1) + chunks_after2(lx, buf, p, w1, ws2[n - 1])
    }
}

/// The chunks whose first word is `w1`; `w1` alone where no word follows it
/// (at the end of the buffer nothing does).
pub open spec fn chunks_after1(lx: Lexicon, buf: Seq<char>, p: int, w1: Word) -> Seq<Seq<Word>> {
    let ws2 = match_words(lx, buf, p + w1.len);
    if ws2.len() == 0 {
        seq![seq![w1]]
    } else {
        chunks_after1_upto(lx, buf, p, w1, ws2, ws2.len() as int)
    }
}

/// The chunks for each of the first `n` words of `ws1`, in order.
pub open spec fn chunks_upto(lx: Lexicon, buf: Seq<char>, p: int, ws1: Seq<Word>, n: int) -> Seq<
    Seq<Word>,
>
    decreases n,
{
    if n <= 0 {
        Seq::empty()
    } else {
        chunks_upto(lx, buf, p, ws1, n - 1) + chunks_after1(lx, buf, p, ws1[n - 1])
    }
}

/// Every chunk of up to three consecutive dictionary words that begins at `p`.
pub open spec fn chunks_at(lx: Lexicon, buf: Seq<char>, p: int) -> Seq<Seq<Word>> {
    let ws1 = match_words(lx, buf, p);
    chunks_upto(lx, buf, p, ws1, ws1.len() as int)
}

proof fn lemma_chunks_after2(lx: Lexicon, buf: Seq<char>, p: int, w1: Word, w2: Word)
    ensures
        chunks_after2(lx, buf, p, w1, w2).len() > 0,
        forall|i: int|
            0 <= i < chunks_after2(lx, buf, p, w1, w2).len() ==> {
                let c = #[trigger] chunks_after2(lx, buf, p, w1, w2)[i];
                c.len() >= 2 && c[0] == w1 && c[1] == w2
            },
{
}

proof fn lemma_chunks_after1_upto(
    lx: Lexicon,
    buf: Seq<char>,
    p: int,
    w1: Word,
    ws2: Seq<Word>,
    n: int,
)
    requires
        n <= ws2.len(),
    ensures
        n > 0 ==> chunks_after1_upto(lx, buf, p, w1, ws2, n).len() > 0,
        forall|i: int|
            0 <= i < chunks_after1_upto(lx, buf, p, w1, ws2, n).len() ==> {
                let c = #[trigger] chunks_after1_upto(lx, buf, p, w1, ws2, n)[i];
                c.len() >= 1 && c[0] == w1
            },
    decreases n,
{
    if n > 0 {
        lemma_chunks_after1_upto(lx, buf, p, w1, ws2, n - 1);
        lemma_chunks_after2(lx, buf, p, w1, ws2[n - 1]);
        let a = chunks_after1_upto(lx, buf, p, w1, ws2, n - 1);
        let b = chunks_after2(lx, buf, p, w1, ws2[n - 1]);
        assert forall|i: int| 0 <= i < (a + b).len() implies {
            let c = #[trigger] (a + b)[i];
            c.len() >= 1 && c[0] == w1
        } by {
            if i >= a.len() {
                assert((a + b)[i] == b[i - a.len()]);
            }
        }
    }
}

/// Every chunk that `chunks_after1` lists begins with `w1`, and there is one.
pub proof fn lemma_chunks_after1(lx: Lexicon, buf: Seq<char>, p: int, w1: Word)
    ensures
        chunks_after1(lx, buf, p, w1).len() > 0,
        forall|i: int|
            0 <= i < chunks_after1(lx, buf, p, w1).len() ==> {
                let c = #[trigger] chunks_after1(lx, buf, p, w1)[i];
                c.len() >= 1 && c[0] == w1
            },
{
    let ws2 = match_words(lx, buf, p + w1.len);
    lemma_chunks_after1_upto(lx, buf, p, w1, ws2, ws2.len() as int);
}

proof fn lemma_chunks_upto(lx: Lexicon, buf: Seq<char>, p: int, ws1: Seq<Word>, n: int)
    requires
        n <= ws1.len(),
    ensures
        forall|i: int|
            0 <= i < chunks_upto(lx, buf, p, ws1, n).len() ==> {
                let c = #[trigger] chunks_upto(lx, buf, p, ws1, n)[i];
                c.len() >= 1 && exists|j: int| 0 <= j < n && c[0] == ws1[j]
            },
    decreases n,
{
    if n > 0 {
        lemma_chunks_upto(lx, buf, p, ws1, n - 1);
        lemma_chunks_after1(lx, buf, p, ws1[n - 1]);
        let a = chunks_upto(lx, buf, p, ws1, n - 1);
        let b = chunks_after1(lx, buf, p, ws1[n - 1]);
        assert forall|i: int| 0 <= i < (a + b).len() implies {
            let c = #[trigger] (a + b)[i];
            c.len() >= 1 && exists|j: int| 0 <= j < n && c[0] == ws1[j]
        } by {
            if i >= a.len() {
                assert((a + b)[i] == b[i - a.len()]);
                assert((a + b)[i][0] == ws1[n - 1]);
            } else {
                assert((a + b)[i] == a[i]);
                let j = choose|j: int| 0 <= j < n - 1 && a[i][0] == ws1[j];
                assert((a + b)[i][0] == ws1[j]);
            }
        }
    }
}

/// Every chunk at `p` begins with a word that matches at `p`.
pub proof fn lemma_chunks_at(lx: Lexicon, buf: Seq<char>, p: int)
    ensures
        forall|i: int|
            0 <= i < chunks_at(lx, buf, p).len() ==> {
                let c = #[trigger] chunks_at(lx, buf, p)[i];
                c.len() >= 1 && match_words(lx, buf, p).contains(c[0])
            },
{
    let ws1 = match_words(lx, buf, p);
    lemma_chunks_upto(lx, buf, p, ws1, ws1.len() as int);
    assert forall|i: int| 0 <= i < chunks_at(lx, buf, p).len() implies {
        let c = #[trigger] chunks_at(lx, buf, p)[i];
        c.len() >= 1 && ws1.contains(c[0])
    } by {
        let c = chunks_at(lx, buf, p)[i];
        let j = choose|j: int| 0 <= j < ws1.len() && c[0] == ws1[j];
    }
}

/// The length of the Chinese word emitted at `p`, or 0 where none is.
/// Simple mode takes the longest dictionary word there; the other mode takes
/// the first word of the chunk that the four rules select.
pub open spec fn chinese_step(lx: Lexicon, buf: Seq<char>, p: int, simple: bool) -> nat {
    if simple {
        let ws = match_words(lx, buf, p);
        if ws.len() == 0 {
            0
        } else {
            ws.last().len as nat
        }
    } else {
        let cs = chunks_at(lx, buf, p);
        if cs.len() == 0 {
            0
        } else {
            winner(cs)[0].len as nat
        }
    }
}

/// The word emitted at `p` lies inside the buffer.
pub proof fn lemma_chinese_step(lx: Lexicon, buf: Seq<char>, p: int, simple: bool)
    requires
        0 <= p,
    ensures
        p + chinese_step(lx, buf, p, simple) <= buf.len() || chinese_step(lx, buf, p, simple) == 0,
        chinese_step(lx, buf, p, simple) <= chinese_run(buf, p, lx.max_len as nat),
        forall|j: int|
            0 <= j < chinese_step(lx, buf, p, simple) ==> spec_is_chinese(#[trigger] buf[p + j]),
        chinese_step(lx, buf, p, simple) > 0 ==> lx.words.contains_key(
            buf.subrange(p, p + chinese_step(lx, buf, p, simple)),
        ),
{
    lemma_chinese_run_bound(buf, p, lx.max_len as nat);
    lemma_match_words(lx, buf, p);
    let ws = match_words(lx, buf, p);
    if simple {
        if ws.len() > 0 {
            assert(ws.last() == ws[ws.len() - 1]);
        }
    } else {
        let cs = chunks_at(lx, buf, p);
        if cs.len() > 0 {
            lemma_winner_member(cs);
            lemma_chunks_at(lx, buf, p);
            let i = choose|i: int| 0 <= i < cs.len() && cs[i] == winner(cs);
            assert(ws.contains(cs[i][0]));
            let j = choose|j: int| 0 <= j < ws.len() && ws[j] == cs[i][0];
        }
    }
}

pub proof fn lemma_alnum_run_bound(buf: Seq<char>, p: int)
    requires
        0 <= p,
    ensures
        p + alnum_run(buf, p) <= buf.len() || alnum_run(buf, p) == 0,
        forall|j: int| 0 <= j < alnum_run(buf, p) ==> spec_is_alnum(#[trigger] buf[p + j]),
    decreases buf.len() - p,
{
    if alnum_run(buf, p) > 0 {
        lemma_alnum_run_bound(buf, p + 1);
        assert forall|j: int| 0 <= j < alnum_run(buf, p) implies spec_is_alnum(
            #[trigger] buf[p + j],
        ) by {
            if j > 0 {
                assert(buf[(p + 1) + (j - 1)] == buf[p + j]);
            }
        }
    }
}

/// The length of the run of ASCII letters and digits that begins at `p`.
pub open spec fn alnum_run(buf: Seq<char>, p: int) -> nat
    decreases buf.len() - p,
{
    if p < 0 || p >= buf.len() || !spec_is_alnum(buf[p]) {
        0
    } else {
        1 + alnum_run(buf, p + 1)
    }
}

/// The tokens of `buf[p..]`: characters that are neither Chinese nor ASCII
/// letters or digits are dropped, each maximal ASCII run is one token, and at
/// a Chinese character the word chosen there is a token; where no word
/// begins there the character is dropped.
pub open spec fn segment(lx: Lexicon, buf: Seq<char>, p: int, simple: bool) -> Seq<Seq<char>>
    decreases buf.len() - p,
{
    if p < 0 || p >= buf.len() {
        Seq::empty()
    } else if spec_is_chinese(buf[p]) {
        let l = chinese_step(lx, buf, p, simple);
        proof {
            lemma_chinese_step(lx, buf, p, simple);
        }
        if l == 0 {
            segment(lx, buf, p + 1, simple)
        } else {
            seq![buf.subrange(p, p + l)] + segment(lx, buf, p + l, simple)
        }
    } else if spec_is_alnum(buf[p]) {
        let e = p + alnum_run(buf, p);
        proof {
            lemma_alnum_run_bound(buf, p);
        }
        seq![buf.subrange(p, e)] + segment(lx, buf, e, simple)
    } else {
        segment(lx, buf, p + 1, simple)
    }
}

pub open spec fn token_views(ts: Seq<String>) -> Seq<Seq<char>> {
    ts.map_values(|t: String| t@)
}

/// The tokens of a text.
pub open spec fn tokens_of(lx: Lexicon, text: Seq<char>, simple: bool) -> Seq<Seq<char>> {
    segment(lx, text, 0, simple)
}

pub proof fn lemma_alnum_run(buf: Seq<char>, p: int, k: nat)
    requires
        0 <= p,
        p + k <= buf.len(),
        forall|j: int| 0 <= j < k ==> spec_is_alnum(#[trigger] buf[p + j]),
        p + k == buf.len() || !spec_is_alnum(buf[p + k]),
    ensures
        alnum_run(buf, p) == k,
    decreases k,
{
    if k > 0 {
        assert(spec_is_alnum(buf[p + 0]));
        assert forall|j: int| 0 <= j < k - 1 implies spec_is_alnum(#[trigger] buf[(p + 1) + j]) by {
            assert(spec_is_alnum(buf[p + (j + 1)]));
        }
        lemma_alnum_run(buf, p + 1, (k - 1) as nat);
    }
}

/// The code points `buf[start..end]` as a string.
///
/// Relies on `FromIterator<char>` for `String`: the characters in order.
#[verifier::external_body]
fn string_of(buf: &Vec<char>, start: usize, end: usize) -> (r: String)
    requires
        start <= end <= buf.len(),
    ensures
        r@ == buf@.subrange(start as int, end as int),
{
    buf[start..end].iter().collect()
}

/// The code points of a text.
pub fn chars_of(text: &str) -> (v: Vec<char>)
    ensures
        v@ == text@,
{
    let mut v: Vec<char> = Vec::new();
    for c in it: text.chars()
        invariant
            v@ == it.seq().take(it.index() as int),
    {
        v.push(c);
    }
    v
}

/// The first index at or after `p` that holds an ASCII letter or digit or a
/// Chinese character, or the length where there is none.
pub open spec fn skip_to(buf: Seq<char>, p: int) -> int
    decreases buf.len() - p,
{
    if p < 0 || p >= buf.len() || spec_is_alnum(buf[p]) || spec_is_chinese(buf[p]) {
        p
    } else {
        skip_to(buf, p + 1)
    }
}

pub proof fn lemma_skip_to(buf: Seq<char>, p: int)
    requires
        0 <= p <= buf.len(),
    ensures
        p <= skip_to(buf, p) <= buf.len(),
        forall|j: int|
            p <= j < skip_to(buf, p) ==> !spec_is_alnum(#[trigger] buf[j]) && !spec_is_chinese(
                buf[j],
            ),
        skip_to(buf, p) < buf.len() ==> spec_is_alnum(buf[skip_to(buf, p)]) || spec_is_chinese(
            buf[skip_to(buf, p)],
        ),
    decreases buf.len() - p,
{
    if p < buf.len() && !spec_is_alnum(buf[p]) && !spec_is_chinese(buf[p]) {
        lemma_skip_to(buf, p + 1);
    }
}

/// Skipping what is neither Chinese nor ASCII alphanumeric changes no token.
pub proof fn lemma_segment_skip(lx: Lexicon, buf: Seq<char>, p: int, simple: bool)
    requires
        0 <= p <= buf.len(),
    ensures
        segment(lx, buf, p, simple) == segment(lx, buf, skip_to(buf, p), simple),
    decreases buf.len() - p,
{
    if p < buf.len() && !spec_is_alnum(buf[p]) && !spec_is_chinese(buf[p]) {
        lemma_segment_skip(lx, buf, p + 1, simple);
    }
}

/// One step of the driver at `p`: the token it yields (empty where it yields
/// none) and where it leaves the cursor. At a Chinese character it takes the
/// word chosen there, or drops the character; elsewhere it skips to the next
/// ASCII run, takes it, and skips again after it.
pub open spec fn token_step(lx: Lexicon, buf: Seq<char>, p: int, simple: bool) -> (Seq<char>, int) {
    if 0 <= p < buf.len() && spec_is_chinese(buf[p]) {
        let l = chinese_step(lx, buf, p, simple);
        if l > 0 {
            (buf.subrange(p, p + l), p + l)
        } else {
            (Seq::empty(), p + 1)
        }
    } else {
        let s = skip_to(buf, p);
        let e = s + alnum_run(buf, s);
        (buf.subrange(s, e), skip_to(buf, e))
    }
}

/// The step advances, stays inside the buffer, and yields a token that lies
/// between the old and the new cursor.
pub proof fn lemma_token_step(lx: Lexicon, buf: Seq<char>, p: int, simple: bool)
    requires
        0 <= p < buf.len(),
    ensures
        ({
            let (t, q) = token_step(lx, buf, p, simple);
            &&& p < q <= buf.len()
            &&& segment(lx, buf, p, simple) == (if t.len() > 0 {
                seq![t]
            } else {
                Seq::empty()
            }) + segment(lx, buf, q, simple)
            &&& exists|s: int| p <= s && s + t.len() <= q && #[trigger] buf.subrange(s, s + t.len()) == t
        }),
{
    let (t, q) = token_step(lx, buf, p, simple);
    if spec_is_chinese(buf[p]) {
        let l = chinese_step(lx, buf, p, simple);
        lemma_chinese_step(lx, buf, p, simple);
        if l > 0 {
            assert(buf.subrange(p, p + t.len()) == t);
        } else {
            assert(Seq::<Seq<char>>::empty() + segment(lx, buf, q, simple) =~= segment(lx, buf, q, simple));
            assert(buf.subrange(p, p + 0) =~= t);
        }
    } else {
        let s = skip_to(buf, p);
        lemma_skip_to(buf, p);
        lemma_segment_skip(lx, buf, p, simple);
        lemma_alnum_run_bound(buf, s);
        let e = s + alnum_run(buf, s);
        lemma_skip_to(buf, e);
        lemma_segment_skip(lx, buf, e, simple);
        assert(#[trigger] buf.subrange(s, s + t.len()) == t);
        if s < buf.len() && spec_is_alnum(buf[s]) {
            assert(alnum_run(buf, s) == 1 + alnum_run(buf, s + 1));
            assert(segment(lx, buf, s, simple) == seq![t] + segment(lx, buf, e, simple));
        } else {
            assert(e == s);
            assert(t.len() == 0);
            assert(skip_to(buf, s) == s);
            assert(Seq::<Seq<char>>::empty() + segment(lx, buf, q, simple) =~= segment(lx, buf, q, simple));
        }
    }
}

/// The next token from `p` on and where the cursor stands after it; `None`
/// and the end of the buffer where no token is left.
pub open spec fn next_token(lx: Lexicon, buf: Seq<char>, p: int, simple: bool) -> (Option<
    Seq<char>,
>, int)
    decreases buf.len() - p,
{
    if p < 0 || p >= buf.len() {
        (None, p)
    } else {
        let st = token_step(lx, buf, p, simple);
        proof {
            lemma_token_step(lx, buf, p, simple);
        }
        if st.0.len() > 0 {
            (Some(st.0), st.1)
        } else {
            next_token(lx, buf, st.1, simple)
        }
    }
}

/// The driver makes progress: each token it returns moves the cursor strictly
/// forward, past the token, and where none is left the cursor is at the end.
pub proof fn next_token_progress(lx: Lexicon, buf: Seq<char>, p: int, simple: bool)
    requires
        0 <= p <= buf.len(),
    ensures
        ({
            let (r, q) = next_token(lx, buf, p, simple);
            &&& p <= q <= buf.len()
            &&& match r {
                Some(t) => {
                    &&& p < q
                    &&& t.len() > 0
                    &&& segment(lx, buf, p, simple) == seq![t] + segment(lx, buf, q, simple)
                    &&& exists|s: int|
                        p <= s && s + t.len() <= q && #[trigger] buf.subrange(s, s + t.len()) == t
                },
                None => {
                    &&& q == buf.len()
                    &&& segment(lx, buf, p, simple) == Seq::<Seq<char>>::empty()
                },
            }
        }),
    decreases buf.len() - p,
{
    if p < buf.len() {
        lemma_token_step(lx, buf, p, simple);
        let (t, q) = token_step(lx, buf, p, simple);
        if t.len() == 0 {
            next_token_progress(lx, buf, q, simple);
            assert(next_token(lx, buf, p, simple) == next_token(lx, buf, q, simple));
            assert(segment(lx, buf, p, simple) == segment(lx, buf, q, simple)) by {
                assert(Seq::<Seq<char>>::empty() + segment(lx, buf, q, simple) =~= segment(
                    lx,
                    buf,
                    q,
                    simple,
                ));
            }
            let (r, q2) = next_token(lx, buf, q, simple);
            if let Some(t2) = r {
                let s = choose|s: int|
                    q <= s && s + t2.len() <= q2 && #[trigger] buf.subrange(s, s + t2.len()) == t2;
                assert(p <= s && s + t2.len() <= q2 && buf.subrange(s, s + t2.len()) == t2);
            }
        } else {
            assert(next_token(lx, buf, p, simple) == (Some(t), q));
            let s = choose|s: int|
                p <= s && s + t.len() <= q && #[trigger] buf.subrange(s, s + t.len()) == t;
            assert(p <= s && s + t.len() <= q && buf.subrange(s, s + t.len()) == t);
        }
    }
}

/// A Chinese character at which no word begins is dropped: the driver goes on
/// as from the next position.
pub proof fn unknown_character_is_skipped(lx: Lexicon, buf: Seq<char>, p: int, simple: bool)
    requires
        0 <= p < buf.len(),
        spec_is_chinese(buf[p]),
        match_words(lx, buf, p).len() == 0,
    ensures
        next_token(lx, buf, p, simple) == next_token(lx, buf, p + 1, simple),
        segment(lx, buf, p, simple) == segment(lx, buf, p + 1, simple),
{
    assert(chunks_at(lx, buf, p).len() == 0);
    assert(chinese_step(lx, buf, p, simple) == 0);
}

/// `c` ties with `best` on total length, average length and frequencies,
/// and, where `other`, has a strictly larger variance of word lengths.
pub open spec fn tied_but_variance(c: Seq<Word>, best: Seq<Word>, other: bool) -> bool {
    &&& rule_key(1, c) == rule_key(1, best)
    &&& rule_key(2, c) == rule_key(2, best)
    &&& rule_key(4, c) == rule_key(4, best)
    &&& other ==> variance_x36(best) < variance_x36(c)
}

pub struct MMSeg {
    pub(crate) dict: Dict,
    pub(crate) max_word_len: u32,
}

impl View for MMSeg {
    type V = Lexicon;

    closed spec fn view(&self) -> Lexicon {
        Lexicon { words: self.dict@, max_len: self.max_word_len }
    }
}

impl MMSeg {
    /// The store is well formed and no word is longer than `max_len`.
    pub closed spec fn wf(&self) -> bool {
        &&& self.dict.wf()
        &&& forall|w: Seq<char>| #[trigger]
            self.dict@.contains_key(w) ==> w.len() <= self.max_word_len
    }

    /// A segmenter with no words.
    pub fn new() -> (s: MMSeg)
        ensures
            s.wf(),
            s@.words == Map::<Seq<char>, u32>::empty(),
            s@.max_len == 0,
    {
        MMSeg { dict: Dict::new(), max_word_len: 0 }
    }

    /// Adds `w` with frequency `f`, replacing an earlier frequency of `w`,
    /// and lengthens the longest length to cover `w`.
    pub(crate) fn add_word(&mut self, w: Vec<char>, f: u32)
        requires
            old(self).wf(),
            1 <= w@.len() <= u32::MAX,
        ensures
            final(self).wf(),
            final(self)@ == (Lexicon {
                words: old(self)@.words.insert(w@, f),
                max_len: if w@.len() > old(self)@.max_len {
                    w@.len() as u32
                } else {
                    old(self)@.max_len
                },
            }),
    {
        if w.len() as u32 > self.max_word_len {
            self.max_word_len = w.len() as u32;
        }
        self.dict.insert(w, f);
    }

    fn get_match_chinese_words(&self, buf: &Vec<char>, p: usize) -> (ws: Vec<Word>)
        requires
            self.wf(),
            p <= buf.len(),
        ensures
            ws@ == match_words(self@, buf@, p as int),
    {
        let mut ws: Vec<Word> = Vec::new();
        let mut k: u32 = 0;
        while k < self.max_word_len && p + (k as usize) < buf.len() && is_chinese_char(
            buf[p + k as usize],
        )
            invariant
                self.wf(),
                p <= buf.len(),
                k <= self.max_word_len,
                p + k <= buf.len(),
                forall|j: int| 0 <= j < k ==> spec_is_chinese(#[trigger] buf@[p + j]),
                ws@ == words_upto(self@, buf@, p as int, k as nat),
            decreases self.max_word_len - k,
        {
            k = k + 1;
            match self.dict.lookup(buf, p, p + k as usize) {
                Some(f) => {
                    ws.push(Word { len: k, freq: f });
                },
                None => {},
            }
        }
        proof {
            lemma_chinese_run(buf@, p as int, self.max_word_len as nat, k as nat);
            assert(ws@ == match_words(self@, buf@, p as int));
        }
        ws
    }

    fn create_chunks(&self, buf: &Vec<char>, p: usize) -> (cs: Vec<Chunk>)
        requires
            self.wf(),
            p <= buf.len(),
        ensures
            chunk_views(cs@) == chunks_at(self@, buf@, p as int),
            forall|i: int|
                0 <= i < cs.len() ==> chunk_ok(#[trigger] cs@[i]@) && p + cs@[i]@[0].len
                    <= buf.len(),
    {
        let ghost lx = self@;
        let ghost b = buf@;
        let ws1 = self.get_match_chinese_words(buf, p);
        proof {
            lemma_match_words(lx, b, p as int);
        }
        let mut cs: Vec<Chunk> = Vec::new();
        for i in 0..ws1.len()
            invariant
                self.wf(),
                lx == self@,
                b == buf@,
                p <= buf.len(),
                ws1@ == match_words(lx, b, p as int),
                forall|x: int|
                    0 <= x < ws1.len() ==> 1 <= (#[trigger] ws1@[x]).len && p + ws1@[x].len
                        <= buf.len(),
                chunk_views(cs@) == chunks_upto(lx, b, p as int, ws1@, i as int),
                forall|x: int|
                    0 <= x < cs.len() ==> chunk_ok(#[trigger] cs@[x]@) && p + cs@[x]@[0].len
                        <= buf.len(),
        {
            let w1 = ws1[i];
            let q = p + w1.len as usize;
            let ws2 = self.get_match_chinese_words(buf, q);
            proof {
                lemma_match_words(lx, b, q as int);
            }
            let ghost base = chunk_views(cs@);
            if ws2.len() == 0 {
                let ghost before = cs@;
                cs.push(Chunk::new1(w1));
                assert(chunk_views(cs@) =~= chunk_views(before).push(seq![w1]));
                assert(chunk_views(cs@) =~= base + chunks_after1(lx, b, p as int, w1));
            } else {
                for j in 0..ws2.len()
                    invariant
                        self.wf(),
                        lx == self@,
                        b == buf@,
                        q == p + w1.len,
                        q <= buf.len(),
                        1 <= w1.len,
                        ws2@ == match_words(lx, b, q as int),
                        forall|x: int|
                            0 <= x < ws2.len() ==> 1 <= (#[trigger] ws2@[x]).len && q + ws2@[x].len
                                <= buf.len(),
                        chunk_views(cs@) == base + chunks_after1_upto(
                            lx,
                            b,
                            p as int,
                            w1,
                            ws2@,
                            j as int,
                        ),
                        forall|x: int|
                            0 <= x < cs.len() ==> chunk_ok(#[trigger] cs@[x]@) && p
                                + cs@[x]@[0].len <= buf.len(),
                {
                    let w2 = ws2[j];
                    let r = q + w2.len as usize;
                    let ws3 = self.get_match_chinese_words(buf, r);
                    let ghost mid = chunk_views(cs@);
                    if ws3.len() == 0 {
                        let ghost before = cs@;
                        cs.push(Chunk::new2(w1, w2));
                        assert(chunk_views(cs@) =~= chunk_views(before).push(seq![w1, w2]));
                        assert(chunk_views(cs@) =~= mid + chunks_after2(lx, b, p as int, w1, w2));
                    } else {
                        proof {
                            lemma_match_words(lx, b, r as int);
                        }
                        for k in 0..ws3.len()
                            invariant
                                ws3@ == match_words(lx, b, r as int),
                                ws3.len() > 0,
                                r == p + w1.len + w2.len,
                                1 <= w1.len,
                                1 <= w2.len,
                                p + w1.len <= buf.len(),
                                forall|x: int| 0 <= x < ws3.len() ==> 1 <= (#[trigger] ws3@[x]).len,
                                chunk_views(cs@) == mid + ws3@.take(k as int).map_values(
                                    |w3: Word| seq![w1, w2, w3],
                                ),
                                forall|x: int|
                                    0 <= x < cs.len() ==> chunk_ok(#[trigger] cs@[x]@) && p
                                        + cs@[x]@[0].len <= buf.len(),
                        {
                            let w3 = ws3[k];
                            let ghost before = cs@;
                            cs.push(Chunk::new3(w1, w2, w3));
                            assert(chunk_views(cs@) =~= chunk_views(before).push(seq![w1, w2, w3]));
                            assert(ws3@.take(k + 1).map_values(|w3: Word| seq![w1, w2, w3])
                                =~= ws3@.take(k as int).map_values(|w3: Word| seq![w1, w2, w3]).push(
                                seq![w1, w2, w3]));
                            assert(chunk_views(cs@) =~= mid + ws3@.take(k + 1).map_values(
                                |w3: Word| seq![w1, w2, w3],
                            ));
                        }
                        assert(ws3@.take(ws3.len() as int) =~= ws3@);
                        assert(chunk_views(cs@) =~= mid + chunks_after2(lx, b, p as int, w1, w2));
                    }
                    assert(chunk_views(cs@) =~= base + chunks_after1_upto(
                        lx,
                        b,
                        p as int,
                        w1,
                        ws2@,
                        j + 1,
                    ));
                }
                assert(chunk_views(cs@) =~= base + chunks_after1(lx, b, p as int, w1));
            }
            assert(chunk_views(cs@) =~= chunks_upto(lx, b, p as int, ws1@, i + 1));
        }
        cs
    }

    fn create_simple_chunks(&self, buf: &Vec<char>, p: usize) -> (cs: Vec<Chunk>)
        requires
            self.wf(),
            p <= buf.len(),
        ensures
            chunk_views(cs@) == match_words(self@, buf@, p as int).map_values(|w: Word| seq![w]),
    {
        let ws = self.get_match_chinese_words(buf, p);
        let mut cs: Vec<Chunk> = Vec::new();
        for i in 0..ws.len()
            invariant
                chunk_views(cs@) == ws@.take(i as int).map_values(|w: Word| seq![w]),
        {
            let ghost before = cs@;
            cs.push(Chunk::new1(ws[i]));
            assert(chunk_views(cs@) =~= chunk_views(before).push(seq![ws@[i as int]]));
            assert(ws@.take(i + 1).map_values(|w: Word| seq![w]) =~= ws@.take(i as int).map_values(
                |w: Word| seq![w],
            ).push(seq![ws@[i as int]]));
        }
        assert(ws@.take(ws.len() as int) =~= ws@);
        cs
    }

    /// Emits the longest dictionary word at `pos`, or drops the character
    /// there where none begins.
    fn get_chinese_words_simple(&self, buf: &Vec<char>, pos: &mut usize) -> (t: String)
        requires
            self.wf(),
            *old(pos) < buf.len(),
            spec_is_chinese(buf@[*old(pos) as int]),
        ensures
            (t@, *final(pos) as int) == token_step(self@, buf@, *old(pos) as int, true),
            match_words(self@, buf@, *old(pos) as int).len() > 0 ==> {
                let l = match_words(self@, buf@, *old(pos) as int).last().len;
                &&& *final(pos) == *old(pos) + l
                &&& t@ == buf@.subrange(*old(pos) as int, *final(pos) as int)
                &&& t@.len() > 0
                &&& self@.words.contains_key(t@)
            },
            match_words(self@, buf@, *old(pos) as int).len() == 0 ==> t@.len() == 0 && *final(pos)
                == *old(pos) + 1,
            *old(pos) < *final(pos) <= buf.len(),
            segment(self@, buf@, *old(pos) as int, true) == (if t@.len() > 0 {
                seq![t@]
            } else {
                Seq::empty()
            }) + segment(self@, buf@, *final(pos) as int, true),
    {
        let p = *pos;
        let ghost ws = match_words(self@, buf@, p as int);
        proof {
            lemma_match_words(self@, buf@, p as int);
        }
        let chunks = self.create_simple_chunks(buf, p);
        let ghost v = chunk_views(chunks@);
        assert(v.len() == chunks.len() && v.len() == ws.len());
        // the last chunk of largest total length: the chunk of the longest word
        let mut best: usize = 0;
        let mut best_len: i128 = 0;
        let mut i: usize = 0;
        while i < chunks.len()
            invariant
                v == chunk_views(chunks@),
                v == ws.map_values(|w: Word| seq![w]),
                forall|i: int, j: int| 0 <= i < j < ws.len() ==> (#[trigger] ws[i]).len < (#[trigger] ws[j]).len,
                forall|x: int| 0 <= x < ws.len() ==> 1 <= (#[trigger] ws[x]).len,
                i <= chunks.len(),
                ws.len() == chunks.len(),
                i > 0 ==> best == i - 1 && best_len == ws[i - 1].len,
            decreases chunks.len() - i,
        {
            assert(v[i as int] == seq![ws[i as int]]);
            assert(chunks@[i as int]@ == v[i as int]);
            assert(total_len(seq![ws[i as int]]) == ws[i as int].len) by {
                reveal_with_fuel(total_len, 2);
                assert(seq![ws[i as int]].drop_last() =~= Seq::<Word>::empty());
            }
            let k = chunks[i].key(1);
            if i == 0 || k >= best_len {
                best = i;
                best_len = k;
            }
            i = i + 1;
        }
        proof {
            lemma_chinese_step(self@, buf@, p as int, true);
        }
        if chunks.len() == 0 {
            *pos = p + 1;
            return String::new();
        }
        assert(chunks@[best as int]@ == v[best as int]);
        assert(chunks@[best as int]@ == seq![ws.last()]);
        let w = chunks[best].first_word();
        let end = p + w.len as usize;
        let t = string_of(buf, p, end);
        *pos = end;
        t
    }

    /// Emits the first word of the chunk that the four rules select at `pos`,
    /// or drops the character there where no word begins.
    fn get_chinese_words_complex(&self, buf: &Vec<char>, pos: &mut usize) -> (t: String)
        requires
            self.wf(),
            *old(pos) < buf.len(),
            spec_is_chinese(buf@[*old(pos) as int]),
        ensures
            (t@, *final(pos) as int) == token_step(self@, buf@, *old(pos) as int, false),
            chunks_at(self@, buf@, *old(pos) as int).len() > 0 ==> {
                let w = winner(chunks_at(self@, buf@, *old(pos) as int))[0];
                &&& *final(pos) == *old(pos) + w.len
                &&& t@ == buf@.subrange(*old(pos) as int, *final(pos) as int)
                &&& t@.len() > 0
                &&& self@.words.contains_key(t@)
                &&& chinese_step(self@, buf@, *old(pos) as int, true) <= total_len(
                    winner(chunks_at(self@, buf@, *old(pos) as int)),
                )
            },
            chunks_at(self@, buf@, *old(pos) as int).len() == 0 ==> t@.len() == 0 && *final(pos)
                == *old(pos) + 1,
            forall|i: int|
                #![trigger chunks_at(self@, buf@, *old(pos) as int)[i]]
                0 <= i < chunks_at(self@, buf@, *old(pos) as int).len() && (forall|k: int|
                    0 <= k < chunks_at(self@, buf@, *old(pos) as int).len() && k != i
                        ==> total_len(#[trigger] chunks_at(self@, buf@, *old(pos) as int)[k])
                        < total_len(chunks_at(self@, buf@, *old(pos) as int)[i]))
                    ==> *final(pos) == *old(pos) + chunks_at(self@, buf@, *old(pos) as int)[i][0].len,
            forall|i: int|
                #![trigger chunks_at(self@, buf@, *old(pos) as int)[i]]
                0 <= i < chunks_at(self@, buf@, *old(pos) as int).len() && (forall|k: int|
                    0 <= k < chunks_at(self@, buf@, *old(pos) as int).len() ==> tied_but_variance(
                        #[trigger] chunks_at(self@, buf@, *old(pos) as int)[k],
                        chunks_at(self@, buf@, *old(pos) as int)[i],
                        k != i,
                    )) ==> *final(pos) == *old(pos) + chunks_at(self@, buf@, *old(pos) as int)[i][0].len,
            *old(pos) < *final(pos) <= buf.len(),
            segment(self@, buf@, *old(pos) as int, false) == (if t@.len() > 0 {
                seq![t@]
            } else {
                Seq::empty()
            }) + segment(self@, buf@, *final(pos) as int, false),
    {
        let p = *pos;
        let chunks = self.create_chunks(buf, p);
        proof {
            let ws = match_words(self@, buf@, p as int);
            lemma_chinese_step(self@, buf@, p as int, false);
            let cs = chunks_at(self@, buf@, p as int);
            assert forall|i: int|
                #![trigger cs[i]]
                0 <= i < cs.len() && (forall|k: int|
                    0 <= k < cs.len() && k != i ==> total_len(#[trigger] cs[k]) < total_len(cs[i]))
                    implies winner(cs) == cs[i] by {
                crate::laws::longest_chunk_wins(cs, i);
            }
            assert forall|i: int|
                #![trigger cs[i]]
                0 <= i < cs.len() && (forall|k: int|
                    0 <= k < cs.len() ==> tied_but_variance(#[trigger] cs[k], cs[i], k != i))
                    implies winner(cs) == cs[i] by {
                crate::laws::smallest_variance_wins(cs, i);
            }
            if ws.len() > 0 {
                crate::laws::simple_word_within_winning_chunk(self@, buf@, p as int);
            } else {
                assert(chunks_at(self@, buf@, p as int).len() == 0);
            }
        }
        if chunks.len() == 0 {
            *pos = p + 1;
            return String::new();
        }
        let w = select_first_word(&chunks);
        proof {
            lemma_winner_member(chunk_views(chunks@));
            let v = chunk_views(chunks@);
            let i = choose|i: int| 0 <= i < v.len() && v[i] == winner(v);
            assert(chunks@[i]@ == v[i]);
        }
        let end = p + w.len as usize;
        let t = string_of(buf, p, end);
        *pos = end;
        t
    }

    /// Skips what is neither Chinese nor ASCII alphanumeric, takes the run of
    /// ASCII letters and digits that follows, and skips again after it.
    fn get_ascii_words(&self, buf: &Vec<char>, pos: &mut usize, simple: Ghost<bool>) -> (t: String)
        requires
            *old(pos) <= buf.len(),
        ensures
            ({
                let s = skip_to(buf@, *old(pos) as int);
                let e = s + alnum_run(buf@, s);
                &&& t@ == buf@.subrange(s, e)
                &&& *final(pos) == skip_to(buf@, e)
            }),
            *final(pos) <= buf.len(),
            *old(pos) < buf.len() && !spec_is_chinese(buf@[*old(pos) as int]) ==> *old(pos)
                < *final(pos),
            t@.len() == 0 ==> *final(pos) == buf.len() || spec_is_chinese(buf@[*final(pos) as int]),
            segment(self@, buf@, *old(pos) as int, simple@) == (if t@.len() > 0 {
                seq![t@]
            } else {
                Seq::empty()
            }) + segment(self@, buf@, *final(pos) as int, simple@),
    {
        let ghost lx = self@;
        let ghost b = buf@;
        let ghost first = *pos as int;
        while *pos < buf.len() && !is_ascii_alnum(buf[*pos]) && !is_chinese_char(buf[*pos])
            invariant
                first <= *pos <= buf.len(),
                b == buf@,
                lx == self@,
                skip_to(b, first) == skip_to(b, *pos as int),
                segment(lx, b, first, simple@) == segment(lx, b, *pos as int, simple@),
            decreases buf.len() - *pos,
        {
            *pos = *pos + 1;
        }
        let start = *pos;
        assert(skip_to(b, start as int) == start);
        while *pos < buf.len() && is_ascii_alnum(buf[*pos])
            invariant
                start <= *pos <= buf.len(),
                forall|j: int| start <= j < *pos ==> spec_is_alnum(#[trigger] buf@[j]),
            decreases buf.len() - *pos,
        {
            *pos = *pos + 1;
        }
        let end = *pos;
        proof {
            assert forall|j: int| 0 <= j < end - start implies spec_is_alnum(
                #[trigger] b[start + j],
            ) by {
                assert(spec_is_alnum(buf@[start + j]));
            }
            lemma_alnum_run(b, start as int, (end - start) as nat);
        }
        while *pos < buf.len() && !is_ascii_alnum(buf[*pos]) && !is_chinese_char(buf[*pos])
            invariant
                end <= *pos <= buf.len(),
                b == buf@,
                lx == self@,
                skip_to(b, end as int) == skip_to(b, *pos as int),
                segment(lx, b, end as int, simple@) == segment(lx, b, *pos as int, simple@),
            decreases buf.len() - *pos,
        {
            *pos = *pos + 1;
        }
        assert(skip_to(b, *pos as int) == *pos);
        let t = string_of(buf, start, end);
        if start < end {
            assert(segment(lx, b, start as int, simple@) == seq![t@] + segment(lx, b, end as int, simple@));
        } else {
            assert(t@ =~= Seq::<char>::empty());
            assert(segment(lx, b, first, simple@) =~= Seq::<Seq<char>>::empty() + segment(lx, b, *pos as int, simple@));
        }
        t
    }

    /// The next token from `pos` on, if any is left; `pos` moves past it.
    fn get_next_token(&self, buf: &Vec<char>, pos: &mut usize, simple: bool) -> (r: Option<String>)
        requires
            self.wf(),
            *old(pos) <= buf.len(),
        ensures
            next_token(self@, buf@, *old(pos) as int, simple) == (match r {
                Some(t) => Some(t@),
                None => None::<Seq<char>>,
            }, *final(pos) as int),
            *final(pos) <= buf.len(),
            match r {
                Some(t) => {
                    &&& *old(pos) < *final(pos)
                    &&& t@.len() > 0
                    &&& segment(self@, buf@, *old(pos) as int, simple) == seq![t@] + segment(
                        self@,
                        buf@,
                        *final(pos) as int,
                        simple,
                    )
                    &&& exists|s: int|
                        *old(pos) <= s && s + t@.len() <= *final(pos) && #[trigger] buf@.subrange(
                            s,
                            s + t@.len(),
                        ) == t@
                },
                None => {
                    &&& *final(pos) == buf.len()
                    &&& segment(self@, buf@, *old(pos) as int, simple) == Seq::<Seq<char>>::empty()
                },
            },
    {
        let ghost first = *pos as int;
        while *pos < buf.len()
            invariant
                self.wf(),
                first == *old(pos),
                first <= *pos <= buf.len(),
                next_token(self@, buf@, first, simple) == next_token(self@, buf@, *pos as int, simple),
            decreases buf.len() - *pos,
        {
            let ghost before = *pos as int;
            let c = buf[*pos];
            let token = if is_chinese_char(c) {
                if simple {
                    self.get_chinese_words_simple(buf, pos)
                } else {
                    self.get_chinese_words_complex(buf, pos)
                }
            } else {
                self.get_ascii_words(buf, pos, Ghost(simple))
            };
            assert((token@, *pos as int) == token_step(self@, buf@, before, simple));
            if !token.as_str().is_empty() {
                assert(next_token(self@, buf@, first, simple) == (Some(token@), *pos as int));
                proof {
                    next_token_progress(self@, buf@, first, simple);
                    let t = token@;
                    let s = choose|s: int|
                        first <= s && s + t.len() <= *pos && #[trigger] buf@.subrange(s, s + t.len())
                            == t;
                    assert(first <= s && s + t.len() <= *pos && buf@.subrange(s, s + t.len()) == t);
                }
                return Some(token);
            }
        }
        proof {
            next_token_progress(self@, buf@, first, simple);
        }
        None
    }

    fn cut_internal(&self, text: &str, simple: bool) -> (r: Vec<String>)
        requires
            self.wf(),
        ensures
            token_views(r@) == tokens_of(self@, text@, simple),
    {
        let buf = chars_of(text);
        let mut pos: usize = 0;
        let mut ret: Vec<String> = Vec::new();
        while pos < buf.len()
            invariant
                self.wf(),
                buf@ == text@,
                pos <= buf.len(),
                tokens_of(self@, text@, simple) == token_views(ret@) + segment(
                    self@,
                    buf@,
                    pos as int,
                    simple,
                ),
            decreases buf.len() - pos,
        {
            match self.get_next_token(&buf, &mut pos, simple) {
                Some(token) => {
                    let ghost before = ret@;
                    let ghost tv = token@;
                    ret.push(token);
                    assert(token_views(ret@) =~= token_views(before).push(tv));
                    assert(token_views(ret@) + segment(self@, buf@, pos as int, simple) =~= token_views(before) + (seq![tv] + segment(self@, buf@, pos as int, simple)));
                },
                None => {
                    assert(token_views(ret@) + segment(self@, buf@, pos as int, simple) =~= token_views(ret@));
                },
            }
        }
        assert(token_views(ret@) + segment(self@, buf@, pos as int, simple) =~= token_views(ret@));
        ret
    }

    /// Longest-match segmentation of `text`.
    pub fn cut_simple(&self, text: &str) -> (r: Vec<String>)
        requires
            self.wf(),
        ensures
            token_views(r@) == tokens_of(self@, text@, true),
    {
        self.cut_internal(text, true)
    }

    /// Segmentation of `text` by the four MMSEG rules.
    pub fn cut(&self, text: &str) -> (r: Vec<String>)
        requires
            self.wf(),
        ensures
            token_views(r@) == tokens_of(self@, text@, false),
    {
        self.cut_internal(text, false)
    }
}

} // verus!
