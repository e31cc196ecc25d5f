//! Words, three-word chunks and the ranking rules that compare them.
use arrayvec::ArrayVec;
use vstd::prelude::*;

verus! {

/// A dictionary word found in the buffer: its length in code points and its
/// frequency (zero for entries of the word dictionary).
#[derive(Clone, Copy, Debug, PartialEq, Eq, Structural)]
pub struct Word {
    pub len: u32,
    pub freq: u32,
}

#[verifier::external_type_specification]
#[verifier::external_body]
#[verifier::reject_recursive_types(T)]
pub struct ExArrayVec<T, const CAP: usize>(ArrayVec<T, CAP>);

/// The words held by an `ArrayVec` of capacity three, in order.
pub uninterp spec fn arrayvec_words(v: ArrayVec<Word, 3>) -> Seq<Word>;

/// Relies on `ArrayVec::new`: the new vector is empty.
#[verifier::external_body]
fn words_new() -> (r: ArrayVec<Word, 3>)
    ensures
        arrayvec_words(r) == Seq::<Word>::empty(),
{
    ArrayVec::new()
}

/// Relies on `ArrayVec::push`: appends at the end; it panics only when full.
#[verifier::external_body]
fn words_push(v: &mut ArrayVec<Word, 3>, w: Word)
    requires
        arrayvec_words(*old(v)).len() < 3,
    ensures
        arrayvec_words(*final(v)) == arrayvec_words(*old(v)).push(w),
{
    v.push(w)
}

/// Relies on `ArrayVec::len`: the number of elements, never above the capacity.
#[verifier::external_body]
fn words_len(v: &ArrayVec<Word, 3>) -> (r: usize)
    ensures
        r == arrayvec_words(*v).len(),
        r <= 3,
{
    v.len()
}

/// Relies on indexing through `ArrayVec`'s `Deref` to a slice of its elements.
#[verifier::external_body]
fn words_get(v: &ArrayVec<Word, 3>, i: usize) -> (r: Word)
    requires
        i < arrayvec_words(*v).len(),
    ensures
        r == arrayvec_words(*v)[i as int],
{
    v[i]
}

/// A candidate lookahead of one to three consecutive words.
pub struct Chunk {
    words: ArrayVec<Word, 3>,
}

impl View for Chunk {
    type V = Seq<Word>;

    closed spec fn view(&self) -> Seq<Word> {
        arrayvec_words(self.words)
    }
}

/// A chunk as the ranking rules expect it: one to three non-empty words.
pub open spec fn chunk_ok(c: Seq<Word>) -> bool {
    &&& 1 <= c.len() <= 3
    &&& forall|i: int| 0 <= i < c.len() ==> (#[trigger] c[i]).len >= 1
}

/// Sum of the word lengths.
pub open spec fn total_len(c: Seq<Word>) -> int
    decreases c.len(),
{
    if c.len() == 0 {
        0
    } else {
        total_len(c.drop_last()) + c.last().len
    }
}

/// Sum of the squared word lengths.
pub open spec fn square_sum(c: Seq<Word>) -> int
    decreases c.len(),
{
    if c.len() == 0 {
        0
    } else {
        square_sum(c.drop_last()) + c.last().len * c.last().len
    }
}

/// Product of the frequencies of the one-character words. Comparing these
/// products orders chunks exactly as comparing the sums of the logarithms of
/// the frequencies does, a zero frequency counting as the logarithm of zero.
pub open spec fn single_freq_product(c: Seq<Word>) -> int
    decreases c.len(),
{
    if c.len() == 0 {
        1
    } else {
        single_freq_product(c.drop_last()) * (if c.last().len == 1 {
            c.last().freq as int
        } else {
            1
        })
    }
}

/// Six times the average word length, an integer for chunks of one to three words.
pub open spec fn avg_len_x6(c: Seq<Word>) -> int {
    if c.len() == 1 {
        6 * total_len(c)
    } else if c.len() == 2 {
        3 * total_len(c)
    } else {
        2 * total_len(c)
    }
}

/// Thirty-six times the population variance of the word lengths
/// (`(n * square_sum - total_len^2) / n^2`), an integer for one to three words.
/// Ordering by variance is ordering by standard deviation.
pub open spec fn variance_x36(c: Seq<Word>) -> int {
    let t = total_len(c);
    let s = square_sum(c);
    if c.len() == 1 {
        (s - t * t) * 36
    } else if c.len() == 2 {
        (2 * s - t * t) * 9
    } else {
        (3 * s - t * t) * 4
    }
}

/// The score of rule `r` (1 to 4); a larger score is better under every rule.
/// 1: total length; 2: average length; 3: smallest variance of the lengths;
/// 4: frequencies of the one-character words.
pub open spec fn rule_key(r: int, c: Seq<Word>) -> int {
    if r == 1 {
        total_len(c)
    } else if r == 2 {
        avg_len_x6(c)
    } else if r == 3 {
        -variance_x36(c)
    } else {
        single_freq_product(c)
    }
}

/// The largest score of rule `r` over a non-empty list of chunks.
pub open spec fn max_key(cs: Seq<Seq<Word>>, r: int) -> int
    decreases cs.len(),
{
    if cs.len() <= 1 {
        if cs.len() == 1 {
            rule_key(r, cs[0])
        } else {
            0
        }
    } else {
        let m = max_key(cs.drop_last(), r);
        let k = rule_key(r, cs.last());
        if k > m {
            k
        } else {
            m
        }
    }
}

/// The chunks whose score under rule `r` is `m`, in their order.
pub open spec fn keep_key(cs: Seq<Seq<Word>>, r: int, m: int) -> Seq<Seq<Word>>
    decreases cs.len(),
{
    if cs.len() == 0 {
        cs
    } else {
        let rest = keep_key(cs.drop_last(), r, m);
        if rule_key(r, cs.last()) == m {
            rest.push(cs.last())
        } else {
            rest
        }
    }
}

/// The chunks tied for the best score under rule `r`, in their order.
pub open spec fn survivors(cs: Seq<Seq<Word>>, r: int) -> Seq<Seq<Word>> {
    keep_key(cs, r, max_key(cs, r))
}

/// The four rules applied in turn, each on what the previous one kept.
pub open spec fn cascade(cs: Seq<Seq<Word>>) -> Seq<Seq<Word>> {
    survivors(survivors(survivors(survivors(cs, 1), 2), 3), 4)
}

/// The chunk that the rules select: the first of those that survive all four.
pub open spec fn winner(cs: Seq<Seq<Word>>) -> Seq<Word> {
    cascade(cs)[0]
}

pub open spec fn chunk_views(cs: Seq<Chunk>) -> Seq<Seq<Word>> {
    cs.map_values(|c: Chunk| c@)
}

/// The chunks that a list of indices designates, in the list's order.
pub open spec fn pick(cs: Seq<Seq<Word>>, idx: Seq<usize>) -> Seq<Seq<Word>> {
    Seq::new(idx.len(), |j: int| cs[idx[j] as int])
}

pub open spec fn u32_pow(i: nat) -> int
    decreases i,
{
    if i == 0 {
        1
    } else {
        u32_pow((i - 1) as nat) * 0xFFFF_FFFF
    }
}

proof fn lemma_u32_pow_bound(i: nat)
    requires
        i <= 3,
    ensures
        1 <= u32_pow(i) <= 0xFFFF_FFFF * 0xFFFF_FFFF * 0xFFFF_FFFF,
{
    assert(u32_pow(0) == 1);
    assert(u32_pow(1) == 0xFFFF_FFFF);
    assert(u32_pow(2) == 0xFFFF_FFFF * 0xFFFF_FFFF);
    assert(u32_pow(3) == 0xFFFF_FFFF * 0xFFFF_FFFF * 0xFFFF_FFFF);
}

/// The maximum of the scores is attained and bounds every score.
pub proof fn lemma_max_key(cs: Seq<Seq<Word>>, r: int)
    requires
        cs.len() > 0,
    ensures
        exists|i: int| 0 <= i < cs.len() && rule_key(r, #[trigger] cs[i]) == max_key(cs, r),
        forall|i: int| 0 <= i < cs.len() ==> rule_key(r, #[trigger] cs[i]) <= max_key(cs, r),
    decreases cs.len(),
{
    if cs.len() > 1 {
        let d = cs.drop_last();
        lemma_max_key(d, r);
        let last = cs.len() - 1;
        assert(cs[last] == cs.last());
        let j = choose|j: int| 0 <= j < d.len() && rule_key(r, #[trigger] d[j]) == max_key(d, r);
        assert(cs[j] == d[j]);
        assert forall|i: int| 0 <= i < cs.len() implies rule_key(r, #[trigger] cs[i]) <= max_key(
            cs,
            r,
        ) by {
            if i < last {
                assert(cs[i] == d[i]);
            }
        }
        if rule_key(r, cs.last()) > max_key(d, r) {
            assert(rule_key(r, cs[last]) == max_key(cs, r));
        } else {
            assert(rule_key(r, cs[j]) == max_key(cs, r));
        }
    } else {
        assert(rule_key(r, cs[0]) == max_key(cs, r));
    }
}

/// What `keep_key` holds: exactly the chunks of score `m`, each a member of
/// the list, and one at least where some chunk has that score.
pub proof fn lemma_keep_key(cs: Seq<Seq<Word>>, r: int, m: int)
    ensures
        forall|i: int|
            0 <= i < keep_key(cs, r, m).len() ==> rule_key(r, #[trigger] keep_key(cs, r, m)[i])
                == m && cs.contains(keep_key(cs, r, m)[i]),
        (exists|i: int| 0 <= i < cs.len() && rule_key(r, #[trigger] cs[i]) == m) ==> keep_key(
            cs,
            r,
            m,
        ).len() > 0,
        keep_key(cs, r, m).len() <= cs.len(),
    decreases cs.len(),
{
    if cs.len() > 0 {
        let d = cs.drop_last();
        lemma_keep_key(d, r, m);
        let k = keep_key(cs, r, m);
        let kd = keep_key(d, r, m);
        assert forall|i: int| 0 <= i < k.len() implies rule_key(r, #[trigger] k[i]) == m
            && cs.contains(k[i]) by {
            if i < kd.len() {
                assert(k[i] == kd[i]);
                let j = choose|j: int| 0 <= j < d.len() && d[j] == kd[i];
                assert(cs[j] == d[j]);
            } else {
                assert(k[i] == cs.last());
                assert(cs[cs.len() - 1] == cs.last());
            }
        }
        if exists|i: int| 0 <= i < cs.len() && rule_key(r, #[trigger] cs[i]) == m {
            let i = choose|i: int| 0 <= i < cs.len() && rule_key(r, #[trigger] cs[i]) == m;
            if i < cs.len() - 1 {
                assert(cs[i] == d[i]);
            } else {
                assert(cs[i] == cs.last());
            }
        }
    }
}

impl Chunk {
    pub fn new1(w1: Word) -> (c: Chunk)
        ensures
            c@ == seq![w1],
    {
        let mut v = words_new();
        words_push(&mut v, w1);
        Chunk { words: v }
    }

    pub fn new2(w1: Word, w2: Word) -> (c: Chunk)
        ensures
            c@ == seq![w1, w2],
    {
        let mut v = words_new();
        words_push(&mut v, w1);
        words_push(&mut v, w2);
        Chunk { words: v }
    }

    pub fn new3(w1: Word, w2: Word, w3: Word) -> (c: Chunk)
        ensures
            c@ == seq![w1, w2, w3],
    {
        let mut v = words_new();
        words_push(&mut v, w1);
        words_push(&mut v, w2);
        words_push(&mut v, w3);
        Chunk { words: v }
    }

    pub fn first_word(&self) -> (w: Word)
        requires
            self@.len() > 0,
        ensures
            w == self@[0],
    {
        words_get(&self.words, 0)
    }

    /// The score of rule `r` of this chunk.
    pub fn key(&self, r: u8) -> (k: i128)
        requires
            1 <= r <= 4,
            1 <= self@.len(),
        ensures
            k == rule_key(r as int, self@),
    {
        let n = words_len(&self.words);
        let ghost c = self@;
        let mut t: u64 = 0;
        let mut s: u128 = 0;
        let mut p: u128 = 1;
        let mut i: usize = 0;
        while i < n
            invariant
                n == c.len(),
                n <= 3,
                c == self@,
                i <= n,
                t == total_len(c.take(i as int)),
                s == square_sum(c.take(i as int)),
                p == single_freq_product(c.take(i as int)),
                t <= i * 0xFFFF_FFFF,
                s <= i * 0xFFFF_FFFF * 0xFFFF_FFFF,
                0 <= p <= u32_pow(i as nat),
            decreases n - i,
        {
            let w = words_get(&self.words, i);
            assert(c.take(i + 1).drop_last() =~= c.take(i as int));
            assert(c.take(i + 1).last() == w);
            let l = w.len;
            assert(l as int * l as int <= 0xFFFF_FFFF * 0xFFFF_FFFF) by (nonlinear_arith)
                requires
                    l <= 0xFFFF_FFFF,
            ;
            t = t + l as u64;
            s = s + (l as u128) * (l as u128);
            let f: u128 = if l == 1 {
                w.freq as u128
            } else {
                1
            };
            assert(u32_pow((i + 1) as nat) == u32_pow(i as nat) * 0xFFFF_FFFF);
            let ghost pi = u32_pow(i as nat);
            proof {
                lemma_u32_pow_bound((i + 1) as nat);
            }
            assert(p * f <= pi * 0xFFFF_FFFF) by (nonlinear_arith)
                requires
                    0 <= p <= pi,
                    0 <= f <= 0xFFFF_FFFF,
            ;
            p = p * f;
            i = i + 1;
        }
        assert(c.take(n as int) =~= c);
        proof {
            lemma_u32_pow_bound(n as nat);
        }
        let ti = t as i128;
        let si = s as i128;
        assert(t * t <= 9 * 0xFFFF_FFFF * 0xFFFF_FFFF) by (nonlinear_arith)
            requires
                t <= 3 * 0xFFFF_FFFF,
        ;
        if r == 1 {
            ti
        } else if r == 2 {
            if n == 1 {
                6 * ti
            } else if n == 2 {
                3 * ti
            } else {
                2 * ti
            }
        } else if r == 3 {
            if n == 1 {
                -((si - ti * ti) * 36)
            } else if n == 2 {
                -((2 * si - ti * ti) * 9)
            } else {
                -((3 * si - ti * ti) * 4)
            }
        } else {
            p as i128
        }
    }
}

/// Survivors of a non-empty list are a non-empty list of its members.
pub proof fn lemma_survivors(cs: Seq<Seq<Word>>, r: int)
    requires
        cs.len() > 0,
    ensures
        survivors(cs, r).len() > 0,
        forall|i: int|
            0 <= i < survivors(cs, r).len() ==> cs.contains(#[trigger] survivors(cs, r)[i]),
{
    lemma_max_key(cs, r);
    lemma_keep_key(cs, r, max_key(cs, r));
}

/// The selected chunk is one of the candidates.
pub proof fn lemma_winner_member(cs: Seq<Seq<Word>>)
    requires
        cs.len() > 0,
    ensures
        cascade(cs).len() > 0,
        cs.contains(winner(cs)),
{
    let s1 = survivors(cs, 1);
    let s2 = survivors(s1, 2);
    let s3 = survivors(s2, 3);
    lemma_survivors(cs, 1);
    lemma_survivors(s1, 2);
    lemma_survivors(s2, 3);
    lemma_survivors(s3, 4);
    let w = winner(cs);
    assert(s3.contains(w));
    let i3 = choose|i: int| 0 <= i < s3.len() && s3[i] == w;
    assert(s2.contains(s3[i3]));
    let i2 = choose|i: int| 0 <= i < s2.len() && s2[i] == w;
    assert(s1.contains(s2[i2]));
    let i1 = choose|i: int| 0 <= i < s1.len() && s1[i] == w;
    assert(cs.contains(s1[i1]));
}

/// Of the chunks that `alive` designates, the indices of those tied for the
/// best score of rule `r`.
fn keep_best(cs: &Vec<Chunk>, alive: &Vec<usize>, r: u8) -> (out: Vec<usize>)
    requires
        1 <= r <= 4,
        alive.len() > 0,
        forall|j: int| 0 <= j < alive.len() ==> #[trigger] alive[j] < cs.len(),
        forall|i: int| 0 <= i < cs.len() ==> chunk_ok(#[trigger] cs@[i]@),
    ensures
        forall|j: int| 0 <= j < out.len() ==> #[trigger] out[j] < cs.len(),
        pick(chunk_views(cs@), out@) == survivors(pick(chunk_views(cs@), alive@), r as int),
{
    let ghost v = chunk_views(cs@);
    let ghost a = pick(v, alive@);
    assert(cs@[alive[0] as int]@ == a[0]);
    let mut m = cs[alive[0]].key(r);
    assert(a.take(1).len() == 1 && a.take(1)[0] == a[0]);
    let mut i: usize = 1;
    while i < alive.len()
        invariant
            1 <= i <= alive.len(),
            a == pick(v, alive@),
            v == chunk_views(cs@),
            1 <= r <= 4,
            forall|j: int| 0 <= j < alive.len() ==> #[trigger] alive[j] < cs.len(),
            forall|i: int| 0 <= i < cs.len() ==> chunk_ok(#[trigger] cs@[i]@),
            m == max_key(a.take(i as int), r as int),
        decreases alive.len() - i,
    {
        assert(cs@[alive[i as int] as int]@ == a[i as int]);
        let k = cs[alive[i]].key(r);
        assert(a.take(i + 1).drop_last() =~= a.take(i as int));
        assert(a.take(i + 1).last() == a[i as int]);
        if k > m {
            m = k;
        }
        i = i + 1;
    }
    assert(a.take(alive.len() as int) =~= a);
    let mut out: Vec<usize> = Vec::new();
    let mut i: usize = 0;
    while i < alive.len()
        invariant
            0 <= i <= alive.len(),
            a == pick(v, alive@),
            v == chunk_views(cs@),
            1 <= r <= 4,
            forall|j: int| 0 <= j < alive.len() ==> #[trigger] alive[j] < cs.len(),
            forall|i: int| 0 <= i < cs.len() ==> chunk_ok(#[trigger] cs@[i]@),
            forall|j: int| 0 <= j < out.len() ==> #[trigger] out[j] < cs.len(),
            m == max_key(a, r as int),
            pick(v, out@) == keep_key(a.take(i as int), r as int, m as int),
        decreases alive.len() - i,
    {
        assert(cs@[alive[i as int] as int]@ == a[i as int]);
        let k = cs[alive[i]].key(r);
        assert(a.take(i + 1).drop_last() =~= a.take(i as int));
        assert(a.take(i + 1).last() == a[i as int]);
        if k == m {
            let ghost before = out@;
            out.push(alive[i]);
            assert(pick(v, out@) =~= pick(v, before).push(a[i as int]));
        }
        i = i + 1;
    }
    assert(a.take(alive.len() as int) =~= a);
    out
}

/// The first word of the chunk that the four rules select.
pub fn select_first_word(cs: &Vec<Chunk>) -> (w: Word)
    requires
        cs.len() > 0,
        forall|i: int| 0 <= i < cs.len() ==> chunk_ok(#[trigger] cs@[i]@),
    ensures
        w == winner(chunk_views(cs@))[0],
{
    let ghost v = chunk_views(cs@);
    let mut alive: Vec<usize> = Vec::new();
    let mut i: usize = 0;
    while i < cs.len()
        invariant
            i <= cs.len(),
            alive@.len() == i,
            forall|j: int| 0 <= j < i ==> #[trigger] alive[j] == j,
        decreases cs.len() - i,
    {
        alive.push(i);
        i = i + 1;
    }
    assert(pick(v, alive@) =~= v);
    proof {
        lemma_survivors(v, 1);
        lemma_survivors(survivors(v, 1), 2);
        lemma_survivors(survivors(survivors(v, 1), 2), 3);
        lemma_survivors(survivors(survivors(survivors(v, 1), 2), 3), 4);
    }
    let a1 = keep_best(cs, &alive, 1);
    let a2 = keep_best(cs, &a1, 2);
    let a3 = keep_best(cs, &a2, 3);
    let a4 = keep_best(cs, &a3, 4);
    assert(pick(v, a4@)[0] == cs@[a4[0] as int]@);
    assert(cs@[a4[0] as int]@ == winner(v));
    assert(chunk_ok(cs@[a4[0] as int]@));
    cs[a4[0]].first_word()
}

} // verus!
