//! Reading the two dictionary texts into the segmenter.
use crate::segment::{chars_of, Lexicon, MMSeg};
use vstd::prelude::*;

verus! {

/// Why a dictionary could not be loaded.
#[derive(Clone, Copy, Debug, PartialEq, Eq, Structural)]
pub enum DictError {
    /// The dictionary could not be read.
    Io,
    /// A line does not have the expected form.
    Format,
}

/// Whitespace, trimmed from the end of a line: the characters of Unicode's
/// White_Space property.
pub open spec fn is_blank(c: char) -> bool {
    ('\u{09}' <= c && c <= '\u{0D}') || c == ' ' || c == '\u{85}' || c == '\u{A0}' || c == '\u{1680}'
        || ('\u{2000}' <= c && c <= '\u{200A}') || c == '\u{2028}' || c == '\u{2029}'
        || c == '\u{202F}' || c == '\u{205F}' || c == '\u{3000}'
}

pub open spec fn is_digit(c: char) -> bool {
    '0' <= c && c <= '9'
}

/// The value of a string of decimal digits.
pub open spec fn decimal(d: Seq<char>) -> int
    decreases d.len(),
{
    if d.len() == 0 {
        0
    } else {
        decimal(d.drop_last()) * 10 + ((d.last() as u32) - ('0' as u32))
    }
}

/// The end of `line` once its trailing blanks are removed.
pub open spec fn trimmed_end(line: Seq<char>, e: int) -> int
    decreases e,
{
    if e <= 0 || !is_blank(line[e - 1]) {
        e
    } else {
        trimmed_end(line, e - 1)
    }
}

/// The index of the first space in `line[s..e]`, or `e`.
pub open spec fn first_space(line: Seq<char>, s: int, e: int) -> int
    decreases e - s,
{
    if s >= e || line[s] == ' ' {
        s
    } else {
        first_space(line, s + 1, e)
    }
}

/// Where the digits of a number in `line[0..sp]` begin: after a leading `+`.
pub open spec fn number_start(line: Seq<char>, sp: int) -> int {
    if sp > 0 && line[0] == '+' {
        1
    } else {
        0
    }
}

/// One line of a dictionary, without its line feed: a decimal number (with an
/// optional leading `+`), one space, and a word without whitespace, trailing
/// whitespace allowed. In the character
/// dictionary the number is the frequency and the word one code point; in
/// the word dictionary the number is the word's length, and its entry has
/// frequency 0.
pub open spec fn parse_line(line: Seq<char>, words: bool) -> Option<(Seq<char>, u32)> {
    let e = trimmed_end(line, line.len() as int);
    let sp = first_space(line, 0, e);
    let digits = line.subrange(number_start(line, sp), sp);
    let word = line.subrange(sp + 1, e);
    let n = decimal(digits);
    if digits.len() == 0 || sp >= e || word.len() == 0 || !(forall|i: int| 0 <= i < digits.len() ==> is_digit(#[trigger] digits[i]))
        || n > u32::MAX || exists|i: int| 0 <= i < word.len() && is_blank(#[trigger] word[i]) {
        None
    } else if words {
        if n == word.len() {
            Some((word, 0u32))
        } else {
            None
        }
    } else {
        if word.len() == 1 {
            Some((word, n as u32))
        } else {
            None
        }
    }
}

/// The index of the line feed that ends the line starting at `s`, or the length.
pub open spec fn line_end(t: Seq<char>, s: int) -> int
    decreases t.len() - s,
{
    if s >= t.len() || t[s] == '\n' {
        s
    } else {
        line_end(t, s + 1)
    }
}

pub proof fn lemma_line_end(t: Seq<char>, s: int)
    ensures
        s <= t.len() ==> s <= line_end(t, s) <= t.len(),
        s > t.len() ==> line_end(t, s) == s,
    decreases t.len() - s,
{
    if s < t.len() && t[s] != '\n' {
        lemma_line_end(t, s + 1);
    }
}

/// The entries of the lines of `t` from `s` on, or `None` where one is malformed.
pub open spec fn parse_lines(t: Seq<char>, s: int, words: bool) -> Option<Seq<(Seq<char>, u32)>>
    decreases t.len() - s,
{
    if s < 0 || s >= t.len() {
        Some(Seq::empty())
    } else {
        let e = line_end(t, s);
        proof {
            lemma_line_end(t, s);
        }
        match parse_line(t.subrange(s, e), words) {
            None => None,
            Some(x) => if e >= t.len() {
                Some(seq![x])
            } else {
                match parse_lines(t, e + 1, words) {
                    None => None,
                    Some(rest) => Some(seq![x] + rest),
                }
            },
        }
    }
}

/// The entries of a dictionary text, or `None` where a line is malformed.
pub open spec fn parse_dict(t: Seq<char>, words: bool) -> Option<Seq<(Seq<char>, u32)>> {
    parse_lines(t, 0, words)
}

/// The lexicon after inserting `es` in order; a later entry replaces an
/// earlier one, and the longest length grows to cover each word.
pub open spec fn with_entries(lx: Lexicon, es: Seq<(Seq<char>, u32)>) -> Lexicon
    decreases es.len(),
{
    if es.len() == 0 {
        lx
    } else {
        let l = with_entries(lx, es.drop_last());
        let w = es.last().0;
        Lexicon {
            words: l.words.insert(w, es.last().1),
            max_len: if w.len() > l.max_len {
                w.len() as u32
            } else {
                l.max_len
            },
        }
    }
}

pub open spec fn entry_views(es: Seq<(Vec<char>, u32)>) -> Seq<(Seq<char>, u32)> {
    es.map_values(|e: (Vec<char>, u32)| (e.0@, e.1))
}

proof fn lemma_decimal_nonneg(d: Seq<char>)
    requires
        forall|k: int| 0 <= k < d.len() ==> is_digit(#[trigger] d[k]),
    ensures
        0 <= decimal(d),
    decreases d.len(),
{
    if d.len() > 0 {
        lemma_decimal_nonneg(d.drop_last());
        assert(is_digit(d[d.len() - 1]));
    }
}

proof fn lemma_decimal_mono(d: Seq<char>, i: int, j: int)
    requires
        0 <= i <= j <= d.len(),
        forall|k: int| 0 <= k < d.len() ==> is_digit(#[trigger] d[k]),
    ensures
        0 <= decimal(d.take(i)) <= decimal(d.take(j)),
    decreases j - i,
{
    lemma_decimal_nonneg(d.take(i));
    if j > i {
        lemma_decimal_mono(d, i, j - 1);
        assert(d.take(j).drop_last() =~= d.take(j - 1));
        assert(is_digit(d[j - 1]));
    }
}

fn is_blank_char(c: char) -> (r: bool)
    ensures
        r == is_blank(c),
{
    ('\u{09}' <= c && c <= '\u{0D}') || c == ' ' || c == '\u{85}' || c == '\u{A0}' || c == '\u{1680}'
        || ('\u{2000}' <= c && c <= '\u{200A}') || c == '\u{2028}' || c == '\u{2029}'
        || c == '\u{202F}' || c == '\u{205F}' || c == '\u{3000}'
}

/// The value of the decimal digits `line[lo..sp]`, where they are all digits
/// and the value fits in 32 bits.
fn parse_decimal(line: &Vec<char>, lo: usize, sp: usize) -> (r: Option<u32>)
    requires
        lo <= sp <= line.len(),
    ensures
        ({
            let d = line@.subrange(lo as int, sp as int);
            r == if (forall|i: int| 0 <= i < d.len() ==> is_digit(#[trigger] d[i])) && decimal(d)
                <= u32::MAX {
                Some(decimal(d) as u32)
            } else {
                None::<u32>
            }
        }),
{
    let ghost d = line@.subrange(lo as int, sp as int);
    let n = sp - lo;
    let mut i: usize = 0;
    while i < n
        invariant
            n == sp - lo,
            lo <= sp <= line.len(),
            i <= n,
            d == line@.subrange(lo as int, sp as int),
            forall|k: int| 0 <= k < i ==> is_digit(#[trigger] d[k]),
        decreases n - i,
    {
        if !('0' <= line[lo + i] && line[lo + i] <= '9') {
            assert(!is_digit(d[i as int]));
            return None;
        }
        i = i + 1;
    }
    let mut v: u64 = 0;
    let mut i: usize = 0;
    while i < n
        invariant
            n == sp - lo,
            lo <= sp <= line.len(),
            i <= n,
            d == line@.subrange(lo as int, sp as int),
            forall|k: int| 0 <= k < d.len() ==> is_digit(#[trigger] d[k]),
            v == decimal(d.take(i as int)),
            v <= u32::MAX,
        decreases n - i,
    {
        assert(d.take(i + 1).drop_last() =~= d.take(i as int));
        assert(is_digit(d[i as int]));
        assert(d[i as int] == line@[lo + i]);
        v = v * 10 + ((line[lo + i] as u32) - ('0' as u32)) as u64;
        if v > 0xFFFF_FFFF {
            proof {
                lemma_decimal_mono(d, i + 1, d.len() as int);
                assert(d.take(d.len() as int) =~= d);
            }
            return None;
        }
        i = i + 1;
    }
    assert(d.take(n as int) =~= d);
    Some(v as u32)
}

/// The entry of one dictionary line, as `parse_line` states it.
fn parse_line_exec(line: &Vec<char>, words: bool) -> (r: Option<(Vec<char>, u32)>)
    ensures
        match r {
            Some(x) => {
                &&& parse_line(line@, words) == Some((x.0@, x.1))
                &&& 1 <= x.0@.len() <= u32::MAX
            },
            None => parse_line(line@, words) is None,
        },
{
    let ghost l = line@;
    let mut e: usize = line.len();
    while e > 0 && is_blank_char(line[e - 1])
        invariant
            e <= line.len(),
            l == line@,
            trimmed_end(l, l.len() as int) == trimmed_end(l, e as int),
        decreases e,
    {
        e = e - 1;
    }
    assert(trimmed_end(l, e as int) == e);
    let mut sp: usize = 0;
    while sp < e && line[sp] != ' '
        invariant
            sp <= e <= line.len(),
            l == line@,
            first_space(l, 0, e as int) == first_space(l, sp as int, e as int),
        decreases e - sp,
    {
        sp = sp + 1;
    }
    assert(first_space(l, sp as int, e as int) == sp);
    let lo: usize = if sp > 0 && line[0] == '+' {
        1
    } else {
        0
    };
    if lo >= sp || sp >= e {
        return None;
    }
    let mut word: Vec<char> = Vec::new();
    let mut i: usize = sp + 1;
    while i < e
        invariant
            sp + 1 <= i <= e <= line.len(),
            l == line@,
            e == trimmed_end(l, l.len() as int),
            sp == first_space(l, 0, e as int),
            lo < sp,
            lo == number_start(l, sp as int),
            word@ == l.subrange(sp + 1, i as int),
            forall|k: int| 0 <= k < word.len() ==> !is_blank(#[trigger] word@[k]),
        decreases e - i,
    {
        if is_blank_char(line[i]) {
            assert(l.subrange(sp + 1, e as int)[i - sp - 1] == line@[i as int]);
            assert(is_blank(l.subrange(sp + 1, e as int)[i - sp - 1]));
            return None;
        }
        word.push(line[i]);
        i = i + 1;
    }
    let n = match parse_decimal(line, lo, sp) {
        Some(n) => n,
        None => {
            return None;
        },
    };
    assert(word@ == l.subrange(sp + 1, e as int));
    if word.len() == 0 {
        return None;
    }
    assert(!exists|k: int| 0 <= k < word@.len() && is_blank(#[trigger] word@[k]));
    let ghost d = l.subrange(lo as int, sp as int);
    assert(forall|i: int| 0 <= i < d.len() ==> is_digit(#[trigger] d[i]));
    proof {
        lemma_decimal_nonneg(d);
    }
    assert(sp == first_space(l, 0, trimmed_end(l, l.len() as int)));
    if words {
        if word.len() as u64 == n as u64 {
            Some((word, 0))
        } else {
            None
        }
    } else {
        if word.len() == 1 {
            Some((word, n))
        } else {
            None
        }
    }
}

/// The entries of a dictionary text, as `parse_dict` states them.
fn parse_text(t: &Vec<char>, words: bool) -> (r: Option<Vec<(Vec<char>, u32)>>)
    ensures
        match r {
            Some(es) => {
                &&& parse_dict(t@, words) == Some(entry_views(es@))
                &&& forall|i: int| 0 <= i < es.len() ==> 1 <= (#[trigger] es@[i]).0@.len() <= u32::MAX
            },
            None => parse_dict(t@, words) is None,
        },
{
    let mut es: Vec<(Vec<char>, u32)> = Vec::new();
    let mut s: usize = 0;
    while s < t.len()
        invariant
            s <= t.len(),
            parse_dict(t@, words) == match parse_lines(t@, s as int, words) {
                Some(rest) => Some(entry_views(es@) + rest),
                None => None,
            },
            forall|i: int| 0 <= i < es.len() ==> 1 <= (#[trigger] es@[i]).0@.len() <= u32::MAX,
        decreases t.len() - s,
    {
        let mut e: usize = s;
        let mut line: Vec<char> = Vec::new();
        while e < t.len() && t[e] != '\n'
            invariant
                s <= e <= t.len(),
                line@ == t@.subrange(s as int, e as int),
                line_end(t@, s as int) == line_end(t@, e as int),
            decreases t.len() - e,
        {
            line.push(t[e]);
            e = e + 1;
        }
        assert(line_end(t@, e as int) == e);
        match parse_line_exec(&line, words) {
            None => {
                return None;
            },
            Some(x) => {
                let ghost before = es@;
                let ghost xv = (x.0@, x.1);
                es.push(x);
                assert(entry_views(es@) =~= entry_views(before).push(xv));
                proof {
                    match parse_lines(t@, e + 1, words) {
                        Some(rest) => {
                            assert(entry_views(before) + (seq![xv] + rest) =~= entry_views(es@) + rest);
                        },
                        None => {},
                    }
                }
                if e < t.len() {
                    s = e + 1;
                } else {
                    s = e;
                }
            },
        }
    }
    assert(entry_views(es@) + Seq::empty() =~= entry_views(es@));
    Some(es)
}

impl MMSeg {
    /// Loads a character dictionary and then a word dictionary, given as
    /// texts. Nothing is loaded where a line of either is malformed.
    pub fn load_dict(&mut self, chars_dict: &str, words_dict: &str) -> (r: Result<(), DictError>)
        requires
            old(self).wf(),
        ensures
            final(self).wf(),
            r is Ok <==> (parse_dict(chars_dict@, false) is Some && parse_dict(words_dict@, true) is Some),
            r is Ok ==> final(self)@ == with_entries(
                with_entries(old(self)@, parse_dict(chars_dict@, false)->0),
                parse_dict(words_dict@, true)->0,
            ),
            r matches Err(e) ==> e == DictError::Format && final(self)@ == old(self)@,
    {
        let ct = chars_of(chars_dict);
        let wt = chars_of(words_dict);
        let ce = match parse_text(&ct, false) {
            Some(es) => es,
            None => {
                return Err(DictError::Format);
            },
        };
        let we = match parse_text(&wt, true) {
            Some(es) => es,
            None => {
                return Err(DictError::Format);
            },
        };
        self.insert_all(ce);
        self.insert_all(we);
        Ok(())
    }

    fn insert_all(&mut self, es: Vec<(Vec<char>, u32)>)
        requires
            old(self).wf(),
            forall|i: int| 0 <= i < es.len() ==> 1 <= (#[trigger] es@[i]).0@.len() <= u32::MAX,
        ensures
            final(self).wf(),
            final(self)@ == with_entries(old(self)@, entry_views(es@)),
    {
        let ghost lx0 = self@;
        let ghost ev = entry_views(es@);
        let mut es = es;
        let mut rest: Vec<(Vec<char>, u32)> = Vec::new();
        // take the entries out from the back, then insert them from the front
        while es.len() > 0
            invariant
                forall|i: int| 0 <= i < es.len() ==> 1 <= (#[trigger] es@[i]).0@.len() <= u32::MAX,
                forall|i: int| 0 <= i < rest.len() ==> 1 <= (#[trigger] rest@[i]).0@.len() <= u32::MAX,
                entry_views(es@) + entry_views(rest@).reverse() == ev,
            decreases es.len(),
        {
            let ghost before_es = es@;
            let ghost before_rest = rest@;
            let x = es.pop().unwrap();
            rest.push(x);
            assert(entry_views(before_es) =~= entry_views(es@).push((x.0@, x.1)));
            assert(entry_views(rest@) =~= entry_views(before_rest).push((x.0@, x.1)));
            assert(entry_views(rest@).reverse() =~= seq![(x.0@, x.1)] + entry_views(before_rest).reverse());
            assert(entry_views(es@) + entry_views(rest@).reverse() =~= entry_views(before_es) + entry_views(before_rest).reverse());
        }
        assert(entry_views(rest@).reverse() =~= ev);
        let ghost total = rest.len();
        while rest.len() > 0
            invariant
                self.wf(),
                forall|i: int| 0 <= i < rest.len() ==> 1 <= (#[trigger] rest@[i]).0@.len() <= u32::MAX,
                entry_views(rest@).reverse() == ev.subrange(total - rest.len(), total as int),
                rest.len() <= total,
                total == ev.len(),
                self@ == with_entries(lx0, ev.take(total - rest.len())),
            decreases rest.len(),
        {
            let ghost before = rest@;
            let ghost k = total - rest.len();
            let (w, f) = rest.pop().unwrap();
            assert(entry_views(before) =~= entry_views(rest@).push((w@, f)));
            assert(entry_views(before).reverse() =~= seq![(w@, f)] + entry_views(rest@).reverse());
            assert((seq![(w@, f)] + entry_views(rest@).reverse())[0] == (w@, f));
            assert(ev.subrange(k, total as int)[0] == ev[k]);
            assert(ev[k] == (w@, f));
            let ghost r = entry_views(rest@).reverse();
            assert forall|i: int| 0 <= i < r.len() implies r[i] == ev[k + 1 + i] by {
                assert((seq![(w@, f)] + r)[i + 1] == r[i]);
                assert(ev.subrange(k, total as int)[i + 1] == ev[k + 1 + i]);
            }
            assert(entry_views(rest@).reverse() =~= ev.subrange(total - rest.len(), total as int));
            assert(ev.take(k + 1).drop_last() =~= ev.take(k));
            self.add_word(w, f);
        }
        assert(ev.take(total as int) =~= ev);
    }
}

} // verus!
