//! The word store: code-point strings mapped to frequencies.
use std::collections::HashMap;
use vstd::prelude::*;

verus! {

broadcast use vstd::std_specs::hash::group_hash_axioms;

/// The bucket that holds a word: its first code point and its length modulo 64.
pub open spec fn bucket_key(w: Seq<char>) -> u64 {
    if w.len() == 0 {
        0
    } else {
        ((w[0] as u32) as int * 64 + w.len() % 64) as u64
    }
}

/// Words grouped in buckets by `bucket_key`, with the map they stand for.
pub struct Dict {
    buckets: HashMap<u64, Vec<(Vec<char>, u32)>>,
    model: Ghost<Map<Seq<char>, u32>>,
}

impl View for Dict {
    type V = Map<Seq<char>, u32>;

    closed spec fn view(&self) -> Map<Seq<char>, u32> {
        self.model@
    }
}

/// Whether `a` holds the code points `buf[start..end]`.
pub fn same_word(a: &Vec<char>, buf: &Vec<char>, start: usize, end: usize) -> (r: bool)
    requires
        start <= end <= buf.len(),
    ensures
        r == (a@ == buf@.subrange(start as int, end as int)),
{
    if a.len() != end - start {
        return false;
    }
    let mut i: usize = 0;
    while i < a.len()
        invariant
            a.len() == end - start,
            start <= end <= buf.len(),
            i <= a.len(),
            forall|j: int| 0 <= j < i ==> a@[j] == buf@[start + j],
        decreases a.len() - i,
    {
        if a[i] != buf[start + i] {
            assert(a@[i as int] != buf@.subrange(start as int, end as int)[i as int]);
            return false;
        }
        i = i + 1;
    }
    assert(a@ =~= buf@.subrange(start as int, end as int));
    true
}

fn key_of(buf: &Vec<char>, start: usize, end: usize) -> (k: u64)
    requires
        start < end <= buf.len(),
    ensures
        k == bucket_key(buf@.subrange(start as int, end as int)),
{
    let c = buf[start] as u32 as u64;
    let n = ((end - start) % 64) as u64;
    c * 64 + n
}

impl Dict {
    pub closed spec fn wf(&self) -> bool {
        &&& forall|k: u64, i: int|
            self.buckets@.contains_key(k) && 0 <= i < self.buckets@[k]@.len() ==> {
                let e = #[trigger] self.buckets@[k]@[i];
                &&& bucket_key(e.0@) == k
                &&& self.model@.contains_key(e.0@)
                &&& self.model@[e.0@] == e.1
            }
        &&& forall|w: Seq<char>| #[trigger]
            self.model@.contains_key(w) ==> {
                &&& w.len() > 0
                &&& self.buckets@.contains_key(bucket_key(w))
                &&& exists|i: int|
                    0 <= i < self.buckets@[bucket_key(w)]@.len() && (#[trigger] self.buckets@[bucket_key(
                        w,
                    )]@[i]).0@ == w
            }
    }

    pub fn new() -> (d: Dict)
        ensures
            d.wf(),
            d@ == Map::<Seq<char>, u32>::empty(),
    {
        Dict { buckets: HashMap::new(), model: Ghost(Map::empty()) }
    }

    /// The frequency of the word `buf[start..end]`, if it is present.
    pub fn lookup(&self, buf: &Vec<char>, start: usize, end: usize) -> (r: Option<u32>)
        requires
            self.wf(),
            start < end <= buf.len(),
        ensures
            r == (if self@.contains_key(buf@.subrange(start as int, end as int)) {
                Some(self@[buf@.subrange(start as int, end as int)])
            } else {
                None::<u32>
            }),
    {
        let ghost w = buf@.subrange(start as int, end as int);
        let k = key_of(buf, start, end);
        match self.buckets.get(&k) {
            None => {
                assert(!self@.contains_key(w));
                None
            },
            Some(b) => {
                let mut i: usize = 0;
                while i < b.len()
                    invariant
                        self.wf(),
                        self.buckets@.contains_key(k),
                        b@ == self.buckets@[k]@,
                        k == bucket_key(w),
                        w == buf@.subrange(start as int, end as int),
                        start < end <= buf.len(),
                        i <= b.len(),
                        forall|j: int| 0 <= j < i ==> (#[trigger] b@[j]).0@ != w,
                    decreases b.len() - i,
                {
                    if same_word(&b[i].0, buf, start, end) {
                        assert(self.buckets@[k]@[i as int] == b@[i as int]);
                        return Some(b[i].1);
                    }
                    i = i + 1;
                }
                proof {
                    if self@.contains_key(w) {
                        let j = choose|j: int|
                            0 <= j < self.buckets@[bucket_key(w)]@.len() && (
                            #[trigger] self.buckets@[bucket_key(w)]@[j]).0@ == w;
                        assert(b@[j].0@ == w);
                    }
                }
                None
            },
        }
    }

    /// Sets the frequency of `w`, replacing any earlier one.
    pub fn insert(&mut self, w: Vec<char>, f: u32)
        requires
            old(self).wf(),
            w@.len() > 0,
        ensures
            final(self).wf(),
            final(self)@ == old(self)@.insert(w@, f),
    {
        let k = key_of(&w, 0, w.len());
        assert(w@.subrange(0, w@.len() as int) =~= w@);
        let ghost m0 = self.model@;
        let ghost b0 = self.buckets@;
        let ghost nm = m0.insert(w@, f);
        let old_bucket = self.buckets.remove(&k);
        let mut rest: Vec<(Vec<char>, u32)> = match old_bucket {
            Some(b) => b,
            None => Vec::new(),
        };
        let ghost orig = rest@;
        assert(b0.contains_key(k) ==> orig == b0[k]@);
        assert(!b0.contains_key(k) ==> orig.len() == 0);
        let mut fresh: Vec<(Vec<char>, u32)> = Vec::new();
        while rest.len() > 0
            invariant
                rest@ == orig.take(rest.len() as int),
                rest.len() <= orig.len(),
                b0.contains_key(k) ==> orig == b0[k]@,
                !b0.contains_key(k) ==> orig.len() == 0,
                forall|k2: u64, i: int|
                    b0.contains_key(k2) && 0 <= i < b0[k2]@.len() ==> {
                        let e = #[trigger] b0[k2]@[i];
                        &&& bucket_key(e.0@) == k2
                        &&& m0.contains_key(e.0@)
                        &&& m0[e.0@] == e.1
                    },
                nm == m0.insert(w@, f),
                k == bucket_key(w@),
                w@.len() > 0,
                w@.subrange(0, w@.len() as int) == w@,
                forall|j: int|
                    0 <= j < fresh.len() ==> {
                        let e = #[trigger] fresh@[j];
                        &&& bucket_key(e.0@) == k
                        &&& nm.contains_key(e.0@)
                        &&& nm[e.0@] == e.1
                        &&& e.0@ != w@
                    },
                forall|i: int|
                    rest.len() <= i < orig.len() && (#[trigger] orig[i]).0@ != w@ ==> exists|j: int|
                        0 <= j < fresh.len() && (#[trigger] fresh@[j]).0@ == orig[i].0@,
            decreases rest.len(),
        {
            let ghost n = rest.len() as int;
            let e = rest.pop().unwrap();
            assert(e == orig[n - 1]);
            assert(rest@ =~= orig.take(n - 1));
            assert(b0[k]@[n - 1] == e);
            if !same_word(&e.0, &w, 0, w.len()) {
                let ghost before = fresh@;
                fresh.push(e);
                assert(fresh@[before.len() as int] == e);
                assert forall|i: int|
                    rest.len() <= i < orig.len() && (#[trigger] orig[i]).0@ != w@ implies exists|
                    j: int,
                | 0 <= j < fresh.len() && (#[trigger] fresh@[j]).0@ == orig[i].0@ by {
                    if i == n - 1 {
                        assert(fresh@[before.len() as int].0@ == orig[i].0@);
                    } else {
                        let j = choose|j: int|
                            0 <= j < before.len() && (#[trigger] before[j]).0@ == orig[i].0@;
                        assert(fresh@[j] == before[j]);
                    }
                }
            }
        }
        let ghost before = fresh@;
        fresh.push((w, f));
        let ghost last = before.len() as int;
        let ghost fv = fresh@;
        self.buckets.insert(k, fresh);
        self.model = Ghost(nm);
        let ghost b1 = self.buckets@;
        assert(b1.contains_key(k) && b1[k]@ == fv);
        assert(forall|k2: u64| k2 != k ==> (b1.contains_key(k2) == b0.contains_key(k2)));
        assert forall|k2: u64, i: int|
            b1.contains_key(k2) && 0 <= i < b1[k2]@.len() implies {
                let e = #[trigger] b1[k2]@[i];
                &&& bucket_key(e.0@) == k2
                &&& nm.contains_key(e.0@)
                &&& nm[e.0@] == e.1
            } by {
            if k2 == k {
                if i < last {
                    assert(b1[k2]@[i] == before[i]);
                } else {
                    assert(b1[k2]@[i] == fv[last]);
                }
            } else {
                assert(b1[k2] == b0[k2]);
                assert(bucket_key(b0[k2]@[i].0@) != bucket_key(w@));
            }
        }
        assert forall|v: Seq<char>| #[trigger] nm.contains_key(v) implies {
            &&& v.len() > 0
            &&& b1.contains_key(bucket_key(v))
            &&& exists|i: int|
                0 <= i < b1[bucket_key(v)]@.len() && (#[trigger] b1[bucket_key(v)]@[i]).0@ == v
        } by {
            if v == w@ {
                assert(b1[k]@[last] == fv[last]);
                assert(b1[k]@[last].0@ == v);
            } else {
                assert(m0.contains_key(v));
                let kv = bucket_key(v);
                let i0 = choose|i: int| 0 <= i < b0[kv]@.len() && (#[trigger] b0[kv]@[i]).0@ == v;
                if kv == k {
                    assert(orig[i0].0@ == v);
                    let j = choose|j: int| 0 <= j < before.len() && (#[trigger] before[j]).0@ == orig[i0].0@;
                    assert(b1[k]@[j] == before[j]);
                } else {
                    assert(b1[kv] == b0[kv]);
                }
            }
        }
    }
}

} // verus!
