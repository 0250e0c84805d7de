//! Byte-value frequency accumulation: the count table behind the entropy
//! figure, kept as a fixed 256-slot vector with a running total.

use vstd::prelude::*;
use std::collections::HashMap;
use std::collections::hash_map::RandomState;
use std::hash::Hash;
use vstd::std_specs::hash::builds_valid_hashers;
use vstd::std_specs::hash::group_hash_axioms;
use vstd::std_specs::hash::obeys_key_model;
use vstd::std_specs::hash::spec_hash_map_iter;
use vstd::std_specs::iter::IteratorSpec;

verus! {

/// Sum of the first `n` entries of `s`.
pub open spec fn sum_prefix(s: Seq<usize>, n: int) -> int
    decreases n,
{
    if n <= 0 {
        0
    } else {
        sum_prefix(s, n - 1) + s[n - 1]
    }
}

/// How many times `b` occurs in `s`.
pub open spec fn occurrences(s: Seq<u8>, b: u8) -> nat
    decreases s.len(),
{
    if s.len() == 0 {
        0
    } else {
        occurrences(s.drop_last(), b) + (if s.last() == b {
            1nat
        } else {
            0nat
        })
    }
}

proof fn lemma_sum_prefix_nonneg(s: Seq<usize>, n: int)
    ensures
        sum_prefix(s, n) >= 0,
    decreases n,
{
    if n > 0 {
        lemma_sum_prefix_nonneg(s, n - 1);
    }
}

proof fn lemma_sum_prefix_zero(s: Seq<usize>, n: int)
    requires
        forall|j: int| 0 <= j < n ==> s[j] == 0,
    ensures
        sum_prefix(s, n) == 0,
    decreases n,
{
    if n > 0 {
        lemma_sum_prefix_zero(s, n - 1);
    }
}

/// Every entry within the summed range is bounded by the sum.
proof fn lemma_sum_prefix_bounds(s: Seq<usize>, n: int, i: int)
    requires
        0 <= i < n,
    ensures
        s[i] <= sum_prefix(s, n),
    decreases n,
{
    if i == n - 1 {
        lemma_sum_prefix_nonneg(s, n - 1);
    } else {
        lemma_sum_prefix_bounds(s, n - 1, i);
    }
}

proof fn lemma_sum_prefix_agree(s: Seq<usize>, t: Seq<usize>, n: int)
    requires
        forall|j: int| 0 <= j < n ==> s[j] == t[j],
    ensures
        sum_prefix(s, n) == sum_prefix(t, n),
    decreases n,
{
    if n > 0 {
        lemma_sum_prefix_agree(s, t, n - 1);
    }
}

proof fn lemma_sum_prefix_update(s: Seq<usize>, n: int, i: int, v: usize)
    requires
        0 <= i < n <= s.len(),
    ensures
        sum_prefix(s.update(i, v), n) == sum_prefix(s, n) + v - s[i],
    decreases n,
{
    if i == n - 1 {
        lemma_sum_prefix_agree(s.update(i, v), s, n - 1);
    } else {
        lemma_sum_prefix_update(s, n - 1, i, v);
    }
}

proof fn lemma_occurrences_push(s: Seq<u8>, x: u8, b: u8)
    ensures
        occurrences(s.push(x), b) == occurrences(s, b) + (if x == b {
            1int
        } else {
            0int
        }),
{
    assert(s.push(x).drop_last() =~= s);
}

proof fn lemma_sum_prefix_witness(s: Seq<usize>, n: int)
    requires
        0 <= n <= s.len(),
        sum_prefix(s, n) > 0,
    ensures
        exists|i: int| 0 <= i < n && s[i] > 0,
    decreases n,
{
    if n > 0 {
        if s[n - 1] > 0 {
            assert(0 <= n - 1 < n && s[n - 1] > 0);
        } else {
            lemma_sum_prefix_witness(s, n - 1);
        }
    }
}

/// Sum of the counts in a sequence of (byte value, count) pairs.
pub open spec fn pair_sum(s: Seq<(u8, usize)>) -> int
    decreases s.len(),
{
    if s.len() == 0 {
        0
    } else {
        pair_sum(s.drop_last()) + s.last().1
    }
}

/// Sum of the `count` fields of a sequence of per-byte records.
pub open spec fn stat_sum(s: Seq<ByteStat>) -> int
    decreases s.len(),
{
    if s.len() == 0 {
        0
    } else {
        stat_sum(s.drop_last()) + s.last().count
    }
}

/// One per-byte record: the byte value, its occurrence count, and the total
/// the table had accumulated. The byte's frequency is the exact rational
/// `count / total`.
#[derive(Debug, Default, PartialEq)]
pub struct ByteStat {
    pub byte: u8,
    pub count: usize,
    pub total: usize,
}

/// Occurrence counts for each of the 256 byte values, plus a running total.
/// The total always equals the sum of the counts.
pub struct ByteFreq {
    counts: Vec<usize>,
    count: usize,
}

impl ByteFreq {
    /// The count recorded for byte value `b`.
    pub closed spec fn count_of(self, b: u8) -> nat {
        self.counts@[b as int] as nat
    }

    /// The running total of bytes accumulated.
    pub closed spec fn total(self) -> nat {
        self.count as nat
    }

    /// One slot per byte value, and the total equal to the sum of all counts.
    pub closed spec fn wf(self) -> bool {
        &&& self.counts@.len() == 256
        &&& self.count == sum_prefix(self.counts@, 256)
    }

    /// An empty table: every count zero, total zero.
    pub fn new() -> (bf: Self)
        ensures
            bf.wf(),
            bf.total() == 0,
            forall|b: u8| bf.count_of(b) == 0,
    {
        let mut counts: Vec<usize> = Vec::new();
        let mut i: usize = 0;
        while i < 256
            invariant
                i <= 256,
                counts@.len() == i,
                forall|j: int| 0 <= j < i ==> counts@[j] == 0,
            decreases 256 - i,
        {
            counts.push(0);
            i += 1;
        }
        proof {
            lemma_sum_prefix_zero(counts@, 256);
        }
        ByteFreq { counts, count: 0 }
    }

    /// Record one occurrence of `byte`: its count and the total each grow by one.
    pub fn add(&mut self, byte: u8)
        requires
            old(self).wf(),
            old(self).total() < usize::MAX,
        ensures
            final(self).wf(),
            final(self).total() == old(self).total() + 1,
            final(self).count_of(byte) == old(self).count_of(byte) + 1,
            forall|b: u8| b != byte ==> final(self).count_of(b) == old(self).count_of(b),
    {
        let i: usize = byte as usize;
        let c: usize = self.counts[i];
        proof {
            lemma_sum_prefix_bounds(self.counts@, 256, i as int);
        }
        self.counts.set(i, c + 1);
        self.count = self.count + 1;
        proof {
            lemma_sum_prefix_update(old(self).counts@, 256, i as int, (c + 1) as usize);
        }
    }

    /// Accumulate every byte of `bytes`, in order: afterwards each byte value's
    /// count is its number of occurrences in `bytes`, and the total is the
    /// sequence's length.
    pub fn from_bytes(bytes: &Vec<u8>) -> (bf: Self)
        ensures
            bf.wf(),
            bf.total() == bytes@.len(),
            forall|b: u8| bf.count_of(b) == occurrences(bytes@, b),
    {
        let mut bf = Self::new();
        let mut i: usize = 0;
        while i < bytes.len()
            invariant
                i <= bytes@.len(),
                bf.wf(),
                bf.total() == i,
                forall|b: u8| bf.count_of(b) == occurrences(bytes@.take(i as int), b),
            decreases bytes@.len() - i,
        {
            let x: u8 = bytes[i];
            bf.add(x);
            proof {
                assert(bytes@.take(i + 1).drop_last() =~= bytes@.take(i as int));
                assert forall|b: u8| bf.count_of(b) == occurrences(bytes@.take(i + 1), b) by {
                    lemma_occurrences_push(bytes@.take(i as int), x, b);
                    assert(bytes@.take(i as int).push(x) =~= bytes@.take(i + 1));
                }
            }
            i += 1;
        }
        proof {
            assert(bytes@.take(bytes@.len() as int) =~= bytes@);
        }
        bf
    }

    /// The number of bytes accumulated so far.
    pub fn total_bytes(&self) -> (n: usize)
        ensures
            n == self.total(),
    {
        self.count
    }

    /// The count table as (byte value, count) pairs: exactly the byte values
    /// observed at least once, in ascending byte order, each with its count.
    /// The counts sum to the running total.
    pub fn counts(&self) -> (cs: Vec<(u8, usize)>)
        requires
            self.wf(),
        ensures
            forall|i: int|
                0 <= i < cs@.len() ==> (#[trigger] cs@[i]).1 == self.count_of(cs@[i].0)
                    && cs@[i].1 > 0,
            forall|i: int, j: int| 0 <= i < j < cs@.len() ==> cs@[i].0 < cs@[j].0,
            forall|b: u8|
                self.count_of(b) > 0 ==> cs@.contains((b, self.count_of(b) as usize)),
            pair_sum(cs@) == self.total(),
    {
        let mut cs: Vec<(u8, usize)> = Vec::new();
        let mut b: usize = 0;
        while b < 256
            invariant
                self.wf(),
                b <= 256,
                forall|i: int|
                    0 <= i < cs@.len() ==> (#[trigger] cs@[i]).1 == self.count_of(cs@[i].0)
                        && cs@[i].1 > 0 && (cs@[i].0 as int) < b,
                forall|i: int, j: int| 0 <= i < j < cs@.len() ==> cs@[i].0 < cs@[j].0,
                forall|bb: u8|
                    (bb as int) < b && self.count_of(bb) > 0 ==> cs@.contains(
                        (bb, self.count_of(bb) as usize),
                    ),
                pair_sum(cs@) == sum_prefix(self.counts@, b as int),
            decreases 256 - b,
        {
            let c: usize = self.counts[b];
            if c > 0 {
                let ghost prev = cs@;
                cs.push((b as u8, c));
                proof {
                    assert(cs@.drop_last() =~= prev);
                    assert(cs@[cs@.len() - 1] == (b as u8, c));
                    assert forall|bb: u8|
                        (bb as int) < b + 1 && self.count_of(bb) > 0 implies cs@.contains(
                        (bb, self.count_of(bb) as usize),
                    ) by {
                        if (bb as int) < b {
                            let i = choose|i: int|
                                0 <= i < prev.len() && prev[i] == (bb, self.count_of(bb) as usize);
                            assert(cs@[i] == (bb, self.count_of(bb) as usize));
                        } else {
                            assert(cs@[cs@.len() - 1] == (bb, self.count_of(bb) as usize));
                        }
                    }
                }
            }
            b += 1;
        }
        cs
    }

    /// Per-byte statistics: one record for every byte value observed at least
    /// once, in ascending byte order, carrying its count and the total. The
    /// record's frequency is the exact rational `count / total`; the counts of
    /// all records sum to the total, so those frequencies sum to exactly one
    /// whenever any byte was observed. No byte observed, no record.
    pub fn stats(&self) -> (sts: Vec<ByteStat>)
        requires
            self.wf(),
        ensures
            forall|i: int|
                0 <= i < sts@.len() ==> (#[trigger] sts@[i]).count == self.count_of(sts@[i].byte)
                    && sts@[i].count > 0 && sts@[i].total == self.total(),
            forall|i: int, j: int| 0 <= i < j < sts@.len() ==> sts@[i].byte < sts@[j].byte,
            forall|b: u8|
                self.count_of(b) > 0 ==> sts@.contains(
                    (ByteStat { byte: b, count: self.count_of(b) as usize, total: self.total() as usize }),
                ),
            stat_sum(sts@) == self.total(),
            sts@.len() == 0 <==> self.total() == 0,
    {
        let mut sts: Vec<ByteStat> = Vec::new();
        let mut b: usize = 0;
        while b < 256
            invariant
                self.wf(),
                b <= 256,
                forall|i: int|
                    0 <= i < sts@.len() ==> (#[trigger] sts@[i]).count == self.count_of(
                        sts@[i].byte,
                    ) && sts@[i].count > 0 && sts@[i].total == self.total() && (sts@[i].byte as int)
                        < b,
                forall|i: int, j: int| 0 <= i < j < sts@.len() ==> sts@[i].byte < sts@[j].byte,
                forall|bb: u8|
                    (bb as int) < b && self.count_of(bb) > 0 ==> sts@.contains(
                        (ByteStat {
                            byte: bb,
                            count: self.count_of(bb) as usize,
                            total: self.total() as usize,
                        }),
                    ),
                stat_sum(sts@) == sum_prefix(self.counts@, b as int),
            decreases 256 - b,
        {
            let c: usize = self.counts[b];
            if c > 0 {
                let ghost prev = sts@;
                sts.push(ByteStat { byte: b as u8, count: c, total: self.count });
                proof {
                    assert(sts@.drop_last() =~= prev);
                    let st = ByteStat { byte: b as u8, count: c, total: self.count };
                    assert(sts@[sts@.len() - 1] == st);
                    assert forall|bb: u8|
                        (bb as int) < b + 1 && self.count_of(bb) > 0 implies sts@.contains(
                        (ByteStat {
                            byte: bb,
                            count: self.count_of(bb) as usize,
                            total: self.total() as usize,
                        }),
                    ) by {
                        let want = ByteStat {
                            byte: bb,
                            count: self.count_of(bb) as usize,
                            total: self.total() as usize,
                        };
                        if (bb as int) < b {
                            let i = choose|i: int| 0 <= i < prev.len() && prev[i] == want;
                            assert(sts@[i] == want);
                        } else {
                            assert(sts@[sts@.len() - 1] == want);
                        }
                    }
                }
            }
            b += 1;
        }
        proof {
            if self.count > 0 {
                lemma_sum_prefix_witness(self.counts@, 256);
                let i = choose|i: int| 0 <= i < 256 && self.counts@[i] > 0;
                assert(self.count_of(i as u8) > 0);
            }
            if self.count == 0 && sts@.len() > 0 {
                lemma_sum_prefix_bounds(self.counts@, 256, sts@[0].byte as int);
            }
        }
        sts
    }
}

/// Sum of the counts of byte values below `n` in a table.
pub open spec fn count_of_sum(bf: ByteFreq, n: int) -> int
    decreases n,
{
    if n <= 0 {
        0
    } else {
        count_of_sum(bf, n - 1) + bf.count_of((n - 1) as u8)
    }
}

proof fn lemma_count_of_sum_eq(bf: ByteFreq, n: int)
    requires
        bf.wf(),
        0 <= n <= 256,
    ensures
        count_of_sum(bf, n) == sum_prefix(bf.counts@, n),
    decreases n,
{
    if n > 0 {
        lemma_count_of_sum_eq(bf, n - 1);
    }
}

/// The running total is always the sum of all 256 per-byte counts: however the
/// table was filled, `total_bytes` counts exactly the bytes recorded.
pub proof fn lemma_counts_sum_to_total(bf: ByteFreq)
    requires
        bf.wf(),
    ensures
        count_of_sum(bf, 256) == bf.total(),
{
    lemma_count_of_sum_eq(bf, 256);
}

/// Advance any iterator one step. Stated generically so that the standard
/// `Iterator` specification applies: the result is the head of the remaining
/// item sequence, or `None` once that sequence is empty.
fn iter_next<I: Iterator>(it: &mut I) -> (ret: Option<I::Item>)
    ensures
        (*final(it)).obeys_prophetic_iter_laws() == (*old(it)).obeys_prophetic_iter_laws(),
        (*final(it)).obeys_prophetic_iter_laws() ==> ({
            if (*old(it)).remaining().len() > 0 {
                &&& (*final(it)).remaining() == (*old(it)).remaining().drop_first()
                &&& ret == Some((*old(it)).remaining()[0])
            } else {
                &&& (*final(it)).remaining() == (*old(it)).remaining()
                &&& ret is None
            }
        }),
{
    it.next()
}

/// The outer-join record for key `k`: whichever of the two maps hold `k`
/// contribute their value; a side that lacks `k` contributes `None`.
pub open spec fn zip_entry<K, R, T>(m1: Map<K, R>, m2: Map<K, T>, k: K) -> (Option<R>, Option<T>) {
    (
        if m1.contains_key(k) {
            Some(m1[k])
        } else {
            None
        },
        if m2.contains_key(k) {
            Some(m2[k])
        } else {
            None
        },
    )
}

/// Outer join of two maps over one key type: the result holds every key
/// present in either map, with whichever of the two values are present, and
/// tolerates a key missing from either side. The guarantee is stated for key
/// types covered by the hash-map model (`obeys_key_model`); for any other key
/// type the join still runs, with nothing promised of it.
pub fn zip_map<K: Eq + Hash + Copy, R: Copy, T: Copy>(
    m1: &HashMap<K, R>,
    m2: &HashMap<K, T>,
) -> (zipped: HashMap<K, (Option<R>, Option<T>)>)
    ensures
        obeys_key_model::<K>() ==> {
            &&& zipped@.dom() == m1@.dom() + m2@.dom()
            &&& forall|k: K|
                #[trigger] zipped@.contains_key(k) ==> zipped@[k] == zip_entry(m1@, m2@, k)
        },
{
    broadcast use group_hash_axioms;

    let ghost cond = obeys_key_model::<K>() && builds_valid_hashers::<RandomState>();
    let mut zipped: HashMap<K, (Option<R>, Option<T>)> = HashMap::new();

    let n1: usize = m1.len();
    let mut ct: usize = 0;
    let mut it = m1.iter();
    let ghost vseq = it.remaining();
    let ghost mut idx: int = 0;
    proof {
        assert(vseq.skip(0) =~= vseq);
    }
    while ct < n1
        invariant
            cond == (obeys_key_model::<K>() && builds_valid_hashers::<RandomState>()),
            0 <= idx <= vseq.len(),
            it.remaining() == vseq.skip(idx),
            ct <= n1,
            cond ==> {
                &&& ct == idx
                &&& n1 == m1@.dom().len()
                &&& vseq == spec_hash_map_iter(m1).remaining()
                &&& forall|j: int|
                    0 <= j < idx ==> zipped@.contains_key(*(#[trigger] vseq[j]).0)
                &&& forall|k: K|
                    #[trigger] zipped@.contains_key(k) ==> m1@.contains_key(k) && zipped@[k]
                        == zip_entry(m1@, m2@, k)
            },
        ensures
            cond ==> idx == vseq.len() && {
                &&& forall|j: int|
                    0 <= j < idx ==> zipped@.contains_key(*(#[trigger] vseq[j]).0)
                &&& forall|k: K|
                    #[trigger] zipped@.contains_key(k) ==> m1@.contains_key(k) && zipped@[k]
                        == zip_entry(m1@, m2@, k)
            },
        decreases n1 - ct,
    {
        match iter_next(&mut it) {
            None => {
                proof {
                    assert(vseq.skip(idx).len() == 0);
                    assert(idx == vseq.len());
                }
                break ;
            },
            Some(pair) => {
                proof {
                    assert(pair == vseq.skip(idx)[0]);
                    assert(vseq.skip(idx)[0] == vseq[idx]);
                    assert(it.remaining() =~= vseq.skip(idx + 1));
                }
                let (k, v1) = pair;
                let second: Option<T> = match m2.get(k) {
                    Some(t) => Some(*t),
                    None => None,
                };
                zipped.insert(*k, (Some(*v1), second));
                ct += 1;
                proof {
                    if cond {
                        let v = spec_hash_map_iter(m1).remaining();
                        assert(m1@.contains_key(*v[idx].0) && m1@[*v[idx].0] == *v[idx].1);
                    }
                    idx = idx + 1;
                }
            },
        }
    }
    proof {
        if cond {
            let v = spec_hash_map_iter(m1).remaining();
            assert forall|k: K| #[trigger] m1@.contains_key(k) implies zipped@.contains_key(k) by {
                assert(v.contains((&k, &m1@[k])));
                let j = choose|j: int| 0 <= j < v.len() && v[j] == (&k, &m1@[k]);
                assert(zipped@.contains_key(*v[j].0));
            }
        }
    }

    let n2: usize = m2.len();
    let mut ct2: usize = 0;
    let mut it2 = m2.iter();
    let ghost wseq = it2.remaining();
    let ghost mut jdx: int = 0;
    proof {
        assert(wseq.skip(0) =~= wseq);
    }
    while ct2 < n2
        invariant
            cond == (obeys_key_model::<K>() && builds_valid_hashers::<RandomState>()),
            0 <= jdx <= wseq.len(),
            it2.remaining() == wseq.skip(jdx),
            ct2 <= n2,
            cond ==> {
                &&& ct2 == jdx
                &&& n2 == m2@.dom().len()
                &&& wseq == spec_hash_map_iter(m2).remaining()
                &&& forall|k: K| #[trigger] m1@.contains_key(k) ==> zipped@.contains_key(k)
                &&& forall|j: int|
                    0 <= j < jdx ==> zipped@.contains_key(*(#[trigger] wseq[j]).0)
                &&& forall|k: K|
                    #[trigger] zipped@.contains_key(k) ==> (m1@.contains_key(k)
                        || m2@.contains_key(k)) && zipped@[k] == zip_entry(m1@, m2@, k)
            },
        ensures
            cond ==> jdx == wseq.len() && {
                &&& forall|k: K| #[trigger] m1@.contains_key(k) ==> zipped@.contains_key(k)
                &&& forall|j: int|
                    0 <= j < jdx ==> zipped@.contains_key(*(#[trigger] wseq[j]).0)
                &&& forall|k: K|
                    #[trigger] zipped@.contains_key(k) ==> (m1@.contains_key(k)
                        || m2@.contains_key(k)) && zipped@[k] == zip_entry(m1@, m2@, k)
            },
        decreases n2 - ct2,
    {
        match iter_next(&mut it2) {
            None => {
                proof {
                    assert(wseq.skip(jdx).len() == 0);
                    assert(jdx == wseq.len());
                }
                break ;
            },
            Some(pair) => {
                proof {
                    assert(pair == wseq.skip(jdx)[0]);
                    assert(wseq.skip(jdx)[0] == wseq[jdx]);
                    assert(it2.remaining() =~= wseq.skip(jdx + 1));
                }
                let (k, v2) = pair;
                if !m1.contains_key(k) {
                    zipped.insert(*k, (None, Some(*v2)));
                }
                ct2 += 1;
                proof {
                    if cond {
                        let v = spec_hash_map_iter(m2).remaining();
                        assert(m2@.contains_key(*v[jdx].0) && m2@[*v[jdx].0] == *v[jdx].1);
                    }
                    jdx = jdx + 1;
                }
            },
        }
    }
    proof {
        if cond {
            let v = spec_hash_map_iter(m2).remaining();
            assert forall|k: K| #[trigger] m2@.contains_key(k) implies zipped@.contains_key(k) by {
                assert(v.contains((&k, &m2@[k])));
                let j = choose|j: int| 0 <= j < v.len() && v[j] == (&k, &m2@[k]);
                assert(zipped@.contains_key(*v[j].0));
            }
            assert(zipped@.dom() =~= m1@.dom() + m2@.dom());
        }
    }
    zipped
}

} // verus!

