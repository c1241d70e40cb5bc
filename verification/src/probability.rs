//! Symbol frequency distributions.

use std::collections::HashMap;
use vstd::prelude::*;

verus! {

broadcast use vstd::std_specs::hash::group_hash_axioms;

/// The number of times `s` was counted in `m`: its entry, or 0.
pub open spec fn map_count(m: Map<u8, usize>, s: u8) -> nat {
    if m.contains_key(s) { m[s] as nat } else { 0 }
}

/// Sum of the counts of the byte values below `k`.
pub open spec fn map_count_sum(m: Map<u8, usize>, k: nat) -> nat
    decreases k,
{
    if k == 0 {
        0
    } else {
        map_count_sum(m, (k - 1) as nat) + map_count(m, (k - 1) as u8)
    }
}

/// A frequency distribution over symbols.
#[derive(Debug)]
pub struct FrequencyDistribution {
    counts: HashMap<u8, usize>,
    total: usize,
}

/// Counting one more `b` adds one to the sums that include `b`.
proof fn lemma_count_sum_insert(m: Map<u8, usize>, b: u8, c: usize, k: nat)
    requires
        c == map_count(m, b) + 1,
        k <= 256,
    ensures
        map_count_sum(m.insert(b, c), k) == map_count_sum(m, k) + if (b as nat) < k { 1nat } else { 0nat },
    decreases k,
{
    if k > 0 {
        lemma_count_sum_insert(m, b, c, (k - 1) as nat);
        assert(((k - 1) as u8) as nat == k - 1);
    }
}

/// Every single count is part of the sum.
proof fn lemma_count_le_sum(m: Map<u8, usize>, s: u8, k: nat)
    requires
        (s as nat) < k <= 256,
    ensures
        map_count(m, s) <= map_count_sum(m, k),
    decreases k,
{
    if (s as nat) < k - 1 {
        lemma_count_le_sum(m, s, (k - 1) as nat);
    } else {
        assert(((k - 1) as u8) == s);
    }
}

impl Clone for FrequencyDistribution {
    fn clone(&self) -> (c: Self)
        ensures
            forall|s: u8| #[trigger] c.count_of(s) == self.count_of(s),
            c.total_of() == self.total_of(),
    {
        proof {
            use_type_invariant(self);
        }
        FrequencyDistribution { counts: self.counts.clone(), total: self.total }
    }
}

impl FrequencyDistribution {
    /// Every recorded symbol was seen, and the total is the sum of the counts.
    #[verifier::type_invariant]
    spec fn counts_add_up(self) -> bool {
        &&& forall|s: u8| #[trigger] self.counts@.contains_key(s) ==> self.counts@[s] >= 1
        &&& self.total == map_count_sum(self.counts@, 256)
    }

    /// How many times `s` occurs.
    pub closed spec fn count_of(self, s: u8) -> nat {
        map_count(self.counts@, s)
    }

    /// The number of counted symbols.
    pub closed spec fn total_of(self) -> nat {
        self.total as nat
    }

    /// Sum of the counts of the byte values below `k`.
    pub open spec fn count_sum(self, k: nat) -> nat
        decreases k,
    {
        if k == 0 {
            0
        } else {
            self.count_sum((k - 1) as nat) + self.count_of((k - 1) as u8)
        }
    }

    /// The symbols that occur.
    pub open spec fn support(self) -> Set<u8> {
        Set::new(|s: u8| self.count_of(s) > 0)
    }

    /// The symbols below `k` that occur, in ascending order.
    pub open spec fn symbols_below(self, k: nat) -> Seq<u8>
        decreases k,
    {
        if k == 0 {
            Seq::empty()
        } else {
            let prev = self.symbols_below((k - 1) as nat);
            if self.count_of((k - 1) as u8) > 0 {
                prev.push((k - 1) as u8)
            } else {
                prev
            }
        }
    }

    /// The symbols that occur, in ascending order.
    pub open spec fn symbols(self) -> Seq<u8> {
        self.symbols_below(256)
    }

    /// Create from a byte slice.
    pub fn from_bytes(data: &[u8]) -> (f: Self)
        ensures
            forall|s: u8| #[trigger] f.count_of(s) == data@.to_multiset().count(s),
            f.total_of() == data@.len(),
    {
        let mut counts: HashMap<u8, usize> = HashMap::new();
        let mut total: usize = 0;
        let mut i: usize = 0;
        assert forall|s: u8| #[trigger] map_count(counts@, s) == data@.take(0).to_multiset().count(s) by {
            assert(data@.take(0) =~= Seq::<u8>::empty());
            vstd::multiset::axiom_multiset_empty(s);
            Seq::<u8>::empty().to_multiset_ensures();
            vstd::multiset::lemma_multiset_empty_len(Seq::<u8>::empty().to_multiset());
        }
        proof {
            lemma_count_sum_empty(counts@, 256);
        }
        while i < data.len()
            invariant
                i <= data@.len(),
                total == i,
                forall|s: u8| #[trigger] map_count(counts@, s) == data@.take(i as int).to_multiset().count(s),
                forall|s: u8| #[trigger] counts@.contains_key(s) ==> counts@[s] >= 1,
                forall|s: u8| #[trigger] map_count(counts@, s) <= i,
                total == map_count_sum(counts@, 256),
            decreases data@.len() - i,
        {
            let b = data[i];
            let c: usize = match counts.get(&b) {
                Some(c) => *c,
                None => 0,
            };
            let ghost prev = data@.take(i as int);
            let ghost old_counts = counts@;
            proof {
                assert(data@.take(i as int + 1) =~= prev.push(b));
                prev.to_multiset_ensures();
                assert(prev.push(b).to_multiset() =~= prev.to_multiset().insert(b));
                assert(data@.take(i as int + 1).to_multiset() =~= prev.to_multiset().insert(b));
                assert(map_count(counts@, b) == c);
                lemma_count_sum_insert(counts@, b, (c + 1) as usize, 256);
            }
            counts.insert(b, c + 1);
            total = total + 1;
            i = i + 1;
            proof {
                assert forall|s: u8| #[trigger] map_count(counts@, s) == data@.take(i as int).to_multiset().count(s) by {
                    vstd::multiset::lemma_insert_increases_count_by_1(prev.to_multiset(), b);
                    vstd::multiset::lemma_insert_other_elements_unchanged(prev.to_multiset(), b, s);
                    assert(map_count(old_counts, s) == prev.to_multiset().count(s));
                }
            }
        }
        assert(data@.take(data@.len() as int) =~= data@);
        FrequencyDistribution { counts, total }
    }

    /// Get the count for a symbol.
    pub fn count(&self, symbol: u8) -> (c: usize)
        ensures
            c == self.count_of(symbol),
    {
        match self.counts.get(&symbol) {
            Some(c) => *c,
            None => 0,
        }
    }

    /// Get the total count: the sum of the counts of all symbols.
    pub fn total(&self) -> (t: usize)
        ensures
            t == self.total_of(),
            self.total_of() == self.count_sum(256),
            forall|s: u8| #[trigger] self.count_of(s) <= self.total_of(),
    {
        proof {
            use_type_invariant(self);
            lemma_count_sum_map(self, 256);
            assert forall|s: u8| #[trigger] self.count_of(s) <= self.total_of() by {
                lemma_count_le_sum(self.counts@, s, 256);
            }
        }
        self.total
    }

    /// Get the number of unique symbols.
    pub fn alphabet_size(&self) -> (n: usize)
        ensures
            n == self.support().len(),
    {
        proof {
            use_type_invariant(self);
            assert(self.counts@.dom() =~= self.support());
        }
        self.counts.len()
    }

    /// Get all (symbol, count) pairs, in ascending order of symbol.
    pub fn iter(&self) -> (pairs: Vec<(u8, usize)>)
        ensures
            pairs@ == self.symbols().map_values(|s: u8| (s, self.count_of(s) as usize)),
    {
        let mut pairs: Vec<(u8, usize)> = Vec::new();
        let mut k: usize = 0;
        while k < 256
            invariant
                k <= 256,
                pairs@ == self.symbols_below(k as nat).map_values(|s: u8| (s, self.count_of(s) as usize)),
            decreases 256 - k,
        {
            let s = k as u8;
            let c = self.count(s);
            if c > 0 {
                pairs.push((s, c));
            }
            k = k + 1;
            proof {
                assert(((k - 1) as u8) == s);
                assert(pairs@ =~= self.symbols_below(k as nat).map_values(|s: u8| (s, self.count_of(s) as usize)));
            }
        }
        pairs
    }

    /// Get the most probable symbol: one with the largest count (among
    /// equally frequent symbols, the largest), or `None` when nothing was
    /// counted.
    pub fn mode(&self) -> (m: Option<u8>)
        ensures
            (m is None) <==> self.support().is_empty(),
            m matches Some(s) ==> {
                &&& self.count_of(s) > 0
                &&& forall|t: u8| #[trigger] self.count_of(t) <= self.count_of(s)
                &&& forall|t: u8| t > s ==> #[trigger] self.count_of(t) < self.count_of(s)
            },
    {
        let mut best: Option<u8> = None;
        let mut best_count: usize = 0;
        let mut k: usize = 0;
        while k < 256
            invariant
                k <= 256,
                best is None ==> best_count == 0 && forall|t: u8| (t as nat) < k ==> #[trigger] self.count_of(t) == 0,
                best matches Some(s) ==> {
                    &&& (s as nat) < k
                    &&& self.count_of(s) == best_count
                    &&& best_count > 0
                    &&& forall|t: u8| (t as nat) < k ==> #[trigger] self.count_of(t) <= best_count
                    &&& forall|t: u8| s < t && (t as nat) < k ==> #[trigger] self.count_of(t) < best_count
                },
            decreases 256 - k,
        {
            let s = k as u8;
            let c = self.count(s);
            if c > 0 && c >= best_count {
                best = Some(s);
                best_count = c;
            }
            k = k + 1;
            proof {
                assert(((k - 1) as u8) == s);
            }
        }
        proof {
            if best is None {
                assert(self.support() =~= Set::empty());
            } else {
                let s = best->0;
                assert(self.support().contains(s));
            }
        }
        best
    }
}

/// The pairs `(data1[i], data2[i])` at the positions that both sequences
/// have.
pub open spec fn paired(data1: Seq<u8>, data2: Seq<u8>) -> Seq<(u8, u8)> {
    let n = if data1.len() < data2.len() { data1.len() } else { data2.len() };
    Seq::new(n, |i: int| (data1[i], data2[i]))
}

/// Where the count of the pair `(a, b)` stands.
pub open spec fn pair_index(a: u8, b: u8) -> int {
    256 * a + b
}

/// How often each pair of bytes occurs at the same position of two
/// sequences: entry `256 * a + b` counts the pair `(a, b)`.
pub fn pair_counts(data1: &[u8], data2: &[u8]) -> (counts: Vec<usize>)
    ensures
        counts@.len() == 65536,
        forall|a: u8, b: u8| #[trigger] counts@[pair_index(a, b)] == paired(data1@, data2@).to_multiset().count((a, b)),
{
    let ghost pairs = paired(data1@, data2@);
    let n: usize = if data1.len() < data2.len() { data1.len() } else { data2.len() };
    let mut counts: Vec<usize> = Vec::new();
    let mut k: usize = 0;
    while k < 65536
        invariant
            k <= 65536,
            counts@.len() == k,
            forall|j: int| 0 <= j < k ==> #[trigger] counts@[j] == 0,
        decreases 65536 - k,
    {
        counts.push(0);
        k = k + 1;
    }
    assert forall|a: u8, b: u8| #[trigger] counts@[pair_index(a, b)] == pairs.take(0).to_multiset().count((a, b)) by {
        assert(pairs.take(0) =~= Seq::<(u8, u8)>::empty());
        vstd::multiset::axiom_multiset_empty((a, b));
        Seq::<(u8, u8)>::empty().to_multiset_ensures();
    }
    let mut i: usize = 0;
    while i < n
        invariant
            i <= n,
            n == pairs.len(),
            n <= data1@.len(),
            n <= data2@.len(),
            pairs == paired(data1@, data2@),
            counts@.len() == 65536,
            forall|a: u8, b: u8| #[trigger] counts@[pair_index(a, b)] == pairs.take(i as int).to_multiset().count((a, b)),
            forall|j: int| 0 <= j < 65536 ==> #[trigger] counts@[j] <= i,
        decreases n - i,
    {
        let a = data1[i];
        let b = data2[i];
        let idx: usize = 256 * (a as usize) + (b as usize);
        let ghost prev = pairs.take(i as int);
        let ghost old_counts = counts@;
        proof {
            assert(pairs[i as int] == (a, b));
            assert(pairs.take(i as int + 1) =~= prev.push((a, b)));
            prev.to_multiset_ensures();
            assert(prev.push((a, b)).to_multiset() =~= prev.to_multiset().insert((a, b)));
            assert(idx == pair_index(a, b));
        }
        let c = counts[idx];
        counts.set(idx, c + 1);
        i = i + 1;
        proof {
            assert forall|x: u8, y: u8| #[trigger] counts@[pair_index(x, y)] == pairs.take(i as int).to_multiset().count((x, y)) by {
                vstd::multiset::lemma_insert_increases_count_by_1(prev.to_multiset(), (a, b));
                vstd::multiset::lemma_insert_other_elements_unchanged(prev.to_multiset(), (a, b), (x, y));
                assert(old_counts[pair_index(x, y)] == prev.to_multiset().count((x, y)));
                if (x, y) != (a, b) {
                    assert(pair_index(x, y) != pair_index(a, b));
                }
            }
        }
    }
    assert(pairs.take(n as int) =~= pairs);
    counts
}

/// Without entries every sum is zero.
proof fn lemma_count_sum_empty(m: Map<u8, usize>, k: nat)
    requires
        m == Map::<u8, usize>::empty(),
    ensures
        map_count_sum(m, k) == 0,
    decreases k,
{
    if k > 0 {
        lemma_count_sum_empty(m, (k - 1) as nat);
    }
}

/// The total fits in a `usize`.
pub(crate) proof fn lemma_total_bound(freq: &FrequencyDistribution)
    ensures
        freq.total_of() <= usize::MAX,
{
}

/// At most `k` symbols lie below `k`.
pub(crate) proof fn lemma_symbols_len(freq: &FrequencyDistribution, k: nat)
    ensures
        freq.symbols_below(k).len() <= k,
    decreases k,
{
    if k > 0 {
        lemma_symbols_len(freq, (k - 1) as nat);
    }
}

/// The sum over the byte values below `k` grows by the count of `k - 1`.
pub(crate) proof fn lemma_count_sum_step(freq: &FrequencyDistribution, k: nat)
    requires
        k > 0,
    ensures
        freq.count_sum(k) == freq.count_sum((k - 1) as nat) + freq.count_of((k - 1) as u8),
{
}

/// With nothing counted no symbol occurs.
pub(crate) proof fn lemma_no_symbols(freq: &FrequencyDistribution, k: nat)
    requires
        freq.total_of() == 0,
        forall|s: u8| #[trigger] freq.count_of(s) <= freq.total_of(),
    ensures
        freq.symbols_below(k) == Seq::<u8>::empty(),
    decreases k,
{
    if k > 0 {
        lemma_no_symbols(freq, (k - 1) as nat);
        assert(freq.count_of((k - 1) as u8) == 0);
    }
}

/// Every occurring symbol below `k` is listed.
pub(crate) proof fn lemma_symbols_contains(freq: &FrequencyDistribution, s: u8, k: nat)
    requires
        freq.count_of(s) > 0,
        (s as nat) < k <= 256,
    ensures
        freq.symbols_below(k).contains(s),
    decreases k,
{
    if (s as nat) < k - 1 {
        lemma_symbols_contains(freq, s, (k - 1) as nat);
        let prev = freq.symbols_below((k - 1) as nat);
        let i = choose|i: int| 0 <= i < prev.len() && prev[i] == s;
        if freq.count_of((k - 1) as u8) > 0 {
            assert(freq.symbols_below(k)[i] == s);
        }
    } else {
        assert(((k - 1) as u8) == s);
        assert(freq.symbols_below(k).last() == s);
    }
}

/// The symbols below `k` are strictly ascending and below `k`.
pub(crate) proof fn lemma_symbols_ascending(freq: &FrequencyDistribution, k: nat)
    requires
        k <= 256,
    ensures
        forall|i: int, j: int|
            0 <= i < j < freq.symbols_below(k).len() ==> freq.symbols_below(k)[i] < freq.symbols_below(k)[j],
        forall|i: int| 0 <= i < freq.symbols_below(k).len() ==> (#[trigger] freq.symbols_below(k)[i] as nat) < k,
    decreases k,
{
    if k > 0 {
        lemma_symbols_ascending(freq, (k - 1) as nat);
        let prev = freq.symbols_below((k - 1) as nat);
        let cur = freq.symbols_below(k);
        assert(((k - 1) as u8) as nat == k - 1);
        if freq.count_of((k - 1) as u8) > 0 {
            assert(cur == prev.push((k - 1) as u8));
            assert forall|i: int| 0 <= i < cur.len() implies (#[trigger] cur[i] as nat) < k by {
                if i < prev.len() {
                    assert(cur[i] == prev[i]);
                }
            }
            assert forall|i: int, j: int| 0 <= i < j < cur.len() implies cur[i] < cur[j] by {
                assert(cur[i] == prev[i]);
                if j < prev.len() {
                    assert(cur[j] == prev[j]);
                }
            }
        }
    }
}

/// The sum of the counts is the sum over the stored entries.
proof fn lemma_count_sum_map(freq: &FrequencyDistribution, k: nat)
    ensures
        freq.count_sum(k) == map_count_sum(freq.counts@, k),
    decreases k,
{
    if k > 0 {
        lemma_count_sum_map(freq, (k - 1) as nat);
    }
}

/// Every listed symbol below `k` occurs.
pub(crate) proof fn lemma_symbols_occur(freq: &FrequencyDistribution, k: nat)
    ensures
        forall|i: int| 0 <= i < freq.symbols_below(k).len() ==> freq.count_of(#[trigger] freq.symbols_below(k)[i]) > 0,
    decreases k,
{
    if k > 0 {
        lemma_symbols_occur(freq, (k - 1) as nat);
        let prev = freq.symbols_below((k - 1) as nat);
        let cur = freq.symbols_below(k);
        assert forall|i: int| 0 <= i < cur.len() implies freq.count_of(#[trigger] cur[i]) > 0 by {
            if i < prev.len() {
                assert(cur[i] == prev[i]);
            }
        }
    }
}

} // verus!
