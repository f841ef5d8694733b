//! Frequency learning and packed sampling tables.
//!
//! A learning model accumulates, per context (the previous one or two
//! token indices), how often each token index was observed next. Packing
//! turns one context's raw counts into an immutable cumulative-weight
//! table for proportional sampling.

use vstd::prelude::*;

use crate::text::parse_u64;
use crate::text::parses_u64;
use crate::text::u64_value;
use crate::tokenizer::Token;
use crate::tokenizer::TokenView;
use crate::tokenizer::line_view;
use crate::tokenizer::token_eq;
use crate::tokenizer::tokenize_line;
use crate::tokenizer::tokenize_view;

verus! {

/// How often a token was observed after a context.
pub type OccurenceCount = usize;

/// A token's dense index in the vocabulary.
pub type TokenIdx = usize;

/// The identifier of one chat user.
pub type UserId = u64;

/// No two pairs of the association list share a key.
pub open spec fn keys_unique<K, V>(s: Seq<(K, V)>) -> bool {
    forall|i: int, j: int| 0 <= i < j < s.len() ==> (#[trigger] s[i]).0 != (#[trigger] s[j]).0
}

/// Whether some pair of the association list has the key.
pub open spec fn in_keys<K, V>(s: Seq<(K, V)>, k: K) -> bool {
    exists|i: int| 0 <= i < s.len() && (#[trigger] s[i]).0 == k
}

/// The finite map an association list denotes.
pub open spec fn assoc_map<K, V>(s: Seq<(K, V)>) -> Map<K, V>
    decreases s.len(),
{
    if s.len() == 0 {
        Map::empty()
    } else {
        assoc_map(s.drop_last()).insert(s.last().0, s.last().1)
    }
}

/// An association list with unique keys denotes exactly its pairs.
pub proof fn lemma_assoc_map_props<K, V>(s: Seq<(K, V)>)
    requires
        keys_unique(s),
    ensures
        forall|k: K| #[trigger] assoc_map(s).contains_key(k) ==> in_keys(s, k),
        forall|k: K| in_keys(s, k) ==> #[trigger] assoc_map(s).contains_key(k),
        forall|i: int| 0 <= i < s.len() ==> assoc_map(s)[(#[trigger] s[i]).0] == s[i].1,
    decreases s.len(),
{
    if s.len() > 0 {
        let dl = s.drop_last();
        lemma_assoc_map_props(dl);
        assert forall|k: K| #[trigger] assoc_map(s).contains_key(k) implies in_keys(s, k) by {
            if k == s.last().0 {
                assert(s[s.len() - 1].0 == k);
                assert(in_keys(s, k));
            } else {
                assert(assoc_map(dl).contains_key(k));
                assert(in_keys(dl, k));
                let i = choose|i: int| 0 <= i < dl.len() && (#[trigger] dl[i]).0 == k;
                assert(dl[i] == s[i]);
                assert(s[i].0 == k);
                assert(in_keys(s, k));
            }
        }
        assert forall|k: K| in_keys(s, k) implies #[trigger] assoc_map(s).contains_key(k) by {
            let i = choose|i: int| 0 <= i < s.len() && (#[trigger] s[i]).0 == k;
            if i < s.len() - 1 {
                assert(dl[i] == s[i]);
                assert(in_keys(dl, k));
                assert(assoc_map(dl).contains_key(k));
            }
        }
        assert forall|i: int| 0 <= i < s.len() implies assoc_map(s)[(#[trigger] s[i]).0]
            == s[i].1 by {
            if i < s.len() - 1 {
                assert(dl[i] == s[i]);
                assert(assoc_map(dl)[s[i].0] == s[i].1);
                assert(s[i].0 != s[s.len() - 1].0);
            }
        }
    }
}

/// Updating one pair's value updates the denoted map pointwise.
pub proof fn lemma_assoc_map_update<K, V>(s: Seq<(K, V)>, i: int, v: V)
    requires
        keys_unique(s),
        0 <= i < s.len(),
    ensures
        assoc_map(s.update(i, (s[i].0, v))) == assoc_map(s).insert(s[i].0, v),
    decreases s.len(),
{
    let t = s.update(i, (s[i].0, v));
    if i == s.len() - 1 {
        assert(t.drop_last() =~= s.drop_last());
        assert(assoc_map(t) =~= assoc_map(s).insert(s[i].0, v));
    } else {
        let dl = s.drop_last();
        assert(forall|j: int| 0 <= j < dl.len() ==> dl[j] == s[j]);
        lemma_assoc_map_update(dl, i, v);
        assert(t.drop_last() =~= dl.update(i, (s[i].0, v)));
        assert(t.last() == s.last());
        assert(s[i].0 != s.last().0);
        assert(assoc_map(t) =~= assoc_map(s).insert(s[i].0, v));
    }
}

/// Appending a fresh key extends the denoted map.
pub proof fn lemma_assoc_map_push<K, V>(s: Seq<(K, V)>, k: K, v: V)
    ensures
        assoc_map(s.push((k, v))) == assoc_map(s).insert(k, v),
        !in_keys(s, k) ==> keys_unique(s) ==> keys_unique(s.push((k, v))),
{
    assert(s.push((k, v)).drop_last() =~= s);
    if !in_keys(s, k) && keys_unique(s) {
        let t = s.push((k, v));
        assert forall|i: int, j: int| 0 <= i < j < t.len() implies (#[trigger] t[i]).0 != (
        #[trigger] t[j]).0 by {
            if j == t.len() - 1 {
                assert((#[trigger] s[i]).0 == t[i].0);
            }
        }
    }
}

/// The sum of all counts of an association list of counts.
pub open spec fn sum_counts(s: Seq<(TokenIdx, OccurenceCount)>) -> int
    decreases s.len(),
{
    if s.len() == 0 {
        0
    } else {
        sum_counts(s.drop_last()) + s.last().1
    }
}

/// Count sums are non-negative.
pub proof fn lemma_sum_counts_nonneg(s: Seq<(TokenIdx, OccurenceCount)>)
    ensures
        sum_counts(s) >= 0,
    decreases s.len(),
{
    if s.len() > 0 {
        lemma_sum_counts_nonneg(s.drop_last());
    }
}

/// The sum over a prefix never exceeds the sum over a longer prefix.
pub proof fn lemma_sum_counts_take_le(s: Seq<(TokenIdx, OccurenceCount)>, i: int, j: int)
    requires
        0 <= i <= j <= s.len(),
    ensures
        sum_counts(s.take(i)) <= sum_counts(s.take(j)),
    decreases j - i,
{
    if i < j {
        lemma_sum_counts_take_le(s, i, j - 1);
        assert(s.take(j).drop_last() =~= s.take(j - 1));
    }
}

/// Each count is at most the sum of all counts.
pub proof fn lemma_sum_counts_ge_entry(s: Seq<(TokenIdx, OccurenceCount)>, i: int)
    requires
        0 <= i < s.len(),
    ensures
        s[i].1 <= sum_counts(s),
    decreases s.len(),
{
    if i == s.len() - 1 {
        lemma_sum_counts_nonneg(s.drop_last());
    } else {
        lemma_sum_counts_ge_entry(s.drop_last(), i);
    }
}

/// Replacing one count changes the sum by the difference.
pub proof fn lemma_sum_counts_update(s: Seq<(TokenIdx, OccurenceCount)>, i: int, p: (TokenIdx, OccurenceCount))
    requires
        0 <= i < s.len(),
    ensures
        sum_counts(s.update(i, p)) == sum_counts(s) - s[i].1 + p.1,
    decreases s.len(),
{
    let t = s.update(i, p);
    if i == s.len() - 1 {
        assert(t.drop_last() =~= s.drop_last());
    } else {
        assert(t.drop_last() =~= s.drop_last().update(i, p));
        lemma_sum_counts_update(s.drop_last(), i, p);
    }
}

/// The count a map records for a token index, zero when absent.
pub open spec fn count_in(m: Map<TokenIdx, OccurenceCount>, k: TokenIdx) -> int {
    if m.contains_key(k) {
        m[k] as int
    } else {
        0
    }
}

/// Raw per-context frequency data: each observed next-token index with its
/// occurrence count, and the total of all counts.
pub struct FrequencyTable {
    /// Sum of all counts in `entries`.
    pub total: OccurenceCount,
    /// Unique token indices, each with its positive count.
    pub entries: Vec<(TokenIdx, OccurenceCount)>,
}

impl FrequencyTable {
    /// Internal consistency: unique keys, positive counts, correct total.
    pub open spec fn wf(&self) -> bool {
        &&& keys_unique(self.entries@)
        &&& self.total == sum_counts(self.entries@)
        &&& forall|i: int| 0 <= i < self.entries@.len() ==> (#[trigger] self.entries@[i]).1 >= 1
    }

    /// The counts this table records.
    pub open spec fn counts(&self) -> Map<TokenIdx, OccurenceCount> {
        assoc_map(self.entries@)
    }

    /// All recorded token indices lie below the bound.
    pub open spec fn bounded(&self, n: int) -> bool {
        forall|i: int| 0 <= i < self.entries@.len() ==> (#[trigger] self.entries@[i]).0 < n
    }

    /// An empty table: no observations.
    pub fn new() -> (r: FrequencyTable)
        ensures
            r.wf(),
            r.entries@.len() == 0,
            r.total == 0,
    {
        FrequencyTable { total: 0, entries: Vec::new() }
    }

    /// Record `n` more observations of token `idx`, saturating at the
    /// machine limit on the table's total.
    pub fn increment(&mut self, idx: TokenIdx, n: OccurenceCount)
        requires
            old(self).wf(),
            n >= 1,
        ensures
            final(self).wf(),
            final(self).total == old(self).total + spec_add_room(old(self).total, n),
            old(self).total < usize::MAX ==> final(self).counts() == old(self).counts().insert(
                idx,
                (count_in(old(self).counts(), idx) + spec_add_room(old(self).total, n)) as usize,
            ),
            old(self).total == usize::MAX ==> *final(self) == *old(self),
            forall|b: int|
                #![trigger final(self).bounded(b)]
                old(self).bounded(b) && idx < b ==> final(self).bounded(b),
    {
        proof {
            lemma_assoc_map_props(self.entries@);
        }
        if self.total == usize::MAX {
            return ;
        }
        let room = usize::MAX - self.total;
        let m = if n <= room {
            n
        } else {
            room
        };
        match find_key(&self.entries, idx) {
            Some(i) => {
                let c = self.entries[i].1;
                proof {
                    lemma_sum_counts_ge_entry(self.entries@, i as int);
                    lemma_sum_counts_update(self.entries@, i as int, (idx, (c + m) as usize));
                    lemma_assoc_map_update(self.entries@, i as int, (c + m) as usize);
                }
                self.entries.set(i, (idx, c + m));
                self.total = self.total + m;
                proof {
                    assert(count_in(old(self).counts(), idx) == c);
                    assert(self.counts() == old(self).counts().insert(
                        idx,
                        (count_in(old(self).counts(), idx) + m) as usize,
                    ));
                }
            },
            None => {
                proof {
                    lemma_assoc_map_push(self.entries@, idx, m);
                    assert(sum_counts(self.entries@.push((idx, m))) == sum_counts(self.entries@)
                        + m) by {
                        assert(self.entries@.push((idx, m)).drop_last() =~= self.entries@);
                    }
                }
                self.entries.push((idx, m));
                self.total = self.total + m;
                proof {
                    assert(count_in(old(self).counts(), idx) == 0);
                    assert(self.counts() == old(self).counts().insert(
                        idx,
                        (count_in(old(self).counts(), idx) + m) as usize,
                    ));
                }
            },
        }
    }
}

/// The position of a token index among an association list's keys.
pub fn find_key(entries: &Vec<(TokenIdx, OccurenceCount)>, idx: TokenIdx) -> (r: Option<usize>)
    ensures
        r matches Some(i) ==> 0 <= i < entries@.len() && entries@[i as int].0 == idx,
        r is None ==> !in_keys(entries@, idx),
{
    let mut i: usize = 0;
    while i < entries.len()
        invariant
            i <= entries@.len(),
            forall|j: int| 0 <= j < i ==> (#[trigger] entries@[j]).0 != idx,
        decreases entries@.len() - i,
    {
        if entries[i].0 == idx {
            return Some(i);
        }
        i += 1;
    }
    None
}

/// Non-increasing occurrence counts.
pub open spec fn sorted_desc(s: Seq<(TokenIdx, OccurenceCount)>) -> bool {
    forall|a: int, b: int|
        #![trigger s[a], s[b]]
        0 <= a <= b < s.len() ==> s[a].1 >= s[b].1
}

/// Swapping two positions leaves a sequence's multiset unchanged.
proof fn lemma_swap_multiset<A>(s: Seq<A>, i: int, j: int)
    requires
        0 <= i < j < s.len(),
    ensures
        s.update(i, s[j]).update(j, s[i]).to_multiset() == s.to_multiset(),
{
    broadcast use vstd::seq_lib::to_multiset_update;
    broadcast use vstd::seq_lib::to_multiset_contains;
    broadcast use vstd::multiset::group_multiset_axioms;
    broadcast use vstd::multiset::group_multiset_properties;

    let s1 = s.update(i, s[j]);
    assert(s1[j] == s[j]);
    assert(s.contains(s[i]));
    assert(s.contains(s[j]));
    assert(s.to_multiset().count(s[i]) > 0);
    assert(s.to_multiset().count(s[j]) > 0);
    assert(s1.update(j, s[i]).to_multiset() =~= s.to_multiset());
}

/// Sort by non-increasing occurrence count. The result is a permutation
/// of the input with the same count sum.
fn sort_desc_by_count(v: &mut Vec<(TokenIdx, OccurenceCount)>)
    ensures
        final(v)@.len() == old(v)@.len(),
        final(v)@.to_multiset() == old(v)@.to_multiset(),
        sum_counts(final(v)@) == sum_counts(old(v)@),
        sorted_desc(final(v)@),
        forall|i: int| 0 <= i < final(v)@.len() ==> old(v)@.contains(#[trigger] final(v)@[i]),
{
    broadcast use vstd::seq_lib::to_multiset_contains;

    let ghost orig = old(v)@;
    if v.len() == 0 {
        return ;
    }
    let mut i: usize = 1;
    while i < v.len()
        invariant
            1 <= i,
            i <= v@.len(),
            v@.len() == orig.len(),
            v@.to_multiset() == orig.to_multiset(),
            sum_counts(v@) == sum_counts(orig),
            forall|a: int, b: int|
                #![trigger v@[a], v@[b]]
                0 <= a <= b < i ==> v@[a].1 >= v@[b].1,
        decreases v@.len() - i,
    {
        let mut j: usize = i;
        while j > 0 && v[j - 1].1 < v[j].1
            invariant
                j <= i,
                i < v@.len(),
                v@.len() == orig.len(),
                v@.to_multiset() == orig.to_multiset(),
                sum_counts(v@) == sum_counts(orig),
                forall|a: int, b: int|
                    #![trigger v@[a], v@[b]]
                    0 <= a <= b <= i && b != j ==> v@[a].1 >= v@[b].1,
            decreases j,
        {
            let ghost pre = v@;
            let x = v[j - 1];
            let y = v[j];
            v.set(j - 1, y);
            v.set(j, x);
            proof {
                lemma_swap_multiset(pre, j - 1, j as int);
                lemma_sum_counts_update(pre, j - 1, y);
                lemma_sum_counts_update(pre.update(j - 1, y), j as int, x);
                assert(v@ == pre.update(j - 1, y).update(j as int, x));
            }
            j -= 1;
        }
        proof {
            let jj = j as int;
            let ii = i as int;
            assert forall|a: int, b: int|
                #![trigger v@[a], v@[b]]
                0 <= a <= b <= ii implies v@[a].1 >= v@[b].1 by {
                if b == jj && a < jj {
                    assert(v@[a].1 >= v@[jj - 1].1);
                    assert(v@[jj - 1].1 >= v@[jj].1);
                }
            }
        }
        i += 1;
    }
    proof {
        assert forall|k: int| 0 <= k < v@.len() implies orig.contains(#[trigger] v@[k]) by {
            assert(v@.contains(v@[k]));
            assert(v@.to_multiset().count(v@[k]) > 0);
        }
    }
}

/// An immutable cumulative-weight table for one context: the token indices
/// in order of non-increasing frequency, each with the running total of
/// counts up to and including it.
pub struct CumulativeWordTable {
    /// The sum of all per-token occurrence counts in the table.
    pub occurences: OccurenceCount,
    /// Token indices with cumulative counts, most frequent first.
    pub token_table: Vec<(TokenIdx, OccurenceCount)>,
}

/// The per-token occurrence count hidden at position `i` of a cumulative
/// table: the cumulative value minus its predecessor's.
pub open spec fn increment_at(t: Seq<(TokenIdx, OccurenceCount)>, i: int) -> int {
    if i == 0 {
        t[0].1 as int
    } else {
        t[i].1 - t[i - 1].1
    }
}

/// The per-token entries a cumulative table encodes.
pub open spec fn increments_of(t: Seq<(TokenIdx, OccurenceCount)>) -> Seq<(
    TokenIdx,
    OccurenceCount,
)> {
    Seq::new(t.len(), |i: int| (t[i].0, increment_at(t, i) as usize))
}

impl CumulativeWordTable {
    /// The packed-table invariant: the cumulative sequence is
    /// non-decreasing, its final value equals the recorded total, and the
    /// per-token increments are sorted non-increasing.
    pub open spec fn wf(&self) -> bool {
        let tt = self.token_table@;
        &&& forall|i: int| 0 < i < tt.len() ==> (#[trigger] tt[i]).1 >= tt[i - 1].1
        &&& (tt.len() > 0 ==> tt[tt.len() - 1].1 == self.occurences)
        &&& (tt.len() == 0 ==> self.occurences == 0)
        &&& forall|i: int|
            0 < i < tt.len() ==> #[trigger] increment_at(tt, i) <= increment_at(tt, i - 1)
    }

    /// All token indices in the table lie below the bound.
    pub open spec fn bounded(&self, n: int) -> bool {
        forall|i: int|
            0 <= i < self.token_table@.len() ==> (#[trigger] self.token_table@[i]).0 < n
    }
}

/// Pack one context's raw frequency data: sort the per-token counts by
/// non-increasing count, then replace each count by the running total.
/// The packed entries are a permutation of the raw ones, and the final
/// cumulative value is the sum of all input counts.
#[verifier::rlimit(30)]
pub fn pack_table(word_map: &FrequencyTable) -> (r: CumulativeWordTable)
    requires
        word_map.wf(),
    ensures
        r.wf(),
        r.occurences == word_map.total,
        r.token_table@.len() == word_map.entries@.len(),
        increments_of(r.token_table@).to_multiset() == word_map.entries@.to_multiset(),
        forall|b: int| #![trigger r.bounded(b)] word_map.bounded(b) ==> r.bounded(b),
{
    let mut pre_sort: Vec<(TokenIdx, OccurenceCount)> = Vec::new();
    let mut i: usize = 0;
    while i < word_map.entries.len()
        invariant
            i <= word_map.entries@.len(),
            pre_sort@ == word_map.entries@.take(i as int),
        decreases word_map.entries@.len() - i,
    {
        pre_sort.push(word_map.entries[i]);
        i += 1;
        proof {
            assert(word_map.entries@.take(i as int).drop_last() =~= word_map.entries@.take(
                i - 1,
            ));
            assert(pre_sort@ =~= word_map.entries@.take(i as int));
        }
    }
    proof {
        assert(word_map.entries@.take(word_map.entries@.len() as int) =~= word_map.entries@);
    }
    sort_desc_by_count(&mut pre_sort);

    let ghost sorted = pre_sort@;
    let mut occurences: usize = 0;
    let mut table: Vec<(TokenIdx, OccurenceCount)> = Vec::new();
    let mut i: usize = 0;
    while i < pre_sort.len()
        invariant
            i <= pre_sort@.len(),
            pre_sort@ == sorted,
            sum_counts(sorted) == word_map.total,
            table@.len() == i,
            occurences == sum_counts(sorted.take(i as int)),
            forall|k: int|
                0 <= k < i ==> (#[trigger] table@[k]).0 == sorted[k].0 && table@[k].1
                    == sum_counts(sorted.take(k + 1)),
        decreases pre_sort@.len() - i,
    {
        let (token_idx, occur) = pre_sort[i];
        proof {
            assert(sorted.take(i + 1).drop_last() =~= sorted.take(i as int));
            assert(sorted.take(i + 1).last() == sorted[i as int]);
            lemma_sum_counts_take_le(sorted, i + 1, sorted.len() as int);
            assert(sorted.take(sorted.len() as int) =~= sorted);
        }
        occurences = occurences + occur;
        table.push((token_idx, occurences));
        i += 1;
    }
    let ghost tt = table@;
    proof {
        assert(sorted.take(sorted.len() as int) =~= sorted);
        assert forall|k: int| 0 <= k < tt.len() implies #[trigger] increment_at(tt, k)
            == sorted[k].1 by {
            assert(sorted.take(k + 1).drop_last() =~= sorted.take(k));
            assert(sorted.take(k + 1).last() == sorted[k]);
            assert(tt[k].1 == sum_counts(sorted.take(k + 1)));
            assert(sum_counts(sorted.take(k + 1)) == sum_counts(sorted.take(k)) + sorted[k].1);
            if k > 0 {
                assert(tt[k - 1].1 == sum_counts(sorted.take(k)));
            }
        }
        assert forall|k: int| 0 < k < tt.len() implies (#[trigger] tt[k]).1 >= tt[k - 1].1 by {
            assert(increment_at(tt, k) == sorted[k].1);
        }
        assert(increments_of(tt) =~= sorted) by {
            assert(forall|k: int|
                0 <= k < tt.len() ==> #[trigger] increments_of(tt)[k] == sorted[k]);
        }
        assert forall|b: int| word_map.bounded(b) implies forall|k: int|
            0 <= k < tt.len() ==> (#[trigger] tt[k]).0 < b by {
            assert forall|k: int| 0 <= k < tt.len() implies (#[trigger] tt[k]).0 < b by {
                assert(word_map.entries@.contains(sorted[k]));
                let w = choose|w: int|
                    0 <= w < word_map.entries@.len() && word_map.entries@[w] == sorted[k];
                assert(word_map.entries@[w].0 < b);
            }
        }
    }
    let r = CumulativeWordTable { occurences, token_table: table };
    proof {
        assert(r.token_table@ == tt);
    }
    r
}

/// How much of `n` still fits above `total` before the machine limit.
pub open spec fn spec_add_room(total: OccurenceCount, n: OccurenceCount) -> int {
    if total + n <= usize::MAX {
        n as int
    } else {
        usize::MAX - total
    }
}

/// The count recorded for token `t` among the first `j` entries.
pub open spec fn partial_count(s: Seq<(TokenIdx, OccurenceCount)>, j: int, t: TokenIdx) -> int
    decreases j,
{
    if j <= 0 {
        0
    } else {
        partial_count(s, j - 1, t) + if s[j - 1].0 == t {
            s[j - 1].1 as int
        } else {
            0
        }
    }
}

/// Partial counts only read the first `j` entries.
proof fn lemma_partial_count_prefix(
    a: Seq<(TokenIdx, OccurenceCount)>,
    b: Seq<(TokenIdx, OccurenceCount)>,
    j: int,
    t: TokenIdx,
)
    requires
        j <= a.len(),
        j <= b.len(),
        forall|k: int| 0 <= k < j ==> a[k] == b[k],
    ensures
        partial_count(a, j, t) == partial_count(b, j, t),
    decreases j,
{
    if j > 0 {
        lemma_partial_count_prefix(a, b, j - 1, t);
    }
}

/// Over the whole list, the partial count is the recorded count.
proof fn lemma_partial_count_full(s: Seq<(TokenIdx, OccurenceCount)>, t: TokenIdx)
    requires
        keys_unique(s),
    ensures
        partial_count(s, s.len() as int, t) == count_in(assoc_map(s), t),
    decreases s.len(),
{
    lemma_assoc_map_props(s);
    if s.len() == 0 {
        assert(!assoc_map(s).contains_key(t));
    } else {
        let dl = s.drop_last();
        lemma_partial_count_prefix(s, dl, dl.len() as int, t);
        lemma_partial_count_full(dl, t);
        lemma_assoc_map_props(dl);
        if s.last().0 == t {
            assert(!in_keys(dl, t));
            assert(!assoc_map(dl).contains_key(t));
        }
    }
}

/// Partial counts are non-negative and grow with the prefix.
proof fn lemma_partial_count_nonneg(s: Seq<(TokenIdx, OccurenceCount)>, j: int, t: TokenIdx)
    requires
        j <= s.len(),
    ensures
        partial_count(s, j, t) >= 0,
        forall|j2: int| 0 <= j2 <= j ==> partial_count(s, j, t) >= #[trigger] partial_count(s, j2, t),
    decreases j,
{
    if j > 0 {
        lemma_partial_count_nonneg(s, j - 1, t);
    }
}

/// No single recorded count exceeds the table's total.
proof fn lemma_count_le_total(ft: FrequencyTable)
    requires
        ft.wf(),
    ensures
        forall|t: TokenIdx| #[trigger] count_in(ft.counts(), t) <= ft.total,
{
    lemma_assoc_map_props(ft.entries@);
    assert forall|t: TokenIdx| #[trigger] count_in(ft.counts(), t) <= ft.total by {
        if ft.counts().contains_key(t) {
            let i = choose|i: int| 0 <= i < ft.entries@.len() && (#[trigger] ft.entries@[i]).0 == t;
            assert(ft.counts()[ft.entries@[i].0] == ft.entries@[i].1);
            lemma_sum_counts_ge_entry(ft.entries@, i);
        }
    }
}

/// A well-formed table records a positive count for every key it holds.
proof fn lemma_counts_pos(ft: FrequencyTable)
    requires
        ft.wf(),
    ensures
        forall|t: TokenIdx| #[trigger] ft.counts().contains_key(t) ==> count_in(ft.counts(), t) >= 1,
{
    lemma_assoc_map_props(ft.entries@);
    assert forall|t: TokenIdx| #[trigger] ft.counts().contains_key(t) implies count_in(
        ft.counts(),
        t,
    ) >= 1 by {
        let i = choose|i: int| 0 <= i < ft.entries@.len() && (#[trigger] ft.entries@[i]).0 == t;
        assert(ft.counts()[ft.entries@[i].0] == ft.entries@[i].1);
    }
}

impl FrequencyTable {
    /// Add another table's counts into this one, pointwise. When the
    /// combined total stays within the machine limit the merge is exact.
    pub fn merge_from(&mut self, other: &FrequencyTable)
        requires
            old(self).wf(),
            other.wf(),
        ensures
            final(self).wf(),
            final(self).total >= old(self).total,
            forall|t: TokenIdx|
                old(self).counts().contains_key(t) ==> #[trigger] final(self).counts().contains_key(t),
            forall|t: TokenIdx|
                #[trigger] final(self).counts().contains_key(t) ==> old(self).counts().contains_key(t) || other.counts().contains_key(t),
            old(self).total + other.total <= usize::MAX ==> final(self).total == old(self).total
                + other.total,
            old(self).total + other.total <= usize::MAX ==> forall|t: TokenIdx|
                #[trigger] count_in(final(self).counts(), t) == count_in(old(self).counts(), t)
                    + count_in(other.counts(), t),
            old(self).total + other.total <= usize::MAX ==> forall|t: TokenIdx|
                #[trigger] final(self).counts().contains_key(t) <==> old(self).counts().contains_key(t) || other.counts().contains_key(t),
            forall|b: int|
                #![trigger final(self).bounded(b)]
                old(self).bounded(b) && other.bounded(b) ==> final(self).bounded(b),
    {
        let ghost os = other.entries@;
        let ghost fits = old(self).total + other.total <= usize::MAX;
        proof {
            lemma_assoc_map_props(os);
            lemma_counts_pos(*other);
        }
        let mut j: usize = 0;
        while j < other.entries.len()
            invariant
                j <= os.len(),
                other.entries@ == os,
                other.wf(),
                fits == (old(self).total + other.total <= usize::MAX),
                self.wf(),
                self.total >= old(self).total,
                forall|t: TokenIdx|
                    old(self).counts().contains_key(t) ==> #[trigger] self.counts().contains_key(
                        t,
                    ),
                forall|t: TokenIdx|
                    #[trigger] self.counts().contains_key(t) ==> old(self).counts().contains_key(
                        t,
                    ) || partial_count(os, j as int, t) > 0,
                fits ==> self.total == old(self).total + sum_counts(os.take(j as int)),
                fits ==> forall|t: TokenIdx|
                    #[trigger] count_in(self.counts(), t) == count_in(old(self).counts(), t)
                        + partial_count(os, j as int, t),
                forall|b: int|
                    #![trigger self.bounded(b)]
                    old(self).bounded(b) && other.bounded(b) ==> self.bounded(b),
            decreases os.len() - j,
        {
            let (t, n) = other.entries[j];
            proof {
                assert(os[j as int].1 >= 1);
                if fits {
                    assert(os.take(j + 1).drop_last() =~= os.take(j as int));
                    assert(os.take(j + 1).last() == os[j as int]);
                    lemma_sum_counts_take_le(os, j + 1, os.len() as int);
                    assert(os.take(os.len() as int) =~= os);
                    assert(self.total + n <= usize::MAX);
                }
            }
            let ghost pre = *self;
            self.increment(t, n);
            j += 1;
            proof {
                assert(os[j - 1] == (t, n));
                assert forall|t2: TokenIdx|
                    partial_count(os, j as int, t2) == partial_count(os, j - 1, t2) + (
                    if t2 == t {
                        n as int
                    } else {
                        0
                    }) by {
                    assert(partial_count(os, j as int, t2) == partial_count(os, j - 1, t2) + (
                    if os[j - 1].0 == t2 {
                        os[j - 1].1 as int
                    } else {
                        0
                    }));
                }
                assert forall|t2: TokenIdx| #[trigger] self.counts().contains_key(t2) implies pre.counts().contains_key(
                    t2,
                ) || t2 == t by {
                    if pre.total < usize::MAX {
                        assert(self.counts() == pre.counts().insert(
                            t,
                            (count_in(pre.counts(), t) + spec_add_room(pre.total, n)) as usize,
                        ));
                    }
                }
                assert forall|t2: TokenIdx| #[trigger] self.counts().contains_key(t2) implies old(self).counts().contains_key(t2) || partial_count(os, j as int, t2) > 0 by {
                    lemma_partial_count_nonneg(os, j - 1, t2);
                }
                if fits {
                    lemma_count_le_total(pre);
                    assert(count_in(pre.counts(), t) + n <= usize::MAX);
                    assert(self.counts() == pre.counts().insert(
                        t,
                        (count_in(pre.counts(), t) + n) as usize,
                    ));
                    assert forall|t2: TokenIdx| #[trigger] count_in(self.counts(), t2) == count_in(
                        old(self).counts(),
                        t2,
                    ) + partial_count(os, j as int, t2) by {
                        if t2 != t {
                            assert(count_in(self.counts(), t2) == count_in(pre.counts(), t2));
                        } else {
                            assert(count_in(self.counts(), t) == count_in(pre.counts(), t) + n);
                        }
                    }
                }
            }
        }
        proof {
            assert(os.take(os.len() as int) =~= os);
            assert forall|t: TokenIdx| #[trigger] self.counts().contains_key(t) implies old(self).counts().contains_key(t) || other.counts().contains_key(t) by {
                lemma_partial_count_full(os, t);
            }
            if fits {
                assert forall|t: TokenIdx| #[trigger] count_in(self.counts(), t) == count_in(
                    old(self).counts(),
                    t,
                ) + count_in(other.counts(), t) by {
                    lemma_partial_count_full(os, t);
                }
                lemma_counts_pos(*self);
                lemma_counts_pos(*old(self));
                assert forall|t: TokenIdx| #[trigger] self.counts().contains_key(t) <==> old(self).counts().contains_key(t) || other.counts().contains_key(t) by {
                    lemma_partial_count_full(os, t);
                    if other.counts().contains_key(t) || old(self).counts().contains_key(t) {
                        assert(count_in(self.counts(), t) > 0);
                    }
                }
            }
        }
    }
}

/// The two context shapes a generative model can condition on.
#[derive(PartialEq, Eq, Structural, Clone, Copy, Debug)]
pub enum ContextShape {
    /// The previous token's index.
    Bigram,
    /// The previous two tokens' indices, earlier first.
    Trigram,
}

/// A conditioning context: the indices of the one or two preceding tokens.
#[derive(PartialEq, Eq, Structural, Clone, Copy, Debug, Hash)]
pub enum Context {
    /// The previous token's index.
    Bigram(TokenIdx),
    /// The previous two tokens' indices, earlier first.
    Trigram(TokenIdx, TokenIdx),
}

/// Whether a context has the given shape.
pub open spec fn matches_shape(c: Context, shape: ContextShape) -> bool {
    match c {
        Context::Bigram(_) => shape is Bigram,
        Context::Trigram(_, _) => shape is Trigram,
    }
}

/// Tokens eligible to appear in a context. Every token kind currently
/// qualifies; the predicate exists for future restriction.
pub open spec fn interesting(t: TokenView) -> bool {
    match t {
        TokenView::Start => true,
        TokenView::Word(_) => true,
        TokenView::Punctuation(_, _) => true,
        TokenView::Link(_) => true,
        TokenView::End => true,
    }
}

/// Executable test for [`interesting`].
pub fn interesting_token(token: &Token) -> (r: bool)
    ensures
        r == interesting(token@),
{
    match token {
        Token::Word(_) | Token::Punctuation(_, _) | Token::Link(_) | Token::End | Token::Start => true,
    }
}

/// No two vocabulary entries denote the same token.
pub open spec fn vocab_wf(v: Seq<TokenView>) -> bool {
    forall|i: int, j: int| 0 <= i < j < v.len() ==> v[i] != v[j]
}

/// The position of a token in the vocabulary, if present.
pub fn token_index(tokens: &Vec<Token>, t: &Token) -> (r: Option<usize>)
    ensures
        r matches Some(i) ==> i < tokens@.len() && tokens@[i as int]@ == t@,
        (r is Some) == line_view(tokens@).contains(t@),
{
    let mut i: usize = 0;
    while i < tokens.len()
        invariant
            i <= tokens@.len(),
            forall|j: int| 0 <= j < i ==> tokens@[j]@ != t@,
        decreases tokens@.len() - i,
    {
        if token_eq(&tokens[i], t) {
            proof {
                assert(line_view(tokens@)[i as int] == t@);
            }
            return Some(i);
        }
        i += 1;
    }
    proof {
        assert forall|j: int| 0 <= j < line_view(tokens@).len() implies line_view(tokens@)[j]
            != t@ by {
            assert(tokens@[j]@ != t@);
        }
    }
    None
}

/// The bigram context at a position: the index of the previous token,
/// when one exists, is interesting, and is in the vocabulary.
pub open spec fn bigram_context_view(line: Seq<TokenView>, idx: int, vocab: Seq<TokenView>) -> Option<
    TokenIdx,
> {
    if idx > 0 && interesting(line[idx - 1]) && vocab.contains(line[idx - 1]) {
        Some(vocab.index_of(line[idx - 1]) as usize)
    } else {
        None
    }
}

/// The trigram context at a position: the indices of the two previous
/// tokens, when both exist, are interesting, and are in the vocabulary.
pub open spec fn trigram_context_view(
    line: Seq<TokenView>,
    idx: int,
    vocab: Seq<TokenView>,
) -> Option<(TokenIdx, TokenIdx)> {
    if idx > 1 && interesting(line[idx - 2]) && interesting(line[idx - 1]) && vocab.contains(
        line[idx - 2],
    ) && vocab.contains(line[idx - 1]) {
        Some(
            (
                vocab.index_of(line[idx - 2]) as usize,
                vocab.index_of(line[idx - 1]) as usize,
            ),
        )
    } else {
        None
    }
}

/// In a well-formed vocabulary, a found position is the position.
proof fn lemma_vocab_index_unique(vocab: Seq<TokenView>, t: TokenView, i: int)
    requires
        vocab_wf(vocab),
        0 <= i < vocab.len(),
        vocab[i] == t,
    ensures
        vocab.contains(t),
        vocab.index_of(t) == i,
{
    assert(vocab.contains(t));
    let j = vocab.index_of(t);
    assert(vocab[j] == t);
}

/// The index of the previous token, when position, interest and vocabulary
/// membership allow a bigram context.
pub fn independent_bigram_context(current: &Vec<Token>, idx: usize, vocab: &Vec<Token>) -> (r:
    Option<TokenIdx>)
    requires
        idx <= current@.len(),
        vocab_wf(line_view(vocab@)),
    ensures
        r == bigram_context_view(line_view(current@), idx as int, line_view(vocab@)),
{
    let ghost lv = line_view(current@);
    let ghost vv = line_view(vocab@);
    if idx > 0 {
        let prev_token = &current[idx - 1];
        proof {
            assert(lv[idx - 1] == prev_token@);
        }
        if interesting_token(prev_token) {
            match token_index(vocab, prev_token) {
                Some(i) => {
                    proof {
                        lemma_vocab_index_unique(vv, prev_token@, i as int);
                    }
                    Some(i)
                },
                None => None,
            }
        } else {
            None
        }
    } else {
        None
    }
}

/// The indices of the two previous tokens, when position, interest and
/// vocabulary membership allow a trigram context.
pub fn independent_trigram_context(current: &Vec<Token>, idx: usize, vocab: &Vec<Token>) -> (r:
    Option<(TokenIdx, TokenIdx)>)
    requires
        idx <= current@.len(),
        vocab_wf(line_view(vocab@)),
    ensures
        r == trigram_context_view(line_view(current@), idx as int, line_view(vocab@)),
{
    let ghost lv = line_view(current@);
    let ghost vv = line_view(vocab@);
    if idx > 1 {
        let prev2 = &current[idx - 2];
        let prev1 = &current[idx - 1];
        proof {
            assert(lv[idx - 2] == prev2@);
            assert(lv[idx - 1] == prev1@);
        }
        if interesting_token(prev2) && interesting_token(prev1) {
            match (token_index(vocab, prev2), token_index(vocab, prev1)) {
                (Some(prev2_idx), Some(prev1_idx)) => {
                    proof {
                        lemma_vocab_index_unique(vv, prev2@, prev2_idx as int);
                        lemma_vocab_index_unique(vv, prev1@, prev1_idx as int);
                    }
                    Some((prev2_idx, prev1_idx))
                },
                _ => None,
            }
        } else {
            None
        }
    } else {
        None
    }
}

/// The context of the given shape at a position of a line, if any.
pub open spec fn context_view(
    shape: ContextShape,
    line: Seq<TokenView>,
    idx: int,
    vocab: Seq<TokenView>,
) -> Option<Context> {
    match shape {
        ContextShape::Bigram => match bigram_context_view(line, idx, vocab) {
            Some(i) => Some(Context::Bigram(i)),
            None => None,
        },
        ContextShape::Trigram => match trigram_context_view(line, idx, vocab) {
            Some((a, b)) => Some(Context::Trigram(a, b)),
            None => None,
        },
    }
}

/// Executable form of [`context_view`].
pub fn context_of(shape: ContextShape, current: &Vec<Token>, idx: usize, vocab: &Vec<Token>) -> (r:
    Option<Context>)
    requires
        idx <= current@.len(),
        vocab_wf(line_view(vocab@)),
    ensures
        r == context_view(shape, line_view(current@), idx as int, line_view(vocab@)),
{
    match shape {
        ContextShape::Bigram => match independent_bigram_context(current, idx, vocab) {
            Some(i) => Some(Context::Bigram(i)),
            None => None,
        },
        ContextShape::Trigram => match independent_trigram_context(current, idx, vocab) {
            Some((a, b)) => Some(Context::Trigram(a, b)),
            None => None,
        },
    }
}

/// A mutable per-context-shape accumulator of raw frequency tables.
pub struct LearningModel {
    /// Which context shape this model conditions on.
    pub shape: ContextShape,
    /// Each observed context with its frequency table.
    pub contexts: Vec<(Context, FrequencyTable)>,
}

/// The position of a context among an association list's keys.
pub fn find_context(entries: &Vec<(Context, FrequencyTable)>, c: Context) -> (r: Option<usize>)
    ensures
        r matches Some(i) ==> 0 <= i < entries@.len() && entries@[i as int].0 == c,
        r is None ==> !in_keys(entries@, c),
{
    let mut i: usize = 0;
    while i < entries.len()
        invariant
            i <= entries@.len(),
            forall|j: int| 0 <= j < i ==> (#[trigger] entries@[j]).0 != c,
        decreases entries@.len() - i,
    {
        if entries[i].0 == c {
            return Some(i);
        }
        i += 1;
    }
    None
}

impl LearningModel {
    /// Internal consistency: unique contexts of the model's shape, each
    /// with a well-formed, non-empty frequency table.
    pub open spec fn wf(&self) -> bool {
        &&& keys_unique(self.contexts@)
        &&& forall|i: int|
            0 <= i < self.contexts@.len() ==> matches_shape(
                (#[trigger] self.contexts@[i]).0,
                self.shape,
            ) && self.contexts@[i].1.wf() && self.contexts@[i].1.total >= 1
    }

    /// All token indices of all tables lie below the bound.
    pub open spec fn bounded(&self, n: int) -> bool {
        forall|i: int| 0 <= i < self.contexts@.len() ==> (#[trigger] self.contexts@[i]).1.bounded(n)
    }

    /// The table recorded for each observed context.
    pub open spec fn tables(&self) -> Map<Context, FrequencyTable> {
        assoc_map(self.contexts@)
    }

    /// Whether this context was ever observed.
    pub open spec fn has_context(&self, c: Context) -> bool {
        in_keys(self.contexts@, c)
    }

    /// The count recorded for token `t` after context `c`, zero when unseen.
    pub open spec fn count_for(&self, c: Context, t: TokenIdx) -> int {
        if self.has_context(c) {
            count_in(self.tables()[c].counts(), t)
        } else {
            0
        }
    }

    /// The total of all counts recorded after context `c`, zero when unseen.
    pub open spec fn total_for(&self, c: Context) -> int {
        if self.has_context(c) {
            self.tables()[c].total as int
        } else {
            0
        }
    }

    /// A fresh model with no observations.
    pub fn new(shape: ContextShape) -> (r: LearningModel)
        ensures
            r.wf(),
            r.shape == shape,
            r.contexts@.len() == 0,
    {
        LearningModel { shape, contexts: Vec::new() }
    }

    /// Merge one context's worth of counts into the model. Exact whenever
    /// the context's combined total stays within the machine limit.
    fn merge_context(&mut self, c: Context, tbl: &FrequencyTable)
        requires
            old(self).wf(),
            matches_shape(c, old(self).shape),
            tbl.wf(),
            tbl.total >= 1,
        ensures
            final(self).wf(),
            final(self).shape == old(self).shape,
            forall|c2: Context|
                #[trigger] final(self).has_context(c2) <==> old(self).has_context(c2) || c2 == c,
            forall|c2: Context|
                c2 != c && old(self).has_context(c2) ==> #[trigger] final(self).tables()[c2]
                    == old(self).tables()[c2],
            old(self).total_for(c) + tbl.total <= usize::MAX ==> final(self).total_for(c) == old(
                self,
            ).total_for(c) + tbl.total,
            old(self).total_for(c) + tbl.total <= usize::MAX ==> forall|t: TokenIdx|
                #[trigger] final(self).count_for(c, t) == old(self).count_for(c, t) + count_in(
                    tbl.counts(),
                    t,
                ),
            forall|b: int|
                #![trigger final(self).bounded(b)]
                old(self).bounded(b) && tbl.bounded(b) ==> final(self).bounded(b),
    {
        broadcast use vstd::seq_lib::lemma_update_is_remove_insert;

        proof {
            lemma_assoc_map_props(self.contexts@);
        }
        let ghost pre = self.contexts@;
        match find_context(&self.contexts, c) {
            Some(i) => {
                let (ck, mut cur) = self.contexts.remove(i);
                let ghost cur0 = cur;
                cur.merge_from(tbl);
                self.contexts.insert(i, (ck, cur));
                proof {
                    assert(self.contexts@ =~= pre.update(i as int, (c, cur)));
                    lemma_assoc_map_update(pre, i as int, cur);
                    assert(pre[i as int].1 == cur0);
                    assert(self.tables() == old(self).tables().insert(c, cur));
                    assert(old(self).tables()[c] == cur0);
                    assert(forall|k: int|
                        0 <= k < self.contexts@.len() ==> (#[trigger] self.contexts@[k]).0
                            == pre[k].0);
                    assert forall|c2: Context| #[trigger] self.has_context(c2) <==> old(
                        self,
                    ).has_context(c2) || c2 == c by {
                        if self.has_context(c2) {
                            let k = choose|k: int|
                                0 <= k < self.contexts@.len() && (#[trigger] self.contexts@[k]).0
                                    == c2;
                            assert(pre[k].0 == c2);
                            assert(in_keys(pre, c2));
                        }
                        if old(self).has_context(c2) {
                            let k = choose|k: int| 0 <= k < pre.len() && (#[trigger] pre[k]).0 == c2;
                            assert(self.contexts@[k].0 == c2);
                            assert(in_keys(self.contexts@, c2));
                        }
                    }
                    assert(old(self).total_for(c) == cur0.total);
                }
            },
            None => {
                let mut fresh = FrequencyTable::new();
                fresh.merge_from(tbl);
                self.contexts.push((c, fresh));
                proof {
                    lemma_assoc_map_push(pre, c, fresh);
                    assert(self.tables() == old(self).tables().insert(c, fresh));
                    assert(!old(self).has_context(c));
                    assert(old(self).total_for(c) == 0);
                    assert forall|c2: Context| #[trigger] self.has_context(c2) <==> old(
                        self,
                    ).has_context(c2) || c2 == c by {
                        lemma_assoc_map_props(self.contexts@);
                        if self.has_context(c2) {
                            let k = choose|k: int|
                                0 <= k < self.contexts@.len() && (#[trigger] self.contexts@[k]).0
                                    == c2;
                            if k < pre.len() {
                                assert(pre[k] == self.contexts@[k]);
                                assert(in_keys(pre, c2));
                            }
                        }
                        if old(self).has_context(c2) {
                            let k = choose|k: int|
                                0 <= k < pre.len() && (#[trigger] pre[k]).0 == c2;
                            assert(self.contexts@[k] == pre[k]);
                            assert(in_keys(self.contexts@, c2));
                        }
                    }
                    assert forall|c2: Context|
                        c2 != c && old(self).has_context(c2) implies #[trigger] self.tables()[c2]
                        == old(self).tables()[c2] by {
                        lemma_assoc_map_props(pre);
                    }
                }
            },
        }
    }

    /// Record one observation: at position `idx` of a tokenized line, the
    /// current token follows the context formed by its predecessors, so
    /// that token's count under that context rises by one.
    pub fn ingest(&mut self, current: &Vec<Token>, idx: usize, vocab: &Vec<Token>)
        requires
            old(self).wf(),
            idx < current@.len(),
            vocab_wf(line_view(vocab@)),
            line_view(vocab@).contains(current@[idx as int]@),
        ensures
            final(self).wf(),
            final(self).shape == old(self).shape,
            ({
                let lv = line_view(current@);
                let vv = line_view(vocab@);
                let tok = vv.index_of(current@[idx as int]@) as TokenIdx;
                match context_view(old(self).shape, lv, idx as int, vv) {
                    None => *final(self) == *old(self),
                    Some(c) => {
                        &&& forall|c2: Context|
                            #[trigger] final(self).has_context(c2) <==> old(self).has_context(c2)
                                || c2 == c
                        &&& forall|c2: Context|
                            c2 != c && old(self).has_context(c2)
                                ==> #[trigger] final(self).tables()[c2] == old(self).tables()[c2]
                        &&& old(self).total_for(c) < usize::MAX ==> {
                            &&& final(self).total_for(c) == old(self).total_for(c) + 1
                            &&& final(self).count_for(c, tok) == old(self).count_for(c, tok) + 1
                            &&& forall|t2: TokenIdx|
                                t2 != tok ==> #[trigger] final(self).count_for(c, t2) == old(
                                    self,
                                ).count_for(c, t2)
                        }
                    },
                }
            }),
            forall|b: int|
                #![trigger final(self).bounded(b)]
                old(self).bounded(b) && line_view(vocab@).len() <= b ==> final(self).bounded(b),
    {
        let ghost vv = line_view(vocab@);
        let current_token = token_index(vocab, &current[idx]).unwrap();
        proof {
            assert(line_view(current@)[idx as int] == current@[idx as int]@);
            lemma_vocab_index_unique(vv, current@[idx as int]@, current_token as int);
        }
        let cp = context_of(self.shape, current, idx, vocab);
        if let Some(c) = cp {
            let mut single = FrequencyTable::new();
            proof {
                assert forall|b: int| #![trigger single.bounded(b)] true implies single.bounded(
                    b,
                ) by {}
            }
            single.increment(current_token, 1);
            proof {
                assert(single.counts() == Map::<TokenIdx, OccurenceCount>::empty().insert(
                    current_token,
                    1usize,
                ));
                assert(single.total == 1);
                assert forall|t2: TokenIdx| #[trigger] count_in(single.counts(), t2) == (
                if t2 == current_token {
                    1int
                } else {
                    0int
                }) by {}
                assert forall|b: int|
                    #![trigger single.bounded(b)]
                    current_token < b implies single.bounded(b) by {}
            }
            self.merge_context(c, &single);
        }
    }
}

/// A packed table faithfully encodes a raw one: same total, and its
/// per-token increments are a permutation of the raw entries.
pub open spec fn packs(ft: FrequencyTable, ct: CumulativeWordTable) -> bool {
    &&& ct.occurences == ft.total
    &&& ct.token_table@.len() == ft.entries@.len()
    &&& increments_of(ct.token_table@).to_multiset() == ft.entries@.to_multiset()
}

/// The per-token count a cumulative table encodes for vocabulary index
/// `t`: the sum of its increments at entries carrying `t`.
pub open spec fn cum_count_in(ct: CumulativeWordTable, t: TokenIdx) -> int {
    partial_count(increments_of(ct.token_table@), ct.token_table@.len() as int, t)
}

/// Removing one entry removes exactly its contribution from a key's sum.
proof fn lemma_partial_count_remove(s: Seq<(TokenIdx, OccurenceCount)>, k: int, t: TokenIdx)
    requires
        0 <= k < s.len(),
    ensures
        partial_count(s.remove(k), s.len() - 1, t) == partial_count(s, s.len() as int, t) - (
        if s[k].0 == t {
            s[k].1 as int
        } else {
            0int
        }),
    decreases s.len(),
{
    if k == s.len() - 1 {
        assert(s.remove(k) =~= s.drop_last());
        lemma_partial_count_prefix(s.remove(k), s, k, t);
    } else {
        let s1 = s.drop_last();
        lemma_partial_count_remove(s1, k, t);
        lemma_partial_count_prefix(s, s1, s.len() - 1, t);
        assert(forall|i: int| 0 <= i < s.len() - 2 ==> #[trigger] s.remove(k)[i] == s1.remove(k)[i]);
        lemma_partial_count_prefix(s.remove(k), s1.remove(k), s.len() - 2, t);
        assert(s.remove(k)[s.len() - 2] == s.last());
    }
}

/// A key's sum over an association list is permutation-invariant.
proof fn lemma_partial_count_perm(
    a: Seq<(TokenIdx, OccurenceCount)>,
    b: Seq<(TokenIdx, OccurenceCount)>,
    t: TokenIdx,
)
    requires
        a.to_multiset() == b.to_multiset(),
    ensures
        partial_count(a, a.len() as int, t) == partial_count(b, b.len() as int, t),
    decreases a.len(),
{
    broadcast use vstd::seq_lib::to_multiset_len;
    broadcast use vstd::seq_lib::to_multiset_contains;
    broadcast use vstd::seq_lib::to_multiset_remove;
    broadcast use vstd::multiset::group_multiset_axioms;

    assert(a.to_multiset().len() == a.len());
    assert(b.to_multiset().len() == b.len());
    if a.len() == 0 {
        assert(b.len() == 0);
    } else {
        let x = a.last();
        assert(a.contains(x));
        assert(b.to_multiset().count(x) > 0);
        assert(b.contains(x));
        let k = choose|k: int| 0 <= k < b.len() && b[k] == x;
        let a2 = a.remove(a.len() - 1);
        let b2 = b.remove(k);
        assert(a2.to_multiset() == a.to_multiset().remove(x));
        assert(b2.to_multiset() == b.to_multiset().remove(x));
        lemma_partial_count_perm(a2, b2, t);
        lemma_partial_count_remove(a, a.len() - 1, t);
        lemma_partial_count_remove(b, k, t);
    }
}

/// A packed table encodes exactly the raw table's per-token counts.
proof fn lemma_packs_counts(ft: FrequencyTable, ct: CumulativeWordTable, t: TokenIdx)
    requires
        ft.wf(),
        packs(ft, ct),
    ensures
        cum_count_in(ct, t) == count_in(ft.counts(), t),
{
    assert(increments_of(ct.token_table@).len() == ct.token_table@.len());
    lemma_partial_count_perm(increments_of(ct.token_table@), ft.entries@, t);
    lemma_partial_count_full(ft.entries@, t);
}

/// The immutable, packed form of a learning model used for sampling.
pub struct GenerativeModel {
    /// Which context shape this model conditions on.
    pub shape: ContextShape,
    /// Each kept context with its cumulative-weight table.
    pub contexts: Vec<(Context, CumulativeWordTable)>,
}

impl GenerativeModel {
    /// Internal consistency: unique contexts of the model's shape, each
    /// with a well-formed, non-empty cumulative table.
    pub open spec fn wf(&self) -> bool {
        &&& keys_unique(self.contexts@)
        &&& forall|i: int|
            0 <= i < self.contexts@.len() ==> matches_shape(
                (#[trigger] self.contexts@[i]).0,
                self.shape,
            ) && self.contexts@[i].1.wf() && self.contexts@[i].1.occurences >= 1
    }

    /// All token indices of all tables lie below the bound.
    pub open spec fn bounded(&self, n: int) -> bool {
        forall|i: int| 0 <= i < self.contexts@.len() ==> (#[trigger] self.contexts@[i]).1.bounded(n)
    }

    /// The packed table kept for each context.
    pub open spec fn tables(&self) -> Map<Context, CumulativeWordTable> {
        assoc_map(self.contexts@)
    }

    /// Whether this context was kept.
    pub open spec fn has_context(&self, c: Context) -> bool {
        in_keys(self.contexts@, c)
    }

    /// A model with no contexts at all.
    pub open spec fn is_empty(&self) -> bool {
        self.contexts@.len() == 0
    }

    /// The per-token count the packed table for `c` encodes, zero when
    /// the context was not kept.
    pub open spec fn count_for(&self, c: Context, t: TokenIdx) -> int {
        if self.has_context(c) {
            cum_count_in(self.tables()[c], t)
        } else {
            0
        }
    }

    /// The total occurrence count of the packed table for `c`, zero when
    /// the context was not kept.
    pub open spec fn total_for(&self, c: Context) -> int {
        if self.has_context(c) {
            self.tables()[c].occurences as int
        } else {
            0
        }
    }
}

/// Packing with a threshold every table reaches keeps each context and
/// its exact per-token counts and totals.
proof fn lemma_pack_zero(lm: LearningModel, g: GenerativeModel)
    requires
        lm.wf(),
        forall|c: Context|
            #[trigger] g.has_context(c) ==> lm.has_context(c) && packs(
                lm.tables()[c],
                g.tables()[c],
            ),
        forall|c: Context| lm.has_context(c) ==> #[trigger] g.has_context(c),
    ensures
        forall|c: Context, t: TokenIdx| #[trigger] g.count_for(c, t) == lm.count_for(c, t),
        forall|c: Context| #[trigger] g.total_for(c) == lm.total_for(c),
        forall|c: Context| #[trigger] g.has_context(c) <==> lm.has_context(c),
{
    lemma_assoc_map_props(lm.contexts@);
    assert forall|c: Context, t: TokenIdx| #[trigger] g.count_for(c, t) == lm.count_for(c, t) by {
        if g.has_context(c) {
            let i = choose|i: int| 0 <= i < lm.contexts@.len() && (#[trigger] lm.contexts@[i]).0 == c;
            assert(lm.tables()[lm.contexts@[i].0] == lm.contexts@[i].1);
            assert(lm.tables()[c].wf());
            lemma_packs_counts(lm.tables()[c], g.tables()[c], t);
        }
    }
}

impl LearningModel {
    /// Pack every context whose total occurrence count reaches the
    /// threshold; contexts below it are dropped from the packed model.
    #[verifier::spinoff_prover]
    #[verifier::rlimit(100)]
    pub fn as_generative(&self, min_count: usize) -> (g: GenerativeModel)
        requires
            self.wf(),
        ensures
            g.wf(),
            g.shape == self.shape,
            forall|b: int| #![trigger g.bounded(b)] self.bounded(b) ==> g.bounded(b),
            forall|c: Context|
                #[trigger] g.has_context(c) ==> self.has_context(c) && self.tables()[c].total
                    >= min_count && packs(self.tables()[c], g.tables()[c]),
            forall|c: Context|
                self.has_context(c) && self.tables()[c].total >= min_count ==> #[trigger] g.has_context(c),
            self.contexts@.len() == 0 ==> g.contexts@.len() == 0,
    {
        proof {
            lemma_assoc_map_props(self.contexts@);
        }
        let ghost src = self.contexts@;
        let mut packed: Vec<(Context, CumulativeWordTable)> = Vec::new();
        let mut i: usize = 0;
        while i < self.contexts.len()
            invariant
                self.wf(),
                src == self.contexts@,
                i <= src.len(),
                packed@.len() <= i,
                keys_unique(packed@),
                forall|j: int|
                    0 <= j < packed@.len() ==> exists|k: int|
                        0 <= k < i && (#[trigger] packed@[j]).0 == (#[trigger] src[k]).0 && src[k].1.total
                            >= min_count && packs(src[k].1, packed@[j].1) && (forall|b2: int|
                            src[k].1.bounded(b2) ==> (#[trigger] packed@[j].1.bounded(b2))),
                forall|k: int|
                    0 <= k < i && (#[trigger] src[k]).1.total >= min_count ==> in_keys(
                        packed@,
                        src[k].0,
                    ),
                forall|j: int|
                    0 <= j < packed@.len() ==> matches_shape((#[trigger] packed@[j]).0, self.shape)
                        && packed@[j].1.wf() && packed@[j].1.occurences >= 1,
            decreases src.len() - i,
        {
            let ghost pre = packed@;
            let table = pack_table(&self.contexts[i].1);
            if table.occurences >= min_count {
                let c = self.contexts[i].0;
                proof {
                    assert forall|j: int| 0 <= j < pre.len() implies (#[trigger] pre[j]).0 != c by {
                        let k = choose|k: int|
                            0 <= k < i && (#[trigger] pre[j]).0 == (#[trigger] src[k]).0
                                && src[k].1.total >= min_count && packs(src[k].1, pre[j].1) && (
                            forall|b2: int|
                                src[k].1.bounded(b2) ==> (#[trigger] pre[j].1.bounded(b2)));
                        assert(src[k].0 != src[i as int].0);
                    }
                    assert(!in_keys(pre, c));
                    lemma_assoc_map_push(pre, c, table);
                }
                packed.push((c, table));
                proof {
                    assert forall|a: int, b: int| 0 <= a < b < packed@.len() implies (
                    #[trigger] packed@[a]).0 != (#[trigger] packed@[b]).0 by {
                        assert(packed@[a] == pre[a]);
                        if b == packed@.len() - 1 {
                            assert(pre[a].0 != c);
                        } else {
                            assert(packed@[b] == pre[b]);
                        }
                    }
                    assert(keys_unique(packed@));
                    assert forall|j: int| 0 <= j < packed@.len() implies exists|k: int|
                        0 <= k < i + 1 && (#[trigger] packed@[j]).0 == (#[trigger] src[k]).0
                            && src[k].1.total >= min_count && packs(src[k].1, packed@[j].1) && (
                        forall|b2: int|
                            src[k].1.bounded(b2) ==> (#[trigger] packed@[j].1.bounded(b2))) by {
                        if j == packed@.len() - 1 {
                            assert(packed@[j].0 == src[i as int].0 && src[i as int].1.total
                                >= min_count && packs(src[i as int].1, packed@[j].1) && (forall|
                                b2: int,
                            |
                                src[i as int].1.bounded(b2) ==> (
                                #[trigger] packed@[j].1.bounded(b2))));
                        } else {
                            assert(packed@[j] == pre[j]);
                        }
                    }
                    assert forall|k: int|
                        0 <= k < i + 1 && (#[trigger] src[k]).1.total >= min_count implies in_keys(
                        packed@,
                        src[k].0,
                    ) by {
                        if k < i {
                            let j = choose|j: int|
                                0 <= j < pre.len() && (#[trigger] pre[j]).0 == src[k].0;
                            assert(packed@[j].0 == src[k].0);
                        } else {
                            assert(packed@[packed@.len() - 1].0 == src[k].0);
                        }
                    }
                }
            } else {
                proof {
                    assert(src[i as int].1.total < min_count);
                }
            }
            i += 1;
        }
        let ghost gs = packed@;
        proof {
            assert(i == src.len());
            assert(forall|k: int|
                0 <= k < src.len() && (#[trigger] src[k]).1.total >= min_count ==> in_keys(
                    packed@,
                    src[k].0,
                ));
            lemma_assoc_map_props(gs);
            assert forall|c: Context| in_keys(gs, c) implies self.has_context(c)
                && self.tables()[c].total >= min_count && packs(self.tables()[c], assoc_map(gs)[c]) by {
                let j = choose|j: int| 0 <= j < gs.len() && (#[trigger] gs[j]).0 == c;
                assert(assoc_map(gs)[gs[j].0] == gs[j].1);
                let k = choose|k: int|
                    0 <= k < src.len() && (#[trigger] gs[j]).0 == (#[trigger] src[k]).0
                        && src[k].1.total >= min_count && packs(src[k].1, gs[j].1) && (forall|
                    b2: int,
                |
                    src[k].1.bounded(b2) ==> (#[trigger] gs[j].1.bounded(b2)));
                assert(in_keys(src, c));
                assert(self.tables()[src[k].0] == src[k].1);
            }
            assert forall|c: Context|
                self.has_context(c) && self.tables()[c].total >= min_count implies in_keys(
                gs,
                c,
            ) by {
                let k = choose|k: int| 0 <= k < src.len() && (#[trigger] src[k]).0 == c;
                assert(self.tables()[src[k].0] == src[k].1);
                assert(src[k].1.total >= min_count);
                assert(in_keys(packed@, src[k].0));
            }
            assert forall|b: int| self.bounded(b) implies forall|j: int|
                0 <= j < gs.len() ==> (#[trigger] gs[j]).1.bounded(b) by {
                assert forall|j: int| 0 <= j < gs.len() implies (#[trigger] gs[j]).1.bounded(b) by {
                    let k = choose|k: int|
                        0 <= k < src.len() && (#[trigger] gs[j]).0 == (#[trigger] src[k]).0
                            && src[k].1.total >= min_count && packs(src[k].1, gs[j].1) && (forall|
                        b2: int,
                    |
                        src[k].1.bounded(b2) ==> (#[trigger] gs[j].1.bounded(b2)));
                    assert(self.contexts@[k].1.bounded(b));
                    assert(src[k].1.bounded(b));
                }
            }
        }
        let g = GenerativeModel { shape: self.shape, contexts: packed };
        proof {
            assert(g.contexts@ == gs);
        }
        g
    }

    /// Add another model's counts into this one, context by context and
    /// token by token.
    #[verifier::spinoff_prover]
    #[verifier::rlimit(100)]
    pub fn add(&mut self, other: &LearningModel)
        requires
            old(self).wf(),
            other.wf(),
            old(self).shape == other.shape,
        ensures
            final(self).wf(),
            final(self).shape == old(self).shape,
            forall|c: Context|
                #[trigger] final(self).has_context(c) <==> old(self).has_context(c)
                    || other.has_context(c),
            add_fits(*old(self), *other) ==> forall|c: Context, t: TokenIdx|
                #[trigger] final(self).count_for(c, t) == old(self).count_for(c, t)
                    + other.count_for(c, t),
            add_fits(*old(self), *other) ==> forall|c: Context|
                #[trigger] final(self).total_for(c) == old(self).total_for(c) + other.total_for(c),
            forall|b: int|
                #![trigger final(self).bounded(b)]
                old(self).bounded(b) && other.bounded(b) ==> final(self).bounded(b),
    {
        proof {
            lemma_assoc_map_props(other.contexts@);
        }
        let ghost os = other.contexts@;
        let mut i: usize = 0;
        while i < other.contexts.len()
            invariant
                i <= os.len(),
                other.contexts@ == os,
                other.wf(),
                self.wf(),
                self.shape == old(self).shape,
                other.shape == old(self).shape,
                forall|c: Context|
                    #[trigger] self.has_context(c) <==> old(self).has_context(c) || in_keys(
                        os.take(i as int),
                        c,
                    ),
                add_fits(*old(self), *other) ==> forall|c: Context, t: TokenIdx|
                    #[trigger] self.count_for(c, t) == old(self).count_for(c, t) + (
                    if in_keys(os.take(i as int), c) {
                        other.count_for(c, t)
                    } else {
                        0int
                    }),
                add_fits(*old(self), *other) ==> forall|c: Context|
                    #[trigger] self.total_for(c) == old(self).total_for(c) + (
                    if in_keys(os.take(i as int), c) {
                        other.total_for(c)
                    } else {
                        0int
                    }),
                forall|b: int|
                    #![trigger self.bounded(b)]
                    old(self).bounded(b) && other.bounded(b) ==> self.bounded(b),
            decreases os.len() - i,
        {
            let ghost pre = *self;
            let tbl = &other.contexts[i].1;
            let c = other.contexts[i].0;
            proof {
                assert(matches_shape(os[i as int].0, other.shape));
                assert forall|b: int|
                    #![trigger tbl.bounded(b)]
                    other.bounded(b) implies tbl.bounded(b) by {}
                lemma_assoc_map_props(os);
                assert(other.tables()[os[i as int].0] == os[i as int].1);
                assert(other.has_context(c));
                assert(other.total_for(c) == tbl.total);
                if add_fits(*old(self), *other) {
                    assert(old(self).total_for(c) + other.total_for(c) <= usize::MAX);
                    assert(!in_keys(os.take(i as int), c)) by {
                        if in_keys(os.take(i as int), c) {
                            let k = choose|k: int|
                                0 <= k < i && (#[trigger] os.take(i as int)[k]).0 == c;
                            assert(os[k].0 == os[i as int].0);
                        }
                    }
                    assert(pre.total_for(c) == old(self).total_for(c));
                }
            }
            self.merge_context(c, tbl);
            i += 1;
            proof {
                if add_fits(*old(self), *other) {
                    assert forall|c2: Context, t: TokenIdx| #[trigger] self.count_for(c2, t)
                        == old(self).count_for(c2, t) + (
                    if in_keys(os.take(i as int), c2) {
                        other.count_for(c2, t)
                    } else {
                        0int
                    }) by {
                        if c2 == c {
                            assert(self.count_for(c, t) == pre.count_for(c, t) + count_in(
                                tbl.counts(),
                                t,
                            ));
                            assert(other.count_for(c, t) == count_in(tbl.counts(), t));
                            assert(os.take(i as int)[i - 1].0 == c);
                            assert(in_keys(os.take(i as int), c));
                        } else {
                            assert(self.has_context(c2) == pre.has_context(c2));
                            if pre.has_context(c2) {
                                assert(self.tables()[c2] == pre.tables()[c2]);
                            }
                            assert(self.count_for(c2, t) == pre.count_for(c2, t));
                            assert((if in_keys(os.take(i as int), c2) {
                                other.count_for(c2, t)
                            } else {
                                0int
                            }) == (
                            if in_keys(os.take(i - 1), c2) {
                                other.count_for(c2, t)
                            } else {
                                0int
                            })) by {
                                if in_keys(os.take(i as int), c2) {
                                    let k = choose|k: int|
                                        0 <= k < i && (#[trigger] os.take(i as int)[k]).0 == c2;
                                    assert(k < i - 1);
                                    assert(os.take(i - 1)[k].0 == c2);
                                    assert(in_keys(os.take(i - 1), c2));
                                }
                                if in_keys(os.take(i - 1), c2) {
                                    let k = choose|k: int|
                                        0 <= k < i - 1 && (#[trigger] os.take(i - 1)[k]).0 == c2;
                                    assert(os.take(i as int)[k].0 == c2);
                                    assert(in_keys(os.take(i as int), c2));
                                }
                            }
                        }
                    }
                    assert forall|c2: Context| #[trigger] self.total_for(c2) == old(
                        self,
                    ).total_for(c2) + (
                    if in_keys(os.take(i as int), c2) {
                        other.total_for(c2)
                    } else {
                        0int
                    }) by {
                        if c2 == c {
                            assert(self.total_for(c) == pre.total_for(c) + tbl.total);
                            assert(os.take(i as int)[i - 1].0 == c);
                            assert(in_keys(os.take(i as int), c));
                        } else {
                            assert(self.has_context(c2) == pre.has_context(c2));
                            if pre.has_context(c2) {
                                assert(self.tables()[c2] == pre.tables()[c2]);
                            }
                            assert(self.total_for(c2) == pre.total_for(c2));
                            if in_keys(os.take(i as int), c2) {
                                let k = choose|k: int|
                                    0 <= k < i && (#[trigger] os.take(i as int)[k]).0 == c2;
                                assert(k < i - 1);
                                assert(os.take(i - 1)[k].0 == c2);
                                assert(in_keys(os.take(i - 1), c2));
                            }
                            if in_keys(os.take(i - 1), c2) {
                                let k = choose|k: int|
                                    0 <= k < i - 1 && (#[trigger] os.take(i - 1)[k]).0 == c2;
                                assert(os.take(i as int)[k].0 == c2);
                                assert(in_keys(os.take(i as int), c2));
                            }
                        }
                    }
                }
                assert forall|c2: Context| #[trigger] self.has_context(c2) <==> old(
                    self,
                ).has_context(c2) || in_keys(os.take(i as int), c2) by {
                    if in_keys(os.take(i as int), c2) {
                        let k = choose|k: int|
                            0 <= k < i && (#[trigger] os.take(i as int)[k]).0 == c2;
                        if k < i - 1 {
                            assert(os.take(i - 1)[k].0 == c2);
                            assert(in_keys(os.take(i - 1), c2));
                        } else {
                            assert(c2 == c);
                        }
                    }
                    if self.has_context(c2) && c2 != c && !old(self).has_context(c2) {
                        assert(in_keys(os.take(i - 1), c2));
                        let k = choose|k: int|
                            0 <= k < i - 1 && (#[trigger] os.take(i - 1)[k]).0 == c2;
                        assert(os.take(i as int)[k].0 == c2);
                        assert(in_keys(os.take(i as int), c2));
                    }
                    if c2 == c {
                        assert(os.take(i as int)[i - 1].0 == c);
                        assert(in_keys(os.take(i as int), c));
                    }
                }
            }
        }
        proof {
            assert(os.take(os.len() as int) =~= os);
            if add_fits(*old(self), *other) {
                lemma_assoc_map_props(os);
                assert forall|c: Context, t: TokenIdx| #[trigger] final(self).count_for(c, t)
                    == old(self).count_for(c, t) + other.count_for(c, t) by {
                    if !other.has_context(c) {
                        assert(other.count_for(c, t) == 0);
                    }
                }
                assert forall|c: Context| #[trigger] final(self).total_for(c) == old(
                    self,
                ).total_for(c) + other.total_for(c) by {
                    if !other.has_context(c) {
                        assert(other.total_for(c) == 0);
                    }
                }
            }
        }
    }
}

/// A merge is exact when no context's combined total can overflow.
pub open spec fn add_fits(a: LearningModel, b: LearningModel) -> bool {
    forall|c: Context| #[trigger] a.total_for(c) + b.total_for(c) <= usize::MAX
}

/// Ingesting the whole line cannot overflow any of the model's context
/// totals.
pub open spec fn line_fits(
    lm: LearningModel,
    shape: ContextShape,
    lv: Seq<TokenView>,
    vv: Seq<TokenView>,
) -> bool {
    forall|c: Context|
        #[trigger] lm.total_for(c) + line_ctx(shape, lv, vv, c, lv.len() as int) <= usize::MAX
}

/// One ingest step advances the per-line observation counts by exactly
/// the contribution of position `idx`.
proof fn lemma_ingest_step(
    base: LearningModel,
    pre: LearningModel,
    post: LearningModel,
    lv: Seq<TokenView>,
    vv: Seq<TokenView>,
    idx: int,
)
    requires
        0 <= idx < lv.len(),
        vv.contains(lv[idx]),
        vv.len() <= usize::MAX,
        pre.shape == base.shape,
        post.shape == pre.shape,
        line_fits(base, base.shape, lv, vv),
        forall|c: Context, t: TokenIdx|
            #[trigger] pre.count_for(c, t) == base.count_for(c, t) + line_obs(
                base.shape,
                lv,
                vv,
                c,
                t,
                idx,
            ),
        forall|c: Context|
            #[trigger] pre.total_for(c) == base.total_for(c) + line_ctx(base.shape, lv, vv, c, idx),
        ({
            let tok = vv.index_of(lv[idx]) as TokenIdx;
            match context_view(pre.shape, lv, idx, vv) {
                None => post == pre,
                Some(c) => {
                    &&& (forall|c2: Context|
                        #[trigger] post.has_context(c2) <==> pre.has_context(c2) || c2 == c)
                    &&& (forall|c2: Context|
                        c2 != c && pre.has_context(c2) ==> #[trigger] post.tables()[c2]
                            == pre.tables()[c2])
                    &&& (pre.total_for(c) < usize::MAX ==> {
                        &&& post.total_for(c) == pre.total_for(c) + 1
                        &&& post.count_for(c, tok) == pre.count_for(c, tok) + 1
                        &&& (forall|t2: TokenIdx|
                            t2 != tok ==> #[trigger] post.count_for(c, t2) == pre.count_for(
                                c,
                                t2,
                            ))
                    })
                },
            }
        }),
    ensures
        forall|c: Context, t: TokenIdx|
            #[trigger] post.count_for(c, t) == base.count_for(c, t) + line_obs(
                base.shape,
                lv,
                vv,
                c,
                t,
                idx + 1,
            ),
        forall|c: Context|
            #[trigger] post.total_for(c) == base.total_for(c) + line_ctx(
                base.shape,
                lv,
                vv,
                c,
                idx + 1,
            ),
{
    let shape = base.shape;
    let tok = vv.index_of(lv[idx]) as TokenIdx;
    assert(0 <= vv.index_of(lv[idx]) < vv.len() && vv[vv.index_of(lv[idx])] == lv[idx]);
    match context_view(shape, lv, idx, vv) {
        None => {
            assert forall|c: Context, t: TokenIdx|
                #[trigger] post.count_for(c, t) == base.count_for(c, t) + line_obs(
                shape,
                lv,
                vv,
                c,
                t,
                idx + 1,
            ) by {
                assert(!observes_at(shape, lv, vv, c, t, idx));
                assert(line_obs(shape, lv, vv, c, t, idx + 1) == line_obs(shape, lv, vv, c, t, idx));
            }
            assert forall|c: Context| #[trigger] post.total_for(c) == base.total_for(c) + line_ctx(
                shape,
                lv,
                vv,
                c,
                idx + 1,
            ) by {
                assert(!counts_at(shape, lv, vv, c, idx));
                assert(line_ctx(shape, lv, vv, c, idx + 1) == line_ctx(shape, lv, vv, c, idx));
            }
        },
        Some(c) => {
            assert(counts_at(shape, lv, vv, c, idx));
            assert(line_ctx(shape, lv, vv, c, idx + 1) == line_ctx(shape, lv, vv, c, idx) + 1);
            lemma_line_ctx_mono(shape, lv, vv, c, idx + 1, lv.len() as int);
            assert(base.total_for(c) + line_ctx(shape, lv, vv, c, lv.len() as int) <= usize::MAX);
            assert(pre.total_for(c) < usize::MAX);
            assert forall|c2: Context, t: TokenIdx|
                #[trigger] post.count_for(c2, t) == base.count_for(c2, t) + line_obs(
                shape,
                lv,
                vv,
                c2,
                t,
                idx + 1,
            ) by {
                if c2 == c {
                    if t == tok {
                        assert(observes_at(shape, lv, vv, c, t, idx));
                        assert(post.count_for(c, t) == pre.count_for(c, t) + 1);
                    } else {
                        assert(t as int != tok as int);
                        assert(!observes_at(shape, lv, vv, c, t, idx));
                        assert(post.count_for(c, t) == pre.count_for(c, t));
                    }
                } else {
                    assert(!observes_at(shape, lv, vv, c2, t, idx));
                    assert(post.has_context(c2) == pre.has_context(c2));
                    if pre.has_context(c2) {
                        assert(post.tables()[c2] == pre.tables()[c2]);
                    }
                    assert(post.count_for(c2, t) == pre.count_for(c2, t));
                }
            }
            assert forall|c2: Context| #[trigger] post.total_for(c2) == base.total_for(c2)
                + line_ctx(shape, lv, vv, c2, idx + 1) by {
                if c2 == c {
                    assert(post.total_for(c) == pre.total_for(c) + 1);
                } else {
                    assert(!counts_at(shape, lv, vv, c2, idx));
                    assert(post.has_context(c2) == pre.has_context(c2));
                    if pre.has_context(c2) {
                        assert(post.tables()[c2] == pre.tables()[c2]);
                    }
                    assert(post.total_for(c2) == pre.total_for(c2));
                }
            }
        },
    }
}

/// One user's pair of learning models, bigram and trigram.
pub struct UserLearningModel {
    /// Counts conditioned on the previous token.
    pub own_bigrams: LearningModel,
    /// Counts conditioned on the previous two tokens.
    pub own_trigrams: LearningModel,
}

impl UserLearningModel {
    /// Both component models are well-formed and have their proper shapes.
    pub open spec fn wf(&self) -> bool {
        &&& self.own_bigrams.wf()
        &&& self.own_trigrams.wf()
        &&& self.own_bigrams.shape is Bigram
        &&& self.own_trigrams.shape is Trigram
    }

    /// All token indices of both models lie below the bound.
    pub open spec fn bounded(&self, n: int) -> bool {
        self.own_bigrams.bounded(n) && self.own_trigrams.bounded(n)
    }

    /// Neither model has observed anything.
    pub open spec fn is_empty(&self) -> bool {
        self.own_bigrams.contexts@.len() == 0 && self.own_trigrams.contexts@.len() == 0
    }

    /// Pack both models, keeping contexts whose totals reach the threshold.
    pub fn as_generative(&self, min_count: usize) -> (u: UserGenerativeModel)
        requires
            self.wf(),
        ensures
            u.wf(),
            forall|b: int| #![trigger u.bounded(b)] self.bounded(b) ==> u.bounded(b),
            self.is_empty() ==> u.is_empty(),
            forall|c: Context|
                #[trigger] u.own_trigrams.has_context(c) ==> self.own_trigrams.has_context(c)
                    && self.own_trigrams.tables()[c].total >= min_count && packs(
                    self.own_trigrams.tables()[c],
                    u.own_trigrams.tables()[c],
                ),
            forall|c: Context|
                #[trigger] u.own_bigrams.has_context(c) ==> self.own_bigrams.has_context(c)
                    && self.own_bigrams.tables()[c].total >= min_count && packs(
                    self.own_bigrams.tables()[c],
                    u.own_bigrams.tables()[c],
                ),
            forall|c: Context|
                self.own_bigrams.has_context(c) && self.own_bigrams.tables()[c].total >= min_count
                    ==> #[trigger] u.own_bigrams.has_context(c),
            forall|c: Context|
                self.own_trigrams.has_context(c) && self.own_trigrams.tables()[c].total
                    >= min_count ==> #[trigger] u.own_trigrams.has_context(c),
    {
        UserGenerativeModel {
            own_bigrams: self.own_bigrams.as_generative(min_count),
            own_trigrams: self.own_trigrams.as_generative(min_count),
        }
    }

    /// Add another user's counts into this accumulator, both shapes.
    pub fn add(&mut self, other: &UserLearningModel)
        requires
            old(self).wf(),
            other.wf(),
        ensures
            final(self).wf(),
            forall|c: Context|
                #[trigger] final(self).own_bigrams.has_context(c) <==> old(
                    self,
                ).own_bigrams.has_context(c) || other.own_bigrams.has_context(c),
            forall|c: Context|
                #[trigger] final(self).own_trigrams.has_context(c) <==> old(
                    self,
                ).own_trigrams.has_context(c) || other.own_trigrams.has_context(c),
            add_fits(old(self).own_bigrams, other.own_bigrams) ==> forall|c: Context, t: TokenIdx|
                #[trigger] final(self).own_bigrams.count_for(c, t) == old(
                    self,
                ).own_bigrams.count_for(c, t) + other.own_bigrams.count_for(c, t),
            add_fits(old(self).own_trigrams, other.own_trigrams) ==> forall|
                c: Context,
                t: TokenIdx,
            |
                #[trigger] final(self).own_trigrams.count_for(c, t) == old(
                    self,
                ).own_trigrams.count_for(c, t) + other.own_trigrams.count_for(c, t),
            add_fits(old(self).own_bigrams, other.own_bigrams) ==> forall|c: Context|
                #[trigger] final(self).own_bigrams.total_for(c) == old(
                    self,
                ).own_bigrams.total_for(c) + other.own_bigrams.total_for(c),
            add_fits(old(self).own_trigrams, other.own_trigrams) ==> forall|c: Context|
                #[trigger] final(self).own_trigrams.total_for(c) == old(
                    self,
                ).own_trigrams.total_for(c) + other.own_trigrams.total_for(c),
            forall|b: int|
                #![trigger final(self).bounded(b)]
                old(self).bounded(b) && other.bounded(b) ==> final(self).bounded(b),
    {
        self.own_bigrams.add(&other.own_bigrams);
        self.own_trigrams.add(&other.own_trigrams);
    }

    /// Ingest one tokenized line: each position's token is counted once
    /// under its bigram context and once under its trigram context,
    /// whenever that context forms. Exact whenever no context's total can
    /// overflow.
    pub fn ingest_line(&mut self, tokens: &Vec<Token>, vocab: &Vec<Token>)
        requires
            old(self).wf(),
            vocab_wf(line_view(vocab@)),
            forall|j: int|
                0 <= j < tokens@.len() ==> line_view(vocab@).contains(
                    #[trigger] line_view(tokens@)[j],
                ),
        ensures
            final(self).wf(),
            forall|b: int|
                #![trigger final(self).bounded(b)]
                old(self).bounded(b) && line_view(vocab@).len() <= b ==> final(self).bounded(b),
            line_fits(
                old(self).own_bigrams,
                ContextShape::Bigram,
                line_view(tokens@),
                line_view(vocab@),
            ) ==> forall|c: Context, t: TokenIdx|
                #[trigger] final(self).own_bigrams.count_for(c, t) == old(
                    self,
                ).own_bigrams.count_for(c, t) + line_obs(
                    ContextShape::Bigram,
                    line_view(tokens@),
                    line_view(vocab@),
                    c,
                    t,
                    line_view(tokens@).len() as int,
                ),
            line_fits(
                old(self).own_bigrams,
                ContextShape::Bigram,
                line_view(tokens@),
                line_view(vocab@),
            ) ==> forall|c: Context|
                #[trigger] final(self).own_bigrams.total_for(c) == old(
                    self,
                ).own_bigrams.total_for(c) + line_ctx(
                    ContextShape::Bigram,
                    line_view(tokens@),
                    line_view(vocab@),
                    c,
                    line_view(tokens@).len() as int,
                ),
            line_fits(
                old(self).own_trigrams,
                ContextShape::Trigram,
                line_view(tokens@),
                line_view(vocab@),
            ) ==> forall|c: Context, t: TokenIdx|
                #[trigger] final(self).own_trigrams.count_for(c, t) == old(
                    self,
                ).own_trigrams.count_for(c, t) + line_obs(
                    ContextShape::Trigram,
                    line_view(tokens@),
                    line_view(vocab@),
                    c,
                    t,
                    line_view(tokens@).len() as int,
                ),
            line_fits(
                old(self).own_trigrams,
                ContextShape::Trigram,
                line_view(tokens@),
                line_view(vocab@),
            ) ==> forall|c: Context|
                #[trigger] final(self).own_trigrams.total_for(c) == old(
                    self,
                ).own_trigrams.total_for(c) + line_ctx(
                    ContextShape::Trigram,
                    line_view(tokens@),
                    line_view(vocab@),
                    c,
                    line_view(tokens@).len() as int,
                ),
    {
        let ghost lv = line_view(tokens@);
        let ghost vv = line_view(vocab@);
        let ghost bfits = line_fits(old(self).own_bigrams, ContextShape::Bigram, lv, vv);
        let ghost tfits = line_fits(old(self).own_trigrams, ContextShape::Trigram, lv, vv);
        proof {
            vstd::std_specs::vec::axiom_spec_len(vocab);
        }
        let mut idx: usize = 0;
        while idx < tokens.len()
            invariant
                idx <= tokens@.len(),
                lv == line_view(tokens@),
                vv == line_view(vocab@),
                vv.len() <= usize::MAX,
                vocab_wf(vv),
                old(self).wf(),
                forall|j: int| 0 <= j < tokens@.len() ==> vv.contains(#[trigger] lv[j]),
                self.wf(),
                bfits == line_fits(old(self).own_bigrams, ContextShape::Bigram, lv, vv),
                tfits == line_fits(old(self).own_trigrams, ContextShape::Trigram, lv, vv),
                forall|b: int|
                    #![trigger self.bounded(b)]
                    old(self).bounded(b) && vv.len() <= b ==> self.bounded(b),
                bfits ==> forall|c: Context, t: TokenIdx|
                    #[trigger] self.own_bigrams.count_for(c, t) == old(
                        self,
                    ).own_bigrams.count_for(c, t) + line_obs(
                        ContextShape::Bigram,
                        lv,
                        vv,
                        c,
                        t,
                        idx as int,
                    ),
                bfits ==> forall|c: Context|
                    #[trigger] self.own_bigrams.total_for(c) == old(self).own_bigrams.total_for(c)
                        + line_ctx(ContextShape::Bigram, lv, vv, c, idx as int),
                tfits ==> forall|c: Context, t: TokenIdx|
                    #[trigger] self.own_trigrams.count_for(c, t) == old(
                        self,
                    ).own_trigrams.count_for(c, t) + line_obs(
                        ContextShape::Trigram,
                        lv,
                        vv,
                        c,
                        t,
                        idx as int,
                    ),
                tfits ==> forall|c: Context|
                    #[trigger] self.own_trigrams.total_for(c) == old(
                        self,
                    ).own_trigrams.total_for(c) + line_ctx(
                        ContextShape::Trigram,
                        lv,
                        vv,
                        c,
                        idx as int,
                    ),
            decreases tokens@.len() - idx,
        {
            proof {
                assert(lv[idx as int] == tokens@[idx as int]@);
            }
            let ghost pre = *self;
            self.own_bigrams.ingest(tokens, idx, vocab);
            let ghost mid = *self;
            proof {
                if bfits {
                    lemma_ingest_step(
                        old(self).own_bigrams,
                        pre.own_bigrams,
                        mid.own_bigrams,
                        lv,
                        vv,
                        idx as int,
                    );
                }
            }
            self.own_trigrams.ingest(tokens, idx, vocab);
            proof {
                assert(self.own_bigrams == mid.own_bigrams);
                if tfits {
                    lemma_ingest_step(
                        old(self).own_trigrams,
                        mid.own_trigrams,
                        self.own_trigrams,
                        lv,
                        vv,
                        idx as int,
                    );
                }
                assert forall|b: int|
                    #![trigger self.bounded(b)]
                    old(self).bounded(b) && vv.len() <= b implies self.bounded(b) by {
                    assert(pre.bounded(b));
                    assert(pre.own_bigrams.bounded(b));
                    assert(mid.own_bigrams.bounded(b));
                    assert(mid.own_trigrams.bounded(b));
                    assert(self.own_trigrams.bounded(b));
                }
            }
            idx += 1;
        }
    }
}

impl Default for UserLearningModel {
    /// A user model with no observations at all.
    fn default() -> (r: UserLearningModel)
        ensures
            r.wf(),
            r.is_empty(),
            forall|b: int| #[trigger] r.bounded(b),
    {
        UserLearningModel {
            own_bigrams: LearningModel::new(ContextShape::Bigram),
            own_trigrams: LearningModel::new(ContextShape::Trigram),
        }
    }
}

/// One user's pair of packed generative models, bigram and trigram.
pub struct UserGenerativeModel {
    /// Packed tables conditioned on the previous token.
    pub own_bigrams: GenerativeModel,
    /// Packed tables conditioned on the previous two tokens.
    pub own_trigrams: GenerativeModel,
}

/// The number of entries across all of a packed model's tables.
pub open spec fn relations_of(s: Seq<(Context, CumulativeWordTable)>) -> int
    decreases s.len(),
{
    if s.len() == 0 {
        0
    } else {
        relations_of(s.drop_last()) + s.last().1.token_table@.len()
    }
}

impl UserGenerativeModel {
    /// Both component models are well-formed and have their proper shapes.
    pub open spec fn wf(&self) -> bool {
        &&& self.own_bigrams.wf()
        &&& self.own_trigrams.wf()
        &&& self.own_bigrams.shape is Bigram
        &&& self.own_trigrams.shape is Trigram
    }

    /// All token indices of both models lie below the bound.
    pub open spec fn bounded(&self, n: int) -> bool {
        self.own_bigrams.bounded(n) && self.own_trigrams.bounded(n)
    }

    /// Neither model kept any context.
    pub open spec fn is_empty(&self) -> bool {
        self.own_bigrams.is_empty() && self.own_trigrams.is_empty()
    }

    /// How many context-to-token relations the packed model holds, saturating
    /// at the machine limit.
    pub fn relation_count(&self) -> (r: usize)
        ensures
            relations_of(self.own_bigrams.contexts@) + relations_of(self.own_trigrams.contexts@)
                <= usize::MAX ==> r == relations_of(self.own_bigrams.contexts@) + relations_of(
                self.own_trigrams.contexts@,
            ),
    {
        let mut count: usize = 0;
        count = add_relations(count, &self.own_bigrams.contexts);
        proof {
            lemma_relations_nonneg(self.own_trigrams.contexts@);
        }
        count = add_relations(count, &self.own_trigrams.contexts);
        count
    }
}

/// Relation totals are non-negative.
proof fn lemma_relations_nonneg(s: Seq<(Context, CumulativeWordTable)>)
    ensures
        relations_of(s) >= 0,
    decreases s.len(),
{
    if s.len() > 0 {
        lemma_relations_nonneg(s.drop_last());
    }
}

/// Add the sizes of all tables to a running count, saturating at the
/// machine limit.
fn add_relations(count: usize, contexts: &Vec<(Context, CumulativeWordTable)>) -> (r: usize)
    ensures
        count + relations_of(contexts@) <= usize::MAX ==> r == count + relations_of(contexts@),
{
    let ghost cs = contexts@;
    let mut c = count;
    let mut i: usize = 0;
    while i < contexts.len()
        invariant
            i <= cs.len(),
            contexts@ == cs,
            count + relations_of(cs.take(i as int)) <= usize::MAX ==> c == count + relations_of(
                cs.take(i as int),
            ),
        decreases cs.len() - i,
    {
        let l = contexts[i].1.token_table.len();
        if l <= usize::MAX - c {
            c = c + l;
        } else {
            c = usize::MAX;
        }
        i += 1;
        proof {
            assert(cs.take(i as int).drop_last() =~= cs.take(i - 1));
            assert(cs.take(i as int).last() == cs[i - 1]);
            lemma_relations_nonneg(cs.take(i - 1));
        }
    }
    proof {
        assert(cs.take(cs.len() as int) =~= cs);
    }
    c
}

/// The trained snapshot: the shared vocabulary, one packed model per user,
/// and the aggregate model over all users.
pub struct Model {
    /// Every distinct token observed, in order of first observation; a
    /// token's position is its index.
    pub tokens: Vec<Token>,
    /// Each known user's packed model.
    pub users: Vec<(UserId, UserGenerativeModel)>,
    /// The packed model of all users' counts added together.
    pub shared: UserGenerativeModel,
}

impl Model {
    /// Vocabulary entries are distinct, user ids unique, and every model
    /// well-formed with token indices inside the vocabulary.
    pub open spec fn wf(&self) -> bool {
        &&& vocab_wf(line_view(self.tokens@))
        &&& keys_unique(self.users@)
        &&& forall|i: int|
            0 <= i < self.users@.len() ==> (#[trigger] self.users@[i]).1.wf()
                && self.users@[i].1.bounded(self.tokens@.len() as int)
        &&& self.shared.wf()
        &&& self.shared.bounded(self.tokens@.len() as int)
    }
}

/// Whether `i` marks the end of the leading user-id field: the first space.
pub open spec fn leading_prefix(s: Seq<char>, i: int) -> bool {
    0 <= i < s.len() && s[i] == ' ' && forall|j: int| 0 <= j < i ==> s[j] != ' '
}

/// The position of the first space of the line, if any.
pub fn find_space(line: &str) -> (r: Option<usize>)
    ensures
        r matches Some(i) ==> leading_prefix(line@, i as int),
        r is None ==> forall|j: int| 0 <= j < line@.len() ==> line@[j] != ' ',
{
    let n = line.unicode_len();
    let mut i: usize = 0;
    while i < n
        invariant
            n == line@.len(),
            i <= n,
            forall|j: int| 0 <= j < i ==> line@[j] != ' ',
        decreases n - i,
    {
        if line.get_char(i) == ' ' {
            return Some(i);
        }
        i += 1;
    }
    None
}

/// The user id named by the digits before the line's first space, if those
/// digits form one.
pub fn leading_user_id(line: &str) -> (r: Option<UserId>)
    requires
        exists|i: int| leading_prefix(line@, i),
    ensures
        forall|i: int|
            leading_prefix(line@, i) ==> ((r is Some <==> parses_u64(line@.take(i))) && (
            r matches Some(v) ==> v == u64_value(line@.take(i)))),
{
    let at = match find_space(line) {
        Some(i) => i,
        None => {
            proof {
                let i = choose|i: int| leading_prefix(line@, i);
                assert(line@[i] == ' ');
                assert(false);
            }
            0
        },
    };
    let num = line.substring_char(0, at);
    proof {
        assert(num@ =~= line@.take(at as int));
        assert forall|i: int| leading_prefix(line@, i) implies i == at as int by {
            if i < at {
                assert(line@[i] == ' ');
            }
            if i > at {
                assert(line@[at as int] != ' ');
            }
        }
    }
    parse_u64(num)
}

/// Split a corpus line into its leading user id and the tokens of the rest.
/// The text after the id (including the separating space) is tokenized.
pub fn parse_use_line(line: &str) -> (r: (UserId, Vec<Token>))
    requires
        exists|i: int| #[trigger] leading_prefix(line@, i) && parses_u64(line@.take(i)),
    ensures
        forall|i: int|
            #[trigger] leading_prefix(line@, i) ==> r.0 == u64_value(line@.take(i)) && line_view(
                r.1@,
            ) == tokenize_view(line@.skip(i)),
{
    let at = match find_space(line) {
        Some(i) => i,
        None => {
            proof {
                let i = choose|i: int| #[trigger] leading_prefix(line@, i) && parses_u64(
                    line@.take(i),
                );
                assert(line@[i] == ' ');
                assert(false);
            }
            0
        },
    };
    proof {
        let i0 = choose|i: int| #[trigger] leading_prefix(line@, i) && parses_u64(line@.take(i));
        assert forall|i: int| #[trigger] leading_prefix(line@, i) implies i == at as int by {
            if i < at {
                assert(line@[i] == ' ');
            }
            if i > at {
                assert(line@[at as int] != ' ');
            }
        }
        assert(i0 == at as int);
    }
    let num = line.substring_char(0, at);
    let n = line.unicode_len();
    let text = line.substring_char(at, n);
    proof {
        assert(num@ =~= line@.take(at as int));
        assert(text@ =~= line@.skip(at as int));
    }
    let user_id = parse_u64(num).unwrap();
    let tokens = tokenize_line(text);
    (user_id, tokens)
}

/// The position of a user id among an association list's keys.
fn find_user(entries: &Vec<(UserId, UserLearningModel)>, id: UserId) -> (r: Option<usize>)
    ensures
        r matches Some(i) ==> 0 <= i < entries@.len() && entries@[i as int].0 == id,
        r is None ==> !in_keys(entries@, id),
{
    let mut i: usize = 0;
    while i < entries.len()
        invariant
            i <= entries@.len(),
            forall|j: int| 0 <= j < i ==> (#[trigger] entries@[j]).0 != id,
        decreases entries@.len() - i,
    {
        if entries[i].0 == id {
            return Some(i);
        }
        i += 1;
    }
    None
}

/// Extend a vocabulary with a line's tokens in order, keeping the
/// position of each token's first appearance.
pub open spec fn vocab_extend(v: Seq<TokenView>, line: Seq<TokenView>) -> Seq<TokenView>
    decreases line.len(),
{
    if line.len() == 0 {
        v
    } else {
        vocab_extend(
            if v.contains(line[0]) {
                v
            } else {
                v.push(line[0])
            },
            line.skip(1),
        )
    }
}

/// The vocabulary the first `i` corpus lines build: every distinct token
/// of their tokenized messages, in order of first appearance.
pub open spec fn corpus_vocab(corpus: Seq<(UserId, String)>, i: int) -> Seq<TokenView>
    decreases i,
{
    if i <= 0 {
        Seq::empty()
    } else {
        vocab_extend(corpus_vocab(corpus, i - 1), tokenize_view(corpus[i - 1].1@))
    }
}

/// Whether position `p` of a tokenized line records one observation:
/// context `c` forms there and the token at `p` has vocabulary index `t`.
pub open spec fn observes_at(
    shape: ContextShape,
    line: Seq<TokenView>,
    vocab: Seq<TokenView>,
    c: Context,
    t: TokenIdx,
    p: int,
) -> bool {
    &&& context_view(shape, line, p, vocab) == Some(c)
    &&& vocab.contains(line[p])
    &&& vocab.index_of(line[p]) == t as int
}

/// Whether position `p` of a tokenized line raises context `c`'s total:
/// the context forms there and the token at `p` is in the vocabulary.
pub open spec fn counts_at(
    shape: ContextShape,
    line: Seq<TokenView>,
    vocab: Seq<TokenView>,
    c: Context,
    p: int,
) -> bool {
    &&& context_view(shape, line, p, vocab) == Some(c)
    &&& vocab.contains(line[p])
}

/// Occurrences of vocabulary index `t` after context `c` among the first
/// `upto` positions of one tokenized line.
pub open spec fn line_obs(
    shape: ContextShape,
    line: Seq<TokenView>,
    vocab: Seq<TokenView>,
    c: Context,
    t: TokenIdx,
    upto: int,
) -> int
    decreases upto,
{
    if upto <= 0 {
        0
    } else {
        line_obs(shape, line, vocab, c, t, upto - 1) + if observes_at(
            shape,
            line,
            vocab,
            c,
            t,
            upto - 1,
        ) {
            1int
        } else {
            0int
        }
    }
}

/// Positions among the first `upto` of one tokenized line whose context
/// is `c`.
pub open spec fn line_ctx(
    shape: ContextShape,
    line: Seq<TokenView>,
    vocab: Seq<TokenView>,
    c: Context,
    upto: int,
) -> int
    decreases upto,
{
    if upto <= 0 {
        0
    } else {
        line_ctx(shape, line, vocab, c, upto - 1) + if counts_at(shape, line, vocab, c, upto - 1) {
            1int
        } else {
            0int
        }
    }
}

/// Occurrences of vocabulary index `t` after context `c` across the
/// tokenized messages of user `u` among the first `upto` corpus lines.
pub open spec fn user_obs(
    shape: ContextShape,
    corpus: Seq<(UserId, String)>,
    vocab: Seq<TokenView>,
    u: UserId,
    c: Context,
    t: TokenIdx,
    upto: int,
) -> int
    decreases upto,
{
    if upto <= 0 {
        0
    } else {
        user_obs(shape, corpus, vocab, u, c, t, upto - 1) + if corpus[upto - 1].0 == u {
            line_obs(
                shape,
                tokenize_view(corpus[upto - 1].1@),
                vocab,
                c,
                t,
                tokenize_view(corpus[upto - 1].1@).len() as int,
            )
        } else {
            0int
        }
    }
}

/// Positions with context `c` across the tokenized messages of user `u`
/// among the first `upto` corpus lines.
pub open spec fn user_ctx(
    shape: ContextShape,
    corpus: Seq<(UserId, String)>,
    vocab: Seq<TokenView>,
    u: UserId,
    c: Context,
    upto: int,
) -> int
    decreases upto,
{
    if upto <= 0 {
        0
    } else {
        user_ctx(shape, corpus, vocab, u, c, upto - 1) + if corpus[upto - 1].0 == u {
            line_ctx(
                shape,
                tokenize_view(corpus[upto - 1].1@),
                vocab,
                c,
                tokenize_view(corpus[upto - 1].1@).len() as int,
            )
        } else {
            0int
        }
    }
}

/// Occurrences of vocabulary index `t` after context `c` across all users'
/// tokenized messages among the first `upto` corpus lines.
pub open spec fn all_obs(
    shape: ContextShape,
    corpus: Seq<(UserId, String)>,
    vocab: Seq<TokenView>,
    c: Context,
    t: TokenIdx,
    upto: int,
) -> int
    decreases upto,
{
    if upto <= 0 {
        0
    } else {
        all_obs(shape, corpus, vocab, c, t, upto - 1) + line_obs(
            shape,
            tokenize_view(corpus[upto - 1].1@),
            vocab,
            c,
            t,
            tokenize_view(corpus[upto - 1].1@).len() as int,
        )
    }
}

/// Positions with context `c` across all users' tokenized messages among
/// the first `upto` corpus lines.
pub open spec fn all_ctx(
    shape: ContextShape,
    corpus: Seq<(UserId, String)>,
    vocab: Seq<TokenView>,
    c: Context,
    upto: int,
) -> int
    decreases upto,
{
    if upto <= 0 {
        0
    } else {
        all_ctx(shape, corpus, vocab, c, upto - 1) + line_ctx(
            shape,
            tokenize_view(corpus[upto - 1].1@),
            vocab,
            c,
            tokenize_view(corpus[upto - 1].1@).len() as int,
        )
    }
}

/// No context's corpus-wide occurrence total exceeds the machine limit,
/// so every count the learner accumulates is exact.
pub open spec fn corpus_fits(corpus: Seq<(UserId, String)>) -> bool {
    forall|shape: ContextShape, c: Context|
        #[trigger] all_ctx(
            shape,
            corpus,
            corpus_vocab(corpus, corpus.len() as int),
            c,
            corpus.len() as int,
        ) <= usize::MAX
}

/// Per-line observation counts are non-negative and bounded by the
/// per-line context totals.
proof fn lemma_line_counts_basic(
    shape: ContextShape,
    line: Seq<TokenView>,
    vocab: Seq<TokenView>,
    c: Context,
    t: TokenIdx,
    upto: int,
)
    ensures
        0 <= line_obs(shape, line, vocab, c, t, upto),
        line_obs(shape, line, vocab, c, t, upto) <= line_ctx(shape, line, vocab, c, upto),
        0 <= line_ctx(shape, line, vocab, c, upto),
    decreases upto,
{
    if upto > 0 {
        lemma_line_counts_basic(shape, line, vocab, c, t, upto - 1);
    }
}

/// Per-line context totals grow with the scanned prefix.
proof fn lemma_line_ctx_mono(
    shape: ContextShape,
    line: Seq<TokenView>,
    vocab: Seq<TokenView>,
    c: Context,
    i: int,
    j: int,
)
    requires
        i <= j,
    ensures
        line_ctx(shape, line, vocab, c, i) <= line_ctx(shape, line, vocab, c, j),
    decreases j - i,
{
    if i < j {
        lemma_line_ctx_mono(shape, line, vocab, c, i, j - 1);
    }
}

/// A user's context totals are non-negative and never exceed the
/// corpus-wide totals.
proof fn lemma_user_ctx_le_all(
    shape: ContextShape,
    corpus: Seq<(UserId, String)>,
    vocab: Seq<TokenView>,
    u: UserId,
    c: Context,
    upto: int,
)
    ensures
        0 <= user_ctx(shape, corpus, vocab, u, c, upto),
        user_ctx(shape, corpus, vocab, u, c, upto) <= all_ctx(shape, corpus, vocab, c, upto),
    decreases upto,
{
    if upto > 0 {
        lemma_user_ctx_le_all(shape, corpus, vocab, u, c, upto - 1);
        lemma_line_counts_basic(
            shape,
            tokenize_view(corpus[upto - 1].1@),
            vocab,
            c,
            0,
            tokenize_view(corpus[upto - 1].1@).len() as int,
        );
    }
}

/// A user's context totals grow with the number of lines read.
proof fn lemma_user_ctx_mono(
    shape: ContextShape,
    corpus: Seq<(UserId, String)>,
    vocab: Seq<TokenView>,
    u: UserId,
    c: Context,
    i: int,
    j: int,
)
    requires
        i <= j,
    ensures
        user_ctx(shape, corpus, vocab, u, c, i) <= user_ctx(shape, corpus, vocab, u, c, j),
    decreases j - i,
{
    if i < j {
        lemma_user_ctx_mono(shape, corpus, vocab, u, c, i, j - 1);
        lemma_line_counts_basic(
            shape,
            tokenize_view(corpus[j - 1].1@),
            vocab,
            c,
            0,
            tokenize_view(corpus[j - 1].1@).len() as int,
        );
    }
}

/// Corpus-wide context totals grow with the number of lines read.
proof fn lemma_all_ctx_mono(
    shape: ContextShape,
    corpus: Seq<(UserId, String)>,
    vocab: Seq<TokenView>,
    c: Context,
    i: int,
    j: int,
)
    requires
        i <= j,
    ensures
        all_ctx(shape, corpus, vocab, c, i) <= all_ctx(shape, corpus, vocab, c, j),
    decreases j - i,
{
    if i < j {
        lemma_all_ctx_mono(shape, corpus, vocab, c, i, j - 1);
        lemma_line_counts_basic(
            shape,
            tokenize_view(corpus[j - 1].1@),
            vocab,
            c,
            0,
            tokenize_view(corpus[j - 1].1@).len() as int,
        );
    }
}

/// A user absent from the first `upto` lines has no observations there.
proof fn lemma_user_absent(
    shape: ContextShape,
    corpus: Seq<(UserId, String)>,
    vocab: Seq<TokenView>,
    u: UserId,
    c: Context,
    t: TokenIdx,
    upto: int,
)
    requires
        forall|j: int| 0 <= j < upto ==> (#[trigger] corpus[j]).0 != u,
    ensures
        user_obs(shape, corpus, vocab, u, c, t, upto) == 0,
        user_ctx(shape, corpus, vocab, u, c, upto) == 0,
    decreases upto,
{
    if upto > 0 {
        lemma_user_absent(shape, corpus, vocab, u, c, t, upto - 1);
    }
}

/// The sum over a list of user ids of each user's occurrence count of
/// token `t` after context `c` among the first `upto` corpus lines.
pub open spec fn ids_obs_sum(
    ids: Seq<UserId>,
    shape: ContextShape,
    corpus: Seq<(UserId, String)>,
    vocab: Seq<TokenView>,
    c: Context,
    t: TokenIdx,
    upto: int,
) -> int
    decreases ids.len(),
{
    if ids.len() == 0 {
        0
    } else {
        ids_obs_sum(ids.drop_last(), shape, corpus, vocab, c, t, upto) + user_obs(
            shape,
            corpus,
            vocab,
            ids.last(),
            c,
            t,
            upto,
        )
    }
}

/// The sum over a list of user ids of each user's context total for `c`
/// among the first `upto` corpus lines.
pub open spec fn ids_ctx_sum(
    ids: Seq<UserId>,
    shape: ContextShape,
    corpus: Seq<(UserId, String)>,
    vocab: Seq<TokenView>,
    c: Context,
    upto: int,
) -> int
    decreases ids.len(),
{
    if ids.len() == 0 {
        0
    } else {
        ids_ctx_sum(ids.drop_last(), shape, corpus, vocab, c, upto) + user_ctx(
            shape,
            corpus,
            vocab,
            ids.last(),
            c,
            upto,
        )
    }
}

/// Over zero lines every per-user sum is zero.
proof fn lemma_ids_sum_zero(
    ids: Seq<UserId>,
    shape: ContextShape,
    corpus: Seq<(UserId, String)>,
    vocab: Seq<TokenView>,
    c: Context,
    t: TokenIdx,
)
    ensures
        ids_obs_sum(ids, shape, corpus, vocab, c, t, 0) == 0,
        ids_ctx_sum(ids, shape, corpus, vocab, c, 0) == 0,
    decreases ids.len(),
{
    if ids.len() > 0 {
        lemma_ids_sum_zero(ids.drop_last(), shape, corpus, vocab, c, t);
    }
}

/// A line whose author the id list misses leaves the sums unchanged.
proof fn lemma_ids_sum_absent(
    ids: Seq<UserId>,
    shape: ContextShape,
    corpus: Seq<(UserId, String)>,
    vocab: Seq<TokenView>,
    c: Context,
    t: TokenIdx,
    upto: int,
)
    requires
        1 <= upto,
        !ids.contains(corpus[upto - 1].0),
    ensures
        ids_obs_sum(ids, shape, corpus, vocab, c, t, upto) == ids_obs_sum(
            ids,
            shape,
            corpus,
            vocab,
            c,
            t,
            upto - 1,
        ),
        ids_ctx_sum(ids, shape, corpus, vocab, c, upto) == ids_ctx_sum(
            ids,
            shape,
            corpus,
            vocab,
            c,
            upto - 1,
        ),
    decreases ids.len(),
{
    if ids.len() > 0 {
        assert(ids.last() != corpus[upto - 1].0) by {
            assert(ids[ids.len() - 1] == ids.last());
        }
        assert(!ids.drop_last().contains(corpus[upto - 1].0)) by {
            if ids.drop_last().contains(corpus[upto - 1].0) {
                let w = choose|w: int|
                    0 <= w < ids.drop_last().len() && ids.drop_last()[w] == corpus[upto - 1].0;
                assert(ids[w] == corpus[upto - 1].0);
            }
        }
        lemma_ids_sum_absent(ids.drop_last(), shape, corpus, vocab, c, t, upto);
    }
}

/// A line whose author the duplicate-free id list holds advances the sums
/// by exactly that line's observations.
proof fn lemma_ids_sum_step(
    ids: Seq<UserId>,
    shape: ContextShape,
    corpus: Seq<(UserId, String)>,
    vocab: Seq<TokenView>,
    c: Context,
    t: TokenIdx,
    upto: int,
)
    requires
        1 <= upto,
        forall|a: int, b: int| 0 <= a < b < ids.len() ==> ids[a] != ids[b],
        ids.contains(corpus[upto - 1].0),
    ensures
        ids_obs_sum(ids, shape, corpus, vocab, c, t, upto) == ids_obs_sum(
            ids,
            shape,
            corpus,
            vocab,
            c,
            t,
            upto - 1,
        ) + line_obs(
            shape,
            tokenize_view(corpus[upto - 1].1@),
            vocab,
            c,
            t,
            tokenize_view(corpus[upto - 1].1@).len() as int,
        ),
        ids_ctx_sum(ids, shape, corpus, vocab, c, upto) == ids_ctx_sum(
            ids,
            shape,
            corpus,
            vocab,
            c,
            upto - 1,
        ) + line_ctx(
            shape,
            tokenize_view(corpus[upto - 1].1@),
            vocab,
            c,
            tokenize_view(corpus[upto - 1].1@).len() as int,
        ),
    decreases ids.len(),
{
    let u = corpus[upto - 1].0;
    assert(ids.len() > 0);
    if ids.last() == u {
        assert(!ids.drop_last().contains(u)) by {
            if ids.drop_last().contains(u) {
                let w = choose|w: int|
                    0 <= w < ids.drop_last().len() && ids.drop_last()[w] == u;
                assert(ids[w] == u);
                assert(ids[ids.len() - 1] == u);
            }
        }
        lemma_ids_sum_absent(ids.drop_last(), shape, corpus, vocab, c, t, upto);
    } else {
        assert(ids.drop_last().contains(u)) by {
            let w = choose|w: int| 0 <= w < ids.len() && ids[w] == u;
            assert(w < ids.len() - 1);
            assert(ids.drop_last()[w] == u);
        }
        lemma_ids_sum_step(ids.drop_last(), shape, corpus, vocab, c, t, upto);
    }
}

/// The aggregate counts are the pointwise sum of the per-user counts:
/// over any duplicate-free list of user ids that holds every line's
/// author, summing each user's occurrence count (or context total) gives
/// the corpus-wide one. Together with the model builder's contract this
/// says the shared model packs the pointwise sum of the user models'
/// counts.
pub proof fn lemma_all_counts_partition(
    ids: Seq<UserId>,
    shape: ContextShape,
    corpus: Seq<(UserId, String)>,
    vocab: Seq<TokenView>,
    c: Context,
    t: TokenIdx,
    upto: int,
)
    requires
        0 <= upto <= corpus.len(),
        forall|a: int, b: int| 0 <= a < b < ids.len() ==> ids[a] != ids[b],
        forall|j: int| 0 <= j < upto ==> ids.contains((#[trigger] corpus[j]).0),
    ensures
        all_obs(shape, corpus, vocab, c, t, upto) == ids_obs_sum(
            ids,
            shape,
            corpus,
            vocab,
            c,
            t,
            upto,
        ),
        all_ctx(shape, corpus, vocab, c, upto) == ids_ctx_sum(ids, shape, corpus, vocab, c, upto),
    decreases upto,
{
    if upto == 0 {
        lemma_ids_sum_zero(ids, shape, corpus, vocab, c, t);
    } else {
        lemma_all_counts_partition(ids, shape, corpus, vocab, c, t, upto - 1);
        lemma_ids_sum_step(ids, shape, corpus, vocab, c, t, upto);
    }
}

/// In extending a duplicate-free vocabulary, a token already present
/// keeps its position.
proof fn lemma_index_stable(v1: Seq<TokenView>, v2: Seq<TokenView>, t: TokenView)
    requires
        v1.is_prefix_of(v2),
        vocab_wf(v2),
        v1.contains(t),
    ensures
        v2.contains(t),
        v2.index_of(t) == v1.index_of(t),
{
    let i = v1.index_of(t);
    assert(v1[i] == t);
    assert(v1 =~= v2.subrange(0, v1.len() as int));
    assert(v2[i] == t);
    assert(v2.contains(t));
    let j = v2.index_of(t);
    assert(v2[j] == t);
    if i != j {
        assert(v2[i] == v2[j]);
        assert(false);
    }
}

/// Contexts judged against a vocabulary agree with those judged against
/// any duplicate-free extension, once the line's tokens are all present.
proof fn lemma_context_stable(
    shape: ContextShape,
    line: Seq<TokenView>,
    v1: Seq<TokenView>,
    v2: Seq<TokenView>,
    p: int,
)
    requires
        v1.is_prefix_of(v2),
        vocab_wf(v2),
        forall|q: int| 0 <= q < line.len() ==> v1.contains(#[trigger] line[q]),
        0 <= p <= line.len(),
    ensures
        context_view(shape, line, p, v1) == context_view(shape, line, p, v2),
{
    match shape {
        ContextShape::Bigram => {
            if p > 0 {
                lemma_index_stable(v1, v2, line[p - 1]);
            }
        },
        ContextShape::Trigram => {
            if p > 1 {
                lemma_index_stable(v1, v2, line[p - 2]);
                lemma_index_stable(v1, v2, line[p - 1]);
            }
        },
    }
}

/// Per-line observation counts judged against a vocabulary agree with
/// those judged against any duplicate-free extension of it.
proof fn lemma_line_counts_stable(
    shape: ContextShape,
    line: Seq<TokenView>,
    v1: Seq<TokenView>,
    v2: Seq<TokenView>,
    c: Context,
    t: TokenIdx,
    upto: int,
)
    requires
        v1.is_prefix_of(v2),
        vocab_wf(v2),
        forall|q: int| 0 <= q < line.len() ==> v1.contains(#[trigger] line[q]),
        upto <= line.len(),
    ensures
        line_obs(shape, line, v1, c, t, upto) == line_obs(shape, line, v2, c, t, upto),
        line_ctx(shape, line, v1, c, upto) == line_ctx(shape, line, v2, c, upto),
    decreases upto,
{
    if upto > 0 {
        lemma_line_counts_stable(shape, line, v1, v2, c, t, upto - 1);
        lemma_context_stable(shape, line, v1, v2, upto - 1);
        lemma_index_stable(v1, v2, line[upto - 1]);
    }
}

/// Prefix-of is transitive.
proof fn lemma_prefix_trans(a: Seq<TokenView>, b: Seq<TokenView>, c: Seq<TokenView>)
    requires
        a.is_prefix_of(b),
        b.is_prefix_of(c),
    ensures
        a.is_prefix_of(c),
{
    assert forall|i: int| 0 <= i < a.len() implies a[i] == c[i] by {
        assert(a[i] == b.subrange(0, a.len() as int)[i]);
        assert(b[i] == c.subrange(0, b.len() as int)[i]);
    }
    assert(a =~= c.subrange(0, a.len() as int));
}

/// A vocabulary is a prefix of any extension of it.
proof fn lemma_vocab_extend_prefix(v: Seq<TokenView>, line: Seq<TokenView>)
    ensures
        v.is_prefix_of(vocab_extend(v, line)),
    decreases line.len(),
{
    if line.len() == 0 {
        assert(v =~= vocab_extend(v, line).subrange(0, v.len() as int));
    } else {
        let v2 = if v.contains(line[0]) {
            v
        } else {
            v.push(line[0])
        };
        lemma_vocab_extend_prefix(v2, line.skip(1));
        assert(v =~= v2.subrange(0, v.len() as int));
        lemma_prefix_trans(v, v2, vocab_extend(v2, line.skip(1)));
    }
}

/// Extending keeps a vocabulary duplicate-free: only unseen tokens are
/// appended.
proof fn lemma_vocab_extend_wf(v: Seq<TokenView>, line: Seq<TokenView>)
    requires
        vocab_wf(v),
    ensures
        vocab_wf(vocab_extend(v, line)),
    decreases line.len(),
{
    if line.len() > 0 {
        let v2 = if v.contains(line[0]) {
            v
        } else {
            v.push(line[0])
        };
        assert(vocab_wf(v2)) by {
            if !v.contains(line[0]) {
                assert forall|i: int, j: int| 0 <= i < j < v2.len() implies v2[i] != v2[j] by {
                    if j == v2.len() - 1 {
                        assert(v2[i] == v[i]);
                        assert(!v.contains(line[0]));
                    }
                }
            }
        }
        lemma_vocab_extend_wf(v2, line.skip(1));
    }
}

/// Earlier stages of the growing vocabulary are prefixes of later ones.
proof fn lemma_corpus_vocab_prefix(corpus: Seq<(UserId, String)>, i: int, j: int)
    requires
        0 <= i <= j,
    ensures
        corpus_vocab(corpus, i).is_prefix_of(corpus_vocab(corpus, j)),
    decreases j - i,
{
    if i == j {
        let v = corpus_vocab(corpus, i);
        assert(v =~= v.subrange(0, v.len() as int));
    } else {
        lemma_corpus_vocab_prefix(corpus, i, j - 1);
        lemma_vocab_extend_prefix(corpus_vocab(corpus, j - 1), tokenize_view(corpus[j - 1].1@));
        lemma_prefix_trans(
            corpus_vocab(corpus, i),
            corpus_vocab(corpus, j - 1),
            corpus_vocab(corpus, j),
        );
    }
}

/// Every stage of the growing vocabulary is duplicate-free.
proof fn lemma_corpus_vocab_wf(corpus: Seq<(UserId, String)>, i: int)
    ensures
        vocab_wf(corpus_vocab(corpus, i)),
    decreases i,
{
    if i > 0 {
        lemma_corpus_vocab_wf(corpus, i - 1);
        lemma_vocab_extend_wf(corpus_vocab(corpus, i - 1), tokenize_view(corpus[i - 1].1@));
    }
}

/// The packed model holds exactly user `u`'s occurrence counts over the
/// whole corpus, judged against the full vocabulary: per context and
/// token the count, and per context the total, for both shapes.
pub open spec fn user_counts_exact(
    corpus: Seq<(UserId, String)>,
    u: UserId,
    g: UserGenerativeModel,
) -> bool {
    let v = corpus_vocab(corpus, corpus.len() as int);
    let n = corpus.len() as int;
    &&& forall|c: Context, t: TokenIdx|
        #[trigger] g.own_bigrams.count_for(c, t) == user_obs(
            ContextShape::Bigram,
            corpus,
            v,
            u,
            c,
            t,
            n,
        )
    &&& forall|c: Context, t: TokenIdx|
        #[trigger] g.own_trigrams.count_for(c, t) == user_obs(
            ContextShape::Trigram,
            corpus,
            v,
            u,
            c,
            t,
            n,
        )
    &&& forall|c: Context|
        #[trigger] g.own_bigrams.total_for(c) == user_ctx(ContextShape::Bigram, corpus, v, u, c, n)
    &&& forall|c: Context|
        #[trigger] g.own_trigrams.total_for(c) == user_ctx(
            ContextShape::Trigram,
            corpus,
            v,
            u,
            c,
            n,
        )
}

/// The packed model holds exactly the corpus-wide occurrence counts of
/// all users together, judged against the full vocabulary: the pointwise
/// sum of every user's counts.
pub open spec fn shared_counts_exact(corpus: Seq<(UserId, String)>, g: UserGenerativeModel) -> bool {
    let v = corpus_vocab(corpus, corpus.len() as int);
    let n = corpus.len() as int;
    &&& forall|c: Context, t: TokenIdx|
        #[trigger] g.own_bigrams.count_for(c, t) == all_obs(ContextShape::Bigram, corpus, v, c, t, n)
    &&& forall|c: Context, t: TokenIdx|
        #[trigger] g.own_trigrams.count_for(c, t) == all_obs(
            ContextShape::Trigram,
            corpus,
            v,
            c,
            t,
            n,
        )
    &&& forall|c: Context|
        #[trigger] g.own_bigrams.total_for(c) == all_ctx(ContextShape::Bigram, corpus, v, c, n)
    &&& forall|c: Context|
        #[trigger] g.own_trigrams.total_for(c) == all_ctx(ContextShape::Trigram, corpus, v, c, n)
}

/// A raw accumulator holds exactly user `u`'s counts over the first
/// `upto` corpus lines, judged against the full vocabulary.
spec fn raw_user_counts(
    corpus: Seq<(UserId, String)>,
    u: UserId,
    um: UserLearningModel,
    upto: int,
) -> bool {
    let v = corpus_vocab(corpus, corpus.len() as int);
    &&& forall|c: Context, t: TokenIdx|
        #[trigger] um.own_bigrams.count_for(c, t) == user_obs(
            ContextShape::Bigram,
            corpus,
            v,
            u,
            c,
            t,
            upto,
        )
    &&& forall|c: Context, t: TokenIdx|
        #[trigger] um.own_trigrams.count_for(c, t) == user_obs(
            ContextShape::Trigram,
            corpus,
            v,
            u,
            c,
            t,
            upto,
        )
    &&& forall|c: Context|
        #[trigger] um.own_bigrams.total_for(c) == user_ctx(
            ContextShape::Bigram,
            corpus,
            v,
            u,
            c,
            upto,
        )
    &&& forall|c: Context|
        #[trigger] um.own_trigrams.total_for(c) == user_ctx(
            ContextShape::Trigram,
            corpus,
            v,
            u,
            c,
            upto,
        )
}

/// A raw accumulator holds exactly the corpus-wide counts over the first
/// `upto` corpus lines, judged against the full vocabulary.
spec fn raw_all_counts(corpus: Seq<(UserId, String)>, um: UserLearningModel, upto: int) -> bool {
    let v = corpus_vocab(corpus, corpus.len() as int);
    &&& forall|c: Context, t: TokenIdx|
        #[trigger] um.own_bigrams.count_for(c, t) == all_obs(
            ContextShape::Bigram,
            corpus,
            v,
            c,
            t,
            upto,
        )
    &&& forall|c: Context, t: TokenIdx|
        #[trigger] um.own_trigrams.count_for(c, t) == all_obs(
            ContextShape::Trigram,
            corpus,
            v,
            c,
            t,
            upto,
        )
    &&& forall|c: Context|
        #[trigger] um.own_bigrams.total_for(c) == all_ctx(ContextShape::Bigram, corpus, v, c, upto)
    &&& forall|c: Context|
        #[trigger] um.own_trigrams.total_for(c) == all_ctx(ContextShape::Trigram, corpus, v, c, upto)
}

/// Per-line counts over the current vocabulary agree with those over the
/// full vocabulary, for every shape, context and token at once.
proof fn lemma_line_counts_stable_all(lv: Seq<TokenView>, v1: Seq<TokenView>, v2: Seq<TokenView>)
    requires
        v1.is_prefix_of(v2),
        vocab_wf(v2),
        forall|q: int| 0 <= q < lv.len() ==> v1.contains(#[trigger] lv[q]),
    ensures
        forall|shape: ContextShape, c: Context, t: TokenIdx|
            #[trigger] line_obs(shape, lv, v1, c, t, lv.len() as int) == line_obs(
                shape,
                lv,
                v2,
                c,
                t,
                lv.len() as int,
            ),
        forall|shape: ContextShape, c: Context|
            #[trigger] line_ctx(shape, lv, v1, c, lv.len() as int) == line_ctx(
                shape,
                lv,
                v2,
                c,
                lv.len() as int,
            ),
{
    assert forall|shape: ContextShape, c: Context, t: TokenIdx|
        #[trigger] line_obs(shape, lv, v1, c, t, lv.len() as int) == line_obs(
        shape,
        lv,
        v2,
        c,
        t,
        lv.len() as int,
    ) by {
        lemma_line_counts_stable(shape, lv, v1, v2, c, t, lv.len() as int);
    }
    assert forall|shape: ContextShape, c: Context|
        #[trigger] line_ctx(shape, lv, v1, c, lv.len() as int) == line_ctx(
        shape,
        lv,
        v2,
        c,
        lv.len() as int,
    ) by {
        lemma_line_counts_stable(shape, lv, v1, v2, c, 0, lv.len() as int);
    }
}

/// A user other than a line's author keeps their counts across it.
proof fn lemma_user_skip(corpus: Seq<(UserId, String)>, u: UserId, um: UserLearningModel, li: int)
    requires
        0 <= li < corpus.len(),
        corpus[li].0 != u,
        raw_user_counts(corpus, u, um, li),
    ensures
        raw_user_counts(corpus, u, um, li + 1),
{
}

/// Ingesting the author's line advances their counts by exactly that
/// line's observations.
proof fn lemma_user_line_step(
    corpus: Seq<(UserId, String)>,
    u: UserId,
    before: UserLearningModel,
    after: UserLearningModel,
    li: int,
    lvw: Seq<TokenView>,
    vcur: Seq<TokenView>,
)
    requires
        0 <= li < corpus.len(),
        corpus[li].0 == u,
        corpus_fits(corpus),
        raw_user_counts(corpus, u, before, li),
        lvw == tokenize_view(corpus[li].1@),
        vcur.is_prefix_of(corpus_vocab(corpus, corpus.len() as int)),
        vocab_wf(corpus_vocab(corpus, corpus.len() as int)),
        forall|q: int| 0 <= q < lvw.len() ==> vcur.contains(#[trigger] lvw[q]),
        line_fits(before.own_bigrams, ContextShape::Bigram, lvw, vcur) ==> forall|
            c: Context,
            t: TokenIdx,
        |
            #[trigger] after.own_bigrams.count_for(c, t) == before.own_bigrams.count_for(c, t)
                + line_obs(ContextShape::Bigram, lvw, vcur, c, t, lvw.len() as int),
        line_fits(before.own_bigrams, ContextShape::Bigram, lvw, vcur) ==> forall|c: Context|
            #[trigger] after.own_bigrams.total_for(c) == before.own_bigrams.total_for(c)
                + line_ctx(ContextShape::Bigram, lvw, vcur, c, lvw.len() as int),
        line_fits(before.own_trigrams, ContextShape::Trigram, lvw, vcur) ==> forall|
            c: Context,
            t: TokenIdx,
        |
            #[trigger] after.own_trigrams.count_for(c, t) == before.own_trigrams.count_for(c, t)
                + line_obs(ContextShape::Trigram, lvw, vcur, c, t, lvw.len() as int),
        line_fits(before.own_trigrams, ContextShape::Trigram, lvw, vcur) ==> forall|c: Context|
            #[trigger] after.own_trigrams.total_for(c) == before.own_trigrams.total_for(c)
                + line_ctx(ContextShape::Trigram, lvw, vcur, c, lvw.len() as int),
    ensures
        raw_user_counts(corpus, u, after, li + 1),
{
    let vfin = corpus_vocab(corpus, corpus.len() as int);
    let n = corpus.len() as int;
    let len = lvw.len() as int;
    lemma_line_counts_stable_all(lvw, vcur, vfin);
    assert forall|c: Context|
        #[trigger] before.own_bigrams.total_for(c) + line_ctx(
        ContextShape::Bigram,
        lvw,
        vcur,
        c,
        len,
    ) <= usize::MAX by {
        assert(line_ctx(ContextShape::Bigram, lvw, vcur, c, len) == line_ctx(
            ContextShape::Bigram,
            lvw,
            vfin,
            c,
            len,
        ));
        assert(user_ctx(ContextShape::Bigram, corpus, vfin, u, c, li + 1) == user_ctx(
            ContextShape::Bigram,
            corpus,
            vfin,
            u,
            c,
            li,
        ) + line_ctx(ContextShape::Bigram, lvw, vfin, c, len));
        lemma_user_ctx_mono(ContextShape::Bigram, corpus, vfin, u, c, li + 1, n);
        lemma_user_ctx_le_all(ContextShape::Bigram, corpus, vfin, u, c, n);
        assert(all_ctx(ContextShape::Bigram, corpus, vfin, c, n) <= usize::MAX);
    }
    assert(line_fits(before.own_bigrams, ContextShape::Bigram, lvw, vcur));
    assert forall|c: Context|
        #[trigger] before.own_trigrams.total_for(c) + line_ctx(
        ContextShape::Trigram,
        lvw,
        vcur,
        c,
        len,
    ) <= usize::MAX by {
        assert(line_ctx(ContextShape::Trigram, lvw, vcur, c, len) == line_ctx(
            ContextShape::Trigram,
            lvw,
            vfin,
            c,
            len,
        ));
        assert(user_ctx(ContextShape::Trigram, corpus, vfin, u, c, li + 1) == user_ctx(
            ContextShape::Trigram,
            corpus,
            vfin,
            u,
            c,
            li,
        ) + line_ctx(ContextShape::Trigram, lvw, vfin, c, len));
        lemma_user_ctx_mono(ContextShape::Trigram, corpus, vfin, u, c, li + 1, n);
        lemma_user_ctx_le_all(ContextShape::Trigram, corpus, vfin, u, c, n);
        assert(all_ctx(ContextShape::Trigram, corpus, vfin, c, n) <= usize::MAX);
    }
    assert(line_fits(before.own_trigrams, ContextShape::Trigram, lvw, vcur));
    assert forall|c: Context, t: TokenIdx|
        #[trigger] after.own_bigrams.count_for(c, t) == user_obs(
        ContextShape::Bigram,
        corpus,
        vfin,
        u,
        c,
        t,
        li + 1,
    ) by {
        assert(line_obs(ContextShape::Bigram, lvw, vcur, c, t, len) == line_obs(
            ContextShape::Bigram,
            lvw,
            vfin,
            c,
            t,
            len,
        ));
        assert(user_obs(ContextShape::Bigram, corpus, vfin, u, c, t, li + 1) == user_obs(
            ContextShape::Bigram,
            corpus,
            vfin,
            u,
            c,
            t,
            li,
        ) + line_obs(ContextShape::Bigram, lvw, vfin, c, t, len));
    }
    assert forall|c: Context, t: TokenIdx|
        #[trigger] after.own_trigrams.count_for(c, t) == user_obs(
        ContextShape::Trigram,
        corpus,
        vfin,
        u,
        c,
        t,
        li + 1,
    ) by {
        assert(line_obs(ContextShape::Trigram, lvw, vcur, c, t, len) == line_obs(
            ContextShape::Trigram,
            lvw,
            vfin,
            c,
            t,
            len,
        ));
        assert(user_obs(ContextShape::Trigram, corpus, vfin, u, c, t, li + 1) == user_obs(
            ContextShape::Trigram,
            corpus,
            vfin,
            u,
            c,
            t,
            li,
        ) + line_obs(ContextShape::Trigram, lvw, vfin, c, t, len));
    }
    assert forall|c: Context| #[trigger] after.own_bigrams.total_for(c) == user_ctx(
        ContextShape::Bigram,
        corpus,
        vfin,
        u,
        c,
        li + 1,
    ) by {
        assert(user_ctx(ContextShape::Bigram, corpus, vfin, u, c, li + 1) == user_ctx(
            ContextShape::Bigram,
            corpus,
            vfin,
            u,
            c,
            li,
        ) + line_ctx(ContextShape::Bigram, lvw, vfin, c, len));
    }
    assert forall|c: Context| #[trigger] after.own_trigrams.total_for(c) == user_ctx(
        ContextShape::Trigram,
        corpus,
        vfin,
        u,
        c,
        li + 1,
    ) by {
        assert(user_ctx(ContextShape::Trigram, corpus, vfin, u, c, li + 1) == user_ctx(
            ContextShape::Trigram,
            corpus,
            vfin,
            u,
            c,
            li,
        ) + line_ctx(ContextShape::Trigram, lvw, vfin, c, len));
    }
}

/// Ingesting any line into the aggregate advances the corpus-wide counts
/// by exactly that line's observations.
proof fn lemma_all_line_step(
    corpus: Seq<(UserId, String)>,
    before: UserLearningModel,
    after: UserLearningModel,
    li: int,
    lvw: Seq<TokenView>,
    vcur: Seq<TokenView>,
)
    requires
        0 <= li < corpus.len(),
        corpus_fits(corpus),
        raw_all_counts(corpus, before, li),
        lvw == tokenize_view(corpus[li].1@),
        vcur.is_prefix_of(corpus_vocab(corpus, corpus.len() as int)),
        vocab_wf(corpus_vocab(corpus, corpus.len() as int)),
        forall|q: int| 0 <= q < lvw.len() ==> vcur.contains(#[trigger] lvw[q]),
        line_fits(before.own_bigrams, ContextShape::Bigram, lvw, vcur) ==> forall|
            c: Context,
            t: TokenIdx,
        |
            #[trigger] after.own_bigrams.count_for(c, t) == before.own_bigrams.count_for(c, t)
                + line_obs(ContextShape::Bigram, lvw, vcur, c, t, lvw.len() as int),
        line_fits(before.own_bigrams, ContextShape::Bigram, lvw, vcur) ==> forall|c: Context|
            #[trigger] after.own_bigrams.total_for(c) == before.own_bigrams.total_for(c)
                + line_ctx(ContextShape::Bigram, lvw, vcur, c, lvw.len() as int),
        line_fits(before.own_trigrams, ContextShape::Trigram, lvw, vcur) ==> forall|
            c: Context,
            t: TokenIdx,
        |
            #[trigger] after.own_trigrams.count_for(c, t) == before.own_trigrams.count_for(c, t)
                + line_obs(ContextShape::Trigram, lvw, vcur, c, t, lvw.len() as int),
        line_fits(before.own_trigrams, ContextShape::Trigram, lvw, vcur) ==> forall|c: Context|
            #[trigger] after.own_trigrams.total_for(c) == before.own_trigrams.total_for(c)
                + line_ctx(ContextShape::Trigram, lvw, vcur, c, lvw.len() as int),
    ensures
        raw_all_counts(corpus, after, li + 1),
{
    let vfin = corpus_vocab(corpus, corpus.len() as int);
    let n = corpus.len() as int;
    let len = lvw.len() as int;
    lemma_line_counts_stable_all(lvw, vcur, vfin);
    assert forall|c: Context|
        #[trigger] before.own_bigrams.total_for(c) + line_ctx(
        ContextShape::Bigram,
        lvw,
        vcur,
        c,
        len,
    ) <= usize::MAX by {
        assert(line_ctx(ContextShape::Bigram, lvw, vcur, c, len) == line_ctx(
            ContextShape::Bigram,
            lvw,
            vfin,
            c,
            len,
        ));
        assert(all_ctx(ContextShape::Bigram, corpus, vfin, c, li + 1) == all_ctx(
            ContextShape::Bigram,
            corpus,
            vfin,
            c,
            li,
        ) + line_ctx(ContextShape::Bigram, lvw, vfin, c, len));
        lemma_all_ctx_mono(ContextShape::Bigram, corpus, vfin, c, li + 1, n);
        assert(all_ctx(ContextShape::Bigram, corpus, vfin, c, n) <= usize::MAX);
    }
    assert(line_fits(before.own_bigrams, ContextShape::Bigram, lvw, vcur));
    assert forall|c: Context|
        #[trigger] before.own_trigrams.total_for(c) + line_ctx(
        ContextShape::Trigram,
        lvw,
        vcur,
        c,
        len,
    ) <= usize::MAX by {
        assert(line_ctx(ContextShape::Trigram, lvw, vcur, c, len) == line_ctx(
            ContextShape::Trigram,
            lvw,
            vfin,
            c,
            len,
        ));
        assert(all_ctx(ContextShape::Trigram, corpus, vfin, c, li + 1) == all_ctx(
            ContextShape::Trigram,
            corpus,
            vfin,
            c,
            li,
        ) + line_ctx(ContextShape::Trigram, lvw, vfin, c, len));
        lemma_all_ctx_mono(ContextShape::Trigram, corpus, vfin, c, li + 1, n);
        assert(all_ctx(ContextShape::Trigram, corpus, vfin, c, n) <= usize::MAX);
    }
    assert(line_fits(before.own_trigrams, ContextShape::Trigram, lvw, vcur));
    assert forall|c: Context, t: TokenIdx|
        #[trigger] after.own_bigrams.count_for(c, t) == all_obs(
        ContextShape::Bigram,
        corpus,
        vfin,
        c,
        t,
        li + 1,
    ) by {
        assert(line_obs(ContextShape::Bigram, lvw, vcur, c, t, len) == line_obs(
            ContextShape::Bigram,
            lvw,
            vfin,
            c,
            t,
            len,
        ));
        assert(all_obs(ContextShape::Bigram, corpus, vfin, c, t, li + 1) == all_obs(
            ContextShape::Bigram,
            corpus,
            vfin,
            c,
            t,
            li,
        ) + line_obs(ContextShape::Bigram, lvw, vfin, c, t, len));
    }
    assert forall|c: Context, t: TokenIdx|
        #[trigger] after.own_trigrams.count_for(c, t) == all_obs(
        ContextShape::Trigram,
        corpus,
        vfin,
        c,
        t,
        li + 1,
    ) by {
        assert(line_obs(ContextShape::Trigram, lvw, vcur, c, t, len) == line_obs(
            ContextShape::Trigram,
            lvw,
            vfin,
            c,
            t,
            len,
        ));
        assert(all_obs(ContextShape::Trigram, corpus, vfin, c, t, li + 1) == all_obs(
            ContextShape::Trigram,
            corpus,
            vfin,
            c,
            t,
            li,
        ) + line_obs(ContextShape::Trigram, lvw, vfin, c, t, len));
    }
    assert forall|c: Context| #[trigger] after.own_bigrams.total_for(c) == all_ctx(
        ContextShape::Bigram,
        corpus,
        vfin,
        c,
        li + 1,
    ) by {
        assert(all_ctx(ContextShape::Bigram, corpus, vfin, c, li + 1) == all_ctx(
            ContextShape::Bigram,
            corpus,
            vfin,
            c,
            li,
        ) + line_ctx(ContextShape::Bigram, lvw, vfin, c, len));
    }
    assert forall|c: Context| #[trigger] after.own_trigrams.total_for(c) == all_ctx(
        ContextShape::Trigram,
        corpus,
        vfin,
        c,
        li + 1,
    ) by {
        assert(all_ctx(ContextShape::Trigram, corpus, vfin, c, li + 1) == all_ctx(
            ContextShape::Trigram,
            corpus,
            vfin,
            c,
            li,
        ) + line_ctx(ContextShape::Trigram, lvw, vfin, c, len));
    }
}

/// Train the full model from an already-partitioned corpus of
/// (user id, message text) pairs: tokenize each message, grow the shared
/// vocabulary, accumulate each user's bigram and trigram counts and the
/// aggregate counts of all users, then pack every model. Whenever no
/// context's corpus-wide total can overflow, each user's packed counts
/// equal that user's occurrence counts over the corpus, and the shared
/// model's equal the corpus-wide counts — the pointwise sum over users.
#[verifier::rlimit(60)]
pub fn build_model(corpus: &Vec<(UserId, String)>) -> (m: Model)
    ensures
        m.wf(),
        line_view(m.tokens@) == corpus_vocab(corpus@, corpus@.len() as int),
        corpus@.len() > 0 ==> line_view(m.tokens@).contains(TokenView::End),
        corpus@.len() == 0 ==> m.tokens@.len() == 0 && m.users@.len() == 0 && m.shared.is_empty(),
        forall|j: int| 0 <= j < corpus@.len() ==> in_keys(m.users@, (#[trigger] corpus@[j]).0),
        forall|k: int|
            0 <= k < m.users@.len() ==> exists|j: int|
                0 <= j < corpus@.len() && (#[trigger] m.users@[k]).0 == corpus@[j].0,
        corpus_fits(corpus@) ==> forall|k: int|
            0 <= k < m.users@.len() ==> user_counts_exact(
                corpus@,
                (#[trigger] m.users@[k]).0,
                m.users@[k].1,
            ),
        corpus_fits(corpus@) ==> shared_counts_exact(corpus@, m.shared),
{
    broadcast use vstd::prelude::Seq::lemma_push_map_commute;

    let ghost cn = corpus@.len() as int;
    let ghost vfinal = corpus_vocab(corpus@, cn);
    let ghost cfits = corpus_fits(corpus@);
    proof {
        lemma_corpus_vocab_wf(corpus@, cn);
    }

    let mut user_models: Vec<(UserId, UserLearningModel)> = Vec::new();
    let mut shared_raw: UserLearningModel = UserLearningModel::default();
    let mut all_tokens: Vec<Token> = Vec::new();

    let mut li: usize = 0;
    while li < corpus.len()
        invariant
            li <= corpus@.len(),
            cn == corpus@.len() as int,
            vfinal == corpus_vocab(corpus@, cn),
            cfits == corpus_fits(corpus@),
            vocab_wf(vfinal),
            li == 0 ==> all_tokens@.len() == 0 && user_models@.len() == 0,
            li == 0 ==> shared_raw.is_empty(),
            line_view(all_tokens@) == corpus_vocab(corpus@, li as int),
            li > 0 ==> line_view(all_tokens@).contains(TokenView::End),
            vocab_wf(line_view(all_tokens@)),
            keys_unique(user_models@),
            forall|j: int| 0 <= j < li ==> in_keys(user_models@, (#[trigger] corpus@[j]).0),
            forall|k: int|
                0 <= k < user_models@.len() ==> exists|j: int|
                    0 <= j < li && (#[trigger] user_models@[k]).0 == corpus@[j].0,
            forall|j: int|
                0 <= j < user_models@.len() ==> (#[trigger] user_models@[j]).1.wf()
                    && user_models@[j].1.bounded(all_tokens@.len() as int),
            shared_raw.wf(),
            shared_raw.bounded(all_tokens@.len() as int),
            cfits ==> forall|k: int|
                0 <= k < user_models@.len() ==> raw_user_counts(
                    corpus@,
                    (#[trigger] user_models@[k]).0,
                    user_models@[k].1,
                    li as int,
                ),
            cfits ==> raw_all_counts(corpus@, shared_raw, li as int),
        decreases corpus@.len() - li,
    {
        let user_id = corpus[li].0;
        let tokens = tokenize_line(corpus[li].1.as_str());
        let ghost pre_vocab_len = all_tokens@.len();
        let ghost ltv = line_view(tokens@);
        let ghost goal = corpus_vocab(corpus@, li + 1);
        proof {
            assert(ltv == tokenize_view(corpus@[li as int].1@));
            assert(goal == vocab_extend(line_view(all_tokens@), ltv));
            assert(ltv.skip(0) =~= ltv);
        }

        let mut ti: usize = 0;
        while ti < tokens.len()
            invariant
                ti <= tokens@.len(),
                ltv == line_view(tokens@),
                vocab_extend(line_view(all_tokens@), ltv.skip(ti as int)) == goal,
                vocab_wf(line_view(all_tokens@)),
                all_tokens@.len() >= pre_vocab_len,
                forall|j: int|
                    0 <= j < ti ==> line_view(all_tokens@).contains(
                        line_view(tokens@)[j],
                    ),
            decreases tokens@.len() - ti,
        {
            let t = &tokens[ti];
            let ghost pre = all_tokens@;
            if token_index(&all_tokens, t).is_none() {
                all_tokens.push(t.clone());
                proof {
                    assert(line_view(all_tokens@) =~= line_view(pre).push(t@));
                    assert(line_view(all_tokens@)[line_view(all_tokens@).len() - 1] == t@);
                    assert(line_view(all_tokens@).contains(t@));
                    assert forall|a: int, b: int|
                        0 <= a < b < line_view(all_tokens@).len() implies line_view(all_tokens@)[a]
                        != line_view(all_tokens@)[b] by {
                        if b == line_view(all_tokens@).len() - 1 {
                            assert(line_view(all_tokens@)[a] == line_view(pre)[a]);
                            assert(!line_view(pre).contains(t@));
                        }
                    }
                }
            }
            proof {
                assert(line_view(tokens@)[ti as int] == t@);
                assert(line_view(all_tokens@).contains(t@));
                assert(ltv.skip(ti as int)[0] == ltv[ti as int]);
                assert(ltv.skip(ti as int).skip(1) =~= ltv.skip(ti + 1));
                assert(line_view(all_tokens@) == (
                if line_view(pre).contains(ltv[ti as int]) {
                    line_view(pre)
                } else {
                    line_view(pre).push(ltv[ti as int])
                }));
                assert(vocab_extend(line_view(pre), ltv.skip(ti as int)) == vocab_extend(
                    line_view(all_tokens@),
                    ltv.skip(ti + 1),
                ));
                assert forall|j: int|
                    0 <= j < ti + 1 implies line_view(all_tokens@).contains(
                    line_view(tokens@)[j],
                ) by {
                    if j < ti {
                        let prev = line_view(pre);
                        assert(prev.contains(line_view(tokens@)[j]));
                        let w = choose|w: int|
                            0 <= w < prev.len() && prev[w] == line_view(tokens@)[j];
                        assert(line_view(all_tokens@)[w] == line_view(tokens@)[j]);
                    }
                }
            }
            ti += 1;
        }
        proof {
            assert(ltv.skip(tokens@.len() as int).len() == 0);
            assert(vocab_extend(line_view(all_tokens@), ltv.skip(tokens@.len() as int))
                == line_view(all_tokens@));
            assert(line_view(all_tokens@) == goal);
            assert(line_view(tokens@)[tokens@.len() - 1] == tokens@[tokens@.len() - 1]@);
            assert(line_view(all_tokens@).contains(TokenView::End));
        }

        let found = find_user(&user_models, user_id);
        let ghost pre_users = user_models@;
        let mut um: UserLearningModel;
        match found {
            Some(i) => {
                let (_uid, m0) = user_models.remove(i);
                um = m0;
            },
            None => {
                um = UserLearningModel::default();
            },
        }
        let ghost um_before = um;
        let ghost shared_before = shared_raw;
        proof {
            if cfits {
                match found {
                    Some(i) => {
                        assert(pre_users[i as int].0 == user_id);
                        assert(um_before == pre_users[i as int].1);
                        assert(raw_user_counts(corpus@, user_id, um_before, li as int));
                    },
                    None => {
                        assert forall|j: int|
                            0 <= j < li implies (#[trigger] corpus@[j]).0 != user_id by {
                            if corpus@[j].0 == user_id {
                                assert(in_keys(pre_users, user_id));
                            }
                        }
                        assert forall|c: Context, t: TokenIdx|
                            #[trigger] um_before.own_bigrams.count_for(c, t) == user_obs(
                            ContextShape::Bigram,
                            corpus@,
                            vfinal,
                            user_id,
                            c,
                            t,
                            li as int,
                        ) by {
                            lemma_user_absent(
                                ContextShape::Bigram,
                                corpus@,
                                vfinal,
                                user_id,
                                c,
                                t,
                                li as int,
                            );
                        }
                        assert forall|c: Context, t: TokenIdx|
                            #[trigger] um_before.own_trigrams.count_for(c, t) == user_obs(
                            ContextShape::Trigram,
                            corpus@,
                            vfinal,
                            user_id,
                            c,
                            t,
                            li as int,
                        ) by {
                            lemma_user_absent(
                                ContextShape::Trigram,
                                corpus@,
                                vfinal,
                                user_id,
                                c,
                                t,
                                li as int,
                            );
                        }
                        assert forall|c: Context|
                            #[trigger] um_before.own_bigrams.total_for(c) == user_ctx(
                            ContextShape::Bigram,
                            corpus@,
                            vfinal,
                            user_id,
                            c,
                            li as int,
                        ) by {
                            lemma_user_absent(
                                ContextShape::Bigram,
                                corpus@,
                                vfinal,
                                user_id,
                                c,
                                0,
                                li as int,
                            );
                        }
                        assert forall|c: Context|
                            #[trigger] um_before.own_trigrams.total_for(c) == user_ctx(
                            ContextShape::Trigram,
                            corpus@,
                            vfinal,
                            user_id,
                            c,
                            li as int,
                        ) by {
                            lemma_user_absent(
                                ContextShape::Trigram,
                                corpus@,
                                vfinal,
                                user_id,
                                c,
                                0,
                                li as int,
                            );
                        }
                        assert(raw_user_counts(corpus@, user_id, um_before, li as int));
                    },
                }
            }
        }

        um.ingest_line(&tokens, &all_tokens);
        shared_raw.ingest_line(&tokens, &all_tokens);
        proof {
            if cfits {
                lemma_corpus_vocab_prefix(corpus@, li + 1, cn);
                assert(line_view(all_tokens@).is_prefix_of(vfinal));
                lemma_user_line_step(
                    corpus@,
                    user_id,
                    um_before,
                    um,
                    li as int,
                    ltv,
                    line_view(all_tokens@),
                );
                lemma_all_line_step(
                    corpus@,
                    shared_before,
                    shared_raw,
                    li as int,
                    ltv,
                    line_view(all_tokens@),
                );
            }
        }

        match found {
            Some(i) => {
                user_models.insert(i, (user_id, um));
                proof {
                    assert(user_models@ =~= pre_users.remove(i as int).insert(
                        i as int,
                        (user_id, um),
                    ));
                    assert(user_models@ =~= pre_users.update(i as int, (user_id, um)));
                    assert(forall|k: int|
                        0 <= k < user_models@.len() ==> (#[trigger] user_models@[k]).0
                            == pre_users[k].0);
                }
            },
            None => {
                user_models.push((user_id, um));
                proof {
                    assert(forall|k: int|
                        0 <= k < pre_users.len() ==> (#[trigger] user_models@[k]).0
                            == pre_users[k].0);
                    assert forall|a: int, b: int|
                        0 <= a < b < user_models@.len() implies (#[trigger] user_models@[a]).0 != (
                    #[trigger] user_models@[b]).0 by {
                        assert(user_models@[a] == pre_users[a]);
                        if b == user_models@.len() - 1 {
                            assert(!in_keys(pre_users, user_id));
                        } else {
                            assert(user_models@[b] == pre_users[b]);
                        }
                    }
                }
            },
        }
        li += 1;
        proof {
            assert(in_keys(user_models@, user_id)) by {
                match found {
                    Some(i) => {
                        assert(user_models@[i as int].0 == user_id);
                    },
                    None => {
                        assert(user_models@[user_models@.len() - 1].0 == user_id);
                    },
                }
            }
            assert forall|j: int| 0 <= j < li implies in_keys(
                user_models@,
                (#[trigger] corpus@[j]).0,
            ) by {
                if j < li - 1 {
                    let k = choose|k: int|
                        0 <= k < pre_users.len() && (#[trigger] pre_users[k]).0 == corpus@[j].0;
                    assert(user_models@[k].0 == corpus@[j].0);
                }
            }
            assert forall|k: int| 0 <= k < user_models@.len() implies exists|j: int|
                0 <= j < li && (#[trigger] user_models@[k]).0 == corpus@[j].0 by {
                let at = match found {
                    Some(i) => i as int,
                    None => user_models@.len() - 1,
                };
                if k == at {
                    assert(user_models@[k].0 == corpus@[li - 1].0);
                } else {
                    assert(user_models@[k] == pre_users[k]);
                    let j0 = choose|j0: int|
                        0 <= j0 < li - 1 && (#[trigger] pre_users[k]).0 == corpus@[j0].0;
                    assert(user_models@[k].0 == corpus@[j0].0);
                }
            }
            if cfits {
                assert forall|k: int| 0 <= k < user_models@.len() implies raw_user_counts(
                    corpus@,
                    (#[trigger] user_models@[k]).0,
                    user_models@[k].1,
                    li as int,
                ) by {
                    let at = match found {
                        Some(i) => i as int,
                        None => user_models@.len() - 1,
                    };
                    if k == at {
                        assert(user_models@[k] == (user_id, um));
                    } else {
                        assert(user_models@[k] == pre_users[k]);
                        match found {
                            Some(i) => {
                                assert(pre_users[i as int].0 == user_id);
                                assert(pre_users[k].0 != pre_users[i as int].0);
                            },
                            None => {
                                assert(!in_keys(pre_users, user_id));
                            },
                        }
                        assert(pre_users[k].0 != user_id);
                        assert(raw_user_counts(corpus@, pre_users[k].0, pre_users[k].1, li - 1));
                        lemma_user_skip(corpus@, pre_users[k].0, pre_users[k].1, li - 1);
                    }
                }
            }
        }
    }

    let mut users: Vec<(UserId, UserGenerativeModel)> = Vec::new();
    let ghost ulist = user_models@;

    let mut ui: usize = 0;
    while ui < user_models.len()
        invariant
            ui <= ulist.len(),
            user_models@ == ulist,
            keys_unique(ulist),
            vocab_wf(line_view(all_tokens@)),
            cn == corpus@.len() as int,
            cfits == corpus_fits(corpus@),
            forall|j: int|
                0 <= j < ulist.len() ==> (#[trigger] ulist[j]).1.wf() && ulist[j].1.bounded(
                    all_tokens@.len() as int,
                ),
            users@.len() == ui,
            forall|j: int|
                0 <= j < ui ==> (#[trigger] users@[j]).0 == ulist[j].0 && users@[j].1.wf()
                    && users@[j].1.bounded(all_tokens@.len() as int),
            cfits ==> forall|k: int|
                0 <= k < ulist.len() ==> raw_user_counts(
                    corpus@,
                    (#[trigger] ulist[k]).0,
                    ulist[k].1,
                    cn,
                ),
            cfits ==> forall|j: int|
                0 <= j < ui ==> user_counts_exact(corpus@, (#[trigger] users@[j]).0, users@[j].1),
        decreases ulist.len() - ui,
    {
        let uid = user_models[ui].0;
        let packed = user_models[ui].1.as_generative(0);
        proof {
            if cfits {
                assert forall|c: Context|
                    ulist[ui as int].1.own_bigrams.has_context(
                        c,
                    ) implies packed.own_bigrams.has_context(c) by {
                    assert(ulist[ui as int].1.own_bigrams.tables()[c].total >= 0);
                }
                assert forall|c: Context|
                    ulist[ui as int].1.own_trigrams.has_context(
                        c,
                    ) implies packed.own_trigrams.has_context(c) by {
                    assert(ulist[ui as int].1.own_trigrams.tables()[c].total >= 0);
                }
                lemma_pack_zero(ulist[ui as int].1.own_bigrams, packed.own_bigrams);
                lemma_pack_zero(ulist[ui as int].1.own_trigrams, packed.own_trigrams);
                assert(raw_user_counts(corpus@, uid, ulist[ui as int].1, cn));
                assert(user_counts_exact(corpus@, uid, packed));
            }
        }
        users.push((uid, packed));
        ui += 1;
    }

    let shared_generative = shared_raw.as_generative(0);
    proof {
        if cfits {
            assert forall|c: Context|
                shared_raw.own_bigrams.has_context(
                    c,
                ) implies shared_generative.own_bigrams.has_context(c) by {
                assert(shared_raw.own_bigrams.tables()[c].total >= 0);
            }
            assert forall|c: Context|
                shared_raw.own_trigrams.has_context(
                    c,
                ) implies shared_generative.own_trigrams.has_context(c) by {
                assert(shared_raw.own_trigrams.tables()[c].total >= 0);
            }
            lemma_pack_zero(shared_raw.own_bigrams, shared_generative.own_bigrams);
            lemma_pack_zero(shared_raw.own_trigrams, shared_generative.own_trigrams);
            assert(shared_counts_exact(corpus@, shared_generative));
        }
    }
    let ghost users_snap = users@;
    proof {
        assert forall|a: int, b: int| 0 <= a < b < users_snap.len() implies (
        #[trigger] users_snap[a]).0 != (#[trigger] users_snap[b]).0 by {
            assert(users_snap[a].0 == ulist[a].0);
            assert(users_snap[b].0 == ulist[b].0);
        }
        assert forall|j: int| 0 <= j < corpus@.len() implies in_keys(
            users_snap,
            (#[trigger] corpus@[j]).0,
        ) by {
            let k = choose|k: int|
                0 <= k < ulist.len() && (#[trigger] ulist[k]).0 == corpus@[j].0;
            assert(users_snap[k].0 == corpus@[j].0);
        }
        assert forall|k: int| 0 <= k < users_snap.len() implies exists|j: int|
            0 <= j < corpus@.len() && (#[trigger] users_snap[k]).0 == corpus@[j].0 by {
            assert(users_snap[k].0 == ulist[k].0);
            let j0 = choose|j0: int|
                0 <= j0 < corpus@.len() && (#[trigger] ulist[k]).0 == corpus@[j0].0;
            assert(users_snap[k].0 == corpus@[j0].0);
        }
    }
    let m = Model { tokens: all_tokens, users, shared: shared_generative };
    proof {
        assert(m.users@ == users_snap);
    }
    m
}

} // verus!
