use vstd::prelude::*;

use crate::file_data::FileData;

verus! {

/// The sizes of a sequence of entries, in the same order.
pub open spec fn sizes(s: Seq<FileData>) -> Seq<u64> {
    s.map_values(|fd: FileData| fd.size)
}

/// Descending order: no element is smaller than one that follows it.
pub open spec fn sorted_desc(s: Seq<u64>) -> bool {
    forall|i: int, j: int| 0 <= i <= j < s.len() ==> s[i] >= s[j]
}

/// Index at which a new entry of size `target_size` can be spliced into the
/// descending-sorted `arr` so that it stays sorted, or `None` when the size
/// is strictly below the current minimum (the last element) and the entry
/// cannot belong to the top K at all.
///
/// When several entries share the target size the returned index lands
/// somewhere inside that run; the relative order of equal-size entries is
/// deliberately left unspecified.
pub fn reverse_binary_search_insert_index(arr: &[FileData], target_size: &u64) -> (r: Option<
    usize,
>)
    requires
        arr@.len() > 0,
        sorted_desc(sizes(arr@)),
    ensures
        match r {
            None => *target_size < arr@.last().size,
            Some(i) => {
                &&& *target_size >= arr@.last().size
                &&& i <= arr@.len()
                &&& forall|j: int| 0 <= j < i ==> arr@[j].size >= *target_size
                &&& forall|j: int| i <= j < arr@.len() ==> arr@[j].size <= *target_size
            },
        },
{
    let n = arr.len();
    let mut low: usize = 0;
    let mut high: usize = n;

    proof {
        assert forall|i: int, j: int| 0 <= i <= j < arr@.len() implies arr@[i].size
            >= arr@[j].size by {
            assert(sizes(arr@)[i] == arr@[i].size);
            assert(sizes(arr@)[j] == arr@[j].size);
        }
    }

    // A size below the current minimum can be rejected without searching.
    if *target_size < arr[n - 1].size {
        return None;
    }

    while low != high
        invariant
            low <= high <= n,
            n == arr@.len() > 0,
            forall|i: int, j: int| 0 <= i <= j < arr@.len() ==> arr@[i].size >= arr@[j].size,
            *target_size >= arr@.last().size,
            forall|j: int| 0 <= j < low ==> arr@[j].size >= *target_size,
            forall|j: int| high <= j < n ==> arr@[j].size <= *target_size,
        decreases high - low,
    {
        let mid = low + (high - low) / 2;

        if arr[mid].size == *target_size {
            return Some(mid);
        } else if arr[mid].size < *target_size {
            high = mid;
        } else {
            low = mid + 1;
        }
    }

    Some(low)
}

/// `result` holds the `min(k, input.len())` largest values of `input`:
/// it is the right length, it takes nothing that `input` does not hold,
/// and every value of `input` it leaves out is at most every value it keeps.
pub open spec fn is_top_k(result: Seq<u64>, input: Seq<u64>, k: nat) -> bool {
    &&& result.len() == vstd::math::min(k as int, input.len() as int)
    &&& forall|v: u64| #[trigger] result.to_multiset().count(v) <= input.to_multiset().count(v)
    &&& forall|x: u64, y: u64|
        #![trigger input.to_multiset().count(x), result.to_multiset().count(y)]
        input.to_multiset().count(x) > result.to_multiset().count(x)
            && result.to_multiset().count(y) > 0 ==> x <= y
}

/// Splicing a value into a sequence adds exactly that value to its multiset.
pub proof fn lemma_to_multiset_insert<A>(s: Seq<A>, i: int, x: A)
    requires
        0 <= i <= s.len(),
    ensures
        s.insert(i, x).to_multiset() == s.to_multiset().insert(x),
{
    broadcast use vstd::seq_lib::group_to_multiset_ensures;
    broadcast use vstd::multiset::group_multiset_axioms;

    let t = s.insert(i, x);
    s.insert_ensures(i, x);
    t.remove_ensures(i);
    assert(t.remove(i) =~= s);
    assert(t.to_multiset().remove(x) == s.to_multiset());
    assert(t.contains(x)) by {
        assert(t[i] == x);
    }
    assert(t.to_multiset().count(x) > 0);
    assert(t.to_multiset() =~= t.to_multiset().remove(x).insert(x));
}

/// The sizes of a sequence with one entry appended.
pub proof fn lemma_sizes_push(s: Seq<FileData>, e: FileData)
    ensures
        sizes(s.push(e)) == sizes(s).push(e.size),
{
    assert(sizes(s.push(e)) =~= sizes(s).push(e.size));
}

/// The sizes of a sequence with one entry spliced in.
pub proof fn lemma_sizes_insert(s: Seq<FileData>, i: int, e: FileData)
    requires
        0 <= i <= s.len(),
    ensures
        sizes(s.insert(i, e)) == sizes(s).insert(i, e.size),
{
    s.insert_ensures(i, e);
    sizes(s).insert_ensures(i, e.size);
    assert(sizes(s.insert(i, e)) =~= sizes(s).insert(i, e.size));
}

/// The sizes of a sequence with one entry removed.
pub proof fn lemma_sizes_remove(s: Seq<FileData>, i: int)
    requires
        0 <= i < s.len(),
    ensures
        sizes(s.remove(i)) == sizes(s).remove(i),
{
    s.remove_ensures(i);
    sizes(s).remove_ensures(i);
    assert(sizes(s.remove(i)) =~= sizes(s).remove(i));
}

/// The sizes of a sequence with its last entry dropped.
pub proof fn lemma_sizes_drop_last(s: Seq<FileData>)
    requires
        s.len() > 0,
    ensures
        sizes(s.drop_last()) == sizes(s).drop_last(),
{
    assert(sizes(s.drop_last()) =~= sizes(s).drop_last());
}

/// A value counted by a sequence's multiset stands at some index of it.
pub proof fn lemma_member_has_index(s: Seq<u64>, v: u64)
    requires
        s.to_multiset().count(v) > 0,
    ensures
        exists|j: int| 0 <= j < s.len() && s[j] == v,
{
    broadcast use vstd::seq_lib::group_to_multiset_ensures;

    assert(s.contains(v));
}

/// A selection that keeps every offered value is a top-k selection, as long
/// as it still fits within k.
pub proof fn lemma_top_k_keep_all(result: Seq<u64>, input: Seq<u64>, k: nat)
    requires
        result.to_multiset() == input.to_multiset(),
        input.len() <= k,
    ensures
        is_top_k(result, input, k),
{
    broadcast use vstd::seq_lib::group_to_multiset_ensures;

    assert(result.len() == result.to_multiset().len());
    assert(input.len() == input.to_multiset().len());
}

/// A full top-k selection stays one when a value at most its minimum
/// arrives and is turned away.
pub proof fn lemma_top_k_discard(m: Seq<u64>, input: Seq<u64>, k: nat, s: u64)
    requires
        is_top_k(m, input, k),
        m.len() == k,
        forall|j: int| 0 <= j < m.len() ==> m[j] >= s,
    ensures
        is_top_k(m, input.push(s), k),
{
    broadcast use vstd::seq_lib::group_to_multiset_ensures;
    broadcast use vstd::multiset::group_multiset_axioms;

    let input2 = input.push(s);
    assert(input2.to_multiset() == input.to_multiset().insert(s));
    assert(input.len() >= k) by {
        assert(m.len() == vstd::math::min(k as int, input.len() as int));
    }
    assert forall|x: u64, y: u64|
        input2.to_multiset().count(x) > m.to_multiset().count(x) && m.to_multiset().count(y)
            > 0 implies x <= y by {
        if input.to_multiset().count(x) > m.to_multiset().count(x) {
            // x was already left out before the new value arrived.
        } else {
            assert(x == s);
            lemma_member_has_index(m, y);
            let j = choose|j: int| 0 <= j < m.len() && m[j] == y;
            assert(m[j] >= s);
        }
    }
}

/// A full top-k selection stays one when a value at least its minimum
/// displaces that minimum: the new value is spliced in at an index that
/// keeps the descending order, and the last (smallest) entry leaves.
pub proof fn lemma_top_k_displace(m: Seq<u64>, input: Seq<u64>, k: nat, s: u64, i: int)
    requires
        is_top_k(m, input, k),
        m.len() == k,
        k >= 1,
        sorted_desc(m),
        s >= m.last(),
        0 <= i <= k,
        forall|j: int| 0 <= j < i ==> m[j] >= s,
        forall|j: int| i <= j < m.len() ==> m[j] <= s,
    ensures
        is_top_k(m.insert(i, s).drop_last(), input.push(s), k),
        sorted_desc(m.insert(i, s).drop_last()),
{
    broadcast use vstd::seq_lib::group_to_multiset_ensures;
    broadcast use vstd::multiset::group_multiset_axioms;

    let mid = m.insert(i, s);
    let post = mid.drop_last();
    let d = mid.last();
    let input2 = input.push(s);
    m.insert_ensures(i, s);
    assert(input.len() >= k) by {
        assert(m.len() == vstd::math::min(k as int, input.len() as int));
    }

    // The dropped value: the new value itself when it lands at the end,
    // otherwise the old minimum.
    assert(d == if i == k { s } else { m[k - 1] });
    assert(d <= s);
    assert(forall|j: int| 0 <= j < m.len() ==> #[trigger] m[j] >= m[k - 1]);

    // Multiset bookkeeping: post = m + {s} - {d}.
    lemma_to_multiset_insert(m, i, s);
    assert(post =~= mid.remove(k as int));
    assert(post.to_multiset() == mid.to_multiset().remove(d));
    assert(mid.to_multiset() == m.to_multiset().insert(s));
    assert(input2.to_multiset() == input.to_multiset().insert(s));

    // Ordering of the result.
    assert forall|p: int, q: int| 0 <= p <= q < post.len() implies post[p] >= post[q] by {
        assert(post[p] == mid[p]);
        assert(post[q] == mid[q]);
        if p < i && q == i {
            assert(mid[p] == m[p]);
        } else if p == i && q > i {
            assert(mid[q] == m[q - 1]);
        } else if p < i && q > i {
            assert(mid[p] == m[p]);
            assert(mid[q] == m[q - 1]);
        } else if p < i && q < i {
            assert(mid[p] == m[p]);
            assert(mid[q] == m[q]);
        } else if p > i && q > i {
            assert(mid[p] == m[p - 1]);
            assert(mid[q] == m[q - 1]);
        }
    }

    // Length.
    assert(post.len() == k);

    // Nothing is kept beyond its offered count.
    assert forall|v: u64| #[trigger] post.to_multiset().count(v)
        <= input2.to_multiset().count(v) by {
        assert(mid.to_multiset().count(d) > 0) by {
            assert(mid[mid.len() - 1] == d);
            assert(mid.contains(d));
        }
    }

    // Every value left out is at most every value kept.
    let mn = m[k - 1];
    assert(m.last() == mn);
    assert(mn <= s);
    assert(m.to_multiset().count(mn) > 0) by {
        assert(m.contains(mn));
    }
    assert(mid.to_multiset().count(d) > 0) by {
        assert(mid[mid.len() - 1] == d);
        assert(mid.contains(d));
    }
    assert forall|x: u64, y: u64|
        input2.to_multiset().count(x) > post.to_multiset().count(x) && post.to_multiset().count(
            y,
        ) > 0 implies x <= y by {
        // First: the left-out value is at most the old minimum, hence also
        // at most the new value.
        assert(x <= mn) by {
            if x == d && i == k {
                // The new value was spliced in at the very end and dropped
                // again: everything already kept was at least it.
                assert(m[k - 1] >= s);
            } else if x == d {
                // The old minimum itself was displaced.
                assert(d == mn);
            } else if x == s {
                // A copy of the new value beyond those kept: some copy was
                // already left out before, so the old bound applies.
                assert(input.to_multiset().count(x) > m.to_multiset().count(x));
            } else {
                // x kept its old count, so it was already left out before.
                assert(input.to_multiset().count(x) > m.to_multiset().count(x));
            }
        }
        // Second: everything kept is either an old member, which is at
        // least the old minimum, or the new value.
        if m.to_multiset().count(y) > 0 {
            lemma_member_has_index(m, y);
            let j = choose|j: int| 0 <= j < m.len() && m[j] == y;
            assert(m[j] >= m[k - 1]);
        } else {
            assert(y == s);
        }
    }
}

/// Sorts the entries in place into descending size order.
///
/// This is the one-time reorder a tracker performs on reaching its
/// capacity, and the explicit sort a caller owes a still-filling
/// tracker's snapshot before treating it as ordered output.
pub fn sort_by_size_desc(v: &mut Vec<FileData>)
    ensures
        final(v)@.len() == old(v)@.len(),
        final(v)@.to_multiset() == old(v)@.to_multiset(),
        sizes(final(v)@).to_multiset() == sizes(old(v)@).to_multiset(),
        sorted_desc(sizes(final(v)@)),
{
    let ghost orig = v@;
    let mut i: usize = 1;
    while i < v.len()
        invariant
            1 <= i,
            i <= v@.len() || v@.len() == 0,
            v@.len() == orig.len(),
            v@.to_multiset() == orig.to_multiset(),
            sizes(v@).to_multiset() == sizes(orig).to_multiset(),
            forall|p: int, q: int| 0 <= p <= q < i && q < v@.len() ==> v@[p].size >= v@[q].size,
        decreases v@.len() - i,
    {
        let ghost before = v@;
        let x = v.remove(i);
        let ghost removed = v@;
        let mut j: usize = i;
        while j > 0 && v[j - 1].size < x.size
            invariant
                j <= i,
                i < before.len(),
                v@ == removed,
                removed == before.remove(i as int),
                forall|p: int| j <= p < i ==> v@[p].size < x.size,
            decreases j,
        {
            j -= 1;
        }
        proof {
            broadcast use vstd::seq_lib::group_to_multiset_ensures;
            broadcast use vstd::multiset::group_multiset_axioms;

            before.remove_ensures(i as int);
            assert(before[i as int] == x);
            assert(removed.to_multiset() == before.to_multiset().remove(x));
        }
        v.insert(j, x);
        proof {
            broadcast use vstd::multiset::group_multiset_axioms;

            lemma_to_multiset_insert(removed, j as int, x);
            assert(before.to_multiset().count(x) > 0) by {
                broadcast use vstd::seq_lib::group_to_multiset_ensures;

                assert(before.contains(x)) by {
                    assert(before[i as int] == x);
                }
            }
            assert(v@.to_multiset() =~= before.to_multiset());
            lemma_sizes_remove(before, i as int);
            lemma_sizes_insert(removed, j as int, x);
            lemma_to_multiset_insert(sizes(removed), j as int, x.size);
            assert(sizes(before)[i as int] == x.size);
            assert(sizes(removed).to_multiset() == sizes(before).to_multiset().remove(x.size));
            assert(sizes(before).to_multiset().count(x.size) > 0) by {
                broadcast use vstd::seq_lib::group_to_multiset_ensures;

                assert(sizes(before).contains(x.size)) by {
                    assert(sizes(before)[i as int] == x.size);
                }
            }
            assert(sizes(v@).to_multiset() =~= sizes(before).to_multiset());
            removed.insert_ensures(j as int, x);
            assert forall|p: int, q: int|
                0 <= p <= q < i + 1 && q < v@.len() implies v@[p].size >= v@[q].size by {
                before.remove_ensures(i as int);
                if p < j && q == j {
                    assert(v@[p] == removed[p]);
                } else if p == j && q > j {
                    assert(v@[q] == removed[q - 1]);
                } else if p < j && q > j {
                    assert(v@[p] == removed[p]);
                    assert(v@[q] == removed[q - 1]);
                } else if p > j && q > j {
                    assert(v@[p] == removed[p - 1]);
                    assert(v@[q] == removed[q - 1]);
                } else if p < j && q < j {
                    assert(v@[p] == removed[p]);
                    assert(v@[q] == removed[q]);
                }
            }
        }
        i += 1;
    }
    proof {
        assert forall|p: int, q: int| 0 <= p <= q < sizes(v@).len() implies sizes(v@)[p]
            >= sizes(v@)[q] by {
            assert(sizes(v@)[p] == v@[p].size);
            assert(sizes(v@)[q] == v@[q].size);
        }
    }
}

/// Two descending-sorted sequences holding the same values are the same
/// sequence. So a sorted top-k size list is unique: every selection that
/// keeps the k largest sizes and sorts them descending produces this very
/// sequence, and a tracker that kept fewer than k entries and is sorted
/// shows exactly the offered sizes in descending order.
pub proof fn lemma_sorted_desc_unique(a: Seq<u64>, b: Seq<u64>)
    requires
        sorted_desc(a),
        sorted_desc(b),
        a.to_multiset() == b.to_multiset(),
    ensures
        a == b,
{
    let geq = |x: u64, y: u64| x >= y;
    assert(vstd::relations::total_ordering(geq));
    assert(vstd::relations::sorted_by(a, geq)) by {
        assert forall|i: int, j: int| 0 <= i < j < a.len() implies #[trigger] geq(a[i], a[j]) by {
            assert(a[i] >= a[j]);
        }
    }
    assert(vstd::relations::sorted_by(b, geq)) by {
        assert forall|i: int, j: int| 0 <= i < j < b.len() implies #[trigger] geq(b[i], b[j]) by {
            assert(b[i] >= b[j]);
        }
    }
    vstd::seq_lib::lemma_sorted_unique(a, b, geq);
}

/// Two multisets of the same total size, one counting no value more often
/// than the other, are the same multiset.
pub proof fn lemma_multiset_le_equal_len<A>(
    m1: vstd::multiset::Multiset<A>,
    m2: vstd::multiset::Multiset<A>,
)
    requires
        forall|v: A| #[trigger] m1.count(v) <= m2.count(v),
        m1.len() == m2.len(),
    ensures
        m1 == m2,
    decreases m1.len(),
{
    broadcast use vstd::multiset::group_multiset_axioms;

    if m1.len() == 0 {
        vstd::multiset::lemma_multiset_empty_len(m1);
        vstd::multiset::lemma_multiset_empty_len(m2);
        assert(m1 =~= m2);
    } else {
        let x = m1.choose();
        assert(m1.count(x) > 0);
        let r1 = m1.remove(x);
        let r2 = m2.remove(x);
        assert(vstd::multiset::Multiset::singleton(x).subset_of(m1));
        assert(vstd::multiset::Multiset::singleton(x).subset_of(m2));
        assert(r1.len() == m1.len() - 1);
        assert(r2.len() == m2.len() - 1);
        lemma_multiset_le_equal_len(r1, r2);
        assert(m1 =~= r1.insert(x));
        assert(m2 =~= r2.insert(x));
    }
}

/// A top-k selection of an input is unique once sorted: any two descending
/// lists that each keep the largest values of the same input are the same
/// list. Together with the tracker's contract this pins the final list
/// down completely, whatever order the stream arrived in.
pub proof fn lemma_top_k_unique(a: Seq<u64>, b: Seq<u64>, input: Seq<u64>, k: nat)
    requires
        is_top_k(a, input, k),
        is_top_k(b, input, k),
        sorted_desc(a),
        sorted_desc(b),
    ensures
        a == b,
{
    broadcast use vstd::seq_lib::group_to_multiset_ensures;
    broadcast use vstd::multiset::group_multiset_axioms;

    let ma = a.to_multiset();
    let mb = b.to_multiset();
    assert(ma.len() == mb.len());
    assert forall|v: u64| #[trigger] ma.count(v) <= mb.count(v) by {
        if ma.count(v) > mb.count(v) {
            // b misses a copy of v that a keeps, so everything b keeps is
            // at least v; and a misses a copy of some w that b keeps, so
            // everything a keeps is at least w. Then v and w bound each
            // other and the counts cannot differ after all.
            assert(input.to_multiset().count(v) > mb.count(v));
            assert(ma.count(v) > 0);
            if forall|w: u64| #[trigger] mb.count(w) <= ma.count(w) {
                lemma_multiset_le_equal_len(mb, ma);
            } else {
                let w = choose|w: u64| !(#[trigger] mb.count(w) <= ma.count(w));
                assert(input.to_multiset().count(w) > ma.count(w));
                assert(mb.count(w) > 0);
                // the threshold clauses of both selections
                assert(w <= v);
                assert(v <= w);
                assert(ma.count(v) <= mb.count(v));
            }
        }
    }
    lemma_multiset_le_equal_len(ma, mb);
    lemma_sorted_desc_unique(a, b);
}

/// A top-k selection keeps each size value as often as it was offered,
/// except that a value's copies may be cut off by the capacity — and then
/// everything kept is at least that value.
pub proof fn lemma_equal_size_count(result: Seq<u64>, input: Seq<u64>, k: nat, v: u64)
    requires
        is_top_k(result, input, k),
    ensures
        result.to_multiset().count(v) <= input.to_multiset().count(v),
        result.to_multiset().count(v) < input.to_multiset().count(v) ==> forall|y: u64|
            #[trigger] result.to_multiset().count(y) > 0 ==> v <= y,
{
}

/// Fixed-capacity tracker of the largest-size entries seen in a stream.
///
/// The tracker starts in a filling phase, appending entries in arrival
/// order. The offer that brings it to its capacity triggers the one-time
/// descending sort; from then on each offer either is rejected in constant
/// time (smaller than the kept minimum) or is spliced in at the index a
/// binary search finds, displacing the smallest kept entry.
pub struct TopKTracker {
    /// The kept entries; in descending size order once `reordered` holds.
    pub entries: Vec<FileData>,
    /// How many entries are retained at most.
    pub capacity: usize,
    /// Whether the one-time sort has happened (always, for capacity 0).
    pub reordered: bool,
    /// Every entry ever offered, in arrival order.
    pub offered: Ghost<Seq<FileData>>,
}

impl TopKTracker {
    /// The tracker's invariant: what it keeps is a top-k selection, by
    /// size, of everything offered so far, entry for entry; order of the
    /// kept entries and the one-time-sort flag follow the phase.
    pub open spec fn wf(self) -> bool {
        &&& self.entries@.len() <= self.capacity
        &&& (self.reordered <==> self.offered@.len() >= self.capacity)
        &&& (!self.reordered ==> self.entries@ == self.offered@)
        &&& (self.reordered ==> sorted_desc(sizes(self.entries@)))
        &&& (self.offered@.len() <= self.capacity ==> self.entries@.to_multiset()
            == self.offered@.to_multiset())
        &&& (self.offered@.len() <= self.capacity ==> sizes(self.entries@).to_multiset() == sizes(
            self.offered@,
        ).to_multiset())
        &&& forall|fd: FileData| #[trigger] self.entries@.to_multiset().count(fd)
            <= self.offered@.to_multiset().count(fd)
        &&& is_top_k(sizes(self.entries@), sizes(self.offered@), self.capacity as nat)
    }

    /// A new, empty tracker that will keep at most `capacity` entries.
    pub fn new(capacity: usize) -> (t: TopKTracker)
        ensures
            t.wf(),
            t.capacity == capacity,
            t.entries@ == Seq::<FileData>::empty(),
            t.offered@ == Seq::<FileData>::empty(),
            t.reordered == (capacity == 0),
    {
        let t = TopKTracker {
            entries: Vec::new(),
            capacity,
            reordered: capacity == 0,
            offered: Ghost(Seq::empty()),
        };
        proof {
            broadcast use vstd::seq_lib::group_to_multiset_ensures;

            assert(sizes(t.entries@) =~= Seq::<u64>::empty());
            assert(sizes(t.offered@) =~= Seq::<u64>::empty());
        }
        t
    }

    /// The current number of kept entries.
    pub fn len(&self) -> (n: usize)
        ensures
            n == self.entries@.len(),
    {
        self.entries.len()
    }

    /// The kept entries as they stand; in descending size order once the
    /// capacity has been reached, in arrival order before that. Reading
    /// changes nothing, so two reads without an offer in between see the
    /// same sequence.
    pub fn snapshot(&self) -> (r: &Vec<FileData>)
        ensures
            r@ == self.entries@,
    {
        &self.entries
    }

    /// Feeds one entry to the tracker. Never fails and never grows the
    /// tracker beyond its capacity.
    ///
    /// While filling, the entry is appended; the offer that reaches the
    /// capacity triggers the one-time descending sort. Once sorted, an
    /// entry smaller than the kept minimum leaves the tracker unchanged;
    /// any other entry is spliced in at an index that keeps the order
    /// (ties land somewhere inside the run of equal sizes, deliberately
    /// unspecified) and the smallest kept entry leaves. A new strict
    /// maximum always lands at index 0.
    pub fn offer(&mut self, entry: FileData)
        requires
            old(self).wf(),
        ensures
            final(self).wf(),
            final(self).capacity == old(self).capacity,
            final(self).offered@ == old(self).offered@.push(entry),
            final(self).reordered == (old(self).reordered || old(self).entries@.len() + 1
                >= old(self).capacity),
            // Filling, with room to spare: plain append.
            !old(self).reordered && old(self).entries@.len() + 1 < old(self).capacity
                ==> final(self).entries@ == old(self).entries@.push(entry),
            // Filling, reaching the capacity: append and one-time sort.
            !old(self).reordered && old(self).entries@.len() + 1 == old(self).capacity
                ==> final(self).entries@.to_multiset() == old(self).entries@.push(
                entry,
            ).to_multiset(),
            // Sorted, below the kept minimum (or nothing is ever kept):
            // the tracker is unchanged.
            old(self).reordered && (old(self).capacity == 0 || entry.size
                < old(self).entries@.last().size) ==> final(self).entries@ == old(self).entries@,
            // Sorted, at or above the kept minimum: spliced in somewhere,
            // the smallest kept entry leaves.
            old(self).reordered && old(self).capacity > 0 && entry.size
                >= old(self).entries@.last().size ==> exists|i: int|
                0 <= i <= old(self).entries@.len() && final(self).entries@
                    == old(self).entries@.insert(i, entry).drop_last(),
            // Sorted, a new strict maximum: it lands at index 0.
            old(self).reordered && old(self).capacity > 0 && entry.size
                > old(self).entries@.first().size ==> final(self).entries@
                == old(self).entries@.insert(0, entry).drop_last(),
    {
        proof {
            broadcast use vstd::seq_lib::group_to_multiset_ensures;
            broadcast use vstd::multiset::group_multiset_axioms;
        }
        let ghost pre = self.entries@;
        let ghost pre_offered = self.offered@;
        self.offered = Ghost(self.offered@.push(entry));
        proof {
            lemma_sizes_push(pre_offered, entry);
        }
        if self.entries.len() < self.capacity {
            proof {
                // Still filling: were the tracker sorted already, it would
                // be full.
                if old(self).reordered {
                    assert(sizes(pre).len() == pre.len());
                    assert(false);
                }
            }
            self.entries.push(entry);
            proof {
                broadcast use vstd::seq_lib::group_to_multiset_ensures;

                assert(self.entries@ == self.offered@);
                lemma_sizes_push(pre, entry);
                lemma_top_k_keep_all(
                    sizes(self.entries@),
                    sizes(self.offered@),
                    self.capacity as nat,
                );
            }
            if self.entries.len() == self.capacity {
                sort_by_size_desc(&mut self.entries);
                self.reordered = true;
                proof {
                    broadcast use vstd::seq_lib::group_to_multiset_ensures;
                    broadcast use vstd::multiset::group_multiset_axioms;

                    lemma_top_k_keep_all(
                        sizes(self.entries@),
                        sizes(self.offered@),
                        self.capacity as nat,
                    );
                }
            }
        } else if self.capacity == 0 {
            // Nothing is ever kept; the entry is counted and dropped.
            proof {
                broadcast use vstd::seq_lib::group_to_multiset_ensures;
                broadcast use vstd::multiset::group_multiset_axioms;

                assert(sizes(pre).len() == 0);
                lemma_top_k_discard(sizes(pre), sizes(pre_offered), 0, entry.size);
            }
        } else {
            proof {
                // Full: the one-time sort has happened.
                assert(old(self).reordered) by {
                    if !old(self).reordered {
                        assert(pre == pre_offered);
                    }
                }
                assert(sizes(pre).len() == pre.len());
                assert(pre.len() == self.capacity) by {
                    assert(pre_offered.len() >= self.capacity);
                    assert(sizes(pre_offered).len() == pre_offered.len());
                }
                assert forall|j: int| 0 <= j < pre.len() implies sizes(pre)[j]
                    == #[trigger] pre[j].size by {}
            }
            let idx = reverse_binary_search_insert_index(self.entries.as_slice(), &entry.size);
            match idx {
                None => {
                    proof {
                        broadcast use vstd::seq_lib::group_to_multiset_ensures;
                        broadcast use vstd::multiset::group_multiset_axioms;

                        assert(sizes(pre).last() == pre.last().size);
                        assert forall|j: int| 0 <= j < sizes(pre).len() implies sizes(pre)[j]
                            >= entry.size by {
                            assert(sizes(pre)[j] >= sizes(pre)[pre.len() - 1]);
                        }
                        lemma_top_k_discard(
                            sizes(pre),
                            sizes(pre_offered),
                            self.capacity as nat,
                            entry.size,
                        );
                    }
                },
                Some(i) => {
                    let ghost s = entry.size;
                    proof {
                        assert(sizes(pre).last() == pre.last().size);
                        lemma_top_k_displace(
                            sizes(pre),
                            sizes(pre_offered),
                            self.capacity as nat,
                            s,
                            i as int,
                        );
                    }
                    self.entries.insert(i, entry);
                    self.entries.pop();
                    proof {
                        broadcast use vstd::seq_lib::group_to_multiset_ensures;
                        broadcast use vstd::multiset::group_multiset_axioms;

                        let mid = pre.insert(i as int, entry);
                        assert(self.entries@ == mid.drop_last());
                        lemma_sizes_insert(pre, i as int, entry);
                        lemma_sizes_drop_last(mid);
                        assert(sizes(self.entries@) == sizes(pre).insert(i as int, s).drop_last());
                        // Entry-level accounting: the spliced entry came in,
                        // the dropped entry left.
                        let d = mid.last();
                        pre.insert_ensures(i as int, entry);
                        lemma_to_multiset_insert(pre, i as int, entry);
                        assert(mid.drop_last() =~= mid.remove(mid.len() - 1));
                        assert(self.entries@.to_multiset() == mid.to_multiset().remove(d));
                        assert(mid.to_multiset().count(d) > 0) by {
                            assert(mid[mid.len() - 1] == d);
                            assert(mid.contains(d));
                        }
                        assert forall|fd: FileData| #[trigger] self.entries@.to_multiset().count(fd)
                            <= self.offered@.to_multiset().count(fd) by {
                            assert(pre.to_multiset().count(fd) <= pre_offered.to_multiset().count(
                                fd,
                            ));
                        }
                        // The length stays at the capacity.
                        assert(self.entries@.len() == pre.len());
                        // A strict maximum can only land at index 0.
                        if s > pre.first().size {
                            assert(i == 0) by {
                                if i > 0 {
                                    assert(pre[0].size >= s);
                                }
                            }
                        }
                    }
                },
            }
        }
    }

    /// Consumes the tracker and returns the final list: the kept entries
    /// in descending size order. A tracker that never reached its capacity
    /// holds everything it was offered, and its entries are sorted here,
    /// since the one-time sort never ran.
    pub fn into_top_list(self) -> (r: Vec<FileData>)
        requires
            self.wf(),
        ensures
            sorted_desc(sizes(r@)),
            is_top_k(sizes(r@), sizes(self.offered@), self.capacity as nat),
            forall|fd: FileData| #[trigger] r@.to_multiset().count(fd)
                <= self.offered@.to_multiset().count(fd),
            self.offered@.len() <= self.capacity ==> r@.to_multiset()
                == self.offered@.to_multiset(),
            self.offered@.len() <= self.capacity ==> sizes(r@).to_multiset() == sizes(
                self.offered@,
            ).to_multiset(),
    {
        let TopKTracker { mut entries, capacity, reordered, offered } = self;
        if !reordered {
            proof {
                assert(entries@ == offered@);
            }
            sort_by_size_desc(&mut entries);
            proof {
                lemma_top_k_keep_all(sizes(entries@), sizes(offered@), capacity as nat);
            }
        }
        entries
    }
}

/// A tracker of capacity zero keeps nothing, whatever was offered.
pub proof fn lemma_zero_capacity_empty(t: TopKTracker)
    requires
        t.wf(),
        t.capacity == 0,
    ensures
        t.entries@ == Seq::<FileData>::empty(),
{
    assert(sizes(t.entries@).len() == t.entries@.len());
    assert(t.entries@ =~= Seq::<FileData>::empty());
}

} // verus!

