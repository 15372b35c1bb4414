//! Grouping of raw samples by parameter vector, and the per-group
//! outlier trim: each group's durations are sorted and the lowest and
//! highest quartile (a quarter of the count, rounded down) are discarded.

use vstd::prelude::*;
use vstd::relations::{sorted_by, total_ordering};
use vstd::seq_lib::lemma_multiset_commutative;
use crate::BenchmarkResults;

verus! {

/// The parameter vector of one sample: its parameter values, names stripped.
pub open spec fn key_of(s: BenchmarkResults) -> Seq<u32> {
    s.0@.map_values(|p: (String, u32)| p.1)
}

/// The set of distinct parameter vectors occurring in the input.
pub open spec fn keys_of(r: Seq<BenchmarkResults>) -> Set<Seq<u32>>
    decreases r.len(),
{
    if r.len() == 0 {
        Set::<Seq<u32>>::empty()
    } else {
        keys_of(r.drop_last()).insert(key_of(r.last()))
    }
}

/// The durations of the samples with parameter vector `k`, in input order.
pub open spec fn durs_of(r: Seq<BenchmarkResults>, k: Seq<u32>) -> Seq<u128>
    decreases r.len(),
{
    if r.len() == 0 {
        Seq::<u128>::empty()
    } else if key_of(r.last()) == k {
        durs_of(r.drop_last(), k).push(r.last().1)
    } else {
        durs_of(r.drop_last(), k)
    }
}

/// Strict lexicographic order on integer sequences.
pub open spec fn lex_lt(a: Seq<u32>, b: Seq<u32>) -> bool
    decreases a.len(),
{
    if b.len() == 0 {
        false
    } else if a.len() == 0 {
        true
    } else if a[0] < b[0] {
        true
    } else if a[0] > b[0] {
        false
    } else {
        lex_lt(a.drop_first(), b.drop_first())
    }
}

/// The order durations are sorted by.
pub open spec fn dur_le() -> spec_fn(u128, u128) -> bool {
    |x: u128, y: u128| x <= y
}

/// A group's durations in ascending order.
pub open spec fn sort_durs(s: Seq<u128>) -> Seq<u128> {
    s.sort_by(dur_le())
}

/// The quartile trim: sort ascending, then drop `len / 4` elements
/// from each end.
pub open spec fn trim_spec(s: Seq<u128>) -> Seq<u128> {
    let t = sort_durs(s);
    t.subrange((t.len() / 4) as int, t.len() - t.len() / 4)
}

/// Spec-level picture of a grouped structure: parameter vectors and
/// duration sequences as mathematical sequences.
pub open spec fn gview(g: Seq<(Vec<u32>, Vec<u128>)>) -> Seq<(Seq<u32>, Seq<u128>)> {
    g.map_values(|p: (Vec<u32>, Vec<u128>)| (p.0@, p.1@))
}

/// Parameter vectors in strictly ascending lexicographic order.
pub open spec fn strictly_sorted(ks: Seq<Seq<u32>>) -> bool {
    forall|p: int, q: int| 0 <= p < q < ks.len() ==> lex_lt(#[trigger] ks[p], #[trigger] ks[q])
}

/// `g` is the grouped-and-trimmed form of the samples `r`: one entry per
/// distinct parameter vector, in ascending lexicographic key order, each
/// holding the quartile-trimmed sorted durations of its group.
pub open spec fn is_grouping(r: Seq<BenchmarkResults>, g: Seq<(Seq<u32>, Seq<u128>)>) -> bool {
    &&& strictly_sorted(g.map_values(|e: (Seq<u32>, Seq<u128>)| e.0))
    &&& forall|i: int| 0 <= i < g.len() ==> keys_of(r).contains(#[trigger] g[i].0)
    &&& forall|k: Seq<u32>|
        keys_of(r).contains(k) ==> exists|i: int| 0 <= i < g.len() && #[trigger] g[i].0 == k
    &&& forall|i: int| 0 <= i < g.len() ==> (#[trigger] g[i].1) == trim_spec(durs_of(r, g[i].0))
    &&& g.len() == keys_of(r).len()
}

/// Every sample carries the same number of parameters.
pub open spec fn uniform_shape(r: Seq<BenchmarkResults>) -> bool {
    forall|i: int| 0 <= i < r.len() ==> (#[trigger] r[i].0)@.len() == r[0].0@.len()
}

pub proof fn lemma_lex_irreflexive(a: Seq<u32>)
    ensures
        !lex_lt(a, a),
    decreases a.len(),
{
    if a.len() > 0 {
        lemma_lex_irreflexive(a.drop_first());
    }
}

pub proof fn lemma_lex_total(a: Seq<u32>, b: Seq<u32>)
    ensures
        lex_lt(a, b) || lex_lt(b, a) || a == b,
    decreases a.len(),
{
    if a.len() == 0 || b.len() == 0 {
        if a.len() == 0 && b.len() == 0 {
            assert(a =~= b);
        }
    } else if a[0] == b[0] {
        lemma_lex_total(a.drop_first(), b.drop_first());
        if a.drop_first() == b.drop_first() {
            assert(a.len() == a.drop_first().len() + 1);
            assert(b.len() == b.drop_first().len() + 1);
            assert forall|i: int| #![trigger a[i]] 0 <= i < a.len() implies a[i] == b[i] by {
                if i > 0 {
                    assert(a[i] == a.drop_first()[i - 1]);
                    assert(b[i] == b.drop_first()[i - 1]);
                }
            }
            assert(a =~= b);
        }
    }
}

pub proof fn lemma_lex_transitive(a: Seq<u32>, b: Seq<u32>, c: Seq<u32>)
    requires
        lex_lt(a, b),
        lex_lt(b, c),
    ensures
        lex_lt(a, c),
    decreases a.len(),
{
    if c.len() == 0 {
    } else if a.len() == 0 {
    } else if b.len() == 0 {
    } else {
        if a[0] == b[0] && b[0] == c[0] {
            lemma_lex_transitive(a.drop_first(), b.drop_first(), c.drop_first());
        }
    }
}

/// Inserting an element anywhere in a sequence adds it to the multiset.
proof fn lemma_insert_multiset(s: Seq<u128>, j: int, x: u128)
    requires
        0 <= j <= s.len(),
    ensures
        s.insert(j, x).to_multiset() =~= s.to_multiset().insert(x),
{
    broadcast use vstd::seq_lib::group_to_multiset_ensures;

    let left = s.subrange(0, j);
    let right = s.subrange(j, s.len() as int);
    assert(s.insert(j, x) == left.push(x) + right);
    lemma_multiset_commutative(left.push(x), right);
    lemma_multiset_commutative(left, right);
    assert(s =~= left + right);
    assert(left.push(x).to_multiset() =~= left.to_multiset().insert(x));
    assert(s.insert(j, x).to_multiset() =~= left.to_multiset().insert(x).add(right.to_multiset()));
    assert(s.to_multiset() =~= left.to_multiset().add(right.to_multiset()));
}

/// Inserting an element anywhere in a sequence adds it to the element set.
proof fn lemma_insert_to_set(s: Seq<Seq<u32>>, j: int, x: Seq<u32>)
    requires
        0 <= j <= s.len(),
    ensures
        s.insert(j, x).to_set() =~= s.to_set().insert(x),
{
    let t = s.insert(j, x);
    s.insert_ensures(j, x);
    assert forall|e: Seq<u32>| t.to_set().contains(e) implies s.to_set().insert(x).contains(e) by {
        let i = choose|i: int| 0 <= i < t.len() && t[i] == e;
        if i < j {
            assert(s[i] == e);
        } else if i == j {
        } else {
            assert(s[i - 1] == e);
        }
    }
    assert forall|e: Seq<u32>| s.to_set().insert(x).contains(e) implies t.to_set().contains(e) by {
        if e == x {
            assert(t[j] == e);
        } else {
            let i = choose|i: int| 0 <= i < s.len() && s[i] == e;
            if i < j {
                assert(t[i] == e);
            } else {
                assert(t[i + 1] == e);
            }
        }
    }
}

/// A parameter vector that occurs in the input has at least one duration.
pub proof fn lemma_key_has_dur(r: Seq<BenchmarkResults>, k: Seq<u32>)
    requires
        keys_of(r).contains(k),
    ensures
        durs_of(r, k).len() > 0,
    decreases r.len(),
{
    if r.len() > 0 {
        if key_of(r.last()) == k {
        } else {
            lemma_key_has_dur(r.drop_last(), k);
        }
    }
}

/// The trim keeps `len - 2 * (len / 4)` elements; a non-empty group
/// stays non-empty.
pub proof fn lemma_trim_len(s: Seq<u128>)
    ensures
        trim_spec(s).len() == s.len() - 2 * ((s.len() / 4) as int),
        s.len() > 0 ==> trim_spec(s).len() > 0,
{
    s.lemma_sort_by_ensures(dur_le());
    broadcast use vstd::seq_lib::group_to_multiset_ensures;

    assert(sort_durs(s).to_multiset().len() == s.to_multiset().len());
}

/// Trimming a group of fewer than four already-sorted samples removes
/// nothing: the quartile width `len / 4` is zero there.
pub proof fn lemma_trim_small_noop(s: Seq<u128>)
    requires
        sorted_by(s, dur_le()),
        s.len() < 4,
    ensures
        trim_spec(s) == s,
{
    lemma_sort_of_sorted(s);
    assert(trim_spec(s) =~= s);
}

/// Sorting an already-sorted sequence returns it unchanged.
pub proof fn lemma_sort_of_sorted(s: Seq<u128>)
    requires
        sorted_by(s, dur_le()),
    ensures
        sort_durs(s) == s,
{
    s.lemma_sort_by_ensures(dur_le());
    assert(total_ordering(dur_le()));
    vstd::seq_lib::lemma_sorted_unique(s, sort_durs(s), dur_le());
}

/// Recursion step of `keys_of` and `durs_of` along a growing prefix.
proof fn lemma_prefix_step(r: Seq<BenchmarkResults>, i: int)
    requires
        0 <= i < r.len(),
    ensures
        keys_of(r.subrange(0, i + 1)) == keys_of(r.subrange(0, i)).insert(key_of(r[i])),
        forall|k: Seq<u32>|
            durs_of(r.subrange(0, i + 1), k) == if key_of(r[i]) == k {
                durs_of(r.subrange(0, i), k).push(r[i].1)
            } else {
                durs_of(r.subrange(0, i), k)
            },
{
    let pre = r.subrange(0, i + 1);
    assert(pre.drop_last() =~= r.subrange(0, i));
    assert(pre.last() == r[i]);
}

/// Compare two parameter vectors for equality.
fn key_eq(a: &Vec<u32>, b: &Vec<u32>) -> (r: bool)
    ensures
        r == (a@ == b@),
{
    if a.len() != b.len() {
        return false;
    }
    let mut i: usize = 0;
    while i < a.len()
        invariant
            i <= a.len(),
            a@.len() == b@.len(),
            forall|m: int| 0 <= m < i ==> a@[m] == b@[m],
        decreases a.len() - i,
    {
        if a[i] != b[i] {
            return false;
        }
        i = i + 1;
    }
    proof {
        assert(a@ =~= b@);
    }
    true
}

/// Compare two parameter vectors lexicographically.
fn key_lt(a: &Vec<u32>, b: &Vec<u32>) -> (r: bool)
    ensures
        r == lex_lt(a@, b@),
{
    proof {
        assert(a@.skip(0) =~= a@);
        assert(b@.skip(0) =~= b@);
    }
    let mut i: usize = 0;
    loop
        invariant
            i <= a.len(),
            i <= b.len(),
            forall|m: int| 0 <= m < i ==> a@[m] == b@[m],
            lex_lt(a@, b@) == lex_lt(a@.skip(i as int), b@.skip(i as int)),
        decreases a.len() - i,
    {
        if i == b.len() {
            proof {
                assert(b@.skip(i as int).len() == 0);
            }
            return false;
        }
        if i == a.len() {
            proof {
                assert(a@.skip(i as int).len() == 0);
                assert(b@.skip(i as int).len() > 0);
            }
            return true;
        }
        let av = a[i];
        let bv = b[i];
        proof {
            assert(a@.skip(i as int)[0] == a@[i as int]);
            assert(b@.skip(i as int)[0] == b@[i as int]);
            if av == bv {
                assert(a@.skip(i as int).drop_first() =~= a@.skip(i as int + 1));
                assert(b@.skip(i as int).drop_first() =~= b@.skip(i as int + 1));
            }
        }
        if av < bv {
            return true;
        }
        if av > bv {
            return false;
        }
        i = i + 1;
    }
}

/// The parameter vector of sample `idx`.
fn extract_key(r: &Vec<BenchmarkResults>, idx: usize) -> (key: Vec<u32>)
    requires
        idx < r@.len(),
    ensures
        key@ == key_of(r@[idx as int]),
{
    let pairs: &Vec<(String, u32)> = &r[idx].0;
    let mut key: Vec<u32> = Vec::new();
    let mut j: usize = 0;
    while j < pairs.len()
        invariant
            j <= pairs.len(),
            pairs@ == r@[idx as int].0@,
            key@ =~= pairs@.map_values(|p: (String, u32)| p.1).subrange(0, j as int),
        decreases pairs.len() - j,
    {
        key.push(pairs[j].1);
        proof {
            i_step(pairs@, j as int);
        }
        j = j + 1;
    }
    proof {
        assert(key@ =~= key_of(r@[idx as int]));
    }
    key
}

/// Push step of a map-projection loop.
proof fn i_step(pairs: Seq<(String, u32)>, j: int)
    requires
        0 <= j < pairs.len(),
    ensures
        pairs.map_values(|p: (String, u32)| p.1).subrange(0, j).push(pairs[j].1)
            =~= pairs.map_values(|p: (String, u32)| p.1).subrange(0, j + 1),
{
}

/// Sort a group's durations ascending.
fn sort_durs_exec(v: &Vec<u128>) -> (r: Vec<u128>)
    ensures
        r@ == sort_durs(v@),
{
    let mut r: Vec<u128> = Vec::new();
    proof {
        assert(r@ =~= v@.subrange(0, 0));
    }
    let mut i: usize = 0;
    while i < v.len()
        invariant
            i <= v.len(),
            sorted_by(r@, dur_le()),
            r@.to_multiset() == v@.subrange(0, i as int).to_multiset(),
        decreases v.len() - i,
    {
        let x = v[i];
        let mut j: usize = 0;
        while j < r.len() && r[j] <= x
            invariant
                j <= r.len(),
                forall|m: int| 0 <= m < j ==> r@[m] <= x,
            decreases r.len() - j,
        {
            j = j + 1;
        }
        let ghost old_r = r@;
        r.insert(j, x);
        proof {
            broadcast use vstd::seq_lib::group_to_multiset_ensures;

            old_r.insert_ensures(j as int, x);
            assert(sorted_by(r@, dur_le())) by {
                assert forall|p: int, q: int| 0 <= p < q < r@.len() implies dur_le()(
                    r@[p],
                    r@[q],
                ) by {
                    if q < j {
                        assert(r@[p] == old_r[p]);
                        assert(r@[q] == old_r[q]);
                    } else if q == j {
                        assert(r@[p] == old_r[p]);
                        assert(r@[q] == x);
                    } else if p == j {
                        assert(r@[p] == x);
                        assert(r@[q] == old_r[q - 1]);
                        assert(j < old_r.len());
                        assert(x < old_r[j as int]);
                        if j < q - 1 {
                            assert(dur_le()(old_r[j as int], old_r[q - 1]));
                        }
                        assert(old_r[j as int] <= old_r[q - 1]);
                    } else if p < j {
                        assert(r@[p] == old_r[p]);
                        assert(r@[q] == old_r[q - 1]);
                        assert(old_r[p] <= x);
                        assert(j < old_r.len());
                        assert(x < old_r[j as int]);
                        if j < q - 1 {
                            assert(dur_le()(old_r[j as int], old_r[q - 1]));
                        }
                        assert(old_r[j as int] <= old_r[q - 1]);
                    } else {
                        assert(r@[p] == old_r[p - 1]);
                        assert(r@[q] == old_r[q - 1]);
                    }
                }
            }
            lemma_insert_multiset(old_r, j as int, x);
            assert(v@.subrange(0, i as int).push(x) =~= v@.subrange(0, i + 1));
            assert(v@.subrange(0, i as int).push(x).to_multiset() =~= v@.subrange(
                0,
                i as int,
            ).to_multiset().insert(x));
        }
        i = i + 1;
    }
    proof {
        assert(v@.subrange(0, v@.len() as int) =~= v@);
        v@.lemma_sort_by_ensures(dur_le());
        assert(total_ordering(dur_le()));
        vstd::seq_lib::lemma_sorted_unique(r@, sort_durs(v@), dur_le());
    }
    r
}

/// Group the samples by parameter vector, in ascending lexicographic key
/// order, and quartile-trim each group.  Returns the groups and the
/// ordered parameter-name list taken from the first sample; `None` when
/// there are no samples at all, since no model can be fit from nothing.
pub fn aggregate(r: &Vec<BenchmarkResults>) -> (res: Option<
    (Vec<(Vec<u32>, Vec<u128>)>, Vec<String>),
>)
    requires
        uniform_shape(r@),
    ensures
        res is None <==> r@.len() == 0,
        res matches Some(p) ==> {
            &&& is_grouping(r@, gview(p.0@))
            &&& p.1@.len() == r@[0].0@.len()
            &&& forall|j: int|
                0 <= j < p.1@.len() ==> (#[trigger] p.1@[j])@ == r@[0].0@[j].0@
            &&& forall|i: int|
                0 <= i < p.0@.len() ==> (#[trigger] p.0@[i]).0@.len() == r@[0].0@.len()
        },
{
    if r.len() == 0 {
        return None;
    }
    // Phase one: the distinct parameter vectors, kept sorted.
    let mut keys: Vec<Vec<u32>> = Vec::new();
    proof {
        assert(keys@.map_values(|k: Vec<u32>| k@) =~= Seq::<Seq<u32>>::empty());
        assert(keys@.map_values(|k: Vec<u32>| k@).to_set() =~= keys_of(r@.subrange(0, 0)));
    }
    let mut i: usize = 0;
    while i < r.len()
        invariant
            i <= r@.len(),
            uniform_shape(r@),
            r@.len() > 0,
            strictly_sorted(keys@.map_values(|k: Vec<u32>| k@)),
            keys@.map_values(|k: Vec<u32>| k@).to_set() == keys_of(r@.subrange(0, i as int)),
            forall|p: int|
                0 <= p < keys@.len() ==> (#[trigger] keys@[p])@.len() == r@[0].0@.len(),
        decreases r@.len() - i,
    {
        let key = extract_key(r, i);
        let ghost kseq = keys@.map_values(|k: Vec<u32>| k@);
        let mut j: usize = 0;
        while j < keys.len() && key_lt(&keys[j], &key)
            invariant
                j <= keys@.len(),
                key@ == key_of(r@[i as int]),
                kseq == keys@.map_values(|k: Vec<u32>| k@),
                forall|m: int| 0 <= m < j ==> lex_lt(kseq[m], key@),
            decreases keys@.len() - j,
        {
            j = j + 1;
        }
        let present: bool = if j < keys.len() {
            key_eq(&keys[j], &key)
        } else {
            false
        };
        proof {
            lemma_prefix_step(r@, i as int);
        }
        if present {
            proof {
                assert(kseq[j as int] == key@);
                assert(kseq.to_set().contains(key@));
                assert(kseq.to_set().insert(key@) =~= kseq.to_set());
            }
        } else {
            proof {
                if j < keys@.len() {
                    lemma_lex_total(kseq[j as int], key@);
                }
            }
            let ghost old_keys = keys@;
            let ghost keyv = key@;
            keys.insert(j, key);
            proof {
                let kv = key_of(r@[i as int]);
                assert(keyv == kv);
                assert(keys@[j as int]@ == kv);
                assert(forall|m: int| 0 <= m < j ==> keys@[m] == old_keys[m]);
                assert(forall|m: int| j < m < keys@.len() ==> keys@[m] == old_keys[m - 1]);
                let nseq = keys@.map_values(|k: Vec<u32>| k@);
                kseq.insert_ensures(j as int, kv);
                assert(nseq =~= kseq.insert(j as int, kv));
                assert forall|p: int, q: int| 0 <= p < q < nseq.len() implies lex_lt(
                    nseq[p],
                    nseq[q],
                ) by {
                    if q < j {
                    } else if p == j as int {
                        assert(nseq[q] == kseq[q - 1]);
                        if j < q - 1 {
                            lemma_lex_transitive(kv, kseq[j as int], kseq[q - 1]);
                        }
                    } else if q == j as int {
                        assert(nseq[p] == kseq[p]);
                    } else if p < j {
                        assert(nseq[p] == kseq[p]);
                        assert(nseq[q] == kseq[q - 1]);
                        assert(lex_lt(kseq[p], kseq[q - 1]));
                    } else {
                        assert(nseq[p] == kseq[p - 1]);
                        assert(nseq[q] == kseq[q - 1]);
                    }
                }
                assert(strictly_sorted(nseq));
                lemma_insert_to_set(kseq, j as int, kv);
                assert(r@[i as int].0@.len() == r@[0].0@.len());
            }
        }
        i = i + 1;
    }
    proof {
        assert(r@.subrange(0, r@.len() as int) =~= r@);
        let kseq = keys@.map_values(|k: Vec<u32>| k@);
        assert(kseq.no_duplicates()) by {
            assert forall|p: int, q: int|
                0 <= p < kseq.len() && 0 <= q < kseq.len() && p != q implies kseq[p] != kseq[q] by {
                if p < q {
                    lemma_lex_irreflexive(kseq[p]);
                } else {
                    lemma_lex_irreflexive(kseq[q]);
                }
            }
        }
        kseq.unique_seq_to_set();
    }
    // Phase two: collect, sort and trim each group's durations.
    let ghost orig = keys@.map_values(|k: Vec<u32>| k@);
    let mut groups: Vec<(Vec<u32>, Vec<u128>)> = Vec::new();
    while keys.len() > 0
        invariant
            r@.len() > 0,
            groups@.len() + keys@.len() == orig.len(),
            forall|p: int| 0 <= p < orig.len() ==> (#[trigger] orig[p]).len() == r@[0].0@.len(),
            forall|p: int|
                0 <= p < keys@.len() ==> (#[trigger] keys@[p])@ == orig[groups@.len() + p],
            forall|p: int|
                0 <= p < groups@.len() ==> (#[trigger] groups@[p]).0@ == orig[p],
            forall|p: int|
                0 <= p < groups@.len() ==> (#[trigger] groups@[p]).1@ == trim_spec(
                    durs_of(r@, groups@[p].0@),
                ),
        decreases keys@.len(),
    {
        let ghost okeys = keys@;
        let key = keys.remove(0);
        proof {
            okeys.remove_ensures(0);
        }
        let mut durs: Vec<u128> = Vec::new();
        let mut t: usize = 0;
        while t < r.len()
            invariant
                t <= r@.len(),
                groups@.len() < orig.len(),
                key@ == orig[groups@.len() as int],
                durs@ == durs_of(r@.subrange(0, t as int), key@),
            decreases r@.len() - t,
        {
            let cand = extract_key(r, t);
            proof {
                lemma_prefix_step(r@, t as int);
            }
            if key_eq(&cand, &key) {
                durs.push(r[t].1);
            }
            t = t + 1;
        }
        proof {
            assert(r@.subrange(0, r@.len() as int) =~= r@);
        }
        let sorted = sort_durs_exec(&durs);
        let q = sorted.len() / 4;
        let mut trimmed: Vec<u128> = Vec::new();
        let mut idx: usize = q;
        while idx < sorted.len() - q
            invariant
                q == sorted@.len() / 4,
                q <= idx <= sorted@.len() - q,
                trimmed@ =~= sorted@.subrange(q as int, idx as int),
            decreases sorted.len() - q - idx,
        {
            trimmed.push(sorted[idx]);
            proof {
                assert(sorted@.subrange(q as int, idx as int).push(sorted@[idx as int])
                    =~= sorted@.subrange(q as int, idx + 1));
            }
            idx = idx + 1;
        }
        proof {
            assert(trimmed@ =~= trim_spec(durs_of(r@, key@)));
        }
        groups.push((key, trimmed));
    }
    // The parameter names, in the first sample's order.
    let first: &Vec<(String, u32)> = &r[0].0;
    let mut names: Vec<String> = Vec::new();
    let mut j: usize = 0;
    while j < first.len()
        invariant
            j <= first@.len(),
            first@ == r@[0].0@,
            names@.len() == j,
            forall|m: int| 0 <= m < j ==> (#[trigger] names@[m])@ == first@[m].0@,
        decreases first@.len() - j,
    {
        names.push(first[j].0.clone());
        j = j + 1;
    }
    proof {
        let g = gview(groups@);
        let kseq = orig;
        assert(g.len() == kseq.len());
        assert(g.map_values(|e: (Seq<u32>, Seq<u128>)| e.0) =~= orig);
        assert forall|p: int| 0 <= p < g.len() implies keys_of(r@).contains(#[trigger] g[p].0) by {
            assert(g[p].0 == kseq[p]);
            assert(kseq.to_set().contains(kseq[p]));
        }
        assert forall|k: Seq<u32>| keys_of(r@).contains(k) implies exists|i2: int|
            0 <= i2 < g.len() && #[trigger] g[i2].0 == k by {
            assert(kseq.to_set().contains(k));
            let i2 = choose|i2: int| 0 <= i2 < kseq.len() && kseq[i2] == k;
            assert(g[i2].0 == k);
        }
    }
    Some((groups, names))
}

} // verus!
