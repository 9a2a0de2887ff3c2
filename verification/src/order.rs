//! Deterministic ordering of authored records by their element ids.

use vstd::prelude::*;

use crate::text::{lemma_seq_lt_transitive, lemma_seq_lt_trichotomy, seq_le, seq_lt, str_less};

verus! {

broadcast use vstd::seq_lib::group_to_multiset_ensures;

/// A record ordered by a string key (its element id).
pub trait Keyed {
    spec fn key(&self) -> Seq<char>;

    fn key_str(&self) -> (r: &str)
        ensures
            r@ == self.key(),
    ;
}

/// The keys of a list of records.
pub open spec fn keys_of<T: Keyed>(s: Seq<T>) -> Seq<Seq<char>> {
    s.map_values(|x: T| x.key())
}

/// Keys never decrease along the sequence.
pub open spec fn sorted_by_key<T: Keyed>(s: Seq<T>) -> bool {
    forall|a: int, b: int| 0 <= a < b < s.len() ==> seq_le(#[trigger] s[a].key(), #[trigger] s[b].key())
}

proof fn lemma_seq_le_transitive(a: Seq<char>, b: Seq<char>, c: Seq<char>)
    requires
        seq_le(a, b),
        seq_le(b, c),
    ensures
        seq_le(a, c),
{
    if seq_lt(a, b) && seq_lt(b, c) {
        lemma_seq_lt_transitive(a, b, c);
    }
}

/// Sorts by key (stable insertion sort): the result is ordered and holds the same records.
pub fn sort_by_key<T: Keyed>(v: &mut Vec<T>)
    ensures
        sorted_by_key(final(v)@),
        final(v)@.to_multiset() == old(v)@.to_multiset(),
        final(v)@.len() == old(v)@.len(),
{
    let n = v.len();
    if n == 0 {
        return;
    }
    let mut i: usize = 1;
    while i < n
        invariant
            1 <= i <= n,
            v@.len() == n,
            v@.to_multiset() == old(v)@.to_multiset(),
            sorted_by_key(v@.subrange(0, i as int)),
        decreases n - i,
    {
        let ghost before = v@;
        let x = v.remove(i);
        let ghost rest = v@;
        proof {
            assert(rest == before.remove(i as int));
            assert forall|t: int| 0 <= t < i implies rest[t] == before[t] by {}
        }
        let mut j: usize = i;
        while j > 0 && str_less(x.key_str(), v[j - 1].key_str())
            invariant
                0 <= j <= i,
                i < n,
                v@ == rest,
                rest.len() == n - 1,
                forall|t: int| j <= t < i ==> seq_lt(x.key(), #[trigger] rest[t].key()),
            decreases j,
        {
            j = j - 1;
        }
        proof {
            let sorted_prefix = before.subrange(0, i as int);
            assert forall|a: int, b: int| 0 <= a < b < i implies seq_le(#[trigger] rest[a].key(), #[trigger] rest[b].key()) by {
                assert(rest[a] == sorted_prefix[a] && rest[b] == sorted_prefix[b]);
            }
            if j > 0 {
                lemma_seq_lt_trichotomy(x.key(), rest[j - 1].key());
                assert(seq_le(rest[j - 1].key(), x.key()));
                assert forall|t: int| 0 <= t < j implies seq_le(#[trigger] rest[t].key(), x.key()) by {
                    if t < j - 1 {
                        lemma_seq_le_transitive(rest[t].key(), rest[j - 1].key(), x.key());
                    }
                }
            }
        }
        v.insert(j, x);
        proof {
            let w = v@;
            assert(w == rest.insert(j as int, x));
            assert forall|a: int, b: int| 0 <= a < b < i + 1 implies seq_le(#[trigger] w.subrange(0, i + 1)[a].key(), #[trigger] w.subrange(0, i + 1)[b].key()) by {
                let wa = w[a];
                let wb = w[b];
                assert(w.subrange(0, i + 1)[a] == wa && w.subrange(0, i + 1)[b] == wb);
                if b < j {
                    assert(wa == rest[a] && wb == rest[b]);
                } else if b == j {
                    assert(wa == rest[a] && wb == x);
                } else if a == j {
                    assert(wa == x && wb == rest[b - 1]);
                } else if a < j {
                    assert(wa == rest[a] && wb == rest[b - 1]);
                    assert(seq_le(rest[a].key(), x.key()));
                    lemma_seq_le_transitive(rest[a].key(), x.key(), rest[b - 1].key());
                } else {
                    assert(wa == rest[a - 1] && wb == rest[b - 1]);
                }
            }
            assert(before.to_multiset() == rest.to_multiset().insert(x));
        }
        i = i + 1;
    }
    proof {
        assert(v@.subrange(0, n as int) =~= v@);
    }
}

/// The position of the first element satisfying `p`, or -1.
pub open spec fn first_index<T>(s: Seq<T>, p: spec_fn(T) -> bool) -> int
    decreases s.len(),
{
    if s.len() == 0 {
        -1
    } else if p(s[0]) {
        0
    } else {
        let r = first_index(s.drop_first(), p);
        if r < 0 {
            -1
        } else {
            r + 1
        }
    }
}

/// A scan that passes `i` elements failing `p` and stops at one satisfying it
/// (or at the end) has found `first_index`.
pub proof fn lemma_first_index<T>(s: Seq<T>, p: spec_fn(T) -> bool, i: int)
    requires
        0 <= i <= s.len(),
        forall|j: int| 0 <= j < i ==> !p(#[trigger] s[j]),
        i < s.len() ==> p(s[i]),
    ensures
        first_index(s, p) == if i < s.len() { i } else { -1 },
    decreases i,
{
    if i > 0 {
        assert(!p(s[0]));
        let t = s.drop_first();
        assert forall|j: int| 0 <= j < i - 1 implies !p(#[trigger] t[j]) by {
            assert(t[j] == s[j + 1]);
        }
        if i < s.len() {
            assert(t[i - 1] == s[i]);
        }
        lemma_first_index(t, p, i - 1);
    }
}

/// Filtering keeps only elements of the sequence that satisfy the predicate.
/// Two key-sorted arrangements of the same records, whose keys are distinct,
/// are the same sequence.
pub proof fn lemma_sorted_arrangement_unique<T: Keyed>(a: Seq<T>, b: Seq<T>)
    requires
        sorted_by_key(a),
        sorted_by_key(b),
        a.to_multiset() == b.to_multiset(),
        keys_of(a).no_duplicates(),
    ensures
        a == b,
    decreases a.len(),
{
    a.to_multiset_ensures();
    b.to_multiset_ensures();
    if a.len() == 0 {
        assert(b.len() == 0);
        assert(a =~= b);
    } else {
        let x = a[0];
        let y = b[0];
        assert(a.contains(x));
        assert(a.to_multiset().count(x) > 0);
        assert(b.contains(x));
        assert(b.to_multiset().count(y) > 0);
        assert(a.contains(y));
        let j = choose|j: int| 0 <= j < b.len() && b[j] == x;
        let i = choose|i: int| 0 <= i < a.len() && a[i] == y;
        if i != 0 && j != 0 {
            assert(seq_le(a[0].key(), a[i].key()));
            assert(seq_le(b[0].key(), b[j].key()));
            lemma_seq_lt_trichotomy(x.key(), y.key());
            assert(keys_of(a)[0] == keys_of(a)[i]);
        }
        assert(x == y);
        let a2 = a.drop_first();
        let b2 = b.drop_first();
        assert(a.remove(0) =~= a2);
        assert(b.remove(0) =~= b2);
        assert(a2.to_multiset() =~= a.to_multiset().remove(x));
        assert(b2.to_multiset() =~= b.to_multiset().remove(y));
        assert forall|p: int, q: int| 0 <= p < q < a2.len() implies seq_le(#[trigger] a2[p].key(), #[trigger] a2[q].key()) by {
            assert(a2[p] == a[p + 1] && a2[q] == a[q + 1]);
        }
        assert forall|p: int, q: int| 0 <= p < q < b2.len() implies seq_le(#[trigger] b2[p].key(), #[trigger] b2[q].key()) by {
            assert(b2[p] == b[p + 1] && b2[q] == b[q + 1]);
        }
        assert forall|p: int, q: int| 0 <= p < keys_of(a2).len() && 0 <= q < keys_of(a2).len() && p != q implies keys_of(a2)[p]
            != keys_of(a2)[q] by {
            assert(keys_of(a2)[p] == keys_of(a)[p + 1] && keys_of(a2)[q] == keys_of(a)[q + 1]);
        }
        lemma_sorted_arrangement_unique(a2, b2);
        assert(a =~= b) by {
            assert forall|k: int| 0 <= k < a.len() implies a[k] == b[k] by {
                if k > 0 {
                    assert(a[k] == a2[k - 1] && b[k] == b2[k - 1]);
                }
            }
        }
    }
}

pub proof fn lemma_filter_within<T>(s: Seq<T>, pred: spec_fn(T) -> bool)
    ensures
        forall|i: int| 0 <= i < s.filter(pred).len() ==> pred(#[trigger] s.filter(pred)[i]) && s.contains(s.filter(pred)[i]),
    decreases s.len(),
{
    reveal(Seq::filter);
    if s.len() > 0 {
        lemma_filter_within(s.drop_last(), pred);
        let sub = s.drop_last().filter(pred);
        let out = s.filter(pred);
        assert forall|i: int| 0 <= i < out.len() implies pred(#[trigger] out[i]) && s.contains(out[i]) by {
            if i < sub.len() {
                assert(out[i] == sub[i]);
                let k = choose|k: int| 0 <= k < s.drop_last().len() && s.drop_last()[k] == sub[i];
                assert(s[k] == sub[i]);
            } else {
                assert(out[i] == s.last());
                assert(s[s.len() - 1] == s.last());
            }
        }
    }
}

/// The position of the first record with key `k`, or -1.
pub open spec fn key_index<T: Keyed>(s: Seq<T>, k: Seq<char>) -> int {
    first_index(s, |x: T| x.key() == k)
}

/// The position of the first record with key `k`.
pub fn position_of<T: Keyed>(s: &Vec<T>, k: &str) -> (r: Option<usize>)
    ensures
        r matches Some(i) ==> key_index(s@, k@) == i as int && i < s@.len() && s@[i as int].key() == k@,
        r is None ==> key_index(s@, k@) == -1,
{
    let ghost p = |x: T| x.key() == k@;
    let mut i: usize = 0;
    while i < s.len()
        invariant
            i <= s.len(),
            p == (|x: T| x.key() == k@),
            forall|j: int| 0 <= j < i ==> !p(#[trigger] s@[j]),
        decreases s.len() - i,
    {
        if crate::text::str_eq(s[i].key_str(), k) {
            proof {
                lemma_first_index(s@, p, i as int);
            }
            return Some(i);
        }
        i = i + 1;
    }
    proof {
        lemma_first_index(s@, p, i as int);
    }
    None
}

} // verus!
