//! Character-sequence helpers: lexicographic order of identifiers and small
//! character-class predicates shared by id, rule and hash validation.

use vstd::prelude::*;

verus! {

/// `a` and `b` agree on their first `k` characters.
pub open spec fn common_prefix(a: Seq<char>, b: Seq<char>, k: int) -> bool {
    &&& 0 <= k <= a.len()
    &&& k <= b.len()
    &&& forall|j: int| 0 <= j < k ==> a[j] == b[j]
}

/// Strict lexicographic order by Unicode scalar value: the order of `str`'s `Ord`.
pub open spec fn seq_lt(a: Seq<char>, b: Seq<char>) -> bool {
    exists|k: int|
        #![trigger common_prefix(a, b, k)]
        common_prefix(a, b, k) && ((k == a.len() && k < b.len()) || (k < a.len() && k < b.len()
            && (a[k] as int) < (b[k] as int)))
}

/// Non-strict lexicographic order.
pub open spec fn seq_le(a: Seq<char>, b: Seq<char>) -> bool {
    seq_lt(a, b) || a == b
}

proof fn lemma_first_difference_from(a: Seq<char>, b: Seq<char>, k: int) -> (k2: int)
    requires
        common_prefix(a, b, k),
    ensures
        common_prefix(a, b, k2),
        k2 == a.len() || k2 == b.len() || a[k2] != b[k2],
    decreases a.len() - k,
{
    if k == a.len() || k == b.len() || a[k] != b[k] {
        k
    } else {
        assert(common_prefix(a, b, k + 1));
        lemma_first_difference_from(a, b, k + 1)
    }
}

/// The first point at which `a` and `b` differ (or the shorter length).
pub proof fn lemma_first_difference(a: Seq<char>, b: Seq<char>) -> (k: int)
    ensures
        common_prefix(a, b, k),
        k == a.len() || k == b.len() || a[k] != b[k],
{
    assert(common_prefix(a, b, 0));
    lemma_first_difference_from(a, b, 0)
}

/// Characterizes `seq_lt` through the first point of difference.
pub proof fn lemma_seq_lt_by_difference(a: Seq<char>, b: Seq<char>, k: int)
    requires
        common_prefix(a, b, k),
        k == a.len() || k == b.len() || a[k] != b[k],
    ensures
        seq_lt(a, b) <==> ((k == a.len() && k < b.len()) || (k < a.len() && k < b.len() && (
        a[k] as int) < (b[k] as int))),
        a == b <==> (k == a.len() && k == b.len()),
{
    if seq_lt(a, b) {
        let k2 = choose|k2: int|
            #![trigger common_prefix(a, b, k2)]
            common_prefix(a, b, k2) && ((k2 == a.len() && k2 < b.len()) || (k2 < a.len() && k2
                < b.len() && (a[k2] as int) < (b[k2] as int)));
        if k2 < k {
            assert(a[k2] == b[k2]);
        } else if k2 > k {
            assert(a[k] == b[k]);
        }
    }
    if (k == a.len() && k < b.len()) || (k < a.len() && k < b.len() && (a[k] as int) < (
    b[k] as int)) {
        assert(common_prefix(a, b, k));
    }
    if k == a.len() && k == b.len() {
        assert(a =~= b);
    }
}

/// Exactly one of `a < b`, `a == b`, `b < a` holds.
pub proof fn lemma_seq_lt_trichotomy(a: Seq<char>, b: Seq<char>)
    ensures
        seq_lt(a, b) || a == b || seq_lt(b, a),
        !(seq_lt(a, b) && seq_lt(b, a)),
        !(seq_lt(a, b) && a == b),
{
    let k = lemma_first_difference(a, b);
    lemma_seq_lt_by_difference(a, b, k);
    assert(common_prefix(b, a, k));
    lemma_seq_lt_by_difference(b, a, k);
    if k < a.len() && k < b.len() {
        assert((a[k] as int) != (b[k] as int)) by {
            if (a[k] as int) == (b[k] as int) {
                assert(a[k] == b[k]);
            }
        }
    }
}

/// Lexicographic order is transitive.
pub proof fn lemma_seq_lt_transitive(a: Seq<char>, b: Seq<char>, c: Seq<char>)
    requires
        seq_lt(a, b),
        seq_lt(b, c),
    ensures
        seq_lt(a, c),
{
    let k1 = lemma_first_difference(a, b);
    lemma_seq_lt_by_difference(a, b, k1);
    let k2 = lemma_first_difference(b, c);
    lemma_seq_lt_by_difference(b, c, k2);
    let k = if k1 < k2 { k1 } else { k2 };
    assert(common_prefix(a, c, k));
    if k1 < k2 {
        assert(b[k1] == c[k1]);
    } else if k2 < k1 {
        assert(a[k2] == b[k2]);
    }
    assert((k == a.len() && k < c.len()) || (k < a.len() && k < c.len() && (a[k] as int) < (
    c[k] as int)));
}

/// Whether `a` is lexicographically smaller than `b`.
pub fn str_less(a: &str, b: &str) -> (r: bool)
    ensures
        r == seq_lt(a@, b@),
{
    let la = a.unicode_len();
    let lb = b.unicode_len();
    let mut i: usize = 0;
    while i < la && i < lb
        invariant
            la == a@.len(),
            lb == b@.len(),
            i <= la,
            i <= lb,
            forall|j: int| 0 <= j < i ==> a@[j] == b@[j],
        decreases la - i,
    {
        let ca = a.get_char(i);
        let cb = b.get_char(i);
        if ca != cb {
            proof {
                lemma_seq_lt_by_difference(a@, b@, i as int);
            }
            return (ca as u32) < (cb as u32);
        }
        i = i + 1;
    }
    proof {
        lemma_seq_lt_by_difference(a@, b@, i as int);
    }
    i == la && i < lb
}

/// Whether two strings hold the same characters.
pub fn str_eq(a: &str, b: &str) -> (r: bool)
    ensures
        r == (a@ == b@),
{
    let la = a.unicode_len();
    let lb = b.unicode_len();
    if la != lb {
        return false;
    }
    let mut i: usize = 0;
    while i < la
        invariant
            la == a@.len(),
            lb == b@.len(),
            la == lb,
            i <= la,
            forall|j: int| 0 <= j < i ==> a@[j] == b@[j],
        decreases la - i,
    {
        if a.get_char(i) != b.get_char(i) {
            return false;
        }
        i = i + 1;
    }
    assert(a@ =~= b@);
    true
}

/// Whether every character of `s` is a lowercase ASCII letter or digit, or (after
/// the first position) one of `extra`.
pub open spec fn is_lower_alnum(c: char) -> bool {
    ('a' <= c && c <= 'z') || ('0' <= c && c <= '9')
}

/// Whether `c` is a lowercase hexadecimal digit.
pub open spec fn is_lower_hex(c: char) -> bool {
    ('a' <= c && c <= 'f') || ('0' <= c && c <= '9')
}

/// Whether `c` is Unicode whitespace, as `char::is_whitespace` defines it.
pub open spec fn is_white(c: char) -> bool {
    (c as u32 >= 9 && c as u32 <= 13) || c as u32 == 32 || c as u32 == 0x85 || c as u32 == 0xA0
        || c as u32 == 0x1680 || (c as u32 >= 0x2000 && c as u32 <= 0x200A) || c as u32 == 0x2028
        || c as u32 == 0x2029 || c as u32 == 0x202F || c as u32 == 0x205F || c as u32 == 0x3000
}

pub fn char_is_white(c: char) -> (r: bool)
    ensures
        r == is_white(c),
{
    let v = c as u32;
    (v >= 9 && v <= 13) || v == 32 || v == 0x85 || v == 0xA0 || v == 0x1680 || (v >= 0x2000 && v
        <= 0x200A) || v == 0x2028 || v == 0x2029 || v == 0x202F || v == 0x205F || v == 0x3000
}

/// Whether `s` is empty once surrounding whitespace is trimmed (`s.trim().is_empty()`).
pub open spec fn is_blank(s: Seq<char>) -> bool {
    forall|i: int| 0 <= i < s.len() ==> is_white(#[trigger] s[i])
}

pub fn str_is_blank(s: &str) -> (r: bool)
    ensures
        r == is_blank(s@),
{
    let n = s.unicode_len();
    let mut i: usize = 0;
    while i < n
        invariant
            n == s@.len(),
            i <= n,
            forall|j: int| 0 <= j < i ==> is_white(#[trigger] s@[j]),
        decreases n - i,
    {
        if !char_is_white(s.get_char(i)) {
            return false;
        }
        i = i + 1;
    }
    true
}

} // verus!
