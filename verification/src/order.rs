//! A total order on node identifiers, used to keep the membership of the
//! placement in one canonical sequence on every node.
//!
//! Identifiers are compared by the lexicographic order of their UTF-8 byte
//! encodings. The lemmas here establish that this order is a strict total
//! order and that a strictly sorted, duplicate-free sequence of identifiers
//! is uniquely determined by the set of its elements: the fact that makes
//! the placement a pure function of the membership set.

use vstd::prelude::*;
use vstd::utf8::{encode_utf8, encode_utf8_decode_utf8};

verus! {

/// Strict lexicographic order on byte sequences.
pub open spec fn bytes_lt(a: Seq<u8>, b: Seq<u8>) -> bool
    decreases a.len(),
{
    if b.len() == 0 {
        false
    } else if a.len() == 0 {
        true
    } else if a[0] != b[0] {
        a[0] < b[0]
    } else {
        bytes_lt(a.drop_first(), b.drop_first())
    }
}

/// Strict order on identifiers: lexicographic order of their UTF-8 bytes.
pub open spec fn id_lt(a: Seq<char>, b: Seq<char>) -> bool {
    bytes_lt(encode_utf8(a), encode_utf8(b))
}

proof fn lemma_eq_from_head_tail<A>(a: Seq<A>, b: Seq<A>)
    requires
        a.len() > 0,
        b.len() > 0,
        a[0] == b[0],
        a.drop_first() == b.drop_first(),
    ensures
        a == b,
{
    assert(a =~= b) by {
        assert(a.drop_first().len() == a.len() - 1);
        assert(b.drop_first().len() == b.len() - 1);
        assert(a.len() == b.len());
        assert forall|k: int| 0 <= k < a.len() implies a[k] == b[k] by {
            if k > 0 {
                assert(a.drop_first()[k - 1] == b.drop_first()[k - 1]);
                assert(a[k] == a.drop_first()[k - 1]);
                assert(b[k] == b.drop_first()[k - 1]);
            }
        }
    }
}

pub proof fn lemma_bytes_lt_trichotomy(a: Seq<u8>, b: Seq<u8>)
    ensures
        (a == b) <==> (!bytes_lt(a, b) && !bytes_lt(b, a)),
        !(bytes_lt(a, b) && bytes_lt(b, a)),
    decreases a.len(),
{
    if a.len() == 0 && b.len() == 0 {
        assert(a =~= b);
    } else if a.len() == 0 || b.len() == 0 {
        assert(a != b);
    } else if a[0] == b[0] {
        lemma_bytes_lt_trichotomy(a.drop_first(), b.drop_first());
        if a.drop_first() == b.drop_first() {
            lemma_eq_from_head_tail(a, b);
        }
        if a == b {
            assert(a.drop_first() =~= b.drop_first());
        }
    } else {
        assert(a != b);
    }
}

pub proof fn lemma_bytes_lt_transitive(a: Seq<u8>, b: Seq<u8>, c: Seq<u8>)
    requires
        bytes_lt(a, b),
        bytes_lt(b, c),
    ensures
        bytes_lt(a, c),
    decreases a.len(),
{
    if a.len() == 0 {
    } else {
        if a[0] == b[0] && b[0] == c[0] {
            lemma_bytes_lt_transitive(a.drop_first(), b.drop_first(), c.drop_first());
        }
    }
}

/// Identifiers with equal UTF-8 encodings are equal.
pub proof fn lemma_encode_injective(a: Seq<char>, b: Seq<char>)
    requires
        encode_utf8(a) == encode_utf8(b),
    ensures
        a == b,
{
    encode_utf8_decode_utf8(a);
    encode_utf8_decode_utf8(b);
}

pub proof fn lemma_id_lt_trichotomy(a: Seq<char>, b: Seq<char>)
    ensures
        (a == b) <==> (!id_lt(a, b) && !id_lt(b, a)),
        !(id_lt(a, b) && id_lt(b, a)),
{
    lemma_bytes_lt_trichotomy(encode_utf8(a), encode_utf8(b));
    if !id_lt(a, b) && !id_lt(b, a) {
        lemma_encode_injective(a, b);
    }
}

pub proof fn lemma_id_lt_transitive(a: Seq<char>, b: Seq<char>, c: Seq<char>)
    requires
        id_lt(a, b),
        id_lt(b, c),
    ensures
        id_lt(a, c),
{
    lemma_bytes_lt_transitive(encode_utf8(a), encode_utf8(b), encode_utf8(c));
}

/// The views of a sequence of identifier strings.
pub open spec fn id_views(v: Seq<String>) -> Seq<Seq<char>> {
    Seq::new(v.len(), |i: int| v[i]@)
}

/// A sequence of identifiers in strictly increasing order (hence duplicate-free).
pub open spec fn strictly_sorted(s: Seq<Seq<char>>) -> bool {
    forall|i: int, j: int| 0 <= i < j < s.len() ==> id_lt(s[i], s[j])
}

proof fn lemma_bytes_lt_skip(a: Seq<u8>, b: Seq<u8>, i: int)
    requires
        0 <= i <= a.len(),
        i <= b.len(),
        forall|j: int| 0 <= j < i ==> a[j] == b[j],
    ensures
        bytes_lt(a, b) == bytes_lt(a.skip(i), b.skip(i)),
    decreases i,
{
    if i > 0 {
        assert(a.drop_first() =~= a.skip(1));
        assert(b.drop_first() =~= b.skip(1));
        lemma_bytes_lt_skip(a.skip(1), b.skip(1), i - 1);
        assert(a.skip(1).skip(i - 1) =~= a.skip(i));
        assert(b.skip(1).skip(i - 1) =~= b.skip(i));
    } else {
        assert(a.skip(0) =~= a);
        assert(b.skip(0) =~= b);
    }
}

/// Lexicographic comparison of two byte slices.
pub fn bytes_lt_exec(a: &[u8], b: &[u8]) -> (r: bool)
    ensures
        r == bytes_lt(a@, b@),
{
    let alen = a.len();
    let blen = b.len();
    let mut i: usize = 0;
    while i < alen && i < blen
        invariant
            i <= alen,
            i <= blen,
            alen == a@.len(),
            blen == b@.len(),
            forall|j: int| 0 <= j < i ==> a@[j] == b@[j],
        decreases alen - i,
    {
        let x = a[i];
        let y = b[i];
        if x != y {
            proof {
                lemma_bytes_lt_skip(a@, b@, i as int);
                assert(a@.skip(i as int)[0] == a@[i as int]);
                assert(b@.skip(i as int)[0] == b@[i as int]);
            }
            return x < y;
        }
        i += 1;
    }
    proof {
        lemma_bytes_lt_skip(a@, b@, i as int);
    }
    alen < blen
}

/// Comparison of two identifiers in the canonical membership order.
pub fn id_lt_exec(a: &String, b: &String) -> (r: bool)
    ensures
        r == id_lt(a@, b@),
{
    bytes_lt_exec(a.as_str().as_bytes(), b.as_str().as_bytes())
}

/// Pushing an element extends a sequence's element set by that element.
pub proof fn lemma_push_to_set<A>(s: Seq<A>, x: A)
    ensures
        s.push(x).to_set() == s.to_set().insert(x),
{
    assert(s.push(x).to_set() =~= s.to_set().insert(x)) by {
        assert forall|v: A| s.push(x).to_set().contains(v) implies s.to_set().insert(x).contains(
            v,
        ) by {
            let p = choose|p: int| 0 <= p < s.push(x).len() && s.push(x)[p] == v;
            if p < s.len() {
                assert(s[p] == v);
                assert(s.contains(v));
            }
        }
        assert forall|v: A| s.to_set().insert(x).contains(v) implies s.push(x).to_set().contains(
            v,
        ) by {
            if v == x {
                assert(s.push(x)[s.len() as int] == v);
            } else {
                let p = choose|p: int| 0 <= p < s.len() && s[p] == v;
                assert(s.push(x)[p] == v);
            }
            assert(s.push(x).contains(v));
        }
    }
}

/// A strictly sorted sequence of identifiers is determined by its set of
/// elements: the canonical form of a membership.
pub proof fn lemma_sorted_unique(s1: Seq<Seq<char>>, s2: Seq<Seq<char>>)
    requires
        strictly_sorted(s1),
        strictly_sorted(s2),
        s1.to_set() == s2.to_set(),
    ensures
        s1 == s2,
    decreases s1.len(),
{
    if s1.len() == 0 {
        if s2.len() > 0 {
            assert(s2.to_set().contains(s2[0]));
            assert(s1.contains(s2[0]));
        }
        assert(s1 =~= s2);
    } else {
        assert(s1.to_set().contains(s1[0]));
        assert(s2.contains(s1[0]));
        if s2.len() == 0 {
            assert(s2.to_set().contains(s1[0]));
        }
        assert(s2.to_set().contains(s2[0]));
        assert(s1.contains(s2[0]));
        // The heads are equal: otherwise each would be strictly below the other.
        if s1[0] != s2[0] {
            let j = choose|j: int| 0 <= j < s2.len() && s2[j] == s1[0];
            if j > 0 {
                assert(id_lt(s2[0], s1[0]));
            }
            let i = choose|i: int| 0 <= i < s1.len() && s1[i] == s2[0];
            if i > 0 {
                assert(id_lt(s1[0], s2[0]));
            }
            lemma_id_lt_trichotomy(s1[0], s2[0]);
            assert(false);
        }
        // The head does not recur in either tail.
        assert forall|k: int| 1 <= k < s1.len() implies #[trigger] s1[k] != s1[0] by {
            if s1[k] == s1[0] {
                lemma_id_lt_trichotomy(s1[0], s1[k]);
            }
        }
        assert forall|k: int| 1 <= k < s2.len() implies #[trigger] s2[k] != s2[0] by {
            if s2[k] == s2[0] {
                lemma_id_lt_trichotomy(s2[0], s2[k]);
            }
        }
        let t1 = s1.drop_first();
        let t2 = s2.drop_first();
        assert(t1.to_set() =~= t2.to_set()) by {
            assert forall|v: Seq<char>| t1.to_set().contains(v) implies t2.to_set().contains(
                v,
            ) by {
                lemma_tail_set_member(s1, s2, v);
            }
            assert forall|v: Seq<char>| t2.to_set().contains(v) implies t1.to_set().contains(
                v,
            ) by {
                lemma_tail_set_member(s2, s1, v);
            }
        }
        lemma_sorted_unique(t1, t2);
        lemma_eq_from_head_tail(s1, s2);
    }
}

/// If the two sequences share their element set and head, an element of the
/// first tail is an element of the second tail.
proof fn lemma_tail_set_member(s1: Seq<Seq<char>>, s2: Seq<Seq<char>>, v: Seq<char>)
    requires
        s1.len() > 0,
        s2.len() > 0,
        s1[0] == s2[0],
        s1.to_set() == s2.to_set(),
        forall|k: int| 1 <= k < s1.len() ==> #[trigger] s1[k] != s1[0],
        forall|k: int| 1 <= k < s2.len() ==> #[trigger] s2[k] != s2[0],
        s1.drop_first().to_set().contains(v),
    ensures
        s2.drop_first().to_set().contains(v),
{
    let t1 = s1.drop_first();
    let t2 = s2.drop_first();
    assert(t1.contains(v));
    let k = choose|k: int| 0 <= k < t1.len() && t1[k] == v;
    assert(s1[k + 1] == v);
    assert(v != s1[0]);
    assert(s1.contains(v));
    assert(s1.to_set().contains(v));
    assert(s2.contains(v));
    let m = choose|m: int| 0 <= m < s2.len() && s2[m] == v;
    assert(m != 0);
    assert(t2[m - 1] == v);
    assert(t2.contains(v));
}

} // verus!
