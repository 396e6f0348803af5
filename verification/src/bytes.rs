use vstd::prelude::*;

verus! {

/// Lexicographic order on byte strings (the order of `<` on `[u8]` and on
/// `str`, whose order is that of its UTF-8 bytes).
pub open spec fn lex_lt(a: Seq<u8>, b: Seq<u8>) -> bool {
    exists|i: int|
        #![trigger a.subrange(0, i)]
        0 <= i <= a.len() && i <= b.len() && a.subrange(0, i) == b.subrange(0, i) && (
        (i == a.len() && i < b.len()) || (i < a.len() && i < b.len() && a[i] < b[i]))
}

/// Whether two byte strings are equal.
pub fn bytes_equal(a: &[u8], b: &[u8]) -> (r: bool)
    ensures
        r == (a@ == b@),
{
    if a.len() != b.len() {
        return false;
    }
    let mut i: usize = 0;
    while i < a.len()
        invariant
            a@.len() == b@.len(),
            i <= a@.len(),
            forall|j: int| 0 <= j < i ==> a@[j] == b@[j],
        decreases a@.len() - i,
    {
        if a[i] != b[i] {
            return false;
        }
        i = i + 1;
    }
    assert(a@ =~= b@);
    true
}

/// Lexicographic comparison: whether `a` sorts strictly before `b`.
pub fn bytes_less(a: &[u8], b: &[u8]) -> (r: bool)
    ensures
        r == lex_lt(a@, b@),
{
    let mut i: usize = 0;
    while i < a.len() && i < b.len()
        invariant
            i <= a@.len(),
            i <= b@.len(),
            forall|j: int| 0 <= j < i ==> a@[j] == b@[j],
        decreases a@.len() - i,
    {
        if a[i] != b[i] {
            let r = a[i] < b[i];
            proof {
                assert(a@.subrange(0, i as int) =~= b@.subrange(0, i as int));
                if !r {
                    assert forall|k: int|
                        0 <= k <= a@.len() && k <= b@.len() && a@.subrange(0, k) == b@.subrange(
                            0,
                            k,
                        ) implies !((k == a@.len() && k < b@.len()) || (k < a@.len() && k
                        < b@.len() && a@[k] < b@[k])) by {
                        if k > i {
                            assert(a@.subrange(0, k)[i as int] == b@.subrange(0, k)[i as int]);
                        }
                    }
                }
            }
            return r;
        }
        i = i + 1;
    }
    let r = i == a.len() && i < b.len();
    proof {
        assert(a@.subrange(0, i as int) =~= b@.subrange(0, i as int));
        if !r {
            assert forall|k: int|
                0 <= k <= a@.len() && k <= b@.len() && a@.subrange(0, k) == b@.subrange(
                    0,
                    k,
                ) implies !((k == a@.len() && k < b@.len()) || (k < a@.len() && k < b@.len()
                && a@[k] < b@[k])) by {
                if k < i {
                    assert(a@[k] == b@[k]);
                }
            }
        }
    }
    r
}


/// The length of the longest common prefix of `a` and `b`.
pub open spec fn common_prefix(a: Seq<u8>, b: Seq<u8>) -> int
    decreases a.len(),
{
    if a.len() == 0 || b.len() == 0 || a[0] != b[0] {
        0
    } else {
        1 + common_prefix(a.drop_first(), b.drop_first())
    }
}

pub proof fn lemma_common_prefix(a: Seq<u8>, b: Seq<u8>)
    ensures
        ({
            let p = common_prefix(a, b);
            &&& 0 <= p <= a.len()
            &&& p <= b.len()
            &&& a.subrange(0, p) == b.subrange(0, p)
            &&& (p < a.len() && p < b.len()) ==> a[p] != b[p]
        }),
    decreases a.len(),
{
    if a.len() == 0 || b.len() == 0 || a[0] != b[0] {
        assert(a.subrange(0, 0) =~= b.subrange(0, 0));
    } else {
        lemma_common_prefix(a.drop_first(), b.drop_first());
        let p = common_prefix(a, b);
        let q = common_prefix(a.drop_first(), b.drop_first());
        assert(p == q + 1);
        assert forall|i: int| 0 <= i < p implies a.subrange(0, p)[i] == b.subrange(0, p)[i] by {
            if i > 0 {
                assert(a.drop_first().subrange(0, q)[i - 1] == b.drop_first().subrange(0, q)[i - 1]);
            }
        }
        assert(a.subrange(0, p) =~= b.subrange(0, p));
    }
}

/// `lex_lt` through the first place where the strings differ.
pub proof fn lemma_lex_lt_prefix(a: Seq<u8>, b: Seq<u8>)
    ensures
        ({
            let p = common_prefix(a, b);
            lex_lt(a, b) <==> ((p == a.len() && p < b.len()) || (p < a.len() && p < b.len() && a[p] < b[p]))
        }),
{
    lemma_common_prefix(a, b);
    let p = common_prefix(a, b);
    if lex_lt(a, b) {
        let i = choose|i: int|
            #![trigger a.subrange(0, i)]
            0 <= i <= a.len() && i <= b.len() && a.subrange(0, i) == b.subrange(0, i) && (
            (i == a.len() && i < b.len()) || (i < a.len() && i < b.len() && a[i] < b[i]));
        if i < p {
            assert(a.subrange(0, p)[i] == b.subrange(0, p)[i]);
        } else if i > p {
            assert(a.subrange(0, i)[p] == b.subrange(0, i)[p]);
        }
    } else {
        if (p == a.len() && p < b.len()) || (p < a.len() && p < b.len() && a[p] < b[p]) {
            assert(a.subrange(0, p) == b.subrange(0, p));
        }
    }
}

/// `lex_lt` is a strict total order.
pub proof fn lemma_lex_order(a: Seq<u8>, b: Seq<u8>, c: Seq<u8>)
    ensures
        !lex_lt(a, a),
        lex_lt(a, b) ==> !lex_lt(b, a),
        a != b ==> lex_lt(a, b) || lex_lt(b, a),
        lex_lt(a, b) && lex_lt(b, c) ==> lex_lt(a, c),
{
    lemma_lex_lt_prefix(a, a);
    lemma_common_prefix(a, a);
    lemma_lex_lt_prefix(a, b);
    lemma_lex_lt_prefix(b, a);
    lemma_lex_lt_prefix(b, c);
    lemma_lex_lt_prefix(a, c);
    lemma_common_prefix(a, b);
    lemma_common_prefix(b, a);
    lemma_common_prefix(b, c);
    lemma_common_prefix(a, c);
    let pab = common_prefix(a, b);
    let pba = common_prefix(b, a);
    let pbc = common_prefix(b, c);
    let pac = common_prefix(a, c);
    assert(pab == pba) by {
        if pab < pba {
            assert(a.subrange(0, pba)[pab] == b.subrange(0, pba)[pab]);
        } else if pba < pab {
            assert(a.subrange(0, pab)[pba] == b.subrange(0, pab)[pba]);
        }
    }
    if a.len() == a.len() && common_prefix(a, a) < a.len() {
        assert(a.subrange(0, common_prefix(a, a)) == a.subrange(0, common_prefix(a, a)));
    }
    if a != b && pab == a.len() && pab == b.len() {
        assert(a =~= a.subrange(0, pab));
        assert(b =~= b.subrange(0, pab));
    }
    if lex_lt(a, b) && lex_lt(b, c) {
        let m = if pab < pbc { pab } else { pbc };
        assert forall|i: int| 0 <= i < m implies a[i] == c[i] by {
            assert(a.subrange(0, pab)[i] == b.subrange(0, pab)[i]);
            assert(b.subrange(0, pbc)[i] == c.subrange(0, pbc)[i]);
        }
        // at m, a is shorter than c or smaller than c
        let shorter = m == a.len() && m < c.len();
        let smaller = m < a.len() && m < c.len() && a[m] < c[m];
        if pab < pbc {
            assert(b.subrange(0, pbc)[m] == c.subrange(0, pbc)[m]);
            assert(shorter || smaller);
        } else if pbc < pab {
            assert(a.subrange(0, pab)[m] == b.subrange(0, pab)[m]);
            assert(shorter || smaller);
        } else {
            assert(shorter || smaller);
        }
        if pac < m {
            assert(a.subrange(0, pac) == c.subrange(0, pac));
            assert(a[pac] == c[pac]);
        }
        if pac > m {
            assert(a.subrange(0, pac)[m] == c.subrange(0, pac)[m]);
        }
        assert(pac == m);
    }
}

} // verus!
