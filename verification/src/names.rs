use crate::bytes::{bytes_equal, bytes_less, lemma_lex_order, lex_lt};
use vstd::prelude::*;
use vstd::utf8::encode_utf8;

verus! {

/// Names order as `str` does: by their UTF-8 bytes.
pub open spec fn name_lt(a: Seq<char>, b: Seq<char>) -> bool {
    lex_lt(encode_utf8(a), encode_utf8(b))
}

/// Strictly increasing names (so none occurs twice).
pub open spec fn names_sorted(ns: Seq<Seq<char>>) -> bool {
    forall|i: int, j: int| 0 <= i < j < ns.len() ==> name_lt(#[trigger] ns[i], #[trigger] ns[j])
}

pub open spec fn name_models(ns: Seq<String>) -> Seq<Seq<char>> {
    ns.map_values(|s: String| s@)
}

/// `name_lt` is a strict total order on names.
pub proof fn lemma_name_order(a: Seq<char>, b: Seq<char>, c: Seq<char>)
    ensures
        !name_lt(a, a),
        name_lt(a, b) ==> !name_lt(b, a),
        a != b ==> name_lt(a, b) || name_lt(b, a),
        name_lt(a, b) && name_lt(b, c) ==> name_lt(a, c),
{
    lemma_lex_order(encode_utf8(a), encode_utf8(b), encode_utf8(c));
    vstd::utf8::encode_utf8_decode_utf8(a);
    vstd::utf8::encode_utf8_decode_utf8(b);
}

/// Whether two names are the same text.
pub fn same_name(a: &str, b: &str) -> (r: bool)
    ensures
        r == (a@ == b@),
{
    proof {
        vstd::utf8::encode_utf8_decode_utf8(a@);
        vstd::utf8::encode_utf8_decode_utf8(b@);
    }
    bytes_equal(a.as_bytes(), b.as_bytes())
}

/// Where `name` stands among sorted `names`: `Ok(i)` when it is `names[i]`,
/// else `Err(i)` for the place where it would be inserted.
pub fn locate(names: &[String], name: &str) -> (r: Result<usize, usize>)
    requires
        names_sorted(name_models(names@)),
    ensures
        r matches Ok(i) ==> i < names@.len() && names@[i as int]@ == name@,
        r matches Err(i) ==> i <= names@.len() && (forall|j: int|
            0 <= j < i ==> name_lt(#[trigger] names@[j]@, name@)) && (forall|j: int|
            i <= j < names@.len() ==> name_lt(name@, #[trigger] names@[j]@)),
        r is Err ==> forall|j: int| 0 <= j < names@.len() ==> (#[trigger] names@[j])@ != name@,
{
    let target = name.as_bytes();
    let mut i: usize = 0;
    while i < names.len()
        invariant
            i <= names@.len(),
            target@ == encode_utf8(name@),
            names_sorted(name_models(names@)),
            forall|j: int| 0 <= j < i ==> name_lt(#[trigger] names@[j]@, name@),
        decreases names@.len() - i,
    {
        let here = names[i].as_str().as_bytes();
        proof {
            assert(name_models(names@)[i as int] == names@[i as int]@);
            vstd::utf8::encode_utf8_decode_utf8(names@[i as int]@);
            vstd::utf8::encode_utf8_decode_utf8(name@);
        }
        if bytes_equal(here, target) {
            return Ok(i);
        }
        if !bytes_less(here, target) {
            proof {
                lemma_name_order(names@[i as int]@, name@, name@);
                assert forall|j: int| i <= j < names@.len() implies name_lt(name@, #[trigger] names@[j]@) by {
                    if j > i {
                        assert(name_models(names@)[j] == names@[j]@);
                        assert(name_lt(names@[i as int]@, names@[j]@));
                        lemma_name_order(name@, names@[i as int]@, names@[j]@);
                    }
                }
                assert forall|j: int| 0 <= j < names@.len() implies (#[trigger] names@[j])@ != name@ by {
                    if j < i {
                        lemma_name_order(names@[j]@, name@, name@);
                    } else {
                        lemma_name_order(name@, names@[j]@, name@);
                    }
                }
            }
            return Err(i);
        }
        i = i + 1;
    }
    proof {
        assert forall|j: int| 0 <= j < names@.len() implies (#[trigger] names@[j])@ != name@ by {
            lemma_name_order(names@[j]@, name@, name@);
        }
    }
    Err(i)
}

/// Inserting a name at the place `locate` gives keeps the names sorted.
pub proof fn lemma_insert_sorted(ns: Seq<Seq<char>>, pos: int, n: Seq<char>)
    requires
        names_sorted(ns),
        0 <= pos <= ns.len(),
        forall|j: int| 0 <= j < pos ==> name_lt(#[trigger] ns[j], n),
        forall|j: int| pos <= j < ns.len() ==> name_lt(n, #[trigger] ns[j]),
    ensures
        names_sorted(ns.insert(pos, n)),
{
    let m = ns.insert(pos, n);
    assert forall|i: int, j: int| 0 <= i < j < m.len() implies name_lt(#[trigger] m[i], #[trigger] m[j]) by {
        if j < pos {
        } else if i > pos {
            assert(m[i] == ns[i - 1] && m[j] == ns[j - 1]);
        } else if i == pos {
            assert(m[j] == ns[j - 1]);
        } else if j == pos {
        } else {
            assert(m[j] == ns[j - 1]);
            assert(name_lt(ns[i], ns[j - 1]));
        }
    }
}

/// Removing a name keeps the others sorted.
pub proof fn lemma_remove_sorted(ns: Seq<Seq<char>>, pos: int)
    requires
        names_sorted(ns),
        0 <= pos < ns.len(),
    ensures
        names_sorted(ns.remove(pos)),
{
    let m = ns.remove(pos);
    assert forall|i: int, j: int| 0 <= i < j < m.len() implies name_lt(#[trigger] m[i], #[trigger] m[j]) by {
        if i >= pos {
            assert(m[i] == ns[i + 1] && m[j] == ns[j + 1]);
        } else if j >= pos {
            assert(m[j] == ns[j + 1]);
        }
    }
}

} // verus!
