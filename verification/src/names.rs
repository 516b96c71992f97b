//! The order in which a directory keeps and lists its entry names.
//!
//! Names are ordered as Rust orders strings: lexicographically by the bytes of
//! their UTF-8 encoding.

use vstd::prelude::*;
use vstd::utf8::*;

verus! {

/// `a` and `b` agree on their first `n` bytes.
pub open spec fn common_prefix(a: Seq<u8>, b: Seq<u8>, n: int) -> bool {
    &&& 0 <= n <= a.len()
    &&& n <= b.len()
    &&& forall|j: int| 0 <= j < n ==> a[j] == b[j]
}

/// `a` sorts strictly before `b` at the first position `n` where they part:
/// either `a` ends there and `b` goes on, or `a` has the smaller byte.
pub open spec fn parts_before_at(a: Seq<u8>, b: Seq<u8>, n: int) -> bool {
    &&& common_prefix(a, b, n)
    &&& n < b.len()
    &&& n < a.len() ==> a[n] < b[n]
}

/// Strict lexicographic order on byte strings.
pub open spec fn bytes_lt(a: Seq<u8>, b: Seq<u8>) -> bool {
    exists|n: int| parts_before_at(a, b, n)
}

/// Strict order on names: the byte order of their UTF-8 encodings.
pub open spec fn name_lt(a: Seq<char>, b: Seq<char>) -> bool {
    bytes_lt(encode_utf8(a), encode_utf8(b))
}

/// How one name stands to another in the directory order.
#[derive(Clone, Copy, Debug, PartialEq, Eq, Structural)]
pub enum NameOrder {
    Before,
    Same,
    After,
}

pub proof fn lemma_bytes_lt_irreflexive(a: Seq<u8>)
    ensures
        !bytes_lt(a, a),
{
}

pub proof fn lemma_bytes_lt_asymmetric(a: Seq<u8>, b: Seq<u8>)
    requires
        bytes_lt(a, b),
    ensures
        !bytes_lt(b, a),
{
    let n = choose|n: int| parts_before_at(a, b, n);
    if bytes_lt(b, a) {
        let m = choose|m: int| parts_before_at(b, a, m);
        if n < m {
            assert(b[n] == a[n]);
        } else if m < n {
            assert(a[m] == b[m]);
        }
    }
}

pub proof fn lemma_bytes_lt_transitive(a: Seq<u8>, b: Seq<u8>, c: Seq<u8>)
    requires
        bytes_lt(a, b),
        bytes_lt(b, c),
    ensures
        bytes_lt(a, c),
{
    let n = choose|n: int| parts_before_at(a, b, n);
    let m = choose|m: int| parts_before_at(b, c, m);
    let k = if n <= m { n } else { m };
    assert forall|j: int| 0 <= j < k implies a[j] == c[j] by {
        assert(a[j] == b[j]);
        assert(b[j] == c[j]);
    }
    if n < m {
        assert(b[n] == c[n]);
    }
    if m < n {
        assert(a[m] == b[m]);
    }
    assert(parts_before_at(a, c, k));
}

/// Two names with the same encoding are the same name.
pub proof fn lemma_encoding_injective(a: Seq<char>, b: Seq<char>)
    requires
        encode_utf8(a) == encode_utf8(b),
    ensures
        a == b,
{
    encode_utf8_decode_utf8(a);
    encode_utf8_decode_utf8(b);
}

/// The order is strict: no name sorts before itself, and of two names at most
/// one sorts before the other.
pub proof fn lemma_name_lt_strict(a: Seq<char>, b: Seq<char>)
    ensures
        !name_lt(a, a),
        name_lt(a, b) ==> !name_lt(b, a),
{
    lemma_bytes_lt_irreflexive(encode_utf8(a));
    if name_lt(a, b) {
        lemma_bytes_lt_asymmetric(encode_utf8(a), encode_utf8(b));
    }
}

pub proof fn lemma_name_lt_transitive(a: Seq<char>, b: Seq<char>, c: Seq<char>)
    requires
        name_lt(a, b),
        name_lt(b, c),
    ensures
        name_lt(a, c),
{
    lemma_bytes_lt_transitive(encode_utf8(a), encode_utf8(b), encode_utf8(c));
}

/// Compares two names in the directory order.
pub fn order_names(a: &str, b: &str) -> (r: NameOrder)
    ensures
        r is Before <==> name_lt(a@, b@),
        r is Same <==> a@ == b@,
        r is After <==> name_lt(b@, a@),
{
    let x = a.as_bytes();
    let y = b.as_bytes();
    let mut i: usize = 0;
    while i < x.len() && i < y.len()
        invariant
            common_prefix(x@, y@, i as int),
            x@ == encode_utf8(a@),
            y@ == encode_utf8(b@),
        decreases x.len() - i,
    {
        if x[i] < y[i] {
            proof {
                assert(parts_before_at(x@, y@, i as int));
                lemma_bytes_lt_asymmetric(x@, y@);
                lemma_bytes_lt_irreflexive(x@);
            }
            return NameOrder::Before;
        }
        if x[i] > y[i] {
            proof {
                assert(parts_before_at(y@, x@, i as int));
                lemma_bytes_lt_asymmetric(y@, x@);
                lemma_bytes_lt_irreflexive(x@);
            }
            return NameOrder::After;
        }
        i += 1;
    }
    if i < y.len() {
        proof {
            assert(parts_before_at(x@, y@, i as int));
            lemma_bytes_lt_asymmetric(x@, y@);
            lemma_bytes_lt_irreflexive(x@);
        }
        NameOrder::Before
    } else if i < x.len() {
        proof {
            assert(parts_before_at(y@, x@, i as int));
            lemma_bytes_lt_asymmetric(y@, x@);
            lemma_bytes_lt_irreflexive(x@);
        }
        NameOrder::After
    } else {
        proof {
            assert(x@ =~= y@);
            lemma_encoding_injective(a@, b@);
            lemma_bytes_lt_irreflexive(x@);
        }
        NameOrder::Same
    }
}

} // verus!
