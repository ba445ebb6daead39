//! The order in which family names are listed: byte by byte over their UTF-8
//! encoding, a proper prefix before every name it begins.

use vstd::prelude::*;
use vstd::utf8::*;

verus! {

/// `k` is the place that puts `a` before `b`: both agree on their first `k`
/// bytes, `b` goes on, and there `a` either ends or holds a smaller byte.
pub open spec fn decides_before(a: Seq<u8>, b: Seq<u8>, k: int) -> bool {
    &&& 0 <= k <= a.len()
    &&& k < b.len()
    &&& forall|j: int| 0 <= j < k ==> a[j] == b[j]
    &&& (k < a.len() ==> a[k] < b[k])
}

/// Strict lexicographic order on byte strings.
pub open spec fn bytes_before(a: Seq<u8>, b: Seq<u8>) -> bool {
    exists|k: int| decides_before(a, b, k)
}

/// Strict order on names: the lexicographic order of their UTF-8 encodings.
pub open spec fn name_before(a: Seq<char>, b: Seq<char>) -> bool {
    bytes_before(encode_utf8(a), encode_utf8(b))
}

/// How one name stands to another in the listing order.
#[derive(Clone, Copy, Debug, PartialEq, Eq, Structural)]
pub enum NameOrder {
    Before,
    Same,
    After,
}

/// No byte string comes before itself, and of two byte strings at most one
/// comes before the other.
pub proof fn lemma_bytes_before_asymmetric(a: Seq<u8>, b: Seq<u8>)
    requires
        bytes_before(a, b),
    ensures
        a != b,
        !bytes_before(b, a),
{
    let k = choose|k: int| decides_before(a, b, k);
    if a == b {
        assert(a[k] == b[k]);
    }
    if bytes_before(b, a) {
        let m = choose|m: int| decides_before(b, a, m);
        if m < k {
            assert(a[m] == b[m]);
        } else if k < m {
            assert(b[k] == a[k]);
        }
    }
}

/// The order on byte strings is transitive.
pub proof fn lemma_bytes_before_transitive(a: Seq<u8>, b: Seq<u8>, c: Seq<u8>)
    requires
        bytes_before(a, b),
        bytes_before(b, c),
    ensures
        bytes_before(a, c),
{
    let k = choose|k: int| decides_before(a, b, k);
    let m = choose|m: int| decides_before(b, c, m);
    let n = if k <= m { k } else { m };
    assert forall|j: int| 0 <= j < n implies a[j] == c[j] by {
        assert(a[j] == b[j]);
        assert(b[j] == c[j]);
    }
    if m < k {
        assert(a[m] == b[m]);
    }
    if k < m {
        assert(b[k] == c[k]);
    }
    assert(decides_before(a, c, n));
}

/// Byte strings that agree on their first `i` bytes, both at least that long,
/// are equal or one comes before the other.
proof fn lemma_bytes_comparable_from(a: Seq<u8>, b: Seq<u8>, i: int)
    requires
        0 <= i <= a.len(),
        i <= b.len(),
        forall|j: int| 0 <= j < i ==> a[j] == b[j],
    ensures
        a == b || bytes_before(a, b) || bytes_before(b, a),
    decreases a.len() - i,
{
    if i == a.len() {
        if i == b.len() {
            assert(a =~= b);
        } else {
            assert(decides_before(a, b, i));
        }
    } else if i == b.len() {
        assert(decides_before(b, a, i));
    } else if a[i] < b[i] {
        assert(decides_before(a, b, i));
    } else if b[i] < a[i] {
        assert(decides_before(b, a, i));
    } else {
        lemma_bytes_comparable_from(a, b, i + 1);
    }
}

/// Two names with the same UTF-8 encoding are the same name.
pub proof fn lemma_encoding_injective(a: Seq<char>, b: Seq<char>)
    requires
        encode_utf8(a) == encode_utf8(b),
    ensures
        a == b,
{
    encode_utf8_decode_utf8(a);
    encode_utf8_decode_utf8(b);
}

/// No name comes before itself, and of two names at most one comes before
/// the other.
pub proof fn lemma_name_before_asymmetric(a: Seq<char>, b: Seq<char>)
    requires
        name_before(a, b),
    ensures
        a != b,
        !name_before(b, a),
{
    lemma_bytes_before_asymmetric(encode_utf8(a), encode_utf8(b));
}

/// The order on names is transitive.
pub proof fn lemma_name_before_transitive(a: Seq<char>, b: Seq<char>, c: Seq<char>)
    requires
        name_before(a, b),
        name_before(b, c),
    ensures
        name_before(a, c),
{
    lemma_bytes_before_transitive(encode_utf8(a), encode_utf8(b), encode_utf8(c));
}

/// The order on names is total: two different names are always ordered.
pub proof fn lemma_name_before_total(a: Seq<char>, b: Seq<char>)
    ensures
        a == b || name_before(a, b) || name_before(b, a),
{
    lemma_bytes_comparable_from(encode_utf8(a), encode_utf8(b), 0);
    if encode_utf8(a) == encode_utf8(b) {
        lemma_encoding_injective(a, b);
    }
}

/// Compares two names in the listing order. Exactly one of the three answers
/// holds of any two names.
pub fn compare_names(a: &str, b: &str) -> (order: NameOrder)
    ensures
        order is Before <==> name_before(a@, b@),
        order is Same <==> a@ == b@,
        order is After <==> name_before(b@, a@),
{
    let x = a.as_bytes();
    let y = b.as_bytes();
    let mut i: usize = 0;
    while i < x.len() && i < y.len()
        invariant
            i <= x@.len(),
            i <= y@.len(),
            forall|j: int| 0 <= j < i ==> x@[j] == y@[j],
            x@ == encode_utf8(a@),
            y@ == encode_utf8(b@),
        decreases x@.len() - i,
    {
        if x[i] < y[i] {
            proof {
                assert(decides_before(x@, y@, i as int));
                lemma_name_before_asymmetric(a@, b@);
            }
            return NameOrder::Before;
        }
        if y[i] < x[i] {
            proof {
                assert(decides_before(y@, x@, i as int));
                lemma_name_before_asymmetric(b@, a@);
            }
            return NameOrder::After;
        }
        i += 1;
    }
    if i < y.len() {
        proof {
            assert(decides_before(x@, y@, i as int));
            lemma_name_before_asymmetric(a@, b@);
        }
        NameOrder::Before
    } else if i < x.len() {
        proof {
            assert(decides_before(y@, x@, i as int));
            lemma_name_before_asymmetric(b@, a@);
        }
        NameOrder::After
    } else {
        proof {
            assert(x@ =~= y@);
            lemma_encoding_injective(a@, b@);
            if name_before(a@, b@) {
                lemma_name_before_asymmetric(a@, b@);
            }
            if name_before(b@, a@) {
                lemma_name_before_asymmetric(b@, a@);
            }
        }
        NameOrder::Same
    }
}

} // verus!
