//! The lexicographic order on byte strings, and on text through its UTF-8 bytes.

use vstd::prelude::*;
use vstd::utf8::encode_utf8;

verus! {

/// `a` and `b` agree before position `i`, and there `a` ends or has the smaller byte.
pub open spec fn precedes_at(a: Seq<u8>, b: Seq<u8>, i: int) -> bool {
    &&& 0 <= i < b.len()
    &&& i <= a.len()
    &&& forall|j: int| 0 <= j < i ==> a[j] == b[j]
    &&& i == a.len() || a[i] < b[i]
}

/// Lexicographic order on byte strings.
pub open spec fn bytes_precede(a: Seq<u8>, b: Seq<u8>) -> bool {
    exists|i: int| precedes_at(a, b, i)
}

/// Order of two texts: that of their UTF-8 bytes.
pub open spec fn text_precedes(a: Seq<char>, b: Seq<char>) -> bool {
    bytes_precede(encode_utf8(a), encode_utf8(b))
}

/// No text precedes itself.
pub proof fn text_irreflexive(a: Seq<char>)
    ensures
        !text_precedes(a, a),
{
}

/// The order on texts is transitive.
pub proof fn text_transitive(a: Seq<char>, b: Seq<char>, c: Seq<char>)
    requires
        text_precedes(a, b),
        text_precedes(b, c),
    ensures
        text_precedes(a, c),
{
    let (x, y, z) = (encode_utf8(a), encode_utf8(b), encode_utf8(c));
    let i = choose|i: int| precedes_at(x, y, i);
    let j = choose|j: int| precedes_at(y, z, j);
    let k = if i <= j {
        i
    } else {
        j
    };
    assert(precedes_at(x, z, k));
}

/// Two different texts are ordered one way or the other.
pub proof fn text_total(a: Seq<char>, b: Seq<char>)
    ensures
        a == b || text_precedes(a, b) || text_precedes(b, a),
{
    let (x, y) = (encode_utf8(a), encode_utf8(b));
    bytes_total(x, y, 0);
    if x == y {
        vstd::utf8::encode_utf8_decode_utf8(a);
        vstd::utf8::encode_utf8_decode_utf8(b);
    }
}

/// Byte strings that agree before `i` are equal or ordered.
proof fn bytes_total(x: Seq<u8>, y: Seq<u8>, i: int)
    requires
        0 <= i <= x.len(),
        i <= y.len(),
        forall|j: int| 0 <= j < i ==> x[j] == y[j],
    ensures
        x == y || bytes_precede(x, y) || bytes_precede(y, x),
    decreases x.len() - i,
{
    if i == x.len() && i == y.len() {
        assert(x =~= y);
    } else if i == x.len() {
        assert(precedes_at(x, y, i));
    } else if i == y.len() {
        assert(precedes_at(y, x, i));
    } else if x[i] < y[i] {
        assert(precedes_at(x, y, i));
    } else if y[i] < x[i] {
        assert(precedes_at(y, x, i));
    } else {
        bytes_total(x, y, i + 1);
    }
}

/// Of two texts, that one comes first which has the smaller byte where their UTF-8 bytes first
/// differ, or which ends there.
pub proof fn text_order_is_that_of_the_first_difference(a: Seq<char>, b: Seq<char>, i: int)
    requires
        0 <= i < encode_utf8(b).len(),
        i <= encode_utf8(a).len(),
        encode_utf8(a).take(i) == encode_utf8(b).take(i),
        i == encode_utf8(a).len() || encode_utf8(a)[i] < encode_utf8(b)[i],
    ensures
        text_precedes(a, b),
        !text_precedes(b, a),
{
    let (x, y) = (encode_utf8(a), encode_utf8(b));
    assert forall|j: int| 0 <= j < i implies x[j] == y[j] by {
        assert(x[j] == x.take(i)[j] && y[j] == y.take(i)[j]);
    }
    assert(precedes_at(x, y, i));
    if text_precedes(b, a) {
        text_transitive(a, b, a);
        text_irreflexive(a);
    }
}

/// Whether the text `a` comes strictly before the text `b`.
pub fn text_before(a: &str, b: &str) -> (r: bool)
    ensures
        r == text_precedes(a@, b@),
{
    let x: &[u8] = a.as_bytes();
    let y: &[u8] = b.as_bytes();
    let mut i: usize = 0;
    while i < x.len() && i < y.len()
        invariant
            i <= x@.len(),
            i <= y@.len(),
            x@ == encode_utf8(a@),
            y@ == encode_utf8(b@),
            forall|j: int| 0 <= j < i ==> x@[j] == y@[j],
        decreases x@.len() - i,
    {
        if x[i] < y[i] {
            assert(precedes_at(x@, y@, i as int));
            return true;
        }
        if y[i] < x[i] {
            assert(!bytes_precede(x@, y@)) by {
                if bytes_precede(x@, y@) {
                    let k = choose|k: int| precedes_at(x@, y@, k);
                    assert(k < i || k == i || k > i);
                }
            }
            return false;
        }
        i = i + 1;
    }
    if i < y.len() {
        assert(precedes_at(x@, y@, i as int));
        true
    } else {
        assert(!bytes_precede(x@, y@)) by {
            if bytes_precede(x@, y@) {
                let k = choose|k: int| precedes_at(x@, y@, k);
                assert(k < i);
            }
        }
        false
    }
}

} // verus!
