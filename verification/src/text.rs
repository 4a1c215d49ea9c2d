//! The order of text as a store keeps it: byte by byte over the UTF-8
//! encoding, a text before each of its continuations.

use vstd::prelude::*;
use vstd::utf8::encode_utf8;

verus! {

/// How one text stands to another.
#[derive(Clone, Copy, Debug, PartialEq, Eq, Structural)]
pub enum TextOrder {
    Before,
    Same,
    After,
}

/// `a` and `b` agree on their first `k` bytes, and there `a` ends while `b`
/// goes on, or `a` has the smaller byte.
pub open spec fn parts_before(a: Seq<u8>, b: Seq<u8>, k: int) -> bool {
    &&& 0 <= k <= a.len()
    &&& k < b.len()
    &&& a.take(k) == b.take(k)
    &&& (k == a.len() || a[k] < b[k])
}

/// `a` comes strictly before `b`.
pub open spec fn bytes_before(a: Seq<u8>, b: Seq<u8>) -> bool {
    exists|k: int| parts_before(a, b, k)
}

/// The text `a` comes strictly before the text `b`.
pub open spec fn text_before(a: Seq<char>, b: Seq<char>) -> bool {
    bytes_before(encode_utf8(a), encode_utf8(b))
}

/// The two texts have the same bytes.
pub open spec fn text_same(a: Seq<char>, b: Seq<char>) -> bool {
    encode_utf8(a) == encode_utf8(b)
}

/// Two byte strings that agree up to `k` are equal, or one is before the other.
proof fn lemma_bytes_total_from(a: Seq<u8>, b: Seq<u8>, k: int)
    requires
        0 <= k <= a.len(),
        k <= b.len(),
        a.take(k) == b.take(k),
    ensures
        bytes_before(a, b) || a == b || bytes_before(b, a),
    decreases a.len() - k,
{
    if k == a.len() {
        if k == b.len() {
            assert(a.take(k) =~= a);
            assert(b.take(k) =~= b);
        } else {
            assert(parts_before(a, b, k));
        }
    } else if k == b.len() {
        assert(parts_before(b, a, k));
    } else if a[k] < b[k] {
        assert(parts_before(a, b, k));
    } else if b[k] < a[k] {
        assert(parts_before(b, a, k));
    } else {
        assert(a.take(k + 1) =~= a.take(k).push(a[k]));
        assert(b.take(k + 1) =~= b.take(k).push(b[k]));
        lemma_bytes_total_from(a, b, k + 1);
    }
}

/// Of two byte strings one is before the other, or they are equal.
pub proof fn lemma_bytes_total(a: Seq<u8>, b: Seq<u8>)
    ensures
        bytes_before(a, b) || a == b || bytes_before(b, a),
{
    assert(a.take(0) =~= b.take(0));
    lemma_bytes_total_from(a, b, 0);
}

/// Nothing is before itself.
pub proof fn lemma_bytes_irreflexive(a: Seq<u8>)
    ensures
        !bytes_before(a, a),
{
}

/// Before is transitive.
pub proof fn lemma_bytes_transitive(a: Seq<u8>, b: Seq<u8>, c: Seq<u8>)
    requires
        bytes_before(a, b),
        bytes_before(b, c),
    ensures
        bytes_before(a, c),
{
    let k1 = choose|k: int| parts_before(a, b, k);
    let k2 = choose|k: int| parts_before(b, c, k);
    if k1 <= k2 {
        assert(b.take(k1) =~= b.take(k2).take(k1));
        assert(c.take(k1) =~= c.take(k2).take(k1));
        if k1 < k2 {
            assert(b[k1] == b.take(k2)[k1]);
            assert(c[k1] == c.take(k2)[k1]);
        }
        assert(parts_before(a, c, k1));
    } else {
        assert(a.take(k2) =~= a.take(k1).take(k2));
        assert(b.take(k2) =~= b.take(k1).take(k2));
        assert(a[k2] == a.take(k1)[k2]);
        assert(b[k2] == b.take(k1)[k2]);
        assert(parts_before(a, c, k2));
    }
}

/// Compares two byte strings.
pub fn order_bytes(a: &[u8], b: &[u8]) -> (order: TextOrder)
    ensures
        order == TextOrder::Before <==> bytes_before(a@, b@),
        order == TextOrder::Same <==> a@ == b@,
        order == TextOrder::After <==> bytes_before(b@, a@),
{
    let mut i: usize = 0;
    while i < a.len() && i < b.len()
        invariant
            0 <= i <= a.len(),
            i <= b.len(),
            a@.take(i as int) == b@.take(i as int),
        decreases a.len() - i,
    {
        if a[i] < b[i] {
            proof {
                assert(parts_before(a@, b@, i as int));
                lemma_one_way(a@, b@);
            }
            return TextOrder::Before;
        }
        if b[i] < a[i] {
            proof {
                assert(parts_before(b@, a@, i as int));
                lemma_one_way(b@, a@);
            }
            return TextOrder::After;
        }
        proof {
            assert(a@.take(i + 1) =~= a@.take(i as int).push(a@[i as int]));
            assert(b@.take(i + 1) =~= b@.take(i as int).push(b@[i as int]));
        }
        i = i + 1;
    }
    if i < b.len() {
        proof {
            assert(parts_before(a@, b@, i as int));
            lemma_one_way(a@, b@);
        }
        TextOrder::Before
    } else if i < a.len() {
        proof {
            assert(parts_before(b@, a@, i as int));
            lemma_one_way(b@, a@);
        }
        TextOrder::After
    } else {
        proof {
            assert(a@.take(i as int) =~= a@);
            assert(b@.take(i as int) =~= b@);
            lemma_bytes_irreflexive(a@);
        }
        TextOrder::Same
    }
}

/// What is before another is neither equal to it nor after it.
proof fn lemma_one_way(a: Seq<u8>, b: Seq<u8>)
    requires
        bytes_before(a, b),
    ensures
        a != b,
        !bytes_before(b, a),
{
    lemma_bytes_irreflexive(a);
    if bytes_before(b, a) {
        lemma_bytes_transitive(a, b, a);
    }
}

/// Compares two texts.
pub fn order_text(a: &str, b: &str) -> (order: TextOrder)
    ensures
        order == TextOrder::Before <==> text_before(a@, b@),
        order == TextOrder::Same <==> text_same(a@, b@),
        order == TextOrder::After <==> text_before(b@, a@),
{
    order_bytes(a.as_bytes(), b.as_bytes())
}

} // verus!
