use vstd::prelude::*;
use vstd::string::*;
use vstd::utf8::*;

verus! {

/// The text of an optional string.
pub open spec fn optional_text(text: Option<String>) -> Option<Seq<char>> {
    match text {
        Some(text) => Some(text@),
        None => None,
    }
}

/// `a` comes before `b` byte by byte: they differ first at a byte that is smaller in `a`, or `a`
/// ends where `b` goes on.
pub open spec fn bytes_precede(a: Seq<u8>, b: Seq<u8>) -> bool {
    exists|n: int| #[trigger] bytes_differ_at(a, b, n)
}

/// `a` and `b` agree on their first `n` bytes, and then `a` ends or has the smaller byte.
pub open spec fn bytes_differ_at(a: Seq<u8>, b: Seq<u8>, n: int) -> bool {
    &&& 0 <= n <= a.len()
    &&& n < b.len()
    &&& forall|i: int| 0 <= i < n ==> a[i] == b[i]
    &&& n < a.len() ==> a[n] < b[n]
}

/// The order of strings: that of their UTF-8 bytes.
pub open spec fn text_precedes(a: Seq<char>, b: Seq<char>) -> bool {
    bytes_precede(encode_utf8(a), encode_utf8(b))
}

/// How one text stands to another.
pub enum TextOrder {
    Before,
    Same,
    After,
}

/// Texts with the same bytes are the same.
pub proof fn lemma_same_bytes(a: Seq<char>, b: Seq<char>)
    requires
        encode_utf8(a) == encode_utf8(b),
    ensures
        a == b,
{
    encode_utf8_decode_utf8(a);
    encode_utf8_decode_utf8(b);
}

/// No text comes before itself.
pub proof fn lemma_precedes_irreflexive(a: Seq<char>)
    ensures
        !text_precedes(a, a),
{
}

/// A text before a second one, which is before a third, is before the third.
pub proof fn lemma_precedes_transitive(a: Seq<char>, b: Seq<char>, c: Seq<char>)
    requires
        text_precedes(a, b),
        text_precedes(b, c),
    ensures
        text_precedes(a, c),
{
    let x = encode_utf8(a);
    let y = encode_utf8(b);
    let z = encode_utf8(c);
    let n = choose|n: int| bytes_differ_at(x, y, n);
    let m = choose|m: int| bytes_differ_at(y, z, m);
    let k = if n < m { n } else { m };
    assert forall|i: int| 0 <= i < k implies x[i] == z[i] by {
        assert(x[i] == y[i]);
    }
    if n < m {
        assert(y[n] == z[n]);
    }
    assert(bytes_differ_at(x, z, k));
}

/// A text comes before another exactly when, at the first byte at which they differ, it ends or has
/// the smaller byte.
pub proof fn law_first_difference_decides(a: Seq<char>, b: Seq<char>)
    ensures
        text_precedes(a, b) <==> exists|n: int|
            {
                &&& 0 <= n <= encode_utf8(a).len()
                &&& n < encode_utf8(b).len()
                &&& #[trigger] encode_utf8(a).take(n) == encode_utf8(b).take(n)
                &&& n < encode_utf8(a).len() ==> encode_utf8(a)[n] < encode_utf8(b)[n]
            },
{
    let x = encode_utf8(a);
    let y = encode_utf8(b);
    if text_precedes(a, b) {
        let n = choose|n: int| bytes_differ_at(x, y, n);
        assert(x.take(n) =~= y.take(n));
    }
    if exists|n: int|
        {
            &&& 0 <= n <= x.len()
            &&& n < y.len()
            &&& #[trigger] x.take(n) == y.take(n)
            &&& n < x.len() ==> x[n] < y[n]
        } {
        let n = choose|n: int|
            {
                &&& 0 <= n <= x.len()
                &&& n < y.len()
                &&& #[trigger] x.take(n) == y.take(n)
                &&& n < x.len() ==> x[n] < y[n]
            };
        assert forall|i: int| 0 <= i < n implies x[i] == y[i] by {
            assert(x.take(n)[i] == y.take(n)[i]);
        }
        assert(bytes_differ_at(x, y, n));
    }
}

/// Compares two texts.
pub fn compare_texts(a: &str, b: &str) -> (order: TextOrder)
    ensures
        match order {
            TextOrder::Before => text_precedes(a@, b@) && a@ != b@,
            TextOrder::Same => a@ == b@,
            TextOrder::After => text_precedes(b@, a@) && a@ != b@,
        },
{
    let x: &[u8] = a.as_bytes();
    let y: &[u8] = b.as_bytes();
    let mut i: usize = 0;
    proof {
        if a@ == b@ {
            lemma_precedes_irreflexive(a@);
        }
    }
    while i < x.len() && i < y.len()
        invariant
            i <= x.len(),
            i <= y.len(),
            x@ == encode_utf8(a@),
            y@ == encode_utf8(b@),
            a@ == b@ ==> !text_precedes(a@, b@),
            forall|j: int| 0 <= j < i ==> x@[j] == y@[j],
        decreases x.len() - i,
    {
        if x[i] < y[i] {
            assert(bytes_differ_at(x@, y@, i as int));
            return TextOrder::Before;
        }
        if y[i] < x[i] {
            assert(bytes_differ_at(y@, x@, i as int));
            return TextOrder::After;
        }
        i = i + 1;
    }
    if i < y.len() {
        assert(bytes_differ_at(x@, y@, i as int));
        TextOrder::Before
    } else if i < x.len() {
        assert(bytes_differ_at(y@, x@, i as int));
        TextOrder::After
    } else {
        proof {
            assert(x@ =~= y@);
            lemma_same_bytes(a@, b@);
        }
        TextOrder::Same
    }
}

/// Tells whether two texts are the same.
pub fn same_text(a: &str, b: &str) -> (same: bool)
    ensures
        same == (a@ == b@),
{
    match compare_texts(a, b) {
        TextOrder::Same => true,
        _ => false,
    }
}

} // verus!
