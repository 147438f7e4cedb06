//! Comparison of byte strings.

use vstd::prelude::*;

verus! {

/// The first byte string comes before the second in the order of a dictionary.
pub open spec fn precedes(a: Seq<u8>, b: Seq<u8>) -> bool
    decreases a.len(),
{
    if b.len() == 0 {
        false
    } else if a.len() == 0 {
        true
    } else if a[0] != b[0] {
        a[0] < b[0]
    } else {
        precedes(a.drop_first(), b.drop_first())
    }
}

/// Of two different byte strings exactly one comes before the other.
pub proof fn precedes_total(a: Seq<u8>, b: Seq<u8>)
    ensures
        a == b ==> !precedes(a, b),
        a != b ==> precedes(a, b) != precedes(b, a),
    decreases a.len(),
{
    if a.len() > 0 && b.len() > 0 && a[0] == b[0] {
        precedes_total(a.drop_first(), b.drop_first());
        if a.drop_first() == b.drop_first() {
            assert(a =~= seq![a[0]] + a.drop_first());
            assert(b =~= seq![b[0]] + b.drop_first());
        }
    } else if a.len() == 0 && b.len() == 0 {
        assert(a =~= b);
    }
}

/// The order is transitive.
pub proof fn precedes_transitive(a: Seq<u8>, b: Seq<u8>, c: Seq<u8>)
    requires
        precedes(a, b),
        precedes(b, c),
    ensures
        precedes(a, c),
    decreases a.len(),
{
    if a.len() > 0 && a[0] == b[0] && b[0] == c[0] {
        precedes_transitive(a.drop_first(), b.drop_first(), c.drop_first());
    }
}

/// Whether two byte arrays hold the same bytes.
pub fn same_bytes<const N: usize>(a: &[u8; N], b: &[u8; N]) -> (same: bool)
    ensures
        same == (*a == *b),
{
    let mut i: usize = 0;
    while i < N
        invariant
            i <= N,
            forall|j: int| 0 <= j < i ==> a[j] == b[j],
        decreases N - i,
    {
        if a[i] != b[i] {
            return false;
        }
        i += 1;
    }
    assert(*a =~= *b);
    true
}

/// Whether the first byte array comes before the second.
pub fn bytes_before<const N: usize>(a: &[u8; N], b: &[u8; N]) -> (before: bool)
    ensures
        before == precedes(a@, b@),
{
    let mut i: usize = 0;
    assert(a@.skip(0) =~= a@);
    assert(b@.skip(0) =~= b@);
    while i < N
        invariant
            i <= N,
            precedes(a@, b@) == precedes(a@.skip(i as int), b@.skip(i as int)),
        decreases N - i,
    {
        assert(a@.skip(i as int)[0] == a[i as int]);
        assert(b@.skip(i as int)[0] == b[i as int]);
        if a[i] != b[i] {
            return a[i] < b[i];
        }
        assert(a@.skip(i as int).drop_first() =~= a@.skip(i + 1));
        assert(b@.skip(i as int).drop_first() =~= b@.skip(i + 1));
        i += 1;
    }
    false
}

/// One byte string comes before another where they agree up to some place, and there
/// the first one ends or has the smaller byte.
pub proof fn the_first_difference_decides(a: Seq<u8>, b: Seq<u8>)
    ensures
        precedes(a, b) <==> exists|n: int|
            {
                &&& 0 <= n <= a.len()
                &&& n < b.len()
                &&& a.take(n) == #[trigger] b.take(n)
                &&& n == a.len() || a[n] < b[n]
            },
    decreases a.len(),
{
    if b.len() > 0 && a.len() > 0 && a[0] == b[0] {
        let x = a.drop_first();
        let y = b.drop_first();
        the_first_difference_decides(x, y);
        if precedes(x, y) {
            let n = choose|n: int|
                {
                    &&& 0 <= n <= x.len()
                    &&& n < y.len()
                    &&& x.take(n) == #[trigger] y.take(n)
                    &&& n == x.len() || x[n] < y[n]
                };
            assert(a.take(n + 1) =~= seq![a[0]] + x.take(n));
            assert(b.take(n + 1) =~= seq![b[0]] + y.take(n));
        }
        if exists|n: int|
            {
                &&& 0 <= n <= a.len()
                &&& n < b.len()
                &&& a.take(n) == #[trigger] b.take(n)
                &&& n == a.len() || a[n] < b[n]
            } {
            let n = choose|n: int|
                {
                    &&& 0 <= n <= a.len()
                    &&& n < b.len()
                    &&& a.take(n) == #[trigger] b.take(n)
                    &&& n == a.len() || a[n] < b[n]
                };
            assert(n > 0);
            assert(x.take(n - 1) =~= a.take(n).drop_first());
            assert(y.take(n - 1) =~= b.take(n).drop_first());
        }
    } else if b.len() > 0 {
        assert(a.take(0) =~= b.take(0));
        if exists|n: int|
            {
                &&& 0 <= n <= a.len()
                &&& n < b.len()
                &&& a.take(n) == #[trigger] b.take(n)
                &&& n == a.len() || a[n] < b[n]
            } {
            let n = choose|n: int|
                {
                    &&& 0 <= n <= a.len()
                    &&& n < b.len()
                    &&& a.take(n) == #[trigger] b.take(n)
                    &&& n == a.len() || a[n] < b[n]
                };
            if n > 0 {
                assert(a.take(n)[0] == b.take(n)[0]);
            }
        }
    }
}

} // verus!
