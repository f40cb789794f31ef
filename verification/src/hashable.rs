//! The hashing capability of keys, and its two built-in instances.

use vstd::arithmetic::div_mod::lemma_fundamental_div_mod_converse;
use vstd::prelude::*;

verus! {

/// A key type that the table can store.
///
/// A key is identified by its view: two keys with the same view are the same
/// key. The hash is a function of the view alone, so equal keys hash equally
/// by construction. The two proof obligations tie the executable `==` and
/// `clone` of the type to the view, which is all the table relies on.
pub trait Hashable: View + PartialEq + Clone + Sized {
    /// The hash of a key, as a function of the key's view.
    spec fn hash_spec(v: Self::V) -> usize;

    /// Computes the hash of this key.
    fn hash(&self) -> (h: usize)
        ensures
            h == Self::hash_spec(self@),
    ;

    /// Whatever `a.eq(b)` returns, it is `true` exactly when the views agree.
    proof fn eq_decides_view(a: &Self, b: &Self, r: bool)
        requires
            call_ensures(Self::eq, (a, b), r),
        ensures
            r == (a@ == b@),
    ;

    /// Whatever `a.clone()` returns, it has the view of `a`.
    proof fn clone_keeps_view(a: &Self, b: Self)
        requires
            call_ensures(Self::clone, (a,), b),
        ensures
            b@ == a@,
    ;
}

/// Reduces an integer into the range of `usize`, as wrapping arithmetic does.
pub open spec fn wrap(x: int) -> usize {
    (x % (usize::MAX + 1)) as usize
}

/// The djb2 hash of a byte string: start from 5381, and for each byte take
/// the accumulator times 33 plus the byte, wrapping at the width of `usize`.
pub open spec fn djb2(bytes: Seq<u8>) -> usize
    decreases bytes.len(),
{
    if bytes.len() == 0 {
        5381
    } else {
        wrap(djb2(bytes.drop_last()) * 33 + bytes.last())
    }
}

/// One wrapping multiply-and-add step computes `wrap` of the exact result.
proof fn lemma_wrapping_step(acc: usize, b: u8)
    ensures
        acc.wrapping_mul(33).wrapping_add(b as usize) == wrap(acc * 33 + b),
{
    let m: int = usize::MAX + 1;
    let exact: int = acc * 33;
    let low: int = exact % m;
    let q: int = exact / m;
    assert(exact == q * m + low && 0 <= low < m) by {
        vstd::arithmetic::div_mod::lemma_fundamental_div_mod(exact, m);
        vstd::arithmetic::div_mod::lemma_mod_bound(exact, m);
        assert(m * q == q * m) by (nonlinear_arith);
    }
    assert(acc.wrapping_mul(33) == low);
    if low + b < m {
        lemma_fundamental_div_mod_converse(exact + b, m, q, low + b);
    } else {
        assert(exact + b == (q + 1) * m + (low + b - m)) by (nonlinear_arith)
            requires
                exact == q * m + low,
        ;
        lemma_fundamental_div_mod_converse(exact + b, m, q + 1, low + b - m);
    }
}

impl Hashable for usize {
    /// An integer key hashes to itself.
    open spec fn hash_spec(v: usize) -> usize {
        v
    }

    fn hash(&self) -> (h: usize) {
        *self
    }

    proof fn eq_decides_view(a: &Self, b: &Self, r: bool) {
    }

    proof fn clone_keeps_view(a: &Self, b: Self) {
    }
}

impl Hashable for String {
    /// A text key hashes to the djb2 hash of its UTF-8 bytes.
    open spec fn hash_spec(v: Seq<char>) -> usize {
        djb2(vstd::utf8::encode_utf8(v))
    }

    fn hash(&self) -> (h: usize) {
        let bytes = self.as_str().as_bytes();
        let mut result: usize = 5381;
        let mut i: usize = 0;
        while i < bytes.len()
            invariant
                i <= bytes.len(),
                result == djb2(bytes@.subrange(0, i as int)),
            decreases bytes.len() - i,
        {
            proof {
                let upto = bytes@.subrange(0, i + 1);
                assert(upto.drop_last() =~= bytes@.subrange(0, i as int));
                lemma_wrapping_step(result, bytes[i as int]);
            }
            result = result.wrapping_mul(33).wrapping_add(bytes[i] as usize);
            i += 1;
        }
        assert(bytes@.subrange(0, i as int) =~= bytes@);
        result
    }

    proof fn eq_decides_view(a: &Self, b: &Self, r: bool) {
    }

    proof fn clone_keeps_view(a: &Self, b: Self) {
    }
}

} // verus!
