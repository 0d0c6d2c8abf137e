//! The algebraic laws of the library, stated over the values that the
//! operations' contracts speak of and proved once and for all.  Together
//! with each operation's exact `ensures`, a law here transfers directly to
//! the operation's results.

use vstd::prelude::*;
use vstd::arithmetic::mul::{
    lemma_mul_is_commutative, lemma_mul_is_associative, lemma_mul_is_distributive_add,
    lemma_mul_basics,
};
use crate::bigint::BigInt;
use crate::bitwise::{
    int_and, int_or, int_xor, lemma_xor_self, lemma_and_self, lemma_or_self, lemma_xor_cancel,
};
use crate::text::{
    dec_render, dec_value, bin_render, bin_value, is_dec_string, is_bin_string,
    lemma_dec_round_trip, lemma_bin_round_trip,
};

verus! {

/// The additive group laws: zero is neutral, negation inverts, addition
/// associates, subtraction is addition of the negation, and double negation
/// is the identity.  `add`, `sub` and `neg` return exactly these values.
pub proof fn lemma_additive_group(a: BigInt, b: BigInt, c: BigInt, z: BigInt)
    requires
        a.wf(),
        b.wf(),
        c.wf(),
        z.wf(),
        z.value() == 0,
    ensures
        a.value() + z.value() == a.value(),
        a.value() + (-a.value()) == 0,
        (a.value() + b.value()) + c.value() == a.value() + (b.value() + c.value()),
        a.value() - b.value() == a.value() + (-b.value()),
        -(-a.value()) == a.value(),
{
}

/// The multiplicative laws: one is neutral, zero annihilates, and
/// multiplication commutes, associates and distributes over addition.
/// `mul` returns exactly these values.
pub proof fn lemma_multiplicative(a: BigInt, b: BigInt, c: BigInt)
    requires
        a.wf(),
        b.wf(),
        c.wf(),
    ensures
        a.value() * 1 == a.value(),
        a.value() * 0 == 0,
        a.value() * b.value() == b.value() * a.value(),
        (a.value() * b.value()) * c.value() == a.value() * (b.value() * c.value()),
        a.value() * (b.value() + c.value()) == a.value() * b.value() + a.value() * c.value(),
{
    lemma_mul_basics(a.value());
    lemma_mul_is_commutative(a.value(), b.value());
    lemma_mul_is_associative(a.value(), b.value(), c.value());
    lemma_mul_is_distributive_add(a.value(), b.value(), c.value());
}

/// The bitwise involutions: XOR with itself vanishes, XOR with zero is the
/// identity, AND and OR are idempotent, and XOR by the same mask twice is
/// the identity.  `bitand`, `bitor` and `bitxor` return exactly these
/// values.
pub proof fn lemma_bitwise_involutions(a: BigInt, b: BigInt)
    requires
        a.wf(),
        b.wf(),
    ensures
        int_xor(a.value(), a.value()) == 0,
        int_xor(a.value(), 0) == a.value(),
        int_and(a.value(), a.value()) == a.value(),
        int_or(a.value(), a.value()) == a.value(),
        int_xor(int_xor(a.value(), b.value()), b.value()) == a.value(),
{
    lemma_xor_self(a.value());
    lemma_and_self(a.value());
    lemma_or_self(a.value());
    lemma_xor_cancel(a.value(), b.value());
}

/// Order totality: of `a < b`, `a == b`, `a > b` exactly one holds; the
/// order is transitive; and it is invariant under translation.  `cmp`
/// decides these relations.
pub proof fn lemma_order_total(a: BigInt, b: BigInt, c: BigInt)
    requires
        a.wf(),
        b.wf(),
        c.wf(),
    ensures
        (a.value() < b.value() && !(a.value() == b.value()) && !(a.value() > b.value())) || (
        a.value() == b.value() && !(a.value() < b.value()) && !(a.value() > b.value())) || (
        a.value() > b.value() && !(a.value() < b.value()) && !(a.value() == b.value())),
        a.value() < b.value() && b.value() < c.value() ==> a.value() < c.value(),
        (a.value() < b.value()) <==> (a.value() + c.value() < b.value() + c.value()),
{
}

/// Round trips of the text forms: rendering any value and parsing it back
/// is the identity, in both bases, and the rendering is a well-formed input
/// for the parser.  Conversely, rendering a parsed string gives the
/// canonical rendering of the value the string denotes, which is what
/// `to_string_dec` and `to_string_bin` promise.
pub proof fn lemma_text_round_trip(x: BigInt)
    requires
        x.wf(),
    ensures
        is_dec_string(dec_render(x.value())),
        dec_value(dec_render(x.value())) == x.value(),
        is_bin_string(bin_render(x.value())),
        bin_value(bin_render(x.value())) == x.value(),
{
    lemma_dec_round_trip(x.value());
    lemma_bin_round_trip(x.value());
}

} // verus!
