//! A total order on IEEE-754 double bit patterns that agrees with the
//! numeric order of the doubles they encode.
use vstd::prelude::*;

verus! {

/// The sign bit of a double's bit pattern.
pub const SIGN: u64 = 0x8000_0000_0000_0000;

/// The bit pattern of positive infinity; larger magnitudes are NaN.
pub const INFINITY_BITS: u64 = 0x7FF0_0000_0000_0000;

/// Whether the sign bit is set.
pub open spec fn is_negative(bits: u64) -> bool {
    bits >= SIGN
}

/// The bit pattern without its sign bit.
pub open spec fn magnitude(bits: u64) -> u64 {
    (bits % SIGN) as u64
}

/// Whether the pattern encodes NaN.
pub open spec fn is_nan(bits: u64) -> bool {
    magnitude(bits) > INFINITY_BITS
}

/// `a <= b` on the doubles that two non-NaN bit patterns encode: the zeros
/// are equal whatever their sign, a negative number lies below every
/// non-negative one, and among numbers of one sign a larger magnitude lies
/// further from zero.
pub open spec fn double_le(a: u64, b: u64) -> bool {
    if magnitude(a) == 0 && magnitude(b) == 0 {
        true
    } else if is_negative(a) != is_negative(b) {
        is_negative(a)
    } else if is_negative(a) {
        magnitude(b) <= magnitude(a)
    } else {
        magnitude(a) <= magnitude(b)
    }
}

/// The key of a bit pattern: non-negative patterns are lifted above all
/// negative ones, negative patterns are reversed, and negative zero takes
/// the key of positive zero.
pub open spec fn key_of(bits: u64) -> u64 {
    if bits < SIGN {
        (bits + SIGN) as u64
    } else if bits == SIGN {
        SIGN
    } else {
        (u64::MAX - bits) as u64
    }
}

/// The keys of a sequence of bit patterns, one for one.
pub open spec fn keys_of(bits: Seq<u64>) -> Seq<u64> {
    bits.map_values(|b: u64| key_of(b))
}

/// Computes the order key of a double's bit pattern.
pub fn order_key(bits: u64) -> (r: u64)
    ensures
        r == key_of(bits),
{
    if bits < SIGN {
        bits + SIGN
    } else if bits == SIGN {
        SIGN
    } else {
        u64::MAX - bits
    }
}

/// Computes the order keys of a sample's bit patterns, in sample order.
pub fn order_keys(bits: &Vec<u64>) -> (r: Vec<u64>)
    ensures
        r@ == keys_of(bits@),
{
    let mut r: Vec<u64> = Vec::with_capacity(bits.len());
    let mut i: usize = 0;
    while i < bits.len()
        invariant
            i <= bits.len(),
            r@ == keys_of(bits@.subrange(0, i as int)),
        decreases bits.len() - i,
    {
        r.push(order_key(bits[i]));
        i += 1;
        assert(bits@.subrange(0, i as int) =~= bits@.subrange(0, i - 1).push(bits@[i - 1]));
    }
    assert(bits@.subrange(0, i as int) =~= bits@);
    r
}

/// Keys compare exactly as the doubles they stand for: for any two
/// patterns that are not NaN, the first key is at most the second if and
/// only if the first double is at most the second.
pub proof fn lemma_key_orders_as_doubles(a: u64, b: u64)
    requires
        !is_nan(a),
        !is_nan(b),
    ensures
        key_of(a) <= key_of(b) <==> double_le(a, b),
{
}

/// Two patterns share a key exactly when they are equal or are the two
/// zeros.
pub proof fn lemma_key_injective_but_zero(a: u64, b: u64)
    ensures
        key_of(a) == key_of(b) <==> (a == b || (magnitude(a) == 0 && magnitude(b) == 0)),
{
}

} // verus!
