//! Wrapping arithmetic on `i64`, as reading a number digit by digit needs it.

use vstd::arithmetic::div_mod::{
    lemma_add_mod_noop, lemma_mod_sub_multiples_vanish, lemma_mod_twice, lemma_mul_mod_noop_left,
    lemma_small_mod,
};
use vstd::prelude::*;
use vstd::wrapping::i64_specs::{signed_crop, wrapping_add, wrapping_mul};

verus! {

/// The number of values of an `i64`.
pub open spec fn range() -> int {
    0x1_0000_0000_0000_0000
}

/// A number and what it wraps to leave the same remainder.
pub proof fn lemma_crop_congruent(x: int)
    ensures
        (signed_crop(x) as int) % range() == x % range(),
{
    let r = x % range();
    lemma_mod_twice(x, range());
    if r > i64::MAX {
        lemma_mod_sub_multiples_vanish(r, range());
    }
}

/// A number wraps to the one `i64` that leaves the same remainder.
pub proof fn lemma_crop_unique(x: int, y: int)
    requires
        i64::MIN <= y <= i64::MAX,
        y % range() == x % range(),
    ensures
        signed_crop(x) == y,
{
    if y >= 0 {
        lemma_small_mod(y as nat, range() as nat);
    } else {
        lemma_mod_sub_multiples_vanish(y + range(), range());
        lemma_small_mod((y + range()) as nat, range() as nat);
    }
}

/// Taking one more digit into a wrapped number gives what taking it into the number itself
/// and wrapping then gives.
pub proof fn lemma_crop_push(acc: int, base: int, digit: int)
    requires
        0 <= digit < base <= 36,
    ensures
        wrapping_add(wrapping_mul(signed_crop(acc), base as i64), digit as i64) == signed_crop(
            acc * base + digit,
        ),
{
    let c = signed_crop(acc) as int;
    let m = wrapping_mul(signed_crop(acc), base as i64) as int;
    let a = wrapping_add(wrapping_mul(signed_crop(acc), base as i64), digit as i64) as int;
    lemma_crop_congruent(acc);
    lemma_mul_mod_noop_left(c, base, range());
    lemma_mul_mod_noop_left(acc, base, range());
    assert((c * base) % range() == (acc * base) % range());
    lemma_crop_congruent(c * base);
    assert(m % range() == (acc * base) % range());
    lemma_add_mod_noop(m, digit, range());
    lemma_add_mod_noop(acc * base, digit, range());
    assert((m + digit) % range() == (acc * base + digit) % range());
    if m + digit > i64::MAX {
        lemma_mod_sub_multiples_vanish(m + digit, range());
    }
    lemma_crop_unique(acc * base + digit, a);
}

/// Negating a wrapped number gives what negating the number itself and wrapping then gives.
pub proof fn lemma_crop_negate(x: int)
    ensures
        wrapping_mul(signed_crop(x), -1i64) == signed_crop(-x),
{
    let c = signed_crop(x) as int;
    lemma_crop_congruent(x);
    lemma_mul_mod_noop_left(c, -1, range());
    lemma_mul_mod_noop_left(x, -1, range());
    assert(c * -1 == -c);
    assert(x * -1 == -x);
    lemma_crop_congruent(-c);
    lemma_crop_unique(-x, signed_crop(-c) as int);
}

} // verus!
