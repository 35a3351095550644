//! Numbers can be told from their digits and bytes.

use vstd::arithmetic::div_mod::lemma_fundamental_div_mod;
use vstd::prelude::*;

use crate::utils::hash::le_bytes;
use crate::utils::text::{decimal, digit};

verus! {

/// The number with the given bytes, the lowest first.
pub open spec fn number_of_bytes(bytes: Seq<u8>) -> nat
    decreases bytes.len(),
{
    if bytes.len() == 0 {
        0
    } else {
        bytes[0] as nat + 256 * number_of_bytes(bytes.skip(1))
    }
}

/// How many numbers so many bytes can hold.
pub open spec fn byte_range(n: nat) -> nat
    decreases n,
{
    if n == 0 {
        1
    } else {
        256 * byte_range((n - 1) as nat)
    }
}

/// The bytes of a number have its value, and are as many as asked for.
pub proof fn lemma_bytes_of_number(x: nat, n: nat)
    requires
        x < byte_range(n),
    ensures
        le_bytes(x, n).len() == n,
        number_of_bytes(le_bytes(x, n)) == x,
    decreases n,
{
    if n > 0 {
        lemma_fundamental_div_mod(x as int, 256);
        lemma_bytes_of_number(x / 256, (n - 1) as nat);
        assert(le_bytes(x, n).skip(1) =~= le_bytes(x / 256, (n - 1) as nat));
    }
}

/// The number with the given decimal digits.
pub open spec fn number_of_digits(text: Seq<char>) -> nat
    decreases text.len(),
{
    if text.len() == 0 {
        0
    } else {
        10 * number_of_digits(text.drop_last()) + (text.last() as u32 - '0' as u32) as nat
    }
}

/// The text of a number has its value. It has no leading zero, but for zero itself.
pub proof fn lemma_digits_of_number(n: nat)
    ensures
        decimal(n).len() > 0,
        number_of_digits(decimal(n)) == n,
        n > 0 ==> decimal(n)[0] != '0',
        forall|i: int| 0 <= i < decimal(n).len() ==> '0' <= #[trigger] decimal(n)[i] <= '9',
    decreases n,
{
    let t = decimal(n);
    reveal_with_fuel(number_of_digits, 2);
    assert(t.last() == digit(n % 10));
    assert(digit(n % 10) as u32 - '0' as u32 == n % 10);
    if n < 10 {
        assert(t.drop_last() =~= Seq::<char>::empty());
    } else {
        lemma_fundamental_div_mod(n as int, 10);
        lemma_digits_of_number(n / 10);
        assert(t.drop_last() =~= decimal(n / 10));
        assert(t[0] == decimal(n / 10)[0]);
    }
}

} // verus!
