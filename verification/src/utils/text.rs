//! Numbers as text.

use vstd::prelude::*;
use vstd::string::*;

verus! {

/// The character of a decimal digit.
pub open spec fn digit(d: nat) -> char {
    if d == 0 {
        '0'
    } else if d == 1 {
        '1'
    } else if d == 2 {
        '2'
    } else if d == 3 {
        '3'
    } else if d == 4 {
        '4'
    } else if d == 5 {
        '5'
    } else if d == 6 {
        '6'
    } else if d == 7 {
        '7'
    } else if d == 8 {
        '8'
    } else {
        '9'
    }
}

/// The decimal digits of a number, without leading zeros.
pub open spec fn decimal(n: nat) -> Seq<char>
    decreases n,
{
    if n < 10 {
        seq![digit(n)]
    } else {
        decimal(n / 10).push(digit(n % 10))
    }
}

fn digit_text(d: u64) -> (r: &'static str)
    requires
        d < 10,
    ensures
        r@ == seq![digit(d as nat)],
{
    proof {
        reveal_strlit("0");
        reveal_strlit("1");
        reveal_strlit("2");
        reveal_strlit("3");
        reveal_strlit("4");
        reveal_strlit("5");
        reveal_strlit("6");
        reveal_strlit("7");
        reveal_strlit("8");
        reveal_strlit("9");
    }
    let r = match d {
        0 => "0",
        1 => "1",
        2 => "2",
        3 => "3",
        4 => "4",
        5 => "5",
        6 => "6",
        7 => "7",
        8 => "8",
        _ => "9",
    };
    proof {
        assert(r@ =~= seq![digit(d as nat)]);
    }
    r
}

/// Appends a number in decimal.
pub fn push_decimal(s: &mut String, n: u64)
    ensures
        final(s)@ == old(s)@ + decimal(n as nat),
    decreases n,
{
    if n < 10 {
        s.append(digit_text(n));
    } else {
        push_decimal(s, n / 10);
        s.append(digit_text(n % 10));
        proof {
            assert(s@ =~= old(s)@ + decimal(n as nat));
        }
    }
}

/// Appends an index in decimal.
pub fn push_index(s: &mut String, n: usize)
    ensures
        final(s)@ == old(s)@ + decimal(n as nat),
{
    push_decimal(s, n as u64);
}

/// Whether two texts are the same.
pub fn same_text(a: &str, b: &str) -> (r: bool)
    ensures
        r == (a@ == b@),
{
    let n: usize = a.unicode_len();
    if n != b.unicode_len() {
        return false;
    }
    let mut i: usize = 0;
    while i < n
        invariant
            i <= n,
            n == a@.len(),
            n == b@.len(),
            forall|k: int| 0 <= k < i ==> #[trigger] a@[k] == b@[k],
        decreases n - i,
    {
        if a.get_char(i) != b.get_char(i) {
            return false;
        }
        i += 1;
    }
    proof {
        assert(a@ =~= b@);
    }
    true
}

/// One text comes before another in the order of a dictionary, from the `k`-th character on.
pub open spec fn precedes(a: Seq<char>, b: Seq<char>, k: nat) -> bool
    decreases b.len() - k,
{
    if k >= b.len() {
        false
    } else if k >= a.len() {
        true
    } else if a[k as int] == b[k as int] {
        precedes(a, b, k + 1)
    } else {
        (a[k as int] as int) < (b[k as int] as int)
    }
}

/// Of two different texts that agree up to a character one comes before the other.
pub proof fn lemma_one_first(a: Seq<char>, b: Seq<char>, k: nat)
    requires
        k <= a.len(),
        k <= b.len(),
        a.take(k as int) == b.take(k as int),
        a != b,
    ensures
        precedes(a, b, k) == !precedes(b, a, k),
    decreases a.len() - k,
{
    if k < a.len() && k < b.len() {
        if a[k as int] == b[k as int] {
            assert(a.take(k + 1int) =~= a.take(k as int).push(a[k as int]));
            assert(b.take(k + 1int) =~= b.take(k as int).push(b[k as int]));
            lemma_one_first(a, b, k + 1);
        }
    } else if k == a.len() && k == b.len() {
        assert(a =~= a.take(k as int));
        assert(b =~= b.take(k as int));
    }
}

/// No text comes before itself, and the order goes on from text to text.
pub proof fn lemma_first_on(a: Seq<char>, b: Seq<char>, c: Seq<char>, k: nat)
    ensures
        !precedes(a, a, k),
        precedes(a, b, k) && precedes(b, c, k) ==> precedes(a, c, k),
    decreases a.len() + b.len() + c.len() - 3 * k,
{
    if k < a.len() || k < b.len() || k < c.len() {
        if k < a.len() && k < b.len() && k < c.len() {
            lemma_first_on(a, b, c, k + 1);
        } else if k < a.len() {
            lemma_irreflexive(a, k);
        }
    }
}

proof fn lemma_irreflexive(a: Seq<char>, k: nat)
    ensures
        !precedes(a, a, k),
    decreases a.len() - k,
{
    if k < a.len() {
        lemma_irreflexive(a, k + 1);
    }
}

/// Whether one text comes before another in the order of a dictionary.
pub fn text_before(a: &str, b: &str) -> (r: bool)
    ensures
        r == precedes(a@, b@, 0),
{
    let n: usize = a.unicode_len();
    let m: usize = b.unicode_len();
    let mut i: usize = 0;
    while i < n && i < m
        invariant
            i <= n,
            i <= m,
            n == a@.len(),
            m == b@.len(),
            precedes(a@, b@, 0) == precedes(a@, b@, i as nat),
        decreases n - i,
    {
        let x = a.get_char(i);
        let y = b.get_char(i);
        if x != y {
            return x < y;
        }
        i += 1;
    }
    i < m
}

} // verus!
