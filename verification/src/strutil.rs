//! Small verified helpers for building and comparing strings.

use vstd::prelude::*;

verus! {

pub assume_specification[ String::push ](s: &mut String, c: char)
    ensures
        final(s)@ == old(s)@.push(c),
;

/// The decimal digits of `n`, most significant first.
pub open spec fn spec_decimal(n: nat) -> Seq<char>
    decreases n,
{
    if n < 10 {
        seq![digit_char(n)]
    } else {
        spec_decimal(n / 10).push(digit_char(n % 10))
    }
}

pub open spec fn digit_char(d: nat) -> char {
    if d == 0 {
        '0'
    } else if d == 1 {
        '1'
    } else if d == 2 {
        '2'
    } else if d == 3 {
        '3'
    } else if d == 4 {
        '4'
    } else if d == 5 {
        '5'
    } else if d == 6 {
        '6'
    } else if d == 7 {
        '7'
    } else if d == 8 {
        '8'
    } else {
        '9'
    }
}

fn digit_to_char(d: usize) -> (c: char)
    requires
        d < 10,
    ensures
        c == digit_char(d as nat),
{
    if d == 0 {
        '0'
    } else if d == 1 {
        '1'
    } else if d == 2 {
        '2'
    } else if d == 3 {
        '3'
    } else if d == 4 {
        '4'
    } else if d == 5 {
        '5'
    } else if d == 6 {
        '6'
    } else if d == 7 {
        '7'
    } else if d == 8 {
        '8'
    } else {
        '9'
    }
}

/// Renders `n` in decimal.
pub fn decimal_string(n: usize) -> (r: String)
    ensures
        r@ == spec_decimal(n as nat),
{
    let mut digits: Vec<char> = Vec::new();
    let mut m: usize = n;
    proof {
        assert(spec_decimal(n as nat) =~= spec_decimal(m as nat) + digits@.reverse());
    }
    while m >= 10
        invariant
            spec_decimal(n as nat) == spec_decimal(m as nat) + digits@.reverse(),
        decreases m,
    {
        let ghost prev = digits@;
        let d = digit_to_char(m % 10);
        digits.push(d);
        proof {
            assert(digits@.reverse() =~= seq![digit_char((m % 10) as nat)] + prev.reverse());
            assert(spec_decimal((m / 10) as nat).push(digit_char((m % 10) as nat)) + prev.reverse()
                =~= spec_decimal((m / 10) as nat) + digits@.reverse());
        }
        m = m / 10;
    }
    let ghost prev = digits@;
    let d = digit_to_char(m);
    digits.push(d);
    proof {
        assert(digits@.reverse() =~= seq![digit_char(m as nat)] + prev.reverse());
        assert(spec_decimal(m as nat) + prev.reverse() =~= digits@.reverse());
    }
    let mut r = String::new();
    let mut i: usize = digits.len();
    while i > 0
        invariant
            i <= digits@.len(),
            r@ == digits@.reverse().take(digits@.len() - i),
        decreases i,
    {
        i = i - 1;
        let c = digits[i];
        r.push(c);
        proof {
            assert(digits@.reverse().take(digits@.len() - i)
                =~= digits@.reverse().take(digits@.len() - (i + 1)).push(digits@[i as int]));
        }
    }
    proof {
        assert(digits@.reverse().take(digits@.len() as int) =~= digits@.reverse());
    }
    r
}

/// A string of `n` space characters.
pub open spec fn spec_spaces(n: nat) -> Seq<char>
    decreases n,
{
    if n == 0 {
        Seq::empty()
    } else {
        spec_spaces((n - 1) as nat).push(' ')
    }
}

pub fn space_string(n: usize) -> (r: String)
    ensures
        r@ == spec_spaces(n as nat),
{
    let mut r = String::new();
    let mut i: usize = 0;
    while i < n
        invariant
            i <= n,
            r@ == spec_spaces(i as nat),
        decreases n - i,
    {
        r.push(' ');
        i = i + 1;
    }
    r
}


pub proof fn lemma_decimal_len(n: nat)
    ensures
        spec_decimal(n).len() >= 1,
    decreases n,
{
    if n >= 10 {
        lemma_decimal_len(n / 10);
    }
}

/// Distinct numbers render as distinct digit strings.
pub proof fn lemma_decimal_injective(a: nat, b: nat)
    requires
        spec_decimal(a) == spec_decimal(b),
    ensures
        a == b,
    decreases a,
{
    if a < 10 && b < 10 {
        assert(spec_decimal(a)[0] == digit_char(a) && spec_decimal(b)[0] == digit_char(b));
    } else if a < 10 {
        lemma_decimal_len(b / 10);
        assert(spec_decimal(a).len() == 1);
        assert(spec_decimal(b).len() == spec_decimal(b / 10).len() + 1);
    } else if b < 10 {
        lemma_decimal_len(a / 10);
        assert(spec_decimal(b).len() == 1);
        assert(spec_decimal(a).len() == spec_decimal(a / 10).len() + 1);
    } else {
        assert(spec_decimal(a).last() == digit_char(a % 10));
        assert(spec_decimal(b).last() == digit_char(b % 10));
        assert(a % 10 == b % 10);
        assert(spec_decimal(a).drop_last() =~= spec_decimal(a / 10));
        assert(spec_decimal(b).drop_last() =~= spec_decimal(b / 10));
        lemma_decimal_injective(a / 10, b / 10);
    }
}

} // verus!
