//! Decimal rendering of indices, used when deriving a child's virtual-node id
//! from its position.

use vstd::prelude::*;

verus! {

/// The character for one decimal digit.
pub open spec fn spec_digit(d: nat) -> char {
    if d == 0 {
        '0'
    } else if d == 1 {
        '1'
    } else if d == 2 {
        '2'
    } else if d == 3 {
        '3'
    } else if d == 4 {
        '4'
    } else if d == 5 {
        '5'
    } else if d == 6 {
        '6'
    } else if d == 7 {
        '7'
    } else if d == 8 {
        '8'
    } else {
        '9'
    }
}

/// The decimal digits of `n`, most significant first, with no leading zeros
/// (a single `'0'` for zero itself).
pub open spec fn spec_decimal(n: nat) -> Seq<char>
    decreases n,
{
    if n < 10 {
        seq![spec_digit(n)]
    } else {
        spec_decimal(n / 10).push(spec_digit(n % 10))
    }
}

/// A one-character string slice for the digit `d`.
fn digit_str(d: u64) -> (r: &'static str)
    requires
        d < 10,
    ensures
        r@.len() == 1,
        r@[0] == spec_digit(d as nat),
{
    if d == 0 {
        proof {
            reveal_strlit("0");
        }
        "0"
    } else if d == 1 {
        proof {
            reveal_strlit("1");
        }
        "1"
    } else if d == 2 {
        proof {
            reveal_strlit("2");
        }
        "2"
    } else if d == 3 {
        proof {
            reveal_strlit("3");
        }
        "3"
    } else if d == 4 {
        proof {
            reveal_strlit("4");
        }
        "4"
    } else if d == 5 {
        proof {
            reveal_strlit("5");
        }
        "5"
    } else if d == 6 {
        proof {
            reveal_strlit("6");
        }
        "6"
    } else if d == 7 {
        proof {
            reveal_strlit("7");
        }
        "7"
    } else if d == 8 {
        proof {
            reveal_strlit("8");
        }
        "8"
    } else {
        proof {
            reveal_strlit("9");
        }
        "9"
    }
}

/// The digits `ds`, each below ten, read back to front.
spec fn rev_digits(ds: Seq<u64>) -> Seq<char> {
    Seq::new(ds.len(), |k: int| spec_digit(ds[ds.len() - 1 - k] as nat))
}

/// Renders `n` in decimal, most significant digit first.
pub fn u64_to_string(n: u64) -> (r: String)
    ensures
        r@ == spec_decimal(n as nat),
{
    let mut digits: Vec<u64> = Vec::new();
    let mut m: u64 = n;
    proof {
        assert(spec_decimal(n as nat) =~= spec_decimal(n as nat) + rev_digits(digits@));
    }

    while m >= 10
        invariant
            forall|i: int| 0 <= i < digits@.len() ==> digits@[i] < 10,
            spec_decimal(n as nat) == spec_decimal(m as nat) + rev_digits(digits@),
        decreases m,
    {
        let ghost pre = digits@;
        digits.push(m % 10);
        proof {
            assert(rev_digits(digits@) =~= seq![spec_digit((m % 10) as nat)] + rev_digits(pre));
            assert(spec_decimal(m as nat) == spec_decimal((m / 10) as nat).push(
                spec_digit((m % 10) as nat),
            ));
            assert(spec_decimal((m / 10) as nat) + rev_digits(digits@) =~= spec_decimal(m as nat)
                + rev_digits(pre));
        }
        m = m / 10;
    }
    let mut r: String = digit_str(m).to_owned();
    proof {
        assert(r@ =~= seq![spec_digit(m as nat)]);
    }
    let mut j: usize = digits.len();
    while j > 0
        invariant
            j <= digits@.len(),
            forall|i: int| 0 <= i < digits@.len() ==> digits@[i] < 10,
            spec_decimal(n as nat) == spec_decimal(m as nat) + rev_digits(digits@),
            m < 10,
            r@ == seq![spec_digit(m as nat)] + Seq::new(
                (digits@.len() - j) as nat,
                |k: int| spec_digit(digits@[digits@.len() - 1 - k] as nat),
            ),
        decreases j,
    {
        j = j - 1;
        let ghost pre = r@;
        let d = digits[j];
        r.append(digit_str(d));
        proof {
            assert(r@ =~= seq![spec_digit(m as nat)] + Seq::new(
                (digits@.len() - j) as nat,
                |k: int| spec_digit(digits@[digits@.len() - 1 - k] as nat),
            ));
        }
    }
    proof {
        assert(Seq::new(
            (digits@.len() - 0) as nat,
            |k: int| spec_digit(digits@[digits@.len() - 1 - k] as nat),
        ) =~= rev_digits(digits@));
        assert(r@ =~= spec_decimal(n as nat));
    }
    r
}

/// Renders an index in decimal, most significant digit first.
pub fn usize_to_string(n: usize) -> (r: String)
    ensures
        r@ == spec_decimal(n as nat),
{
    u64_to_string(n as u64)
}

/// The decimal text of a possibly negative integer.
pub open spec fn spec_int_decimal(n: int) -> Seq<char> {
    if n < 0 {
        seq!['-'] + spec_decimal((-n) as nat)
    } else {
        spec_decimal(n as nat)
    }
}

/// The decimal text of `n`, a leading minus sign for a negative value.
pub fn int_to_string(n: i64) -> (r: String)
    ensures
        r@ == spec_int_decimal(n as int),
{
    if n >= 0 {
        let r = u64_to_string(n as u64);
        proof {
            assert(r@ =~= spec_int_decimal(n as int));
        }
        r
    } else {
        proof {
            reveal_strlit("-");
        }
        let mut r = String::from_str("-");
        let mag: u64 = ((-(n + 1)) as u64) + 1;
        proof {
            assert(mag as int == -(n as int));
        }
        let d = u64_to_string(mag);
        r.append(d.as_str());
        proof {
            assert("-"@ =~= seq!['-']);
            assert(r@ =~= spec_int_decimal(n as int));
        }
        r
    }
}

} // verus!
