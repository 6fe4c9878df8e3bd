//! Character-level string helpers: comparison, prefix test, and decimal
//! formatting of counts.

use vstd::prelude::*;
use vstd::string::{StrSliceExecFns, StringExecFns};

verus! {

/// Exact text equality of two string slices.
pub fn str_eq(a: &str, b: &str) -> (r: bool)
    ensures
        r == (a@ == b@),
{
    let na = a.unicode_len();
    let nb = b.unicode_len();
    if na != nb {
        proof {
            assert(a@ != b@);
        }
        return false;
    }
    let mut i: usize = 0;
    while i < na
        invariant
            i <= na,
            na == a@.len(),
            na == b@.len(),
            forall|j: int| 0 <= j < i ==> a@[j] == b@[j],
        decreases na - i,
    {
        if a.get_char(i) != b.get_char(i) {
            return false;
        }
        i = i + 1;
    }
    proof {
        assert(a@ =~= b@);
    }
    true
}

/// Whether the text of `t` begins with the text of `p`.
pub fn str_starts_with(t: &str, p: &str) -> (r: bool)
    ensures
        r == p@.is_prefix_of(t@),
{
    let nt = t.unicode_len();
    let np = p.unicode_len();
    if np > nt {
        proof {
            assert(!p@.is_prefix_of(t@));
        }
        return false;
    }
    let mut i: usize = 0;
    while i < np
        invariant
            i <= np <= nt,
            np == p@.len(),
            nt == t@.len(),
            forall|j: int| 0 <= j < i ==> p@[j] == t@[j],
        decreases np - i,
    {
        if p.get_char(i) != t.get_char(i) {
            proof {
                assert(!p@.is_prefix_of(t@));
            }
            return false;
        }
        i = i + 1;
    }
    proof {
        assert(p@ =~= t@.subrange(0, np as int));
    }
    true
}

/// The decimal digit character for a value below ten.
pub open spec fn digit_char(d: int) -> char {
    if d == 0 {
        '0'
    } else if d == 1 {
        '1'
    } else if d == 2 {
        '2'
    } else if d == 3 {
        '3'
    } else if d == 4 {
        '4'
    } else if d == 5 {
        '5'
    } else if d == 6 {
        '6'
    } else if d == 7 {
        '7'
    } else if d == 8 {
        '8'
    } else {
        '9'
    }
}

/// Decimal digits of a non-negative value, most significant first.
pub open spec fn dec_digits(n: int) -> Seq<char>
    decreases n,
{
    if n < 10 {
        seq![digit_char(n)]
    } else {
        dec_digits(n / 10).push(digit_char(n % 10))
    }
}

/// Decimal digits padded with one leading zero below ten, as `{:02}` pads.
pub open spec fn pad2(n: int) -> Seq<char> {
    if n < 10 {
        seq!['0'] + dec_digits(n)
    } else {
        dec_digits(n)
    }
}

/// One decimal digit as text.
fn digit_str(d: u64) -> (r: &'static str)
    requires
        d < 10,
    ensures
        r@ == seq![digit_char(d as int)],
{
    proof {
        reveal_strlit("0");
        reveal_strlit("1");
        reveal_strlit("2");
        reveal_strlit("3");
        reveal_strlit("4");
        reveal_strlit("5");
        reveal_strlit("6");
        reveal_strlit("7");
        reveal_strlit("8");
        reveal_strlit("9");
    }
    let r: &'static str = if d == 0 {
        "0"
    } else if d == 1 {
        "1"
    } else if d == 2 {
        "2"
    } else if d == 3 {
        "3"
    } else if d == 4 {
        "4"
    } else if d == 5 {
        "5"
    } else if d == 6 {
        "6"
    } else if d == 7 {
        "7"
    } else if d == 8 {
        "8"
    } else {
        "9"
    };
    proof {
        assert(r@ =~= seq![digit_char(d as int)]);
    }
    r
}

/// A value in decimal, as `{}` formats it.
pub fn u64_to_string(v: u64) -> (r: String)
    ensures
        r@ == dec_digits(v as int),
    decreases v,
{
    if v < 10 {
        digit_str(v).to_owned()
    } else {
        let mut s = u64_to_string(v / 10);
        s.append(digit_str(v % 10));
        proof {
            assert(dec_digits((v / 10) as int) + seq![digit_char((v % 10) as int)] =~= dec_digits(
                v as int,
            ));
        }
        s
    }
}

/// A value in decimal padded to two places, as `{:02}` formats it.
pub fn u64_to_string_pad2(v: u64) -> (r: String)
    ensures
        r@ == pad2(v as int),
{
    if v < 10 {
        let mut s = String::from_str("0");
        s.append(digit_str(v));
        proof {
            reveal_strlit("0");
            assert("0"@ + seq![digit_char(v as int)] =~= pad2(v as int));
        }
        s
    } else {
        u64_to_string(v)
    }
}

} // verus!
