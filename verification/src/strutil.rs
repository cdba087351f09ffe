//! Building strings whose contents are pinned down: decimal renderings
//! and the MVCC row-key format `{table}/{col_index}/{pk}`.

use vstd::prelude::*;

verus! {

/// The digit character for one decimal digit.
pub open spec fn digit_char(d: int) -> char {
    if d == 0 {
        '0'
    } else if d == 1 {
        '1'
    } else if d == 2 {
        '2'
    } else if d == 3 {
        '3'
    } else if d == 4 {
        '4'
    } else if d == 5 {
        '5'
    } else if d == 6 {
        '6'
    } else if d == 7 {
        '7'
    } else if d == 8 {
        '8'
    } else {
        '9'
    }
}

/// The decimal rendering of a non-negative number, most significant digit
/// first and without leading zeroes.
pub open spec fn dec_digits(n: int) -> Seq<char>
    recommends
        n >= 0,
    decreases n,
{
    if n < 10 {
        seq![digit_char(n)]
    } else {
        dec_digits(n / 10).push(digit_char(n % 10))
    }
}

/// The decimal rendering of a signed number.
pub open spec fn int_str(n: int) -> Seq<char> {
    if n < 0 {
        seq!['-'] + dec_digits(-n)
    } else {
        dec_digits(n)
    }
}

/// Relies on `String::push`: appends exactly one character.
#[verifier::external_body]
pub(crate) fn push_char(s: &mut String, c: char)
    ensures
        final(s)@ == old(s)@.push(c),
{
    s.push(c);
}

fn digit_of(d: u64) -> (c: char)
    requires
        d < 10,
    ensures
        c == digit_char(d as int),
{
    if d == 0 {
        '0'
    } else if d == 1 {
        '1'
    } else if d == 2 {
        '2'
    } else if d == 3 {
        '3'
    } else if d == 4 {
        '4'
    } else if d == 5 {
        '5'
    } else if d == 6 {
        '6'
    } else if d == 7 {
        '7'
    } else if d == 8 {
        '8'
    } else {
        '9'
    }
}

fn push_dec(s: &mut String, n: u64)
    ensures
        final(s)@ == old(s)@ + dec_digits(n as int),
    decreases n,
{
    if n < 10 {
        push_char(s, digit_of(n));
        proof {
            assert(old(s)@.push(digit_char(n as int)) =~= old(s)@ + dec_digits(n as int));
        }
    } else {
        push_dec(s, n / 10);
        push_char(s, digit_of(n % 10));
        proof {
            assert((old(s)@ + dec_digits(n as int / 10)).push(digit_char(n as int % 10))
                =~= old(s)@ + dec_digits(n as int));
        }
    }
}

/// The decimal rendering of a `u64`.
pub fn u64_string(n: u64) -> (r: String)
    ensures
        r@ == dec_digits(n as int),
{
    let mut s = String::new();
    push_dec(&mut s, n);
    proof {
        assert(Seq::<char>::empty() + dec_digits(n as int) =~= dec_digits(n as int));
    }
    s
}

/// The decimal rendering of an `i64`, with a leading minus when negative.
pub fn i64_string(n: i64) -> (r: String)
    ensures
        r@ == int_str(n as int),
{
    if n >= 0 {
        u64_string(n as u64)
    } else {
        let mag: u64 = if n == i64::MIN {
            9223372036854775808u64
        } else {
            (-n) as u64
        };
        proof {
            assert(mag as int == -(n as int));
        }
        let mut s = String::new();
        push_char(&mut s, '-');
        push_dec(&mut s, mag);
        proof {
            assert(Seq::<char>::empty().push('-') =~= seq!['-']);
            assert(seq!['-'] + dec_digits(mag as int) =~= int_str(n as int));
        }
        s
    }
}

/// The MVCC row key for a primary-key value in a table.
pub open spec fn spec_row_key(table: Seq<char>, col_index: int, pk: Seq<char>) -> Seq<char> {
    table + seq!['/'] + dec_digits(col_index) + seq!['/'] + pk
}

/// Canonical key strings for the MVCC keyspace.
pub struct KeyFormat {}

impl KeyFormat {
    /// The key `{table}/{col_index}/{pk}`.
    pub fn row(table: &str, col_index: u64, pk: &str) -> (r: String)
        ensures
            r@ == spec_row_key(table@, col_index as int, pk@),
    {
        let mut s = table.to_owned();
        push_char(&mut s, '/');
        push_dec(&mut s, col_index);
        push_char(&mut s, '/');
        s.append(pk);
        proof {
            assert(s@ =~= spec_row_key(table@, col_index as int, pk@));
        }
        s
    }
}

} // verus!
