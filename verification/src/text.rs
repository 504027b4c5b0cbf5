//! Canonical text for operation sequences: the decimal rendering of
//! lengths and the `<length><code>` concatenation that
//! [`crate::cigar::Cigar::to_text`] produces and the parser inverts.

use crate::cigar::CigarOperation;
use crate::cigar::op_len;
use vstd::prelude::*;

verus! {

/// The decimal digit character for a value between 0 and 9.
pub open spec fn digit_char(d: int) -> char {
    if d == 0 {
        '0'
    } else if d == 1 {
        '1'
    } else if d == 2 {
        '2'
    } else if d == 3 {
        '3'
    } else if d == 4 {
        '4'
    } else if d == 5 {
        '5'
    } else if d == 6 {
        '6'
    } else if d == 7 {
        '7'
    } else if d == 8 {
        '8'
    } else {
        '9'
    }
}

/// The canonical decimal rendering of `n`: most significant digit
/// first, no leading zeros (`0` itself renders as `"0"`).
pub open spec fn dec_str(n: int) -> Seq<char>
    decreases n,
{
    if n < 10 {
        seq![digit_char(n)]
    } else {
        dec_str(n / 10) + seq![digit_char(n % 10)]
    }
}

/// The code letter of an operation; `*` for `Unaligned`.
pub open spec fn op_code(op: CigarOperation) -> char {
    match op {
        CigarOperation::Nskipped(_) => 'N',
        CigarOperation::Match(_) => 'M',
        CigarOperation::Insertion(_) => 'I',
        CigarOperation::Deletion(_) => 'D',
        CigarOperation::Soft(_) => 'S',
        CigarOperation::Hard(_) => 'H',
        CigarOperation::Padded(_) => 'P',
        CigarOperation::Unaligned => '*',
    }
}

/// The canonical text of one operation: its length, then its code;
/// the bare wildcard for `Unaligned`.
pub open spec fn op_text(op: CigarOperation) -> Seq<char> {
    if op is Unaligned {
        seq!['*']
    } else {
        dec_str(op_len(op)) + seq![op_code(op)]
    }
}

/// The canonical text of an operation sequence: the concatenation of
/// its operations' texts; empty for the empty sequence.
pub open spec fn spec_text(s: Seq<CigarOperation>) -> Seq<char>
    decreases s.len(),
{
    if s.len() == 0 {
        Seq::<char>::empty()
    } else {
        op_text(s[0]) + spec_text(s.drop_first())
    }
}

/// Relies on `String::push`: it appends exactly the given character.
#[verifier::external_body]
pub(crate) fn push_char(out: &mut String, c: char)
    ensures
        final(out)@ == old(out)@ + seq![c],
{
    out.push(c);
}

fn digit_to_char(d: i64) -> (c: char)
    requires
        0 <= d <= 9,
    ensures
        c == digit_char(d as int),
{
    match d {
        0 => '0',
        1 => '1',
        2 => '2',
        3 => '3',
        4 => '4',
        5 => '5',
        6 => '6',
        7 => '7',
        8 => '8',
        _ => '9',
    }
}

/// Appends the canonical decimal rendering of `n`, most significant
/// digit first.
pub(crate) fn push_decimal(out: &mut String, n: i64)
    requires
        n >= 0,
    ensures
        final(out)@ == old(out)@ + dec_str(n as int),
    decreases n,
{
    if n >= 10 {
        push_decimal(out, n / 10);
        push_char(out, digit_to_char(n % 10));
        proof {
            assert(out@ =~= old(out)@ + dec_str(n as int));
        }
    } else {
        push_char(out, digit_to_char(n));
    }
}

} // verus!
