//! The laws of the library, each a proved statement over the spec-level
//! algebra that the executable methods are specified against: queries
//! are repeatable, the junction list and `has_skipped` agree, the
//! cursor is monotone, interval containment agrees with the covered
//! blocks, and parsing inverts serialization on canonical text.

use crate::cigar::CigarOperation;
use crate::cigar::Strand;
use crate::cigar::digit_val;
use crate::cigar::is_dec_digit;
use crate::cigar::is_op_char;
use crate::cigar::lemma_ops_wf_skip;
use crate::cigar::lemma_ref_span_nonneg;
use crate::cigar::op_len;
use crate::cigar::op_of;
use crate::cigar::ops_wf;
use crate::cigar::ref_span;
use crate::cigar::ref_step;
use crate::cigar::scan_kind;
use crate::cigar::scan_ops;
use crate::cigar::spec_consume_ref;
use crate::cigar::spec_covered;
use crate::cigar::spec_end;
use crate::cigar::spec_fits;
use crate::cigar::spec_has_skip;
use crate::cigar::spec_junctions;
use crate::cigar::spec_soft_clipped_end;
use crate::cigar::spec_soft_clipped_n;
use crate::cigar::spec_parse;
use crate::cigar::que_span;
use crate::text::dec_str;
use crate::text::digit_char;
use crate::text::op_code;
use crate::text::spec_text;
use vstd::prelude::*;

verus! {

/// Queries are repeatable: each query's result is a function of the
/// operation sequence and the arguments alone, so two results that
/// both satisfy a query's contract for the same inputs are equal.
pub proof fn lemma_queries_repeatable(
    s: Seq<CigarOperation>,
    pos: int,
    st: int,
    en: int,
    strand: Strand,
    delta: i64,
    junctions1: Seq<int>,
    junctions2: Seq<int>,
    fits1: bool,
    fits2: bool,
    end1: int,
    end2: int,
    covered1: Seq<int>,
    covered2: Seq<int>,
    read_len1: int,
    read_len2: int,
    skip1: bool,
    skip2: bool,
    clip1: Option<i64>,
    clip2: Option<i64>,
    sig1: bool,
    sig2: bool,
)
    requires
        junctions1 == spec_junctions(s, pos),
        junctions2 == spec_junctions(s, pos),
        fits1 == spec_fits(s, pos, st, en),
        fits2 == spec_fits(s, pos, st, en),
        end1 == spec_end(s, pos),
        end2 == spec_end(s, pos),
        covered1 == spec_covered(s, pos),
        covered2 == spec_covered(s, pos),
        read_len1 == que_span(s),
        read_len2 == que_span(s),
        skip1 == spec_has_skip(s),
        skip2 == spec_has_skip(s),
        clip1 == spec_soft_clipped_n(s, strand),
        clip2 == spec_soft_clipped_n(s, strand),
        sig1 == spec_soft_clipped_end(s, strand, delta),
        sig2 == spec_soft_clipped_end(s, strand, delta),
    ensures
        junctions1 == junctions2,
        fits1 == fits2,
        end1 == end2,
        covered1 == covered2,
        read_len1 == read_len2,
        skip1 == skip2,
        clip1 == clip2,
        sig1 == sig2,
{
}

/// The reference span is zero exactly when no operation moves the
/// reference cursor.
proof fn lemma_ref_span_zero_iff(s: Seq<CigarOperation>)
    requires
        ops_wf(s),
    ensures
        ref_span(s) == 0 <==> (forall|i: int| 0 <= i < s.len() ==> ref_step(#[trigger] s[i]) == 0),
    decreases s.len(),
{
    if s.len() > 0 {
        let rest = s.drop_first();
        assert(forall|j: int| 0 <= j < rest.len() ==> #[trigger] rest[j] == s[j + 1]);
        assert(rest =~= s.skip(1));
        lemma_ops_wf_skip(s, 1);
        lemma_ref_span_zero_iff(rest);
        lemma_ref_span_nonneg(rest);
        assert(op_len(s[0]) >= 0);
        if ref_span(s) == 0 {
            assert(forall|i: int| 0 <= i < s.len() ==> ref_step(#[trigger] s[i]) == 0) by {
                assert(forall|i: int|
                    1 <= i < s.len() ==> ref_step(#[trigger] s[i]) == ref_step(rest[i - 1]));
            }
        }
        if forall|i: int| 0 <= i < s.len() ==> ref_step(#[trigger] s[i]) == 0 {
            assert(forall|j: int| 0 <= j < rest.len() ==> ref_step(#[trigger] rest[j]) == 0) by {
                assert(forall|j: int|
                    0 <= j < rest.len() ==> ref_step(#[trigger] rest[j]) == ref_step(s[j + 1]));
            }
            assert(ref_step(s[0]) == 0);
        }
    }
}

/// Monotonic cursor: the alignment never ends before it starts, it
/// ends exactly at the start when the reference span is zero, and —
/// when every reference-consuming operation has positive length — that
/// happens exactly when no operation consumes the reference at all.
pub proof fn lemma_alignment_end_monotonic(s: Seq<CigarOperation>, pos: int)
    requires
        ops_wf(s),
    ensures
        spec_end(s, pos) >= pos,
        spec_end(s, pos) == pos <==> ref_span(s) == 0,
        (forall|i: int|
            0 <= i < s.len() && spec_consume_ref(#[trigger] s[i]) ==> op_len(s[i]) > 0) ==> (
        spec_end(s, pos) == pos <==> !(exists|i: int|
            0 <= i < s.len() && spec_consume_ref(#[trigger] s[i]))),
{
    lemma_ref_span_nonneg(s);
    lemma_ref_span_zero_iff(s);
    if forall|i: int| 0 <= i < s.len() && spec_consume_ref(#[trigger] s[i]) ==> op_len(s[i]) > 0 {
        if spec_end(s, pos) == pos {
            assert(forall|i: int| 0 <= i < s.len() ==> ref_step(#[trigger] s[i]) == 0);
            assert(forall|i: int|
                0 <= i < s.len() ==> !spec_consume_ref(#[trigger] s[i])) by {
                assert(forall|i: int|
                    0 <= i < s.len() && spec_consume_ref(#[trigger] s[i]) ==> ref_step(s[i])
                        == op_len(s[i]));
            }
        }
        if !(exists|i: int| 0 <= i < s.len() && spec_consume_ref(#[trigger] s[i])) {
            assert(forall|i: int| 0 <= i < s.len() ==> ref_step(#[trigger] s[i]) == 0);
        }
    }
}

/// The `k`-th `[block_start, block_end)` pair of a flattened block
/// list contains the closed interval `[st, en]`.
pub open spec fn pair_covers(cov: Seq<int>, k: int, st: int, en: int) -> bool {
    2 * k + 1 < cov.len() && cov[2 * k] <= st && en <= cov[2 * k + 1]
}

/// Containment correctness: the closed interval `[st, en]` fits inside
/// a single match block exactly when it is a sub-interval of one of the
/// `[block_start, block_end)` pairs of the covered-blocks list.
pub proof fn lemma_containment_correct(s: Seq<CigarOperation>, pos: int, st: int, en: int)
    ensures
        spec_fits(s, pos, st, en) <==> exists|k: int|
            0 <= k && #[trigger] pair_covers(spec_covered(s, pos), k, st, en),
    decreases s.len(),
{
    if s.len() == 0 {
    } else {
        let rest = s.drop_first();
        let pos2 = pos + ref_step(s[0]);
        let cov = spec_covered(s, pos);
        let cov_rest = spec_covered(rest, pos2);
        lemma_containment_correct(rest, pos2, st, en);
        if s[0] is Match {
            assert(cov == seq![pos, pos + op_len(s[0])] + cov_rest);
            assert(cov[0] == pos && cov[1] == pos + op_len(s[0]));
            assert(forall|j: int| 0 <= j < cov_rest.len() ==> cov[j + 2] == #[trigger] cov_rest[j]);
            if spec_fits(s, pos, st, en) {
                if st >= pos && en <= pos + op_len(s[0]) {
                    assert(pair_covers(cov, 0, st, en));
                } else {
                    let k = choose|k: int| 0 <= k && #[trigger] pair_covers(cov_rest, k, st, en);
                    assert(cov[2 * (k + 1)] == cov_rest[2 * k]);
                    assert(cov[2 * (k + 1) + 1] == cov_rest[2 * k + 1]);
                    assert(pair_covers(cov, k + 1, st, en));
                }
            }
            if exists|k: int| 0 <= k && #[trigger] pair_covers(cov, k, st, en) {
                let k = choose|k: int| 0 <= k && #[trigger] pair_covers(cov, k, st, en);
                if k == 0 {
                    assert(spec_fits(s, pos, st, en));
                } else {
                    assert(cov[2 * k] == cov_rest[2 * (k - 1)]);
                    assert(cov[2 * k + 1] == cov_rest[2 * (k - 1) + 1]);
                    assert(pair_covers(cov_rest, k - 1, st, en));
                }
            }
        } else {
            assert(cov == cov_rest);
        }
    }
}

/// The digit characters carry their own values.
proof fn lemma_digit_char_val(d: int)
    requires
        0 <= d <= 9,
    ensures
        is_dec_digit(digit_char(d)),
        digit_val(digit_char(d)) == d,
{
}

/// Each operation's code letter is a recognized non-digit code that
/// parses back, with the operation's own length, to the operation.
proof fn lemma_op_code_inverts(op: CigarOperation)
    requires
        !(op is Unaligned),
    ensures
        is_op_char(op_code(op)),
        !is_dec_digit(op_code(op)),
        0 <= op_len(op) ==> op_of(op_code(op), op_len(op) as i64) == op,
        op_len(op) <= i64::MAX,
{
    match op {
        CigarOperation::Nskipped(_) => {},
        CigarOperation::Match(_) => {},
        CigarOperation::Insertion(_) => {},
        CigarOperation::Deletion(_) => {},
        CigarOperation::Soft(_) => {},
        CigarOperation::Hard(_) => {},
        CigarOperation::Padded(_) => {},
        CigarOperation::Unaligned => {},
    }
}

/// Scanning the decimal rendering of `m` from an empty accumulator
/// accumulates exactly `m` and goes on with the remaining text.
proof fn lemma_scan_dec(m: int, rest: Seq<char>)
    requires
        0 <= m <= i64::MAX,
    ensures
        scan_kind(dec_str(m) + rest, 0) == scan_kind(rest, m),
        scan_ops(dec_str(m) + rest, 0) == scan_ops(rest, m),
    decreases m,
{
    if m < 10 {
        lemma_digit_char_val(m);
        let t = dec_str(m) + rest;
        assert(t[0] == digit_char(m));
        assert(t.drop_first() =~= rest);
        assert(0 * 10 + digit_val(digit_char(m)) == m);
    } else {
        vstd::arithmetic::div_mod::lemma_fundamental_div_mod(m, 10);
        vstd::arithmetic::div_mod::lemma_mod_bound(m, 10);
        let q = m / 10;
        let r = m % 10;
        lemma_digit_char_val(r);
        let rest2 = seq![digit_char(r)] + rest;
        assert(dec_str(m) + rest =~= dec_str(q) + rest2);
        lemma_scan_dec(q, rest2);
        assert(rest2[0] == digit_char(r));
        assert(rest2.drop_first() =~= rest);
        assert(q * 10 + digit_val(digit_char(r)) == m);
    }
}

/// Round trip: an operation list (with no stray `Unaligned` marker)
/// parses back from its canonical text to exactly itself. Since the
/// canonical texts are precisely the CIGAR strings without leading
/// zeros, a `Cigar` built from such a string re-serializes to it.
pub proof fn lemma_round_trip(ops: Seq<CigarOperation>)
    requires
        ops_wf(ops),
        forall|i: int| 0 <= i < ops.len() ==> !(#[trigger] ops[i] is Unaligned),
    ensures
        scan_kind(spec_text(ops), 0) is Ops,
        scan_ops(spec_text(ops), 0) == ops,
        spec_parse(spec_text(ops)) == Some(ops),
    decreases ops.len(),
{
    if ops.len() == 0 {
        assert(spec_text(ops) =~= Seq::<char>::empty());
        assert(scan_ops(spec_text(ops), 0) =~= ops);
    } else {
        let op = ops[0];
        let rest = ops.drop_first();
        assert(rest =~= ops.skip(1));
        lemma_ops_wf_skip(ops, 1);
        assert(forall|j: int| 0 <= j < rest.len() ==> #[trigger] rest[j] == ops[j + 1]);
        lemma_round_trip(rest);
        let l = op_len(op);
        lemma_op_code_inverts(op);
        assert(0 <= l <= i64::MAX);
        let code = op_code(op);
        let t_rest = spec_text(rest);
        let tail = seq![code] + t_rest;
        assert(spec_text(ops) =~= dec_str(l) + tail);
        lemma_scan_dec(l, tail);
        assert(tail[0] == code);
        assert(tail.drop_first() =~= t_rest);
        assert(op_of(code, l as i64) == op);
        assert(scan_ops(tail, l) == seq![op] + scan_ops(t_rest, 0));
        assert(seq![op] + rest =~= ops);
    }
}

} // verus!
