//! The CIGAR operation model, the parser, and the reference-coordinate
//! queries, together with the spec-level algebra they are verified against.

use vstd::prelude::*;

verus! {

use vstd::std_specs::iter::IteratorSpec;

/// One length-tagged CIGAR operation.
///
/// Lengths are `i64`: wide enough for genomic coordinates, and every
/// stored length is non-negative (an invariant of [`Cigar`]).
/// The extended `X`/`=` codes of some dialects are not part of the model.
#[derive(Debug, PartialEq, Eq, Structural, Clone, Copy)]
pub enum CigarOperation {
    Nskipped(i64),
    Match(i64),
    Insertion(i64),
    Deletion(i64),
    Soft(i64),
    Hard(i64),
    Padded(i64),
    Unaligned,
}

/// The three-valued read orientation consumed by the soft-clip queries.
///
/// `NA` stands for an unknown or unstranded read and has deliberate
/// behaviour of its own (the soft-clip queries report nothing for it),
/// so the orientation is a closed enumeration rather than a boolean.
#[derive(Debug, PartialEq, Eq, Structural, Clone, Copy)]
pub enum Strand {
    Plus,
    Minus,
    NA,
}

/// The single parse failure: a character that is neither a digit, a
/// recognized operation code, nor the `*` wildcard.
#[derive(Debug, PartialEq, Eq, Structural, Clone, Copy)]
pub enum CigarError {
    ParseCigarError,
}

/// The length carried by an operation; zero for `Unaligned`.
pub open spec fn op_len(op: CigarOperation) -> int {
    match op {
        CigarOperation::Nskipped(n) => n as int,
        CigarOperation::Match(n) => n as int,
        CigarOperation::Insertion(n) => n as int,
        CigarOperation::Deletion(n) => n as int,
        CigarOperation::Soft(n) => n as int,
        CigarOperation::Hard(n) => n as int,
        CigarOperation::Padded(n) => n as int,
        CigarOperation::Unaligned => 0,
    }
}

/// Whether an operation advances the reference coordinate:
/// match, deletion and skip do; the others do not.
pub open spec fn spec_consume_ref(op: CigarOperation) -> bool {
    op is Nskipped || op is Match || op is Deletion
}

/// Whether an operation advances the read (query) coordinate:
/// match, insertion and soft clip do; the others do not.
pub open spec fn spec_consume_que(op: CigarOperation) -> bool {
    op is Match || op is Insertion || op is Soft
}

impl CigarOperation {
    /// Does this operation consume positions of the reference sequence?
    pub fn consume_ref(&self) -> (r: bool)
        ensures
            r == spec_consume_ref(*self),
    {
        match self {
            CigarOperation::Nskipped(_) => true,
            CigarOperation::Match(_) => true,
            CigarOperation::Deletion(_) => true,
            _ => false,
        }
    }

    /// Does this operation consume positions of the read (query) sequence?
    pub fn consume_que(&self) -> (r: bool)
        ensures
            r == spec_consume_que(*self),
    {
        match self {
            CigarOperation::Match(_) => true,
            CigarOperation::Insertion(_) => true,
            CigarOperation::Soft(_) => true,
            _ => false,
        }
    }
}

/// How far an operation advances the reference cursor.
pub open spec fn ref_step(op: CigarOperation) -> int {
    if spec_consume_ref(op) {
        op_len(op)
    } else {
        0
    }
}

/// How far an operation advances the read (query) cursor.
pub open spec fn que_step(op: CigarOperation) -> int {
    if spec_consume_que(op) {
        op_len(op)
    } else {
        0
    }
}

/// Every stored length is non-negative.
pub open spec fn ops_wf(s: Seq<CigarOperation>) -> bool {
    forall|i: int| 0 <= i < s.len() ==> op_len(#[trigger] s[i]) >= 0
}

/// Total distance the reference cursor moves over `s`.
pub open spec fn ref_span(s: Seq<CigarOperation>) -> int
    decreases s.len(),
{
    if s.len() == 0 {
        0
    } else {
        ref_step(s[0]) + ref_span(s.drop_first())
    }
}

/// Total distance the read cursor moves over `s`: the read length.
pub open spec fn que_span(s: Seq<CigarOperation>) -> int
    decreases s.len(),
{
    if s.len() == 0 {
        0
    } else {
        que_step(s[0]) + que_span(s.drop_first())
    }
}

/// The final reference cursor of an alignment over `s` seeded at `pos`.
pub open spec fn spec_end(s: Seq<CigarOperation>, pos: int) -> int {
    pos + ref_span(s)
}

/// At least one skip operation occurs in `s`.
pub open spec fn spec_has_skip(s: Seq<CigarOperation>) -> bool {
    exists|i: int| 0 <= i < s.len() && #[trigger] s[i] is Nskipped
}

/// The junction boundaries of an alignment over `s` seeded at `pos`:
/// for each skip operation, in encounter order, the cursor before it
/// (end of the preceding aligned block) and the cursor after it (start
/// of the following aligned block).
pub open spec fn spec_junctions(s: Seq<CigarOperation>, pos: int) -> Seq<int>
    decreases s.len(),
{
    if s.len() == 0 {
        Seq::<int>::empty()
    } else {
        let rest = spec_junctions(s.drop_first(), pos + ref_step(s[0]));
        if s[0] is Nskipped {
            seq![pos, pos + op_len(s[0])] + rest
        } else {
            rest
        }
    }
}

/// The reference intervals covered by match operations, flattened: one
/// `[block_start, block_end)` pair per match, in encounter order.
pub open spec fn spec_covered(s: Seq<CigarOperation>, pos: int) -> Seq<int>
    decreases s.len(),
{
    if s.len() == 0 {
        Seq::<int>::empty()
    } else {
        let rest = spec_covered(s.drop_first(), pos + ref_step(s[0]));
        if s[0] is Match {
            seq![pos, pos + op_len(s[0])] + rest
        } else {
            rest
        }
    }
}

/// Some single match block of the alignment over `s` seeded at `pos`
/// spans the whole closed interval `[st, en]`.
pub open spec fn spec_fits(s: Seq<CigarOperation>, pos: int, st: int, en: int) -> bool
    decreases s.len(),
{
    if s.len() == 0 {
        false
    } else {
        (s[0] is Match && st >= pos && en <= pos + op_len(s[0])) || spec_fits(
            s.drop_first(),
            pos + ref_step(s[0]),
            st,
            en,
        )
    }
}

/// The number of soft-clipped bases at the strand-appropriate end:
/// the first operation for a minus-strand read, the last for a
/// plus-strand read; nothing for an unknown orientation, a relevant
/// end that is not a soft clip, or an empty operation sequence.
pub open spec fn spec_soft_clipped_n(s: Seq<CigarOperation>, strand: Strand) -> Option<i64> {
    match strand {
        Strand::Minus => if s.len() > 0 && s[0] is Soft {
            Some(s[0]->Soft_0)
        } else {
            None
        },
        Strand::Plus => if s.len() > 0 && s.last() is Soft {
            Some(s.last()->Soft_0)
        } else {
            None
        },
        Strand::NA => None,
    }
}

/// The strand-appropriate end is a soft clip whose length strictly
/// exceeds `delta`.
pub open spec fn spec_soft_clipped_end(s: Seq<CigarOperation>, strand: Strand, delta: i64) -> bool {
    match strand {
        Strand::Minus => s.len() > 0 && s[0] is Soft && s[0]->Soft_0 > delta,
        Strand::Plus => s.len() > 0 && s.last() is Soft && s.last()->Soft_0 > delta,
        Strand::NA => false,
    }
}

/// A sequence of machine integers as mathematical integers.
pub open spec fn to_ints(v: Seq<i64>) -> Seq<int> {
    v.map_values(|x: i64| x as int)
}

/// A decimal digit, `'0'` through `'9'`.
pub open spec fn is_dec_digit(c: char) -> bool {
    48 <= c as u32 <= 57
}

/// The numeric value of a decimal digit character.
pub open spec fn digit_val(c: char) -> int {
    c as u32 - 48
}

/// A recognized operation code. The dialect codes `X` and `=` are not
/// among them and make a string malformed.
pub open spec fn is_op_char(c: char) -> bool {
    c == 'M' || c == 'I' || c == 'D' || c == 'N' || c == 'S' || c == 'H' || c == 'P'
}

/// The operation a code letter denotes, carrying the accumulated length.
pub open spec fn op_of(c: char, len: i64) -> CigarOperation {
    if c == 'M' {
        CigarOperation::Match(len)
    } else if c == 'I' {
        CigarOperation::Insertion(len)
    } else if c == 'D' {
        CigarOperation::Deletion(len)
    } else if c == 'N' {
        CigarOperation::Nskipped(len)
    } else if c == 'S' {
        CigarOperation::Soft(len)
    } else if c == 'H' {
        CigarOperation::Hard(len)
    } else {
        CigarOperation::Padded(len)
    }
}

/// How a left-to-right scan of a CIGAR string ends.
pub enum ScanKind {
    /// Every token is well formed: the scan yields an operation list.
    Ops,
    /// A `*` wildcard was reached: the whole parse collapses to an
    /// empty operation list, whatever came before or after.
    Unaligned,
    /// A character that is no digit, no operation code and no `*`, or
    /// a length too large for an `i64`.
    Bad,
}

/// The outcome of scanning `s` with `acc` already accumulated: digits
/// extend `acc`, an operation code emits and resets, `*` short-circuits,
/// anything else is malformed.
pub open spec fn scan_kind(s: Seq<char>, acc: int) -> ScanKind
    decreases s.len(),
{
    if s.len() == 0 {
        ScanKind::Ops
    } else {
        let c = s[0];
        if is_dec_digit(c) {
            if acc * 10 + digit_val(c) <= i64::MAX {
                scan_kind(s.drop_first(), acc * 10 + digit_val(c))
            } else {
                ScanKind::Bad
            }
        } else if is_op_char(c) {
            scan_kind(s.drop_first(), 0)
        } else if c == '*' {
            ScanKind::Unaligned
        } else {
            ScanKind::Bad
        }
    }
}

/// The operations a scan of `s` emits, meaningful when the scan ends in
/// [`ScanKind::Ops`].
pub open spec fn scan_ops(s: Seq<char>, acc: int) -> Seq<CigarOperation>
    decreases s.len(),
{
    if s.len() == 0 {
        Seq::<CigarOperation>::empty()
    } else {
        let c = s[0];
        if is_dec_digit(c) {
            if acc * 10 + digit_val(c) <= i64::MAX {
                scan_ops(s.drop_first(), acc * 10 + digit_val(c))
            } else {
                Seq::<CigarOperation>::empty()
            }
        } else if is_op_char(c) {
            seq![op_of(c, acc as i64)] + scan_ops(s.drop_first(), 0)
        } else {
            Seq::<CigarOperation>::empty()
        }
    }
}

/// What parsing `s` yields: `None` exactly on malformed input; the
/// scanned operations otherwise, collapsed to the empty list when a
/// `*` wildcard short-circuits the scan.
pub open spec fn spec_parse(s: Seq<char>) -> Option<Seq<CigarOperation>> {
    match scan_kind(s, 0) {
        ScanKind::Ops => Some(scan_ops(s, 0)),
        ScanKind::Unaligned => Some(Seq::<CigarOperation>::empty()),
        ScanKind::Bad => None,
    }
}

pub proof fn lemma_ref_span_nonneg(s: Seq<CigarOperation>)
    requires
        ops_wf(s),
    ensures
        ref_span(s) >= 0,
    decreases s.len(),
{
    if s.len() > 0 {
        assert(op_len(s[0]) >= 0);
        assert(forall|i: int| 0 <= i < s.drop_first().len() ==> op_len(
            #[trigger] s.drop_first()[i],
        ) >= 0) by {
            assert(forall|i: int| 0 <= i < s.drop_first().len() ==> s.drop_first()[i] == s[i + 1]);
        }
        lemma_ref_span_nonneg(s.drop_first());
    }
}

pub proof fn lemma_que_span_nonneg(s: Seq<CigarOperation>)
    requires
        ops_wf(s),
    ensures
        que_span(s) >= 0,
    decreases s.len(),
{
    if s.len() > 0 {
        assert(op_len(s[0]) >= 0);
        assert(forall|i: int| 0 <= i < s.drop_first().len() ==> op_len(
            #[trigger] s.drop_first()[i],
        ) >= 0) by {
            assert(forall|i: int| 0 <= i < s.drop_first().len() ==> s.drop_first()[i] == s[i + 1]);
        }
        lemma_que_span_nonneg(s.drop_first());
    }
}

/// Dropping the head of the suffix at `i` gives the suffix at `i + 1`,
/// so both span sums lose exactly the step of `s[i]`.
pub proof fn lemma_span_skip_unfold(s: Seq<CigarOperation>, i: int)
    requires
        0 <= i < s.len(),
    ensures
        ref_span(s.skip(i)) == ref_step(s[i]) + ref_span(s.skip(i + 1)),
        que_span(s.skip(i)) == que_step(s[i]) + que_span(s.skip(i + 1)),
{
    assert(s.skip(i).drop_first() =~= s.skip(i + 1));
    assert(s.skip(i)[0] == s[i]);
}

/// Unfolds the scan of each query one operation further into the suffix.
pub proof fn lemma_scan_skip_unfold(s: Seq<CigarOperation>, i: int, pos: int, st: int, en: int)
    requires
        0 <= i < s.len(),
    ensures
        spec_junctions(s.skip(i), pos) == if s[i] is Nskipped {
            seq![pos, pos + op_len(s[i])] + spec_junctions(s.skip(i + 1), pos + ref_step(s[i]))
        } else {
            spec_junctions(s.skip(i + 1), pos + ref_step(s[i]))
        },
        spec_covered(s.skip(i), pos) == if s[i] is Match {
            seq![pos, pos + op_len(s[i])] + spec_covered(s.skip(i + 1), pos + ref_step(s[i]))
        } else {
            spec_covered(s.skip(i + 1), pos + ref_step(s[i]))
        },
        spec_fits(s.skip(i), pos, st, en) == ((s[i] is Match && st >= pos && en <= pos + op_len(
            s[i],
        )) || spec_fits(s.skip(i + 1), pos + ref_step(s[i]), st, en)),
{
    assert(s.skip(i).drop_first() =~= s.skip(i + 1));
    assert(s.skip(i)[0] == s[i]);
}

/// Appending one element commutes with reading a sequence of machine
/// integers as mathematical integers.
pub proof fn lemma_to_ints_push(v: Seq<i64>, x: i64)
    ensures
        to_ints(v.push(x)) =~= to_ints(v).push(x as int),
{
}

/// For a non-negative bound `m` and a digit `d`, extending `x` by that
/// digit stays within `m` exactly when `x` is at most `(m - d) / 10`:
/// the overflow test the parser runs before each accumulation step.
proof fn lemma_digit_accumulation_bound(x: int, d: int, m: int)
    requires
        0 <= d < 10,
        0 <= x,
        d <= m,
    ensures
        x <= (m - d) / 10 <==> x * 10 + d <= m,
{
    vstd::arithmetic::div_mod::lemma_fundamental_div_mod(m - d, 10);
    vstd::arithmetic::div_mod::lemma_mod_bound(m - d, 10);
    let q = (m - d) / 10;
    if x <= q {
        assert(x * 10 <= q * 10);
    }
    if x * 10 + d <= m {
        assert(x * 10 <= q * 10 + (m - d) % 10);
        assert(x * 10 < (q + 1) * 10);
    }
}

pub proof fn lemma_ops_wf_skip(s: Seq<CigarOperation>, i: int)
    requires
        ops_wf(s),
        0 <= i <= s.len(),
    ensures
        ops_wf(s.skip(i)),
{
    assert(forall|k: int| 0 <= k < s.skip(i).len() ==> #[trigger] s.skip(i)[k] == s[i + k]);
}

/// The junction list is non-empty exactly when a skip operation is
/// present, whatever the start position: each skip contributes two
/// boundaries, and nothing else contributes any.
pub proof fn lemma_junctions_iff_has_skip(s: Seq<CigarOperation>, pos: int)
    ensures
        spec_junctions(s, pos).len() > 0 <==> spec_has_skip(s),
    decreases s.len(),
{
    if s.len() == 0 {
        assert(!spec_has_skip(s));
    } else {
        let rest = s.drop_first();
        assert(forall|j: int| 0 <= j < rest.len() ==> #[trigger] rest[j] == s[j + 1]);
        lemma_junctions_iff_has_skip(rest, pos + ref_step(s[0]));
        if s[0] is Nskipped {
            assert(spec_has_skip(s));
        } else {
            if spec_has_skip(s) {
                let i = choose|i: int| 0 <= i < s.len() && #[trigger] s[i] is Nskipped;
                assert(rest[i - 1] is Nskipped);
                assert(spec_has_skip(rest));
            }
            if spec_has_skip(rest) {
                let j = choose|j: int| 0 <= j < rest.len() && #[trigger] rest[j] is Nskipped;
                assert(s[j + 1] is Nskipped);
                assert(spec_has_skip(s));
            }
        }
    }
}

/// An ordered, immutable sequence of CIGAR operations.
///
/// Built once — by [`Cigar::from_str`], [`Cigar::from`] or
/// [`Cigar::new`] — and then only read through the query methods.
/// The `*` wildcard and the empty string both parse to an empty
/// operation sequence, on which every query reports "no information".
#[derive(Debug)]
pub struct Cigar {
    cigar: Vec<CigarOperation>,
}

impl Cigar {
    /// Every length carried by a stored operation is non-negative, so
    /// the coordinate queries only ever move their cursor forward.
    #[verifier::type_invariant]
    spec fn wf(self) -> bool {
        ops_wf(self.cigar@)
    }
}

impl PartialEq for Cigar {
    /// Two `Cigar`s are equal when they hold the same operations in
    /// the same order.
    fn eq(&self, other: &Cigar) -> (r: bool) {
        let n = self.cigar.len();
        if n != other.cigar.len() {
            return false;
        }
        let mut i: usize = 0;
        while i < n
            invariant
                0 <= i <= n,
                n == self.cigar.len(),
                n == other.cigar.len(),
                forall|k: int| 0 <= k < i ==> self.cigar@[k] == other.cigar@[k],
            decreases n - i,
        {
            let same = self.cigar[i] == other.cigar[i];
            if !same {
                return false;
            }
            i = i + 1;
        }
        proof {
            assert(self.cigar@ =~= other.cigar@);
        }
        true
    }
}

impl vstd::std_specs::cmp::PartialEqSpecImpl for Cigar {
    open spec fn obeys_eq_spec() -> bool {
        true
    }

    open spec fn eq_spec(&self, other: &Cigar) -> bool {
        self@ == other@
    }
}

impl View for Cigar {
    type V = Seq<CigarOperation>;

    closed spec fn view(&self) -> Seq<CigarOperation> {
        self.cigar@
    }
}

impl Cigar {
    /// Builds a `Cigar` directly from an operation list.
    pub fn new(ops: Vec<CigarOperation>) -> (r: Cigar)
        requires
            ops_wf(ops@),
        ensures
            r@ == ops@,
            ops_wf(r@),
    {
        Cigar { cigar: ops }
    }

    /// Parses a CIGAR string: digits accumulate a decimal length, a
    /// code letter (`M I D N S H P`) emits an operation and resets the
    /// length, and `*` short-circuits the whole parse to an empty
    /// `Cigar`. Fails — with the one malformed-grammar error — exactly
    /// on a character that is none of those, or on a length that does
    /// not fit an `i64`; no partial result is ever returned.
    pub fn from_str(s: &str) -> (r: Result<Cigar, CigarError>)
        ensures
            r is Ok <==> spec_parse(s@) is Some,
            r matches Ok(c) ==> Some(c@) == spec_parse(s@),
            r matches Err(e) ==> e == CigarError::ParseCigarError,
    {
        let mut operations: Vec<CigarOperation> = Vec::new();
        let mut length: i64 = 0;
        let mut it = s.chars();
        let ghost mut taken: int = 0;
        proof {
            assert(s@.skip(0) =~= s@);
        }
        loop
            invariant
                it.obeys_prophetic_iter_laws(),
                it.remaining() == s@.skip(taken),
                0 <= taken <= s@.len(),
                0 <= length,
                ops_wf(operations@),
                scan_kind(s@, 0) == scan_kind(s@.skip(taken), length as int),
                scan_kind(s@, 0) is Ops ==> scan_ops(s@, 0) == operations@ + scan_ops(
                    s@.skip(taken),
                    length as int,
                ),
            ensures
                0 <= taken <= s@.len(),
                s@.skip(taken).len() == 0,
                0 <= length,
                ops_wf(operations@),
                scan_kind(s@, 0) == scan_kind(s@.skip(taken), length as int),
                scan_kind(s@, 0) is Ops ==> scan_ops(s@, 0) == operations@ + scan_ops(
                    s@.skip(taken),
                    length as int,
                ),
            decreases s@.len() - taken,
        {
            let next = it.next();
            match next {
                None => {
                    break;
                },
                Some(c) => {
                    proof {
                        assert(s@.skip(taken)[0] == s@[taken]);
                        assert(s@.skip(taken).drop_first() =~= s@.skip(taken + 1));
                    }
                    let u = c as u32;
                    if u >= 48 && u <= 57 {
                        let d = (u - 48) as i64;
                        let ghost len0 = length as int;
                        proof {
                            assert(is_dec_digit(c));
                            assert(d == digit_val(c));
                            lemma_digit_accumulation_bound(
                                length as int,
                                d as int,
                                i64::MAX as int,
                            );
                        }
                        let q = (i64::MAX - d) / 10;
                        if length <= q {
                            length = length * 10 + d;
                            proof {
                                assert(scan_kind(s@.skip(taken), len0) == scan_kind(
                                    s@.skip(taken + 1),
                                    length as int,
                                ));
                                assert(scan_ops(s@.skip(taken), len0) == scan_ops(
                                    s@.skip(taken + 1),
                                    length as int,
                                ));
                                taken = taken + 1;
                            }
                        } else {
                            proof {
                                assert(scan_kind(s@.skip(taken), len0) is Bad);
                            }
                            return Err(CigarError::ParseCigarError);
                        }
                    } else {
                        let op = match c {
                            'M' => CigarOperation::Match(length),
                            'I' => CigarOperation::Insertion(length),
                            'D' => CigarOperation::Deletion(length),
                            'N' => CigarOperation::Nskipped(length),
                            'S' => CigarOperation::Soft(length),
                            'H' => CigarOperation::Hard(length),
                            'P' => CigarOperation::Padded(length),
                            '*' => {
                                return Ok(Cigar { cigar: Vec::new() });
                            },
                            _ => {
                                return Err(CigarError::ParseCigarError);
                            },
                        };
                        proof {
                            assert(op == op_of(c, length));
                            assert(forall|k: int|
                                0 <= k < operations@.push(op).len() ==> op_len(
                                    #[trigger] operations@.push(op)[k],
                                ) >= 0);
                            if scan_kind(s@, 0) is Ops {
                                assert(operations@ + (seq![op_of(c, length)] + scan_ops(
                                    s@.skip(taken + 1),
                                    0,
                                )) =~= operations@.push(op) + scan_ops(s@.skip(taken + 1), 0));
                            }
                        }
                        operations.push(op);
                        length = 0;
                        proof {
                            taken = taken + 1;
                        }
                    }
                },
            }
        }
        proof {
            assert(s@.skip(taken) =~= Seq::<char>::empty());
            assert(operations@ + scan_ops(s@.skip(taken), length as int) =~= operations@);
        }
        Ok(Cigar { cigar: operations })
    }

    /// Parses a CIGAR string, accepting exactly what
    /// [`Cigar::from_str`] accepts; the two disagree only on failure
    /// behaviour, and this one must not be reached with malformed input.
    pub fn from(s: &str) -> (r: Cigar)
        requires
            spec_parse(s@) is Some,
        ensures
            Some(r@) == spec_parse(s@),
    {
        match Cigar::from_str(s) {
            Ok(c) => c,
            Err(_) => vstd::pervasive::unreached(),
        }
    }

    /// The one-past-the-last reference coordinate touched by an
    /// alignment that starts at `pos`: the cursor after advancing
    /// through every reference-consuming operation.
    pub fn get_end_of_aln(&self, pos: i64) -> (r: i64)
        requires
            pos + ref_span(self@) <= i64::MAX,
        ensures
            r == spec_end(self@, pos as int),
    {
        proof {
            use_type_invariant(&*self);
            assert(self@.skip(0) =~= self@);
        }
        let n = self.cigar.len();
        let mut ref_pos = pos;
        let mut i: usize = 0;
        while i < n
            invariant
                0 <= i <= n,
                n == self.cigar.len(),
                ops_wf(self@),
                pos + ref_span(self@) <= i64::MAX,
                ref_pos >= pos,
                ref_pos + ref_span(self@.skip(i as int)) == pos + ref_span(self@),
            decreases n - i,
        {
            proof {
                lemma_span_skip_unfold(self@, i as int);
                lemma_ops_wf_skip(self@, i as int + 1);
                lemma_ref_span_nonneg(self@.skip(i as int + 1));
            }
            match self.cigar[i] {
                CigarOperation::Nskipped(l) | CigarOperation::Deletion(l)
                | CigarOperation::Match(l) => {
                    ref_pos = ref_pos + l;
                },
                _ => {},
            }
            i = i + 1;
        }
        ref_pos
    }

    /// Like [`Cigar::get_end_of_aln`], but reports `None` instead of
    /// requiring that the end coordinate fits in an `i64`, so a caller
    /// can test an untrusted start position first.
    pub fn checked_end_of_aln(&self, pos: i64) -> (r: Option<i64>)
        ensures
            r is Some <==> pos + ref_span(self@) <= i64::MAX,
            r matches Some(e) ==> e == spec_end(self@, pos as int),
    {
        proof {
            use_type_invariant(&*self);
            assert(self@.skip(0) =~= self@);
        }
        let n = self.cigar.len();
        let mut ref_pos = pos;
        let mut i: usize = 0;
        while i < n
            invariant
                0 <= i <= n,
                n == self.cigar.len(),
                ops_wf(self@),
                ref_pos >= pos,
                ref_pos + ref_span(self@.skip(i as int)) == pos + ref_span(self@),
            decreases n - i,
        {
            proof {
                lemma_span_skip_unfold(self@, i as int);
                lemma_ops_wf_skip(self@, i as int + 1);
                lemma_ref_span_nonneg(self@.skip(i as int + 1));
            }
            match self.cigar[i] {
                CigarOperation::Nskipped(l) | CigarOperation::Deletion(l)
                | CigarOperation::Match(l) => {
                    if ref_pos > i64::MAX - l {
                        return None;
                    }
                    ref_pos = ref_pos + l;
                },
                _ => {},
            }
            i = i + 1;
        }
        Some(ref_pos)
    }

    /// The reconstructed read length: the sum of the lengths of every
    /// query-consuming operation (match, insertion, soft clip).
    pub fn get_read_length_from_cigar(&self) -> (r: i64)
        requires
            que_span(self@) <= i64::MAX,
        ensures
            r == que_span(self@),
    {
        proof {
            use_type_invariant(&*self);
            assert(self@.skip(0) =~= self@);
        }
        let n = self.cigar.len();
        let mut res: i64 = 0;
        let mut i: usize = 0;
        while i < n
            invariant
                0 <= i <= n,
                n == self.cigar.len(),
                ops_wf(self@),
                que_span(self@) <= i64::MAX,
                res >= 0,
                res + que_span(self@.skip(i as int)) == que_span(self@),
            decreases n - i,
        {
            proof {
                lemma_span_skip_unfold(self@, i as int);
                lemma_ops_wf_skip(self@, i as int + 1);
                lemma_que_span_nonneg(self@.skip(i as int + 1));
            }
            match self.cigar[i] {
                CigarOperation::Match(l) | CigarOperation::Insertion(l)
                | CigarOperation::Soft(l) => {
                    res = res + l;
                },
                _ => {},
            }
            i = i + 1;
        }
        res
    }

    /// The junction boundaries of the alignment, seeded at `pos`: for
    /// every skip operation, the reference coordinate where the
    /// preceding aligned region ends and the one where the following
    /// region starts, in encounter order. `None` iff there is no skip
    /// operation at all, so callers pay for a vector only when there
    /// is something to report.
    pub fn get_skipped_pos_on_ref(&self, pos: i64) -> (r: Option<Vec<i64>>)
        requires
            pos + ref_span(self@) <= i64::MAX,
        ensures
            r is Some <==> spec_has_skip(self@),
            r matches Some(v) ==> to_ints(v@) == spec_junctions(self@, pos as int),
    {
        if !self.has_skipped() {
            return None;
        }
        proof {
            use_type_invariant(&*self);
            assert(self@.skip(0) =~= self@);
            assert(to_ints(Seq::<i64>::empty()) =~= Seq::<int>::empty());
        }
        let n = self.cigar.len();
        let mut ref_pos = pos;
        let mut results: Vec<i64> = Vec::new();
        let mut i: usize = 0;
        while i < n
            invariant
                0 <= i <= n,
                n == self.cigar.len(),
                ops_wf(self@),
                pos + ref_span(self@) <= i64::MAX,
                ref_pos >= pos,
                ref_pos + ref_span(self@.skip(i as int)) == pos + ref_span(self@),
                to_ints(results@) + spec_junctions(self@.skip(i as int), ref_pos as int)
                    == spec_junctions(self@, pos as int),
            decreases n - i,
        {
            proof {
                lemma_span_skip_unfold(self@, i as int);
                lemma_ops_wf_skip(self@, i as int + 1);
                lemma_ref_span_nonneg(self@.skip(i as int + 1));
                lemma_scan_skip_unfold(self@, i as int, ref_pos as int, 0, 0);
            }
            let ghost results_before = results@;
            let ghost cursor_before = ref_pos as int;
            match self.cigar[i] {
                CigarOperation::Nskipped(l) => {
                    results.push(ref_pos);
                    ref_pos = ref_pos + l;
                    results.push(ref_pos);
                    proof {
                        lemma_to_ints_push(results_before, cursor_before as i64);
                        lemma_to_ints_push(
                            results_before.push(cursor_before as i64),
                            ref_pos,
                        );
                        assert(to_ints(results_before) + (seq![
                            cursor_before,
                            cursor_before + op_len(self@[i as int]),
                        ] + spec_junctions(self@.skip(i as int + 1), ref_pos as int))
                            =~= to_ints(results@) + spec_junctions(
                            self@.skip(i as int + 1),
                            ref_pos as int,
                        ));
                    }
                },
                CigarOperation::Match(l) | CigarOperation::Deletion(l) => {
                    ref_pos = ref_pos + l;
                },
                _ => {},
            }
            i = i + 1;
        }
        proof {
            lemma_junctions_iff_has_skip(self@, pos as int);
        }
        if results.is_empty() {
            // unreachable given the guard above; kept as a fail-safe
            None
        } else {
            Some(results)
        }
    }

    /// The junction boundaries of the alignment: an alias of
    /// [`Cigar::get_skipped_pos_on_ref`], kept because both names are
    /// established; the two queries are one algorithm.
    pub fn get_junction_position(&self, pos: i64) -> (r: Option<Vec<i64>>)
        requires
            pos + ref_span(self@) <= i64::MAX,
        ensures
            r is Some <==> spec_has_skip(self@),
            r matches Some(v) ==> to_ints(v@) == spec_junctions(self@, pos as int),
    {
        self.get_skipped_pos_on_ref(pos)
    }

    /// True iff the closed interval `[st, end]` lies entirely inside
    /// the reference span of a single match operation of an alignment
    /// that starts at `pos`.
    pub fn does_it_match_an_intervall(&self, pos: i64, st: i64, end: i64) -> (r: bool)
        requires
            pos + ref_span(self@) <= i64::MAX,
        ensures
            r == spec_fits(self@, pos as int, st as int, end as int),
    {
        proof {
            use_type_invariant(&*self);
            assert(self@.skip(0) =~= self@);
        }
        let n = self.cigar.len();
        let mut ref_pos = pos;
        let mut flag: bool = false;
        let mut i: usize = 0;
        while i < n
            invariant
                0 <= i <= n,
                n == self.cigar.len(),
                ops_wf(self@),
                pos + ref_span(self@) <= i64::MAX,
                ref_pos >= pos,
                ref_pos + ref_span(self@.skip(i as int)) == pos + ref_span(self@),
                spec_fits(self@, pos as int, st as int, end as int) == (flag || spec_fits(
                    self@.skip(i as int),
                    ref_pos as int,
                    st as int,
                    end as int,
                )),
            decreases n - i,
        {
            proof {
                lemma_span_skip_unfold(self@, i as int);
                lemma_ops_wf_skip(self@, i as int + 1);
                lemma_ref_span_nonneg(self@.skip(i as int + 1));
                lemma_scan_skip_unfold(self@, i as int, ref_pos as int, st as int, end as int);
            }
            match self.cigar[i] {
                CigarOperation::Nskipped(l) | CigarOperation::Deletion(l) => {
                    ref_pos = ref_pos + l;
                },
                CigarOperation::Match(l) => {
                    if st >= ref_pos && end <= ref_pos + l {
                        flag = true;
                    }
                    ref_pos = ref_pos + l;
                },
                _ => {},
            }
            i = i + 1;
        }
        flag
    }

    /// The reference intervals covered by match operations, flattened
    /// into alternating `[block_start, block_end)` coordinates, one
    /// pair per match operation, in encounter order.
    pub fn get_reference_cover(&self, st: i64) -> (r: Vec<i64>)
        requires
            st + ref_span(self@) <= i64::MAX,
        ensures
            to_ints(r@) == spec_covered(self@, st as int),
    {
        proof {
            use_type_invariant(&*self);
            assert(self@.skip(0) =~= self@);
            assert(to_ints(Seq::<i64>::empty()) =~= Seq::<int>::empty());
        }
        let n = self.cigar.len();
        let mut ref_pos = st;
        let mut result: Vec<i64> = Vec::new();
        let mut i: usize = 0;
        while i < n
            invariant
                0 <= i <= n,
                n == self.cigar.len(),
                ops_wf(self@),
                st + ref_span(self@) <= i64::MAX,
                ref_pos >= st,
                ref_pos + ref_span(self@.skip(i as int)) == st + ref_span(self@),
                to_ints(result@) + spec_covered(self@.skip(i as int), ref_pos as int)
                    == spec_covered(self@, st as int),
            decreases n - i,
        {
            proof {
                lemma_span_skip_unfold(self@, i as int);
                lemma_ops_wf_skip(self@, i as int + 1);
                lemma_ref_span_nonneg(self@.skip(i as int + 1));
                lemma_scan_skip_unfold(self@, i as int, ref_pos as int, 0, 0);
            }
            let ghost result_before = result@;
            let ghost cursor_before = ref_pos as int;
            match self.cigar[i] {
                CigarOperation::Nskipped(l) | CigarOperation::Deletion(l) => {
                    ref_pos = ref_pos + l;
                },
                CigarOperation::Match(l) => {
                    result.push(ref_pos);
                    ref_pos = ref_pos + l;
                    result.push(ref_pos);
                    proof {
                        lemma_to_ints_push(result_before, cursor_before as i64);
                        lemma_to_ints_push(
                            result_before.push(cursor_before as i64),
                            ref_pos,
                        );
                        assert(to_ints(result_before) + (seq![
                            cursor_before,
                            cursor_before + op_len(self@[i as int]),
                        ] + spec_covered(self@.skip(i as int + 1), ref_pos as int))
                            =~= to_ints(result@) + spec_covered(
                            self@.skip(i as int + 1),
                            ref_pos as int,
                        ));
                    }
                },
                _ => {},
            }
            i = i + 1;
        }
        result
    }

    /// The number of soft-clipped bases at the strand-appropriate end:
    /// the first operation for a minus-strand read (its 5' end), the
    /// last for a plus-strand read (its 3' end). `None` when the
    /// orientation is unknown, the relevant end is not a soft clip, or
    /// there are no operations at all.
    pub fn get_soft_clipped_n(&self, strand: &Strand) -> (r: Option<i64>)
        ensures
            r == spec_soft_clipped_n(self@, *strand),
    {
        let n = self.cigar.len();
        match strand {
            Strand::Minus => {
                if n > 0 {
                    match self.cigar[0] {
                        CigarOperation::Soft(l) => Some(l),
                        _ => None,
                    }
                } else {
                    None
                }
            },
            Strand::Plus => {
                if n > 0 {
                    match self.cigar[n - 1] {
                        CigarOperation::Soft(l) => Some(l),
                        _ => None,
                    }
                } else {
                    None
                }
            },
            Strand::NA => None,
        }
    }

    /// True iff the strand-appropriate end (as in
    /// [`Cigar::get_soft_clipped_n`]) is a soft clip whose length
    /// strictly exceeds `delta`; always false for an unknown
    /// orientation or an empty operation sequence.
    pub fn soft_clipped_end(&self, strand: &Strand, delta: i64) -> (r: bool)
        ensures
            r == spec_soft_clipped_end(self@, *strand, delta),
    {
        match self.get_soft_clipped_n(strand) {
            Some(l) => l > delta,
            None => false,
        }
    }

    /// Re-serializes the operations to canonical `<length><code>`
    /// text, the inverse of the parser up to leading zeros. An empty
    /// operation sequence — including one that came from the `*`
    /// wildcard — serializes as the empty string.
    pub fn to_text(&self) -> (r: String)
        ensures
            r@ == crate::text::spec_text(self@),
    {
        proof {
            use_type_invariant(&*self);
            assert(self@.skip(0) =~= self@);
        }
        let mut out = String::new();
        let n = self.cigar.len();
        let mut i: usize = 0;
        while i < n
            invariant
                0 <= i <= n,
                n == self.cigar.len(),
                ops_wf(self@),
                out@ + crate::text::spec_text(self@.skip(i as int)) == crate::text::spec_text(
                    self@,
                ),
            decreases n - i,
        {
            proof {
                assert(self@.skip(i as int)[0] == self@[i as int]);
                assert(self@.skip(i as int).drop_first() =~= self@.skip(i as int + 1));
                assert(op_len(self@[i as int]) >= 0);
            }
            let ghost out_before = out@;
            match self.cigar[i] {
                CigarOperation::Nskipped(l) => {
                    crate::text::push_decimal(&mut out, l);
                    crate::text::push_char(&mut out, 'N');
                },
                CigarOperation::Match(l) => {
                    crate::text::push_decimal(&mut out, l);
                    crate::text::push_char(&mut out, 'M');
                },
                CigarOperation::Insertion(l) => {
                    crate::text::push_decimal(&mut out, l);
                    crate::text::push_char(&mut out, 'I');
                },
                CigarOperation::Deletion(l) => {
                    crate::text::push_decimal(&mut out, l);
                    crate::text::push_char(&mut out, 'D');
                },
                CigarOperation::Soft(l) => {
                    crate::text::push_decimal(&mut out, l);
                    crate::text::push_char(&mut out, 'S');
                },
                CigarOperation::Hard(l) => {
                    crate::text::push_decimal(&mut out, l);
                    crate::text::push_char(&mut out, 'H');
                },
                CigarOperation::Padded(l) => {
                    crate::text::push_decimal(&mut out, l);
                    crate::text::push_char(&mut out, 'P');
                },
                CigarOperation::Unaligned => {
                    crate::text::push_char(&mut out, '*');
                },
            }
            proof {
                assert(out@ =~= out_before + crate::text::op_text(self@[i as int]));
                assert(out@ + crate::text::spec_text(self@.skip(i as int + 1)) =~= out_before
                    + crate::text::spec_text(self@.skip(i as int)));
            }
            i = i + 1;
        }
        out
    }

    /// True iff at least one skip (`N`) operation is present.
    pub fn has_skipped(&self) -> (r: bool)
        ensures
            r == spec_has_skip(self@),
    {
        let n = self.cigar.len();
        let mut i: usize = 0;
        while i < n
            invariant
                0 <= i <= n,
                n == self.cigar.len(),
                forall|k: int| 0 <= k < i ==> !(#[trigger] self.cigar@[k] is Nskipped),
            decreases n - i,
        {
            match self.cigar[i] {
                CigarOperation::Nskipped(_) => {
                    return true;
                },
                _ => {},
            }
            i = i + 1;
        }
        false
    }
}

} // verus!
