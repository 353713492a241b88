//! Alignment ingest: the mapping/read/reference data model and a streaming
//! parser for SAM text. Header `@SQ` lines build the reference table; record
//! lines are grouped by query name into reads, unioning the mappings of a
//! name wherever it recurs in the stream.
use vstd::prelude::*;

use crate::MAX_RECORDS;
use crate::MAX_SCORE;
use crate::util::bytes_eq;

verus! {

/// One alignment of a read to a reference: target id (1-based), transformed
/// score, 0/1-based start position as emitted by the aligner, paired flag.
#[derive(PartialEq, Eq, Structural, Clone, Copy)]
pub struct Mapping {
    pub reference_id: usize,
    pub score: u64,
    pub position: u64,
    pub paired: bool,
}

impl Mapping {
    pub fn new(reference_id: usize, score: u64, position: u64, paired: bool) -> (r: Mapping)
        ensures
            r == (Mapping { reference_id, score, position, paired }),
    {
        Mapping { reference_id, score, position, paired }
    }

    pub fn get_score(&self) -> (r: u64)
        ensures
            r == self.score,
    {
        self.score
    }

    pub fn get_position(&self) -> (r: u64)
        ensures
            r == self.position,
    {
        self.position
    }

    pub fn get_reference_id(&self) -> (r: usize)
        ensures
            r == self.reference_id,
    {
        self.reference_id
    }
}

/// Sum of the scores of a mapping sequence.
pub open spec fn sum_scores(s: Seq<Mapping>) -> int
    decreases s.len(),
{
    if s.len() == 0 {
        0
    } else {
        sum_scores(s.drop_last()) + s.last().score
    }
}

/// A read: one distinct query name, with the set of its mappings.
pub struct Query {
    pub query_id: usize,
    pub len: u64,
    pub mappings: Vec<Mapping>,
    pub is_paired: bool,
    pub total_score: u64,
}

impl Query {
    /// The cached total score is the sum of the mapping scores, mappings are
    /// pairwise distinct, and every score obeys the global cap.
    pub open spec fn wf(self) -> bool {
        &&& self.total_score == sum_scores(self.mappings@)
        &&& forall|i: int, j: int|
            0 <= i < j < self.mappings@.len() ==> #[trigger] self.mappings@[i]
                != #[trigger] self.mappings@[j]
        &&& forall|i: int|
            0 <= i < self.mappings@.len() ==> #[trigger] self.mappings@[i].score <= MAX_SCORE
    }

    pub fn new(query_id: usize, len: u64, is_paired: bool) -> (r: Query)
        ensures
            r.wf(),
            r.query_id == query_id,
            r.len == len,
            r.is_paired == is_paired,
            r.mappings@ == Seq::<Mapping>::empty(),
            r.total_score == 0,
    {
        Query { query_id, len, mappings: Vec::new(), is_paired, total_score: 0 }
    }

    pub fn get_cnt(&self) -> (r: usize)
        ensures
            r == self.mappings@.len(),
    {
        self.mappings.len()
    }

    pub fn get_total_score(&self) -> (r: u64)
        ensures
            r == self.total_score,
    {
        self.total_score
    }

    /// Adds a mapping unless an identical one is already present.
    #[verifier::loop_isolation(false)]
    pub fn add_mapping(&mut self, mapping: Mapping)
        requires
            old(self).wf(),
            mapping.score <= MAX_SCORE,
            sum_scores(old(self).mappings@) + mapping.score <= u64::MAX,
        ensures
            final(self).wf(),
            final(self).query_id == old(self).query_id,
            final(self).len == old(self).len,
            final(self).is_paired == old(self).is_paired,
            old(self).mappings@.contains(mapping) ==> final(self).mappings@
                == old(self).mappings@,
            !old(self).mappings@.contains(mapping) ==> final(self).mappings@
                == old(self).mappings@.push(mapping),
    {
        let mut i: usize = 0;
        while i < self.mappings.len()
            invariant
                0 <= i <= self.mappings@.len(),
                *self == *old(self),
                forall|k: int| 0 <= k < i ==> #[trigger] self.mappings@[k] != mapping,
            decreases self.mappings.len() - i,
        {
            let m = self.mappings[i];
            if m.reference_id == mapping.reference_id && m.score == mapping.score && m.position
                == mapping.position && m.paired == mapping.paired {
                proof {
                    assert(self.mappings@[i as int] == mapping);
                    assert(self.mappings@.contains(mapping));
                }
                return ;
            }
            i = i + 1;
        }
        proof {
            assert(!self.mappings@.contains(mapping));
            assert(self.mappings@.push(mapping).drop_last() =~= self.mappings@);
        }
        self.mappings.push(mapping);
        self.total_score = self.total_score + mapping.score;
    }
}

/// A reference strain: its length in bases and display name.
pub struct Reference {
    pub ref_len: u64,
    pub ref_name: Vec<u8>,
}

impl Reference {
    pub fn new(ref_len: u64, ref_name: Vec<u8>) -> (r: Reference)
        ensures
            r.ref_len == ref_len,
            r.ref_name@ == ref_name@,
    {
        Reference { ref_len, ref_name }
    }
}

/// Decimal value of a digit string.
pub open spec fn dec_value(s: Seq<u8>) -> int
    decreases s.len(),
{
    if s.len() == 0 {
        0
    } else {
        dec_value(s.drop_last()) * 10 + (s.last() - 48)
    }
}

/// Whether every byte is an ASCII digit.
pub open spec fn all_digits(s: Seq<u8>) -> bool {
    forall|i: int| 0 <= i < s.len() ==> 48 <= #[trigger] s[i] <= 57
}

/// A digit-string prefix value is non-negative.
proof fn lemma_dec_nonneg(s: Seq<u8>, i: int)
    requires
        all_digits(s),
        0 <= i <= s.len(),
    ensures
        dec_value(s.take(i)) >= 0,
    decreases i,
{
    if i > 0 {
        lemma_dec_nonneg(s, i - 1);
        assert(s.take(i).drop_last() =~= s.take(i - 1));
    }
}

/// A longer digit string never has a smaller value.
proof fn lemma_dec_prefix_le(s: Seq<u8>, i: int, j: int)
    requires
        all_digits(s),
        0 <= i <= j <= s.len(),
    ensures
        dec_value(s.take(i)) <= dec_value(s.take(j)),
    decreases j - i,
{
    if i < j {
        lemma_dec_prefix_le(s, i, j - 1);
        lemma_dec_nonneg(s, j - 1);
        assert(s.take(j).drop_last() =~= s.take(j - 1));
    }
}

/// Parses an unsigned decimal number. Returns the exact value when the bytes
/// are one or more digits and the value fits in `u64`; `None` otherwise.
#[verifier::loop_isolation(false)]
pub fn parse_u64(s: &[u8]) -> (r: Option<u64>)
    ensures
        match r {
            Some(v) => s@.len() >= 1 && all_digits(s@) && v == dec_value(s@),
            None => s@.len() == 0 || !all_digits(s@) || dec_value(s@) > u64::MAX,
        },
{
    if s.len() == 0 {
        return None;
    }
    let mut acc: u64 = 0;
    let mut i: usize = 0;
    while i < s.len()
        invariant
            0 <= i <= s@.len(),
            forall|k: int| 0 <= k < i ==> 48 <= #[trigger] s@[k] <= 57,
            acc == dec_value(s@.take(i as int)),
        decreases s.len() - i,
    {
        let b = s[i];
        if b < 48 || b > 57 {
            return None;
        }
        let d: u64 = (b - 48) as u64;
        if acc > (u64::MAX - d) / 10 {
            proof {
                assert(dec_value(s@.take(i + 1)) == acc * 10 + d) by {
                    assert(s@.take(i + 1).drop_last() =~= s@.take(i as int));
                };
                assert(acc * 10 + d > u64::MAX) by {
                    vstd::arithmetic::div_mod::lemma_fundamental_div_mod(
                        (u64::MAX - d) as int,
                        10,
                    );
                };
                if all_digits(s@) {
                    lemma_dec_prefix_le(s@, i + 1, s@.len() as int);
                    assert(s@.take(s@.len() as int) =~= s@);
                }
            }
            return None;
        }
        proof {
            assert(s@.take(i + 1).drop_last() =~= s@.take(i as int));
        }
        acc = acc * 10 + d;
        i = i + 1;
    }
    proof {
        assert(s@.take(s@.len() as int) =~= s@);
    }
    Some(acc)
}

} // verus!

use crate::util::split_bytes;
use crate::util::split_on;
use crate::util::views;

verus! {

/// ASCII byte constants used by the SAM grammar.
pub const B_TAB: u8 = 9;

pub const B_NL: u8 = 10;

pub const B_AT: u8 = 64;

pub const B_STAR: u8 = 42;

pub const B_MINUS: u8 = 45;

/// Magnitude bound accepted for a raw `AS:i:` value (the 32-bit range the
/// format allows).
pub const MAX_AS: u64 = 0x7fffffff;

/// What went wrong while ingesting, with the 1-based line and the token.
pub enum IngestErrorKind {
    MissingField,
    BadNumber,
    UnknownReference,
    BadHeader,
    TooManyRecords,
}

pub struct IngestError {
    pub line: u64,
    pub kind: IngestErrorKind,
    pub token: Vec<u8>,
}

/// Copies a byte slice into an owned vector.
pub fn copy_bytes(s: &[u8]) -> (r: Vec<u8>)
    ensures
        r@ == s@,
{
    let mut out: Vec<u8> = Vec::new();
    let mut i: usize = 0;
    while i < s.len()
        invariant
            0 <= i <= s@.len(),
            out@ == s@.take(i as int),
        decreases s.len() - i,
    {
        out.push(s[i]);
        i = i + 1;
    }
    proof {
        assert(out@ =~= s@);
    }
    out
}

/// Bytes from position `from` to the end.
pub fn tail_bytes(s: &[u8], from: usize) -> (r: Vec<u8>)
    requires
        from <= s@.len(),
    ensures
        r@ == s@.skip(from as int),
{
    let mut out: Vec<u8> = Vec::new();
    let mut i: usize = from;
    while i < s.len()
        invariant
            from <= i <= s@.len(),
            out@ == s@.subrange(from as int, i as int),
        decreases s.len() - i,
    {
        out.push(s[i]);
        i = i + 1;
    }
    proof {
        assert(out@ =~= s@.skip(from as int));
    }
    out
}

/// Whether `s` starts with the bytes of `p`.
pub open spec fn has_prefix_spec(s: Seq<u8>, p: Seq<u8>) -> bool {
    s.len() >= p.len() && s.take(p.len() as int) == p
}

pub fn has_prefix(s: &[u8], p: &[u8]) -> (r: bool)
    ensures
        r == has_prefix_spec(s@, p@),
{
    if s.len() < p.len() {
        proof {
            assert(!has_prefix_spec(s@, p@));
        }
        return false;
    }
    let mut i: usize = 0;
    while i < p.len()
        invariant
            0 <= i <= p@.len() <= s@.len(),
            forall|k: int| 0 <= k < i ==> s@[k] == p@[k],
        decreases p.len() - i,
    {
        if s[i] != p[i] {
            proof {
                assert(s@.take(p@.len() as int)[i as int] != p@[i as int]);
            }
            return false;
        }
        i = i + 1;
    }
    proof {
        assert(s@.take(p@.len() as int) =~= p@);
    }
    true
}

/// The `@SQ` header tag.
pub open spec fn sq_tag() -> Seq<u8> {
    seq![64u8, 83u8, 81u8]
}

/// The `SN:` (name) field tag.
pub open spec fn sn_tag() -> Seq<u8> {
    seq![83u8, 78u8, 58u8]
}

/// The `LN:` (length) field tag.
pub open spec fn ln_tag() -> Seq<u8> {
    seq![76u8, 78u8, 58u8]
}

/// The `AS:i:` (alignment score) field tag.
pub open spec fn as_tag() -> Seq<u8> {
    seq![65u8, 83u8, 58u8, 105u8, 58u8]
}

/// Index of the first field carrying prefix `p`, or -1.
pub open spec fn first_with_prefix(fs: Seq<Seq<u8>>, p: Seq<u8>) -> int
    decreases fs.len(),
{
    if fs.len() == 0 {
        -1
    } else if has_prefix_spec(fs[0], p) {
        0
    } else {
        let r = first_with_prefix(fs.drop_first(), p);
        if r < 0 {
            -1
        } else {
            r + 1
        }
    }
}

/// `first_with_prefix` points at a match and nothing earlier matches.
pub proof fn lemma_first_with_prefix(fs: Seq<Seq<u8>>, p: Seq<u8>)
    ensures
        first_with_prefix(fs, p) == -1 ==> (forall|k: int|
            0 <= k < fs.len() ==> !has_prefix_spec(#[trigger] fs[k], p)),
        first_with_prefix(fs, p) >= 0 ==> {
            &&& first_with_prefix(fs, p) < fs.len()
            &&& has_prefix_spec(fs[first_with_prefix(fs, p)], p)
            &&& forall|k: int|
                0 <= k < first_with_prefix(fs, p) ==> !has_prefix_spec(#[trigger] fs[k], p)
        },
    decreases fs.len(),
{
    if fs.len() > 0 && !has_prefix_spec(fs[0], p) {
        lemma_first_with_prefix(fs.drop_first(), p);
        let r = first_with_prefix(fs, p);
        if r == -1 {
            assert forall|k: int| 0 <= k < fs.len() implies !has_prefix_spec(#[trigger] fs[k], p) by {
                if k > 0 {
                    assert(fs.drop_first()[k - 1] == fs[k]);
                }
            }
        } else {
            assert(fs[r] == fs.drop_first()[r - 1]);
            assert forall|k: int| 0 <= k < r implies !has_prefix_spec(#[trigger] fs[k], p) by {
                if k > 0 {
                    assert(fs.drop_first()[k - 1] == fs[k]);
                }
            }
        }
    }
}

/// Finds the first field starting with prefix `p`, returning its index.
#[verifier::loop_isolation(false)]
pub fn find_field_with_prefix(fields: &Vec<Vec<u8>>, p: &[u8]) -> (r: Option<usize>)
    ensures
        match r {
            Some(i) => i == first_with_prefix(views(fields@), p@),
            None => first_with_prefix(views(fields@), p@) == -1,
        },
{
    proof {
        lemma_first_with_prefix(views(fields@), p@);
    }
    let mut i: usize = 0;
    while i < fields.len()
        invariant
            0 <= i <= fields@.len(),
            forall|k: int| 0 <= k < i ==> !has_prefix_spec(#[trigger] views(fields@)[k], p@),
        decreases fields.len() - i,
    {
        if has_prefix(fields[i].as_slice(), p) {
            proof {
                let w = first_with_prefix(views(fields@), p@);
                assert(views(fields@)[i as int] == fields@[i as int]@);
                if w == -1 {
                    assert(has_prefix_spec(views(fields@)[i as int], p@));
                    assert(false);
                }
                if w < i {
                    assert(!has_prefix_spec(views(fields@)[w], p@));
                    assert(false);
                }
                if w > i {
                    assert(!has_prefix_spec(views(fields@)[i as int], p@));
                    assert(false);
                }
            }
            return Some(i);
        }
        i = i + 1;
    }
    proof {
        let w = first_with_prefix(views(fields@), p@);
        if w >= 0 {
            assert(!has_prefix_spec(views(fields@)[w], p@));
            assert(false);
        }
    }
    None
}

} // verus!

verus! {

/// Score-transform selector: which primary aligner produced the scores.
#[derive(PartialEq, Eq, Structural, Clone, Copy)]
pub enum Method {
    Pufferfish,
    Bowtie2,
    Minimap2,
}

/// The method-specific score transform: bowtie2 scores are shifted by 160
/// and clamped to at least 1; other methods take the score as is, clamping
/// negatives to 0; a missing tag scores 0.
pub open spec fn score_of(as_val: Option<i64>, method: Method) -> int {
    match as_val {
        Option::None => 0,
        Option::Some(v) => if method == Method::Bowtie2 {
            if v + 160 <= 0 {
                1
            } else {
                v + 160
            }
        } else {
            if v < 0 {
                0
            } else {
                v as int
            }
        },
    }
}

pub fn transform_score(as_val: Option<i64>, method: Method) -> (r: u64)
    requires
        as_val matches Option::Some(v) ==> -0x80000000 <= v <= 0x7fffffff,
    ensures
        r == score_of(as_val, method),
        r <= MAX_SCORE,
{
    match as_val {
        Option::None => 0,
        Option::Some(v) => {
            if method == Method::Bowtie2 {
                let shifted = v + 160;
                if shifted <= 0 {
                    1
                } else {
                    shifted as u64
                }
            } else {
                if v < 0 {
                    0
                } else {
                    v as u64
                }
            }
        },
    }
}

/// Whether a byte string is a well-formed signed `AS` value within the
/// 32-bit magnitude bound.
pub open spec fn as_value_ok(b: Seq<u8>) -> bool {
    ||| (b.len() >= 1 && all_digits(b) && dec_value(b) <= MAX_AS)
    ||| (b.len() >= 2 && b[0] == B_MINUS && all_digits(b.skip(1)) && dec_value(b.skip(1)) <= MAX_AS)
}

/// The signed value of a well-formed `AS` byte string.
pub open spec fn as_value_of(b: Seq<u8>) -> int {
    if b.len() >= 1 && b[0] == B_MINUS {
        -dec_value(b.skip(1))
    } else {
        dec_value(b)
    }
}

/// Parses a signed alignment score; exact value iff the bytes are well
/// formed and within the magnitude bound.
pub fn parse_as_value(b: &[u8]) -> (r: Option<i64>)
    ensures
        match r {
            Some(v) => as_value_ok(b@) && v == as_value_of(b@) && -0x80000000 <= v <= 0x7fffffff,
            None => !as_value_ok(b@),
        },
{
    if b.len() == 0 {
        return None;
    }
    if b[0] == B_MINUS {
        let rest = tail_bytes(b, 1);
        match parse_u64(rest.as_slice()) {
            Some(v) => {
                if v <= MAX_AS {
                    proof {
                        assert(b@[0] == B_MINUS);
                        assert(!(all_digits(b@)));
                    }
                    Some(-(v as i64))
                } else {
                    None
                }
            },
            None => None,
        }
    } else {
        match parse_u64(b) {
            Some(v) => {
                if v <= MAX_AS {
                    Some(v as i64)
                } else {
                    None
                }
            },
            None => None,
        }
    }
}

/// Whether a header line is acceptable: any line that is not an `@SQ` line
/// passes; an `@SQ` line must carry an `SN:` field and an `LN:` field whose
/// value is a positive number.
pub open spec fn header_line_ok(line: Seq<u8>) -> bool {
    line.len() == 0 || line[0] != B_AT || {
        let fs = split_bytes(line, B_TAB);
        fs[0] != sq_tag() || {
            let sn = first_with_prefix(fs, sn_tag());
            let ln = first_with_prefix(fs, ln_tag());
            &&& sn >= 0
            &&& ln >= 0
            &&& {
                let lnb = fs[ln].skip(3);
                lnb.len() >= 1 && all_digits(lnb) && 1 <= dec_value(lnb) <= crate::MAX_REF_LEN
            }
        }
    }
}

/// Whether a line is an `@SQ` header line.
pub open spec fn is_sq_line(line: Seq<u8>) -> bool {
    line.len() >= 1 && line[0] == B_AT && split_bytes(line, B_TAB)[0] == sq_tag()
}

/// The reference name an `@SQ` line declares: its first `SN:` field's value.
pub open spec fn sq_name(line: Seq<u8>) -> Seq<u8> {
    let fs = split_bytes(line, B_TAB);
    fs[first_with_prefix(fs, sn_tag())].skip(3)
}

/// The reference length an `@SQ` line declares: its first `LN:` field's
/// value.
pub open spec fn sq_len(line: Seq<u8>) -> int {
    let fs = split_bytes(line, B_TAB);
    dec_value(fs[first_with_prefix(fs, ln_tag())].skip(3))
}

/// The (name, length) pairs of the `@SQ` header lines, in line order.
pub open spec fn header_refs(lines: Seq<Seq<u8>>) -> Seq<(Seq<u8>, int)>
    decreases lines.len(),
{
    if lines.len() == 0 {
        Seq::empty()
    } else {
        header_refs(lines.drop_last()) + if is_sq_line(lines.last()) {
            seq![(sq_name(lines.last()), sq_len(lines.last()))]
        } else {
            Seq::empty()
        }
    }
}

/// Builds the reference table from the `@SQ` header lines: on success it is
/// exactly the (SN, LN) pairs of those lines, in order. Fails exactly on
/// the first malformed `@SQ` line, carrying its 1-based line number.
#[verifier::loop_isolation(false)]
pub fn analyze_header(lines: &Vec<Vec<u8>>) -> (r: Result<Vec<Reference>, IngestError>)
    ensures
        match r {
            Ok(refs) => {
                &&& forall|k: int|
                    0 <= k < refs@.len() ==> 1 <= #[trigger] refs@[k].ref_len
                        <= crate::MAX_REF_LEN
                &&& refs@.len() <= MAX_RECORDS
                &&& refs@.len() == header_refs(views(lines@)).len()
                &&& forall|k: int|
                    0 <= k < refs@.len() ==> (#[trigger] refs@[k]).ref_name@ == header_refs(
                        views(lines@),
                    )[k].0 && refs@[k].ref_len as int == header_refs(views(lines@))[k].1
            },
            Err(e) => (e.kind matches IngestErrorKind::TooManyRecords && lines@.len()
                > MAX_RECORDS) || (1 <= e.line <= lines@.len() && !header_line_ok(
                views(lines@)[e.line - 1],
            )),
        },
{
    let sq: Vec<u8> = vec![64u8, 83u8, 81u8];
    let sn: Vec<u8> = vec![83u8, 78u8, 58u8];
    let ln: Vec<u8> = vec![76u8, 78u8, 58u8];
    proof {
        assert(sq@ =~= sq_tag());
        assert(sn@ =~= sn_tag());
        assert(ln@ =~= ln_tag());
    }
    let mut refs: Vec<Reference> = Vec::new();
    let mut i: usize = 0;
    while i < lines.len()
        invariant
            0 <= i <= lines@.len(),
            sq@ == sq_tag(),
            sn@ == sn_tag(),
            ln@ == ln_tag(),
            forall|k: int| 0 <= k < refs@.len() ==> 1 <= #[trigger] refs@[k].ref_len <= crate::MAX_REF_LEN,
            refs@.len() <= i,
            refs@.len() <= MAX_RECORDS,
            refs@.len() == header_refs(views(lines@).take(i as int)).len(),
            forall|k: int|
                0 <= k < refs@.len() ==> (#[trigger] refs@[k]).ref_name@ == header_refs(
                    views(lines@).take(i as int),
                )[k].0 && refs@[k].ref_len as int == header_refs(views(lines@).take(i as int))[k].1,
        decreases lines.len() - i,
    {
        proof {
            assert(views(lines@).take(i + 1).drop_last() =~= views(lines@).take(i as int));
            assert(views(lines@).take(i + 1).last() == views(lines@)[i as int]);
            assert(views(lines@)[i as int] == lines@[i as int]@);
        }
        let line = &lines[i];
        if line.len() >= 1 && line[0] == B_AT {
            let fields = split_on(line.as_slice(), B_TAB);
            proof {
                assert(views(fields@) == split_bytes(line@, B_TAB));
                assert(views(fields@)[0] == fields@[0]@);
            }
            if bytes_eq(fields[0].as_slice(), sq.as_slice()) {
                let sn_idx = match find_field_with_prefix(&fields, sn.as_slice()) {
                    Some(x) => x,
                    None => {
                        return Err(
                            IngestError {
                                line: (i + 1) as u64,
                                kind: IngestErrorKind::MissingField,
                                token: copy_bytes(sn.as_slice()),
                            },
                        );
                    },
                };
                let ln_idx = match find_field_with_prefix(&fields, ln.as_slice()) {
                    Some(x) => x,
                    None => {
                        return Err(
                            IngestError {
                                line: (i + 1) as u64,
                                kind: IngestErrorKind::MissingField,
                                token: copy_bytes(ln.as_slice()),
                            },
                        );
                    },
                };
                proof {
                    lemma_first_with_prefix(views(fields@), sn_tag());
                    lemma_first_with_prefix(views(fields@), ln_tag());
                    assert(views(fields@)[sn_idx as int] == fields@[sn_idx as int]@);
                    assert(views(fields@)[ln_idx as int] == fields@[ln_idx as int]@);
                }
                let name = tail_bytes(fields[sn_idx].as_slice(), 3);
                let ln_bytes = tail_bytes(fields[ln_idx].as_slice(), 3);
                let len_val = match parse_u64(ln_bytes.as_slice()) {
                    Some(v) => v,
                    None => {
                        return Err(
                            IngestError {
                                line: (i + 1) as u64,
                                kind: IngestErrorKind::BadNumber,
                                token: ln_bytes,
                            },
                        );
                    },
                };
                if len_val == 0 || len_val > crate::MAX_REF_LEN {
                    return Err(
                        IngestError {
                            line: (i + 1) as u64,
                            kind: IngestErrorKind::BadNumber,
                            token: ln_bytes,
                        },
                    );
                }
                if refs.len() >= 0x8000_0000usize {
                    return Err(
                        IngestError {
                            line: (i + 1) as u64,
                            kind: IngestErrorKind::TooManyRecords,
                            token: Vec::new(),
                        },
                    );
                }
                let ghost nm = name@;
                refs.push(Reference { ref_len: len_val, ref_name: name });
                proof {
                    assert(is_sq_line(views(lines@)[i as int]));
                    assert(nm == sq_name(views(lines@)[i as int]));
                    assert(len_val as int == sq_len(views(lines@)[i as int]));
                    assert(header_refs(views(lines@).take(i + 1)) =~= header_refs(
                        views(lines@).take(i as int),
                    ) + seq![(nm, len_val as int)]);
                }
            }
        }
        i = i + 1;
    }
    proof {
        assert(views(lines@).take(lines@.len() as int) =~= views(lines@));
    }
    Ok(refs)
}

} // verus!

verus! {

/// Total number of mappings across the read table.
pub open spec fn total_mappings(qs: Seq<Query>) -> int
    decreases qs.len(),
{
    if qs.len() == 0 {
        0
    } else {
        total_mappings(qs.drop_last()) + qs.last().mappings@.len()
    }
}

/// Replacing one read changes the mapping total by the difference.
pub proof fn lemma_total_mappings_update(qs: Seq<Query>, i: int, q: Query)
    requires
        0 <= i < qs.len(),
    ensures
        total_mappings(qs.update(i, q)) == total_mappings(qs) - qs[i].mappings@.len()
            + q.mappings@.len(),
    decreases qs.len(),
{
    if i == qs.len() - 1 {
        assert(qs.update(i, q).drop_last() =~= qs.drop_last());
    } else {
        assert(qs.update(i, q).drop_last() =~= qs.drop_last().update(i, q));
        lemma_total_mappings_update(qs.drop_last(), i, q);
    }
}

/// One read's mapping count is bounded by the table total.
pub proof fn lemma_total_mappings_elem(qs: Seq<Query>, i: int)
    requires
        0 <= i < qs.len(),
    ensures
        qs[i].mappings@.len() <= total_mappings(qs),
        total_mappings(qs) >= 0,
    decreases qs.len(),
{
    lemma_total_mappings_nonneg(qs.drop_last());
    if i < qs.len() - 1 {
        lemma_total_mappings_elem(qs.drop_last(), i);
    }
}

/// The mapping total is never negative.
pub proof fn lemma_total_mappings_nonneg(qs: Seq<Query>)
    ensures
        total_mappings(qs) >= 0,
    decreases qs.len(),
{
    if qs.len() > 0 {
        lemma_total_mappings_nonneg(qs.drop_last());
    }
}

/// A sum of scores bounded elementwise is bounded by length times the bound.
pub proof fn lemma_sum_scores_bounded(s: Seq<Mapping>, bound: int)
    requires
        forall|j: int| 0 <= j < s.len() ==> #[trigger] s[j].score <= bound,
        bound >= 0,
    ensures
        0 <= sum_scores(s) <= s.len() * bound,
    decreases s.len(),
{
    if s.len() > 0 {
        lemma_sum_scores_bounded(s.drop_last(), bound);
        assert((s.len() - 1) * bound + bound == s.len() * bound) by (nonlinear_arith);
    }
}

/// Well-formedness of the read table against a reference table of `nrefs`
/// entries: consistent caches, dense 1-based ids, distinct names, mapping
/// targets in range, and a global mapping total within the ingest cap.
pub open spec fn queries_wf(qs: Seq<Query>, names: Seq<Vec<u8>>, nrefs: int) -> bool {
    &&& qs.len() == names.len()
    &&& forall|i: int| 0 <= i < qs.len() ==> (#[trigger] qs[i]).wf()
    &&& forall|i: int| 0 <= i < qs.len() ==> (#[trigger] qs[i]).query_id == i + 1
    &&& forall|i: int, j: int| 0 <= i < j < qs.len() ==> (#[trigger] names[i])@ != (#[trigger] names[j])@
    &&& forall|i: int, j: int|
        0 <= i < qs.len() && 0 <= j < qs[i].mappings@.len() ==> {
            &&& 1 <= (#[trigger] qs[i].mappings@[j]).reference_id <= nrefs
        }
    &&& total_mappings(qs) <= MAX_RECORDS
    &&& qs.len() <= MAX_RECORDS
}

/// A prefix of the read table has no more mappings than the whole.
pub proof fn lemma_total_mappings_prefix(qs: Seq<Query>, i: int)
    requires
        0 <= i <= qs.len(),
    ensures
        total_mappings(qs.take(i)) <= total_mappings(qs),
        total_mappings(qs.take(i)) >= 0,
    decreases qs.len() - i,
{
    if i == qs.len() {
        assert(qs.take(i) =~= qs);
        lemma_total_mappings_nonneg(qs);
    } else {
        lemma_total_mappings_prefix(qs, i + 1);
        assert(qs.take(i + 1).drop_last() =~= qs.take(i));
        lemma_total_mappings_nonneg(qs.take(i));
    }
}

/// Index of the read with the given name, if any.
pub fn find_query_id(names: &Vec<Vec<u8>>, q: &[u8]) -> (r: Option<usize>)
    ensures
        match r {
            Some(i) => i < names@.len() && names@[i as int]@ == q@,
            None => forall|k: int| 0 <= k < names@.len() ==> (#[trigger] names@[k])@ != q@,
        },
{
    let mut i: usize = 0;
    while i < names.len()
        invariant
            0 <= i <= names@.len(),
            forall|k: int| 0 <= k < i ==> (#[trigger] names@[k])@ != q@,
        decreases names.len() - i,
    {
        if bytes_eq(names[i].as_slice(), q) {
            return Some(i);
        }
        i = i + 1;
    }
    None
}

/// 1-based id of the reference with the given name, if any.
pub fn find_ref_id(refs: &Vec<Reference>, name: &[u8]) -> (r: Option<usize>)
    ensures
        match r {
            Some(id) => 1 <= id <= refs@.len() && refs@[id - 1].ref_name@ == name@ && (forall|
                k: int,
            | 0 <= k < id - 1 ==> (#[trigger] refs@[k]).ref_name@ != name@),
            None => forall|k: int| 0 <= k < refs@.len() ==> (#[trigger] refs@[k]).ref_name@ != name@,
        },
{
    let mut i: usize = 0;
    while i < refs.len()
        invariant
            0 <= i <= refs@.len(),
            forall|k: int| 0 <= k < i ==> (#[trigger] refs@[k]).ref_name@ != name@,
        decreases refs.len() - i,
    {
        if bytes_eq(refs[i].ref_name.as_slice(), name) {
            return Some(i + 1);
        }
        i = i + 1;
    }
    None
}

/// Whether a record line is acceptable against the reference table: header
/// lines and empty lines pass; a record needs at least ten fields, a numeric
/// flag and position, a target that is `*` or a known reference name, and a
/// well-formed `AS:i:` value wherever that tag occurs first.
pub open spec fn record_line_ok(line: Seq<u8>, refs: Seq<Reference>) -> bool {
    line.len() == 0 || line[0] == B_AT || {
        let fs = split_bytes(line, B_TAB);
        &&& fs.len() >= 10
        &&& fs[1].len() >= 1 && all_digits(fs[1]) && dec_value(fs[1]) <= u64::MAX
        &&& (fs[2] == seq![B_STAR] || (exists|r: int|
            0 <= r < refs.len() && (#[trigger] refs[r]).ref_name@ == fs[2]))
        &&& fs[3].len() >= 1 && all_digits(fs[3]) && dec_value(fs[3]) <= u64::MAX
        &&& {
            let a = first_with_prefix(fs, as_tag());
            a < 0 || as_value_ok(fs[a].skip(5))
        }
    }
}

/// Whether a line is an alignment record (neither empty nor a header line).
pub open spec fn is_record_line(line: Seq<u8>) -> bool {
    line.len() >= 1 && line[0] != B_AT
}

/// The query name a record line carries: its first tab-field.
pub open spec fn rec_qname(line: Seq<u8>) -> Seq<u8> {
    split_bytes(line, B_TAB)[0]
}

/// The distinct query names of the record lines, in first-occurrence order:
/// the read table's names.
pub open spec fn record_names(lines: Seq<Seq<u8>>) -> Seq<Seq<u8>>
    decreases lines.len(),
{
    if lines.len() == 0 {
        Seq::empty()
    } else {
        let pre = record_names(lines.drop_last());
        pre + if is_record_line(lines.last()) && !pre.contains(rec_qname(lines.last())) {
            seq![rec_qname(lines.last())]
        } else {
            Seq::empty()
        }
    }
}

/// 0-based index of the first reference bearing a name, or -1.
pub open spec fn ref_index(refs: Seq<Reference>, nm: Seq<u8>) -> int
    decreases refs.len(),
{
    if refs.len() == 0 {
        -1
    } else if refs[0].ref_name@ == nm {
        0
    } else {
        let r = ref_index(refs.drop_first(), nm);
        if r < 0 {
            -1
        } else {
            r + 1
        }
    }
}

/// A position that is the first match is the `ref_index`.
proof fn lemma_ref_index_first(refs: Seq<Reference>, nm: Seq<u8>, id: int)
    requires
        0 <= id < refs.len(),
        refs[id].ref_name@ == nm,
        forall|k: int| 0 <= k < id ==> (#[trigger] refs[k]).ref_name@ != nm,
    ensures
        ref_index(refs, nm) == id,
    decreases refs.len(),
{
    if id > 0 {
        assert(refs[0].ref_name@ != nm);
        assert(refs.drop_first()[id - 1] == refs[id]);
        assert forall|k: int| 0 <= k < id - 1 implies (#[trigger] refs.drop_first()[
            k]).ref_name@ != nm by {
            assert(refs.drop_first()[k] == refs[k + 1]);
        }
        lemma_ref_index_first(refs.drop_first(), nm, id - 1);
    }
}

/// The mapping one record line contributes: its target's dense id, the
/// method-transformed score of its first `AS:i:` tag, its position and its
/// paired flag.
pub open spec fn rec_mapping(line: Seq<u8>, refs: Seq<Reference>, method: Method) -> Mapping {
    let fs = split_bytes(line, B_TAB);
    let a = first_with_prefix(fs, as_tag());
    Mapping {
        reference_id: (ref_index(refs, fs[2]) + 1) as usize,
        score: score_of(
            if a < 0 {
                Option::None
            } else {
                Option::Some(as_value_of(fs[a].skip(5)) as i64)
            },
            method,
        ) as u64,
        position: dec_value(fs[3]) as u64,
        paired: dec_value(fs[1]) % 2 == 1,
    }
}

/// The mapping list of the read named `nm`: the transformed mapped records
/// bearing that name, in line order, a repeated identical record collapsing
/// into its first occurrence.
pub open spec fn read_mappings(
    lines: Seq<Seq<u8>>,
    refs: Seq<Reference>,
    method: Method,
    nm: Seq<u8>,
) -> Seq<Mapping>
    decreases lines.len(),
{
    if lines.len() == 0 {
        Seq::empty()
    } else {
        let pre = read_mappings(lines.drop_last(), refs, method, nm);
        pre + if is_record_line(lines.last()) && rec_qname(lines.last()) == nm && split_bytes(
            lines.last(),
            B_TAB,
        )[2] != seq![B_STAR] && !pre.contains(rec_mapping(lines.last(), refs, method)) {
            seq![rec_mapping(lines.last(), refs, method)]
        } else {
            Seq::empty()
        }
    }
}

/// A name no record line carries accumulates no mappings.
proof fn lemma_read_mappings_empty(
    lines: Seq<Seq<u8>>,
    refs: Seq<Reference>,
    method: Method,
    nm: Seq<u8>,
)
    requires
        !record_names(lines).contains(nm),
    ensures
        read_mappings(lines, refs, method, nm) == Seq::<Mapping>::empty(),
    decreases lines.len(),
{
    if lines.len() > 0 {
        let pre = record_names(lines.drop_last());
        assert(!pre.contains(nm)) by {
            if pre.contains(nm) {
                let k = choose|k: int| 0 <= k < pre.len() && pre[k] == nm;
                assert(record_names(lines)[k] == nm);
                assert(record_names(lines).contains(nm));
            }
        }
        lemma_read_mappings_empty(lines.drop_last(), refs, method, nm);
        if is_record_line(lines.last()) && rec_qname(lines.last()) == nm {
            assert(record_names(lines).last() == nm || pre.contains(nm));
            assert(record_names(lines).contains(nm)) by {
                assert(record_names(lines)[record_names(lines).len() - 1] == nm);
            }
            assert(false);
        }
        assert(read_mappings(lines, refs, method, nm) =~= Seq::<Mapping>::empty());
    }
}

/// Groups the record lines into reads: on success the names are exactly the
/// distinct query names of the record lines in first-occurrence order, and
/// each read's mappings are exactly the transformed mapped records bearing
/// its name. Mappings of a recurring query name are unioned into its
/// existing read, wherever the name recurs. Fails exactly on the first
/// malformed record line (with its 1-based number), or when the input holds
/// more record lines than `MAX_RECORDS`.
#[verifier::loop_isolation(false)]
#[verifier::rlimit(100)]
pub fn analyze_alignments(lines: &Vec<Vec<u8>>, refs: &Vec<Reference>, method: Method) -> (r:
    Result<(Vec<Query>, Vec<Vec<u8>>), IngestError>)
    ensures
        match r {
            Ok((qs, names)) => {
                &&& queries_wf(qs@, names@, refs@.len() as int)
                &&& views(names@) == record_names(views(lines@))
                &&& forall|x: int|
                    0 <= x < qs@.len() ==> (#[trigger] qs@[x]).mappings@ == read_mappings(
                        views(lines@),
                        refs@,
                        method,
                        names@[x]@,
                    )
            },
            Err(e) => (e.kind matches IngestErrorKind::TooManyRecords && lines@.len() > MAX_RECORDS)
                || (1 <= e.line <= lines@.len() && !record_line_ok(
                views(lines@)[e.line - 1],
                refs@,
            )),
        },
{
    let as_tag_v: Vec<u8> = vec![65u8, 83u8, 58u8, 105u8, 58u8];
    proof {
        assert(as_tag_v@ =~= as_tag());
    }
    let mut queries: Vec<Query> = Vec::new();
    let mut names: Vec<Vec<u8>> = Vec::new();
    let mut records: u64 = 0;
    let mut i: usize = 0;
    while i < lines.len()
        invariant
            0 <= i <= lines@.len(),
            as_tag_v@ == as_tag(),
            queries_wf(queries@, names@, refs@.len() as int),
            queries@.len() <= records,
            total_mappings(queries@) <= records,
            records <= i,
            records <= MAX_RECORDS,
            views(names@) == record_names(views(lines@).take(i as int)),
            forall|x: int|
                0 <= x < queries@.len() ==> (#[trigger] queries@[x]).mappings@ == read_mappings(
                    views(lines@).take(i as int),
                    refs@,
                    method,
                    names@[x]@,
                ),
        decreases lines.len() - i,
    {
        proof {
            assert(views(lines@).take(i + 1).drop_last() =~= views(lines@).take(i as int));
            assert(views(lines@).take(i + 1).last() == views(lines@)[i as int]);
            assert(views(lines@)[i as int] == lines@[i as int]@);
        }
        let ghost lv = lines@[i as int]@;
        let ghost pre_lines = views(lines@).take(i as int);
        let line = &lines[i];
        if line.len() >= 1 && line[0] != B_AT {
            if records == MAX_RECORDS {
                return Err(
                    IngestError {
                        line: (i + 1) as u64,
                        kind: IngestErrorKind::TooManyRecords,
                        token: Vec::new(),
                    },
                );
            }
            records = records + 1;
            let fields = split_on(line.as_slice(), B_TAB);
            proof {
                assert(views(fields@) == split_bytes(line@, B_TAB));
            }
            if fields.len() < 10 {
                return Err(
                    IngestError {
                        line: (i + 1) as u64,
                        kind: IngestErrorKind::MissingField,
                        token: Vec::new(),
                    },
                );
            }
            proof {
                assert(views(fields@)[0] == fields@[0]@);
                assert(views(fields@)[1] == fields@[1]@);
                assert(views(fields@)[2] == fields@[2]@);
                assert(views(fields@)[3] == fields@[3]@);
                assert(views(fields@)[9] == fields@[9]@);
            }
            let flag = match parse_u64(fields[1].as_slice()) {
                Some(v) => v,
                None => {
                    return Err(
                        IngestError {
                            line: (i + 1) as u64,
                            kind: IngestErrorKind::BadNumber,
                            token: copy_bytes(fields[1].as_slice()),
                        },
                    );
                },
            };
            let pos = match parse_u64(fields[3].as_slice()) {
                Some(v) => v,
                None => {
                    return Err(
                        IngestError {
                            line: (i + 1) as u64,
                            kind: IngestErrorKind::BadNumber,
                            token: copy_bytes(fields[3].as_slice()),
                        },
                    );
                },
            };
            let paired = flag % 2 == 1;
            let as_val = match find_field_with_prefix(&fields, as_tag_v.as_slice()) {
                Some(ai) => {
                    proof {
                        lemma_first_with_prefix(views(fields@), as_tag());
                        assert(views(fields@)[ai as int] == fields@[ai as int]@);
                    }
                    let tail = tail_bytes(fields[ai].as_slice(), 5);
                    match parse_as_value(tail.as_slice()) {
                        Some(v) => Some(v),
                        None => {
                            return Err(
                                IngestError {
                                    line: (i + 1) as u64,
                                    kind: IngestErrorKind::BadNumber,
                                    token: tail,
                                },
                            );
                        },
                    }
                },
                None => None,
            };
            let ghost pnames = names@;
            let ghost pqueries = queries@;
            let qidx = match find_query_id(&names, fields[0].as_slice()) {
                Some(x) => x,
                None => {
                    let q = Query::new(queries.len() + 1, fields[9].len() as u64, paired);
                    proof {
                        assert(queries@.push(q).drop_last() =~= queries@);
                        lemma_total_mappings_nonneg(queries@);
                    }
                    queries.push(q);
                    names.push(copy_bytes(fields[0].as_slice()));
                    queries.len() - 1
                },
            };
            proof {
                assert(is_record_line(lv));
                assert(rec_qname(lv) == fields@[0]@);
                if names@ == pnames {
                    // a known name: the name table and its spec image stand
                    assert(0 <= qidx < pnames.len() && pnames[qidx as int]@ == fields@[0]@);
                    assert(record_names(pre_lines)[qidx as int] == fields@[0]@);
                    assert(record_names(pre_lines).contains(rec_qname(lv)));
                    assert(record_names(views(lines@).take(i + 1)) =~= record_names(pre_lines));
                } else {
                    // a new name: nothing earlier carries it
                    assert(qidx == pnames.len());
                    assert(names@ =~= pnames.push(names@.last()));
                    assert(names@.last()@ == fields@[0]@);
                    assert(!record_names(pre_lines).contains(rec_qname(lv))) by {
                        if record_names(pre_lines).contains(rec_qname(lv)) {
                            let k = choose|k: int|
                                0 <= k < record_names(pre_lines).len() && record_names(pre_lines)[k]
                                    == rec_qname(lv);
                            assert(views(pnames)[k] == pnames[k]@);
                            assert(false);
                        }
                    }
                    assert(record_names(views(lines@).take(i + 1)) =~= record_names(
                        pre_lines,
                    ).push(rec_qname(lv)));
                    assert(views(names@) =~= views(pnames).push(names@.last()@));
                    lemma_read_mappings_empty(pre_lines, refs@, method, fields@[0]@);
                }
                assert(views(names@) == record_names(views(lines@).take(i + 1)));
                assert(names@[qidx as int]@ == fields@[0]@);
            }
            let star = fields[2].len() == 1 && fields[2][0] == B_STAR;
            if !star {
                let rid = match find_ref_id(refs, fields[2].as_slice()) {
                    Some(x) => x,
                    None => {
                        proof {
                            assert(fields@[2]@ != seq![B_STAR]) by {
                                assert(fields@[2]@.len() != 1 || fields@[2]@[0] != B_STAR);
                            };
                        }
                        return Err(
                            IngestError {
                                line: (i + 1) as u64,
                                kind: IngestErrorKind::UnknownReference,
                                token: copy_bytes(fields[2].as_slice()),
                            },
                        );
                    },
                };
                let score = transform_score(as_val, method);
                let mapping = Mapping { reference_id: rid, score, position: pos, paired };
                proof {
                    // the constructed mapping is exactly the record's spec
                    // transform
                    let fsv = views(fields@);
                    assert(fsv == split_bytes(lv, B_TAB));
                    lemma_ref_index_first(refs@, fsv[2], rid - 1);
                    assert(mapping.reference_id as int == ref_index(refs@, fsv[2]) + 1);
                    assert(mapping.position as int == dec_value(fsv[3]));
                    assert(mapping.paired == (dec_value(fsv[1]) % 2 == 1));
                    let a = first_with_prefix(fsv, as_tag());
                    if a >= 0 {
                        assert(as_val matches Option::Some(v) && v as int == as_value_of(
                            fsv[a].skip(5),
                        ));
                    } else {
                        assert(as_val is None);
                    }
                    assert(mapping == rec_mapping(lv, refs@, method));
                }
                let ghost pre_qs = queries@;
                let mut q = queries.remove(qidx);
                proof {
                    lemma_total_mappings_elem(pre_qs, qidx as int);
                    lemma_sum_scores_bounded(q.mappings@, MAX_SCORE as int);
                    assert(q.mappings@.len() * MAX_SCORE <= MAX_RECORDS * MAX_SCORE)
                        by (nonlinear_arith)
                        requires q.mappings@.len() <= MAX_RECORDS;
                }
                q.add_mapping(mapping);
                queries.insert(qidx, q);
                proof {
                    assert(queries@ =~= pre_qs.update(qidx as int, queries@[qidx as int]));
                    lemma_total_mappings_update(pre_qs, qidx as int, queries@[qidx as int]);
                    // each read's mapping list matches its spec image after
                    // this record
                    assert(fields@[2]@ != seq![B_STAR]) by {
                        assert(fields@[2]@.len() != 1 || fields@[2]@[0] != B_STAR);
                    }
                    let ghost pre_m = pre_qs[qidx as int].mappings@;
                    assert(pre_m == read_mappings(pre_lines, refs@, method, names@[qidx as int]@))
                        by {
                        if qidx < pqueries.len() {
                            assert(pre_qs[qidx as int] == pqueries[qidx as int]);
                        } else {
                            assert(pre_m =~= Seq::<Mapping>::empty());
                        }
                    }
                    assert forall|x: int|
                        0 <= x < queries@.len() implies (#[trigger] queries@[x]).mappings@
                        == read_mappings(
                        views(lines@).take(i + 1),
                        refs@,
                        method,
                        names@[x]@,
                    ) by {
                        if x == qidx {
                            if pre_m.contains(mapping) {
                                assert(queries@[x].mappings@ == pre_m);
                                assert(read_mappings(views(lines@).take(i + 1), refs@, method,
                                    names@[x]@) =~= pre_m);
                            } else {
                                assert(queries@[x].mappings@ == pre_m.push(mapping));
                                assert(read_mappings(views(lines@).take(i + 1), refs@, method,
                                    names@[x]@) =~= pre_m.push(mapping));
                            }
                        } else {
                            assert(queries@[x] == pre_qs[x]);
                            assert(pre_qs[x] == pqueries[x]);
                            assert(names@[x]@ != rec_qname(lv));
                            assert(read_mappings(views(lines@).take(i + 1), refs@, method,
                                names@[x]@) =~= read_mappings(pre_lines, refs@, method,
                                names@[x]@));
                            if x < pqueries.len() {
                                assert(pqueries[x].mappings@ == read_mappings(pre_lines, refs@,
                                    method, names@[x]@));
                            }
                        }
                    }
                }
            } else {
                proof {
                    assert(fields@[2]@ =~= seq![B_STAR]);
                    assert forall|x: int|
                        0 <= x < queries@.len() implies (#[trigger] queries@[x]).mappings@
                        == read_mappings(
                        views(lines@).take(i + 1),
                        refs@,
                        method,
                        names@[x]@,
                    ) by {
                        assert(read_mappings(views(lines@).take(i + 1), refs@, method, names@[x]@)
                            =~= read_mappings(pre_lines, refs@, method, names@[x]@));
                        if x < pqueries.len() {
                            assert(queries@[x] == pqueries[x]);
                        } else {
                            assert(queries@[x].mappings@ =~= Seq::<Mapping>::empty());
                            assert(read_mappings(pre_lines, refs@, method, names@[x]@)
                                =~= Seq::<Mapping>::empty());
                        }
                    }
                }
            }
        } else {
            proof {
                assert(!is_record_line(lv));
                assert(record_names(views(lines@).take(i + 1)) =~= record_names(pre_lines));
                assert forall|x: int|
                    0 <= x < queries@.len() implies (#[trigger] queries@[x]).mappings@
                    == read_mappings(views(lines@).take(i + 1), refs@, method, names@[x]@) by {
                    assert(read_mappings(views(lines@).take(i + 1), refs@, method, names@[x]@)
                        =~= read_mappings(pre_lines, refs@, method, names@[x]@));
                }
            }
        }
        i = i + 1;
    }
    proof {
        assert(views(lines@).take(lines@.len() as int) =~= views(lines@));
    }
    Ok((queries, names))
}

} // verus!

verus! {

/// Number of reads with no mapping.
pub open spec fn count_unmapped(qs: Seq<Query>) -> int
    decreases qs.len(),
{
    if qs.len() == 0 {
        0
    } else {
        count_unmapped(qs.drop_last()) + if qs.last().mappings@.len() == 0 {
            1int
        } else {
            0int
        }
    }
}

/// Number of reads with at least one mapping.
pub open spec fn count_mapped(qs: Seq<Query>) -> int
    decreases qs.len(),
{
    if qs.len() == 0 {
        0
    } else {
        count_mapped(qs.drop_last()) + if qs.last().mappings@.len() >= 1 {
            1int
        } else {
            0int
        }
    }
}

/// Every read is either unmapped or mapped: the two counts partition the
/// read table, whatever the input was.
pub proof fn lemma_read_partition(qs: Seq<Query>)
    ensures
        count_unmapped(qs) + count_mapped(qs) == qs.len(),
        count_unmapped(qs) >= 0,
        count_mapped(qs) >= 0,
    decreases qs.len(),
{
    if qs.len() > 0 {
        lemma_read_partition(qs.drop_last());
    }
}

/// Splitting a buffer in two chunks loses no line: the lines of the whole
/// are the complete lines of the first chunk followed by the lines of the
/// retained partial line glued to the second chunk.
pub proof fn lemma_split_chunks(x: Seq<u8>, y: Seq<u8>, sep: u8)
    ensures
        split_bytes(x + y, sep) == split_bytes(x, sep).drop_last() + split_bytes(
            split_bytes(x, sep).last() + y,
            sep,
        ),
    decreases x.len(),
{
    crate::util::lemma_find_byte_is_first(x, sep);
    let i = crate::util::find_byte(x, sep);
    if i < 0 {
        assert(split_bytes(x, sep) == seq![x]);
        assert(split_bytes(x, sep).drop_last() =~= Seq::<Seq<u8>>::empty());
        assert(split_bytes(x, sep).last() + y =~= x + y);
        assert(split_bytes(x + y, sep) =~= Seq::<Seq<u8>>::empty() + split_bytes(x + y, sep));
    } else {
        let a = x.take(i);
        let rest = x.skip(i + 1);
        assert(x =~= a + seq![sep] + rest);
        crate::util::lemma_split_prepend(a, rest, sep);
        assert(x + y =~= a + seq![sep] + (rest + y));
        crate::util::lemma_split_prepend(a, rest + y, sep);
        lemma_split_chunks(rest, y, sep);
        assert(split_bytes(x, sep) == seq![a] + split_bytes(rest, sep));
        assert(split_bytes(rest, sep).len() >= 1) by {
            lemma_split_nonempty(rest, sep);
        }
        assert(split_bytes(x, sep).last() == split_bytes(rest, sep).last());
        assert(split_bytes(x, sep).drop_last() =~= seq![a] + split_bytes(rest, sep).drop_last());
        assert((seq![a] + split_bytes(rest, sep).drop_last()) + split_bytes(
            split_bytes(rest, sep).last() + y,
            sep,
        ) =~= seq![a] + (split_bytes(rest, sep).drop_last() + split_bytes(
            split_bytes(rest, sep).last() + y,
            sep,
        )));
    }
}

/// A split always yields at least one field.
pub proof fn lemma_split_nonempty(s: Seq<u8>, sep: u8)
    ensures
        split_bytes(s, sep).len() >= 1,
{
}

/// Assembles complete lines out of arbitrarily chunked buffers, retaining a
/// trailing partial line between chunks.
pub struct LineAssembler {
    pub leftover: Vec<u8>,
}

impl LineAssembler {
    pub fn new() -> (r: LineAssembler)
        ensures
            r.leftover@ == Seq::<u8>::empty(),
    {
        LineAssembler { leftover: Vec::new() }
    }

    /// Appends one chunk and returns the lines completed by it; the trailing
    /// bytes after the last newline are retained for the next chunk.
    pub fn feed(&mut self, chunk: &[u8]) -> (lines: Vec<Vec<u8>>)
        ensures
            views(lines@) == split_bytes(old(self).leftover@ + chunk@, B_NL).drop_last(),
            final(self).leftover@ == split_bytes(old(self).leftover@ + chunk@, B_NL).last(),
    {
        let mut buf = copy_bytes(self.leftover.as_slice());
        let mut i: usize = 0;
        while i < chunk.len()
            invariant
                0 <= i <= chunk@.len(),
                buf@ == old(self).leftover@ + chunk@.take(i as int),
                self.leftover@ == old(self).leftover@,
            decreases chunk.len() - i,
        {
            buf.push(chunk[i]);
            proof {
                assert(buf@ =~= old(self).leftover@ + chunk@.take(i + 1));
            }
            i = i + 1;
        }
        proof {
            assert(buf@ =~= old(self).leftover@ + chunk@);
        }
        let mut parts = split_on(buf.as_slice(), B_NL);
        let last = match parts.pop() {
            Some(x) => x,
            None => Vec::new(),
        };
        proof {
            assert(views(parts@) =~= views(parts@.push(last)).drop_last());
        }
        self.leftover = last;
        parts
    }

    /// The retained partial line, handed out at end of input.
    pub fn take_leftover(self) -> (r: Vec<u8>)
        ensures
            r@ == self.leftover@,
    {
        self.leftover
    }
}

/// Parses a whole SAM text: builds the reference table from the header and
/// groups the records into reads. On success the three tables are mutually
/// well formed; on failure the error names the first offending line.
pub fn read_initial_alignments(data: &[u8], method: Method) -> (r: Result<
    (Vec<Reference>, Vec<Query>, Vec<Vec<u8>>),
    IngestError,
>)
    ensures
        match r {
            Ok((refs, qs, names)) => {
                &&& queries_wf(qs@, names@, refs@.len() as int)
                &&& forall|k: int|
                    0 <= k < refs@.len() ==> 1 <= (#[trigger] refs@[k]).ref_len
                        <= crate::MAX_REF_LEN
                &&& refs@.len() <= MAX_RECORDS
                &&& refs@.len() == header_refs(split_bytes(data@, B_NL)).len()
                &&& forall|k: int|
                    0 <= k < refs@.len() ==> (#[trigger] refs@[k]).ref_name@ == header_refs(
                        split_bytes(data@, B_NL),
                    )[k].0 && refs@[k].ref_len as int == header_refs(split_bytes(data@, B_NL))[k].1
                &&& views(names@) == record_names(split_bytes(data@, B_NL))
                &&& forall|x: int|
                    0 <= x < qs@.len() ==> (#[trigger] qs@[x]).mappings@ == read_mappings(
                        split_bytes(data@, B_NL),
                        refs@,
                        method,
                        names@[x]@,
                    )
            },
            Err(e) => true,
        },
{
    let lines = split_on(data, B_NL);
    let refs = match analyze_header(&lines) {
        Ok(x) => x,
        Err(e) => {
            return Err(e);
        },
    };
    match analyze_alignments(&lines, &refs, method) {
        Ok((qs, names)) => Ok((refs, qs, names)),
        Err(e) => Err(e),
    }
}

} // verus!

verus! {

/// Position of the first mapping holding the highest score (0 for an empty
/// list): the mapping the dominant-best rule elects.
pub open spec fn first_max_idx(ms: Seq<Mapping>) -> int
    decreases ms.len(),
{
    if ms.len() <= 1 {
        0
    } else {
        let p = first_max_idx(ms.drop_last());
        if ms.last().score > ms[p].score {
            ms.len() - 1
        } else {
            p
        }
    }
}

/// Highest score among the mappings other than position `e` (0 when there
/// are none): the second-best score once `e` is the elected best.
pub open spec fn max_except(ms: Seq<Mapping>, e: int) -> int
    decreases ms.len(),
{
    if ms.len() == 0 {
        0
    } else {
        let m = max_except(ms.drop_last(), e);
        if ms.len() - 1 != e && ms.last().score > m {
            ms.last().score as int
        } else {
            m
        }
    }
}

/// The elected position is in range and holds the highest score.
pub proof fn lemma_first_max_idx_bounds(ms: Seq<Mapping>)
    requires
        ms.len() > 0,
    ensures
        0 <= first_max_idx(ms) < ms.len(),
        forall|j: int| 0 <= j < ms.len() ==> (#[trigger] ms[j]).score <= ms[first_max_idx(ms)].score,
    decreases ms.len(),
{
    if ms.len() > 1 {
        lemma_first_max_idx_bounds(ms.drop_last());
        assert forall|j: int| 0 <= j < ms.len() implies (#[trigger] ms[j]).score <= ms[
            first_max_idx(ms)].score by {
            if j < ms.len() - 1 {
                assert(ms.drop_last()[j] == ms[j]);
                assert(ms.drop_last()[first_max_idx(ms.drop_last())] == ms[first_max_idx(
                    ms.drop_last(),
                )]);
            }
        }
    }
}

impl Query {
    /// Best and second-best mappings: `(r1, s1, r2, s2)` where `s1` is the
    /// highest score, held by the first mapping attaining it (target `r1`),
    /// and `s2` is the highest score among the other positions. A read
    /// with no mappings yields zeros; a read with one mapping has `s2 == 0`.
    #[verifier::loop_isolation(false)]
    pub fn get_best_mappings(&self) -> (r: (usize, u64, usize, u64))
        ensures
            self.mappings@.len() == 0 ==> r == (0usize, 0u64, 0usize, 0u64),
            self.mappings@.len() > 0 ==> {
                &&& 0 <= first_max_idx(self.mappings@) < self.mappings@.len()
                &&& r.0 == self.mappings@[first_max_idx(self.mappings@)].reference_id
                &&& r.1 == self.mappings@[first_max_idx(self.mappings@)].score
                &&& r.3 == max_except(self.mappings@, first_max_idx(self.mappings@))
            },
            self.mappings@.len() > 0 ==> exists|i: int|
                {
                    &&& 0 <= i < self.mappings@.len()
                    &&& (#[trigger] self.mappings@[i]).reference_id == r.0
                    &&& self.mappings@[i].score == r.1
                    &&& (forall|j: int|
                        0 <= j < self.mappings@.len() ==> (#[trigger] self.mappings@[j]).score
                            <= r.1)
                    &&& (forall|j: int|
                        0 <= j < self.mappings@.len() && j != i
                            ==> (#[trigger] self.mappings@[j]).score <= r.3)
                    &&& r.3 <= r.1
                },
    {
        if self.mappings.len() == 0 {
            return (0, 0, 0, 0);
        }
        let mut best_idx: usize = 0;
        let mut i: usize = 1;
        while i < self.mappings.len()
            invariant
                0 <= best_idx < i <= self.mappings@.len(),
                best_idx == first_max_idx(self.mappings@.take(i as int)),
                forall|j: int|
                    0 <= j < i ==> (#[trigger] self.mappings@[j]).score
                        <= self.mappings@[best_idx as int].score,
            decreases self.mappings.len() - i,
        {
            proof {
                assert(self.mappings@.take(i + 1).drop_last() =~= self.mappings@.take(i as int));
                assert(self.mappings@.take(i + 1).last() == self.mappings@[i as int]);
            }
            if self.mappings[i].score > self.mappings[best_idx].score {
                best_idx = i;
            }
            i = i + 1;
        }
        proof {
            assert(self.mappings@.take(self.mappings@.len() as int) =~= self.mappings@);
        }
        let mut second_score: u64 = 0;
        let mut second_ref: usize = 0;
        let mut k: usize = 0;
        while k < self.mappings.len()
            invariant
                0 <= k <= self.mappings@.len(),
                0 <= best_idx < self.mappings@.len(),
                best_idx == first_max_idx(self.mappings@),
                second_score == max_except(self.mappings@.take(k as int), best_idx as int),
                second_score <= self.mappings@[best_idx as int].score,
                forall|j: int|
                    0 <= j < k && j != best_idx ==> (#[trigger] self.mappings@[j]).score
                        <= second_score,
            decreases self.mappings.len() - k,
        {
            proof {
                assert(self.mappings@.take(k + 1).drop_last() =~= self.mappings@.take(k as int));
                assert(self.mappings@.take(k + 1).last() == self.mappings@[k as int]);
            }
            if k != best_idx {
                if self.mappings[k].score > second_score {
                    second_score = self.mappings[k].score;
                    second_ref = self.mappings[k].reference_id;
                }
            }
            k = k + 1;
        }
        proof {
            assert(self.mappings@.take(self.mappings@.len() as int) =~= self.mappings@);
        }
        let b = self.mappings[best_idx];
        (b.reference_id, b.score, second_ref, second_score)
    }

    /// The read's mappings ordered by descending score (a permutation of
    /// the mapping list).
    #[verifier::loop_isolation(false)]
    pub fn sort_mappings(&self) -> (r: Vec<Mapping>)
        ensures
            r@.len() == self.mappings@.len(),
            r@.to_multiset() == self.mappings@.to_multiset(),
            forall|i: int, j: int| 0 <= i < j < r@.len() ==> #[trigger] r@[i].score >= #[trigger] r@[j].score,
            forall|k: int| 0 <= k < r@.len() ==> self.mappings@.contains(#[trigger] r@[k]),
    {
        let mut rest: Vec<Mapping> = Vec::new();
        let mut j: usize = 0;
        while j < self.mappings.len()
            invariant
                0 <= j <= self.mappings@.len(),
                rest@ == self.mappings@.take(j as int),
            decreases self.mappings.len() - j,
        {
            rest.push(self.mappings[j]);
            j = j + 1;
        }
        proof {
            assert(rest@ =~= self.mappings@);
        }
        let mut out: Vec<Mapping> = Vec::new();
        proof {
            broadcast use vstd::seq_lib::group_to_multiset_ensures;

            assert(out@.to_multiset().add(rest@.to_multiset()) =~= self.mappings@.to_multiset());
        }
        while rest.len() > 0
            invariant
                out@.to_multiset().add(rest@.to_multiset()) == self.mappings@.to_multiset(),
                out@.len() + rest@.len() == self.mappings@.len(),
                forall|i: int, j2: int|
                    0 <= i < j2 < out@.len() ==> #[trigger] out@[i].score >= #[trigger] out@[j2].score,
                forall|k: int, m: int|
                    0 <= k < out@.len() && 0 <= m < rest@.len() ==> (#[trigger] out@[k]).score
                        >= (#[trigger] rest@[m]).score,
            decreases rest.len(),
        {
            let mut max_idx: usize = 0;
            let mut i: usize = 1;
            while i < rest.len()
                invariant
                    0 <= max_idx < i <= rest@.len(),
                    forall|k: int|
                        0 <= k < i ==> (#[trigger] rest@[k]).score <= rest@[max_idx as int].score,
                decreases rest.len() - i,
            {
                if rest[i].score > rest[max_idx].score {
                    max_idx = i;
                }
                i = i + 1;
            }
            let chosen = rest.remove(max_idx);
            proof {
                broadcast use vstd::seq_lib::group_to_multiset_ensures;
            }
            out.push(chosen);
            proof {
                assert(out@.to_multiset().add(rest@.to_multiset()) =~= self.mappings@.to_multiset());
            }
        }
        proof {
            broadcast use vstd::seq_lib::group_to_multiset_ensures;

            assert forall|k: int| 0 <= k < out@.len() implies self.mappings@.contains(
                #[trigger] out@[k],
            ) by {
                assert(out@.contains(out@[k]));
                assert(out@.to_multiset().count(out@[k]) > 0);
                assert(self.mappings@.to_multiset().count(out@[k]) > 0);
            }
        }
        out
    }
}

} // verus!
