use vstd::prelude::*;

use crate::dir_view::{lemma_strs_of, strs_of};

verus! {

broadcast use vstd::std_specs::vec::group_vec_axioms, vstd::seq::group_seq_axioms;

// ---------------------------------------------------------------------------
// The byte-range download protocol: parsing `Range` headers and deciding
// status, offsets and headers for a download, on plain values. Opening,
// seeking and streaming the file are left to the caller.
// ---------------------------------------------------------------------------

/// Whether the character is a decimal digit.
pub open spec fn is_digit(c: char) -> bool {
    '0' <= c <= '9'
}

/// The numeric value of a digit character.
pub open spec fn digit_val(c: char) -> int {
    c as int - '0' as int
}

/// Whether the sequence is all decimal digits.
pub open spec fn all_digits(s: Seq<char>) -> bool {
    forall|i: int| 0 <= i < s.len() ==> is_digit(#[trigger] s[i])
}

/// The number the digit sequence denotes, most significant digit first.
pub open spec fn digits_val(s: Seq<char>) -> int
    decreases s,
{
    if s.len() == 0 {
        0
    } else {
        digits_val(s.drop_last()) * 10 + digit_val(s.last())
    }
}

/// What `u64` parsing accepts: an optional leading plus sign, then one or
/// more decimal digits, denoting a value that fits in 64 bits.
pub open spec fn parse_u64_spec(s: Seq<char>) -> Option<u64> {
    let ds = if s.len() > 0 && s[0] == '+' {
        s.drop_first()
    } else {
        s
    };
    if ds.len() > 0 && all_digits(ds) && digits_val(ds) <= u64::MAX {
        Some(digits_val(ds) as u64)
    } else {
        None
    }
}

/// A digit sequence denotes a non-negative number.
pub proof fn lemma_digits_val_nonneg(s: Seq<char>)
    requires
        all_digits(s),
    ensures
        digits_val(s) >= 0,
    decreases s,
{
    if s.len() > 0 {
        assert(all_digits(s.drop_last()));
        lemma_digits_val_nonneg(s.drop_last());
    }
}

/// A prefix of a digit sequence denotes at most the whole sequence's value.
pub proof fn lemma_digits_val_take_le(s: Seq<char>, j: int)
    requires
        all_digits(s),
        0 <= j <= s.len(),
    ensures
        digits_val(s.take(j)) <= digits_val(s),
    decreases s.len() - j,
{
    if j == s.len() {
        assert(s.take(j) =~= s);
    } else {
        assert(s.take(j + 1).drop_last() =~= s.take(j));
        assert(s.take(j + 1).last() == s[j]);
        assert(all_digits(s.take(j)));
        lemma_digits_val_nonneg(s.take(j));
        lemma_digits_val_take_le(s, j + 1);
    }
}

/// Parses a decimal `u64`: an optional leading plus sign, then one or more
/// digits; anything else, or a value over `u64::MAX`, is rejected.
#[verifier::loop_isolation(false)]
fn parse_u64(s: &str) -> (r: Option<u64>)
    ensures
        r == parse_u64_spec(s@),
{
    let n = s.unicode_len();
    let st: usize = if n > 0 && s.get_char(0) == '+' {
        1
    } else {
        0
    };
    let ghost ds = if s@.len() > 0 && s@[0] == '+' {
        s@.drop_first()
    } else {
        s@
    };
    proof {
        assert(ds =~= s@.subrange(st as int, n as int));
    }
    if st == n {
        return None;
    }
    let mut acc: u64 = 0;
    let mut i: usize = st;
    while i < n
        invariant
            st <= i <= n,
            n == s@.len(),
            all_digits(ds.take(i - st)),
            acc == digits_val(ds.take(i - st)),
        decreases n - i,
    {
        let c = s.get_char(i);
        if !('0' <= c && c <= '9') {
            proof {
                assert(ds[i - st] == c);
                assert(!all_digits(ds));
            }
            return None;
        }
        let d: u64 = (c as u32 as u64) - 48;
        proof {
            assert(ds.take(i - st + 1).drop_last() =~= ds.take(i - st));
            assert(ds.take(i - st + 1).last() == ds[i - st]);
            assert(all_digits(ds.take(i - st + 1)));
        }
        if acc > (u64::MAX - d) / 10 {
            proof {
                let q = ((u64::MAX - d) / 10) as int;
                let m = (u64::MAX - d) as int;
                vstd::arithmetic::div_mod::lemma_fundamental_div_mod(m, 10);
                vstd::arithmetic::div_mod::lemma_mod_bound(m, 10);
                assert(acc * 10 >= (q + 1) * 10) by (nonlinear_arith)
                    requires
                        acc as int >= q + 1,
                ;
                assert(digits_val(ds.take(i - st + 1)) > u64::MAX);
                if all_digits(ds) {
                    lemma_digits_val_take_le(ds, i - st + 1);
                    assert(ds.take(ds.len() as int) =~= ds);
                }
            }
            return None;
        }
        proof {
            let q = ((u64::MAX - d) / 10) as int;
            let m = (u64::MAX - d) as int;
            vstd::arithmetic::div_mod::lemma_fundamental_div_mod(m, 10);
            vstd::arithmetic::div_mod::lemma_mod_bound(m, 10);
            assert(acc * 10 <= q * 10) by (nonlinear_arith)
                requires
                    acc as int <= q,
            ;
        }
        acc = acc * 10 + d;
        i = i + 1;
    }
    proof {
        assert(ds.take(ds.len() as int) =~= ds);
        lemma_digits_val_nonneg(ds);
    }
    Some(acc)
}

/// A left-to-right scan splitting on a separator: `cur` is the piece read
/// since the last separator, `acc` the pieces already produced. The final
/// piece is always produced, so a split never yields an empty list.
pub open spec fn split_from(s: Seq<char>, sep: char, i: int, cur: Seq<char>, acc: Seq<Seq<char>>) -> Seq<
    Seq<char>,
>
    decreases s.len() - i,
{
    if i < 0 || i >= s.len() {
        acc.push(cur)
    } else if s[i] == sep {
        split_from(s, sep, i + 1, Seq::empty(), acc.push(cur))
    } else {
        split_from(s, sep, i + 1, cur.push(s[i]), acc)
    }
}

/// The pieces of `s` between occurrences of `sep`, kept verbatim: empty
/// pieces included, and at least one piece always.
pub open spec fn split_on(s: Seq<char>, sep: char) -> Seq<Seq<char>> {
    split_from(s, sep, 0, Seq::empty(), Seq::empty())
}

/// Splits a string on a separator character, keeping empty pieces.
#[verifier::loop_isolation(false)]
fn split_str(s: &str, sep: char) -> (r: Vec<String>)
    ensures
        strs_of(r@) == split_on(s@, sep),
        r@.len() >= 1,
{
    let n = s.unicode_len();
    let mut parts: Vec<String> = Vec::new();
    proof {
        assert(s@.subrange(0, 0) =~= Seq::<char>::empty());
        assert(strs_of(parts@) =~= Seq::<Seq<char>>::empty());
    }
    let mut st: usize = 0;
    let mut i: usize = 0;
    while i < n
        invariant
            0 <= st <= i <= n,
            n == s@.len(),
            split_on(s@, sep) == split_from(
                s@,
                sep,
                i as int,
                s@.subrange(st as int, i as int),
                strs_of(parts@),
            ),
            strs_of(parts@).len() == parts@.len(),
        decreases n - i,
    {
        let c = s.get_char(i);
        if c == sep {
            let piece = s.substring_char(st, i).to_owned();
            let ghost prev = parts@;
            parts.push(piece);
            proof {
                assert(parts@.drop_last() =~= prev);
                assert(strs_of(parts@) =~= strs_of(prev).push(
                    s@.subrange(st as int, i as int),
                ));
            }
            st = i + 1;
            proof {
                assert(s@.subrange(st as int, i as int + 1) =~= Seq::<char>::empty());
            }
        } else {
            proof {
                assert(s@.subrange(st as int, i as int + 1) =~= s@.subrange(
                    st as int,
                    i as int,
                ).push(s@[i as int]));
            }
        }
        i = i + 1;
    }
    let piece = s.substring_char(st, n).to_owned();
    let ghost prev = parts@;
    parts.push(piece);
    proof {
        assert(parts@.drop_last() =~= prev);
        assert(strs_of(parts@) =~= strs_of(prev).push(
            s@.subrange(st as int, n as int),
        ));
    }
    parts
}

// ---------------------------------------------------------------------------
// The `Range` header grammar: `bytes=<start>-<end>[,<start>-<end>...]`,
// where either side of a piece may be omitted.
// ---------------------------------------------------------------------------

/// Why a `Range` header failed to parse. Any of these is a malformed
/// request.
#[derive(Debug, PartialEq, Eq, Structural, Clone, Copy)]
pub enum RangeParseError {
    /// The unit before `=` was not literally `bytes`.
    WrongUnit,
    /// Nothing followed the unit.
    MissingRangeValues,
    /// More than one `=` in the header.
    TrailingUnit,
    /// A range bound was not a decimal number that fits in 64 bits.
    InvalidNumber,
    /// A piece had no `-` between its bounds.
    MissingDash,
    /// A piece had more than one `-`.
    ExtraDash,
}

/// The required range unit.
pub open spec fn bytes_unit() -> Seq<char> {
    seq!['b', 'y', 't', 'e', 's']
}

/// One `start-end` piece: either bound may be empty, a non-empty bound must
/// be a decimal number, and exactly one dash must stand between them.
pub open spec fn piece_range(p: Seq<char>) -> Result<(Option<u64>, Option<u64>), RangeParseError> {
    let sub = split_on(p, '-');
    if sub[0].len() > 0 && parse_u64_spec(sub[0]) is None {
        Err(RangeParseError::InvalidNumber)
    } else if sub.len() == 1 {
        Err(RangeParseError::MissingDash)
    } else if sub[1].len() > 0 && parse_u64_spec(sub[1]) is None {
        Err(RangeParseError::InvalidNumber)
    } else if sub.len() > 2 {
        Err(RangeParseError::ExtraDash)
    } else {
        Ok((parse_u64_spec(sub[0]), parse_u64_spec(sub[1])))
    }
}

/// The comma-separated pieces in order; the first failing piece decides.
pub open spec fn ranges_of(pieces: Seq<Seq<char>>) -> Result<
    Seq<(Option<u64>, Option<u64>)>,
    RangeParseError,
>
    decreases pieces,
{
    if pieces.len() == 0 {
        Ok(Seq::empty())
    } else {
        match ranges_of(pieces.drop_last()) {
            Err(e) => Err(e),
            Ok(rs) => match piece_range(pieces.last()) {
                Err(e) => Err(e),
                Ok(r) => Ok(rs.push(r)),
            },
        }
    }
}

/// If the pieces before `k` parse and piece `k` fails, that failure decides
/// the whole list.
pub proof fn lemma_ranges_of_first_err(
    pieces: Seq<Seq<char>>,
    k: int,
    e: RangeParseError,
)
    requires
        0 <= k < pieces.len(),
        ranges_of(pieces.take(k)) is Ok,
        piece_range(pieces[k]) == Err::<(Option<u64>, Option<u64>), RangeParseError>(e),
    ensures
        ranges_of(pieces) == Err::<Seq<(Option<u64>, Option<u64>)>, RangeParseError>(e),
    decreases pieces.len(),
{
    if pieces.len() == k + 1 {
        assert(pieces.drop_last() =~= pieces.take(k));
    } else {
        assert(pieces.drop_last().take(k) =~= pieces.take(k));
        lemma_ranges_of_first_err(pieces.drop_last(), k, e);
    }
}

/// What parsing a whole `Range` header yields: the unit must be literally
/// `bytes`, exactly one `=` must follow it, and each comma-separated piece
/// must be a well-formed range.
pub open spec fn parse_ranges_spec(s: Seq<char>) -> Result<
    Seq<(Option<u64>, Option<u64>)>,
    RangeParseError,
> {
    let parts = split_on(s, '=');
    if parts[0] != bytes_unit() {
        Err(RangeParseError::WrongUnit)
    } else if parts.len() == 1 {
        Err(RangeParseError::MissingRangeValues)
    } else if parts.len() > 2 {
        Err(RangeParseError::TrailingUnit)
    } else {
        ranges_of(split_on(parts[1], ','))
    }
}

/// A parse outcome as a mathematical value.
pub open spec fn ranges_result_model(
    r: Result<Vec<(Option<u64>, Option<u64>)>, RangeParseError>,
) -> Result<Seq<(Option<u64>, Option<u64>)>, RangeParseError> {
    match r {
        Ok(v) => Ok(v@),
        Err(e) => Err(e),
    }
}

/// Parses a `Range` header into its `(start, end)` pairs, either bound of
/// which may be absent. The unit must be literally `bytes`; a malformed
/// header is rejected with the first offending piece's failure.
#[verifier::loop_isolation(false)]
pub fn parse_ranges(range: &str) -> (r: Result<Vec<(Option<u64>, Option<u64>)>, RangeParseError>)
    ensures
        ranges_result_model(r) == parse_ranges_spec(range@),
{
    let ghost sp = split_on(range@, '=');
    let parts = split_str(range, '=');
    proof {
        lemma_strs_of(parts@);
        reveal_strlit("bytes");
        assert("bytes"@ =~= bytes_unit());
    }
    let bytes_lit: String = "bytes".to_owned();
    if !(parts[0] == bytes_lit) {
        return Err(RangeParseError::WrongUnit);
    }
    if parts.len() == 1 {
        return Err(RangeParseError::MissingRangeValues);
    }
    if parts.len() > 2 {
        return Err(RangeParseError::TrailingUnit);
    }
    let ghost ps = split_on(sp[1], ',');
    let pieces = split_str(parts[1].as_str(), ',');
    proof {
        lemma_strs_of(pieces@);
    }
    let mut out: Vec<(Option<u64>, Option<u64>)> = Vec::new();
    let mut k: usize = 0;
    while k < pieces.len()
        invariant
            0 <= k <= pieces.len(),
            ps.len() == pieces.len(),
            forall|j: int| 0 <= j < pieces.len() ==> ps[j] == pieces@[j]@,
            ranges_of(ps.take(k as int)) == Ok::<
                Seq<(Option<u64>, Option<u64>)>,
                RangeParseError,
            >(out@),
        decreases pieces.len() - k,
    {
        proof {
            assert(ps.take(k as int + 1).drop_last() =~= ps.take(k as int));
            assert(ps.take(k as int + 1).last() == ps[k as int]);
        }
        let ghost p = ps[k as int];
        let sub = split_str(pieces[k].as_str(), '-');
        proof {
            lemma_strs_of(sub@);
        }
        let v1 = parse_u64(sub[0].as_str());
        if !sub[0].as_str().is_empty() && v1.is_none() {
            proof {
                lemma_ranges_of_first_err(ps, k as int, RangeParseError::InvalidNumber);
            }
            return Err(RangeParseError::InvalidNumber);
        }
        if sub.len() == 1 {
            proof {
                lemma_ranges_of_first_err(ps, k as int, RangeParseError::MissingDash);
            }
            return Err(RangeParseError::MissingDash);
        }
        let v2 = parse_u64(sub[1].as_str());
        if !sub[1].as_str().is_empty() && v2.is_none() {
            proof {
                lemma_ranges_of_first_err(ps, k as int, RangeParseError::InvalidNumber);
            }
            return Err(RangeParseError::InvalidNumber);
        }
        if sub.len() > 2 {
            proof {
                lemma_ranges_of_first_err(ps, k as int, RangeParseError::ExtraDash);
            }
            return Err(RangeParseError::ExtraDash);
        }
        out.push((v1, v2));
        k = k + 1;
    }
    proof {
        assert(ps.take(ps.len() as int) =~= ps);
    }
    Ok(out)
}

// ---------------------------------------------------------------------------
// Deciding a download response.
// ---------------------------------------------------------------------------

/// Why a range request could not be satisfied. Any of these answers with an
/// unsatisfiable-range status.
#[derive(Debug, PartialEq, Eq, Structural, Clone, Copy)]
pub enum RangeError {
    /// A range request with no range at all.
    NoRanges,
    /// More than one range; multipart responses are not supported.
    MultipleRanges,
    /// A range with no start bound; suffix ranges are not supported.
    NoStart,
    /// The start lay beyond the end of the file.
    StartPastEnd,
    /// A range request against an empty file can never be satisfied.
    EmptyFile,
}

/// A partial-content response: the file is served from `start` to its end,
/// whatever end bound the request gave.
#[derive(Debug, PartialEq, Eq, Structural, Clone, Copy)]
pub struct RangePlan {
    /// First byte offset served, and the offset to seek to.
    pub start: u64,
    /// Last byte offset served: the last byte of the file.
    pub end: u64,
    /// How many bytes are served.
    pub length: u64,
    /// The whole file's length.
    pub total: u64,
}

/// What a range request against a file of length `len` must answer: exactly
/// one range with an explicit start, at most `len`; the response then serves
/// from that start to the end of the file.
pub open spec fn range_plan_spec(rs: Seq<(Option<u64>, Option<u64>)>, len: u64) -> Result<
    RangePlan,
    RangeError,
> {
    if rs.len() == 0 {
        Err(RangeError::NoRanges)
    } else if rs.len() > 1 {
        Err(RangeError::MultipleRanges)
    } else if rs[0].0 is None {
        Err(RangeError::NoStart)
    } else if rs[0].0.unwrap() > len {
        Err(RangeError::StartPastEnd)
    } else if len == 0 {
        Err(RangeError::EmptyFile)
    } else {
        Ok(
            RangePlan {
                start: rs[0].0.unwrap(),
                end: (len - 1) as u64,
                length: (len - rs[0].0.unwrap()) as u64,
                total: len,
            },
        )
    }
}

/// Decides a range request against the actual file length: a single range
/// with an explicit start within the file is served from that start to the
/// end of the file; anything else is unsatisfiable. A range against an
/// empty file is unsatisfiable rather than answered with an impossible
/// byte span.
pub fn plan_range(ranges: &Vec<(Option<u64>, Option<u64>)>, file_len: u64) -> (r: Result<
    RangePlan,
    RangeError,
>)
    ensures
        r == range_plan_spec(ranges@, file_len),
{
    if ranges.len() == 0 {
        return Err(RangeError::NoRanges);
    }
    if ranges.len() > 1 {
        return Err(RangeError::MultipleRanges);
    }
    let (start_opt, _end) = ranges[0];
    match start_opt {
        None => Err(RangeError::NoStart),
        Some(start) => {
            if start > file_len {
                Err(RangeError::StartPastEnd)
            } else if file_len == 0 {
                Err(RangeError::EmptyFile)
            } else {
                Ok(
                    RangePlan {
                        start,
                        end: file_len - 1,
                        length: file_len - start,
                        total: file_len,
                    },
                )
            }
        },
    }
}

/// Why a download request failed, and with which HTTP status class.
#[derive(Debug, PartialEq, Eq, Structural, Clone, Copy)]
pub enum DownloadError {
    /// No such file: not found.
    NotFound,
    /// The path names a directory; directory downloads are unsupported.
    IsDirectory,
    /// The `Range` header was malformed: a bad request.
    BadRange(RangeParseError),
    /// The `Range` header parsed but cannot be satisfied.
    Unsatisfiable(RangeError),
}

impl DownloadError {
    /// The HTTP status code this failure answers with.
    pub fn status_code(&self) -> (r: u16)
        ensures
            r == match *self {
                DownloadError::NotFound => 404u16,
                DownloadError::IsDirectory => 415u16,
                DownloadError::BadRange(_) => 400u16,
                DownloadError::Unsatisfiable(_) => 416u16,
            },
    {
        match self {
            DownloadError::NotFound => 404,
            DownloadError::IsDirectory => 415,
            DownloadError::BadRange(_) => 400,
            DownloadError::Unsatisfiable(_) => 416,
        }
    }
}

/// How a download is answered: the whole file, or a single range from
/// `start` to the end of the file.
#[derive(Debug, PartialEq, Eq, Structural, Clone, Copy)]
pub enum DownloadPlan {
    /// Serve the whole file with an OK status.
    Full { length: u64 },
    /// Serve from `start` to the end of the file with a partial-content
    /// status.
    Partial(RangePlan),
}

/// What a download request must answer, given what the filesystem reported
/// about the target — nothing, a directory, or a file of some length — and
/// the request's `Range` header, if any.
pub open spec fn download_plan_spec(
    found: Option<(bool, u64)>,
    range_header: Option<Seq<char>>,
) -> Result<DownloadPlan, DownloadError> {
    match found {
        None => Err(DownloadError::NotFound),
        Some((is_dir, len)) => if is_dir {
            Err(DownloadError::IsDirectory)
        } else {
            match range_header {
                None => Ok(DownloadPlan::Full { length: len }),
                Some(h) => match parse_ranges_spec(h) {
                    Err(e) => Err(DownloadError::BadRange(e)),
                    Ok(rs) => match range_plan_spec(rs, len) {
                        Err(e) => Err(DownloadError::Unsatisfiable(e)),
                        Ok(p) => Ok(DownloadPlan::Partial(p)),
                    },
                },
            }
        },
    }
}

/// Decides a download request. `found` is what a metadata lookup reported:
/// nothing, or whether the target is a directory and its length. With no
/// `Range` header the whole file is served; with one, the header is parsed
/// and checked against the file's length.
pub fn plan_download(found: Option<(bool, u64)>, range_header: Option<&str>) -> (r: Result<
    DownloadPlan,
    DownloadError,
>)
    ensures
        r == download_plan_spec(
            found,
            match range_header {
                Some(h) => Some(h@),
                None => None,
            },
        ),
{
    match found {
        None => Err(DownloadError::NotFound),
        Some((is_dir, len)) => {
            if is_dir {
                return Err(DownloadError::IsDirectory);
            }
            match range_header {
                None => Ok(DownloadPlan::Full { length: len }),
                Some(h) => match parse_ranges(h) {
                    Err(e) => Err(DownloadError::BadRange(e)),
                    Ok(rs) => match plan_range(&rs, len) {
                        Err(e) => Err(DownloadError::Unsatisfiable(e)),
                        Ok(p) => Ok(DownloadPlan::Partial(p)),
                    },
                },
            }
        },
    }
}

} // verus!

