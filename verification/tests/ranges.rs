use sfsb::download::{
    plan_download, plan_range, parse_ranges, DownloadError, DownloadPlan, RangeError,
    RangeParseError, RangePlan,
};

#[test]
fn single_explicit_range_parses() {
    let r = parse_ranges("bytes=0-499").unwrap();
    assert_eq!(r, vec![(Some(0), Some(499))]);
}

#[test]
fn open_ended_range_parses() {
    let r = parse_ranges("bytes=500-").unwrap();
    assert_eq!(r, vec![(Some(500), None)]);
}

#[test]
fn suffix_range_parses_but_is_unsatisfiable() {
    // `-500` has no explicit start; parsing keeps it, serving rejects it.
    let r = parse_ranges("bytes=-500").unwrap();
    assert_eq!(r, vec![(None, Some(500))]);
    assert_eq!(plan_range(&r, 1000), Err(RangeError::NoStart));
}

#[test]
fn multiple_ranges_parse_but_are_unsatisfiable() {
    let r = parse_ranges("bytes=0-1,2-3").unwrap();
    assert_eq!(r, vec![(Some(0), Some(1)), (Some(2), Some(3))]);
    assert_eq!(plan_range(&r, 1000), Err(RangeError::MultipleRanges));
}

#[test]
fn wrong_unit_is_rejected() {
    assert_eq!(parse_ranges("foo=0-1"), Err(RangeParseError::WrongUnit));
}

#[test]
fn missing_values_are_rejected() {
    assert_eq!(parse_ranges("bytes"), Err(RangeParseError::MissingRangeValues));
}

#[test]
fn second_equals_sign_is_rejected() {
    assert_eq!(parse_ranges("bytes=0-1=2"), Err(RangeParseError::TrailingUnit));
}

#[test]
fn non_numeric_bound_is_rejected() {
    assert_eq!(parse_ranges("bytes=x-"), Err(RangeParseError::InvalidNumber));
    assert_eq!(parse_ranges("bytes=0-y"), Err(RangeParseError::InvalidNumber));
}

#[test]
fn overflowing_bound_is_rejected() {
    assert_eq!(
        parse_ranges("bytes=99999999999999999999-"),
        Err(RangeParseError::InvalidNumber)
    );
    // the largest representable bound still parses
    let r = parse_ranges("bytes=18446744073709551615-").unwrap();
    assert_eq!(r, vec![(Some(u64::MAX), None)]);
}

#[test]
fn piece_without_dash_is_rejected() {
    assert_eq!(parse_ranges("bytes=5"), Err(RangeParseError::MissingDash));
}

#[test]
fn piece_with_two_dashes_is_rejected() {
    assert_eq!(parse_ranges("bytes=1-2-3"), Err(RangeParseError::ExtraDash));
}

#[test]
fn plus_sign_is_accepted_like_integer_parsing() {
    let r = parse_ranges("bytes=+5-").unwrap();
    assert_eq!(r, vec![(Some(5), None)]);
}

#[test]
fn empty_range_list_is_unsatisfiable() {
    assert_eq!(plan_range(&vec![], 10), Err(RangeError::NoRanges));
}

#[test]
fn start_past_end_is_unsatisfiable() {
    assert_eq!(
        plan_range(&vec![(Some(11), None)], 10),
        Err(RangeError::StartPastEnd)
    );
}

#[test]
fn range_against_empty_file_is_unsatisfiable() {
    assert_eq!(
        plan_range(&vec![(Some(0), None)], 0),
        Err(RangeError::EmptyFile)
    );
}

#[test]
fn range_is_served_from_start_to_end_of_file() {
    let plan = plan_range(&vec![(Some(5), Some(7))], 10).unwrap();
    // the supplied end bound is ignored: the file is served to its end
    assert_eq!(
        plan,
        RangePlan { start: 5, end: 9, length: 5, total: 10 }
    );
}

#[test]
fn missing_file_is_not_found() {
    let r = plan_download(None, None);
    assert_eq!(r, Err(DownloadError::NotFound));
    assert_eq!(r.unwrap_err().status_code(), 404);
}

#[test]
fn directory_download_is_unsupported() {
    let r = plan_download(Some((true, 0)), None);
    assert_eq!(r, Err(DownloadError::IsDirectory));
    assert_eq!(r.unwrap_err().status_code(), 415);
}

#[test]
fn download_without_range_serves_whole_file() {
    let r = plan_download(Some((false, 10)), None);
    assert_eq!(r, Ok(DownloadPlan::Full { length: 10 }));
}

#[test]
fn download_with_range_serves_tail() {
    // a 10-byte file asked for from offset 5: last 5 bytes, bytes 5-9/10
    let r = plan_download(Some((false, 10)), Some("bytes=5-"));
    assert_eq!(
        r,
        Ok(DownloadPlan::Partial(RangePlan { start: 5, end: 9, length: 5, total: 10 }))
    );
}

#[test]
fn download_with_range_past_end_is_unsatisfiable() {
    let r = plan_download(Some((false, 10)), Some("bytes=50-"));
    assert_eq!(r, Err(DownloadError::Unsatisfiable(RangeError::StartPastEnd)));
    assert_eq!(r.unwrap_err().status_code(), 416);
}

#[test]
fn download_with_malformed_range_is_a_bad_request() {
    let r = plan_download(Some((false, 10)), Some("foo=0-1"));
    assert_eq!(r, Err(DownloadError::BadRange(RangeParseError::WrongUnit)));
    assert_eq!(r.unwrap_err().status_code(), 400);
}
