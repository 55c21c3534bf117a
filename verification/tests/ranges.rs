use mikufans_bvc_server::range::resolve_range;
use mikufans_bvc_server::range::RangeDirective;

fn resolve(header: &[u8], total: u64) -> RangeDirective {
    resolve_range(Some(&header.to_vec()), total)
}

#[test]
fn absent_header_serves_whole() {
    assert_eq!(resolve_range(None, 1000), RangeDirective::Whole);
}

#[test]
fn explicit_range_in_bounds() {
    assert_eq!(resolve(b"bytes=100-199", 1000), RangeDirective::Partial { start: 100, end: 199 });
    assert_eq!(resolve(b"bytes=0-0", 1000), RangeDirective::Partial { start: 0, end: 0 });
    assert_eq!(resolve(b"bytes=0-1000", 1000), RangeDirective::Partial { start: 0, end: 1000 });
}

#[test]
fn open_ended_range_runs_to_end() {
    assert_eq!(resolve(b"bytes=900-", 1000), RangeDirective::Partial { start: 900, end: 1000 });
}

#[test]
fn suffix_range_converts_to_absolute() {
    assert_eq!(resolve(b"bytes=-100", 1000), RangeDirective::Partial { start: 900, end: 1000 });
    assert_eq!(resolve(b"bytes=-1000", 1000), RangeDirective::Partial { start: 0, end: 1000 });
}

#[test]
fn out_of_bounds_start_serves_whole() {
    assert_eq!(resolve(b"bytes=1001-1002", 1000), RangeDirective::Whole);
}

#[test]
fn out_of_bounds_end_serves_whole() {
    assert_eq!(resolve(b"bytes=0-1001", 1000), RangeDirective::Whole);
}

#[test]
fn oversized_suffix_serves_whole() {
    assert_eq!(resolve(b"bytes=-1001", 1000), RangeDirective::Whole);
}

#[test]
fn reversed_range_serves_whole() {
    assert_eq!(resolve(b"bytes=500-100", 1000), RangeDirective::Whole);
}

#[test]
fn multiple_ranges_serve_whole() {
    assert_eq!(resolve(b"bytes=0-1,5-9", 1000), RangeDirective::Whole);
}

#[test]
fn malformed_headers_serve_whole() {
    assert_eq!(resolve(b"", 1000), RangeDirective::Whole);
    assert_eq!(resolve(b"bytes=", 1000), RangeDirective::Whole);
    assert_eq!(resolve(b"bytes=abc", 1000), RangeDirective::Whole);
    assert_eq!(resolve(b"bytes=5", 1000), RangeDirective::Whole);
    assert_eq!(resolve(b"bytes=-", 1000), RangeDirective::Whole);
    assert_eq!(resolve(b"items=0-5", 1000), RangeDirective::Whole);
    assert_eq!(resolve(b"bytes=1-2-3", 1000), RangeDirective::Whole);
}

#[test]
fn overlong_number_serves_whole() {
    assert_eq!(resolve(b"bytes=0-99999999999999999999", 1000), RangeDirective::Whole);
}
