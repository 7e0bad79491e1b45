use conserve::output::{format_duration, push_decimal, IndexDump, ShortVersionList, VerboseVersionList};

#[test]
fn sizes_are_shown_on_demand() {
    assert!(!VerboseVersionList::default().shows_sizes());
    assert!(VerboseVersionList::default().show_sizes(true).shows_sizes());
    assert!(!VerboseVersionList::default()
        .show_sizes(true)
        .show_sizes(false)
        .shows_sizes());
}

#[test]
fn an_index_dump_names_its_band() {
    assert_eq!(IndexDump::new("b0001").band_id(), "b0001");
    assert_eq!(format!("{:?}", ShortVersionList::default()), "ShortVersionList");
}

#[test]
fn numbers_are_written_in_decimal() {
    for n in [0u64, 1, 9, 10, 11, 99, 100, 12345, 1_000_000, u64::MAX] {
        let mut out = String::from("x");
        push_decimal(&mut out, n);
        assert_eq!(out, format!("x{}", n));
    }
}

#[test]
fn durations_end_in_s() {
    assert_eq!(format_duration(None), "");
    assert_eq!(format_duration(Some(0)), "0s");
    assert_eq!(format_duration(Some(75)), "75s");
    assert_eq!(format_duration(Some(-3)), "-3s");
    assert_eq!(format_duration(Some(i64::MAX)), format!("{}s", i64::MAX));
    assert_eq!(format_duration(Some(i64::MIN)), format!("{}s", i64::MIN));
}

#[test]
fn a_version_is_shown_in_columns() {
    let list = VerboseVersionList::default();
    let start = "2020-03-01T12:30:00+00:00";
    assert_eq!(
        list.format_version("b0000", true, start, Some(75), 123_456_789),
        "b0000                      complete   2020-03-01T12:30:00+00:00     75s"
    );
    assert_eq!(
        list.format_version("b0001", false, start, None, 0),
        format!("{:<26} {:<10} {} {:>7}", "b0001", "incomplete", start, "")
    );
    let long = "b0001-0002-0003-0004-0005-0006";
    assert_eq!(
        list.format_version(long, false, start, Some(123456789), 0),
        format!("{:<26} {:<10} {} {:>7}", long, "incomplete", start, "123456789s")
    );
}

#[test]
fn sizes_are_shown_in_megabytes() {
    let list = VerboseVersionList::default().show_sizes(true);
    let start = "2020-03-01T12:30:00+00:00";
    assert_eq!(
        list.format_version("b0000", true, start, Some(75), 123_456_789),
        "b0000                      complete   2020-03-01T12:30:00+00:00     75s      123MB"
    );
    assert_eq!(
        list.format_version("b0000", true, start, Some(75), 999_999),
        format!("{:<26} {:<10} {} {:>7} {:>8}MB", "b0000", "complete", start, "75s", 0)
    );
    assert_eq!(
        list.format_version("b\u{e9}", true, start, None, u64::MAX),
        format!(
            "{:<26} {:<10} {} {:>7} {:>8}MB",
            "b\u{e9}",
            "complete",
            start,
            "",
            u64::MAX / 1_000_000
        )
    );
}
