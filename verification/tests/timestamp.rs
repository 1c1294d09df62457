use okf_graph::{Date, Timestamp};

#[test]
fn the_epoch_and_two_later_instants_land_where_date_puts_them() {
    assert_eq!(Timestamp::parse("1970-01-01T00:00:00Z").unwrap().seconds(), 0);
    assert_eq!(
        Timestamp::parse("2026-06-20T22:53:05Z").unwrap().seconds(),
        1_781_995_985
    );
    assert_eq!(
        Timestamp::parse("2024-02-29T12:00:00Z").unwrap().seconds(),
        1_709_208_000
    );
}

#[test]
fn an_offset_is_normalized_away_so_one_instant_has_one_value() {
    let utc = Timestamp::parse("2026-01-01T00:00:00Z").unwrap();
    assert_eq!(Timestamp::parse("2026-01-01T02:00:00+02:00").unwrap(), utc);
    assert_eq!(Timestamp::parse("2025-12-31T23:00:00-01:00").unwrap(), utc);
    assert_eq!(Timestamp::parse("2026-01-01T00:00:00-00:00").unwrap(), utc);
}

#[test]
fn a_week_date_is_rejected_rather_than_ordered_wrongly() {
    assert!("2026-W01-1T00:00:00Z" > "2026-01-01T00:00:00Z");
    assert!(Timestamp::parse("2026-W01-1T00:00:00Z").is_none());
}

#[test]
fn ordering_follows_the_instant_not_the_text() {
    let older = Timestamp::parse("2025-12-29T00:00:00Z").unwrap();
    let newer = Timestamp::parse("2026-01-01T00:00:00Z").unwrap();
    assert!(older < newer);
    assert!(Timestamp::parse("2026-01-01T00:00:00.5Z").unwrap() > newer);
}

#[test]
fn the_case_insensitive_literals_parse() {
    let upper = Timestamp::parse("2026-06-20T22:53:05Z").unwrap();
    assert_eq!(Timestamp::parse("2026-06-20t22:53:05z").unwrap(), upper);
}

#[test]
fn a_fraction_is_read_to_nanoseconds_and_truncated_there() {
    assert_eq!(
        Timestamp::parse("2026-06-20T22:53:05.5Z")
            .unwrap()
            .nanoseconds(),
        500_000_000
    );
    assert_eq!(
        Timestamp::parse("2026-06-20T22:53:05.000000001Z")
            .unwrap()
            .nanoseconds(),
        1
    );
    assert_eq!(
        Timestamp::parse("2026-06-20T22:53:05.0000000019Z")
            .unwrap()
            .nanoseconds(),
        1
    );
}

#[test]
fn a_leap_second_parses_and_lands_on_the_following_minute() {
    assert_eq!(
        Timestamp::parse("2016-12-31T23:59:60Z").unwrap(),
        Timestamp::parse("2017-01-01T00:00:00Z").unwrap()
    );
    assert!(Timestamp::parse("2016-12-31T23:59:61Z").is_none());
}

#[test]
fn a_date_that_no_calendar_has_is_rejected() {
    assert!(Timestamp::parse("2026-02-30T00:00:00Z").is_none());
    assert!(Timestamp::parse("2023-02-29T00:00:00Z").is_none());
    assert!(Timestamp::parse("2100-02-29T00:00:00Z").is_none());
    assert!(Timestamp::parse("2026-13-01T00:00:00Z").is_none());
    assert!(Timestamp::parse("2026-00-01T00:00:00Z").is_none());
    assert!(Timestamp::parse("2026-01-00T00:00:00Z").is_none());
    assert!(Timestamp::parse("2026-06-20T24:00:00Z").is_none());
}

#[test]
fn the_forms_rfc_3339_excludes_are_rejected() {
    for text in [
        "2026-06-20",
        "20260620T225305Z",
        "2026-06-20T22:53:05",
        "2026-06-20 22:53:05Z",
        "2026-06-20T22:53:05+2:00",
        "2026-06-20T22:53:05+0200",
        "2026-06-20T22:53:05.Z",
        "2026-06-20T22:53:05Z ",
        "2026-06-20T22:53:05Z0",
        "+026-06-20T22:53:05Z",
        "2026-06-20T22:53:05+24:00",
        "2026-06-20T22:53:05+02:60",
        "",
    ] {
        assert!(Timestamp::parse(text).is_none(), "{text} should not parse");
    }
}

#[test]
fn a_calendar_day_reads_back_its_fields() {
    let day = Date::parse("2024-02-29").expect("a leap day");
    assert_eq!((day.year(), day.month(), day.day()), (2024, 2, 29));
    assert!(Date::parse("2023-02-29").is_none());
    assert!(Date::parse("2026-02-30").is_none());
    assert!(Date::parse("30-05-2026").is_none());
    assert!(Date::parse("2026-6-01").is_none());
    assert!(Date::parse("2026-06-01 ").is_none());
    assert!(Date::parse("2026-06-01").unwrap() < Date::parse("2026-06-02").unwrap());
}

#[test]
fn a_negative_offset_crosses_the_day_boundary() {
    let a = Timestamp::parse("2026-03-01T00:30:00+01:00").unwrap();
    let b = Timestamp::parse("2026-02-28T23:30:00Z").unwrap();
    assert_eq!(a, b);
    assert_eq!(a.nanoseconds(), 0);
}

#[test]
fn text_order_never_contradicts_time_order_on_the_full_utc_form() {
    let texts = [
        "1999-12-31T23:59:59Z",
        "2000-02-28T12:00:00Z",
        "2000-02-29T00:00:00Z",
        "2000-03-01T00:00:00Z",
        "2016-12-31T23:59:60Z",
        "2017-01-01T00:00:00Z",
        "2026-05-22T08:30:00Z",
    ];
    for a in texts {
        for b in texts {
            let (x, y) = (Timestamp::parse(a).unwrap(), Timestamp::parse(b).unwrap());
            if a <= b {
                assert!(x <= y, "{a} {b}");
            }
            if a < b && !a.ends_with(":60Z") {
                assert!(x < y, "{a} {b}");
            }
        }
    }
    assert_eq!(
        Timestamp::parse("2016-12-31T23:59:60Z"),
        Timestamp::parse("2017-01-01T00:00:00Z")
    );
}
