use streamjoin::temporal::NaiveDateTimeWrapper;
use streamjoin::temporal::NaiveDateWrapper;
use streamjoin::temporal::NaiveTimeWrapper;
use streamjoin::temporal::date_days_exec;
use streamjoin::temporal::get_mouth_days;
use streamjoin::temporal::is_leap_year;
use streamjoin::types::IntervalUnit;

fn ts(y: i32, mo: u32, d: u32, h: u32, mi: u32, s: u32, nano: u32) -> NaiveDateTimeWrapper {
    NaiveDateTimeWrapper {
        date: NaiveDateWrapper::from_ymd_uncheck(y, mo, d),
        time: NaiveTimeWrapper { secs: h * 3600 + mi * 60 + s, nano },
    }
}

#[test]
fn truncations_follow_the_calendar() {
    let t = ts(2001, 5, 16, 20, 38, 40, 123_456_789);
    assert_eq!(t.truncate_micros().time.nano, 123_456_000);
    assert_eq!(t.truncate_millis().time.nano, 123_000_000);
    assert_eq!(t.truncate_second().time.nano, 0);
    assert_eq!(t.truncate_minute().time.secs, 20 * 3600 + 38 * 60);
    assert_eq!(t.truncate_hour().time.secs, 20 * 3600);
    assert_eq!(t.truncate_day().time.secs, 0);
    assert_eq!(
        t.truncate_week().date,
        NaiveDateWrapper::from_ymd_uncheck(2001, 5, 14)
    );
    assert_eq!(
        t.truncate_month().date,
        NaiveDateWrapper::from_ymd_uncheck(2001, 5, 1)
    );
    assert_eq!(
        t.truncate_quarter().date,
        NaiveDateWrapper::from_ymd_uncheck(2001, 4, 1)
    );
    assert_eq!(
        t.truncate_year().date,
        NaiveDateWrapper::from_ymd_uncheck(2001, 1, 1)
    );
    assert_eq!(
        t.truncate_decade().date,
        NaiveDateWrapper::from_ymd_uncheck(2000, 1, 1)
    );
    let far = ts(3202, 5, 16, 20, 38, 40, 123_456_789);
    assert_eq!(
        far.truncate_century().date,
        NaiveDateWrapper::from_ymd_uncheck(3201, 1, 1)
    );
    assert_eq!(
        far.truncate_millennium().date,
        NaiveDateWrapper::from_ymd_uncheck(3001, 1, 1)
    );
}

#[test]
fn checked_add_clamps_the_day_to_the_landing_month() {
    let t = ts(1970, 1, 31, 0, 0, 0, 0);
    let one_month = IntervalUnit::new(1, 0, 0);
    let r = t.checked_add(one_month).unwrap();
    assert_eq!(r.date, NaiveDateWrapper::from_ymd_uncheck(1970, 2, 28));

    let leap = ts(1996, 1, 31, 0, 0, 0, 0);
    let r2 = leap.checked_add(one_month).unwrap();
    assert_eq!(r2.date, NaiveDateWrapper::from_ymd_uncheck(1996, 2, 29));
}

#[test]
fn checked_add_days_and_millis_carry() {
    let t = ts(1999, 12, 31, 23, 59, 59, 0);
    let r = t.checked_add(IntervalUnit::new(0, 0, 1000)).unwrap();
    assert_eq!(r.date, NaiveDateWrapper::from_ymd_uncheck(2000, 1, 1));
    assert_eq!(r.time.secs, 0);
    let r2 = t.checked_add(IntervalUnit::new(0, 2, 0)).unwrap();
    assert_eq!(r2.date, NaiveDateWrapper::from_ymd_uncheck(2000, 1, 2));
    assert_eq!(r2.time.secs, t.time.secs);
}

#[test]
fn checked_add_fails_outside_the_range() {
    let t = ts(9999, 12, 31, 0, 0, 0, 0);
    assert!(t.checked_add(IntervalUnit::new(1, 0, 0)).is_none());
    assert!(t.checked_add(IntervalUnit::new(0, 1, 0)).is_none());
    let early = ts(1, 1, 1, 0, 0, 0, 0);
    assert!(early.checked_add(IntervalUnit::new(0, -1, 0)).is_none());
}

#[test]
fn day_numbers_round_trip() {
    let d = NaiveDateWrapper::from_ymd_uncheck(2001, 5, 16);
    let days = date_days_exec(&d);
    let back = NaiveDateWrapper::from_num_days_from_ce_uncheck(days);
    assert_eq!(back, d);
    assert_eq!(
        NaiveDateWrapper::from_num_days_from_ce_uncheck(1),
        NaiveDateWrapper::from_ymd_uncheck(1, 1, 1)
    );
    assert_eq!(date_days_exec(&NaiveDateWrapper::from_ymd_uncheck(1970, 1, 1)), 719163);
}

#[test]
fn with_days_accepts_exactly_the_supported_range() {
    assert!(NaiveDateWrapper::with_days(0).is_err());
    assert!(NaiveDateWrapper::with_days(1).is_ok());
    assert!(NaiveDateWrapper::with_days(3652059).is_ok());
    assert!(NaiveDateWrapper::with_days(3652060).is_err());
    assert!(NaiveDateWrapper::with_days_value(-5).is_err());
}

#[test]
fn date_protobuf_round_trip() {
    let d = NaiveDateWrapper::from_ymd_uncheck(2022, 8, 9);
    let mut out: Vec<u8> = Vec::new();
    assert_eq!(d.to_protobuf(&mut out), 4);
    let days = i32::from_be_bytes([out[0], out[1], out[2], out[3]]);
    assert_eq!(NaiveDateWrapper::from_protobuf(days).unwrap(), d);
}

#[test]
fn time_protobuf_round_trip() {
    let t = NaiveTimeWrapper::from_hms_nano_uncheck(20, 38, 40, 123_456_789);
    let mut out: Vec<u8> = Vec::new();
    assert_eq!(t.to_protobuf(&mut out), 8);
    let nano = u64::from_be_bytes([
        out[0], out[1], out[2], out[3], out[4], out[5], out[6], out[7],
    ]);
    assert_eq!(NaiveTimeWrapper::from_protobuf(nano).unwrap(), t);
    assert!(NaiveTimeWrapper::from_protobuf(86_400_000_000_000).is_err());
    assert!(NaiveTimeWrapper::with_secs_nano(86_400, 0).is_err());
    assert!(NaiveTimeWrapper::with_secs_nano_value(0, 2_000_000_000).is_err());
}

#[test]
fn timestamp_protobuf_round_trip() {
    let t = ts(2001, 5, 16, 20, 38, 40, 123_456_000);
    let mut out: Vec<u8> = Vec::new();
    assert_eq!(t.to_protobuf(&mut out), 8);
    let micros = i64::from_be_bytes([
        out[0], out[1], out[2], out[3], out[4], out[5], out[6], out[7],
    ]);
    assert_eq!(NaiveDateTimeWrapper::from_protobuf(micros).unwrap(), t);

    let epoch = NaiveDateTimeWrapper::from_timestamp_uncheck(0, 0);
    assert_eq!(epoch.date, NaiveDateWrapper::from_ymd_uncheck(1970, 1, 1));
    assert_eq!(epoch.time.secs, 0);
    assert!(NaiveDateTimeWrapper::with_secs_nsecs(253402300800, 0).is_err());
    assert!(NaiveDateTimeWrapper::with_secs_nsecs_value(-62135596801, 0).is_err());
}

#[test]
fn leap_years_and_month_lengths() {
    assert!(is_leap_year(2000));
    assert!(!is_leap_year(1900));
    assert!(is_leap_year(1996));
    assert!(!is_leap_year(2001));
    assert_eq!(get_mouth_days(2000, 2), 29);
    assert_eq!(get_mouth_days(1900, 2), 28);
    assert_eq!(get_mouth_days(2001, 4), 30);
    assert_eq!(get_mouth_days(2001, 12), 31);
}

#[test]
fn defaults_are_the_epoch() {
    assert_eq!(
        NaiveDateWrapper::default(),
        NaiveDateWrapper::from_ymd_uncheck(1970, 1, 1)
    );
    assert_eq!(NaiveTimeWrapper::default().secs, 0);
    assert_eq!(NaiveDateTimeWrapper::default().date.year, 1970);
}
