use attendance::pipeline::PipelineError;
use attendance::time::format_time_12h;
use attendance::time::parse_timestamp;

#[test]
fn parse_unix_epoch() {
    assert_eq!(parse_timestamp("1970-01-01 00:00:00"), Ok(0));
}

#[test]
fn parse_second_before_epoch() {
    assert_eq!(parse_timestamp("1969-12-31 23:59:59"), Ok(-1));
}

#[test]
fn parse_afternoon_instant() {
    assert_eq!(parse_timestamp("2024-01-01 14:00:00"), Ok(1704117600));
}

#[test]
fn parse_leap_day() {
    assert_eq!(parse_timestamp("2024-02-29 00:00:00"), Ok(1709164800));
    assert_eq!(parse_timestamp("2000-02-29 12:00:00"), Ok(951825600));
}

#[test]
fn parse_rejects_leap_day_of_common_year() {
    assert_eq!(
        parse_timestamp("2023-02-29 00:00:00"),
        Err(PipelineError::TimeParseFailure)
    );
    // 1900 is divisible by 100 but not by 400: not a leap year.
    assert_eq!(
        parse_timestamp("1900-02-29 00:00:00"),
        Err(PipelineError::TimeParseFailure)
    );
}

#[test]
fn parse_rejects_bad_month_day_time() {
    assert_eq!(
        parse_timestamp("2024-13-01 00:00:00"),
        Err(PipelineError::TimeParseFailure)
    );
    assert_eq!(
        parse_timestamp("2024-00-10 00:00:00"),
        Err(PipelineError::TimeParseFailure)
    );
    assert_eq!(
        parse_timestamp("2024-04-31 00:00:00"),
        Err(PipelineError::TimeParseFailure)
    );
    assert_eq!(
        parse_timestamp("2024-01-00 00:00:00"),
        Err(PipelineError::TimeParseFailure)
    );
    assert_eq!(
        parse_timestamp("2024-01-01 24:00:00"),
        Err(PipelineError::TimeParseFailure)
    );
    assert_eq!(
        parse_timestamp("2024-01-01 00:60:00"),
        Err(PipelineError::TimeParseFailure)
    );
    assert_eq!(
        parse_timestamp("2024-01-01 00:00:60"),
        Err(PipelineError::TimeParseFailure)
    );
}

#[test]
fn parse_rejects_bad_shape() {
    assert_eq!(
        parse_timestamp("2024-1-01 00:00:00"),
        Err(PipelineError::TimeParseFailure)
    );
    assert_eq!(
        parse_timestamp("2024-01-01T00:00:00"),
        Err(PipelineError::TimeParseFailure)
    );
    assert_eq!(
        parse_timestamp("abcd-01-01 00:00:00"),
        Err(PipelineError::TimeParseFailure)
    );
    assert_eq!(parse_timestamp(""), Err(PipelineError::TimeParseFailure));
    assert_eq!(
        parse_timestamp("2024-01-01 00:00:00 "),
        Err(PipelineError::TimeParseFailure)
    );
}

#[test]
fn format_morning_in_phoenix() {
    // 14:00 UTC is 07:00 in Phoenix (UTC-7).
    assert_eq!(format_time_12h(1704117600, -25200), "07:00 am");
}

#[test]
fn format_midnight_and_noon() {
    // 07:00 UTC is local midnight in Phoenix.
    assert_eq!(format_time_12h(1704092400, -25200), "12:00 am");
    // 19:00 UTC is local noon.
    assert_eq!(format_time_12h(1704135600, -25200), "12:00 pm");
    assert_eq!(format_time_12h(0, 0), "12:00 am");
}

#[test]
fn format_minutes_and_pm() {
    assert_eq!(format_time_12h(1704117600 + 45 * 60, -25200), "07:45 am");
    // local 13:05
    assert_eq!(format_time_12h(1704139500, -25200), "01:05 pm");
}
