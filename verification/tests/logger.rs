use guardian::logger::{format_cn_local, format_line, Level};

#[test]
fn cn_local_time_conversion() {
    let (y, mo, d, h, mi, s) = format_cn_local(1788220800);
    assert_eq!((y, mo, d, h, mi, s), (2026, 9, 1, 8, 0, 0));
}

#[test]
fn cn_local_handles_epoch_and_leap_day() {
    assert_eq!(format_cn_local(0), (1970, 1, 1, 8, 0, 0));
    assert_eq!(format_cn_local(1709164800), (2024, 2, 29, 8, 0, 0));
}

#[test]
fn cn_local_crosses_midnight_and_centuries() {
    assert_eq!(format_cn_local(57599), (1970, 1, 1, 23, 59, 59));
    assert_eq!(format_cn_local(57600), (1970, 1, 2, 0, 0, 0));
    assert_eq!(format_cn_local(4107542400), (2100, 3, 1, 8, 0, 0));
    assert_eq!(format_cn_local(4107542399 - 28800), (2100, 2, 28, 23, 59, 59));
    assert_eq!(format_cn_local(951753600), (2000, 2, 29, 0, 0, 0));
}

#[test]
fn log_format() {
    assert_eq!(
        format_line(1788220800, Level::Info, "hello"),
        "[2026-09-01 08:00:00] [INFO] hello"
    );
    assert_eq!(
        format_line(1788220800, Level::Error, "boom"),
        "[2026-09-01 08:00:00] [ERROR] boom"
    );
}

#[test]
fn log_format_of_a_warning() {
    assert_eq!(format_line(61, Level::Warn, ""), "[1970-01-01 08:01:01] [WARN] ");
}

#[test]
fn level_strings_are_stable() {
    assert_eq!(Level::Info.as_str(), "INFO");
    assert_eq!(Level::Warn.as_str(), "WARN");
    assert_eq!(Level::Error.as_str(), "ERROR");
}

#[test]
fn every_day_has_its_own_date() {
    let mut before = format_cn_local(0);
    let mut day = 1;
    while day < 200_000 {
        let (y, mo, d, h, mi, s) = format_cn_local(day * 86400);
        assert_eq!((h, mi, s), (8, 0, 0));
        assert!((y, mo, d) > (before.0, before.1, before.2));
        assert!(d == before.2 + 1 || (d == 1 && before.2 >= 28));
        before = (y, mo, d, h, mi, s);
        day += 1;
    }
}
