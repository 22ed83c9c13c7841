use fatimg::format::{
    append_decimal, append_padded, decimal_len, format_date, format_datetime, format_time, Date,
    DateTime, Time,
};

#[test]
fn date_is_zero_padded() {
    assert_eq!(format_date(Date { year: 2021, month: 3, day: 7 }), "2021-03-07");
    assert_eq!(format_date(Date { year: 5, month: 12, day: 31 }), "0005-12-31");
}

#[test]
fn time_has_three_digit_millis() {
    assert_eq!(format_time(Time { hour: 9, min: 5, sec: 0, millis: 120 }), "09:05:00.120");
    assert_eq!(format_time(Time { hour: 23, min: 59, sec: 58, millis: 7 }), "23:59:58.007");
}

#[test]
fn datetime_joins_with_one_space() {
    let dt = DateTime {
        date: Date { year: 1980, month: 1, day: 1 },
        time: Time { hour: 0, min: 0, sec: 0, millis: 0 },
    };
    assert_eq!(format_datetime(dt), "1980-01-01 00:00:00.000");
}

#[test]
fn decimal_digits() {
    let mut s = String::from("n=");
    append_decimal(&mut s, 0);
    assert_eq!(s, "n=0");
    let mut s = String::new();
    append_decimal(&mut s, 18446744073709551615);
    assert_eq!(s, "18446744073709551615");
    assert_eq!(decimal_len(0), 1);
    assert_eq!(decimal_len(1000), 4);
}

#[test]
fn padding_keeps_long_numbers_whole() {
    let mut s = String::new();
    append_padded(&mut s, 7, 3);
    assert_eq!(s, "007");
    let mut s = String::new();
    append_padded(&mut s, 12345, 2);
    assert_eq!(s, "12345");
}
