use tuxedo::dates::{date_from_day, date_parts, date_string, day_count_of, day_number_of, month_length};

#[test]
fn day_numbers_count_from_year_zero() {
    assert_eq!(day_number_of(0, 1, 1), 0);
    assert_eq!(day_number_of(0, 12, 31), 365);
    assert_eq!(day_number_of(1, 1, 1), 366);
    assert_eq!(day_count_of(), 3652425);
    assert_eq!(date_from_day(day_count_of() - 1), (9999, 12, 31));
}

#[test]
fn day_numbers_round_trip() {
    for (y, m, d) in [(2026, 6, 10), (2024, 2, 29), (1900, 3, 1), (2000, 12, 31), (0, 1, 1)] {
        assert_eq!(date_from_day(day_number_of(y, m, d)), (y, m, d));
    }
    assert_eq!(day_number_of(2026, 6, 10) - day_number_of(2026, 6, 7), 3);
}

#[test]
fn months_have_their_lengths() {
    assert_eq!(month_length(2026, 2), 28);
    assert_eq!(month_length(2024, 2), 29);
    assert_eq!(month_length(1900, 2), 28);
    assert_eq!(month_length(2000, 2), 29);
    assert_eq!(month_length(2026, 4), 30);
    assert_eq!(month_length(2026, 12), 31);
}

#[test]
fn dates_are_read_and_written() {
    assert_eq!(date_parts("2026-06-07"), (2026, 6, 7));
    assert_eq!(date_string(2026, 6, 7), "2026-06-07");
    assert_eq!(date_string(7, 1, 9), "0007-01-09");
}
