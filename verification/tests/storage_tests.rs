//! The storage layout: encoding, parsing, and their round trip.

use pms::datetime::DateTime;
use pms::storage::{datetime_to_screen_path, parse_screen_path, screen_path, screens_glob_pattern};

fn dt(year: u32, month: u32, day: u32, hour: u32, minute: u32, second: u32) -> DateTime {
    DateTime { year, month, day, hour, minute, second }
}

#[test]
fn encodes_the_reference_path() {
    let t = dt(2024, 1, 2, 3, 4, 5);
    let (dir, fname) = datetime_to_screen_path(t, 1);
    assert_eq!(dir, "screenshots/2024/1/2/");
    assert_eq!(fname, "030405-1.jpg");
    assert_eq!(screen_path(t, 1), "screenshots/2024/1/2/030405-1.jpg");
}

#[test]
fn encodes_without_zero_padding_the_date() {
    let t = dt(1999, 12, 31, 23, 59, 58);
    assert_eq!(screen_path(t, 42), "screenshots/1999/12/31/235958-42.jpg");
    let early = dt(7, 1, 1, 0, 0, 0);
    assert_eq!(screen_path(early, 0), "screenshots/7/1/1/000000-0.jpg");
}

#[test]
fn parses_the_reference_path() {
    let parsed = parse_screen_path("screenshots/2024/1/2/030405-1.jpg");
    assert_eq!(parsed, Some((dt(2024, 1, 2, 3, 4, 5), 1)));
}

#[test]
fn round_trips_many_identities() {
    let cases = [
        (dt(2024, 1, 2, 3, 4, 5), 1u32),
        (dt(1970, 1, 1, 0, 0, 0), 0),
        (dt(2038, 12, 31, 23, 59, 59), 4294967295),
        (dt(4294967295, 6, 15, 12, 30, 45), 7),
        (dt(0, 2, 29, 1, 2, 3), 10),
    ];
    for (t, sid) in cases {
        let path = screen_path(t, sid);
        assert_eq!(parse_screen_path(&path), Some((t, sid)));
    }
}

#[test]
fn rejects_paths_that_are_not_storage_paths() {
    assert_eq!(parse_screen_path(""), None);
    assert_eq!(parse_screen_path("not/a/path"), None);
    assert_eq!(parse_screen_path("screenshots/2024/1/2/030405-1.png"), None);
    assert_eq!(parse_screen_path("screenshots/2024/1/2/030405-1.jpg.bak"), None);
    assert_eq!(parse_screen_path("screenshots/2024/1/2/030405-1.jpgx"), None);
    assert_eq!(parse_screen_path("screenshots/2024/1/030405-1.jpg"), None);
    assert_eq!(parse_screen_path("screenshots/2024/1/2/30405-1.jpg"), None);
    assert_eq!(parse_screen_path("screenshots/2024/1/2/0304051.jpg"), None);
    assert_eq!(parse_screen_path("screenshots/2024/1/2/030405-.jpg"), None);
}

#[test]
fn rejects_leading_zeros_in_variable_fields() {
    assert_eq!(parse_screen_path("screenshots/02024/1/2/030405-1.jpg"), None);
    assert_eq!(parse_screen_path("screenshots/2024/01/2/030405-1.jpg"), None);
    assert_eq!(parse_screen_path("screenshots/2024/1/02/030405-1.jpg"), None);
    assert_eq!(parse_screen_path("screenshots/2024/1/2/030405-01.jpg"), None);
}

#[test]
fn rejects_out_of_range_fields() {
    assert_eq!(parse_screen_path("screenshots/2024/13/2/030405-1.jpg"), None);
    assert_eq!(parse_screen_path("screenshots/2024/0/2/030405-1.jpg"), None);
    assert_eq!(parse_screen_path("screenshots/2024/1/32/030405-1.jpg"), None);
    assert_eq!(parse_screen_path("screenshots/2024/1/2/240405-1.jpg"), None);
    assert_eq!(parse_screen_path("screenshots/2024/1/2/036005-1.jpg"), None);
    assert_eq!(parse_screen_path("screenshots/2024/1/2/030460-1.jpg"), None);
    assert_eq!(parse_screen_path("screenshots/2024/1/2/030405-4294967296.jpg"), None);
}

#[test]
fn glob_pattern_covers_every_screen_of_one_time() {
    let t = dt(2024, 1, 2, 3, 4, 5);
    assert_eq!(screens_glob_pattern(t), "screenshots/2024/1/2/030405-*.jpg");
}
