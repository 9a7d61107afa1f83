use redis_slowlog::{UptimeError, parse_uptime};

fn bytes(s: &str) -> Vec<u8> {
    s.as_bytes().to_vec()
}

#[test]
fn reads_uptime_from_info_text() {
    let info = bytes(
        "# Server\r\nredis_version:6.2.6\r\nuptime_in_seconds:3600\r\nuptime_in_days:0\r\n",
    );
    assert_eq!(parse_uptime(&info), Ok(3600));
}

#[test]
fn first_matching_line_wins() {
    let info = bytes("uptime_in_seconds:5\nuptime_in_seconds:9\n");
    assert_eq!(parse_uptime(&info), Ok(5));
}

#[test]
fn value_sits_between_first_and_second_colon() {
    let info = bytes("uptime_in_seconds:42:99\n");
    assert_eq!(parse_uptime(&info), Ok(42));
}

#[test]
fn line_without_newline_is_still_read() {
    let info = bytes("uptime_in_seconds:7");
    assert_eq!(parse_uptime(&info), Ok(7));
}

#[test]
fn missing_line_is_an_error() {
    let info = bytes("# Server\r\nredis_version:6.2.6\r\n");
    assert_eq!(parse_uptime(&info), Err(UptimeError::NoUptimeLine));
}

#[test]
fn empty_text_is_an_error() {
    assert_eq!(parse_uptime(&bytes("")), Err(UptimeError::NoUptimeLine));
}

#[test]
fn line_without_colon_has_no_value() {
    let info = bytes("uptime_in_seconds 12\n");
    assert_eq!(parse_uptime(&info), Err(UptimeError::NoUptimeValue));
}

#[test]
fn textual_value_is_an_error() {
    let info = bytes("uptime_in_seconds:abc\n");
    assert_eq!(parse_uptime(&info), Err(UptimeError::BadUptimeValue));
}

#[test]
fn empty_value_is_an_error() {
    let info = bytes("uptime_in_seconds:\n");
    assert_eq!(parse_uptime(&info), Err(UptimeError::BadUptimeValue));
}

#[test]
fn oversized_value_is_an_error() {
    let info = bytes("uptime_in_seconds:18446744073709551616\n");
    assert_eq!(parse_uptime(&info), Err(UptimeError::BadUptimeValue));
}

#[test]
fn largest_value_is_accepted() {
    let info = bytes("uptime_in_seconds:18446744073709551615\n");
    assert_eq!(parse_uptime(&info), Ok(u64::MAX));
}

#[test]
fn leading_plus_is_accepted() {
    let info = bytes("uptime_in_seconds:+31\n");
    assert_eq!(parse_uptime(&info), Ok(31));
}

#[test]
fn carriage_return_is_not_part_of_the_value() {
    let info = bytes("uptime_in_seconds:8\r\nmore:1\r\n");
    assert_eq!(parse_uptime(&info), Ok(8));
}
