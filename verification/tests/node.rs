use narwhal::node::{log_level, parse_worker_id, Parameters, CHANNEL_CAPACITY};

#[test]
fn each_flag_makes_the_log_louder() {
    assert_eq!(log_level(0), "error");
    assert_eq!(log_level(1), "warn");
    assert_eq!(log_level(2), "info");
    assert_eq!(log_level(3), "debug");
    assert_eq!(log_level(4), "trace");
    assert_eq!(log_level(u64::MAX), "trace");
}

#[test]
fn channels_hold_a_thousand_messages() {
    assert_eq!(CHANNEL_CAPACITY, 1_000);
}

#[test]
fn a_worker_identifier_is_a_decimal_number_of_32_bits() {
    assert_eq!(parse_worker_id(b"0"), Some(0));
    assert_eq!(parse_worker_id(b"7"), Some(7));
    assert_eq!(parse_worker_id(b"+7"), Some(7));
    assert_eq!(parse_worker_id(b"007"), Some(7));
    assert_eq!(parse_worker_id(b"4294967295"), Some(u32::MAX));
    assert_eq!(parse_worker_id(b"4294967296"), None);
    assert_eq!(parse_worker_id(b"99999999999999999999999"), None);
    assert_eq!(parse_worker_id(b""), None);
    assert_eq!(parse_worker_id(b"+"), None);
    assert_eq!(parse_worker_id(b"-1"), None);
    assert_eq!(parse_worker_id(b"++1"), None);
    assert_eq!(parse_worker_id(b"1 "), None);
    assert_eq!(parse_worker_id(b" 1"), None);
    assert_eq!(parse_worker_id(b"1a"), None);
    assert_eq!(parse_worker_id(b"4294967296x"), None);
}

#[test]
fn worker_identifiers_read_as_the_standard_library_reads_them() {
    for text in ["12", "+12", "0012", "", "+", "-3", "4294967295", "4294967296", "1_000", "0x10"] {
        assert_eq!(parse_worker_id(text.as_bytes()), text.parse::<u32>().ok());
    }
}

#[test]
fn default_parameters() {
    let p = Parameters::default();
    assert_eq!(p.gc_depth, 50);
    assert_eq!(p.header_size, 1_000);
    assert_eq!(p.max_header_delay, 100);
    assert_eq!(p.sync_retry_delay, 5_000);
    assert_eq!(p.sync_max_delay, 60_000);
    assert_eq!(p.sync_max_retries, 10);
    assert_eq!(p.sync_retry_nodes, 3);
    assert_eq!(p.batch_size, 500_000);
    assert_eq!(p.max_batch_delay, 100);
}

#[test]
fn requests_back_off_and_end() {
    let p = Parameters::default();
    assert_eq!(p.retry_delay(0), Some(5_000));
    assert_eq!(p.retry_delay(1), Some(10_000));
    assert_eq!(p.retry_delay(2), Some(20_000));
    assert_eq!(p.retry_delay(3), Some(40_000));
    assert_eq!(p.retry_delay(4), Some(60_000));
    assert_eq!(p.retry_delay(9), Some(60_000));
    assert_eq!(p.retry_delay(10), None);
    assert_eq!(p.retry_delay(u32::MAX), None);
    let tight = Parameters { sync_retry_delay: 500, sync_max_delay: 100, ..p };
    assert_eq!(tight.retry_delay(0), Some(100));
    assert_eq!(tight.retry_delay(5), Some(100));
    let wide = Parameters { sync_retry_delay: u64::MAX / 2 + 1, sync_max_delay: u64::MAX, ..p };
    assert_eq!(wide.retry_delay(1), Some(u64::MAX));
    let never = Parameters { sync_max_retries: 0, ..p };
    assert_eq!(never.retry_delay(0), None);
}
