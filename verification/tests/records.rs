use url_priority_queue::selection::Metadata;

fn decode(text: &str) -> Option<Metadata> {
    Metadata::decode(text.as_bytes())
}

#[test]
fn record_is_two_decimal_numbers() {
    let m = Metadata { reference_time: 1_700_000_000, retry_count: 2 };
    assert_eq!(m.encode(), b"1700000000:2".to_vec());
}

#[test]
fn record_of_zeros() {
    let m = Metadata { reference_time: 0, retry_count: 0 };
    assert_eq!(m.encode(), b"0:0".to_vec());
}

#[test]
fn record_of_the_largest_values() {
    let m = Metadata { reference_time: u64::MAX, retry_count: u32::MAX };
    assert_eq!(m.encode(), b"18446744073709551615:4294967295".to_vec());
    assert_eq!(decode("18446744073709551615:4294967295"), Some(m));
}

#[test]
fn record_with_round_numbers() {
    let m = Metadata { reference_time: 1000, retry_count: 10 };
    assert_eq!(m.encode(), b"1000:10".to_vec());
}

#[test]
fn record_is_read_back() {
    assert_eq!(
        decode("1700000000:2"),
        Some(Metadata { reference_time: 1_700_000_000, retry_count: 2 })
    );
    assert_eq!(decode("0:0"), Some(Metadata { reference_time: 0, retry_count: 0 }));
}

#[test]
fn leading_zeros_are_read() {
    assert_eq!(decode("007:01"), Some(Metadata { reference_time: 7, retry_count: 1 }));
}

#[test]
fn what_is_written_is_read_back() {
    for reference_time in [0u64, 1, 9, 10, 99, 100, 1_699_999_999, u64::MAX - 1, u64::MAX] {
        for retry_count in [0u32, 1, 9, 10, 4_294_967_294, u32::MAX] {
            let m = Metadata { reference_time, retry_count };
            assert_eq!(Metadata::decode(&m.encode()), Some(m));
        }
    }
}

#[test]
fn record_without_separator_is_refused() {
    assert_eq!(decode(""), None);
    assert_eq!(decode("12"), None);
}

#[test]
fn record_with_an_empty_number_is_refused() {
    assert_eq!(decode(":"), None);
    assert_eq!(decode("1:"), None);
    assert_eq!(decode(":1"), None);
}

#[test]
fn fraction_of_the_reference_time_is_dropped() {
    assert_eq!(
        decode("1700000000.123456:2"),
        Some(Metadata { reference_time: 1_700_000_000, retry_count: 2 })
    );
    assert_eq!(decode("1.5:0"), Some(Metadata { reference_time: 1, retry_count: 0 }));
    assert_eq!(decode("1.999:0"), Some(Metadata { reference_time: 1, retry_count: 0 }));
    assert_eq!(decode("5.:1"), Some(Metadata { reference_time: 5, retry_count: 1 }));
    assert_eq!(
        decode("18446744073709551615.9:0"),
        Some(Metadata { reference_time: u64::MAX, retry_count: 0 })
    );
}

#[test]
fn fraction_needs_a_whole_part_and_digits() {
    assert_eq!(decode(".5:1"), None);
    assert_eq!(decode("1.2.3:0"), None);
    assert_eq!(decode("1.x:0"), None);
    assert_eq!(decode("1.5"), None);
    assert_eq!(decode("1:2.5"), None);
}

#[test]
fn what_follows_a_second_separator_is_left_unread() {
    assert_eq!(decode("1:2:3"), Some(Metadata { reference_time: 1, retry_count: 2 }));
    assert_eq!(decode("1:2:"), Some(Metadata { reference_time: 1, retry_count: 2 }));
    assert_eq!(decode("7.25:3:anything at all"), Some(Metadata { reference_time: 7, retry_count: 3 }));
    assert_eq!(decode("1::2"), None);
    assert_eq!(decode("1:2x:3"), None);
}

#[test]
fn record_with_other_characters_is_refused() {
    assert_eq!(decode("a:1"), None);
    assert_eq!(decode("1:b"), None);
    assert_eq!(decode("-1:0"), None);
    assert_eq!(decode("+1:0"), None);
    assert_eq!(decode(" 1:0"), None);
    assert_eq!(decode("1:0\n"), None);
    assert_eq!(decode("1:/"), None);
    assert_eq!(decode("1;0"), None);
    assert_eq!(decode("1,5:0"), None);
}

#[test]
fn record_with_a_number_too_large_is_refused() {
    assert_eq!(decode("18446744073709551616:0"), None);
    assert_eq!(decode("99999999999999999999999999:0"), None);
    assert_eq!(decode("0:4294967296"), None);
    assert_eq!(decode("0:99999999999"), None);
}
