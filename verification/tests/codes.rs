use tiny2fa::{current_counter, hotp, totp_display};

// RFC 4226 test key: the ASCII bytes of "12345678901234567890".
const RFC_KEY: &[u8] = b"12345678901234567890";

#[test]
fn hotp_is_deterministic() {
    let key = b"JBSWY3DPEHPK3PXP";
    assert_eq!(hotp(key, 42), hotp(key, 42));
    assert_eq!(hotp(RFC_KEY, 7), hotp(RFC_KEY, 7));
}

#[test]
fn hotp_rfc4226_counter_zero() {
    assert_eq!(hotp(RFC_KEY, 0), 1284755224);
}

#[test]
fn hotp_rfc4226_counter_one() {
    assert_eq!(hotp(RFC_KEY, 1), 1094287082);
}

#[test]
fn hotp_stays_in_31_bit_range() {
    for counter in 0..32u64 {
        assert!(hotp(RFC_KEY, counter) < 0x8000_0000);
    }
}

#[test]
fn display_reduces_to_six_digits() {
    assert_eq!(totp_display(1284755224, 6), 755224);
    assert_eq!(totp_display(1094287082, 6), 287082);
    assert_eq!(totp_display(999999, 6), 999999);
    assert_eq!(totp_display(1000000, 6), 0);
    for value in [0u32, 1, 42, 123456, 4294967295] {
        assert!(totp_display(value, 6) <= 999_999);
    }
}

#[test]
fn display_handles_other_digit_counts() {
    assert_eq!(totp_display(1284755224, 0), 0);
    assert_eq!(totp_display(1284755224, 1), 4);
    assert_eq!(totp_display(1284755224, 9), 284755224);
}

#[test]
fn counter_advances_every_thirty_seconds() {
    assert_eq!(current_counter(0, 0, 30), 0);
    assert_eq!(current_counter(29, 0, 30), 0);
    assert_eq!(current_counter(30, 0, 30), 1);
    assert_eq!(current_counter(59, 0, 30), 1);
    assert_eq!(current_counter(60, 0, 30), 2);
    assert_eq!(current_counter(3 * 30 + 15, 0, 30), 3);
}

#[test]
fn counter_is_monotonic() {
    let mut previous = current_counter(0, 0, 30);
    for now in 1..200u64 {
        let next = current_counter(now, 0, 30);
        assert!(next >= previous);
        previous = next;
    }
}

#[test]
fn counter_honours_time_offset() {
    assert_eq!(current_counter(100, 100, 30), 0);
    assert_eq!(current_counter(130, 100, 30), 1);
}
