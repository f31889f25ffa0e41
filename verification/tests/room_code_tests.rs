use snake_game::room_code::{code_to_ip, ip_to_6digit};
use snake_game::text::{is_trimmed_word, parse_join_code, trim, READY_WORD, START_WORD};

fn ip(a: u32, b: u32, c: u32, d: u32) -> u32 {
    (a << 24) | (b << 16) | (c << 8) | d
}

#[test]
fn code_of_private_address() {
    assert_eq!(ip_to_6digit(ip(192, 168, 1, 10)), "3wK8bg");
    assert_eq!(ip_to_6digit(ip(127, 0, 0, 1)), "2kce4N");
    assert_eq!(ip_to_6digit(ip(10, 0, 0, 5)), "0blXcF");
}

#[test]
fn code_of_extreme_addresses() {
    assert_eq!(ip_to_6digit(0), "000000");
    assert_eq!(ip_to_6digit(u32::MAX), "4GFfc3");
}

#[test]
fn code_reads_back_as_address() {
    assert_eq!(code_to_ip("3wK8bg"), Some(ip(192, 168, 1, 10)));
    assert_eq!(code_to_ip("2kce4N"), Some(ip(127, 0, 0, 1)));
    assert_eq!(code_to_ip("000000"), Some(0));
}

#[test]
fn default_code_field_value() {
    // The code field starts out holding "3wK8a7".
    assert_eq!(code_to_ip("3wK8a7"), Some(ip(192, 168, 0, 195)));
}

#[test]
fn code_round_trip_many_addresses() {
    for &a in &[0u32, 1, 61, 62, 3843, 916132831, 916132832, 2130706433, 3232235786, u32::MAX] {
        let code = ip_to_6digit(a);
        assert_eq!(code.len(), 6);
        assert_eq!(code_to_ip(&code), Some(a));
    }
}

#[test]
fn code_value_above_32_bits_wraps() {
    // 62^6 - 1 = 56800235583, which modulo 2^32 is 965660735.
    assert_eq!(code_to_ip("ZZZZZZ"), Some(965660735));
}

#[test]
fn code_canonical_when_it_fits() {
    let back = code_to_ip("0blXcF").unwrap();
    assert_eq!(ip_to_6digit(back), "0blXcF");
}

#[test]
fn code_rejects_wrong_length() {
    assert_eq!(code_to_ip(""), None);
    assert_eq!(code_to_ip("3wK8b"), None);
    assert_eq!(code_to_ip("3wK8bgg"), None);
}

#[test]
fn code_rejects_foreign_characters() {
    assert_eq!(code_to_ip("3wK8b-"), None);
    assert_eq!(code_to_ip("3wK 8b"), None);
    // six bytes, but three two-byte characters
    assert_eq!(code_to_ip("ééé"), None);
    // six characters, but seven bytes
    assert_eq!(code_to_ip("3wK8bé"), None);
}

#[test]
fn join_code_ignores_surrounding_space() {
    assert_eq!(parse_join_code("  3wK8bg \n"), Some(ip(192, 168, 1, 10)));
    assert_eq!(parse_join_code("\u{3000}3wK8bg\t"), Some(ip(192, 168, 1, 10)));
    assert_eq!(parse_join_code("3wK 8bg"), None);
}

#[test]
fn trim_removes_unicode_white_space() {
    assert_eq!(trim("  a b \r\n"), "a b");
    assert_eq!(trim("\u{a0}\u{2003}x\u{85}"), "x");
    assert_eq!(trim("   "), "");
    assert_eq!(trim(""), "");
}

#[test]
fn greeting_words_match_after_trim() {
    assert!(is_trimmed_word("Start!", START_WORD));
    assert!(is_trimmed_word(" Ready!\n", READY_WORD));
    assert!(is_trimmed_word("\u{3000}Ready!\u{a0}", READY_WORD));
    assert!(!is_trimmed_word("Ready", READY_WORD));
    assert!(!is_trimmed_word("Ready!!", READY_WORD));
    assert!(!is_trimmed_word("Re ady!", READY_WORD));
    assert!(!is_trimmed_word("\u{FFFD}Start!", START_WORD));
}

fn digit_places(code: &str) -> Vec<usize> {
    let alphabet = "0123456789abcdefghijklmnopqrstuvwxyzABCDEFGHIJKLMNOPQRSTUVWXYZ";
    code.chars().map(|c| alphabet.find(c).unwrap()).collect()
}

#[test]
fn codes_keep_address_order() {
    let addrs = [0u32, 9, 10, 35, 36, 61, 62, 3843, 916132831, 916132832, 2130706433, 3232235786, u32::MAX];
    for &a in &addrs {
        for &b in &addrs {
            let ca = digit_places(&ip_to_6digit(a));
            let cb = digit_places(&ip_to_6digit(b));
            assert_eq!(a < b, ca < cb);
        }
    }
    // plain string order differs: 'A' sorts before 'a' in ASCII, but stands for 36
    assert!(ip_to_6digit(36) < ip_to_6digit(10));
    assert!(digit_places(&ip_to_6digit(36)) > digit_places(&ip_to_6digit(10)));
}
