use solang::resolver::address::to_hexstr_eip55;

fn is_hexstr_eip55(s: &str) -> bool {
    to_hexstr_eip55(s) == s
}

#[test]
fn test_is_hexstr_eip55() {
    assert!(is_hexstr_eip55("0x5aAeb6053F3E94C9b9A09f33669435E7Ef1BeAed"));
    assert!(is_hexstr_eip55("0xfB6916095ca1df60bB79Ce92cE3Ea74c37c5d359"));
    assert!(is_hexstr_eip55("0xdbF03B407c01E7cD3CBea99509d93f8DDDC8C6FB"));
    assert!(is_hexstr_eip55("0xD1220A0cf47c7B9Be7A2E6BA89F429762e7b9aDb"));
}

#[test]
fn eip55_checksums_lower_case_address() {
    assert_eq!(
        to_hexstr_eip55("0x5aaeb6053f3e94c9b9a09f33669435e7ef1beaed"),
        "0x5aAeb6053F3E94C9b9A09f33669435E7Ef1BeAed"
    );
    assert_eq!(
        to_hexstr_eip55("0XFB6916095CA1DF60BB79CE92CE3EA74C37C5D359"),
        "0xfB6916095ca1df60bB79Ce92cE3Ea74c37c5d359"
    );
}

#[test]
fn eip55_is_idempotent() {
    let once = to_hexstr_eip55("0xdbf03b407c01e7cd3cbea99509d93f8dddc8c6fb");
    let twice = to_hexstr_eip55(&once);
    assert_eq!(once, twice);
}

#[test]
fn eip55_of_prefix_only() {
    assert_eq!(to_hexstr_eip55("0x"), "0x");
    assert_eq!(to_hexstr_eip55(""), "0x");
}

#[test]
fn eip55_of_long_all_digit_address() {
    let s = format!("0x{}", "1234567890".repeat(7));
    let r = to_hexstr_eip55(&s);
    assert_eq!(r.len(), s.len());
    assert_eq!(r, s);
}
