use fontsub::utils::{generate_cache_filename, generate_file_hash, parse_codepoints};

#[test]
fn test_parse_codepoints() {
    assert_eq!(parse_codepoints("40339").unwrap(), vec![40339]);
    assert_eq!(parse_codepoints("40339,40340,40341").unwrap(), vec![40339, 40340, 40341]);
    assert_eq!(parse_codepoints("40339, 40340, 40341").unwrap(), vec![40339, 40340, 40341]);
}

#[test]
fn test_generate_cache_filename() {
    assert_eq!(generate_cache_filename(&[40339]), "40339.woff2");
    assert_eq!(generate_cache_filename(&[40341, 40339, 40340]), "cache/40339,40340,40341.woff2");
}

#[test]
fn parse_accepts_leading_plus_and_whitespace() {
    assert_eq!(parse_codepoints(" +5 ").unwrap(), vec![5]);
    assert_eq!(parse_codepoints("\t7,8\n").unwrap(), vec![7, 8]);
    // the full Unicode White_Space class is trimmed, as str::trim trims it
    assert_eq!(parse_codepoints("\u{A0}9\u{3000},\u{2028}10\u{85}").unwrap(), vec![9, 10]);
}

#[test]
fn parse_rejects_bad_requests() {
    assert!(parse_codepoints("").is_err());
    assert!(parse_codepoints("12,,13").is_err());
    assert!(parse_codepoints("12,x").is_err());
    assert!(parse_codepoints("4294967295").is_ok());
    assert!(parse_codepoints("4294967296").is_err());
    assert!(parse_codepoints("99999999999999999999").is_err());
    assert!(parse_codepoints("-3").is_err());
}

#[test]
fn cache_key_is_order_independent() {
    let a = generate_cache_filename(&[3, 1, 2, 2]);
    let b = generate_cache_filename(&[2, 2, 3, 1]);
    let c = generate_cache_filename(&[1, 2, 2, 3]);
    assert_eq!(a, b);
    assert_eq!(b, c);
    assert_eq!(a, "cache/1,2,2,3.woff2");
    let single = generate_cache_filename(&[0]);
    assert_eq!(single, "0.woff2");
}

#[test]
fn cache_key_differs_when_sorted_sequences_differ() {
    assert_ne!(generate_cache_filename(&[5]), generate_cache_filename(&[6]));
    assert_ne!(generate_cache_filename(&[12]), generate_cache_filename(&[1, 2]));
    // duplicates are kept, so multiplicity changes the key
    assert_ne!(generate_cache_filename(&[1, 2]), generate_cache_filename(&[1, 2, 2]));
}

#[test]
fn file_hash_is_lowercase_hex_md5() {
    assert_eq!(generate_file_hash(b""), "d41d8cd98f00b204e9800998ecf8427e");
    assert_eq!(generate_file_hash(b"abc"), "900150983cd24fb0d6963f7d28e17f72");
}
