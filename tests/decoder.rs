use fighter_graph::caesar::decrypt;

#[test]
fn test_basic_functionality() {
    // Verify decrypt function works correctly
    // "Khoor" is "Hello" shifted by 3, so we need shift 23 (26-3) to decrypt
    let encrypted = "Khoor";
    let decrypted = decrypt(encrypted, 23);
    assert_eq!(decrypted, "Hello");
}

#[test]
fn test_case_preservation() {
    // Verify case is preserved during decryption
    let encrypted = "YpP dY dRo";
    let decrypted = decrypt(encrypted, 16);
    assert_eq!(decrypted, "OfF tO tHe");
}

#[test]
fn test_non_alphabetic_preservation() {
    // Verify non-alphabetic characters are preserved
    let encrypted = "Ypp!123 dy-dro.";
    let decrypted = decrypt(encrypted, 16);
    assert_eq!(decrypted, "Off!123 to-the.");
}
