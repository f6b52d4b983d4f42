use cat_sim::seed_hash::seed_text_hash;

fn reference(texts: &[&str]) -> u32 {
    let mut hash = 0_i32;
    for text in texts {
        for unit in text.encode_utf16() {
            hash = hash.wrapping_shl(5).wrapping_sub(hash).wrapping_add(i32::from(unit));
        }
    }
    hash.unsigned_abs()
}

#[test]
fn seed_hash_folds_utf16_units() {
    assert_eq!(seed_text_hash(&vec![]), 0);
    assert_eq!(seed_text_hash(&vec!["a".to_string()]), 97);
    assert_eq!(seed_text_hash(&vec!["a".to_string(), "b".to_string()]), 97 * 31 + 98);
    let parts = ["12345", "-7", "terrain seed with a long tail 0123456789"];
    let owned: Vec<String> = parts.iter().map(|p| p.to_string()).collect();
    assert_eq!(seed_text_hash(&owned), reference(&parts));
    let wide = ["\u{1F431}cat", "é"];
    let owned: Vec<String> = wide.iter().map(|p| p.to_string()).collect();
    assert_eq!(seed_text_hash(&owned), reference(&wide));
}
