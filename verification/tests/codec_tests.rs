use recipe_store::codec::{decode, encode, MAX_ENCODED_SIZE};
use recipe_store::record::{Recipe, StoreError};

fn recipe(id: u64, name: &str, category: &str, ingredients: &[&str], instructions: &str) -> Recipe {
    Recipe {
        id,
        name: name.to_string(),
        category: category.to_string(),
        ingredients: ingredients.iter().map(|s| s.to_string()).collect(),
        instructions: instructions.to_string(),
    }
}

#[test]
fn encode_layout_is_exact() {
    let r = recipe(0, "A", "B", &["C"], "D");
    let bytes = encode(&r).unwrap();
    let expected: Vec<u8> = vec![
        0, 0, 0, 0, 0, 0, 0, 0, // id
        1, 0, 0, 0, 0x41, // name "A"
        1, 0, 0, 0, 0x42, // category "B"
        1, 0, 0, 0, // one ingredient
        1, 0, 0, 0, 0x43, // ingredient "C"
        1, 0, 0, 0, 0x44, // instructions "D"
    ];
    assert_eq!(bytes, expected);
}

#[test]
fn round_trip_plain() {
    let r = recipe(
        7,
        "Pasta",
        "Italian",
        &["pasta", "tomato"],
        "boil; mix",
    );
    let bytes = encode(&r).unwrap();
    assert_eq!(decode(&bytes).unwrap(), r);
}

#[test]
fn round_trip_empty_fields() {
    let r = recipe(u64::MAX, "", "", &[], "");
    let bytes = encode(&r).unwrap();
    assert_eq!(decode(&bytes).unwrap(), r);
}

#[test]
fn round_trip_multibyte_utf8() {
    let r = recipe(3, "Pâté", "Fête", &["œuf", "半熟卵"], "мешать");
    let bytes = encode(&r).unwrap();
    assert_eq!(decode(&bytes).unwrap(), r);
}

#[test]
fn encode_rejects_oversize() {
    let big = "x".repeat(MAX_ENCODED_SIZE + 1);
    let r = recipe(0, &big, "B", &[], "D");
    assert_eq!(encode(&r), Err(StoreError::SizeExceeded));
}

#[test]
fn encode_rejects_oversize_by_many_ingredients() {
    let ings: Vec<String> = (0..400).map(|i| format!("i{i}")).collect();
    let ing_refs: Vec<&str> = ings.iter().map(|s| s.as_str()).collect();
    let r = recipe(0, "A", "B", &ing_refs, "D");
    assert_eq!(encode(&r), Err(StoreError::SizeExceeded));
}

#[test]
fn encode_accepts_record_at_the_bound() {
    // 8 (id) + 4 + name + 4 (category) + 4 (count) + 4 + 4 (instructions)
    // leaves 996 bytes for the name to land exactly on the bound.
    let name = "n".repeat(MAX_ENCODED_SIZE - 28);
    let r = recipe(1, &name, "", &[""], "");
    let bytes = encode(&r).unwrap();
    assert_eq!(bytes.len(), MAX_ENCODED_SIZE);
    assert_eq!(decode(&bytes).unwrap(), r);
}

#[test]
fn decode_rejects_empty() {
    assert_eq!(decode(&Vec::new()), Err(StoreError::Corrupted));
}

#[test]
fn decode_rejects_truncated() {
    let r = recipe(1, "Soup", "Starter", &["water"], "heat");
    let mut bytes = encode(&r).unwrap();
    bytes.pop();
    assert_eq!(decode(&bytes), Err(StoreError::Corrupted));
}

#[test]
fn decode_rejects_trailing_bytes() {
    let r = recipe(1, "Soup", "Starter", &["water"], "heat");
    let mut bytes = encode(&r).unwrap();
    bytes.push(0);
    assert_eq!(decode(&bytes), Err(StoreError::Corrupted));
}

#[test]
fn decode_rejects_invalid_utf8() {
    let r = recipe(2, "A", "B", &[], "C");
    let mut bytes = encode(&r).unwrap();
    // The name's single byte sits right after the id and length prefix.
    bytes[12] = 0xFF;
    assert_eq!(decode(&bytes), Err(StoreError::Corrupted));
}

#[test]
fn decode_rejects_length_past_end() {
    let r = recipe(2, "A", "B", &[], "C");
    let mut bytes = encode(&r).unwrap();
    // Claim a name far longer than the buffer.
    bytes[8] = 0xFF;
    bytes[9] = 0xFF;
    assert_eq!(decode(&bytes), Err(StoreError::Corrupted));
}
