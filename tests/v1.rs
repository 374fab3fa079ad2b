use smmstore::analyze::{count_duplicates, is_corrupted, used_size};
use smmstore::compaction::compact;

#[test]
fn test_used_sized() {
    let data: &[u8] = &[
        // Key and value size
        0x18, 0x00, 0x00, 0x00, 0x04, 0x00, 0x00, 0x00,
        // Key
        0x76, 0x76, 0x76, 0x76, 0x76, 0x76, 0x76, 0x76,
        0x76, 0x76, 0x76, 0x76, 0x76, 0x76, 0x76, 0x76,
        0x76, 0x76, 0x76, 0x76, 0x76, 0x76, 0x76, 0x76,
        // Value
        0x37, 0x00, 0x36, 0x00,
        // 0 byte and padding
        0x00, 0xFF, 0xFF, 0xFF,
        // Filler
        0xFF, 0xFF, 0xFF, 0xFF, 0xFF, 0xFF, 0xFF, 0xFF,
        0xFF, 0xFF, 0xFF, 0xFF, 0xFF, 0xFF, 0xFF, 0xFF,
        0xFF, 0xFF, 0xFF, 0xFF, 0xFF, 0xFF, 0xFF, 0xFF,
        0xFF, 0xFF, 0xFF, 0xFF, 0xFF, 0xFF, 0xFF, 0xFF,
    ];

    assert!(!is_corrupted(data));
    assert_eq!(used_size(data), 40);
}

#[test]
fn test_odd_sized() {
    let data: &[u8] = &[
        // Key and value size
        0x18, 0x00, 0x00, 0x00, 0x03, 0x00, 0x00, 0x00,
        // Key
        0x76, 0x76, 0x76, 0x76, 0x76, 0x76, 0x76, 0x76,
        0x76, 0x76, 0x76, 0x76, 0x76, 0x76, 0x76, 0x76,
        0x76, 0x76, 0x76, 0x76, 0x76, 0x76, 0x76, 0x76,
        // Value
        0x01, 0x00, 0x36,
        // 0 byte and padding
        0x00,
        // Filler
        0xFF, 0xFF, 0xFF, 0xFF, 0xFF, 0xFF, 0xFF, 0xFF,
        0xFF, 0xFF, 0xFF, 0xFF, 0xFF, 0xFF, 0xFF, 0xFF,
        0xFF, 0xFF, 0xFF, 0xFF, 0xFF, 0xFF, 0xFF, 0xFF,
        0xFF, 0xFF, 0xFF, 0xFF, 0xFF, 0xFF, 0xFF, 0xFF,
    ];

    assert!(!is_corrupted(data));
    assert_eq!(used_size(data), 36);
}

#[test]
fn test_value_size_too_large() {
    let data: &[u8] = &[
        // Key size
        0x18, 0x00, 0x00, 0x00,
        // Value size that is too large
        0x10, 0x00, 0x00, 0x00,
        // Key
        0x76, 0x76, 0x76, 0x76, 0x76, 0x76, 0x76, 0x76,
        0x76, 0x76, 0x76, 0x76, 0x76, 0x76, 0x76, 0x76,
        0x76, 0x76, 0x76, 0x76, 0x76, 0x76, 0x76, 0x76,
        // Value
        0x37, 0x00, 0x36, 0x00,
        // 0 byte and padding
        0x00, 0xFF, 0xFF, 0xFF,
        // Filler
        0xFF, 0xFF, 0xFF, 0xFF, 0xFF, 0xFF, 0xFF, 0xFF,
        0xFF, 0xFF, 0xFF, 0xFF, 0xFF, 0xFF, 0xFF, 0xFF,
        0xFF, 0xFF, 0xFF, 0xFF, 0xFF, 0xFF, 0xFF, 0xFF,
        0xFF, 0xFF, 0xFF, 0xFF, 0xFF, 0xFF, 0xFF, 0xFF,
    ];

    assert!(is_corrupted(data));
    assert_eq!(used_size(data), 0);
}

#[test]
fn test_duplicate_entry() {
    let data: &[u8] = &[
        // Key and value size
        0x18, 0x00, 0x00, 0x00, 0x04, 0x00, 0x00, 0x00,
        // Key
        0x76, 0x76, 0x76, 0x76, 0x76, 0x76, 0x76, 0x76,
        0x76, 0x76, 0x76, 0x76, 0x76, 0x76, 0x76, 0x76,
        0x76, 0x76, 0x76, 0x76, 0x76, 0x76, 0x76, 0x76,
        // Value
        0x01, 0x00, 0x00, 0x00,
        // 0 byte and padding
        0x00, 0xFF, 0xFF, 0xFF,
        // Key and value size
        0x18, 0x00, 0x00, 0x00, 0x04, 0x00, 0x00, 0x00,
        // Key
        0x76, 0x76, 0x76, 0x76, 0x76, 0x76, 0x76, 0x76,
        0x76, 0x76, 0x76, 0x76, 0x76, 0x76, 0x76, 0x76,
        0x76, 0x76, 0x76, 0x76, 0x76, 0x76, 0x76, 0x76,
        // Value
        0x02, 0x00, 0x00, 0x00,
        // 0 byte and padding
        0x00, 0xFF, 0xFF, 0xFF,
    ];

    assert_eq!(count_duplicates(data), 1);
}


#[test]
fn test_compact_without_duplicate() {
    let data: &[u8] = &[
        // Key and value size
        0x18, 0x00, 0x00, 0x00, 0x04, 0x00, 0x00, 0x00,
        // Key
        0x76, 0x76, 0x76, 0x76, 0x76, 0x76, 0x76, 0x76,
        0x76, 0x76, 0x76, 0x76, 0x76, 0x76, 0x76, 0x76,
        0x76, 0x76, 0x76, 0x76, 0x76, 0x76, 0x76, 0x76,
        // Value
        0x37, 0x00, 0x36, 0x00,
        // 0 byte and padding
        0x00, 0xFF, 0xFF, 0xFF,
        // Filler
        0xFF, 0xFF, 0xFF, 0xFF, 0xFF, 0xFF, 0xFF, 0xFF,
        0xFF, 0xFF, 0xFF, 0xFF, 0xFF, 0xFF, 0xFF, 0xFF,
        0xFF, 0xFF, 0xFF, 0xFF, 0xFF, 0xFF, 0xFF, 0xFF,
        0xFF, 0xFF, 0xFF, 0xFF, 0xFF, 0xFF, 0xFF, 0xFF,
    ];

    assert_eq!(compact(data), data);
}

#[test]
fn test_compact_with_duplicate() {
    let data: &[u8] = &[
        // Key and value size
        0x18, 0x00, 0x00, 0x00, 0x04, 0x00, 0x00, 0x00,
        // Key
        0x76, 0x76, 0x76, 0x76, 0x76, 0x76, 0x76, 0x76,
        0x76, 0x76, 0x76, 0x76, 0x76, 0x76, 0x76, 0x76,
        0x76, 0x76, 0x76, 0x76, 0x76, 0x76, 0x76, 0x76,
        // Value
        0x37, 0x00, 0x36, 0x00,
        // 0 byte and padding
        0x00, 0xFF, 0xFF, 0xFF,
        // Key and value size
        0x18, 0x00, 0x00, 0x00, 0x04, 0x00, 0x00, 0x00,
        // Key
        0x76, 0x76, 0x76, 0x76, 0x76, 0x76, 0x76, 0x76,
        0x76, 0x76, 0x76, 0x76, 0x76, 0x76, 0x76, 0x76,
        0x76, 0x76, 0x76, 0x76, 0x76, 0x76, 0x76, 0x76,
        // Value
        0x37, 0x00, 0xFF, 0x00,
        // 0 byte and padding
        0x00, 0xFF, 0xFF, 0xFF,
    ];

    let compacted = compact(data);
    assert_ne!(compacted, data);
    assert_eq!(count_duplicates(&compacted), 0);
}
