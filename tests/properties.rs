use smmstore::analyze::{count_duplicates, deserialize, is_corrupted, used_size};
use smmstore::codec::{CorruptionError, Smmstore};
use smmstore::compaction::{compact, needs_rewrite, rewrite_commands, serialize, Command};
use smmstore::keymap::{compare_keys, KeyMap, KeyOrder};
use smmstore::transport::{command_result, command_word, PhysicalMapper, TransportError};

fn record(key: &[u8], value: &[u8]) -> Vec<u8> {
    let mut r = Vec::new();
    r.extend_from_slice(&(key.len() as u32).to_le_bytes());
    r.extend_from_slice(&(value.len() as u32).to_le_bytes());
    r.extend_from_slice(key);
    r.extend_from_slice(value);
    r.push(0);
    while r.len() % 4 != 0 {
        r.push(0xFF);
    }
    r
}

fn region(records: &[Vec<u8>], len: usize) -> Vec<u8> {
    let mut r: Vec<u8> = records.concat();
    assert!(r.len() <= len);
    r.resize(len, 0xFF);
    r
}

fn key(fill: u8) -> Vec<u8> {
    vec![fill; 24]
}

fn entry_count(data: &[u8]) -> usize {
    let mut it = Smmstore::from_raw(data);
    let mut n = 0;
    while let Some(Ok(_)) = it.next_entry() {
        n += 1;
    }
    n
}

#[test]
fn single_entry_in_sixty_four_bytes() {
    let data = region(&[record(&key(0x76), &[0x37, 0x00, 0x36, 0x00])], 64);
    assert_eq!(data.len(), 64);
    assert!(!is_corrupted(&data));
    assert_eq!(used_size(&data), 40);
}

#[test]
fn declared_value_past_the_buffer() {
    let mut data = region(&[record(&key(0x76), &[1, 2, 3, 4])], 64);
    data[4] = 0x40;
    assert!(is_corrupted(&data));
    assert_eq!(used_size(&data), 0);
    let mut it = Smmstore::from_raw(&data);
    assert!(matches!(it.next_entry(), Some(Err(CorruptionError::Truncated))));
    assert!(it.next_entry().is_none());
}

#[test]
fn no_room_for_terminator_is_truncated() {
    // key and value end exactly at the end of the buffer
    let mut data = record(&key(1), &[1, 2, 3, 4]);
    data.truncate(8 + 24 + 4);
    assert!(is_corrupted(&data));
    assert_eq!(used_size(&data), 0);
}

#[test]
fn bad_terminator_stops_decoding() {
    let mut data = region(&[record(&key(1), &[9; 4]), record(&key(2), &[8; 4])], 128);
    data[40 + 8 + 24 + 4] = 0x01;
    assert!(is_corrupted(&data));
    assert_eq!(used_size(&data), 40);
    let mut it = Smmstore::from_raw(&data);
    assert!(matches!(it.next_entry(), Some(Ok(_))));
    assert!(matches!(it.next_entry(), Some(Err(CorruptionError::BadTerminator))));
    assert!(it.next_entry().is_none());
    assert_eq!(deserialize(&data).len(), 1);
}

#[test]
fn later_value_wins_after_compaction() {
    let data = region(&[record(&key(0x76), &[1, 0, 0, 0]), record(&key(0x76), &[2, 0, 0, 0])], 80);
    assert_eq!(count_duplicates(&data), 1);
    let compacted = compact(&data);
    assert_eq!(compacted.len(), data.len());
    assert_eq!(count_duplicates(&compacted), 0);
    let map = deserialize(&compacted);
    assert_eq!(map.len(), 1);
    assert_eq!(map.get(0).key, key(0x76));
    assert_eq!(map.get(0).value, vec![2, 0, 0, 0]);
}

#[test]
fn erased_header_holds_nothing() {
    let data = vec![0xFFu8; 64];
    assert_eq!(entry_count(&data), 0);
    assert_eq!(used_size(&data), 0);
    assert!(!is_corrupted(&data));
    assert_eq!(deserialize(&data).len(), 0);
}

#[test]
fn zero_key_length_ends_the_log() {
    let mut data = region(&[record(&key(3), &[1; 4])], 64);
    for b in data[40..48].iter_mut() {
        *b = 0;
    }
    assert_eq!(entry_count(&data), 1);
    assert!(!is_corrupted(&data));
    assert_eq!(used_size(&data), 40);
}

#[test]
fn rewrite_at_sixty_percent_used() {
    // three distinct 40-byte records in a 200-byte region: 60% used
    let data = region(
        &[record(&key(3), &[3; 4]), record(&key(1), &[1; 4]), record(&key(2), &[2; 4])],
        200,
    );
    assert_eq!(used_size(&data), 120);
    assert_eq!(count_duplicates(&data), 0);
    assert!(needs_rewrite(&data, 16));
    let cmds = rewrite_commands(&data, 16);
    assert_eq!(cmds.len(), 4);
    assert!(matches!(cmds[0], Command::Clear));
    for (i, fill) in [1u8, 2, 3].iter().enumerate() {
        match &cmds[i + 1] {
            Command::Append { key: k, value: v } => {
                assert_eq!(*k, key(*fill));
                assert_eq!(*v, vec![*fill; 4]);
            }
            Command::Clear => panic!("clear after the first command"),
        }
    }
}

#[test]
fn no_rewrite_when_small_and_unique() {
    let data = region(&[record(&key(3), &[3; 4])], 200);
    assert!(!needs_rewrite(&data, 16));
    assert!(rewrite_commands(&data, 16).is_empty());
}

#[test]
fn rewrite_on_duplicate_threshold() {
    let recs: Vec<Vec<u8>> = (0u8..5).map(|i| record(&key(7), &[i; 4])).collect();
    let data = region(&recs, 1024);
    assert_eq!(count_duplicates(&data), 4);
    assert!(needs_rewrite(&data, 4));
    assert!(!needs_rewrite(&data, 5));
    let cmds = rewrite_commands(&data, 4);
    assert_eq!(cmds.len(), 2);
    match &cmds[1] {
        Command::Append { value, .. } => assert_eq!(*value, vec![4u8; 4]),
        Command::Clear => panic!("expected an append"),
    }
}

#[test]
fn rewrite_skips_unworthy_entries() {
    let data = region(
        &[record(&[5u8; 16], &[1; 4]), record(&key(6), &[]), record(&key(7), &[7; 2])],
        128,
    );
    let cmds = rewrite_commands(&data, 0);
    assert_eq!(cmds.len(), 2);
    assert!(matches!(&cmds[1], Command::Append { key: k, .. } if *k == key(7)));
}

#[test]
fn serialize_exact_layout() {
    let mut map = KeyMap::new();
    assert!(map.insert(vec![0xAB; 17], vec![0x5A]).is_none());
    let bytes = serialize(map);
    let mut expected = vec![17, 0, 0, 0, 1, 0, 0, 0];
    expected.extend_from_slice(&[0xAB; 17]);
    expected.extend_from_slice(&[0x5A, 0x00, 0xFF]);
    assert_eq!(bytes, expected);
    assert_eq!(bytes.len(), 28);
}

#[test]
fn serialize_drops_unworthy_and_sorts() {
    let mut map = KeyMap::new();
    map.insert(vec![9; 20], vec![1, 2]);
    map.insert(vec![1; 16], vec![1, 2]);
    map.insert(vec![4; 20], vec![]);
    map.insert(vec![2; 20], vec![3]);
    assert_eq!(map.len(), 4);
    let bytes = serialize(map);
    let mut expected = record(&[2; 20], &[3]);
    expected.extend(record(&[9; 20], &[1, 2]));
    assert_eq!(bytes, expected);
}

#[test]
fn key_map_replaces_and_orders() {
    let mut map = KeyMap::new();
    assert!(map.insert(vec![2, 1], vec![1]).is_none());
    assert!(map.insert(vec![1, 9, 9], vec![2]).is_none());
    assert_eq!(map.insert(vec![2, 1], vec![3]), Some(vec![1]));
    assert_eq!(map.len(), 2);
    assert_eq!(map.get(0).key, vec![1, 9, 9]);
    assert_eq!(map.get(1).value, vec![3]);
}

#[test]
fn key_order_is_bytewise() {
    assert_eq!(compare_keys(&[1, 2], &[1, 3]), KeyOrder::Less);
    assert_eq!(compare_keys(&[1, 2], &[1, 2, 0]), KeyOrder::Less);
    assert_eq!(compare_keys(&[2], &[1, 9, 9]), KeyOrder::Greater);
    assert_eq!(compare_keys(&[4, 4], &[4, 4]), KeyOrder::Equal);
    assert_eq!(compare_keys(&[], &[]), KeyOrder::Equal);
}

#[test]
fn compact_twice_is_compact_once() {
    let data = region(
        &[
            record(&key(5), &[1; 3]),
            record(&key(2), &[2; 4]),
            record(&key(5), &[3; 5]),
            record(&[1; 16], &[4; 4]),
        ],
        256,
    );
    let once = compact(&data);
    let twice = compact(&once);
    assert_eq!(once, twice);
    let expected = region(&[record(&key(2), &[2; 4]), record(&key(5), &[3; 5])], 256);
    assert_eq!(once, expected);
}

#[test]
fn compact_keeps_sorted_unique_region() {
    let data = region(&[record(&key(1), &[1; 4]), record(&key(2), &[2; 7])], 128);
    assert_eq!(compact(&data), data);
}

#[test]
fn used_size_ends_after_last_record() {
    let data = region(&[record(&key(1), &[1; 4]), record(&key(2), &[2; 7])], 128);
    let used = used_size(&data);
    assert_eq!(used, 40 + 40);
    assert!(used <= data.len());
}

#[test]
fn used_size_padding_past_unaligned_end() {
    let data = record(&key(1), &[1; 4]);
    let short = &data[..38];
    assert_eq!(used_size(short), 40);
}

#[test]
fn duplicates_are_entries_minus_keys() {
    let data = region(
        &[
            record(&key(1), &[1; 4]),
            record(&key(2), &[2; 4]),
            record(&key(1), &[3; 4]),
            record(&key(1), &[4; 4]),
        ],
        256,
    );
    assert_eq!(count_duplicates(&data), entry_count(&data) - deserialize(&data).len());
    assert_eq!(count_duplicates(&data), 2);
}

#[test]
fn result_codes() {
    assert_eq!(command_result(0), Ok(()));
    assert_eq!(command_result(1), Err(TransportError::DeviceError));
    assert_eq!(command_result(2), Err(TransportError::Unsupported));
    assert_eq!(command_result(3), Err(TransportError::Unknown));
    assert_eq!(command_result(0xFFFF_FFFF), Err(TransportError::Unknown));
}

#[test]
fn command_word_packs_subcommand_high() {
    assert_eq!(command_word(0xED, 2), 0x02ED);
    assert_eq!(command_word(0xED, 7), 0x07ED);
}

#[test]
fn physical_mapping_is_identity() {
    let mut m = PhysicalMapper;
    assert_eq!(m.map_aligned(0x1234_5000, 4096), 0x1234_5000);
    assert_eq!(m.page_size(), 4096);
}
