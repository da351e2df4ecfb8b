use chibi_txt::bits::{pack_bits, unpack_bytes};
use chibi_txt::huffman::{
    decode_encoded_str, encode_file, get_hash_char_freq, get_hash_of_tree, get_nodes,
    get_tree_root,
};
use chibi_txt::my_tree_map::MyTreeMap;
use chibi_txt::HuffError;

fn chars_of(s: &str) -> Vec<char> {
    s.chars().collect()
}

fn encode_to_bytes(s: &str) -> (Vec<u8>, MyTreeMap) {
    let msg = chars_of(s);
    let root = get_tree_root(&msg);
    let table = get_hash_of_tree(root);
    let bits = encode_file(&msg, &table).unwrap();
    (pack_bits(&bits), table)
}

fn decode_from_bytes(bytes: &Vec<u8>, table: &MyTreeMap) -> String {
    let bits = unpack_bytes(bytes);
    decode_encoded_str(&bits, table).unwrap().into_iter().collect()
}

#[test]
fn round_trip_basic() {
    let input = "hello world\nsecond line with spaces";
    let (bytes, table) = encode_to_bytes(input);
    assert_eq!(decode_from_bytes(&bytes, &table), input);
}

#[test]
fn round_trip_empty_text() {
    let (bytes, table) = encode_to_bytes("");
    assert_eq!(bytes.len(), 0);
    assert_eq!(table.data_map.len(), 0);
    assert_eq!(decode_from_bytes(&bytes, &table), "");
}

#[test]
fn round_trip_single_char() {
    let (bytes, table) = encode_to_bytes("x");
    assert_eq!(decode_from_bytes(&bytes, &table), "x");
}

#[test]
fn repeated_single_symbol() {
    // one leaf, no internal node; the table still holds one valid,
    // non-empty code
    let (bytes, table) = encode_to_bytes("zzzz");
    assert_eq!(table.data_map.len(), 1);
    assert_eq!(table.data_map[0].0, 'z');
    assert_eq!(table.data_map[0].1, vec![true]);
    // four one-bits packed little-endian into one byte
    assert_eq!(bytes, vec![0b0000_1111u8]);
    assert_eq!(decode_from_bytes(&bytes, &table), "zzzz");
}

#[test]
fn frequency_table_aaab() {
    let freq = get_hash_char_freq(&chars_of("aaab"));
    assert_eq!(freq, vec![('a', 3), ('b', 1)]);
}

#[test]
fn frequency_table_counts_newline_under_sentinel() {
    let freq = get_hash_char_freq(&chars_of("a\nb\n"));
    assert_eq!(freq, vec![('%', 2), ('a', 1), ('b', 1)]);
}

#[test]
fn codes_aaab() {
    let msg = chars_of("aaab");
    let root = get_tree_root(&msg);
    let table = get_hash_of_tree(root);
    // 'b' merges first as the lowest-frequency leaf, so it sits on the
    // left (0) branch; both codes carry the leading one bit
    assert_eq!(table.data_map.len(), 2);
    assert_eq!(table.data_map[0].0, 'a');
    assert_eq!(table.data_map[0].1, vec![true, true]);
    assert_eq!(table.data_map[1].0, 'b');
    assert_eq!(table.data_map[1].1, vec![true, false]);
    // encoded bit-length is three codes for 'a' plus one for 'b'
    let bits = encode_file(&msg, &table).unwrap();
    assert_eq!(bits.len(), 3 * 2 + 2);
    assert!(table.data_map[0].1.len() <= table.data_map[1].1.len());
}

#[test]
fn newline_round_trip() {
    // the sentinel fires for the newline and decoding gives the
    // literal newline back, not the sentinel character
    let input = "a\nb";
    let (bytes, table) = encode_to_bytes(input);
    let decoded = decode_from_bytes(&bytes, &table);
    assert_eq!(decoded, "a\nb");
    assert!(decoded.contains('\n'));
    assert!(!decoded.contains('%'));
    for entry in table.data_map.iter() {
        assert_ne!(entry.0, '\n');
    }
}

#[test]
fn boundary_partial_final_byte() {
    // ten encoded bits leave a partial final byte; the filler must not
    // decode into extra symbols
    let input = "aaaba";
    let msg = chars_of(input);
    let root = get_tree_root(&msg);
    let table = get_hash_of_tree(root);
    let bits = encode_file(&msg, &table).unwrap();
    assert_eq!(bits.len(), 10);
    let bytes = pack_bits(&bits);
    assert_eq!(bytes.len(), 2);
    let decoded = decode_from_bytes(&bytes, &table);
    assert_eq!(decoded, input);
    assert_eq!(decoded.chars().count(), 5);
}

#[test]
fn generated_table_is_prefix_free() {
    let msg = chars_of("the quick brown fox jumps over the lazy dog\n1234567890");
    let root = get_tree_root(&msg);
    let table = get_hash_of_tree(root);
    let entries = &table.data_map;
    for i in 0..entries.len() {
        for j in 0..entries.len() {
            if i != j {
                let a = &entries[i].1;
                let b = &entries[j].1;
                assert!(!(a.len() <= b.len() && a[..] == b[..a.len()]));
            }
        }
    }
}

#[test]
fn generated_codes_are_nonempty_and_start_with_one() {
    for input in ["q", "aaab", "mississippi", "a\nb\nc\n"] {
        let msg = chars_of(input);
        let root = get_tree_root(&msg);
        let table = get_hash_of_tree(root);
        assert!(!table.data_map.is_empty());
        for entry in table.data_map.iter() {
            assert!(entry.1.len() >= 1);
            assert!(entry.1[0]);
        }
    }
}

#[test]
fn encoding_is_deterministic() {
    let input = "abracadabra\nabracadabra";
    let (bytes1, table1) = encode_to_bytes(input);
    let (bytes2, table2) = encode_to_bytes(input);
    assert_eq!(bytes1, bytes2);
    assert_eq!(table1.data_map, table2.data_map);
}

#[test]
fn encode_with_missing_entry_fails() {
    let empty = MyTreeMap::new_default();
    let r = encode_file(&chars_of("abc"), &empty);
    assert_eq!(r.unwrap_err(), HuffError::MissingCode);
}

#[test]
fn encode_with_stale_table_fails() {
    // a table built from another text misses 'c'
    let msg = chars_of("ab");
    let table = get_hash_of_tree(get_tree_root(&msg));
    let r = encode_file(&chars_of("abc"), &table);
    assert_eq!(r.unwrap_err(), HuffError::MissingCode);
}

#[test]
fn decode_no_match_fails() {
    let msg = chars_of("aaab");
    let table = get_hash_of_tree(get_tree_root(&msg));
    // a lone zero-run of eight bits is no filler and matches no code
    let bits = vec![false; 8];
    assert_eq!(decode_encoded_str(&bits, &table).unwrap_err(), HuffError::NoMatch);
    // a stream ending in two bits that match no code and are no filler
    let bits2 = vec![true, false, true, true, true, false, true, false, false, true];
    assert_eq!(decode_encoded_str(&bits2, &table).unwrap_err(), HuffError::NoMatch);
    // a stream that starts with no code of the table
    let empty = MyTreeMap::new_default();
    let bits3 = vec![true];
    assert_eq!(decode_encoded_str(&bits3, &empty).unwrap_err(), HuffError::NoMatch);
}

#[test]
fn decode_trailing_filler_is_ignored() {
    // fewer than eight zero bits after the last code are the packer's
    // filler and decode to nothing
    let empty = MyTreeMap::new_default();
    let bits: Vec<bool> = vec![false, false, false];
    let r = decode_encoded_str(&bits, &empty).unwrap();
    assert!(r.is_empty());
}

#[test]
fn leaf_forest_is_sorted_by_frequency() {
    let freq = vec![('a', 3), ('b', 1), ('c', 2)];
    let nodes = get_nodes(&freq);
    assert_eq!(nodes.len(), 3);
    assert_eq!(nodes[0].data, 'b');
    assert_eq!(nodes[0].freq, 1);
    assert_eq!(nodes[1].data, 'c');
    assert_eq!(nodes[1].freq, 2);
    assert_eq!(nodes[2].data, 'a');
    assert_eq!(nodes[2].freq, 3);
}

#[test]
fn tree_root_carries_total_frequency() {
    let msg = chars_of("aaab");
    let root = get_tree_root(&msg).unwrap();
    assert_eq!(root.freq, 4);
    assert!(root.l.is_some());
    assert!(root.r.is_some());
    assert_eq!(root.l.as_ref().unwrap().data, 'b');
    assert_eq!(root.r.as_ref().unwrap().data, 'a');
}

#[test]
fn tree_root_of_empty_text_is_none() {
    assert!(get_tree_root(&chars_of("")).is_none());
}
