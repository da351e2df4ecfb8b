use chibi_txt::bits::{pack_bits, unpack_bytes};
use chibi_txt::huffman::{get_hash_of_tree, get_tree_root};
use chibi_txt::my_tree_map::MyTreeMap;
use chibi_txt::node::Node;
use chibi_txt::table_format::{parse_table, serialize_table};
use chibi_txt::HuffError;

#[test]
fn pack_three_bits_little_endian() {
    let bits = vec![true, false, true];
    assert_eq!(pack_bits(&bits), vec![0b0000_0101u8]);
}

#[test]
fn pack_empty_is_empty() {
    let bits: Vec<bool> = Vec::new();
    assert_eq!(pack_bits(&bits), Vec::<u8>::new());
}

#[test]
fn pack_exact_byte() {
    let bits = vec![true, true, false, false, true, false, false, true];
    assert_eq!(pack_bits(&bits), vec![0b1001_0011u8]);
}

#[test]
fn unpack_one_byte() {
    let bytes = vec![5u8];
    let bits = unpack_bytes(&bytes);
    assert_eq!(bits, vec![true, false, true, false, false, false, false, false]);
}

#[test]
fn unpack_undoes_pack_up_to_filler() {
    let bits = vec![true, true, true, false, true, false, true, false, true, true];
    let unpacked = unpack_bytes(&pack_bits(&bits));
    assert_eq!(unpacked.len(), 16);
    assert_eq!(&unpacked[..10], &bits[..]);
    assert!(unpacked[10..].iter().all(|b| !b));
}

#[test]
fn table_round_trip() {
    let msg: Vec<char> = "some reasonably varied text\nwith two lines".chars().collect();
    let table = get_hash_of_tree(get_tree_root(&msg));
    let text = serialize_table(&table);
    let reparsed = parse_table(&text).unwrap();
    assert_eq!(reparsed.data_map, table.data_map);
}

#[test]
fn serialize_writes_one_line_per_symbol() {
    let mut table = MyTreeMap::new_default();
    table.insert('b', vec![true, false]);
    table.insert('a', vec![true, true]);
    let text: String = serialize_table(&table).into_iter().collect();
    assert_eq!(text, "a11\nb10\n");
}

#[test]
fn parse_reads_lines_in_order() {
    let text: Vec<char> = "b10\na11\n".chars().collect();
    let table = parse_table(&text).unwrap();
    assert_eq!(table.data_map.len(), 2);
    assert_eq!(table.data_map[0], ('a', vec![true, true]));
    assert_eq!(table.data_map[1], ('b', vec![true, false]));
}

#[test]
fn parse_rejects_short_line() {
    let text: Vec<char> = "x\n".chars().collect();
    assert_eq!(parse_table(&text).unwrap_err(), HuffError::BadTableLine);
}

#[test]
fn parse_rejects_stray_code_character() {
    let text: Vec<char> = "a0x1\n".chars().collect();
    assert_eq!(parse_table(&text).unwrap_err(), HuffError::BadTableLine);
}

#[test]
fn parse_rejects_unterminated_line() {
    let text: Vec<char> = "a01".chars().collect();
    assert_eq!(parse_table(&text).unwrap_err(), HuffError::BadTableLine);
}

#[test]
fn parse_empty_text_gives_empty_table() {
    let text: Vec<char> = Vec::new();
    let table = parse_table(&text).unwrap();
    assert_eq!(table.data_map.len(), 0);
}

#[test]
fn tree_map_insert_and_get() {
    let mut table = MyTreeMap::new_default();
    table.insert('q', vec![true, false, true]);
    table.insert('d', vec![true, true]);
    assert_eq!(table.data_map[0].0, 'd');
    assert_eq!(table.data_map[1].0, 'q');
    assert_eq!(table.get('q'), Some(&vec![true, false, true]));
    assert_eq!(table.get('d'), Some(&vec![true, true]));
    assert_eq!(table.get('z'), None);
    table.insert('q', vec![true]);
    assert_eq!(table.get('q'), Some(&vec![true]));
    assert_eq!(table.len(), 2);
}

#[test]
fn node_constructors() {
    let leaf = Node::new_default('a', 7);
    assert_eq!(leaf.data, 'a');
    assert_eq!(leaf.freq, 7);
    assert!(leaf.l.is_none());
    assert!(leaf.r.is_none());
    assert!(leaf.code.is_empty());

    let left = Node::new_default('b', 1);
    let right = Node::new_default('c', 2);
    let parent = Node::new_param('\0', 3, Some(Box::new(left)), Some(Box::new(right)), Vec::new());
    assert_eq!(parent.data, '\0');
    assert_eq!(parent.freq, 3);
    assert_eq!(parent.l.unwrap().data, 'b');
    assert_eq!(parent.r.unwrap().data, 'c');
}

#[test]
fn persisted_table_decodes_a_later_stream() {
    // encode, persist the table, forget everything, reparse and decode
    let msg: Vec<char> = "compression with a persisted key\n".chars().collect();
    let table = get_hash_of_tree(get_tree_root(&msg));
    let bits = chibi_txt::huffman::encode_file(&msg, &table).unwrap();
    let bytes = pack_bits(&bits);
    let persisted = serialize_table(&table);

    let reloaded = parse_table(&persisted).unwrap();
    let unpacked = unpack_bytes(&bytes);
    let decoded: String =
        chibi_txt::huffman::decode_encoded_str(&unpacked, &reloaded).unwrap().into_iter().collect();
    assert_eq!(decoded, "compression with a persisted key\n");
}

#[test]
fn check_wf_accepts_parsed_and_rejects_broken_tables() {
    let text: Vec<char> = "a11\nb10\n".chars().collect();
    let table = parse_table(&text).unwrap();
    assert!(table.check_wf());

    let mut unsorted = MyTreeMap::new_default();
    unsorted.data_map.push(('b', vec![true]));
    unsorted.data_map.push(('a', vec![true, false]));
    assert!(!unsorted.check_wf());

    let mut empty_code = MyTreeMap::new_default();
    empty_code.data_map.push(('a', Vec::new()));
    assert!(!empty_code.check_wf());
}
