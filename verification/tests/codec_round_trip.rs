use todo_state::codec::{decode_list, encode_list};
use todo_state::state::Todo;

fn todo(title: &str, description: &str, completed: bool, id: u64) -> Todo {
    Todo { title: title.to_string(), description: description.to_string(), completed, id }
}

fn assert_lists_equal(a: &[Todo], b: &[Todo]) {
    assert_eq!(a.len(), b.len());
    for (x, y) in a.iter().zip(b.iter()) {
        assert_eq!(x.title, y.title);
        assert_eq!(x.description, y.description);
        assert_eq!(x.completed, y.completed);
        assert_eq!(x.id, y.id);
    }
}

#[test]
fn empty_list_round_trip() {
    let items: Vec<Todo> = vec![];
    let bytes = encode_list(&items);
    let back = decode_list(&bytes).expect("an encoding must decode");
    assert_lists_equal(&items, &back);
}

#[test]
fn empty_list_encodes_to_eight_zero_bytes() {
    let items: Vec<Todo> = vec![];
    assert_eq!(encode_list(&items), vec![0u8; 8]);
}

#[test]
fn one_item_encodes_to_the_documented_layout() {
    let items = vec![todo("A", "", false, 1)];
    let mut expected: Vec<u8> = Vec::new();
    expected.extend_from_slice(&1u64.to_le_bytes());
    expected.extend_from_slice(&1u64.to_le_bytes());
    expected.extend_from_slice(b"A");
    expected.extend_from_slice(&0u64.to_le_bytes());
    expected.push(0);
    expected.extend_from_slice(&1u64.to_le_bytes());
    assert_eq!(encode_list(&items), expected);
}

#[test]
fn several_items_round_trip() {
    let items = vec![
        todo("Buy milk", "2%", false, 1),
        todo("", "an item with an empty title survives storage", true, 2),
        todo("walk", "", true, 3),
    ];
    let bytes = encode_list(&items);
    let back = decode_list(&bytes).expect("an encoding must decode");
    assert_lists_equal(&items, &back);
}

#[test]
fn multi_byte_characters_round_trip() {
    let items = vec![
        todo("café ✓ 東京", "naïve déjà-vu — ≠", false, 1),
        todo("𝔘𝔫𝔦𝔠𝔬𝔡𝔢", "🙂", true, u64::MAX),
    ];
    let bytes = encode_list(&items);
    let back = decode_list(&bytes).expect("an encoding must decode");
    assert_lists_equal(&items, &back);
}

#[test]
fn decode_rejects_short_input() {
    assert!(decode_list(&[1, 2, 3]).is_none());
}

#[test]
fn decode_rejects_trailing_bytes() {
    let items = vec![todo("a", "b", false, 1)];
    let mut bytes = encode_list(&items);
    bytes.push(0);
    assert!(decode_list(&bytes).is_none());
}

#[test]
fn decode_rejects_a_bad_completion_byte() {
    let items = vec![todo("", "", false, 1)];
    let mut bytes = encode_list(&items);
    // count (8) + empty title (8) + empty description (8) put the flag at 24
    assert_eq!(bytes[24], 0);
    bytes[24] = 2;
    assert!(decode_list(&bytes).is_none());
}

#[test]
fn decode_rejects_invalid_utf8() {
    let items = vec![todo("ab", "", false, 1)];
    let mut bytes = encode_list(&items);
    // count (8) + title length (8) put the title bytes at 16
    assert_eq!(&bytes[16..18], b"ab");
    bytes[16] = 0xff;
    bytes[17] = 0xfe;
    assert!(decode_list(&bytes).is_none());
}

#[test]
fn decode_rejects_a_count_beyond_the_data() {
    let mut bytes = vec![0u8; 8];
    bytes[0] = 5;
    assert!(decode_list(&bytes).is_none());
}
