use armake::order::{bytes_le, sorted_positions};
use armake::pbo::PBO;

fn names(list: &[&str]) -> Vec<String> {
    list.iter().map(|n| n.to_string()).collect()
}

#[test]
fn bytes_compare_like_words_in_a_dictionary() {
    assert!(bytes_le(b"", b""));
    assert!(bytes_le(b"", b"a"));
    assert!(!bytes_le(b"a", b""));
    assert!(bytes_le(b"abc", b"abc"));
    assert!(bytes_le(b"ab", b"abc"));
    assert!(!bytes_le(b"abc", b"ab"));
    assert!(bytes_le(b"abc", b"abd"));
    assert!(!bytes_le(b"b", b"abc"));
    assert!(bytes_le(&[0x7f], &[0x80]));
}

#[test]
fn positions_are_sorted_without_regard_to_case() {
    assert_eq!(sorted_positions(&names(&["b", "A", "a", "C"])), vec![1, 2, 0, 3]);
    assert_eq!(sorted_positions(&names(&["B.txt", "a.txt"])), vec![1, 0]);
    assert_eq!(sorted_positions(&names(&[])), Vec::<usize>::new());
    assert_eq!(sorted_positions(&names(&["x"])), vec![0]);
}

#[test]
fn equal_names_keep_their_order() {
    assert_eq!(sorted_positions(&names(&["a", "A", "a", "A"])), vec![0, 1, 2, 3]);
    assert_eq!(sorted_positions(&names(&["\u{c4}", "\u{e4}", "z", "a"])), vec![3, 2, 0, 1]);
}

#[test]
fn prefix_of_a_name_comes_first() {
    assert_eq!(sorted_positions(&names(&["ab\\c", "AB", "a"])), vec![2, 1, 0]);
}

#[test]
fn payloads_follow_the_order_of_the_headers() {
    let archive = PBO::new()
        .with_file("c".to_string(), vec![3, 3, 3])
        .with_file("B".to_string(), vec![2, 2])
        .with_file("a".to_string(), vec![1]);
    let out = archive.write().unwrap();
    let back = PBO::read(&out).unwrap();
    let order: Vec<&str> = back.headers().iter().map(|h| h.filename.as_str()).collect();
    assert_eq!(order, vec!["a", "B", "c"]);
    let sizes: Vec<u32> = back.headers().iter().map(|h| h.data_size).collect();
    assert_eq!(sizes, vec![1, 2, 3]);
    let payloads = &out[out.len() - 21 - 6..out.len() - 21];
    assert_eq!(payloads, &[1, 2, 2, 3, 3, 3]);
}
