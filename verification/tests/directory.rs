use armake::directory::{find_char, names_prefix_file, read_declared_pairs, read_prefix_file, write_prefix_file};
use armake::pbo::PBO;

fn pair(key: &str, value: &str) -> (String, String) {
    (key.to_string(), value.to_string())
}

fn file(path: &str, content: &[u8]) -> (String, Vec<u8>) {
    (path.to_string(), content.to_vec())
}

#[test]
fn files_become_payloads_under_backslash_names() {
    let listing = vec![file("a.txt", b"hi\n"), file("sub/deep/b.bin", &[1, 2])];
    let archive = PBO::from_directory("mymod", &listing);
    assert_eq!(
        archive.files(),
        &vec![file("a.txt", b"hi\n"), file("sub\\deep\\b.bin", &[1, 2])]
    );
    assert!(archive.headers().is_empty());
}

#[test]
fn prefix_defaults_to_the_name_of_the_root() {
    let archive = PBO::from_directory("mymod", &vec![file("a.txt", b"x")]);
    assert_eq!(archive.header_extensions(), &vec![pair("prefix", "mymod")]);
    let empty = PBO::from_directory("root", &Vec::new());
    assert_eq!(empty.header_extensions(), &vec![pair("prefix", "root")]);
    assert!(empty.files().is_empty());
}

#[test]
fn metadata_file_declares_prefix_and_pairs() {
    let content = b"x\\addons\\foo\nversion=1.2\nauthor=me=you\n\nignored=1\n";
    let listing = vec![file("a.txt", b"x"), file("$PBOPREFIX$", content)];
    let archive = PBO::from_directory("mymod", &listing);
    assert_eq!(archive.files(), &vec![file("a.txt", b"x")]);
    assert_eq!(
        archive.header_extensions(),
        &vec![pair("prefix", "x\\addons\\foo"), pair("version", "1.2"), pair("author", "me")]
    );
}

#[test]
fn metadata_file_below_the_root_is_no_payload() {
    let listing = vec![file("sub/$PBOPREFIX$", b"deep"), file("sub/a.txt", b"x")];
    let archive = PBO::from_directory("mymod", &listing);
    assert_eq!(archive.files(), &vec![file("sub\\a.txt", b"x")]);
    assert_eq!(archive.header_extensions(), &vec![pair("prefix", "deep")]);
}

#[test]
fn metadata_file_without_prefix_line_leaves_the_default() {
    let listing = vec![file("$PBOPREFIX$", b"version=3\n")];
    let archive = PBO::from_directory("mymod", &listing);
    assert_eq!(
        archive.header_extensions(),
        &vec![pair("version", "3"), pair("prefix", "mymod")]
    );
}

#[test]
fn metadata_file_that_is_no_text_declares_nothing() {
    let listing = vec![file("$PBOPREFIX$", &[0xff, 0xfe, b'\n'])];
    let archive = PBO::from_directory("mymod", &listing);
    assert_eq!(archive.header_extensions(), &vec![pair("prefix", "mymod")]);
    assert!(read_prefix_file(&vec![0xc3]).is_empty());
}

#[test]
fn only_the_whole_last_component_names_the_metadata_file() {
    assert!(names_prefix_file("$PBOPREFIX$"));
    assert!(names_prefix_file("a\\b\\$PBOPREFIX$"));
    assert!(!names_prefix_file("my$PBOPREFIX$"));
    assert!(!names_prefix_file("$PBOPREFIX$.txt"));
    assert!(!names_prefix_file("$pboprefix$"));
    assert!(!names_prefix_file("a/$PBOPREFIX$"));
    assert!(!names_prefix_file(""));
}

#[test]
fn lines_are_split_at_the_first_two_equal_signs() {
    assert_eq!(read_declared_pairs(""), Vec::new());
    assert_eq!(read_declared_pairs("\nversion=1"), Vec::new());
    assert_eq!(read_declared_pairs("bare"), vec![pair("prefix", "bare")]);
    assert_eq!(read_declared_pairs("=x"), vec![pair("", "x")]);
    assert_eq!(read_declared_pairs("a=\n"), vec![pair("a", "")]);
    assert_eq!(read_declared_pairs("a=b=c=d"), vec![pair("a", "b")]);
    assert_eq!(
        read_declared_pairs("gr\u{fc}n=bl\u{e4}u\nx"),
        vec![pair("gr\u{fc}n", "bl\u{e4}u"), pair("prefix", "x")]
    );
}

#[test]
fn character_is_found_within_the_range() {
    assert_eq!(find_char("a=b=c", 0, 5, '='), 1);
    assert_eq!(find_char("a=b=c", 2, 5, '='), 3);
    assert_eq!(find_char("a=b=c", 4, 5, '='), 5);
    assert_eq!(find_char("a=b=c", 2, 3, '='), 3);
    assert_eq!(find_char("\u{e4}=", 0, 2, '='), 1);
}

#[test]
fn metadata_file_is_written_line_by_line() {
    assert_eq!(write_prefix_file(&Vec::new()), "");
    assert_eq!(
        write_prefix_file(&vec![pair("prefix", "mymod"), pair("version", "2")]),
        "prefix=mymod\nversion=2\n"
    );
}

#[test]
fn unpack_lists_the_metadata_file_first() {
    let archive = PBO::new()
        .with_file("sub\\a.txt".to_string(), b"x".to_vec())
        .with_extension("prefix".to_string(), "mymod".to_string());
    assert_eq!(
        archive.unpack(),
        vec![file("$PBOPREFIX$", b"prefix=mymod\n"), file("sub/a.txt", b"x")]
    );
}

#[test]
fn unpack_without_metadata_lists_payloads_only() {
    let archive = PBO::new().with_file("a".to_string(), vec![7]);
    assert_eq!(archive.unpack(), vec![file("a", &[7])]);
    assert!(PBO::new().unpack().is_empty());
}

#[test]
fn directory_comes_back_from_its_archive() {
    let listing = vec![
        file("z.txt", b"last"),
        file("$PBOPREFIX$", b"mymod\n"),
        file("sub/A.txt", b""),
        file("sub/b.txt", &[0, 255]),
    ];
    let bytes = PBO::from_directory("root", &listing).write().unwrap();
    let mut back = PBO::read(&bytes).unwrap().unpack();
    assert_eq!(back.remove(0), file("$PBOPREFIX$", b"prefix=mymod\n"));
    assert_eq!(
        back,
        vec![file("sub/A.txt", b""), file("sub/b.txt", &[0, 255]), file("z.txt", b"last")]
    );
}

#[test]
fn path_with_a_backslash_does_not_come_back() {
    let listing = vec![file("a\\b", b"x")];
    let back = PBO::from_directory("root", &listing).unpack();
    assert_eq!(back[1], file("a/b", b"x"));
}
