use sfmtory::order::{path_before, sort, text_before};
use sfmtory::paths::{extension, file_name, join, path_components, split_text, stem, with_forward_slashes};
use sfmtory::sets::{count_key, distinct_numbers, distinct_texts, gather, insert_number, position, slot};
use sfmtory::text::{
    chars_of, contains_text, decimal_string, find_from, first_word, is_blank, leading_number,
    padded_string, string_of, trailing_number, trim,
};

fn texts(v: &[&str]) -> Vec<String> {
    v.iter().map(|s| s.to_string()).collect()
}

#[test]
fn numbers_read_back_from_their_digits() {
    assert_eq!(decimal_string(0), "0");
    assert_eq!(decimal_string(u64::MAX), "18446744073709551615");
    assert_eq!(padded_string(7, 3), "007");
    assert_eq!(padded_string(12345, 3), "12345");
    assert_eq!(trailing_number("cam007"), Some(7));
    assert_eq!(trailing_number("4294967295"), Some(u32::MAX));
    assert_eq!(trailing_number("4294967296"), None);
    assert_eq!(trailing_number("cam"), None);
    assert_eq!(leading_number(&chars_of("12ab"), 0), Some(12));
    assert_eq!(leading_number(&chars_of("x12ab"), 0), None);
}

#[test]
fn strings_are_built_one_character_after_another() {
    assert_eq!(string_of(&chars_of("héllo · wörld")), "héllo · wörld");
}

#[test]
fn texts_are_found_at_their_first_place() {
    let s = chars_of("abcabc");
    assert_eq!(find_from(&s, &chars_of("bc"), 0), Some(1));
    assert_eq!(find_from(&s, &chars_of("bc"), 2), Some(4));
    assert_eq!(find_from(&s, &chars_of("bd"), 0), None);
    assert!(contains_text("x [[cameras]]", "[[cameras]]"));
    assert!(!contains_text("x", "[[cameras]]"));
}

#[test]
fn blanks_are_trimmed() {
    assert!(is_blank(" \t\n"));
    assert!(!is_blank(" x "));
    assert_eq!(string_of(trim(&chars_of("  a b \n"))), "a b");
    assert_eq!(first_word("  map --force").as_deref(), Some("map"));
    assert_eq!(first_word("  "), None);
}

#[test]
fn paths_are_split_and_joined() {
    assert_eq!(split_text("a,b,,c", ','), texts(&["a", "b", "", "c"]));
    assert_eq!(path_components("/a/./b//c/"), texts(&["/", "a", "b", "c"]));
    assert_eq!(join("/a", "b"), "/a/b");
    assert_eq!(join("/a/", "b"), "/a/b");
    assert_eq!(join("/a", "/b"), "/b");
    assert_eq!(join("", "b"), "b");
    assert_eq!(with_forward_slashes("a\\b"), "a/b");
    assert_eq!(file_name("/a/b.jpg").as_deref(), Some("b.jpg"));
    assert_eq!(file_name("/a/.."), None);
    assert_eq!(stem("a.b.jpg"), "a.b");
    assert_eq!(stem(".hidden"), ".hidden");
    assert_eq!(extension("a.b.jpg").as_deref(), Some("jpg"));
    assert_eq!(extension("a."), Some(String::new()));
    assert_eq!(extension("a"), None);
}

#[test]
fn names_are_ordered_by_character() {
    assert!(text_before("a", "b"));
    assert!(text_before("a", "ab"));
    assert!(text_before("A", "a"));
    assert!(!text_before("a", "a"));
    assert!(path_before(&texts(&["a", "z"]), &texts(&["a!", "a"])));
    assert_eq!(sort(texts(&["b", "a", "c"])), texts(&["a", "b", "c"]));
    assert_eq!(sort(vec![5u64, 1, 3]), vec![1, 3, 5]);
}

#[test]
fn sets_are_ascending_lists() {
    let mut v: Vec<u32> = vec![2, 9];
    insert_number(&mut v, 5);
    insert_number(&mut v, 9);
    assert_eq!(v, vec![2, 5, 9]);
    assert_eq!(distinct_numbers(&vec![4u32, 1, 4]), vec![1, 4]);
    assert_eq!(slot(&v, 9), Some(2));
    assert_eq!(slot(&v, 3), None);
    assert_eq!(distinct_texts(&texts(&["b", "a", "b"])), texts(&["a", "b"]));
    assert_eq!(position(&texts(&["b", "a"]), &"a".to_string()), Some(1));
    assert_eq!(count_key(&vec![4u32, 1, 4], 4), 2);
    let groups: Vec<(u32, Vec<char>)> = gather(&vec![4u32, 1, 4], &vec!['x', 'y', 'z'])
        .iter()
        .map(|g| (g.key, g.values.clone()))
        .collect();
    assert_eq!(groups, vec![(1, vec!['y']), (4, vec!['x', 'z'])]);
}
