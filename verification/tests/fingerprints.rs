use doc_inventory::fingerprint::{
    calculate_column_similarity_hash, calculate_crc32, format_checksum, normalize_name,
};
use doc_inventory::text::{join_strings, same_text, sort_strings, str_le};

fn names(list: &[&str]) -> Vec<String> {
    list.iter().map(|s| s.to_string()).collect()
}

#[test]
fn fingerprint_ignores_order() {
    let a = names(&["Name", "Age", "Postcode"]);
    let b = names(&["Postcode", "Name", "Age"]);
    let c = names(&["Age", "Postcode", "Name"]);
    assert_eq!(
        calculate_column_similarity_hash(&a),
        calculate_column_similarity_hash(&b)
    );
    assert_eq!(
        calculate_column_similarity_hash(&a),
        calculate_column_similarity_hash(&c)
    );
}

#[test]
fn fingerprint_ignores_blank_and_punctuation_names() {
    let plain = names(&["Name", "Age"]);
    let padded = names(&["  ", "Name", "---", "Age", "", "\t", "?!"]);
    assert_eq!(
        calculate_column_similarity_hash(&plain),
        calculate_column_similarity_hash(&padded)
    );
}

#[test]
fn fingerprint_ignores_case_and_punctuation() {
    let a = names(&["Name", "Age"]);
    let b = names(&["name", " age"]);
    let c = names(&["N.A.M.E", "a-g-e"]);
    assert_eq!(
        calculate_column_similarity_hash(&a),
        calculate_column_similarity_hash(&b)
    );
    assert_eq!(
        calculate_column_similarity_hash(&a),
        calculate_column_similarity_hash(&c)
    );
}

#[test]
fn fingerprint_tells_synonyms_apart() {
    let a = names(&["Name", "Age"]);
    let b = names(&["Name", "Years"]);
    assert_ne!(
        calculate_column_similarity_hash(&a),
        calculate_column_similarity_hash(&b)
    );
}

#[test]
fn fingerprint_keeps_repeated_names() {
    let once = names(&["a", "b"]);
    let twice = names(&["a", "a", "b"]);
    assert_eq!(calculate_column_similarity_hash(&twice), crc32fast::hash(b"a,a,b"));
    assert_ne!(
        calculate_column_similarity_hash(&once),
        calculate_column_similarity_hash(&twice)
    );
}

#[test]
fn fingerprint_is_checksum_of_sorted_joined_names() {
    let cols = names(&["Total Cost", "ID", "Date-Of-Birth"]);
    assert_eq!(
        calculate_column_similarity_hash(&cols),
        crc32fast::hash(b"dateofbirth,id,totalcost")
    );
    let none: Vec<String> = Vec::new();
    assert_eq!(calculate_column_similarity_hash(&none), crc32fast::hash(b""));
    assert_eq!(calculate_column_similarity_hash(&none), 0);
}

#[test]
fn normalizes_names() {
    assert_eq!(normalize_name("Date Of-Birth!"), "dateofbirth");
    assert_eq!(normalize_name(" \t-"), "");
    assert_eq!(normalize_name("Größe 2"), "größe2");
}

#[test]
fn content_checksum_as_text() {
    assert_eq!(calculate_crc32(b"123456789"), "cbf43926");
    assert_eq!(calculate_crc32(b""), "00000000");
}

#[test]
fn checksum_text_has_eight_digits() {
    assert_eq!(format_checksum(0x1a), "0000001a");
    assert_eq!(format_checksum(0), "00000000");
    assert_eq!(format_checksum(0xffff_ffff), "ffffffff");
    assert_eq!(format_checksum(0x0123_4567), "01234567");
    assert_eq!(format_checksum(0x89ab_cdef), "89abcdef");
}

#[test]
fn strings_order_by_bytes() {
    assert!(str_le("", "a"));
    assert!(str_le("a", "a"));
    assert!(str_le("a", "ab"));
    assert!(!str_le("ab", "a"));
    assert!(str_le("B", "a"));
    assert!(!str_le("b", "a"));
    assert!(str_le("z", "é"));
    assert!(same_text("abc", "abc"));
    assert!(!same_text("abc", "abd"));
}

#[test]
fn sorts_and_joins() {
    let v = names(&["pear", "apple", "fig", "apple", "Zed"]);
    let sorted = sort_strings(&v);
    assert_eq!(sorted, names(&["Zed", "apple", "apple", "fig", "pear"]));
    let mut expected = v.clone();
    expected.sort();
    assert_eq!(sorted, expected);
    assert_eq!(join_strings(&sorted, ","), "Zed,apple,apple,fig,pear");
    assert_eq!(join_strings(&names(&["one"]), ", "), "one");
    assert_eq!(join_strings(&Vec::new(), ","), "");
}

#[test]
fn fingerprint_ignores_many_blank_names_anywhere() {
    let plain = names(&["Zip", "Name", "Age"]);
    let expected = calculate_column_similarity_hash(&plain);
    let mut padded = plain.clone();
    for (at, blank) in [(0, ""), (2, " "), (1, "-"), (5, "\t\n"), (3, "#!"), (0, "()")] {
        padded.insert(at, blank.to_string());
        assert_eq!(calculate_column_similarity_hash(&padded), expected);
    }
    assert_eq!(padded.len(), 9);
}
