use timberfs::json::{Fields, Json};
use timberfs::paths::{file_name_of, joined_path, path_key_of, same_paths, within};
use timberfs::text::{
    chars_of, hex_number_text, hex_padded_text, join, lines_of, number_text, parse_u64, words_of,
};
use timberfs::uuid::{parse_uuid, uuid_spelled};

#[test]
fn an_object_reads_back_as_it_was_written() {
    let text = r#"{"a":[1,"x",{"b":2}],"c":-1.5,"n":null,"t":true,"w":7,"é\n":"q\"uote"}"#;
    let f = Fields::parse(text).unwrap();
    assert_eq!(f.compact(), text);
    assert_eq!(f.whole_at("w"), Some(7));
    assert!(f.flag_at("t"));
    assert_eq!(f.text_at("é\n").as_deref(), Some("q\"uote"));
    assert_eq!(f.get("n"), Some(&Json::Null));
    assert!(Fields::parse("[1]").is_none());
    assert!(Fields::parse("{").is_none());
    let again = Fields::parse(&f.compact()).unwrap();
    assert!(again.equals(&f));
}

#[test]
fn the_later_of_two_members_counts() {
    let mut f = Fields::parse(r#"{"a":1,"a":2}"#).unwrap();
    assert_eq!(f.whole_at("a"), Some(2));
    f.insert("b", Json::Bool(false));
    f.remove("a");
    assert_eq!(f.keys(), ["b"]);
    assert!(!f.is_empty());
}

#[test]
fn paths_are_compared_by_their_parts() {
    assert!(same_paths("/a/b", "/a//b/"));
    assert!(same_paths("/a/./b", "/a/b"));
    assert!(!same_paths("a/b", "/a/b"));
    assert!(within("/a/b/c", "/a/b"));
    assert!(!within("/a/bc", "/a/b"));
    assert_eq!(joined_path("/a", "b"), "/a/b");
    assert_eq!(joined_path("/a", "/b"), "/b");
    assert_eq!(file_name_of("/a/b.log").as_deref(), Some("b.log"));
    assert_eq!(file_name_of("/a/.."), None);
    assert_eq!(path_key_of("/a/b"), path_key_of("/a//b"));
}

#[test]
fn numbers_and_words_are_read_and_written() {
    assert_eq!(number_text(u64::MAX), u64::MAX.to_string());
    assert_eq!(parse_u64(&chars_of("+18446744073709551615")), Some(u64::MAX));
    assert_eq!(parse_u64(&chars_of("18446744073709551616")), None);
    assert_eq!(parse_u64(&chars_of("")), None);
    assert_eq!(hex_number_text(0xbeef), "beef");
    assert_eq!(hex_padded_text(5, 4), "0005");
    assert_eq!(words_of(&chars_of(" a  b\tc\n")), ["a", "b", "c"]);
    assert_eq!(lines_of(&chars_of("a\r\nb\n")).len(), 2);
    assert_eq!(join(&vec!["a".into(), "b".into()], ", "), "a, b");
}

#[test]
fn an_identity_is_spelled_one_way_and_read_in_two() {
    let s = "899c8aad-4d3d-4c60-b125-ee5ce7e1cc86";
    let b = parse_uuid(s).unwrap();
    assert_eq!(uuid_spelled(&b), s);
    assert_eq!(parse_uuid(&s.replace('-', "")), Some(b));
}

#[test]
fn an_object_is_written_in_indented_form_and_reads_back() {
    let f = Fields::parse(r#"{"b":[1,"x"],"a":null}"#).unwrap();
    let text = f.pretty().unwrap();
    assert_eq!(text, "{\n  \"a\": null,\n  \"b\": [\n    1,\n    \"x\"\n  ]\n}");
    assert!(Fields::parse(&text).unwrap().equals(&f));
    assert_eq!(Fields::new().pretty().unwrap(), "{}");
}
