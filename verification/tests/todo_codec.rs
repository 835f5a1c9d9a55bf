use synapse::todo_codec::{decode_tags, encode_tags, escape_field, unescape_field};

#[test]
fn fields_escape_separators_and_read_back() {
    assert_eq!(escape_field("a\\b\tc\nd\re"), "a\\\\b\\tc\\nd\\re");
    assert_eq!(
        unescape_field("a\\\\b\\tc\\nd\\re"),
        Some("a\\b\tc\nd\re".to_owned())
    );
    assert_eq!(unescape_field("dangling\\"), None);
    assert_eq!(unescape_field("bad\\x"), None);
}

#[test]
fn tag_lists_use_byte_lengths_and_skip_empty_and_repeated_tags() {
    let tags = vec!["工作".to_owned(), "a\tb".to_owned()];
    let encoded = encode_tags(&tags);
    assert_eq!(encoded, "v2:6:工作4:a\\tb");
    assert_eq!(decode_tags(&encoded), Some(tags));
    assert_eq!(
        decode_tags("v2:1:x0:1:x"),
        Some(vec!["x".to_owned()])
    );
    assert_eq!(decode_tags("旧标签"), Some(vec!["旧标签".to_owned()]));
    assert_eq!(decode_tags(""), Some(Vec::new()));
    assert_eq!(decode_tags("v2:9:short"), None);
    assert_eq!(decode_tags("v2:x:y"), None);
    assert_eq!(decode_tags("v2:2:é"), Some(vec!["é".to_owned()]));
    assert_eq!(decode_tags("v2:1:é"), None);
}
