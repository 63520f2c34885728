use ddprof::{parse_tag_chunk, parse_tags, Tag};

#[test]
fn test_empty_key() {
    let _ = Tag::new("".to_owned(), "woof".to_owned()).expect_err("empty key is not allowed");
}

#[test]
fn test_empty_value() {
    let tag = Tag::new("key1".to_owned(), "".to_owned()).expect("empty value is okay");
    assert_eq!("key1", tag.display_string()); // notice no trailing colon!
}

#[test]
fn test_bad_utf8() {
    // 0b1111_0xxx is the start of a 4-byte sequence, but there aren't any
    // more chars, so it will get converted into the utf8 replacement
    // character. This results in a string with a space (32) and a
    // replacement char, so it should be an error (no valid chars).
    let bytes = &[32, 0b1111_0111];
    let key = String::from_utf8_lossy(bytes).into_owned();
    let _ = Tag::new(key, "value".to_owned()).expect_err("invalid tag is rejected");
}

#[test]
fn test_value_has_colon() {
    let result =
        Tag::new("env".to_owned(), "staging:east".to_owned()).expect("values can have colons");
    assert_eq!("env:staging:east", result.display_string());
}

#[test]
fn test_suspicious_tags() {
    // Based on tag rules, these should all fail. However, there is a risk
    // that profile tags will then differ or cause failures compared to
    // trace tags. These require cross-team, cross-language collaboration.
    let cases = [
        ("key".to_string(), "value-ends-with-colon:".to_owned()),
        (
            "the-tag-length-is-over-200-characters".repeat(6),
            "value".to_owned(),
        ),
    ];

    for case in cases {
        let result = Tag::new(case.0, case.1);
        // Again, these should fail, but it's not implemented yet
        assert!(result.is_ok())
    }
}

#[test]
fn test_missing_colon_parsing() {
    let tag = parse_tag_chunk("tag").unwrap();
    assert_eq!("tag", tag.key().as_str());
    assert!(tag.value().is_empty());
}

#[test]
fn test_leading_colon_parsing() {
    let _ = parse_tag_chunk(":tag").expect_err("Cannot start with a colon");
}

#[test]
fn test_tailing_colon_parsing() {
    let _ = parse_tag_chunk("tag:").expect_err("Cannot end with a colon");
}

#[test]
fn test_tags_parsing() {
    let cases: [(&str, Vec<Tag>); 8] = [
        ("", vec![]),
        (",", vec![]),
        (" , ", vec![]),
        (
            "env:staging:east",
            vec![Tag::new("env".to_owned(), "staging:east".to_owned()).unwrap()],
        ),
        (
            "value",
            vec![Tag::new("value".to_owned(), "".to_owned()).unwrap()],
        ),
        (
            "state:utah,state:idaho",
            vec![
                Tag::new("state".to_owned(), "utah".to_owned()).unwrap(),
                Tag::new("state".to_owned(), "idaho".to_owned()).unwrap(),
            ],
        ),
        (
            "key1:value1 key2:value2 key3:value3",
            vec![
                Tag::new("key1".to_owned(), "value1".to_owned()).unwrap(),
                Tag::new("key2".to_owned(), "value2".to_owned()).unwrap(),
                Tag::new("key3".to_owned(), "value3".to_owned()).unwrap(),
            ],
        ),
        (
            // Testing consecutive separators being collapsed
            "key1:value1, key2:value2 ,key3:value3 , key4:value4",
            vec![
                Tag::new("key1".to_owned(), "value1".to_owned()).unwrap(),
                Tag::new("key2".to_owned(), "value2".to_owned()).unwrap(),
                Tag::new("key3".to_owned(), "value3".to_owned()).unwrap(),
                Tag::new("key4".to_owned(), "value4".to_owned()).unwrap(),
            ],
        ),
    ];

    for case in cases {
        let expected = case.1;
        let (actual, error_message) = parse_tags(case.0);
        assert_eq!(expected, actual);
        assert!(error_message.is_none());
    }
}

#[test]
fn test_leading_colon_list_error() {
    let (tags, error) = parse_tags(":leading");
    assert!(tags.is_empty());
    let message = error.expect("malformed chunk must be reported");
    assert!(message.starts_with("Errors while parsing tags: "));
}

#[test]
fn test_separator_collisions_are_stable() {
    let (a_tags, a_err) = parse_tags("a:1,,b:2");
    let (b_tags, b_err) = parse_tags("a:1 b:2");
    assert_eq!(a_tags, b_tags);
    assert_eq!(
        a_tags,
        vec![
            Tag::new("a".to_owned(), "1".to_owned()).unwrap(),
            Tag::new("b".to_owned(), "2".to_owned()).unwrap(),
        ]
    );
    assert!(a_err.is_none());
    assert!(b_err.is_none());
}

#[test]
fn test_whitespace_only_key_rejected() {
    let err = Tag::new("\u{00a0}\t".to_owned(), "v".to_owned()).expect_err("no valid chars");
    assert_eq!(
        "tag contained only whitespace or invalid unicode characters",
        err
    );
}

#[test]
fn test_key_first_valid_char_colon_rejected() {
    let err = Tag::new(" :oops".to_owned(), "v".to_owned()).expect_err("colon first");
    assert_eq!("tag cannot start with a colon", err);
}

#[test]
fn test_aggregated_error_lists_each_chunk() {
    let (tags, error) = parse_tags(":a,b:,ok:1");
    assert_eq!(1, tags.len());
    assert_eq!("ok", tags[0].key().as_str());
    assert_eq!("1", tags[0].value().as_str());
    assert_eq!(
        "Errors while parsing tags: tag cannot start with a colon, tag cannot end with a colon",
        error.expect("two malformed chunks")
    );
}

#[test]
fn empty_tag_name() {
    let mut tags: Vec<Tag> = Vec::new();
    let result = Tag::new(
        String::from_utf8_lossy("".as_bytes()).into_owned(),
        String::from_utf8_lossy("woof".as_bytes()).into_owned(),
    );
    match result {
        Ok(tag) => tags.push(tag),
        Err(_) => {}
    }
    assert!(tags.is_empty());
}

#[test]
fn test_lifetimes() {
    let mut tags: Vec<Tag> = Vec::new();
    {
        // make a string here so it has a scoped lifetime
        let key = String::from("key1");
        {
            let value = String::from("value1");
            let result = Tag::new(key.clone(), value.clone());
            assert!(result.is_ok());
            tags.push(result.unwrap());
        }
    }
    let tag = tags.last().unwrap();
    assert_eq!(tag.key().as_str(), "key1");
    assert_eq!(tag.value().as_str(), "value1");
}

#[test]
fn test_get() {
    let mut tags: Vec<Tag> = Vec::new();
    let result = Tag::new("sound".to_owned(), "woof".to_owned());
    assert!(result.is_ok());
    tags.push(result.unwrap());
    assert_eq!(1, tags.len());
    assert_eq!("sound:woof", tags.get(0).unwrap().display_string());
}

#[test]
fn test_value_ending_in_colon_parses() {
    // Only a chunk with nothing after its first colon is rejected; a
    // value may itself end in a colon.
    let tag = parse_tag_chunk("a:b:").expect("value may end in a colon");
    assert_eq!("a", tag.key().as_str());
    assert_eq!("b:", tag.value().as_str());

    let (tags, error) = parse_tags("a:b:,c:d");
    assert_eq!(2, tags.len());
    assert_eq!("b:", tags[0].value().as_str());
    assert_eq!("d", tags[1].value().as_str());
    assert!(error.is_none());
}

#[test]
fn test_into_owned_keeps_contents() {
    let tag = Tag::new("k".to_owned(), "v".to_owned()).unwrap().into_owned();
    assert_eq!("k", tag.key().as_str());
    assert_eq!("v", tag.value().as_str());
}
