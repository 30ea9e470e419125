use textfmt::{
    bytes_find, is_char_boundary, str_get, str_index, str_repeat, str_replace, str_replace_length,
    str_splice, IndexSpec, ReplaceInputConv, TextError,
};

#[test]
fn find_basic() {
    assert_eq!(bytes_find(b"foo bar bar", b"bar", 0), Some(4));
    assert_eq!(bytes_find(b"foo bar bar", b"bar", 5), Some(8));
    assert_eq!(bytes_find(b"foo bar bar", b"qux", 0), None);
    assert_eq!(bytes_find(b"foo", b"", 0), None);
    assert_eq!(bytes_find(b"foo", b"foo", 1), None);
}

#[test]
fn char_boundaries() {
    let t = "AB\u{8c46}-".as_bytes();
    assert_eq!(t.len(), 6);
    assert!(is_char_boundary(t, 0));
    assert!(is_char_boundary(t, 2));
    assert!(!is_char_boundary(t, 3));
    assert!(!is_char_boundary(t, 4));
    assert!(is_char_boundary(t, 5));
    assert!(is_char_boundary(t, 6));
    assert!(!is_char_boundary(t, 7));
}

#[test]
fn replace_str_pattern() {
    let text = "The incredible shrinking man.";
    let pat = ReplaceInputConv("i").conv();
    let len = str_replace_length(text.as_bytes(), &pat, b"eee");
    let expected = "The eeencredeeeble shreeenkeeeng man.";
    assert_eq!(len, expected.len());
    // the length formula: four occurrences, each 1 byte, replaced by 3 bytes
    assert_eq!(len, text.len() - 4 * 1 + 4 * 3);
    let out = str_replace(text.as_bytes(), &pat, b"eee", len);
    assert_eq!(out, expected.as_bytes().to_vec());
}

#[test]
fn replace_byte_pattern() {
    let text = "The incredible shrinking man.";
    let pat = ReplaceInputConv(b'i').conv();
    let len = str_replace_length(text.as_bytes(), &pat, b"eee");
    let expected = "The eeencredeeeble shreeenkeeeng man.";
    assert_eq!(len, expected.len());
    let out = str_replace(text.as_bytes(), &pat, b"eee", len);
    assert_eq!(out, expected.as_bytes().to_vec());
}

#[test]
fn replace_removing() {
    let pat = ReplaceInputConv("re").conv();
    let len = str_replace_length(b"remove haire", &pat, b"");
    assert_eq!(len, "remove haire".len() - 2 * 2);
    let out = str_replace(b"remove haire", &pat, b"", len);
    assert_eq!(out, b"move hai".to_vec());
}

#[test]
fn replace_multi_byte_pattern() {
    let pat = ReplaceInputConv("oo").conv();
    let len = str_replace_length(b"Foo Boo Patoo", &pat, b"uh");
    let out = str_replace(b"Foo Boo Patoo", &pat, b"uh", len);
    assert_eq!(out, b"Fuh Buh Patuh".to_vec());
}

#[test]
fn replace_empty_pattern_is_identity() {
    let pat = ReplaceInputConv("").conv();
    let len = str_replace_length(b"anything at all", &pat, b"junk");
    assert_eq!(len, b"anything at all".len());
    let out = str_replace(b"anything at all", &pat, b"junk", len);
    assert_eq!(out, b"anything at all".to_vec());
}

#[test]
fn repeat_round_trip() {
    let out = str_repeat(b"hi ", 4).unwrap();
    assert_eq!(out, b"hi hi hi hi ".to_vec());
    for i in 0..4 {
        assert_eq!(&out[i * 3..(i + 1) * 3], b"hi ");
    }
    let out = str_repeat(b"bye ", 5).unwrap();
    assert_eq!(out, b"bye bye bye bye bye ".to_vec());
}

#[test]
fn repeat_zero_is_empty() {
    assert_eq!(str_repeat(b"hello", 0).unwrap(), Vec::<u8>::new());
    assert_eq!(str_repeat(b"", 17).unwrap(), Vec::<u8>::new());
}

#[test]
fn repeat_overflow_fails() {
    assert_eq!(str_repeat(b"hello", usize::MAX / 4), Err(TextError::LengthOverflow));
    assert_eq!(str_repeat(b"ab", usize::MAX), Err(TextError::LengthOverflow));
}

#[test]
fn index_ranges() {
    let t = b"foo bar baz";
    assert_eq!(str_index(t, &IndexSpec::RangeTo(7)).unwrap(), b"foo bar".to_vec());
    assert_eq!(str_index(t, &IndexSpec::Range(4, 7)).unwrap(), b"bar".to_vec());
    assert_eq!(str_index(t, &IndexSpec::RangeFrom(4)).unwrap(), b"bar baz".to_vec());
    assert_eq!(str_index(t, &IndexSpec::Full).unwrap(), t.to_vec());
    assert_eq!(str_index(t, &IndexSpec::RangeInclusive(4, 6)).unwrap(), b"bar".to_vec());
    assert_eq!(str_index(t, &IndexSpec::RangeToInclusive(2)).unwrap(), b"foo".to_vec());
    assert_eq!(str_index(b"hello world", &IndexSpec::Single(4)).unwrap(), b"o".to_vec());
    assert_eq!(str_index(t, &IndexSpec::Range(0, 100)), Err(TextError::InvalidSpan));
    assert_eq!(str_index(t, &IndexSpec::Range(7, 4)), Err(TextError::InvalidSpan));
}

#[test]
fn index_and_get_agree() {
    let t = b"foo bar baz";
    let specs = [
        IndexSpec::RangeTo(7),
        IndexSpec::Range(4, 7),
        IndexSpec::Range(4, 100),
        IndexSpec::Range(7, 4),
        IndexSpec::Single(11),
        IndexSpec::Single(4),
        IndexSpec::Full,
    ];
    for spec in specs {
        match str_index(t, &spec) {
            Ok(v) => assert_eq!(str_get(t, &spec), Some(v)),
            Err(_) => assert_eq!(str_get(t, &spec), None),
        }
    }
    assert_eq!(str_get(b"hello world", &IndexSpec::Single(11)), None);
}

#[test]
fn multi_byte_boundaries() {
    // a 3-byte char at byte offsets [3, 6)
    let t = "ABC\u{8c46}-".as_bytes();
    assert_eq!(str_index(t, &IndexSpec::Range(3, 6)).unwrap(), "\u{8c46}".as_bytes().to_vec());
    assert_eq!(str_index(t, &IndexSpec::Range(3, 4)), Err(TextError::InvalidSpan));
    assert_eq!(str_index(t, &IndexSpec::Range(3, 5)), Err(TextError::InvalidSpan));
    assert_eq!(str_index(t, &IndexSpec::Range(4, 6)), Err(TextError::InvalidSpan));
    assert_eq!(str_index(t, &IndexSpec::Range(5, 6)), Err(TextError::InvalidSpan));
    assert_eq!(str_get(t, &IndexSpec::Range(4, 6)), None);
    assert_eq!(str_get(t, &IndexSpec::Range(3, 6)), Some("\u{8c46}".as_bytes().to_vec()));
    assert_eq!(str_index(t, &IndexSpec::Single(3)).unwrap(), "\u{8c46}".as_bytes().to_vec());
    assert_eq!(str_get(t, &IndexSpec::Single(4)), None);
    assert_eq!(str_get(t, &IndexSpec::Single(5)), None);
    assert!(str_splice(t, &IndexSpec::Range(4, 6), b"x").is_err());
    assert!(str_splice(t, &IndexSpec::Range(3, 6), b"x").is_ok());
}

#[test]
fn splice_basic() {
    let out = str_splice(b"foo bar baz", &IndexSpec::RangeInclusive(4, 6), b"is").unwrap();
    assert_eq!(out.output, b"foo is baz".to_vec());
    assert_eq!(out.removed, b"bar".to_vec());

    let out = str_splice(b"this is bad", &IndexSpec::RangeFrom(8), b"... fine").unwrap();
    assert_eq!(out.output, b"this is ... fine".to_vec());
    assert_eq!(out.removed, b"bad".to_vec());

    let out = str_splice("ABC\u{8c46}-".as_bytes(), &IndexSpec::Single(3), b"DEFGH").unwrap();
    assert_eq!(out.output, b"ABCDEFGH-".to_vec());
    assert_eq!(out.removed, "\u{8c46}".as_bytes().to_vec());
}

#[test]
fn splice_round_trip() {
    // splice, then re-splice the removed text at the same resolved span
    let original = b"foo bar baz";
    let spliced = str_splice(original, &IndexSpec::Range(4, 7), b"is").unwrap();
    assert_eq!(spliced.output, b"foo is baz".to_vec());
    let back = str_splice(
        &spliced.output,
        &IndexSpec::Range(4, 4 + b"is".len()),
        &spliced.removed,
    )
    .unwrap();
    assert_eq!(back.output, original.to_vec());
    assert_eq!(back.removed, b"is".to_vec());
}

#[test]
fn splice_invalid_span_fails() {
    assert!(str_splice(b"foo", &IndexSpec::Range(0, 10), b"").is_err());
    assert!(str_splice("\u{52b9}\u{7387}\u{7684}".as_bytes(), &IndexSpec::Range(1, 6), b"A").is_err());
    let out = str_splice("\u{52b9}\u{7387}\u{7684}".as_bytes(), &IndexSpec::Range(3, 6), b"A").unwrap();
    assert_eq!(out.output, "\u{52b9}A\u{7684}".as_bytes().to_vec());
    assert_eq!(out.removed, "\u{7387}".as_bytes().to_vec());
}
