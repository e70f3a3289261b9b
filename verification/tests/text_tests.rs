use zwcd::text::{normalize_for_match, remove_tones, strip_punctuation};

#[test]
fn normalize_keeps_latin_letters_and_ideographs() {
    assert_eq!(normalize_for_match("Hello, World! 123"), "helloworld");
    assert_eq!(normalize_for_match("你好, world"), "你好world");
    assert_eq!(normalize_for_match("学习 (to study)"), "学习tostudy");
}

#[test]
fn normalize_drops_everything_else() {
    assert_eq!(normalize_for_match(""), "");
    assert_eq!(normalize_for_match("1234 !?"), "");
    assert_eq!(normalize_for_match("nǐ hǎo"), "nho");
    assert_eq!(normalize_for_match("é"), "");
}

#[test]
fn normalize_respects_the_edges_of_the_ranges() {
    assert_eq!(normalize_for_match("@AZ[`az{"), "azaz");
    assert_eq!(normalize_for_match("\u{4dff}\u{4e00}\u{9fff}\u{a000}"), "\u{4e00}\u{9fff}");
}

#[test]
fn normalize_is_idempotent_on_examples() {
    for text in ["Hello, World!", "你好 World", "", "ABC abc 学习", "nǐ hǎo"] {
        let once = normalize_for_match(text);
        let twice = normalize_for_match(&once);
        assert_eq!(once, twice);
    }
}

#[test]
fn strip_punctuation_removes_the_six_marks() {
    assert_eq!(strip_punctuation("a.b,c;d:e!f?g"), "abcdefg");
    assert_eq!(strip_punctuation("ni3 hao3!"), "ni3 hao3");
    assert_eq!(strip_punctuation("(keep) - these \"marks\""), "(keep) - these \"marks\"");
    assert_eq!(strip_punctuation(""), "");
}

#[test]
fn strip_punctuation_is_idempotent_on_examples() {
    for text in ["a.b,c", "Hello, World!", "..."] {
        let once = strip_punctuation(text);
        assert_eq!(strip_punctuation(&once), once);
    }
}

#[test]
fn remove_tones_strips_diacritics() {
    assert_eq!(remove_tones("nǐ hǎo"), "nihao");
    assert_eq!(remove_tones("Zhōngwén"), "zhongwen");
    assert_eq!(remove_tones("lǜ"), "lu");
}

#[test]
fn remove_tones_strips_tone_numbers_and_spaces() {
    assert_eq!(remove_tones("ni3 hao3"), "nihao");
    assert_eq!(remove_tones("Bei3 jing1"), "beijing");
    assert_eq!(remove_tones(""), "");
    assert_eq!(remove_tones("123"), "");
}

#[test]
fn remove_tones_transliterates_ideographs() {
    assert_eq!(remove_tones("北"), "bei");
}

#[test]
fn remove_tones_is_idempotent_on_examples() {
    for text in ["nǐ hǎo", "ni3 hao3", "Zhōngwén", "北亰", ""] {
        let once = remove_tones(text);
        assert_eq!(remove_tones(&once), once);
    }
}

#[test]
fn index_and_query_are_normalised_alike() {
    assert_eq!(normalize_for_match("To Study"), normalize_for_match("to study"));
    assert_eq!(remove_tones("NI3 HAO3"), remove_tones("nǐ hǎo"));
}

#[test]
fn normalize_agrees_with_the_character_class() {
    let class = regex::Regex::new(r"[^a-zA-Z一-鿿]").unwrap();
    for code in 0u32..0x11_0000 {
        if let Some(c) = char::from_u32(code) {
            let text = c.to_string();
            assert_eq!(normalize_for_match(&text), class.replace_all(&text, "").to_lowercase());
        }
    }
    let text = "The 学习 of Zhōngwén: ABC, xyz!";
    assert_eq!(normalize_for_match(text), class.replace_all(text, "").to_lowercase());
}

#[test]
fn strip_punctuation_agrees_with_the_character_class() {
    let class = regex::Regex::new(r"[.,;:!?]").unwrap();
    for code in 0u32..0x11_0000 {
        if let Some(c) = char::from_u32(code) {
            let text = c.to_string();
            assert_eq!(strip_punctuation(&text), class.replace_all(&text, ""));
        }
    }
}

#[test]
fn remove_tones_agrees_with_the_transliteration() {
    for code in 0u32..0x11_0000 {
        if let Some(c) = char::from_u32(code) {
            let text = c.to_string();
            let expected: String = unidecode::unidecode(&text)
                .to_lowercase()
                .chars()
                .filter(|c| c.is_ascii_alphabetic())
                .collect();
            assert_eq!(remove_tones(&text), expected);
        }
    }
}
