use config_render::text::{chars_of, has_prefix, has_suffix};
use config_render::token::{char_is_space, find_token, scan_token_at, scan_whole_token, TokenSpan};

fn tokens_of(text: &str) -> Vec<(usize, usize, String)> {
    let chars = chars_of(text);
    let mut found = Vec::new();
    let mut from = 0;
    while let Some(span) = find_token(&chars, from) {
        let name: String = chars[span.name_start..span.name_end].iter().collect();
        found.push((span.start, span.end, name));
        from = span.end;
    }
    found
}

fn char_offset(text: &str, byte_offset: usize) -> usize {
    text[..byte_offset].chars().count()
}

fn tokens_by_pattern(pattern: &regex::Regex, text: &str) -> Vec<(usize, usize, String)> {
    pattern
        .captures_iter(text)
        .map(|c| {
            let all = c.get(0).unwrap();
            (
                char_offset(text, all.start()),
                char_offset(text, all.end()),
                c.get(1).unwrap().as_str().to_string(),
            )
        })
        .collect()
}

fn whole_by_pattern(pattern: &regex::Regex, text: &str) -> Option<String> {
    pattern.captures(text).map(|c| c.get(1).unwrap().as_str().to_string())
}

fn whole_name(text: &str) -> Option<String> {
    let chars = chars_of(text);
    scan_whole_token(&chars).map(|span| chars[span.name_start..span.name_end].iter().collect())
}

#[test]
fn a_token_is_found_with_its_name() {
    let chars = chars_of("ab (( x/y ))cd");
    assert_eq!(
        find_token(&chars, 0),
        Some(TokenSpan { start: 3, name_start: 6, name_end: 9, end: 12 })
    );
    assert_eq!(find_token(&chars, 3), find_token(&chars, 0));
    assert_eq!(find_token(&chars, 4), None);
    assert_eq!(scan_token_at(&chars, 3), find_token(&chars, 0));
    assert_eq!(scan_token_at(&chars, 2), None);
    assert_eq!(scan_token_at(&chars, 100), None);
    assert_eq!(find_token(&chars, 100), None);
}

#[test]
fn white_space_around_the_name_is_optional() {
    assert_eq!(tokens_of("((a))"), vec![(0, 5, "a".to_string())]);
    assert_eq!(tokens_of("((  a))"), vec![(0, 7, "a".to_string())]);
    assert_eq!(tokens_of("((a \t\n))"), vec![(0, 8, "a".to_string())]);
    assert_eq!(tokens_of("(())"), vec![(0, 4, "".to_string())]);
    assert_eq!(tokens_of("((  ))"), vec![(0, 6, "".to_string())]);
}

#[test]
fn a_name_holds_no_white_space_and_no_closing_bracket() {
    assert_eq!(tokens_of("(( a b ))"), vec![]);
    assert_eq!(tokens_of("(( a) ))"), vec![]);
    assert_eq!(tokens_of("(( a )"), vec![]);
    assert_eq!(tokens_of("( ( a ))"), vec![]);
    assert_eq!(tokens_of("(( a ) )"), vec![]);
}

#[test]
fn the_leftmost_token_wins_and_tokens_do_not_overlap() {
    assert_eq!(tokens_of("(((( a ))"), vec![(2, 9, "a".to_string())]);
    assert_eq!(tokens_of("(((a))"), vec![(0, 6, "(a".to_string())]);
    assert_eq!(tokens_of("((a)))"), vec![(0, 5, "a".to_string())]);
    assert_eq!(
        tokens_of("((a))((b)) (( c ))"),
        vec![(0, 5, "a".to_string()), (5, 10, "b".to_string()), (11, 18, "c".to_string())]
    );
}

#[test]
fn positions_count_characters_not_bytes() {
    assert_eq!(tokens_of("é(( ü ))"), vec![(1, 8, "ü".to_string())]);
}

#[test]
fn a_whole_token_may_have_white_space_around_it() {
    assert_eq!(whole_name("(( a/b ))"), Some("a/b".to_string()));
    assert_eq!(whole_name("  \n(( a/b ))\t "), Some("a/b".to_string()));
    assert_eq!(whole_name("((a))"), Some("a".to_string()));
    assert_eq!(whole_name("(())"), Some("".to_string()));
    assert_eq!(whole_name("x (( a/b ))"), None);
    assert_eq!(whole_name("(( a/b )) y"), None);
    assert_eq!(whole_name("(( a ))(( b ))"), None);
    assert_eq!(whole_name(""), None);
    assert_eq!(whole_name("   "), None);
    assert_eq!(whole_name("((a)))"), None);
    assert_eq!(whole_name("(((a))"), Some("(a".to_string()));
}

#[test]
fn white_space_is_what_the_pattern_class_matches() {
    let space = regex::Regex::new(r"\A\s\z").unwrap();
    let mut buffer = [0u8; 4];
    for code in 0u32..=0x10FFFF {
        if let Some(c) = char::from_u32(code) {
            let expected = space.is_match(c.encode_utf8(&mut buffer));
            assert_eq!(char_is_space(c), expected, "U+{:04X}", code);
            assert_eq!(char_is_space(c), c.is_whitespace(), "U+{:04X}", code);
        }
    }
}

#[test]
fn the_scanner_agrees_with_the_pattern_on_short_texts() {
    let every = regex::Regex::new(r"\(\(\s*([^)\s]*?)\s*\)\)").unwrap();
    let whole = regex::Regex::new(r"\A\s*\(\(\s*([^)\s]*?)\s*\)\)\s*\z").unwrap();
    let alphabet = ['(', ')', ' ', 'a', '\t', '\u{00A0}'];
    let mut texts: Vec<String> = vec![String::new()];
    let mut start = 0;
    for _ in 0..7 {
        let end = texts.len();
        for i in start..end {
            for c in alphabet {
                let mut longer = texts[i].clone();
                longer.push(c);
                texts.push(longer);
            }
        }
        start = end;
    }
    assert_eq!(texts.len(), 335923);
    for text in &texts {
        assert_eq!(tokens_of(text), tokens_by_pattern(&every, text), "{:?}", text);
        assert_eq!(whole_name(text), whole_by_pattern(&whole, text), "{:?}", text);
    }
}

#[test]
fn the_scanner_agrees_with_the_pattern_on_chosen_texts() {
    let every = regex::Regex::new(r"\(\(\s*([^)\s]*?)\s*\)\)").unwrap();
    let whole = regex::Regex::new(r"\A\s*\(\(\s*([^)\s]*?)\s*\)\)\s*\z").unwrap();
    let texts = [
        "jdbc:postgresql://(( db/host )):(( db/port ))/(( db/name ))",
        "(( a ))(( b ))(( c ))",
        "((((((a))))))",
        "(( a/json ))",
        "(( é/ü/ñ ))",
        "((\u{2003}name\u{3000}))",
        "(( a\u{0085}))",
        "(( a\u{200B} ))",
        "text without any token",
        "))((",
        "(( unfinished",
        "(( a )) tail (( b)",
        "\n\n(( multi ))\n\n",
        "(( a ))\n(( b ))",
    ];
    for text in texts {
        assert_eq!(tokens_of(text), tokens_by_pattern(&every, text), "{:?}", text);
        assert_eq!(whole_name(text), whole_by_pattern(&whole, text), "{:?}", text);
    }
}

#[test]
fn characters_of_a_string_are_its_scalar_values() {
    assert_eq!(chars_of("aé\u{1F600}"), vec!['a', 'é', '\u{1F600}']);
    assert_eq!(chars_of(""), Vec::<char>::new());
}

#[test]
fn prefixes_and_suffixes_are_compared_character_by_character() {
    let name = chars_of("runtime/secret/json");
    assert!(has_prefix(&name, &chars_of("runtime/")));
    assert!(has_prefix(&name, &chars_of("")));
    assert!(has_prefix(&name, &name));
    assert!(!has_prefix(&name, &chars_of("untime")));
    assert!(!has_prefix(&chars_of("run"), &chars_of("runtime")));
    assert!(has_suffix(&name, &chars_of("/json")));
    assert!(has_suffix(&name, &chars_of("")));
    assert!(!has_suffix(&name, &chars_of("/jso")));
    assert!(!has_suffix(&chars_of("json"), &chars_of("/json")));
}
