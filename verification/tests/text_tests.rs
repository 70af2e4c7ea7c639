use blog_gen::text::{
    chars_of, digit_text, find_from, find_last, parse_number, piece, push_decimal, same_text,
    split_ranges, starts_at, trimmed_end,
};

fn chars(s: &str) -> Vec<char> {
    s.chars().collect()
}

fn fields(text: &str, delim: char) -> Vec<String> {
    let all = chars(text);
    split_ranges(&all, delim).iter().map(|r| all[r.0..r.1].iter().collect()).collect()
}

#[test]
fn characters_are_taken_one_by_one() {
    assert_eq!(chars_of("aé日𝄞"), vec!['a', 'é', '日', '𝄞']);
    assert_eq!(chars_of(""), Vec::<char>::new());
}

#[test]
fn pieces_are_counted_in_characters() {
    assert_eq!(piece("aé日𝄞b", 1, 4), "é日𝄞");
    assert_eq!(piece("abc", 0, 3), "abc");
    assert_eq!(piece("abc", 2, 2), "");
}

#[test]
fn search_finds_the_first_from_a_position() {
    let text = chars("a-b-c");
    assert_eq!(find_from(&text, '-', 0), 1);
    assert_eq!(find_from(&text, '-', 1), 1);
    assert_eq!(find_from(&text, '-', 2), 3);
    assert_eq!(find_from(&text, '-', 4), 5);
    assert_eq!(find_from(&text, '-', 5), 5);
    assert_eq!(find_from(&text, 'x', 0), 5);
}

#[test]
fn splitting_agrees_with_the_standard_library() {
    let samples = ["", "a", "|", "a|b", "a|b|c", "||", "|a|", "a||b", "a|b|", "日|本|語", "no bars"];
    for text in samples.iter() {
        let expected: Vec<String> = text.split('|').map(|f| f.to_string()).collect();
        assert_eq!(fields(text, '|'), expected, "{:?}", text);
    }
    assert_eq!(fields("2024-03-05", '-'), vec!["2024", "03", "05"]);
}

#[test]
fn white_space_at_the_end_is_left_off() {
    let samples = ["", " ", "a", "a ", "a \t\n", " a", " a b \r\n ", "a\u{3000}", "a\u{200b}", "  "];
    for text in samples.iter() {
        let all = chars(text);
        let end = trimmed_end(&all, 0, all.len());
        let kept: String = all[..end].iter().collect();
        assert_eq!(kept, text.trim_end(), "{:?}", text);
    }
    let all = chars("  ab  ");
    assert_eq!(trimmed_end(&all, 3, 6), 4);
    assert_eq!(trimmed_end(&all, 4, 6), 4);
    assert_eq!(trimmed_end(&all, 0, 2), 0);
}

#[test]
fn patterns_are_matched_in_place() {
    let text = chars("abcabc");
    assert!(starts_at(&text, &chars("abc"), 0));
    assert!(starts_at(&text, &chars("abc"), 3));
    assert!(!starts_at(&text, &chars("abc"), 1));
    assert!(!starts_at(&text, &chars("abc"), 4));
    assert!(starts_at(&text, &chars(""), 6));
    assert!(!starts_at(&text, &chars("c"), 6));
    assert!(starts_at(&text, &chars("c"), 5));
}

#[test]
fn the_last_occurrence_is_found() {
    let text = chars("a.b.c.");
    let dot = chars(".");
    assert_eq!(find_last(&text, &dot, 0, 6), Some(5));
    assert_eq!(find_last(&text, &dot, 0, 5), Some(3));
    assert_eq!(find_last(&text, &dot, 4, 5), None);
    assert_eq!(find_last(&text, &dot, 2, 2), None);
    assert_eq!(find_last(&text, &chars("b.c"), 0, 6), Some(2));
    assert_eq!(find_last(&text, &chars("b.c"), 0, 4), None);
    assert_eq!(find_last(&text, &chars("a.b.c.!"), 0, 6), None);
}

#[test]
fn texts_are_compared_character_for_character() {
    assert!(same_text("", ""));
    assert!(same_text("日本", "日本"));
    assert!(!same_text("a", "b"));
    assert!(!same_text("a", "ab"));
    assert!(!same_text("ab", "a"));
}

#[test]
fn numbers_are_written_in_decimal() {
    for n in [0usize, 1, 9, 10, 11, 99, 100, 101, 2024, 65535, usize::MAX].iter() {
        let mut out = String::from("n=");
        push_decimal(&mut out, *n);
        assert_eq!(out, format!("n={}", n));
    }
    for d in 0..10usize {
        assert_eq!(digit_text(d), format!("{}", d));
    }
}

#[test]
fn numbers_are_read_within_their_bounds() {
    let text = chars("x+0042y");
    assert_eq!(parse_number(&text, 1, 6, 100), Some(42));
    assert_eq!(parse_number(&text, 2, 6, 100), Some(42));
    assert_eq!(parse_number(&text, 2, 6, 42), Some(42));
    assert_eq!(parse_number(&text, 2, 6, 41), None);
    assert_eq!(parse_number(&text, 2, 6, 0), None);
    assert_eq!(parse_number(&text, 2, 4, 0), Some(0));
    assert_eq!(parse_number(&text, 0, 6, 100), None);
    assert_eq!(parse_number(&text, 1, 7, 100), None);
    assert_eq!(parse_number(&text, 1, 2, 100), None);
    assert_eq!(parse_number(&text, 3, 3, 100), None);
}

#[test]
fn what_is_written_is_read_back() {
    for n in [0usize, 7, 10, 255, 256, 9999, 123456789, usize::MAX].iter() {
        let mut out = String::new();
        push_decimal(&mut out, *n);
        let all = chars(&out);
        assert_eq!(parse_number(&all, 0, all.len(), usize::MAX), Some(*n));
    }
}
