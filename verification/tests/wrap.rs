use scrambler::definition::Twist;
use scrambler::wrap::{wrap_lines, wrap_words, WRAP_WIDTH};

fn twists(tokens: &[&str]) -> Vec<Twist> {
    tokens.iter().map(|t| Twist(t.to_string())).collect()
}

#[test]
fn no_words_no_lines() {
    assert_eq!(wrap_lines(&[]), Vec::<String>::new());
    assert_eq!(wrap_words(&[]), "");
}

#[test]
fn one_word_one_line() {
    assert_eq!(wrap_lines(&twists(&["R"])), vec!["R"]);
    assert_eq!(wrap_words(&twists(&["R"])), "R");
}

#[test]
fn words_are_joined_by_single_spaces() {
    assert_eq!(wrap_words(&twists(&["R", "U'", "F2"])), "R U' F2");
}

#[test]
fn a_line_of_exactly_the_width_is_not_broken() {
    let words = twists(&["abcdefghi"; 7]);
    let line = ["abcdefghi"; 7].join(" ");
    assert_eq!(line.len(), 69);
    assert_eq!(wrap_lines(&words), vec![line.clone()]);

    let mut words = twists(&["abcdefghi"; 6]);
    words.push(Twist("0123456789".to_string()));
    let line = format!("{} 0123456789", ["abcdefghi"; 6].join(" "));
    assert_eq!(line.len(), WRAP_WIDTH);
    assert_eq!(wrap_lines(&words), vec![line]);
}

#[test]
fn a_word_that_would_pass_the_width_opens_a_line() {
    let mut words = twists(&["abcdefghi"; 6]);
    words.push(Twist("0123456789X".to_string()));
    words.push(Twist("y".to_string()));
    assert_eq!(
        wrap_words(&words),
        format!("{}\n0123456789X y", ["abcdefghi"; 6].join(" "))
    );
}

#[test]
fn a_long_scramble_wraps_at_seventy() {
    let words = twists(&["R2"; 60]);
    let full = ["R2"; 23].join(" ");
    assert_eq!(full.len(), 68);
    let rest = ["R2"; 14].join(" ");
    assert_eq!(wrap_lines(&words), vec![full.clone(), full.clone(), rest.clone()]);
    assert_eq!(wrap_words(&words), format!("{full}\n{full}\n{rest}"));
}

#[test]
fn a_word_wider_than_the_line_stands_alone_and_whole() {
    let wide = "w".repeat(WRAP_WIDTH + 1);
    let words = twists(&["a", &wide, "b", &wide, &wide]);
    assert_eq!(
        wrap_lines(&words),
        vec!["a".to_string(), wide.clone(), "b".to_string(), wide.clone(), wide.clone()]
    );
    assert_eq!(wrap_words(&twists(&[&wide])), wide);
}

#[test]
fn a_word_of_exactly_the_width_stands_alone() {
    let wide = "w".repeat(WRAP_WIDTH);
    let words = twists(&["a", &wide, "b"]);
    assert_eq!(wrap_lines(&words), vec!["a".to_string(), wide, "b".to_string()]);
}

#[test]
fn width_counts_bytes_as_str_len_does() {
    let words = twists(&["é"; 40]);
    let full = ["é"; 23].join(" ");
    assert_eq!(full.len(), 68);
    assert_eq!(full.chars().count(), 45);
    assert_eq!(wrap_lines(&words), vec![full, ["é"; 17].join(" ")]);
}

#[test]
fn a_word_wide_in_bytes_stands_alone() {
    let wide = "é".repeat(36);
    assert_eq!(wide.len(), 72);
    let words = twists(&["a", &wide, "b"]);
    assert_eq!(wrap_lines(&words), vec!["a".to_string(), wide, "b".to_string()]);
}

#[test]
fn an_empty_word_still_gets_its_space() {
    assert_eq!(wrap_words(&twists(&["", "a", "", "b"])), " a  b");
    assert_eq!(wrap_lines(&twists(&[""])), vec![""]);
}

#[test]
fn no_line_is_wider_than_the_limit_unless_it_is_one_word() {
    let mut tokens: Vec<String> = Vec::new();
    let mut seed: u32 = 12345;
    for _ in 0..500 {
        seed = seed.wrapping_mul(1103515245).wrapping_add(12345);
        let len = 1 + (seed >> 16) as usize % 90;
        let letter = ["x", "é", "漢", "🙂"][(seed >> 8) as usize % 4];
        tokens.push(letter.repeat(len.div_ceil(letter.len())));
    }
    let words: Vec<Twist> = tokens.iter().map(|t| Twist(t.clone())).collect();
    let lines = wrap_lines(&words);
    let mut seen: Vec<&str> = Vec::new();
    for (i, line) in lines.iter().enumerate() {
        let parts: Vec<&str> = line.split(' ').collect();
        assert!(line.len() <= WRAP_WIDTH || parts.len() == 1);
        assert!(line.chars().count() <= WRAP_WIDTH || parts.len() == 1);
        if i > 0 {
            assert!(lines[i - 1].len() + 1 + parts[0].len() > WRAP_WIDTH);
        }
        seen.extend(parts);
    }
    let expected: Vec<&str> = tokens.iter().map(|t| t.as_str()).collect();
    assert_eq!(seen, expected);
}

#[test]
fn the_tokens_of_a_wrapped_text_are_the_words() {
    let tokens: Vec<String> = (1..200).map(|i| "R2'".repeat(1 + i % 30)).collect();
    let words: Vec<Twist> = tokens.iter().map(|t| Twist(t.clone())).collect();
    let text = wrap_words(&words);
    let read: Vec<&str> = text.split_whitespace().collect();
    assert_eq!(read, tokens);
    assert!(text.lines().count() > 1);
}
