use novelai_api::api::process_string_for_voice_generation;

const CEILING: usize = 1000;

fn concat(segments: &[String]) -> String {
    let mut all = String::new();
    for s in segments {
        all.push_str(s);
    }
    all
}

fn assert_common_laws(input: &str, segments: &[String]) {
    // The sequence is never empty, even for empty input.
    assert!(!segments.is_empty());
    // Delimiter-preserving policy: concatenation reconstructs the input,
    // which also pins the left-to-right order of the segments.
    assert_eq!(concat(segments), input);
    // Greedy re-merge is maximal: no two adjacent segments could be joined
    // while staying under the ceiling.
    for pair in segments.windows(2) {
        assert!(pair[0].len() + pair[1].len() >= CEILING);
    }
}

#[test]
fn short_input_is_returned_unchanged() {
    let input = "b".repeat(500);
    let segments = process_string_for_voice_generation(&input);
    assert_eq!(segments, vec![input.clone()]);
    assert_common_laws(&input, &segments);
}

#[test]
fn input_at_the_ceiling_is_returned_unchanged() {
    let input = "c".repeat(1000);
    let segments = process_string_for_voice_generation(&input);
    assert_eq!(segments, vec![input.clone()]);
}

#[test]
fn short_input_with_delimiters_is_returned_unchanged() {
    let input = "One. Two? Three! Four, five...\n\nSix.";
    let segments = process_string_for_voice_generation(input);
    assert_eq!(segments, vec![input.to_string()]);
}

#[test]
fn empty_input_gives_one_empty_segment() {
    let segments = process_string_for_voice_generation("");
    assert_eq!(segments, vec![String::new()]);
}

#[test]
fn plain_prose_splits_into_two_segments_at_sentence_boundaries() {
    // 15 sentences of 100 bytes each: 98 characters and then ". ".
    let sentence = format!("{}. ", "s".repeat(98));
    let input = sentence.repeat(15);
    assert_eq!(input.len(), 1500);
    let segments = process_string_for_voice_generation(&input);
    // The greedy re-merge packs ten sentences and nine delimiters into
    // the first segment (998 bytes); the tenth delimiter would reach the
    // ceiling, so the break falls at that sentence boundary and the
    // second segment resumes with the kept delimiter (502 bytes).
    let expected_first = format!(
        "{}{}",
        "s".repeat(98),
        format!(". {}", "s".repeat(98)).repeat(9)
    );
    let expected_second = format!(". {}", sentence.repeat(5));
    assert_eq!(segments, vec![expected_first, expected_second]);
    for s in &segments {
        assert!(s.len() < CEILING);
    }
    assert_common_laws(&input, &segments);
}

#[test]
fn single_long_word_is_one_oversized_segment() {
    let input = "w".repeat(2000);
    let segments = process_string_for_voice_generation(&input);
    assert_eq!(segments, vec![input.clone()]);
    assert_eq!(segments[0].len(), 2000);
}

#[test]
fn two_paragraphs_split_at_the_blank_line() {
    let para_one = "x".repeat(600);
    let para_two = "y".repeat(600);
    let input = format!("{}\n\n{}", para_one, para_two);
    let segments = process_string_for_voice_generation(&input);
    assert_eq!(segments, vec![format!("{}\n\n", para_one), para_two]);
    assert_common_laws(&input, &segments);
}

#[test]
fn comma_is_a_split_point() {
    let input = format!("{},{}", "a".repeat(600), "b".repeat(599));
    let segments = process_string_for_voice_generation(&input);
    assert_eq!(
        segments,
        vec![format!("{},", "a".repeat(600)), "b".repeat(599)]
    );
}

#[test]
fn single_newline_is_a_split_point() {
    let input = format!("{}\n{}", "a".repeat(600), "b".repeat(600));
    let segments = process_string_for_voice_generation(&input);
    assert_eq!(
        segments,
        vec![format!("{}\n", "a".repeat(600)), "b".repeat(600)]
    );
}

#[test]
fn ascii_ellipsis_is_a_split_point() {
    let input = format!("{}...{}", "a".repeat(600), "b".repeat(600));
    let segments = process_string_for_voice_generation(&input);
    assert_eq!(
        segments,
        vec![format!("{}...", "a".repeat(600)), "b".repeat(600)]
    );
}

#[test]
fn unicode_ellipsis_is_a_split_point() {
    let input = format!("{}\u{2026}{}", "a".repeat(600), "b".repeat(600));
    let segments = process_string_for_voice_generation(&input);
    assert_eq!(
        segments,
        vec![format!("{}\u{2026}", "a".repeat(600)), "b".repeat(600)]
    );
}

#[test]
fn question_mark_before_space_is_a_split_point() {
    let input = format!("{}? {}", "a".repeat(500), "b".repeat(600));
    let segments = process_string_for_voice_generation(&input);
    assert_eq!(
        segments,
        vec![format!("{}? ", "a".repeat(500)), "b".repeat(600)]
    );
}

#[test]
fn exclamation_before_quote_is_a_split_point() {
    let input = format!("{}!\"{}", "a".repeat(500), "b".repeat(600));
    let segments = process_string_for_voice_generation(&input);
    assert_eq!(
        segments,
        vec![format!("{}!\"", "a".repeat(500)), "b".repeat(600)]
    );
}

#[test]
fn comma_wins_over_comma_quote() {
    // The pattern table tries "," before ",\"", so the comma alone is the
    // delimiter and the quote opens the following piece.
    let input = format!("{},\"{}", "a".repeat(600), "b".repeat(600));
    let segments = process_string_for_voice_generation(&input);
    assert_eq!(
        segments,
        vec![format!("{},", "a".repeat(600)), format!("\"{}", "b".repeat(600))]
    );
}

#[test]
fn ceiling_is_measured_in_bytes_not_characters() {
    // 400 two-byte characters, a space, then 400 more: 1601 bytes in 801
    // characters.  The wrap must break at the space because the *byte*
    // count exceeds the ceiling.
    let word = "\u{e9}".repeat(400);
    let input = format!("{} {}", word, word);
    assert_eq!(input.len(), 1601);
    let segments = process_string_for_voice_generation(&input);
    assert_eq!(segments, vec![format!("{} ", word), word.clone()]);
    assert!(segments[0].len() < CEILING && segments[1].len() < CEILING);
    assert_common_laws(&input, &segments);
}

#[test]
fn multibyte_input_at_the_byte_ceiling_is_returned_unchanged() {
    // 500 two-byte characters: exactly 1000 bytes, the fast-path boundary.
    let input = "\u{e9}".repeat(500);
    assert_eq!(input.len(), 1000);
    let segments = process_string_for_voice_generation(&input);
    assert_eq!(segments, vec![input.clone()]);
}

#[test]
fn multibyte_word_just_over_the_ceiling_is_one_oversized_segment() {
    // 501 two-byte characters: 1002 bytes, over the ceiling, but with no
    // boundary and no whitespace nothing can split it.
    let input = "\u{e9}".repeat(501);
    assert_eq!(input.len(), 1002);
    let segments = process_string_for_voice_generation(&input);
    assert_eq!(segments, vec![input.clone()]);
}

#[test]
fn leading_delimiter_becomes_its_own_segment() {
    let input = format!(",{}", "a".repeat(1100));
    let segments = process_string_for_voice_generation(&input);
    assert_eq!(segments, vec![",".to_string(), "a".repeat(1100)]);
    assert_common_laws(&input, &segments);
}

#[test]
fn wordwrap_splits_delimiter_free_text_between_words() {
    // 2100 bytes of words with no natural boundaries: only the word-wrap
    // fallback can split, and every break keeps the whitespace.
    let word = format!("{} ", "m".repeat(99));
    let input = word.repeat(21);
    assert_eq!(input.len(), 2100);
    let segments = process_string_for_voice_generation(&input);
    assert_eq!(segments.len(), 3);
    for s in &segments {
        assert!(s.len() < CEILING);
    }
    assert_common_laws(&input, &segments);
}

#[test]
fn long_whitespace_run_is_split_not_passed_through_oversized() {
    // 500 a's, 600 spaces, 600 b's: 1700 bytes with no delimiter.  The
    // wrap may break inside the space run, so no segment reaches the
    // ceiling even though no single word does either.
    let input = format!("{}{}{}", "a".repeat(500), " ".repeat(600), "b".repeat(600));
    let segments = process_string_for_voice_generation(&input);
    for s in &segments {
        assert!(s.len() < CEILING);
    }
    assert_eq!(segments.len(), 2);
    assert_common_laws(&input, &segments);
}

#[test]
fn oversized_word_does_not_carry_its_trailing_space() {
    // The only segment allowed over the ceiling is a whitespace-free
    // token; the space after it becomes its own piece.
    let input = format!("{} ", "x".repeat(1000));
    let segments = process_string_for_voice_generation(&input);
    assert_eq!(segments, vec!["x".repeat(1000), " ".to_string()]);
    assert!(segments[0].chars().all(|c| !c.is_whitespace()));
    assert_common_laws(&input, &segments);
}

#[test]
fn pure_whitespace_input_is_split_under_the_ceiling() {
    let input = " ".repeat(2500);
    let segments = process_string_for_voice_generation(&input);
    for s in &segments {
        assert!(s.len() < CEILING);
    }
    assert_eq!(segments.len(), 3);
    assert_common_laws(&input, &segments);
}

#[test]
fn mixed_delimiters_reconstruct_and_respect_ceiling() {
    let input = format!(
        "{}, {}. {}\n\n{}... {}? \"{}!\" {}",
        "a".repeat(300),
        "b".repeat(400),
        "c".repeat(350),
        "d".repeat(500),
        "e".repeat(450),
        "f".repeat(200),
        "g".repeat(100)
    );
    assert!(input.len() > CEILING);
    let segments = process_string_for_voice_generation(&input);
    for s in &segments {
        assert!(s.len() < CEILING);
        assert!(!s.is_empty());
    }
    assert_common_laws(&input, &segments);
}

#[test]
fn oversized_word_between_sentences_is_passed_through() {
    let input = format!("{}. {}. {}", "a".repeat(300), "w".repeat(1200), "b".repeat(300));
    let segments = process_string_for_voice_generation(&input);
    // The unsplittable 1200-byte word must survive as one oversized
    // segment; everything else stays under the ceiling.
    assert!(segments.iter().any(|s| s.len() >= CEILING && s.contains(&"w".repeat(1200))));
    for s in segments.iter().filter(|s| !s.contains(&"w".repeat(1200))) {
        assert!(s.len() < CEILING);
    }
    assert_common_laws(&input, &segments);
}
