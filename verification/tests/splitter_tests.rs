use transformer_oxide::utils::to_word_tokens;

#[test]
fn test_split() {
    // Make sure our splitting function works ok
    let split_byte: u8 = b' ';

    // Check a repeated string with a space before
    let n_repeats: u32 = 6;
    let input_to_repeat = " hi";
    let input_str = input_to_repeat.repeat(n_repeats as usize);
    let word_tokens = to_word_tokens(input_str.bytes().collect(), split_byte);
    assert_eq!(word_tokens.len(), 1);
    let word_bytes: Vec<u16> = input_to_repeat.bytes().map(|v| v as u16).collect();
    let entry = word_tokens.iter().find(|(w, _)| *w == word_bytes).unwrap();
    assert_eq!(entry.1, n_repeats);

    // Check another word gets added in ok
    let input_str = format!("hi{input_str}");
    assert_eq!(to_word_tokens(input_str.bytes().collect(), split_byte).len(), 2);
}

#[test]
fn split_keeps_leading_space() {
    // A leading separator stays on the word it opens.
    let words = to_word_tokens(b" hi hi".to_vec(), b' ');
    let total: u32 = words.iter().map(|(_, c)| *c).sum();
    assert_eq!(total, 2);
    for (tokens, _) in words.iter() {
        assert_eq!(tokens[0], b' ' as u16);
    }
}

#[test]
fn split_conserves_bytes() {
    // Every input byte lands in exactly one word occurrence.
    let input = b"one two  three two one".to_vec();
    let n = input.len();
    let words = to_word_tokens(input, b' ');
    let weighted: usize = words
        .iter()
        .map(|(tokens, count)| tokens.len() * (*count as usize))
        .sum();
    assert_eq!(weighted, n);
}
