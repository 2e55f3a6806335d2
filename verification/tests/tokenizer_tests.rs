use std::collections::HashSet;

use transformer_oxide::exceptions::TokenizerError;
use transformer_oxide::tokenizer::bpe;
use transformer_oxide::tokenizer::bpe_on_str;
use transformer_oxide::tokenizer::decode;
use transformer_oxide::tokenizer::decode_utf8;
use transformer_oxide::tokenizer::encode;
use transformer_oxide::vocab::Vocab;

fn vocab_strings(vocab: &Vocab) -> HashSet<String> {
    let mut words = HashSet::new();
    for i in 0..vocab.len() {
        let id = 256 + i as u16;
        if let Some(bytes) = vocab.get(id) {
            if let Ok(s) = std::str::from_utf8(bytes) {
                words.insert(s.to_owned());
            }
        }
    }
    words
}

#[test]
fn test_encode() {
    // A simple test to make sure that common words get encoded
    let target_word = "sausages";

    let mut input_str = String::new();
    for char in "abcdefghijklm".chars() {
        input_str.push_str(target_word);
        input_str.push(char);
    }
    let (_, vocab) = bpe_on_str(&input_str, (target_word.len() - 2) as u32).unwrap();

    let vocab_words = vocab_strings(&vocab);
    assert!(vocab_words.contains(target_word));
}

#[test]
fn tokenizer_tests_test_encode() {
    let target_word = "sausages";

    let mut input_str = String::new();
    for char in "abcdefghijklm".chars() {
        input_str.push_str(target_word);
        input_str.push(char);
    }
    let (_, vocab) = bpe_on_str(&input_str, (target_word.len() - 2) as u32).unwrap();

    let vocab_words = vocab_strings(&vocab);
    assert!(vocab_words.contains(target_word));
}

#[test]
fn test_roudtrip() {
    let input_str = "Hi hi, hello silly eggs and sausages and pickle and kettle chips yahooo what a large elephant";
    let (merges, vocab) = bpe_on_str(input_str, 10).unwrap();
    assert_eq!(
        input_str,
        decode_utf8(&encode(input_str, merges).unwrap(), &vocab).unwrap()
    );
}

#[test]
fn tokenizer_tests_test_roudtrip() {
    let input_str = "Hi hi, hello silly eggs and sausages and pickle and kettle chips yahooo what a large elephant";
    let (merges, vocab) = bpe_on_str(input_str, 10).unwrap();
    assert_eq!(
        input_str,
        decode_utf8(&encode(input_str, merges).unwrap(), &vocab).unwrap()
    );
}

#[test]
fn roundtrip_non_ascii() {
    let input_str = "héllo héllo héllo";
    let (merges, vocab) = bpe_on_str(input_str, 5).unwrap();
    let encoded = encode(input_str, merges).unwrap();
    assert_eq!(input_str, decode_utf8(&encoded, &vocab).unwrap());
    assert_eq!(input_str.as_bytes().to_vec(), decode(&encoded, &vocab).unwrap());
}

#[test]
fn roundtrip_raw_bytes() {
    // Arbitrary bytes, not valid UTF-8, survive a byte-level round trip.
    let input: Vec<u8> = vec![0, 255, 32, 254, 253, 32, 254, 253, 7];
    let (merges, vocab) = bpe(input.clone(), 4).unwrap();
    let encoded = transformer_oxide::tokenizer::encode_bytes(&input, &merges);
    assert_eq!(decode(&encoded, &vocab).unwrap(), input);
}

#[test]
fn training_scenario_aaabdaaabac() {
    let input_str = "aaabdaaabac";
    let (merges, vocab) = bpe_on_str(input_str, 3).unwrap();
    assert_eq!(merges.len(), 3);
    // The most frequent pair of the corpus is merged first.
    assert_eq!(merges[0], ((97, 97), 256));
    // Ids are allocated densely from 256 in rule order.
    for (i, rule) in merges.iter().enumerate() {
        assert_eq!(rule.1, 256 + i as u16);
    }
    // Each vocabulary entry is the concatenated expansion of its rule.
    assert_eq!(vocab.get(256).unwrap().as_slice(), b"aa");
    let encoded = encode(input_str, merges).unwrap();
    assert!(encoded.len() <= 6);
    assert_eq!(decode_utf8(&encoded, &vocab).unwrap(), input_str);
}

#[test]
fn training_scenario_hi_times_four() {
    let input_str = "hi hi hi hi";
    let (merges, vocab) = bpe_on_str(input_str, 10).unwrap();
    let encoded = encode(input_str, merges).unwrap();
    // Every " hi" collapses to one token, plus one token for the bare "hi".
    assert_eq!(encoded.len(), 4);
    assert_eq!(decode_utf8(&encoded, &vocab).unwrap(), input_str);
}

#[test]
fn training_empty_input() {
    let (merges, vocab) = bpe(Vec::new(), 5).unwrap();
    assert!(merges.is_empty());
    assert_eq!(vocab.len(), 0);
    let encoded = encode("", merges).unwrap();
    assert!(encoded.is_empty());
    assert_eq!(decode(&encoded, &vocab).unwrap(), Vec::<u8>::new());
}

#[test]
fn unknown_token_decode() {
    // A vocabulary holding ids 256..260; id 300 is unknown.
    let mut vocab = Vocab::new();
    assert_eq!(vocab.add_entry(b"ab".to_vec()), Some(256));
    assert_eq!(vocab.add_entry(b"cd".to_vec()), Some(257));
    assert_eq!(vocab.add_entry(b"ef".to_vec()), Some(258));
    assert_eq!(vocab.add_entry(b"gh".to_vec()), Some(259));
    let r = decode(&vec![97, 300], &vocab);
    assert_eq!(r, Err(TokenizerError::UnknownToken(300)));
}

#[test]
fn invalid_utf8_decode() {
    let mut vocab = Vocab::new();
    assert_eq!(vocab.add_entry(vec![0xff, 0xfe]), Some(256));
    // Raw-byte decoding never fails on known ids.
    assert_eq!(decode(&vec![256], &vocab).unwrap(), vec![0xff, 0xfe]);
    // Text decoding rejects the bytes.
    assert_eq!(decode_utf8(&vec![256], &vocab), Err(TokenizerError::InvalidUtf8));
}

#[test]
fn budget_exhausted() {
    let r = bpe(b"ab ab".to_vec(), 65281);
    assert!(matches!(r, Err(TokenizerError::BudgetExhausted)));
}

#[test]
fn monotone_merge_frequency() {
    // On this corpus, the occurrence count of each learned token, counting
    // the later rules that consume it, never increases along the merge
    // list. (A rule that merges a token with itself is counted once by this
    // accounting, so corpora with runs of one byte can break it.)
    let input_str = "aa bb aa bb aa cc bb dd aa ee aa bb cc";
    let (merges, _) = bpe_on_str(input_str, 6).unwrap();
    let encoded = encode(input_str, merges.clone()).unwrap();

    let mut totals: Vec<u32> = Vec::new();
    for (_, tok) in merges.iter() {
        let count = encoded.iter().filter(|t| **t == *tok).count() as u32;
        totals.push(count);
    }
    // Account for tokens consumed by later rules: walk rules backwards so a
    // consumer's own count is final before it is added to its parts.
    for k in (0..merges.len()).rev() {
        let ((left, right), _) = merges[k];
        for (m, (_, tok)) in merges.iter().enumerate() {
            if *tok == left {
                totals[m] += totals[k];
            }
            if *tok == right && left != right {
                totals[m] += totals[k];
            }
        }
    }
    for k in 1..totals.len() {
        assert!(totals[k - 1] >= totals[k]);
    }
}
