use transformer_oxide::encode::encode_from_merge_tree;
use transformer_oxide::encode::vocab_to_merge_tree;
use transformer_oxide::exceptions::TokenizerError;
use transformer_oxide::tokenizer::bpe_on_str;
use transformer_oxide::tokenizer::encode;
use transformer_oxide::vocab::Vocab;

#[test]
fn longest_match_wins() {
    // "hello" is emitted as the single deepest token, not "he" plus a rest.
    let mut vocab = Vocab::new();
    assert_eq!(vocab.add_entry(b"he".to_vec()), Some(256));
    assert_eq!(vocab.add_entry(b"ell".to_vec()), Some(257));
    assert_eq!(vocab.add_entry(b"hello".to_vec()), Some(258));
    let tree = vocab_to_merge_tree(&vocab).unwrap();
    let toks = encode_from_merge_tree("hello", tree).unwrap();
    assert_eq!(toks, vec![258]);
}

#[test]
fn literal_fallback() {
    // Bytes without any tokenized prefix come out as literal byte tokens.
    let mut vocab = Vocab::new();
    assert_eq!(vocab.add_entry(b"ab".to_vec()), Some(256));
    let tree = vocab_to_merge_tree(&vocab).unwrap();
    let toks = encode_from_merge_tree("xaby", tree).unwrap();
    assert_eq!(toks, vec![b'x' as u16, 256, b'y' as u16]);
}

#[test]
fn empty_input_fast_encode() {
    let vocab = Vocab::new();
    let tree = vocab_to_merge_tree(&vocab).unwrap();
    let toks = encode_from_merge_tree("", tree).unwrap();
    assert!(toks.is_empty());
}

#[test]
fn vocab_collision_rejected() {
    let mut vocab = Vocab::new();
    assert_eq!(vocab.add_entry(b"ab".to_vec()), Some(256));
    assert_eq!(vocab.add_entry(b"cd".to_vec()), Some(257));
    assert_eq!(vocab.add_entry(b"ab".to_vec()), Some(258));
    let r = vocab_to_merge_tree(&vocab);
    assert_eq!(r.err().unwrap(), TokenizerError::VocabCollision(b"ab".to_vec()));
}

#[test]
fn prefix_sharing_is_no_collision() {
    let mut vocab = Vocab::new();
    assert_eq!(vocab.add_entry(b"a".to_vec()), Some(256));
    assert_eq!(vocab.add_entry(b"ab".to_vec()), Some(257));
    assert_eq!(vocab.add_entry(b"abc".to_vec()), Some(258));
    assert!(vocab_to_merge_tree(&vocab).is_ok());
    let tree = vocab_to_merge_tree(&vocab).unwrap();
    assert_eq!(encode_from_merge_tree("ab", tree).unwrap(), vec![257]);
}

#[test]
fn fast_agrees_with_reference() {
    // On this corpus the trained vocabulary tokenizes the input the same way
    // under merge replay and under longest match.
    let input_str = "aaabdaaabac";
    let (merges, vocab) = bpe_on_str(input_str, 3).unwrap();
    let reference = encode(input_str, merges).unwrap();
    let tree = vocab_to_merge_tree(&vocab).unwrap();
    let fast = encode_from_merge_tree(input_str, tree).unwrap();
    let k = 4;
    assert!(reference.len() >= k && fast.len() >= k);
    assert_eq!(reference[..k], fast[..k]);
    assert_eq!(reference, fast);
}

#[test]
fn vocab_id_space_is_bounded() {
    // Ids run from 256 to 65535; the 65281st entry is refused.
    let mut vocab = Vocab::new();
    for i in 0..65280u32 {
        let b = [(i % 251) as u8, (i / 251) as u8, 1u8];
        assert_eq!(vocab.add_entry(b.to_vec()), Some((256 + i) as u16));
    }
    assert_eq!(vocab.add_entry(b"zz".to_vec()), None);
    assert_eq!(vocab.len(), 65280);
}

#[test]
fn vocab_rejects_empty_entry_and_reports_ids() {
    let mut vocab = Vocab::new();
    assert_eq!(vocab.add_entry(Vec::new()), None);
    assert_eq!(vocab.len(), 0);
    assert_eq!(vocab.add_entry(b"xy".to_vec()), Some(256));
    assert_eq!(vocab.get(256).unwrap().as_slice(), b"xy");
    assert!(vocab.get(255).is_none());
    assert!(vocab.get(257).is_none());
}
