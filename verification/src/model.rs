//! The mathematical model of the tokenizer: token expansion, the merge-rule
//! rewriting step, the reference encoding relation, and well-formedness of the
//! trained artifacts (merge list and vocabulary).

use vstd::prelude::*;

verus! {

/// A merge rule `((left, right) -> new_id)`.
pub type MergeRule = ((u16, u16), u16);

/// The input bytes widened to token ids (every byte is the token of the same value).
pub open spec fn widen(bytes: Seq<u8>) -> Seq<u16> {
    bytes.map_values(|b: u8| b as u16)
}

/// A token is known under a vocabulary with `n_entries` learned entries if it
/// is a byte token or one of the learned ids `256..256+n_entries`.
pub open spec fn token_known(n_entries: int, t: u16) -> bool {
    t < 256 || t - 256 < n_entries
}

/// Every token of `s` is known under a vocabulary with `n_entries` entries.
pub open spec fn all_known(n_entries: int, s: Seq<u16>) -> bool {
    forall|i: int| 0 <= i < s.len() ==> token_known(n_entries, #[trigger] s[i])
}

/// The bytes one token stands for: the byte itself for ids below 256, the
/// stored entry otherwise. The entry for id `256 + k` sits at index `k`.
pub open spec fn token_expand(vocab: Seq<Seq<u8>>, t: u16) -> Seq<u8> {
    if t < 256 {
        seq![t as u8]
    } else {
        vocab[t - 256]
    }
}

/// The bytes a token sequence stands for: each token's expansion, concatenated.
pub open spec fn expand_seq(vocab: Seq<Seq<u8>>, s: Seq<u16>) -> Seq<u8>
    decreases s.len(),
{
    if s.len() == 0 {
        Seq::empty()
    } else {
        token_expand(vocab, s[0]) + expand_seq(vocab, s.skip(1))
    }
}

/// One left-to-right, non-overlapping pass replacing each adjacent pair
/// `(a, b)` by `t`. After a replacement the scan continues at the new token,
/// so the fresh `t` is itself considered as a left partner of what follows,
/// but never looks back at the token before it.
pub open spec fn merge_step(s: Seq<u16>, a: u16, b: u16, t: u16) -> Seq<u16>
    decreases s.len(),
{
    if s.len() < 2 {
        s
    } else if s[0] == a && s[1] == b {
        merge_step(seq![t] + s.skip(2), a, b, t)
    } else {
        seq![s[0]] + merge_step(s.skip(1), a, b, t)
    }
}

/// The token sequence after replaying the merge rules from index `k` on, in order.
pub open spec fn encode_upto(s: Seq<u16>, merges: Seq<MergeRule>, k: int) -> Seq<u16>
    decreases merges.len() - k,
{
    if k < 0 || k >= merges.len() {
        s
    } else {
        encode_upto(merge_step(s, merges[k].0.0, merges[k].0.1, merges[k].1), merges, k + 1)
    }
}

/// The reference encoding: replay every merge rule, in order, over `s`.
pub open spec fn encode_merges(s: Seq<u16>, merges: Seq<MergeRule>) -> Seq<u16> {
    encode_upto(s, merges, 0)
}

/// The i-th learned rule allocates id exactly `256 + i`.
pub open spec fn rule_ids_ok(merges: Seq<MergeRule>) -> bool {
    forall|k: int| 0 <= k < merges.len() ==> (#[trigger] merges[k]).1 == 256 + k
}

/// Each rule's left and right tokens were known before the rule was allocated,
/// so every new id is strictly greater than the ids it merges.
pub open spec fn rule_sides_ok(merges: Seq<MergeRule>) -> bool {
    forall|k: int| 0 <= k < merges.len()
        ==> token_known(k, (#[trigger] merges[k]).0.0) && token_known(k, merges[k].0.1)
}

/// The vocabulary stores, for every rule, the concatenated expansions of the
/// rule's two sides.
pub open spec fn vocab_matches(merges: Seq<MergeRule>, vocab: Seq<Seq<u8>>) -> bool {
    &&& vocab.len() == merges.len()
    &&& forall|k: int| 0 <= k < merges.len()
        ==> #[trigger] vocab[k]
            == token_expand(vocab, merges[k].0.0) + token_expand(vocab, merges[k].0.1)
}

/// Well-formedness of trained artifacts: ids are allocated densely in order,
/// every rule references only earlier ids, and the vocabulary is consistent
/// with the rules.
pub open spec fn wf_artifacts(merges: Seq<MergeRule>, vocab: Seq<Seq<u8>>) -> bool {
    rule_ids_ok(merges) && rule_sides_ok(merges) && vocab_matches(merges, vocab)
}

/// Expansion distributes over concatenation.
pub proof fn lemma_expand_seq_add(vocab: Seq<Seq<u8>>, s1: Seq<u16>, s2: Seq<u16>)
    ensures
        expand_seq(vocab, s1 + s2) == expand_seq(vocab, s1) + expand_seq(vocab, s2),
    decreases s1.len(),
{
    if s1.len() == 0 {
        assert(s1 + s2 =~= s2);
        assert(expand_seq(vocab, s1) + expand_seq(vocab, s2) =~= expand_seq(vocab, s2));
    } else {
        assert((s1 + s2).skip(1) =~= s1.skip(1) + s2);
        lemma_expand_seq_add(vocab, s1.skip(1), s2);
        assert(expand_seq(vocab, s1 + s2) =~= expand_seq(vocab, s1) + expand_seq(vocab, s2));
    }
}

/// A token known among the first `n` entries is known among more.
pub proof fn lemma_known_mono(n1: int, n2: int, s: Seq<u16>)
    requires
        all_known(n1, s),
        n1 <= n2,
    ensures
        all_known(n2, s),
{
}

/// A merge step only introduces the new token `t`.
pub proof fn lemma_merge_step_known(n: int, s: Seq<u16>, a: u16, b: u16, t: u16)
    requires
        all_known(n, s),
        token_known(n, t),
    ensures
        all_known(n, merge_step(s, a, b, t)),
    decreases s.len(),
{
    if s.len() < 2 {
    } else if s[0] == a && s[1] == b {
        let s2 = seq![t] + s.skip(2);
        assert forall|i: int| 0 <= i < s2.len() implies token_known(n, #[trigger] s2[i]) by {
            if i > 0 {
                assert(s2[i] == s[i + 1]);
            }
        }
        lemma_merge_step_known(n, s2, a, b, t);
    } else {
        assert(all_known(n, s.skip(1)));
        lemma_merge_step_known(n, s.skip(1), a, b, t);
        let r = seq![s[0]] + merge_step(s.skip(1), a, b, t);
        assert forall|i: int| 0 <= i < r.len() implies token_known(n, #[trigger] r[i]) by {
            if i > 0 {
                assert(r[i] == merge_step(s.skip(1), a, b, t)[i - 1]);
            }
        }
    }
}

/// A merge pass never lengthens a token sequence and never empties a
/// non-empty one.
pub proof fn lemma_merge_step_len(s: Seq<u16>, a: u16, b: u16, t: u16)
    ensures
        merge_step(s, a, b, t).len() <= s.len(),
        s.len() >= 1 ==> merge_step(s, a, b, t).len() >= 1,
    decreases s.len(),
{
    if s.len() < 2 {
    } else if s[0] == a && s[1] == b {
        lemma_merge_step_len(seq![t] + s.skip(2), a, b, t);
    } else {
        lemma_merge_step_len(s.skip(1), a, b, t);
    }
}

/// A merge step preserves what the token sequence stands for, provided the
/// new token expands to the concatenation of the pair it replaces.
pub proof fn lemma_merge_step_expand(vocab: Seq<Seq<u8>>, s: Seq<u16>, a: u16, b: u16, t: u16)
    requires
        token_expand(vocab, t) == token_expand(vocab, a) + token_expand(vocab, b),
    ensures
        expand_seq(vocab, merge_step(s, a, b, t)) == expand_seq(vocab, s),
    decreases s.len(),
{
    if s.len() < 2 {
    } else if s[0] == a && s[1] == b {
        let s2 = seq![t] + s.skip(2);
        lemma_merge_step_expand(vocab, s2, a, b, t);
        assert(s2.skip(1) =~= s.skip(2));
        assert(s.skip(1).skip(1) =~= s.skip(2));
        assert(s.skip(1)[0] == s[1]);
        assert(expand_seq(vocab, s2) == token_expand(vocab, t) + expand_seq(vocab, s.skip(2)));
        assert(expand_seq(vocab, s.skip(1)) == token_expand(vocab, s[1]) + expand_seq(
            vocab,
            s.skip(1).skip(1),
        ));
        assert(expand_seq(vocab, s) == token_expand(vocab, a) + (token_expand(vocab, b)
            + expand_seq(vocab, s.skip(2))));
        assert((token_expand(vocab, a) + token_expand(vocab, b)) + expand_seq(vocab, s.skip(2))
            =~= token_expand(vocab, a) + (token_expand(vocab, b) + expand_seq(vocab, s.skip(2))));
    } else {
        lemma_merge_step_expand(vocab, s.skip(1), a, b, t);
        let r = seq![s[0]] + merge_step(s.skip(1), a, b, t);
        assert(r.skip(1) =~= merge_step(s.skip(1), a, b, t));
        assert(r[0] == s[0]);
    }
}

/// Replaying well-formed rules from index `k` on preserves what the tokens
/// stand for, and every output token is known under the full vocabulary.
pub proof fn lemma_encode_upto_expand(
    vocab: Seq<Seq<u8>>,
    merges: Seq<MergeRule>,
    s: Seq<u16>,
    k: int,
)
    requires
        wf_artifacts(merges, vocab),
        0 <= k <= merges.len(),
        all_known(k, s),
    ensures
        all_known(vocab.len() as int, encode_upto(s, merges, k)),
        expand_seq(vocab, encode_upto(s, merges, k)) == expand_seq(vocab, s),
    decreases merges.len() - k,
{
    if k >= merges.len() {
    } else {
        let a = merges[k].0.0;
        let b = merges[k].0.1;
        let t = merges[k].1;
        assert(t == 256 + k);
        assert(token_expand(vocab, t) == vocab[k]);
        lemma_known_mono(k, k + 1, s);
        lemma_merge_step_known(k + 1, s, a, b, t);
        lemma_merge_step_expand(vocab, s, a, b, t);
        lemma_encode_upto_expand(vocab, merges, merge_step(s, a, b, t), k + 1);
    }
}

/// Law (round trip): under well-formed trained artifacts, the reference
/// encoding of any byte sequence expands back to exactly those bytes, and
/// every token it emits is known to the vocabulary, so decoding it succeeds
/// and returns the original byte sequence.
pub proof fn lemma_round_trip(bytes: Seq<u8>, merges: Seq<MergeRule>, vocab: Seq<Seq<u8>>)
    requires
        wf_artifacts(merges, vocab),
    ensures
        all_known(vocab.len() as int, encode_merges(widen(bytes), merges)),
        expand_seq(vocab, encode_merges(widen(bytes), merges)) == bytes,
{
    assert forall|i: int| 0 <= i < widen(bytes).len() implies token_known(
        0,
        #[trigger] widen(bytes)[i],
    ) by {
        assert(widen(bytes)[i] == bytes[i] as u16);
    }
    lemma_encode_upto_expand(vocab, merges, widen(bytes), 0);
    lemma_widen_expand(vocab, bytes);
}

/// Law (idempotence of encode): any token sequence the reference encoder
/// produced under well-formed artifacts re-encodes to itself after decoding.
pub proof fn lemma_encode_idempotent(
    bytes: Seq<u8>,
    merges: Seq<MergeRule>,
    vocab: Seq<Seq<u8>>,
    toks: Seq<u16>,
)
    requires
        wf_artifacts(merges, vocab),
        toks == encode_merges(widen(bytes), merges),
    ensures
        encode_merges(widen(expand_seq(vocab, toks)), merges) == toks,
{
    lemma_round_trip(bytes, merges, vocab);
}

/// Widened bytes expand back to the bytes themselves.
pub proof fn lemma_widen_expand(vocab: Seq<Seq<u8>>, bytes: Seq<u8>)
    ensures
        expand_seq(vocab, widen(bytes)) == bytes,
    decreases bytes.len(),
{
    if bytes.len() == 0 {
        assert(expand_seq(vocab, widen(bytes)) =~= bytes);
    } else {
        lemma_widen_expand(vocab, bytes.skip(1));
        assert(widen(bytes).skip(1) =~= widen(bytes.skip(1)));
        assert(expand_seq(vocab, widen(bytes)) =~= bytes);
    }
}

} // verus!
