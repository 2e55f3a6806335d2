//! The byte-pair-encoding tokenizer: reference encoder and decoder.
//! The trainer lives here as well, built on the word splitter.

use vstd::prelude::*;

use crate::exceptions::TokenizerError;
use crate::model::MergeRule;
use crate::model::all_known;
use crate::model::encode_merges;
use crate::model::encode_upto;
use crate::model::expand_seq;
use crate::model::merge_step;
use crate::model::token_expand;
use crate::model::token_known;
use crate::model::widen;
use crate::model::rule_ids_ok;
use crate::model::rule_sides_ok;
use crate::model::wf_artifacts;
use crate::pairs::candidates;
use crate::pairs::pair_index;
use crate::pairs::pairs_view;
use crate::training::apply_rule_words;
use crate::training::run_batch;
use crate::training::run_rounds;
use crate::training::train_merges;
use crate::training::vocab_of;
use crate::utils::WordEntry;
use crate::utils::split_words;
use crate::utils::weighted_sum;
use crate::utils::wf_words;
use crate::utils::words_known;
use crate::utils::words_view;
use crate::vocab::Vocab;
use vstd::string::StrSliceExecFns;

verus! {

/// Whether `v` holds the token `t`.
fn contains_token(v: &Vec<u16>, t: u16) -> (r: bool)
    ensures
        r == v@.contains(t),
{
    let mut i: usize = 0;
    while i < v.len()
        invariant
            i <= v@.len(),
            forall|j: int| 0 <= j < i ==> v@[j] != t,
        decreases v@.len() - i,
    {
        if v[i] == t {
            return true;
        }
        i += 1;
    }
    proof {
        assert(!v@.contains(t));
    }
    false
}

/// Applies one merge rule to a token vector: a single left-to-right,
/// non-overlapping pass replacing each adjacent `(a, b)` by `t`.
pub(crate) fn apply_merge(tokens: &Vec<u16>, a: u16, b: u16, t: u16) -> (out: Vec<u16>)
    ensures
        out@ == merge_step(tokens@, a, b, t),
{
    let mut out: Vec<u16> = Vec::new();
    let mut i: usize = 0;
    proof {
        assert(tokens@.skip(0) =~= tokens@);
    }
    while i < tokens.len()
        invariant
            i <= tokens@.len(),
            merge_step(tokens@, a, b, t) == (if out@.len() == 0 {
                merge_step(tokens@.skip(i as int), a, b, t)
            } else {
                out@.drop_last() + merge_step(seq![out@.last()] + tokens@.skip(i as int), a, b, t)
            }),
        decreases tokens@.len() - i,
    {
        let ghost prev = out@;
        let ghost rest = tokens@.skip(i as int);
        let x = tokens[i];
        proof {
            assert(rest[0] == x);
            assert(rest.skip(1) =~= tokens@.skip(i as int + 1));
        }
        out.push(x);
        if out.len() >= 2 && out[out.len() - 2] == a && out[out.len() - 1] == b {
            let _popped_b = out.pop();
            let _popped_a = out.pop();
            out.push(t);
            proof {
                // The pair at the top of `out` was `(a, b)`; the merge spec
                // replaces the pair and rescans from the fresh `t`.
                assert(prev.len() >= 1 && prev.last() == a && x == b);
                let head = seq![prev.last()] + rest;
                assert(head.len() >= 2 && head[0] == a && head[1] == b);
                assert(head.skip(2) =~= tokens@.skip(i as int + 1));
                assert(merge_step(head, a, b, t) == merge_step(
                    seq![t] + tokens@.skip(i as int + 1),
                    a,
                    b,
                    t,
                ));
                assert(out@ =~= prev.drop_last().push(t));
                assert(out@.drop_last() =~= prev.drop_last());
                assert(out@.last() == t);
            }
        } else {
            proof {
                if prev.len() == 0 {
                    assert(rest =~= seq![x] + tokens@.skip(i as int + 1));
                    assert(out@ =~= seq![x]);
                    assert(out@.drop_last() =~= Seq::<u16>::empty());
                    assert(out@.drop_last() + merge_step(
                        seq![x] + tokens@.skip(i as int + 1),
                        a,
                        b,
                        t,
                    ) =~= merge_step(seq![x] + tokens@.skip(i as int + 1), a, b, t));
                } else {
                    let head = seq![prev.last()] + rest;
                    assert(head.len() >= 2 && head[0] == prev.last() && head[1] == x);
                    assert(!(head[0] == a && head[1] == b));
                    assert(head.skip(1) =~= seq![x] + tokens@.skip(i as int + 1));
                    assert(merge_step(head, a, b, t) == seq![prev.last()] + merge_step(
                        seq![x] + tokens@.skip(i as int + 1),
                        a,
                        b,
                        t,
                    ));
                    assert(out@ =~= prev.push(x));
                    assert(out@.drop_last() =~= prev);
                    assert(prev.drop_last() + (seq![prev.last()] + merge_step(
                        seq![x] + tokens@.skip(i as int + 1),
                        a,
                        b,
                        t,
                    )) =~= prev + merge_step(seq![x] + tokens@.skip(i as int + 1), a, b, t));
                }
            }
        }
        i += 1;
    }
    proof {
        assert(tokens@.skip(tokens@.len() as int) =~= Seq::<u16>::empty());
        if out@.len() > 0 {
            assert(merge_step(seq![out@.last()] + Seq::<u16>::empty(), a, b, t) =~= seq![
                out@.last(),
            ]);
            assert(out@.drop_last() + seq![out@.last()] =~= out@);
        }
    }
    out
}

/// Widens each input byte to its identity token id.
pub(crate) fn widen_bytes(bytes: &Vec<u8>) -> (out: Vec<u16>)
    ensures
        out@ == widen(bytes@),
{
    let mut out: Vec<u16> = Vec::new();
    let mut i: usize = 0;
    while i < bytes.len()
        invariant
            i <= bytes@.len(),
            out@.len() == i,
            forall|j: int| 0 <= j < i ==> out@[j] == bytes@[j] as u16,
        decreases bytes@.len() - i,
    {
        out.push(bytes[i] as u16);
        i += 1;
    }
    proof {
        assert(out@ =~= widen(bytes@));
    }
    out
}

/// The reference encoder over raw bytes: widen every byte to a token, then
/// replay each merge rule in order with non-overlapping left-to-right passes.
pub fn encode_bytes(bytes: &Vec<u8>, merges: &Vec<MergeRule>) -> (out: Vec<u16>)
    ensures
        out@ == encode_merges(widen(bytes@), merges@),
{
    let mut cur = widen_bytes(bytes);
    let ghost s0 = cur@;
    let mut k: usize = 0;
    while k < merges.len()
        invariant
            k <= merges@.len(),
            s0 == widen(bytes@),
            encode_upto(s0, merges@, 0) == encode_upto(cur@, merges@, k as int),
        decreases merges@.len() - k,
    {
        let rule = merges[k];
        let next = apply_merge(&cur, rule.0.0, rule.0.1, rule.1);
        cur = next;
        k += 1;
    }
    cur
}

/// The reference encoder: the bytes of `input_str`, widened to tokens, with
/// every merge rule replayed in order. Never fails.
pub fn encode(input_str: &str, merges: Vec<MergeRule>) -> (r: Result<Vec<u16>, TokenizerError>)
    ensures
        r matches Ok(toks) && toks@ == encode_merges(
            widen(vstd::utf8::encode_utf8(input_str@)),
            merges@,
        ),
{
    let bytes = input_str.as_bytes_vec();
    Ok(encode_bytes(&bytes, &merges))
}

/// Appends the bytes of `e` to `out`.
fn push_bytes(out: &mut Vec<u8>, e: &Vec<u8>)
    ensures
        final(out)@ == old(out)@ + e@,
{
    let mut j: usize = 0;
    while j < e.len()
        invariant
            j <= e@.len(),
            out@ == old(out)@ + e@.take(j as int),
        decreases e@.len() - j,
    {
        out.push(e[j]);
        proof {
            assert(e@.take(j as int).push(e@[j as int]) =~= e@.take(j as int + 1));
            assert((old(out)@ + e@.take(j as int)).push(e@[j as int]) =~= old(out)@ + e@.take(
                j as int + 1,
            ));
        }
        j += 1;
    }
    proof {
        assert(e@.take(e@.len() as int) =~= e@);
    }
}

/// Expands every token to its bytes via the vocabulary. Returns the exact
/// source bytes for any token sequence whose ids are all known; fails with
/// `UnknownToken` on the first id that is neither a byte nor in the vocabulary.
pub fn decode(encoded: &Vec<u16>, vocab: &Vocab) -> (r: Result<Vec<u8>, TokenizerError>)
    ensures
        r is Ok <==> all_known(vocab@.len() as int, encoded@),
        r matches Ok(bytes) ==> bytes@ == expand_seq(vocab@, encoded@),
        r matches Err(e) ==> exists|k: int|
            0 <= k < encoded@.len() && !token_known(vocab@.len() as int, #[trigger] encoded@[k])
                && (forall|j: int|
                0 <= j < k ==> token_known(vocab@.len() as int, #[trigger] encoded@[j])) && e
                == TokenizerError::UnknownToken(encoded@[k]),
{
    let n = vocab.len();
    let mut out: Vec<u8> = Vec::new();
    let mut i: usize = 0;
    while i < encoded.len()
        invariant
            i <= encoded@.len(),
            n == vocab@.len(),
            forall|j: int| 0 <= j < i ==> token_known(n as int, #[trigger] encoded@[j]),
            out@ == expand_seq(vocab@, encoded@.take(i as int)),
        decreases encoded@.len() - i,
    {
        let tok = encoded[i];
        let ghost prefix = encoded@.take(i as int);
        if tok < 256 {
            out.push(tok as u8);
            proof {
                lemma_expand_take_one_more(vocab@, encoded@, i as int);
                assert(out@ =~= expand_seq(vocab@, prefix) + token_expand(vocab@, tok));
            }
        } else {
            match vocab.get(tok) {
                Some(e) => {
                    push_bytes(&mut out, e);
                    proof {
                        lemma_expand_take_one_more(vocab@, encoded@, i as int);
                        assert(token_expand(vocab@, tok) == vocab@[tok - 256]);
                    }
                },
                None => {
                    proof {
                        assert(!token_known(n as int, encoded@[i as int]));
                    }
                    return Err(TokenizerError::UnknownToken(tok));
                },
            }
        }
        i += 1;
    }
    proof {
        assert(encoded@.take(encoded@.len() as int) =~= encoded@);
    }
    Ok(out)
}

/// Expanding one more token appends that token's bytes.
proof fn lemma_expand_take_one_more(vocab: Seq<Seq<u8>>, s: Seq<u16>, i: int)
    requires
        0 <= i < s.len(),
    ensures
        expand_seq(vocab, s.take(i + 1)) == expand_seq(vocab, s.take(i)) + token_expand(
            vocab,
            s[i],
        ),
{
    assert(s.take(i + 1) =~= s.take(i) + seq![s[i]]);
    crate::model::lemma_expand_seq_add(vocab, s.take(i), seq![s[i]]);
    assert(seq![s[i]].skip(1) =~= Seq::<u16>::empty());
    assert(expand_seq(vocab, seq![s[i]]) == token_expand(vocab, s[i]) + expand_seq(
        vocab,
        Seq::<u16>::empty(),
    ));
    assert(token_expand(vocab, s[i]) + Seq::<u8>::empty() =~= token_expand(vocab, s[i]));
}

/// The concatenated expansions of the two sides of a merge rule: the bytes
/// the freshly allocated token stands for.
fn expand_pair(vocab: &Vocab, a: u16, b: u16) -> (out: Vec<u8>)
    requires
        token_known(vocab@.len() as int, a),
        token_known(vocab@.len() as int, b),
    ensures
        out@ == token_expand(vocab@, a) + token_expand(vocab@, b),
        out@.len() >= 1,
{
    let mut out: Vec<u8> = Vec::new();
    if a < 256 {
        out.push(a as u8);
        proof {
            assert(out@ =~= token_expand(vocab@, a));
        }
    } else {
        let e = vocab.entry_at((a - 256) as usize);
        push_bytes(&mut out, e);
        proof {
            assert(out@ =~= token_expand(vocab@, a));
        }
    }
    let ghost first = out@;
    if b < 256 {
        out.push(b as u8);
        proof {
            assert(out@ =~= first + token_expand(vocab@, b));
        }
    } else {
        let e = vocab.entry_at((b - 256) as usize);
        push_bytes(&mut out, e);
    }
    out
}

/// Rewrites every word of the list with one merge rule.
fn apply_rule_exec(words: &Vec<(Vec<u16>, u32)>, a: u16, b: u16, t: u16) -> (out: Vec<
    (Vec<u16>, u32),
>)
    ensures
        words_view(out@) == apply_rule_words(words_view(words@), a, b, t),
{
    let mut out: Vec<(Vec<u16>, u32)> = Vec::new();
    let mut i: usize = 0;
    while i < words.len()
        invariant
            i <= words@.len(),
            out@.len() == i,
            forall|j: int|
                0 <= j < i ==> (#[trigger] out@[j]).0@ == merge_step(words@[j].0@, a, b, t)
                    && out@[j].1 == words@[j].1,
        decreases words@.len() - i,
    {
        let nt = apply_merge(&words[i].0, a, b, t);
        let c = words[i].1;
        out.push((nt, c));
        i += 1;
    }
    proof {
        assert(words_view(out@) =~= apply_rule_words(words_view(words@), a, b, t));
    }
    out
}

/// Trains a byte-pair encoding on `input_bytes`: splits the input into
/// space-delimited words, then repeatedly merges a conflict-free batch of
/// the most frequent adjacent pairs, allocating ids densely from 256, until
/// `n_merges` merges are applied or no pair is left. Returns the ordered
/// merge list and the vocabulary it determines; fails only when more merges
/// are requested than the 16-bit id space admits.
pub fn bpe(input_bytes: Vec<u8>, n_merges: u32) -> (r: Result<
    (Vec<MergeRule>, Vocab),
    TokenizerError,
>)
    requires
        input_bytes@.len() <= u32::MAX,
    ensures
        n_merges > 65280 ==> (r matches Err(e) && e == TokenizerError::BudgetExhausted),
        n_merges <= 65280 ==> (r matches Ok(p) && {
            &&& p.0@ == train_merges(input_bytes@, n_merges as nat)
            &&& p.1@ == vocab_of(p.0@)
            &&& wf_artifacts(p.0@, p.1@)
            &&& p.0@.len() <= n_merges
            &&& (input_bytes@.len() == 0 ==> p.0@.len() == 0)
        }),
{
    if n_merges > 65280 {
        return Err(TokenizerError::BudgetExhausted);
    }
    let ghost bytes0 = input_bytes@;
    let ghost budget = n_merges as nat;
    let mut words = crate::utils::to_word_tokens(input_bytes, 32u8);
    let ghost ws0 = words_view(words@);
    let mut merges: Vec<MergeRule> = Vec::new();
    let mut vocab = Vocab::new();
    proof {
        assert(merges@ =~= Seq::<MergeRule>::empty());
        assert(vocab_of(merges@) =~= Seq::<Seq<u8>>::empty());
    }
    while merges.len() < n_merges as usize
        invariant
            budget == n_merges as nat,
            budget <= 65280,
            ws0 == split_words(bytes0, 32u8),
            weighted_sum(ws0) == bytes0.len(),
            run_rounds(ws0, Seq::empty(), budget) == run_rounds(
                words_view(words@),
                merges@,
                budget,
            ),
            vocab@ == vocab_of(merges@),
            vocab@.len() == merges@.len(),
            rule_ids_ok(merges@),
            rule_sides_ok(merges@),
            wf_words(words_view(words@)),
            words_known(merges@.len() as int, words_view(words@)),
            weighted_sum(words_view(words@)) <= bytes0.len() <= u32::MAX,
            merges@.len() <= budget,
        ensures
            run_rounds(ws0, Seq::empty(), budget).1 == merges@,
            vocab@ == vocab_of(merges@),
            rule_ids_ok(merges@),
            rule_sides_ok(merges@),
            merges@.len() <= budget,
        decreases budget - merges@.len(),
    {
        let ghost ws_rs = words_view(words@);
        let ghost ms_rs = merges@;
        let pairs = crate::pairs::count_pairs(&words);
        if pairs.len() == 0 {
            proof {
                assert(pairs_view(pairs@) =~= Seq::<crate::pairs::PairEntry>::empty());
                assert(crate::pairs::max_pair_val(pair_index(ws_rs)) == 0nat);
                assert(candidates(pair_index(ws_rs)) =~= Seq::<(u16, u16)>::empty());
                assert(run_batch(ws_rs, ms_rs, candidates(pair_index(ws_rs)), Seq::empty(), budget)
                    == (ws_rs, ms_rs));
                assert(run_rounds(ws_rs, ms_rs, budget) == (ws_rs, ms_rs));
            }
            break;
        }
        let cands = crate::pairs::select_candidates(&pairs);
        proof {
            crate::pairs::lemma_candidates_nonempty(pairs_view(pairs@));
            crate::training::lemma_candidates_known(ws_rs, ms_rs.len() as int);
        }
        let mut merged: Vec<u16> = Vec::new();
        let mut ci: usize = 0;
        proof {
            assert(cands@.skip(0) =~= cands@);
            assert(merged@ =~= Seq::<u16>::empty());
        }
        while ci < cands.len()
            invariant
                budget == n_merges as nat,
                budget <= 65280,
                ci <= cands@.len(),
                cands@ == candidates(pair_index(ws_rs)),
                forall|k: int|
                    0 <= k < cands@.len() ==> token_known(
                        ms_rs.len() as int,
                        (#[trigger] cands@[k]).0,
                    ) && token_known(ms_rs.len() as int, cands@[k].1),
                run_batch(ws_rs, ms_rs, cands@, Seq::empty(), budget) == run_batch(
                    words_view(words@),
                    merges@,
                    cands@.skip(ci as int),
                    merged@,
                    budget,
                ),
                ms_rs.len() <= merges@.len() <= budget,
                ci == 0 ==> merged@.len() == 0,
                ci >= 1 && ms_rs.len() < budget ==> merges@.len() > ms_rs.len(),
                vocab@ == vocab_of(merges@),
                vocab@.len() == merges@.len(),
                rule_ids_ok(merges@),
                rule_sides_ok(merges@),
                wf_words(words_view(words@)),
                words_known(merges@.len() as int, words_view(words@)),
                weighted_sum(words_view(words@)) <= weighted_sum(ws_rs),
            ensures
                run_batch(ws_rs, ms_rs, cands@, Seq::empty(), budget) == (
                    words_view(words@),
                    merges@,
                ),
                ms_rs.len() <= merges@.len() <= budget,
                cands@.len() >= 1 && ms_rs.len() < budget ==> merges@.len() > ms_rs.len(),
                vocab@ == vocab_of(merges@),
                vocab@.len() == merges@.len(),
                rule_ids_ok(merges@),
                rule_sides_ok(merges@),
                wf_words(words_view(words@)),
                words_known(merges@.len() as int, words_view(words@)),
                weighted_sum(words_view(words@)) <= weighted_sum(ws_rs),
            decreases cands@.len() - ci,
        {
            if merges.len() >= n_merges as usize {
                proof {
                    assert(run_batch(
                        words_view(words@),
                        merges@,
                        cands@.skip(ci as int),
                        merged@,
                        budget,
                    ) == (words_view(words@), merges@));
                }
                break;
            }
            let cd = cands[ci];
            let conflict0 = contains_token(&merged, cd.0);
            let conflict1 = contains_token(&merged, cd.1);
            proof {
                assert(cands@.skip(ci as int)[0] == cands@[ci as int]);
                assert(cands@.skip(ci as int).skip(1) =~= cands@.skip(ci as int + 1));
            }
            if conflict0 || conflict1 {
                proof {
                    assert(run_batch(
                        words_view(words@),
                        merges@,
                        cands@.skip(ci as int),
                        merged@,
                        budget,
                    ) == run_batch(
                        words_view(words@),
                        merges@,
                        cands@.skip(ci as int + 1),
                        merged@,
                        budget,
                    ));
                }
                ci += 1;
            } else {
                let ghost ws_pre = words_view(words@);
                let ghost ms_pre = merges@;
                let ghost merged_pre = merged@;
                let t: u16 = 256 + (merges.len() as u16);
                proof {
                    assert(token_known(merges@.len() as int, cd.0)) by {
                        crate::model::lemma_known_mono(
                            ms_rs.len() as int,
                            merges@.len() as int,
                            seq![cd.0, cd.1],
                        );
                        assert(seq![cd.0, cd.1][0] == cd.0);
                    }
                    assert(token_known(merges@.len() as int, cd.1));
                }
                let eb = expand_pair(&vocab, cd.0, cd.1);
                proof {
                    crate::training::lemma_vocab_of_push(merges@, ((cd.0, cd.1), t));
                }
                merges.push(((cd.0, cd.1), t));
                vocab.push_entry(eb);
                merged.push(cd.0);
                merged.push(cd.1);
                let new_words = apply_rule_exec(&words, cd.0, cd.1, t);
                words = new_words;
                proof {
                    assert(merges@ == ms_pre.push(((cd.0, cd.1), t)));
                    assert(rule_ids_ok(merges@)) by {
                        assert(forall|k: int| 0 <= k < ms_pre.len() ==> merges@[k] == ms_pre[k]);
                        assert(merges@[ms_pre.len() as int].1 == 256 + ms_pre.len());
                    }
                    assert(rule_sides_ok(merges@)) by {
                        assert(forall|k: int| 0 <= k < ms_pre.len() ==> merges@[k] == ms_pre[k]);
                    }
                    assert(words_known(merges@.len() as int, ws_pre)) by {
                        assert forall|j: int| 0 <= j < ws_pre.len() implies all_known(
                            merges@.len() as int,
                            (#[trigger] ws_pre[j]).0,
                        ) by {
                            crate::model::lemma_known_mono(
                                ms_pre.len() as int,
                                merges@.len() as int,
                                ws_pre[j].0,
                            );
                        }
                    }
                    crate::training::lemma_apply_rule(
                        ws_pre,
                        cd.0,
                        cd.1,
                        t,
                        merges@.len() as int,
                    );
                    assert(merged@ =~= merged_pre.push(cd.0).push(cd.1));
                    assert(run_batch(ws_pre, ms_pre, cands@.skip(ci as int), merged_pre, budget)
                        == run_batch(
                        words_view(words@),
                        merges@,
                        cands@.skip(ci as int + 1),
                        merged@,
                        budget,
                    ));
                }
                ci += 1;
            }
        }
        proof {
            crate::training::lemma_run_batch(ws_rs, ms_rs, cands@, Seq::empty(), budget);
            assert(run_rounds(ws_rs, ms_rs, budget) == run_rounds(
                words_view(words@),
                merges@,
                budget,
            ));
        }
    }
    proof {
        if bytes0.len() == 0 {
            assert(ws0.len() == 0) by {
                if ws0.len() > 0 {
                    assert(ws0[0].1 * ws0[0].0.len() >= 1) by (nonlinear_arith)
                        requires
                            ws0[0].1 >= 1,
                            ws0[0].0.len() >= 1,
                    ;
                }
            }
            assert(ws0 =~= Seq::<WordEntry>::empty());
            assert(crate::pairs::count_words(
                Seq::<crate::pairs::PairEntry>::empty(),
                ws0,
            ) == Seq::<crate::pairs::PairEntry>::empty());
            assert(crate::pairs::max_pair_val(pair_index(ws0)) == 0nat);
            assert(candidates(pair_index(ws0)) =~= Seq::<(u16, u16)>::empty());
            if budget > 0 {
                assert(run_batch(ws0, Seq::empty(), candidates(pair_index(ws0)), Seq::empty(),
                    budget) == (ws0, Seq::<MergeRule>::empty()));
            }
            assert(run_rounds(ws0, Seq::empty(), budget).1 =~= Seq::<MergeRule>::empty());
        }
        crate::training::lemma_vocab_of_matches(merges@);
        crate::training::lemma_vocab_of_len(merges@);
    }
    Ok((merges, vocab))
}

/// Trains a byte-pair encoding on the UTF-8 bytes of `input_str`.
pub fn bpe_on_str(input_str: &str, n_merges: u32) -> (r: Result<
    (Vec<MergeRule>, Vocab),
    TokenizerError,
>)
    requires
        vstd::utf8::encode_utf8(input_str@).len() <= u32::MAX,
    ensures
        n_merges > 65280 ==> (r matches Err(e) && e == TokenizerError::BudgetExhausted),
        n_merges <= 65280 ==> (r matches Ok(p) && {
            &&& p.0@ == train_merges(vstd::utf8::encode_utf8(input_str@), n_merges as nat)
            &&& p.1@ == vocab_of(p.0@)
            &&& wf_artifacts(p.0@, p.1@)
            &&& p.0@.len() <= n_merges
        }),
{
    let bytes = input_str.as_bytes_vec();
    bpe(bytes, n_merges)
}

/// Relies on `core::str::from_utf8`, which returns `Ok` exactly when the
/// bytes are valid UTF-8 and then yields the string those bytes spell, and on
/// `str::to_owned` to copy it into an owned `String`.
#[verifier::external_body]
fn utf8_to_string(bytes: &Vec<u8>) -> (r: Option<String>)
    ensures
        r is Some <==> vstd::utf8::valid_utf8(bytes@),
        r matches Some(s) ==> s@ == vstd::utf8::decode_utf8(bytes@),
{
    match core::str::from_utf8(bytes.as_slice()) {
        Ok(s) => Some(s.to_owned()),
        Err(_) => None,
    }
}

/// Decodes tokens to text: expands every token to bytes, then validates the
/// result as UTF-8. Fails with `UnknownToken` on an id the vocabulary lacks
/// and with `InvalidUtf8` when the decoded bytes are not valid UTF-8.
pub fn decode_utf8(encoded: &Vec<u16>, vocab: &Vocab) -> (r: Result<String, TokenizerError>)
    ensures
        r is Ok <==> all_known(vocab@.len() as int, encoded@) && vstd::utf8::valid_utf8(
            expand_seq(vocab@, encoded@),
        ),
        r matches Ok(s) ==> s@ == vstd::utf8::decode_utf8(expand_seq(vocab@, encoded@)),
        r matches Err(e) ==> (match e {
            TokenizerError::UnknownToken(t) => exists|k: int|
                0 <= k < encoded@.len() && !token_known(
                    vocab@.len() as int,
                    #[trigger] encoded@[k],
                ) && (forall|j: int|
                    0 <= j < k ==> token_known(vocab@.len() as int, #[trigger] encoded@[j]))
                    && t == encoded@[k],
            TokenizerError::InvalidUtf8 => all_known(vocab@.len() as int, encoded@)
                && !vstd::utf8::valid_utf8(expand_seq(vocab@, encoded@)),
            _ => false,
        }),
{
    match decode(encoded, vocab) {
        Ok(bytes) => {
            match utf8_to_string(&bytes) {
                Some(s) => Ok(s),
                None => Err(TokenizerError::InvalidUtf8),
            }
        },
        Err(e) => {
            proof {
                assert(e matches TokenizerError::UnknownToken(t));
            }
            Err(e)
        },
    }
}

} // verus!
