//! The trainer's dynamics as a mathematical model: one round selects the
//! most frequent pairs and applies a conflict-free batch of merges; rounds
//! repeat until the merge budget is reached or no pair is left. The
//! vocabulary is determined by the merge list.

use vstd::prelude::*;

use crate::model::MergeRule;
use crate::model::all_known;
use crate::model::merge_step;
use crate::model::rule_ids_ok;
use crate::model::rule_sides_ok;
use crate::model::token_expand;
use crate::model::token_known;
use crate::model::vocab_matches;
use crate::pairs::TokenPair;
use crate::pairs::candidates;
use crate::pairs::pair_index;
use crate::utils::WordEntry;
use crate::utils::weighted_sum;
use crate::utils::wf_words;
use crate::utils::words_known;
use crate::utils::split_words;

verus! {

/// Rewrites every word with one merge rule; multiplicities are unchanged.
pub open spec fn apply_rule_words(ws: Seq<WordEntry>, a: u16, b: u16, t: u16) -> Seq<WordEntry> {
    ws.map_values(|e: WordEntry| (merge_step(e.0, a, b, t), e.1))
}

/// Applies one round's candidate batch: candidates are taken in order,
/// skipping any whose left or right token was already merged in this batch,
/// and stopping at the merge budget. Each applied candidate allocates the
/// next id and rewrites every word.
pub open spec fn run_batch(
    ws: Seq<WordEntry>,
    merges: Seq<MergeRule>,
    cands: Seq<TokenPair>,
    merged: Seq<u16>,
    budget: nat,
) -> (Seq<WordEntry>, Seq<MergeRule>)
    decreases cands.len(),
{
    if cands.len() == 0 {
        (ws, merges)
    } else if merges.len() >= budget {
        (ws, merges)
    } else if merged.contains(cands[0].0) || merged.contains(cands[0].1) {
        run_batch(ws, merges, cands.skip(1), merged, budget)
    } else {
        let t = (256 + merges.len()) as u16;
        run_batch(
            apply_rule_words(ws, cands[0].0, cands[0].1, t),
            merges.push((cands[0], t)),
            cands.skip(1),
            merged.push(cands[0].0).push(cands[0].1),
            budget,
        )
    }
}

/// Runs merge rounds until the budget is reached or a round makes no
/// progress, which happens exactly when no adjacent pair is left.
pub open spec fn run_rounds(ws: Seq<WordEntry>, merges: Seq<MergeRule>, budget: nat) -> (
    Seq<WordEntry>,
    Seq<MergeRule>,
)
    decreases budget - merges.len(),
{
    if merges.len() >= budget {
        (ws, merges)
    } else {
        let cands = candidates(pair_index(ws));
        let r = run_batch(ws, merges, cands, Seq::empty(), budget);
        if r.1.len() <= merges.len() || r.1.len() > budget {
            r
        } else {
            run_rounds(r.0, r.1, budget)
        }
    }
}

/// The merge list that training on `bytes` with the given budget produces.
/// The corpus is split into space-delimited words first, so no rule ever
/// crosses a word boundary.
pub open spec fn train_merges(bytes: Seq<u8>, budget: nat) -> Seq<MergeRule> {
    run_rounds(split_words(bytes, 32u8), Seq::empty(), budget).1
}

/// The vocabulary a merge list determines: each rule's entry is the
/// concatenation of the expansions of its two sides at allocation time.
pub open spec fn vocab_of(merges: Seq<MergeRule>) -> Seq<Seq<u8>>
    decreases merges.len(),
{
    if merges.len() == 0 {
        Seq::empty()
    } else {
        let prev = vocab_of(merges.drop_last());
        prev.push(
            token_expand(prev, merges.last().0.0) + token_expand(prev, merges.last().0.1),
        )
    }
}

/// The vocabulary has one entry per rule.
pub proof fn lemma_vocab_of_len(merges: Seq<MergeRule>)
    ensures
        vocab_of(merges).len() == merges.len(),
    decreases merges.len(),
{
    if merges.len() == 0 {
    } else {
        lemma_vocab_of_len(merges.drop_last());
    }
}

/// Appending a rule appends its entry, expanded over the previous vocabulary.
pub proof fn lemma_vocab_of_push(merges: Seq<MergeRule>, r: MergeRule)
    ensures
        vocab_of(merges.push(r)) == vocab_of(merges).push(
            token_expand(vocab_of(merges), r.0.0) + token_expand(vocab_of(merges), r.0.1),
        ),
{
    assert(merges.push(r).drop_last() =~= merges);
    assert(merges.push(r).last() == r);
}

/// For a merge list whose rules reference only earlier ids, the determined
/// vocabulary is consistent with every rule, and every entry holds at least
/// two bytes.
pub proof fn lemma_vocab_of_matches(merges: Seq<MergeRule>)
    requires
        rule_sides_ok(merges),
    ensures
        vocab_matches(merges, vocab_of(merges)),
        forall|k: int| 0 <= k < merges.len() ==> (#[trigger] vocab_of(merges)[k]).len() >= 2,
    decreases merges.len(),
{
    lemma_vocab_of_len(merges);
    if merges.len() == 0 {
    } else {
        let prefix = merges.drop_last();
        let prev = vocab_of(prefix);
        let v = vocab_of(merges);
        let n = merges.len() - 1;
        assert(rule_sides_ok(prefix)) by {
            assert(forall|k: int| 0 <= k < prefix.len() ==> prefix[k] == merges[k]);
        }
        lemma_vocab_of_matches(prefix);
        lemma_vocab_of_len(prefix);
        assert(v == prev.push(
            token_expand(prev, merges[n].0.0) + token_expand(prev, merges[n].0.1),
        ));
        // Expansion of an id allocated before `k` reads the same entry in
        // the extended vocabulary.
        assert forall|x: u16, k: int|
            0 <= k <= n && token_known(k, x) implies token_expand(v, x) == token_expand(
            prev,
            x,
        ) by {
            if x >= 256 {
                assert(v[x - 256] == prev[x - 256]);
            }
        }
        assert forall|k: int| 0 <= k < merges.len() implies #[trigger] v[k] == token_expand(
            v,
            merges[k].0.0,
        ) + token_expand(v, merges[k].0.1) by {
            if k < n {
                assert(v[k] == prev[k]);
                assert(prev[k] == token_expand(prev, merges[k].0.0) + token_expand(
                    prev,
                    merges[k].0.1,
                ));
            } else {
                assert(v[n] == token_expand(prev, merges[n].0.0) + token_expand(
                    prev,
                    merges[n].0.1,
                ));
            }
        }
        assert forall|k: int| 0 <= k < merges.len() implies (#[trigger] v[k]).len() >= 2 by {
            if k < n {
                assert(v[k] == prev[k]);
            } else {
                assert(token_expand(prev, merges[n].0.0).len() >= 1);
                assert(token_expand(prev, merges[n].0.1).len() >= 1);
            }
        }
    }
}

/// Rewriting the words with a rule whose new token is known keeps the word
/// list well-formed and known, and never grows the weighted token total.
pub proof fn lemma_apply_rule(ws: Seq<WordEntry>, a: u16, b: u16, t: u16, n: int)
    requires
        wf_words(ws),
        words_known(n, ws),
        token_known(n, t),
    ensures
        wf_words(apply_rule_words(ws, a, b, t)),
        words_known(n, apply_rule_words(ws, a, b, t)),
        weighted_sum(apply_rule_words(ws, a, b, t)) <= weighted_sum(ws),
    decreases ws.len(),
{
    let r = apply_rule_words(ws, a, b, t);
    assert(r.len() == ws.len());
    assert forall|j: int| 0 <= j < ws.len() implies (#[trigger] r[j]) == (
        merge_step(ws[j].0, a, b, t),
        ws[j].1,
    ) by {}
    assert forall|j: int| 0 <= j < ws.len() implies (#[trigger] r[j]).1 >= 1 && r[j].0.len()
        >= 1 && all_known(n, r[j].0) by {
        crate::model::lemma_merge_step_len(ws[j].0, a, b, t);
        crate::model::lemma_merge_step_known(n, ws[j].0, a, b, t);
    }
    if ws.len() == 0 {
    } else {
        assert(wf_words(ws.skip(1)));
        assert(words_known(n, ws.skip(1)));
        lemma_apply_rule(ws.skip(1), a, b, t, n);
        assert(r.skip(1) =~= apply_rule_words(ws.skip(1), a, b, t));
        crate::model::lemma_merge_step_len(ws[0].0, a, b, t);
        assert(ws[0].1 * merge_step(ws[0].0, a, b, t).len() <= ws[0].1 * ws[0].0.len())
            by (nonlinear_arith)
            requires
                merge_step(ws[0].0, a, b, t).len() <= ws[0].0.len(),
                ws[0].1 >= 0,
        ;
    }
}

/// What one batch does to the training state: ids stay densely allocated in
/// order, rules keep referencing only earlier ids, the words stay
/// well-formed and known, the weighted total never grows, and the batch
/// applies at least its first non-conflicting candidate.
pub proof fn lemma_run_batch(
    ws: Seq<WordEntry>,
    merges: Seq<MergeRule>,
    cands: Seq<TokenPair>,
    merged: Seq<u16>,
    budget: nat,
)
    requires
        budget <= 65280,
        merges.len() <= budget,
        rule_ids_ok(merges),
        rule_sides_ok(merges),
        wf_words(ws),
        words_known(merges.len() as int, ws),
        forall|k: int|
            0 <= k < cands.len() ==> token_known(merges.len() as int, (#[trigger] cands[k]).0)
                && token_known(merges.len() as int, cands[k].1),
    ensures
        ({
            let r = run_batch(ws, merges, cands, merged, budget);
            &&& rule_ids_ok(r.1)
            &&& rule_sides_ok(r.1)
            &&& merges.len() <= r.1.len() <= budget
            &&& wf_words(r.0)
            &&& words_known(r.1.len() as int, r.0)
            &&& weighted_sum(r.0) <= weighted_sum(ws)
            &&& (cands.len() >= 1 && merges.len() < budget && !merged.contains(cands[0].0)
                && !merged.contains(cands[0].1)) ==> r.1.len() > merges.len()
        }),
    decreases cands.len(),
{
    if cands.len() == 0 {
    } else if merges.len() >= budget {
    } else if merged.contains(cands[0].0) || merged.contains(cands[0].1) {
        assert(forall|k: int|
            0 <= k < cands.skip(1).len() ==> token_known(
                merges.len() as int,
                (#[trigger] cands.skip(1)[k]).0,
            ) && token_known(merges.len() as int, cands.skip(1)[k].1)) by {
            assert(forall|k: int| 0 <= k < cands.skip(1).len() ==> cands.skip(1)[k] == cands[k
                + 1]);
        }
        lemma_run_batch(ws, merges, cands.skip(1), merged, budget);
    } else {
        let a = cands[0].0;
        let b = cands[0].1;
        let t = (256 + merges.len()) as u16;
        assert(t == 256 + merges.len());
        let merges2 = merges.push((cands[0], t));
        let ws2 = apply_rule_words(ws, a, b, t);
        assert(rule_ids_ok(merges2)) by {
            assert(forall|k: int| 0 <= k < merges.len() ==> merges2[k] == merges[k]);
            assert(merges2[merges.len() as int].1 == 256 + merges.len());
        }
        assert(rule_sides_ok(merges2)) by {
            assert(forall|k: int| 0 <= k < merges.len() ==> merges2[k] == merges[k]);
        }
        assert(words_known(merges2.len() as int, ws)) by {
            assert forall|j: int| 0 <= j < ws.len() implies all_known(
                merges2.len() as int,
                (#[trigger] ws[j]).0,
            ) by {
                crate::model::lemma_known_mono(
                    merges.len() as int,
                    merges2.len() as int,
                    ws[j].0,
                );
            }
        }
        lemma_apply_rule(ws, a, b, t, merges2.len() as int);
        assert(forall|k: int|
            0 <= k < cands.skip(1).len() ==> token_known(
                merges2.len() as int,
                (#[trigger] cands.skip(1)[k]).0,
            ) && token_known(merges2.len() as int, cands.skip(1)[k].1)) by {
            assert(forall|k: int| 0 <= k < cands.skip(1).len() ==> cands.skip(1)[k] == cands[k
                + 1]);
        }
        lemma_run_batch(
            ws2,
            merges2,
            cands.skip(1),
            merged.push(cands[0].0).push(cands[0].1),
            budget,
        );
    }
}

/// Tokens that appear as merge candidates occur in some word, so they are
/// known wherever the words are.
pub proof fn lemma_candidates_known(ws: Seq<WordEntry>, n: int)
    requires
        wf_words(ws),
        words_known(n, ws),
    ensures
        forall|k: int|
            0 <= k < candidates(pair_index(ws)).len() ==> token_known(
                n,
                (#[trigger] candidates(pair_index(ws))[k]).0,
            ) && token_known(n, candidates(pair_index(ws))[k].1),
{
    let ps = pair_index(ws);
    let cs = candidates(ps);
    assert forall|k: int| 0 <= k < cs.len() implies token_known(n, (#[trigger] cs[k]).0)
        && token_known(n, cs[k].1) by {
        crate::pairs::lemma_cands_member(ps, crate::pairs::max_pair_val(ps), k);
        let j = choose|j: int|
            0 <= j < ps.len() && (#[trigger] ps[j]).0 == cs[k] && ps[j].1
                == crate::pairs::max_pair_val(ps);
        crate::pairs::lemma_has_pair_at(ps, j);
        crate::pairs::lemma_pair_index(ws, ps[j].0);
        crate::pairs::lemma_weight_pos_has_occurrence(ws, ps[j].0);
        let i = choose|i: int|
            0 <= i < ws.len() && crate::pairs::occurrences((#[trigger] ws[i]).0, ps[j].0) >= 1;
        crate::pairs::lemma_occ_pos_has_position(ws[i].0, ps[j].0, 0);
        let m = choose|m: int|
            0 <= m && m + 1 < ws[i].0.len() && #[trigger] ws[i].0[m] == ps[j].0.0 && ws[i].0[m
                + 1] == ps[j].0.1;
        assert(all_known(n, ws[i].0));
    }
}

/// Law (id allocation): however many rounds the training model runs, the
/// k-th rule of the merge list it produces allocates id exactly `256 + k`,
/// every rule references only ids older than its own, and the budget is
/// never exceeded.
pub proof fn lemma_run_rounds(ws: Seq<WordEntry>, merges: Seq<MergeRule>, budget: nat)
    requires
        budget <= 65280,
        merges.len() <= budget,
        rule_ids_ok(merges),
        rule_sides_ok(merges),
        wf_words(ws),
        words_known(merges.len() as int, ws),
    ensures
        ({
            let r = run_rounds(ws, merges, budget);
            &&& rule_ids_ok(r.1)
            &&& rule_sides_ok(r.1)
            &&& merges.len() <= r.1.len() <= budget
            &&& wf_words(r.0)
            &&& words_known(r.1.len() as int, r.0)
            &&& weighted_sum(r.0) <= weighted_sum(ws)
        }),
    decreases budget - merges.len(),
{
    if merges.len() >= budget {
    } else {
        let cands = candidates(pair_index(ws));
        lemma_candidates_known(ws, merges.len() as int);
        lemma_run_batch(ws, merges, cands, Seq::empty(), budget);
        let r = run_batch(ws, merges, cands, Seq::empty(), budget);
        if r.1.len() <= merges.len() || r.1.len() > budget {
        } else {
            lemma_run_rounds(r.0, r.1, budget);
        }
    }
}

} // verus!
