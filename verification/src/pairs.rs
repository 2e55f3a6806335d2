//! Pair statistics: the `(pair -> weighted occurrence count)` index the
//! trainer recomputes before every merge round, and the selection of the
//! most frequent pairs.

use vstd::prelude::*;

use crate::utils::WordEntry;
use crate::utils::weighted_sum;
use crate::utils::wf_words;

verus! {

/// An adjacent token pair.
pub type TokenPair = (u16, u16);

/// A pair-count entry of the abstract association list.
pub type PairEntry = ((u16, u16), nat);

/// Occurrences of the adjacent pair `p` in `s` at positions `j` and later.
/// Every adjacent index counts, so overlapping occurrences each count.
pub open spec fn occ_from(s: Seq<u16>, p: TokenPair, j: int) -> nat
    decreases s.len() - j,
{
    if j < 0 || j + 1 >= s.len() {
        0nat
    } else {
        ((if s[j] == p.0 && s[j + 1] == p.1 {
            1nat
        } else {
            0nat
        }) + occ_from(s, p, j + 1)) as nat
    }
}

/// Occurrences of the adjacent pair `p` anywhere in `s`.
pub open spec fn occurrences(s: Seq<u16>, p: TokenPair) -> nat {
    occ_from(s, p, 0)
}

/// The pair's total weight over a word list: the sum over all words of the
/// word's multiplicity times the pair's occurrences in it.
pub open spec fn pair_weight(ws: Seq<WordEntry>, p: TokenPair) -> nat
    decreases ws.len(),
{
    if ws.len() == 0 {
        0nat
    } else {
        (ws[0].1 * occurrences(ws[0].0, p) + pair_weight(ws.skip(1), p)) as nat
    }
}

/// The count stored for `p`, or 0 when no entry holds `p`.
pub open spec fn lookup_pair(ps: Seq<PairEntry>, p: TokenPair) -> nat
    decreases ps.len(),
{
    if ps.len() == 0 {
        0nat
    } else if ps[0].0 == p {
        ps[0].1
    } else {
        lookup_pair(ps.skip(1), p)
    }
}

/// Whether some entry holds `p`.
pub open spec fn has_pair(ps: Seq<PairEntry>, p: TokenPair) -> bool
    decreases ps.len(),
{
    if ps.len() == 0 {
        false
    } else {
        ps[0].0 == p || has_pair(ps.skip(1), p)
    }
}

/// No two entries hold the same pair.
pub open spec fn distinct_pairs(ps: Seq<PairEntry>) -> bool {
    forall|j1: int, j2: int| 0 <= j1 < j2 < ps.len() ==> (#[trigger] ps[j1]).0 != (#[trigger] ps[j2]).0
}

/// Adds `c` to the entry holding `p`, or appends a fresh entry `(p, c)`.
pub open spec fn add_pair(ps: Seq<PairEntry>, p: TokenPair, c: nat) -> Seq<PairEntry>
    decreases ps.len(),
{
    if ps.len() == 0 {
        seq![(p, c)]
    } else if ps[0].0 == p {
        seq![(ps[0].0, (ps[0].1 + c) as nat)] + ps.skip(1)
    } else {
        seq![ps[0]] + add_pair(ps.skip(1), p, c)
    }
}

/// Adds every adjacent pair of `s` at positions `j` and later, weighted `c`.
pub open spec fn count_word_from(ps: Seq<PairEntry>, s: Seq<u16>, c: nat, j: int) -> Seq<PairEntry>
    decreases s.len() - j,
{
    if j < 0 || j + 1 >= s.len() {
        ps
    } else {
        count_word_from(add_pair(ps, (s[j], s[j + 1]), c), s, c, j + 1)
    }
}

/// Accumulates the pair counts of every word of `ws` into `ps`.
pub open spec fn count_words(ps: Seq<PairEntry>, ws: Seq<WordEntry>) -> Seq<PairEntry>
    decreases ws.len(),
{
    if ws.len() == 0 {
        ps
    } else {
        count_words(count_word_from(ps, ws[0].0, ws[0].1, 0), ws.skip(1))
    }
}

/// The pair index of a word list: every pair that occurs, with its weight.
pub open spec fn pair_index(ws: Seq<WordEntry>) -> Seq<PairEntry> {
    count_words(Seq::empty(), ws)
}

/// What `add_pair` does to lookups, membership and distinctness.
pub proof fn lemma_add_pair(ps: Seq<PairEntry>, p: TokenPair, c: nat, q: TokenPair)
    ensures
        lookup_pair(add_pair(ps, p, c), q) == if q == p {
            lookup_pair(ps, q) + c
        } else {
            lookup_pair(ps, q)
        },
        has_pair(add_pair(ps, p, c), q) <==> (has_pair(ps, q) || q == p),
        distinct_pairs(ps) ==> distinct_pairs(add_pair(ps, p, c)),
    decreases ps.len(),
{
    if ps.len() == 0 {
        let r = seq![(p, c)];
        assert(add_pair(ps, p, c) == r);
        assert(r.skip(1) =~= Seq::<PairEntry>::empty());
        assert(r[0] == (p, c));
        assert(lookup_pair(r.skip(1), q) == 0);
        assert(!has_pair(r.skip(1), q));
    } else if ps[0].0 == p {
        let r = seq![(ps[0].0, (ps[0].1 + c) as nat)] + ps.skip(1);
        assert(add_pair(ps, p, c) == r);
        assert(r.skip(1) =~= ps.skip(1));
        assert(r[0] == (ps[0].0, (ps[0].1 + c) as nat));
        assert(lookup_pair(r, q) == if r[0].0 == q {
            r[0].1
        } else {
            lookup_pair(ps.skip(1), q)
        });
    } else {
        lemma_add_pair(ps.skip(1), p, c, q);
        let r = seq![ps[0]] + add_pair(ps.skip(1), p, c);
        assert(add_pair(ps, p, c) == r);
        assert(r.skip(1) =~= add_pair(ps.skip(1), p, c));
        assert(r[0] == ps[0]);
        assert(lookup_pair(r, q) == if r[0].0 == q {
            r[0].1
        } else {
            lookup_pair(add_pair(ps.skip(1), p, c), q)
        });
        assert(has_pair(r, q) <==> (r[0].0 == q || has_pair(add_pair(ps.skip(1), p, c), q)));
        assert(distinct_pairs(ps) ==> distinct_pairs(ps.skip(1)));
        if distinct_pairs(ps) {
            assert forall|j1: int, j2: int| 0 <= j1 < j2 < r.len() implies (#[trigger] r[j1]).0
                != (#[trigger] r[j2]).0 by {
                if j1 == 0 {
                    // The key set only ever gains `p`, which differs from `ps[0].0`.
                    lemma_add_pair_keys(ps.skip(1), p, c, j2 - 1);
                } else {
                    assert(r[j1] == add_pair(ps.skip(1), p, c)[j1 - 1]);
                }
            }
        }
    }
}

/// Every key of `add_pair(ps, p, c)` is a key of `ps` or is `p` itself.
pub proof fn lemma_add_pair_keys(ps: Seq<PairEntry>, p: TokenPair, c: nat, j: int)
    requires
        0 <= j < add_pair(ps, p, c).len(),
    ensures
        add_pair(ps, p, c)[j].0 == p || exists|m: int|
            0 <= m < ps.len() && (#[trigger] ps[m]).0 == add_pair(ps, p, c)[j].0,
    decreases ps.len(),
{
    if ps.len() == 0 {
    } else if ps[0].0 == p {
        let r = seq![(ps[0].0, (ps[0].1 + c) as nat)] + ps.skip(1);
        if j > 0 {
            assert(r[j] == ps[j]);
        }
    } else {
        let r = seq![ps[0]] + add_pair(ps.skip(1), p, c);
        if j > 0 {
            lemma_add_pair_keys(ps.skip(1), p, c, j - 1);
            assert(r[j] == add_pair(ps.skip(1), p, c)[j - 1]);
            if add_pair(ps.skip(1), p, c)[j - 1].0 != p {
                let m = choose|m: int|
                    0 <= m < ps.skip(1).len() && (#[trigger] ps.skip(1)[m]).0 == add_pair(
                        ps.skip(1),
                        p,
                        c,
                    )[j - 1].0;
                assert(ps[m + 1].0 == r[j].0);
            }
        }
    }
}

/// Counting one word from position `j` adds `c` occurrences-worth of weight
/// to every pair's lookup.
pub proof fn lemma_count_word_from(ps: Seq<PairEntry>, s: Seq<u16>, c: nat, j: int, q: TokenPair)
    requires
        c >= 1,
    ensures
        lookup_pair(count_word_from(ps, s, c, j), q) == lookup_pair(ps, q) + c * occ_from(s, q, j),
        has_pair(count_word_from(ps, s, c, j), q) <==> (has_pair(ps, q) || occ_from(s, q, j) >= 1),
        distinct_pairs(ps) ==> distinct_pairs(count_word_from(ps, s, c, j)),
    decreases s.len() - j,
{
    if j < 0 || j + 1 >= s.len() {
        assert(c * occ_from(s, q, j) == 0) by (nonlinear_arith)
            requires
                occ_from(s, q, j) == 0,
        ;
    } else {
        let p0 = (s[j], s[j + 1]);
        lemma_add_pair(ps, p0, c, q);
        lemma_count_word_from(add_pair(ps, p0, c), s, c, j + 1, q);
        if q == p0 {
            assert(occ_from(s, q, j) == 1 + occ_from(s, q, j + 1));
            assert(c * occ_from(s, q, j) == c + c * occ_from(s, q, j + 1)) by (nonlinear_arith)
                requires
                    occ_from(s, q, j) == 1 + occ_from(s, q, j + 1),
            ;
        } else {
            assert(occ_from(s, q, j) == occ_from(s, q, j + 1));
        }
    }
}

/// Counting a word list adds each pair's total weight to its lookup, and an
/// entry exists exactly for the pairs that occur at all.
pub proof fn lemma_count_words(ps: Seq<PairEntry>, ws: Seq<WordEntry>, q: TokenPair)
    requires
        wf_words(ws),
    ensures
        lookup_pair(count_words(ps, ws), q) == lookup_pair(ps, q) + pair_weight(ws, q),
        has_pair(count_words(ps, ws), q) <==> (has_pair(ps, q) || pair_weight(ws, q) >= 1),
        distinct_pairs(ps) ==> distinct_pairs(count_words(ps, ws)),
    decreases ws.len(),
{
    if ws.len() == 0 {
    } else {
        let c = ws[0].1;
        let s = ws[0].0;
        lemma_count_word_from(ps, s, c, 0, q);
        assert(wf_words(ws.skip(1)));
        lemma_count_words(count_word_from(ps, s, c, 0), ws.skip(1), q);
        assert(c * occurrences(s, q) >= 1 <==> occurrences(s, q) >= 1) by (nonlinear_arith)
            requires
                c >= 1,
        ;
    }
}

/// The full index: lookups equal total weights and entries exist exactly for
/// occurring pairs. This is the trainer's pair-frequency invariant.
pub proof fn lemma_pair_index(ws: Seq<WordEntry>, q: TokenPair)
    requires
        wf_words(ws),
    ensures
        lookup_pair(pair_index(ws), q) == pair_weight(ws, q),
        has_pair(pair_index(ws), q) <==> pair_weight(ws, q) >= 1,
        distinct_pairs(pair_index(ws)),
{
    lemma_count_words(Seq::empty(), ws, q);
    assert(distinct_pairs(Seq::<PairEntry>::empty()));
}

/// In a list with distinct keys, every entry's stored count is its lookup.
pub proof fn lemma_lookup_at(ps: Seq<PairEntry>, j: int)
    requires
        distinct_pairs(ps),
        0 <= j < ps.len(),
    ensures
        lookup_pair(ps, ps[j].0) == ps[j].1,
    decreases j,
{
    if j == 0 {
    } else {
        assert(distinct_pairs(ps.skip(1)));
        assert(ps.skip(1)[j - 1] == ps[j]);
        lemma_lookup_at(ps.skip(1), j - 1);
        assert(ps[0].0 != ps[j].0);
    }
}

/// Occurrences are bounded by the positions scanned.
pub proof fn lemma_occ_le_len(s: Seq<u16>, q: TokenPair, j: int)
    requires
        j >= 0,
    ensures
        occ_from(s, q, j) <= s.len() - j || occ_from(s, q, j) == 0,
        occ_from(s, q, j) <= s.len(),
    decreases s.len() - j,
{
    if j < 0 || j + 1 >= s.len() {
    } else {
        lemma_occ_le_len(s, q, j + 1);
    }
}

/// A pair's weight never exceeds the weighted token total.
pub proof fn lemma_pair_weight_le(ws: Seq<WordEntry>, q: TokenPair)
    ensures
        pair_weight(ws, q) <= weighted_sum(ws),
    decreases ws.len(),
{
    if ws.len() == 0 {
    } else {
        lemma_pair_weight_le(ws.skip(1), q);
        lemma_occ_le_len(ws[0].0, q, 0);
        assert(ws[0].1 * occurrences(ws[0].0, q) <= ws[0].1 * ws[0].0.len())
            by (nonlinear_arith)
            requires
                occurrences(ws[0].0, q) <= ws[0].0.len(),
        ;
    }
}

/// A positive weight exhibits a word with an occurrence.
pub proof fn lemma_weight_pos_has_occurrence(ws: Seq<WordEntry>, q: TokenPair)
    requires
        pair_weight(ws, q) >= 1,
    ensures
        exists|i: int| 0 <= i < ws.len() && occurrences((#[trigger] ws[i]).0, q) >= 1,
    decreases ws.len(),
{
    if ws.len() == 0 {
    } else if ws[0].1 * occurrences(ws[0].0, q) >= 1 {
        assert(occurrences(ws[0].0, q) >= 1) by (nonlinear_arith)
            requires
                ws[0].1 * occurrences(ws[0].0, q) >= 1,
        ;
    } else {
        lemma_weight_pos_has_occurrence(ws.skip(1), q);
        let i = choose|i: int|
            0 <= i < ws.skip(1).len() && occurrences((#[trigger] ws.skip(1)[i]).0, q) >= 1;
        assert(ws[i + 1] == ws.skip(1)[i]);
    }
}

/// The greatest count held by any entry, or 0 for an empty index.
pub open spec fn max_pair_val(ps: Seq<PairEntry>) -> nat
    decreases ps.len(),
{
    if ps.len() == 0 {
        0nat
    } else if ps[0].1 > max_pair_val(ps.skip(1)) {
        ps[0].1
    } else {
        max_pair_val(ps.skip(1))
    }
}

/// The keys whose count equals `m`, in index order.
pub open spec fn cands_from(ps: Seq<PairEntry>, m: nat) -> Seq<TokenPair>
    decreases ps.len(),
{
    if ps.len() == 0 {
        Seq::empty()
    } else if ps[0].1 == m {
        seq![ps[0].0] + cands_from(ps.skip(1), m)
    } else {
        cands_from(ps.skip(1), m)
    }
}

/// The merge candidates of a round: every pair whose count is the maximum,
/// in the index's iteration order.
pub open spec fn candidates(ps: Seq<PairEntry>) -> Seq<TokenPair> {
    cands_from(ps, max_pair_val(ps))
}

/// A non-empty index always yields at least one candidate.
pub proof fn lemma_candidates_nonempty(ps: Seq<PairEntry>)
    requires
        ps.len() >= 1,
    ensures
        candidates(ps).len() >= 1,
    decreases ps.len(),
{
    if ps[0].1 == max_pair_val(ps) {
    } else {
        assert(max_pair_val(ps) == max_pair_val(ps.skip(1)));
        lemma_candidates_nonempty(ps.skip(1));
    }
}

/// Every candidate is the key of some entry counted at `m`.
pub proof fn lemma_cands_member(ps: Seq<PairEntry>, m: nat, k: int)
    requires
        0 <= k < cands_from(ps, m).len(),
    ensures
        exists|j: int|
            0 <= j < ps.len() && (#[trigger] ps[j]).0 == cands_from(ps, m)[k] && ps[j].1 == m,
    decreases ps.len(),
{
    if ps.len() == 0 {
    } else if ps[0].1 == m {
        if k == 0 {
            assert(cands_from(ps, m)[0] == ps[0].0);
        } else {
            lemma_cands_member(ps.skip(1), m, k - 1);
            let j = choose|j: int|
                0 <= j < ps.skip(1).len() && (#[trigger] ps.skip(1)[j]).0 == cands_from(
                    ps.skip(1),
                    m,
                )[k - 1] && ps.skip(1)[j].1 == m;
            assert(ps[j + 1] == ps.skip(1)[j]);
            assert(cands_from(ps, m)[k] == cands_from(ps.skip(1), m)[k - 1]);
        }
    } else {
        lemma_cands_member(ps.skip(1), m, k);
        let j = choose|j: int|
            0 <= j < ps.skip(1).len() && (#[trigger] ps.skip(1)[j]).0 == cands_from(
                ps.skip(1),
                m,
            )[k] && ps.skip(1)[j].1 == m;
        assert(ps[j + 1] == ps.skip(1)[j]);
    }
}

/// An indexed entry witnesses membership.
pub proof fn lemma_has_pair_at(ps: Seq<PairEntry>, j: int)
    requires
        0 <= j < ps.len(),
    ensures
        has_pair(ps, ps[j].0),
    decreases j,
{
    if j == 0 {
    } else {
        assert(ps.skip(1)[j - 1] == ps[j]);
        lemma_has_pair_at(ps.skip(1), j - 1);
    }
}

/// An occurrence exhibits an adjacent position holding the pair.
pub proof fn lemma_occ_pos_has_position(s: Seq<u16>, q: TokenPair, j: int)
    requires
        occ_from(s, q, j) >= 1,
    ensures
        exists|m: int| j <= m && 0 <= m && m + 1 < s.len() && #[trigger] s[m] == q.0 && s[m + 1]
            == q.1,
    decreases s.len() - j,
{
    if j < 0 || j + 1 >= s.len() {
    } else if s[j] == q.0 && s[j + 1] == q.1 {
    } else {
        lemma_occ_pos_has_position(s, q, j + 1);
    }
}

/// The abstract view of an executable pair-count list.
pub open spec fn pairs_view(ps: Seq<((u16, u16), u32)>) -> Seq<PairEntry> {
    ps.map_values(|e: ((u16, u16), u32)| (e.0, e.1 as nat))
}

/// Adding to the first entry matching `p` only updates that entry.
pub proof fn lemma_add_pair_found(ps: Seq<PairEntry>, p: TokenPair, c: nat, j: int)
    requires
        0 <= j < ps.len(),
        ps[j].0 == p,
        forall|m: int| 0 <= m < j ==> (#[trigger] ps[m]).0 != p,
    ensures
        add_pair(ps, p, c) == ps.update(j, (ps[j].0, (ps[j].1 + c) as nat)),
    decreases ps.len(),
{
    if j == 0 {
        assert(add_pair(ps, p, c) =~= ps.update(0, (ps[0].0, (ps[0].1 + c) as nat)));
    } else {
        assert(forall|m: int| 0 <= m < j - 1 ==> (#[trigger] ps.skip(1)[m]).0 != p);
        assert(ps.skip(1)[j - 1] == ps[j]);
        lemma_add_pair_found(ps.skip(1), p, c, j - 1);
        assert(seq![ps[0]] + ps.skip(1).update(j - 1, (ps[j].0, (ps[j].1 + c) as nat)) =~= ps
            .update(j, (ps[j].0, (ps[j].1 + c) as nat)));
    }
}

/// Adding a pair that no entry holds appends a fresh entry.
pub proof fn lemma_add_pair_missing(ps: Seq<PairEntry>, p: TokenPair, c: nat)
    requires
        forall|m: int| 0 <= m < ps.len() ==> (#[trigger] ps[m]).0 != p,
    ensures
        add_pair(ps, p, c) == ps.push((p, c)),
    decreases ps.len(),
{
    if ps.len() == 0 {
        assert(add_pair(ps, p, c) =~= ps.push((p, c)));
    } else {
        assert(forall|m: int| 0 <= m < ps.skip(1).len() ==> (#[trigger] ps.skip(1)[m]).0 != p);
        lemma_add_pair_missing(ps.skip(1), p, c);
        assert(seq![ps[0]] + ps.skip(1).push((p, c)) =~= ps.push((p, c)));
    }
}

/// Adds `c` occurrences of `p` to the executable index.
fn add_pair_exec(ps: &mut Vec<((u16, u16), u32)>, p: (u16, u16), c: u32)
    requires
        distinct_pairs(pairs_view(old(ps)@)),
        lookup_pair(pairs_view(old(ps)@), p) + c <= u32::MAX,
    ensures
        pairs_view(final(ps)@) == add_pair(pairs_view(old(ps)@), p, c as nat),
{
    let ghost pv = pairs_view(ps@);
    let mut j: usize = 0;
    while j < ps.len()
        invariant
            j <= ps@.len(),
            ps@ == old(ps)@,
            pv == pairs_view(ps@),
            distinct_pairs(pv),
            lookup_pair(pv, p) + c <= u32::MAX,
            forall|m: int| 0 <= m < j ==> (#[trigger] pv[m]).0 != p,
        decreases ps@.len() - j,
    {
        let e = ps[j];
        if e.0.0 == p.0 && e.0.1 == p.1 {
            proof {
                assert(pv[j as int].0 == p);
                lemma_lookup_at(pv, j as int);
                lemma_add_pair_found(pv, p, c as nat, j as int);
            }
            let mut entry = ps.remove(j);
            entry.1 = entry.1 + c;
            ps.insert(j, entry);
            proof {
                assert(ps@ =~= old(ps)@.update(
                    j as int,
                    (old(ps)@[j as int].0, (old(ps)@[j as int].1 + c) as u32),
                ));
                assert(pairs_view(ps@) =~= add_pair(pv, p, c as nat));
            }
            return ;
        }
        j += 1;
    }
    proof {
        lemma_add_pair_missing(pv, p, c as nat);
    }
    ps.push((p, c));
    proof {
        assert(pairs_view(ps@) =~= add_pair(pv, p, c as nat));
    }
}

/// Builds the pair index of a word list: every adjacent pair that occurs in
/// some word, with the exact sum over all words of multiplicity times
/// occurrence count. Recomputed before each merge round, this keeps the
/// pair-frequency map consistent with the current words after every merge.
pub(crate) fn count_pairs(words: &Vec<(Vec<u16>, u32)>) -> (ps: Vec<((u16, u16), u32)>)
    requires
        wf_words(crate::utils::words_view(words@)),
        weighted_sum(crate::utils::words_view(words@)) <= u32::MAX,
    ensures
        pairs_view(ps@) == pair_index(crate::utils::words_view(words@)),
{
    let ghost ws = crate::utils::words_view(words@);
    let mut ps: Vec<((u16, u16), u32)> = Vec::new();
    let mut i: usize = 0;
    proof {
        assert(pairs_view(ps@) =~= Seq::<PairEntry>::empty());
        assert(ws.skip(0) =~= ws);
    }
    while i < words.len()
        invariant
            i <= ws.len(),
            ws == crate::utils::words_view(words@),
            wf_words(ws),
            weighted_sum(ws) <= u32::MAX,
            distinct_pairs(pairs_view(ps@)),
            pair_index(ws) == count_words(pairs_view(ps@), ws.skip(i as int)),
        decreases ws.len() - i,
    {
        let ghost s = ws[i as int].0;
        let ghost c_spec = ws[i as int].1;
        let c = words[i].1;
        proof {
            assert(ws[i as int] == (words@[i as int].0@, words@[i as int].1 as nat));
            assert(ws.skip(i as int)[0] == ws[i as int]);
            assert(ws.skip(i as int).skip(1) =~= ws.skip(i as int + 1));
            assert(count_words(pairs_view(ps@), ws.skip(i as int)) == count_words(
                count_word_from(pairs_view(ps@), s, c_spec, 0),
                ws.skip(i as int + 1),
            ));
        }
        let mut j: usize = 0;
        let wlen = words[i].0.len();
        proof {
            assert(wlen >= 1);
        }
        while j < wlen - 1
            invariant
                0 <= i < ws.len(),
                wlen == ws[i as int].0.len(),
                wlen >= 1,
                j <= ws[i as int].0.len(),
                ws == crate::utils::words_view(words@),
                s == ws[i as int].0,
                c_spec == ws[i as int].1,
                c == words@[i as int].1,
                wf_words(ws),
                weighted_sum(ws) <= u32::MAX,
                distinct_pairs(pairs_view(ps@)),
                pair_index(ws) == count_words(
                    count_word_from(pairs_view(ps@), s, c_spec, j as int),
                    ws.skip(i as int + 1),
                ),
            decreases ws[i as int].0.len() - j,
        {
            let a = words[i].0[j];
            let b = words[i].0[j + 1];
            let ghost pv = pairs_view(ps@);
            proof {
                assert(s[j as int] == a && s[j as int + 1] == b);
                lemma_count_word_from(pv, s, c_spec, j as int, (a, b));
                assert(occ_from(s, (a, b), j as int) >= 1);
                assert(c_spec * occ_from(s, (a, b), j as int) >= c_spec) by (nonlinear_arith)
                    requires
                        occ_from(s, (a, b), j as int) >= 1,
                        c_spec >= 0,
                ;
                let after_word = count_word_from(pv, s, c_spec, j as int);
                assert(wf_words(ws.skip(i as int + 1)));
                lemma_count_words(after_word, ws.skip(i as int + 1), (a, b));
                lemma_pair_index(ws, (a, b));
                lemma_pair_weight_le(ws, (a, b));
                assert(lookup_pair(pv, (a, b)) + c_spec <= u32::MAX);
                assert(count_word_from(pv, s, c_spec, j as int) == count_word_from(
                    add_pair(pv, (a, b), c_spec),
                    s,
                    c_spec,
                    j as int + 1,
                ));
                lemma_add_pair(pv, (a, b), c_spec, (a, b));
            }
            add_pair_exec(&mut ps, (a, b), c);
            j += 1;
        }
        proof {
            assert(count_word_from(pairs_view(ps@), s, c_spec, j as int) == pairs_view(ps@));
        }
        i += 1;
    }
    proof {
        assert(ws.skip(ws.len() as int) =~= Seq::<WordEntry>::empty());
    }
    ps
}

/// Selects this round's merge candidates: every pair whose count equals the
/// maximum count, in the index's iteration order.
pub(crate) fn select_candidates(ps: &Vec<((u16, u16), u32)>) -> (cands: Vec<(u16, u16)>)
    ensures
        cands@ == candidates(pairs_view(ps@)),
{
    let ghost pv = pairs_view(ps@);
    let mut m: u32 = 0;
    let mut i: usize = 0;
    proof {
        assert(pv.skip(0) =~= pv);
    }
    while i < ps.len()
        invariant
            i <= pv.len(),
            pv == pairs_view(ps@),
            max_pair_val(pv) == (if m as nat > max_pair_val(pv.skip(i as int)) {
                m as nat
            } else {
                max_pair_val(pv.skip(i as int))
            }),
        decreases pv.len() - i,
    {
        proof {
            assert(pv.skip(i as int)[0] == pv[i as int]);
            assert(pv.skip(i as int).skip(1) =~= pv.skip(i as int + 1));
        }
        if ps[i].1 > m {
            m = ps[i].1;
        }
        i += 1;
    }
    proof {
        assert(pv.skip(pv.len() as int) =~= Seq::<PairEntry>::empty());
        assert(max_pair_val(pv) == m as nat);
    }
    let ghost mv = m as nat;
    let mut cands: Vec<(u16, u16)> = Vec::new();
    let mut k: usize = 0;
    proof {
        assert(pv.skip(0) =~= pv);
        assert(cands@ + cands_from(pv, mv) =~= cands_from(pv, mv));
    }
    while k < ps.len()
        invariant
            k <= pv.len(),
            pv == pairs_view(ps@),
            mv == max_pair_val(pv),
            m as nat == mv,
            cands_from(pv, mv) == cands@ + cands_from(pv.skip(k as int), mv),
        decreases pv.len() - k,
    {
        proof {
            assert(pv.skip(k as int)[0] == pv[k as int]);
            assert(pv.skip(k as int).skip(1) =~= pv.skip(k as int + 1));
        }
        let e = ps[k];
        if e.1 == m {
            let ghost before = cands@;
            cands.push((e.0.0, e.0.1));
            proof {
                assert(pv[k as int].0 == (e.0.0, e.0.1));
                assert(cands_from(pv.skip(k as int), mv) == seq![pv[k as int].0] + cands_from(
                    pv.skip(k as int + 1),
                    mv,
                ));
                assert(before + (seq![pv[k as int].0] + cands_from(pv.skip(k as int + 1), mv))
                    =~= cands@ + cands_from(pv.skip(k as int + 1), mv));
            }
        }
        k += 1;
    }
    proof {
        assert(pv.skip(pv.len() as int) =~= Seq::<PairEntry>::empty());
        assert(cands@ + Seq::<TokenPair>::empty() =~= cands@);
    }
    cands
}

} // verus!
