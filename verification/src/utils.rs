//! The word-splitting pre-tokenizer: groups the input byte stream into
//! separator-delimited words, each carrying its leading separator, and
//! aggregates duplicate words with multiplicities.

use vstd::prelude::*;

verus! {

/// A word list entry: the word's token sequence and its multiplicity.
pub type WordEntry = (Seq<u16>, nat);

/// Bumps the multiplicity of the first entry whose word equals `w`, or
/// appends a fresh entry with multiplicity 1.
pub open spec fn bump(words: Seq<WordEntry>, w: Seq<u16>) -> Seq<WordEntry>
    decreases words.len(),
{
    if words.len() == 0 {
        seq![(w, 1nat)]
    } else if words[0].0 == w {
        seq![(words[0].0, (words[0].1 + 1) as nat)] + words.skip(1)
    } else {
        seq![words[0]] + bump(words.skip(1), w)
    }
}

/// One step of the splitter's walk over the input: when the current byte is
/// the separator and the buffer is non-empty, the buffer is flushed as one
/// word and the separator starts the next buffer; otherwise the byte joins
/// the buffer. The final non-empty buffer is flushed at the end.
pub open spec fn split_go(
    bytes: Seq<u8>,
    sep: u8,
    i: int,
    words: Seq<WordEntry>,
    cur: Seq<u16>,
) -> Seq<WordEntry>
    decreases bytes.len() - i,
{
    if i < 0 || i >= bytes.len() {
        if cur.len() > 0 {
            bump(words, cur)
        } else {
            words
        }
    } else if bytes[i] == sep && cur.len() > 0 {
        split_go(bytes, sep, i + 1, bump(words, cur), seq![sep as u16])
    } else {
        split_go(bytes, sep, i + 1, words, cur.push(bytes[i] as u16))
    }
}

/// The word list the splitter produces for `bytes` under separator `sep`.
pub open spec fn split_words(bytes: Seq<u8>, sep: u8) -> Seq<WordEntry> {
    split_go(bytes, sep, 0, Seq::empty(), Seq::empty())
}

/// The abstract view of an executable word list.
pub open spec fn words_view(ws: Seq<(Vec<u16>, u32)>) -> Seq<WordEntry> {
    ws.map_values(|p: (Vec<u16>, u32)| (p.0@, p.1 as nat))
}

/// Every entry has a non-empty word and a positive multiplicity.
pub open spec fn wf_words(ws: Seq<WordEntry>) -> bool {
    forall|j: int| 0 <= j < ws.len() ==> (#[trigger] ws[j]).1 >= 1 && ws[j].0.len() >= 1
}

/// Every token of every word is known under `n` learned entries.
pub open spec fn words_known(n: int, ws: Seq<WordEntry>) -> bool {
    forall|j: int| 0 <= j < ws.len() ==> crate::model::all_known(n, (#[trigger] ws[j]).0)
}

/// The total number of tokens, weighted by multiplicity.
pub open spec fn weighted_sum(ws: Seq<WordEntry>) -> nat
    decreases ws.len(),
{
    if ws.len() == 0 {
        0nat
    } else {
        (ws[0].1 * ws[0].0.len() + weighted_sum(ws.skip(1))) as nat
    }
}

/// Each entry's weighted length is no more than the total.
pub proof fn lemma_entry_le_weighted(ws: Seq<WordEntry>, j: int)
    requires
        0 <= j < ws.len(),
    ensures
        ws[j].1 * ws[j].0.len() <= weighted_sum(ws),
    decreases ws.len(),
{
    if j == 0 {
    } else {
        lemma_entry_le_weighted(ws.skip(1), j - 1);
        assert(ws.skip(1)[j - 1] == ws[j]);
    }
}

/// Bumping adds exactly the word's length to the weighted total, keeps
/// well-formedness, and keeps every token known.
pub proof fn lemma_bump_facts(ws: Seq<WordEntry>, w: Seq<u16>, n: int)
    requires
        wf_words(ws),
        w.len() >= 1,
        words_known(n, ws),
        crate::model::all_known(n, w),
    ensures
        weighted_sum(bump(ws, w)) == weighted_sum(ws) + w.len(),
        wf_words(bump(ws, w)),
        words_known(n, bump(ws, w)),
    decreases ws.len(),
{
    if ws.len() == 0 {
        assert(bump(ws, w) =~= seq![(w, 1nat)]);
        assert(bump(ws, w).skip(1) =~= Seq::<WordEntry>::empty());
        assert(weighted_sum(Seq::<WordEntry>::empty()) == 0);
        assert(weighted_sum(bump(ws, w)) == 1nat * w.len() + weighted_sum(
            Seq::<WordEntry>::empty(),
        ));
        assert(1nat * w.len() == w.len()) by (nonlinear_arith);
    } else if ws[0].0 == w {
        let r = seq![(ws[0].0, (ws[0].1 + 1) as nat)] + ws.skip(1);
        assert(r.skip(1) =~= ws.skip(1));
        assert(weighted_sum(r) == (ws[0].1 + 1) * ws[0].0.len() + weighted_sum(ws.skip(1)));
        assert((ws[0].1 + 1) * ws[0].0.len() == ws[0].1 * ws[0].0.len() + ws[0].0.len())
            by (nonlinear_arith);
        assert(wf_words(r)) by {
            assert(forall|j: int| 1 <= j < r.len() ==> r[j] == ws[j]);
        }
        assert(words_known(n, r)) by {
            assert(forall|j: int| 1 <= j < r.len() ==> r[j] == ws[j]);
        }
    } else {
        assert(wf_words(ws.skip(1)));
        assert(words_known(n, ws.skip(1)));
        lemma_bump_facts(ws.skip(1), w, n);
        let r = seq![ws[0]] + bump(ws.skip(1), w);
        assert(r.skip(1) =~= bump(ws.skip(1), w));
        assert(weighted_sum(r) == ws[0].1 * ws[0].0.len() + weighted_sum(bump(ws.skip(1), w)));
        assert(wf_words(r)) by {
            assert(forall|j: int| 1 <= j < r.len() ==> r[j] == bump(ws.skip(1), w)[j - 1]);
        }
        assert(words_known(n, r)) by {
            assert(forall|j: int| 1 <= j < r.len() ==> r[j] == bump(ws.skip(1), w)[j - 1]);
        }
    }
}

/// Bumping a word whose first match sits at index `j` only increments that
/// entry's multiplicity.
pub proof fn lemma_bump_found(ws: Seq<WordEntry>, w: Seq<u16>, j: int)
    requires
        0 <= j < ws.len(),
        ws[j].0 == w,
        forall|m: int| 0 <= m < j ==> (#[trigger] ws[m]).0 != w,
    ensures
        bump(ws, w) == ws.update(j, (ws[j].0, (ws[j].1 + 1) as nat)),
    decreases ws.len(),
{
    if j == 0 {
        assert(bump(ws, w) =~= ws.update(0, (ws[0].0, (ws[0].1 + 1) as nat)));
    } else {
        assert(forall|m: int| 0 <= m < j - 1 ==> (#[trigger] ws.skip(1)[m]).0 != w);
        assert(ws.skip(1)[j - 1] == ws[j]);
        lemma_bump_found(ws.skip(1), w, j - 1);
        assert(seq![ws[0]] + ws.skip(1).update(j - 1, (ws[j].0, (ws[j].1 + 1) as nat)) =~= ws
            .update(j, (ws[j].0, (ws[j].1 + 1) as nat)));
    }
}

/// Bumping a word that no entry holds appends a fresh entry.
pub proof fn lemma_bump_missing(ws: Seq<WordEntry>, w: Seq<u16>)
    requires
        forall|m: int| 0 <= m < ws.len() ==> (#[trigger] ws[m]).0 != w,
    ensures
        bump(ws, w) == ws.push((w, 1nat)),
    decreases ws.len(),
{
    if ws.len() == 0 {
        assert(bump(ws, w) =~= ws.push((w, 1nat)));
    } else {
        assert(forall|m: int| 0 <= m < ws.skip(1).len() ==> (#[trigger] ws.skip(1)[m]).0 != w);
        lemma_bump_missing(ws.skip(1), w);
        assert(seq![ws[0]] + ws.skip(1).push((w, 1nat)) =~= ws.push((w, 1nat)));
    }
}

/// Token-by-token equality of two executable token vectors.
pub(crate) fn vecs_equal(a: &Vec<u16>, b: &Vec<u16>) -> (r: bool)
    ensures
        r <==> a@ == b@,
{
    if a.len() != b.len() {
        proof {
            assert(a@.len() != b@.len());
        }
        return false;
    }
    let mut i: usize = 0;
    while i < a.len()
        invariant
            i <= a@.len(),
            a@.len() == b@.len(),
            forall|j: int| 0 <= j < i ==> a@[j] == b@[j],
        decreases a@.len() - i,
    {
        if a[i] != b[i] {
            return false;
        }
        i += 1;
    }
    proof {
        assert(a@ =~= b@);
    }
    true
}

/// Adds one occurrence of the word `w` to the list: the first entry holding
/// the same token sequence is incremented, or a fresh entry is appended.
fn bump_word(words: &mut Vec<(Vec<u16>, u32)>, w: Vec<u16>)
    requires
        wf_words(words_view(old(words)@)),
        w@.len() >= 1,
        weighted_sum(words_view(old(words)@)) + w@.len() <= u32::MAX,
    ensures
        words_view(final(words)@) == bump(words_view(old(words)@), w@),
{
    let ghost ws = words_view(words@);
    let mut j: usize = 0;
    while j < words.len()
        invariant
            j <= words@.len(),
            words@ == old(words)@,
            ws == words_view(words@),
            wf_words(ws),
            weighted_sum(ws) + w@.len() <= u32::MAX,
            forall|m: int| 0 <= m < j ==> (#[trigger] ws[m]).0 != w@,
        decreases words@.len() - j,
    {
        let hit = vecs_equal(&words[j].0, &w);
        if hit {
            proof {
                assert(ws[j as int].0 == w@);
                lemma_entry_le_weighted(ws, j as int);
                assert(ws[j as int].1 <= ws[j as int].1 * ws[j as int].0.len())
                    by (nonlinear_arith)
                    requires
                        ws[j as int].0.len() >= 1,
                ;
                lemma_bump_found(ws, w@, j as int);
            }
            let mut entry = words.remove(j);
            entry.1 = entry.1 + 1;
            words.insert(j, entry);
            proof {
                assert(words@ =~= old(words)@.update(j as int, (old(words)@[j as int].0, (old(
                    words,
                )@[j as int].1 + 1) as u32)));
                assert(words_view(words@) =~= bump(ws, w@));
            }
            return ;
        }
        j += 1;
    }
    proof {
        lemma_bump_missing(ws, w@);
    }
    words.push((w, 1));
    proof {
        assert(words_view(words@) =~= bump(ws, w@));
    }
}

/// Splits the input bytes into separator-delimited words, each keeping its
/// leading separator, aggregated with multiplicities in first-appearance
/// order. The weighted token total equals the input length: every input byte
/// lands in exactly one word occurrence.
pub fn to_word_tokens(input_bytes: Vec<u8>, split_byte: u8) -> (words: Vec<(Vec<u16>, u32)>)
    requires
        input_bytes@.len() <= u32::MAX,
    ensures
        words_view(words@) == split_words(input_bytes@, split_byte),
        wf_words(words_view(words@)),
        words_known(0, words_view(words@)),
        weighted_sum(words_view(words@)) == input_bytes@.len(),
{
    let ghost bs = input_bytes@;
    let mut words: Vec<(Vec<u16>, u32)> = Vec::new();
    let mut cur: Vec<u16> = Vec::new();
    let mut i: usize = 0;
    proof {
        assert(words_view(words@) =~= Seq::<WordEntry>::empty());
    }
    while i < input_bytes.len()
        invariant
            i <= bs.len(),
            bs == input_bytes@,
            bs.len() <= u32::MAX,
            split_words(bs, split_byte) == split_go(
                bs,
                split_byte,
                i as int,
                words_view(words@),
                cur@,
            ),
            weighted_sum(words_view(words@)) + cur@.len() == i,
            wf_words(words_view(words@)),
            words_known(0, words_view(words@)),
            crate::model::all_known(0, cur@),
        decreases bs.len() - i,
    {
        let b = input_bytes[i];
        if b == split_byte && cur.len() > 0 {
            let mut flushed: Vec<u16> = Vec::new();
            core::mem::swap(&mut flushed, &mut cur);
            proof {
                lemma_bump_facts(words_view(words@), flushed@, 0);
            }
            bump_word(&mut words, flushed);
            cur.push(split_byte as u16);
        } else {
            cur.push(b as u16);
        }
        i += 1;
    }
    if cur.len() > 0 {
        proof {
            lemma_bump_facts(words_view(words@), cur@, 0);
        }
        bump_word(&mut words, cur);
    }
    words
}

} // verus!
