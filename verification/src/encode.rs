//! The trie-based fast encoder: a byte-keyed prefix tree built from the
//! vocabulary, and longest-match left-to-right encoding over it.

use vstd::prelude::*;

use crate::exceptions::TokenizerError;
use crate::vocab::Vocab;

pub use crate::tokenizer::encode;

verus! {

/// A byte-keyed prefix tree. Each node optionally carries the token id of
/// the byte sequence spelled by its path from the root.
pub struct MergeTree {
    children: Vec<(u8, MergeTree)>,
    token: Option<u16>,
}

/// The subtree stored under key `k`, resolved to the first matching child.
pub closed spec fn child_of(cs: Seq<(u8, MergeTree)>, k: u8) -> Option<MergeTree>
    decreases cs.len(),
{
    if cs.len() == 0 {
        None
    } else if cs[0].0 == k {
        Some(cs[0].1)
    } else {
        child_of(cs.skip(1), k)
    }
}

/// The node reached from `t` by following the byte path `p`.
pub closed spec fn node_at(t: MergeTree, p: Seq<u8>) -> Option<MergeTree>
    decreases p.len(),
{
    if p.len() == 0 {
        Some(t)
    } else {
        match child_of(t.children@, p[0]) {
            Some(c) => node_at(c, p.skip(1)),
            None => None,
        }
    }
}

/// The token stored at byte path `p`, if the path exists and carries one.
pub closed spec fn tree_token(t: MergeTree, p: Seq<u8>) -> Option<u16>
    decreases p.len(),
{
    if p.len() == 0 {
        t.token
    } else {
        match child_of(t.children@, p[0]) {
            Some(c) => tree_token(c, p.skip(1)),
            None => None,
        }
    }
}

/// The stored token is the token of the reached node.
proof fn lemma_tree_token_node_at(t: MergeTree, p: Seq<u8>)
    ensures
        tree_token(t, p) == (match node_at(t, p) {
            Some(n) => n.token,
            None => None,
        }),
    decreases p.len(),
{
    if p.len() == 0 {
    } else {
        match child_of(t.children@, p[0]) {
            Some(c) => {
                lemma_tree_token_node_at(c, p.skip(1));
            },
            None => {},
        }
    }
}

/// Following a concatenated path descends in two stages.
proof fn lemma_node_at_concat(t: MergeTree, p: Seq<u8>, q: Seq<u8>)
    ensures
        node_at(t, p + q) == (match node_at(t, p) {
            Some(n) => node_at(n, q),
            None => None,
        }),
    decreases p.len(),
{
    if p.len() == 0 {
        assert(p + q =~= q);
    } else {
        assert((p + q)[0] == p[0]);
        assert((p + q).skip(1) =~= p.skip(1) + q);
        match child_of(t.children@, p[0]) {
            Some(c) => {
                lemma_node_at_concat(c, p.skip(1), q);
            },
            None => {},
        }
    }
}

/// Two non-empty sequences with equal heads and equal tails are equal.
proof fn lemma_head_tail_eq(p: Seq<u8>, q: Seq<u8>)
    requires
        p.len() >= 1,
        q.len() >= 1,
        p[0] == q[0],
        p.skip(1) == q.skip(1),
    ensures
        p == q,
{
    assert(p.skip(1).len() == p.len() - 1);
    assert(q.skip(1).len() == q.len() - 1);
    assert forall|m: int| 0 <= m < p.len() implies p[m] == q[m] by {
        if m > 0 {
            assert(p.skip(1)[m - 1] == p[m]);
            assert(q.skip(1)[m - 1] == q[m]);
        }
    }
    assert(p =~= q);
}

/// The first child with key `k`, if any.
fn find_child_index(cs: &Vec<(u8, MergeTree)>, k: u8) -> (r: Option<usize>)
    ensures
        match r {
            Some(j) => j < cs@.len() && cs@[j as int].0 == k && (forall|m: int|
                0 <= m < j ==> (#[trigger] cs@[m]).0 != k),
            None => forall|m: int| 0 <= m < cs@.len() ==> (#[trigger] cs@[m]).0 != k,
        },
{
    let mut j: usize = 0;
    while j < cs.len()
        invariant
            j <= cs@.len(),
            forall|m: int| 0 <= m < j ==> (#[trigger] cs@[m]).0 != k,
        decreases cs@.len() - j,
    {
        if cs[j].0 == k {
            return Some(j);
        }
        j += 1;
    }
    None
}

/// The first matching child is what `child_of` resolves to.
proof fn lemma_child_of_found(cs: Seq<(u8, MergeTree)>, k: u8, j: int)
    requires
        0 <= j < cs.len(),
        cs[j].0 == k,
        forall|m: int| 0 <= m < j ==> (#[trigger] cs[m]).0 != k,
    ensures
        child_of(cs, k) == Some(cs[j].1),
    decreases j,
{
    if j == 0 {
    } else {
        assert(cs.skip(1)[j - 1] == cs[j]);
        assert(forall|m: int| 0 <= m < j - 1 ==> (#[trigger] cs.skip(1)[m]).0 != k);
        lemma_child_of_found(cs.skip(1), k, j - 1);
    }
}

/// Without a matching child, `child_of` resolves to nothing.
proof fn lemma_child_of_missing(cs: Seq<(u8, MergeTree)>, k: u8)
    requires
        forall|m: int| 0 <= m < cs.len() ==> (#[trigger] cs[m]).0 != k,
    ensures
        child_of(cs, k) is None,
    decreases cs.len(),
{
    if cs.len() == 0 {
    } else {
        assert(forall|m: int| 0 <= m < cs.skip(1).len() ==> (#[trigger] cs.skip(1)[m]).0 != k);
        lemma_child_of_missing(cs.skip(1), k);
    }
}

/// Replacing the first matching child only changes that key's subtree.
proof fn lemma_child_of_update(cs: Seq<(u8, MergeTree)>, k: u8, j: int, c: MergeTree, q: u8)
    requires
        0 <= j < cs.len(),
        cs[j].0 == k,
        forall|m: int| 0 <= m < j ==> (#[trigger] cs[m]).0 != k,
    ensures
        child_of(cs.update(j, (k, c)), q) == (if q == k {
            Some(c)
        } else {
            child_of(cs, q)
        }),
    decreases j,
{
    let cs2 = cs.update(j, (k, c));
    if j == 0 {
        assert(cs2[0] == (k, c));
        assert(cs2.skip(1) =~= cs.skip(1));
    } else {
        assert(cs2[0] == cs[0]);
        assert(cs2.skip(1) =~= cs.skip(1).update(j - 1, (k, c)));
        assert(cs.skip(1)[j - 1] == cs[j]);
        assert(forall|m: int| 0 <= m < j - 1 ==> (#[trigger] cs.skip(1)[m]).0 != k);
        lemma_child_of_update(cs.skip(1), k, j - 1, c, q);
    }
}

/// Appending a child under a fresh key only adds that key's subtree.
proof fn lemma_child_of_push(cs: Seq<(u8, MergeTree)>, k: u8, c: MergeTree, q: u8)
    requires
        forall|m: int| 0 <= m < cs.len() ==> (#[trigger] cs[m]).0 != k,
    ensures
        child_of(cs.push((k, c)), q) == (if q == k {
            Some(c)
        } else {
            child_of(cs, q)
        }),
    decreases cs.len(),
{
    let cs2 = cs.push((k, c));
    if cs.len() == 0 {
        assert(cs2[0] == (k, c));
        assert(cs2.skip(1) =~= Seq::<(u8, MergeTree)>::empty());
        assert(child_of(Seq::<(u8, MergeTree)>::empty(), q) is None);
    } else {
        assert(cs2[0] == cs[0]);
        assert(cs2.skip(1) =~= cs.skip(1).push((k, c)));
        assert(forall|m: int| 0 <= m < cs.skip(1).len() ==> (#[trigger] cs.skip(1)[m]).0 != k);
        lemma_child_of_push(cs.skip(1), k, c, q);
    }
}

/// A copy of a byte vector.
fn copy_bytes(v: &Vec<u8>) -> (out: Vec<u8>)
    ensures
        out@ == v@,
{
    let mut out: Vec<u8> = Vec::new();
    let mut i: usize = 0;
    while i < v.len()
        invariant
            i <= v@.len(),
            out@ == v@.take(i as int),
        decreases v@.len() - i,
    {
        out.push(v[i]);
        proof {
            assert(v@.take(i as int).push(v@[i as int]) =~= v@.take(i as int + 1));
        }
        i += 1;
    }
    proof {
        assert(v@.take(v@.len() as int) =~= v@);
    }
    out
}

/// A fresh single-path chain holding `token` at the end of `keys[i..]`.
fn make_chain(keys: &Vec<u8>, i: usize, token: u16) -> (t: MergeTree)
    requires
        i <= keys@.len(),
    ensures
        forall|p: Seq<u8>|
            #![trigger tree_token(t, p)]
            tree_token(t, p) == (if p == keys@.skip(i as int) {
                Some(token)
            } else {
                None::<u16>
            }),
    decreases keys@.len() - i,
{
    if i == keys.len() {
        let t = MergeTree { children: Vec::new(), token: Some(token) };
        proof {
            assert(keys@.skip(i as int) =~= Seq::<u8>::empty());
            assert forall|p: Seq<u8>|
                #![trigger tree_token(t, p)]
                tree_token(t, p) == (if p == keys@.skip(i as int) {
                    Some(token)
                } else {
                    None::<u16>
                }) by {
                if p.len() == 0 {
                    assert(p =~= keys@.skip(i as int));
                } else {
                    assert(child_of(t.children@, p[0]) is None);
                    assert(p != keys@.skip(i as int));
                }
            }
        }
        t
    } else {
        let k = keys[i];
        let child = make_chain(keys, i + 1, token);
        let mut cs: Vec<(u8, MergeTree)> = Vec::new();
        cs.push((k, child));
        let t = MergeTree { children: cs, token: None };
        proof {
            let suffix = keys@.skip(i as int);
            assert(suffix.len() >= 1);
            assert(suffix[0] == k);
            assert(suffix.skip(1) =~= keys@.skip(i as int + 1));
            assert forall|p: Seq<u8>|
                #![trigger tree_token(t, p)]
                tree_token(t, p) == (if p == suffix {
                    Some(token)
                } else {
                    None::<u16>
                }) by {
                if p.len() == 0 {
                } else {
                    assert(t.children@[0] == (k, child));
                    assert(t.children@.skip(1) =~= Seq::<(u8, MergeTree)>::empty());
                    if p[0] == k {
                        assert(child_of(t.children@, p[0]) == Some(child));
                        assert(tree_token(t, p) == tree_token(child, p.skip(1)));
                        if p.skip(1) == keys@.skip(i as int + 1) {
                            lemma_head_tail_eq(p, suffix);
                        } else {
                            assert(p != suffix);
                        }
                    } else {
                        assert(child_of(Seq::<(u8, MergeTree)>::empty(), p[0]) is None);
                        assert(child_of(t.children@, p[0]) is None);
                        assert(p != suffix);
                    }
                }
            }
        }
        t
    }
}

impl Default for MergeTree {
    /// An empty tree: no token is stored at any path.
    fn default() -> (t: Self)
        ensures
            forall|p: Seq<u8>| #![trigger tree_token(t, p)] tree_token(t, p) is None,
    {
        let t = MergeTree { children: Vec::new(), token: None };
        proof {
            assert forall|p: Seq<u8>| #![trigger tree_token(t, p)] tree_token(t, p) is None by {
                if p.len() != 0 {
                    assert(child_of(t.children@, p[0]) is None);
                }
            }
        }
        t
    }
}

impl MergeTree {
    /// The subtree under byte `key`, if any.
    fn get(&self, key: u8) -> (r: Option<&MergeTree>)
        ensures
            match r {
                Some(c) => child_of(self.children@, key) == Some(*c),
                None => child_of(self.children@, key) is None,
            },
    {
        match find_child_index(&self.children, key) {
            Some(j) => {
                proof {
                    lemma_child_of_found(self.children@, key, j as int);
                }
                Some(&self.children[j].1)
            },
            None => {
                proof {
                    lemma_child_of_missing(self.children@, key);
                }
                None
            },
        }
    }

    /// Stores `token` at the byte path `keys[i..]`, creating nodes as
    /// needed. Rejects a collision with a token already stored at exactly
    /// that path; every other path is untouched.
    fn set_rec(&mut self, keys: &Vec<u8>, i: usize, token: u16) -> (r: Result<(), TokenizerError>)
        requires
            i <= keys@.len(),
        ensures
            match r {
                Ok(()) => tree_token(*old(self), keys@.skip(i as int)) is None && (forall|
                    p: Seq<u8>,
                |
                    #![trigger tree_token(*final(self), p)]
                    tree_token(*final(self), p) == (if p == keys@.skip(i as int) {
                        Some(token)
                    } else {
                        tree_token(*old(self), p)
                    })),
                Err(e) => (forall|p: Seq<u8>|
                    #![trigger tree_token(*final(self), p)]
                    tree_token(*final(self), p) == tree_token(*old(self), p)) && tree_token(
                    *old(self),
                    keys@.skip(i as int),
                ) is Some && (e matches TokenizerError::VocabCollision(bs) && bs@ == keys@),
            },
        decreases keys@.len() - i,
    {
        if i == keys.len() {
            proof {
                assert(keys@.skip(i as int) =~= Seq::<u8>::empty());
            }
            match self.token {
                Some(_) => {
                    let bs = copy_bytes(keys);
                    Err(TokenizerError::VocabCollision(bs))
                },
                None => {
                    self.token = Some(token);
                    proof {
                        assert forall|p: Seq<u8>|
                            #![trigger tree_token(*self, p)]
                            tree_token(*self, p) == (if p == keys@.skip(i as int) {
                                Some(token)
                            } else {
                                tree_token(*old(self), p)
                            }) by {
                            if p.len() == 0 {
                                assert(p =~= keys@.skip(i as int));
                            } else {
                                assert(self.children@ == old(self).children@);
                                assert(tree_token(*self, p) == (match child_of(
                                    self.children@,
                                    p[0],
                                ) {
                                    Some(c) => tree_token(c, p.skip(1)),
                                    None => None,
                                }));
                                assert(tree_token(*old(self), p) == (match child_of(
                                    old(self).children@,
                                    p[0],
                                ) {
                                    Some(c) => tree_token(c, p.skip(1)),
                                    None => None,
                                }));
                                assert(p != keys@.skip(i as int));
                            }
                        }
                    }
                    Ok(())
                },
            }
        } else {
            let k = keys[i];
            let ghost suffix = keys@.skip(i as int);
            proof {
                assert(suffix[0] == k);
                assert(suffix.skip(1) =~= keys@.skip(i as int + 1));
            }
            match find_child_index(&self.children, k) {
                Some(j) => {
                    proof {
                        lemma_child_of_found(self.children@, k, j as int);
                    }
                    let ghost cs0 = self.children@;
                    let ghost child0 = self.children@[j as int].1;
                    let mut pair = self.children.remove(j);
                    let res = pair.1.set_rec(keys, i + 1, token);
                    let ghost child1 = pair.1;
                    self.children.insert(j, pair);
                    proof {
                        assert(self.children@ =~= cs0.update(j as int, (k, child1)));
                        assert(self.token == old(self).token);
                        match res {
                            Ok(()) => {
                                assert(tree_token(child0, suffix.skip(1)) is None);
                                assert(tree_token(*old(self), suffix) == tree_token(
                                    child0,
                                    suffix.skip(1),
                                ));
                                assert forall|p: Seq<u8>|
                                    #![trigger tree_token(*self, p)]
                                    tree_token(*self, p) == (if p == suffix {
                                        Some(token)
                                    } else {
                                        tree_token(*old(self), p)
                                    }) by {
                                    if p.len() == 0 {
                                        assert(p != suffix);
                                    } else {
                                        lemma_child_of_update(cs0, k, j as int, child1, p[0]);
                                        if p[0] == k {
                                            assert(tree_token(*self, p) == tree_token(
                                                child1,
                                                p.skip(1),
                                            ));
                                            assert(tree_token(*old(self), p) == tree_token(
                                                child0,
                                                p.skip(1),
                                            ));
                                            if p.skip(1) == suffix.skip(1) {
                                                lemma_head_tail_eq(p, suffix);
                                            } else {
                                                assert(p != suffix);
                                            }
                                        } else {
                                            assert(p != suffix);
                                            assert(tree_token(*self, p) == tree_token(
                                                *old(self),
                                                p,
                                            ));
                                        }
                                    }
                                }
                            },
                            Err(_) => {
                                assert(tree_token(*old(self), suffix) == tree_token(
                                    child0,
                                    suffix.skip(1),
                                ));
                                assert(tree_token(child1, suffix.skip(1)) == tree_token(
                                    child0,
                                    suffix.skip(1),
                                ));
                                assert forall|p: Seq<u8>|
                                    #![trigger tree_token(*self, p)]
                                    tree_token(*self, p) == tree_token(*old(self), p) by {
                                    if p.len() != 0 {
                                        lemma_child_of_update(cs0, k, j as int, child1, p[0]);
                                        assert(tree_token(*old(self), p) == (match child_of(
                                            cs0,
                                            p[0],
                                        ) {
                                            Some(c) => tree_token(c, p.skip(1)),
                                            None => None,
                                        }));
                                        if p[0] == k {
                                            assert(tree_token(*self, p) == tree_token(
                                                child1,
                                                p.skip(1),
                                            ));
                                            assert(tree_token(child1, p.skip(1)) == tree_token(
                                                child0,
                                                p.skip(1),
                                            ));
                                        }
                                    }
                                }
                            },
                        }
                    }
                    res
                },
                None => {
                    proof {
                        lemma_child_of_missing(self.children@, k);
                    }
                    let ghost cs0 = self.children@;
                    let chain = make_chain(keys, i + 1, token);
                    self.children.push((k, chain));
                    proof {
                        assert(self.children@ =~= cs0.push((k, chain)));
                        assert(self.token == old(self).token);
                        assert(tree_token(*old(self), suffix) is None);
                        assert forall|p: Seq<u8>|
                            #![trigger tree_token(*self, p)]
                            tree_token(*self, p) == (if p == suffix {
                                Some(token)
                            } else {
                                tree_token(*old(self), p)
                            }) by {
                            if p.len() == 0 {
                                assert(p != suffix);
                            } else {
                                lemma_child_of_push(cs0, k, chain, p[0]);
                                if p[0] == k {
                                    assert(tree_token(*self, p) == tree_token(chain, p.skip(1)));
                                    assert(tree_token(*old(self), p) is None);
                                    if p.skip(1) == keys@.skip(i as int + 1) {
                                        lemma_head_tail_eq(p, suffix);
                                    } else {
                                        assert(p != suffix);
                                    }
                                } else {
                                    assert(p != suffix);
                                }
                            }
                        }
                    }
                    Ok(())
                },
            }
        }
    }

    /// Stores `token` at the non-empty byte path `keys`.
    fn set(&mut self, keys: &Vec<u8>, token: u16) -> (r: Result<(), TokenizerError>)
        requires
            keys@.len() >= 1,
        ensures
            match r {
                Ok(()) => tree_token(*old(self), keys@) is None && (forall|p: Seq<u8>|
                    #![trigger tree_token(*final(self), p)]
                    tree_token(*final(self), p) == (if p == keys@ {
                        Some(token)
                    } else {
                        tree_token(*old(self), p)
                    })),
                Err(e) => (forall|p: Seq<u8>|
                    #![trigger tree_token(*final(self), p)]
                    tree_token(*final(self), p) == tree_token(*old(self), p)) && tree_token(
                    *old(self),
                    keys@,
                ) is Some && (e matches TokenizerError::VocabCollision(bs) && bs@ == keys@),
            },
    {
        proof {
            assert(keys@.skip(0) =~= keys@);
        }
        self.set_rec(keys, 0, token)
    }
}

/// Builds the byte trie of a vocabulary: the entry of id `256 + i` is stored
/// as the path `vocab[i]`. Succeeds exactly when all entries are distinct;
/// a duplicate entry is rejected as a vocabulary collision carrying the
/// duplicated byte sequence.
pub fn vocab_to_merge_tree(vocab: &Vocab) -> (r: Result<MergeTree, TokenizerError>)
    ensures
        r matches Ok(t) ==> (forall|i: int|
            0 <= i < vocab@.len() ==> tree_token(t, #[trigger] vocab@[i]) == Some(
                (256 + i) as u16,
            )) && (forall|p: Seq<u8>|
            #![trigger tree_token(t, p)]
            tree_token(t, p) is Some ==> exists|i: int|
                0 <= i < vocab@.len() && vocab@[i] == p) && (forall|i: int, j: int|
            0 <= i < j < vocab@.len() ==> vocab@[i] != vocab@[j]),
        r matches Err(e) ==> (e matches TokenizerError::VocabCollision(bs) && exists|i: int, j: int|
            0 <= i < j < vocab@.len() && vocab@[i] == vocab@[j] && vocab@[j] == bs@),
{
    let mut root = MergeTree { children: Vec::new(), token: None };
    proof {
        assert forall|p: Seq<u8>| #![trigger tree_token(root, p)] tree_token(root, p) is None by {
            if p.len() != 0 {
                assert(child_of(root.children@, p[0]) is None);
            }
        }
    }
    let n = vocab.len();
    let mut k: usize = 0;
    while k < n
        invariant
            k <= n,
            n == vocab@.len(),
            n <= 65280,
            forall|i: int|
                0 <= i < k ==> tree_token(root, #[trigger] vocab@[i]) == Some((256 + i) as u16),
            forall|p: Seq<u8>|
                #![trigger tree_token(root, p)]
                tree_token(root, p) is Some ==> exists|i: int| 0 <= i < k && vocab@[i] == p,
            forall|i: int, j: int| 0 <= i < j < k ==> vocab@[i] != vocab@[j],
        decreases n - k,
    {
        let e = vocab.entry_at(k);
        let tok: u16 = 256 + (k as u16);
        let res = root.set(e, tok);
        match res {
            Ok(()) => {},
            Err(err) => {
                proof {
                    assert(tree_token(root, vocab@[k as int]) is Some);
                    let i = choose|i: int| 0 <= i < k && vocab@[i] == vocab@[k as int];
                    assert(0 <= i < k as int && vocab@[i] == vocab@[k as int]);
                }
                return Err(err);
            },
        }
        k += 1;
    }
    Ok(root)
}

/// The token stored for the `l`-byte slice of `bytes` starting at `i`.
pub open spec fn match_token(t: MergeTree, bytes: Seq<u8>, i: int, l: int) -> Option<u16> {
    tree_token(t, bytes.subrange(i, i + l))
}

/// The longest match at position `i`: the greatest `l <= cap` whose slice
/// carries a token, or 0 when no prefix does.
pub open spec fn best_len(t: MergeTree, bytes: Seq<u8>, i: int, cap: int) -> int
    decreases cap,
{
    if cap <= 0 {
        0
    } else if match_token(t, bytes, i, cap) is Some {
        cap
    } else {
        best_len(t, bytes, i, cap - 1)
    }
}

/// The longest match is bounded by its cap and, when positive, matches.
pub proof fn lemma_best_len_bounds(t: MergeTree, bytes: Seq<u8>, i: int, cap: int)
    ensures
        0 <= best_len(t, bytes, i, cap),
        cap >= 0 ==> best_len(t, bytes, i, cap) <= cap,
        best_len(t, bytes, i, cap) > 0 ==> match_token(
            t,
            bytes,
            i,
            best_len(t, bytes, i, cap),
        ) is Some,
    decreases cap,
{
    if cap <= 0 {
    } else if match_token(t, bytes, i, cap) is Some {
    } else {
        lemma_best_len_bounds(t, bytes, i, cap - 1);
    }
}

/// A value that matches, above which nothing matches, is the longest match.
pub proof fn lemma_best_len_char(t: MergeTree, bytes: Seq<u8>, i: int, cap: int, b: int)
    requires
        0 <= b <= cap,
        b > 0 ==> match_token(t, bytes, i, b) is Some,
        forall|l: int| b < l <= cap ==> match_token(t, bytes, i, l) is None,
    ensures
        best_len(t, bytes, i, cap) == b,
    decreases cap,
{
    if cap <= 0 {
    } else if match_token(t, bytes, i, cap) is Some {
        assert(b == cap);
    } else {
        lemma_best_len_char(t, bytes, i, cap - 1, b);
    }
}

/// Longest-match tokenization from position `i`: emit the token of the
/// longest matching slice, or the literal byte when no slice carries a
/// token, and continue after what was consumed.
pub open spec fn fast_encode_from(t: MergeTree, bytes: Seq<u8>, i: int) -> Seq<u16>
    decreases bytes.len() - i
        via fast_encode_from_dec
{
    if i < 0 || i >= bytes.len() {
        Seq::empty()
    } else {
        let l = best_len(t, bytes, i, bytes.len() - i);
        if l <= 0 {
            seq![bytes[i] as u16] + fast_encode_from(t, bytes, i + 1)
        } else {
            match match_token(t, bytes, i, l) {
                Some(tok) => seq![tok] + fast_encode_from(t, bytes, i + l),
                None => Seq::empty(),
            }
        }
    }
}

#[via_fn]
proof fn fast_encode_from_dec(t: MergeTree, bytes: Seq<u8>, i: int) {
    if 0 <= i < bytes.len() {
        lemma_best_len_bounds(t, bytes, i, bytes.len() - i);
    }
}

/// Longest-match tokenization of the whole byte sequence.
pub open spec fn fast_encode(t: MergeTree, bytes: Seq<u8>) -> Seq<u16> {
    fast_encode_from(t, bytes, 0)
}

/// Encodes text over a byte trie by longest match, left to right: from each
/// position, the deepest trie node carrying a token wins; a byte without
/// any tokenized prefix is emitted as its literal byte token. Never fails.
pub fn encode_from_merge_tree(input_str: &str, merge_tree: MergeTree) -> (r: Result<
    Vec<u16>,
    TokenizerError,
>)
    ensures
        r matches Ok(toks) && toks@ == fast_encode(
            merge_tree,
            vstd::utf8::encode_utf8(input_str@),
        ),
{
    let bytes = input_str.as_bytes_vec();
    let ghost bs = bytes@;
    let mut out: Vec<u16> = Vec::new();
    let mut i: usize = 0;
    proof {
        assert(Seq::<u16>::empty() + fast_encode_from(merge_tree, bs, 0) =~= fast_encode(
            merge_tree,
            bs,
        ));
    }
    while i < bytes.len()
        invariant
            i <= bs.len(),
            bs == bytes@,
            fast_encode(merge_tree, bs) == out@ + fast_encode_from(merge_tree, bs, i as int),
        decreases bs.len() - i,
    {
        let mut best: usize = 0;
        let mut best_tok: u16 = bytes[i] as u16;
        let mut j: usize = i;
        let mut cur: &MergeTree = &merge_tree;
        proof {
            assert(bs.subrange(i as int, i as int) =~= Seq::<u8>::empty());
        }
        while j < bytes.len()
            invariant
                i <= j <= bs.len(),
                i < bs.len(),
                bs == bytes@,
                node_at(merge_tree, bs.subrange(i as int, j as int)) == Some(*cur),
                best <= j - i,
                best == 0 ==> best_tok == bs[i as int] as u16,
                best > 0 ==> match_token(merge_tree, bs, i as int, best as int) == Some(
                    best_tok,
                ),
                forall|l: int|
                    best < l <= j - i ==> match_token(merge_tree, bs, i as int, l) is None,
            ensures
                i <= j <= bs.len(),
                best <= j - i,
                best == 0 ==> best_tok == bs[i as int] as u16,
                best > 0 ==> match_token(merge_tree, bs, i as int, best as int) == Some(
                    best_tok,
                ),
                forall|l: int|
                    best < l <= bs.len() - i ==> match_token(merge_tree, bs, i as int, l) is None,
            decreases bs.len() - j,
        {
            let b = bytes[j];
            match cur.get(b) {
                Some(c) => {
                    proof {
                        assert(bs.subrange(i as int, j as int + 1) =~= bs.subrange(
                            i as int,
                            j as int,
                        ) + seq![b]);
                        lemma_node_at_concat(merge_tree, bs.subrange(i as int, j as int), seq![b]);
                        assert(seq![b].skip(1) =~= Seq::<u8>::empty());
                        assert(node_at(*cur, seq![b]) == node_at(*c, Seq::<u8>::empty()));
                    }
                    cur = c;
                    j += 1;
                    match cur.token {
                        Some(tk) => {
                            best = j - i;
                            best_tok = tk;
                            proof {
                                lemma_tree_token_node_at(
                                    merge_tree,
                                    bs.subrange(i as int, j as int),
                                );
                                assert(bs.subrange(i as int, i as int + (j - i)) =~= bs.subrange(
                                    i as int,
                                    j as int,
                                ));
                            }
                        },
                        None => {
                            proof {
                                lemma_tree_token_node_at(
                                    merge_tree,
                                    bs.subrange(i as int, j as int),
                                );
                                assert(bs.subrange(i as int, i as int + (j - i)) =~= bs.subrange(
                                    i as int,
                                    j as int,
                                ));
                                assert(match_token(merge_tree, bs, i as int, j - i) is None);
                            }
                        },
                    }
                },
                None => {
                    proof {
                        assert forall|l: int|
                            j - i < l <= bs.len() - i implies match_token(
                            merge_tree,
                            bs,
                            i as int,
                            l,
                        ) is None by {
                            let p = bs.subrange(i as int, i + l);
                            assert(p =~= bs.subrange(i as int, j as int) + bs.subrange(
                                j as int,
                                i + l,
                            ));
                            lemma_node_at_concat(
                                merge_tree,
                                bs.subrange(i as int, j as int),
                                bs.subrange(j as int, i + l),
                            );
                            assert(bs.subrange(j as int, i + l)[0] == b);
                            assert(node_at(*cur, bs.subrange(j as int, i + l)) is None);
                            lemma_tree_token_node_at(merge_tree, p);
                        }
                    }
                    break;
                },
            }
        }
        let ghost i0 = i as int;
        let ghost out0 = out@;
        proof {
            lemma_best_len_char(merge_tree, bs, i as int, bs.len() - i, best as int);
        }
        out.push(best_tok);
        if best == 0 {
            i += 1;
        } else {
            i += best;
        }
        proof {
            assert(fast_encode_from(merge_tree, bs, i0) == seq![best_tok] + fast_encode_from(
                merge_tree,
                bs,
                i as int,
            ));
            assert(out0 + (seq![best_tok] + fast_encode_from(merge_tree, bs, i as int)) =~= out@
                + fast_encode_from(merge_tree, bs, i as int));
        }
    }
    proof {
        assert(out@ + fast_encode_from(merge_tree, bs, i as int) =~= out@);
    }
    Ok(out)
}

} // verus!
