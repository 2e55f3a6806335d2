//! The vocabulary artifact: the fully-expanded byte sequence of every learned
//! token id. Ids are allocated densely, so the entry for id `256 + k` is kept
//! at index `k`; ids below 256 are the implicit identity byte alphabet.

use vstd::prelude::*;

verus! {

/// A mapping from learned token ids to their expanded byte sequences.
/// Its view is the sequence of entries; the entry at index `k` belongs to
/// token id `256 + k`.
pub struct Vocab {
    entries: Vec<Vec<u8>>,
}

impl View for Vocab {
    type V = Seq<Seq<u8>>;

    closed spec fn view(&self) -> Seq<Seq<u8>> {
        self.entries.deep_view()
    }
}

/// The deep view of a byte vector is its view.
proof fn lemma_bytes_deep_view(v: Vec<u8>)
    ensures
        v.deep_view() == v@,
{
    assert(v.deep_view() =~= v@);
}

/// Pushing onto the entry vector pushes the entry's view onto the deep view.
proof fn lemma_entries_deep_view_push(v1: Vec<Vec<u8>>, v2: Vec<Vec<u8>>, e: Vec<u8>)
    requires
        v2@ == v1@.push(e),
    ensures
        v2.deep_view() == v1.deep_view().push(e@),
{
    lemma_bytes_deep_view(e);
    assert(v2.deep_view() =~= v1.deep_view().push(e@));
}

impl Vocab {
    /// Every entry expands at least one byte, and no more ids are allocated
    /// than the 16-bit id space admits.
    #[verifier::type_invariant]
    spec fn wf(self) -> bool {
        &&& self@.len() <= 65280
        &&& forall|i: int| 0 <= i < self@.len() ==> (#[trigger] self@[i]).len() >= 1
    }

    /// An empty vocabulary: no learned ids.
    pub fn new() -> (v: Vocab)
        ensures
            v@ == Seq::<Seq<u8>>::empty(),
    {
        let v = Vocab { entries: Vec::new() };
        proof {
            assert(v@ =~= Seq::<Seq<u8>>::empty());
        }
        v
    }

    /// The number of learned entries, never more than the id space admits.
    pub fn len(&self) -> (n: usize)
        ensures
            n == self@.len(),
            n <= 65280,
    {
        proof {
            use_type_invariant(&*self);
        }
        self.entries.len()
    }

    /// The bytes of the learned id `id`, or `None` for byte tokens and for
    /// ids that were never allocated.
    pub fn get(&self, id: u16) -> (r: Option<&Vec<u8>>)
        ensures
            match r {
                Some(e) => 256 <= id && id - 256 < self@.len() && e@ == self@[id - 256],
                None => id < 256 || id - 256 >= self@.len(),
            },
    {
        if id >= 256 && ((id - 256) as usize) < self.entries.len() {
            Some(&self.entries[(id - 256) as usize])
        } else {
            None
        }
    }

    /// Allocates the next id for `bytes`. Returns `None`, leaving the
    /// vocabulary unchanged, when `bytes` is empty or the id space is full.
    pub fn add_entry(&mut self, bytes: Vec<u8>) -> (r: Option<u16>)
        ensures
            match r {
                Some(id) => old(self)@.len() < 65280 && bytes@.len() >= 1
                    && id == 256 + old(self)@.len() && final(self)@ == old(self)@.push(bytes@),
                None => (old(self)@.len() >= 65280 || bytes@.len() == 0)
                    && final(self)@ == old(self)@,
            },
    {
        proof {
            use_type_invariant(&*self);
        }
        if bytes.len() >= 1 && self.entries.len() < 65280 {
            let id: u16 = 256 + (self.entries.len() as u16);
            let mut entries: Vec<Vec<u8>> = Vec::new();
            core::mem::swap(&mut entries, &mut self.entries);
            let ghost before = entries;
            entries.push(bytes);
            proof {
                lemma_entries_deep_view_push(before, entries, bytes);
            }
            self.entries = entries;
            Some(id)
        } else {
            None
        }
    }

    /// Allocates the next id for `bytes` when the caller already knows there
    /// is room and the entry is non-empty.
    pub(crate) fn push_entry(&mut self, bytes: Vec<u8>) -> (id: u16)
        requires
            old(self)@.len() < 65280,
            bytes@.len() >= 1,
        ensures
            id == 256 + old(self)@.len(),
            final(self)@ == old(self)@.push(bytes@),
    {
        proof {
            use_type_invariant(&*self);
        }
        let id: u16 = 256 + (self.entries.len() as u16);
        let mut entries: Vec<Vec<u8>> = Vec::new();
        core::mem::swap(&mut entries, &mut self.entries);
        let ghost before = entries;
        entries.push(bytes);
        proof {
            lemma_entries_deep_view_push(before, entries, bytes);
        }
        self.entries = entries;
        id
    }

    /// The entry at index `i`, for iteration over the vocabulary in id order.
    pub fn entry_at(&self, i: usize) -> (r: &Vec<u8>)
        requires
            i < self@.len(),
        ensures
            r@ == self@[i as int],
            r@.len() >= 1,
    {
        proof {
            use_type_invariant(&*self);
        }
        &self.entries[i]
    }
}

} // verus!
