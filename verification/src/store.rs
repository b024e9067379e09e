//! Append-only store of embedding entries.
//!
//! The store is an explicitly constructed object handed by reference to
//! ingestion and query call sites; one logical store exists per pipeline run.
//! Callers that need shared or locked access wrap it outside this library.
//! Embedding components are opaque `u32` values chosen by the caller (the
//! store never interprets them); similarity values for ranking are likewise
//! supplied by the caller (see the retrieval module).

use vstd::prelude::*;

verus! {

/// Errors of the store and of the surrounding pipeline.
#[derive(Clone, Copy, Debug, PartialEq, Eq, Structural)]
pub enum RagError {
    /// The store was accessed before it was initialized.
    UninitializedStore,
    /// The external embedding backend failed; carried by callers that map
    /// backend failures into this library's error type.
    EmbeddingBackendFailure,
}

/// A stored record: an embedding vector, the exact chunk text it was
/// computed from, and a free-text section label for provenance.
pub struct VectorEntry {
    pub embedding: Vec<u32>,
    pub text: String,
    pub section: String,
}

/// The mathematical content of an entry: its three fields as sequences.
pub open spec fn entry_model(e: VectorEntry) -> (Seq<u32>, Seq<char>, Seq<char>) {
    (e.embedding@, e.text@, e.section@)
}

impl VectorEntry {
    /// An entry is well formed when its embedding and its text are non-empty.
    pub open spec fn wf(self) -> bool {
        self.embedding@.len() > 0 && self.text@.len() > 0
    }

    /// A field-for-field copy of the entry.
    pub fn duplicate(&self) -> (r: VectorEntry)
        ensures
            entry_model(r) == entry_model(*self),
            r.wf() == self.wf(),
    {
        let mut embedding: Vec<u32> = Vec::new();
        let mut i: usize = 0;
        while i < self.embedding.len()
            invariant
                i <= self.embedding@.len(),
                embedding@ == self.embedding@.subrange(0, i as int),
            decreases self.embedding@.len() - i,
        {
            embedding.push(self.embedding[i]);
            i = i + 1;
        }
        proof {
            assert(embedding@ =~= self.embedding@);
        }
        VectorEntry {
            embedding,
            text: self.text.clone(),
            section: self.section.clone(),
        }
    }
}

/// An append-only collection of entries. Entries are immutable once inserted;
/// there is no update or delete operation.
pub struct VectorStore {
    entries: Vec<VectorEntry>,
}

impl VectorStore {
    /// The store's content, as the sequence of entry models in insertion order.
    pub closed spec fn view(&self) -> Seq<(Seq<u32>, Seq<char>, Seq<char>)> {
        self.entries@.map_values(|e: VectorEntry| entry_model(e))
    }

    /// Every stored entry has a non-empty embedding and non-empty text.
    pub closed spec fn wf(&self) -> bool {
        forall|i: int| 0 <= i < self.entries@.len() ==> (#[trigger] self.entries@[i]).wf()
    }

    /// A fresh, empty store.
    pub fn new() -> (s: VectorStore)
        ensures
            s@ == Seq::<(Seq<u32>, Seq<char>, Seq<char>)>::empty(),
            s.wf(),
    {
        let s = VectorStore { entries: Vec::new() };
        proof {
            assert(s@ =~= Seq::<(Seq<u32>, Seq<char>, Seq<char>)>::empty());
        }
        s
    }

    /// Appends one entry. Insertion order has no semantic meaning to readers,
    /// but the model records it so that callers can reason about snapshots.
    pub fn add(&mut self, entry: VectorEntry)
        requires
            old(self).wf(),
            entry.wf(),
        ensures
            final(self)@ == old(self)@.push(entry_model(entry)),
            final(self).wf(),
    {
        self.entries.push(entry);
        proof {
            assert(self@ =~= old(self)@.push(entry_model(entry)));
        }
    }

    /// The number of entries.
    pub fn len(&self) -> (n: usize)
        ensures
            n == self@.len(),
    {
        self.entries.len()
    }

    /// A copy of all entries present at the moment of the call.
    pub fn all(&self) -> (r: Vec<VectorEntry>)
        ensures
            r@.map_values(|e: VectorEntry| entry_model(e)) == self@,
            self.wf() ==> forall|i: int| 0 <= i < r@.len() ==> (#[trigger] r@[i]).wf(),
    {
        let mut r: Vec<VectorEntry> = Vec::new();
        let mut i: usize = 0;
        while i < self.entries.len()
            invariant
                i <= self.entries@.len(),
                r@.len() == i,
                forall|j: int| 0 <= j < i ==>
                    entry_model(#[trigger] r@[j]) == entry_model(self.entries@[j]),
                forall|j: int| 0 <= j < i ==>
                    (#[trigger] r@[j]).wf() == self.entries@[j].wf(),
            decreases self.entries@.len() - i,
        {
            r.push(self.entries[i].duplicate());
            i = i + 1;
        }
        proof {
            assert(r@.map_values(|e: VectorEntry| entry_model(e)) =~= self@);
        }
        r
    }
}

/// Holds at most one store for a pipeline run, with first-wins initialization:
/// initializing an already-initialized cell leaves the original store in place.
pub struct StoreCell {
    store: Option<VectorStore>,
}

impl StoreCell {
    /// Whether the cell has been initialized.
    pub closed spec fn is_initialized(&self) -> bool {
        self.store is Some
    }

    /// The content of the held store (meaningful only when initialized).
    pub closed spec fn view(&self) -> Seq<(Seq<u32>, Seq<char>, Seq<char>)> {
        self.store->0@
    }

    pub closed spec fn wf(&self) -> bool {
        self.store is Some ==> self.store->0.wf()
    }

    /// A cell with no store yet.
    pub fn empty() -> (c: StoreCell)
        ensures
            !c.is_initialized(),
            c.wf(),
    {
        StoreCell { store: None }
    }

    /// Creates the store on first call; later calls leave the cell unchanged,
    /// so every caller works against the same original store.
    pub fn initialize(&mut self)
        requires
            old(self).wf(),
        ensures
            final(self).is_initialized(),
            final(self).wf(),
            !old(self).is_initialized() ==>
                final(self)@ == Seq::<(Seq<u32>, Seq<char>, Seq<char>)>::empty(),
            old(self).is_initialized() ==> *final(self) == *old(self),
    {
        if self.store.is_none() {
            self.store = Some(VectorStore::new());
        }
    }

    /// Appends an entry to the held store; fails if the cell was never
    /// initialized.
    pub fn insert(&mut self, entry: VectorEntry) -> (r: Result<(), RagError>)
        requires
            old(self).wf(),
            entry.wf(),
        ensures
            final(self).wf(),
            old(self).is_initialized() ==> r is Ok
                && final(self).is_initialized()
                && final(self)@ == old(self)@.push(entry_model(entry)),
            !old(self).is_initialized() ==> r == Result::<(), RagError>::Err(
                RagError::UninitializedStore,
            ) && *final(self) == *old(self),
    {
        match &mut self.store {
            Some(store) => {
                store.add(entry);
                Ok(())
            },
            None => Err(RagError::UninitializedStore),
        }
    }

    /// A copy of all entries present at the moment of the call; fails if the
    /// cell was never initialized.
    pub fn snapshot(&self) -> (r: Result<Vec<VectorEntry>, RagError>)
        ensures
            self.is_initialized() ==> r is Ok
                && r->Ok_0@.map_values(|e: VectorEntry| entry_model(e)) == self@,
            self.is_initialized() && self.wf() ==>
                forall|i: int| 0 <= i < r->Ok_0@.len() ==> (#[trigger] r->Ok_0@[i]).wf(),
            !self.is_initialized() ==> r == Result::<Vec<VectorEntry>, RagError>::Err(
                RagError::UninitializedStore,
            ),
    {
        match &self.store {
            Some(store) => Ok(store.all()),
            None => Err(RagError::UninitializedStore),
        }
    }
}

} // verus!
