//! One stored media reference.

use vstd::prelude::*;

verus! {

/// One stored media reference: an opaque unique id, the referenced url,
/// an ordered tag list (duplicates and order preserved), and the creation
/// time in seconds since the epoch.
#[derive(Debug, PartialEq, Eq)]
pub struct Entry {
    pub id: String,
    pub url: String,
    pub tags: Vec<String>,
    pub created_at: u64,
}

/// The mathematical content of an entry.
#[verifier::ext_equal]
pub ghost struct EntryModel {
    pub id: Seq<char>,
    pub url: Seq<char>,
    pub tags: Seq<Seq<char>>,
    pub created_at: u64,
}

impl View for Entry {
    type V = EntryModel;

    open spec fn view(&self) -> EntryModel {
        EntryModel {
            id: self.id@,
            url: self.url@,
            tags: self.tags.deep_view(),
            created_at: self.created_at,
        }
    }
}

impl DeepView for Entry {
    type V = EntryModel;

    open spec fn deep_view(&self) -> EntryModel {
        self.view()
    }
}

impl Entry {
    /// A field-for-field copy with the same model.
    pub fn duplicate(&self) -> (r: Entry)
        ensures
            r@ == self@,
    {
        let mut tags: Vec<String> = Vec::new();
        let mut i: usize = 0;
        while i < self.tags.len()
            invariant
                0 <= i <= self.tags.len(),
                tags@.len() == i,
                forall|j: int| 0 <= j < i ==> tags@[j]@ == #[trigger] self.tags@[j]@,
            decreases self.tags.len() - i,
        {
            tags.push(self.tags[i].clone());
            i += 1;
        }
        proof {
            assert(tags.deep_view() =~= self.tags.deep_view());
        }
        Entry { id: self.id.clone(), url: self.url.clone(), tags, created_at: self.created_at }
    }
}

} // verus!
