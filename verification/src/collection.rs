//! The ordered collection of entries, newest first, under a unique-id
//! invariant.
//!
//! Identifiers are generated from a counter that only grows, rendered as
//! lowercase hexadecimal; well-formedness ties every hexadecimal id already
//! present to a value below the counter, so the next id is always fresh.

use crate::codec::{enc_doc, p_doc};
use crate::digits::{
    digits_val, is_canon_digits, lemma_spec_digits_canon, parse_hex_u128, spec_digits, HexParse,
};
use crate::entry::{Entry, EntryModel};
use vstd::prelude::*;

verus! {

/// All ids in the sequence are pairwise distinct.
pub open spec fn ids_unique(s: Seq<EntryModel>) -> bool {
    forall|i: int, j: int| 0 <= i < j < s.len() ==> s[i].id != s[j].id
}

/// The index of the first entry carrying `id`, or -1 when none does.
pub open spec fn idx_of(s: Seq<EntryModel>, id: Seq<char>) -> int
    decreases s.len(),
{
    if s.len() == 0 {
        -1
    } else if s[0].id == id {
        0
    } else {
        let r = idx_of(s.skip(1), id);
        if r == -1 {
            -1
        } else {
            r + 1
        }
    }
}

/// What `idx_of` answers: -1 means the id is absent; otherwise it points
/// at the first entry carrying the id.
pub proof fn lemma_idx_of(s: Seq<EntryModel>, id: Seq<char>)
    ensures
        idx_of(s, id) == -1 ==> forall|j: int| 0 <= j < s.len() ==> s[j].id != id,
        idx_of(s, id) != -1 ==> 0 <= idx_of(s, id) < s.len() && s[idx_of(s, id)].id == id
            && forall|j: int| 0 <= j < idx_of(s, id) ==> s[j].id != id,
    decreases s.len(),
{
    if s.len() == 0 {
    } else if s[0].id == id {
    } else {
        let t = s.skip(1);
        lemma_idx_of(t, id);
        let r = idx_of(t, id);
        if r == -1 {
            assert(idx_of(s, id) == -1);
            assert forall|j: int| 0 <= j < s.len() implies s[j].id != id by {
                if j > 0 {
                    assert(t[j - 1] == s[j]);
                    assert(t[j - 1].id != id);
                }
            }
        } else {
            assert(idx_of(s, id) == r + 1);
            assert(t[r] == s[r + 1]);
            assert forall|j: int| 0 <= j < r + 1 implies s[j].id != id by {
                if j > 0 {
                    assert(t[j - 1] == s[j]);
                    assert(t[j - 1].id != id);
                }
            }
        }
    }
}

/// The first match determines `idx_of`.
pub proof fn lemma_idx_of_first(s: Seq<EntryModel>, id: Seq<char>, i: int)
    requires
        0 <= i < s.len(),
        s[i].id == id,
        forall|j: int| 0 <= j < i ==> s[j].id != id,
    ensures
        idx_of(s, id) == i,
    decreases i,
{
    if i == 0 {
        assert(s[0].id == id);
    } else {
        let t = s.skip(1);
        assert(s[0].id != id);
        assert(t[i - 1] == s[i]);
        assert forall|j: int| 0 <= j < i - 1 implies t[j].id != id by {
            assert(t[j] == s[j + 1]);
        }
        lemma_idx_of_first(t, id, i - 1);
    }
}

/// The collection after a delete, and whether anything was removed.
pub open spec fn spec_delete(s: Seq<EntryModel>, id: Seq<char>) -> (Seq<EntryModel>, bool) {
    let k = idx_of(s, id);
    if k >= 0 {
        (s.remove(k), true)
    } else {
        (s, false)
    }
}

/// The collection after a tag replacement, and whether a matching entry
/// was found.
pub open spec fn spec_update_tags(s: Seq<EntryModel>, id: Seq<char>, tags: Seq<Seq<char>>) -> (
    Seq<EntryModel>,
    bool,
) {
    let k = idx_of(s, id);
    if k >= 0 {
        (s.update(k, EntryModel { tags, ..s[k] }), true)
    } else {
        (s, false)
    }
}

/// The full ordered collection of entries, persisted as one unit.
pub struct Collection {
    pub entries: Vec<Entry>,
    pub next_id: u128,
}

impl View for Collection {
    type V = Seq<EntryModel>;

    open spec fn view(&self) -> Seq<EntryModel> {
        self.entries.deep_view()
    }
}

impl Collection {
    /// Well-formed: ids are unique, and unless the id counter is spent,
    /// every hexadecimal id present reads below the counter, so the next
    /// generated id is fresh.
    pub open spec fn wf(&self) -> bool {
        &&& ids_unique(self@)
        &&& (self.next_id < u128::MAX ==> forall|i: int|
            #![auto]
            0 <= i < self@.len() && is_canon_digits(16, self@[i].id) ==> digits_val(
                16,
                self@[i].id,
            ) < self.next_id)
    }

    /// Whether a new entry can still be added: the id counter is not spent.
    pub open spec fn can_add(&self) -> bool {
        self.next_id < u128::MAX
    }

    /// The empty collection.
    pub fn new() -> (c: Collection)
        ensures
            c.wf(),
            c@ == Seq::<EntryModel>::empty(),
            c.can_add(),
    {
        let c = Collection { entries: Vec::new(), next_id: 0 };
        proof {
            assert(c@ =~= Seq::<EntryModel>::empty());
        }
        c
    }

    /// An immutable snapshot of the entries, newest first.
    pub fn list(&self) -> (r: Vec<Entry>)
        ensures
            r.deep_view() == self@,
    {
        let mut r: Vec<Entry> = Vec::new();
        let mut i: usize = 0;
        while i < self.entries.len()
            invariant
                0 <= i <= self.entries.len(),
                r@.len() == i,
                forall|j: int| 0 <= j < i ==> r@[j]@ == #[trigger] self.entries@[j]@,
            decreases self.entries.len() - i,
        {
            r.push(self.entries[i].duplicate());
            i += 1;
        }
        proof {
            assert(r.deep_view() =~= self@);
        }
        r
    }

    /// Prepends a new entry with a fresh id; `now` is the creation time in
    /// seconds since the epoch.
    pub fn add_at(&mut self, url: String, tags: Vec<String>, now: u64) -> (e: Entry)
        requires
            old(self).wf(),
            old(self).can_add(),
        ensures
            final(self).wf(),
            final(self).next_id == old(self).next_id + 1,
            e@.id == spec_digits(16, old(self).next_id as nat),
            e@.url == url@,
            e@.tags == tags.deep_view(),
            e@.created_at == now,
            final(self)@ == seq![e@] + old(self)@,
            forall|i: int| 0 <= i < old(self)@.len() ==> old(self)@[i].id != e@.id,
    {
        let ghost s0 = self@;
        let ghost ev0 = self.entries@;
        proof {
            lemma_spec_digits_canon(16, self.next_id as nat);
        }
        let id = crate::digits::hex_u128(self.next_id);
        let e = Entry { id, url, tags, created_at: now };
        proof {
            assert forall|i: int| 0 <= i < s0.len() implies s0[i].id != e@.id by {
                if s0[i].id == e@.id {
                    assert(is_canon_digits(16, s0[i].id));
                    assert(digits_val(16, s0[i].id) < self.next_id);
                    assert(digits_val(16, e@.id) == self.next_id);
                }
            }
        }
        let r = e.duplicate();
        self.entries.insert(0, e);
        self.next_id = self.next_id + 1;
        proof {
            assert forall|j: int| 0 <= j < self@.len() implies self@[j] == (seq![r@] + s0)[j] by {
                if j == 0 {
                    assert(self.entries@[0] == ev0.insert(0, e)[0]);
                } else {
                    assert(self.entries@[j] == ev0[j - 1]);
                    assert(self@[j] == ev0[j - 1]@);
                    assert(s0[j - 1] == ev0[j - 1]@);
                }
            }
            assert(self@ =~= seq![r@] + s0);
            assert forall|i: int, j: int| 0 <= i < j < self@.len() implies self@[i].id
                != self@[j].id by {
                assert(self@[j] == s0[j - 1]);
                if i > 0 {
                    assert(self@[i] == s0[i - 1]);
                    assert(s0[i - 1].id != s0[j - 1].id);
                } else {
                    assert(s0[j - 1].id != r@.id);
                }
            }
            if self.next_id < u128::MAX {
                assert forall|i: int|
                    0 <= i < self@.len() && is_canon_digits(16, self@[i].id) implies digits_val(
                    16,
                    self@[i].id,
                ) < self.next_id by {
                    if i > 0 {
                        assert(self@[i] == s0[i - 1]);
                    }
                }
            }
        }
        r
    }

    /// Adds a new entry stamped with the current wall-clock second.
    pub fn add_entry(&mut self, url: String, tags: Vec<String>) -> (e: Entry)
        requires
            old(self).wf(),
            old(self).can_add(),
        ensures
            final(self).wf(),
            e@.id == spec_digits(16, old(self).next_id as nat),
            e@.url == url@,
            e@.tags == tags.deep_view(),
            final(self)@ == seq![e@] + old(self)@,
            forall|i: int| 0 <= i < old(self)@.len() ==> old(self)@[i].id != e@.id,
    {
        let now = crate::clock::now_secs();
        self.add_at(url, tags, now)
    }

    /// Removes the entry carrying `id`, answering whether one was found.
    pub fn delete(&mut self, id: &String) -> (r: bool)
        requires
            old(self).wf(),
        ensures
            final(self).wf(),
            final(self).next_id == old(self).next_id,
            final(self)@ == spec_delete(old(self)@, id@).0,
            r == spec_delete(old(self)@, id@).1,
    {
        let ghost s0 = self@;
        let ghost ev0 = self.entries@;
        let mut i: usize = 0;
        let n = self.entries.len();
        while i < n
            invariant
                n == self.entries.len(),
                0 <= i <= n,
                self.entries@ == ev0,
                s0 == self@,
                s0 == old(self)@,
                s0.len() == n,
                old(self).wf(),
                self.next_id == old(self).next_id,
                forall|j: int| 0 <= j < i ==> s0[j].id != id@,
            decreases n - i,
        {
            if self.entries[i].id == *id {
                proof {
                    assert(s0[i as int] == ev0[i as int]@);
                    lemma_idx_of_first(s0, id@, i as int);
                }
                self.entries.remove(i);
                proof {
                    let k = i as int;
                    assert forall|j: int| 0 <= j < self@.len() implies self@[j] == s0.remove(k)[j]
                        by {
                        let sj = if j < k {
                            j
                        } else {
                            j + 1
                        };
                        assert(self.entries@[j] == ev0[sj]);
                        assert(self@[j] == ev0[sj]@);
                        assert(s0.remove(k)[j] == s0[sj]);
                        assert(s0[sj] == ev0[sj]@);
                    }
                    assert(self@ =~= s0.remove(k));
                    assert forall|a: int, b: int| 0 <= a < b < self@.len() implies self@[a].id
                        != self@[b].id by {
                        let sa = if a < k {
                            a
                        } else {
                            a + 1
                        };
                        let sb = if b < k {
                            b
                        } else {
                            b + 1
                        };
                        assert(self@[a] == s0.remove(k)[a]);
                        assert(self@[b] == s0.remove(k)[b]);
                        assert(s0.remove(k)[a] == s0[sa]);
                        assert(s0.remove(k)[b] == s0[sb]);
                        assert(s0[sa].id != s0[sb].id);
                    }
                    if self.next_id < u128::MAX {
                        assert forall|a: int|
                            0 <= a < self@.len() && is_canon_digits(16, self@[a].id)
                            implies digits_val(16, self@[a].id) < self.next_id by {
                            let sa = if a < k {
                                a
                            } else {
                                a + 1
                            };
                            assert(self@[a] == s0[sa]);
                        }
                    }
                }
                return true;
            }
            i += 1;
        }
        proof {
            lemma_idx_of(s0, id@);
            if idx_of(s0, id@) != -1 {
                assert(s0[idx_of(s0, id@)].id == id@);
                assert(false);
            }
        }
        false
    }

    /// Replaces the tag list of the entry carrying `id` wholesale,
    /// answering whether one was found.
    pub fn update_tags(&mut self, id: &String, tags: Vec<String>) -> (r: bool)
        requires
            old(self).wf(),
        ensures
            final(self).wf(),
            final(self).next_id == old(self).next_id,
            final(self)@ == spec_update_tags(old(self)@, id@, tags.deep_view()).0,
            r == spec_update_tags(old(self)@, id@, tags.deep_view()).1,
    {
        let ghost s0 = self@;
        let ghost ev0 = self.entries@;
        let mut i: usize = 0;
        let n = self.entries.len();
        while i < n
            invariant
                n == self.entries.len(),
                0 <= i <= n,
                self.entries@ == ev0,
                s0 == self@,
                s0 == old(self)@,
                s0.len() == n,
                old(self).wf(),
                self.next_id == old(self).next_id,
                forall|j: int| 0 <= j < i ==> s0[j].id != id@,
            decreases n - i,
        {
            if self.entries[i].id == *id {
                proof {
                    assert(s0[i as int] == ev0[i as int]@);
                    lemma_idx_of_first(s0, id@, i as int);
                }
                let mut e = self.entries.remove(i);
                e.tags = tags;
                self.entries.insert(i, e);
                proof {
                    let k = i as int;
                    let after = s0.update(k, EntryModel { tags: tags.deep_view(), ..s0[k] });
                    assert forall|j: int| 0 <= j < self@.len() implies self@[j] == after[j] by {
                        if j < k {
                            assert(self.entries@[j] == ev0.remove(k)[j]);
                            assert(ev0.remove(k)[j] == ev0[j]);
                            assert(self@[j] == ev0[j]@);
                        } else if j == k {
                            assert(self.entries@[k] == ev0.remove(k).insert(k, e)[k]);
                        } else {
                            assert(self.entries@[j] == ev0.remove(k)[j - 1]);
                            assert(ev0.remove(k)[j - 1] == ev0[j]);
                            assert(self@[j] == ev0[j]@);
                        }
                    }
                    assert(self@ =~= after);
                    assert forall|a: int, b: int| 0 <= a < b < self@.len() implies self@[a].id
                        != self@[b].id by {
                        assert(self@[a].id == s0[a].id);
                        assert(self@[b].id == s0[b].id);
                        assert(s0[a].id != s0[b].id);
                    }
                    if self.next_id < u128::MAX {
                        assert forall|a: int|
                            0 <= a < self@.len() && is_canon_digits(16, self@[a].id)
                            implies digits_val(16, self@[a].id) < self.next_id by {
                            assert(self@[a].id == s0[a].id);
                        }
                    }
                }
                return true;
            }
            i += 1;
        }
        proof {
            lemma_idx_of(s0, id@);
            if idx_of(s0, id@) != -1 {
                assert(s0[idx_of(s0, id@)].id == id@);
                assert(false);
            }
        }
        false
    }

    /// Rebuilds a collection from loaded entries. Answers `None` exactly
    /// when two entries share an id; otherwise the counter is set above
    /// every hexadecimal id present.
    pub fn from_entries(entries: Vec<Entry>) -> (r: Option<Collection>)
        ensures
            r is Some <==> ids_unique(entries.deep_view()),
            r matches Some(c) ==> c.wf() && c@ == entries.deep_view(),
    {
        let ghost dv = entries.deep_view();
        let n = entries.len();
        let mut i: usize = 0;
        while i < n
            invariant
                n == entries.len(),
                dv == entries.deep_view(),
                0 <= i <= n,
                forall|a: int, b: int| 0 <= a < i && a < b < n ==> dv[a].id != dv[b].id,
            decreases n - i,
        {
            let mut j: usize = i + 1;
            while j < n
                invariant
                    n == entries.len(),
                    dv == entries.deep_view(),
                    0 <= i < j <= n,
                    forall|b: int| i < b < j ==> dv[i as int].id != dv[b].id,
                decreases n - j,
            {
                if entries[i].id == entries[j].id {
                    proof {
                        assert(dv[i as int].id == entries@[i as int]@.id);
                        assert(dv[j as int].id == entries@[j as int]@.id);
                        assert(dv[i as int].id == dv[j as int].id);
                        assert(!ids_unique(dv));
                    }
                    return None;
                }
                proof {
                    assert(dv[i as int].id == entries@[i as int]@.id);
                    assert(dv[j as int].id == entries@[j as int]@.id);
                }
                j += 1;
            }
            i += 1;
        }
        let mut next: u128 = 0;
        let mut k: usize = 0;
        while k < n
            invariant
                n == entries.len(),
                dv == entries.deep_view(),
                0 <= k <= n,
                next < u128::MAX ==> forall|a: int|
                    #![auto]
                    0 <= a < k && is_canon_digits(16, dv[a].id) ==> digits_val(16, dv[a].id)
                        < next,
            decreases n - k,
        {
            proof {
                assert(dv[k as int].id == entries@[k as int]@.id);
            }
            match parse_hex_u128(entries[k].id.as_str()) {
                HexParse::NotHex => {},
                HexParse::TooBig => {
                    next = u128::MAX;
                },
                HexParse::Value(v) => {
                    if next != u128::MAX && v >= next {
                        if v == u128::MAX {
                            next = u128::MAX;
                        } else {
                            next = v + 1;
                        }
                    }
                },
            }
            k += 1;
        }
        let c = Collection { entries, next_id: next };
        Some(c)
    }

    /// The persisted text form of this collection.
    pub fn save_text(&self) -> (r: String)
        ensures
            r@ == enc_doc(self@),
    {
        crate::writer::encode(&self.entries)
    }

    /// Rebuilds a collection from persisted text. Unreadable text, or text
    /// whose entries collide on an id, yields the empty collection: a bad
    /// file never blocks startup.
    pub fn load_text(s: &str) -> (c: Collection)
        ensures
            c.wf(),
            match p_doc(s@) {
                Some(es) => {
                    if ids_unique(es) {
                        c@ == es
                    } else {
                        c@ == Seq::<EntryModel>::empty()
                    }
                },
                None => c@ == Seq::<EntryModel>::empty(),
            },
    {
        match crate::reader::parse(s) {
            Some(v) => match Collection::from_entries(v) {
                Some(c) => c,
                None => Collection::new(),
            },
            None => Collection::new(),
        }
    }
}

/// Newest-first order: after an addition the new entry lists first, every
/// earlier entry follows in its old position, and ids stay unique.
pub proof fn lemma_add_newest_first(before: Seq<EntryModel>, e: EntryModel)
    requires
        ids_unique(before),
        forall|i: int| 0 <= i < before.len() ==> before[i].id != e.id,
    ensures
        ids_unique(seq![e] + before),
        (seq![e] + before)[0] == e,
        forall|i: int| 0 <= i < before.len() ==> (seq![e] + before)[i + 1] == before[i],
{
    let s = seq![e] + before;
    assert forall|i: int, j: int| 0 <= i < j < s.len() implies s[i].id != s[j].id by {
        assert(s[j] == before[j - 1]);
        if i > 0 {
            assert(s[i] == before[i - 1]);
            assert(before[i - 1].id != before[j - 1].id);
        } else {
            assert(before[j - 1].id != e.id);
        }
    }
}

/// Deleting a present id removes exactly that entry and answers true; a
/// second delete of the same id answers false and leaves the rest as it is.
pub proof fn lemma_delete_exact(s: Seq<EntryModel>, id: Seq<char>)
    requires
        ids_unique(s),
        idx_of(s, id) >= 0,
    ensures
        spec_delete(s, id).1 == true,
        s[idx_of(s, id)].id == id,
        spec_delete(s, id).0 == s.subrange(0, idx_of(s, id)) + s.subrange(
            idx_of(s, id) + 1,
            s.len() as int,
        ),
        ids_unique(spec_delete(s, id).0),
        spec_delete(spec_delete(s, id).0, id) == (spec_delete(s, id).0, false),
{
    lemma_idx_of(s, id);
    let k = idx_of(s, id);
    let after = s.remove(k);
    assert forall|j: int| 0 <= j < after.len() implies after[j].id != id by {
        let sj = if j < k {
            j
        } else {
            j + 1
        };
        assert(after[j] == s[sj]);
        if sj != k {
            assert(s[sj].id != s[k].id);
        }
    }
    lemma_idx_of(after, id);
    if idx_of(after, id) != -1 {
        assert(after[idx_of(after, id)].id == id);
        assert(false);
    }
    assert forall|a: int, b: int| 0 <= a < b < after.len() implies after[a].id != after[b].id by {
        let sa = if a < k {
            a
        } else {
            a + 1
        };
        let sb = if b < k {
            b
        } else {
            b + 1
        };
        assert(after[a] == s[sa]);
        assert(after[b] == s[sb]);
        assert(s[sa].id != s[sb].id);
    }
}

/// Replacing tags rewrites exactly the matching entry's tag list and leaves
/// every other field and entry unchanged; an unknown id changes nothing.
pub proof fn lemma_update_exact(s: Seq<EntryModel>, id: Seq<char>, tags: Seq<Seq<char>>)
    requires
        ids_unique(s),
    ensures
        idx_of(s, id) >= 0 ==> {
            let k = idx_of(s, id);
            let after = spec_update_tags(s, id, tags).0;
            &&& spec_update_tags(s, id, tags).1 == true
            &&& s[k].id == id
            &&& after.len() == s.len()
            &&& after[k].id == s[k].id
            &&& after[k].url == s[k].url
            &&& after[k].created_at == s[k].created_at
            &&& after[k].tags == tags
            &&& (forall|j: int| 0 <= j < s.len() && j != k ==> after[j] == s[j])
            &&& ids_unique(after)
        },
        idx_of(s, id) == -1 ==> spec_update_tags(s, id, tags) == (s, false) && (forall|j: int|
            0 <= j < s.len() ==> s[j].id != id),
{
    lemma_idx_of(s, id);
    if idx_of(s, id) >= 0 {
        let k = idx_of(s, id);
        let after = spec_update_tags(s, id, tags).0;
        assert forall|a: int, b: int| 0 <= a < b < after.len() implies after[a].id
            != after[b].id by {
            assert(after[a].id == s[a].id);
            assert(after[b].id == s[b].id);
            assert(s[a].id != s[b].id);
        }
    }
}

} // verus!
