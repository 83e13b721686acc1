//! The consistency coordinator and the query engine.
//!
//! Every mutation runs its primitive steps in a fixed order so that an
//! interruption can strand a record without index entries — discoverable by
//! a full scan and harmless — but can never strand an index entry whose
//! record is gone.  [`no_new_dangling`] states that guarantee for every
//! failed mutation.  The indices are a cache over the authoritative record
//! store: the query path drops a stale entry silently, and an explicit
//! maintenance pass rebuilds the indices from a scan.

use vstd::prelude::*;
use crate::index::{
    idx_add,
    idx_add_all,
    idx_has,
    idx_remove,
    idx_remove_all,
    IndexKind,
    IndexManager,
    lemma_idx_add_all_has,
    lemma_idx_add_has,
    lemma_idx_remove_all_has,
    lemma_idx_remove_has,
    lookup_spec,
};
use crate::kv::KvTree;
use crate::snippet::{
    Draft,
    draft_of,
    drafts_view,
    DraftV,
    draft_valid,
    record_valid,
    Filters,
    FiltersV,
    LostTheWay,
    matches_filter,
    record_of,
    Snippet,
    SnippetV,
    spec_matches,
};
use crate::store::{RecordStore, snippets_view};
use crate::index::vec_contains_u64;
use crate::export::{decode_records, encode_records, spec_dec_records, spec_enc_records};

verus! {

/// The storage engine: the record store and its secondary indices, all in
/// one `sled` database.
pub struct TheWay {
    pub store: RecordStore,
    pub index: IndexManager,
}

/// No index entry appeared that does not point at a live record: whatever an
/// interrupted or failed mutation left behind, every entry that was not
/// already there has its record.
pub open spec fn no_new_dangling(pre: TheWay, post: TheWay) -> bool {
    &&& (forall|k: Seq<u8>, x: u64|
        idx_has(post.lang_index(), k, x) ==> idx_has(pre.lang_index(), k, x)
            || post.recs().contains_key(x))
    &&& (forall|k: Seq<u8>, x: u64|
        idx_has(post.tag_index(), k, x) ==> idx_has(pre.tag_index(), k, x)
            || post.recs().contains_key(x))
}

impl TheWay {
    /// The record map.
    pub open spec fn recs(&self) -> Map<u64, SnippetV> {
        self.store.recs()
    }

    /// The last assigned identifier.
    pub open spec fn counter(&self) -> u64 {
        self.store.counter()
    }

    /// The language index.
    pub open spec fn lang_index(&self) -> Map<Seq<u8>, Seq<u64>> {
        self.index.index(IndexKind::Language)
    }

    /// The tag index.
    pub open spec fn tag_index(&self) -> Map<Seq<u8>, Seq<u64>> {
        self.index.index(IndexKind::Tag)
    }

    /// Opens the engine's four trees in an already opened database.  Their
    /// contents are whatever the database holds.
    pub fn attach(db: &sled::Db) -> (r: Result<TheWay, LostTheWay>) {
        let records = match KvTree::open(db, "records") {
            Ok(t) => t,
            Err(_) => {
                return Err(LostTheWay::StorageIo);
            },
        };
        let meta = match KvTree::open(db, "meta") {
            Ok(t) => t,
            Err(_) => {
                return Err(LostTheWay::StorageIo);
            },
        };
        let languages = match KvTree::open(db, "languages") {
            Ok(t) => t,
            Err(_) => {
                return Err(LostTheWay::StorageIo);
            },
        };
        let tags = match KvTree::open(db, "tags") {
            Ok(t) => t,
            Err(_) => {
                return Err(LostTheWay::StorageIo);
            },
        };
        Ok(
            TheWay {
                store: RecordStore { records, meta },
                index: IndexManager { languages, tags },
            },
        )
    }

    /// The last assigned identifier, as persisted.
    pub fn current_counter(&self) -> (r: Result<u64, LostTheWay>)
        ensures
            r matches Ok(c) ==> c == self.counter(),
            r matches Err(e) ==> e == LostTheWay::StorageIo,
    {
        self.store.current_counter()
    }

    /// Exact lookup of the record at `id`.  A success returns a well-formed
    /// record carrying this identifier; a stored value violating the data
    /// model reads back as corruption, never as a record.
    pub fn get_snippet(&self, id: u64) -> (r: Result<Snippet, LostTheWay>)
        ensures
            r matches Ok(s) ==> self.recs().contains_key(id) && s@ == self.recs()[id]
                && record_valid(s@),
            r matches Err(e) ==> e == LostTheWay::NotFound || e == LostTheWay::StorageIo,
            r == Err::<Snippet, LostTheWay>(LostTheWay::NotFound) ==> !self.recs().contains_key(
                id,
            ),
    {
        self.store.get(id)
    }

    /// Adds a record: reserves the next identifier, writes the record, then
    /// fills the indices — in that order, so that an interruption strands at
    /// worst an unindexed record, never a dangling index entry.
    pub fn add_snippet(&mut self, d: Draft, now: u64) -> (r: Result<u64, LostTheWay>)
        requires
            draft_valid(d@) ==> old(self).counter() < u64::MAX,
        ensures
            r matches Ok(id) ==> ({
                &&& id == old(self).counter() + 1
                &&& final (self).counter() == id
                &&& draft_valid(d@)
                &&& final (self).recs() == old(self).recs().insert(
                    id,
                    record_of(d@, id, now, now),
                )
                &&& final (self).lang_index() == (if d@.language.len() > 0 {
                    idx_add(old(self).lang_index(), d@.language, id)
                } else {
                    old(self).lang_index()
                })
                &&& final (self).tag_index() == idx_add_all(old(self).tag_index(), d@.tags, id)
            }),
            (r == Err::<u64, LostTheWay>(LostTheWay::InvalidRecord)) == !draft_valid(d@),
            r == Err::<u64, LostTheWay>(LostTheWay::InvalidRecord) ==> *final (self) == *old(self),
            r matches Err(e) ==> e == LostTheWay::InvalidRecord || e == LostTheWay::StorageIo,
            r is Err ==> no_new_dangling(*old(self), *final (self)),
            r is Err ==> final (self).recs() == old(self).recs() || final (self).recs() == old(
                self,
            ).recs().insert(
                (old(self).counter() + 1) as u64,
                record_of(d@, (old(self).counter() + 1) as u64, now, now),
            ),
            old(self).counter() <= final (self).counter() <= old(self).counter() + 1,
    {
        let ghost dv = d@;
        if d.description.len() == 0 {
            return Err(LostTheWay::InvalidRecord);
        }
        let id: u64 = match self.store.next_id() {
            Ok(i) => i,
            Err(e) => {
                return Err(e);
            },
        };
        let s = Snippet {
            id,
            description: d.description,
            language: d.language,
            tags: d.tags,
            code: d.code,
            created_at: now,
            modified_at: now,
        };
        proof {
            assert(s@ == record_of(dv, id, now, now));
        }
        match self.store.put(id, &s) {
            Ok(()) => {},
            Err(e) => {
                return Err(e);
            },
        }
        let ghost mid = *self;
        match self.add_index_entries(&s) {
            Ok(()) => {
                proof {
                    assert(mid.lang_index() == old(self).lang_index());
                    assert(mid.tag_index() == old(self).tag_index());
                }
                Ok(id)
            },
            Err(e) => {
                proof {
                    assert(self.recs().contains_key(id));
                    assert forall|kk: Seq<u8>, x: u64|
                        idx_has(self.lang_index(), kk, x) implies idx_has(
                        old(self).lang_index(),
                        kk,
                        x,
                    ) || self.recs().contains_key(x) by {}
                    assert forall|kk: Seq<u8>, x: u64|
                        idx_has(self.tag_index(), kk, x) implies idx_has(
                        old(self).tag_index(),
                        kk,
                        x,
                    ) || self.recs().contains_key(x) by {}
                }
                Err(e)
            },
        }
    }

    /// Deletes a record: reads it, removes its index entries, then removes
    /// the record — in that order, so that an interruption strands at worst
    /// an orphan record, never a dangling index entry.
    pub fn delete_snippet(&mut self, id: u64) -> (r: Result<Snippet, LostTheWay>)
        ensures
            r matches Ok(s) ==> ({
                &&& old(self).recs().contains_key(id)
                &&& s@ == old(self).recs()[id]
                &&& final (self).recs() == old(self).recs().remove(id)
                &&& final (self).lang_index() == (if old(self).recs()[id].language.len() > 0 {
                    idx_remove(old(self).lang_index(), old(self).recs()[id].language, id)
                } else {
                    old(self).lang_index()
                })
                &&& final (self).tag_index() == idx_remove_all(
                    old(self).tag_index(),
                    old(self).recs()[id].tags,
                    id,
                )
                &&& final (self).counter() == old(self).counter()
            }),
            r == Err::<Snippet, LostTheWay>(LostTheWay::NotFound) ==> !old(
                self,
            ).recs().contains_key(id) && *final (self) == *old(self),
            r matches Err(e) ==> e == LostTheWay::NotFound || e == LostTheWay::StorageIo,
            r is Err ==> no_new_dangling(*old(self), *final (self)),
            r is Err ==> final (self).recs() == old(self).recs() || final (self).recs() == old(
                self,
            ).recs().remove(id),
            final (self).counter() == old(self).counter(),
    {
        let s = match self.store.get(id) {
            Ok(s) => s,
            Err(e) => {
                return Err(e);
            },
        };
        let ghost sv = s@;
        if s.language.len() > 0 {
            match self.index.remove_from_index(IndexKind::Language, &s.language, id) {
                Ok(()) => {},
                Err(e) => {
                    proof {
                        assert forall|k: Seq<u8>, x: u64|
                            idx_has(self.lang_index(), k, x) implies idx_has(
                            old(self).lang_index(),
                            k,
                            x,
                        ) by {
                            if self.lang_index() != old(self).lang_index() {
                                lemma_idx_remove_has(old(self).lang_index(), sv.language, id, k, x);
                            }
                        }
                    }
                    return Err(e);
                },
            }
        }
        let ghost lang_done = self.lang_index();
        proof {
            assert(sv.tags.skip(0) =~= sv.tags);
            assert forall|kk: Seq<u8>, x: u64|
                idx_has(lang_done, kk, x) implies idx_has(old(self).lang_index(), kk, x) by {
                if lang_done != old(self).lang_index() {
                    lemma_idx_remove_has(old(self).lang_index(), sv.language, id, kk, x);
                }
            }
        }
        let mut k: usize = 0;
        while k < s.tags.len()
            invariant
                0 <= k <= s.tags@.len(),
                sv.tags.len() == s.tags@.len(),
                forall|j: int| 0 <= j < s.tags@.len() ==> sv.tags[j] == s.tags@[j]@,
                old(self).recs().contains_key(id),
                sv == old(self).recs()[id],
                self.recs() == old(self).recs(),
                self.counter() == old(self).counter(),
                self.lang_index() == lang_done,
                lang_done == (if sv.language.len() > 0 {
                    idx_remove(old(self).lang_index(), sv.language, id)
                } else {
                    old(self).lang_index()
                }),
                forall|kk: Seq<u8>, x: u64|
                    idx_has(lang_done, kk, x) ==> idx_has(old(self).lang_index(), kk, x),
                idx_remove_all(self.tag_index(), sv.tags.skip(k as int), id) == idx_remove_all(
                    old(self).tag_index(),
                    sv.tags,
                    id,
                ),
                forall|kk: Seq<u8>, x: u64|
                    idx_has(self.tag_index(), kk, x) ==> idx_has(old(self).tag_index(), kk, x),
            decreases s.tags@.len() - k,
        {
            let ghost rest = sv.tags.skip(k as int);
            let ghost cur = self.tag_index();
            proof {
                assert(rest.len() > 0);
                assert(rest[0] == sv.tags[k as int]);
                assert(rest.skip(1) =~= sv.tags.skip(k as int + 1));
            }
            match self.index.remove_from_index(IndexKind::Tag, &s.tags[k], id) {
                Ok(()) => {
                    proof {
                        assert forall|kk: Seq<u8>, x: u64|
                            idx_has(self.tag_index(), kk, x) implies idx_has(
                            old(self).tag_index(),
                            kk,
                            x,
                        ) by {
                            lemma_idx_remove_has(cur, sv.tags[k as int], id, kk, x);
                        }
                    }
                },
                Err(e) => {
                    proof {
                        assert forall|kk: Seq<u8>, x: u64|
                            idx_has(self.tag_index(), kk, x) implies idx_has(
                            old(self).tag_index(),
                            kk,
                            x,
                        ) by {
                            if self.tag_index() != cur {
                                lemma_idx_remove_has(cur, sv.tags[k as int], id, kk, x);
                            }
                        }
                    }
                    return Err(e);
                },
            }
            k = k + 1;
        }
        proof {
            assert(sv.tags.skip(sv.tags.len() as int) =~= Seq::<Seq<u8>>::empty());
        }
        match self.store.delete(id) {
            Ok(prior) => Ok(prior),
            Err(_) => Err(LostTheWay::StorageIo),
        }
    }

    /// Fills the language and tag indices for a record that is already
    /// stored; shared by add and edit.  On failure, any entry that appeared
    /// points at this record's identifier.
    fn add_index_entries(&mut self, s: &Snippet) -> (r: Result<(), LostTheWay>)
        ensures
            r is Ok ==> final (self).lang_index() == (if s@.language.len() > 0 {
                idx_add(old(self).lang_index(), s@.language, s@.id)
            } else {
                old(self).lang_index()
            }),
            r is Ok ==> final (self).tag_index() == idx_add_all(
                old(self).tag_index(),
                s@.tags,
                s@.id,
            ),
            r is Err ==> final (self).lang_index() == old(self).lang_index() || final (self).lang_index()
                == idx_add(old(self).lang_index(), s@.language, s@.id),
            forall|kk: Seq<u8>, x: u64|
                idx_has(final (self).tag_index(), kk, x) ==> idx_has(
                    old(self).tag_index(),
                    kk,
                    x,
                ) || x == s@.id,
            forall|kk: Seq<u8>, x: u64|
                idx_has(final (self).lang_index(), kk, x) ==> idx_has(
                    old(self).lang_index(),
                    kk,
                    x,
                ) || x == s@.id,
            r matches Err(e) ==> e == LostTheWay::StorageIo,
            final (self).recs() == old(self).recs(),
            final (self).counter() == old(self).counter(),
    {
        let ghost sv = s@;
        let id = s.id;
        if s.language.len() > 0 {
            match self.index.add_to_index(IndexKind::Language, &s.language, id) {
                Ok(()) => {},
                Err(e) => {
                    proof {
                        assert forall|kk: Seq<u8>, x: u64|
                            idx_has(self.lang_index(), kk, x) implies idx_has(
                            old(self).lang_index(),
                            kk,
                            x,
                        ) || x == id by {
                            if self.lang_index() != old(self).lang_index() {
                                lemma_idx_add_has(old(self).lang_index(), sv.language, id, kk, x);
                            }
                        }
                    }
                    return Err(e);
                },
            }
        }
        let ghost lang_done = self.lang_index();
        proof {
            assert(sv.tags.skip(0) =~= sv.tags);
            assert forall|kk: Seq<u8>, x: u64|
                idx_has(lang_done, kk, x) implies idx_has(old(self).lang_index(), kk, x) || x
                == id by {
                if sv.language.len() > 0 {
                    lemma_idx_add_has(old(self).lang_index(), sv.language, id, kk, x);
                }
            }
        }
        let mut k: usize = 0;
        while k < s.tags.len()
            invariant
                0 <= k <= s.tags@.len(),
                sv == s@,
                id == sv.id,
                sv.tags.len() == s.tags@.len(),
                forall|j: int| 0 <= j < s.tags@.len() ==> sv.tags[j] == s.tags@[j]@,
                self.recs() == old(self).recs(),
                self.counter() == old(self).counter(),
                self.lang_index() == lang_done,
                lang_done == (if sv.language.len() > 0 {
                    idx_add(old(self).lang_index(), sv.language, id)
                } else {
                    old(self).lang_index()
                }),
                forall|kk: Seq<u8>, x: u64|
                    idx_has(lang_done, kk, x) ==> idx_has(old(self).lang_index(), kk, x) || x
                        == id,
                idx_add_all(self.tag_index(), sv.tags.skip(k as int), id) == idx_add_all(
                    old(self).tag_index(),
                    sv.tags,
                    id,
                ),
                forall|kk: Seq<u8>, x: u64|
                    idx_has(self.tag_index(), kk, x) ==> idx_has(old(self).tag_index(), kk, x) || x
                        == id,
            decreases s.tags@.len() - k,
        {
            let ghost rest = sv.tags.skip(k as int);
            let ghost cur = self.tag_index();
            proof {
                assert(rest.len() > 0);
                assert(rest[0] == sv.tags[k as int]);
                assert(rest.skip(1) =~= sv.tags.skip(k as int + 1));
            }
            match self.index.add_to_index(IndexKind::Tag, &s.tags[k], id) {
                Ok(()) => {
                    proof {
                        assert forall|kk: Seq<u8>, x: u64|
                            idx_has(self.tag_index(), kk, x) implies idx_has(
                            old(self).tag_index(),
                            kk,
                            x,
                        ) || x == id by {
                            lemma_idx_add_has(cur, sv.tags[k as int], id, kk, x);
                        }
                    }
                },
                Err(e) => {
                    proof {
                        assert forall|kk: Seq<u8>, x: u64|
                            idx_has(self.tag_index(), kk, x) implies idx_has(
                            old(self).tag_index(),
                            kk,
                            x,
                        ) || x == id by {
                            if self.tag_index() != cur {
                                lemma_idx_add_has(cur, sv.tags[k as int], id, kk, x);
                            }
                        }
                    }
                    return Err(e);
                },
            }
            k = k + 1;
        }
        proof {
            assert(sv.tags.skip(sv.tags.len() as int) =~= Seq::<Seq<u8>>::empty());
        }
        Ok(())
    }

    /// Replaces the record at `id` wholesale: a delete immediately followed
    /// by an add that reuses the identifier instead of drawing a fresh one.
    /// `created_at` is preserved and `modified_at` never goes backward.  If
    /// the add half fails after the delete half succeeded, the loss is
    /// surfaced as [`LostTheWay::PartialMutationFailure`].
    #[verifier::rlimit(100)]
    #[verifier::spinoff_prover]
    pub fn edit_snippet(&mut self, id: u64, d: Draft, now: u64) -> (r: Result<(), LostTheWay>)
        ensures
            r is Ok ==> ({
                let oldrec = old(self).recs()[id];
                let newrec = record_of(
                    d@,
                    id,
                    oldrec.created_at,
                    if now >= oldrec.modified_at {
                        now
                    } else {
                        oldrec.modified_at
                    },
                );
                &&& old(self).recs().contains_key(id)
                &&& draft_valid(d@)
                &&& final (self).recs() == old(self).recs().insert(id, newrec)
                &&& final (self).recs()[id].id == id
                &&& final (self).recs()[id].created_at == oldrec.created_at
                &&& final (self).recs()[id].modified_at >= oldrec.modified_at
                &&& ({
                    let m1 = if oldrec.language.len() > 0 {
                        idx_remove(old(self).lang_index(), oldrec.language, id)
                    } else {
                        old(self).lang_index()
                    };
                    final (self).lang_index() == (if d@.language.len() > 0 {
                        idx_add(m1, d@.language, id)
                    } else {
                        m1
                    })
                })
                &&& final (self).tag_index() == idx_add_all(
                    idx_remove_all(old(self).tag_index(), oldrec.tags, id),
                    d@.tags,
                    id,
                )
            }),
            (r == Err::<(), LostTheWay>(LostTheWay::InvalidRecord)) == !draft_valid(d@),
            r == Err::<(), LostTheWay>(LostTheWay::InvalidRecord) ==> *final (self) == *old(self),
            r == Err::<(), LostTheWay>(LostTheWay::NotFound) ==> !old(self).recs().contains_key(id)
                && *final (self) == *old(self),
            r == Err::<(), LostTheWay>(LostTheWay::PartialMutationFailure) ==> old(
                self,
            ).recs().contains_key(id) && (final (self).recs() == old(self).recs().remove(id)
                || final (self).recs() == old(self).recs().insert(
                id,
                record_of(
                    d@,
                    id,
                    old(self).recs()[id].created_at,
                    if now >= old(self).recs()[id].modified_at {
                        now
                    } else {
                        old(self).recs()[id].modified_at
                    },
                ),
            )),
            r matches Err(e) ==> e == LostTheWay::NotFound || e == LostTheWay::StorageIo || e
                == LostTheWay::InvalidRecord || e == LostTheWay::PartialMutationFailure,
            r is Err ==> no_new_dangling(*old(self), *final (self)),
            final (self).counter() == old(self).counter(),
    {
        let ghost dv = d@;
        if d.description.len() == 0 {
            return Err(LostTheWay::InvalidRecord);
        }
        let prior = match self.delete_snippet(id) {
            Ok(p) => p,
            Err(e) => {
                return Err(e);
            },
        };
        let ghost oldrec = old(self).recs()[id];
        let ghost mid = *self;
        proof {
            assert(prior@ == oldrec);
        }
        let new_modified: u64 = if now >= prior.modified_at {
            now
        } else {
            prior.modified_at
        };
        let s = Snippet {
            id,
            description: d.description,
            language: d.language,
            tags: d.tags,
            code: d.code,
            created_at: prior.created_at,
            modified_at: new_modified,
        };
        let ghost newrec = s@;
        match self.store.put(id, &s) {
            Ok(()) => {
                proof {
                    assert(self.recs() =~= old(self).recs().insert(id, newrec));
                }
            },
            Err(_) => {
                proof {
                    if self.recs() != mid.recs() {
                        assert(self.recs() =~= old(self).recs().insert(id, newrec));
                    } else {
                        assert(self.recs() == old(self).recs().remove(id));
                    }
                    assert forall|kk: Seq<u8>, x: u64|
                        idx_has(self.lang_index(), kk, x) implies idx_has(
                        old(self).lang_index(),
                        kk,
                        x,
                    ) || self.recs().contains_key(x) by {
                        if oldrec.language.len() > 0 {
                            lemma_idx_remove_has(old(self).lang_index(), oldrec.language, id, kk, x);
                        }
                    }
                    assert forall|kk: Seq<u8>, x: u64|
                        idx_has(self.tag_index(), kk, x) implies idx_has(
                        old(self).tag_index(),
                        kk,
                        x,
                    ) || self.recs().contains_key(x) by {
                        lemma_idx_remove_all_has(old(self).tag_index(), oldrec.tags, id, kk, x);
                    }
                }
                return Err(LostTheWay::PartialMutationFailure);
            },
        }
        let ghost mid2 = *self;
        match self.add_index_entries(&s) {
            Ok(()) => {
                proof {
                    assert(mid2.lang_index() == mid.lang_index());
                    assert(mid2.tag_index() == mid.tag_index());
                }
                Ok(())
            },
            Err(e) => {
                proof {
                    assert(self.recs().contains_key(id));
                    assert forall|kk: Seq<u8>, x: u64|
                        idx_has(self.lang_index(), kk, x) implies idx_has(
                        old(self).lang_index(),
                        kk,
                        x,
                    ) || self.recs().contains_key(x) by {
                        if idx_has(mid2.lang_index(), kk, x) {
                            lemma_idx_remove_has(old(self).lang_index(), oldrec.language, id, kk, x);
                        }
                    }
                    assert forall|kk: Seq<u8>, x: u64|
                        idx_has(self.tag_index(), kk, x) implies idx_has(
                        old(self).tag_index(),
                        kk,
                        x,
                    ) || self.recs().contains_key(x) by {
                        if idx_has(mid2.tag_index(), kk, x) {
                            lemma_idx_remove_all_has(old(self).tag_index(), oldrec.tags, id, kk, x);
                        }
                    }
                }
                Err(e)
            },
        }
    }

    /// Erases all persisted state: indices first, then the records, then the
    /// counter — the one operation permitted to reset the identifier counter.
    pub fn clear(&mut self) -> (r: Result<(), LostTheWay>)
        ensures
            r is Ok ==> (forall|x: u64| !final (self).recs().contains_key(x)) && final (self).counter()
                == 0 && (forall|k: Seq<u8>| !final (self).lang_index().contains_key(k)) && (forall|
                k: Seq<u8>,
            | !final (self).tag_index().contains_key(k)),
            r matches Err(e) ==> e == LostTheWay::StorageIo,
            r is Err ==> no_new_dangling(*old(self), *final (self)),
    {
        match self.index.clear_index(IndexKind::Language) {
            Ok(()) => {},
            Err(e) => {
                return Err(e);
            },
        }
        match self.index.clear_index(IndexKind::Tag) {
            Ok(()) => {},
            Err(e) => {
                return Err(e);
            },
        }
        match self.store.clear_records() {
            Ok(()) => {},
            Err(e) => {
                return Err(e);
            },
        }
        let ghost mid2 = self.store;
        match self.store.reset_counter() {
            Ok(()) => {
                proof {
                    assert forall|x: u64| !self.recs().contains_key(x) by {
                        assert(!mid2.recs().contains_key(x));
                    }
                    assert(self.counter() == 0);
                    assert(forall|k: Seq<u8>| !self.lang_index().contains_key(k));
                    assert(forall|k: Seq<u8>| !self.tag_index().contains_key(k));
                }
                Ok(())
            },
            Err(e) => Err(e),
        }
    }
}

/// The language index a rebuild establishes: an identifier is listed under a
/// key exactly when its record exists within the counter's range, carries
/// that language, and the language is not empty.
pub open spec fn rebuilt_lang(
    recs: Map<u64, SnippetV>,
    ctr: u64,
    lang: Map<Seq<u8>, Seq<u64>>,
) -> bool {
    forall|k: Seq<u8>, x: u64|
        idx_has(lang, k, x) == (1 <= x <= ctr && recs.contains_key(x) && recs[x].language == k
            && k.len() > 0)
}

/// The tag index a rebuild establishes.
pub open spec fn rebuilt_tag(recs: Map<u64, SnippetV>, ctr: u64, tag: Map<Seq<u8>, Seq<u64>>) -> bool {
    forall|k: Seq<u8>, x: u64|
        idx_has(tag, k, x) == (1 <= x <= ctr && recs.contains_key(x) && recs[x].tags.contains(k))
}

/// What a prefix of a list contains, one element further in.
proof fn lemma_take_step_contains(ts: Seq<Seq<u8>>, j: int, k: Seq<u8>)
    requires
        0 <= j < ts.len(),
    ensures
        ts.take(j + 1).contains(k) == (ts.take(j).contains(k) || ts[j] == k),
{
    let t1 = ts.take(j + 1);
    let t0 = ts.take(j);
    if t1.contains(k) {
        let w = choose|w: int| 0 <= w < t1.len() && t1[w] == k;
        if w < j {
            assert(t0[w] == k);
        }
    }
    if t0.contains(k) {
        let w = choose|w: int| 0 <= w < t0.len() && t0[w] == k;
        assert(t1[w] == k);
    }
    if ts[j] == k {
        assert(t1[j] == k);
    }
}

impl TheWay {
    /// The maintenance pass: discards both indices entirely and rebuilds
    /// them from an authoritative scan of the record store.  The indices are
    /// a cache; this is the only place they are validated, so queries stay
    /// cheap and start-up stays instant.
    pub fn rebuild_indices(&mut self) -> (r: Result<(), LostTheWay>)
        ensures
            r is Ok ==> rebuilt_lang(
                old(self).recs(),
                old(self).counter(),
                final (self).lang_index(),
            ) && rebuilt_tag(old(self).recs(), old(self).counter(), final (self).tag_index()),
            r matches Err(e) ==> e == LostTheWay::StorageIo,
            r is Err ==> no_new_dangling(*old(self), *final (self)),
            final (self).recs() == old(self).recs(),
            final (self).counter() == old(self).counter(),
    {
        match self.index.clear_index(IndexKind::Language) {
            Ok(()) => {},
            Err(e) => {
                return Err(e);
            },
        }
        match self.index.clear_index(IndexKind::Tag) {
            Ok(()) => {},
            Err(e) => {
                return Err(e);
            },
        }
        let ctr: u64 = match self.store.current_counter() {
            Ok(c) => c,
            Err(e) => {
                return Err(e);
            },
        };
        let mut i: u64 = 0;
        while i < ctr
            invariant
                0 <= i <= ctr,
                self.recs() == old(self).recs(),
                self.counter() == old(self).counter(),
                ctr == old(self).counter(),
                forall|k: Seq<u8>, x: u64|
                    idx_has(self.lang_index(), k, x) == (1 <= x <= i && old(
                        self,
                    ).recs().contains_key(x) && old(self).recs()[x].language == k && k.len() > 0),
                forall|k: Seq<u8>, x: u64|
                    idx_has(self.tag_index(), k, x) == (1 <= x <= i && old(
                        self,
                    ).recs().contains_key(x) && old(self).recs()[x].tags.contains(k)),
            decreases ctr - i,
        {
            let x: u64 = i + 1;
            let ghost tag_i = self.tag_index();
            let ghost lang_i = self.lang_index();
            match self.store.get(x) {
                Err(LostTheWay::NotFound) => {},
                Err(_) => {
                    return Err(LostTheWay::StorageIo);
                },
                Ok(s) => {
                    let ghost sv = s@;
                    let ghost lang_before = self.lang_index();
                    proof {
                        assert(sv == old(self).recs()[x]);
                        assert(sv.id == x);
                    }
                    if s.language.len() > 0 {
                        match self.index.add_to_index(IndexKind::Language, &s.language, x) {
                            Ok(()) => {},
                            Err(e) => {
                                proof {
                                    assert forall|kk: Seq<u8>, y: u64|
                                        idx_has(self.lang_index(), kk, y) implies self.recs().contains_key(
                                        y,
                                    ) by {
                                        if self.lang_index() != lang_before {
                                            lemma_idx_add_has(lang_before, sv.language, x, kk, y);
                                        }
                                    }
                                    assert forall|kk: Seq<u8>, y: u64|
                                        idx_has(self.tag_index(), kk, y) implies self.recs().contains_key(
                                        y,
                                    ) by {
                                        assert(self.tag_index() == tag_i);
                                        assert(idx_has(tag_i, kk, y) == (1 <= y <= i && old(
                                            self,
                                        ).recs().contains_key(y) && old(
                                            self,
                                        ).recs()[y].tags.contains(kk)));
                                    }
                                }
                                return Err(e);
                            },
                        }
                        proof {
                            assert forall|kk: Seq<u8>, y: u64|
                                idx_has(self.lang_index(), kk, y) == (1 <= y <= x && old(
                                self,
                            ).recs().contains_key(y) && old(self).recs()[y].language == kk
                                && kk.len() > 0) by {
                                lemma_idx_add_has(lang_before, sv.language, x, kk, y);
                            }
                        }
                    } else {
                        proof {
                            assert forall|kk: Seq<u8>, y: u64|
                                idx_has(self.lang_index(), kk, y) == (1 <= y <= x && old(
                                self,
                            ).recs().contains_key(y) && old(self).recs()[y].language == kk
                                && kk.len() > 0) by {
                                if y == x && old(self).recs().contains_key(x) && old(
                                    self,
                                ).recs()[x].language == kk {
                                    assert(kk.len() == 0);
                                }
                            }
                        }
                    }
                    let ghost tag_base_lang = self.lang_index();
                    proof {
                        assert(sv.tags.take(0) =~= Seq::<Seq<u8>>::empty());
                        assert forall|k: Seq<u8>, y: u64|
                            idx_has(self.tag_index(), k, y) == ((1 <= y <= x - 1 && old(
                                self,
                            ).recs().contains_key(y) && old(self).recs()[y].tags.contains(k)) || (y
                                == x && sv.tags.take(0).contains(k))) by {
                            assert(sv.tags.take(0).len() == 0);
                            assert(self.tag_index() == tag_i);
                            assert(idx_has(tag_i, k, y) == (1 <= y <= i && old(
                                self,
                            ).recs().contains_key(y) && old(self).recs()[y].tags.contains(k)));
                        }
                    }
                    let mut j: usize = 0;
                    while j < s.tags.len()
                        invariant
                            0 <= j <= s.tags@.len(),
                            sv == s@,
                            x == sv.id,
                            1 <= x,
                            sv.tags.len() == s.tags@.len(),
                            forall|jj: int| 0 <= jj < s.tags@.len() ==> sv.tags[jj] == s.tags@[jj]@,
                            self.recs() == old(self).recs(),
                            self.counter() == old(self).counter(),
                            old(self).recs().contains_key(x),
                            sv == old(self).recs()[x],
                            self.lang_index() == tag_base_lang,
                            forall|k: Seq<u8>, y: u64|
                                idx_has(tag_base_lang, k, y) == (1 <= y <= x && old(
                                    self,
                                ).recs().contains_key(y) && old(self).recs()[y].language == k
                                    && k.len() > 0),
                            forall|k: Seq<u8>, y: u64|
                                idx_has(self.tag_index(), k, y) == ((1 <= y <= x - 1 && old(
                                    self,
                                ).recs().contains_key(y) && old(self).recs()[y].tags.contains(k))
                                    || (y == x && sv.tags.take(j as int).contains(k))),
                        decreases s.tags@.len() - j,
                    {
                        let ghost cur = self.tag_index();
                        match self.index.add_to_index(IndexKind::Tag, &s.tags[j], x) {
                            Ok(()) => {
                                proof {
                                    assert forall|k: Seq<u8>, y: u64|
                                        idx_has(self.tag_index(), k, y) == ((1 <= y <= x - 1 && old(
                                            self,
                                        ).recs().contains_key(y) && old(
                                            self,
                                        ).recs()[y].tags.contains(k)) || (y == x && sv.tags.take(
                                            j as int + 1,
                                        ).contains(k))) by {
                                        lemma_idx_add_has(cur, sv.tags[j as int], x, k, y);
                                        lemma_take_step_contains(sv.tags, j as int, k);
                                    }
                                }
                            },
                            Err(e) => {
                                proof {
                                    assert forall|kk: Seq<u8>, y: u64|
                                        idx_has(self.tag_index(), kk, y) implies self.recs().contains_key(
                                        y,
                                    ) by {
                                        if self.tag_index() != cur {
                                            lemma_idx_add_has(cur, sv.tags[j as int], x, kk, y);
                                        }
                                    }
                                    assert forall|kk: Seq<u8>, y: u64|
                                        idx_has(self.lang_index(), kk, y) implies self.recs().contains_key(
                                        y,
                                    ) by {
                                        assert(self.lang_index() == tag_base_lang);
                                        assert(idx_has(tag_base_lang, kk, y) == (1 <= y <= x
                                            && old(self).recs().contains_key(y) && old(
                                            self,
                                        ).recs()[y].language == kk && kk.len() > 0));
                                    }
                                }
                                return Err(e);
                            },
                        }
                        j = j + 1;
                    }
                    proof {
                        assert(sv.tags.take(sv.tags.len() as int) =~= sv.tags);
                        assert forall|k: Seq<u8>, y: u64|
                            idx_has(self.tag_index(), k, y) == (1 <= y <= x && old(
                            self,
                        ).recs().contains_key(y) && old(self).recs()[y].tags.contains(k)) by {
                            if y == x {
                                assert(old(self).recs()[x].tags == sv.tags);
                            }
                        }
                    }
                },
            }
            i = i + 1;
        }
        Ok(())
    }
}

/// An identifier survives the index narrowing of a filter: it is listed
/// under the requested language, and under every requested tag.
pub open spec fn is_candidate(
    f: FiltersV,
    li: Map<Seq<u8>, Seq<u64>>,
    ti: Map<Seq<u8>, Seq<u64>>,
    x: u64,
) -> bool {
    &&& (match f.language {
        Some(l) => lookup_spec(li, l).contains(x),
        None => true,
    })
    &&& (forall|j: int| 0 <= j < f.tags.len() ==> lookup_spec(ti, #[trigger] f.tags[j]).contains(x))
}

/// What a query answers: exactly the records that the indices nominate and
/// that satisfy the whole filter, in ascending identifier order.  An index
/// entry whose record is missing or no longer matches is dropped silently; a
/// record the indices fail to nominate is missed until a rebuild — the
/// documented staleness tolerance.
pub open spec fn query_ok(
    recs: Map<u64, SnippetV>,
    ctr: u64,
    li: Map<Seq<u8>, Seq<u64>>,
    ti: Map<Seq<u8>, Seq<u64>>,
    f: FiltersV,
    out: Seq<SnippetV>,
) -> bool {
    &&& (forall|p: int, q: int| 0 <= p < q < out.len() ==> out[p].id < out[q].id)
    &&& (forall|p: int|
        0 <= p < out.len() ==> {
            let s = #[trigger] out[p];
            &&& 1 <= s.id <= ctr
            &&& recs.contains_key(s.id)
            &&& s == recs[s.id]
            &&& record_valid(s)
            &&& spec_matches(s, f)
            &&& is_candidate(f, li, ti, s.id)
        })
    &&& (forall|x: u64|
        1 <= x <= ctr && recs.contains_key(x) && #[trigger] is_candidate(f, li, ti, x)
            && spec_matches(recs[x], f) ==> exists|p: int|
            0 <= p < out.len() && (#[trigger] out[p]).id == x)
}

impl TheWay {
    /// Answers a filter request: the indices narrow the candidates when the
    /// filter names a language or tags, a full traversal serves otherwise,
    /// and every candidate is materialized and re-checked against the whole
    /// filter before it is returned.
    pub fn filter_snippets(&self, f: &Filters) -> (r: Result<Vec<Snippet>, LostTheWay>)
        ensures
            r matches Ok(out) ==> query_ok(
                self.recs(),
                self.counter(),
                self.lang_index(),
                self.tag_index(),
                f@,
                snippets_view(out@),
            ),
            r matches Err(e) ==> e == LostTheWay::StorageIo,
    {
        let lang_list: Option<Vec<u64>> = match &f.language {
            Some(l) => {
                match self.index.lookup(IndexKind::Language, l) {
                    Ok(v) => Some(v),
                    Err(e) => {
                        return Err(e);
                    },
                }
            },
            None => None,
        };
        let mut tag_lists: Vec<Vec<u64>> = Vec::new();
        let mut j: usize = 0;
        while j < f.tags.len()
            invariant
                j == tag_lists@.len(),
                0 <= j <= f.tags@.len(),
                forall|q: int|
                    0 <= q < j ==> (#[trigger] tag_lists@[q])@ == lookup_spec(
                        self.tag_index(),
                        f@.tags[q],
                    ),
            decreases f.tags@.len() - j,
        {
            match self.index.lookup(IndexKind::Tag, &f.tags[j]) {
                Ok(v) => {
                    proof {
                        assert(f@.tags[j as int] == f.tags@[j as int]@);
                    }
                    tag_lists.push(v);
                },
                Err(e) => {
                    return Err(e);
                },
            }
            j = j + 1;
        }
        let ctr: u64 = match self.store.current_counter() {
            Ok(c) => c,
            Err(e) => {
                return Err(e);
            },
        };
        let mut out: Vec<Snippet> = Vec::new();
        let mut i: u64 = 0;
        while i < ctr
            invariant
                0 <= i <= ctr,
                ctr == self.counter(),
                (match f@.language {
                    Some(l) => lang_list matches Some(v) && v@ == lookup_spec(
                        self.lang_index(),
                        l,
                    ),
                    None => lang_list is None,
                }),
                tag_lists@.len() == f.tags@.len(),
                f@.tags.len() == f.tags@.len(),
                forall|q: int|
                    0 <= q < tag_lists@.len() ==> (#[trigger] tag_lists@[q])@ == lookup_spec(
                        self.tag_index(),
                        f@.tags[q],
                    ),
                forall|p: int, q: int|
                    0 <= p < q < snippets_view(out@).len() ==> snippets_view(out@)[p].id
                        < snippets_view(out@)[q].id,
                forall|p: int|
                    0 <= p < snippets_view(out@).len() ==> {
                        let s = #[trigger] snippets_view(out@)[p];
                        &&& 1 <= s.id <= i
                        &&& self.recs().contains_key(s.id)
                        &&& s == self.recs()[s.id]
                        &&& record_valid(s)
                        &&& spec_matches(s, f@)
                        &&& is_candidate(f@, self.lang_index(), self.tag_index(), s.id)
                    },
                forall|x: u64|
                    1 <= x <= i && self.recs().contains_key(x) && #[trigger] is_candidate(
                        f@,
                        self.lang_index(),
                        self.tag_index(),
                        x,
                    ) && spec_matches(self.recs()[x], f@) ==> exists|p: int|
                        0 <= p < snippets_view(out@).len() && (#[trigger] snippets_view(
                            out@,
                        )[p]).id == x,
            decreases ctr - i,
        {
            let x: u64 = i + 1;
            let lang_ok: bool = match &lang_list {
                Some(v) => vec_contains_u64(v, x),
                None => true,
            };
            let mut tags_ok: bool = true;
            let mut q: usize = 0;
            while q < tag_lists.len()
                invariant
                    0 <= q <= tag_lists@.len(),
                    tag_lists@.len() == f.tags@.len(),
                    f@.tags.len() == f.tags@.len(),
                    forall|t: int|
                        0 <= t < tag_lists@.len() ==> (#[trigger] tag_lists@[t])@ == lookup_spec(
                            self.tag_index(),
                            f@.tags[t],
                        ),
                    tags_ok == (forall|t: int|
                        0 <= t < q ==> lookup_spec(self.tag_index(), #[trigger] f@.tags[t]).contains(
                            x,
                        )),
                decreases tag_lists@.len() - q,
            {
                let present = vec_contains_u64(&tag_lists[q], x);
                proof {
                    assert(tag_lists@[q as int]@ == lookup_spec(
                        self.tag_index(),
                        f@.tags[q as int],
                    ));
                }
                tags_ok = tags_ok && present;
                q = q + 1;
            }
            let cand: bool = lang_ok && tags_ok;
            proof {
                assert(cand == is_candidate(f@, self.lang_index(), self.tag_index(), x));
            }
            if cand {
                let ghost prev = snippets_view(out@);
                match self.store.get(x) {
                    Ok(s) => {
                        proof {
                            assert(s@.id == x);
                        }
                        if matches_filter(&s, f) {
                            let ghost sv = s@;
                            out.push(s);
                            proof {
                                assert(snippets_view(out@) =~= prev.push(sv));
                                assert forall|y: u64|
                                    1 <= y <= x && self.recs().contains_key(y)
                                        && #[trigger] is_candidate(
                                        f@,
                                        self.lang_index(),
                                        self.tag_index(),
                                        y,
                                    ) && spec_matches(self.recs()[y], f@) implies exists|p: int|
                                    0 <= p < snippets_view(out@).len() && (#[trigger] snippets_view(
                                        out@,
                                    )[p]).id == y by {
                                    if y == x {
                                        assert(snippets_view(out@)[prev.len() as int].id == x);
                                    } else {
                                        let p = choose|p: int|
                                            0 <= p < prev.len() && (#[trigger] prev[p]).id == y;
                                        assert(snippets_view(out@)[p].id == y);
                                    }
                                }
                            }
                        }
                    },
                    Err(LostTheWay::NotFound) => {
                    },
                    Err(_) => {
                        return Err(LostTheWay::StorageIo);
                    },
                }
            }
            i = x;
        }
        Ok(out)
    }
}

/// The record map after importing a decoded list: each record is stored
/// under the next identifier in turn, with both timestamps set to `now`.
pub open spec fn imported_recs(
    base: Map<u64, SnippetV>,
    ms: Seq<DraftV>,
    ctr: u64,
    now: u64,
) -> Map<u64, SnippetV>
    decreases ms.len(),
{
    if ms.len() == 0 {
        base
    } else {
        imported_recs(
            base.insert((ctr + 1) as u64, record_of(ms[0], (ctr + 1) as u64, now, now)),
            ms.skip(1),
            (ctr + 1) as u64,
            now,
        )
    }
}

/// The language index after importing a decoded list.
pub open spec fn imported_langs(
    base: Map<Seq<u8>, Seq<u64>>,
    ms: Seq<DraftV>,
    ctr: u64,
) -> Map<Seq<u8>, Seq<u64>>
    decreases ms.len(),
{
    if ms.len() == 0 {
        base
    } else {
        imported_langs(
            if ms[0].language.len() > 0 {
                idx_add(base, ms[0].language, (ctr + 1) as u64)
            } else {
                base
            },
            ms.skip(1),
            (ctr + 1) as u64,
        )
    }
}

/// The tag index after importing a decoded list.
pub open spec fn imported_tags(
    base: Map<Seq<u8>, Seq<u64>>,
    ms: Seq<DraftV>,
    ctr: u64,
) -> Map<Seq<u8>, Seq<u64>>
    decreases ms.len(),
{
    if ms.len() == 0 {
        base
    } else {
        imported_tags(idx_add_all(base, ms[0].tags, (ctr + 1) as u64), ms.skip(1), (ctr + 1) as u64)
    }
}

impl TheWay {
    /// Writes the records a filter selects into the bulk format.
    pub fn export_filtered(&self, f: &Filters) -> (r: Result<Vec<u8>, LostTheWay>)
        ensures
            r matches Ok(bytes) ==> exists|out: Seq<SnippetV>|
                #![auto]
                query_ok(
                    self.recs(),
                    self.counter(),
                    self.lang_index(),
                    self.tag_index(),
                    f@,
                    out,
                ) && bytes@ == spec_enc_records(Seq::new(out.len(), |i: int| draft_of(out[i]))),
            r matches Err(e) ==> e == LostTheWay::StorageIo,
    {
        let selected = match self.filter_snippets(f) {
            Ok(v) => v,
            Err(e) => {
                return Err(e);
            },
        };
        let bytes = encode_records(&selected);
        Ok(bytes)
    }

    /// Reads a bulk file and appends every record it holds, drawing fresh
    /// identifiers and stamping both timestamps `now`.  A file that does not
    /// parse, or a record in it with an empty description, is rejected
    /// before any mutation begins.
    pub fn import_records(&mut self, data: &Vec<u8>, now: u64) -> (r: Result<u64, LostTheWay>)
        requires
            old(self).counter() as int + (match spec_dec_records(data@) {
                Some(ms) => ms.len() as int,
                None => 0,
            }) <= u64::MAX as int,
        ensures
            r matches Ok(n) ==> (match spec_dec_records(data@) {
                Some(ms) => ({
                    &&& n == ms.len()
                    &&& final (self).counter() == old(self).counter() + n
                    &&& final (self).recs() == imported_recs(
                        old(self).recs(),
                        ms,
                        old(self).counter(),
                        now,
                    )
                    &&& final (self).lang_index() == imported_langs(
                        old(self).lang_index(),
                        ms,
                        old(self).counter(),
                    )
                    &&& final (self).tag_index() == imported_tags(
                        old(self).tag_index(),
                        ms,
                        old(self).counter(),
                    )
                }),
                None => false,
            }),
            (r == Err::<u64, LostTheWay>(LostTheWay::InvalidRecord)) == (match spec_dec_records(
                data@,
            ) {
                None => true,
                Some(ms) => exists|j: int|
                    0 <= j < ms.len() && (#[trigger] ms[j]).description.len() == 0,
            }),
            r == Err::<u64, LostTheWay>(LostTheWay::InvalidRecord) ==> *final (self) == *old(self),
            (match spec_dec_records(data@) {
                Some(ms) => ms.len() == 0 ==> r == Ok::<u64, LostTheWay>(0),
                None => true,
            }),
            r matches Err(e) ==> e == LostTheWay::InvalidRecord || e == LostTheWay::StorageIo,
            r is Err ==> no_new_dangling(*old(self), *final (self)),
            old(self).counter() <= final (self).counter(),
    {
        let parsed = match decode_records(data) {
            Some(v) => v,
            None => {
                return Err(LostTheWay::InvalidRecord);
            },
        };
        let ghost ms = spec_dec_records(data@).unwrap();
        let mut check: usize = 0;
        while check < parsed.len()
            invariant
                0 <= check <= parsed@.len(),
                *self == *old(self),
                spec_dec_records(data@) == Some(ms),
                ms.len() == parsed@.len(),
                drafts_view(parsed@) == ms,
                forall|j: int| 0 <= j < parsed@.len() ==> (#[trigger] parsed@[j])@ == ms[j],
                forall|j: int| 0 <= j < check ==> (#[trigger] ms[j]).description.len() > 0,
            decreases parsed@.len() - check,
        {
            if parsed[check].description.len() == 0 {
                proof {
                    let msx = spec_dec_records(data@).unwrap();
                    assert(msx == ms);
                    assert(msx[check as int].description.len() == 0);
                    assert(exists|j: int|
                        0 <= j < msx.len() && (#[trigger] msx[j]).description.len() == 0);
                }
                return Err(LostTheWay::InvalidRecord);
            }
            proof {
                assert(ms[check as int] == parsed@[check as int]@);
            }
            check = check + 1;
        }
        let total: usize = parsed.len();
        proof {
            assert(ms.len() == total);
        }
        let mut parsed = parsed;
        let mut i: u64 = 0;
        proof {
            assert(ms.skip(0) =~= ms);
        }
        while parsed.len() > 0
            invariant
                0 <= i <= total,
                total == ms.len(),
                ms == spec_dec_records(data@).unwrap(),
                spec_dec_records(data@) == Some(ms),
                old(self).counter() as int + ms.len() as int <= u64::MAX as int,
                parsed@.len() == total - i,
                forall|j: int| 0 <= j < parsed@.len() ==> (#[trigger] parsed@[j])@ == ms[i + j],
                forall|j: int| 0 <= j < ms.len() ==> (#[trigger] ms[j]).description.len() > 0,
                self.counter() == old(self).counter() + i,
                imported_recs(self.recs(), ms.skip(i as int), self.counter(), now)
                    == imported_recs(old(self).recs(), ms, old(self).counter(), now),
                imported_langs(self.lang_index(), ms.skip(i as int), self.counter())
                    == imported_langs(old(self).lang_index(), ms, old(self).counter()),
                imported_tags(self.tag_index(), ms.skip(i as int), self.counter())
                    == imported_tags(old(self).tag_index(), ms, old(self).counter()),
                no_new_dangling(*old(self), *self),
            decreases parsed@.len(),
        {
            let ghost pre = *self;
            let ghost rest = ms.skip(i as int);
            let d = parsed.remove(0);
            proof {
                assert(d@ == ms[i as int]);
                assert(forall|j: int|
                    0 <= j < parsed@.len() ==> (#[trigger] parsed@[j])@ == ms[i + 1 + j]);
                assert(rest.len() > 0);
                assert(rest[0] == ms[i as int]);
                assert(rest.skip(1) =~= ms.skip(i as int + 1));
            }
            match self.add_snippet(d, now) {
                Ok(id) => {
                    proof {
                        assert(id == old(self).counter() + i + 1);
                        assert(self.recs() == pre.recs().insert(
                            id,
                            record_of(ms[i as int], id, now, now),
                        ));
                        assert forall|kk: Seq<u8>, x: u64|
                            idx_has(self.lang_index(), kk, x) implies idx_has(
                            old(self).lang_index(),
                            kk,
                            x,
                        ) || self.recs().contains_key(x) by {
                            if idx_has(pre.lang_index(), kk, x) {
                                if !idx_has(old(self).lang_index(), kk, x) {
                                    assert(pre.recs().contains_key(x));
                                }
                            } else {
                                if ms[i as int].language.len() > 0 {
                                    lemma_idx_add_has(
                                        pre.lang_index(),
                                        ms[i as int].language,
                                        id,
                                        kk,
                                        x,
                                    );
                                }
                            }
                        }
                        assert forall|kk: Seq<u8>, x: u64|
                            idx_has(self.tag_index(), kk, x) implies idx_has(
                            old(self).tag_index(),
                            kk,
                            x,
                        ) || self.recs().contains_key(x) by {
                            if idx_has(pre.tag_index(), kk, x) {
                                if !idx_has(old(self).tag_index(), kk, x) {
                                    assert(pre.recs().contains_key(x));
                                }
                            } else {
                                lemma_idx_add_all_has(
                                    pre.tag_index(),
                                    ms[i as int].tags,
                                    id,
                                    kk,
                                    x,
                                );
                            }
                        }
                    }
                    i = i + 1;
                },
                Err(e) => {
                    proof {
                        assert(no_new_dangling(pre, *self));
                        assert(self.recs() == pre.recs() || self.recs() == pre.recs().insert(
                            (pre.counter() + 1) as u64,
                            record_of(ms[i as int], (pre.counter() + 1) as u64, now, now),
                        ));
                        assert forall|kk: Seq<u8>, x: u64|
                            idx_has(self.lang_index(), kk, x) implies idx_has(
                            old(self).lang_index(),
                            kk,
                            x,
                        ) || self.recs().contains_key(x) by {
                            if idx_has(pre.lang_index(), kk, x) {
                                if !idx_has(old(self).lang_index(), kk, x) {
                                    assert(pre.recs().contains_key(x));
                                }
                            }
                        }
                        assert forall|kk: Seq<u8>, x: u64|
                            idx_has(self.tag_index(), kk, x) implies idx_has(
                            old(self).tag_index(),
                            kk,
                            x,
                        ) || self.recs().contains_key(x) by {
                            if idx_has(pre.tag_index(), kk, x) {
                                if !idx_has(old(self).tag_index(), kk, x) {
                                    assert(pre.recs().contains_key(x));
                                }
                            }
                        }
                    }
                    return Err(LostTheWay::StorageIo);
                },
            }
        }
        Ok(i)
    }
}

} // verus!
