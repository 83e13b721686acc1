//! The record store: the primary mapping from identifier to snippet record,
//! and the identifier allocator.
//!
//! Its abstract state is derived from the bytes of two trees: [`recs_of`]
//! reads the record map out of the primary tree, [`counter_of`] the
//! last-assigned identifier out of the metadata tree.  Nothing is assumed of
//! what the trees hold, so a freshly attached database is simply whatever its
//! bytes decode to.

use vstd::prelude::*;
use crate::codec::{
    dec64,
    enc64,
    encode_snippet,
    decode_snippet,
    lemma_dec_enc64,
    lemma_enc64_injective,
    lemma_snippet_roundtrip,
    push_u64,
    read_u64_at,
    snippet_sizes_ok,
    spec_dec_snippet,
    spec_enc_snippet,
};
use crate::kv::KvTree;
use crate::snippet::{LostTheWay, record_valid, Snippet, SnippetV};

verus! {

/// The key under which the identifier counter persists.
pub open spec fn counter_key() -> Seq<u8> {
    seq![0u8]
}

fn counter_key_vec() -> (r: Vec<u8>)
    ensures
        r@ == counter_key(),
{
    let mut v: Vec<u8> = Vec::new();
    v.push(0u8);
    proof {
        assert(v@ =~= counter_key());
    }
    v
}

/// The eight-byte key of a record.
pub fn id_key(id: u64) -> (r: Vec<u8>)
    ensures
        r@ == enc64(id),
{
    let mut v: Vec<u8> = Vec::new();
    push_u64(&mut v, id);
    proof {
        assert(v@ =~= enc64(id));
    }
    v
}

/// The records a tree holds: every identifier whose eight-byte key is
/// present and whose value decodes to a record carrying that identifier.
pub open spec fn recs_of(tv: Map<Seq<u8>, Seq<u8>>) -> Map<u64, SnippetV> {
    Map::new(
        |id: u64|
            tv.contains_key(enc64(id)) && (match spec_dec_snippet(tv[enc64(id)]) {
                Some(s) => s.id == id,
                None => false,
            }),
        |id: u64| spec_dec_snippet(tv[enc64(id)]).unwrap(),
    )
}

/// The persisted counter: the last assigned identifier, zero when absent.
pub open spec fn counter_of(tv: Map<Seq<u8>, Seq<u8>>) -> u64 {
    if tv.contains_key(counter_key()) && tv[counter_key()].len() == 8 {
        dec64(tv[counter_key()])
    } else {
        0
    }
}

/// The views of a list of records.
pub open spec fn snippets_view(v: Seq<Snippet>) -> Seq<SnippetV> {
    Seq::new(v.len(), |i: int| v[i]@)
}

/// The primary store: records under eight-byte identifier keys, and the
/// counter in a separate metadata tree.
pub struct RecordStore {
    pub records: KvTree,
    pub meta: KvTree,
}

#[verifier::rlimit(100)]
proof fn lemma_recs_insert(tv: Map<Seq<u8>, Seq<u8>>, id: u64, s: SnippetV)
    requires
        spec_dec_snippet(spec_enc_snippet(s)) == Some(s),
        s.id == id,
    ensures
        recs_of(tv.insert(enc64(id), spec_enc_snippet(s))) == recs_of(tv).insert(id, s),
{
    let m1 = recs_of(tv.insert(enc64(id), spec_enc_snippet(s)));
    let m2 = recs_of(tv).insert(id, s);
    assert forall|x: u64| #[trigger] m1.contains_key(x) == m2.contains_key(x) by {
        if x != id {
            if enc64(x) == enc64(id) {
                lemma_enc64_injective(x, id);
            }
        }
    }
    assert forall|x: u64| m1.contains_key(x) implies #[trigger] m1[x] == m2[x] by {
        if x != id {
            if enc64(x) == enc64(id) {
                lemma_enc64_injective(x, id);
            }
        }
    }
    assert(m1 =~= m2);
}

#[verifier::rlimit(100)]
proof fn lemma_recs_remove(tv: Map<Seq<u8>, Seq<u8>>, id: u64)
    ensures
        recs_of(tv.remove(enc64(id))) == recs_of(tv).remove(id),
{
    let m1 = recs_of(tv.remove(enc64(id)));
    let m2 = recs_of(tv).remove(id);
    assert forall|x: u64| #[trigger] m1.contains_key(x) == m2.contains_key(x) by {
        if x != id {
            if enc64(x) == enc64(id) {
                lemma_enc64_injective(x, id);
            }
        }
    }
    assert forall|x: u64| m1.contains_key(x) implies #[trigger] m1[x] == m2[x] by {
        if x != id {
            if enc64(x) == enc64(id) {
                lemma_enc64_injective(x, id);
            }
        }
    }
    assert(m1 =~= m2);
}

impl RecordStore {
    /// The record map this store holds.
    pub open spec fn recs(&self) -> Map<u64, SnippetV> {
        recs_of(self.records@)
    }

    /// The last assigned identifier.
    pub open spec fn counter(&self) -> u64 {
        counter_of(self.meta@)
    }

    /// Inserts or overwrites the record at `id`; the durability point of a
    /// mutation.  No validation happens here.
    pub fn put(&mut self, id: u64, s: &Snippet) -> (r: Result<(), LostTheWay>)
        requires
            s@.id == id,
        ensures
            r is Ok ==> final (self).recs() == old(self).recs().insert(id, s@),
            r is Err ==> final (self).recs() == old(self).recs() || final (self).recs() == old(
                self,
            ).recs().insert(id, s@),
            r is Err ==> r == Err::<(), LostTheWay>(LostTheWay::StorageIo),
            final (self).meta@ == old(self).meta@,
    {
        let key = id_key(id);
        let val = encode_snippet(s);
        proof {
            assert(s.description.len() == s@.description.len());
            assert(s.language.len() == s@.language.len());
            assert(s.code.len() == s@.code.len());
            assert(s.tags.len() == s@.tags.len());
            assert forall|i: int| 0 <= i < s@.tags.len() implies (#[trigger] s@.tags[i]).len()
                <= u64::MAX by {
                assert(s.tags@[i].len() == s.tags@[i]@.len());
                assert(s@.tags[i] == s.tags@[i]@);
            }
            assert(snippet_sizes_ok(s@));
            lemma_snippet_roundtrip(s@);
        }
        match self.records.insert(&key, &val) {
            Ok(_) => {
                proof {
                    lemma_recs_insert(old(self).records@, id, s@);
                }
                Ok(())
            },
            Err(_) => {
                proof {
                    lemma_recs_insert(old(self).records@, id, s@);
                }
                Err(LostTheWay::StorageIo)
            },
        }
    }

    /// Exact lookup of the record at `id`.  A stored value that does not
    /// read back as a well-formed record carrying this identifier counts as
    /// corruption detected on read.
    pub fn get(&self, id: u64) -> (r: Result<Snippet, LostTheWay>)
        ensures
            r matches Ok(s) ==> self.recs().contains_key(id) && s@ == self.recs()[id]
                && record_valid(s@),
            r matches Err(e) ==> e == LostTheWay::NotFound || e == LostTheWay::StorageIo,
            r == Err::<Snippet, LostTheWay>(LostTheWay::NotFound) ==> !self.recs().contains_key(
                id,
            ),
    {
        let key = id_key(id);
        match self.records.get(&key) {
            Err(_) => Err(LostTheWay::StorageIo),
            Ok(None) => Err(LostTheWay::NotFound),
            Ok(Some(bytes)) => {
                match decode_snippet(&bytes) {
                    Some(s) => {
                        if s.id == id && id >= 1 && s.description.len() > 0 && s.created_at
                            <= s.modified_at {
                            Ok(s)
                        } else {
                            Err(LostTheWay::StorageIo)
                        }
                    },
                    None => Err(LostTheWay::StorageIo),
                }
            },
        }
    }

    /// Removes the record at `id` and returns the prior value, which the
    /// coordinator needs to compute the index delta.
    pub fn delete(&mut self, id: u64) -> (r: Result<Snippet, LostTheWay>)
        ensures
            r matches Ok(s) ==> old(self).recs().contains_key(id) && s@ == old(self).recs()[id]
                && record_valid(s@) && final (self).recs() == old(self).recs().remove(id),
            r is Err ==> final (self).recs() == old(self).recs() || final (self).recs() == old(
                self,
            ).recs().remove(id),
            r matches Err(e) ==> e == LostTheWay::NotFound || e == LostTheWay::StorageIo,
            r == Err::<Snippet, LostTheWay>(LostTheWay::NotFound) ==> !old(
                self,
            ).recs().contains_key(id) && final (self).recs() == old(self).recs(),
            final (self).meta@ == old(self).meta@,
    {
        let key = id_key(id);
        match self.records.remove(&key) {
            Err(_) => {
                proof {
                    lemma_recs_remove(old(self).records@, id);
                }
                Err(LostTheWay::StorageIo)
            },
            Ok(None) => {
                proof {
                    assert(final (self).records@ =~= old(self).records@);
                }
                Err(LostTheWay::NotFound)
            },
            Ok(Some(bytes)) => {
                proof {
                    lemma_recs_remove(old(self).records@, id);
                }
                match decode_snippet(&bytes) {
                    Some(s) => {
                        if s.id == id && id >= 1 && s.description.len() > 0 && s.created_at
                            <= s.modified_at {
                            Ok(s)
                        } else {
                            Err(LostTheWay::StorageIo)
                        }
                    },
                    None => Err(LostTheWay::StorageIo),
                }
            },
        }
    }

    /// The last assigned identifier, read from the metadata tree.
    pub fn current_counter(&self) -> (r: Result<u64, LostTheWay>)
        ensures
            r matches Ok(c) ==> c == self.counter(),
            r matches Err(e) ==> e == LostTheWay::StorageIo,
    {
        let ck = counter_key_vec();
        match self.meta.get(&ck) {
            Err(_) => Err(LostTheWay::StorageIo),
            Ok(None) => Ok(0),
            Ok(Some(b)) => {
                if b.len() == 8 {
                    let c: u64 = read_u64_at(&b, 0);
                    proof {
                        assert(b@.subrange(0, 8) =~= b@);
                    }
                    Ok(c)
                } else {
                    Ok(0)
                }
            },
        }
    }

    /// Atomically increments and persists the counter, returning the fresh
    /// identifier.  The reservation happens before any record becomes
    /// visible, so a crash after it leaves a harmless gap, never a duplicate.
    pub fn next_id(&mut self) -> (r: Result<u64, LostTheWay>)
        requires
            counter_of(old(self).meta@) < u64::MAX,
        ensures
            r matches Ok(id) ==> id == old(self).counter() + 1 && final (self).counter() == id,
            r matches Err(e) ==> e == LostTheWay::StorageIo,
            old(self).counter() <= final (self).counter() <= old(self).counter() + 1,
            final (self).records@ == old(self).records@,
    {
        let c: u64 = match self.current_counter() {
            Ok(c) => c,
            Err(e) => {
                return Err(e);
            },
        };
        let id: u64 = c + 1;
        let ck = counter_key_vec();
        let mut val: Vec<u8> = Vec::new();
        push_u64(&mut val, id);
        proof {
            assert(val@ =~= enc64(id));
            lemma_dec_enc64(id);
        }
        match self.meta.insert(&ck, &val) {
            Ok(_) => Ok(id),
            Err(_) => Err(LostTheWay::StorageIo),
        }
    }

    /// Sets the counter back to zero; used only by the full clear.
    pub fn reset_counter(&mut self) -> (r: Result<(), LostTheWay>)
        ensures
            r is Ok ==> final (self).counter() == 0,
            r is Err ==> final (self).counter() == 0 || final (self).counter() == old(
                self,
            ).counter(),
            r matches Err(e) ==> e == LostTheWay::StorageIo,
            final (self).records@ == old(self).records@,
    {
        let ck = counter_key_vec();
        let mut val: Vec<u8> = Vec::new();
        push_u64(&mut val, 0);
        proof {
            assert(val@ =~= enc64(0));
            lemma_dec_enc64(0);
        }
        match self.meta.insert(&ck, &val) {
            Ok(_) => Ok(()),
            Err(_) => Err(LostTheWay::StorageIo),
        }
    }
}

impl RecordStore {
    /// Discards every record; part of the full clear.
    pub fn clear_records(&mut self) -> (r: Result<(), LostTheWay>)
        ensures
            r is Ok ==> (forall|x: u64| !final (self).recs().contains_key(x)),
            r is Err ==> (forall|x: u64|
                final (self).recs().contains_key(x) ==> old(self).recs().contains_key(x)
                    && final (self).recs()[x] == old(self).recs()[x]),
            r matches Err(e) ==> e == LostTheWay::StorageIo,
            final (self).meta@ == old(self).meta@,
    {
        match self.records.clear() {
            Ok(()) => Ok(()),
            Err(_) => Err(LostTheWay::StorageIo),
        }
    }
}

/// What a full traversal returns: exactly the records with identifiers
/// between one and the counter, in ascending identifier order.
pub open spec fn scan_ok(recs: Map<u64, SnippetV>, ctr: u64, out: Seq<SnippetV>) -> bool {
    &&& (forall|p: int, q: int| 0 <= p < q < out.len() ==> out[p].id < out[q].id)
    &&& (forall|p: int|
        0 <= p < out.len() ==> 1 <= (#[trigger] out[p]).id <= ctr && recs.contains_key(out[p].id)
            && out[p] == recs[out[p].id] && record_valid(out[p]))
    &&& (forall|x: u64|
        1 <= x <= ctr && recs.contains_key(x) ==> exists|p: int|
            0 <= p < out.len() && (#[trigger] out[p]).id == x)
}

impl RecordStore {
    /// Full traversal in ascending identifier order; used when no index
    /// narrows a query.
    pub fn scan(&self) -> (r: Result<Vec<Snippet>, LostTheWay>)
        ensures
            r matches Ok(out) ==> scan_ok(self.recs(), self.counter(), snippets_view(out@)),
            r matches Err(e) ==> e == LostTheWay::StorageIo,
    {
        let ctr: u64 = match self.current_counter() {
            Ok(c) => c,
            Err(e) => {
                return Err(e);
            },
        };
        let mut out: Vec<Snippet> = Vec::new();
        let mut i: u64 = 0;
        while i < ctr
            invariant
                0 <= i <= ctr,
                ctr == self.counter(),
                forall|p: int, q: int|
                    0 <= p < q < snippets_view(out@).len() ==> snippets_view(out@)[p].id
                        < snippets_view(out@)[q].id,
                forall|p: int|
                    0 <= p < snippets_view(out@).len() ==> 1 <= (#[trigger] snippets_view(
                        out@,
                    )[p]).id <= i && self.recs().contains_key(snippets_view(out@)[p].id)
                        && snippets_view(out@)[p] == self.recs()[snippets_view(out@)[p].id]
                        && record_valid(snippets_view(out@)[p]),
                forall|y: u64|
                    1 <= y <= i && self.recs().contains_key(y) ==> exists|p: int|
                        0 <= p < snippets_view(out@).len() && (#[trigger] snippets_view(
                            out@,
                        )[p]).id == y,
            decreases ctr - i,
        {
            let x: u64 = i + 1;
            let ghost prev = snippets_view(out@);
            match self.get(x) {
                Ok(s) => {
                    proof {
                        assert(s@.id == x);
                    }
                    let ghost sv = s@;
                    out.push(s);
                    proof {
                        assert(snippets_view(out@) =~= prev.push(sv));
                        assert forall|y: u64|
                            1 <= y <= x && self.recs().contains_key(y) implies exists|p: int|
                            0 <= p < snippets_view(out@).len() && (#[trigger] snippets_view(
                                out@,
                            )[p]).id == y by {
                            if y == x {
                                assert(snippets_view(out@)[prev.len() as int].id == x);
                            } else {
                                let p = choose|p: int| 0 <= p < prev.len() && prev[p].id == y;
                                assert(snippets_view(out@)[p].id == y);
                            }
                        }
                    }
                },
                Err(LostTheWay::NotFound) => {
                },
                Err(_) => {
                    return Err(LostTheWay::StorageIo);
                },
            }
            i = x;
        }
        Ok(out)
    }
}

} // verus!
