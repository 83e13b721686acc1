//! The secondary index manager: inverted mappings from a language name or a
//! tag label to the identifiers of the records carrying it.
//!
//! Index methods are pure set algebra over identifiers — none of them ever
//! touches the record store — which is what keeps the coordinator's ordering
//! argument simple.  Each index lives in its own tree; an entry's value is an
//! encoded identifier list, and an entry whose list becomes empty is pruned.

use vstd::prelude::*;
use crate::codec::{decode_ids, encode_ids, lemma_ids_roundtrip, spec_dec_ids, spec_enc_ids};
use crate::kv::KvTree;
use crate::snippet::LostTheWay;

verus! {

/// The two index families.
#[derive(Clone, Copy, Debug, PartialEq, Eq, Structural)]
pub enum IndexKind {
    Language,
    Tag,
}

/// The entries an index tree holds: every key whose value decodes to an
/// identifier list.
pub open spec fn idx_of(tv: Map<Seq<u8>, Seq<u8>>) -> Map<Seq<u8>, Seq<u64>> {
    Map::new(
        |k: Seq<u8>| tv.contains_key(k) && spec_dec_ids(tv[k]) is Some,
        |k: Seq<u8>| spec_dec_ids(tv[k]).unwrap(),
    )
}

/// What a lookup answers: the entry's list, or nothing for an unknown key.
pub open spec fn lookup_spec(m: Map<Seq<u8>, Seq<u64>>, k: Seq<u8>) -> Seq<u64> {
    if m.contains_key(k) {
        m[k]
    } else {
        Seq::empty()
    }
}

/// A key listing is faithful: every key of the index occurs, every listed
/// key is a key of the backing tree, and no key occurs twice.
pub open spec fn keys_list_ok(
    m: Map<Seq<u8>, Seq<u64>>,
    tv: Map<Seq<u8>, Seq<u8>>,
    ks: Seq<Vec<u8>>,
) -> bool {
    &&& (forall|k: Seq<u8>|
        m.contains_key(k) ==> exists|i: int| 0 <= i < ks.len() && #[trigger] ks[i]@ == k)
    &&& (forall|i: int| 0 <= i < ks.len() ==> tv.contains_key(#[trigger] ks[i]@))
    &&& (forall|i: int, j: int| 0 <= i < j < ks.len() ==> ks[i]@ != ks[j]@)
}

/// An identifier is listed under a key.
pub open spec fn idx_has(m: Map<Seq<u8>, Seq<u64>>, k: Seq<u8>, x: u64) -> bool {
    m.contains_key(k) && m[k].contains(x)
}

/// The index after an insertion: `id` is appended to the key's list unless
/// already present; an absent key gets a fresh one-element list.
pub open spec fn idx_add(m: Map<Seq<u8>, Seq<u64>>, k: Seq<u8>, id: u64) -> Map<Seq<u8>, Seq<u64>> {
    if m.contains_key(k) {
        if m[k].contains(id) {
            m
        } else {
            m.insert(k, m[k].push(id))
        }
    } else {
        m.insert(k, seq![id])
    }
}

/// A list with every occurrence of `id` removed, order kept.
pub open spec fn seq_without(s: Seq<u64>, id: u64) -> Seq<u64>
    decreases s.len(),
{
    if s.len() == 0 {
        Seq::empty()
    } else if s[0] == id {
        seq_without(s.skip(1), id)
    } else {
        seq![s[0]] + seq_without(s.skip(1), id)
    }
}

/// The index after a removal: `id` leaves the key's list, and a key whose
/// list empties is pruned so that no empty entry persists.
pub open spec fn idx_remove(m: Map<Seq<u8>, Seq<u64>>, k: Seq<u8>, id: u64) -> Map<
    Seq<u8>,
    Seq<u64>,
> {
    if m.contains_key(k) {
        if seq_without(m[k], id).len() == 0 {
            m.remove(k)
        } else {
            m.insert(k, seq_without(m[k], id))
        }
    } else {
        m
    }
}

/// Membership in a list after a removal: everything but `id` survives.
pub proof fn lemma_seq_without_membership(s: Seq<u64>, id: u64, x: u64)
    ensures
        seq_without(s, id).contains(x) == (s.contains(x) && x != id),
    decreases s.len(),
{
    if s.len() > 0 {
        lemma_seq_without_membership(s.skip(1), id, x);
        assert(s.contains(x) == (s[0] == x || s.skip(1).contains(x))) by {
            if s.contains(x) {
                let w = choose|w: int| 0 <= w < s.len() && s[w] == x;
                if w > 0 {
                    assert(s.skip(1)[w - 1] == x);
                }
            }
            if s.skip(1).contains(x) {
                let w = choose|w: int| 0 <= w < s.skip(1).len() && s.skip(1)[w] == x;
                assert(s[w + 1] == x);
            }
        }
        if s[0] != id {
            let t = seq![s[0]] + seq_without(s.skip(1), id);
            assert(t[0] == s[0]);
            assert(t.contains(x) == (s[0] == x || seq_without(s.skip(1), id).contains(x))) by {
                if t.contains(x) {
                    let w = choose|w: int| 0 <= w < t.len() && t[w] == x;
                    if w > 0 {
                        assert(seq_without(s.skip(1), id)[w - 1] == x);
                    }
                }
                if seq_without(s.skip(1), id).contains(x) {
                    let w = choose|w: int|
                        0 <= w < seq_without(s.skip(1), id).len() && seq_without(s.skip(1), id)[w]
                            == x;
                    assert(t[w + 1] == x);
                }
            }
        }
    }
}

/// The list under `key` in one tree, or the empty list for an absent key.
fn tree_idx_lookup(t: &KvTree, key: &Vec<u8>) -> (r: Result<Vec<u64>, LostTheWay>)
    ensures
        r matches Ok(ids) ==> ids@ == lookup_spec(idx_of(t@), key@),
        r matches Err(e) ==> e == LostTheWay::StorageIo,
{
    match t.get(key) {
        Err(_) => Err(LostTheWay::StorageIo),
        Ok(None) => Ok(Vec::new()),
        Ok(Some(bytes)) => {
            match decode_ids(&bytes) {
                Some(ids) => Ok(ids),
                None => Err(LostTheWay::StorageIo),
            }
        },
    }
}

/// Every key of one tree, each exactly once.
fn tree_idx_keys(t: &KvTree) -> (r: Result<Vec<Vec<u8>>, LostTheWay>)
    ensures
        r matches Ok(ks) ==> keys_list_ok(idx_of(t@), t@, ks@),
        r matches Err(e) ==> e == LostTheWay::StorageIo,
{
    match t.keys() {
        Ok(ks) => {
            proof {
                assert forall|k: Seq<u8>| idx_of(t@).contains_key(k) implies exists|i: int|
                    0 <= i < ks@.len() && #[trigger] ks@[i]@ == k by {
                    assert(t@.contains_key(k));
                }
                assert(keys_list_ok(idx_of(t@), t@, ks@));
            }
            Ok(ks)
        },
        Err(_) => Err(LostTheWay::StorageIo),
    }
}

/// Inserting under one key, repeatedly, for every key of a list: the index
/// delta of one record's tag set.
pub open spec fn idx_add_all(m: Map<Seq<u8>, Seq<u64>>, ts: Seq<Seq<u8>>, id: u64) -> Map<
    Seq<u8>,
    Seq<u64>,
>
    decreases ts.len(),
{
    if ts.len() == 0 {
        m
    } else {
        idx_add_all(idx_add(m, ts[0], id), ts.skip(1), id)
    }
}

/// Removing under every key of a list.
pub open spec fn idx_remove_all(m: Map<Seq<u8>, Seq<u64>>, ts: Seq<Seq<u8>>, id: u64) -> Map<
    Seq<u8>,
    Seq<u64>,
>
    decreases ts.len(),
{
    if ts.len() == 0 {
        m
    } else {
        idx_remove_all(idx_remove(m, ts[0], id), ts.skip(1), id)
    }
}

/// What a list holds after a push.
pub proof fn lemma_push_contains(s: Seq<u64>, e: u64, x: u64)
    ensures
        s.push(e).contains(x) == (s.contains(x) || e == x),
{
    if s.push(e).contains(x) {
        let w = choose|w: int| 0 <= w < s.push(e).len() && s.push(e)[w] == x;
        if w < s.len() {
            assert(s[w] == x);
        }
    }
    if s.contains(x) {
        let w = choose|w: int| 0 <= w < s.len() && s[w] == x;
        assert(s.push(e)[w] == x);
    }
    if e == x {
        assert(s.push(e)[s.len() as int] == x);
    }
}

/// Membership after an insertion: exactly the old entries plus `id` under `k`.
pub proof fn lemma_idx_add_has(m: Map<Seq<u8>, Seq<u64>>, k: Seq<u8>, id: u64, kk: Seq<u8>, x: u64)
    ensures
        idx_has(idx_add(m, k, id), kk, x) == (idx_has(m, kk, x) || (kk == k && x == id)),
{
    if m.contains_key(k) {
        lemma_push_contains(m[k], id, x);
    } else {
        assert(seq![id][0] == id);
        if seq![id].contains(x) {
            let w = choose|w: int| 0 <= w < seq![id].len() && seq![id][w] == x;
        }
    }
}

/// Membership after a removal: exactly the old entries except `id` under `k`.
pub proof fn lemma_idx_remove_has(
    m: Map<Seq<u8>, Seq<u64>>,
    k: Seq<u8>,
    id: u64,
    kk: Seq<u8>,
    x: u64,
)
    ensures
        idx_has(idx_remove(m, k, id), kk, x) == (idx_has(m, kk, x) && !(kk == k && x == id)),
{
    if m.contains_key(k) {
        lemma_seq_without_membership(m[k], id, x);
        if kk == k && seq_without(m[k], id).len() == 0 {
            if m[k].contains(x) && x != id {
                assert(seq_without(m[k], id).contains(x));
            }
        }
    }
}

/// Membership after inserting under every key of a list.
pub proof fn lemma_idx_add_all_has(
    m: Map<Seq<u8>, Seq<u64>>,
    ts: Seq<Seq<u8>>,
    id: u64,
    kk: Seq<u8>,
    x: u64,
)
    ensures
        idx_has(idx_add_all(m, ts, id), kk, x) == (idx_has(m, kk, x) || (ts.contains(kk) && x
            == id)),
    decreases ts.len(),
{
    if ts.len() > 0 {
        lemma_idx_add_has(m, ts[0], id, kk, x);
        lemma_idx_add_all_has(idx_add(m, ts[0], id), ts.skip(1), id, kk, x);
        assert(ts.contains(kk) == (ts[0] == kk || ts.skip(1).contains(kk))) by {
            if ts.contains(kk) {
                let w = choose|w: int| 0 <= w < ts.len() && ts[w] == kk;
                if w > 0 {
                    assert(ts.skip(1)[w - 1] == kk);
                }
            }
            if ts.skip(1).contains(kk) {
                let w = choose|w: int| 0 <= w < ts.skip(1).len() && ts.skip(1)[w] == kk;
                assert(ts[w + 1] == kk);
            }
        }
    }
}

/// Membership after removing under every key of a list.
pub proof fn lemma_idx_remove_all_has(
    m: Map<Seq<u8>, Seq<u64>>,
    ts: Seq<Seq<u8>>,
    id: u64,
    kk: Seq<u8>,
    x: u64,
)
    ensures
        idx_has(idx_remove_all(m, ts, id), kk, x) == (idx_has(m, kk, x) && !(ts.contains(kk) && x
            == id)),
    decreases ts.len(),
{
    if ts.len() > 0 {
        lemma_idx_remove_has(m, ts[0], id, kk, x);
        lemma_idx_remove_all_has(idx_remove(m, ts[0], id), ts.skip(1), id, kk, x);
        assert(ts.contains(kk) == (ts[0] == kk || ts.skip(1).contains(kk))) by {
            if ts.contains(kk) {
                let w = choose|w: int| 0 <= w < ts.len() && ts[w] == kk;
                if w > 0 {
                    assert(ts.skip(1)[w - 1] == kk);
                }
            }
            if ts.skip(1).contains(kk) {
                let w = choose|w: int| 0 <= w < ts.skip(1).len() && ts.skip(1)[w] == kk;
                assert(ts[w + 1] == kk);
            }
        }
    }
}

/// Empties one tree.
fn tree_idx_clear(t: &mut KvTree) -> (r: Result<(), LostTheWay>)
    ensures
        r is Ok ==> (forall|k: Seq<u8>| !idx_of(final (t)@).contains_key(k)),
        r is Err ==> (forall|k: Seq<u8>, x: u64|
            idx_has(idx_of(final (t)@), k, x) ==> idx_has(idx_of(old(t)@), k, x)),
        r matches Err(e) ==> e == LostTheWay::StorageIo,
{
    match t.clear() {
        Ok(()) => Ok(()),
        Err(_) => Err(LostTheWay::StorageIo),
    }
}

/// The secondary indices, one tree per family.
pub struct IndexManager {
    pub languages: KvTree,
    pub tags: KvTree,
}

/// Removes every occurrence of `id` from a list.
fn vec_without(s: &Vec<u64>, id: u64) -> (r: Vec<u64>)
    ensures
        r@ == seq_without(s@, id),
{
    let mut out: Vec<u64> = Vec::new();
    proof {
        assert(s@.skip(0) =~= s@);
    }
    let mut i: usize = 0;
    while i < s.len()
        invariant
            0 <= i <= s@.len(),
            seq_without(s@, id) == out@ + seq_without(s@.skip(i as int), id),
        decreases s@.len() - i,
    {
        let ghost rest = s@.skip(i as int);
        proof {
            assert(rest.len() > 0);
            assert(rest[0] == s@[i as int]);
            assert(rest.skip(1) =~= s@.skip(i as int + 1));
        }
        if s[i] != id {
            out.push(s[i]);
            proof {
                assert(out@ + seq_without(s@.skip(i as int + 1), id) =~= seq_without(s@, id));
            }
        }
        i = i + 1;
    }
    proof {
        assert(s@.skip(s@.len() as int) =~= Seq::<u64>::empty());
        assert(out@ + seq_without(s@.skip(s@.len() as int), id) =~= out@);
    }
    out
}

/// Whether a list holds `x`.
pub fn vec_contains_u64(v: &Vec<u64>, x: u64) -> (r: bool)
    ensures
        r == v@.contains(x),
{
    let mut i: usize = 0;
    while i < v.len()
        invariant
            0 <= i <= v@.len(),
            forall|j: int| 0 <= j < i ==> v@[j] != x,
        decreases v@.len() - i,
    {
        if v[i] == x {
            return true;
        }
        i = i + 1;
    }
    false
}

/// Inserts `id` under `key` in one tree; idempotent.
fn tree_idx_add(t: &mut KvTree, key: &Vec<u8>, id: u64) -> (r: Result<(), LostTheWay>)
    ensures
        r is Ok ==> idx_of(final (t)@) == idx_add(idx_of(old(t)@), key@, id),
        r is Err ==> idx_of(final (t)@) == idx_of(old(t)@) || idx_of(final (t)@) == idx_add(
            idx_of(old(t)@),
            key@,
            id,
        ),
        r matches Err(e) ==> e == LostTheWay::StorageIo,
{
    let m0: Ghost<Map<Seq<u8>, Seq<u64>>> = Ghost(idx_of(t@));
    let current: Vec<u64> = match t.get(key) {
        Err(_) => {
            return Err(LostTheWay::StorageIo);
        },
        Ok(None) => Vec::new(),
        Ok(Some(bytes)) => {
            match decode_ids(&bytes) {
                Some(ids) => ids,
                None => Vec::new(),
            }
        },
    };
    let ghost had_entry = m0@.contains_key(key@);
    proof {
        if had_entry {
            assert(current@ == m0@[key@]);
        } else {
            assert(current@ =~= Seq::<u64>::empty());
        }
    }
    if vec_contains_u64(&current, id) {
        proof {
            assert(idx_add(m0@, key@, id) =~= m0@);
        }
        return Ok(());
    }
    let mut updated = current;
    updated.push(id);
    let val = encode_ids(&updated);
    proof {
        assert(updated.len() == updated@.len());
        lemma_ids_roundtrip(updated@);
    }
    match t.insert(key, &val) {
        Ok(_) => {
            proof {
                lemma_idx_of_insert(old(t)@, key@, updated@);
                if had_entry {
                    assert(idx_of(t@) =~= idx_add(m0@, key@, id));
                } else {
                    assert(updated@ =~= seq![id]);
                    assert(idx_of(t@) =~= idx_add(m0@, key@, id));
                }
            }
            Ok(())
        },
        Err(_) => {
            proof {
                lemma_idx_of_insert(old(t)@, key@, updated@);
                if idx_of(t@) != idx_of(old(t)@) {
                    if had_entry {
                        assert(idx_of(t@) =~= idx_add(m0@, key@, id));
                    } else {
                        assert(updated@ =~= seq![id]);
                        assert(idx_of(t@) =~= idx_add(m0@, key@, id));
                    }
                }
            }
            Err(LostTheWay::StorageIo)
        },
    }
}

/// Inserting an encoded list updates the derived index at just that key.
proof fn lemma_idx_of_insert(tv: Map<Seq<u8>, Seq<u8>>, k: Seq<u8>, ids: Seq<u64>)
    requires
        ids.len() <= u64::MAX,
    ensures
        idx_of(tv.insert(k, spec_enc_ids(ids))) == idx_of(tv).insert(k, ids),
{
    lemma_ids_roundtrip(ids);
    assert(idx_of(tv.insert(k, spec_enc_ids(ids))) =~= idx_of(tv).insert(k, ids));
}

/// Removing a key removes the derived entry.
proof fn lemma_idx_of_remove(tv: Map<Seq<u8>, Seq<u8>>, k: Seq<u8>)
    ensures
        idx_of(tv.remove(k)) == idx_of(tv).remove(k),
{
    assert(idx_of(tv.remove(k)) =~= idx_of(tv).remove(k));
}

/// Removes `id` from the list under `key` in one tree, pruning an emptied
/// entry.
fn tree_idx_remove(t: &mut KvTree, key: &Vec<u8>, id: u64) -> (r: Result<(), LostTheWay>)
    ensures
        r is Ok ==> idx_of(final (t)@) == idx_remove(idx_of(old(t)@), key@, id),
        r is Err ==> idx_of(final (t)@) == idx_of(old(t)@) || idx_of(final (t)@) == idx_remove(
            idx_of(old(t)@),
            key@,
            id,
        ),
        r matches Err(e) ==> e == LostTheWay::StorageIo,
{
    let m0: Ghost<Map<Seq<u8>, Seq<u64>>> = Ghost(idx_of(t@));
    let current: Vec<u64> = match t.get(key) {
        Err(_) => {
            return Err(LostTheWay::StorageIo);
        },
        Ok(None) => {
            proof {
                assert(!m0@.contains_key(key@));
            }
            return Ok(());
        },
        Ok(Some(bytes)) => {
            match decode_ids(&bytes) {
                Some(ids) => ids,
                None => {
                    // An unreadable entry is not part of the index; leave it.
                    proof {
                        assert(!m0@.contains_key(key@));
                    }
                    return Ok(());
                },
            }
        },
    };
    proof {
        assert(m0@.contains_key(key@) && current@ == m0@[key@]);
    }
    let pruned = vec_without(&current, id);
    if pruned.len() == 0 {
        match t.remove(key) {
            Ok(_) => {
                proof {
                    lemma_idx_of_remove(old(t)@, key@);
                }
                Ok(())
            },
            Err(_) => {
                proof {
                    lemma_idx_of_remove(old(t)@, key@);
                }
                Err(LostTheWay::StorageIo)
            },
        }
    } else {
        let val = encode_ids(&pruned);
        proof {
            lemma_ids_roundtrip(pruned@);
        }
        match t.insert(key, &val) {
            Ok(_) => {
                proof {
                    lemma_idx_of_insert(old(t)@, key@, pruned@);
                }
                Ok(())
            },
            Err(_) => {
                proof {
                    lemma_idx_of_insert(old(t)@, key@, pruned@);
                }
                Err(LostTheWay::StorageIo)
            },
        }
    }
}

impl IndexManager {
    /// The derived mapping of one index family.
    pub open spec fn index(&self, kind: IndexKind) -> Map<Seq<u8>, Seq<u64>> {
        match kind {
            IndexKind::Language => idx_of(self.languages@),
            IndexKind::Tag => idx_of(self.tags@),
        }
    }

    /// Inserts `id` into the set for `key`; creates the key if absent;
    /// idempotent.
    pub fn add_to_index(&mut self, kind: IndexKind, key: &Vec<u8>, id: u64) -> (r: Result<
        (),
        LostTheWay,
    >)
        ensures
            r is Ok ==> final (self).index(kind) == idx_add(old(self).index(kind), key@, id),
            r is Err ==> final (self).index(kind) == old(self).index(kind) || final (self).index(
                kind,
            ) == idx_add(old(self).index(kind), key@, id),
            r matches Err(e) ==> e == LostTheWay::StorageIo,
            final (self).index(other_kind(kind)) == old(self).index(other_kind(kind)),
    {
        match kind {
            IndexKind::Language => tree_idx_add(&mut self.languages, key, id),
            IndexKind::Tag => tree_idx_add(&mut self.tags, key, id),
        }
    }

    /// Removes `id` from the set for `key`; an emptied entry is pruned.
    pub fn remove_from_index(&mut self, kind: IndexKind, key: &Vec<u8>, id: u64) -> (r: Result<
        (),
        LostTheWay,
    >)
        ensures
            r is Ok ==> final (self).index(kind) == idx_remove(old(self).index(kind), key@, id),
            r is Err ==> final (self).index(kind) == old(self).index(kind) || final (self).index(
                kind,
            ) == idx_remove(old(self).index(kind), key@, id),
            r matches Err(e) ==> e == LostTheWay::StorageIo,
            final (self).index(other_kind(kind)) == old(self).index(other_kind(kind)),
    {
        match kind {
            IndexKind::Language => tree_idx_remove(&mut self.languages, key, id),
            IndexKind::Tag => tree_idx_remove(&mut self.tags, key, id),
        }
    }

    /// Discards every entry of one family; the first step of a rebuild.
    pub fn clear_index(&mut self, kind: IndexKind) -> (r: Result<(), LostTheWay>)
        ensures
            r is Ok ==> (forall|k: Seq<u8>| !final (self).index(kind).contains_key(k)),
            r is Err ==> (forall|k: Seq<u8>, x: u64|
                idx_has(final (self).index(kind), k, x) ==> idx_has(
                    old(self).index(kind),
                    k,
                    x,
                )),
            r matches Err(e) ==> e == LostTheWay::StorageIo,
            final (self).index(other_kind(kind)) == old(self).index(other_kind(kind)),
    {
        match kind {
            IndexKind::Language => tree_idx_clear(&mut self.languages),
            IndexKind::Tag => tree_idx_clear(&mut self.tags),
        }
    }

    /// The identifiers under `key`: the empty list for an unknown key, never
    /// an error.  An entry whose bytes cannot be read back counts as
    /// corruption.
    pub fn lookup(&self, kind: IndexKind, key: &Vec<u8>) -> (r: Result<Vec<u64>, LostTheWay>)
        ensures
            r matches Ok(ids) ==> ids@ == lookup_spec(self.index(kind), key@),
            r matches Err(e) ==> e == LostTheWay::StorageIo,
    {
        match kind {
            IndexKind::Language => tree_idx_lookup(&self.languages, key),
            IndexKind::Tag => tree_idx_lookup(&self.tags, key),
        }
    }

    /// Every key the family's tree holds, each exactly once; every key of
    /// the derived index is among them.
    pub fn keys(&self, kind: IndexKind) -> (r: Result<Vec<Vec<u8>>, LostTheWay>)
        ensures
            r matches Ok(ks) ==> keys_list_ok(
                self.index(kind),
                (match kind {
                    IndexKind::Language => self.languages@,
                    IndexKind::Tag => self.tags@,
                }),
                ks@,
            ),
            r matches Err(e) ==> e == LostTheWay::StorageIo,
    {
        match kind {
            IndexKind::Language => tree_idx_keys(&self.languages),
            IndexKind::Tag => tree_idx_keys(&self.tags),
        }
    }
}

/// The family that is not `kind`.
pub open spec fn other_kind(kind: IndexKind) -> IndexKind {
    match kind {
        IndexKind::Language => IndexKind::Tag,
        IndexKind::Tag => IndexKind::Language,
    }
}

} // verus!
