//! The engine's cross-cutting guarantees, each proved from the components'
//! contracts alone.

use vstd::prelude::*;
use crate::engine::{imported_recs, is_candidate, query_ok, rebuilt_lang, rebuilt_tag};
use crate::index::{
    idx_add,
    idx_add_all,
    idx_has,
    idx_remove,
    idx_remove_all,
    lemma_idx_add_all_has,
    lemma_idx_add_has,
    lemma_idx_remove_all_has,
    lemma_idx_remove_has,
    lookup_spec,
};
use crate::snippet::{DraftV, FiltersV, record_of, SnippetV, spec_matches};

verus! {

/// Identifiers assigned by adds are strictly increasing and never reused.
/// An add returns one more than the counter before it and leaves the counter
/// there (`add_snippet`), and no operation but the full clear ever lowers
/// the counter — which persists, so this holds across restarts too.  Hence a
/// later add, seeing a counter at least as large as the earlier identifier,
/// returns a strictly larger one.
pub proof fn lemma_identifiers_strictly_increase(c1: u64, id1: u64, c2: u64, id2: u64)
    requires
        c1 < u64::MAX,
        c2 < u64::MAX,
        id1 == c1 + 1,
        id2 == c2 + 1,
        c2 >= id1,
    ensures
        id2 > id1,
{
}

/// After a maintenance rebuild, a language lookup answers exactly the
/// identifiers of the records carrying that language, and no key of the
/// language index nominates a record lacking it.  Between rebuilds the index
/// may drift, but only towards missing entries, which the query path
/// tolerates.
pub proof fn lemma_rebuilt_language_lookup_exact(
    recs: Map<u64, SnippetV>,
    ctr: u64,
    lang: Map<Seq<u8>, Seq<u64>>,
)
    requires
        rebuilt_lang(recs, ctr, lang),
    ensures
        forall|k: Seq<u8>, x: u64|
            lookup_spec(lang, k).contains(x) == (1 <= x <= ctr && recs.contains_key(x)
                && recs[x].language == k && k.len() > 0),
{
    assert forall|k: Seq<u8>, x: u64|
        lookup_spec(lang, k).contains(x) == (1 <= x <= ctr && recs.contains_key(x)
            && recs[x].language == k && k.len() > 0) by {
        assert(idx_has(lang, k, x) == (1 <= x <= ctr && recs.contains_key(x) && recs[x].language
            == k && k.len() > 0));
        if !lang.contains_key(k) {
            assert(!lookup_spec(lang, k).contains(x));
        }
    }
}

/// A delete leaves the record map without the identifier, so a following
/// get — whose contract returns a record only for a present identifier —
/// cannot succeed, and absent a storage fault answers `NotFound`.
pub proof fn lemma_delete_then_get_not_found(recs: Map<u64, SnippetV>, id: u64)
    ensures
        !recs.remove(id).contains_key(id),
{
}

/// Every record a tag-filtered query returns carries all the requested
/// tags: the query re-checks each materialized record against the whole
/// filter, so even a stale index entry cannot smuggle in a record that lost
/// a tag.
pub proof fn lemma_filter_returns_only_tagged(
    recs: Map<u64, SnippetV>,
    ctr: u64,
    li: Map<Seq<u8>, Seq<u64>>,
    ti: Map<Seq<u8>, Seq<u64>>,
    f: FiltersV,
    out: Seq<SnippetV>,
    p: int,
    j: int,
)
    requires
        query_ok(recs, ctr, li, ti, f, out),
        0 <= p < out.len(),
        0 <= j < f.tags.len(),
    ensures
        out[p].tags.contains(f.tags[j]),
{
    assert(spec_matches(out[p], f));
}

/// A filter that nothing satisfies returns the empty sequence — never an
/// error.
pub proof fn lemma_filter_no_match_returns_empty(
    recs: Map<u64, SnippetV>,
    ctr: u64,
    li: Map<Seq<u8>, Seq<u64>>,
    ti: Map<Seq<u8>, Seq<u64>>,
    f: FiltersV,
    out: Seq<SnippetV>,
)
    requires
        query_ok(recs, ctr, li, ti, f, out),
        forall|x: u64|
            !(1 <= x <= ctr && recs.contains_key(x) && #[trigger] is_candidate(f, li, ti, x)
                && spec_matches(recs[x], f)),
    ensures
        out.len() == 0,
{
    if out.len() > 0 {
        let s = out[0];
        assert(is_candidate(f, li, ti, s.id) && spec_matches(recs[s.id], f));
    }
}

/// Rebuilding twice in a row produces identical index contents: what a
/// rebuild establishes is a function of the record map and counter alone,
/// and a rebuild changes neither, so the second pass reproduces the first.
pub proof fn lemma_rebuild_idempotent(
    recs: Map<u64, SnippetV>,
    ctr: u64,
    lang1: Map<Seq<u8>, Seq<u64>>,
    tag1: Map<Seq<u8>, Seq<u64>>,
    lang2: Map<Seq<u8>, Seq<u64>>,
    tag2: Map<Seq<u8>, Seq<u64>>,
)
    requires
        rebuilt_lang(recs, ctr, lang1),
        rebuilt_tag(recs, ctr, tag1),
        rebuilt_lang(recs, ctr, lang2),
        rebuilt_tag(recs, ctr, tag2),
    ensures
        forall|k: Seq<u8>, x: u64| idx_has(lang1, k, x) == idx_has(lang2, k, x),
        forall|k: Seq<u8>, x: u64| idx_has(tag1, k, x) == idx_has(tag2, k, x),
{
}

/// An edit recomputes the identifier's index membership wholesale: if the
/// identifier's entries before the edit were exactly those of the old record,
/// then afterwards — through the exact delta `edit_snippet` ensures — the
/// identifier is listed under a language key exactly when it is the new
/// record's (non-empty) language, and under a tag key exactly when the new
/// record carries that tag.  Queries by keys only the old record carried no
/// longer return it.
pub proof fn lemma_edit_reindexes(
    old_lang: Map<Seq<u8>, Seq<u64>>,
    old_tag: Map<Seq<u8>, Seq<u64>>,
    oldrec: SnippetV,
    d: DraftV,
    id: u64,
)
    requires
        forall|k: Seq<u8>|
            idx_has(old_lang, k, id) == (oldrec.language == k && k.len() > 0),
        forall|k: Seq<u8>| idx_has(old_tag, k, id) == oldrec.tags.contains(k),
    ensures
        ({
            let m1 = if oldrec.language.len() > 0 {
                idx_remove(old_lang, oldrec.language, id)
            } else {
                old_lang
            };
            let new_lang = if d.language.len() > 0 {
                idx_add(m1, d.language, id)
            } else {
                m1
            };
            forall|k: Seq<u8>|
                idx_has(new_lang, k, id) == (d.language == k && k.len() > 0)
        }),
        forall|k: Seq<u8>|
            idx_has(idx_add_all(idx_remove_all(old_tag, oldrec.tags, id), d.tags, id), k, id)
                == d.tags.contains(k),
{
    let m1 = if oldrec.language.len() > 0 {
        idx_remove(old_lang, oldrec.language, id)
    } else {
        old_lang
    };
    let new_lang = if d.language.len() > 0 {
        idx_add(m1, d.language, id)
    } else {
        m1
    };
    assert forall|k: Seq<u8>|
        idx_has(new_lang, k, id) == (d.language == k && k.len() > 0) by {
        if oldrec.language.len() > 0 {
            lemma_idx_remove_has(old_lang, oldrec.language, id, k, id);
        }
        if d.language.len() > 0 {
            lemma_idx_add_has(m1, d.language, id, k, id);
        }
    }
    assert forall|k: Seq<u8>|
        idx_has(idx_add_all(idx_remove_all(old_tag, oldrec.tags, id), d.tags, id), k, id)
            == d.tags.contains(k) by {
        lemma_idx_remove_all_has(old_tag, oldrec.tags, id, k, id);
        lemma_idx_add_all_has(idx_remove_all(old_tag, oldrec.tags, id), d.tags, id, k, id);
    }
}

/// A corrupted index entry hides only its own record: any other identifier
/// whose entry is intact, whose record exists and matches, still appears in
/// the query's answer.
pub proof fn lemma_intact_entries_still_answer(
    recs: Map<u64, SnippetV>,
    ctr: u64,
    li: Map<Seq<u8>, Seq<u64>>,
    ti: Map<Seq<u8>, Seq<u64>>,
    f: FiltersV,
    out: Seq<SnippetV>,
    x: u64,
)
    requires
        query_ok(recs, ctr, li, ti, f, out),
        1 <= x <= ctr,
        recs.contains_key(x),
        is_candidate(f, li, ti, x),
        spec_matches(recs[x], f),
    ensures
        exists|p: int| 0 <= p < out.len() && (#[trigger] out[p]).id == x,
{
}

/// An import leaves every identifier outside the freshly assigned range
/// exactly as it was.
pub proof fn lemma_imported_recs_untouched(
    base: Map<u64, SnippetV>,
    ms: Seq<DraftV>,
    ctr: u64,
    now: u64,
    x: u64,
)
    requires
        ctr as int + ms.len() <= u64::MAX,
        x <= ctr || x > ctr as int + ms.len(),
    ensures
        imported_recs(base, ms, ctr, now).contains_key(x) == base.contains_key(x),
        base.contains_key(x) ==> imported_recs(base, ms, ctr, now)[x] == base[x],
    decreases ms.len(),
{
    if ms.len() > 0 {
        let id: u64 = (ctr + 1) as u64;
        let base1 = base.insert(id, record_of(ms[0], id, now, now));
        lemma_imported_recs_untouched(base1, ms.skip(1), id, now, x);
    }
}

/// Each imported record is stored at the next identifier in turn: the
/// record decoded at position `j` stands at `ctr + 1 + j`, with its
/// identifier and both timestamps reassigned, so imported identifiers are
/// consecutive, strictly increasing, and above everything assigned before.
pub proof fn lemma_imported_record_placement(
    base: Map<u64, SnippetV>,
    ms: Seq<DraftV>,
    ctr: u64,
    now: u64,
    j: int,
)
    requires
        ctr as int + ms.len() <= u64::MAX,
        0 <= j < ms.len(),
    ensures
        imported_recs(base, ms, ctr, now).contains_key((ctr + 1 + j) as u64),
        imported_recs(base, ms, ctr, now)[(ctr + 1 + j) as u64] == record_of(
            ms[j],
            (ctr + 1 + j) as u64,
            now,
            now,
        ),
    decreases ms.len(),
{
    let id: u64 = (ctr + 1) as u64;
    let base1 = base.insert(id, record_of(ms[0], id, now, now));
    if j == 0 {
        lemma_imported_recs_untouched(base1, ms.skip(1), id, now, id);
    } else {
        assert(ms.skip(1)[j - 1] == ms[j]);
        lemma_imported_record_placement(base1, ms.skip(1), id, now, j - 1);
    }
}

} // verus!
