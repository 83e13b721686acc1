//! The snippet record and its mathematical view, the error taxonomy, and the
//! filter specification that the query engine answers.

use vstd::prelude::*;

verus! {

/// A stored snippet record.  Text fields are byte strings; an empty
/// `language` means the language is unknown and the record is not indexed
/// by language.  `tags` is order-irrelevant; duplicates carry no meaning.
#[derive(Clone, Debug)]
pub struct Snippet {
    pub id: u64,
    pub description: Vec<u8>,
    pub language: Vec<u8>,
    pub tags: Vec<Vec<u8>>,
    pub code: Vec<u8>,
    pub created_at: u64,
    pub modified_at: u64,
}

/// Mathematical view of a snippet record.
pub ghost struct SnippetV {
    pub id: u64,
    pub description: Seq<u8>,
    pub language: Seq<u8>,
    pub tags: Seq<Seq<u8>>,
    pub code: Seq<u8>,
    pub created_at: u64,
    pub modified_at: u64,
}

impl View for Snippet {
    type V = SnippetV;

    open spec fn view(&self) -> SnippetV {
        SnippetV {
            id: self.id,
            description: self.description@,
            language: self.language@,
            tags: Seq::new(self.tags@.len(), |i: int| self.tags@[i]@),
            code: self.code@,
            created_at: self.created_at,
            modified_at: self.modified_at,
        }
    }
}

/// The fields of a snippet that a caller supplies; the engine assigns the
/// identifier and the timestamps.
#[derive(Clone, Debug)]
pub struct Draft {
    pub description: Vec<u8>,
    pub language: Vec<u8>,
    pub tags: Vec<Vec<u8>>,
    pub code: Vec<u8>,
}

/// Mathematical view of a draft.
pub ghost struct DraftV {
    pub description: Seq<u8>,
    pub language: Seq<u8>,
    pub tags: Seq<Seq<u8>>,
    pub code: Seq<u8>,
}

impl View for Draft {
    type V = DraftV;

    open spec fn view(&self) -> DraftV {
        DraftV {
            description: self.description@,
            language: self.language@,
            tags: Seq::new(self.tags@.len(), |i: int| self.tags@[i]@),
            code: self.code@,
        }
    }
}

/// A draft is acceptable when its description is non-empty.
pub open spec fn draft_valid(d: DraftV) -> bool {
    d.description.len() > 0
}

/// The data-model invariants of a stored record: a positive identifier, a
/// non-empty description, and a modification time no earlier than creation.
/// Every write establishes this, and a read that finds it broken reports
/// corruption.
pub open spec fn record_valid(s: SnippetV) -> bool {
    &&& s.id >= 1
    &&& s.description.len() > 0
    &&& s.modified_at >= s.created_at
}

/// The caller-supplied part of a record: what survives an export and an
/// import, while identifiers and timestamps are reassigned.
pub open spec fn draft_of(m: SnippetV) -> DraftV {
    DraftV { description: m.description, language: m.language, tags: m.tags, code: m.code }
}

/// The views of a list of drafts.
pub open spec fn drafts_view(v: Seq<Draft>) -> Seq<DraftV> {
    Seq::new(v.len(), |i: int| v[i]@)
}

/// The record built from a draft, an identifier and two timestamps.
pub open spec fn record_of(d: DraftV, id: u64, created_at: u64, modified_at: u64) -> SnippetV {
    SnippetV {
        id,
        description: d.description,
        language: d.language,
        tags: d.tags,
        code: d.code,
        created_at,
        modified_at,
    }
}

/// Everything that can go wrong in the storage engine.
#[derive(Clone, Copy, Debug, PartialEq, Eq, Structural)]
pub enum LostTheWay {
    /// The requested identifier has no record.
    NotFound,
    /// The underlying medium failed, or a stored value could not be read back.
    StorageIo,
    /// The delete half of an edit succeeded but the add half failed: the
    /// record is gone and the caller must be told so distinctly.
    PartialMutationFailure,
    /// The supplied fields violate a record invariant (empty description);
    /// rejected before any mutation step begins.
    InvalidRecord,
}

/// A filter specification: every given part must hold of a record for it to
/// be returned.  `tags` demands that a record contain all listed tags;
/// `date_from`/`date_to` are inclusive bounds on `created_at`; `pattern`
/// must match the description as a character subsequence.
#[derive(Clone, Debug)]
pub struct Filters {
    pub language: Option<Vec<u8>>,
    pub tags: Vec<Vec<u8>>,
    pub date_from: Option<u64>,
    pub date_to: Option<u64>,
    pub pattern: Option<Vec<u8>>,
}

/// Mathematical view of a filter specification.
pub ghost struct FiltersV {
    pub language: Option<Seq<u8>>,
    pub tags: Seq<Seq<u8>>,
    pub date_from: Option<u64>,
    pub date_to: Option<u64>,
    pub pattern: Option<Seq<u8>>,
}

impl View for Filters {
    type V = FiltersV;

    open spec fn view(&self) -> FiltersV {
        FiltersV {
            language: match self.language {
                Some(ref l) => Some(l@),
                None => None,
            },
            tags: Seq::new(self.tags@.len(), |i: int| self.tags@[i]@),
            date_from: self.date_from,
            date_to: self.date_to,
            pattern: match self.pattern {
                Some(ref p) => Some(p@),
                None => None,
            },
        }
    }
}

impl Filters {
    /// A filter that lets every record through.
    pub fn none() -> (r: Filters)
        ensures
            r@.language is None,
            r@.tags.len() == 0,
            r@.date_from is None,
            r@.date_to is None,
            r@.pattern is None,
    {
        Filters { language: None, tags: Vec::new(), date_from: None, date_to: None, pattern: None }
    }
}

/// `pat` occurs in `text` as a (not necessarily contiguous) subsequence:
/// the fuzzy text match used for `pattern`.
pub open spec fn is_subseq_of(pat: Seq<u8>, text: Seq<u8>) -> bool
    decreases text.len(),
{
    if pat.len() == 0 {
        true
    } else if text.len() == 0 {
        false
    } else if pat[0] == text[0] {
        is_subseq_of(pat.skip(1), text.skip(1))
    } else {
        is_subseq_of(pat, text.skip(1))
    }
}

/// A record satisfies a filter.
pub open spec fn spec_matches(s: SnippetV, f: FiltersV) -> bool {
    &&& (match f.language {
        Some(l) => s.language == l,
        None => true,
    })
    &&& (forall|i: int| 0 <= i < f.tags.len() ==> s.tags.contains(#[trigger] f.tags[i]))
    &&& (match f.date_from {
        Some(t) => s.created_at >= t,
        None => true,
    })
    &&& (match f.date_to {
        Some(t) => s.created_at <= t,
        None => true,
    })
    &&& (match f.pattern {
        Some(p) => is_subseq_of(p, s.description),
        None => true,
    })
}

/// Whether `pat` is a subsequence of `text`, by the greedy two-pointer walk.
pub fn subseq_match(pat: &Vec<u8>, text: &Vec<u8>) -> (r: bool)
    ensures
        r == is_subseq_of(pat@, text@),
{
    let mut i: usize = 0;
    let mut j: usize = 0;
    proof {
        assert(pat@.skip(0) =~= pat@);
        assert(text@.skip(0) =~= text@);
    }
    while i < pat.len() && j < text.len()
        invariant
            0 <= i <= pat.len(),
            0 <= j <= text.len(),
            is_subseq_of(pat@, text@) == is_subseq_of(pat@.skip(i as int), text@.skip(j as int)),
        decreases text@.len() - j,
    {
        proof {
            let p = pat@.skip(i as int);
            let t = text@.skip(j as int);
            assert(p[0] == pat@[i as int]);
            assert(t[0] == text@[j as int]);
            if pat@[i as int] == text@[j as int] {
                assert(p.skip(1) =~= pat@.skip(i + 1));
                assert(t.skip(1) =~= text@.skip(j + 1));
            } else {
                assert(t.skip(1) =~= text@.skip(j + 1));
            }
        }
        if pat[i] == text[j] {
            i = i + 1;
        }
        j = j + 1;
    }
    proof {
        if i == pat.len() {
            assert(pat@.skip(i as int).len() == 0);
        } else {
            assert(text@.skip(j as int).len() == 0);
            assert(pat@.skip(i as int).len() > 0);
        }
    }
    i == pat.len()
}

/// A record satisfies a filter, decided on the concrete values.
pub fn matches_filter(s: &Snippet, f: &Filters) -> (r: bool)
    ensures
        r == spec_matches(s@, f@),
{
    let lang_ok = match &f.language {
        Some(l) => bytes_eq(&s.language, l),
        None => true,
    };
    let mut tags_ok = true;
    let mut k: usize = 0;
    while k < f.tags.len()
        invariant
            0 <= k <= f.tags@.len(),
            tags_ok == (forall|i: int| 0 <= i < k ==> s@.tags.contains(#[trigger] f@.tags[i])),
        decreases f.tags@.len() - k,
    {
        let present = contains_bytes(&s.tags, &f.tags[k]);
        proof {
            assert(f@.tags[k as int] == f.tags@[k as int]@);
        }
        tags_ok = tags_ok && present;
        k = k + 1;
    }
    let from_ok = match &f.date_from {
        Some(t) => s.created_at >= *t,
        None => true,
    };
    let to_ok = match &f.date_to {
        Some(t) => s.created_at <= *t,
        None => true,
    };
    let pat_ok = match &f.pattern {
        Some(p) => subseq_match(p, &s.description),
        None => true,
    };
    lang_ok && tags_ok && from_ok && to_ok && pat_ok
}

/// Byte-string equality.
pub fn bytes_eq(a: &Vec<u8>, b: &Vec<u8>) -> (r: bool)
    ensures
        r == (a@ == b@),
{
    if a.len() != b.len() {
        proof {
            assert(a@ != b@);
        }
        return false;
    }
    let mut i: usize = 0;
    while i < a.len()
        invariant
            0 <= i <= a@.len(),
            a@.len() == b@.len(),
            forall|j: int| 0 <= j < i ==> a@[j] == b@[j],
        decreases a@.len() - i,
    {
        if a[i] != b[i] {
            return false;
        }
        i = i + 1;
    }
    proof {
        assert(a@ =~= b@);
    }
    true
}

/// Whether a list of byte strings contains the given one.
pub fn contains_bytes(v: &Vec<Vec<u8>>, x: &Vec<u8>) -> (r: bool)
    ensures
        r == Seq::new(v@.len(), |i: int| v@[i]@).contains(x@),
{
    let ghost vs = Seq::new(v@.len(), |i: int| v@[i]@);
    let mut i: usize = 0;
    while i < v.len()
        invariant
            0 <= i <= v@.len(),
            vs == Seq::new(v@.len(), |j: int| v@[j]@),
            forall|j: int| 0 <= j < i ==> vs[j] != x@,
        decreases v@.len() - i,
    {
        if bytes_eq(&v[i], x) {
            proof {
                assert(vs[i as int] == x@);
            }
            return true;
        }
        i = i + 1;
    }
    proof {
        assert(forall|j: int| 0 <= j < vs.len() ==> vs[j] != x@);
    }
    false
}

} // verus!
