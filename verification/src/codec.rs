//! Byte encodings for what the engine persists: records under the primary
//! tree, and identifier lists under the index trees.
//!
//! Every value is framed with eight-byte big-endian lengths, so decoding is
//! deterministic and `decode(encode(x))` gives back `x`, which is what the
//! store's contracts rest on.

use vstd::prelude::*;
use crate::snippet::{Snippet, SnippetV};

verus! {

/// Big-endian eight-byte encoding of a 64-bit integer.
pub open spec fn enc64(x: u64) -> Seq<u8> {
    seq![
        (x >> 56) as u8,
        (x >> 48) as u8,
        (x >> 40) as u8,
        (x >> 32) as u8,
        (x >> 24) as u8,
        (x >> 16) as u8,
        (x >> 8) as u8,
        x as u8,
    ]
}

/// The integer read back from eight bytes.
pub open spec fn dec64(b: Seq<u8>) -> u64
    recommends
        b.len() == 8,
{
    (((b[0] as u64) << 56) | ((b[1] as u64) << 48) | ((b[2] as u64) << 40) | ((b[3] as u64) << 32)
        | ((b[4] as u64) << 24) | ((b[5] as u64) << 16) | ((b[6] as u64) << 8) | (b[7] as u64))
}

pub proof fn lemma_dec_enc64(x: u64)
    ensures
        dec64(enc64(x)) == x,
{
    assert((((((x >> 56) as u8) as u64) << 56) | ((((x >> 48) as u8) as u64) << 48) | ((((x >> 40)
        as u8) as u64) << 40) | ((((x >> 32) as u8) as u64) << 32) | ((((x >> 24) as u8) as u64)
        << 24) | ((((x >> 16) as u8) as u64) << 16) | ((((x >> 8) as u8) as u64) << 8) | ((x
        as u8) as u64)) == x) by (bit_vector);
}

pub proof fn lemma_enc64_injective(x: u64, y: u64)
    requires
        enc64(x) == enc64(y),
    ensures
        x == y,
{
    lemma_dec_enc64(x);
    lemma_dec_enc64(y);
}

/// Appends the eight big-endian bytes of `x`.
pub fn push_u64(v: &mut Vec<u8>, x: u64)
    ensures
        final (v)@ == old(v)@ + enc64(x),
{
    v.push((x >> 56) as u8);
    v.push((x >> 48) as u8);
    v.push((x >> 40) as u8);
    v.push((x >> 32) as u8);
    v.push((x >> 24) as u8);
    v.push((x >> 16) as u8);
    v.push((x >> 8) as u8);
    v.push(x as u8);
    proof {
        assert(v@ =~= old(v)@ + enc64(x));
    }
}

/// Reads the integer stored big-endian at `pos`.
pub fn read_u64_at(b: &Vec<u8>, pos: usize) -> (r: u64)
    requires
        pos + 8 <= b.len(),
    ensures
        r == dec64(b@.subrange(pos as int, pos as int + 8)),
{
    let r: u64 = (((b[pos] as u64) << 56) | ((b[pos + 1] as u64) << 48) | ((b[pos + 2] as u64)
        << 40) | ((b[pos + 3] as u64) << 32) | ((b[pos + 4] as u64) << 24) | ((b[pos + 5] as u64)
        << 16) | ((b[pos + 6] as u64) << 8) | (b[pos + 7] as u64));
    proof {
        let s = b@.subrange(pos as int, pos as int + 8);
        assert(s[0] == b@[pos as int]);
        assert(s[1] == b@[pos as int + 1]);
        assert(s[2] == b@[pos as int + 2]);
        assert(s[3] == b@[pos as int + 3]);
        assert(s[4] == b@[pos as int + 4]);
        assert(s[5] == b@[pos as int + 5]);
        assert(s[6] == b@[pos as int + 6]);
        assert(s[7] == b@[pos as int + 7]);
    }
    r
}

/// Appends all of `b`.
pub fn push_bytes(v: &mut Vec<u8>, b: &Vec<u8>)
    ensures
        final (v)@ == old(v)@ + b@,
{
    proof {
        assert(v@ =~= old(v)@ + b@.subrange(0, 0));
    }
    let mut i: usize = 0;
    while i < b.len()
        invariant
            0 <= i <= b@.len(),
            v@ == old(v)@ + b@.subrange(0, i as int),
        decreases b@.len() - i,
    {
        v.push(b[i]);
        proof {
            assert(v@ =~= old(v)@ + b@.subrange(0, i as int + 1));
        }
        i = i + 1;
    }
    proof {
        assert(b@.subrange(0, b@.len() as int) =~= b@);
    }
}

/// A byte string framed by its length.
pub open spec fn enc_lp(b: Seq<u8>) -> Seq<u8> {
    enc64(b.len() as u64) + b
}

/// Appends `b` framed by its length.
pub fn push_lp(v: &mut Vec<u8>, b: &Vec<u8>)
    ensures
        final (v)@ == old(v)@ + enc_lp(b@),
{
    push_u64(v, b.len() as u64);
    push_bytes(v, b);
    proof {
        assert(v@ =~= old(v)@ + enc_lp(b@));
    }
}

/// Reads a length-framed byte string starting at `pos`; yields the string
/// and the position just past it.
pub open spec fn dec_lp(b: Seq<u8>, pos: int) -> Option<(Seq<u8>, int)> {
    if 0 <= pos && pos + 8 <= b.len() {
        let n: int = dec64(b.subrange(pos, pos + 8)) as int;
        if pos + 8 + n <= b.len() {
            Some((b.subrange(pos + 8, pos + 8 + n), pos + 8 + n))
        } else {
            None
        }
    } else {
        None
    }
}

pub proof fn lemma_dec_lp_encodes(b: Seq<u8>, pos: int, s: Seq<u8>)
    requires
        0 <= pos,
        s.len() <= u64::MAX,
        pos + 8 + s.len() <= b.len(),
        b.subrange(pos, pos + 8 + s.len() as int) == enc_lp(s),
    ensures
        dec_lp(b, pos) == Some((s, pos + 8 + s.len() as int)),
{
    let whole = b.subrange(pos, pos + 8 + s.len() as int);
    let l: int = 8 + s.len() as int;
    assert(whole.len() == l);
    assert(b.subrange(pos, pos + 8) =~= whole.subrange(0, 8));
    assert(whole.subrange(0, 8) =~= enc64(s.len() as u64));
    lemma_dec_enc64(s.len() as u64);
    assert(dec64(b.subrange(pos, pos + 8)) == s.len() as u64);
    assert(b.subrange(pos + 8, pos + l) =~= whole.subrange(8, l));
    assert(whole.subrange(8, l) =~= s);
}

/// Reads a length-framed byte string; mirrors [`dec_lp`].
pub fn read_lp(b: &Vec<u8>, pos: usize) -> (r: Option<(Vec<u8>, usize)>)
    ensures
        (match dec_lp(b@, pos as int) {
            Some(p) => r matches Some(q) && q.0@ == p.0 && q.1 as int == p.1,
            None => r is None,
        }),
{
    if b.len() < 8 || pos > b.len() - 8 {
        return None;
    }
    let n: u64 = read_u64_at(b, pos);
    let base: usize = pos + 8;
    let rem: usize = b.len() - base;
    if n > rem as u64 {
        return None;
    }
    let len: usize = n as usize;
    let mut out: Vec<u8> = Vec::new();
    proof {
        assert(out@ =~= b@.subrange(base as int, base as int));
    }
    let mut i: usize = 0;
    while i < len
        invariant
            0 <= i <= len,
            base + len <= b.len(),
            out@ == b@.subrange(base as int, base as int + i as int),
        decreases len - i,
    {
        out.push(b[base + i]);
        proof {
            assert(out@ =~= b@.subrange(base as int, base as int + i as int + 1));
        }
        i = i + 1;
    }
    Some((out, base + len))
}

/// A sequence of length-framed byte strings, back to back.
pub open spec fn enc_tags(ts: Seq<Seq<u8>>) -> Seq<u8>
    decreases ts.len(),
{
    if ts.len() == 0 {
        Seq::empty()
    } else {
        enc_lp(ts[0]) + enc_tags(ts.skip(1))
    }
}

/// Reads `n` length-framed byte strings starting at `pos`.
pub open spec fn dec_tags(b: Seq<u8>, pos: int, n: nat) -> Option<(Seq<Seq<u8>>, int)>
    decreases n,
{
    if n == 0 {
        Some((Seq::empty(), pos))
    } else {
        match dec_lp(b, pos) {
            None => None,
            Some((t, p1)) => match dec_tags(b, p1, (n - 1) as nat) {
                None => None,
                Some((ts, p2)) => Some((seq![t] + ts, p2)),
            },
        }
    }
}

pub proof fn lemma_dec_tags_encodes(b: Seq<u8>, pos: int, ts: Seq<Seq<u8>>)
    requires
        0 <= pos,
        pos + enc_tags(ts).len() <= b.len(),
        b.subrange(pos, pos + enc_tags(ts).len() as int) == enc_tags(ts),
        forall|i: int| 0 <= i < ts.len() ==> (#[trigger] ts[i]).len() <= u64::MAX,
    ensures
        dec_tags(b, pos, ts.len()) == Some((ts, pos + enc_tags(ts).len() as int)),
    decreases ts.len(),
{
    if ts.len() == 0 {
        assert(ts =~= Seq::<Seq<u8>>::empty());
    } else {
        let t0 = ts[0];
        let rest = ts.skip(1);
        let lw: int = enc_tags(ts).len() as int;
        let whole = b.subrange(pos, pos + lw);
        assert(enc_tags(ts) == enc_lp(t0) + enc_tags(rest));
        let l0: int = 8 + t0.len() as int;
        let lr: int = enc_tags(rest).len() as int;
        assert(enc_lp(t0).len() == l0);
        assert(whole.len() == l0 + lr);
        assert(b.subrange(pos, pos + l0) =~= whole.subrange(0, l0));
        assert(whole.subrange(0, l0) =~= enc_lp(t0));
        lemma_dec_lp_encodes(b, pos, t0);
        let p1: int = pos + l0;
        assert(b.subrange(p1, p1 + lr) =~= whole.subrange(l0, l0 + lr));
        assert(whole.subrange(l0, l0 + lr) =~= enc_tags(rest));
        assert(forall|i: int| 0 <= i < rest.len() ==> (#[trigger] rest[i]).len() <= u64::MAX) by {
            assert(forall|i: int| 0 <= i < rest.len() ==> rest[i] == ts[i + 1]);
        }
        lemma_dec_tags_encodes(b, p1, rest);
        assert(seq![t0] + rest =~= ts);
    }
}

/// Everything a snippet record persists, in a fixed frame: identifier and
/// timestamps, the three text fields, then the tag count and the tags.
#[verifier::opaque]
pub open spec fn spec_enc_snippet(s: SnippetV) -> Seq<u8> {
    enc64(s.id) + enc64(s.created_at) + enc64(s.modified_at) + enc_lp(s.description) + enc_lp(
        s.language,
    ) + enc_lp(s.code) + enc64(s.tags.len() as u64) + enc_tags(s.tags)
}

/// The record read back from bytes, if they parse exactly.
#[verifier::opaque]
pub open spec fn spec_dec_snippet(b: Seq<u8>) -> Option<SnippetV> {
    if b.len() < 24 {
        None
    } else {
        let id: u64 = dec64(b.subrange(0, 8));
        let created_at: u64 = dec64(b.subrange(8, 16));
        let modified_at: u64 = dec64(b.subrange(16, 24));
        match dec_lp(b, 24) {
            None => None,
            Some((description, p1)) => match dec_lp(b, p1) {
                None => None,
                Some((language, p2)) => match dec_lp(b, p2) {
                    None => None,
                    Some((code, p3)) => if p3 + 8 <= b.len() {
                        let count: u64 = dec64(b.subrange(p3, p3 + 8));
                        match dec_tags(b, p3 + 8, count as nat) {
                            None => None,
                            Some((tags, p4)) => if p4 == b.len() {
                                Some(
                                    SnippetV {
                                        id,
                                        description,
                                        language,
                                        tags,
                                        code,
                                        created_at,
                                        modified_at,
                                    },
                                )
                            } else {
                                None
                            },
                        }
                    } else {
                        None
                    },
                },
            },
        }
    }
}

/// The field sizes fit their length frames; true of every record built from
/// in-memory vectors.
pub open spec fn snippet_sizes_ok(s: SnippetV) -> bool {
    &&& s.description.len() <= u64::MAX
    &&& s.language.len() <= u64::MAX
    &&& s.code.len() <= u64::MAX
    &&& s.tags.len() <= u64::MAX
    &&& forall|i: int| 0 <= i < s.tags.len() ==> (#[trigger] s.tags[i]).len() <= u64::MAX
}

/// Decoding inverts encoding: the store gives back exactly the record it
/// was handed.
#[verifier::rlimit(100)]
pub proof fn lemma_snippet_roundtrip(s: SnippetV)
    requires
        snippet_sizes_ok(s),
    ensures
        spec_dec_snippet(spec_enc_snippet(s)) == Some(s),
{
    reveal(spec_enc_snippet);
    reveal(spec_dec_snippet);
    let b = spec_enc_snippet(s);
    let e1 = enc64(s.id);
    let e2 = enc64(s.created_at);
    let e3 = enc64(s.modified_at);
    let e4 = enc_lp(s.description);
    let e5 = enc_lp(s.language);
    let e6 = enc_lp(s.code);
    let e7 = enc64(s.tags.len() as u64);
    let e8 = enc_tags(s.tags);
    let p1: int = 24 + 8 + s.description.len() as int;
    let p2: int = p1 + 8 + s.language.len() as int;
    let p3: int = p2 + 8 + s.code.len() as int;
    let p4: int = p3 + 8;
    assert(e4.len() == 8 + s.description.len());
    assert(e5.len() == 8 + s.language.len());
    assert(e6.len() == 8 + s.code.len());
    assert(b.len() == p4 + e8.len());
    assert(b.subrange(0, 8) =~= e1);
    assert(b.subrange(8, 16) =~= e2);
    assert(b.subrange(16, 24) =~= e3);
    lemma_dec_enc64(s.id);
    lemma_dec_enc64(s.created_at);
    lemma_dec_enc64(s.modified_at);
    assert(b.subrange(24, p1) =~= e4);
    lemma_dec_lp_encodes(b, 24, s.description);
    assert(b.subrange(p1, p2) =~= e5);
    lemma_dec_lp_encodes(b, p1, s.language);
    assert(b.subrange(p2, p3) =~= e6);
    lemma_dec_lp_encodes(b, p2, s.code);
    assert(b.subrange(p3, p4) =~= e7);
    lemma_dec_enc64(s.tags.len() as u64);
    assert(dec64(b.subrange(p3, p4)) == s.tags.len() as u64);
    assert(b.subrange(p4, p4 + e8.len() as int) =~= e8);
    lemma_dec_tags_encodes(b, p4, s.tags);
}

/// Encodes a record; mirrors [`spec_enc_snippet`].
pub fn encode_snippet(s: &Snippet) -> (r: Vec<u8>)
    ensures
        r@ == spec_enc_snippet(s@),
{
    let mut v: Vec<u8> = Vec::new();
    push_u64(&mut v, s.id);
    push_u64(&mut v, s.created_at);
    push_u64(&mut v, s.modified_at);
    push_lp(&mut v, &s.description);
    push_lp(&mut v, &s.language);
    push_lp(&mut v, &s.code);
    push_u64(&mut v, s.tags.len() as u64);
    let ghost pre = v@;
    let ghost tagsv = s@.tags;
    proof {
        assert(tagsv.skip(0) =~= tagsv);
    }
    let mut k: usize = 0;
    while k < s.tags.len()
        invariant
            0 <= k <= s.tags@.len(),
            tagsv == s@.tags,
            tagsv.len() == s.tags@.len(),
            v@ + enc_tags(tagsv.skip(k as int)) == pre + enc_tags(tagsv),
        decreases s.tags@.len() - k,
    {
        let ghost rest = tagsv.skip(k as int);
        proof {
            assert(rest.len() > 0);
            assert(rest[0] == tagsv[k as int]);
            assert(rest.skip(1) =~= tagsv.skip(k as int + 1));
            assert(tagsv[k as int] == s.tags@[k as int]@);
        }
        push_lp(&mut v, &s.tags[k]);
        proof {
            assert(v@ + enc_tags(tagsv.skip(k as int + 1)) =~= pre + enc_tags(tagsv));
        }
        k = k + 1;
    }
    proof {
        reveal(spec_enc_snippet);
        assert(tagsv.skip(tagsv.len() as int) =~= Seq::<Seq<u8>>::empty());
        assert(v@ + enc_tags(tagsv.skip(tagsv.len() as int)) =~= v@);
        assert(v@ =~= spec_enc_snippet(s@));
    }
    v
}

/// Decodes a record; mirrors [`spec_dec_snippet`].
pub fn decode_snippet(b: &Vec<u8>) -> (r: Option<Snippet>)
    ensures
        (match spec_dec_snippet(b@) {
            Some(m) => r matches Some(s) && s@ == m,
            None => r is None,
        }),
{
    proof {
        reveal(spec_dec_snippet);
    }
    if b.len() < 24 {
        return None;
    }
    let id: u64 = read_u64_at(b, 0);
    let created_at: u64 = read_u64_at(b, 8);
    let modified_at: u64 = read_u64_at(b, 16);
    let (description, p1) = match read_lp(b, 24) {
        Some(x) => x,
        None => {
            return None;
        },
    };
    let (language, p2) = match read_lp(b, p1) {
        Some(x) => x,
        None => {
            return None;
        },
    };
    let (code, p3) = match read_lp(b, p2) {
        Some(x) => x,
        None => {
            return None;
        },
    };
    proof {
        assert(p3 as int <= b@.len());
    }
    if b.len() - p3 < 8 {
        return None;
    }
    let count: u64 = read_u64_at(b, p3);
    let tag0: usize = p3 + 8;
    let mut tags: Vec<Vec<u8>> = Vec::new();
    let mut cur: usize = tag0;
    let mut i: u64 = 0;
    proof {
        assert(Seq::new(tags@.len(), |j: int| tags@[j]@) =~= Seq::<Seq<u8>>::empty());
        assert(Seq::<Seq<u8>>::empty() + Seq::<Seq<u8>>::empty() =~= Seq::<Seq<u8>>::empty());
    }
    while i < count
        invariant
            0 <= i <= count,
            cur <= b@.len(),
            b@.len() >= 24,
            dec_lp(b@, 24) == Some((description@, p1 as int)),
            dec_lp(b@, p1 as int) == Some((language@, p2 as int)),
            dec_lp(b@, p2 as int) == Some((code@, p3 as int)),
            p3 + 8 <= b@.len(),
            count == dec64(b@.subrange(p3 as int, p3 as int + 8)),
            tag0 == p3 + 8,
            (dec_tags(b@, tag0 as int, count as nat) == (match dec_tags(
                b@,
                cur as int,
                (count - i) as nat,
            ) {
                None => None::<(Seq<Seq<u8>>, int)>,
                Some((ts, p)) => Some((Seq::new(tags@.len(), |j: int| tags@[j]@) + ts, p)),
            })),
        decreases count - i,
    {
        let ghost accv = Seq::new(tags@.len(), |j: int| tags@[j]@);
        match read_lp(b, cur) {
            None => {
                proof {
                    reveal(spec_dec_snippet);
                    assert(dec_tags(b@, cur as int, (count - i) as nat) is None);
                    assert(dec_tags(b@, tag0 as int, count as nat) is None);
                    assert(spec_dec_snippet(b@) is None);
                }
                return None;
            },
            Some((t, p_next)) => {
                proof {
                    let rem: nat = (count - i) as nat;
                    assert(rem > 0);
                    // one step of dec_tags at cur
                    assert(dec_lp(b@, cur as int) == Some((t@, p_next as int)));
                }
                let ghost tv = t@;
                tags.push(t);
                proof {
                    assert(Seq::new(tags@.len(), |j: int| tags@[j]@) =~= accv + seq![tv]);
                    let rem1: nat = (count - i - 1) as nat;
                    match dec_tags(b@, p_next as int, rem1) {
                        None => {
                            assert(dec_tags(b@, cur as int, (count - i) as nat) is None);
                        },
                        Some((ts2, pp)) => {
                            assert(dec_tags(b@, cur as int, (count - i) as nat) == Some(
                                (seq![tv] + ts2, pp),
                            ));
                            assert(accv + (seq![tv] + ts2) =~= (accv + seq![tv]) + ts2);
                        },
                    }
                    assert(p_next as int <= b@.len());
                }
                cur = p_next;
                i = i + 1;
            },
        }
    }
    proof {
        let accv = Seq::new(tags@.len(), |j: int| tags@[j]@);
        assert(dec_tags(b@, cur as int, 0) == Some((Seq::<Seq<u8>>::empty(), cur as int)));
        assert(accv + Seq::<Seq<u8>>::empty() =~= accv);
        assert(dec_tags(b@, tag0 as int, count as nat) == Some((accv, cur as int)));
    }
    if cur != b.len() {
        return None;
    }
    let s = Snippet { id, description, language, tags, code, created_at, modified_at };
    proof {
        let m = spec_dec_snippet(b@).unwrap();
        assert(s@ == m);
    }
    Some(s)
}

/// A list of identifiers: a count, then each identifier in eight bytes.
pub open spec fn enc_ids_body(ids: Seq<u64>) -> Seq<u8>
    decreases ids.len(),
{
    if ids.len() == 0 {
        Seq::empty()
    } else {
        enc64(ids[0]) + enc_ids_body(ids.skip(1))
    }
}

#[verifier::opaque]
pub open spec fn spec_enc_ids(ids: Seq<u64>) -> Seq<u8> {
    enc64(ids.len() as u64) + enc_ids_body(ids)
}

/// Reads `n` identifiers starting at `pos`.
pub open spec fn dec_ids_body(b: Seq<u8>, pos: int, n: nat) -> Option<(Seq<u64>, int)>
    decreases n,
{
    if n == 0 {
        Some((Seq::empty(), pos))
    } else if 0 <= pos && pos + 8 <= b.len() {
        let x: u64 = dec64(b.subrange(pos, pos + 8));
        match dec_ids_body(b, pos + 8, (n - 1) as nat) {
            None => None,
            Some((ids, p)) => Some((seq![x] + ids, p)),
        }
    } else {
        None
    }
}

/// The identifier list read back from bytes, if they parse exactly.
#[verifier::opaque]
pub open spec fn spec_dec_ids(b: Seq<u8>) -> Option<Seq<u64>> {
    if b.len() < 8 {
        None
    } else {
        let count: u64 = dec64(b.subrange(0, 8));
        match dec_ids_body(b, 8, count as nat) {
            None => None,
            Some((ids, p)) => if p == b.len() {
                Some(ids)
            } else {
                None
            },
        }
    }
}

pub proof fn lemma_dec_ids_body_encodes(b: Seq<u8>, pos: int, ids: Seq<u64>)
    requires
        0 <= pos,
        pos + enc_ids_body(ids).len() <= b.len(),
        b.subrange(pos, pos + enc_ids_body(ids).len() as int) == enc_ids_body(ids),
    ensures
        dec_ids_body(b, pos, ids.len()) == Some((ids, pos + enc_ids_body(ids).len() as int)),
    decreases ids.len(),
{
    if ids.len() == 0 {
        assert(ids =~= Seq::<u64>::empty());
    } else {
        let x0 = ids[0];
        let rest = ids.skip(1);
        let lw: int = enc_ids_body(ids).len() as int;
        let whole = b.subrange(pos, pos + lw);
        assert(enc_ids_body(ids) == enc64(x0) + enc_ids_body(rest));
        let lr: int = enc_ids_body(rest).len() as int;
        assert(whole.len() == 8 + lr);
        assert(b.subrange(pos, pos + 8) =~= whole.subrange(0, 8));
        assert(whole.subrange(0, 8) =~= enc64(x0));
        lemma_dec_enc64(x0);
        let p1: int = pos + 8;
        assert(b.subrange(p1, p1 + lr) =~= whole.subrange(8, 8 + lr));
        assert(whole.subrange(8, 8 + lr) =~= enc_ids_body(rest));
        lemma_dec_ids_body_encodes(b, p1, rest);
        assert(seq![x0] + rest =~= ids);
    }
}

/// Decoding inverts encoding for identifier lists.
pub proof fn lemma_ids_roundtrip(ids: Seq<u64>)
    requires
        ids.len() <= u64::MAX,
    ensures
        spec_dec_ids(spec_enc_ids(ids)) == Some(ids),
{
    reveal(spec_enc_ids);
    reveal(spec_dec_ids);
    let b = spec_enc_ids(ids);
    assert(b.subrange(0, 8) =~= enc64(ids.len() as u64));
    lemma_dec_enc64(ids.len() as u64);
    assert(b.subrange(8, 8 + enc_ids_body(ids).len() as int) =~= enc_ids_body(ids));
    lemma_dec_ids_body_encodes(b, 8, ids);
}

/// Encodes an identifier list; mirrors [`spec_enc_ids`].
pub fn encode_ids(ids: &Vec<u64>) -> (r: Vec<u8>)
    ensures
        r@ == spec_enc_ids(ids@),
{
    proof {
        reveal(spec_enc_ids);
    }
    let mut v: Vec<u8> = Vec::new();
    push_u64(&mut v, ids.len() as u64);
    let ghost pre = v@;
    proof {
        assert(ids@.skip(0) =~= ids@);
    }
    let mut k: usize = 0;
    while k < ids.len()
        invariant
            0 <= k <= ids@.len(),
            v@ + enc_ids_body(ids@.skip(k as int)) == pre + enc_ids_body(ids@),
        decreases ids@.len() - k,
    {
        let ghost rest = ids@.skip(k as int);
        proof {
            assert(rest.len() > 0);
            assert(rest[0] == ids@[k as int]);
            assert(rest.skip(1) =~= ids@.skip(k as int + 1));
        }
        push_u64(&mut v, ids[k]);
        proof {
            assert(v@ + enc_ids_body(ids@.skip(k as int + 1)) =~= pre + enc_ids_body(ids@));
        }
        k = k + 1;
    }
    proof {
        assert(ids@.skip(ids@.len() as int) =~= Seq::<u64>::empty());
        assert(v@ + enc_ids_body(ids@.skip(ids@.len() as int)) =~= v@);
        assert(v@ =~= spec_enc_ids(ids@));
    }
    v
}

/// Decodes an identifier list; mirrors [`spec_dec_ids`].
pub fn decode_ids(b: &Vec<u8>) -> (r: Option<Vec<u64>>)
    ensures
        (match spec_dec_ids(b@) {
            Some(ids) => r matches Some(v) && v@ == ids,
            None => r is None,
        }),
{
    proof {
        reveal(spec_dec_ids);
    }
    if b.len() < 8 {
        return None;
    }
    let count: u64 = read_u64_at(b, 0);
    let mut out: Vec<u64> = Vec::new();
    let mut cur: usize = 8;
    let mut i: u64 = 0;
    proof {
        assert(out@ + Seq::<u64>::empty() =~= out@);
        assert(out@ =~= Seq::<u64>::empty());
    }
    while i < count
        invariant
            0 <= i <= count,
            8 <= cur <= b@.len(),
            b@.len() >= 8,
            count == dec64(b@.subrange(0, 8)),
            (dec_ids_body(b@, 8, count as nat) == (match dec_ids_body(
                b@,
                cur as int,
                (count - i) as nat,
            ) {
                None => None::<(Seq<u64>, int)>,
                Some((ids, p)) => Some((out@ + ids, p)),
            })),
        decreases count - i,
    {
        let ghost accv = out@;
        if b.len() - cur < 8 {
            proof {
                reveal(spec_dec_ids);
                assert(dec_ids_body(b@, cur as int, (count - i) as nat) is None);
                assert(dec_ids_body(b@, 8, count as nat) is None);
                assert(spec_dec_ids(b@) is None);
            }
            return None;
        }
        let x: u64 = read_u64_at(b, cur);
        out.push(x);
        proof {
            assert(out@ =~= accv + seq![x]);
            let rem1: nat = (count - i - 1) as nat;
            match dec_ids_body(b@, cur as int + 8, rem1) {
                None => {
                    assert(dec_ids_body(b@, cur as int, (count - i) as nat) is None);
                },
                Some((ids2, pp)) => {
                    assert(dec_ids_body(b@, cur as int, (count - i) as nat) == Some(
                        (seq![x] + ids2, pp),
                    ));
                    assert(accv + (seq![x] + ids2) =~= (accv + seq![x]) + ids2);
                },
            }
        }
        cur = cur + 8;
        i = i + 1;
    }
    proof {
        assert(dec_ids_body(b@, cur as int, 0) == Some((Seq::<u64>::empty(), cur as int)));
        assert(out@ + Seq::<u64>::empty() =~= out@);
        assert(dec_ids_body(b@, 8, count as nat) == Some((out@, cur as int)));
    }
    if cur != b.len() {
        return None;
    }
    Some(out)
}

} // verus!
