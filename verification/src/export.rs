//! The bulk import/export boundary: one JSON-shaped object per snippet, with
//! the fields `description`, `language`, `tags` (an array of strings) and
//! `code`, each object on its own line.  Identifiers and timestamps are not
//! written and never trusted from a file: an importer reassigns them.
//!
//! The emitter writes one canonical form — fields in the order above, no
//! extra whitespace, `"`, `\`, newline, carriage return and tab escaped —
//! and the parser reads exactly that form back; [`lemma_records_roundtrip`]
//! proves the trip is the identity on every field.

use vstd::prelude::*;
use crate::snippet::{Draft, draft_of, DraftV, drafts_view, Snippet, SnippetV};
use crate::store::snippets_view;

verus! {

/// A byte escaped for a JSON string.
pub open spec fn esc1(b: u8) -> Seq<u8> {
    if b == 34 {
        seq![92u8, 34u8]
    } else if b == 92 {
        seq![92u8, 92u8]
    } else if b == 10 {
        seq![92u8, 110u8]
    } else if b == 13 {
        seq![92u8, 114u8]
    } else if b == 9 {
        seq![92u8, 116u8]
    } else {
        seq![b]
    }
}

/// A whole byte string escaped.
pub open spec fn esc(s: Seq<u8>) -> Seq<u8>
    decreases s.len(),
{
    if s.len() == 0 {
        Seq::empty()
    } else {
        esc1(s[0]) + esc(s.skip(1))
    }
}

/// The byte an escape sequence stands for.
pub open spec fn unesc1(c: u8) -> u8 {
    if c == 110 {
        10
    } else if c == 114 {
        13
    } else if c == 116 {
        9
    } else {
        c
    }
}

/// A string's content followed by its closing quote; the opening quote
/// belongs to the preceding literal.
pub open spec fn enc_str(s: Seq<u8>) -> Seq<u8> {
    esc(s) + seq![34u8]
}

/// Reads string content up to and including an unescaped closing quote.
pub open spec fn dec_str(b: Seq<u8>, pos: int) -> Option<(Seq<u8>, int)>
    decreases b.len() - pos,
{
    if pos < 0 || pos >= b.len() {
        None
    } else if b[pos] == 34 {
        Some((Seq::empty(), pos + 1))
    } else if b[pos] == 92 {
        if pos + 1 < b.len() {
            match dec_str(b, pos + 2) {
                None => None,
                Some((s, p)) => Some((seq![unesc1(b[pos + 1])] + s, p)),
            }
        } else {
            None
        }
    } else {
        match dec_str(b, pos + 1) {
            None => None,
            Some((s, p)) => Some((seq![b[pos]] + s, p)),
        }
    }
}

/// Parsing inverts escaping: reading an emitted string gives the original
/// content and stops just past its closing quote.
pub proof fn lemma_dec_str_enc(b: Seq<u8>, pos: int, s: Seq<u8>)
    requires
        0 <= pos,
        pos + enc_str(s).len() <= b.len(),
        b.subrange(pos, pos + enc_str(s).len() as int) == enc_str(s),
    ensures
        dec_str(b, pos) == Some((s, pos + enc_str(s).len() as int)),
    decreases s.len(),
{
    let ln: int = enc_str(s).len() as int;
    let whole = b.subrange(pos, pos + ln);
    if s.len() == 0 {
        assert(whole[0] == 34);
        assert(Seq::<u8>::empty() =~= s);
    } else {
        let rest = s.skip(1);
        assert(esc(s) == esc1(s[0]) + esc(rest));
        assert(enc_str(s) =~= esc1(s[0]) + enc_str(rest));
        let k: int = esc1(s[0]).len() as int;
        assert(whole.len() == k + enc_str(rest).len());
        assert(b.subrange(pos + k, pos + ln) =~= whole.subrange(k, ln));
        assert(whole.subrange(k, ln) =~= enc_str(rest));
        if s[0] == 34 || s[0] == 92 || s[0] == 10 || s[0] == 13 || s[0] == 9 {
            assert(whole[0] == 92);
            assert(whole[1] == esc1(s[0])[1]);
            assert(unesc1(esc1(s[0])[1]) == s[0]);
            lemma_dec_str_enc(b, pos + 2, rest);
            assert(seq![s[0]] + rest =~= s);
        } else {
            assert(whole[0] == s[0]);
            lemma_dec_str_enc(b, pos + 1, rest);
            assert(seq![s[0]] + rest =~= s);
        }
    }
}

/// A tag array's contents: each tag quoted and escaped, comma separated; the
/// surrounding brackets belong to the adjacent literals.
pub open spec fn enc_jtags(ts: Seq<Seq<u8>>) -> Seq<u8>
    decreases ts.len(),
{
    if ts.len() == 0 {
        Seq::empty()
    } else {
        seq![34u8] + enc_str(ts[0]) + enc_jtags_rest(ts.skip(1))
    }
}

pub open spec fn enc_jtags_rest(ts: Seq<Seq<u8>>) -> Seq<u8>
    decreases ts.len(),
{
    if ts.len() == 0 {
        Seq::empty()
    } else {
        seq![44u8, 34u8] + enc_str(ts[0]) + enc_jtags_rest(ts.skip(1))
    }
}

/// Reads a tag array's contents, stopping at (not consuming) the closing
/// bracket.
pub open spec fn dec_jtags(b: Seq<u8>, pos: int) -> Option<(Seq<Seq<u8>>, int)>
    decreases b.len() - pos,
{
    if pos < 0 || pos >= b.len() {
        None
    } else if b[pos] == 93 {
        Some((Seq::empty(), pos))
    } else if b[pos] == 34 {
        match dec_str(b, pos + 1) {
            None => None,
            Some((t, p1)) => if pos < p1 <= b.len() {
                match dec_jtags_rest(b, p1) {
                    None => None,
                    Some((ts, p2)) => Some((seq![t] + ts, p2)),
                }
            } else {
                None
            },
        }
    } else {
        None
    }
}

pub open spec fn dec_jtags_rest(b: Seq<u8>, pos: int) -> Option<(Seq<Seq<u8>>, int)>
    decreases b.len() - pos,
{
    if pos < 0 || pos >= b.len() {
        None
    } else if b[pos] == 93 {
        Some((Seq::empty(), pos))
    } else if b[pos] == 44 && pos + 1 < b.len() && b[pos + 1] == 34 {
        match dec_str(b, pos + 2) {
            None => None,
            Some((t, p1)) => if pos < p1 <= b.len() {
                match dec_jtags_rest(b, p1) {
                    None => None,
                    Some((ts, p2)) => Some((seq![t] + ts, p2)),
                }
            } else {
                None
            },
        }
    } else {
        None
    }
}

pub proof fn lemma_dec_jtags_rest_enc(b: Seq<u8>, pos: int, ts: Seq<Seq<u8>>)
    requires
        0 <= pos,
        pos + enc_jtags_rest(ts).len() < b.len(),
        b.subrange(pos, pos + enc_jtags_rest(ts).len() as int) == enc_jtags_rest(ts),
        b[pos + enc_jtags_rest(ts).len()] == 93,
    ensures
        dec_jtags_rest(b, pos) == Some((ts, pos + enc_jtags_rest(ts).len() as int)),
    decreases ts.len(),
{
    if ts.len() == 0 {
        assert(b[pos] == 93);
    } else {
        let ln: int = enc_jtags_rest(ts).len() as int;
        let whole = b.subrange(pos, pos + ln);
        let rest = ts.skip(1);
        assert(whole[0] == 44);
        assert(whole[1] == 34);
        assert(whole.len() == 2 + enc_str(ts[0]).len() + enc_jtags_rest(rest).len());
        let p1: int = pos + 2 + enc_str(ts[0]).len() as int;
        assert(b.subrange(pos + 2, p1) =~= whole.subrange(2, 2 + enc_str(ts[0]).len() as int));
        assert(whole.subrange(2, 2 + enc_str(ts[0]).len() as int) =~= enc_str(ts[0]));
        lemma_dec_str_enc(b, pos + 2, ts[0]);
        assert(b.subrange(p1, pos + ln) =~= whole.subrange(
            2 + enc_str(ts[0]).len() as int,
            ln,
        ));
        assert(whole.subrange(2 + enc_str(ts[0]).len() as int, ln) =~= enc_jtags_rest(rest));
        lemma_dec_jtags_rest_enc(b, p1, rest);
        assert(seq![ts[0]] + rest =~= ts);
    }
}

pub proof fn lemma_dec_jtags_enc(b: Seq<u8>, pos: int, ts: Seq<Seq<u8>>)
    requires
        0 <= pos,
        pos + enc_jtags(ts).len() < b.len(),
        b.subrange(pos, pos + enc_jtags(ts).len() as int) == enc_jtags(ts),
        b[pos + enc_jtags(ts).len()] == 93,
    ensures
        dec_jtags(b, pos) == Some((ts, pos + enc_jtags(ts).len() as int)),
{
    if ts.len() == 0 {
        assert(b[pos] == 93);
    } else {
        let ln: int = enc_jtags(ts).len() as int;
        let whole = b.subrange(pos, pos + ln);
        let rest = ts.skip(1);
        assert(whole[0] == 34);
        assert(whole.len() == 1 + enc_str(ts[0]).len() + enc_jtags_rest(rest).len());
        let p1: int = pos + 1 + enc_str(ts[0]).len() as int;
        assert(b.subrange(pos + 1, p1) =~= whole.subrange(1, 1 + enc_str(ts[0]).len() as int));
        assert(whole.subrange(1, 1 + enc_str(ts[0]).len() as int) =~= enc_str(ts[0]));
        lemma_dec_str_enc(b, pos + 1, ts[0]);
        assert(b.subrange(p1, pos + ln) =~= whole.subrange(
            1 + enc_str(ts[0]).len() as int,
            ln,
        ));
        assert(whole.subrange(1 + enc_str(ts[0]).len() as int, ln) =~= enc_jtags_rest(rest));
        lemma_dec_jtags_rest_enc(b, p1, rest);
        assert(seq![ts[0]] + rest =~= ts);
    }
}

/// The object's framing literals.
pub open spec fn l_desc() -> Seq<u8> {
    // {"description":"
    seq![123u8, 34u8, 100u8, 101u8, 115u8, 99u8, 114u8, 105u8, 112u8, 116u8, 105u8, 111u8, 110u8, 34u8, 58u8, 34u8]
}

pub open spec fn l_lang() -> Seq<u8> {
    // ,"language":"
    seq![44u8, 34u8, 108u8, 97u8, 110u8, 103u8, 117u8, 97u8, 103u8, 101u8, 34u8, 58u8, 34u8]
}

pub open spec fn l_tags() -> Seq<u8> {
    // ,"tags":[
    seq![44u8, 34u8, 116u8, 97u8, 103u8, 115u8, 34u8, 58u8, 91u8]
}

pub open spec fn l_code() -> Seq<u8> {
    // ],"code":"
    seq![93u8, 44u8, 34u8, 99u8, 111u8, 100u8, 101u8, 34u8, 58u8, 34u8]
}

pub open spec fn l_end() -> Seq<u8> {
    // } and a line feed
    seq![125u8, 10u8]
}

/// The literal stands at `pos`.
pub open spec fn match_lit(b: Seq<u8>, pos: int, lit: Seq<u8>) -> bool {
    0 <= pos && pos + lit.len() <= b.len() && b.subrange(pos, pos + lit.len() as int) == lit
}

/// One snippet as a JSON object line.
pub open spec fn spec_enc_jrec(d: DraftV) -> Seq<u8> {
    l_desc() + enc_str(d.description) + l_lang() + enc_str(d.language) + l_tags() + enc_jtags(
        d.tags,
    ) + l_code() + enc_str(d.code) + l_end()
}

/// One snippet read back from `pos`, if the bytes there are exactly an
/// emitted object.
pub open spec fn dec_jrec(b: Seq<u8>, pos: int) -> Option<(DraftV, int)> {
    if !match_lit(b, pos, l_desc()) {
        None
    } else {
        match dec_str(b, pos + l_desc().len() as int) {
            None => None,
            Some((description, p1)) => if !match_lit(b, p1, l_lang()) {
                None
            } else {
                match dec_str(b, p1 + l_lang().len() as int) {
                    None => None,
                    Some((language, p3)) => if !match_lit(b, p3, l_tags()) {
                        None
                    } else {
                        match dec_jtags(b, p3 + l_tags().len() as int) {
                            None => None,
                            Some((tags, p5)) => if !match_lit(b, p5, l_code()) {
                                None
                            } else {
                                match dec_str(b, p5 + l_code().len() as int) {
                                    None => None,
                                    Some((code, p7)) => if !match_lit(b, p7, l_end()) {
                                        None
                                    } else {
                                        Some(
                                            (
                                                DraftV { description, language, tags, code },
                                                p7 + l_end().len() as int,
                                            ),
                                        )
                                    },
                                }
                            },
                        }
                    },
                }
            },
        }
    }
}

/// A whole export: the objects back to back, one per line.
pub open spec fn spec_enc_records(ds: Seq<DraftV>) -> Seq<u8>
    decreases ds.len(),
{
    if ds.len() == 0 {
        Seq::empty()
    } else {
        spec_enc_jrec(ds[0]) + spec_enc_records(ds.skip(1))
    }
}

/// The objects read back from `pos` to the end of the input.
pub open spec fn dec_jrecs(b: Seq<u8>, pos: int) -> Option<Seq<DraftV>>
    decreases b.len() - pos,
{
    if pos == b.len() {
        Some(Seq::empty())
    } else if 0 <= pos < b.len() {
        match dec_jrec(b, pos) {
            None => None,
            Some((d, p)) => if pos < p <= b.len() {
                match dec_jrecs(b, p) {
                    None => None,
                    Some(ds) => Some(seq![d] + ds),
                }
            } else {
                None
            },
        }
    } else {
        None
    }
}

/// The records read back from an export, if the bytes parse exactly.
#[verifier::opaque]
pub open spec fn spec_dec_records(b: Seq<u8>) -> Option<Seq<DraftV>> {
    dec_jrecs(b, 0)
}

/// Parsing one emitted object gives back its fields.
#[verifier::rlimit(100)]
pub proof fn lemma_dec_jrec_enc(b: Seq<u8>, pos: int, d: DraftV)
    requires
        0 <= pos,
        pos + spec_enc_jrec(d).len() <= b.len(),
        b.subrange(pos, pos + spec_enc_jrec(d).len() as int) == spec_enc_jrec(d),
    ensures
        dec_jrec(b, pos) == Some((d, pos + spec_enc_jrec(d).len() as int)),
{
    let ln: int = spec_enc_jrec(d).len() as int;
    let whole = b.subrange(pos, pos + ln);
    let o0: int = l_desc().len() as int;
    let o1: int = o0 + enc_str(d.description).len() as int;
    let o2: int = o1 + l_lang().len() as int;
    let o3: int = o2 + enc_str(d.language).len() as int;
    let o4: int = o3 + l_tags().len() as int;
    let o5: int = o4 + enc_jtags(d.tags).len() as int;
    let o6: int = o5 + l_code().len() as int;
    let o7: int = o6 + enc_str(d.code).len() as int;
    assert(whole.len() == o7 + l_end().len());
    assert(b.subrange(pos, pos + o0) =~= whole.subrange(0, o0));
    assert(whole.subrange(0, o0) =~= l_desc());
    assert(b.subrange(pos + o0, pos + o1) =~= whole.subrange(o0, o1));
    assert(whole.subrange(o0, o1) =~= enc_str(d.description));
    lemma_dec_str_enc(b, pos + o0, d.description);
    assert(b.subrange(pos + o1, pos + o2) =~= whole.subrange(o1, o2));
    assert(whole.subrange(o1, o2) =~= l_lang());
    assert(b.subrange(pos + o2, pos + o3) =~= whole.subrange(o2, o3));
    assert(whole.subrange(o2, o3) =~= enc_str(d.language));
    lemma_dec_str_enc(b, pos + o2, d.language);
    assert(b.subrange(pos + o3, pos + o4) =~= whole.subrange(o3, o4));
    assert(whole.subrange(o3, o4) =~= l_tags());
    assert(b.subrange(pos + o4, pos + o5) =~= whole.subrange(o4, o5));
    assert(whole.subrange(o4, o5) =~= enc_jtags(d.tags));
    assert(b[pos + o5] == whole[o5]);
    assert(whole[o5] == l_code()[0]);
    lemma_dec_jtags_enc(b, pos + o4, d.tags);
    assert(b.subrange(pos + o5, pos + o6) =~= whole.subrange(o5, o6));
    assert(whole.subrange(o5, o6) =~= l_code());
    assert(b.subrange(pos + o6, pos + o7) =~= whole.subrange(o6, o7));
    assert(whole.subrange(o6, o7) =~= enc_str(d.code));
    lemma_dec_str_enc(b, pos + o6, d.code);
    assert(b.subrange(pos + o7, pos + ln) =~= whole.subrange(o7, ln));
    assert(whole.subrange(o7, ln) =~= l_end());
}

/// Parsing an emitted suffix gives back its record list.
proof fn lemma_dec_jrecs_enc(b: Seq<u8>, pos: int, ds: Seq<DraftV>)
    requires
        0 <= pos <= b.len(),
        b.subrange(pos, b.len() as int) == spec_enc_records(ds),
    ensures
        dec_jrecs(b, pos) == Some(ds),
    decreases ds.len(),
{
    let suffix = b.subrange(pos, b.len() as int);
    if ds.len() == 0 {
        assert(pos == b.len());
        assert(Seq::<DraftV>::empty() =~= ds);
    } else {
        let rest = ds.skip(1);
        let l1: int = spec_enc_jrec(ds[0]).len() as int;
        assert(suffix.len() == l1 + spec_enc_records(rest).len());
        assert(b.subrange(pos, pos + l1) =~= suffix.subrange(0, l1));
        assert(suffix.subrange(0, l1) =~= spec_enc_jrec(ds[0]));
        lemma_dec_jrec_enc(b, pos, ds[0]);
        let p: int = pos + l1;
        assert(l_desc().len() > 0);
        assert(l1 > 0);
        assert(b.subrange(p, b.len() as int) =~= suffix.subrange(l1, suffix.len() as int));
        assert(suffix.subrange(l1, suffix.len() as int) =~= spec_enc_records(rest));
        lemma_dec_jrecs_enc(b, p, rest);
        assert(seq![ds[0]] + rest =~= ds);
    }
}

/// Reading an export back yields exactly the drafts written, for every
/// record list: the bulk boundary loses nothing but identifiers and
/// timestamps, which it never carries.
pub proof fn lemma_records_roundtrip(ds: Seq<DraftV>)
    ensures
        spec_dec_records(spec_enc_records(ds)) == Some(ds),
{
    reveal(spec_dec_records);
    let b = spec_enc_records(ds);
    assert(b.subrange(0, b.len() as int) =~= b);
    lemma_dec_jrecs_enc(b, 0, ds);
}

/// Appends the bytes of a framing literal.
fn push_lit(v: &mut Vec<u8>, which: u8)
    requires
        1 <= which <= 5,
    ensures
        which == 1 ==> final (v)@ == old(v)@ + l_desc(),
        which == 2 ==> final (v)@ == old(v)@ + l_lang(),
        which == 3 ==> final (v)@ == old(v)@ + l_tags(),
        which == 4 ==> final (v)@ == old(v)@ + l_code(),
        which == 5 ==> final (v)@ == old(v)@ + l_end(),
{
    if which == 1 {
        v.push(123);
        v.push(34);
        v.push(100);
        v.push(101);
        v.push(115);
        v.push(99);
        v.push(114);
        v.push(105);
        v.push(112);
        v.push(116);
        v.push(105);
        v.push(111);
        v.push(110);
        v.push(34);
        v.push(58);
        v.push(34);
        proof {
            assert(v@ =~= old(v)@ + l_desc());
        }
    } else if which == 2 {
        v.push(44);
        v.push(34);
        v.push(108);
        v.push(97);
        v.push(110);
        v.push(103);
        v.push(117);
        v.push(97);
        v.push(103);
        v.push(101);
        v.push(34);
        v.push(58);
        v.push(34);
        proof {
            assert(v@ =~= old(v)@ + l_lang());
        }
    } else if which == 3 {
        v.push(44);
        v.push(34);
        v.push(116);
        v.push(97);
        v.push(103);
        v.push(115);
        v.push(34);
        v.push(58);
        v.push(91);
        proof {
            assert(v@ =~= old(v)@ + l_tags());
        }
    } else if which == 4 {
        v.push(93);
        v.push(44);
        v.push(34);
        v.push(99);
        v.push(111);
        v.push(100);
        v.push(101);
        v.push(34);
        v.push(58);
        v.push(34);
        proof {
            assert(v@ =~= old(v)@ + l_code());
        }
    } else {
        v.push(125);
        v.push(10);
        proof {
            assert(v@ =~= old(v)@ + l_end());
        }
    }
}

/// The bytes of a framing literal, for matching.
fn lit_vec(which: u8) -> (r: Vec<u8>)
    requires
        1 <= which <= 5,
    ensures
        which == 1 ==> r@ == l_desc(),
        which == 2 ==> r@ == l_lang(),
        which == 3 ==> r@ == l_tags(),
        which == 4 ==> r@ == l_code(),
        which == 5 ==> r@ == l_end(),
{
    let mut v: Vec<u8> = Vec::new();
    proof {
        assert(v@ =~= Seq::<u8>::empty() + v@);
    }
    push_lit(&mut v, which);
    proof {
        assert(Seq::<u8>::empty() + l_desc() =~= l_desc());
        assert(Seq::<u8>::empty() + l_lang() =~= l_lang());
        assert(Seq::<u8>::empty() + l_tags() =~= l_tags());
        assert(Seq::<u8>::empty() + l_code() =~= l_code());
        assert(Seq::<u8>::empty() + l_end() =~= l_end());
    }
    v
}

/// Whether the literal stands at `pos`; yields the position just past it.
fn expect_lit(b: &Vec<u8>, pos: usize, lit: &Vec<u8>) -> (r: Option<usize>)
    ensures
        match_lit(b@, pos as int, lit@) ==> (r matches Some(p) && p as int == pos as int
            + lit@.len()),
        !match_lit(b@, pos as int, lit@) ==> r is None,
{
    if pos > b.len() || b.len() - pos < lit.len() {
        return None;
    }
    let mut i: usize = 0;
    while i < lit.len()
        invariant
            0 <= i <= lit@.len(),
            pos + lit@.len() <= b@.len(),
            b@.len() == b.len(),
            forall|j: int| 0 <= j < i ==> b@[pos + j] == lit@[j],
        decreases lit@.len() - i,
    {
        if b[pos + i] != lit[i] {
            proof {
                assert(b@.subrange(pos as int, pos as int + lit@.len() as int)[i as int]
                    != lit@[i as int]);
            }
            return None;
        }
        i = i + 1;
    }
    proof {
        assert(b@.subrange(pos as int, pos as int + lit@.len() as int) =~= lit@);
    }
    Some(pos + lit.len())
}

/// The byte an escape stands for; mirrors [`unesc1`].
fn unescape_byte(c: u8) -> (r: u8)
    ensures
        r == unesc1(c),
{
    if c == 110 {
        10
    } else if c == 114 {
        13
    } else if c == 116 {
        9
    } else {
        c
    }
}

/// Appends a string's escaped content and its closing quote.
fn write_str(v: &mut Vec<u8>, s: &Vec<u8>)
    ensures
        final (v)@ == old(v)@ + enc_str(s@),
{
    proof {
        assert(s@.skip(0) =~= s@);
    }
    let mut i: usize = 0;
    while i < s.len()
        invariant
            0 <= i <= s@.len(),
            v@ + esc(s@.skip(i as int)) == old(v)@ + esc(s@),
        decreases s@.len() - i,
    {
        let ghost rest = s@.skip(i as int);
        proof {
            assert(rest.len() > 0);
            assert(rest[0] == s@[i as int]);
            assert(rest.skip(1) =~= s@.skip(i as int + 1));
        }
        let c = s[i];
        if c == 34 {
            v.push(92);
            v.push(34);
        } else if c == 92 {
            v.push(92);
            v.push(92);
        } else if c == 10 {
            v.push(92);
            v.push(110);
        } else if c == 13 {
            v.push(92);
            v.push(114);
        } else if c == 9 {
            v.push(92);
            v.push(116);
        } else {
            v.push(c);
        }
        proof {
            assert(v@ + esc(s@.skip(i as int + 1)) =~= old(v)@ + esc(s@));
        }
        i = i + 1;
    }
    v.push(34);
    proof {
        assert(esc(s@.skip(s@.len() as int)) =~= Seq::<u8>::empty());
        assert(v@ =~= old(v)@ + enc_str(s@));
    }
}

/// Appends a tag array's contents.
fn write_jtags(v: &mut Vec<u8>, ts: &Vec<Vec<u8>>)
    ensures
        final (v)@ == old(v)@ + enc_jtags(Seq::new(ts@.len(), |i: int| ts@[i]@)),
{
    let ghost tv = Seq::new(ts@.len(), |i: int| ts@[i]@);
    if ts.len() == 0 {
        proof {
            assert(v@ =~= old(v)@ + enc_jtags(tv));
        }
        return ;
    }
    v.push(34);
    write_str(v, &ts[0]);
    let ghost pre = old(v)@ + seq![34u8] + enc_str(tv[0]);
    proof {
        assert(v@ =~= pre);
        assert(tv.skip(1).skip(0) =~= tv.skip(1));
    }
    let mut k: usize = 1;
    while k < ts.len()
        invariant
            1 <= k <= ts@.len(),
            tv == Seq::new(ts@.len(), |i: int| ts@[i]@),
            tv.len() == ts@.len(),
            v@ + enc_jtags_rest(tv.skip(k as int)) == pre + enc_jtags_rest(tv.skip(1)),
        decreases ts@.len() - k,
    {
        let ghost rest = tv.skip(k as int);
        proof {
            assert(rest.len() > 0);
            assert(rest[0] == tv[k as int]);
            assert(rest.skip(1) =~= tv.skip(k as int + 1));
        }
        v.push(44);
        v.push(34);
        write_str(v, &ts[k]);
        proof {
            assert(v@ + enc_jtags_rest(tv.skip(k as int + 1)) =~= pre + enc_jtags_rest(
                tv.skip(1),
            ));
        }
        k = k + 1;
    }
    proof {
        assert(enc_jtags_rest(tv.skip(tv.len() as int)) =~= Seq::<u8>::empty());
        assert(v@ =~= pre + enc_jtags_rest(tv.skip(1)));
        assert(v@ =~= old(v)@ + enc_jtags(tv));
    }
}

/// Reads string content through its closing quote; mirrors [`dec_str`].
fn read_str(b: &Vec<u8>, pos: usize) -> (r: Option<(Vec<u8>, usize)>)
    ensures
        (match dec_str(b@, pos as int) {
            Some(p) => r matches Some(q) && q.0@ == p.0 && q.1 as int == p.1,
            None => r is None,
        }),
{
    let mut out: Vec<u8> = Vec::new();
    let mut cur: usize = pos;
    proof {
        assert(out@ + Seq::<u8>::empty() =~= out@);
    }
    while cur < b.len()
        invariant
            pos <= cur,
            b@.len() == b.len(),
            (dec_str(b@, pos as int) == (match dec_str(b@, cur as int) {
                None => None::<(Seq<u8>, int)>,
                Some((s, p)) => Some((out@ + s, p)),
            })),
        decreases b@.len() - cur,
    {
        let ghost acc = out@;
        let c = b[cur];
        if c == 34 {
            proof {
                assert(dec_str(b@, cur as int) == Some((Seq::<u8>::empty(), cur as int + 1)));
                assert(acc + Seq::<u8>::empty() =~= acc);
            }
            return Some((out, cur + 1));
        }
        if c == 92 {
            if b.len() - cur < 2 {
                proof {
                    assert(dec_str(b@, cur as int) is None);
                }
                return None;
            }
            let u = unescape_byte(b[cur + 1]);
            out.push(u);
            proof {
                match dec_str(b@, cur as int + 2) {
                    None => {
                        assert(dec_str(b@, cur as int) is None);
                    },
                    Some((s2, p2)) => {
                        assert(dec_str(b@, cur as int) == Some((seq![u] + s2, p2)));
                        assert(acc + (seq![u] + s2) =~= (acc.push(u)) + s2);
                        assert(out@ =~= acc.push(u));
                    },
                }
            }
            cur = cur + 2;
        } else {
            out.push(c);
            proof {
                match dec_str(b@, cur as int + 1) {
                    None => {
                        assert(dec_str(b@, cur as int) is None);
                    },
                    Some((s2, p2)) => {
                        assert(dec_str(b@, cur as int) == Some((seq![c] + s2, p2)));
                        assert(acc + (seq![c] + s2) =~= (acc.push(c)) + s2);
                        assert(out@ =~= acc.push(c));
                    },
                }
            }
            cur = cur + 1;
        }
    }
    proof {
        assert(dec_str(b@, cur as int) is None);
    }
    None
}

/// Reads a tag array's contents; mirrors [`dec_jtags`].
fn read_jtags(b: &Vec<u8>, pos: usize) -> (r: Option<(Vec<Vec<u8>>, usize)>)
    ensures
        (match dec_jtags(b@, pos as int) {
            Some(p) => r matches Some(q) && Seq::new(q.0@.len(), |i: int| q.0@[i]@) == p.0
                && q.1 as int == p.1,
            None => r is None,
        }),
{
    if pos >= b.len() {
        return None;
    }
    let c0 = b[pos];
    if c0 == 93 {
        let out: Vec<Vec<u8>> = Vec::new();
        proof {
            assert(Seq::new(out@.len(), |i: int| out@[i]@) =~= Seq::<Seq<u8>>::empty());
        }
        return Some((out, pos));
    }
    if c0 != 34 {
        return None;
    }
    let (first, p1) = match read_str(b, pos + 1) {
        Some(x) => x,
        None => {
            return None;
        },
    };
    if !(p1 > pos && p1 <= b.len()) {
        return None;
    }
    let mut out: Vec<Vec<u8>> = Vec::new();
    let ghost firstv = first@;
    out.push(first);
    let mut cur: usize = p1;
    proof {
        assert(Seq::new(out@.len(), |i: int| out@[i]@) =~= seq![firstv]);
    }
    while cur < b.len()
        invariant
            pos < cur,
            cur <= b@.len(),
            b@.len() == b.len(),
            (dec_jtags(b@, pos as int) == (match dec_jtags_rest(b@, cur as int) {
                None => None::<(Seq<Seq<u8>>, int)>,
                Some((ts, p)) => Some((Seq::new(out@.len(), |i: int| out@[i]@) + ts, p)),
            })),
        decreases b@.len() - cur,
    {
        let ghost acc = Seq::new(out@.len(), |i: int| out@[i]@);
        let c = b[cur];
        if c == 93 {
            proof {
                assert(dec_jtags_rest(b@, cur as int) == Some(
                    (Seq::<Seq<u8>>::empty(), cur as int),
                ));
                assert(acc + Seq::<Seq<u8>>::empty() =~= acc);
            }
            return Some((out, cur));
        }
        if c != 44 || b.len() - cur < 2 {
            proof {
                assert(dec_jtags_rest(b@, cur as int) is None);
            }
            return None;
        }
        if b[cur + 1] != 34 {
            proof {
                assert(dec_jtags_rest(b@, cur as int) is None);
            }
            return None;
        }
        let (t, p2) = match read_str(b, cur + 2) {
            Some(x) => x,
            None => {
                proof {
                    assert(dec_jtags_rest(b@, cur as int) is None);
                }
                return None;
            },
        };
        if !(p2 > cur && p2 <= b.len()) {
            proof {
                assert(dec_jtags_rest(b@, cur as int) is None);
            }
            return None;
        }
        let ghost tv = t@;
        out.push(t);
        proof {
            assert(Seq::new(out@.len(), |i: int| out@[i]@) =~= acc.push(tv));
            match dec_jtags_rest(b@, p2 as int) {
                None => {
                    assert(dec_jtags_rest(b@, cur as int) is None);
                },
                Some((ts2, pp)) => {
                    assert(dec_jtags_rest(b@, cur as int) == Some((seq![tv] + ts2, pp)));
                    assert(acc + (seq![tv] + ts2) =~= acc.push(tv) + ts2);
                },
            }
        }
        cur = p2;
    }
    proof {
        assert(dec_jtags_rest(b@, cur as int) is None);
    }
    None
}

/// Reads one object; mirrors [`dec_jrec`].
fn read_jrec(b: &Vec<u8>, pos: usize) -> (r: Option<(Draft, usize)>)
    ensures
        (match dec_jrec(b@, pos as int) {
            Some(p) => r matches Some(q) && q.0@ == p.0 && q.1 as int == p.1,
            None => r is None,
        }),
{
    let ld = lit_vec(1);
    let p0 = match expect_lit(b, pos, &ld) {
        Some(p) => p,
        None => {
            return None;
        },
    };
    let (description, p1) = match read_str(b, p0) {
        Some(x) => x,
        None => {
            return None;
        },
    };
    let ll = lit_vec(2);
    let p2 = match expect_lit(b, p1, &ll) {
        Some(p) => p,
        None => {
            return None;
        },
    };
    let (language, p3) = match read_str(b, p2) {
        Some(x) => x,
        None => {
            return None;
        },
    };
    let lt = lit_vec(3);
    let p4 = match expect_lit(b, p3, &lt) {
        Some(p) => p,
        None => {
            return None;
        },
    };
    let (tags, p5) = match read_jtags(b, p4) {
        Some(x) => x,
        None => {
            return None;
        },
    };
    let lc = lit_vec(4);
    let p6 = match expect_lit(b, p5, &lc) {
        Some(p) => p,
        None => {
            return None;
        },
    };
    let (code, p7) = match read_str(b, p6) {
        Some(x) => x,
        None => {
            return None;
        },
    };
    let le = lit_vec(5);
    let p8 = match expect_lit(b, p7, &le) {
        Some(p) => p,
        None => {
            return None;
        },
    };
    Some((Draft { description, language, tags, code }, p8))
}

/// Encodes the exportable fields of a list of records; mirrors
/// [`spec_enc_records`] over their draft views.
pub fn encode_records(v: &Vec<Snippet>) -> (r: Vec<u8>)
    ensures
        r@ == spec_enc_records(
            Seq::new(snippets_view(v@).len(), |i: int| draft_of(snippets_view(v@)[i])),
        ),
{
    let ghost ds = Seq::new(snippets_view(v@).len(), |i: int| draft_of(snippets_view(v@)[i]));
    let mut out: Vec<u8> = Vec::new();
    proof {
        assert(ds.skip(0) =~= ds);
        assert(out@ + spec_enc_records(ds) =~= spec_enc_records(ds));
    }
    let mut k: usize = 0;
    while k < v.len()
        invariant
            0 <= k <= v@.len(),
            ds == Seq::new(snippets_view(v@).len(), |i: int| draft_of(snippets_view(v@)[i])),
            ds.len() == v@.len(),
            out@ + spec_enc_records(ds.skip(k as int)) == spec_enc_records(ds),
        decreases v@.len() - k,
    {
        let ghost rest = ds.skip(k as int);
        let ghost pre = out@;
        proof {
            assert(rest.len() > 0);
            assert(rest[0] == ds[k as int]);
            assert(rest.skip(1) =~= ds.skip(k as int + 1));
            assert(ds[k as int] == draft_of(v@[k as int]@));
        }
        push_lit(&mut out, 1);
        write_str(&mut out, &v[k].description);
        push_lit(&mut out, 2);
        write_str(&mut out, &v[k].language);
        push_lit(&mut out, 3);
        write_jtags(&mut out, &v[k].tags);
        push_lit(&mut out, 4);
        write_str(&mut out, &v[k].code);
        push_lit(&mut out, 5);
        proof {
            assert(Seq::new(v[k as int].tags@.len(), |i: int| v[k as int].tags@[i]@)
                == ds[k as int].tags);
            assert(out@ =~= pre + spec_enc_jrec(ds[k as int]));
            assert(out@ + spec_enc_records(ds.skip(k as int + 1)) =~= spec_enc_records(ds));
        }
        k = k + 1;
    }
    proof {
        assert(spec_enc_records(ds.skip(ds.len() as int)) =~= Seq::<u8>::empty());
        assert(out@ + spec_enc_records(ds.skip(ds.len() as int)) =~= out@);
    }
    out
}

/// Decodes an export; mirrors [`spec_dec_records`].
pub fn decode_records(b: &Vec<u8>) -> (r: Option<Vec<Draft>>)
    ensures
        (match spec_dec_records(b@) {
            Some(ds) => r matches Some(v) && drafts_view(v@) == ds,
            None => r is None,
        }),
{
    proof {
        reveal(spec_dec_records);
    }
    let mut out: Vec<Draft> = Vec::new();
    let mut cur: usize = 0;
    proof {
        assert(drafts_view(out@) + Seq::<DraftV>::empty() =~= drafts_view(out@));
        assert(drafts_view(out@) =~= Seq::<DraftV>::empty());
    }
    while cur < b.len()
        invariant
            0 <= cur <= b@.len(),
            b@.len() == b.len(),
            (dec_jrecs(b@, 0) == (match dec_jrecs(b@, cur as int) {
                None => None::<Seq<DraftV>>,
                Some(ds) => Some(drafts_view(out@) + ds),
            })),
        decreases b@.len() - cur,
    {
        let ghost acc = drafts_view(out@);
        match read_jrec(b, cur) {
            None => {
                proof {
                    reveal(spec_dec_records);
                    assert(dec_jrecs(b@, cur as int) is None);
                }
                return None;
            },
            Some((d, p)) => {
                if !(p > cur && p <= b.len()) {
                    proof {
                        reveal(spec_dec_records);
                        assert(dec_jrecs(b@, cur as int) is None);
                    }
                    return None;
                }
                let ghost dv = d@;
                out.push(d);
                proof {
                    assert(drafts_view(out@) =~= acc.push(dv));
                    match dec_jrecs(b@, p as int) {
                        None => {
                            assert(dec_jrecs(b@, cur as int) is None);
                        },
                        Some(ds2) => {
                            assert(dec_jrecs(b@, cur as int) == Some(seq![dv] + ds2));
                            assert(acc + (seq![dv] + ds2) =~= acc.push(dv) + ds2);
                        },
                    }
                }
                cur = p;
            },
        }
    }
    proof {
        assert(dec_jrecs(b@, cur as int) == Some(Seq::<DraftV>::empty()));
        assert(drafts_view(out@) + Seq::<DraftV>::empty() =~= drafts_view(out@));
    }
    Some(out)
}

} // verus!
