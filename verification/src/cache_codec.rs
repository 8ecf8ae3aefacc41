use vstd::prelude::*;

use crate::text::{chars_to_string, lemma_char_code_inj, lemma_dv_index_str, to_char_vec};
use crate::types::{index_view, HasteMap, RecordView, SourceFile};

verus! {

// ---------------------------------------------------------------------------
// The binary chunk format: little-endian length-prefixed records.
//
// chunk   := count:u64 record{count}
// record  := string count:u64 string{count}
// string  := length:u64 char{length}
// char    := code point as u32
// ---------------------------------------------------------------------------
pub open spec fn enc_u64(v: u64) -> Seq<u8> {
    seq![
        (v & 0xff) as u8,
        ((v >> 8) & 0xff) as u8,
        ((v >> 16) & 0xff) as u8,
        ((v >> 24) & 0xff) as u8,
        ((v >> 32) & 0xff) as u8,
        ((v >> 40) & 0xff) as u8,
        ((v >> 48) & 0xff) as u8,
        ((v >> 56) & 0xff) as u8,
    ]
}

pub open spec fn enc_u32(v: u32) -> Seq<u8> {
    seq![(v & 0xff) as u8, ((v >> 8) & 0xff) as u8, ((v >> 16) & 0xff) as u8, ((v >> 24)
        & 0xff) as u8]
}

pub open spec fn dec8(b: Seq<u8>) -> u64
    recommends
        b.len() >= 8,
{
    (b[0] as u64) | ((b[1] as u64) << 8) | ((b[2] as u64) << 16) | ((b[3] as u64) << 24) | ((
    b[4] as u64) << 32) | ((b[5] as u64) << 40) | ((b[6] as u64) << 48) | ((b[7] as u64) << 56)
}

pub open spec fn dec4(b: Seq<u8>) -> u32
    recommends
        b.len() >= 4,
{
    (b[0] as u32) | ((b[1] as u32) << 8) | ((b[2] as u32) << 16) | ((b[3] as u32) << 24)
}

pub open spec fn dec_u64(b: Seq<u8>) -> Option<(u64, Seq<u8>)> {
    if b.len() >= 8 {
        Some((dec8(b), b.skip(8)))
    } else {
        None
    }
}

pub open spec fn dec_u32(b: Seq<u8>) -> Option<(u32, Seq<u8>)> {
    if b.len() >= 4 {
        Some((dec4(b), b.skip(4)))
    } else {
        None
    }
}

/// A code point decodes to the character holding it, if one exists.
pub open spec fn dec_char(b: Seq<u8>) -> Option<(char, Seq<u8>)> {
    match dec_u32(b) {
        Some(r) => if exists|c: char| (#[trigger] (c as u32)) == r.0 {
            Some(((choose|c: char| (#[trigger] (c as u32)) == r.0), r.1))
        } else {
            None
        },
        None => None,
    }
}

pub open spec fn enc_chars(s: Seq<char>) -> Seq<u8>
    decreases s.len(),
{
    if s.len() == 0 {
        Seq::empty()
    } else {
        enc_u32(s[0] as u32) + enc_chars(s.drop_first())
    }
}

pub open spec fn dec_chars(b: Seq<u8>, n: nat) -> Option<(Seq<char>, Seq<u8>)>
    decreases n,
{
    if n == 0 {
        Some((Seq::empty(), b))
    } else {
        match dec_char(b) {
            Some(r) => match dec_chars(r.1, (n - 1) as nat) {
                Some(r2) => Some((seq![r.0] + r2.0, r2.1)),
                None => None,
            },
            None => None,
        }
    }
}

pub open spec fn enc_string(s: Seq<char>) -> Seq<u8> {
    enc_u64(s.len() as u64) + enc_chars(s)
}

pub open spec fn dec_string(b: Seq<u8>) -> Option<(Seq<char>, Seq<u8>)> {
    match dec_u64(b) {
        Some(r) => dec_chars(r.1, r.0 as nat),
        None => None,
    }
}

pub open spec fn enc_strings(l: Seq<Seq<char>>) -> Seq<u8>
    decreases l.len(),
{
    if l.len() == 0 {
        Seq::empty()
    } else {
        enc_string(l[0]) + enc_strings(l.drop_first())
    }
}

pub open spec fn dec_strings(b: Seq<u8>, n: nat) -> Option<(Seq<Seq<char>>, Seq<u8>)>
    decreases n,
{
    if n == 0 {
        Some((Seq::empty(), b))
    } else {
        match dec_string(b) {
            Some(r) => match dec_strings(r.1, (n - 1) as nat) {
                Some(r2) => Some((seq![r.0] + r2.0, r2.1)),
                None => None,
            },
            None => None,
        }
    }
}

pub open spec fn enc_record(r: RecordView) -> Seq<u8> {
    enc_string(r.0) + enc_u64(r.1.len() as u64) + enc_strings(r.1)
}

pub open spec fn dec_record(b: Seq<u8>) -> Option<(RecordView, Seq<u8>)> {
    match dec_string(b) {
        Some(r1) => match dec_u64(r1.1) {
            Some(r2) => match dec_strings(r2.1, r2.0 as nat) {
                Some(r3) => Some(((r1.0, r3.0), r3.1)),
                None => None,
            },
            None => None,
        },
        None => None,
    }
}

pub open spec fn enc_records(rs: Seq<RecordView>) -> Seq<u8>
    decreases rs.len(),
{
    if rs.len() == 0 {
        Seq::empty()
    } else {
        enc_record(rs[0]) + enc_records(rs.drop_first())
    }
}

pub open spec fn dec_records(b: Seq<u8>, n: nat) -> Option<(Seq<RecordView>, Seq<u8>)>
    decreases n,
{
    if n == 0 {
        Some((Seq::empty(), b))
    } else {
        match dec_record(b) {
            Some(r) => match dec_records(r.1, (n - 1) as nat) {
                Some(r2) => Some((seq![r.0] + r2.0, r2.1)),
                None => None,
            },
            None => None,
        }
    }
}

/// One chunk of the cache: a record count, then that many records. Trailing
/// bytes are rejected when decoding.
pub open spec fn encode_chunk_spec(rs: Seq<RecordView>) -> Seq<u8> {
    enc_u64(rs.len() as u64) + enc_records(rs)
}

pub open spec fn decode_chunk_spec(b: Seq<u8>) -> Option<Seq<RecordView>> {
    match dec_u64(b) {
        Some(r) => match dec_records(r.1, r.0 as nat) {
            Some(r2) => if r2.1.len() == 0 {
                Some(r2.0)
            } else {
                None
            },
            None => None,
        },
        None => None,
    }
}

/// All counts of the record fit the length prefixes of the format.
pub open spec fn record_fits(r: RecordView) -> bool {
    &&& r.0.len() < 0x10000000000000000
    &&& r.1.len() < 0x10000000000000000
    &&& forall|i: int| 0 <= i < r.1.len() ==> (#[trigger] r.1[i]).len() < 0x10000000000000000
}

pub open spec fn index_fits(rs: Seq<RecordView>) -> bool {
    &&& rs.len() < 0x10000000000000000
    &&& forall|i: int| 0 <= i < rs.len() ==> record_fits(#[trigger] rs[i])
}

// ---------------------------------------------------------------------------
// Round trip: decoding an encoded chunk gives back the records
// ---------------------------------------------------------------------------
proof fn lemma_u64_round(v: u64, rest: Seq<u8>)
    ensures
        dec_u64(enc_u64(v) + rest) == Some((v, rest)),
{
    let b = enc_u64(v) + rest;
    assert(b.len() >= 8);
    assert(b[0] == (v & 0xff) as u8);
    assert(b[1] == ((v >> 8) & 0xff) as u8);
    assert(b[2] == ((v >> 16) & 0xff) as u8);
    assert(b[3] == ((v >> 24) & 0xff) as u8);
    assert(b[4] == ((v >> 32) & 0xff) as u8);
    assert(b[5] == ((v >> 40) & 0xff) as u8);
    assert(b[6] == ((v >> 48) & 0xff) as u8);
    assert(b[7] == ((v >> 56) & 0xff) as u8);
    assert((((v & 0xff) as u8) as u64) | (((((v >> 8) & 0xff) as u8) as u64) << 8) | (((((v >> 16)
        & 0xff) as u8) as u64) << 16) | (((((v >> 24) & 0xff) as u8) as u64) << 24) | (((((v >> 32)
        & 0xff) as u8) as u64) << 32) | (((((v >> 40) & 0xff) as u8) as u64) << 40) | (((((v >> 48)
        & 0xff) as u8) as u64) << 48) | (((((v >> 56) & 0xff) as u8) as u64) << 56) == v)
        by (bit_vector);
    assert(dec8(b) == v);
    assert(b.skip(8) =~= rest);
}

proof fn lemma_u32_round(v: u32, rest: Seq<u8>)
    ensures
        dec_u32(enc_u32(v) + rest) == Some((v, rest)),
{
    let b = enc_u32(v) + rest;
    assert(b.len() >= 4);
    assert(b[0] == (v & 0xff) as u8);
    assert(b[1] == ((v >> 8) & 0xff) as u8);
    assert(b[2] == ((v >> 16) & 0xff) as u8);
    assert(b[3] == ((v >> 24) & 0xff) as u8);
    assert((((v & 0xff) as u8) as u32) | (((((v >> 8) & 0xff) as u8) as u32) << 8) | (((((v >> 16)
        & 0xff) as u8) as u32) << 16) | (((((v >> 24) & 0xff) as u8) as u32) << 24) == v)
        by (bit_vector);
    assert(dec4(b) == v);
    assert(b.skip(4) =~= rest);
}

proof fn lemma_char_round(c: char, rest: Seq<u8>)
    ensures
        dec_char(enc_u32(c as u32) + rest) == Some((c, rest)),
{
    lemma_u32_round(c as u32, rest);
    assert(exists|x: char| (#[trigger] (x as u32)) == c as u32) by {
        assert((c as u32) == c as u32);
    }
    let chosen = choose|x: char| (#[trigger] (x as u32)) == c as u32;
    lemma_char_code_inj(chosen, c);
}

proof fn lemma_chars_round(s: Seq<char>, rest: Seq<u8>)
    ensures
        dec_chars(enc_chars(s) + rest, s.len()) == Some((s, rest)),
    decreases s.len(),
{
    if s.len() == 0 {
        assert(enc_chars(s) + rest =~= rest);
    } else {
        assert(enc_chars(s) + rest =~= enc_u32(s[0] as u32) + (enc_chars(s.drop_first()) + rest));
        lemma_char_round(s[0], enc_chars(s.drop_first()) + rest);
        lemma_chars_round(s.drop_first(), rest);
        assert(seq![s[0]] + s.drop_first() =~= s);
    }
}

proof fn lemma_string_round(s: Seq<char>, rest: Seq<u8>)
    requires
        s.len() < 0x10000000000000000,
    ensures
        dec_string(enc_string(s) + rest) == Some((s, rest)),
{
    assert(enc_string(s) + rest =~= enc_u64(s.len() as u64) + (enc_chars(s) + rest));
    lemma_u64_round(s.len() as u64, enc_chars(s) + rest);
    assert((s.len() as u64) as nat == s.len());
    lemma_chars_round(s, rest);
}

proof fn lemma_strings_round(l: Seq<Seq<char>>, rest: Seq<u8>)
    requires
        forall|i: int| 0 <= i < l.len() ==> (#[trigger] l[i]).len() < 0x10000000000000000,
    ensures
        dec_strings(enc_strings(l) + rest, l.len()) == Some((l, rest)),
    decreases l.len(),
{
    if l.len() == 0 {
        assert(enc_strings(l) + rest =~= rest);
    } else {
        assert(enc_strings(l) + rest =~= enc_string(l[0]) + (enc_strings(l.drop_first()) + rest));
        lemma_string_round(l[0], enc_strings(l.drop_first()) + rest);
        lemma_strings_round(l.drop_first(), rest);
        assert(seq![l[0]] + l.drop_first() =~= l);
    }
}

proof fn lemma_record_round(r: RecordView, rest: Seq<u8>)
    requires
        record_fits(r),
    ensures
        dec_record(enc_record(r) + rest) == Some((r, rest)),
{
    let mid = enc_u64(r.1.len() as u64) + (enc_strings(r.1) + rest);
    assert(enc_record(r) + rest =~= enc_string(r.0) + mid);
    lemma_string_round(r.0, mid);
    lemma_u64_round(r.1.len() as u64, enc_strings(r.1) + rest);
    assert((r.1.len() as u64) as nat == r.1.len());
    lemma_strings_round(r.1, rest);
}

proof fn lemma_records_round(rs: Seq<RecordView>, rest: Seq<u8>)
    requires
        forall|i: int| 0 <= i < rs.len() ==> record_fits(#[trigger] rs[i]),
    ensures
        dec_records(enc_records(rs) + rest, rs.len()) == Some((rs, rest)),
    decreases rs.len(),
{
    if rs.len() == 0 {
        assert(enc_records(rs) + rest =~= rest);
    } else {
        assert(enc_records(rs) + rest =~= enc_record(rs[0]) + (enc_records(rs.drop_first())
            + rest));
        lemma_record_round(rs[0], enc_records(rs.drop_first()) + rest);
        lemma_records_round(rs.drop_first(), rest);
        assert(seq![rs[0]] + rs.drop_first() =~= rs);
    }
}

// ---------------------------------------------------------------------------
// Executable encoder
// ---------------------------------------------------------------------------
fn push_u64(out: &mut Vec<u8>, v: u64)
    ensures
        final(out)@ == old(out)@ + enc_u64(v),
{
    proof {
        assert((v & 0xff) <= 0xff && ((v >> 8) & 0xff) <= 0xff && ((v >> 16) & 0xff) <= 0xff && ((v
            >> 24) & 0xff) <= 0xff && ((v >> 32) & 0xff) <= 0xff && ((v >> 40) & 0xff) <= 0xff && ((
        v >> 48) & 0xff) <= 0xff && ((v >> 56) & 0xff) <= 0xff) by (bit_vector);
    }
    out.push((v & 0xff) as u8);
    out.push(((v >> 8) & 0xff) as u8);
    out.push(((v >> 16) & 0xff) as u8);
    out.push(((v >> 24) & 0xff) as u8);
    out.push(((v >> 32) & 0xff) as u8);
    out.push(((v >> 40) & 0xff) as u8);
    out.push(((v >> 48) & 0xff) as u8);
    out.push(((v >> 56) & 0xff) as u8);
    proof {
        assert(out@ =~= old(out)@ + enc_u64(v));
    }
}

fn push_u32(out: &mut Vec<u8>, v: u32)
    ensures
        final(out)@ == old(out)@ + enc_u32(v),
{
    proof {
        assert((v & 0xff) <= 0xff && ((v >> 8) & 0xff) <= 0xff && ((v >> 16) & 0xff) <= 0xff && ((v
            >> 24) & 0xff) <= 0xff) by (bit_vector);
    }
    out.push((v & 0xff) as u8);
    out.push(((v >> 8) & 0xff) as u8);
    out.push(((v >> 16) & 0xff) as u8);
    out.push(((v >> 24) & 0xff) as u8);
    proof {
        assert(out@ =~= old(out)@ + enc_u32(v));
    }
}

fn push_chars(out: &mut Vec<u8>, s: &Vec<char>)
    ensures
        final(out)@ == old(out)@ + enc_chars(s@),
{
    let mut k: usize = 0;
    proof {
        assert(s@.skip(0) =~= s@);
    }
    while k < s.len()
        invariant
            k <= s@.len(),
            old(out)@ + enc_chars(s@) == out@ + enc_chars(s@.skip(k as int)),
        decreases s@.len() - k,
    {
        let ghost rem = s@.skip(k as int);
        proof {
            assert(rem[0] == s@[k as int]);
            assert(rem.drop_first() =~= s@.skip(k as int + 1));
        }
        let ghost out0 = out@;
        push_u32(out, s[k] as u32);
        proof {
            assert(out0 + (enc_u32(s@[k as int] as u32) + enc_chars(s@.skip(k as int + 1))) =~= out@
                + enc_chars(s@.skip(k as int + 1)));
        }
        k += 1;
    }
    proof {
        assert(s@.skip(s@.len() as int) =~= Seq::<char>::empty());
        assert(out@ + enc_chars(Seq::<char>::empty()) =~= out@);
    }
}

fn push_string(out: &mut Vec<u8>, s: &String)
    ensures
        final(out)@ == old(out)@ + enc_string(s@),
{
    let cv = to_char_vec(s.as_str());
    push_u64(out, cv.len() as u64);
    push_chars(out, &cv);
    proof {
        assert((cv@.len() as u64) as nat == s@.len());
        assert(old(out)@ + enc_u64(s@.len() as u64) + enc_chars(s@) =~= old(out)@ + enc_string(
            s@,
        ));
    }
}

fn push_record(out: &mut Vec<u8>, r: &SourceFile)
    ensures
        final(out)@ == old(out)@ + enc_record(r@),
{
    push_string(out, &r.path);
    push_u64(out, r.dependencies.len() as u64);
    let ghost hdr = out@;
    let ghost dv = r.dependencies.deep_view();
    let mut k: usize = 0;
    proof {
        assert(dv.len() == r.dependencies@.len());
        assert(dv.skip(0) =~= dv);
    }
    while k < r.dependencies.len()
        invariant
            k <= r.dependencies@.len(),
            dv == r.dependencies.deep_view(),
            dv.len() == r.dependencies@.len(),
            hdr + enc_strings(dv) == out@ + enc_strings(dv.skip(k as int)),
        decreases r.dependencies@.len() - k,
    {
        let ghost rem = dv.skip(k as int);
        proof {
            lemma_dv_index_str(r.dependencies, k as int);
            assert(rem[0] == dv[k as int]);
            assert(rem.drop_first() =~= dv.skip(k as int + 1));
        }
        let ghost out0 = out@;
        push_string(out, &r.dependencies[k]);
        proof {
            assert(out0 + (enc_string(dv[k as int]) + enc_strings(dv.skip(k as int + 1))) =~= out@
                + enc_strings(dv.skip(k as int + 1)));
        }
        k += 1;
    }
    proof {
        assert(dv.skip(dv.len() as int) =~= Seq::<Seq<char>>::empty());
        assert(out@ + enc_strings(Seq::<Seq<char>>::empty()) =~= out@);
        assert(hdr =~= old(out)@ + enc_string(r@.0) + enc_u64(r@.1.len() as u64));
        assert(old(out)@ + enc_record(r@) =~= hdr + enc_strings(dv));
    }
}

/// Encodes one chunk of records as bytes.
pub fn encode_chunk(records: &Vec<SourceFile>) -> (out: Vec<u8>)
    ensures
        out@ == encode_chunk_spec(index_view(records@)),
{
    let ghost iv = index_view(records@);
    let mut out: Vec<u8> = Vec::new();
    push_u64(&mut out, records.len() as u64);
    let ghost hdr = out@;
    let mut k: usize = 0;
    proof {
        assert(iv.skip(0) =~= iv);
        assert(hdr =~= Seq::<u8>::empty() + enc_u64(records@.len() as u64));
    }
    while k < records.len()
        invariant
            k <= records@.len(),
            iv == index_view(records@),
            hdr + enc_records(iv) == out@ + enc_records(iv.skip(k as int)),
        decreases records@.len() - k,
    {
        let ghost rem = iv.skip(k as int);
        proof {
            assert(rem[0] == iv[k as int]);
            assert(iv[k as int] == records@[k as int]@);
            assert(rem.drop_first() =~= iv.skip(k as int + 1));
        }
        let ghost out0 = out@;
        push_record(&mut out, &records[k]);
        proof {
            assert(out0 + (enc_record(iv[k as int]) + enc_records(iv.skip(k as int + 1))) =~= out@
                + enc_records(iv.skip(k as int + 1)));
        }
        k += 1;
    }
    proof {
        assert(iv.skip(iv.len() as int) =~= Seq::<RecordView>::empty());
        assert(out@ + enc_records(Seq::<RecordView>::empty()) =~= out@);
        assert(hdr + enc_records(iv) =~= encode_chunk_spec(iv));
    }
    out
}

// ---------------------------------------------------------------------------
// Executable decoder
// ---------------------------------------------------------------------------
/// Relies on `char::from_u32`: it returns the character with the given code
/// point exactly when one exists (the code is no surrogate and at most
/// 0x10FFFF).
#[verifier::external_body]
fn char_from_u32(v: u32) -> (r: Option<char>)
    ensures
        match r {
            Some(c) => c as u32 == v,
            None => forall|c: char| (#[trigger] (c as u32)) != v,
        },
{
    char::from_u32(v)
}

fn read_u64(b: &Vec<u8>, pos: usize) -> (r: Option<(u64, usize)>)
    requires
        pos <= b@.len(),
    ensures
        match r {
            Some(t) => dec_u64(b@.skip(pos as int)) == Some((t.0, b@.skip(t.1 as int))) && pos < t.1
                <= b@.len(),
            None => dec_u64(b@.skip(pos as int)) is None,
        },
{
    let n = b.len();
    if n - pos < 8 {
        return None;
    }
    let ghost rem = b@.skip(pos as int);
    proof {
        assert forall|k: int| 0 <= k < 8 implies rem[k] == b@[pos + k] by {}
    }
    let v = (b[pos] as u64) | ((b[pos + 1] as u64) << 8u64) | ((b[pos + 2] as u64) << 16u64) | ((b[
    pos + 3] as u64) << 24u64) | ((b[pos + 4] as u64) << 32u64) | ((b[pos + 5] as u64) << 40u64)
        | ((b[pos + 6] as u64) << 48u64) | ((b[pos + 7] as u64) << 56u64);
    proof {
        assert(v == dec8(rem));
        assert(rem.skip(8) =~= b@.skip(pos as int + 8));
    }
    Some((v, pos + 8))
}

fn read_u32(b: &Vec<u8>, pos: usize) -> (r: Option<(u32, usize)>)
    requires
        pos <= b@.len(),
    ensures
        match r {
            Some(t) => dec_u32(b@.skip(pos as int)) == Some((t.0, b@.skip(t.1 as int))) && pos < t.1
                <= b@.len(),
            None => dec_u32(b@.skip(pos as int)) is None,
        },
{
    let n = b.len();
    if n - pos < 4 {
        return None;
    }
    let ghost rem = b@.skip(pos as int);
    proof {
        assert forall|k: int| 0 <= k < 4 implies rem[k] == b@[pos + k] by {}
    }
    let v = (b[pos] as u32) | ((b[pos + 1] as u32) << 8u32) | ((b[pos + 2] as u32) << 16u32) | ((b[
    pos + 3] as u32) << 24u32);
    proof {
        assert(v == dec4(rem));
        assert(rem.skip(4) =~= b@.skip(pos as int + 4));
    }
    Some((v, pos + 4))
}

proof fn lemma_char_exists(c: char)
    ensures
        exists|x: char| (#[trigger] (x as u32)) == c as u32,
{
    assert(exists|x: char| (#[trigger] (x as u32)) == c as u32) by {
        assert((c as u32) == c as u32);
    }
}

fn read_char(b: &Vec<u8>, pos: usize) -> (r: Option<(char, usize)>)
    requires
        pos <= b@.len(),
    ensures
        match r {
            Some(t) => dec_char(b@.skip(pos as int)) == Some((t.0, b@.skip(t.1 as int))) && pos
                < t.1 <= b@.len(),
            None => dec_char(b@.skip(pos as int)) is None,
        },
{
    match read_u32(b, pos) {
        None => None,
        Some(t) => {
            match char_from_u32(t.0) {
                None => None,
                Some(c) => {
                    proof {
                        lemma_char_exists(c);
                        assert(c as u32 == t.0);
                        let chosen = choose|x: char| (#[trigger] (x as u32)) == t.0;
                        lemma_char_code_inj(chosen, c);
                    }
                    Some((c, t.1))
                },
            }
        },
    }
}

fn read_chars(b: &Vec<u8>, pos: usize, n: u64) -> (r: Option<(Vec<char>, usize)>)
    requires
        pos <= b@.len(),
    ensures
        match r {
            Some(t) => dec_chars(b@.skip(pos as int), n as nat) == Some(
                (t.0@, b@.skip(t.1 as int)),
            ) && pos <= t.1 <= b@.len(),
            None => dec_chars(b@.skip(pos as int), n as nat) is None,
        },
{
    let mut acc: Vec<char> = Vec::new();
    let mut cur: usize = pos;
    let mut k: u64 = 0;
    while k < n
        invariant
            pos <= cur <= b@.len(),
            k <= n,
            acc@.len() == k as nat,
            ({
                match dec_chars(b@.skip(cur as int), (n - k) as nat) {
                    Some(t) => dec_chars(b@.skip(pos as int), n as nat) == Some(
                        (acc@ + t.0, t.1),
                    ),
                    None => dec_chars(b@.skip(pos as int), n as nat) is None,
                }
            }),
        decreases n - k,
    {
        match read_char(b, cur) {
            None => {
                return None;
            },
            Some(t) => {
                let ghost acc0 = acc@;
                acc.push(t.0);
                proof {
                    if dec_chars(b@.skip(t.1 as int), (n - k - 1) as nat) is Some {
                        let tail = dec_chars(b@.skip(t.1 as int), (n - k - 1) as nat).unwrap();
                        assert(acc0 + (seq![t.0] + tail.0) =~= acc@ + tail.0);
                    }
                }
                cur = t.1;
                k += 1;
            },
        }
    }
    proof {
        assert(dec_chars(b@.skip(cur as int), 0) == Some(
            (Seq::<char>::empty(), b@.skip(cur as int)),
        ));
        assert(acc@ + Seq::<char>::empty() =~= acc@);
    }
    Some((acc, cur))
}

fn read_string(b: &Vec<u8>, pos: usize) -> (r: Option<(String, usize)>)
    requires
        pos <= b@.len(),
    ensures
        match r {
            Some(t) => dec_string(b@.skip(pos as int)) == Some((t.0@, b@.skip(t.1 as int))) && pos
                <= t.1 <= b@.len(),
            None => dec_string(b@.skip(pos as int)) is None,
        },
{
    match read_u64(b, pos) {
        None => None,
        Some(t) => {
            match read_chars(b, t.1, t.0) {
                None => None,
                Some(t2) => {
                    let res = chars_to_string(&t2.0);
                    Some((res, t2.1))
                },
            }
        },
    }
}

fn read_record(b: &Vec<u8>, pos: usize) -> (r: Option<(SourceFile, usize)>)
    requires
        pos <= b@.len(),
    ensures
        match r {
            Some(t) => dec_record(b@.skip(pos as int)) == Some((t.0@, b@.skip(t.1 as int))) && pos
                <= t.1 <= b@.len(),
            None => dec_record(b@.skip(pos as int)) is None,
        },
{
    match read_string(b, pos) {
        None => None,
        Some(tp) => {
            match read_u64(b, tp.1) {
                None => None,
                Some(tc) => {
                    let ghost pv = tp.0@;
                    let p1 = tp.1;
                    let c1 = tc.1;
                    let mut deps: Vec<String> = Vec::new();
                    let mut cur: usize = tc.1;
                    let mut k: u64 = 0;
                    let n = tc.0;
                    while k < n
                        invariant
                            pos <= p1 <= c1 <= cur <= b@.len(),
                            k <= n,
                            pv == tp.0@,
                            dec_string(b@.skip(pos as int)) == Some((pv, b@.skip(p1 as int))),
                            dec_u64(b@.skip(p1 as int)) == Some((n, b@.skip(c1 as int))),
                            ({
                                match dec_strings(b@.skip(cur as int), (n - k) as nat) {
                                    Some(t) => dec_strings(
                                        b@.skip(c1 as int),
                                        n as nat,
                                    ) == Some((deps.deep_view() + t.0, t.1)),
                                    None => dec_strings(
                                        b@.skip(c1 as int),
                                        n as nat,
                                    ) is None,
                                }
                            }),
                        decreases n - k,
                    {
                        match read_string(b, cur) {
                            None => {
                                return None;
                            },
                            Some(t) => {
                                let ghost d0 = deps;
                                let ghost sv = t.0@;
                                deps.push(t.0);
                                proof {
                                    assert(d0.deep_view().len() == d0@.len());
                                    assert forall|j: int| 0 <= j < deps.deep_view().len() implies
                                        deps.deep_view()[j] == d0.deep_view().push(sv)[j] by {
                                        lemma_dv_index_str(deps, j);
                                        if j < d0@.len() {
                                            lemma_dv_index_str(d0, j);
                                        }
                                    }
                                    assert(deps.deep_view() =~= d0.deep_view().push(sv));
                                    if dec_strings(b@.skip(t.1 as int), (n - k - 1) as nat)
                                        is Some {
                                        let tail = dec_strings(
                                            b@.skip(t.1 as int),
                                            (n - k - 1) as nat,
                                        ).unwrap();
                                        assert(d0.deep_view() + (seq![sv] + tail.0)
                                            =~= deps.deep_view() + tail.0);
                                    }
                                }
                                cur = t.1;
                                k += 1;
                            },
                        }
                    }
                    proof {
                        assert(dec_strings(b@.skip(cur as int), 0) == Some(
                            (Seq::<Seq<char>>::empty(), b@.skip(cur as int)),
                        ));
                        assert(deps.deep_view() + Seq::<Seq<char>>::empty() =~= deps.deep_view());
                    }
                    let ghost dv = deps.deep_view();
                    let rec = SourceFile { path: tp.0, dependencies: deps };
                    proof {
                        assert(rec@ == (pv, dv));
                    }
                    Some((rec, cur))
                },
            }
        },
    }
}

/// Decodes one cache chunk. Yields the records exactly when the bytes are a
/// whole well-formed chunk with nothing trailing; otherwise nothing.
pub fn decode_chunk(bytes: &Vec<u8>) -> (r: Option<HasteMap>)
    ensures
        match r {
            Some(v) => decode_chunk_spec(bytes@) == Some(index_view(v@)),
            None => decode_chunk_spec(bytes@) is None,
        },
{
    proof {
        assert(bytes@.skip(0) =~= bytes@);
    }
    match read_u64(bytes, 0) {
        None => None,
        Some(tc) => {
            let mut recs: Vec<SourceFile> = Vec::new();
            let c1 = tc.1;
            let mut cur: usize = tc.1;
            let mut k: u64 = 0;
            let n = tc.0;
            proof {
                assert(index_view(recs@) =~= Seq::<RecordView>::empty());
            }
            while k < n
                invariant
                    c1 <= bytes@.len(),
                    cur <= bytes@.len(),
                    k <= n,
                    dec_u64(bytes@) == Some((n, bytes@.skip(c1 as int))),
                    ({
                        match dec_records(bytes@.skip(cur as int), (n - k) as nat) {
                            Some(t) => dec_records(bytes@.skip(c1 as int), n as nat) == Some(
                                (index_view(recs@) + t.0, t.1),
                            ),
                            None => dec_records(bytes@.skip(c1 as int), n as nat) is None,
                        }
                    }),
                decreases n - k,
            {
                match read_record(bytes, cur) {
                    None => {
                        return None;
                    },
                    Some(t) => {
                        let ghost r0 = recs@;
                        let ghost rv = t.0@;
                        recs.push(t.0);
                        proof {
                            assert forall|j: int| 0 <= j < index_view(recs@).len() implies
                                index_view(recs@)[j] == index_view(r0).push(rv)[j] by {}
                            assert(index_view(recs@) =~= index_view(r0).push(rv));
                            if dec_records(bytes@.skip(t.1 as int), (n - k - 1) as nat) is Some {
                                let tail = dec_records(
                                    bytes@.skip(t.1 as int),
                                    (n - k - 1) as nat,
                                ).unwrap();
                                assert(index_view(r0) + (seq![rv] + tail.0) =~= index_view(recs@)
                                    + tail.0);
                            }
                        }
                        cur = t.1;
                        k += 1;
                    },
                }
            }
            proof {
                assert(dec_records(bytes@.skip(cur as int), 0) == Some(
                    (Seq::<RecordView>::empty(), bytes@.skip(cur as int)),
                ));
                assert(index_view(recs@) + Seq::<RecordView>::empty() =~= index_view(recs@));
            }
            if cur == bytes.len() {
                proof {
                    assert(bytes@.skip(cur as int).len() == 0);
                }
                Some(recs)
            } else {
                proof {
                    assert(bytes@.skip(cur as int).len() > 0);
                }
                None
            }
        },
    }
}

/// Law: decoding an encoded chunk reconstructs exactly the records that were
/// encoded.
pub proof fn lemma_chunk_round_trip(rs: Seq<RecordView>)
    requires
        index_fits(rs),
    ensures
        decode_chunk_spec(encode_chunk_spec(rs)) == Some(rs),
{
    assert(encode_chunk_spec(rs) =~= enc_u64(rs.len() as u64) + enc_records(rs));
    lemma_u64_round(rs.len() as u64, enc_records(rs));
    assert((rs.len() as u64) as nat == rs.len());
    assert(enc_records(rs) + Seq::<u8>::empty() =~= enc_records(rs));
    lemma_records_round(rs, Seq::<u8>::empty());
}

} // verus!
