use vstd::prelude::*;

use crate::cache_codec::{decode_chunk_spec, encode_chunk_spec, index_fits, lemma_chunk_round_trip,
    record_fits};
use crate::text::chars_to_string;
use crate::types::{index_view, HasteMap, RecordView};

verus! {

/// The directory the cache chunks are written to.
pub const CACHE_DIR: &'static str = "cache";

/// Successive chunks of at most `size` records each, in index order.
pub open spec fn chunks_of(rs: Seq<RecordView>, size: nat) -> Seq<Seq<RecordView>>
    decreases rs.len(),
{
    if size == 0 || rs.len() == 0 {
        Seq::empty()
    } else if rs.len() <= size {
        seq![rs]
    } else {
        seq![rs.take(size as int)] + chunks_of(rs.skip(size as int), size)
    }
}

/// Concatenating all chunks gives back the index.
pub proof fn lemma_chunks_flatten(rs: Seq<RecordView>, size: nat)
    requires
        size >= 1,
    ensures
        chunks_of(rs, size).flatten() == rs,
    decreases rs.len(),
{
    if rs.len() == 0 {
        assert(chunks_of(rs, size).flatten() =~= rs);
    } else if rs.len() <= size {
        assert(chunks_of(rs, size) == seq![rs]);
        assert(seq![rs].flatten() =~= rs) by {
            assert(seq![rs].drop_first() =~= Seq::<Seq<RecordView>>::empty());
            assert(Seq::<Seq<RecordView>>::empty().flatten() =~= Seq::<RecordView>::empty());
            assert(rs + Seq::<RecordView>::empty() =~= rs);
        }
    } else {
        lemma_chunks_flatten(rs.skip(size as int), size);
        let c = chunks_of(rs, size);
        assert(c.drop_first() =~= chunks_of(rs.skip(size as int), size));
        assert(c.flatten() == rs.take(size as int) + c.drop_first().flatten());
        assert(rs.take(size as int) + rs.skip(size as int) =~= rs);
    }
}

/// Every chunk of an index whose counts fit the format fits it too.
pub proof fn lemma_chunks_fit(rs: Seq<RecordView>, size: nat)
    requires
        index_fits(rs),
    ensures
        forall|i: int|
            0 <= i < chunks_of(rs, size).len() ==> index_fits(#[trigger] chunks_of(rs, size)[i]),
    decreases rs.len(),
{
    if size == 0 || rs.len() == 0 {
    } else if rs.len() <= size {
    } else {
        assert(index_fits(rs.skip(size as int))) by {
            assert forall|i: int| 0 <= i < rs.skip(size as int).len() implies record_fits(
                #[trigger] rs.skip(size as int)[i],
            ) by {
                assert(rs.skip(size as int)[i] == rs[i + size]);
            }
        }
        lemma_chunks_fit(rs.skip(size as int), size);
        assert forall|i: int| 0 <= i < chunks_of(rs, size).len() implies index_fits(
            #[trigger] chunks_of(rs, size)[i],
        ) by {
            if i == 0 {
                assert(chunks_of(rs, size)[0] == rs.take(size as int));
                assert forall|j: int| 0 <= j < rs.take(size as int).len() implies record_fits(
                    #[trigger] rs.take(size as int)[j],
                ) by {
                    assert(rs.take(size as int)[j] == rs[j]);
                }
            } else {
                assert(chunks_of(rs, size)[i] == chunks_of(rs.skip(size as int), size)[i - 1]);
            }
        }
    }
}

/// Law: a cache written as chunks of any positive size reads back to exactly
/// the index that was written. Every chunk decodes to the records encoded
/// into it, and the chunks concatenate to the original record sequence.
pub proof fn lemma_cache_round_trip(rs: Seq<RecordView>, size: nat)
    requires
        size >= 1,
        index_fits(rs),
    ensures
        ({
            let cs = chunks_of(rs, size);
            &&& forall|i: int|
                0 <= i < cs.len() ==> decode_chunk_spec(
                    encode_chunk_spec(#[trigger] cs[i]),
                ) == Some(cs[i])
            &&& cs.flatten() == rs
        }),
{
    lemma_chunks_flatten(rs, size);
    lemma_chunks_fit(rs, size);
    let cs = chunks_of(rs, size);
    assert forall|i: int| 0 <= i < cs.len() implies decode_chunk_spec(
        encode_chunk_spec(#[trigger] cs[i]),
    ) == Some(cs[i]) by {
        lemma_chunk_round_trip(cs[i]);
    }
}

/// The views of a sequence of chunks.
pub open spec fn chunk_views(cs: Seq<HasteMap>) -> Seq<Seq<RecordView>> {
    Seq::new(cs.len(), |i: int| index_view(cs[i]@))
}

/// Splits an index into chunks of at most `size` records, in order.
pub fn split_into_chunks(haste_map: HasteMap, size: usize) -> (chunks: Vec<HasteMap>)
    requires
        size >= 1,
    ensures
        chunk_views(chunks@) == chunks_of(index_view(haste_map@), size as nat),
{
    let ghost orig = index_view(haste_map@);
    let mut rest = haste_map;
    let mut chunks: Vec<HasteMap> = Vec::new();
    proof {
        assert(chunk_views(chunks@) =~= Seq::<Seq<RecordView>>::empty());
        assert(chunk_views(chunks@) + chunks_of(index_view(rest@), size as nat) =~= chunks_of(
            orig,
            size as nat,
        ));
    }
    while rest.len() > size
        invariant
            size >= 1,
            chunks_of(orig, size as nat) == chunk_views(chunks@) + chunks_of(
                index_view(rest@),
                size as nat,
            ),
        decreases rest@.len(),
    {
        let ghost rv = index_view(rest@);
        let tail = rest.split_off(size);
        proof {
            assert(index_view(rest@) =~= rv.take(size as int));
            assert(index_view(tail@) =~= rv.skip(size as int));
        }
        let ghost cs0 = chunks;
        let ghost head_view = index_view(rest@);
        chunks.push(rest);
        proof {
            assert(chunk_views(cs0@).len() == cs0@.len());
            assert forall|t: int| 0 <= t < chunk_views(chunks@).len() implies chunk_views(
                chunks@,
            )[t] == chunk_views(cs0@).push(head_view)[t] by {}
            assert(chunk_views(chunks@) =~= chunk_views(cs0@).push(head_view));
            assert(chunks_of(rv, size as nat) == seq![rv.take(size as int)] + chunks_of(
                rv.skip(size as int),
                size as nat,
            ));
            assert(chunk_views(cs0@).push(head_view) + chunks_of(rv.skip(size as int), size as nat)
                =~= chunk_views(cs0@) + (seq![head_view] + chunks_of(
                rv.skip(size as int),
                size as nat,
            )));
        }
        rest = tail;
    }
    if rest.len() > 0 {
        let ghost rv = index_view(rest@);
        let ghost cs0 = chunks;
        chunks.push(rest);
        proof {
            assert(chunk_views(cs0@).len() == cs0@.len());
            assert forall|t: int| 0 <= t < chunk_views(chunks@).len() implies chunk_views(
                chunks@,
            )[t] == chunk_views(cs0@).push(rv)[t] by {}
            assert(chunk_views(chunks@) =~= chunk_views(cs0@).push(rv));
            assert(chunks_of(rv, size as nat) == seq![rv]);
            assert(chunk_views(cs0@).push(rv) + Seq::<Seq<RecordView>>::empty() =~= chunk_views(
                cs0@,
            ) + (seq![rv] + Seq::<Seq<RecordView>>::empty()));
            assert(chunk_views(cs0@).push(rv) =~= chunk_views(cs0@) + seq![rv]);
        }
    } else {
        proof {
            assert(index_view(rest@) =~= Seq::<RecordView>::empty());
            assert(chunks_of(index_view(rest@), size as nat) =~= Seq::<Seq<RecordView>>::empty());
        }
    }
    proof {
        assert(chunk_views(chunks@) + Seq::<Seq<RecordView>>::empty() =~= chunk_views(chunks@));
    }
    chunks
}

/// The decimal digit characters of `n`, most significant first.
pub open spec fn dec_digits(n: nat) -> Seq<char>
    decreases n,
{
    if n < 10 {
        seq![digit_char(n)]
    } else {
        dec_digits(n / 10) + seq![digit_char(n % 10)]
    }
}

pub open spec fn digit_char(d: nat) -> char {
    if d == 0 {
        '0'
    } else if d == 1 {
        '1'
    } else if d == 2 {
        '2'
    } else if d == 3 {
        '3'
    } else if d == 4 {
        '4'
    } else if d == 5 {
        '5'
    } else if d == 6 {
        '6'
    } else if d == 7 {
        '7'
    } else if d == 8 {
        '8'
    } else {
        '9'
    }
}

/// The name of the chunk file with the given index: `cache/<id>.bin`.
pub open spec fn cache_filename(id: nat) -> Seq<char> {
    seq!['c', 'a', 'c', 'h', 'e', '/'] + dec_digits(id) + seq!['.', 'b', 'i', 'n']
}

fn digit_exec(d: usize) -> (c: char)
    requires
        d < 10,
    ensures
        c == digit_char(d as nat),
{
    if d == 0 {
        '0'
    } else if d == 1 {
        '1'
    } else if d == 2 {
        '2'
    } else if d == 3 {
        '3'
    } else if d == 4 {
        '4'
    } else if d == 5 {
        '5'
    } else if d == 6 {
        '6'
    } else if d == 7 {
        '7'
    } else if d == 8 {
        '8'
    } else {
        '9'
    }
}

fn push_digits(n: usize, out: &mut Vec<char>)
    ensures
        final(out)@ == old(out)@ + dec_digits(n as nat),
    decreases n,
{
    if n < 10 {
        out.push(digit_exec(n));
        proof {
            assert(out@ =~= old(out)@ + dec_digits(n as nat));
        }
    } else {
        push_digits(n / 10, out);
        out.push(digit_exec(n % 10));
        proof {
            assert(out@ =~= old(out)@ + dec_digits(n as nat));
        }
    }
}

/// Builds the file name of the chunk with the given index.
pub fn make_cache_filename(id: usize) -> (name: String)
    ensures
        name@ == cache_filename(id as nat),
{
    let mut v: Vec<char> = vec!['c', 'a', 'c', 'h', 'e', '/'];
    push_digits(id, &mut v);
    v.push('.');
    v.push('b');
    v.push('i');
    v.push('n');
    proof {
        assert(v@ =~= cache_filename(id as nat));
    }
    chars_to_string(&v)
}

} // verus!
