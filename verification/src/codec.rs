//! The migration codec: batches of key/value pairs are carried between
//! nodes as schema-tagged Candid bytes, in chunks of a bounded number of
//! pairs per message.

use vstd::prelude::*;

use crate::store::entry_views;

verus! {

/// The most key/value pairs a single migration message may carry.
pub const MIGRATION_CHUNK_SIZE: usize = 100;

/// The Candid encoding of a batch of key/value pairs: `candid::encode_one`
/// writes a deterministic, schema-tagged byte form, a pure function of the
/// pairs alone, identical on every node.
pub uninterp spec fn chunk_encoding(pairs: Seq<(Seq<char>, Seq<char>)>) -> Seq<u8>;

/// Relies on `candid::encode_one` for `Vec<(String, String)>`: a
/// deterministic serializer, so the bytes it produces are a function of
/// the pairs alone.  For this type it cannot fail: the type table and the
/// values of strings, tuples and vectors are written into an in-memory
/// buffer through writers that have no failing path.
#[verifier::external_body]
fn candid_encode(pairs: &Vec<(String, String)>) -> (r: Vec<u8>)
    ensures
        r@ == chunk_encoding(entry_views(pairs@)),
{
    candid::encode_one(pairs).unwrap_or_default()
}

/// Relies on `candid::decode_one` for `Vec<(String, String)>`: decoding
/// inverts `candid::encode_one`, so bytes that encode a batch decode back
/// to exactly that batch.
#[verifier::external_body]
fn candid_decode(bytes: &Vec<u8>) -> (r: Result<Vec<(String, String)>, String>)
    ensures
        (r is Ok) <== exists|pairs: Seq<(Seq<char>, Seq<char>)>|
            bytes@ == #[trigger] chunk_encoding(pairs),
        r matches Ok(v) ==> forall|pairs: Seq<(Seq<char>, Seq<char>)>|
            bytes@ == #[trigger] chunk_encoding(pairs) ==> entry_views(v@) == pairs,
{
    match candid::decode_one::<Vec<(String, String)>>(bytes.as_slice()) {
        Ok(v) => Ok(v),
        Err(e) => Err(e.to_string()),
    }
}

/// Encodes one batch of pairs to its wire form.
pub fn encode_chunk(pairs: &Vec<(String, String)>) -> (r: Vec<u8>)
    ensures
        r@ == chunk_encoding(entry_views(pairs@)),
{
    candid_encode(pairs)
}

/// Decodes one wire chunk back to its pairs; on the encoding of any batch
/// it returns exactly that batch.
pub fn decode_chunk(bytes: &Vec<u8>) -> (r: Result<Vec<(String, String)>, String>)
    ensures
        forall|pairs: Seq<(Seq<char>, Seq<char>)>|
            bytes@ == #[trigger] chunk_encoding(pairs) ==> (r matches Ok(v) && entry_views(v@)
                == pairs),
{
    candid_decode(bytes)
}

/// A batch split into chunks of at most `sz` pairs, in order.
pub open spec fn chunks_of(pairs: Seq<(Seq<char>, Seq<char>)>, sz: int) -> Seq<
    Seq<(Seq<char>, Seq<char>)>,
>
    decreases pairs.len(),
    when sz >= 1
{
    if pairs.len() == 0 {
        Seq::empty()
    } else if pairs.len() <= sz {
        seq![pairs]
    } else {
        seq![pairs.take(sz)] + chunks_of(pairs.skip(sz), sz)
    }
}

/// Chunking bound: every chunk is nonempty and carries at most `sz` pairs.
pub proof fn lemma_chunks_of_bounded(pairs: Seq<(Seq<char>, Seq<char>)>, sz: int)
    requires
        sz >= 1,
    ensures
        forall|c: int|
            0 <= c < chunks_of(pairs, sz).len() ==> 0 < (#[trigger] chunks_of(pairs, sz)[c]).len()
                <= sz,
    decreases pairs.len(),
{
    if pairs.len() > sz {
        lemma_chunks_of_bounded(pairs.skip(sz), sz);
        let cs = chunks_of(pairs, sz);
        assert forall|c: int| 0 <= c < cs.len() implies 0 < (#[trigger] cs[c]).len() <= sz by {
            if c > 0 {
                assert(chunks_of(pairs, sz)[c] == chunks_of(pairs.skip(sz), sz)[c - 1]);
            }
        }
    }
}

/// Chunking loses and reorders nothing: the chunks concatenate back to the
/// batch.
pub proof fn lemma_chunks_of_flatten(pairs: Seq<(Seq<char>, Seq<char>)>, sz: int)
    requires
        sz >= 1,
    ensures
        chunks_of(pairs, sz).flatten() == pairs,
    decreases pairs.len(),
{
    reveal_with_fuel(Seq::flatten, 3);
    if pairs.len() == 0 {
        assert(chunks_of(pairs, sz).flatten() =~= pairs);
    } else if pairs.len() <= sz {
        let cs = chunks_of(pairs, sz);
        assert(cs.first() == pairs);
        assert(cs.drop_first() =~= Seq::<Seq<(Seq<char>, Seq<char>)>>::empty());
        assert(cs.flatten() == pairs + cs.drop_first().flatten());
        assert(cs.flatten() =~= pairs);
    } else {
        lemma_chunks_of_flatten(pairs.skip(sz), sz);
        let cs = chunks_of(pairs, sz);
        assert(cs.first() == pairs.take(sz));
        assert(cs.drop_first() =~= chunks_of(pairs.skip(sz), sz));
        assert(cs.flatten() == pairs.take(sz) + cs.drop_first().flatten());
        assert(pairs.take(sz) + pairs.skip(sz) =~= pairs);
    }
}

/// Splits a batch into chunks of at most `MIGRATION_CHUNK_SIZE` pairs and
/// encodes each.
pub fn encode_batch_chunks(pairs: &Vec<(String, String)>) -> (chunks: Vec<Vec<u8>>)
    ensures
        ({
            let parts = chunks_of(entry_views(pairs@), MIGRATION_CHUNK_SIZE as int);
            &&& chunks@.len() == parts.len()
            &&& forall|c: int|
                0 <= c < parts.len() ==> (#[trigger] chunks@[c])@ == chunk_encoding(parts[c])
        }),
{
    let ghost all = entry_views(pairs@);
    let ghost sz = MIGRATION_CHUNK_SIZE as int;
    let ghost cs = chunks_of(all, sz);
    let n = pairs.len();
    let mut chunks: Vec<Vec<u8>> = Vec::new();
    let mut start: usize = 0;
    proof {
        assert(all.skip(0) =~= all);
    }
    while start < n
        invariant
            start <= n,
            n == pairs@.len(),
            all == entry_views(pairs@),
            sz == MIGRATION_CHUNK_SIZE as int,
            cs == chunks_of(all, sz),
            cs.len() == chunks@.len() + chunks_of(all.skip(start as int), sz).len(),
            forall|c: int|
                chunks@.len() <= c < cs.len() ==> #[trigger] cs[c] == chunks_of(
                    all.skip(start as int),
                    sz,
                )[c - chunks@.len()],
            forall|c: int|
                0 <= c < chunks@.len() ==> (#[trigger] chunks@[c])@ == chunk_encoding(cs[c]),
        decreases n - start,
    {
        let end = if n - start < MIGRATION_CHUNK_SIZE {
            n
        } else {
            start + MIGRATION_CHUNK_SIZE
        };
        let mut part: Vec<(String, String)> = Vec::new();
        let mut j: usize = start;
        while j < end
            invariant
                start <= j <= end <= n,
                n == pairs@.len(),
                entry_views(part@) =~= entry_views(pairs@).subrange(start as int, j as int),
            decreases end - j,
        {
            let ghost pviews = entry_views(part@);
            let pair = &pairs[j];
            part.push((pair.0.clone(), pair.1.clone()));
            proof {
                assert(entry_views(part@) =~= pviews.push(entry_views(pairs@)[j as int]));
                assert(entry_views(part@) =~= entry_views(pairs@).subrange(
                    start as int,
                    j + 1,
                ));
            }
            j += 1;
        }
        let ghost rest = all.skip(start as int);
        let ghost done = chunks@.len() as int;
        proof {
            // The piece just copied is the head chunk of what remains.
            assert(rest.len() == all.len() - start);
            if rest.len() <= sz {
                assert(entry_views(part@) =~= rest);
            } else {
                assert(entry_views(part@) =~= rest.take(sz));
            }
            assert(chunks_of(rest, sz)[0] == entry_views(part@));
            assert(cs[done] == chunks_of(rest, sz)[0]);
        }
        let encoded = encode_chunk(&part);
        chunks.push(encoded);
        proof {
            assert(chunks@[done]@ == chunk_encoding(cs[done]));
            let rest2 = all.skip(end as int);
            if rest.len() <= sz {
                assert(end == n);
                assert(rest2 =~= Seq::<(Seq<char>, Seq<char>)>::empty());
                assert(chunks_of(rest, sz).len() == 1);
                assert(chunks_of(rest2, sz).len() == 0);
            } else {
                assert(rest.skip(sz) =~= rest2);
                assert(chunks_of(rest, sz) == seq![rest.take(sz)] + chunks_of(rest2, sz));
                assert(chunks_of(rest, sz).len() == 1 + chunks_of(rest2, sz).len());
                assert forall|c: int| chunks@.len() <= c < cs.len() implies #[trigger] cs[c]
                    == chunks_of(rest2, sz)[c - chunks@.len()] by {
                    assert(cs[c] == chunks_of(rest, sz)[c - done]);
                    assert(chunks_of(rest, sz)[c - done] == (seq![rest.take(sz)] + chunks_of(
                        rest2,
                        sz,
                    ))[c - done]);
                }
            }
        }
        start = end;
    }
    proof {
        assert(all.skip(n as int) =~= Seq::<(Seq<char>, Seq<char>)>::empty());
        assert(chunks_of(all.skip(n as int), sz).len() == 0);
    }
    chunks
}

} // verus!
