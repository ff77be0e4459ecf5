use vstd::prelude::*;
use vstd::string::StringSliceAdditionalSpecFns;
use crate::text::{lossy_utf8, utf8_lossy};
use vstd::utf8::{decode_utf8, valid_utf8};

verus! {

/// The most bytes of input that go into one list entry.
pub const CHUNK_SIZE: usize = 80;

/// How long a sleeping sorter waits per byte of its line, in microseconds.
pub const MICROS_PER_BYTE: u64 = 100000;

/// `bytes` cut into pieces of `size` bytes, the last one possibly shorter,
/// as `chunks(size)` cuts a slice.
pub open spec fn chunks_of(bytes: Seq<u8>, size: nat) -> Seq<Seq<u8>>
    decreases bytes.len(),
{
    if bytes.len() == 0 || size == 0 {
        Seq::empty()
    } else if bytes.len() <= size {
        seq![bytes]
    } else {
        seq![bytes.take(size as int)] + chunks_of(bytes.skip(size as int), size)
    }
}

/// Cuts an input line into entries of at most `CHUNK_SIZE` bytes each; a
/// piece that cuts a character in two gets the replacement character there,
/// as `String::from_utf8_lossy` makes it.
pub fn line_chunks(line: &str) -> (pieces: Vec<String>)
    ensures
        pieces@.map_values(|s: String| s@) == chunks_of(line.spec_bytes(), CHUNK_SIZE as nat).map_values(
            |c: Seq<u8>| lossy_utf8(c),
        ),
        forall|i: int|
            0 <= i < pieces@.len() && valid_utf8(
                #[trigger] chunks_of(line.spec_bytes(), CHUNK_SIZE as nat)[i],
            ) ==> pieces@[i]@ == decode_utf8(chunks_of(line.spec_bytes(), CHUNK_SIZE as nat)[i]),
{
    let bytes = line.as_bytes();
    let n = bytes.len();
    let ghost b = bytes@;
    let mut pieces: Vec<String> = Vec::new();
    let mut pos: usize = 0;
    assert(b.take(0) =~= Seq::<u8>::empty());
    while pos < n
        invariant
            b == bytes@,
            n == b.len(),
            pos <= n,
            pos < n ==> pos % CHUNK_SIZE == 0,
            pieces@.map_values(|s: String| s@) == chunks_of(
                b.take(pos as int),
                CHUNK_SIZE as nat,
            ).map_values(|c: Seq<u8>| lossy_utf8(c)),
            forall|i: int|
                0 <= i < pieces@.len() && valid_utf8(
                    #[trigger] chunks_of(b.take(pos as int), CHUNK_SIZE as nat)[i],
                ) ==> pieces@[i]@ == decode_utf8(
                    chunks_of(b.take(pos as int), CHUNK_SIZE as nat)[i],
                ),
        decreases n - pos,
    {
        let end = if n - pos > CHUNK_SIZE {
            pos + CHUNK_SIZE
        } else {
            n
        };
        let piece = vstd::slice::slice_subrange(bytes, pos, end);
        let text = utf8_lossy(piece);
        proof {
            let rest = b.skip(pos as int);
            assert(rest.len() > 0);
            assert(piece@ =~= rest.take((end - pos) as int));
            if end < n {
                assert(rest.skip(CHUNK_SIZE as int) =~= b.skip(end as int));
            } else {
                assert(b.skip(end as int) =~= Seq::<u8>::empty());
                assert(rest.take((end - pos) as int) =~= rest);
            }
            assert(chunks_of(rest, CHUNK_SIZE as nat) =~= seq![piece@] + chunks_of(
                b.skip(end as int),
                CHUNK_SIZE as nat,
            ));
            lemma_chunks_of_prefix(b, pos as nat, end as nat);
        }
        let ghost before = pieces@.map_values(|s: String| s@);
        let ghost old_pieces = pieces@;
        pieces.push(text);
        proof {
            let cs0 = chunks_of(b.take(pos as int), CHUNK_SIZE as nat);
            let cs1 = chunks_of(b.take(end as int), CHUNK_SIZE as nat);
            assert(old_pieces.len() == cs0.len()) by {
                assert(old_pieces.map_values(|s: String| s@).len() == cs0.map_values(
                    |c: Seq<u8>| lossy_utf8(c),
                ).len());
            }
            assert forall|i: int|
                0 <= i < pieces@.len() && valid_utf8(#[trigger] cs1[i]) implies pieces@[i]@
                == decode_utf8(cs1[i]) by {
                if i < old_pieces.len() {
                    assert(cs1[i] == cs0[i]);
                    assert(pieces@[i] == old_pieces[i]);
                } else {
                    assert(cs1[i] == piece@.subrange(0, piece@.len() as int)) by {
                        assert(piece@.subrange(0, piece@.len() as int) =~= piece@);
                        assert(b.subrange(pos as int, end as int) =~= piece@);
                    }
                    assert(piece@.subrange(0, piece@.len() as int) =~= piece@);
                }
            }
            assert(pieces@.map_values(|s: String| s@) =~= before.push(lossy_utf8(piece@)));
            assert(chunks_of(b.take(end as int), CHUNK_SIZE as nat).map_values(
                |c: Seq<u8>| lossy_utf8(c),
            ) =~= chunks_of(b.take(pos as int), CHUNK_SIZE as nat).map_values(
                |c: Seq<u8>| lossy_utf8(c),
            ).push(lossy_utf8(piece@)));
        }
        pos = end;
    }
    assert(b.take(n as int) =~= b);
    pieces
}

/// Chunks of a prefix ending on a chunk boundary, then one more chunk.
proof fn lemma_chunks_of_prefix(b: Seq<u8>, pos: nat, end: nat)
    requires
        pos % (CHUNK_SIZE as nat) == 0,
        pos < end <= b.len(),
        end == pos + CHUNK_SIZE || end == b.len(),
        end - pos <= CHUNK_SIZE,
    ensures
        chunks_of(b.take(end as int), CHUNK_SIZE as nat) == chunks_of(b.take(pos as int), CHUNK_SIZE as nat).push(
            b.subrange(pos as int, end as int),
        ),
    decreases pos,
{
    let c = CHUNK_SIZE as nat;
    if pos == 0 {
        assert(b.take(0) =~= Seq::<u8>::empty());
        assert(b.take(end as int) =~= b.subrange(0, end as int));
        assert(chunks_of(b.take(end as int), c) =~= seq![b.take(end as int)]);
    } else {
        let t = b.skip(c as int);
        assert(pos >= c);
        let pi = pos as int;
        let ci = c as int;
        assert((pi - ci) % ci == 0) by (nonlinear_arith)
            requires
                pi % ci == 0,
                pi >= ci,
                ci > 0,
        ;
        lemma_chunks_of_prefix(t, (pos - c) as nat, (end - c) as nat);
        assert(b.take(end as int).skip(c as int) =~= t.take(end - c));
        assert(b.take(pos as int).skip(c as int) =~= t.take(pos - c));
        assert(b.take(end as int).take(c as int) =~= b.take(c as int));
        assert(b.take(pos as int).take(c as int) =~= b.take(c as int));
        assert(t.subrange(pos - c, end - c) =~= b.subrange(pos as int, end as int));
        if pos == c {
            assert(b.take(pos as int) =~= b.take(c as int));
            assert(chunks_of(b.take(pos as int), c) =~= seq![b.take(c as int)]);
        }
    }
}

/// Cutting loses nothing and keeps every piece within bounds: the pieces,
/// put back together, are the bytes, and each has 1 to `size` bytes.
pub proof fn lemma_chunks_cover(bytes: Seq<u8>, size: nat)
    requires
        size > 0,
    ensures
        chunks_of(bytes, size).flatten() == bytes,
        forall|i: int|
            0 <= i < chunks_of(bytes, size).len() ==> 0 < #[trigger] chunks_of(bytes, size)[i].len()
                <= size,
    decreases bytes.len(),
{
    let cs = chunks_of(bytes, size);
    if bytes.len() == 0 {
    } else if bytes.len() <= size {
        assert(cs.drop_first() =~= Seq::<Seq<u8>>::empty());
        assert(cs.drop_first().flatten() =~= Seq::<u8>::empty());
        assert(cs.first() == bytes);
        assert(cs.flatten() =~= bytes);
    } else {
        let rest = bytes.skip(size as int);
        lemma_chunks_cover(rest, size);
        assert(cs.drop_first() =~= chunks_of(rest, size));
        assert(cs.flatten() =~= bytes.take(size as int) + rest);
        assert forall|i: int| 0 <= i < cs.len() implies 0 < #[trigger] cs[i].len() <= size by {
            if i > 0 {
                assert(cs[i] == chunks_of(rest, size)[i - 1]);
            }
        }
    }
}

/// How long the sleeping sorter waits before it outputs a line of `len`
/// bytes, in microseconds.
pub fn sleep_micros(len: usize) -> (micros: u64)
    requires
        len * MICROS_PER_BYTE <= u64::MAX,
    ensures
        micros == len * MICROS_PER_BYTE,
{
    (len as u64) * MICROS_PER_BYTE
}

/// Sleep sort puts shorter lines first: the wait grows with the length, and
/// strictly so.
pub proof fn lemma_longer_lines_wait_longer(a: nat, b: nat)
    ensures
        a < b ==> a * MICROS_PER_BYTE < b * MICROS_PER_BYTE,
        a == b ==> a * MICROS_PER_BYTE == b * MICROS_PER_BYTE,
{
    assert(a < b ==> a * MICROS_PER_BYTE < b * MICROS_PER_BYTE) by (nonlinear_arith);
}

} // verus!
