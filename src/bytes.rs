use vstd::prelude::*;
use vstd::slice::slice_subrange;

use crate::field::{Field, FieldView};
use crate::rng::rng_fresh;
use crate::tile::{tile_bytes, tile_of_bytes, valid_head, Tile};

verus! {

/// Why a byte sequence is not a board.
#[derive(Clone, Copy, Debug, PartialEq, Eq, Structural)]
pub enum DecodeError {
    /// Fewer than the eight bytes of the two dimensions.
    TooShort,
    /// The number of cells does not fit in `usize`.
    SizeOverflow,
    /// Fewer tile records than the dimensions call for.
    Truncated,
    /// A tile record names no status.
    BadTile,
}

/// Little-endian bytes of a `u32`.
pub open spec fn le_bytes(w: u32) -> Seq<u8> {
    seq![
        (w % 256) as u8,
        ((w / 256) % 256) as u8,
        ((w / 65536) % 256) as u8,
        (w / 16777216) as u8,
    ]
}

/// The `u32` stored little-endian at `at`.
pub open spec fn read_le(b: Seq<u8>, at: int) -> int {
    b[at] + 256 * b[at + 1] + 65536 * b[at + 2] + 16777216 * b[at + 3]
}

/// The tile records of `tiles`, one after the other.
pub open spec fn tiles_bytes(tiles: Seq<Tile>) -> Seq<u8> {
    Seq::new(3 * tiles.len(), |j: int| tile_bytes(tiles[j / 3])[j % 3])
}

/// The bytes of a board: width, height, then the tile records row by row.
pub open spec fn encode(v: FieldView) -> Seq<u8> {
    le_bytes(v.width) + le_bytes(v.height) + tiles_bytes(v.tiles)
}

/// The tile held by record `k` of an encoded board.
pub open spec fn record_tile(b: Seq<u8>, k: int) -> Tile {
    tile_of_bytes(b[8 + 3 * k], b[9 + 3 * k], b[10 + 3 * k])
}

/// The board a byte sequence describes, or why it describes none.
pub open spec fn decode(b: Seq<u8>) -> Result<FieldView, DecodeError> {
    if b.len() < 8 {
        Err(DecodeError::TooShort)
    } else {
        let w = read_le(b, 0);
        let h = read_le(b, 4);
        if w * h > usize::MAX {
            Err(DecodeError::SizeOverflow)
        } else if b.len() < 8 + 3 * (w * h) {
            Err(DecodeError::Truncated)
        } else if exists|k: int| 0 <= k < w * h && !valid_head(#[trigger] b[8 + 3 * k]) {
            Err(DecodeError::BadTile)
        } else {
            Ok(
                FieldView {
                    width: w as u32,
                    height: h as u32,
                    tiles: Seq::new((w * h) as nat, |k: int| record_tile(b, k)),
                },
            )
        }
    }
}

proof fn lemma_le_round_trip(w: u32)
    ensures
        read_le(le_bytes(w), 0) == w,
{
    let b = le_bytes(w);
    assert(w == (w % 256) + 256 * ((w / 256) % 256) + 65536 * ((w / 65536) % 256) + 16777216 * (w
        / 16777216)) by (nonlinear_arith);
}

/// Decoding the bytes of a well-formed board gives the board back.
pub proof fn lemma_round_trip(v: FieldView)
    requires
        v.wf(),
    ensures
        decode(encode(v)) == Ok::<FieldView, DecodeError>(v),
{
    let b = encode(v);
    let n = v.tiles.len() as int;
    assert(b.subrange(0, 4) =~= le_bytes(v.width));
    assert(b.subrange(4, 8) =~= le_bytes(v.height));
    lemma_le_round_trip(v.width);
    lemma_le_round_trip(v.height);
    assert(read_le(b, 0) == read_le(le_bytes(v.width), 0));
    assert(read_le(b, 4) == read_le(le_bytes(v.height), 0));
    assert forall|k: int| 0 <= k < n implies valid_head(#[trigger] b[8 + 3 * k]) && record_tile(
        b,
        k,
    ) == v.tiles[k] by {
        assert(b[8 + 3 * k] == tiles_bytes(v.tiles)[3 * k]);
        assert(b[9 + 3 * k] == tiles_bytes(v.tiles)[3 * k + 1]);
        assert(b[10 + 3 * k] == tiles_bytes(v.tiles)[3 * k + 2]);
        crate::tile::lemma_tile_round_trip(v.tiles[k]);
    }
    let tiles = Seq::new(n as nat, |k: int| record_tile(b, k));
    assert(tiles =~= v.tiles);
}

fn push_le(out: &mut Vec<u8>, w: u32)
    ensures
        final(out)@ == old(out)@ + le_bytes(w),
{
    out.push((w % 256) as u8);
    out.push(((w / 256) % 256) as u8);
    out.push(((w / 65536) % 256) as u8);
    out.push((w / 16777216) as u8);
    assert(final(out)@ =~= old(out)@ + le_bytes(w));
}

fn read_le_at(bytes: &[u8], at: usize) -> (r: u32)
    requires
        at + 4 <= bytes@.len(),
    ensures
        r == read_le(bytes@, at as int),
{
    bytes[at] as u32 + (bytes[at + 1] as u32) * 256 + (bytes[at + 2] as u32) * 65536 + (bytes[at
        + 3] as u32) * 16777216
}

/// Writing a board to bytes and reading it back.
pub trait Byter: View<V = FieldView> + Sized {
    fn to_bytes(&self) -> (r: Vec<u8>)
        ensures
            r@ == encode(self@),
    ;

    /// Reads a board; on success it carries a freshly seeded generator.
    fn from_bytes(bytes: &[u8]) -> (r: Result<Self, DecodeError>)
        ensures
            match r {
                Ok(f) => decode(bytes@) == Ok::<FieldView, DecodeError>(f@) && f@.wf(),
                Err(e) => decode(bytes@) == Err::<FieldView, DecodeError>(e),
            },
    ;
}

impl Byter for Field {
    fn to_bytes(&self) -> (r: Vec<u8>) {
        let mut result: Vec<u8> = Vec::new();
        push_le(&mut result, self.width);
        push_le(&mut result, self.height);
        let ghost head = result@;
        let mut i: usize = 0;
        while i < self.tiles.len()
            invariant
                i <= self@.tiles.len(),
                head == le_bytes(self.width) + le_bytes(self.height),
                result@ == head + tiles_bytes(self@.tiles.subrange(0, i as int)),
            decreases self@.tiles.len() - i,
        {
            let rec = self.tiles[i].to_bytes();
            result.push(rec[0]);
            result.push(rec[1]);
            result.push(rec[2]);
            proof {
                let done = self@.tiles.subrange(0, i as int + 1);
                assert(tiles_bytes(done) =~= tiles_bytes(self@.tiles.subrange(0, i as int)) + tile_bytes(
                    self@.tiles[i as int],
                ));
            }
            i = i + 1;
        }
        assert(self@.tiles.subrange(0, self@.tiles.len() as int) =~= self@.tiles);
        assert(result@ =~= encode(self@));
        result
    }

    fn from_bytes(bytes: &[u8]) -> (r: Result<Field, DecodeError>) {
        if bytes.len() < 8 {
            return Err(DecodeError::TooShort);
        }
        let width = read_le_at(bytes, 0);
        let height = read_le_at(bytes, 4);
        proof {
            assert(width * height <= 0xffff_fffe_0000_0001) by (nonlinear_arith)
                requires
                    width <= 0xffff_ffff,
                    height <= 0xffff_ffff,
            ;
        }
        let product: u64 = width as u64 * height as u64;
        if product > usize::MAX as u64 {
            return Err(DecodeError::SizeOverflow);
        }
        let total = product as usize;
        if (bytes.len() - 8) / 3 < total {
            return Err(DecodeError::Truncated);
        }
        let len = bytes.len();
        let mut tiles: Vec<Tile> = Vec::new();
        let mut k: usize = 0;
        while k < total
            invariant
                k <= total,
                total == width * height,
                width == read_le(bytes@, 0),
                height == read_le(bytes@, 4),
                len == bytes@.len(),
                8 + 3 * total <= len,
                tiles@.len() == k,
                forall|j: int| 0 <= j < k ==> valid_head(#[trigger] bytes@[8 + 3 * j]),
                forall|j: int| 0 <= j < k ==> #[trigger] tiles@[j] == record_tile(bytes@, j),
            decreases total - k,
        {
            let start = 8 + 3 * k;
            let record = slice_subrange(bytes, start, start + 3);
            match Tile::from_bytes(record) {
                Ok(t) => {
                    tiles.push(t);
                },
                Err(_) => {
                    assert(!valid_head(bytes@[8 + 3 * (k as int)]));
                    assert(exists|j: int|
                        0 <= j < width * height && !valid_head(#[trigger] bytes@[8 + 3 * j]));
                    return Err(DecodeError::BadTile);
                },
            }
            k = k + 1;
        }
        assert(tiles@ =~= Seq::new((width * height) as nat, |j: int| record_tile(bytes@, j)));
        Ok(Field { width, height, tiles, rng: rng_fresh() })
    }
}

} // verus!
