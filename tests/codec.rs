use quantum_sweeper::bytes::{Byter, DecodeError};
use quantum_sweeper::field::{Field, MiscMethods};
use quantum_sweeper::tile::{Prob, Tile, TileError, TileStatus};

fn header(w: u32, h: u32) -> Vec<u8> {
    let mut b = Vec::new();
    b.extend_from_slice(&w.to_le_bytes());
    b.extend_from_slice(&h.to_le_bytes());
    b
}

#[test]
fn empty_board_codec() {
    let board = Field::with_seed(2, 2, 7);
    let bytes = board.to_bytes();
    assert_eq!(bytes.len(), 20);
    assert_eq!(&bytes[0..8], &[2, 0, 0, 0, 2, 0, 0, 0]);
    for k in 0..4 {
        assert_eq!(&bytes[8 + 3 * k..11 + 3 * k], &[0x00, 0xFF, 0x00]);
    }
    let back = Field::from_bytes(&bytes).ok().unwrap();
    assert_eq!(back.width(), 2);
    assert_eq!(back.height(), 2);
    for y in 0..2 {
        for x in 0..2 {
            let t = back.get_tile(x, y).unwrap();
            assert_eq!(t.status, TileStatus::Hidden);
            assert_eq!(t.group_id, -1);
            assert_eq!(t.prob, Prob(0));
            assert!(!t.measured);
        }
    }
}

#[test]
fn dimensions_are_little_endian() {
    let board = Field::with_seed(0x0102, 0, 1);
    let bytes = board.to_bytes();
    assert_eq!(bytes, vec![0x02, 0x01, 0, 0, 0, 0, 0, 0]);
}

#[test]
fn round_trip_keeps_every_field() {
    let mut b = header(3, 2);
    let records: [[u8; 3]; 6] = [[0, 0xFF, 0], [5, 0, 12], [4, 0, 0], [2, 1, 6], [3, 1, 6], [1, 0xFF, 0]];
    for r in records.iter() {
        b.extend_from_slice(r);
    }
    let board = Field::from_bytes(&b).ok().unwrap();
    assert_eq!(board.to_bytes(), b);
    let again = Field::from_bytes(&board.to_bytes()).ok().unwrap();
    assert_eq!(again.width, board.width);
    assert_eq!(again.height, board.height);
    assert_eq!(again.tiles, board.tiles);
    assert_eq!(
        board.tiles[1],
        Tile { status: TileStatus::Opened, prob: Prob(12), measured: true, group_id: 0 }
    );
    assert_eq!(board.tiles[3].status, TileStatus::Flag);
    assert_eq!(board.tiles[4].status, TileStatus::QuantFlag);
}

#[test]
fn decode_too_short() {
    assert_eq!(Field::from_bytes(&[1, 0, 0, 0, 1, 0, 0]).err(), Some(DecodeError::TooShort));
    assert_eq!(Field::from_bytes(&[]).err(), Some(DecodeError::TooShort));
}

#[test]
fn decode_truncated() {
    let mut b = header(2, 2);
    b.extend_from_slice(&[0, 0xFF, 0, 0, 0xFF, 0, 0, 0xFF, 0, 0, 0xFF]);
    assert_eq!(Field::from_bytes(&b).err(), Some(DecodeError::Truncated));
}

#[test]
fn decode_wide_board_is_truncated() {
    let b = header(0x8000_0000, 1);
    assert_eq!(Field::from_bytes(&b).err(), Some(DecodeError::Truncated));
}

#[test]
fn decode_wide_empty_board() {
    let b = header(0x8000_0000, 0);
    let board = Field::from_bytes(&b).ok().unwrap();
    assert_eq!(board.width(), 0x8000_0000);
    assert_eq!(board.height(), 0);
    assert!(board.tiles.is_empty());
    let full = header(u32::MAX, 0);
    assert!(Field::from_bytes(&full).is_ok());
}

#[test]
fn decode_bad_tile() {
    let mut b = header(2, 1);
    b.extend_from_slice(&[0, 0xFF, 0, 8, 0xFF, 0]);
    assert_eq!(Field::from_bytes(&b).err(), Some(DecodeError::BadTile));
}

#[test]
fn decode_ignores_trailing_bytes() {
    let mut b = header(1, 1);
    b.extend_from_slice(&[1, 3, 4, 9, 9]);
    let board = Field::from_bytes(&b).ok().unwrap();
    assert_eq!(board.tiles.len(), 1);
    assert_eq!(board.tiles[0].group_id, 3);
    assert_eq!(board.tiles[0].prob, Prob(4));
}

#[test]
fn tile_record_layout() {
    let t = Tile { status: TileStatus::Flag, prob: Prob(6), measured: true, group_id: 5 };
    assert_eq!(t.to_bytes(), [6, 5, 6]);
    let lone = Tile::new();
    assert_eq!(lone.to_bytes(), [0, 0xFF, 0]);
    let neg = Tile::from_mine(-2, Prob(3));
    assert_eq!(neg.to_bytes(), [0, 0xFE, 3]);
}

#[test]
fn tile_record_decoding() {
    assert_eq!(
        Tile::from_bytes(&[7, 0x80, 12]),
        Ok(Tile { status: TileStatus::QuantFlag, prob: Prob(12), measured: true, group_id: -128 })
    );
    assert_eq!(Tile::from_bytes(&[0, 0]), Err(TileError::BadLength));
    assert_eq!(Tile::from_bytes(&[0, 0, 0, 0]), Err(TileError::BadLength));
    assert_eq!(Tile::from_bytes(&[9, 0, 0]), Err(TileError::BadStatus));
}
