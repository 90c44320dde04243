use vstd::prelude::*;

verus! {

/// Probability that a cell holds a mine, in twelfths: 12 is a certain mine, 0 a certain blank.
#[derive(Clone, Copy, Debug, PartialEq, Eq, Structural)]
pub struct Prob(pub u8);

/// The largest value a probability sum can hold; sums saturate here.
pub const PROB_MAX: u8 = 255;

impl Prob {
    pub fn new(value: u8) -> (r: Prob)
        ensures
            r.0 == value,
    {
        Prob(value)
    }

    /// Adds `other` to this probability, saturating at `PROB_MAX`.
    pub fn add(&mut self, other: &Prob)
        ensures
            final(self).0 == if old(self).0 + other.0 <= PROB_MAX {
                (old(self).0 + other.0) as u8
            } else {
                PROB_MAX
            },
    {
        if other.0 <= PROB_MAX - self.0 {
            self.0 = self.0 + other.0;
        } else {
            self.0 = PROB_MAX;
        }
    }
}

/// What the player has done to a cell.
#[derive(Clone, Copy, Debug, PartialEq, Eq, Structural)]
pub enum TileStatus {
    Hidden,
    Opened,
    Flag,
    QuantFlag,
}

/// One cell of the board.
#[derive(Clone, Copy, Debug, PartialEq, Eq, Structural)]
pub struct Tile {
    pub status: TileStatus,
    pub prob: Prob,
    /// Set once the group owning this cell has been collapsed.
    pub measured: bool,
    /// The entangled group of this cell, or -1 when it belongs to none.
    pub group_id: i8,
}

/// Why a three-byte tile record could not be read.
#[derive(Clone, Copy, Debug, PartialEq, Eq, Structural)]
pub enum TileError {
    BadLength,
    BadStatus,
}

/// The two low bits of a tile's first byte.
pub open spec fn status_code(s: TileStatus) -> u8 {
    match s {
        TileStatus::Hidden => 0,
        TileStatus::Opened => 1,
        TileStatus::Flag => 2,
        TileStatus::QuantFlag => 3,
    }
}

pub open spec fn status_of_code(c: u8) -> TileStatus {
    if c == 0 {
        TileStatus::Hidden
    } else if c == 1 {
        TileStatus::Opened
    } else if c == 2 {
        TileStatus::Flag
    } else {
        TileStatus::QuantFlag
    }
}

/// A group id read as an unsigned byte (two's complement).
pub open spec fn group_byte(g: i8) -> u8 {
    if g >= 0 {
        g as u8
    } else {
        (g + 256) as u8
    }
}

/// An unsigned byte read as a group id (two's complement).
pub open spec fn byte_group(b: u8) -> i8 {
    if b < 128 {
        b as i8
    } else {
        (b - 256) as i8
    }
}

/// The three-byte record of a tile: status and measured bit, group id, probability.
pub open spec fn tile_bytes(t: Tile) -> Seq<u8> {
    seq![
        (status_code(t.status) + if t.measured { 4u8 } else { 0u8 }) as u8,
        group_byte(t.group_id),
        t.prob.0,
    ]
}

/// A first byte names a status only when nothing but the status bits and the measured bit is set.
pub open spec fn valid_head(b: u8) -> bool {
    b < 8
}

/// The tile a valid three-byte record describes.
pub open spec fn tile_of_bytes(b0: u8, b1: u8, b2: u8) -> Tile {
    Tile {
        status: status_of_code((b0 % 4) as u8),
        prob: Prob(b2),
        measured: b0 >= 4,
        group_id: byte_group(b1),
    }
}

/// Decoding a record gives back the tile it was written from.
pub proof fn lemma_tile_round_trip(t: Tile)
    ensures
        valid_head(tile_bytes(t)[0]),
        tile_of_bytes(tile_bytes(t)[0], tile_bytes(t)[1], tile_bytes(t)[2]) == t,
{
}

impl Tile {
    /// A hidden, unmeasured cell outside every group: a certain blank.
    pub open spec fn empty_spec() -> Tile {
        Tile { status: TileStatus::Hidden, prob: Prob(0), measured: false, group_id: -1i8 }
    }

    /// A hidden, unmeasured cell outside every group.
    pub fn new() -> (r: Tile)
        ensures
            r == Tile::empty_spec(),
    {
        Tile { status: TileStatus::Hidden, prob: Prob(0), measured: false, group_id: -1 }
    }

    /// A hidden, unmeasured member of group `group_id`.
    pub fn from_mine(group_id: i8, probability: Prob) -> (r: Tile)
        ensures
            r == (Tile { status: TileStatus::Hidden, prob: probability, measured: false, group_id }),
    {
        Tile { status: TileStatus::Hidden, prob: probability, measured: false, group_id }
    }

    pub fn to_bytes(&self) -> (r: [u8; 3])
        ensures
            r@ == tile_bytes(*self),
    {
        let code: u8 = match self.status {
            TileStatus::Hidden => 0,
            TileStatus::Opened => 1,
            TileStatus::Flag => 2,
            TileStatus::QuantFlag => 3,
        };
        let head: u8 = if self.measured {
            code + 4
        } else {
            code
        };
        let group: u8 = if self.group_id >= 0 {
            self.group_id as u8
        } else {
            (self.group_id as i16 + 256) as u8
        };
        let r = [head, group, self.prob.0];
        assert(r@ =~= tile_bytes(*self));
        r
    }

    pub fn from_bytes(bytes: &[u8]) -> (r: Result<Tile, TileError>)
        ensures
            bytes@.len() != 3 ==> r == Err::<Tile, TileError>(TileError::BadLength),
            bytes@.len() == 3 && !valid_head(bytes@[0]) ==> r == Err::<Tile, TileError>(
                TileError::BadStatus,
            ),
            bytes@.len() == 3 && valid_head(bytes@[0]) ==> r == Ok::<Tile, TileError>(
                tile_of_bytes(bytes@[0], bytes@[1], bytes@[2]),
            ),
    {
        if bytes.len() != 3 {
            return Err(TileError::BadLength);
        }
        let head = bytes[0];
        if head >= 8 {
            return Err(TileError::BadStatus);
        }
        let code = head % 4;
        let status = if code == 0 {
            TileStatus::Hidden
        } else if code == 1 {
            TileStatus::Opened
        } else if code == 2 {
            TileStatus::Flag
        } else {
            TileStatus::QuantFlag
        };
        let b1 = bytes[1];
        let group_id: i8 = if b1 < 128 {
            b1 as i8
        } else {
            (b1 as i16 - 256) as i8
        };
        Ok(Tile { status, prob: Prob(bytes[2]), measured: head >= 4, group_id })
    }
}

} // verus!
