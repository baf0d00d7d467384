//! Moves.
use vstd::prelude::*;
use crate::types::{PieceType, Square, square_name_bytes, sq_name_bytes};

verus! {

#[derive(Copy, Clone, PartialEq, Eq, Debug, Structural)]
pub enum MoveFlag {
    Quiet,
    DoublePush,
    Capture,
    EnPassant,
    CastleKing,
    CastleQueen,
}

#[derive(Copy, Clone, PartialEq, Eq, Debug, Structural)]
pub struct Move {
    pub from: Square,
    pub to: Square,
    pub promotion: Option<PieceType>,
    pub flag: MoveFlag,
}

/// The UCI letter of a promotion piece ('?' for a kind one cannot promote to).
pub open spec fn promotion_letter(p: PieceType) -> u8 {
    match p {
        PieceType::Queen => 113u8,
        PieceType::Rook => 114u8,
        PieceType::Bishop => 98u8,
        PieceType::Knight => 110u8,
        _ => 63u8,
    }
}

/// The bytes of a move in UCI notation: from, to, and the promotion letter if any.
pub open spec fn uci_bytes(m: Move) -> Seq<u8> {
    square_name_bytes(m.from as int) + square_name_bytes(m.to as int) + match m.promotion {
        Some(p) => seq![promotion_letter(p)],
        None => Seq::<u8>::empty(),
    }
}

impl Move {
    pub fn quiet(from: Square, to: Square) -> (m: Self)
        ensures
            m == (Move { from, to, promotion: None, flag: MoveFlag::Quiet }),
    {
        Move { from, to, promotion: None, flag: MoveFlag::Quiet }
    }

    pub fn capture(from: Square, to: Square) -> (m: Self)
        ensures
            m == (Move { from, to, promotion: None, flag: MoveFlag::Capture }),
    {
        Move { from, to, promotion: None, flag: MoveFlag::Capture }
    }

    pub fn is_capture(&self) -> (r: bool)
        ensures
            r <==> (self.flag == MoveFlag::Capture || self.flag == MoveFlag::EnPassant),
    {
        match self.flag {
            MoveFlag::Capture | MoveFlag::EnPassant => true,
            _ => false,
        }
    }

    pub fn to_uci(&self) -> (s: String)
        ensures
            s@ == crate::text::chars_of(uci_bytes(*self)),
    {
        let mut v: Vec<u8> = Vec::new();
        sq_name_bytes(self.from, &mut v);
        sq_name_bytes(self.to, &mut v);
        match self.promotion {
            Some(p) => {
                let c: u8 = match p {
                    PieceType::Queen => 113,
                    PieceType::Rook => 114,
                    PieceType::Bishop => 98,
                    PieceType::Knight => 110,
                    _ => 63,
                };
                v.push(c);
            },
            None => {},
        }
        assert(v@ == uci_bytes(*self));
        crate::text::ascii_string(v)
    }
}

} // verus!
