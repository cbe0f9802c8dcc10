use vstd::prelude::*;

use super::cards::{AlgebraicCard, BasisCard, Card, DerivativeCard, LimitCard};

verus! {

/// number of distinct card kinds; the byte codes are exactly `0..CARD_KINDS`
pub const CARD_KINDS: u8 = 21;

/// the stable byte of every card kind
pub open spec fn spec_card_to_byte(card: Card) -> u8 {
    match card {
        Card::BasisCard(BasisCard::Zero) => 0,
        Card::BasisCard(BasisCard::One) => 1,
        Card::BasisCard(BasisCard::X) => 2,
        Card::BasisCard(BasisCard::X2) => 3,
        Card::BasisCard(BasisCard::Cos) => 4,
        Card::BasisCard(BasisCard::Sin) => 5,
        Card::BasisCard(BasisCard::E) => 6,
        Card::AlgebraicCard(AlgebraicCard::Div) => 7,
        Card::AlgebraicCard(AlgebraicCard::Mult) => 8,
        Card::AlgebraicCard(AlgebraicCard::Sqrt) => 9,
        Card::AlgebraicCard(AlgebraicCard::Inverse) => 10,
        Card::AlgebraicCard(AlgebraicCard::Log) => 11,
        Card::DerivativeCard(DerivativeCard::Derivative) => 12,
        Card::DerivativeCard(DerivativeCard::Integral) => 13,
        Card::DerivativeCard(DerivativeCard::Nabla) => 14,
        Card::DerivativeCard(DerivativeCard::Laplacian) => 15,
        Card::LimitCard(LimitCard::LimPosInf) => 16,
        Card::LimitCard(LimitCard::LimNegInf) => 17,
        Card::LimitCard(LimitCard::Lim0) => 18,
        Card::LimitCard(LimitCard::Liminf) => 19,
        Card::LimitCard(LimitCard::Limsup) => 20,
    }
}

/// the card kind a byte stands for, if any
pub open spec fn spec_byte_to_card(byte: u8) -> Option<Card> {
    match byte {
        0 => Some(Card::BasisCard(BasisCard::Zero)),
        1 => Some(Card::BasisCard(BasisCard::One)),
        2 => Some(Card::BasisCard(BasisCard::X)),
        3 => Some(Card::BasisCard(BasisCard::X2)),
        4 => Some(Card::BasisCard(BasisCard::Cos)),
        5 => Some(Card::BasisCard(BasisCard::Sin)),
        6 => Some(Card::BasisCard(BasisCard::E)),
        7 => Some(Card::AlgebraicCard(AlgebraicCard::Div)),
        8 => Some(Card::AlgebraicCard(AlgebraicCard::Mult)),
        9 => Some(Card::AlgebraicCard(AlgebraicCard::Sqrt)),
        10 => Some(Card::AlgebraicCard(AlgebraicCard::Inverse)),
        11 => Some(Card::AlgebraicCard(AlgebraicCard::Log)),
        12 => Some(Card::DerivativeCard(DerivativeCard::Derivative)),
        13 => Some(Card::DerivativeCard(DerivativeCard::Integral)),
        14 => Some(Card::DerivativeCard(DerivativeCard::Nabla)),
        15 => Some(Card::DerivativeCard(DerivativeCard::Laplacian)),
        16 => Some(Card::LimitCard(LimitCard::LimPosInf)),
        17 => Some(Card::LimitCard(LimitCard::LimNegInf)),
        18 => Some(Card::LimitCard(LimitCard::Lim0)),
        19 => Some(Card::LimitCard(LimitCard::Liminf)),
        20 => Some(Card::LimitCard(LimitCard::Limsup)),
        _ => None,
    }
}

/// a whole card list, byte by byte
pub open spec fn spec_cards_to_bytes(cards: Seq<Card>) -> Seq<u8> {
    cards.map_values(|c: Card| spec_card_to_byte(c))
}

/// a byte list decodes iff every byte names a card kind
pub open spec fn all_bytes_known(bytes: Seq<u8>) -> bool {
    forall|i: int| 0 <= i < bytes.len() ==> (#[trigger] bytes[i]) < CARD_KINDS
}

/// the cards a byte list decodes to, or `None` if any byte is unknown
pub open spec fn spec_bytes_to_cards(bytes: Seq<u8>) -> Option<Seq<Card>> {
    if all_bytes_known(bytes) {
        Some(bytes.map_values(|b: u8| spec_byte_to_card(b).unwrap()))
    } else {
        None
    }
}

/// maps every Card variant to a stable single byte, used for the one-time
/// transfer of the shuffled deck and starting hands when an online match begins
pub fn card_to_byte(card: &Card) -> (byte: u8)
    ensures
        byte == spec_card_to_byte(*card),
        byte < CARD_KINDS,
{
    match card {
        Card::BasisCard(BasisCard::Zero) => 0,
        Card::BasisCard(BasisCard::One) => 1,
        Card::BasisCard(BasisCard::X) => 2,
        Card::BasisCard(BasisCard::X2) => 3,
        Card::BasisCard(BasisCard::Cos) => 4,
        Card::BasisCard(BasisCard::Sin) => 5,
        Card::BasisCard(BasisCard::E) => 6,
        Card::AlgebraicCard(AlgebraicCard::Div) => 7,
        Card::AlgebraicCard(AlgebraicCard::Mult) => 8,
        Card::AlgebraicCard(AlgebraicCard::Sqrt) => 9,
        Card::AlgebraicCard(AlgebraicCard::Inverse) => 10,
        Card::AlgebraicCard(AlgebraicCard::Log) => 11,
        Card::DerivativeCard(DerivativeCard::Derivative) => 12,
        Card::DerivativeCard(DerivativeCard::Integral) => 13,
        Card::DerivativeCard(DerivativeCard::Nabla) => 14,
        Card::DerivativeCard(DerivativeCard::Laplacian) => 15,
        Card::LimitCard(LimitCard::LimPosInf) => 16,
        Card::LimitCard(LimitCard::LimNegInf) => 17,
        Card::LimitCard(LimitCard::Lim0) => 18,
        Card::LimitCard(LimitCard::Liminf) => 19,
        Card::LimitCard(LimitCard::Limsup) => 20,
    }
}

/// the inverse of `card_to_byte`: `None` exactly for the bytes no card uses
pub fn byte_to_card(byte: u8) -> (card: Option<Card>)
    ensures
        card == spec_byte_to_card(byte),
        card is Some <==> byte < CARD_KINDS,
        card matches Some(c) ==> spec_card_to_byte(c) == byte,
{
    match byte {
        0 => Some(Card::BasisCard(BasisCard::Zero)),
        1 => Some(Card::BasisCard(BasisCard::One)),
        2 => Some(Card::BasisCard(BasisCard::X)),
        3 => Some(Card::BasisCard(BasisCard::X2)),
        4 => Some(Card::BasisCard(BasisCard::Cos)),
        5 => Some(Card::BasisCard(BasisCard::Sin)),
        6 => Some(Card::BasisCard(BasisCard::E)),
        7 => Some(Card::AlgebraicCard(AlgebraicCard::Div)),
        8 => Some(Card::AlgebraicCard(AlgebraicCard::Mult)),
        9 => Some(Card::AlgebraicCard(AlgebraicCard::Sqrt)),
        10 => Some(Card::AlgebraicCard(AlgebraicCard::Inverse)),
        11 => Some(Card::AlgebraicCard(AlgebraicCard::Log)),
        12 => Some(Card::DerivativeCard(DerivativeCard::Derivative)),
        13 => Some(Card::DerivativeCard(DerivativeCard::Integral)),
        14 => Some(Card::DerivativeCard(DerivativeCard::Nabla)),
        15 => Some(Card::DerivativeCard(DerivativeCard::Laplacian)),
        16 => Some(Card::LimitCard(LimitCard::LimPosInf)),
        17 => Some(Card::LimitCard(LimitCard::LimNegInf)),
        18 => Some(Card::LimitCard(LimitCard::Lim0)),
        19 => Some(Card::LimitCard(LimitCard::Liminf)),
        20 => Some(Card::LimitCard(LimitCard::Limsup)),
        _ => None,
    }
}

/// encodes a card list byte for byte
pub fn cards_to_bytes(cards: &[Card]) -> (bytes: Vec<u8>)
    ensures
        bytes@ == spec_cards_to_bytes(cards@),
{
    let mut bytes: Vec<u8> = Vec::new();
    let mut i: usize = 0;
    while i < cards.len()
        invariant
            i <= cards@.len(),
            bytes@ == spec_cards_to_bytes(cards@.subrange(0, i as int)),
        decreases cards@.len() - i,
    {
        let b = card_to_byte(&cards[i]);
        bytes.push(b);
        proof {
            assert(cards@.subrange(0, i + 1) == cards@.subrange(0, i as int).push(cards@[i as int]));
        }
        i = i + 1;
    }
    proof {
        assert(cards@.subrange(0, cards@.len() as int) == cards@);
    }
    bytes
}

/// decodes a byte list; `None` if any byte is unrecognised (eg. a corrupted or
/// foreign message)
pub fn bytes_to_cards(bytes: &[u8]) -> (cards: Option<Vec<Card>>)
    ensures
        cards is Some <==> all_bytes_known(bytes@),
        cards matches Some(v) ==> spec_bytes_to_cards(bytes@) == Some(v@),
        cards is None ==> spec_bytes_to_cards(bytes@) is None,
{
    let mut cards: Vec<Card> = Vec::new();
    let mut i: usize = 0;
    while i < bytes.len()
        invariant
            i <= bytes@.len(),
            cards@.len() == i,
            forall|j: int| 0 <= j < i ==> (#[trigger] bytes@[j]) < CARD_KINDS,
            forall|j: int| 0 <= j < i ==> Some(#[trigger] cards@[j]) == spec_byte_to_card(bytes@[j]),
        decreases bytes@.len() - i,
    {
        match byte_to_card(bytes[i]) {
            Some(card) => cards.push(card),
            None => {
                assert(!all_bytes_known(bytes@));
                return None;
            },
        }
        i = i + 1;
    }
    proof {
        assert(cards@ == bytes@.map_values(|b: u8| spec_byte_to_card(b).unwrap()));
    }
    Some(cards)
}

/// Decoding the byte of a card gives that card back.
pub proof fn lemma_card_round_trip(card: Card)
    ensures
        spec_byte_to_card(spec_card_to_byte(card)) == Some(card),
        spec_card_to_byte(card) < CARD_KINDS,
{
}

/// Every known byte decodes to the card whose byte it is.
pub proof fn lemma_byte_round_trip(byte: u8)
    requires
        byte < CARD_KINDS,
    ensures
        spec_byte_to_card(byte) matches Some(c) && spec_card_to_byte(c) == byte,
{
}

/// No two cards share a byte.
pub proof fn lemma_card_bytes_unique(a: Card, b: Card)
    requires
        spec_card_to_byte(a) == spec_card_to_byte(b),
    ensures
        a == b,
{
    lemma_card_round_trip(a);
    lemma_card_round_trip(b);
}

/// Encoding a card list and decoding the bytes gives the same list back.
pub proof fn lemma_cards_round_trip(cards: Seq<Card>)
    ensures
        spec_bytes_to_cards(spec_cards_to_bytes(cards)) == Some(cards),
{
    let bytes = spec_cards_to_bytes(cards);
    assert forall|i: int| 0 <= i < bytes.len() implies (#[trigger] bytes[i]) < CARD_KINDS by {
        lemma_card_round_trip(cards[i]);
    }
    let decoded = bytes.map_values(|b: u8| spec_byte_to_card(b).unwrap());
    assert forall|i: int| 0 <= i < cards.len() implies decoded[i] == cards[i] by {
        lemma_card_round_trip(cards[i]);
    }
    assert(decoded =~= cards);
}

/// Decoding a byte list that decodes, and encoding the cards, gives the same bytes back.
pub proof fn lemma_bytes_round_trip(bytes: Seq<u8>)
    requires
        all_bytes_known(bytes),
    ensures
        spec_bytes_to_cards(bytes) matches Some(cards) && spec_cards_to_bytes(cards) == bytes,
{
    let cards = bytes.map_values(|b: u8| spec_byte_to_card(b).unwrap());
    let back = spec_cards_to_bytes(cards);
    assert forall|i: int| 0 <= i < bytes.len() implies back[i] == bytes[i] by {
        lemma_byte_round_trip(bytes[i]);
    }
    assert(back =~= bytes);
}

} // verus!
