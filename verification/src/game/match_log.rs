//! Records a match's full move history so it can be exported as one
//! copy-pasteable byte string: every completed turn records the mover, their
//! hand as it was when they decided, which card(s) they played, and the
//! resulting field right after.

use vstd::prelude::*;
use vstd::utf8::encode_utf8;

use super::card_encoding::{cards_to_bytes, spec_cards_to_bytes};
use super::cards::Card;

verus! {

/// one completed turn: who moved, their hand before this move, which card(s)
/// they played, and the display strings of the 6 field slots immediately
/// after the move (empty string for an empty slot)
pub struct TurnRecord {
    pub mover: u32,
    pub hand_before: Vec<Card>,
    pub cards_played: Vec<Card>,
    pub resulting_field: [String; 6],
}

/// the mathematical value of a turn record
pub struct TurnModel {
    pub mover: u32,
    pub hand_before: Seq<Card>,
    pub cards_played: Seq<Card>,
    pub slots: Seq<Seq<char>>,
}

pub open spec fn turn_model(t: TurnRecord) -> TurnModel {
    TurnModel {
        mover: t.mover,
        hand_before: t.hand_before@,
        cards_played: t.cards_played@,
        slots: Seq::new(6, |k: int| t.resulting_field@[k]@),
    }
}

/// the starting deck of the match and one record per completed turn
pub struct MatchLog {
    starting_deck: Vec<Card>,
    turns: Vec<TurnRecord>,
}

impl View for MatchLog {
    type V = (Seq<Card>, Seq<TurnModel>);

    closed spec fn view(&self) -> (Seq<Card>, Seq<TurnModel>) {
        (self.starting_deck@, Seq::new(self.turns@.len(), |i: int| turn_model(self.turns@[i])))
    }
}

/// a length in two little-endian bytes, kept modulo 2^16
pub open spec fn le16(n: nat) -> Seq<u8> {
    seq![(n % 256) as u8, ((n / 256) % 256) as u8]
}

/// a length-prefixed UTF-8 string
pub open spec fn encode_string(s: Seq<char>) -> Seq<u8> {
    le16(encode_utf8(s).len()) + encode_utf8(s)
}

/// a card list prefixed by its count, kept modulo 2^8
pub open spec fn encode_cards(cards: Seq<Card>) -> Seq<u8> {
    seq![(cards.len() % 256) as u8] + spec_cards_to_bytes(cards)
}

/// several length-prefixed strings, back to back
pub open spec fn encode_strings(strings: Seq<Seq<char>>) -> Seq<u8>
    decreases strings.len(),
{
    if strings.len() == 0 {
        Seq::empty()
    } else {
        encode_strings(strings.drop_last()) + encode_string(strings.last())
    }
}

/// one turn: mover byte, hand before, cards played, the 6 slot strings
pub open spec fn encode_turn(t: TurnModel) -> Seq<u8> {
    seq![(t.mover % 256) as u8] + encode_cards(t.hand_before) + encode_cards(t.cards_played)
        + encode_strings(t.slots)
}

/// every turn, back to back
pub open spec fn encode_turns(turns: Seq<TurnModel>) -> Seq<u8>
    decreases turns.len(),
{
    if turns.len() == 0 {
        Seq::empty()
    } else {
        encode_turns(turns.drop_last()) + encode_turn(turns.last())
    }
}

/// the whole match: [deck_len:u16][deck bytes][turn_count:u16][turns]
pub open spec fn spec_encode(log: (Seq<Card>, Seq<TurnModel>)) -> Seq<u8> {
    le16(log.0.len()) + spec_cards_to_bytes(log.0) + le16(log.1.len()) + encode_turns(log.1)
}

/// appends a length in two little-endian bytes, modulo 2^16
fn push_le16(bytes: &mut Vec<u8>, n: usize)
    ensures
        final(bytes)@ == old(bytes)@ + le16(n as nat),
{
    bytes.push((n % 256) as u8);
    bytes.push(((n / 256) % 256) as u8);
    assert(final(bytes)@ =~= old(bytes)@ + le16(n as nat));
}

/// appends every byte of a slice
fn push_all(bytes: &mut Vec<u8>, extra: &[u8])
    ensures
        final(bytes)@ == old(bytes)@ + extra@,
{
    let ghost start = bytes@;
    let mut i: usize = 0;
    while i < extra.len()
        invariant
            i <= extra@.len(),
            bytes@ == start + extra@.take(i as int),
        decreases extra@.len() - i,
    {
        bytes.push(extra[i]);
        assert(extra@.take(i + 1) =~= extra@.take(i as int).push(extra@[i as int]));
        i = i + 1;
    }
    assert(extra@.take(i as int) =~= extra@);
}

/// appends a length-prefixed UTF-8 string (u16 length, since a deeply nested
/// expression's string can run well past 255 bytes)
pub fn push_string(bytes: &mut Vec<u8>, s: &str)
    ensures
        final(bytes)@ == old(bytes)@ + encode_string(s@),
{
    let s_bytes = s.as_bytes();
    push_le16(bytes, s_bytes.len());
    push_all(bytes, s_bytes);
    assert(final(bytes)@ =~= old(bytes)@ + encode_string(s@));
}

/// appends a length-prefixed card list (u8 count -- a hand never exceeds 7,
/// cards played never exceed 2)
pub fn push_cards(bytes: &mut Vec<u8>, cards: &[Card])
    ensures
        final(bytes)@ == old(bytes)@ + encode_cards(cards@),
{
    bytes.push((cards.len() % 256) as u8);
    let encoded = cards_to_bytes(cards);
    push_all(bytes, encoded.as_slice());
    assert(final(bytes)@ =~= old(bytes)@ + encode_cards(cards@));
}

impl MatchLog {
    /// an empty log
    pub fn new() -> (log: MatchLog)
        ensures
            log@ == (Seq::<Card>::empty(), Seq::<TurnModel>::empty()),
    {
        let log = MatchLog { starting_deck: Vec::new(), turns: Vec::new() };
        assert(log@.1 =~= Seq::<TurnModel>::empty());
        log
    }

    /// call once per match with the deck immediately after shuffling and
    /// before hands are dealt from it; forgets every recorded turn
    pub fn reset(&mut self, deck: &[Card])
        ensures
            final(self)@ == (deck@, Seq::<TurnModel>::empty()),
    {
        let mut starting_deck: Vec<Card> = Vec::new();
        let mut i: usize = 0;
        while i < deck.len()
            invariant
                i <= deck@.len(),
                starting_deck@ == deck@.take(i as int),
            decreases deck@.len() - i,
        {
            starting_deck.push(deck[i]);
            assert(deck@.take(i + 1) =~= deck@.take(i as int).push(deck@[i as int]));
            i = i + 1;
        }
        assert(deck@.take(i as int) =~= deck@);
        self.starting_deck = starting_deck;
        self.turns = Vec::new();
        assert(self@.1 =~= Seq::<TurnModel>::empty());
    }

    /// records one completed turn, after the move commits and before the
    /// played cards are removed from the hand
    pub fn record_turn(
        &mut self,
        mover: u32,
        hand_before: &[Card],
        cards_played: Vec<Card>,
        resulting_field: [String; 6],
    )
        ensures
            final(self)@.0 == old(self)@.0,
            final(self)@.1 == old(self)@.1.push(
                TurnModel {
                    mover,
                    hand_before: hand_before@,
                    cards_played: cards_played@,
                    slots: Seq::new(6, |k: int| resulting_field@[k]@),
                },
            ),
    {
        let mut hand: Vec<Card> = Vec::new();
        let mut i: usize = 0;
        while i < hand_before.len()
            invariant
                i <= hand_before@.len(),
                hand@ == hand_before@.take(i as int),
            decreases hand_before@.len() - i,
        {
            hand.push(hand_before[i]);
            assert(hand_before@.take(i + 1) =~= hand_before@.take(i as int).push(hand_before@[i as int]));
            i = i + 1;
        }
        assert(hand_before@.take(i as int) =~= hand_before@);
        let ghost old_turns = self.turns@;
        self.turns.push(TurnRecord { mover, hand_before: hand, cards_played, resulting_field });
        assert(self@.1 =~= old(self)@.1.push(
            TurnModel {
                mover,
                hand_before: hand_before@,
                cards_played: cards_played@,
                slots: Seq::new(6, |k: int| resulting_field@[k]@),
            },
        ));
    }

    /// serializes the whole recorded match: [deck_len:u16][deck bytes], then
    /// [turn_count:u16] and, per turn, [mover:u8] [hand_before] [cards_played]
    /// [6 resulting-field-slot strings, in field order]
    pub fn encode(&self) -> (bytes: Vec<u8>)
        ensures
            bytes@ == spec_encode(self@),
    {
        let mut bytes: Vec<u8> = Vec::new();
        let deck_bytes = cards_to_bytes(self.starting_deck.as_slice());
        push_le16(&mut bytes, deck_bytes.len());
        push_all(&mut bytes, deck_bytes.as_slice());
        push_le16(&mut bytes, self.turns.len());
        let ghost header = bytes@;
        let ghost turns = self@.1;
        let mut t: usize = 0;
        while t < self.turns.len()
            invariant
                t <= self.turns@.len(),
                turns == self@.1,
                bytes@ == header + encode_turns(turns.take(t as int)),
            decreases self.turns@.len() - t,
        {
            let turn = &self.turns[t];
            let ghost before = bytes@;
            bytes.push((turn.mover % 256) as u8);
            push_cards(&mut bytes, turn.hand_before.as_slice());
            push_cards(&mut bytes, turn.cards_played.as_slice());
            let ghost slots = Seq::new(6, |k: int| turn.resulting_field@[k]@);
            let ghost strings_start = bytes@;
            let mut k: usize = 0;
            while k < 6
                invariant
                    k <= 6,
                    bytes@ == strings_start + encode_strings(slots.take(k as int)),
                    slots == Seq::new(6, |k: int| turn.resulting_field@[k]@),
                decreases 6 - k,
            {
                push_string(&mut bytes, turn.resulting_field[k].as_str());
                assert(slots.take(k + 1).drop_last() =~= slots.take(k as int));
                k = k + 1;
            }
            proof {
                assert(slots.take(6) =~= slots);
                assert(turns[t as int] == turn_model(*turn));
                assert(turns.take(t + 1).drop_last() =~= turns.take(t as int));
                assert(bytes@ =~= header + encode_turns(turns.take(t + 1)));
            }
            t = t + 1;
        }
        proof {
            assert(turns.take(t as int) =~= turns);
            assert(bytes@ =~= spec_encode(self@));
        }
        bytes
    }
}

} // verus!
