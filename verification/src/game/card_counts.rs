use vstd::prelude::*;

use super::card_encoding::{
    byte_to_card, lemma_byte_round_trip, spec_byte_to_card, spec_card_to_byte, CARD_KINDS,
};
use super::cards::Card;
use crate::util::str_equal;

verus! {

/// settings-panel name of every card kind, in card-byte order (the order of
/// the default counts below and of the HTML inputs "count-<NAME>")
pub open spec fn spec_card_count_name(kind: int) -> Seq<char> {
    if kind == 0 { "ZERO"@ }
    else if kind == 1 { "ONE"@ }
    else if kind == 2 { "X"@ }
    else if kind == 3 { "X2"@ }
    else if kind == 4 { "COS"@ }
    else if kind == 5 { "SIN"@ }
    else if kind == 6 { "E"@ }
    else if kind == 7 { "DIV"@ }
    else if kind == 8 { "MULT"@ }
    else if kind == 9 { "SQRT"@ }
    else if kind == 10 { "INVERSE"@ }
    else if kind == 11 { "LOG"@ }
    else if kind == 12 { "DERIVATIVE"@ }
    else if kind == 13 { "INTEGRAL"@ }
    else if kind == 14 { "NABLA"@ }
    else if kind == 15 { "LAPLACIAN"@ }
    else if kind == 16 { "LIM_POS_INF"@ }
    else if kind == 17 { "LIM_NEG_INF"@ }
    else if kind == 18 { "LIM_0"@ }
    else if kind == 19 { "LIMINF"@ }
    else { "LIMSUP"@ }
}

/// the settings-panel name of a card kind
pub fn card_count_name(kind: u8) -> (name: &'static str)
    requires
        kind < CARD_KINDS,
    ensures
        name@ == spec_card_count_name(kind as int),
{
    match kind {
        0 => "ZERO",
        1 => "ONE",
        2 => "X",
        3 => "X2",
        4 => "COS",
        5 => "SIN",
        6 => "E",
        7 => "DIV",
        8 => "MULT",
        9 => "SQRT",
        10 => "INVERSE",
        11 => "LOG",
        12 => "DERIVATIVE",
        13 => "INTEGRAL",
        14 => "NABLA",
        15 => "LAPLACIAN",
        16 => "LIM_POS_INF",
        17 => "LIM_NEG_INF",
        18 => "LIM_0",
        19 => "LIMINF",
        _ => "LIMSUP",
    }
}

/// the default deck composition, kept as the reset target. ONE/X/X2
/// counts include the 2 copies already pre-placed on the starting field
pub open spec fn spec_default_card_counts() -> Seq<u32> {
    seq![2u32, 4, 7, 3, 4, 4, 4, 5, 5, 5, 5, 5, 8, 8, 10, 2, 2, 2, 2, 1, 1]
}

/// how many copies of card kind `kind` a fresh deck holds: the configured
/// count, less the 2 copies of ONE/X/X2 that already sit on the starting field
pub open spec fn spec_deck_count(counts: Seq<u32>, kind: int) -> nat {
    if 1 <= kind <= 3 {
        if counts[kind] >= 2 { (counts[kind] - 2) as nat } else { 0 }
    } else {
        counts[kind] as nat
    }
}

/// the card of a kind (its byte)
pub open spec fn card_of_kind(kind: int) -> Card {
    spec_byte_to_card(kind as u8).unwrap()
}

/// the deck holding, kind after kind, `spec_deck_count` copies of each of the
/// first `kinds` card kinds
pub open spec fn spec_deck_prefix(counts: Seq<u32>, kinds: int) -> Seq<Card>
    decreases kinds,
{
    if kinds <= 0 {
        Seq::empty()
    } else {
        spec_deck_prefix(counts, kinds - 1) + Seq::new(
            spec_deck_count(counts, kinds - 1),
            |j: int| card_of_kind(kinds - 1),
        )
    }
}

/// a fresh deck for the given card counts
pub open spec fn spec_new_deck(counts: Seq<u32>) -> Seq<Card> {
    spec_deck_prefix(counts, CARD_KINDS as int)
}

/// the configurable number of copies of every card kind
pub struct CardCounts {
    counts: Vec<u32>,
}

impl View for CardCounts {
    type V = Seq<u32>;

    closed spec fn view(&self) -> Seq<u32> {
        self.counts@
    }
}

impl CardCounts {
    #[verifier::type_invariant]
    closed spec fn one_count_per_kind(self) -> bool {
        self.counts@.len() == CARD_KINDS as int
    }

    /// the default deck composition
    pub fn new() -> (counts: CardCounts)
        ensures
            counts@ == spec_default_card_counts(),
    {
        let v: Vec<u32> = vec![2, 4, 7, 3, 4, 4, 4, 5, 5, 5, 5, 5, 8, 8, 10, 2, 2, 2, 2, 1, 1];
        assert(v@ == spec_default_card_counts());
        CardCounts { counts: v }
    }

    /// the count of one card kind
    pub fn get(&self, kind: u8) -> (count: u32)
        requires
            kind < CARD_KINDS,
        ensures
            count == self@[kind as int],
    {
        proof {
            use_type_invariant(self);
        }
        self.counts[kind as usize]
    }

    /// sets a card count by its settings-panel name (eg. "X2"); ignores unknown names
    pub fn set_card_count(&mut self, name: &str, value: u32)
        ensures
            forall|k: int|
                0 <= k < CARD_KINDS && spec_card_count_name(k) == name@ ==> final(self)@ == old(
                    self,
                )@.update(k, value),
            (forall|k: int| 0 <= k < CARD_KINDS ==> spec_card_count_name(k) != name@)
                ==> final(self)@ == old(self)@,
    {
        proof {
            use_type_invariant(&*self);
            lemma_card_count_names_distinct();
        }
        let mut kind: u8 = 0;
        while kind < CARD_KINDS
            invariant
                kind <= CARD_KINDS,
                self@ == old(self)@,
                self.counts@.len() == CARD_KINDS as int,
                forall|k: int| 0 <= k < kind ==> spec_card_count_name(k) != name@,
                forall|a: int, b: int|
                    0 <= a < CARD_KINDS && 0 <= b < CARD_KINDS && a != b ==> spec_card_count_name(a)
                        != spec_card_count_name(b),
            decreases CARD_KINDS - kind,
        {
            if str_equal(card_count_name(kind), name) {
                let mut updated = self.counts.clone();
                assert(updated@ =~= self.counts@);
                updated.set(kind as usize, value);
                *self = CardCounts { counts: updated };
                return;
            }
            kind = kind + 1;
        }
    }

    /// resets every card count back to its default
    pub fn reset_card_counts(&mut self)
        ensures
            final(self)@ == spec_default_card_counts(),
    {
        *self = CardCounts::new();
    }

    /// builds a fresh deck using the current card counts: kind after kind (in
    /// card-byte order) as many copies as `spec_deck_count` gives
    pub fn get_new_deck(&self) -> (deck: Vec<Card>)
        ensures
            deck@ == spec_new_deck(self@),
    {
        proof {
            use_type_invariant(self);
        }
        let mut deck: Vec<Card> = Vec::new();
        let mut kind: u8 = 0;
        while kind < CARD_KINDS
            invariant
                kind <= CARD_KINDS,
                self@.len() == CARD_KINDS as int,
                deck@ == spec_deck_prefix(self@, kind as int),
            decreases CARD_KINDS - kind,
        {
            let count = self.counts[kind as usize];
            let copies: u32 = if 1 <= kind && kind <= 3 {
                count.saturating_sub(2)
            } else {
                count
            };
            let card = byte_to_card(kind).unwrap();
            let ghost before = deck@;
            let mut j: u32 = 0;
            while j < copies
                invariant
                    j <= copies,
                    copies as nat == spec_deck_count(self@, kind as int),
                    card == card_of_kind(kind as int),
                    deck@ == before + Seq::new(j as nat, |i: int| card_of_kind(kind as int)),
                decreases copies - j,
            {
                deck.push(card);
                proof {
                    assert(deck@ =~= before + Seq::new((j + 1) as nat, |i: int| card_of_kind(kind as int)));
                }
                j = j + 1;
            }
            kind = kind + 1;
        }
        deck
    }
}

/// recovers the card kind from its settings-panel name (by length and a
/// distinguishing character)
spec fn kind_of_count_name(s: Seq<char>) -> int {
    if s.len() == 1 {
        if s[0] == 'X' { 2 } else { 6 }
    } else if s.len() == 2 {
        3
    } else if s.len() == 3 {
        if s[0] == 'O' { 1 } else if s[0] == 'C' { 4 } else if s[0] == 'S' { 5 } else if s[0] == 'D' { 7 } else { 11 }
    } else if s.len() == 4 {
        if s[0] == 'Z' { 0 } else if s[0] == 'M' { 8 } else { 9 }
    } else if s.len() == 5 {
        if s[0] == 'N' { 14 } else { 18 }
    } else if s.len() == 6 {
        if s[3] == 'I' { 19 } else { 20 }
    } else if s.len() == 7 {
        10
    } else if s.len() == 8 {
        13
    } else if s.len() == 9 {
        15
    } else if s.len() == 10 {
        12
    } else {
        if s[4] == 'P' { 16 } else { 17 }
    }
}

/// No two card kinds share a settings-panel name.
pub proof fn lemma_card_count_names_distinct()
    ensures
        forall|a: int, b: int|
            0 <= a < CARD_KINDS && 0 <= b < CARD_KINDS && a != b ==> spec_card_count_name(a)
                != spec_card_count_name(b),
{
    reveal_strlit("ZERO");
    reveal_strlit("ONE");
    reveal_strlit("X");
    reveal_strlit("X2");
    reveal_strlit("COS");
    reveal_strlit("SIN");
    reveal_strlit("E");
    reveal_strlit("DIV");
    reveal_strlit("MULT");
    reveal_strlit("SQRT");
    reveal_strlit("INVERSE");
    reveal_strlit("LOG");
    reveal_strlit("DERIVATIVE");
    reveal_strlit("INTEGRAL");
    reveal_strlit("NABLA");
    reveal_strlit("LAPLACIAN");
    reveal_strlit("LIM_POS_INF");
    reveal_strlit("LIM_NEG_INF");
    reveal_strlit("LIM_0");
    reveal_strlit("LIMINF");
    reveal_strlit("LIMSUP");
    assert(kind_of_count_name(spec_card_count_name(0)) == 0);
    assert(kind_of_count_name(spec_card_count_name(1)) == 1);
    assert(kind_of_count_name(spec_card_count_name(2)) == 2);
    assert(kind_of_count_name(spec_card_count_name(3)) == 3);
    assert(kind_of_count_name(spec_card_count_name(4)) == 4);
    assert(kind_of_count_name(spec_card_count_name(5)) == 5);
    assert(kind_of_count_name(spec_card_count_name(6)) == 6);
    assert(kind_of_count_name(spec_card_count_name(7)) == 7);
    assert(kind_of_count_name(spec_card_count_name(8)) == 8);
    assert(kind_of_count_name(spec_card_count_name(9)) == 9);
    assert(kind_of_count_name(spec_card_count_name(10)) == 10);
    assert(kind_of_count_name(spec_card_count_name(11)) == 11);
    assert(kind_of_count_name(spec_card_count_name(12)) == 12);
    assert(kind_of_count_name(spec_card_count_name(13)) == 13);
    assert(kind_of_count_name(spec_card_count_name(14)) == 14);
    assert(kind_of_count_name(spec_card_count_name(15)) == 15);
    assert(kind_of_count_name(spec_card_count_name(16)) == 16);
    assert(kind_of_count_name(spec_card_count_name(17)) == 17);
    assert(kind_of_count_name(spec_card_count_name(18)) == 18);
    assert(kind_of_count_name(spec_card_count_name(19)) == 19);
    assert(kind_of_count_name(spec_card_count_name(20)) == 20);
    assert forall|a: int, b: int|
        0 <= a < CARD_KINDS && 0 <= b < CARD_KINDS && a != b implies spec_card_count_name(a)
            != spec_card_count_name(b) by {
        assert(kind_of_count_name(spec_card_count_name(a)) == a);
        assert(kind_of_count_name(spec_card_count_name(b)) == b);
    }
}

/// copies of `target` in `n` copies of `c`
proof fn lemma_copies_in_block(n: nat, c: Card, target: Card)
    ensures
        Seq::new(n, |j: int| c).filter(|x: Card| x == target).len() == (if c == target {
            n
        } else {
            0
        }),
    decreases n,
{
    if n > 0 {
        let shorter = Seq::new((n - 1) as nat, |j: int| c);
        assert(Seq::new(n, |j: int| c) =~= shorter.push(c));
        shorter.lemma_filter_push(c, |x: Card| x == target);
        lemma_copies_in_block((n - 1) as nat, c, target);
    } else {
        assert(Seq::new(n, |j: int| c) =~= Seq::<Card>::empty());
        assert(Seq::<Card>::empty().filter(|x: Card| x == target) =~= Seq::<Card>::empty());
    }
}

/// Distinct kinds are distinct cards.
proof fn lemma_card_of_kind_byte(kind: int)
    requires
        0 <= kind < CARD_KINDS,
    ensures
        spec_card_to_byte(card_of_kind(kind)) == kind,
{
    lemma_byte_round_trip(kind as u8);
}

/// copies of the card of `kind` among the first `kinds` kinds of a deck
proof fn lemma_copies_in_prefix(counts: Seq<u32>, kinds: int, kind: int)
    requires
        0 <= kinds <= CARD_KINDS,
        0 <= kind < CARD_KINDS,
        counts.len() == CARD_KINDS,
    ensures
        spec_deck_prefix(counts, kinds).filter(|x: Card| x == card_of_kind(kind)).len() == (if kind
            < kinds {
            spec_deck_count(counts, kind)
        } else {
            0
        }),
    decreases kinds,
{
    let target = card_of_kind(kind);
    if kinds <= 0 {
        assert(spec_deck_prefix(counts, kinds) =~= Seq::<Card>::empty());
        assert(Seq::<Card>::empty().filter(|x: Card| x == target) =~= Seq::<Card>::empty());
    } else {
        let pred = |x: Card| x == target;
        let block = Seq::new(spec_deck_count(counts, kinds - 1), |j: int| card_of_kind(kinds - 1));
        Seq::filter_distributes_over_add(spec_deck_prefix(counts, kinds - 1), block, pred);
        lemma_copies_in_prefix(counts, kinds - 1, kind);
        lemma_copies_in_block(spec_deck_count(counts, kinds - 1), card_of_kind(kinds - 1), target);
        lemma_card_of_kind_byte(kinds - 1);
        lemma_card_of_kind_byte(kind);
    }
}

/// A fresh deck holds exactly `spec_deck_count` copies of every card kind: the
/// configured count, less the 2 copies of ONE/X/X2 already on the field.
pub proof fn lemma_new_deck_copies(counts: Seq<u32>, kind: int)
    requires
        counts.len() == CARD_KINDS,
        0 <= kind < CARD_KINDS,
    ensures
        spec_new_deck(counts).filter(|x: Card| x == card_of_kind(kind)).len() == spec_deck_count(
            counts,
            kind,
        ),
{
    lemma_copies_in_prefix(counts, CARD_KINDS as int, kind);
}

} // verus!
