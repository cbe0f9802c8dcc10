use nabla_game::game::card_counts::CardCounts;
use nabla_game::game::card_encoding::byte_to_card;
use nabla_game::game::cards::{BasisCard, Card, LimitCard};

const DEFAULTS: [u32; 21] = [2, 4, 7, 3, 4, 4, 4, 5, 5, 5, 5, 5, 8, 8, 10, 2, 2, 2, 2, 1, 1];

fn copies(deck: &[Card], card: Card) -> usize {
    deck.iter().filter(|c| **c == card).count()
}

#[test]
fn test_default_deck_leaves_out_the_cards_already_on_the_field() {
    let counts = CardCounts::new();
    let deck = counts.get_new_deck();
    // every default count, less 2 for ONE/X/X2
    assert_eq!(deck.len(), 89 - 6);
    assert_eq!(copies(&deck, Card::BasisCard(BasisCard::Zero)), 2);
    assert_eq!(copies(&deck, Card::BasisCard(BasisCard::One)), 2);
    assert_eq!(copies(&deck, Card::BasisCard(BasisCard::X)), 5);
    assert_eq!(copies(&deck, Card::BasisCard(BasisCard::X2)), 1);
    assert_eq!(copies(&deck, Card::LimitCard(LimitCard::Limsup)), 1);
    // kinds come in card-byte order
    assert_eq!(deck[0], Card::BasisCard(BasisCard::Zero));
    assert_eq!(deck[deck.len() - 1], Card::LimitCard(LimitCard::Limsup));
    for k in 0..21u8 {
        assert_eq!(counts.get(k), DEFAULTS[k as usize]);
    }
}

#[test]
fn test_set_card_count_by_name_and_reset() {
    let mut counts = CardCounts::new();
    counts.set_card_count("X2", 9);
    counts.set_card_count("LIMSUP", 0);
    counts.set_card_count("NOT_A_CARD", 50);
    assert_eq!(counts.get(3), 9);
    assert_eq!(counts.get(20), 0);
    let deck = counts.get_new_deck();
    assert_eq!(copies(&deck, Card::BasisCard(BasisCard::X2)), 7);
    assert_eq!(copies(&deck, Card::LimitCard(LimitCard::Limsup)), 0);
    counts.reset_card_counts();
    for k in 0..21u8 {
        assert_eq!(counts.get(k), DEFAULTS[k as usize]);
    }
}

#[test]
fn test_field_cards_saturate_at_zero() {
    let mut counts = CardCounts::new();
    counts.set_card_count("ONE", 1);
    counts.set_card_count("X", 0);
    let deck = counts.get_new_deck();
    assert_eq!(copies(&deck, Card::BasisCard(BasisCard::One)), 0);
    assert_eq!(copies(&deck, Card::BasisCard(BasisCard::X)), 0);
    assert_eq!(copies(&deck, byte_to_card(4).unwrap()), 4);
}
