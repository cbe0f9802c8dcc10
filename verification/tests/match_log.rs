use nabla_game::game::card_encoding::cards_to_bytes;
use nabla_game::game::cards::{AlgebraicCard, BasisCard, Card, DerivativeCard, LimitCard};
use nabla_game::game::match_log::{push_string, MatchLog};

fn sample_field() -> [String; 6] {
    [
        "\\cos(x)".to_string(),
        String::new(),
        "x^{2}".to_string(),
        "1".to_string(),
        "x".to_string(),
        String::new(),
    ]
}

fn prefixed_string(s: &str) -> Vec<u8> {
    let mut bytes = Vec::new();
    push_string(&mut bytes, s);
    bytes
}

#[test]
fn test_encode_includes_the_starting_deck() {
    let deck = vec![
        Card::BasisCard(BasisCard::X),
        Card::AlgebraicCard(AlgebraicCard::Mult),
        Card::DerivativeCard(DerivativeCard::Integral),
        Card::LimitCard(LimitCard::Lim0),
    ];
    let mut log = MatchLog::new();
    log.reset(&deck);
    let bytes = log.encode();

    let deck_len = u16::from_le_bytes([bytes[0], bytes[1]]) as usize;
    assert_eq!(deck_len, deck.len());
    let deck_bytes = &bytes[2..2 + deck_len];
    assert_eq!(deck_bytes.to_vec(), cards_to_bytes(&deck));

    // no turns recorded -- turn_count follows immediately after the deck
    let turn_count = u16::from_le_bytes([bytes[2 + deck_len], bytes[3 + deck_len]]);
    assert_eq!(turn_count, 0);
    assert_eq!(bytes.len(), 2 + deck_len + 2);
}

#[test]
fn test_encode_includes_hand_cards_played_and_resulting_field() {
    let mut log = MatchLog::new();
    log.reset(&[]);
    let hand_before = vec![
        Card::DerivativeCard(DerivativeCard::Integral),
        Card::BasisCard(BasisCard::Cos),
    ];
    let cards_played = vec![Card::BasisCard(BasisCard::Cos)];
    log.record_turn(2, &hand_before, cards_played.clone(), sample_field());

    let bytes = log.encode();
    // [deck_len:u16=0][turn_count:u16=1]
    let mut expected = vec![0, 0, 1, 0];
    expected.push(2); // mover
    expected.push(2); // hand_before count
    expected.extend(cards_to_bytes(&hand_before));
    expected.push(1); // cards_played count
    expected.extend(cards_to_bytes(&cards_played));
    for slot in sample_field() {
        expected.extend(prefixed_string(&slot));
    }
    assert_eq!(bytes, expected);
}

#[test]
fn test_two_turns_encode_and_decode_boundaries_correctly() {
    let mut log = MatchLog::new();
    log.reset(&[]);
    log.record_turn(1, &[Card::BasisCard(BasisCard::X)], vec![Card::BasisCard(BasisCard::X)], [
        "1".to_string(),
        "x".to_string(),
        "x^{2}".to_string(),
        "1".to_string(),
        "x".to_string(),
        "x^{2}".to_string(),
    ]);
    log.record_turn(
        2,
        &[Card::BasisCard(BasisCard::Cos), Card::BasisCard(BasisCard::Zero)],
        vec![Card::BasisCard(BasisCard::Cos), Card::BasisCard(BasisCard::Zero)],
        sample_field(),
    );

    let bytes = log.encode();
    let turn_count = u16::from_le_bytes([bytes[2], bytes[3]]);
    assert_eq!(turn_count, 2);

    // manually walk the byte stream to confirm the two turns don't overlap
    // or corrupt each other's boundaries
    let mut pos = 4usize;
    for expected_mover in [1u8, 2u8] {
        assert_eq!(bytes[pos], expected_mover);
        pos += 1;
        let hand_count = bytes[pos] as usize;
        pos += 1 + hand_count;
        let played_count = bytes[pos] as usize;
        pos += 1 + played_count;
        for _ in 0..6 {
            let str_len = u16::from_le_bytes([bytes[pos], bytes[pos + 1]]) as usize;
            pos += 2 + str_len;
        }
    }
    assert_eq!(pos, bytes.len(), "byte walk didn't land exactly on the end of the buffer");
}

#[test]
fn test_push_string_prefixes_the_utf8_byte_length() {
    assert_eq!(prefixed_string(""), vec![0, 0]);
    assert_eq!(prefixed_string("ab"), vec![2, 0, b'a', b'b']);
    // a 3-byte UTF-8 character counts as 3 bytes
    assert_eq!(prefixed_string("\u{2192}"), vec![3, 0, 0xE2, 0x86, 0x92]);
    let long = "y".repeat(300);
    let bytes = prefixed_string(&long);
    assert_eq!(&bytes[0..2], &[44, 1]);
    assert_eq!(bytes.len(), 302);
}
