use nabla_game::basis::structs::Basis;
use nabla_game::events::mousedown_handler::{clear_linearly_dependent_pairs, player_for_turn, winner};
use nabla_game::game::cards::BasisCard;
use nabla_game::game::field::{Field, FieldBasis};
use nabla_game::math::fraction::Fraction;

fn field_of(slots: [Option<Basis>; 6]) -> Field {
    let [a, b, c, d, e, f] = slots;
    Field {
        basis: [
            FieldBasis { basis: a },
            FieldBasis { basis: b },
            FieldBasis { basis: c },
            FieldBasis { basis: d },
            FieldBasis { basis: e },
            FieldBasis { basis: f },
        ],
    }
}

fn occupied(field: &Field) -> Vec<bool> {
    field.basis.iter().map(|s| s.basis.is_some()).collect()
}

#[test]
fn test_turns_alternate_starting_with_player_one() {
    assert_eq!(player_for_turn(0), 1);
    assert_eq!(player_for_turn(1), 2);
    assert_eq!(player_for_turn(2), 1);
    assert_eq!(player_for_turn(17), 2);
}

#[test]
fn test_winner_is_whoever_still_holds_a_slot() {
    let x = || Some(Basis::x());
    assert_eq!(winner(&field_of([x(), None, None, x(), None, None]), 1), None);
    assert_eq!(winner(&field_of([None, None, None, x(), None, None]), 1), Some(1));
    assert_eq!(winner(&field_of([None, None, None, x(), None, None]), 2), Some(1));
    assert_eq!(winner(&field_of([None, x(), None, None, None, None]), 1), Some(2));
    assert_eq!(winner(&field_of([None, x(), None, None, None, None]), 2), Some(2));
    // both sides empty: the mover's own side is checked first, so the mover loses
    assert_eq!(winner(&field_of([None, None, None, None, None, None]), 2), Some(1));
    assert_eq!(winner(&field_of([None, None, None, None, None, None]), 1), Some(2));
}

#[test]
fn test_scalar_multiples_on_one_side_keep_only_the_first() {
    let two_x = Basis::x().mul_fraction(Fraction::from_int(2));
    let mut field = field_of([
        Some(Basis::x()),
        Some(Basis::from_card(BasisCard::X2)),
        Some(two_x),
        // the other side: x and x^2 are not multiples of each other
        Some(Basis::x()),
        Some(Basis::from_card(BasisCard::X2)),
        None,
    ]);
    clear_linearly_dependent_pairs(&mut field);
    assert_eq!(occupied(&field), vec![true, true, false, true, true, false]);
    // slots across the two sides never clear each other
    assert!(field.basis[0].basis.as_ref().unwrap().equals(&Basis::x()));
    assert!(field.basis[3].basis.as_ref().unwrap().equals(&Basis::x()));
}

#[test]
fn test_a_cleared_slot_does_not_protect_a_later_multiple() {
    let half_cos = Basis::from_card(BasisCard::Cos).mul_fraction(Fraction::from_pair((1, 2)));
    let mut field = field_of([
        None,
        None,
        None,
        Some(Basis::from_card(BasisCard::Cos)),
        Some(half_cos),
        Some(Basis::from_card(BasisCard::Cos)),
    ]);
    clear_linearly_dependent_pairs(&mut field);
    assert_eq!(occupied(&field), vec![false, false, false, true, false, false]);
}
