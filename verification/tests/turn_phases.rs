use nabla_game::basis::structs::{Basis, BasisElement, BasisLeaf};
use nabla_game::events::mousedown_handler::{
    branch_turn_phase, cards_played, click_is_allowed, deal_targets, discard_used_cards,
    end_turn, field_select_slots, hand_id, idle_turn_phase, multi_select_accepts,
    multi_select_operands, multi_select_ready, multi_select_result_field, select_basis_target,
    select_operator_result, used_hand_indices, ClickRoute, TurnPhase, commit_or_confirm,
    next_phase, next_turn, MoveOutcome, Turn, handle_mousedown, confirm_after_replay, deal_card,
    handle_derivative_card, Replay, ReplayStep,
};
use nabla_game::game::online::OnlineSession;
use nabla_game::game::cards::{AlgebraicCard, BasisCard, Card, DerivativeCard, LimitCard};
use nabla_game::game::field::{Field, FieldBasis};
use nabla_game::math::fraction::Fraction;
use nabla_game::render::util::RenderId;

fn field_of(slots: [Option<Basis>; 6]) -> Field {
    let [a, b, c, d, e, f] = slots;
    Field {
        basis: [
            FieldBasis { basis: a },
            FieldBasis { basis: b },
            FieldBasis { basis: c },
            FieldBasis { basis: d },
            FieldBasis { basis: e },
            FieldBasis { basis: f },
        ],
    }
}

fn full_field() -> Field {
    field_of([
        Some(Basis::x()),
        Some(Basis::x()),
        Some(Basis::x()),
        Some(Basis::x()),
        Some(Basis::x()),
        Some(Basis::x()),
    ])
}

fn slot_equals(field: &Field, i: usize, expected: &Basis) -> bool {
    match &field.basis[i].basis {
        Some(b) => b.equals(expected),
        None => false,
    }
}

fn leaf(n: i32, element: BasisElement) -> Basis {
    Basis::BasisLeaf(BasisLeaf { coefficient: Fraction { n, d: 1 }, element })
}

#[test]
fn test_basis_card_needs_an_empty_slot() {
    let card = Card::BasisCard(BasisCard::X);
    assert_eq!(idle_turn_phase(card, &full_field(), 4), None);
    let mut field = full_field();
    field.basis[4] = FieldBasis::none();
    assert_eq!(idle_turn_phase(card, &field, 4), Some(TurnPhase::SELECT(card)));
}

#[test]
fn test_each_card_family_enters_its_phase() {
    let field = full_field();
    let derivative = Card::DerivativeCard(DerivativeCard::Derivative);
    let integral = Card::DerivativeCard(DerivativeCard::Integral);
    let nabla = Card::DerivativeCard(DerivativeCard::Nabla);
    let mult = Card::AlgebraicCard(AlgebraicCard::Mult);
    let div = Card::AlgebraicCard(AlgebraicCard::Div);
    let sqrt = Card::AlgebraicCard(AlgebraicCard::Sqrt);
    let limit = Card::LimitCard(LimitCard::Lim0);
    assert_eq!(idle_turn_phase(derivative, &field, 0), Some(TurnPhase::SELECT(derivative)));
    assert_eq!(idle_turn_phase(integral, &field, 0), Some(TurnPhase::SELECT(integral)));
    assert_eq!(idle_turn_phase(nabla, &field, 0), Some(TurnPhase::FIELD_SELECT(nabla)));
    assert_eq!(idle_turn_phase(mult, &field, 0), Some(TurnPhase::MULTISELECT(mult)));
    assert_eq!(idle_turn_phase(div, &field, 0), Some(TurnPhase::MULTISELECT(div)));
    assert_eq!(idle_turn_phase(sqrt, &field, 0), Some(TurnPhase::SELECT(sqrt)));
    assert_eq!(idle_turn_phase(limit, &field, 0), Some(TurnPhase::SELECT(limit)));
}

#[test]
fn test_laplacian_is_not_playable_on_either_players_first_turn() {
    let laplacian = Card::DerivativeCard(DerivativeCard::Laplacian);
    let field = full_field();
    assert_eq!(idle_turn_phase(laplacian, &field, 0), None);
    assert_eq!(idle_turn_phase(laplacian, &field, 1), None);
    assert_eq!(idle_turn_phase(laplacian, &field, 2), Some(TurnPhase::FIELD_SELECT(laplacian)));
}

#[test]
fn test_clicks_are_routed_by_phase() {
    let mult = Card::AlgebraicCard(AlgebraicCard::Mult);
    let nabla = Card::DerivativeCard(DerivativeCard::Nabla);
    // cancel always cancels
    assert_eq!(branch_turn_phase(TurnPhase::SELECT(mult), RenderId::Cancel, 1), ClickRoute::CancelMove);
    // confirm only confirms a move awaiting confirmation
    assert_eq!(branch_turn_phase(TurnPhase::CONFIRM, RenderId::Confirm, 1), ClickRoute::ConfirmMove);
    assert_eq!(branch_turn_phase(TurnPhase::IDLE, RenderId::Confirm, 1), ClickRoute::Ignore);
    // idle: only the mover's own hand
    assert_eq!(branch_turn_phase(TurnPhase::IDLE, RenderId::PlayerOne3, 1), ClickRoute::PickHandCard(3));
    assert_eq!(branch_turn_phase(TurnPhase::IDLE, RenderId::PlayerTwo3, 1), ClickRoute::Ignore);
    assert_eq!(branch_turn_phase(TurnPhase::IDLE, RenderId::PlayerTwo6, 2), ClickRoute::PickHandCard(6));
    assert_eq!(branch_turn_phase(TurnPhase::IDLE, RenderId::Field2, 1), ClickRoute::Ignore);
    // field select: only field slots
    assert_eq!(
        branch_turn_phase(TurnPhase::FIELD_SELECT(nabla), RenderId::Field4, 2),
        ClickRoute::SelectSide(nabla, 4)
    );
    assert_eq!(branch_turn_phase(TurnPhase::FIELD_SELECT(nabla), RenderId::Deck, 2), ClickRoute::Ignore);
    assert_eq!(branch_turn_phase(TurnPhase::MULTISELECT(mult), RenderId::Multidone, 2), ClickRoute::MultiSelect(mult));
    assert_eq!(branch_turn_phase(TurnPhase::SELECT(mult), RenderId::Field0, 2), ClickRoute::SelectTarget(mult));
}

#[test]
fn test_basis_card_goes_only_onto_an_empty_slot() {
    let mut field = full_field();
    field.basis[2] = FieldBasis::none();
    // occupied slot
    assert!(select_basis_target(&field, BasisCard::X2, RenderId::Field1).is_none());
    // not a slot
    assert!(select_basis_target(&field, BasisCard::X2, RenderId::Deck).is_none());
    // zero is never placed
    assert!(select_basis_target(&field, BasisCard::Zero, RenderId::Field2).is_none());
    let (new_field, changed) = select_basis_target(&field, BasisCard::X2, RenderId::Field2).unwrap();
    assert_eq!(changed, vec![2]);
    assert!(slot_equals(&new_field, 2, &Basis::from_card(BasisCard::X2)));
    assert!(slot_equals(&new_field, 0, &Basis::x()));
    // the field it was given is untouched
    assert!(field.basis[2].basis.is_none());
}

#[test]
fn test_operator_result_of_zero_or_infinity_clears_the_slot() {
    let field = full_field();
    let cleared = select_operator_result(&field, 1, &Basis::from_int(0));
    assert!(cleared.basis[1].basis.is_none());
    let cleared = select_operator_result(&field, 1, &leaf(1, BasisElement::Inf));
    assert!(cleared.basis[1].basis.is_none());
    let cleared = select_operator_result(&field, 1, &leaf(-1, BasisElement::Inf));
    assert!(cleared.basis[1].basis.is_none());
    let kept = select_operator_result(&field, 1, &Basis::from_card(BasisCard::Cos));
    assert!(slot_equals(&kept, 1, &Basis::from_card(BasisCard::Cos)));
    let kept = select_operator_result(&field, 1, &leaf(2, BasisElement::Inf));
    assert!(slot_equals(&kept, 1, &leaf(2, BasisElement::Inf)));
    // a zero written as 0/5 is still zero
    let zero = Basis::BasisLeaf(BasisLeaf { coefficient: Fraction { n: 0, d: 5 }, element: BasisElement::Num });
    assert!(select_operator_result(&field, 1, &zero).basis[1].basis.is_none());
}

#[test]
fn test_nabla_acts_on_the_clicked_side() {
    assert_eq!(field_select_slots(0), vec![0, 1, 2]);
    assert_eq!(field_select_slots(2), vec![0, 1, 2]);
    assert_eq!(field_select_slots(3), vec![3, 4, 5]);
    assert_eq!(field_select_slots(5), vec![3, 4, 5]);
}

#[test]
fn test_mult_collects_field_slots_and_hand_basis_cards() {
    let hand = vec![
        Card::AlgebraicCard(AlgebraicCard::Mult),
        Card::BasisCard(BasisCard::Zero),
        Card::DerivativeCard(DerivativeCard::Nabla),
    ];
    let just_the_operator = vec![RenderId::PlayerOne0];
    assert!(multi_select_accepts(RenderId::Field3, &just_the_operator, &hand, 1));
    assert!(multi_select_accepts(RenderId::PlayerOne1, &just_the_operator, &hand, 1));
    assert!(!multi_select_accepts(RenderId::PlayerOne2, &just_the_operator, &hand, 1));
    assert!(!multi_select_accepts(RenderId::PlayerOne0, &just_the_operator, &hand, 1));
    // the other player's hand is never an operand
    assert!(!multi_select_accepts(RenderId::PlayerTwo1, &just_the_operator, &hand, 1));
    assert!(!multi_select_accepts(RenderId::Deck, &just_the_operator, &hand, 1));
}

#[test]
fn test_mult_drops_a_second_field_slot() {
    let hand = vec![Card::AlgebraicCard(AlgebraicCard::Div), Card::BasisCard(BasisCard::X)];
    let one_field = vec![RenderId::PlayerTwo0, RenderId::Field1];
    assert!(!multi_select_accepts(RenderId::Field4, &one_field, &hand, 2));
    assert!(!multi_select_accepts(RenderId::Field1, &one_field, &hand, 2));
    // a hand basis card is still welcome
    assert!(multi_select_accepts(RenderId::PlayerTwo1, &one_field, &hand, 2));
}

#[test]
fn test_mult_is_ready_only_when_complete() {
    let hand = vec![
        Card::AlgebraicCard(AlgebraicCard::Mult),
        Card::BasisCard(BasisCard::Zero),
        Card::BasisCard(BasisCard::X),
    ];
    let two_fields = vec![RenderId::PlayerOne0, RenderId::Field0, RenderId::Field1];
    assert!(multi_select_ready(&two_fields, RenderId::Multidone, &hand));
    // the done button must be the click
    assert!(!multi_select_ready(&two_fields, RenderId::Field1, &hand));
    // one operand is not enough
    let one_field = vec![RenderId::PlayerOne0, RenderId::Field0];
    assert!(!multi_select_ready(&one_field, RenderId::Multidone, &hand));
    // at least one field slot
    let no_field = vec![RenderId::PlayerOne0, RenderId::PlayerOne1, RenderId::PlayerOne2];
    assert!(!multi_select_ready(&no_field, RenderId::Multidone, &hand));
    // a zero with exactly one other operand is fine
    let zero_pair = vec![RenderId::PlayerOne0, RenderId::Field0, RenderId::PlayerOne1];
    assert!(multi_select_ready(&zero_pair, RenderId::Multidone, &hand));
    // a zero with more operands is not
    let zero_many = vec![RenderId::PlayerOne0, RenderId::Field0, RenderId::PlayerOne1, RenderId::Field1];
    assert!(!multi_select_ready(&zero_many, RenderId::Multidone, &hand));
    let many = vec![RenderId::PlayerOne0, RenderId::Field0, RenderId::PlayerOne2, RenderId::Field1];
    assert!(multi_select_ready(&many, RenderId::Multidone, &hand));
}

#[test]
fn test_mult_operands_and_result() {
    let hand = vec![Card::AlgebraicCard(AlgebraicCard::Mult), Card::BasisCard(BasisCard::Cos)];
    let field = field_of([Some(Basis::x()), None, Some(Basis::from_card(BasisCard::X2)), None, None, None]);
    let selected = vec![RenderId::PlayerTwo0, RenderId::Field2, RenderId::PlayerTwo1, RenderId::Field0];
    let operands = multi_select_operands(&selected, &field, &hand, 2);
    assert_eq!(operands.len(), 3);
    assert!(operands[0].equals(&Basis::from_card(BasisCard::X2)));
    assert!(operands[1].equals(&Basis::from_card(BasisCard::Cos)));
    assert!(operands[2].equals(&Basis::x()));

    // the result lands in the first selected slot, the other used slot empties
    let product = Basis::from_card(BasisCard::Sin);
    let (new_field, used) = multi_select_result_field(&field, &selected, &product);
    assert_eq!(used, vec![2, 0]);
    assert!(slot_equals(&new_field, 2, &product));
    assert!(new_field.basis[0].basis.is_none());
    // a zero result empties every used slot
    let (new_field, _) = multi_select_result_field(&field, &selected, &Basis::from_int(0));
    assert!(new_field.basis[0].basis.is_none());
    assert!(new_field.basis[2].basis.is_none());
}

#[test]
fn test_played_cards_are_removed_largest_position_first() {
    let selected = vec![RenderId::PlayerOne1, RenderId::Field0, RenderId::PlayerOne4, RenderId::PlayerOne2];
    assert_eq!(used_hand_indices(&selected), vec![4, 2, 1]);
    assert_eq!(used_hand_indices(&vec![RenderId::Field0]), Vec::<usize>::new());

    let mut hand = vec![
        Card::BasisCard(BasisCard::Zero),
        Card::BasisCard(BasisCard::One),
        Card::BasisCard(BasisCard::X),
        Card::BasisCard(BasisCard::X2),
        Card::BasisCard(BasisCard::Cos),
    ];
    let played = cards_played(&selected, &hand);
    assert_eq!(
        played,
        vec![Card::BasisCard(BasisCard::One), Card::BasisCard(BasisCard::Cos), Card::BasisCard(BasisCard::X)]
    );
    let mut graveyard = vec![Card::LimitCard(LimitCard::Lim0)];
    discard_used_cards(&mut hand, &mut graveyard, &vec![4, 2, 1]);
    assert_eq!(hand, vec![Card::BasisCard(BasisCard::Zero), Card::BasisCard(BasisCard::X2)]);
    assert_eq!(
        graveyard,
        vec![
            Card::LimitCard(LimitCard::Lim0),
            Card::BasisCard(BasisCard::Cos),
            Card::BasisCard(BasisCard::X),
            Card::BasisCard(BasisCard::One),
        ]
    );
}

#[test]
fn test_deal_targets_fill_up_to_seven_or_the_deck() {
    assert_eq!(
        deal_targets(2, 5, 40),
        vec![RenderId::PlayerTwo5, RenderId::PlayerTwo6]
    );
    assert_eq!(deal_targets(1, 4, 6), vec![RenderId::PlayerOne4, RenderId::PlayerOne5, RenderId::PlayerOne6]);
    assert_eq!(deal_targets(1, 7, 40), Vec::<RenderId>::new());
    // the hand is redrawn up to 7 cards, as far as the deck allows
    assert_eq!(deal_targets(1, 5, 3), vec![RenderId::PlayerOne5, RenderId::PlayerOne6]);
    assert_eq!(deal_targets(2, 2, 3), vec![RenderId::PlayerTwo2, RenderId::PlayerTwo3, RenderId::PlayerTwo4]);
    assert_eq!(deal_targets(2, 6, 0), Vec::<RenderId>::new());
    assert_eq!(hand_id(1, 0), RenderId::PlayerOne0);
    assert_eq!(hand_id(2, 6), RenderId::PlayerTwo6);
}

#[test]
fn test_end_turn_discards_clears_and_deals() {
    let mut hand = vec![
        Card::AlgebraicCard(AlgebraicCard::Mult),
        Card::BasisCard(BasisCard::X),
        Card::BasisCard(BasisCard::Cos),
    ];
    let mut graveyard = vec![];
    let two_x = Basis::x().mul_fraction(Fraction::from_int(2));
    let mut field = field_of([Some(Basis::x()), Some(two_x), None, Some(Basis::x()), None, None]);
    let selected = vec![RenderId::PlayerOne0, RenderId::Field0, RenderId::PlayerOne1];
    let deal = end_turn(&mut hand, &mut graveyard, &mut field, &selected, 0, 30, false);
    assert_eq!(hand, vec![Card::BasisCard(BasisCard::Cos)]);
    assert_eq!(graveyard, vec![Card::BasisCard(BasisCard::X), Card::AlgebraicCard(AlgebraicCard::Mult)]);
    // 2x is a multiple of x on the same side
    assert!(field.basis[1].basis.is_none());
    assert!(field.basis[0].basis.is_some());
    assert_eq!(deal.len(), 6);
    assert_eq!(deal[0], RenderId::PlayerOne1);

    // with linear dependence allowed the field stays as it was
    let two_x = Basis::x().mul_fraction(Fraction::from_int(2));
    let mut field = field_of([Some(Basis::x()), Some(two_x), None, None, None, None]);
    let mut hand = vec![Card::BasisCard(BasisCard::X)];
    let _ = end_turn(&mut hand, &mut graveyard, &mut field, &vec![], 1, 0, true);
    assert!(field.basis[1].basis.is_some());
    assert_eq!(hand.len(), 1);
}

#[test]
fn test_clicks_during_someone_elses_turn_are_ignored() {
    // a game against the AI: its turns belong to it
    assert!(!click_is_allowed(2, true, false, None));
    assert!(click_is_allowed(1, true, false, None));
    // an online game: only the local player's turns
    assert!(click_is_allowed(2, false, true, Some(2)));
    assert!(!click_is_allowed(1, false, true, Some(2)));
    // a local game between two people
    assert!(click_is_allowed(1, false, false, None));
    assert!(click_is_allowed(2, false, false, None));
}

#[test]
fn test_confirm_before_play_previews_the_move() {
    let mut turn = Turn { number: 4, phase: TurnPhase::SELECT(Card::BasisCard(BasisCard::X)) };
    let mut new_field = full_field();
    new_field.basis[2] = FieldBasis::none();
    match commit_or_confirm(&mut turn, new_field, vec![2], true) {
        MoveOutcome::AwaitConfirm(pending) => {
            assert_eq!(pending.changed_indices, vec![2]);
            assert!(pending.field.basis[2].basis.is_none());
        }
        MoveOutcome::Commit(_) => panic!("the move should wait for confirmation"),
    }
    assert_eq!(turn, Turn { number: 4, phase: TurnPhase::CONFIRM });

    let mut turn = Turn { number: 5, phase: TurnPhase::IDLE };
    match commit_or_confirm(&mut turn, full_field(), vec![0], false) {
        MoveOutcome::Commit(field) => assert!(field.basis[0].basis.is_some()),
        MoveOutcome::AwaitConfirm(_) => panic!("the move should be committed at once"),
    }
    assert_eq!(turn, Turn { number: 5, phase: TurnPhase::IDLE });
}

#[test]
fn test_next_turn_starts_idle_and_reports_the_winner() {
    let mut turn = Turn { number: 7, phase: TurnPhase::CONFIRM };
    next_phase(&mut turn, TurnPhase::IDLE);
    assert_eq!(turn, Turn { number: 7, phase: TurnPhase::IDLE });
    let mut selected = vec![RenderId::PlayerTwo1, RenderId::Field0];
    let mut offline: Option<OnlineSession> = None;
    assert_eq!(next_turn(&mut turn, &mut selected, &full_field(), false, &mut offline), (None, None));
    assert_eq!(turn, Turn { number: 8, phase: TurnPhase::IDLE });
    assert!(selected.is_empty());
    assert!(offline.is_none());
    let mut field = full_field();
    field.basis[0] = FieldBasis::none();
    field.basis[1] = FieldBasis::none();
    field.basis[2] = FieldBasis::none();
    // turn 8 is player 1's, who emptied player 2's side
    assert_eq!(next_turn(&mut turn, &mut selected, &field, false, &mut offline).0, Some(1));
}

#[test]
fn test_next_turn_flushes_the_online_buffer_once() {
    let mut turn = Turn { number: 2, phase: TurnPhase::IDLE };
    let mut session = Some(OnlineSession::new(1));
    let mut selected = vec![];
    assert_eq!(handle_mousedown(&turn, RenderId::PlayerOne3, false, true, &mut session), ClickRoute::PickHandCard(3));
    let select = Turn { number: 2, phase: TurnPhase::SELECT(Card::BasisCard(BasisCard::X)) };
    let _ = handle_mousedown(&select, RenderId::Field4, false, true, &mut session);
    let (game_over, message) = next_turn(&mut turn, &mut selected, &full_field(), true, &mut session);
    assert_eq!(game_over, None);
    assert_eq!(message, Some(vec!["p1=3".to_string(), "f=4".to_string()]));
    // nothing is left to send
    let (_, message) = next_turn(&mut turn, &mut selected, &full_field(), true, &mut session);
    assert_eq!(message, None);
}

#[test]
fn test_clicks_are_dispatched_to_the_player_whose_turn_it_is() {
    let idle_even = Turn { number: 2, phase: TurnPhase::IDLE };
    let idle_odd = Turn { number: 3, phase: TurnPhase::IDLE };
    let mut offline: Option<OnlineSession> = None;
    // even turns are player 1's
    assert_eq!(handle_mousedown(&idle_even, RenderId::PlayerOne2, false, false, &mut offline), ClickRoute::PickHandCard(2));
    assert_eq!(handle_mousedown(&idle_even, RenderId::PlayerTwo2, false, false, &mut offline), ClickRoute::Ignore);
    assert_eq!(handle_mousedown(&idle_odd, RenderId::PlayerTwo2, false, false, &mut offline), ClickRoute::PickHandCard(2));
    // the AI's turn belongs to the AI
    assert_eq!(handle_mousedown(&idle_odd, RenderId::PlayerTwo2, true, false, &mut offline), ClickRoute::Ignore);
    assert_eq!(handle_mousedown(&idle_odd, RenderId::Cancel, true, false, &mut offline), ClickRoute::Ignore);
    // online, only the local player's turns, and those clicks are buffered
    let mut online = Some(OnlineSession::new(1));
    assert_eq!(handle_mousedown(&idle_odd, RenderId::PlayerTwo2, false, true, &mut online), ClickRoute::Ignore);
    assert_eq!(handle_mousedown(&idle_even, RenderId::PlayerOne0, false, true, &mut online), ClickRoute::PickHandCard(0));
    assert_eq!(online.as_mut().unwrap().take_outgoing(), vec![RenderId::PlayerOne0]);
}

#[test]
fn test_a_replay_ends_with_a_confirm_only_when_one_is_awaited() {
    assert_eq!(confirm_after_replay(TurnPhase::CONFIRM), Some(RenderId::Confirm));
    assert_eq!(confirm_after_replay(TurnPhase::IDLE), None);
}

#[test]
fn test_deal_card_moves_the_top_of_the_deck_into_the_named_hand() {
    let mut player_1 = vec![Card::BasisCard(BasisCard::X)];
    let mut player_2 = vec![];
    let mut deck = vec![Card::BasisCard(BasisCard::Cos), Card::LimitCard(LimitCard::Lim0)];
    deal_card(&mut player_1, &mut player_2, &mut deck, RenderId::PlayerTwo0);
    assert_eq!(player_2, vec![Card::LimitCard(LimitCard::Lim0)]);
    deal_card(&mut player_1, &mut player_2, &mut deck, RenderId::PlayerOne1);
    assert_eq!(player_1, vec![Card::BasisCard(BasisCard::X), Card::BasisCard(BasisCard::Cos)]);
    assert!(deck.is_empty());
}

#[test]
fn test_online_clicks_are_ignored_without_a_session() {
    let idle_even = Turn { number: 2, phase: TurnPhase::IDLE };
    let mut lost: Option<OnlineSession> = None;
    // an online game that holds no session acts on no click
    assert_eq!(handle_mousedown(&idle_even, RenderId::PlayerOne2, false, true, &mut lost), ClickRoute::Ignore);
    assert_eq!(handle_mousedown(&idle_even, RenderId::Cancel, false, true, &mut lost), ClickRoute::Ignore);
    assert!(lost.is_none());
    assert!(!click_is_allowed(1, false, true, None));
    assert!(click_is_allowed(1, false, false, None));
    // a session kept while playing offline is left alone
    let mut kept = Some(OnlineSession::new(1));
    assert_eq!(handle_mousedown(&idle_even, RenderId::PlayerOne2, false, false, &mut kept), ClickRoute::PickHandCard(2));
    assert!(kept.as_mut().unwrap().take_outgoing().is_empty());
    let mut turn = Turn { number: 2, phase: TurnPhase::IDLE };
    let mut selected = vec![];
    let mut session = Some(OnlineSession::new(1));
    let _ = handle_mousedown(&turn, RenderId::PlayerOne3, false, true, &mut session);
    // offline, the buffer is not flushed
    assert_eq!(next_turn(&mut turn, &mut selected, &full_field(), false, &mut session).1, None);
    assert_eq!(session.as_mut().unwrap().take_outgoing(), vec![RenderId::PlayerOne3]);
}

#[test]
fn test_a_replay_routes_each_click_for_the_remote_player_then_confirms() {
    let select = TurnPhase::SELECT(Card::AlgebraicCard(AlgebraicCard::Sqrt));
    let mut replay = Replay::new(2, vec![RenderId::PlayerTwo1, RenderId::Field3]);
    assert_eq!(
        replay.step(TurnPhase::IDLE),
        ReplayStep::Apply(RenderId::PlayerTwo1, ClickRoute::PickHandCard(1))
    );
    assert_eq!(
        replay.step(select),
        ReplayStep::Apply(RenderId::Field3, ClickRoute::SelectTarget(Card::AlgebraicCard(AlgebraicCard::Sqrt)))
    );
    // the move awaits confirmation: the replay presses the confirm button once
    assert_eq!(replay.step(TurnPhase::CONFIRM), ReplayStep::Apply(RenderId::Confirm, ClickRoute::ConfirmMove));
    assert_eq!(replay.step(TurnPhase::CONFIRM), ReplayStep::Done);
    assert_eq!(replay.step(TurnPhase::IDLE), ReplayStep::Done);
    // a committed move needs no confirmation
    let mut replay = Replay::new(1, vec![RenderId::PlayerOne0]);
    assert_eq!(
        replay.step(TurnPhase::IDLE),
        ReplayStep::Apply(RenderId::PlayerOne0, ClickRoute::PickHandCard(0))
    );
    assert_eq!(replay.step(TurnPhase::IDLE), ReplayStep::Done);
    // nothing to replay
    let mut replay = Replay::new(1, vec![]);
    assert_eq!(replay.step(TurnPhase::IDLE), ReplayStep::Done);
}

#[test]
fn test_a_derivative_card_replaces_or_empties_its_slot() {
    let one = Basis::from_int(1);
    let zero = Basis::from_int(0);
    let x = Basis::x();
    let derivative = Card::DerivativeCard(DerivativeCard::Derivative);
    let laplacian = Card::DerivativeCard(DerivativeCard::Laplacian);
    let mut field = full_field();
    // d/dx of the slot gives 1: the slot takes it
    handle_derivative_card(&mut field, derivative, 0, &one, &zero);
    assert!(field.basis[0].basis.as_ref().unwrap().equals(&one));
    // a result of 0 empties the slot
    handle_derivative_card(&mut field, derivative, 1, &zero, &zero);
    assert!(field.basis[1].basis.is_none());
    // an empty slot stays empty
    handle_derivative_card(&mut field, derivative, 1, &x, &x);
    assert!(field.basis[1].basis.is_none());
    // a Laplacian takes the second derivative
    handle_derivative_card(&mut field, laplacian, 2, &one, &x);
    assert!(field.basis[2].basis.as_ref().unwrap().equals(&x));
    handle_derivative_card(&mut field, laplacian, 3, &one, &zero);
    assert!(field.basis[3].basis.is_none());
    // ... and empties the slot when the first derivative is already 0
    handle_derivative_card(&mut field, laplacian, 4, &zero, &x);
    assert!(field.basis[4].basis.is_none());
}
