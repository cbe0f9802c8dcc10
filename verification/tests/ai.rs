use nabla_game::basis::structs::{Basis, BasisElement, BasisLeaf, BasisNode, BasisOperator};
use nabla_game::game::ai::{
    apply_hard_filters, basis_size, clear_priority_bonus, evaluate_game_situation,
    evaluate_limit_strategy, field_owner, filter_out_losing_moves, flexibility_bonus, hand_category,
    score_replacement, strategic_slot_bonus, apply_half_to_field, basis_card_candidates,
    half_field_candidate, has_winning_move, predict_resulting_field, score_half,
    single_target_candidate, generate_candidates_for, mark_losing_moves, CandidateOutcomes,
    hurts_self_or_helps_opponent, is_hard_to_clear, opponent_of, owned_slots, side_is_cleared,
    AiDifficulty, AiMove, HardFilterResult, AI_PLAYER_NUM, apply_lookahead, best_reply_score,
    choose_move, pick_range, plan_ai_turn, rank_moves, ai_turn,
};
use nabla_game::events::mousedown_handler::{ClickRoute, ReplayStep, TurnPhase};
use nabla_game::game::cards::{AlgebraicCard, BasisCard, Card, DerivativeCard, LimitCard};
use nabla_game::game::field::{Field, FieldBasis};
use nabla_game::math::fraction::Fraction;
use nabla_game::math::util::function_composition;
use nabla_game::render::util::RenderId;

/// builds a Basis nested `depth` levels deep via direct BasisNode construction
fn deeply_nested_basis(depth: u32) -> Basis {
    let mut basis = Basis::x();
    for _ in 0..depth {
        basis = Basis::BasisNode(BasisNode {
            coefficient: Fraction::from_int(1),
            operator: BasisOperator::Pow(Fraction { n: 1, d: 1 }),
            operands: vec![basis],
        });
    }
    basis
}

fn empty_field() -> Field {
    Field {
        basis: [
            FieldBasis::none(),
            FieldBasis::none(),
            FieldBasis::none(),
            FieldBasis::none(),
            FieldBasis::none(),
            FieldBasis::none(),
        ],
    }
}

fn copy_field(field: &Field) -> Field {
    let mut copy = empty_field();
    for i in 0..6 {
        if let Some(b) = &field.basis[i].basis {
            copy.basis[i] = FieldBasis::new(b);
        }
    }
    copy
}

#[test]
fn test_function_composition_does_not_overflow_on_deeply_nested_input() {
    let basis = deeply_nested_basis(100);
    let _ = function_composition(&basis, &Basis::x());
}

#[test]
fn test_hurts_self_or_helps_opponent_detects_every_direction() {
    let mut field = empty_field();
    field.basis[0] = FieldBasis::new(&Basis::from_int(1)); // AI's own slot (player 2), size 1
    field.basis[3] = FieldBasis::new(&Basis::from_int(1)); // opponent's slot (player 1), size 1

    // clearing our own slot entirely is a violation
    let mut after = copy_field(&field);
    after.basis[0] = FieldBasis::none();
    assert!(hurts_self_or_helps_opponent(AI_PLAYER_NUM, &field, &after));

    // growing our own slot (X2 has size 2) is not a violation
    let mut after = copy_field(&field);
    after.basis[0] = FieldBasis::new(&Basis::from_card(BasisCard::X2));
    assert!(!hurts_self_or_helps_opponent(AI_PLAYER_NUM, &field, &after));

    // merely shrinking our own slot -- without clearing it -- is not a violation
    let mut shrinking_field = copy_field(&field);
    shrinking_field.basis[0] = FieldBasis::new(&Basis::from_card(BasisCard::X2)); // size 2
    let mut after = copy_field(&shrinking_field);
    after.basis[0] = FieldBasis::new(&Basis::from_card(BasisCard::X)); // size 1, still occupied
    assert!(!hurts_self_or_helps_opponent(AI_PLAYER_NUM, &shrinking_field, &after));

    // shrinking the opponent's slot (clearing it entirely) is not a violation
    let mut after = copy_field(&field);
    after.basis[3] = FieldBasis::none();
    assert!(!hurts_self_or_helps_opponent(AI_PLAYER_NUM, &field, &after));

    // growing the opponent's slot is a violation
    let mut after = copy_field(&field);
    after.basis[3] = FieldBasis::new(&Basis::from_card(BasisCard::X2));
    assert!(hurts_self_or_helps_opponent(AI_PLAYER_NUM, &field, &after));

    // no change at all is not a violation
    assert!(!hurts_self_or_helps_opponent(AI_PLAYER_NUM, &field, &field));
}

#[test]
fn test_function_composition_substitutes_the_inner_function_for_x() {
    // (3x)^2 o (2x) with x-coefficient 3: the x leaf becomes 2x scaled by 3 = 6x
    let f = Basis::BasisNode(BasisNode {
        coefficient: Fraction::from_int(1),
        operator: BasisOperator::Pow(Fraction { n: 2, d: 1 }),
        operands: vec![Basis::BasisLeaf(BasisLeaf {
            coefficient: Fraction::from_int(3),
            element: BasisElement::X,
        })],
    });
    let g = Basis::BasisLeaf(BasisLeaf { coefficient: Fraction::from_int(2), element: BasisElement::X });
    match function_composition(&f, &g) {
        Basis::BasisNode(node) => {
            assert_eq!(node.operator, BasisOperator::Pow(Fraction { n: 2, d: 1 }));
            assert_eq!(node.operands.len(), 1);
            match &node.operands[0] {
                Basis::BasisLeaf(leaf) => {
                    assert_eq!(leaf.element, BasisElement::X);
                    assert_eq!(leaf.coefficient, Fraction { n: 6, d: 1 });
                },
                _ => panic!("expected an x leaf"),
            }
        },
        _ => panic!("expected a node"),
    }
    // constants are kept as they are
    let c = Basis::from_int(5);
    assert!(function_composition(&c, &g).equals(&c));
    // composing x with g gives g
    assert!(function_composition(&Basis::x(), &g).equals(&g));
}

#[test]
fn test_basis_size_counts_nodes_and_leaves() {
    assert_eq!(basis_size(&Basis::x()), 1);
    assert_eq!(basis_size(&Basis::from_card(BasisCard::X2)), 2);
    assert_eq!(basis_size(&Basis::from_card(BasisCard::Cos)), 2);
    assert_eq!(basis_size(&deeply_nested_basis(10)), 11);
}

#[test]
fn test_side_is_cleared_and_owners() {
    let mut field = empty_field();
    assert!(side_is_cleared(&field, 1));
    assert!(side_is_cleared(&field, 2));
    field.basis[4] = FieldBasis::new(&Basis::x());
    assert!(!side_is_cleared(&field, 1));
    assert!(side_is_cleared(&field, 2));
    assert_eq!(field_owner(0), 2);
    assert_eq!(field_owner(2), 2);
    assert_eq!(field_owner(3), 1);
    assert_eq!(owned_slots(2), [0, 1, 2]);
    assert_eq!(owned_slots(1), [3, 4, 5]);
    assert_eq!(opponent_of(1), 2);
    assert_eq!(opponent_of(2), 1);
}

#[test]
fn test_only_trig_and_exponential_shapes_are_hard_to_clear() {
    assert!(is_hard_to_clear(&Basis::from_card(BasisCard::Cos)));
    assert!(is_hard_to_clear(&Basis::from_card(BasisCard::Sin)));
    assert!(is_hard_to_clear(&Basis::from_card(BasisCard::E)));
    assert!(!is_hard_to_clear(&Basis::from_card(BasisCard::X2)));
    assert!(!is_hard_to_clear(&Basis::x()));
}

#[test]
fn test_hand_categories() {
    assert_eq!(hand_category(&Card::BasisCard(BasisCard::Zero)), "zero");
    assert_eq!(hand_category(&Card::BasisCard(BasisCard::Sin)), "basis");
    assert_eq!(hand_category(&Card::AlgebraicCard(AlgebraicCard::Div)), "multdiv");
    assert_eq!(hand_category(&Card::AlgebraicCard(AlgebraicCard::Log)), "algebraic_single");
    assert_eq!(hand_category(&Card::DerivativeCard(DerivativeCard::Laplacian)), "half_field");
    assert_eq!(hand_category(&Card::DerivativeCard(DerivativeCard::Integral)), "derivative_single");
    assert_eq!(hand_category(&Card::LimitCard(LimitCard::Lim0)), "limit");
}

#[test]
fn test_ai_difficulty_names() {
    assert_eq!(AiDifficulty::from("EASY"), AiDifficulty::Easy);
    assert_eq!(AiDifficulty::from("HARD"), AiDifficulty::Hard);
    assert_eq!(AiDifficulty::from("MEDIUM"), AiDifficulty::Medium);
    assert_eq!(AiDifficulty::from("anything"), AiDifficulty::Medium);
    assert_eq!(AiDifficulty::Easy.to_string(), "EASY");
    assert_eq!(AiDifficulty::Medium.to_string(), "MEDIUM");
    assert_eq!(AiDifficulty::Hard.to_string(), "HARD");
}

/// a candidate with the given score and flags, leaving `resulting_field`
fn candidate(score: i32, resulting_field: Field, wins: bool, hurts: bool, loses: bool) -> AiMove<i32> {
    AiMove {
        clicks: vec![],
        score,
        resulting_field,
        wins_immediately: wins,
        hurts_self_or_helps_opponent: hurts,
        opponent_can_win_next: loses,
        opponent_best_reply: 0,
    }
}

/// both sides hold `x` in their first slot
fn both_sides_field() -> Field {
    let mut field = empty_field();
    field.basis[0] = FieldBasis::new(&Basis::x());
    field.basis[3] = FieldBasis::new(&Basis::x());
    field
}

#[test]
fn test_losing_moves_are_dropped_unless_all_lose() {
    let field = both_sides_field();
    let kept = filter_out_losing_moves(vec![
        candidate(1, copy_field(&field), false, false, true),
        candidate(2, copy_field(&field), false, false, false),
        candidate(3, copy_field(&field), false, false, true),
    ]);
    assert_eq!(kept.iter().map(|m| m.score).collect::<Vec<_>>(), vec![2]);
    let kept = filter_out_losing_moves(vec![
        candidate(1, copy_field(&field), false, false, true),
        candidate(3, copy_field(&field), false, false, true),
    ]);
    assert_eq!(kept.iter().map(|m| m.score).collect::<Vec<_>>(), vec![1, 3]);
}

#[test]
fn test_hard_filters_take_the_first_outright_win() {
    let field = both_sides_field();
    let mut opponent_cleared = copy_field(&field);
    opponent_cleared.basis[3] = FieldBasis::none();
    let mut both_cleared = copy_field(&opponent_cleared);
    both_cleared.basis[0] = FieldBasis::none();
    let result = apply_hard_filters(
        vec![
            candidate(1, copy_field(&field), false, false, false),
            // wins, but clears the AI's own last slot too: a loss
            candidate(2, copy_field(&both_cleared), true, true, false),
            candidate(3, copy_field(&opponent_cleared), true, false, false),
            candidate(4, copy_field(&opponent_cleared), true, false, false),
        ],
        &field,
    );
    match result {
        HardFilterResult::Win(mv) => assert_eq!(mv.score, 3),
        HardFilterResult::Filtered(_) => panic!("an outright win must be taken"),
    }
}

#[test]
fn test_hard_filters_apply_every_rule_in_order() {
    let mut field = both_sides_field();
    field.basis[3] = FieldBasis::new(&Basis::from_card(BasisCard::X2)); // size 2
    let mut grows_opponent = copy_field(&field);
    grows_opponent.basis[3] = FieldBasis::new(&deeply_nested_basis(3)); // size 4
    let mut shrinks_opponent = copy_field(&field);
    shrinks_opponent.basis[3] = FieldBasis::new(&Basis::x()); // size 1
    let mut own_side_cleared = copy_field(&field);
    own_side_cleared.basis[0] = FieldBasis::none();
    let result = apply_hard_filters(
        vec![
            candidate(1, copy_field(&own_side_cleared), false, true, false),
            candidate(2, copy_field(&shrinks_opponent), false, false, true),
            candidate(3, copy_field(&grows_opponent), false, true, false),
            candidate(4, copy_field(&field), false, false, false),
            candidate(5, copy_field(&shrinks_opponent), false, false, false),
        ],
        &field,
    );
    match result {
        HardFilterResult::Filtered(kept) => {
            // 1 loses by its own hand, 2 hands the opponent a win, 3 helps the
            // opponent, 4 makes no progress
            assert_eq!(kept.iter().map(|m| m.score).collect::<Vec<_>>(), vec![5]);
        }
        HardFilterResult::Win(_) => panic!("no candidate wins outright"),
    }
}

#[test]
fn test_hard_filters_never_leave_the_ai_without_a_move() {
    let field = both_sides_field();
    let mut own_side_cleared = copy_field(&field);
    own_side_cleared.basis[0] = FieldBasis::none();
    // every candidate breaks some rule: something is still left to rank
    let result = apply_hard_filters(
        vec![
            candidate(1, copy_field(&own_side_cleared), false, true, true),
            candidate(2, copy_field(&own_side_cleared), false, true, true),
        ],
        &field,
    );
    match result {
        HardFilterResult::Filtered(kept) => assert_eq!(kept.len(), 2),
        HardFilterResult::Win(_) => panic!("no candidate wins outright"),
    }
}

#[test]
fn test_flexibility_bonus_rewards_a_more_diverse_remaining_hand() {
    // playing the ONLY Mult/Div card leaves 2 categories (basis, limit)
    let hand_using_only_multdiv = vec![
        Card::AlgebraicCard(AlgebraicCard::Mult),
        Card::BasisCard(BasisCard::X),
        Card::LimitCard(LimitCard::Lim0),
    ];
    let narrowing_bonus = flexibility_bonus(&hand_using_only_multdiv, &[0]);

    // playing a duplicate BasisCard (another one remains) leaves 3 categories
    // (basis, multdiv, limit) -- strictly more diverse than the case above
    let hand_using_a_duplicate_basis = vec![
        Card::BasisCard(BasisCard::X),
        Card::BasisCard(BasisCard::X2),
        Card::AlgebraicCard(AlgebraicCard::Mult),
        Card::LimitCard(LimitCard::Lim0),
    ];
    let preserving_bonus = flexibility_bonus(&hand_using_a_duplicate_basis, &[0]);

    assert!(
        preserving_bonus > narrowing_bonus,
        "expected keeping a more diverse hand to score higher: preserving={preserving_bonus} \
         narrowing={narrowing_bonus}"
    );
}

#[test]
fn test_flexibility_bonus_counts_distinct_families() {
    assert_eq!(flexibility_bonus(&[], &[]), 0);
    let hand = vec![
        Card::BasisCard(BasisCard::Zero),
        Card::BasisCard(BasisCard::X),
        Card::AlgebraicCard(AlgebraicCard::Div),
        Card::AlgebraicCard(AlgebraicCard::Log),
        Card::DerivativeCard(DerivativeCard::Laplacian),
        Card::DerivativeCard(DerivativeCard::Integral),
        Card::LimitCard(LimitCard::Limsup),
        Card::LimitCard(LimitCard::Lim0),
    ];
    assert_eq!(flexibility_bonus(&hand, &[]), 21);
    assert_eq!(flexibility_bonus(&hand, &[6]), 21);
    assert_eq!(flexibility_bonus(&hand, &[6, 7, 0]), 15);
}

#[test]
fn test_score_replacement_rewards_strengthening_and_penalizes_simplifying_own_side() {
    let mut field = empty_field();
    field.basis[0] = FieldBasis::new(&Basis::from_card(BasisCard::X2)); // own slot (AI_PLAYER_NUM=2), size 2

    // shrinks slot0 from x^2 (size 2) down to plain x (size 1)
    let simplify_score = score_replacement(AI_PLAYER_NUM, 0, &Basis::from_card(BasisCard::X), &field);
    // grows slot0 from x^2 (size 2) into cos(x^2) (size 3, and now hard-to-clear)
    let cos_of_x2 = Basis::BasisNode(BasisNode {
        coefficient: Fraction::from_int(1),
        operator: BasisOperator::Cos,
        operands: vec![Basis::from_card(BasisCard::X2)],
    });
    let strengthen_score = score_replacement(AI_PLAYER_NUM, 0, &cos_of_x2, &field);

    assert!(
        simplify_score < 1, // 1 is score_replacement's neutral baseline
        "simplifying the AI's own slot should score below the neutral baseline \
         (a mild penalty), got {simplify_score}"
    );
    assert!(
        strengthen_score > 1,
        "growing the AI's own slot should score above the neutral baseline \
         (a mild reward), got {strengthen_score}"
    );
}

#[test]
fn test_score_replacement_exact_points() {
    let mut field = empty_field();
    field.basis[0] = FieldBasis::new(&Basis::from_card(BasisCard::X2)); // player 2's side, size 2
    field.basis[3] = FieldBasis::new(&Basis::from_card(BasisCard::Cos)); // player 1's side, size 2, hard to clear
    let zero = Basis::from_int(0);
    // player 2 clears player 1's cos(x): 1 + 200 + (100 + 2 * 10)
    assert_eq!(score_replacement(2, 3, &zero, &field), 321);
    // player 2 simplifies it to x: 1 + (2 - 1) * 10
    assert_eq!(score_replacement(2, 3, &Basis::x(), &field), 11);
    // player 2 grows it: 1 + (2 - 3) * 20
    let cos_of_x2 = Basis::BasisNode(BasisNode {
        coefficient: Fraction::from_int(1),
        operator: BasisOperator::Cos,
        operands: vec![Basis::from_card(BasisCard::X2)],
    });
    assert_eq!(score_replacement(2, 3, &cos_of_x2, &field), -19);
    // player 2 clears its own x^2: 1 - 200
    assert_eq!(score_replacement(2, 0, &zero, &field), -199);
    // same size on either side is neutral
    assert_eq!(score_replacement(2, 0, &Basis::from_card(BasisCard::Sin), &field), 1);
    assert_eq!(clear_priority_bonus(&Basis::from_card(BasisCard::E)), 120);
    assert_eq!(clear_priority_bonus(&Basis::from_card(BasisCard::X2)), 20);
}

#[test]
fn test_strategic_slot_bonus_counts_occupied_slots() {
    let mut field = empty_field();
    field.basis[0] = FieldBasis::new(&Basis::x());
    field.basis[1] = FieldBasis::new(&Basis::x());
    field.basis[3] = FieldBasis::new(&Basis::x());
    // player 2 holds 2 slots, player 1 holds 1: (3 - 1) * 15 - (3 - 2) * 25
    assert_eq!(strategic_slot_bonus(2, &field), 5);
    // from player 1's side: (3 - 2) * 15 - (3 - 1) * 25
    assert_eq!(strategic_slot_bonus(1, &field), -35);
}

#[test]
fn test_game_situation_scores_danger_and_opportunity() {
    let mut field = empty_field();
    field.basis[0] = FieldBasis::new(&Basis::x());
    field.basis[3] = FieldBasis::new(&Basis::x());
    field.basis[4] = FieldBasis::new(&Basis::x());
    field.basis[5] = FieldBasis::new(&Basis::from_card(BasisCard::X2));
    let hand = vec![Card::AlgebraicCard(AlgebraicCard::Mult), Card::BasisCard(BasisCard::Zero)];
    // player 2 holds 1 slot (-100), player 1 holds 3; Mult and a simple
    // opponent slot (+50); Zero with Mult (+30)
    assert_eq!(evaluate_game_situation(2, &hand, &field), -20);
    // player 1 holds 3 slots, player 2 only 1 (+100); its empty slots are simple (+50, +30)
    assert_eq!(evaluate_game_situation(1, &hand, &field), 180);
    assert_eq!(evaluate_game_situation(1, &vec![], &field), 100);
}

#[test]
fn test_limit_strategy_points() {
    let mut field = empty_field();
    field.basis[0] = FieldBasis::new(&Basis::x());
    field.basis[3] = FieldBasis::new(&deeply_nested_basis(3)); // size 4
    let resulting = copy_field(&field);
    let limit = LimitCard::LimPosInf;
    let zero = Basis::from_int(0);
    // clearing the opponent's slot
    assert_eq!(evaluate_limit_strategy(2, 3, &limit, &zero, &field, &resulting), 150);
    // clearing an own slot while holding a single slot
    assert_eq!(evaluate_limit_strategy(2, 0, &limit, &zero, &field, &resulting), -200);
    // growing is not rewarded
    assert_eq!(evaluate_limit_strategy(2, 0, &limit, &Basis::from_card(BasisCard::X2), &field, &resulting), 0);
    // from player 1's side, simplifying its own deep expression is a clear of its own slot
    assert_eq!(evaluate_limit_strategy(1, 3, &limit, &Basis::x(), &field, &resulting), -200);
}

fn occupied(field: &Field) -> Vec<bool> {
    field.basis.iter().map(|s| s.basis.is_some()).collect()
}

#[test]
fn test_predicted_field_runs_the_linear_dependence_cleanup() {
    let mut field = empty_field();
    field.basis[3] = FieldBasis::new(&Basis::x());
    field.basis[4] = FieldBasis::new(&Basis::x().mul_fraction(Fraction::from_int(3)));
    let kept = predict_resulting_field(copy_field(&field), true);
    assert_eq!(occupied(&kept), vec![false, false, false, true, true, false]);
    let cleaned = predict_resulting_field(copy_field(&field), false);
    assert_eq!(occupied(&cleaned), vec![false, false, false, true, false, false]);
}

#[test]
fn test_single_target_candidate_scores_and_flags_the_move() {
    let mut field = empty_field();
    field.basis[0] = FieldBasis::new(&Basis::x());
    field.basis[3] = FieldBasis::new(&Basis::from_card(BasisCard::X2));
    let hand = vec![Card::LimitCard(LimitCard::Lim0), Card::BasisCard(BasisCard::X)];
    // player 2 clears player 1's only slot with a zero: an outright win
    let mv = single_target_candidate(
        2,
        &hand,
        &field,
        &[0],
        vec![RenderId::PlayerTwo0, RenderId::Field3],
        3,
        &Basis::from_int(0),
        150,
        7,
        false,
    );
    assert_eq!(mv.clicks, vec![RenderId::PlayerTwo0, RenderId::Field3]);
    assert!(mv.resulting_field.basis[3].basis.is_none());
    assert!(mv.wins_immediately);
    assert!(!mv.hurts_self_or_helps_opponent);
    assert!(!mv.opponent_can_win_next);
    // replacement 1 + 200 + 20, slots (3 - 0) * 15 - (3 - 1) * 25, limit 150,
    // situation 7, one family (basis) left: 3
    assert_eq!(mv.score, 221 + (45 - 50) + 150 + 7 + 3);
}

#[test]
fn test_basis_card_candidates_cover_every_empty_slot() {
    let mut field = empty_field();
    field.basis[1] = FieldBasis::new(&Basis::x());
    field.basis[4] = FieldBasis::new(&Basis::x());
    let hand = vec![Card::BasisCard(BasisCard::Cos)];
    let moves = basis_card_candidates(1, &hand, &field, 0, BasisCard::Cos, 0, false);
    let targets: Vec<RenderId> = moves.iter().map(|m| m.clicks[1]).collect();
    assert_eq!(targets, vec![RenderId::Field0, RenderId::Field2, RenderId::Field3, RenderId::Field5]);
    assert!(moves.iter().all(|m| m.clicks[0] == RenderId::PlayerOne0));
    assert!(moves[0].resulting_field.basis[0].basis.as_ref().unwrap().equals(&Basis::from_card(BasisCard::Cos)));
    // placing on the opponent's side grows it
    assert!(moves[0].hurts_self_or_helps_opponent);
    assert!(!moves[2].hurts_self_or_helps_opponent);
    assert!(basis_card_candidates(1, &hand, &field, 0, BasisCard::Zero, 0, false).is_empty());
    assert!(!has_winning_move(&moves));
}

#[test]
fn test_half_field_play_replaces_each_occupied_slot() {
    let mut field = empty_field();
    field.basis[3] = FieldBasis::new(&Basis::x());
    field.basis[5] = FieldBasis::new(&Basis::from_card(BasisCard::Sin));
    // d/dx x = 1, d/dx sin(x) = cos(x)
    let derived = vec![Some(Basis::from_int(1)), None, Some(Basis::from_card(BasisCard::Cos))];
    let half = apply_half_to_field(3, &derived, &field);
    assert!(half.basis[3].basis.as_ref().unwrap().equals(&Basis::from_int(1)));
    assert!(half.basis[4].basis.is_none());
    assert!(half.basis[5].basis.as_ref().unwrap().equals(&Basis::from_card(BasisCard::Cos)));
    // a zero derivative empties its slot
    let derived_zero = vec![Some(Basis::from_int(0)), None, Some(Basis::from_card(BasisCard::Cos))];
    assert!(apply_half_to_field(3, &derived_zero, &field).basis[3].basis.is_none());

    // player 2 on player 1's side: x -> 1 is neutral (1), sin -> cos neutral (1),
    // slots (3 - 2) * 15 - (3 - 0) * 25
    assert_eq!(score_half(2, 3, &derived, &field, &half), 1 + 1 + 15 - 75);

    let hand = vec![Card::DerivativeCard(DerivativeCard::Nabla)];
    let mv = half_field_candidate(2, &hand, &field, 0, 3, &derived, 0, true);
    assert_eq!(mv.clicks, vec![RenderId::PlayerTwo0, RenderId::Field3]);
    assert_eq!(mv.score, 1 + 1 + 15 - 75);
    assert!(!mv.wins_immediately);
}

#[test]
fn test_has_winning_move_looks_at_every_candidate() {
    let field = both_sides_field();
    assert!(!has_winning_move(&Vec::<AiMove<i32>>::new()));
    assert!(has_winning_move(&vec![
        candidate(1, copy_field(&field), false, false, false),
        candidate(2, copy_field(&field), true, false, false),
    ]));
}

#[test]
fn test_an_unchanged_field_never_hurts_either_player() {
    let mut field = empty_field();
    field.basis[1] = FieldBasis::new(&Basis::from_card(BasisCard::E));
    field.basis[4] = FieldBasis::new(&Basis::x());
    assert!(!hurts_self_or_helps_opponent(1, &field, &copy_field(&field)));
    assert!(!hurts_self_or_helps_opponent(2, &field, &copy_field(&field)));
}

/// outcomes with nothing filled in
fn no_outcomes() -> CandidateOutcomes {
    CandidateOutcomes {
        single: (0..42).map(|_| None).collect(),
        half: (0..14).map(|_| vec![None, None, None]).collect(),
        multi: (0..588).map(|_| None).collect(),
    }
}

fn multi_index(i: usize, j: usize, t: usize, o: usize) -> usize {
    ((i * 7 + j) * 6 + t) * 2 + o
}

#[test]
fn test_multiplying_the_last_opponent_slot_by_a_hand_zero_wins() {
    let mut field = empty_field();
    field.basis[0] = FieldBasis::new(&Basis::x()); // the AI's own slot
    field.basis[3] = FieldBasis::new(&Basis::x()); // the opponent's last slot
    let hand = vec![Card::AlgebraicCard(AlgebraicCard::Mult), Card::BasisCard(BasisCard::Zero)];
    let mut outcomes = no_outcomes();
    for t in [0, 3] {
        for o in 0..2 {
            outcomes.multi[multi_index(0, 1, t, o)] = Some(Basis::from_int(0));
        }
    }
    let moves = generate_candidates_for(AI_PLAYER_NUM, &hand, &field, 4, &outcomes, false);
    let clicks: Vec<Vec<RenderId>> = moves.iter().map(|m| m.clicks.clone()).collect();
    assert_eq!(
        clicks,
        vec![
            vec![RenderId::PlayerTwo0, RenderId::Field0, RenderId::PlayerTwo1, RenderId::Multidone],
            vec![RenderId::PlayerTwo0, RenderId::PlayerTwo1, RenderId::Field0, RenderId::Multidone],
            vec![RenderId::PlayerTwo0, RenderId::Field3, RenderId::PlayerTwo1, RenderId::Multidone],
            vec![RenderId::PlayerTwo0, RenderId::PlayerTwo1, RenderId::Field3, RenderId::Multidone],
        ]
    );
    assert!(!moves[0].wins_immediately && moves[0].hurts_self_or_helps_opponent);
    assert!(moves[2].wins_immediately && moves[3].wins_immediately);
    match apply_hard_filters(moves, &field) {
        HardFilterResult::Win(mv) => assert_eq!(mv.clicks[1], RenderId::Field3),
        HardFilterResult::Filtered(_) => panic!("the winning multiplication must be taken"),
    }
}

#[test]
fn test_candidates_follow_the_hand_card_by_card() {
    let mut field = empty_field();
    field.basis[0] = FieldBasis::new(&Basis::from_card(BasisCard::Sin));
    field.basis[4] = FieldBasis::new(&Basis::x());
    let hand = vec![
        Card::BasisCard(BasisCard::X2),
        Card::DerivativeCard(DerivativeCard::Laplacian),
        Card::DerivativeCard(DerivativeCard::Nabla),
        Card::LimitCard(LimitCard::Lim0),
        Card::BasisCard(BasisCard::Zero),
    ];
    let mut outcomes = no_outcomes();
    // Nabla at position 2: d/dx sin(x) = cos(x) on side 0, d/dx x = 1 on side 1
    outcomes.half[2 * 2] = vec![Some(Basis::from_card(BasisCard::Cos)), None, None];
    outcomes.half[2 * 2 + 1] = vec![None, Some(Basis::from_int(1)), None];
    // the limit at x -> 0 at position 3: sin(0) = 0, x at 0 = 0
    outcomes.single[3 * 6] = Some(Basis::from_int(0));
    outcomes.single[3 * 6 + 4] = Some(Basis::from_int(0));
    // turn 1: Laplacian is not playable yet
    let moves = generate_candidates_for(1, &hand, &field, 1, &outcomes, true);
    let clicks: Vec<(RenderId, RenderId)> = moves.iter().map(|m| (m.clicks[0], m.clicks[1])).collect();
    assert_eq!(
        clicks,
        vec![
            (RenderId::PlayerOne0, RenderId::Field1),
            (RenderId::PlayerOne0, RenderId::Field2),
            (RenderId::PlayerOne0, RenderId::Field3),
            (RenderId::PlayerOne0, RenderId::Field5),
            (RenderId::PlayerOne2, RenderId::Field0),
            (RenderId::PlayerOne2, RenderId::Field3),
            (RenderId::PlayerOne3, RenderId::Field0),
            (RenderId::PlayerOne3, RenderId::Field4),
        ]
    );
    // the limit clearing player 2's only slot wins for player 1, with its
    // limit bonus of 150 on top of the clear
    let win = &moves[6];
    assert!(win.wins_immediately);
    assert!(win.resulting_field.basis[0].basis.is_none());
    // clearing player 1's own slot with it is penalised (-200 when few slots remain)
    assert!(moves[7].score < moves[6].score - 500);
    assert!(moves[5].resulting_field.basis[4].basis.as_ref().unwrap().equals(&Basis::from_int(1)));
}

#[test]
fn test_moves_that_hand_the_opponent_a_win_are_marked() {
    let mut field = empty_field();
    field.basis[0] = FieldBasis::new(&Basis::x());
    field.basis[1] = FieldBasis::new(&Basis::x());
    field.basis[3] = FieldBasis::new(&Basis::x());
    field.basis[4] = FieldBasis::new(&Basis::x());
    // the AI (player 2) can multiply its own slot 1 away with a Zero, or slot 3
    let hand = vec![Card::AlgebraicCard(AlgebraicCard::Mult), Card::BasisCard(BasisCard::Zero)];
    let mut outcomes = no_outcomes();
    for t in [0, 1, 3, 4] {
        for o in 0..2 {
            outcomes.multi[multi_index(0, 1, t, o)] = Some(Basis::from_int(0));
        }
    }
    let moves = generate_candidates_for(AI_PLAYER_NUM, &hand, &field, 5, &outcomes, true);
    assert_eq!(moves.len(), 8);
    // the opponent holds Mult and Zero too: after the AI clears one of its own
    // two slots, the opponent clears the other and wins
    let opponent_hand = hand.clone();
    let replies: Vec<CandidateOutcomes> = moves
        .iter()
        .map(|mv| {
            let mut reply = no_outcomes();
            for t in 0..6 {
                if mv.resulting_field.basis[t].basis.is_some() {
                    for o in 0..2 {
                        reply.multi[multi_index(0, 1, t, o)] = Some(Basis::from_int(0));
                    }
                }
            }
            reply
        })
        .collect();
    let marked = mark_losing_moves(moves, &opponent_hand, 5, &replies, true);
    let losing: Vec<bool> = marked.iter().map(|m| m.opponent_can_win_next).collect();
    assert_eq!(losing, vec![true, true, true, true, false, false, false, false]);
    let kept = filter_out_losing_moves(marked);
    assert!(kept.iter().all(|m| m.clicks.contains(&RenderId::Field3) || m.clicks.contains(&RenderId::Field4)));
}

#[test]
fn test_mult_div_candidates_always_target_exactly_one_field_slot() {
    let mut field = empty_field();
    for i in 0..6 {
        field.basis[i] = FieldBasis::new(&Basis::from_card(BasisCard::X));
    }

    for card in [
        Card::AlgebraicCard(AlgebraicCard::Mult),
        Card::AlgebraicCard(AlgebraicCard::Div),
    ] {
        let hand = vec![card, Card::BasisCard(BasisCard::Zero)];
        // what the expression engine makes of x and 0, in either order
        let mut outcomes = no_outcomes();
        for t in 0..6 {
            for o in 0..2 {
                outcomes.multi[multi_index(0, 1, t, o)] = Some(Basis::from_int(0));
            }
        }
        let candidates = generate_candidates_for(AI_PLAYER_NUM, &hand, &field, 4, &outcomes, false);
        assert!(
            !candidates.is_empty(),
            "test setup is wrong: no {card:?} candidates were generated at all"
        );
        for mv in &candidates {
            let field_indices: Vec<usize> = mv
                .clicks
                .iter()
                .filter(|id| id.is_field())
                .map(|id| id.key_val().1)
                .collect();
            assert_eq!(
                field_indices.len(),
                1,
                "{card:?} move targeted {field_indices:?} field slots, not exactly 1 -- \
                 field+field Mult/Div is deprecated and no longer executable"
            );
        }
    }
}

/// a candidate scored `score` whose opponent's best reply scores `reply`,
/// leaving `resulting_field`
fn scored(score: i64, reply: i64, resulting_field: Field) -> AiMove<i64> {
    AiMove {
        clicks: vec![],
        score,
        resulting_field,
        wins_immediately: false,
        hurts_self_or_helps_opponent: false,
        opponent_can_win_next: false,
        opponent_best_reply: reply,
    }
}

fn scores(moves: &[AiMove<i64>]) -> Vec<i64> {
    moves.iter().map(|m| m.score).collect()
}

#[test]
fn test_best_reply_score_is_the_best_reply_and_never_below_zero() {
    let field = both_sides_field();
    assert_eq!(best_reply_score(&vec![]), 0);
    let replies = vec![scored(-5, 0, copy_field(&field)), scored(30, 0, copy_field(&field)), scored(12, 0, copy_field(&field))];
    assert_eq!(best_reply_score(&replies), 30);
    let replies = vec![scored(-5, 0, copy_field(&field)), scored(-1, 0, copy_field(&field))];
    assert_eq!(best_reply_score(&replies), 0);
}

#[test]
fn test_lookahead_subtracts_a_tenth_of_the_best_reply_within_the_pool() {
    let field = both_sides_field();
    let by_score = || {
        vec![scored(100, 200, copy_field(&field)), scored(90, 0, copy_field(&field)), scored(80, 0, copy_field(&field))]
    };
    // 100 - 200/10 = 80 falls behind 90 and, tied with 80, stays ahead of it
    assert_eq!(scores(&apply_lookahead(by_score(), 3)), vec![90, 100, 80]);
    assert_eq!(scores(&apply_lookahead(by_score(), 1)), vec![90, 100, 80]);
    // outside the pool the reply is not looked at
    assert_eq!(scores(&apply_lookahead(by_score(), 0)), vec![100, 90, 80]);
    // 100 - 5/10 = 99.5 still beats 90
    let small_reply = vec![scored(100, 5, copy_field(&field)), scored(90, 0, copy_field(&field))];
    assert_eq!(scores(&apply_lookahead(small_reply, 2)), vec![100, 90]);
}

#[test]
fn test_moves_are_ranked_by_difficulty() {
    let field = both_sides_field();
    let candidates = || {
        vec![scored(80, 0, copy_field(&field)), scored(100, 200, copy_field(&field)), scored(90, 0, copy_field(&field))]
    };
    let ranked = |difficulty: AiDifficulty| match rank_moves(candidates(), difficulty, &field) {
        HardFilterResult::Filtered(ranked) => scores(&ranked),
        HardFilterResult::Win(_) => panic!("no candidate wins outright"),
    };
    // Easy ranks by score alone
    assert_eq!(ranked(AiDifficulty::Easy), vec![100, 90, 80]);
    // Medium and Hard look one reply ahead
    assert_eq!(ranked(AiDifficulty::Medium), vec![90, 100, 80]);
    assert_eq!(ranked(AiDifficulty::Hard), vec![90, 100, 80]);
    // Hard always takes the best-ranked move, and so does Medium among three
    assert_eq!(choose_move(candidates(), AiDifficulty::Hard, &field).score, 90);
    assert_eq!(choose_move(candidates(), AiDifficulty::Medium, &field).score, 90);
    // Easy takes any of them
    for _ in 0..20 {
        assert!([80, 90, 100].contains(&choose_move(candidates(), AiDifficulty::Easy, &field).score));
    }
}

#[test]
fn test_pick_ranges() {
    assert_eq!(pick_range(10, AiDifficulty::Hard, false), 1);
    assert_eq!(pick_range(0, AiDifficulty::Hard, false), 0);
    assert_eq!(pick_range(1, AiDifficulty::Medium, false), 1);
    assert_eq!(pick_range(3, AiDifficulty::Medium, false), 1);
    assert_eq!(pick_range(10, AiDifficulty::Medium, false), 2);
    assert_eq!(pick_range(15, AiDifficulty::Medium, false), 3);
    assert_eq!(pick_range(16, AiDifficulty::Medium, false), 4);
    assert_eq!(pick_range(10, AiDifficulty::Easy, true), 3);
    assert_eq!(pick_range(2, AiDifficulty::Easy, true), 2);
    assert_eq!(pick_range(10, AiDifficulty::Easy, false), 10);
}

/// x raised to `n / d`
fn power_of_x(n: i32, d: i32) -> Basis {
    Basis::BasisNode(BasisNode {
        coefficient: Fraction::from_int(1),
        operator: BasisOperator::Pow(Fraction { n, d }),
        operands: vec![Basis::x()],
    })
}

/// `c` times x
fn scaled_x(c: i32) -> Basis {
    Basis::BasisLeaf(BasisLeaf { coefficient: Fraction { n: c, d: 1 }, element: BasisElement::X })
}

/// the opponent's replies with a hand of one Derivative: what d/dx makes of
/// each occupied slot of every resulting field (0 from a constant 1, 1 from x,
/// something nonzero from anything else)
fn derivative_replies(moves: &[AiMove<i64>]) -> Vec<CandidateOutcomes> {
    moves
        .iter()
        .map(|mv| {
            let mut reply = no_outcomes();
            for t in 0..6 {
                if let Some(b) = &mv.resulting_field.basis[t].basis {
                    reply.single[t] = Some(if b.equals(&Basis::from_int(1)) {
                        Basis::from_int(0)
                    } else if b.equals(&Basis::x()) {
                        Basis::from_int(1)
                    } else {
                        Basis::x()
                    });
                }
            }
            reply
        })
        .collect()
}

#[test]
fn test_ai_takes_immediate_win_over_other_options() {
    let mut field = empty_field();
    field.basis[0] = FieldBasis::new(&Basis::x());
    field.basis[1] = FieldBasis::new(&Basis::x());
    field.basis[2] = FieldBasis::new(&Basis::x());
    // the opponent's last remaining slot: derivative(1) = 0 clears it
    field.basis[5] = FieldBasis::new(&Basis::from_int(1));
    let ai_hand = vec![
        Card::AlgebraicCard(AlgebraicCard::Sqrt), // decoy: doesn't win
        Card::DerivativeCard(DerivativeCard::Derivative), // wins if aimed at field[5]
    ];
    let opponent_hand = vec![Card::BasisCard(BasisCard::X)];
    // what the expression engine makes of each play
    let mut outcomes = no_outcomes();
    for t in [0, 1, 2] {
        outcomes.single[t] = Some(power_of_x(1, 2));
        outcomes.single[6 + t] = Some(Basis::from_int(1));
    }
    outcomes.single[5] = Some(Basis::from_int(1));
    outcomes.single[6 + 5] = Some(Basis::from_int(0));
    let candidates = generate_candidates_for(AI_PLAYER_NUM, &ai_hand, &field, 4, &outcomes, false);
    assert!(
        candidates.iter().any(|mv| mv.wins_immediately),
        "test setup is wrong: no winning candidate was generated at all"
    );
    let replies: Vec<CandidateOutcomes> = candidates.iter().map(|_| no_outcomes()).collect();
    let candidates = mark_losing_moves(candidates, &opponent_hand, 4, &replies, false);
    let chosen = choose_move(candidates, AiDifficulty::Hard, &field);
    assert!(chosen.wins_immediately, "AI had a winning move available but chose a different one instead");
}

#[test]
fn test_ai_never_picks_a_self_defeating_move_when_avoidable() {
    let mut field = empty_field();
    // the AI's only remaining own slot: derivative(1) = 0 would clear it
    field.basis[0] = FieldBasis::new(&Basis::from_int(1));
    field.basis[3] = FieldBasis::new(&Basis::x());
    field.basis[4] = FieldBasis::new(&Basis::x());
    field.basis[5] = FieldBasis::new(&Basis::x());
    let ai_hand = vec![
        Card::DerivativeCard(DerivativeCard::Derivative),
        Card::AlgebraicCard(AlgebraicCard::Sqrt),
    ];
    let opponent_hand = vec![Card::BasisCard(BasisCard::X)];
    let mut outcomes = no_outcomes();
    outcomes.single[0] = Some(Basis::from_int(0));
    outcomes.single[6] = Some(Basis::from_int(1));
    for t in [3, 4, 5] {
        outcomes.single[t] = Some(Basis::from_int(1));
        outcomes.single[6 + t] = Some(power_of_x(1, 2));
    }
    let candidates = generate_candidates_for(AI_PLAYER_NUM, &ai_hand, &field, 4, &outcomes, false);
    assert!(
        candidates.iter().any(|mv| side_is_cleared(&mv.resulting_field, AI_PLAYER_NUM)),
        "test setup is wrong: no self-defeating candidate was generated at all"
    );
    let replies: Vec<CandidateOutcomes> = candidates.iter().map(|_| no_outcomes()).collect();
    let candidates = mark_losing_moves(candidates, &opponent_hand, 4, &replies, false);
    let chosen = choose_move(candidates, AiDifficulty::Hard, &field);
    assert!(
        !side_is_cleared(&chosen.resulting_field, AI_PLAYER_NUM),
        "AI chose a move that instantly loses the game by clearing its own side"
    );
}

#[test]
fn test_ai_avoids_immediate_loss_when_a_safe_alternative_exists() {
    let mut field = empty_field();
    // the AI's only remaining own slot: "1", which the opponent's Derivative
    // would zero unless the AI changes it first
    field.basis[0] = FieldBasis::new(&Basis::from_int(1));
    field.basis[3] = FieldBasis::new(&Basis::from_card(BasisCard::X2));
    field.basis[4] = FieldBasis::new(&Basis::x());
    field.basis[5] = FieldBasis::new(&Basis::x());
    let ai_hand = vec![
        Card::DerivativeCard(DerivativeCard::Integral),
        Card::DerivativeCard(DerivativeCard::Derivative),
    ];
    let opponent_hand = vec![Card::DerivativeCard(DerivativeCard::Derivative)];
    let mut outcomes = no_outcomes();
    // integral(1) = x, so the opponent's derivative no longer zeroes it
    outcomes.single[0] = Some(Basis::x());
    outcomes.single[3] = Some(power_of_x(3, 1));
    outcomes.single[4] = Some(Basis::from_card(BasisCard::X2));
    outcomes.single[5] = Some(Basis::from_card(BasisCard::X2));
    outcomes.single[6] = Some(Basis::from_int(0));
    outcomes.single[6 + 3] = Some(scaled_x(2));
    outcomes.single[6 + 4] = Some(Basis::from_int(1));
    outcomes.single[6 + 5] = Some(Basis::from_int(1));
    let candidates = generate_candidates_for(AI_PLAYER_NUM, &ai_hand, &field, 4, &outcomes, false);
    let replies = derivative_replies(&candidates);
    let candidates = mark_losing_moves(candidates, &opponent_hand, 4, &replies, false);
    assert!(candidates.iter().any(|mv| mv.opponent_can_win_next));
    let chosen = choose_move(candidates, AiDifficulty::Hard, &field);
    assert!(
        !chosen.opponent_can_win_next,
        "AI chose a move that leaves the opponent an immediate winning reply, \
         despite a safe alternative (defusing field[0]) being available"
    );
}

#[test]
fn test_the_ai_plays_its_chosen_clicks_or_forfeits() {
    let field = both_sides_field();
    assert!(plan_ai_turn(vec![], AiDifficulty::Hard, &field).is_none());
    let mut best = scored(90, 0, copy_field(&field));
    best.clicks = vec![RenderId::PlayerTwo0, RenderId::Field3];
    let mut worse = scored(10, 0, copy_field(&field));
    worse.clicks = vec![RenderId::PlayerTwo1, RenderId::Field4];
    let mut plan = plan_ai_turn(vec![worse, best], AiDifficulty::Hard, &field).unwrap();
    assert_eq!(plan.player_num, AI_PLAYER_NUM);
    assert_eq!(plan.step(TurnPhase::IDLE), ReplayStep::Apply(RenderId::PlayerTwo0, ClickRoute::PickHandCard(0)));
    let sqrt = Card::AlgebraicCard(AlgebraicCard::Sqrt);
    assert_eq!(plan.step(TurnPhase::SELECT(sqrt)), ReplayStep::Apply(RenderId::Field3, ClickRoute::SelectTarget(sqrt)));
    assert_eq!(plan.step(TurnPhase::CONFIRM), ReplayStep::Apply(RenderId::Confirm, ClickRoute::ConfirmMove));
    assert_eq!(plan.step(TurnPhase::IDLE), ReplayStep::Done);
}

#[test]
fn test_the_ai_turn_plays_the_winning_derivative() {
    let mut field = empty_field();
    field.basis[0] = FieldBasis::new(&Basis::x());
    field.basis[5] = FieldBasis::new(&Basis::from_int(1));
    let ai_hand = vec![
        Card::AlgebraicCard(AlgebraicCard::Sqrt),
        Card::DerivativeCard(DerivativeCard::Derivative),
    ];
    let opponent_hand = vec![Card::BasisCard(BasisCard::X)];
    let mut outcomes = no_outcomes();
    outcomes.single[0] = Some(power_of_x(1, 2));
    outcomes.single[5] = Some(Basis::from_int(1));
    outcomes.single[6] = Some(Basis::from_int(1));
    outcomes.single[6 + 5] = Some(Basis::from_int(0));
    let count = generate_candidates_for(AI_PLAYER_NUM, &ai_hand, &field, 4, &outcomes, false).len();
    assert_eq!(count, 4);
    let replies: Vec<CandidateOutcomes> = (0..count).map(|_| no_outcomes()).collect();
    let mut plan = ai_turn(&ai_hand, &opponent_hand, &field, 4, &outcomes, &replies, AiDifficulty::Easy, false).unwrap();
    assert_eq!(plan.step(TurnPhase::IDLE), ReplayStep::Apply(RenderId::PlayerTwo1, ClickRoute::PickHandCard(1)));
    let derivative = Card::DerivativeCard(DerivativeCard::Derivative);
    assert_eq!(plan.step(TurnPhase::SELECT(derivative)), ReplayStep::Apply(RenderId::Field5, ClickRoute::SelectTarget(derivative)));
    assert_eq!(plan.step(TurnPhase::IDLE), ReplayStep::Done);
    // with an empty hand there is nothing to play: the turn is forfeited
    assert!(ai_turn(&vec![], &opponent_hand, &field, 4, &outcomes, &vec![], AiDifficulty::Hard, false).is_none());
}
