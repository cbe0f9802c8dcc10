use vstd::prelude::*;
use vstd::relations::{sorted_by, total_ordering};

use crate::basis::structs::{
    scalar_multiples, spec_basis_from_card, spec_is_inf, spec_is_num, Basis, BasisModel,
};
use crate::game::ai::{opponent_of, side_is_cleared, spec_opponent_of, spec_side_is_cleared};
use crate::game::cards::{AlgebraicCard, BasisCard, Card, DerivativeCard};
use crate::game::field::{Field, FieldBasis};
use crate::game::online::{spec_action_message, spec_record_click, OnlineSession};
use crate::render::util::{spec_render_id_string, spec_render_id_val, RenderId};

verus! {

/// whose turn it is: even-numbered turns are player 1's, odd ones player 2's
pub open spec fn spec_player_for_turn(turn_number: u32) -> u32 {
    if turn_number % 2 == 0 { 1 } else { 2 }
}

/// the player a turn number belongs to (the dispatch of a click to a player)
pub fn player_for_turn(turn_number: u32) -> (player_num: u32)
    ensures
        player_num == spec_player_for_turn(turn_number),
{
    if turn_number % 2 == 0 {
        1
    } else {
        2
    }
}

/// the winner once a turn of `mover` is over: the mover's own side is looked
/// at first, so a move that empties it loses whatever it did to the other
/// side; otherwise the mover wins when the other side is empty, otherwise the
/// game goes on
pub open spec fn spec_winner(field: Seq<Option<BasisModel>>, mover: u32) -> Option<u32> {
    if spec_side_is_cleared(field, mover) {
        Some(spec_opponent_of(mover))
    } else if spec_side_is_cleared(field, spec_opponent_of(mover)) {
        Some(mover)
    } else {
        None
    }
}

/// checks whether the game is in a terminal state after a turn of `mover`
/// ends, and who won
pub fn winner(field: &Field, mover: u32) -> (winner: Option<u32>)
    ensures
        winner == spec_winner(field@, mover),
{
    let opponent = opponent_of(mover);
    if side_is_cleared(field, mover) {
        Some(opponent)
    } else if side_is_cleared(field, opponent) {
        Some(mover)
    } else {
        None
    }
}

/// first slot of the side (0-2 or 3-5) that slot `j` lies on
pub open spec fn side_start(j: int) -> int {
    if j < 3 { 0 } else { 3 }
}

/// slot `j` survives every pivot before `pivots`: it is occupied and no
/// occupied slot `k` of its own side, with `k < pivots` and `k < j`, is a
/// scalar multiple of it
pub open spec fn survives(orig: Seq<Option<BasisModel>>, pivots: int, j: int) -> bool {
    &&& orig[j] is Some
    &&& forall|k: int|
        side_start(j) <= k < j && k < pivots ==> !(orig[k] is Some && scalar_multiples(
            #[trigger] orig[k]->0,
            orig[j]->0,
        ))
}

/// what slot `j` holds once every pivot before `pivots` was processed
pub open spec fn after_pivots(orig: Seq<Option<BasisModel>>, pivots: int, j: int) -> Option<BasisModel> {
    if survives(orig, pivots, j) { orig[j] } else { None }
}

/// the field after the end-of-turn clearing of linearly dependent slots: on
/// each side, a slot is kept iff it is occupied and no earlier occupied slot of
/// the same side is a scalar multiple of it (the first of every class stays)
pub open spec fn spec_cleared_dependent_pairs(orig: Seq<Option<BasisModel>>) -> Seq<Option<BasisModel>> {
    Seq::new(6, |j: int| after_pivots(orig, side_start(j) + 3, j))
}

/// clears, on the side starting at `start`, every slot that is a scalar
/// multiple of an earlier occupied slot of that side still standing
fn clear_side(field: &mut Field, start: usize)
    requires
        start == 0 || start == 3,
    ensures
        forall|j: int|
            start <= j < start + 3 ==> final(field)@[j] == after_pivots(old(field)@, start + 3, j),
        forall|j: int| 0 <= j < 6 && !(start <= j < start + 3) ==> final(field)@[j] == old(field)@[j],
{
    let ghost orig = old(field)@;
    let mut i: usize = start;
    while i < start + 3
        invariant
            start == 0 || start == 3,
            start <= i <= start + 3,
            orig == old(field)@,
            forall|j: int| start <= j < start + 3 ==> field@[j] == after_pivots(orig, i as int, j),
            forall|j: int| 0 <= j < 6 && !(start <= j < start + 3) ==> field@[j] == orig[j],
        decreases start + 3 - i,
    {
        let mut j: usize = i + 1;
        while j < start + 3
            invariant
                start == 0 || start == 3,
                start <= i < start + 3,
                i + 1 <= j <= start + 3,
                orig == old(field)@,
                field@[i as int] == after_pivots(orig, i as int, i as int),
                forall|m: int| i < m < j ==> field@[m] == after_pivots(orig, i + 1, m),
                forall|m: int| start <= m < start + 3 && !(i < m < j) ==> field@[m] == after_pivots(orig, i as int, m),
                forall|m: int| 0 <= m < 6 && !(start <= m < start + 3) ==> field@[m] == orig[m],
            decreases start + 3 - j,
        {
            let clear = match (&field.basis[i].basis, &field.basis[j].basis) {
                (Some(a), Some(b)) => a.same_up_to_coefficient(b),
                _ => false,
            };
            assert(clear == (field@[i as int] is Some && field@[j as int] is Some && scalar_multiples(field@[i as int]->0, field@[j as int]->0)));
            proof {
                assert(field@[j as int] == after_pivots(orig, i as int, j as int));
                assert(side_start(j as int) == start);
                assert(side_start(i as int) == start);
                if !clear && field@[j as int] is Some {
                    // an earlier pivot that was itself cleared leaves `j` alone:
                    // whatever cleared it would have cleared `j` too
                    if orig[i as int] is Some && scalar_multiples(orig[i as int]->0, orig[j as int]->0) {
                        assert(field@[j as int] == orig[j as int]);
                        assert(field@[i as int] is None);
                        assert(!survives(orig, i as int, i as int));
                        let k = choose|k: int|
                            side_start(i as int) <= k < i && k < i && (orig[k] is Some && scalar_multiples(
                                #[trigger] orig[k]->0,
                                orig[i as int]->0,
                            ));
                        assert(!survives(orig, i as int, j as int));
                    }
                }
            }
            let ghost prev = field@;
            if clear {
                field.basis[j] = FieldBasis::none();
                assert(field@ =~= prev.update(j as int, None));
            }
            proof {
                assert(field@[j as int] == after_pivots(orig, i + 1, j as int));
            }
            j = j + 1;
        }
        proof {
            assert forall|m: int| start <= m < start + 3 implies field@[m] == after_pivots(orig, i + 1, m) by {
                if m <= i {
                    assert(after_pivots(orig, i + 1, m) == after_pivots(orig, i as int, m));
                }
            }
        }
        i = i + 1;
    }
}

/// the end-of-turn cleanup used when linear dependence is not allowed: on each
/// side, every slot that is a scalar multiple of an earlier occupied slot of
/// the same side is emptied
pub fn clear_linearly_dependent_pairs(field: &mut Field)
    ensures
        final(field)@ == spec_cleared_dependent_pairs(old(field)@),
{
    let ghost orig = old(field)@;
    clear_side(field, 0);
    let ghost middle = field@;
    clear_side(field, 3);
    proof {
        assert forall|j: int| 3 <= j < 6 implies after_pivots(middle, 6, j) == after_pivots(orig, 6, j) by {
            assert(survives(middle, 6, j) == survives(orig, 6, j)) by {
                assert forall|k: int| 3 <= k < 6 implies middle[k] == orig[k] by {}
            }
        }
        assert(field@ =~= spec_cleared_dependent_pairs(orig));
    }
}

/// After the end-of-turn cleanup no two occupied slots of the same side are
/// scalar multiples of each other.
pub proof fn lemma_cleared_field_has_no_dependent_pairs(orig: Seq<Option<BasisModel>>, i: int, j: int)
    requires
        orig.len() == 6,
        0 <= i < j < 6,
        side_start(i) == side_start(j),
        spec_cleared_dependent_pairs(orig)[i] is Some,
        spec_cleared_dependent_pairs(orig)[j] is Some,
    ensures
        !scalar_multiples(
            spec_cleared_dependent_pairs(orig)[i]->0,
            spec_cleared_dependent_pairs(orig)[j]->0,
        ),
{
    assert(survives(orig, side_start(j) + 3, j));
    assert(!(orig[i] is Some && scalar_multiples(orig[i]->0, orig[j]->0)));
}

/// The cleanup only ever empties slots: every slot afterwards is either empty
/// or holds what it held before.
pub proof fn lemma_cleanup_only_empties(orig: Seq<Option<BasisModel>>, j: int)
    requires
        0 <= j < 6,
    ensures
        spec_cleared_dependent_pairs(orig)[j] is None || spec_cleared_dependent_pairs(orig)[j]
            == orig[j],
{
}

/// Running the cleanup a second time changes nothing.
pub proof fn lemma_cleanup_is_idempotent(orig: Seq<Option<BasisModel>>)
    requires
        orig.len() == 6,
    ensures
        spec_cleared_dependent_pairs(spec_cleared_dependent_pairs(orig)) == spec_cleared_dependent_pairs(
            orig,
        ),
{
    let once = spec_cleared_dependent_pairs(orig);
    let twice = spec_cleared_dependent_pairs(once);
    assert forall|j: int| 0 <= j < 6 implies twice[j] == once[j] by {
        if once[j] is Some {
            assert forall|k: int| side_start(j) <= k < j && k < side_start(j) + 3 implies !(
            once[k] is Some && scalar_multiples(#[trigger] once[k]->0, once[j]->0)) by {
                if once[k] is Some {
                    lemma_cleared_field_has_no_dependent_pairs(orig, k, j);
                }
            }
            assert(survives(once, side_start(j) + 3, j));
        }
    }
    assert(twice =~= once);
}

/// The first occupied slot of each side always stays.
pub proof fn lemma_cleanup_keeps_first_slot_of_each_side(orig: Seq<Option<BasisModel>>, j: int)
    requires
        j == 0 || j == 3,
        orig[j] is Some,
    ensures
        spec_cleared_dependent_pairs(orig)[j] == orig[j],
{
    assert(survives(orig, side_start(j) + 3, j));
}

/// A game is over exactly when one side has been cleared, and whoever's own
/// side empties out loses: the mover loses when its own side is empty (even
/// if the other side emptied too), and wins when only the other side is.
pub proof fn lemma_winner_matches_cleared_sides(field: Seq<Option<BasisModel>>, mover: u32)
    requires
        mover == 1 || mover == 2,
    ensures
        spec_winner(field, mover) is None <==> (!spec_side_is_cleared(field, 1) && !spec_side_is_cleared(
            field,
            2,
        )),
        spec_winner(field, mover) == Some(spec_opponent_of(mover)) <==> spec_side_is_cleared(field, mover),
        spec_winner(field, mover) == Some(mover) <==> (spec_side_is_cleared(field, spec_opponent_of(mover))
            && !spec_side_is_cleared(field, mover)),
{
}

} // verus!

verus! {

/// where a turn stands: waiting for a hand card, waiting for the single
/// target of an operator, for the side a Nabla/Laplacian acts on, for the
/// operands of a Mult/Div, or for the player to confirm a previewed move
#[allow(non_camel_case_types)]
#[derive(Clone, Copy, PartialEq, Eq, Structural, Debug)]
pub enum TurnPhase {
    IDLE,
    SELECT(Card),
    FIELD_SELECT(Card),
    MULTISELECT(Card),
    CONFIRM,
}

/// the field slot an id names, if it names one
pub open spec fn spec_field_slot(id: RenderId) -> Option<int> {
    if spec_render_id_string(id)[0] == 'f' {
        Some(spec_render_id_val(id) as int)
    } else {
        None
    }
}

/// the digit that names player `player_num` in the ids of their hand cards
pub open spec fn player_digit(player_num: u32) -> char {
    if player_num == 1 {
        '1'
    } else if player_num == 2 {
        '2'
    } else {
        '?'
    }
}

/// the position in player `player_num`'s hand an id names, if it names one
pub open spec fn spec_hand_slot(id: RenderId, player_num: u32) -> Option<int> {
    if spec_render_id_string(id)[0] == 'p' && spec_render_id_string(id)[1] == player_digit(player_num) {
        Some(spec_render_id_val(id) as int)
    } else {
        None
    }
}

/// the field slot an id names, if it names one
pub fn field_slot(id: RenderId) -> (slot: Option<usize>)
    ensures
        match spec_field_slot(id) {
            Some(i) => slot == Some(i as usize) && 0 <= i < 6,
            None => slot is None,
        },
{
    match id {
        RenderId::Field0 => Some(0),
        RenderId::Field1 => Some(1),
        RenderId::Field2 => Some(2),
        RenderId::Field3 => Some(3),
        RenderId::Field4 => Some(4),
        RenderId::Field5 => Some(5),
        _ => None,
    }
}

/// the position in player `player_num`'s hand an id names, if it names one
pub fn hand_slot(id: RenderId, player_num: u32) -> (slot: Option<usize>)
    ensures
        match spec_hand_slot(id, player_num) {
            Some(i) => slot == Some(i as usize) && 0 <= i < 7,
            None => slot is None,
        },
{
    let (one, two) = match id {
        RenderId::PlayerOne0 => (Some(0usize), None),
        RenderId::PlayerOne1 => (Some(1), None),
        RenderId::PlayerOne2 => (Some(2), None),
        RenderId::PlayerOne3 => (Some(3), None),
        RenderId::PlayerOne4 => (Some(4), None),
        RenderId::PlayerOne5 => (Some(5), None),
        RenderId::PlayerOne6 => (Some(6), None),
        RenderId::PlayerTwo0 => (None, Some(0usize)),
        RenderId::PlayerTwo1 => (None, Some(1)),
        RenderId::PlayerTwo2 => (None, Some(2)),
        RenderId::PlayerTwo3 => (None, Some(3)),
        RenderId::PlayerTwo4 => (None, Some(4)),
        RenderId::PlayerTwo5 => (None, Some(5)),
        RenderId::PlayerTwo6 => (None, Some(6)),
        _ => (None, None),
    };
    if player_num == 1 {
        one
    } else if player_num == 2 {
        two
    } else {
        None
    }
}

/// whether some field slot is empty
pub open spec fn spec_has_empty_slot(field: Seq<Option<BasisModel>>) -> bool {
    exists|i: int| 0 <= i < 6 && (#[trigger] field[i]) is None
}

/// whether some field slot is empty
pub fn has_empty_slot(field: &Field) -> (empty: bool)
    ensures
        empty == spec_has_empty_slot(field@),
{
    let mut i: usize = 0;
    while i < 6
        invariant
            i <= 6,
            forall|j: int| 0 <= j < i ==> (#[trigger] field@[j]) is Some,
        decreases 6 - i,
    {
        if field.basis[i].basis.is_none() {
            assert(field@[i as int] is None);
            return true;
        }
        i = i + 1;
    }
    false
}

/// the phase a picked hand card leads to, `None` when it cannot be played
/// now: a basis card needs an empty slot; Derivative/Integral and every other
/// single-target operator wait for a target, Nabla and (from the third turn
/// on, so neither player can open with it) Laplacian for a side of the field,
/// Mult/Div for their operands
pub open spec fn spec_idle_turn_phase(card: Card, field: Seq<Option<BasisModel>>, turn_number: u32) -> Option<TurnPhase> {
    match card {
        Card::BasisCard(_) => if spec_has_empty_slot(field) {
            Some(TurnPhase::SELECT(card))
        } else {
            None
        },
        Card::DerivativeCard(DerivativeCard::Derivative) => Some(TurnPhase::SELECT(card)),
        Card::DerivativeCard(DerivativeCard::Integral) => Some(TurnPhase::SELECT(card)),
        Card::DerivativeCard(DerivativeCard::Nabla) => Some(TurnPhase::FIELD_SELECT(card)),
        Card::DerivativeCard(DerivativeCard::Laplacian) => if turn_number >= 2 {
            Some(TurnPhase::FIELD_SELECT(card))
        } else {
            None
        },
        Card::AlgebraicCard(AlgebraicCard::Div) => Some(TurnPhase::MULTISELECT(card)),
        Card::AlgebraicCard(AlgebraicCard::Mult) => Some(TurnPhase::MULTISELECT(card)),
        _ => Some(TurnPhase::SELECT(card)),
    }
}

/// handles the idle turn phase, where the player picks a card from their hand:
/// the phase the turn moves on to, or `None` when the card cannot be played now
pub fn idle_turn_phase(card: Card, field: &Field, turn_number: u32) -> (next: Option<TurnPhase>)
    ensures
        next == spec_idle_turn_phase(card, field@, turn_number),
{
    match card {
        Card::BasisCard(_) => if has_empty_slot(field) {
            Some(TurnPhase::SELECT(card))
        } else {
            None
        },
        Card::DerivativeCard(derivative_card) => match derivative_card {
            DerivativeCard::Derivative | DerivativeCard::Integral => Some(TurnPhase::SELECT(card)),
            DerivativeCard::Nabla => Some(TurnPhase::FIELD_SELECT(card)),
            DerivativeCard::Laplacian => if turn_number >= 2 {
                Some(TurnPhase::FIELD_SELECT(card))
            } else {
                None
            },
        },
        Card::AlgebraicCard(AlgebraicCard::Div) | Card::AlgebraicCard(AlgebraicCard::Mult) => Some(
            TurnPhase::MULTISELECT(card),
        ),
        _ => Some(TurnPhase::SELECT(card)),
    }
}

/// the turn in progress: its number (even for player 1, odd for player 2)
/// and its phase
#[derive(Clone, Copy, PartialEq, Eq, Structural, Debug)]
pub struct Turn {
    pub number: u32,
    pub phase: TurnPhase,
}

/// a move waiting for the player to confirm it: the field it leads to and the
/// slots it changes
pub struct PendingAction {
    pub field: Field,
    pub changed_indices: Vec<usize>,
}

/// what becomes of a completed move
pub enum MoveOutcome {
    /// previewed, awaiting the confirm or cancel button
    AwaitConfirm(PendingAction),
    /// committed at once: the field to install before the turn ends
    Commit(Field),
}

/// either commits `new_field` at once (the turn then ends), or, when moves are
/// confirmed before they are played, keeps it as a preview and moves the turn
/// to the CONFIRM phase
pub fn commit_or_confirm(turn: &mut Turn, new_field: Field, changed_indices: Vec<usize>, confirm_before_play: bool) -> (outcome: MoveOutcome)
    ensures
        confirm_before_play ==> (outcome matches MoveOutcome::AwaitConfirm(pending) && pending.field@ == new_field@
            && pending.changed_indices@ == changed_indices@) && *final(turn) == (Turn {
            number: old(turn).number,
            phase: TurnPhase::CONFIRM,
        }),
        !confirm_before_play ==> (outcome matches MoveOutcome::Commit(f) && f@ == new_field@) && *final(turn)
            == *old(turn),
{
    if confirm_before_play {
        next_phase(turn, TurnPhase::CONFIRM);
        MoveOutcome::AwaitConfirm(PendingAction { field: new_field, changed_indices })
    } else {
        MoveOutcome::Commit(new_field)
    }
}

/// moves the turn on to `phase`
pub fn next_phase(turn: &mut Turn, phase: TurnPhase)
    ensures
        *final(turn) == (Turn { number: old(turn).number, phase: phase }),
{
    turn.phase = phase;
}

/// finalises a turn: the next turn starts idle with nothing selected; in an
/// online game (`playing_online`, with a session) the clicks buffered during the turn are
/// taken out as the `action` message to send to the peer; and the game ends
/// when a side was cleared, the mover's own side looked at first (see winner)
pub fn next_turn(
    turn: &mut Turn,
    selected: &mut Vec<RenderId>,
    field: &Field,
    playing_online: bool,
    session: &mut Option<OnlineSession>,
) -> (outcome: (Option<u32>, Option<Vec<String>>))
    requires
        old(turn).number < u32::MAX,
    ensures
        *final(turn) == (Turn { number: (old(turn).number + 1) as u32, phase: TurnPhase::IDLE }),
        final(selected)@.len() == 0,
        outcome.0 == spec_winner(field@, spec_player_for_turn(old(turn).number)),
        !playing_online || *old(session) is None ==> *final(session) == *old(session) && outcome.1 is None,
        playing_online ==> (*old(session) matches Some(s) ==> (*final(session) matches Some(t) && t@ == (
            s@.0,
            s@.1,
            Seq::<RenderId>::empty(),
        ) && match spec_action_message(s@.2) {
            Some(m) => outcome.1 matches Some(v) && v@.map_values(|x: String| x@) == m,
            None => outcome.1 is None,
        })),
{
    let mover = player_for_turn(turn.number);
    turn.number = turn.number + 1;
    turn.phase = TurnPhase::IDLE;
    selected.clear();
    let message = if playing_online {
        match session {
            Some(s) => s.flush_outgoing(),
            None => None,
        }
    } else {
        None
    };
    (winner(field, mover), message)
}

/// what a click does, given the phase of the turn
#[derive(Clone, Copy, PartialEq, Eq, Structural, Debug)]
pub enum ClickRoute {
    /// the cancel button: drop the selection and any previewed move, back to idle
    CancelMove,
    /// the confirm button while a move awaits confirmation: commit it
    ConfirmMove,
    /// a card of the mover's hand, picked while idle
    PickHandCard(usize),
    /// a click while an operator waits for its single target
    SelectTarget(Card),
    /// a field slot clicked while a Nabla/Laplacian waits for its side
    SelectSide(Card, usize),
    /// a click while a Mult/Div collects its operands
    MultiSelect(Card),
    /// nothing to do
    Ignore,
}

/// further splits a click of player `player_num` by the phase of the turn
pub open spec fn spec_route_click(phase: TurnPhase, id: RenderId, player_num: u32) -> ClickRoute {
    if id == RenderId::Cancel {
        ClickRoute::CancelMove
    } else if id == RenderId::Confirm && phase == TurnPhase::CONFIRM {
        ClickRoute::ConfirmMove
    } else {
        match phase {
            TurnPhase::IDLE => match spec_hand_slot(id, player_num) {
                Some(i) => ClickRoute::PickHandCard(i as usize),
                None => ClickRoute::Ignore,
            },
            TurnPhase::SELECT(op) => ClickRoute::SelectTarget(op),
            TurnPhase::FIELD_SELECT(op) => match spec_field_slot(id) {
                Some(i) => ClickRoute::SelectSide(op, i as usize),
                None => ClickRoute::Ignore,
            },
            TurnPhase::MULTISELECT(op) => ClickRoute::MultiSelect(op),
            TurnPhase::CONFIRM => ClickRoute::Ignore,
        }
    }
}

/// routes a click of player `player_num` by the phase of the turn
pub fn branch_turn_phase(phase: TurnPhase, id: RenderId, player_num: u32) -> (route: ClickRoute)
    ensures
        route == spec_route_click(phase, id, player_num),
{
    if id == RenderId::Cancel {
        return ClickRoute::CancelMove;
    }
    if id == RenderId::Confirm && phase == TurnPhase::CONFIRM {
        return ClickRoute::ConfirmMove;
    }
    match phase {
        TurnPhase::IDLE => match hand_slot(id, player_num) {
            Some(i) => ClickRoute::PickHandCard(i),
            None => ClickRoute::Ignore,
        },
        TurnPhase::SELECT(op) => ClickRoute::SelectTarget(op),
        TurnPhase::FIELD_SELECT(op) => match field_slot(id) {
            Some(i) => ClickRoute::SelectSide(op, i),
            None => ClickRoute::Ignore,
        },
        TurnPhase::MULTISELECT(op) => ClickRoute::MultiSelect(op),
        TurnPhase::CONFIRM => ClickRoute::Ignore,
    }
}

/// the move a basis card played onto field slot `t` makes: allowed only onto
/// an empty slot, and never for Zero (which only serves as a Mult/Div operand)
pub fn select_basis_target(field: &Field, basis_card: BasisCard, id: RenderId) -> (commit: Option<(Field, Vec<usize>)>)
    ensures
        commit is Some <==> (spec_field_slot(id) matches Some(t) && field@[t] is None && basis_card
            != BasisCard::Zero),
        commit matches Some((new_field, changed)) ==> (spec_field_slot(id) matches Some(t)
            && new_field@ == field@.update(t, Some(spec_basis_from_card(basis_card))) && changed@ == seq![t as usize]),
{
    let t = match field_slot(id) {
        Some(t) => t,
        None => return None,
    };
    if field.basis[t].basis.is_some() || basis_card == BasisCard::Zero {
        return None;
    }
    let mut new_field = field.duplicate();
    new_field.set_slot(t, FieldBasis::new(&Basis::from_card(basis_card)));
    let mut changed: Vec<usize> = Vec::new();
    changed.push(t);
    Some((new_field, changed))
}

/// what a slot holds after an operator turned its expression into `result`:
/// nothing when the result is 0 or plus or minus infinity, otherwise the result
pub open spec fn spec_single_result_slot(result: BasisModel) -> Option<BasisModel> {
    if spec_is_num(result, 0) || spec_is_inf(result, 1) || spec_is_inf(result, -1) {
        None
    } else {
        Some(result)
    }
}

/// the field after a single-target operator (other than Inverse and the
/// Derivative/Integral cards, which go through the slot's history) turned the
/// expression in slot `target` into `result`
pub fn select_operator_result(field: &Field, target: usize, result: &Basis) -> (new_field: Field)
    requires
        target < 6,
    ensures
        new_field@ == field@.update(target as int, spec_single_result_slot(result@)),
{
    let mut new_field = field.duplicate();
    if result.is_num(0) || result.is_inf(1) || result.is_inf(-1) {
        new_field.set_slot(target, FieldBasis::none());
    } else {
        new_field.set_slot(target, FieldBasis::new(result));
    }
    new_field
}

/// the slots a Nabla/Laplacian acts on: the side of the field the clicked slot
/// lies on
pub fn field_select_slots(slot: usize) -> (slots: Vec<usize>)
    ensures
        slots@ == (if slot < 3 { seq![0usize, 1, 2] } else { seq![3usize, 4, 5] }),
{
    let start: usize = if slot < 3 { 0 } else { 3 };
    let mut slots: Vec<usize> = Vec::new();
    slots.push(start);
    slots.push(start + 1);
    slots.push(start + 2);
    assert(slots@ =~= (if slot < 3 { seq![0usize, 1, 2] } else { seq![3usize, 4, 5] }));
    slots
}

/// whether an id names a card in a hand (of either player)
pub open spec fn spec_is_hand_id(id: RenderId) -> bool {
    spec_render_id_string(id)[0] == 'p'
}

/// whether a selection already holds a field slot
pub open spec fn spec_selects_field_slot(selected: Seq<RenderId>) -> bool {
    exists|k: int| 0 <= k < selected.len() && (#[trigger] spec_field_slot(selected[k])) is Some
}

/// whether a click is added to the operands a Mult/Div collects: a field slot
/// while none is selected yet (a second one is dropped, so a play combines one
/// field slot with basis cards from the hand), or a basis card of the mover's
/// own hand
pub open spec fn spec_multi_select_accepts(id: RenderId, selected: Seq<RenderId>, hand: Seq<Card>, player_num: u32) -> bool {
    ||| spec_field_slot(id) is Some && !spec_selects_field_slot(selected)
    ||| (spec_hand_slot(id, player_num) matches Some(i) && hand[i] is BasisCard)
}

/// whether a selection already holds a field slot
fn selects_field_slot(selected: &Vec<RenderId>) -> (found: bool)
    ensures
        found == spec_selects_field_slot(selected@),
{
    let mut k: usize = 0;
    while k < selected.len()
        invariant
            k <= selected@.len(),
            forall|j: int| 0 <= j < k ==> (#[trigger] spec_field_slot(selected@[j])) is None,
        decreases selected@.len() - k,
    {
        if field_slot(selected[k]).is_some() {
            assert(spec_field_slot(selected@[k as int]) is Some);
            return true;
        }
        k = k + 1;
    }
    false
}

/// whether a click is added to the operands a Mult/Div collects, given what
/// the selection already holds
pub fn multi_select_accepts(id: RenderId, selected: &Vec<RenderId>, hand: &Vec<Card>, player_num: u32) -> (accepts: bool)
    requires
        spec_hand_slot(id, player_num) matches Some(i) ==> i < hand@.len(),
    ensures
        accepts == spec_multi_select_accepts(id, selected@, hand@, player_num),
{
    if id.is_field() {
        return !selects_field_slot(selected);
    }
    match hand_slot(id, player_num) {
        Some(i) => matches!(hand[i], Card::BasisCard(_)),
        None => false,
    }
}

/// whether a selected hand card (of the mover's hand, by position) is a Zero
pub open spec fn spec_is_zero_pick(id: RenderId, hand: Seq<Card>) -> bool {
    spec_is_hand_id(id) && hand[spec_render_id_val(id) as int] == Card::BasisCard(BasisCard::Zero)
}

/// scanning a selection for a Zero looks up every hand id up to the first Zero
/// in the mover's hand
pub open spec fn zero_scan_in_range(selected: Seq<RenderId>, hand: Seq<Card>) -> bool {
    forall|k: int|
        0 <= k < selected.len() && spec_is_hand_id(#[trigger] selected[k]) && (forall|j: int|
            0 <= j < k ==> !spec_is_zero_pick(selected[j], hand)) ==> spec_render_id_val(selected[k])
            < hand.len()
}

/// whether a Mult/Div play is complete: the done button was clicked, at least
/// one field slot and at least two operands (besides the operator card) were
/// selected, and a Zero from the hand is only ever combined with exactly one
/// other operand
pub open spec fn spec_multi_select_ready(selected: Seq<RenderId>, id: RenderId, hand: Seq<Card>) -> bool {
    &&& id == RenderId::Multidone
    &&& spec_selects_field_slot(selected)
    &&& !(selected.len() != 3 && exists|k: int|
        0 <= k < selected.len() && #[trigger] spec_is_zero_pick(selected[k], hand))
    &&& selected.len() >= 3
}

/// whether some selected hand card is a Zero
fn selection_has_zero(selected: &Vec<RenderId>, hand: &Vec<Card>) -> (found: bool)
    requires
        zero_scan_in_range(selected@, hand@),
    ensures
        found == exists|k: int| 0 <= k < selected@.len() && #[trigger] spec_is_zero_pick(selected@[k], hand@),
{
    let mut k: usize = 0;
    while k < selected.len()
        invariant
            k <= selected@.len(),
            zero_scan_in_range(selected@, hand@),
            forall|j: int| 0 <= j < k ==> !#[trigger] spec_is_zero_pick(selected@[j], hand@),
        decreases selected@.len() - k,
    {
        let id = selected[k];
        if id.is_player() {
            let (_key, v) = id.key_val();
            assert(spec_is_hand_id(selected@[k as int]));
            if hand[v] == Card::BasisCard(BasisCard::Zero) {
                assert(spec_is_zero_pick(selected@[k as int], hand@));
                return true;
            }
        }
        assert(!spec_is_zero_pick(selected@[k as int], hand@));
        k = k + 1;
    }
    false
}

/// whether a Mult/Div play is complete after the click `id` (the selection
/// already holding every accepted click, the operator card first)
pub fn multi_select_ready(selected: &Vec<RenderId>, id: RenderId, hand: &Vec<Card>) -> (ready: bool)
    requires
        selected@.len() != 3 ==> zero_scan_in_range(selected@, hand@),
    ensures
        ready == spec_multi_select_ready(selected@, id, hand@),
{
    let mut has_field = false;
    let mut k: usize = 0;
    while k < selected.len()
        invariant
            k <= selected@.len(),
            has_field == exists|j: int| 0 <= j < k && (#[trigger] spec_field_slot(selected@[j])) is Some,
        decreases selected@.len() - k,
    {
        let is_field = field_slot(selected[k]).is_some();
        assert(is_field == spec_field_slot(selected@[k as int]) is Some);
        has_field = has_field || is_field;
        k = k + 1;
    }
    let has_two = selected.len() >= 3;
    let zero_with_many = selected.len() != 3 && selection_has_zero(selected, hand);
    id == RenderId::Multidone && has_field && !zero_with_many && has_two
}

/// the operand one selected id contributes to a Mult/Div: a field slot's
/// expression, a hand basis card's expression, nothing for the operator card
pub open spec fn spec_multi_operand(id: RenderId, field: Seq<Option<BasisModel>>, hand: Seq<Card>, player_num: u32) -> Option<BasisModel> {
    match spec_field_slot(id) {
        Some(i) => field[i],
        None => match spec_hand_slot(id, player_num) {
            Some(i) => match hand[i] {
                Card::BasisCard(b) => Some(spec_basis_from_card(b)),
                _ => None,
            },
            None => None,
        },
    }
}

/// a selected id can be turned into an operand: an occupied field slot, or a
/// basis or algebraic card of the mover's hand
pub open spec fn valid_multi_operand(id: RenderId, field: Seq<Option<BasisModel>>, hand: Seq<Card>, player_num: u32) -> bool {
    match spec_field_slot(id) {
        Some(i) => field[i] is Some,
        None => match spec_hand_slot(id, player_num) {
            Some(i) => i < hand.len() && (hand[i] is BasisCard || hand[i] is AlgebraicCard),
            None => false,
        },
    }
}

/// the operands of a Mult/Div, in the order they were selected
pub open spec fn spec_multi_operands(selected: Seq<RenderId>, field: Seq<Option<BasisModel>>, hand: Seq<Card>, player_num: u32) -> Seq<BasisModel>
    decreases selected.len(),
{
    if selected.len() == 0 {
        Seq::empty()
    } else {
        let rest = spec_multi_operands(selected.drop_last(), field, hand, player_num);
        match spec_multi_operand(selected.last(), field, hand, player_num) {
            Some(b) => rest.push(b),
            None => rest,
        }
    }
}

/// the operands of a Mult/Div, in the order they were selected: the
/// expressions of the selected field slots and of the selected hand basis
/// cards, skipping the operator card
pub fn multi_select_operands(selected: &Vec<RenderId>, field: &Field, hand: &Vec<Card>, player_num: u32) -> (operands: Vec<Basis>)
    requires
        forall|k: int| 0 <= k < selected@.len() ==> valid_multi_operand(#[trigger] selected@[k], field@, hand@, player_num),
    ensures
        operands@.map_values(|b: Basis| b@) == spec_multi_operands(selected@, field@, hand@, player_num),
{
    let mut operands: Vec<Basis> = Vec::new();
    let mut k: usize = 0;
    while k < selected.len()
        invariant
            k <= selected@.len(),
            forall|m: int| 0 <= m < selected@.len() ==> valid_multi_operand(#[trigger] selected@[m], field@, hand@, player_num),
            operands@.map_values(|b: Basis| b@) == spec_multi_operands(selected@.take(k as int), field@, hand@, player_num),
        decreases selected@.len() - k,
    {
        let id = selected[k];
        assert(selected@.take(k + 1).drop_last() =~= selected@.take(k as int));
        assert(selected@.take(k + 1).last() == id);
        assert(valid_multi_operand(selected@[k as int], field@, hand@, player_num));
        let ghost before = operands@;
        match field_slot(id) {
            Some(i) => {
                match &field.basis[i].basis {
                    Some(b) => operands.push(b.duplicate()),
                    None => {},
                }
            },
            None => match hand_slot(id, player_num) {
                Some(i) => match hand[i] {
                    Card::BasisCard(b) => operands.push(Basis::from_card(b)),
                    _ => {},
                },
                None => {},
            },
        }
        assert(operands@.map_values(|b: Basis| b@) =~= spec_multi_operands(selected@.take(k + 1), field@, hand@, player_num));
        k = k + 1;
    }
    assert(selected@.take(k as int) =~= selected@);
    operands
}

/// the field slots of a selection, in the order they were selected
pub open spec fn spec_used_field_slots(selected: Seq<RenderId>) -> Seq<usize>
    decreases selected.len(),
{
    if selected.len() == 0 {
        Seq::empty()
    } else {
        let rest = spec_used_field_slots(selected.drop_last());
        match spec_field_slot(selected.last()) {
            Some(i) => rest.push(i as usize),
            None => rest,
        }
    }
}

/// a field id names one of the six slots
proof fn lemma_field_slot_range(id: RenderId)
    ensures
        spec_field_slot(id) matches Some(i) ==> 0 <= i < 6,
{
    match id {
        RenderId::PlayerOne0 => {},
        RenderId::PlayerOne1 => {},
        RenderId::PlayerOne2 => {},
        RenderId::PlayerOne3 => {},
        RenderId::PlayerOne4 => {},
        RenderId::PlayerOne5 => {},
        RenderId::PlayerOne6 => {},
        RenderId::PlayerTwo0 => {},
        RenderId::PlayerTwo1 => {},
        RenderId::PlayerTwo2 => {},
        RenderId::PlayerTwo3 => {},
        RenderId::PlayerTwo4 => {},
        RenderId::PlayerTwo5 => {},
        RenderId::PlayerTwo6 => {},
        RenderId::Field0 => {},
        RenderId::Field1 => {},
        RenderId::Field2 => {},
        RenderId::Field3 => {},
        RenderId::Field4 => {},
        RenderId::Field5 => {},
        RenderId::Deck => {},
        RenderId::Deal => {},
        RenderId::Graveyard0 => {},
        RenderId::Graveyard1 => {},
        RenderId::Graveyard2 => {},
        RenderId::Cancel => {},
        RenderId::Multidone => {},
        RenderId::Confirm => {},
        RenderId::TurnIndicator => {},
    }
}

/// every slot the selection names is a slot of the field
proof fn lemma_used_field_slots_in_range(selected: Seq<RenderId>)
    ensures
        forall|k: int| 0 <= k < spec_used_field_slots(selected).len() ==> #[trigger] spec_used_field_slots(selected)[k] < 6,
    decreases selected.len(),
{
    if selected.len() > 0 {
        let rest = spec_used_field_slots(selected.drop_last());
        lemma_used_field_slots_in_range(selected.drop_last());
        lemma_field_slot_range(selected.last());
        assert forall|k: int| 0 <= k < spec_used_field_slots(selected).len() implies #[trigger] spec_used_field_slots(selected)[k] < 6 by {
            if k < rest.len() {
                assert(rest[k] < 6);
            }
        }
    }
}

/// the field slots of a selection, in the order they were selected
pub fn used_field_slots(selected: &Vec<RenderId>) -> (slots: Vec<usize>)
    ensures
        slots@ == spec_used_field_slots(selected@),
        forall|k: int| 0 <= k < slots@.len() ==> #[trigger] slots@[k] < 6,
{
    let mut slots: Vec<usize> = Vec::new();
    let mut k: usize = 0;
    while k < selected.len()
        invariant
            k <= selected@.len(),
            slots@ == spec_used_field_slots(selected@.take(k as int)),
        decreases selected@.len() - k,
    {
        assert(selected@.take(k + 1).drop_last() =~= selected@.take(k as int));
        match field_slot(selected[k]) {
            Some(i) => slots.push(i),
            None => {},
        }
        k = k + 1;
    }
    assert(selected@.take(k as int) =~= selected@);
    proof {
        lemma_used_field_slots_in_range(selected@);
    }
    slots
}

/// the field after a Mult/Div combined the selected slots into `result`: every
/// used slot is emptied, and the first of them receives the result unless it
/// is 0
pub open spec fn spec_multi_result_field(field: Seq<Option<BasisModel>>, used: Seq<usize>, result: BasisModel) -> Seq<Option<BasisModel>> {
    Seq::new(
        6,
        |j: int|
            if j == used[0] {
                if spec_is_num(result, 0) {
                    None
                } else {
                    Some(result)
                }
            } else if used.contains(j as usize) {
                None
            } else {
                field[j]
            },
    )
}

/// the move a completed Mult/Div makes: the new field and the slots it
/// changed, the result `result` of combining the operands going into the first
/// selected slot
pub fn multi_select_result_field(field: &Field, selected: &Vec<RenderId>, result: &Basis) -> (commit: (Field, Vec<usize>))
    requires
        spec_used_field_slots(selected@).len() > 0,
    ensures
        commit.1@ == spec_used_field_slots(selected@),
        commit.0@ == spec_multi_result_field(field@, spec_used_field_slots(selected@), result@),
{
    let used = used_field_slots(selected);
    let mut new_field = field.duplicate();
    let mut k: usize = 0;
    while k < used.len()
        invariant
            k <= used@.len(),
            used@ == spec_used_field_slots(selected@),
            forall|m: int| 0 <= m < used@.len() ==> #[trigger] used@[m] < 6,
            forall|j: int|
                0 <= j < 6 ==> #[trigger] new_field@[j] == (if used@.take(k as int).contains(j as usize) {
                    None
                } else {
                    field@[j]
                }),
            new_field@.len() == 6,
        decreases used@.len() - k,
    {
        let u = used[k];
        let ghost prev = new_field@;
        new_field.set_slot(u, FieldBasis::none());
        assert forall|j: int| 0 <= j < 6 implies #[trigger] new_field@[j] == (if used@.take(k + 1).contains(j as usize) {
            None
        } else {
            field@[j]
        }) by {
            let s0 = used@.take(k as int);
            let s1 = used@.take(k + 1);
            assert(s1 =~= s0.push(u));
            assert(prev[j] == (if s0.contains(j as usize) { None } else { field@[j] }));
            if s0.contains(j as usize) {
                let m = choose|m: int| 0 <= m < s0.len() && s0[m] == j as usize;
                assert(s1[m] == j as usize);
            }
            if j == u as int {
                assert(s1[k as int] == u);
            } else {
                assert(new_field@[j] == prev[j]);
                if s1.contains(j as usize) {
                    let m = choose|m: int| 0 <= m < s1.len() && s1[m] == j as usize;
                    assert(m < k);
                    assert(s0[m] == j as usize);
                }
            }
        }
        k = k + 1;
    }
    assert(used@.take(k as int) =~= used@);
    let first = used[0];
    if result.is_num(0) {
        new_field.set_slot(first, FieldBasis::none());
    } else {
        new_field.set_slot(first, FieldBasis::new(result));
    }
    assert(new_field@ =~= spec_multi_result_field(field@, used@, result@));
    (new_field, used)
}

/// the hand positions of the hand cards of a selection (of either player's
/// ids), in the order they were selected
pub open spec fn spec_player_vals(selected: Seq<RenderId>) -> Seq<usize>
    decreases selected.len(),
{
    if selected.len() == 0 {
        Seq::empty()
    } else {
        let rest = spec_player_vals(selected.drop_last());
        if spec_is_hand_id(selected.last()) {
            rest.push(spec_render_id_val(selected.last()) as usize)
        } else {
            rest
        }
    }
}

/// largest first
pub open spec fn descending() -> spec_fn(usize, usize) -> bool {
    |a: usize, b: usize| a >= b
}

/// the hand positions of the cards played this turn, largest first, so that
/// removing them one after the other removes exactly these cards
pub open spec fn spec_used_hand_indices(selected: Seq<RenderId>) -> Seq<usize> {
    spec_player_vals(selected).sort_by(descending())
}

/// `>=` orders positions totally
proof fn lemma_descending_total()
    ensures
        total_ordering(descending()),
{
    let r = descending();
    assert(vstd::relations::reflexive(r));
    assert(vstd::relations::antisymmetric(r));
    assert(vstd::relations::transitive(r));
    assert(vstd::relations::strongly_connected(r));
}

/// the hand positions of the cards played this turn, largest first
pub fn used_hand_indices(selected: &Vec<RenderId>) -> (indices: Vec<usize>)
    ensures
        indices@ == spec_used_hand_indices(selected@),
        sorted_by(indices@, descending()),
        indices@.to_multiset() == spec_player_vals(selected@).to_multiset(),
{
    broadcast use vstd::seq_lib::group_to_multiset_ensures;

    let mut indices: Vec<usize> = Vec::new();
    let mut k: usize = 0;
    while k < selected.len()
        invariant
            k <= selected@.len(),
            sorted_by(indices@, descending()),
            indices@.to_multiset() == spec_player_vals(selected@.take(k as int)).to_multiset(),
        decreases selected@.len() - k,
    {
        assert(selected@.take(k + 1).drop_last() =~= selected@.take(k as int));
        let id = selected[k];
        assert(selected@.take(k + 1).last() == id);
        if id.is_player() {
            let (_key, v) = id.key_val();
            assert(spec_player_vals(selected@.take(k + 1)) == spec_player_vals(selected@.take(k as int)).push(v));
            let mut p: usize = 0;
            while p < indices.len() && indices[p] >= v
                invariant
                    p <= indices@.len(),
                    forall|m: int| 0 <= m < p ==> indices@[m] >= v,
                decreases indices@.len() - p,
            {
                p = p + 1;
            }
            let ghost before = indices@;
            indices.insert(p, v);
            proof {
                vstd::seq_lib::to_multiset_insert(before, p as int, v);
                vstd::seq_lib::to_multiset_build(spec_player_vals(selected@.take(k as int)), v);
            }
            assert(indices@.to_multiset() == before.to_multiset().insert(v));
            proof {
                assert forall|a: int, b: int| 0 <= a < b < indices@.len() implies #[trigger] descending()(indices@[a], indices@[b]) by {
                    assert(descending()(before[a], before[b - 1]) || a >= b - 1 || a >= p || b - 1 < p || true);
                    if b < p {
                        assert(descending()(before[a], before[b]));
                    } else if b == p {
                        assert(before[a] >= v);
                    } else if a < p {
                        assert(before[a] >= v);
                        if p < before.len() {
                            assert(before[p as int] < v);
                            assert(descending()(before[p as int], before[b - 1]) || p == b - 1);
                        }
                    } else if a == p {
                        assert(before[p as int] < v);
                        assert(descending()(before[p as int], before[b - 1]) || p == b - 1);
                    } else {
                        assert(descending()(before[a - 1], before[b - 1]));
                    }
                }
            }
        } else {
            assert(spec_player_vals(selected@.take(k + 1)) == spec_player_vals(selected@.take(k as int)));
        }
        k = k + 1;
    }
    assert(selected@.take(k as int) =~= selected@);
    proof {
        lemma_descending_total();
        spec_player_vals(selected@).lemma_sort_by_ensures(descending());
        vstd::seq_lib::lemma_sorted_unique(indices@, spec_player_vals(selected@).sort_by(descending()), descending());
    }
    indices
}

/// the hand and graveyard after removing, one after the other, the cards at
/// positions `indices` from the hand and putting each on the graveyard
pub open spec fn spec_discard(hand: Seq<Card>, graveyard: Seq<Card>, indices: Seq<usize>) -> (Seq<Card>, Seq<Card>)
    decreases indices.len(),
{
    if indices.len() == 0 {
        (hand, graveyard)
    } else {
        spec_discard(
            hand.remove(indices[0] as int),
            graveyard.push(hand[indices[0] as int]),
            indices.drop_first(),
        )
    }
}

/// each removal finds its card: the `k`-th position is within the hand left
/// after `k` removals
pub open spec fn removals_in_range(hand_len: nat, indices: Seq<usize>) -> bool {
    forall|k: int| 0 <= k < indices.len() ==> #[trigger] indices[k] + k < hand_len
}

/// removes the cards at `indices`, one after the other, from the hand, and
/// puts each on the graveyard
pub fn discard_used_cards(hand: &mut Vec<Card>, graveyard: &mut Vec<Card>, indices: &Vec<usize>)
    requires
        removals_in_range(old(hand)@.len(), indices@),
    ensures
        (final(hand)@, final(graveyard)@) == spec_discard(old(hand)@, old(graveyard)@, indices@),
{
    let ghost goal = spec_discard(hand@, graveyard@, indices@);
    let ghost start_len = hand@.len();
    let mut k: usize = 0;
    assert(indices@.skip(0) =~= indices@);
    while k < indices.len()
        invariant
            k <= indices@.len(),
            hand@.len() + k == start_len,
            removals_in_range(start_len, indices@),
            spec_discard(hand@, graveyard@, indices@.skip(k as int)) == goal,
        decreases indices@.len() - k,
    {
        let i = indices[k];
        assert(indices@[k as int] + k < start_len);
        let ghost h = hand@;
        let ghost g = graveyard@;
        assert(indices@.skip(k as int).drop_first() =~= indices@.skip(k + 1));
        assert(indices@.skip(k as int)[0] == i);
        let card = hand.remove(i);
        graveyard.push(card);
        assert(spec_discard(h, g, indices@.skip(k as int)) == spec_discard(hand@, graveyard@, indices@.skip(k + 1)));
        k = k + 1;
    }
    assert(indices@.skip(k as int) =~= Seq::<usize>::empty());
}

/// the id of position `i` of player `player_num`'s hand (player 1 for any
/// number but 2, position 6 for any beyond it)
pub open spec fn spec_hand_id(player_num: u32, i: int) -> RenderId {
    if player_num == 2 {
        if i == 0 { RenderId::PlayerTwo0 }
        else if i == 1 { RenderId::PlayerTwo1 }
        else if i == 2 { RenderId::PlayerTwo2 }
        else if i == 3 { RenderId::PlayerTwo3 }
        else if i == 4 { RenderId::PlayerTwo4 }
        else if i == 5 { RenderId::PlayerTwo5 }
        else { RenderId::PlayerTwo6 }
    } else {
        if i == 0 { RenderId::PlayerOne0 }
        else if i == 1 { RenderId::PlayerOne1 }
        else if i == 2 { RenderId::PlayerOne2 }
        else if i == 3 { RenderId::PlayerOne3 }
        else if i == 4 { RenderId::PlayerOne4 }
        else if i == 5 { RenderId::PlayerOne5 }
        else { RenderId::PlayerOne6 }
    }
}

/// the id of field slot `slot` (slot 5 for any beyond it)
pub open spec fn spec_field_id(slot: int) -> RenderId {
    if slot == 0 { RenderId::Field0 }
    else if slot == 1 { RenderId::Field1 }
    else if slot == 2 { RenderId::Field2 }
    else if slot == 3 { RenderId::Field3 }
    else if slot == 4 { RenderId::Field4 }
    else { RenderId::Field5 }
}

/// the id of position `i` of player `player_num`'s hand
pub fn hand_id(player_num: u32, i: usize) -> (id: RenderId)
    requires
        player_num == 1 || player_num == 2,
        i < 7,
    ensures
        spec_hand_slot(id, player_num) == Some(i as int),
        id == spec_hand_id(player_num, i as int),
{
    if player_num == 1 {
        match i {
            0 => RenderId::PlayerOne0,
            1 => RenderId::PlayerOne1,
            2 => RenderId::PlayerOne2,
            3 => RenderId::PlayerOne3,
            4 => RenderId::PlayerOne4,
            5 => RenderId::PlayerOne5,
            _ => RenderId::PlayerOne6,
        }
    } else {
        match i {
            0 => RenderId::PlayerTwo0,
            1 => RenderId::PlayerTwo1,
            2 => RenderId::PlayerTwo2,
            3 => RenderId::PlayerTwo3,
            4 => RenderId::PlayerTwo4,
            5 => RenderId::PlayerTwo5,
            _ => RenderId::PlayerTwo6,
        }
    }
}

/// the id of field slot `slot`
pub fn field_id(slot: usize) -> (id: RenderId)
    requires
        slot < 6,
    ensures
        spec_field_slot(id) == Some(slot as int),
        id == spec_field_id(slot as int),
{
    match slot {
        0 => RenderId::Field0,
        1 => RenderId::Field1,
        2 => RenderId::Field2,
        3 => RenderId::Field3,
        4 => RenderId::Field4,
        _ => RenderId::Field5,
    }
}

/// how many cards are dealt after a turn: the hand is redrawn up to 7 cards,
/// as far as the deck allows
pub open spec fn spec_deal_count(hand_len: nat, deck_len: nat) -> nat {
    let room: nat = if hand_len < 7 { (7 - hand_len) as nat } else { 0 };
    if room < deck_len { room } else { deck_len }
}

/// the hand positions that get dealt a card after a turn, as ids: the
/// positions after the last card of player `player_num`'s hand, as many as
/// spec_deal_count allows
pub fn deal_targets(player_num: u32, hand_len: usize, deck_len: usize) -> (targets: Vec<RenderId>)
    requires
        player_num == 1 || player_num == 2,
    ensures
        targets@.len() == spec_deal_count(hand_len as nat, deck_len as nat),
        forall|k: int| 0 <= k < targets@.len() ==> spec_hand_slot(#[trigger] targets@[k], player_num) == Some(hand_len + k),
{
    let room: usize = if hand_len < 7 { 7 - hand_len } else { 0 };
    let count: usize = if room < deck_len { room } else { deck_len };
    let end: usize = hand_len + count;
    let mut targets: Vec<RenderId> = Vec::new();
    let mut i: usize = hand_len;
    while i < end
        invariant
            end == hand_len + count,
            count == spec_deal_count(hand_len as nat, deck_len as nat),
            count == 0 || end <= 7,
            player_num == 1 || player_num == 2,
            hand_len <= i <= end,
            targets@.len() == i - hand_len,
            forall|k: int| 0 <= k < targets@.len() ==> spec_hand_slot(#[trigger] targets@[k], player_num) == Some(hand_len + k),
        decreases end - i,
    {
        targets.push(hand_id(player_num, i));
        i = i + 1;
    }
    targets
}

/// the cards of `hand` a selection played, in the order they were selected
pub fn cards_played(selected: &Vec<RenderId>, hand: &Vec<Card>) -> (cards: Vec<Card>)
    requires
        forall|k: int| 0 <= k < spec_player_vals(selected@).len() ==> #[trigger] spec_player_vals(selected@)[k] < hand@.len(),
    ensures
        cards@ == spec_player_vals(selected@).map_values(|v: usize| hand@[v as int]),
{
    let mut cards: Vec<Card> = Vec::new();
    let mut k: usize = 0;
    while k < selected.len()
        invariant
            k <= selected@.len(),
            forall|m: int| 0 <= m < spec_player_vals(selected@).len() ==> #[trigger] spec_player_vals(selected@)[m] < hand@.len(),
            cards@ == spec_player_vals(selected@.take(k as int)).map_values(|v: usize| hand@[v as int]),
            spec_player_vals(selected@.take(k as int)).is_prefix_of(spec_player_vals(selected@)),
        decreases selected@.len() - k,
    {
        assert(selected@.take(k + 1).drop_last() =~= selected@.take(k as int));
        let id = selected[k];
        assert(selected@.take(k + 1).last() == id);
        proof {
            lemma_player_vals_prefix(selected@, k as int + 1);
        }
        if id.is_player() {
            let (_key, v) = id.key_val();
            assert(spec_player_vals(selected@.take(k + 1)) == spec_player_vals(selected@.take(k as int)).push(v));
            assert(spec_player_vals(selected@.take(k + 1))[spec_player_vals(selected@.take(k as int)).len() as int] == v);
            cards.push(hand[v]);
            assert(cards@ =~= spec_player_vals(selected@.take(k + 1)).map_values(|v: usize| hand@[v as int]));
        } else {
            assert(spec_player_vals(selected@.take(k + 1)) == spec_player_vals(selected@.take(k as int)));
        }
        k = k + 1;
    }
    assert(selected@.take(k as int) =~= selected@);
    cards
}

/// the hand positions of a prefix of a selection are a prefix of the whole
/// selection's
proof fn lemma_player_vals_prefix(selected: Seq<RenderId>, n: int)
    requires
        0 <= n <= selected.len(),
    ensures
        spec_player_vals(selected.take(n)).is_prefix_of(spec_player_vals(selected)),
    decreases selected.len() - n,
{
    if n < selected.len() {
        lemma_player_vals_prefix(selected, n + 1);
        assert(selected.take(n + 1).drop_last() =~= selected.take(n));
    } else {
        assert(selected.take(n) =~= selected);
    }
}

/// performs the cleanup once a move of turn `turn_number` is committed:
/// removes the cards played this turn from the mover's hand onto the
/// graveyard (largest position first), clears linearly dependent slots unless
/// linear dependence is allowed, and returns the hand positions of the mover
/// to deal new cards to
pub fn end_turn(
    hand: &mut Vec<Card>,
    graveyard: &mut Vec<Card>,
    field: &mut Field,
    selected: &Vec<RenderId>,
    turn_number: u32,
    deck_len: usize,
    allow_linear_dependence: bool,
) -> (deal: Vec<RenderId>)
    requires
        removals_in_range(old(hand)@.len(), spec_used_hand_indices(selected@)),
    ensures
        (final(hand)@, final(graveyard)@) == spec_discard(
            old(hand)@,
            old(graveyard)@,
            spec_used_hand_indices(selected@),
        ),
        final(field)@ == (if allow_linear_dependence {
            old(field)@
        } else {
            spec_cleared_dependent_pairs(old(field)@)
        }),
        deal@.len() == spec_deal_count(final(hand)@.len(), deck_len as nat),
        forall|k: int|
            0 <= k < deal@.len() ==> spec_hand_slot(#[trigger] deal@[k], spec_player_for_turn(turn_number))
                == Some(final(hand)@.len() + k),
{
    let player_num = player_for_turn(turn_number);
    let indices = used_hand_indices(selected);
    discard_used_cards(hand, graveyard, &indices);
    let deal = deal_targets(player_num, hand.len(), deck_len);
    if !allow_linear_dependence {
        clear_linearly_dependent_pairs(field);
    }
    deal
}

/// Discarding never creates or loses a card: whatever leaves the hand lands
/// on the graveyard, one card per removal.
pub proof fn lemma_discard_conserves_cards(hand: Seq<Card>, graveyard: Seq<Card>, indices: Seq<usize>)
    requires
        removals_in_range(hand.len(), indices),
    ensures
        spec_discard(hand, graveyard, indices).0.len() + indices.len() == hand.len(),
        spec_discard(hand, graveyard, indices).1.len() == graveyard.len() + indices.len(),
        spec_discard(hand, graveyard, indices).0.to_multiset().add(
            spec_discard(hand, graveyard, indices).1.to_multiset(),
        ) == hand.to_multiset().add(graveyard.to_multiset()),
    decreases indices.len(),
{
    broadcast use vstd::seq_lib::group_to_multiset_ensures;
    broadcast use vstd::multiset::group_multiset_axioms;

    if indices.len() > 0 {
        let i = indices[0] as int;
        assert(indices[0] + 0 < hand.len());
        let rest = indices.drop_first();
        assert forall|k: int| 0 <= k < rest.len() implies #[trigger] rest[k] + k < hand.remove(i).len() by {
            assert(indices[k + 1] + (k + 1) < hand.len());
        }
        lemma_discard_conserves_cards(hand.remove(i), graveyard.push(hand[i]), rest);
        assert(hand.remove(i).to_multiset().add(graveyard.push(hand[i]).to_multiset()) =~= hand.to_multiset().add(
            graveyard.to_multiset(),
        ));
    }
}

/// Removing the played cards largest position first takes exactly the cards
/// that were selected: with distinct positions in descending order, the
/// graveyard receives the cards at those positions of the hand before, in
/// that order.
pub proof fn lemma_descending_removal_discards_selected_cards(hand: Seq<Card>, graveyard: Seq<Card>, indices: Seq<usize>)
    requires
        forall|a: int, b: int| 0 <= a < b < indices.len() ==> #[trigger] indices[a] > #[trigger] indices[b],
        indices.len() > 0 ==> indices[0] < hand.len(),
    ensures
        removals_in_range(hand.len(), indices),
        spec_discard(hand, graveyard, indices).1 == graveyard + indices.map_values(|i: usize| hand[i as int]),
    decreases indices.len(),
{
    if indices.len() > 0 {
        let i = indices[0] as int;
        let rest = indices.drop_first();
        assert forall|k: int| 0 <= k < indices.len() implies #[trigger] indices[k] + k < hand.len() by {
            lemma_descending_gap(indices, k);
        }
        if rest.len() > 0 {
            assert(rest[0] == indices[1]);
            assert(indices[0] > indices[1]);
        }
        lemma_descending_removal_discards_selected_cards(hand.remove(i), graveyard.push(hand[i]), rest);
        assert forall|k: int| 0 <= k < rest.len() implies hand.remove(i)[rest[k] as int] == hand[rest[k] as int] by {
            assert(indices[0] > indices[k + 1]);
        }
        assert(graveyard.push(hand[i]) + rest.map_values(|j: usize| hand.remove(i)[j as int]) =~= graveyard
            + indices.map_values(|j: usize| hand[j as int]));
    }
}

/// in a strictly descending sequence whose first entry is within `len`, the
/// `k`-th entry leaves room for `k` removals before it
proof fn lemma_descending_gap(indices: Seq<usize>, k: int)
    requires
        forall|a: int, b: int| 0 <= a < b < indices.len() ==> #[trigger] indices[a] > #[trigger] indices[b],
        0 <= k < indices.len(),
    ensures
        indices[k] + k <= indices[0],
    decreases k,
{
    if k > 0 {
        lemma_descending_gap(indices, k - 1);
        assert(indices[k - 1] > indices[k]);
    }
}

/// whether a click on the canvas may act on the current turn: in a game
/// against the AI the AI's turns belong to the AI alone, and in an online game
/// (`playing_online`) the local browser acts only on the turns of the player
/// number its session holds (`online_local_player`), none when it holds no
/// session, the peer's being replayed from the network
pub open spec fn spec_click_is_allowed(
    current_player: u32,
    playing_ai: bool,
    playing_online: bool,
    online_local_player: Option<u32>,
) -> bool {
    !(playing_ai && current_player == crate::game::ai::AI_PLAYER_NUM) && (!playing_online
        || online_local_player == Some(current_player))
}

/// whether a click on the canvas may act on the current turn
pub fn click_is_allowed(
    current_player: u32,
    playing_ai: bool,
    playing_online: bool,
    online_local_player: Option<u32>,
) -> (allowed: bool)
    ensures
        allowed == spec_click_is_allowed(current_player, playing_ai, playing_online, online_local_player),
{
    if playing_ai && current_player == crate::game::ai::AI_PLAYER_NUM {
        return false;
    }
    if !playing_online {
        return true;
    }
    match online_local_player {
        Some(local) => local == current_player,
        None => false,
    }
}

/// the local player number of an online session, if any
pub open spec fn session_local_player(session: Option<OnlineSession>) -> Option<u32> {
    match session {
        Some(s) => Some(s@.0),
        None => None,
    }
}

/// delegates a click on the canvas: ignored when it is not this browser's
/// player's turn to act (see click_is_allowed); otherwise, in an online game,
/// recorded in the session's buffer of clicks to relay, and routed by the
/// phase of the turn for the player whose turn it is
pub fn handle_mousedown(
    turn: &Turn,
    id: RenderId,
    playing_ai: bool,
    playing_online: bool,
    session: &mut Option<OnlineSession>,
) -> (route: ClickRoute)
    ensures
        ({
            let player = spec_player_for_turn(turn.number);
            let allowed = spec_click_is_allowed(
                player,
                playing_ai,
                playing_online,
                session_local_player(*old(session)),
            );
            &&& route == (if allowed { spec_route_click(turn.phase, id, player) } else { ClickRoute::Ignore })
            &&& !(allowed && playing_online) ==> *final(session) == *old(session)
            &&& allowed && playing_online ==> (*old(session) matches Some(s) && *final(session) matches Some(
                t,
            ) && t@ == (s@.0, s@.1, spec_record_click(s@.2, id)))
        }),
{
    let player_num = player_for_turn(turn.number);
    let local = match session {
        Some(s) => Some(s.local_player()),
        None => None,
    };
    if !click_is_allowed(player_num, playing_ai, playing_online, local) {
        return ClickRoute::Ignore;
    }
    if playing_online {
        match session {
            Some(s) => s.record_click(id),
            None => {},
        }
    }
    branch_turn_phase(turn.phase, id, player_num)
}

/// whether a deal id goes to player 1's hand (its key is `p1`)
pub open spec fn deals_to_player_one(id: RenderId) -> bool {
    spec_render_id_string(id)[0] == 'p' && spec_render_id_string(id)[1] == '1'
}

/// deals the top card of the deck (its last card) into the hand a deal id
/// names: player 1's for a `p1` id, player 2's for any other
pub fn deal_card(player_1: &mut Vec<Card>, player_2: &mut Vec<Card>, deck: &mut Vec<Card>, id: RenderId)
    requires
        old(deck)@.len() > 0,
    ensures
        final(deck)@ == old(deck)@.drop_last(),
        deals_to_player_one(id) ==> final(player_1)@ == old(player_1)@.push(old(deck)@.last())
            && final(player_2)@ == old(player_2)@,
        !deals_to_player_one(id) ==> final(player_2)@ == old(player_2)@.push(old(deck)@.last())
            && final(player_1)@ == old(player_1)@,
{
    let to_player_1 = id.is_player() && hand_slot(id, 1).is_some();
    assert(to_player_1 == deals_to_player_one(id)) by {
        lemma_hand_slot_one(id);
    }
    let card = deck.pop();
    match card {
        Some(c) => {
            if to_player_1 {
                player_1.push(c);
            } else {
                player_2.push(c);
            }
        },
        None => {},
    }
}

/// player 1's hand ids are exactly the ids whose key is `p1`
proof fn lemma_hand_slot_one(id: RenderId)
    ensures
        (spec_render_id_string(id)[0] == 'p' && spec_hand_slot(id, 1) is Some) == deals_to_player_one(id),
{
}

/// after replaying a peer's (or the AI's) clicks, the click that confirms the
/// move when the replay left the turn awaiting confirmation
pub fn confirm_after_replay(phase: TurnPhase) -> (click: Option<RenderId>)
    ensures
        click == (if phase == TurnPhase::CONFIRM { Some(RenderId::Confirm) } else { None::<RenderId> }),
{
    if phase == TurnPhase::CONFIRM {
        Some(RenderId::Confirm)
    } else {
        None
    }
}

/// what slot `i` holds after a Derivative, Integral, Nabla or Laplacian card:
/// an empty slot stays empty; otherwise the slot becomes `first` (the card's
/// result on the slot's expression), or, for a Laplacian, `second` (the same
/// operation applied to `first`), and is emptied where the value it would take
/// is 0
pub open spec fn spec_derivative_slot(
    slot: Option<BasisModel>,
    card: Card,
    first: BasisModel,
    second: BasisModel,
) -> Option<BasisModel> {
    if slot is None {
        None
    } else if spec_is_num(first, 0) {
        None
    } else if card == Card::DerivativeCard(DerivativeCard::Laplacian) {
        if spec_is_num(second, 0) { None } else { Some(second) }
    } else {
        Some(first)
    }
}

/// applies a Derivative, Integral, Nabla or Laplacian card to slot `i`,
/// given what the expression engine computes for it: `first` for the card's
/// operation on the slot's expression, `second` for the same operation on
/// `first` (read only for a Laplacian)
pub fn handle_derivative_card(field: &mut Field, card: Card, i: usize, first: &Basis, second: &Basis)
    requires
        i < 6,
    ensures
        final(field)@ == old(field)@.update(
            i as int,
            spec_derivative_slot(old(field)@[i as int], card, first@, second@),
        ),
{
    if field.basis[i].basis.is_none() {
        assert(old(field)@.update(i as int, None) =~= old(field)@);
        return;
    }
    if first.is_num(0) {
        field.set_slot(i, FieldBasis::none());
        return;
    }
    if card == Card::DerivativeCard(DerivativeCard::Laplacian) {
        if second.is_num(0) {
            field.set_slot(i, FieldBasis::none());
        } else {
            field.set_slot(i, FieldBasis::new(second));
        }
    } else {
        field.set_slot(i, FieldBasis::new(first));
    }
}

/// a turn of the other player being replayed from their clicks: the player
/// the clicks are routed for, the clicks in order, how many were routed, and
/// whether the replay has ended
pub struct Replay {
    pub player_num: u32,
    pub ids: Vec<RenderId>,
    pub next: usize,
    pub finished: bool,
}

/// what a replay asks of the game next
#[derive(Clone, Copy, PartialEq, Eq, Structural, Debug)]
pub enum ReplayStep {
    /// apply this click with its route, then report the phase the turn is in
    Apply(RenderId, ClickRoute),
    /// nothing left to replay
    Done,
}

/// one step of a replay, from the phase the turn is in: the next click routed
/// for the replayed player, then, once every click was routed, the confirm
/// button when the turn awaits confirmation (see confirm_after_replay), and
/// nothing after that; the replay's next position and whether it has ended
/// come along
pub open spec fn spec_replay_step(
    player_num: u32,
    ids: Seq<RenderId>,
    next: int,
    finished: bool,
    phase: TurnPhase,
) -> (int, bool, ReplayStep) {
    if next < ids.len() {
        (next + 1, finished, ReplayStep::Apply(ids[next], spec_route_click(phase, ids[next], player_num)))
    } else if !finished && phase == TurnPhase::CONFIRM {
        (next, true, ReplayStep::Apply(RenderId::Confirm, spec_route_click(phase, RenderId::Confirm, player_num)))
    } else {
        (next, true, ReplayStep::Done)
    }
}

impl Replay {
    /// a replay of `ids` for player `player_num`, nothing routed yet
    pub fn new(player_num: u32, ids: Vec<RenderId>) -> (replay: Replay)
        ensures
            replay.player_num == player_num,
            replay.ids@ == ids@,
            replay.next == 0,
            !replay.finished,
    {
        Replay { player_num, ids, next: 0, finished: false }
    }

    /// the next step of the replay, given the phase the turn is in now
    pub fn step(&mut self, phase: TurnPhase) -> (step: ReplayStep)
        ensures
            final(self).player_num == old(self).player_num,
            final(self).ids@ == old(self).ids@,
            (final(self).next as int, final(self).finished, step) == spec_replay_step(
                old(self).player_num,
                old(self).ids@,
                old(self).next as int,
                old(self).finished,
                phase,
            ),
    {
        if self.next < self.ids.len() {
            let id = self.ids[self.next];
            self.next = self.next + 1;
            return ReplayStep::Apply(id, branch_turn_phase(phase, id, self.player_num));
        }
        if self.finished {
            return ReplayStep::Done;
        }
        self.finished = true;
        match confirm_after_replay(phase) {
            Some(confirm) => ReplayStep::Apply(confirm, branch_turn_phase(phase, confirm, self.player_num)),
            None => ReplayStep::Done,
        }
    }
}

/// the clicks a replay hands out, with their routes, when the turn is in
/// `phases[k]` before its `k`-th step
pub open spec fn spec_replay_outputs(
    player_num: u32,
    ids: Seq<RenderId>,
    next: int,
    finished: bool,
    phases: Seq<TurnPhase>,
) -> Seq<(RenderId, ClickRoute)>
    decreases phases.len(),
{
    if phases.len() == 0 {
        Seq::empty()
    } else {
        let (n, f, step) = spec_replay_step(player_num, ids, next, finished, phases[0]);
        let rest = spec_replay_outputs(player_num, ids, n, f, phases.drop_first());
        match step {
            ReplayStep::Apply(id, route) => seq![(id, route)] + rest,
            ReplayStep::Done => rest,
        }
    }
}

/// each of `ids` from position `next` on with its route in the phase the turn
/// is in before it, then the confirm button if the turn then awaits
/// confirmation
pub open spec fn spec_replayed_routes(
    player_num: u32,
    ids: Seq<RenderId>,
    next: int,
    phases: Seq<TurnPhase>,
) -> Seq<(RenderId, ClickRoute)> {
    let n = ids.len() - next;
    Seq::new(n as nat, |k: int| (ids[next + k], spec_route_click(phases[k], ids[next + k], player_num))) + if phases[n]
        == TurnPhase::CONFIRM {
        seq![(RenderId::Confirm, ClickRoute::ConfirmMove)]
    } else {
        Seq::empty()
    }
}

/// an ended replay hands out nothing more
proof fn lemma_finished_replay_is_silent(player_num: u32, ids: Seq<RenderId>, next: int, phases: Seq<TurnPhase>)
    requires
        next >= ids.len(),
    ensures
        spec_replay_outputs(player_num, ids, next, true, phases) == Seq::<(RenderId, ClickRoute)>::empty(),
    decreases phases.len(),
{
    if phases.len() > 0 {
        lemma_finished_replay_is_silent(player_num, ids, next, phases.drop_first());
    }
}

/// Replaying the other player's turn routes each received click, in order, as
/// that player's click in the phase the turn is in at that point (exactly as
/// branch_turn_phase does), then presses the confirm button once if the turn
/// awaits confirmation after the last click, and does nothing more: whatever
/// phases the game reports between the steps.
pub proof fn lemma_replay_routes_each_click_then_confirms(
    player_num: u32,
    ids: Seq<RenderId>,
    next: int,
    phases: Seq<TurnPhase>,
)
    requires
        0 <= next <= ids.len(),
        phases.len() > ids.len() - next,
    ensures
        spec_replay_outputs(player_num, ids, next, false, phases) == spec_replayed_routes(
            player_num,
            ids,
            next,
            phases,
        ),
    decreases ids.len() - next,
{
    let out = spec_replay_outputs(player_num, ids, next, false, phases);
    let want = spec_replayed_routes(player_num, ids, next, phases);
    if next == ids.len() {
        lemma_finished_replay_is_silent(player_num, ids, next, phases.drop_first());
        assert(out =~= want);
    } else {
        lemma_replay_routes_each_click_then_confirms(player_num, ids, next + 1, phases.drop_first());
        let rest = spec_replayed_routes(player_num, ids, next + 1, phases.drop_first());
        assert(out == seq![(ids[next], spec_route_click(phases[0], ids[next], player_num))] + rest);
        assert(out =~= want);
    }
}

} // verus!
