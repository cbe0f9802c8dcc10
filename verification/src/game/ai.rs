use vstd::prelude::*;

use super::cards::{AlgebraicCard, BasisCard, Card, DerivativeCard};
use super::field::{Field, FieldBasis};
use crate::basis::structs::spec_basis_from_card;
use crate::events::mousedown_handler::{
    clear_linearly_dependent_pairs, field_id, hand_id, spec_cleared_dependent_pairs, Replay,
    spec_field_id, spec_field_slot, spec_hand_id, spec_hand_slot,
};
use crate::render::util::RenderId;
use crate::util::{random_below, random_ratio};
use super::cards::LimitCard;
use crate::basis::structs::{
    lemma_node_model, lemma_operands_prefix_size, spec_basis_size, spec_is_num,
    spec_operands_size, Basis, BasisModel, BasisOperator,
};

verus! {

/// the AI always plays as player 2; player 1 (who goes first) is always human
pub const AI_PLAYER_NUM: u32 = 2;

/// how strong the AI plays
#[derive(Clone, Copy, PartialEq, Eq, Structural, Debug)]
pub enum AiDifficulty {
    Easy,
    Medium,
    Hard,
}

impl AiDifficulty {
    /// the difficulty a settings value names: "EASY", "HARD", anything else is Medium
    pub fn from(s: &str) -> (difficulty: AiDifficulty)
        ensures
            difficulty == (if s@ == "EASY"@ {
                AiDifficulty::Easy
            } else if s@ == "HARD"@ {
                AiDifficulty::Hard
            } else {
                AiDifficulty::Medium
            }),
    {
        if crate::util::str_equal(s, "EASY") {
            AiDifficulty::Easy
        } else if crate::util::str_equal(s, "HARD") {
            AiDifficulty::Hard
        } else {
            AiDifficulty::Medium
        }
    }

    /// the settings value naming this difficulty
    pub fn to_string(&self) -> (name: String)
        ensures
            name@ == spec_difficulty_name(*self),
    {
        match self {
            AiDifficulty::Easy => String::from_str("EASY"),
            AiDifficulty::Medium => String::from_str("MEDIUM"),
            AiDifficulty::Hard => String::from_str("HARD"),
        }
    }
}

/// the settings value naming a difficulty
pub open spec fn spec_difficulty_name(difficulty: AiDifficulty) -> Seq<char> {
    match difficulty {
        AiDifficulty::Easy => "EASY"@,
        AiDifficulty::Medium => "MEDIUM"@,
        AiDifficulty::Hard => "HARD"@,
    }
}

/// Reading back the name of a difficulty gives the same difficulty.
pub proof fn lemma_difficulty_name_round_trip(difficulty: AiDifficulty)
    ensures
        (if spec_difficulty_name(difficulty) == "EASY"@ {
            AiDifficulty::Easy
        } else if spec_difficulty_name(difficulty) == "HARD"@ {
            AiDifficulty::Hard
        } else {
            AiDifficulty::Medium
        }) == difficulty,
{
    reveal_strlit("EASY");
    reveal_strlit("MEDIUM");
    reveal_strlit("HARD");
    assert("MEDIUM"@ != "EASY"@ && "MEDIUM"@ != "HARD"@ && "EASY"@ != "HARD"@) by {
        assert("MEDIUM"@.len() != "EASY"@.len());
        assert("MEDIUM"@.len() != "HARD"@.len());
        assert("EASY"@[0] != "HARD"@[0]);
    }
}

/// the other player
pub open spec fn spec_opponent_of(player_num: u32) -> u32 {
    if player_num == 1 { 2 } else { 1 }
}

/// the other player
pub fn opponent_of(player_num: u32) -> (opponent: u32)
    ensures
        opponent == spec_opponent_of(player_num),
{
    if player_num == 1 {
        2
    } else {
        1
    }
}

/// which player's colour field slot `target` renders in: slots 0-2 are
/// player 2's, 3-5 are player 1's
pub open spec fn spec_field_owner(target: int) -> u32 {
    if target < 3 { 2 } else { 1 }
}

/// which player owns field slot `target`
pub fn field_owner(target: usize) -> (owner: u32)
    ensures
        owner == spec_field_owner(target as int),
{
    if target < 3 {
        2
    } else {
        1
    }
}

/// whether slot `i` is one of the three slots `owned_slots(owner)` lists:
/// 0-2 for player 2, 3-5 for anyone else
pub open spec fn spec_owns_slot(owner: u32, i: int) -> bool {
    if owner == 2 { 0 <= i < 3 } else { 3 <= i < 6 }
}

/// the 3 field slots belonging to `owner` (see field_owner)
pub fn owned_slots(owner: u32) -> (slots: [usize; 3])
    ensures
        forall|k: int| 0 <= k < 3 ==> spec_owns_slot(owner, #[trigger] slots@[k] as int),
        forall|k: int| 0 <= k < 3 ==> slots@[k] == (if owner == 2 { k } else { k + 3 }),
{
    if owner == 2 {
        [0, 1, 2]
    } else {
        [3, 4, 5]
    }
}

/// every slot belonging to `owner` is empty
pub open spec fn spec_side_is_cleared(field: Seq<Option<BasisModel>>, owner: u32) -> bool {
    forall|i: int| 0 <= i < 6 && spec_owns_slot(owner, i) ==> field[i] is None
}

/// Player 2's side is slots 0 to 2 and player 1's is slots 3 to 5: a side is
/// cleared exactly when those three slots are empty.
pub proof fn lemma_sides_are_the_field_halves(field: Seq<Option<BasisModel>>)
    ensures
        spec_side_is_cleared(field, 2) <==> field[0] is None && field[1] is None && field[2] is None,
        spec_side_is_cleared(field, 1) <==> field[3] is None && field[4] is None && field[5] is None,
{
    if field[0] is None && field[1] is None && field[2] is None {
        assert forall|i: int| 0 <= i < 6 && spec_owns_slot(2, i) implies field[i] is None by {
            assert(i == 0 || i == 1 || i == 2);
        }
    }
    if field[3] is None && field[4] is None && field[5] is None {
        assert forall|i: int| 0 <= i < 6 && spec_owns_slot(1, i) implies field[i] is None by {
            assert(i == 3 || i == 4 || i == 5);
        }
    }
    if spec_side_is_cleared(field, 2) {
        assert(spec_owns_slot(2, 0) && spec_owns_slot(2, 1) && spec_owns_slot(2, 2));
    }
    if spec_side_is_cleared(field, 1) {
        assert(spec_owns_slot(1, 3) && spec_owns_slot(1, 4) && spec_owns_slot(1, 5));
    }
}

/// true if every slot belonging to `owner` is empty -- the actual win/loss
/// condition: whoever's own side empties out loses, the other player wins
pub fn side_is_cleared(field: &Field, owner: u32) -> (cleared: bool)
    ensures
        cleared == spec_side_is_cleared(field@, owner),
{
    let slots = owned_slots(owner);
    let mut k: usize = 0;
    while k < 3
        invariant
            k <= 3,
            forall|m: int| 0 <= m < 3 ==> slots@[m] == (if owner == 2 { m } else { m + 3 }),
            forall|m: int| 0 <= m < k ==> field@[slots@[m] as int] is None,
        decreases 3 - k,
    {
        if field.basis[slots[k]].basis.is_some() {
            assert(spec_owns_slot(owner, slots@[k as int] as int));
            assert(field@[slots@[k as int] as int] is Some);
            return false;
        }
        k = k + 1;
    }
    assert forall|i: int| 0 <= i < 6 && spec_owns_slot(owner, i) implies field@[i] is None by {
        let m = if owner == 2 { i } else { i - 3 };
        assert(slots@[m] == i);
    }
    true
}

/// size of a list of operands, summed
fn operands_size(operands: &Vec<Basis>) -> (size: u32)
    requires
        spec_operands_size(Seq::new(operands@.len(), |i: int| operands@[i]@)) <= u32::MAX,
    ensures
        size == spec_operands_size(Seq::new(operands@.len(), |i: int| operands@[i]@)),
    decreases operands,
{
    let ghost ops = Seq::new(operands@.len(), |i: int| operands@[i]@);
    let mut total: u32 = 0;
    let mut i: usize = 0;
    while i < operands.len()
        invariant
            i <= operands@.len(),
            ops == Seq::new(operands@.len(), |i: int| operands@[i]@),
            spec_operands_size(ops) <= u32::MAX,
            total == spec_operands_size(ops.take(i as int)),
        decreases operands@.len() - i,
    {
        proof {
            vstd::std_specs::vec::axiom_vec_index_decreases(*operands, i as int);
            assert(ops.take(i + 1).drop_last() =~= ops.take(i as int));
            assert(ops.take(i + 1).last() == ops[i as int]);
            lemma_operands_prefix_size(ops, i + 1);
        }
        let s = basis_size(&operands[i]);
        total = total + s;
        i = i + 1;
    }
    assert(ops.take(i as int) =~= ops);
    total
}

/// counts nodes in a Basis tree, used as a cheap complexity/"simplicity" proxy
pub fn basis_size(basis: &Basis) -> (size: u32)
    requires
        spec_basis_size(basis@) <= u32::MAX,
    ensures
        size == spec_basis_size(basis@),
    decreases basis, 0nat,
{
    match basis {
        Basis::BasisLeaf(_) => 1,
        Basis::BasisNode(node) => {
            proof {
                lemma_node_model(*node);
                assert(basis@->operands =~= Seq::new(node.operands@.len(), |i: int| node.operands@[i]@));
            }
            1 + operands_size(&node.operands)
        },
    }
}

/// the size of a slot's expression, 0 when empty
pub open spec fn spec_slot_size(slot: Option<BasisModel>) -> nat {
    match slot {
        Some(m) => spec_basis_size(m),
        None => 0,
    }
}

/// every expression on the field has a size that fits a `u32`
pub open spec fn field_sizes_fit(field: Seq<Option<BasisModel>>) -> bool {
    forall|i: int| 0 <= i < 6 ==> spec_slot_size(#[trigger] field[i]) <= u32::MAX
}

/// slot `i` changing from `old_size` to `new_size` clears one of
/// `player_num`'s own slots, or grows one of the opponent's
pub open spec fn slot_hurts_or_helps(player_num: u32, i: int, old_size: nat, new_size: nat) -> bool {
    if spec_field_owner(i) == player_num {
        new_size == 0 && old_size > 0
    } else {
        new_size > old_size
    }
}

/// true if turning `field` into `resulting_field` ever clears one of
/// `player_num`'s own slots entirely, or grows one of the opponent's (size 0
/// for an empty slot, so filling an opponent's empty slot counts as growing it)
pub fn hurts_self_or_helps_opponent(player_num: u32, field: &Field, resulting_field: &Field) -> (hurts: bool)
    requires
        field_sizes_fit(field@),
        field_sizes_fit(resulting_field@),
    ensures
        hurts == exists|i: int|
            0 <= i < 6 && #[trigger] slot_hurts_or_helps(
                player_num,
                i,
                spec_slot_size(field@[i]),
                spec_slot_size(resulting_field@[i]),
            ),
{
    let mut i: usize = 0;
    while i < 6
        invariant
            i <= 6,
            field_sizes_fit(field@),
            field_sizes_fit(resulting_field@),
            forall|j: int|
                0 <= j < i ==> !#[trigger] slot_hurts_or_helps(
                    player_num,
                    j,
                    spec_slot_size(field@[j]),
                    spec_slot_size(resulting_field@[j]),
                ),
        decreases 6 - i,
    {
        assert(spec_slot_size(field@[i as int]) <= u32::MAX);
        assert(spec_slot_size(resulting_field@[i as int]) <= u32::MAX);
        let old_size: u32 = match &field.basis[i].basis {
            Some(b) => basis_size(b),
            None => 0,
        };
        let new_size: u32 = match &resulting_field.basis[i].basis {
            Some(b) => basis_size(b),
            None => 0,
        };
        let hurts_here = if field_owner(i) == player_num {
            new_size == 0 && old_size > 0
        } else {
            new_size > old_size
        };
        if hurts_here {
            assert(slot_hurts_or_helps(player_num, i as int, spec_slot_size(field@[i as int]), spec_slot_size(resulting_field@[i as int])));
            return true;
        }
        i = i + 1;
    }
    false
}

/// the operators nothing but a Mult/Div-by-zero play can ever clear
pub open spec fn spec_is_hard_to_clear(basis: BasisModel) -> bool {
    match basis {
        BasisModel::Node { operator, .. } => operator == BasisOperator::Sin || operator
            == BasisOperator::Cos || operator == BasisOperator::E,
        BasisModel::Leaf { .. } => false,
    }
}

/// true if `basis`'s top-level shape can only ever be reduced to literal zero
/// by a Mult/Div-by-zero play: derivative cycles endlessly among sin/cos, and a
/// limit toward infinity is invalid for an oscillating function
pub fn is_hard_to_clear(basis: &Basis) -> (hard: bool)
    ensures
        hard == spec_is_hard_to_clear(basis@),
{
    match basis {
        Basis::BasisNode(node) => matches!(
            node.operator,
            BasisOperator::Sin | BasisOperator::Cos | BasisOperator::E
        ),
        Basis::BasisLeaf(_) => false,
    }
}

/// which broad family `card` belongs to, for the AI's hand-flexibility bonus
pub open spec fn spec_hand_category(card: Card) -> Seq<char> {
    match card {
        Card::BasisCard(BasisCard::Zero) => "zero"@,
        Card::BasisCard(_) => "basis"@,
        Card::AlgebraicCard(AlgebraicCard::Mult) => "multdiv"@,
        Card::AlgebraicCard(AlgebraicCard::Div) => "multdiv"@,
        Card::AlgebraicCard(_) => "algebraic_single"@,
        Card::DerivativeCard(DerivativeCard::Nabla) => "half_field"@,
        Card::DerivativeCard(DerivativeCard::Laplacian) => "half_field"@,
        Card::DerivativeCard(_) => "derivative_single"@,
        Card::LimitCard(_) => "limit"@,
    }
}

/// which broad family `card` belongs to -- coarse enough to group "cards that
/// do roughly the same kind of thing", not a full breakdown of every card
pub fn hand_category(card: &Card) -> (category: &'static str)
    ensures
        category@ == spec_hand_category(*card),
{
    match card {
        Card::BasisCard(BasisCard::Zero) => "zero",
        Card::BasisCard(_) => "basis",
        Card::AlgebraicCard(AlgebraicCard::Mult | AlgebraicCard::Div) => "multdiv",
        Card::AlgebraicCard(_) => "algebraic_single",
        Card::DerivativeCard(DerivativeCard::Nabla | DerivativeCard::Laplacian) => "half_field",
        Card::DerivativeCard(_) => "derivative_single",
        Card::LimitCard(_) => "limit",
    }
}

/// one candidate move: the click sequence that plays it, its heuristic score
/// (of whatever numeric type the scoring uses), the field it would leave
/// behind, whether it wins outright (empties every slot of the other player),
/// whether it shrinks any of the mover's own slots to nothing or grows any of
/// the opponent's, whether the opponent (player 1), holding their current
/// hand, would have an outright winning reply on the resulting field next
/// turn, and the best score such a reply would reach (never below 0)
pub struct AiMove<S> {
    pub clicks: Vec<RenderId>,
    pub score: S,
    pub resulting_field: Field,
    pub wins_immediately: bool,
    pub hurts_self_or_helps_opponent: bool,
    pub opponent_can_win_next: bool,
    pub opponent_best_reply: S,
}

/// the candidates satisfying `pred`, in order
fn keep_matching<S>(
    candidates: Vec<AiMove<S>>,
    keep: Vec<bool>,
    Ghost(pred): Ghost<spec_fn(AiMove<S>) -> bool>,
) -> (kept: Vec<AiMove<S>>)
    requires
        keep@.len() == candidates@.len(),
        forall|i: int| 0 <= i < keep@.len() ==> keep@[i] == pred(#[trigger] candidates@[i]),
    ensures
        kept@ == candidates@.filter(pred),
{
    let ghost orig = candidates@;
    let mut rest = candidates;
    let mut kept: Vec<AiMove<S>> = Vec::new();
    let mut i: usize = 0;
    while i < keep.len()
        invariant
            keep@.len() == orig.len(),
            forall|j: int| 0 <= j < keep@.len() ==> keep@[j] == pred(#[trigger] orig[j]),
            i <= orig.len(),
            rest@ == orig.skip(i as int),
            kept@ == orig.take(i as int).filter(pred),
        decreases orig.len() - i,
    {
        let mv = rest.remove(0);
        proof {
            assert(mv == orig[i as int]);
            assert(orig.take(i + 1) =~= orig.take(i as int).push(orig[i as int]));
            orig.take(i as int).lemma_filter_push(orig[i as int], pred);
            assert(rest@ =~= orig.skip(i + 1));
        }
        if keep[i] {
            kept.push(mv);
        }
        i = i + 1;
    }
    assert(orig.take(i as int) =~= orig);
    kept
}

/// the candidates satisfying `pred` when at least one does, otherwise all of
/// them: the shape of every hard rule of the AI (a rule that nothing can
/// satisfy leaves the choice to the rules after it)
pub open spec fn spec_filter_if_any<S>(candidates: Seq<AiMove<S>>, pred: spec_fn(AiMove<S>) -> bool) -> Seq<AiMove<S>> {
    if exists|i: int| 0 <= i < candidates.len() && pred(#[trigger] candidates[i]) {
        candidates.filter(pred)
    } else {
        candidates
    }
}

/// whether a move empties every slot of the AI's own side (instantly losing)
pub open spec fn is_self_defeating<S>(mv: AiMove<S>) -> bool {
    spec_side_is_cleared(mv.resulting_field@, AI_PLAYER_NUM)
}

/// removes candidates that would immediately end the game in the AI's own
/// defeat (clearing every slot the AI owns), unless EVERY candidate does this
pub fn filter_out_self_defeating_moves<S>(candidates: Vec<AiMove<S>>) -> (kept: Vec<AiMove<S>>)
    ensures
        kept@ == spec_filter_if_any(candidates@, |mv: AiMove<S>| !is_self_defeating(mv)),
{
    let ghost pred = |mv: AiMove<S>| !is_self_defeating(mv);
    let mut keep: Vec<bool> = Vec::new();
    let mut any = false;
    let mut i: usize = 0;
    while i < candidates.len()
        invariant
            i <= candidates@.len(),
            pred == (|mv: AiMove<S>| !is_self_defeating(mv)),
            keep@.len() == i,
            forall|j: int| 0 <= j < i ==> keep@[j] == pred(#[trigger] candidates@[j]),
            any == exists|j: int| 0 <= j < i && pred(#[trigger] candidates@[j]),
        decreases candidates@.len() - i,
    {
        let safe = !side_is_cleared(&candidates[i].resulting_field, AI_PLAYER_NUM);
        assert(pred(candidates@[i as int]) == safe);
        keep.push(safe);
        any = any || safe;
        i = i + 1;
    }
    if any {
        keep_matching(candidates, keep, Ghost(pred))
    } else {
        candidates
    }
}

/// removes candidates that attack the AI's own field or strengthen the
/// opponent's (see hurts_self_or_helps_opponent), unless every candidate
/// shares the problem
pub fn filter_out_moves_that_hurt_self_or_help_opponent<S>(candidates: Vec<AiMove<S>>) -> (kept: Vec<AiMove<S>>)
    ensures
        kept@ == spec_filter_if_any(candidates@, |mv: AiMove<S>| !mv.hurts_self_or_helps_opponent),
{
    let ghost pred = |mv: AiMove<S>| !mv.hurts_self_or_helps_opponent;
    let mut keep: Vec<bool> = Vec::new();
    let mut any = false;
    let mut i: usize = 0;
    while i < candidates.len()
        invariant
            i <= candidates@.len(),
            pred == (|mv: AiMove<S>| !mv.hurts_self_or_helps_opponent),
            keep@.len() == i,
            forall|j: int| 0 <= j < i ==> keep@[j] == pred(#[trigger] candidates@[j]),
            any == exists|j: int| 0 <= j < i && pred(#[trigger] candidates@[j]),
        decreases candidates@.len() - i,
    {
        let safe = !candidates[i].hurts_self_or_helps_opponent;
        assert(pred(candidates@[i as int]) == safe);
        keep.push(safe);
        any = any || safe;
        i = i + 1;
    }
    if any {
        keep_matching(candidates, keep, Ghost(pred))
    } else {
        candidates
    }
}

/// number of occupied slots among the first `n` slots owned by `owner`
pub open spec fn spec_occupied_count(field: Seq<Option<BasisModel>>, owner: u32, n: int) -> nat
    decreases n,
{
    if n <= 0 {
        0
    } else {
        spec_occupied_count(field, owner, n - 1) + (if spec_field_owner(n - 1) == owner
            && field[n - 1] is Some {
            1nat
        } else {
            0nat
        })
    }
}

/// a move makes progress toward the AI's win: it reduces how many of player
/// 1's slots are occupied, or shrinks one of them
pub open spec fn is_progressive(field: Seq<Option<BasisModel>>, resulting: Seq<Option<BasisModel>>) -> bool {
    ||| spec_occupied_count(resulting, 1, 6) < spec_occupied_count(field, 1, 6)
    ||| exists|i: int|
        0 <= i < 6 && spec_field_owner(i) == 1 && spec_slot_size(field[i]) > spec_slot_size(
            #[trigger] resulting[i],
        )
}

/// a move grows one of player 1's slots
pub open spec fn strengthens_opponent(field: Seq<Option<BasisModel>>, resulting: Seq<Option<BasisModel>>) -> bool {
    exists|i: int|
        0 <= i < 6 && spec_field_owner(i) == 1 && spec_slot_size(field[i]) < spec_slot_size(
            #[trigger] resulting[i],
        )
}

/// when fewer of `owner`'s slots among the first `n` are occupied after a
/// move, one of them was emptied
proof fn lemma_fewer_occupied_means_one_emptied(
    field: Seq<Option<BasisModel>>,
    resulting: Seq<Option<BasisModel>>,
    owner: u32,
    n: int,
)
    requires
        spec_occupied_count(resulting, owner, n) < spec_occupied_count(field, owner, n),
    ensures
        exists|i: int|
            0 <= i < n && spec_field_owner(i) == owner && field[i] is Some && (#[trigger] resulting[i]) is None,
    decreases n,
{
    if n > 0 {
        if spec_occupied_count(resulting, owner, n - 1) < spec_occupied_count(field, owner, n - 1) {
            lemma_fewer_occupied_means_one_emptied(field, resulting, owner, n - 1);
        } else {
            assert(spec_field_owner(n - 1) == owner && field[n - 1] is Some && resulting[n - 1] is None);
        }
    }
}

/// A move makes progress exactly when it shrinks (or empties) one of player
/// 1's slots, slots 3 to 5; a move that leaves those three slots as they were
/// (whatever it does to the AI's own slots 0 to 2) never makes progress.
pub proof fn lemma_progress_means_a_smaller_opponent_slot(
    field: Seq<Option<BasisModel>>,
    resulting: Seq<Option<BasisModel>>,
)
    ensures
        is_progressive(field, resulting) <==> exists|i: int|
            3 <= i < 6 && spec_slot_size(#[trigger] resulting[i]) < spec_slot_size(field[i]),
        (forall|i: int| 3 <= i < 6 ==> resulting[i] == field[i]) ==> !is_progressive(field, resulting),
{
    if spec_occupied_count(resulting, 1, 6) < spec_occupied_count(field, 1, 6) {
        lemma_fewer_occupied_means_one_emptied(field, resulting, 1, 6);
        let i = choose|i: int|
            0 <= i < 6 && spec_field_owner(i) == 1 && field[i] is Some && (#[trigger] resulting[i]) is None;
        assert(spec_slot_size(field[i]) >= 1);
        assert(spec_slot_size(resulting[i]) < spec_slot_size(field[i]));
    }
    if exists|i: int| 3 <= i < 6 && spec_slot_size(#[trigger] resulting[i]) < spec_slot_size(field[i]) {
        let i = choose|i: int| 3 <= i < 6 && spec_slot_size(#[trigger] resulting[i]) < spec_slot_size(field[i]);
        assert(spec_field_owner(i) == 1 && spec_slot_size(field[i]) > spec_slot_size(resulting[i]));
    }
}

/// A move strengthens the opponent exactly when it grows one of player 1's
/// slots, slots 3 to 5 (filling an empty one counts as growing it); a move that
/// leaves those three slots as they were never does.
pub proof fn lemma_strengthening_means_a_larger_opponent_slot(
    field: Seq<Option<BasisModel>>,
    resulting: Seq<Option<BasisModel>>,
)
    ensures
        strengthens_opponent(field, resulting) <==> exists|i: int|
            3 <= i < 6 && spec_slot_size(field[i]) < spec_slot_size(#[trigger] resulting[i]),
        (forall|i: int| 3 <= i < 6 ==> resulting[i] == field[i]) ==> !strengthens_opponent(field, resulting),
{
    if exists|i: int| 3 <= i < 6 && spec_slot_size(field[i]) < spec_slot_size(#[trigger] resulting[i]) {
        let i = choose|i: int| 3 <= i < 6 && spec_slot_size(field[i]) < spec_slot_size(#[trigger] resulting[i]);
        assert(spec_field_owner(i) == 1);
    }
}

/// number of occupied slots of `owner`
fn occupied_count(field: &Field, owner: u32) -> (count: u32)
    ensures
        count == spec_occupied_count(field@, owner, 6),
{
    let mut count: u32 = 0;
    let mut i: usize = 0;
    while i < 6
        invariant
            i <= 6,
            count == spec_occupied_count(field@, owner, i as int),
            count <= i,
        decreases 6 - i,
    {
        if field_owner(i) == owner && field.basis[i].basis.is_some() {
            count = count + 1;
        }
        i = i + 1;
    }
    count
}

/// the size of slot `i`'s expression, 0 when empty
fn slot_size(field: &Field, i: usize) -> (size: u32)
    requires
        i < 6,
        field_sizes_fit(field@),
    ensures
        size == spec_slot_size(field@[i as int]),
{
    assert(spec_slot_size(field@[i as int]) <= u32::MAX);
    match &field.basis[i].basis {
        Some(b) => basis_size(b),
        None => 0,
    }
}

/// whether `resulting` makes progress compared to `field`
fn makes_progress(field: &Field, resulting: &Field) -> (progress: bool)
    requires
        field_sizes_fit(field@),
        field_sizes_fit(resulting@),
    ensures
        progress == is_progressive(field@, resulting@),
{
    if occupied_count(resulting, 1) < occupied_count(field, 1) {
        return true;
    }
    let mut i: usize = 0;
    while i < 6
        invariant
            i <= 6,
            field_sizes_fit(field@),
            field_sizes_fit(resulting@),
            forall|j: int|
                0 <= j < i ==> !(spec_field_owner(j) == 1 && spec_slot_size(field@[j]) > spec_slot_size(
                    #[trigger] resulting@[j],
                )),
        decreases 6 - i,
    {
        if field_owner(i) == 1 && slot_size(field, i) > slot_size(resulting, i) {
            return true;
        }
        i = i + 1;
    }
    false
}

/// whether `resulting` grows one of player 1's slots compared to `field`
fn grows_opponent(field: &Field, resulting: &Field) -> (grows: bool)
    requires
        field_sizes_fit(field@),
        field_sizes_fit(resulting@),
    ensures
        grows == strengthens_opponent(field@, resulting@),
{
    let mut i: usize = 0;
    while i < 6
        invariant
            i <= 6,
            field_sizes_fit(field@),
            field_sizes_fit(resulting@),
            forall|j: int|
                0 <= j < i ==> !(spec_field_owner(j) == 1 && spec_slot_size(field@[j]) < spec_slot_size(
                    #[trigger] resulting@[j],
                )),
        decreases 6 - i,
    {
        if field_owner(i) == 1 && slot_size(field, i) < slot_size(resulting, i) {
            return true;
        }
        i = i + 1;
    }
    false
}

/// removes candidates that don't make progress toward winning (don't reduce
/// the opponent's slot count or complexity), unless every candidate is
/// non-progressive
pub fn filter_out_non_progressive_moves<S>(candidates: Vec<AiMove<S>>, field: &Field) -> (kept: Vec<AiMove<S>>)
    requires
        field_sizes_fit(field@),
        forall|i: int| 0 <= i < candidates@.len() ==> field_sizes_fit((#[trigger] candidates@[i]).resulting_field@),
    ensures
        kept@ == spec_filter_if_any(candidates@, |mv: AiMove<S>| is_progressive(field@, mv.resulting_field@)),
        (exists|k: int, i: int|
            0 <= k < candidates@.len() && 3 <= i < 6 && spec_slot_size(
                (#[trigger] candidates@[k]).resulting_field@[i],
            ) < spec_slot_size(#[trigger] field@[i])) ==> forall|k: int|
            0 <= k < kept@.len() ==> exists|i: int|
                3 <= i < 6 && spec_slot_size((#[trigger] kept@[k]).resulting_field@[i]) < spec_slot_size(
                    #[trigger] field@[i],
                ),
{
    let ghost pred = |mv: AiMove<S>| is_progressive(field@, mv.resulting_field@);
    let mut keep: Vec<bool> = Vec::new();
    let mut any = false;
    let mut i: usize = 0;
    while i < candidates.len()
        invariant
            i <= candidates@.len(),
            pred == (|mv: AiMove<S>| is_progressive(field@, mv.resulting_field@)),
            field_sizes_fit(field@),
            forall|j: int| 0 <= j < candidates@.len() ==> field_sizes_fit((#[trigger] candidates@[j]).resulting_field@),
            keep@.len() == i,
            forall|j: int| 0 <= j < i ==> keep@[j] == pred(#[trigger] candidates@[j]),
            any == exists|j: int| 0 <= j < i && pred(#[trigger] candidates@[j]),
        decreases candidates@.len() - i,
    {
        let progressive = makes_progress(field, &candidates[i].resulting_field);
        assert(pred(candidates@[i as int]) == progressive);
        keep.push(progressive);
        any = any || progressive;
        i = i + 1;
    }
    let ghost given = candidates@;
    let kept = if any {
        keep_matching(candidates, keep, Ghost(pred))
    } else {
        candidates
    };
    proof {
        lemma_filter_if_any_sound(given, pred);
        if exists|k: int, i: int|
            0 <= k < given.len() && 3 <= i < 6 && spec_slot_size((#[trigger] given[k]).resulting_field@[i])
                < spec_slot_size(#[trigger] field@[i]) {
            let (k, i) = choose|k: int, i: int|
                0 <= k < given.len() && 3 <= i < 6 && spec_slot_size((#[trigger] given[k]).resulting_field@[i])
                    < spec_slot_size(#[trigger] field@[i]);
            lemma_progress_means_a_smaller_opponent_slot(field@, given[k].resulting_field@);
            assert(pred(given[k]));
            assert forall|m: int| 0 <= m < kept@.len() implies exists|j: int|
                3 <= j < 6 && spec_slot_size((#[trigger] kept@[m]).resulting_field@[j]) < spec_slot_size(
                    #[trigger] field@[j],
                ) by {
                assert(pred(kept@[m]));
                lemma_progress_means_a_smaller_opponent_slot(field@, kept@[m].resulting_field@);
                let j = choose|j: int|
                    3 <= j < 6 && spec_slot_size(#[trigger] kept@[m].resulting_field@[j]) < spec_slot_size(field@[j]);
                assert(spec_slot_size(kept@[m].resulting_field@[j]) < spec_slot_size(field@[j]));
            }
        }
    }
    kept
}

/// removes candidates that directly strengthen the opponent's field (increase
/// an opponent slot's complexity), unless every candidate does this
pub fn filter_out_opponent_strengthening_moves<S>(candidates: Vec<AiMove<S>>, field: &Field) -> (kept: Vec<AiMove<S>>)
    requires
        field_sizes_fit(field@),
        forall|i: int| 0 <= i < candidates@.len() ==> field_sizes_fit((#[trigger] candidates@[i]).resulting_field@),
    ensures
        kept@ == spec_filter_if_any(candidates@, |mv: AiMove<S>| !strengthens_opponent(field@, mv.resulting_field@)),
        (exists|k: int|
            0 <= k < candidates@.len() && forall|i: int|
                3 <= i < 6 ==> spec_slot_size((#[trigger] candidates@[k]).resulting_field@[i]) <= spec_slot_size(
                    #[trigger] field@[i],
                )) ==> forall|k: int, i: int|
            0 <= k < kept@.len() && 3 <= i < 6 ==> spec_slot_size(
                (#[trigger] kept@[k]).resulting_field@[i],
            ) <= spec_slot_size(#[trigger] field@[i]),
{
    let ghost pred = |mv: AiMove<S>| !strengthens_opponent(field@, mv.resulting_field@);
    let mut keep: Vec<bool> = Vec::new();
    let mut any = false;
    let mut i: usize = 0;
    while i < candidates.len()
        invariant
            i <= candidates@.len(),
            pred == (|mv: AiMove<S>| !strengthens_opponent(field@, mv.resulting_field@)),
            field_sizes_fit(field@),
            forall|j: int| 0 <= j < candidates@.len() ==> field_sizes_fit((#[trigger] candidates@[j]).resulting_field@),
            keep@.len() == i,
            forall|j: int| 0 <= j < i ==> keep@[j] == pred(#[trigger] candidates@[j]),
            any == exists|j: int| 0 <= j < i && pred(#[trigger] candidates@[j]),
        decreases candidates@.len() - i,
    {
        let safe = !grows_opponent(field, &candidates[i].resulting_field);
        assert(pred(candidates@[i as int]) == safe);
        keep.push(safe);
        any = any || safe;
        i = i + 1;
    }
    let ghost given = candidates@;
    let kept = if any {
        keep_matching(candidates, keep, Ghost(pred))
    } else {
        candidates
    };
    proof {
        lemma_filter_if_any_sound(given, pred);
        if exists|k: int|
            0 <= k < given.len() && forall|i: int|
                3 <= i < 6 ==> spec_slot_size((#[trigger] given[k]).resulting_field@[i]) <= spec_slot_size(
                    #[trigger] field@[i],
                ) {
            let k = choose|k: int|
                0 <= k < given.len() && forall|i: int|
                    3 <= i < 6 ==> spec_slot_size((#[trigger] given[k]).resulting_field@[i]) <= spec_slot_size(
                        #[trigger] field@[i],
                    );
            lemma_strengthening_means_a_larger_opponent_slot(field@, given[k].resulting_field@);
            assert(pred(given[k]));
            assert forall|m: int, i: int| 0 <= m < kept@.len() && 3 <= i < 6 implies spec_slot_size(
                (#[trigger] kept@[m]).resulting_field@[i],
            ) <= spec_slot_size(#[trigger] field@[i]) by {
                assert(pred(kept@[m]));
                lemma_strengthening_means_a_larger_opponent_slot(field@, kept@[m].resulting_field@);
            }
        }
    }
    kept
}

/// removes candidates that would let the opponent win outright on their very
/// next turn, unless EVERY candidate shares that fate (the loss is then
/// unavoidable, and normal scoring proceeds among the doomed options)
pub fn filter_out_losing_moves<S>(candidates: Vec<AiMove<S>>) -> (kept: Vec<AiMove<S>>)
    ensures
        kept@ == spec_filter_if_any(candidates@, |mv: AiMove<S>| !mv.opponent_can_win_next),
{
    let ghost pred = |mv: AiMove<S>| !mv.opponent_can_win_next;
    let mut keep: Vec<bool> = Vec::new();
    let mut any = false;
    let mut i: usize = 0;
    while i < candidates.len()
        invariant
            i <= candidates@.len(),
            pred == (|mv: AiMove<S>| !mv.opponent_can_win_next),
            keep@.len() == i,
            forall|j: int| 0 <= j < i ==> keep@[j] == pred(#[trigger] candidates@[j]),
            any == exists|j: int| 0 <= j < i && pred(#[trigger] candidates@[j]),
        decreases candidates@.len() - i,
    {
        let safe = !candidates[i].opponent_can_win_next;
        assert(pred(candidates@[i as int]) == safe);
        keep.push(safe);
        any = any || safe;
        i = i + 1;
    }
    if any {
        keep_matching(candidates, keep, Ghost(pred))
    } else {
        candidates
    }
}

/// outcome of the AI's hard rules on a candidate set: an outright win to take
/// at once, or what is left after every rule that applies regardless of
/// difficulty
pub enum HardFilterResult<S> {
    Win(AiMove<S>),
    Filtered(Vec<AiMove<S>>),
}

/// the candidates that do not lose by the AI's own hand (tier 0)
pub open spec fn spec_not_self_defeating<S>(candidates: Seq<AiMove<S>>) -> Seq<AiMove<S>> {
    spec_filter_if_any(candidates, |mv: AiMove<S>| !is_self_defeating(mv))
}

/// tiers 2 to 5, in order: avoid handing the opponent a win, never hurt self
/// or help the opponent, make progress, never strengthen the opponent
pub open spec fn spec_safety_filters<S>(candidates: Seq<AiMove<S>>, field: Seq<Option<BasisModel>>) -> Seq<AiMove<S>> {
    let c2 = spec_filter_if_any(candidates, |mv: AiMove<S>| !mv.opponent_can_win_next);
    let c3 = spec_filter_if_any(c2, |mv: AiMove<S>| !mv.hurts_self_or_helps_opponent);
    let c4 = spec_filter_if_any(c3, |mv: AiMove<S>| is_progressive(field, mv.resulting_field@));
    spec_filter_if_any(c4, |mv: AiMove<S>| !strengthens_opponent(field, mv.resulting_field@))
}

/// index of the first candidate that wins outright
pub open spec fn first_winning_index<S>(candidates: Seq<AiMove<S>>) -> Option<int> {
    if exists|i: int|
        0 <= i < candidates.len() && (#[trigger] candidates[i]).wins_immediately && forall|j: int|
            0 <= j < i ==> !(#[trigger] candidates[j]).wins_immediately {
        Some(
            choose|i: int|
                0 <= i < candidates.len() && (#[trigger] candidates[i]).wins_immediately && forall|j: int|
                    0 <= j < i ==> !(#[trigger] candidates[j]).wins_immediately,
        )
    } else {
        None
    }
}

/// every resulting field of the candidates has sizes that fit in 32 bits
pub open spec fn candidate_sizes_fit<S>(candidates: Seq<AiMove<S>>) -> bool {
    forall|i: int| 0 <= i < candidates.len() ==> field_sizes_fit((#[trigger] candidates[i]).resulting_field@)
}

/// a rule that keeps only candidates from its input keeps every property all
/// of them share
proof fn lemma_filter_if_any_keeps_fit<S>(candidates: Seq<AiMove<S>>, pred: spec_fn(AiMove<S>) -> bool)
    requires
        candidate_sizes_fit(candidates),
    ensures
        candidate_sizes_fit(spec_filter_if_any(candidates, pred)),
{
    lemma_filter_if_any_sound(candidates, pred);
    let kept = spec_filter_if_any(candidates, pred);
    assert forall|k: int| 0 <= k < kept.len() implies field_sizes_fit((#[trigger] kept[k]).resulting_field@) by {
        assert(candidates.contains(kept[k]));
    }
}

/// the first winning candidate, if any
fn find_winning_index<S>(candidates: &Vec<AiMove<S>>) -> (index: Option<usize>)
    ensures
        match first_winning_index(candidates@) {
            Some(i) => index == Some(i as usize),
            None => index is None,
        },
{
    let mut i: usize = 0;
    while i < candidates.len()
        invariant
            i <= candidates@.len(),
            forall|j: int| 0 <= j < i ==> !(#[trigger] candidates@[j]).wins_immediately,
        decreases candidates@.len() - i,
    {
        if candidates[i].wins_immediately {
            let ghost w = choose|k: int|
                0 <= k < candidates@.len() && (#[trigger] candidates@[k]).wins_immediately && forall|j: int|
                    0 <= j < k ==> !(#[trigger] candidates@[j]).wins_immediately;
            assert(0 <= i < candidates@.len() && candidates@[i as int].wins_immediately && forall|j: int|
                0 <= j < i ==> !(#[trigger] candidates@[j]).wins_immediately);
            proof {
                // the first winning index is unique
                if w < i {
                    assert(!candidates@[w].wins_immediately);
                } else if w > i {
                    assert(!candidates@[i as int].wins_immediately);
                }
            }
            return Some(i);
        }
        i = i + 1;
    }
    None
}

/// applies every hard rule of the AI, whatever its difficulty: never lose by
/// its own hand (tier 0), always take an outright win (tier 1), then tiers 2
/// to 5 (see spec_safety_filters)
pub fn apply_hard_filters<S>(candidates: Vec<AiMove<S>>, field: &Field) -> (result: HardFilterResult<S>)
    requires
        field_sizes_fit(field@),
        candidate_sizes_fit(candidates@),
    ensures
        ({
            let c1 = spec_not_self_defeating(candidates@);
            match first_winning_index(c1) {
                Some(i) => result matches HardFilterResult::Win(mv) && mv == c1[i],
                None => result matches HardFilterResult::Filtered(kept) && kept@ == spec_safety_filters(
                    c1,
                    field@,
                ),
            }
        }),
{
    let ghost given = candidates@;
    let candidates = filter_out_self_defeating_moves(candidates);
    if let Some(winning_index) = find_winning_index(&candidates) {
        let mut candidates = candidates;
        return HardFilterResult::Win(candidates.remove(winning_index));
    }
    proof {
        lemma_filter_if_any_keeps_fit(given, |mv: AiMove<S>| !is_self_defeating(mv));
    }
    let candidates = filter_out_losing_moves(candidates);
    proof {
        lemma_filter_if_any_keeps_fit(
            spec_not_self_defeating(given),
            |mv: AiMove<S>| !mv.opponent_can_win_next,
        );
    }
    let candidates = filter_out_moves_that_hurt_self_or_help_opponent(candidates);
    let ghost c3 = candidates@;
    proof {
        lemma_filter_if_any_keeps_fit(
            spec_filter_if_any(spec_not_self_defeating(given), |mv: AiMove<S>| !mv.opponent_can_win_next),
            |mv: AiMove<S>| !mv.hurts_self_or_helps_opponent,
        );
    }
    let candidates = filter_out_non_progressive_moves(candidates, field);
    proof {
        lemma_filter_if_any_keeps_fit(c3, |mv: AiMove<S>| is_progressive(field@, mv.resulting_field@));
    }
    let candidates = filter_out_opponent_strengthening_moves(candidates, field);
    HardFilterResult::Filtered(candidates)
}

/// Every hard rule keeps at least one candidate, keeps only candidates that
/// satisfy it whenever some candidate does, and never drops one that does.
pub proof fn lemma_filter_if_any_sound<S>(candidates: Seq<AiMove<S>>, pred: spec_fn(AiMove<S>) -> bool)
    ensures
        candidates.len() > 0 ==> spec_filter_if_any(candidates, pred).len() > 0,
        (exists|i: int| 0 <= i < candidates.len() && pred(#[trigger] candidates[i])) ==> forall|k: int|
            0 <= k < spec_filter_if_any(candidates, pred).len() ==> pred(
                #[trigger] spec_filter_if_any(candidates, pred)[k],
            ),
        forall|i: int|
            0 <= i < candidates.len() && pred(#[trigger] candidates[i]) ==> spec_filter_if_any(
                candidates,
                pred,
            ).contains(candidates[i]),
        forall|k: int|
            0 <= k < spec_filter_if_any(candidates, pred).len() ==> candidates.contains(
                #[trigger] spec_filter_if_any(candidates, pred)[k],
            ),
{
    broadcast use vstd::seq_lib::group_filter_ensures;

    if exists|i: int| 0 <= i < candidates.len() && pred(#[trigger] candidates[i]) {
        let i = choose|i: int| 0 <= i < candidates.len() && pred(#[trigger] candidates[i]);
        candidates.lemma_filter_contains(pred, i);
        assert forall|j: int| 0 <= j < candidates.len() && pred(#[trigger] candidates[j]) implies candidates.filter(pred).contains(candidates[j]) by {
            candidates.lemma_filter_contains(pred, j);
        }
        assert forall|k: int| 0 <= k < candidates.filter(pred).len() implies candidates.contains(#[trigger] candidates.filter(pred)[k]) by {
            candidates.lemma_filter_pred(pred, k);
            candidates.lemma_filter_contains_rev(pred, candidates.filter(pred)[k]);
        }
    } else {
        assert forall|i: int| 0 <= i < candidates.len() && pred(#[trigger] candidates[i]) implies spec_filter_if_any(candidates, pred).contains(candidates[i]) by {}
        assert forall|k: int| 0 <= k < candidates.len() implies candidates.contains(#[trigger] candidates[k]) by {}
    }
}

/// some winning candidate at or before `i` has no winning candidate before it
proof fn lemma_first_win_exists<S>(candidates: Seq<AiMove<S>>, i: int)
    requires
        0 <= i < candidates.len(),
        candidates[i].wins_immediately,
    ensures
        first_winning_index(candidates) is Some,
    decreases i,
{
    if exists|j: int| 0 <= j < i && (#[trigger] candidates[j]).wins_immediately {
        let j = choose|j: int| 0 <= j < i && (#[trigger] candidates[j]).wins_immediately;
        lemma_first_win_exists(candidates, j);
    } else {
        assert(0 <= i < candidates.len() && candidates[i].wins_immediately && forall|j: int|
            0 <= j < i ==> !(#[trigger] candidates[j]).wins_immediately);
    }
}

/// The hard rules never leave the AI without a move: a non-empty candidate set
/// always yields either an outright win or a non-empty set to rank.
pub proof fn lemma_hard_filters_keep_a_move<S>(candidates: Seq<AiMove<S>>, field: Seq<Option<BasisModel>>)
    requires
        candidates.len() > 0,
    ensures
        spec_not_self_defeating(candidates).len() > 0,
        spec_safety_filters(spec_not_self_defeating(candidates), field).len() > 0,
{
    let c1 = spec_not_self_defeating(candidates);
    lemma_filter_if_any_sound(candidates, |mv: AiMove<S>| !is_self_defeating(mv));
    let c2 = spec_filter_if_any(c1, |mv: AiMove<S>| !mv.opponent_can_win_next);
    lemma_filter_if_any_sound(c1, |mv: AiMove<S>| !mv.opponent_can_win_next);
    let c3 = spec_filter_if_any(c2, |mv: AiMove<S>| !mv.hurts_self_or_helps_opponent);
    lemma_filter_if_any_sound(c2, |mv: AiMove<S>| !mv.hurts_self_or_helps_opponent);
    let c4 = spec_filter_if_any(c3, |mv: AiMove<S>| is_progressive(field, mv.resulting_field@));
    lemma_filter_if_any_sound(c3, |mv: AiMove<S>| is_progressive(field, mv.resulting_field@));
    lemma_filter_if_any_sound(c4, |mv: AiMove<S>| !strengthens_opponent(field, mv.resulting_field@));
}

/// An outright win that does not also clear the AI's own side is always
/// taken: the hard rules then answer with a winning, not self-defeating move.
pub proof fn lemma_outright_win_is_taken<S>(candidates: Seq<AiMove<S>>, i: int)
    requires
        0 <= i < candidates.len(),
        candidates[i].wins_immediately,
        !is_self_defeating(candidates[i]),
    ensures
        first_winning_index(spec_not_self_defeating(candidates)) matches Some(k) && spec_not_self_defeating(
            candidates,
        )[k].wins_immediately && !is_self_defeating(spec_not_self_defeating(candidates)[k]),
{
    let pred = |mv: AiMove<S>| !is_self_defeating(mv);
    let c1 = spec_not_self_defeating(candidates);
    assert(pred(candidates[i]));
    lemma_filter_if_any_sound(candidates, pred);
    candidates.lemma_filter_contains(pred, i);
    assert(c1 == candidates.filter(pred));
    assert(c1.contains(candidates[i]));
    let j = choose|j: int| 0 <= j < c1.len() && c1[j] == candidates[i];
    lemma_first_win_exists(c1, j);
    let k = first_winning_index(c1)->0;
    assert(pred(c1[k]));
}

/// how much clearing `basis` outright is worth on top of the flat bonus every
/// clear of an opponent slot gets: 100 for a shape nothing but Mult/Div-by-zero
/// can clear, plus 10 per node of the expression
pub open spec fn spec_clear_priority_bonus(basis: BasisModel) -> int {
    (if spec_is_hard_to_clear(basis) { 100int } else { 0int }) + spec_basis_size(basis) * 10
}

/// Clearing a sine, cosine or exponential is worth 100 more than clearing
/// any other expression of the same size, and among expressions alike in that
/// respect each extra node is worth 10 more; the bonus is never negative.
pub proof fn lemma_clear_priority_prefers_hard_and_large(a: BasisModel, b: BasisModel)
    ensures
        spec_clear_priority_bonus(a) >= 0,
        spec_is_hard_to_clear(a) == spec_is_hard_to_clear(b) ==> spec_clear_priority_bonus(a)
            - spec_clear_priority_bonus(b) == 10 * (spec_basis_size(a) - spec_basis_size(b)),
        a is Node && (a->operator == BasisOperator::Sin || a->operator == BasisOperator::Cos || a->operator
            == BasisOperator::E) && !(b is Node && (b->operator == BasisOperator::Sin || b->operator
            == BasisOperator::Cos || b->operator == BasisOperator::E)) && spec_basis_size(a) == spec_basis_size(b)
            ==> spec_clear_priority_bonus(a) == spec_clear_priority_bonus(b) + 100,
{
}

/// how much a scarce clearing play is worth spending on `basis` specifically
pub fn clear_priority_bonus(basis: &Basis) -> (bonus: i64)
    requires
        spec_basis_size(basis@) <= u32::MAX,
    ensures
        bonus == spec_clear_priority_bonus(basis@),
{
    let hard_bonus: i64 = if is_hard_to_clear(basis) { 100 } else { 0 };
    hard_bonus + (basis_size(basis) as i64) * 10
}

/// the size an expression leaves in a slot: 0 for the constant 0 (which
/// empties it), its node count otherwise
pub open spec fn spec_result_size(result: BasisModel) -> nat {
    if spec_is_num(result, 0) { 0 } else { spec_basis_size(result) }
}

/// the score, in points, of replacing the expression in slot `target` by
/// `new_basis`, from `evaluating_player`'s point of view: 1 for any legal move,
/// then on the other player's side 200 plus the clear priority bonus for
/// clearing a slot, 10 per node removed, minus 20 per node added; on the
/// evaluating player's own side minus 200 for clearing a slot, minus 5 per node
/// removed, 2 per node added
pub open spec fn spec_score_replacement(
    evaluating_player: u32,
    target: int,
    new_basis: BasisModel,
    field: Seq<Option<BasisModel>>,
) -> int {
    let old_size = spec_slot_size(field[target]) as int;
    let new_size = spec_result_size(new_basis) as int;
    1 + if spec_field_owner(target) != evaluating_player {
        if new_size == 0 && old_size > 0 {
            200 + match field[target] {
                Some(b) => spec_clear_priority_bonus(b),
                None => 0,
            }
        } else if new_size < old_size {
            (old_size - new_size) * 10
        } else if new_size > old_size {
            (old_size - new_size) * 20
        } else {
            0
        }
    } else {
        if new_size == 0 && old_size > 0 {
            -200
        } else if new_size < old_size {
            (new_size - old_size) * 5
        } else if new_size > old_size {
            (new_size - old_size) * 2
        } else {
            0
        }
    }
}

/// Replacing a slot's expression scores, for a player: at least 1 for
/// growing or keeping one of their own slots (slots 0 to 2 for player 2, 3 to
/// 5 for player 1) and below 0 for shrinking or emptying it; on the other
/// side, more than 1 for shrinking the opponent's slot, more than 200 for
/// emptying it, and below 0 for growing it.
pub proof fn lemma_score_replacement_favours_opponent_losses(
    evaluating_player: u32,
    target: int,
    new_basis: BasisModel,
    field: Seq<Option<BasisModel>>,
)
    requires
        evaluating_player == 1 || evaluating_player == 2,
        0 <= target < 6,
    ensures
        ({
            let own = (evaluating_player == 2) == (target < 3);
            let old_size = spec_slot_size(field[target]);
            let new_size: nat = if spec_is_num(new_basis, 0) { 0 } else { spec_basis_size(new_basis) };
            let score = spec_score_replacement(evaluating_player, target, new_basis, field);
            &&& own && new_size < old_size ==> score < 0
            &&& own && new_size >= old_size ==> score >= 1
            &&& !own && new_size < old_size ==> score > 1
            &&& !own && new_size == 0 && old_size > 0 ==> score > 200
            &&& !own && new_size > old_size ==> score < 0
        }),
{
    match field[target] {
        Some(b) => {
            assert(spec_clear_priority_bonus(b) >= 0);
        },
        None => {},
    }
}

/// the size of slot `i`'s expression, as a signed number of points
fn slot_points(field: &Field, i: usize) -> (size: i64)
    requires
        i < 6,
        field_sizes_fit(field@),
    ensures
        size == spec_slot_size(field@[i as int]),
{
    slot_size(field, i) as i64
}

/// scores replacing `field[target]` with `new_basis`, from
/// `evaluating_player`'s point of view: rewards clearing or simplifying the
/// other player's slot, penalises clearing the evaluating player's own
pub fn score_replacement(evaluating_player: u32, target: usize, new_basis: &Basis, field: &Field) -> (score: i64)
    requires
        target < 6,
        field_sizes_fit(field@),
        !spec_is_num(new_basis@, 0) ==> spec_basis_size(new_basis@) <= u32::MAX,
    ensures
        score == spec_score_replacement(evaluating_player, target as int, new_basis@, field@),
{
    let is_opponent_side = field_owner(target) != evaluating_player;
    let old_size = slot_points(field, target);
    let new_size: i64 = if new_basis.is_num(0) { 0 } else { basis_size(new_basis) as i64 };
    let delta: i64 = if is_opponent_side {
        if new_size == 0 && old_size > 0 {
            let bonus = match &field.basis[target].basis {
                Some(b) => {
                    assert(spec_slot_size(field@[target as int]) <= u32::MAX);
                    clear_priority_bonus(b)
                },
                None => 0,
            };
            200 + bonus
        } else if new_size < old_size {
            (old_size - new_size) * 10
        } else if new_size > old_size {
            (old_size - new_size) * 20
        } else {
            0
        }
    } else {
        if new_size == 0 && old_size > 0 {
            -200
        } else if new_size < old_size {
            (new_size - old_size) * 5
        } else if new_size > old_size {
            (new_size - old_size) * 2
        } else {
            0
        }
    };
    1 + delta
}

/// number of occupied slots among the first `n` that belong to `player`
/// (`mine`) or do not (`!mine`)
pub open spec fn spec_count_occupied(field: Seq<Option<BasisModel>>, player: u32, mine: bool, n: int) -> nat
    decreases n,
{
    if n <= 0 {
        0
    } else {
        spec_count_occupied(field, player, mine, n - 1) + (if field[n - 1] is Some && ((spec_field_owner(n - 1)
            == player) == mine) {
            1nat
        } else {
            0nat
        })
    }
}

/// number of occupied slots that belong to `player` (`mine`) or do not
fn count_occupied(field: &Field, player: u32, mine: bool) -> (count: i64)
    ensures
        count == spec_count_occupied(field@, player, mine, 6),
        count <= 6,
{
    let mut count: i64 = 0;
    let mut i: usize = 0;
    while i < 6
        invariant
            i <= 6,
            count == spec_count_occupied(field@, player, mine, i as int),
            count <= i,
        decreases 6 - i,
    {
        if field.basis[i].basis.is_some() && ((field_owner(i) == player) == mine) {
            count = count + 1;
        }
        i = i + 1;
    }
    count
}

/// bonus for how many slots stay occupied on each side: 15 per empty slot of
/// the other side, minus 25 per empty slot of the evaluating player's own
pub open spec fn spec_strategic_slot_bonus(evaluating_player: u32, resulting_field: Seq<Option<BasisModel>>) -> int {
    (3 - spec_count_occupied(resulting_field, evaluating_player, false, 6)) * 15 - (3
        - spec_count_occupied(resulting_field, evaluating_player, true, 6)) * 25
}

/// emptying slot `i` takes it off the count of occupied slots it belonged to
proof fn lemma_count_after_emptying(
    field: Seq<Option<BasisModel>>,
    player: u32,
    mine: bool,
    n: int,
    i: int,
)
    requires
        0 <= i < field.len(),
        n <= field.len(),
        field[i] is Some,
    ensures
        spec_count_occupied(field.update(i, None), player, mine, n) + (if 0 <= i < n && ((spec_field_owner(i)
            == player) == mine) {
            1int
        } else {
            0int
        }) == spec_count_occupied(field, player, mine, n),
    decreases n,
{
    if n > 0 {
        lemma_count_after_emptying(field, player, mine, n - 1, i);
        if n - 1 != i {
            assert(field.update(i, None)[n - 1] == field[n - 1]);
        }
    }
}

/// Emptying one of a player's own slots (slots 0 to 2 for player 2, 3 to 5
/// for player 1) lowers their slot bonus by 25, and emptying one of the other
/// side's slots raises it by 15.
pub proof fn lemma_slot_bonus_per_emptied_slot(player: u32, field: Seq<Option<BasisModel>>, i: int)
    requires
        player == 1 || player == 2,
        field.len() == 6,
        0 <= i < 6,
        field[i] is Some,
    ensures
        spec_strategic_slot_bonus(player, field.update(i, None)) == spec_strategic_slot_bonus(player, field) + (
        if (player == 2) == (i < 3) {
            -25int
        } else {
            15int
        }),
{
    lemma_count_after_emptying(field, player, true, 6, i);
    lemma_count_after_emptying(field, player, false, 6, i);
}

/// bonus/penalty for how many slots remain occupied on each side in
/// `resulting_field`, from `evaluating_player`'s point of view
pub fn strategic_slot_bonus(evaluating_player: u32, resulting_field: &Field) -> (bonus: i64)
    ensures
        bonus == spec_strategic_slot_bonus(evaluating_player, resulting_field@),
{
    let opponent_slots_remaining = count_occupied(resulting_field, evaluating_player, false);
    let own_slots_remaining = count_occupied(resulting_field, evaluating_player, true);
    (3 - opponent_slots_remaining) * 15 - (3 - own_slots_remaining) * 25
}

/// whether a hand holds a Mult or Div card
pub open spec fn has_mult_div(hand: Seq<Card>) -> bool {
    exists|i: int|
        0 <= i < hand.len() && (#[trigger] hand[i] == Card::AlgebraicCard(AlgebraicCard::Mult) || hand[i]
            == Card::AlgebraicCard(AlgebraicCard::Div))
}

/// whether a hand holds a Zero card
pub open spec fn has_zero(hand: Seq<Card>) -> bool {
    exists|i: int| 0 <= i < hand.len() && #[trigger] hand[i] == Card::BasisCard(BasisCard::Zero)
}

/// whether some slot of `owner` is empty or holds an expression of at most 2 nodes
pub open spec fn has_simple_slot(field: Seq<Option<BasisModel>>, owner: u32) -> bool {
    exists|i: int| 0 <= i < 6 && spec_field_owner(i) == owner && spec_slot_size(#[trigger] field[i]) <= 2
}

/// the strategic context of a position for `player_num`, in points: minus 100
/// when at most 2 of their own slots are occupied, plus 100 when at most 2 of
/// the opponent's are, plus 50 when holding Mult/Div while the opponent has an
/// occupied slot and some simple (or empty) one, plus 30 when holding both a
/// Zero and Mult/Div
pub open spec fn spec_evaluate_game_situation(player_num: u32, hand: Seq<Card>, field: Seq<Option<BasisModel>>) -> int {
    let opponent = spec_opponent_of(player_num);
    let own = spec_occupied_count(field, player_num, 6);
    let theirs = spec_occupied_count(field, opponent, 6);
    (if own <= 2 { -100int } else { 0int }) + (if theirs <= 2 { 100int } else { 0int }) + (if has_mult_div(hand)
        && theirs > 0 && has_simple_slot(field, opponent) {
        50int
    } else {
        0int
    }) + (if has_zero(hand) && has_mult_div(hand) { 30int } else { 0int })
}

/// Being in danger costs 100 points: with the same hand and the other side's
/// slots unchanged, a field where one of the player's own slots (slots 0 to 2
/// for player 2, 3 to 5 for player 1) is empty scores exactly 100 less than
/// one where all three are occupied.
pub proof fn lemma_situation_danger_costs_100(
    player_num: u32,
    hand: Seq<Card>,
    safe: Seq<Option<BasisModel>>,
    endangered: Seq<Option<BasisModel>>,
)
    requires
        player_num == 1 || player_num == 2,
        safe.len() == 6,
        endangered.len() == 6,
        forall|i: int| 0 <= i < 6 && (player_num == 2) != (i < 3) ==> endangered[i] == safe[i],
        forall|i: int| 0 <= i < 6 && (player_num == 2) == (i < 3) ==> (#[trigger] safe[i]) is Some,
        exists|i: int| 0 <= i < 6 && (player_num == 2) == (i < 3) && (#[trigger] endangered[i]) is None,
    ensures
        spec_evaluate_game_situation(player_num, hand, endangered) == spec_evaluate_game_situation(
            player_num,
            hand,
            safe,
        ) - 100,
{
    reveal_with_fuel(spec_occupied_count, 7);
    let opponent = spec_opponent_of(player_num);
    let e = choose|i: int| 0 <= i < 6 && (player_num == 2) == (i < 3) && (#[trigger] endangered[i]) is None;
    if player_num == 2 {
        assert(safe[0] is Some && safe[1] is Some && safe[2] is Some);
        assert(endangered[3] == safe[3] && endangered[4] == safe[4] && endangered[5] == safe[5]);
    } else {
        assert(safe[3] is Some && safe[4] is Some && safe[5] is Some);
        assert(endangered[0] == safe[0] && endangered[1] == safe[1] && endangered[2] == safe[2]);
    }
    assert(spec_occupied_count(safe, player_num, 6) == 3);
    assert(spec_occupied_count(endangered, player_num, 6) <= 2);
    assert(spec_occupied_count(endangered, opponent, 6) == spec_occupied_count(safe, opponent, 6));
    assert(has_simple_slot(endangered, opponent) == has_simple_slot(safe, opponent)) by {
        if has_simple_slot(endangered, opponent) {
            let i = choose|i: int|
                0 <= i < 6 && spec_field_owner(i) == opponent && spec_slot_size(#[trigger] endangered[i]) <= 2;
            assert(safe[i] == endangered[i]);
        }
        if has_simple_slot(safe, opponent) {
            let i = choose|i: int|
                0 <= i < 6 && spec_field_owner(i) == opponent && spec_slot_size(#[trigger] safe[i]) <= 2;
            assert(safe[i] == endangered[i]);
        }
    }
}

/// evaluates the overall game situation for `player_num`, telling the AI when
/// to be aggressive and when defensive
pub fn evaluate_game_situation(player_num: u32, hand: &Vec<Card>, field: &Field) -> (score: i64)
    requires
        field_sizes_fit(field@),
    ensures
        score == spec_evaluate_game_situation(player_num, hand@, field@),
{
    let opponent_num = opponent_of(player_num);
    let own_slots_remaining = occupied_count(field, player_num);
    let opponent_slots_remaining = occupied_count(field, opponent_num);
    let mut situation_score: i64 = 0;
    if own_slots_remaining <= 2 {
        situation_score = situation_score - 100;
    }
    if opponent_slots_remaining <= 2 {
        situation_score = situation_score + 100;
    }
    let mut mult_div = false;
    let mut zero = false;
    let mut k: usize = 0;
    while k < hand.len()
        invariant
            k <= hand@.len(),
            mult_div == exists|i: int|
                0 <= i < k && (#[trigger] hand@[i] == Card::AlgebraicCard(AlgebraicCard::Mult) || hand@[i]
                    == Card::AlgebraicCard(AlgebraicCard::Div)),
            zero == exists|i: int| 0 <= i < k && #[trigger] hand@[i] == Card::BasisCard(BasisCard::Zero),
        decreases hand@.len() - k,
    {
        let card = hand[k];
        if card == Card::AlgebraicCard(AlgebraicCard::Mult) || card == Card::AlgebraicCard(AlgebraicCard::Div) {
            mult_div = true;
        }
        if card == Card::BasisCard(BasisCard::Zero) {
            zero = true;
        }
        k = k + 1;
    }
    if mult_div && opponent_slots_remaining > 0 {
        let mut simple = false;
        let mut i: usize = 0;
        while i < 6
            invariant
                i <= 6,
                field_sizes_fit(field@),
                simple == exists|j: int|
                    0 <= j < i && spec_field_owner(j) == opponent_num && spec_slot_size(#[trigger] field@[j]) <= 2,
            decreases 6 - i,
        {
            if field_owner(i) == opponent_num && slot_size(field, i) <= 2 {
                simple = true;
            }
            i = i + 1;
        }
        if simple {
            situation_score = situation_score + 50;
        }
    }
    if zero && mult_div {
        situation_score = situation_score + 30;
    }
    situation_score
}

/// the score, in points, of a Limit card turning slot `target` into `result`
/// for `player_num`: 150 for clearing or simplifying an opponent slot; minus
/// 200 (at most 2 own slots occupied) or minus 50 for doing that to an own
/// slot; 50 for reducing an expression of more than 2 nodes to at most 2
pub open spec fn spec_evaluate_limit_strategy(
    player_num: u32,
    target: int,
    result: BasisModel,
    field: Seq<Option<BasisModel>>,
) -> int {
    let is_opponent_side = spec_field_owner(target) != player_num;
    let old_size = spec_slot_size(field[target]);
    let new_size = spec_result_size(result);
    let clears_slot = spec_is_num(result, 0) || new_size < old_size;
    if is_opponent_side && clears_slot {
        150
    } else if !is_opponent_side && clears_slot {
        if spec_occupied_count(field, player_num, 6) <= 2 { -200 } else { -50 }
    } else if new_size <= 2 && old_size > 2 {
        50
    } else {
        0
    }
}

/// A Limit card that empties or shrinks one of the player's own slots (slots
/// 0 to 2 for player 2, 3 to 5 for player 1) always costs points, whether the
/// player is in danger or not; one that empties or shrinks an opponent's slot
/// always earns points.
pub proof fn lemma_limit_strategy_penalises_own_and_rewards_opponent_clearing(
    player_num: u32,
    target: int,
    result: BasisModel,
    field: Seq<Option<BasisModel>>,
)
    requires
        player_num == 1 || player_num == 2,
        0 <= target < 6,
        spec_is_num(result, 0) || spec_basis_size(result) < spec_slot_size(field[target]),
    ensures
        (player_num == 2) == (target < 3) ==> spec_evaluate_limit_strategy(player_num, target, result, field) < 0,
        (player_num == 2) != (target < 3) ==> spec_evaluate_limit_strategy(player_num, target, result, field) > 0,
{
}

/// evaluates a Limit card strategically: clearing the opponent's slot, or
/// simplifying one's own field only when not in danger
pub fn evaluate_limit_strategy(
    player_num: u32,
    target: usize,
    limit_card: &LimitCard,
    result: &Basis,
    field: &Field,
    resulting_field: &Field,
) -> (score: i64)
    requires
        target < 6,
        field_sizes_fit(field@),
        !spec_is_num(result@, 0) ==> spec_basis_size(result@) <= u32::MAX,
    ensures
        score == spec_evaluate_limit_strategy(player_num, target as int, result@, field@),
{
    let is_opponent_side = field_owner(target) != player_num;
    let old_size = slot_size(field, target);
    let is_zero = result.is_num(0);
    let new_size: u32 = if is_zero { 0 } else { basis_size(result) };
    let clears_slot = is_zero || new_size < old_size;
    if is_opponent_side && clears_slot {
        return 150;
    }
    if !is_opponent_side && clears_slot {
        if occupied_count(field, player_num) <= 2 {
            return -200;
        } else {
            return -50;
        }
    }
    if new_size <= 2 && old_size > 2 {
        return 50;
    }
    0
}

/// a number for each card family of hand_category
pub open spec fn spec_category_index(card: Card) -> nat {
    match card {
        Card::BasisCard(BasisCard::Zero) => 0,
        Card::BasisCard(_) => 1,
        Card::AlgebraicCard(AlgebraicCard::Mult) => 2,
        Card::AlgebraicCard(AlgebraicCard::Div) => 2,
        Card::AlgebraicCard(_) => 3,
        Card::DerivativeCard(DerivativeCard::Nabla) => 4,
        Card::DerivativeCard(DerivativeCard::Laplacian) => 4,
        Card::DerivativeCard(_) => 5,
        Card::LimitCard(_) => 6,
    }
}

/// Two cards get the same family number exactly when hand_category puts them
/// in the same family.
pub proof fn lemma_category_index_names_the_family(a: Card, b: Card)
    ensures
        (spec_category_index(a) == spec_category_index(b)) <==> (spec_hand_category(a) == spec_hand_category(b)),
{
    reveal_strlit("zero");
    reveal_strlit("basis");
    reveal_strlit("multdiv");
    reveal_strlit("algebraic_single");
    reveal_strlit("half_field");
    reveal_strlit("derivative_single");
    reveal_strlit("limit");
    if spec_hand_category(a) == spec_hand_category(b) {
        assert(spec_hand_category(a)[0] == spec_hand_category(b)[0]);
    }
}

/// whether a card of family `k` stays in the hand once the cards at
/// `used_indices` are played
pub open spec fn spec_category_remains(hand: Seq<Card>, used_indices: Seq<usize>, k: nat) -> bool {
    exists|i: int|
        0 <= i < hand.len() && !used_indices.contains(i as usize) && #[trigger] spec_category_index(hand[i]) == k
}

/// how many of the families numbered below `n` stay in the hand
pub open spec fn spec_remaining_categories(hand: Seq<Card>, used_indices: Seq<usize>, n: nat) -> nat
    decreases n,
{
    if n == 0 {
        0
    } else {
        spec_remaining_categories(hand, used_indices, (n - 1) as nat) + (if spec_category_remains(
            hand,
            used_indices,
            (n - 1) as nat,
        ) {
            1nat
        } else {
            0nat
        })
    }
}

/// Playing more cards never leaves more card families in the hand: when every
/// position of `fewer` is also in `more`, at most as many families remain
/// after playing `more` as after playing `fewer`, never more than the seven
/// families there are.
pub proof fn lemma_playing_more_never_adds_families(
    hand: Seq<Card>,
    fewer: Seq<usize>,
    more: Seq<usize>,
    n: nat,
)
    requires
        forall|x: usize| #[trigger] fewer.contains(x) ==> more.contains(x),
    ensures
        spec_remaining_categories(hand, more, n) <= spec_remaining_categories(hand, fewer, n),
        spec_remaining_categories(hand, fewer, n) <= n,
    decreases n,
{
    if n > 0 {
        lemma_playing_more_never_adds_families(hand, fewer, more, (n - 1) as nat);
        if spec_category_remains(hand, more, (n - 1) as nat) {
            let i = choose|i: int|
                0 <= i < hand.len() && !more.contains(i as usize) && #[trigger] spec_category_index(hand[i]) == (n
                    - 1) as nat;
            assert(!fewer.contains(i as usize));
        }
    }
}

/// the family number of a card
fn category_index(card: &Card) -> (k: usize)
    ensures
        k == spec_category_index(*card),
{
    match card {
        Card::BasisCard(BasisCard::Zero) => 0,
        Card::BasisCard(_) => 1,
        Card::AlgebraicCard(AlgebraicCard::Mult | AlgebraicCard::Div) => 2,
        Card::AlgebraicCard(_) => 3,
        Card::DerivativeCard(DerivativeCard::Nabla | DerivativeCard::Laplacian) => 4,
        Card::DerivativeCard(_) => 5,
        Card::LimitCard(_) => 6,
    }
}

/// whether `index` is one of `used_indices`
fn is_used(used_indices: &[usize], index: usize) -> (used: bool)
    ensures
        used == used_indices@.contains(index),
{
    let mut k: usize = 0;
    while k < used_indices.len()
        invariant
            k <= used_indices@.len(),
            forall|m: int| 0 <= m < k ==> used_indices@[m] != index,
        decreases used_indices@.len() - k,
    {
        if used_indices[k] == index {
            assert(used_indices@[k as int] == index);
            return true;
        }
        k = k + 1;
    }
    false
}

/// small tie-breaking bonus, in points: 3 for each distinct card family that
/// stays in the hand once the cards at `used_indices` are played
pub fn flexibility_bonus(hand: &[Card], used_indices: &[usize]) -> (bonus: i64)
    ensures
        bonus == spec_remaining_categories(hand@, used_indices@, 7) * 3,
{
    let mut remains: Vec<bool> = vec![false, false, false, false, false, false, false];
    let mut i: usize = 0;
    while i < hand.len()
        invariant
            i <= hand@.len(),
            remains@.len() == 7,
            forall|k: int|
                0 <= k < 7 ==> #[trigger] remains@[k] == exists|j: int|
                    0 <= j < i && !used_indices@.contains(j as usize) && spec_category_index(hand@[j]) == k,
        decreases hand@.len() - i,
    {
        if !is_used(used_indices, i) {
            let k = category_index(&hand[i]);
            remains.set(k, true);
        }
        i = i + 1;
    }
    let mut count: i64 = 0;
    let mut k: usize = 0;
    while k < 7
        invariant
            k <= 7,
            remains@.len() == 7,
            forall|m: int| 0 <= m < 7 ==> #[trigger] remains@[m] == spec_category_remains(hand@, used_indices@, m as nat),
            count == spec_remaining_categories(hand@, used_indices@, k as nat),
            count <= k,
        decreases 7 - k,
    {
        if remains[k] {
            count = count + 1;
        }
        k = k + 1;
    }
    count * 3
}

/// A move that leaves every slot as it was neither hurts the mover nor helps
/// the opponent.
pub proof fn lemma_unchanged_field_never_hurts(player_num: u32, field: Seq<Option<BasisModel>>)
    ensures
        !exists|i: int|
            0 <= i < 6 && #[trigger] slot_hurts_or_helps(
                player_num,
                i,
                spec_slot_size(field[i]),
                spec_slot_size(field[i]),
            ),
{
}

/// the field a move leaves once the end-of-turn cleanup has run: the same
/// field when linear dependence is allowed, otherwise with every slot cleared
/// that is a scalar multiple of an earlier slot of its side
pub open spec fn spec_predict_resulting_field(resulting_field: Seq<Option<BasisModel>>, allow_linear_dependence: bool) -> Seq<Option<BasisModel>> {
    if allow_linear_dependence {
        resulting_field
    } else {
        spec_cleared_dependent_pairs(resulting_field)
    }
}

/// applies the end-of-turn linear-dependence cleanup the real game runs to a
/// candidate's predicted resulting field, so the AI never rates a move for a
/// slot the cleanup would empty again
pub fn predict_resulting_field(resulting_field: Field, allow_linear_dependence: bool) -> (predicted: Field)
    ensures
        predicted@ == spec_predict_resulting_field(resulting_field@, allow_linear_dependence),
{
    let mut resulting_field = resulting_field;
    if !allow_linear_dependence {
        clear_linearly_dependent_pairs(&mut resulting_field);
    }
    resulting_field
}

/// what a slot holds once an operator turned it into `result`: nothing for 0
pub open spec fn spec_result_slot(result: BasisModel) -> Option<BasisModel> {
    if spec_is_num(result, 0) { None } else { Some(result) }
}

/// the field `field` becomes when slot `target` is turned into `result`
/// (emptied for 0), before the end-of-turn cleanup
pub open spec fn spec_replaced_field(field: Seq<Option<BasisModel>>, target: int, result: BasisModel) -> Seq<Option<BasisModel>> {
    field.update(target, spec_result_slot(result))
}

/// the score of a single-slot move: its replacement score, the slot-count
/// bonus of the field it leaves, the limit bonus, the situation bonus and the
/// flexibility bonus of the hand left over
pub open spec fn spec_single_target_score(
    player_num: u32,
    hand: Seq<Card>,
    field: Seq<Option<BasisModel>>,
    played: Seq<usize>,
    target: int,
    result: BasisModel,
    limit_bonus: int,
    situation_bonus: int,
    allow_linear_dependence: bool,
) -> int {
    let resulting = spec_predict_resulting_field(spec_replaced_field(field, target, result), allow_linear_dependence);
    spec_score_replacement(player_num, target, result, field) + spec_strategic_slot_bonus(player_num, resulting)
        + limit_bonus + situation_bonus + spec_remaining_categories(hand, played, 7) * 3
}

/// the move flags the hard rules read, as a candidate's fields state them
pub open spec fn candidate_flags_hold<S>(mv: AiMove<S>, player_num: u32, field: Seq<Option<BasisModel>>) -> bool {
    &&& mv.wins_immediately == spec_side_is_cleared(mv.resulting_field@, spec_opponent_of(player_num))
    &&& mv.hurts_self_or_helps_opponent == exists|i: int|
        0 <= i < 6 && #[trigger] slot_hurts_or_helps(
            player_num,
            i,
            spec_slot_size(field[i]),
            spec_slot_size(mv.resulting_field@[i]),
        )
    &&& !mv.opponent_can_win_next
}

/// the mathematical value of a candidate move with a score in points
#[verifier::ext_equal]
pub struct CandidateModel {
    pub clicks: Seq<RenderId>,
    pub score: int,
    pub resulting_field: Seq<Option<BasisModel>>,
    pub wins_immediately: bool,
    pub hurts_self_or_helps_opponent: bool,
    pub opponent_can_win_next: bool,
    pub opponent_best_reply: int,
}

/// the mathematical value of a candidate move
pub open spec fn candidate_model(mv: AiMove<i64>) -> CandidateModel {
    CandidateModel {
        clicks: mv.clicks@,
        score: mv.score as int,
        resulting_field: mv.resulting_field@,
        wins_immediately: mv.wins_immediately,
        hurts_self_or_helps_opponent: mv.hurts_self_or_helps_opponent,
        opponent_can_win_next: mv.opponent_can_win_next,
        opponent_best_reply: mv.opponent_best_reply as int,
    }
}

/// the mathematical values of a list of candidates
pub open spec fn candidate_models(moves: Seq<AiMove<i64>>) -> Seq<CandidateModel> {
    moves.map_values(|mv: AiMove<i64>| candidate_model(mv))
}

/// whether turning `field` into `resulting` clears a slot of `player_num` or
/// grows one of the opponent's (see hurts_self_or_helps_opponent)
pub open spec fn spec_hurts(player_num: u32, field: Seq<Option<BasisModel>>, resulting: Seq<Option<BasisModel>>) -> bool {
    exists|i: int|
        0 <= i < 6 && #[trigger] slot_hurts_or_helps(player_num, i, spec_slot_size(field[i]), spec_slot_size(resulting[i]))
}

/// A move hurts its player or helps the opponent exactly when it empties one
/// of the player's own slots (slots 0 to 2 for player 2, 3 to 5 for player 1)
/// or grows one of the other side's; merely shrinking an own slot, growing an
/// own slot or shrinking an opponent's does neither.
pub proof fn lemma_hurts_means_own_emptied_or_opponent_grown(
    player_num: u32,
    field: Seq<Option<BasisModel>>,
    resulting: Seq<Option<BasisModel>>,
)
    requires
        player_num == 1 || player_num == 2,
    ensures
        spec_hurts(player_num, field, resulting) <==> exists|i: int|
            0 <= i < 6 && (if (player_num == 2) == (i < 3) {
                spec_slot_size(field[i]) > 0 && spec_slot_size(#[trigger] resulting[i]) == 0
            } else {
                spec_slot_size(resulting[i]) > spec_slot_size(field[i])
            }),
{
    if spec_hurts(player_num, field, resulting) {
        let i = choose|i: int|
            0 <= i < 6 && #[trigger] slot_hurts_or_helps(
                player_num,
                i,
                spec_slot_size(field[i]),
                spec_slot_size(resulting[i]),
            );
        assert(0 <= i < 6 && (if (player_num == 2) == (i < 3) {
            spec_slot_size(field[i]) > 0 && spec_slot_size(resulting[i]) == 0
        } else {
            spec_slot_size(resulting[i]) > spec_slot_size(field[i])
        }));
    }
    if exists|i: int|
        0 <= i < 6 && (if (player_num == 2) == (i < 3) {
            spec_slot_size(field[i]) > 0 && spec_slot_size(#[trigger] resulting[i]) == 0
        } else {
            spec_slot_size(resulting[i]) > spec_slot_size(field[i])
        }) {
        let i = choose|i: int|
            0 <= i < 6 && (if (player_num == 2) == (i < 3) {
                spec_slot_size(field[i]) > 0 && spec_slot_size(#[trigger] resulting[i]) == 0
            } else {
                spec_slot_size(resulting[i]) > spec_slot_size(field[i])
            });
        assert(slot_hurts_or_helps(player_num, i, spec_slot_size(field[i]), spec_slot_size(resulting[i])));
    }
}

/// a candidate leaving `resulting` after the clicks `clicks` with `score`:
/// it wins when the opponent's side is empty, and the opponent's replies are
/// not looked at yet
pub open spec fn spec_move_model(
    player_num: u32,
    field: Seq<Option<BasisModel>>,
    clicks: Seq<RenderId>,
    score: int,
    resulting: Seq<Option<BasisModel>>,
) -> CandidateModel {
    CandidateModel {
        clicks: clicks,
        score: score,
        resulting_field: resulting,
        wins_immediately: spec_side_is_cleared(resulting, spec_opponent_of(player_num)),
        hurts_self_or_helps_opponent: spec_hurts(player_num, field, resulting),
        opponent_can_win_next: false,
        opponent_best_reply: 0,
    }
}

/// the candidate that turns slot `target` into `result` (see
/// single_target_candidate)
pub open spec fn spec_single_model(
    player_num: u32,
    hand: Seq<Card>,
    field: Seq<Option<BasisModel>>,
    played: Seq<usize>,
    clicks: Seq<RenderId>,
    target: int,
    result: BasisModel,
    limit_bonus: int,
    situation_bonus: int,
    allow_linear_dependence: bool,
) -> CandidateModel {
    spec_move_model(
        player_num,
        field,
        clicks,
        spec_single_target_score(
            player_num,
            hand,
            field,
            played,
            target,
            result,
            limit_bonus,
            situation_bonus,
            allow_linear_dependence,
        ),
        spec_predict_resulting_field(spec_replaced_field(field, target, result), allow_linear_dependence),
    )
}

/// the cleanup only ever empties slots, so sizes that fit stay fitting
proof fn lemma_predict_keeps_fit(resulting: Seq<Option<BasisModel>>, allow_linear_dependence: bool)
    requires
        resulting.len() == 6,
        field_sizes_fit(resulting),
    ensures
        field_sizes_fit(spec_predict_resulting_field(resulting, allow_linear_dependence)),
{
    if !allow_linear_dependence {
        assert forall|i: int| 0 <= i < 6 implies spec_slot_size(
            #[trigger] spec_cleared_dependent_pairs(resulting)[i],
        ) <= u32::MAX by {
            crate::events::mousedown_handler::lemma_cleanup_only_empties(resulting, i);
        }
    }
}

/// the candidate for a move of `player_num` that turns slot `target` into
/// `result` (the clicks that play it given), with its predicted resulting
/// field, score and flags; `opponent_can_win_next` starts false, to be set by
/// whoever searches the opponent's replies
pub fn single_target_candidate(
    player_num: u32,
    hand: &[Card],
    field: &Field,
    played: &[usize],
    clicks: Vec<RenderId>,
    target: usize,
    result: &Basis,
    limit_bonus: i64,
    situation_bonus: i64,
    allow_linear_dependence: bool,
) -> (mv: AiMove<i64>)
    requires
        target < 6,
        field_sizes_fit(field@),
        !spec_is_num(result@, 0) ==> spec_basis_size(result@) <= u32::MAX,
        -0x1000_0000_0000 <= limit_bonus <= 0x1000_0000_0000,
        -0x1000_0000_0000 <= situation_bonus <= 0x1000_0000_0000,
    ensures
        mv.clicks@ == clicks@,
        mv.resulting_field@ == spec_predict_resulting_field(
            spec_replaced_field(field@, target as int, result@),
            allow_linear_dependence,
        ),
        mv.score == spec_single_target_score(
            player_num,
            hand@,
            field@,
            played@,
            target as int,
            result@,
            limit_bonus as int,
            situation_bonus as int,
            allow_linear_dependence,
        ),
        candidate_flags_hold(mv, player_num, field@),
        field_sizes_fit(mv.resulting_field@),
        -0x4000_0000_0000 <= mv.score <= 0x4000_0000_0000,
        candidate_model(mv) == spec_single_model(
            player_num,
            hand@,
            field@,
            played@,
            clicks@,
            target as int,
            result@,
            limit_bonus as int,
            situation_bonus as int,
            allow_linear_dependence,
        ),
{
    let ghost clicks_view = clicks@;
    let mut replaced = field.duplicate();
    if result.is_num(0) {
        replaced.set_slot(target, FieldBasis::none());
    } else {
        replaced.set_slot(target, FieldBasis::new(result));
    }
    assert(replaced@ =~= spec_replaced_field(field@, target as int, result@));
    assert(field_sizes_fit(replaced@)) by {
        assert forall|i: int| 0 <= i < 6 implies spec_slot_size(#[trigger] replaced@[i]) <= u32::MAX by {
            if i != target {
                assert(replaced@[i] == field@[i]);
            }
        }
    }
    let resulting_field = predict_resulting_field(replaced, allow_linear_dependence);
    proof {
        lemma_predict_keeps_fit(replaced@, allow_linear_dependence);
    }
    let replacement = score_replacement(player_num, target, result, field);
    let slots = strategic_slot_bonus(player_num, &resulting_field);
    let flexibility = flexibility_bonus(hand, played);
    proof {
        // every term is far below the range of an i64
        lemma_score_replacement_bounded(player_num, target as int, result@, field@);
        lemma_count_occupied_bound(resulting_field@, player_num, true, 6);
        lemma_count_occupied_bound(resulting_field@, player_num, false, 6);
        lemma_remaining_categories_bound(hand@, played@, 7);
    }
    let wins_immediately = side_is_cleared(&resulting_field, opponent_of(player_num));
    let hurts = hurts_self_or_helps_opponent(player_num, field, &resulting_field);
    let mv = AiMove {
        clicks,
        score: replacement + slots + limit_bonus + situation_bonus + flexibility,
        resulting_field,
        wins_immediately,
        hurts_self_or_helps_opponent: hurts,
        opponent_can_win_next: false,
        opponent_best_reply: 0,
    };
    assert(mv.wins_immediately == spec_side_is_cleared(mv.resulting_field@, spec_opponent_of(player_num)));
    assert(mv.hurts_self_or_helps_opponent == exists|i: int|
        0 <= i < 6 && #[trigger] slot_hurts_or_helps(
            player_num,
            i,
            spec_slot_size(field@[i]),
            spec_slot_size(mv.resulting_field@[i]),
        ));
    assert(candidate_model(mv) =~= spec_single_model(
        player_num,
        hand@,
        field@,
        played@,
        clicks_view,
        target as int,
        result@,
        limit_bonus as int,
        situation_bonus as int,
        allow_linear_dependence,
    ));
    mv
}

/// no more families remain than were counted
proof fn lemma_remaining_categories_bound(hand: Seq<Card>, played: Seq<usize>, n: nat)
    ensures
        spec_remaining_categories(hand, played, n) <= n,
    decreases n,
{
    if n > 0 {
        lemma_remaining_categories_bound(hand, played, (n - 1) as nat);
    }
}

/// at most `n` of the first `n` slots are counted
proof fn lemma_count_occupied_bound(field: Seq<Option<BasisModel>>, player: u32, mine: bool, n: int)
    requires
        n >= 0,
    ensures
        spec_count_occupied(field, player, mine, n) <= n,
    decreases n,
{
    if n > 0 {
        lemma_count_occupied_bound(field, player, mine, n - 1);
    }
}

/// a replacement score stays within 2^37 points either way
proof fn lemma_score_replacement_bounded(
    player_num: u32,
    target: int,
    result: BasisModel,
    field: Seq<Option<BasisModel>>,
)
    requires
        0 <= target < 6,
        field_sizes_fit(field),
        !spec_is_num(result, 0) ==> spec_basis_size(result) <= u32::MAX,
    ensures
        -0x20_0000_0000 <= spec_score_replacement(player_num, target, result, field) <= 0x20_0000_0000,
{
    assert(spec_slot_size(field[target]) <= u32::MAX);
    assert(spec_result_size(result) <= u32::MAX);
}

/// the empty slots among the first `n`, in slot order
pub open spec fn spec_empty_slots(field: Seq<Option<BasisModel>>, n: int) -> Seq<int>
    decreases n,
{
    if n <= 0 {
        Seq::empty()
    } else if field[n - 1] is None {
        spec_empty_slots(field, n - 1).push(n - 1)
    } else {
        spec_empty_slots(field, n - 1)
    }
}

/// a card placed from the hand never makes an expression too big to measure
proof fn lemma_card_basis_size(card: BasisCard)
    ensures
        spec_basis_size(spec_basis_from_card(card)) <= 2,
{
    reveal_with_fuel(spec_basis_size, 3);
    reveal_with_fuel(spec_operands_size, 3);
    let m = spec_basis_from_card(card);
    match m {
        BasisModel::Leaf { .. } => {},
        BasisModel::Node { operands, .. } => {
            assert(operands.len() == 1);
            assert(spec_operands_size(operands) == spec_basis_size(operands.last()) + spec_operands_size(operands.drop_last()));
            assert(operands.drop_last() =~= Seq::<BasisModel>::empty());
        },
    }
}

/// the candidates of a basis card at hand position `i` placed onto each empty
/// slot below `n`, in slot order; none for Zero, which is never placed
pub open spec fn spec_basis_moves(
    player_num: u32,
    hand: Seq<Card>,
    field: Seq<Option<BasisModel>>,
    i: int,
    basis_card: BasisCard,
    situation_bonus: int,
    allow_linear_dependence: bool,
    n: int,
) -> Seq<CandidateModel>
    decreases n,
{
    if n <= 0 || basis_card == BasisCard::Zero {
        Seq::empty()
    } else {
        let t = n - 1;
        spec_basis_moves(player_num, hand, field, i, basis_card, situation_bonus, allow_linear_dependence, t) + if field[t] is None {
            seq![
                spec_single_model(
                    player_num,
                    hand,
                    field,
                    seq![i as usize],
                    seq![spec_hand_id(player_num, i), spec_field_id(t)],
                    t,
                    spec_basis_from_card(basis_card),
                    0,
                    situation_bonus,
                    allow_linear_dependence,
                ),
            ]
        } else {
            Seq::empty()
        }
    }
}

/// every candidate's resulting field has sizes that fit, its flags hold, its
/// score is in range and its opponent's replies are not looked at yet
pub open spec fn candidates_well_formed(moves: Seq<AiMove<i64>>, player_num: u32, field: Seq<Option<BasisModel>>) -> bool {
    forall|k: int|
        0 <= k < moves.len() ==> field_sizes_fit((#[trigger] moves[k]).resulting_field@) && candidate_flags_hold(
            moves[k],
            player_num,
            field,
        ) && score_in_range(moves[k].score) && moves[k].opponent_best_reply == 0
}

/// the candidate moves of playing basis card `basis_card`, held at position
/// `i` of player `player_num`'s hand, onto each empty slot, in slot order;
/// none for Zero, which is never placed on the field
pub fn basis_card_candidates(
    player_num: u32,
    hand: &[Card],
    field: &Field,
    i: usize,
    basis_card: BasisCard,
    situation_bonus: i64,
    allow_linear_dependence: bool,
) -> (moves: Vec<AiMove<i64>>)
    requires
        player_num == 1 || player_num == 2,
        i < 7,
        field_sizes_fit(field@),
        -0x1000_0000_0000 <= situation_bonus <= 0x1000_0000_0000,
    ensures
        candidate_models(moves@) == spec_basis_moves(
            player_num,
            hand@,
            field@,
            i as int,
            basis_card,
            situation_bonus as int,
            allow_linear_dependence,
            6,
        ),
        candidates_well_formed(moves@, player_num, field@),
{
    let mut moves: Vec<AiMove<i64>> = Vec::new();
    if basis_card == BasisCard::Zero {
        assert(candidate_models(moves@) =~= Seq::<CandidateModel>::empty());
        return moves;
    }
    let new_basis = Basis::from_card(basis_card);
    proof {
        lemma_card_basis_size(basis_card);
    }
    let mut played: Vec<usize> = Vec::new();
    played.push(i);
    assert(played@ =~= seq![i]);
    let mut target: usize = 0;
    while target < 6
        invariant
            target <= 6,
            player_num == 1 || player_num == 2,
            i < 7,
            basis_card != BasisCard::Zero,
            field_sizes_fit(field@),
            -0x1000_0000_0000 <= situation_bonus <= 0x1000_0000_0000,
            new_basis@ == spec_basis_from_card(basis_card),
            spec_basis_size(new_basis@) <= 2,
            played@ == seq![i],
            candidate_models(moves@) == spec_basis_moves(
                player_num,
                hand@,
                field@,
                i as int,
                basis_card,
                situation_bonus as int,
                allow_linear_dependence,
                target as int,
            ),
            candidates_well_formed(moves@, player_num, field@),
        decreases 6 - target,
    {
        let ghost before = moves@;
        if field.basis[target].basis.is_none() {
            let mut clicks: Vec<RenderId> = Vec::new();
            clicks.push(hand_id(player_num, i));
            clicks.push(field_id(target));
            assert(clicks@ =~= seq![spec_hand_id(player_num, i as int), spec_field_id(target as int)]);
            let mv = single_target_candidate(
                player_num,
                hand,
                field,
                played.as_slice(),
                clicks,
                target,
                &new_basis,
                0,
                situation_bonus,
                allow_linear_dependence,
            );
            moves.push(mv);
            assert(candidate_models(moves@) =~= candidate_models(before).push(candidate_model(mv)));
        } else {
            assert(moves@ == before);
        }
        assert(candidate_models(moves@) =~= spec_basis_moves(
            player_num,
            hand@,
            field@,
            i as int,
            basis_card,
            situation_bonus as int,
            allow_linear_dependence,
            target + 1,
        ));
        target = target + 1;
    }
    moves
}

/// has some candidate an outright win
pub fn has_winning_move<S>(candidates: &Vec<AiMove<S>>) -> (wins: bool)
    ensures
        wins == exists|k: int| 0 <= k < candidates@.len() && (#[trigger] candidates@[k]).wins_immediately,
{
    let mut k: usize = 0;
    while k < candidates.len()
        invariant
            k <= candidates@.len(),
            forall|m: int| 0 <= m < k ==> !(#[trigger] candidates@[m]).wins_immediately,
        decreases candidates@.len() - k,
    {
        if candidates[k].wins_immediately {
            return true;
        }
        k = k + 1;
    }
    false
}

/// the derivatives of one side's slots fit what the side holds: one for each
/// occupied slot, none for an empty one, each small enough to measure
pub open spec fn derived_fits(field: Seq<Option<BasisModel>>, half_start: int, derived: Seq<Option<Basis>>) -> bool {
    &&& derived.len() == 3
    &&& forall|k: int| 0 <= k < 3 ==> ((#[trigger] derived[k]) is Some <==> field[half_start + k] is Some)
    &&& forall|k: int|
        0 <= k < 3 && (#[trigger] derived[k]) is Some && !spec_is_num(derived[k]->0@, 0) ==> spec_basis_size(
            derived[k]->0@,
        ) <= u32::MAX
}

/// the field once a Nabla/Laplacian on the side starting at `half_start` turned
/// each occupied slot into its derivative (`derived`, in slot order), emptying
/// it where that is 0
pub open spec fn spec_half_field(field: Seq<Option<BasisModel>>, half_start: int, derived: Seq<Option<Basis>>) -> Seq<Option<BasisModel>> {
    Seq::new(
        6,
        |j: int|
            if half_start <= j < half_start + 3 && field[j] is Some {
                spec_result_slot(derived[j - half_start]->0@)
            } else {
                field[j]
            },
    )
}

/// applies a Nabla/Laplacian to one side of the field, each occupied slot of
/// the side starting at `half_start` becoming its derivative from `derived`
/// (taken once for Nabla, twice for Laplacian), or empty where that is 0
pub fn apply_half_to_field(half_start: usize, derived: &Vec<Option<Basis>>, field: &Field) -> (new_field: Field)
    requires
        half_start == 0 || half_start == 3,
        derived_fits(field@, half_start as int, derived@),
    ensures
        new_field@ == spec_half_field(field@, half_start as int, derived@),
{
    let mut new_field = field.duplicate();
    let mut k: usize = 0;
    while k < 3
        invariant
            k <= 3,
            half_start == 0 || half_start == 3,
            derived_fits(field@, half_start as int, derived@),
            new_field@.len() == 6,
            forall|j: int|
                0 <= j < 6 ==> #[trigger] new_field@[j] == (if half_start <= j < half_start + k && field@[j] is Some {
                    spec_result_slot(derived@[j - half_start]->0@)
                } else {
                    field@[j]
                }),
        decreases 3 - k,
    {
        let i = half_start + k;
        let ghost prev = new_field@;
        match &derived[k] {
            Some(result) => {
                assert(field@[i as int] is Some);
                if result.is_num(0) {
                    new_field.set_slot(i, FieldBasis::none());
                } else {
                    new_field.set_slot(i, FieldBasis::new(result));
                }
            },
            None => {
                assert(field@[i as int] is None);
            },
        }
        k = k + 1;
    }
    assert(new_field@ =~= spec_half_field(field@, half_start as int, derived@));
    new_field
}

/// the replacement score of slot `j` turned into its derivative, 0 when empty
pub open spec fn spec_half_slot_score(
    player_num: u32,
    field: Seq<Option<BasisModel>>,
    j: int,
    result: Option<Basis>,
) -> int {
    if field[j] is Some {
        spec_score_replacement(player_num, j, result->0@, field)
    } else {
        0
    }
}

/// the score of a Nabla/Laplacian on one side: the replacement score of each
/// occupied slot, plus the slot-count bonus of the field it leaves
pub open spec fn spec_score_half(
    player_num: u32,
    half_start: int,
    derived: Seq<Option<Basis>>,
    field: Seq<Option<BasisModel>>,
    resulting_field: Seq<Option<BasisModel>>,
) -> int {
    spec_half_slot_score(player_num, field, half_start, derived[0]) + spec_half_slot_score(
        player_num,
        field,
        half_start + 1,
        derived[1],
    ) + spec_half_slot_score(player_num, field, half_start + 2, derived[2]) + spec_strategic_slot_bonus(
        player_num,
        resulting_field,
    )
}

/// scores a Nabla/Laplacian play across the 3 slots of the targeted side,
/// from `player_num`'s point of view
pub fn score_half(
    player_num: u32,
    half_start: usize,
    derived: &Vec<Option<Basis>>,
    field: &Field,
    resulting_field: &Field,
) -> (score: i64)
    requires
        half_start == 0 || half_start == 3,
        field_sizes_fit(field@),
        derived_fits(field@, half_start as int, derived@),
    ensures
        score == spec_score_half(player_num, half_start as int, derived@, field@, resulting_field@),
{
    let mut per_slot: i64 = 0;
    let mut k: usize = 0;
    while k < 3
        invariant
            k <= 3,
            half_start == 0 || half_start == 3,
            field_sizes_fit(field@),
            derived_fits(field@, half_start as int, derived@),
            -0x100_0000_0000 * k <= per_slot <= 0x100_0000_0000 * k,
            per_slot == (if k >= 1 { spec_half_slot_score(player_num, field@, half_start as int, derived@[0]) } else { 0 })
                + (if k >= 2 { spec_half_slot_score(player_num, field@, half_start + 1, derived@[1]) } else { 0 })
                + (if k >= 3 { spec_half_slot_score(player_num, field@, half_start + 2, derived@[2]) } else { 0 }),
        decreases 3 - k,
    {
        let i = half_start + k;
        match &derived[k] {
            Some(result) => {
                assert(field@[i as int] is Some);
                proof {
                    lemma_score_replacement_bounded(player_num, i as int, result@, field@);
                }
                per_slot = per_slot + score_replacement(player_num, i, result, field);
            },
            None => {
                assert(field@[i as int] is None);
            },
        }
        k = k + 1;
    }
    proof {
        lemma_count_occupied_bound(resulting_field@, player_num, true, 6);
        lemma_count_occupied_bound(resulting_field@, player_num, false, 6);
    }
    per_slot + strategic_slot_bonus(player_num, resulting_field)
}

/// the candidate of a Nabla/Laplacian at hand position `i` on the side
/// starting at `half_start` (see half_field_candidate)
pub open spec fn spec_half_model(
    player_num: u32,
    hand: Seq<Card>,
    field: Seq<Option<BasisModel>>,
    i: int,
    half_start: int,
    derived: Seq<Option<Basis>>,
    situation_bonus: int,
    allow_linear_dependence: bool,
) -> CandidateModel {
    let resulting = spec_predict_resulting_field(spec_half_field(field, half_start, derived), allow_linear_dependence);
    spec_move_model(
        player_num,
        field,
        seq![spec_hand_id(player_num, i), spec_field_id(half_start)],
        spec_score_half(player_num, half_start, derived, field, resulting) + situation_bonus
            + spec_remaining_categories(hand, seq![i as usize], 7) * 3,
        resulting,
    )
}

/// the candidate for player `player_num` playing the Nabla/Laplacian at hand
/// position `i` on the side starting at `half_start`, whose occupied slots
/// become `derived`; `opponent_can_win_next` starts false, to be set by
/// whoever searches the opponent's replies
pub fn half_field_candidate(
    player_num: u32,
    hand: &[Card],
    field: &Field,
    i: usize,
    half_start: usize,
    derived: &Vec<Option<Basis>>,
    situation_bonus: i64,
    allow_linear_dependence: bool,
) -> (mv: AiMove<i64>)
    requires
        player_num == 1 || player_num == 2,
        i < 7,
        half_start == 0 || half_start == 3,
        field_sizes_fit(field@),
        derived_fits(field@, half_start as int, derived@),
        -0x1000_0000_0000 <= situation_bonus <= 0x1000_0000_0000,
    ensures
        mv.clicks@.len() == 2,
        spec_hand_slot(mv.clicks@[0], player_num) == Some(i as int),
        spec_field_slot(mv.clicks@[1]) == Some(half_start as int),
        mv.resulting_field@ == spec_predict_resulting_field(
            spec_half_field(field@, half_start as int, derived@),
            allow_linear_dependence,
        ),
        mv.score == spec_score_half(player_num, half_start as int, derived@, field@, mv.resulting_field@)
            + situation_bonus + spec_remaining_categories(hand@, seq![i], 7) * 3,
        candidate_flags_hold(mv, player_num, field@),
        field_sizes_fit(mv.resulting_field@),
        -0x4000_0000_0000 <= mv.score <= 0x4000_0000_0000,
        candidate_model(mv) == spec_half_model(
            player_num,
            hand@,
            field@,
            i as int,
            half_start as int,
            derived@,
            situation_bonus as int,
            allow_linear_dependence,
        ),
{
    let half = apply_half_to_field(half_start, derived, field);
    assert(field_sizes_fit(half@)) by {
        assert forall|j: int| 0 <= j < 6 implies spec_slot_size(#[trigger] half@[j]) <= u32::MAX by {
            if half_start <= j < half_start + 3 && field@[j] is Some {
                let k = j - half_start;
                assert(derived@[k] is Some);
            }
        }
    }
    let resulting_field = predict_resulting_field(half, allow_linear_dependence);
    proof {
        lemma_predict_keeps_fit(half@, allow_linear_dependence);
    }
    let half_score = score_half(player_num, half_start, derived, field, &resulting_field);
    let mut played: Vec<usize> = Vec::new();
    played.push(i);
    assert(played@ =~= seq![i]);
    let flexibility = flexibility_bonus(hand, played.as_slice());
    proof {
        lemma_remaining_categories_bound(hand@, played@, 7);
        lemma_count_occupied_bound(resulting_field@, player_num, true, 6);
        lemma_count_occupied_bound(resulting_field@, player_num, false, 6);
        assert forall|k: int| 0 <= k < 3 implies -0x20_0000_0000 <= #[trigger] spec_half_slot_score(
            player_num,
            field@,
            half_start + k,
            derived@[k],
        ) <= 0x20_0000_0000 by {
            if field@[half_start + k] is Some {
                lemma_score_replacement_bounded(player_num, half_start + k, derived@[k]->0@, field@);
            }
        }
        assert(spec_half_slot_score(player_num, field@, half_start + 0, derived@[0]) == spec_half_slot_score(
            player_num,
            field@,
            half_start as int,
            derived@[0],
        ));
    }
    let wins_immediately = side_is_cleared(&resulting_field, opponent_of(player_num));
    let hurts = hurts_self_or_helps_opponent(player_num, field, &resulting_field);
    let mut clicks: Vec<RenderId> = Vec::new();
    clicks.push(hand_id(player_num, i));
    clicks.push(field_id(half_start));
    let mv = AiMove {
        clicks,
        score: half_score + situation_bonus + flexibility,
        resulting_field,
        wins_immediately,
        hurts_self_or_helps_opponent: hurts,
        opponent_can_win_next: false,
        opponent_best_reply: 0,
    };
    assert(mv.wins_immediately == spec_side_is_cleared(mv.resulting_field@, spec_opponent_of(player_num)));
    assert(mv.hurts_self_or_helps_opponent == exists|j: int|
        0 <= j < 6 && #[trigger] slot_hurts_or_helps(
            player_num,
            j,
            spec_slot_size(field@[j]),
            spec_slot_size(mv.resulting_field@[j]),
        ));
    assert(mv.clicks@ =~= seq![spec_hand_id(player_num, i as int), spec_field_id(half_start as int)]);
    assert(candidate_model(mv) =~= spec_half_model(
        player_num,
        hand@,
        field@,
        i as int,
        half_start as int,
        derived@,
        situation_bonus as int,
        allow_linear_dependence,
    ));
    mv
}

/// every candidate satisfies `p`
pub open spec fn all_satisfy<S>(candidates: Seq<AiMove<S>>, p: spec_fn(AiMove<S>) -> bool) -> bool {
    forall|k: int| 0 <= k < candidates.len() ==> p(#[trigger] candidates[k])
}

/// a rule keeps every property that all of its input share
proof fn lemma_filter_if_any_keeps_all<S>(
    candidates: Seq<AiMove<S>>,
    pred: spec_fn(AiMove<S>) -> bool,
    p: spec_fn(AiMove<S>) -> bool,
)
    requires
        all_satisfy(candidates, p),
    ensures
        all_satisfy(spec_filter_if_any(candidates, pred), p),
{
    lemma_filter_if_any_sound(candidates, pred);
    let kept = spec_filter_if_any(candidates, pred);
    assert forall|k: int| 0 <= k < kept.len() implies p(#[trigger] kept[k]) by {
        assert(candidates.contains(kept[k]));
    }
}

/// a rule that some candidate satisfying `also` meets leaves only candidates
/// meeting it, and keeps that candidate
proof fn lemma_filter_if_any_met<S>(
    candidates: Seq<AiMove<S>>,
    pred: spec_fn(AiMove<S>) -> bool,
    witness: AiMove<S>,
)
    requires
        candidates.contains(witness),
        pred(witness),
    ensures
        all_satisfy(spec_filter_if_any(candidates, pred), pred),
        spec_filter_if_any(candidates, pred).contains(witness),
{
    let j = choose|j: int| 0 <= j < candidates.len() && candidates[j] == witness;
    lemma_filter_if_any_sound(candidates, pred);
    assert(pred(candidates[j]));
    let kept = spec_filter_if_any(candidates, pred);
    assert forall|k: int| 0 <= k < kept.len() implies pred(#[trigger] kept[k]) by {}
}

/// The hard rules never pick a worse move than an avoidable one: if some
/// candidate neither loses by the AI's own hand nor hands the opponent a win,
/// no such move survives the rules; and if some candidate also neither hurts
/// the AI nor helps the opponent, every move left to rank has all three
/// properties. (An outright win, taken by tier 1 before these rules, ends the
/// game at once.)
pub proof fn lemma_hard_filters_avoid_avoidable_harm<S>(
    candidates: Seq<AiMove<S>>,
    field: Seq<Option<BasisModel>>,
    i: int,
)
    requires
        0 <= i < candidates.len(),
        !is_self_defeating(candidates[i]),
        !candidates[i].opponent_can_win_next,
    ensures
        all_satisfy(spec_not_self_defeating(candidates), |mv: AiMove<S>| !is_self_defeating(mv)),
        all_satisfy(
            spec_safety_filters(spec_not_self_defeating(candidates), field),
            |mv: AiMove<S>| !is_self_defeating(mv) && !mv.opponent_can_win_next,
        ),
        !candidates[i].hurts_self_or_helps_opponent ==> all_satisfy(
            spec_safety_filters(spec_not_self_defeating(candidates), field),
            |mv: AiMove<S>| !mv.hurts_self_or_helps_opponent,
        ),
{
    let w = candidates[i];
    let p0 = |mv: AiMove<S>| !is_self_defeating(mv);
    let p2 = |mv: AiMove<S>| !mv.opponent_can_win_next;
    let p3 = |mv: AiMove<S>| !mv.hurts_self_or_helps_opponent;
    let p4 = |mv: AiMove<S>| is_progressive(field, mv.resulting_field@);
    let p5 = |mv: AiMove<S>| !strengthens_opponent(field, mv.resulting_field@);
    let both = |mv: AiMove<S>| !is_self_defeating(mv) && !mv.opponent_can_win_next;
    assert(candidates.contains(w));
    lemma_filter_if_any_met(candidates, p0, w);
    let c1 = spec_filter_if_any(candidates, p0);
    lemma_filter_if_any_met(c1, p2, w);
    let c2 = spec_filter_if_any(c1, p2);
    assert(all_satisfy(c2, both)) by {
        lemma_filter_if_any_keeps_all(c1, p2, p0);
        assert forall|k: int| 0 <= k < c2.len() implies both(#[trigger] c2[k]) by {
            assert(p0(c2[k]));
            assert(p2(c2[k]));
        }
    }
    let c3 = spec_filter_if_any(c2, p3);
    lemma_filter_if_any_keeps_all(c2, p3, both);
    let c4 = spec_filter_if_any(c3, p4);
    lemma_filter_if_any_keeps_all(c3, p4, both);
    lemma_filter_if_any_keeps_all(c4, p5, both);
    if !w.hurts_self_or_helps_opponent {
        lemma_filter_if_any_met(c2, p3, w);
        lemma_filter_if_any_keeps_all(c3, p4, p3);
        lemma_filter_if_any_keeps_all(c4, p5, p3);
    }
}

/// what the expression engine makes of every move a hand can play on a
/// field, handed over as plain values: `None` where a move does not apply
pub struct CandidateOutcomes {
    /// at `i * 6 + t`: what the single-target card at hand position `i`
    /// (Derivative, Integral, Inverse, Log, Sqrt or a Limit) turns slot `t` into
    pub single: Vec<Option<Basis>>,
    /// at `i * 2 + h`: for the Nabla or Laplacian at hand position `i`, the
    /// derivatives (taken once, or twice for Laplacian) of the three slots of
    /// side `h` (0 for slots 0-2, 1 for slots 3-5), `None` for an empty slot
    pub half: Vec<Vec<Option<Basis>>>,
    /// at `((i * 7 + j) * 6 + t) * 2 + o`: what the Mult or Div at hand
    /// position `i` makes of slot `t`'s expression and the basis card at hand
    /// position `j`, the slot's expression first (`o` 0) or the card's (`o` 1)
    pub multi: Vec<Option<Basis>>,
}

/// what the single-target card at `i` turns slot `t` into
pub open spec fn single_outcome(outcomes: CandidateOutcomes, i: int, t: int) -> Option<Basis> {
    outcomes.single@[i * 6 + t]
}

/// the derivatives of side `h` for the half-field card at `i`
pub open spec fn half_outcome(outcomes: CandidateOutcomes, i: int, h: int) -> Seq<Option<Basis>> {
    outcomes.half@[i * 2 + h]@
}

/// what the Mult/Div at `i` makes of slot `t` and the card at `j`, in order `o`
pub open spec fn multi_outcome(outcomes: CandidateOutcomes, i: int, j: int, t: int, o: int) -> Option<Basis> {
    outcomes.multi@[((i * 7 + j) * 6 + t) * 2 + o]
}

/// an outcome is there and small enough to measure
pub open spec fn outcome_fits(outcome: Option<Basis>) -> bool {
    outcome matches Some(b) && (!spec_is_num(b@, 0) ==> spec_basis_size(b@) <= u32::MAX)
}

/// the cards that act on a single field slot of their choice
pub open spec fn is_single_target(card: Card) -> bool {
    match card {
        Card::DerivativeCard(DerivativeCard::Derivative) => true,
        Card::DerivativeCard(DerivativeCard::Integral) => true,
        Card::AlgebraicCard(AlgebraicCard::Inverse) => true,
        Card::AlgebraicCard(AlgebraicCard::Log) => true,
        Card::AlgebraicCard(AlgebraicCard::Sqrt) => true,
        Card::LimitCard(_) => true,
        _ => false,
    }
}

/// the cards that act on a whole side and are playable on turn `turn_number`:
/// Nabla, and Laplacian from the third turn on
pub open spec fn is_half_card(card: Card, turn_number: u32) -> bool {
    card == Card::DerivativeCard(DerivativeCard::Nabla) || (card == Card::DerivativeCard(
        DerivativeCard::Laplacian,
    ) && turn_number >= 2)
}

/// Mult and Div
pub open spec fn is_mult_div(card: Card) -> bool {
    card == Card::AlgebraicCard(AlgebraicCard::Mult) || card == Card::AlgebraicCard(AlgebraicCard::Div)
}

/// the outcomes hold a value for every move the hand can play on the field
pub open spec fn outcomes_cover(
    hand: Seq<Card>,
    field: Seq<Option<BasisModel>>,
    turn_number: u32,
    outcomes: CandidateOutcomes,
) -> bool {
    &&& hand.len() <= 7
    &&& outcomes.single@.len() == 42
    &&& outcomes.half@.len() == 14
    &&& outcomes.multi@.len() == 588
    &&& forall|i: int, t: int|
        0 <= i < hand.len() && 0 <= t < 6 && is_single_target(hand[i]) && field[t] is Some ==> outcome_fits(
            #[trigger] single_outcome(outcomes, i, t),
        )
    &&& forall|i: int, h: int|
        0 <= i < hand.len() && 0 <= h < 2 && is_half_card(hand[i], turn_number) ==> derived_fits(
            field,
            h * 3,
            #[trigger] half_outcome(outcomes, i, h),
        )
    &&& forall|i: int, j: int, t: int, o: int|
        0 <= i < hand.len() && 0 <= j < hand.len() && 0 <= t < 6 && 0 <= o < 2 && is_mult_div(hand[i])
            && hand[j] is BasisCard && field[t] is Some ==> outcome_fits(#[trigger] multi_outcome(outcomes, i, j, t, o))
}

/// the candidates of the single-target card at `i` on each occupied slot below
/// `n`, in slot order; a Limit card's score adds its limit strategy bonus
pub open spec fn spec_single_moves(
    player_num: u32,
    hand: Seq<Card>,
    field: Seq<Option<BasisModel>>,
    i: int,
    outcomes: CandidateOutcomes,
    situation_bonus: int,
    allow_linear_dependence: bool,
    n: int,
) -> Seq<CandidateModel>
    decreases n,
{
    if n <= 0 {
        Seq::empty()
    } else {
        let t = n - 1;
        let result = single_outcome(outcomes, i, t)->0@;
        spec_single_moves(player_num, hand, field, i, outcomes, situation_bonus, allow_linear_dependence, t) + if field[t] is Some {
            seq![
                spec_single_model(
                    player_num,
                    hand,
                    field,
                    seq![i as usize],
                    seq![spec_hand_id(player_num, i), spec_field_id(t)],
                    t,
                    result,
                    if hand[i] is LimitCard { spec_evaluate_limit_strategy(player_num, t, result, field) } else { 0 },
                    situation_bonus,
                    allow_linear_dependence,
                ),
            ]
        } else {
            Seq::empty()
        }
    }
}

/// the clicks of a Mult/Div at `i` combining slot `t` with the card at `j`:
/// the slot first (`o` 0) or the card first (`o` 1), then the done button
pub open spec fn multi_clicks(player_num: u32, i: int, j: int, t: int, o: int) -> Seq<RenderId> {
    if o == 0 {
        seq![spec_hand_id(player_num, i), spec_field_id(t), spec_hand_id(player_num, j), RenderId::Multidone]
    } else {
        seq![spec_hand_id(player_num, i), spec_hand_id(player_num, j), spec_field_id(t), RenderId::Multidone]
    }
}

/// the candidate of a Mult/Div at `i` combining slot `t` with the card at `j`
/// in order `o`
pub open spec fn spec_multi_model(
    player_num: u32,
    hand: Seq<Card>,
    field: Seq<Option<BasisModel>>,
    i: int,
    j: int,
    t: int,
    o: int,
    outcomes: CandidateOutcomes,
    situation_bonus: int,
    allow_linear_dependence: bool,
) -> CandidateModel {
    spec_single_model(
        player_num,
        hand,
        field,
        seq![i as usize, j as usize],
        multi_clicks(player_num, i, j, t, o),
        t,
        multi_outcome(outcomes, i, j, t, o)->0@,
        0,
        situation_bonus,
        allow_linear_dependence,
    )
}

/// the candidates of a Mult/Div at `i` with the basis card at `j`, on each
/// occupied slot below `n`, both orders for each slot
pub open spec fn spec_multi_row(
    player_num: u32,
    hand: Seq<Card>,
    field: Seq<Option<BasisModel>>,
    i: int,
    j: int,
    outcomes: CandidateOutcomes,
    situation_bonus: int,
    allow_linear_dependence: bool,
    n: int,
) -> Seq<CandidateModel>
    decreases n,
{
    if n <= 0 {
        Seq::empty()
    } else {
        let t = n - 1;
        spec_multi_row(player_num, hand, field, i, j, outcomes, situation_bonus, allow_linear_dependence, t) + if hand[j] is BasisCard && field[t] is Some {
            seq![
                spec_multi_model(player_num, hand, field, i, j, t, 0, outcomes, situation_bonus, allow_linear_dependence),
                spec_multi_model(player_num, hand, field, i, j, t, 1, outcomes, situation_bonus, allow_linear_dependence),
            ]
        } else {
            Seq::empty()
        }
    }
}

/// the candidates of a Mult/Div at `i` with each hand basis card below `m`
pub open spec fn spec_multi_moves(
    player_num: u32,
    hand: Seq<Card>,
    field: Seq<Option<BasisModel>>,
    i: int,
    outcomes: CandidateOutcomes,
    situation_bonus: int,
    allow_linear_dependence: bool,
    m: int,
) -> Seq<CandidateModel>
    decreases m,
{
    if m <= 0 {
        Seq::empty()
    } else {
        spec_multi_moves(player_num, hand, field, i, outcomes, situation_bonus, allow_linear_dependence, m - 1)
            + spec_multi_row(player_num, hand, field, i, m - 1, outcomes, situation_bonus, allow_linear_dependence, 6)
    }
}

/// the candidates of the card at hand position `i`, as the AI enumerates them
pub open spec fn spec_card_moves(
    player_num: u32,
    hand: Seq<Card>,
    field: Seq<Option<BasisModel>>,
    turn_number: u32,
    outcomes: CandidateOutcomes,
    i: int,
    situation_bonus: int,
    allow_linear_dependence: bool,
) -> Seq<CandidateModel> {
    let card = hand[i];
    if card is BasisCard {
        spec_basis_moves(player_num, hand, field, i, card->BasisCard_0, situation_bonus, allow_linear_dependence, 6)
    } else if is_half_card(card, turn_number) {
        seq![
            spec_half_model(player_num, hand, field, i, 0, half_outcome(outcomes, i, 0), situation_bonus, allow_linear_dependence),
            spec_half_model(player_num, hand, field, i, 3, half_outcome(outcomes, i, 1), situation_bonus, allow_linear_dependence),
        ]
    } else if is_mult_div(card) {
        spec_multi_moves(player_num, hand, field, i, outcomes, situation_bonus, allow_linear_dependence, hand.len() as int)
    } else if is_single_target(card) {
        spec_single_moves(player_num, hand, field, i, outcomes, situation_bonus, allow_linear_dependence, 6)
    } else {
        Seq::empty()
    }
}

/// the candidates of the cards at hand positions below `n`, card by card
pub open spec fn spec_candidates_upto(
    player_num: u32,
    hand: Seq<Card>,
    field: Seq<Option<BasisModel>>,
    turn_number: u32,
    outcomes: CandidateOutcomes,
    situation_bonus: int,
    allow_linear_dependence: bool,
    n: int,
) -> Seq<CandidateModel>
    decreases n,
{
    if n <= 0 {
        Seq::empty()
    } else {
        spec_candidates_upto(player_num, hand, field, turn_number, outcomes, situation_bonus, allow_linear_dependence, n - 1)
            + spec_card_moves(player_num, hand, field, turn_number, outcomes, n - 1, situation_bonus, allow_linear_dependence)
    }
}

/// every legal move `player_num` can play from `hand` on `field` on turn
/// `turn_number`, in the order the AI enumerates them: card by card in hand
/// order; a basis card (not Zero) on each empty slot; Nabla, and Laplacian
/// from the third turn on, on each side; Mult/Div with each basis card of the
/// hand on each occupied slot, in both orders; every other single-target card
/// on each occupied slot
pub open spec fn spec_candidates(
    player_num: u32,
    hand: Seq<Card>,
    field: Seq<Option<BasisModel>>,
    turn_number: u32,
    outcomes: CandidateOutcomes,
    allow_linear_dependence: bool,
) -> Seq<CandidateModel> {
    spec_candidates_upto(
        player_num,
        hand,
        field,
        turn_number,
        outcomes,
        spec_evaluate_game_situation(player_num, hand, field),
        allow_linear_dependence,
        hand.len() as int,
    )
}

/// the situation bonus stays within a few hundred points
proof fn lemma_situation_bounded(player_num: u32, hand: Seq<Card>, field: Seq<Option<BasisModel>>)
    ensures
        -100 <= spec_evaluate_game_situation(player_num, hand, field) <= 280,
{
}

/// the limit strategy bonus stays within a few hundred points
proof fn lemma_limit_bonus_bounded(player_num: u32, target: int, result: BasisModel, field: Seq<Option<BasisModel>>)
    ensures
        -200 <= spec_evaluate_limit_strategy(player_num, target, result, field) <= 150,
{
}

/// what the single-target card at `i` turns slot `t` into
fn single_at(outcomes: &CandidateOutcomes, i: usize, t: usize) -> (outcome: &Option<Basis>)
    requires
        outcomes.single@.len() == 42,
        i < 7,
        t < 6,
    ensures
        *outcome == single_outcome(*outcomes, i as int, t as int),
{
    &outcomes.single[i * 6 + t]
}

/// the derivatives of side `h` for the half-field card at `i`
fn half_at(outcomes: &CandidateOutcomes, i: usize, h: usize) -> (derived: &Vec<Option<Basis>>)
    requires
        outcomes.half@.len() == 14,
        i < 7,
        h < 2,
    ensures
        derived@ == half_outcome(*outcomes, i as int, h as int),
{
    &outcomes.half[i * 2 + h]
}

/// what the Mult/Div at `i` makes of slot `t` and the card at `j`, in order `o`
fn multi_at(outcomes: &CandidateOutcomes, i: usize, j: usize, t: usize, o: usize) -> (outcome: &Option<Basis>)
    requires
        outcomes.multi@.len() == 588,
        i < 7,
        j < 7,
        t < 6,
        o < 2,
    ensures
        *outcome == multi_outcome(*outcomes, i as int, j as int, t as int, o as int),
{
    &outcomes.multi[((i * 7 + j) * 6 + t) * 2 + o]
}

/// the candidates of the single-target card at hand position `i`, on each
/// occupied slot in slot order
fn single_target_moves(
    player_num: u32,
    hand: &Vec<Card>,
    field: &Field,
    turn_number: u32,
    outcomes: &CandidateOutcomes,
    i: usize,
    situation_bonus: i64,
    allow_linear_dependence: bool,
) -> (moves: Vec<AiMove<i64>>)
    requires
        player_num == 1 || player_num == 2,
        i < hand@.len(),
        is_single_target(hand@[i as int]),
        field_sizes_fit(field@),
        outcomes_cover(hand@, field@, turn_number, *outcomes),
        -0x1000_0000_0000 <= situation_bonus <= 0x1000_0000_0000,
    ensures
        candidate_models(moves@) == spec_single_moves(
            player_num,
            hand@,
            field@,
            i as int,
            *outcomes,
            situation_bonus as int,
            allow_linear_dependence,
            6,
        ),
        candidates_well_formed(moves@, player_num, field@),
{
    let mut moves: Vec<AiMove<i64>> = Vec::new();
    let mut played: Vec<usize> = Vec::new();
    played.push(i);
    assert(played@ =~= seq![i]);
    let mut t: usize = 0;
    while t < 6
        invariant
            t <= 6,
            player_num == 1 || player_num == 2,
            i < hand@.len(),
            is_single_target(hand@[i as int]),
            field_sizes_fit(field@),
            outcomes_cover(hand@, field@, turn_number, *outcomes),
            -0x1000_0000_0000 <= situation_bonus <= 0x1000_0000_0000,
            played@ == seq![i],
            candidate_models(moves@) == spec_single_moves(
                player_num,
                hand@,
                field@,
                i as int,
                *outcomes,
                situation_bonus as int,
                allow_linear_dependence,
                t as int,
            ),
            candidates_well_formed(moves@, player_num, field@),
        decreases 6 - t,
    {
        let ghost before = moves@;
        if field.basis[t].basis.is_some() {
            assert(outcome_fits(single_outcome(*outcomes, i as int, t as int)));
            match single_at(outcomes, i, t) {
                Some(result) => {
                    let mut clicks: Vec<RenderId> = Vec::new();
                    clicks.push(hand_id(player_num, i));
                    clicks.push(field_id(t));
                    assert(clicks@ =~= seq![spec_hand_id(player_num, i as int), spec_field_id(t as int)]);
                    let mut mv = single_target_candidate(
                        player_num,
                        hand.as_slice(),
                        field,
                        played.as_slice(),
                        clicks,
                        t,
                        result,
                        0,
                        situation_bonus,
                        allow_linear_dependence,
                    );
                    let limit_bonus: i64 = match hand[i] {
                        Card::LimitCard(limit_card) => {
                            let bonus = evaluate_limit_strategy(
                                player_num,
                                t,
                                &limit_card,
                                result,
                                field,
                                &mv.resulting_field,
                            );
                            proof {
                                lemma_limit_bonus_bounded(player_num, t as int, result@, field@);
                            }
                            bonus
                        },
                        _ => 0,
                    };
                    mv.score = mv.score + limit_bonus;
                    assert(candidate_model(mv) =~= spec_single_model(
                        player_num,
                        hand@,
                        field@,
                        seq![i as usize],
                        seq![spec_hand_id(player_num, i as int), spec_field_id(t as int)],
                        t as int,
                        result@,
                        if hand@[i as int] is LimitCard {
                            spec_evaluate_limit_strategy(player_num, t as int, result@, field@)
                        } else {
                            0
                        },
                        situation_bonus as int,
                        allow_linear_dependence,
                    ));
                    moves.push(mv);
                    assert(candidate_models(moves@) =~= candidate_models(before).push(candidate_model(mv)));
                },
                None => {},
            }
        }
        assert(candidate_models(moves@) =~= spec_single_moves(
            player_num,
            hand@,
            field@,
            i as int,
            *outcomes,
            situation_bonus as int,
            allow_linear_dependence,
            t + 1,
        ));
        t = t + 1;
    }
    moves
}

/// the candidates of the Mult/Div at hand position `i` with the basis card at
/// `j`, on each occupied slot in slot order, both orders for each slot
fn multi_row(
    player_num: u32,
    hand: &Vec<Card>,
    field: &Field,
    turn_number: u32,
    outcomes: &CandidateOutcomes,
    i: usize,
    j: usize,
    situation_bonus: i64,
    allow_linear_dependence: bool,
) -> (moves: Vec<AiMove<i64>>)
    requires
        player_num == 1 || player_num == 2,
        i < hand@.len(),
        j < hand@.len(),
        is_mult_div(hand@[i as int]),
        field_sizes_fit(field@),
        outcomes_cover(hand@, field@, turn_number, *outcomes),
        -0x1000_0000_0000 <= situation_bonus <= 0x1000_0000_0000,
    ensures
        candidate_models(moves@) == spec_multi_row(
            player_num,
            hand@,
            field@,
            i as int,
            j as int,
            *outcomes,
            situation_bonus as int,
            allow_linear_dependence,
            6,
        ),
        candidates_well_formed(moves@, player_num, field@),
{
    let mut moves: Vec<AiMove<i64>> = Vec::new();
    let is_basis = match hand[j] {
        Card::BasisCard(_) => true,
        _ => false,
    };
    let mut played: Vec<usize> = Vec::new();
    played.push(i);
    played.push(j);
    assert(played@ =~= seq![i, j]);
    let mut t: usize = 0;
    while t < 6
        invariant
            t <= 6,
            player_num == 1 || player_num == 2,
            i < hand@.len(),
            j < hand@.len(),
            is_mult_div(hand@[i as int]),
            is_basis == hand@[j as int] is BasisCard,
            field_sizes_fit(field@),
            outcomes_cover(hand@, field@, turn_number, *outcomes),
            -0x1000_0000_0000 <= situation_bonus <= 0x1000_0000_0000,
            played@ == seq![i, j],
            candidate_models(moves@) == spec_multi_row(
                player_num,
                hand@,
                field@,
                i as int,
                j as int,
                *outcomes,
                situation_bonus as int,
                allow_linear_dependence,
                t as int,
            ),
            candidates_well_formed(moves@, player_num, field@),
        decreases 6 - t,
    {
        let ghost before = moves@;
        if is_basis && field.basis[t].basis.is_some() {
            let mut o: usize = 0;
            while o < 2
                invariant
                    o <= 2,
                    t < 6,
                    player_num == 1 || player_num == 2,
                    i < hand@.len(),
                    j < hand@.len(),
                    is_mult_div(hand@[i as int]),
                    hand@[j as int] is BasisCard,
                    field@[t as int] is Some,
                    field_sizes_fit(field@),
                    outcomes_cover(hand@, field@, turn_number, *outcomes),
                    -0x1000_0000_0000 <= situation_bonus <= 0x1000_0000_0000,
                    played@ == seq![i, j],
                    candidate_models(moves@) == candidate_models(before) + Seq::new(
                        o as nat,
                        |q: int|
                            spec_multi_model(
                                player_num,
                                hand@,
                                field@,
                                i as int,
                                j as int,
                                t as int,
                                q,
                                *outcomes,
                                situation_bonus as int,
                                allow_linear_dependence,
                            ),
                    ),
                    candidates_well_formed(moves@, player_num, field@),
                decreases 2 - o,
            {
                assert(outcome_fits(multi_outcome(*outcomes, i as int, j as int, t as int, o as int)));
                let ghost at_start = moves@;
                match multi_at(outcomes, i, j, t, o) {
                    Some(result) => {
                        let mut clicks: Vec<RenderId> = Vec::new();
                        clicks.push(hand_id(player_num, i));
                        if o == 0 {
                            clicks.push(field_id(t));
                            clicks.push(hand_id(player_num, j));
                        } else {
                            clicks.push(hand_id(player_num, j));
                            clicks.push(field_id(t));
                        }
                        clicks.push(RenderId::Multidone);
                        assert(clicks@ =~= multi_clicks(player_num, i as int, j as int, t as int, o as int));
                        let mv = single_target_candidate(
                            player_num,
                            hand.as_slice(),
                            field,
                            played.as_slice(),
                            clicks,
                            t,
                            result,
                            0,
                            situation_bonus,
                            allow_linear_dependence,
                        );
                        moves.push(mv);
                        assert(candidate_models(moves@) =~= candidate_models(at_start).push(candidate_model(mv)));
                    },
                    None => {},
                }
                assert(candidate_models(moves@) =~= candidate_models(before) + Seq::new(
                    (o + 1) as nat,
                    |q: int|
                        spec_multi_model(
                            player_num,
                            hand@,
                            field@,
                            i as int,
                            j as int,
                            t as int,
                            q,
                            *outcomes,
                            situation_bonus as int,
                            allow_linear_dependence,
                        ),
                ));
                o = o + 1;
            }
        }
        assert(candidate_models(moves@) =~= spec_multi_row(
            player_num,
            hand@,
            field@,
            i as int,
            j as int,
            *outcomes,
            situation_bonus as int,
            allow_linear_dependence,
            t + 1,
        ));
        t = t + 1;
    }
    moves
}

/// the candidates of the Mult/Div at hand position `i`, with each basis card
/// of the hand in hand order
fn multi_moves(
    player_num: u32,
    hand: &Vec<Card>,
    field: &Field,
    turn_number: u32,
    outcomes: &CandidateOutcomes,
    i: usize,
    situation_bonus: i64,
    allow_linear_dependence: bool,
) -> (moves: Vec<AiMove<i64>>)
    requires
        player_num == 1 || player_num == 2,
        i < hand@.len(),
        is_mult_div(hand@[i as int]),
        field_sizes_fit(field@),
        outcomes_cover(hand@, field@, turn_number, *outcomes),
        -0x1000_0000_0000 <= situation_bonus <= 0x1000_0000_0000,
    ensures
        candidate_models(moves@) == spec_multi_moves(
            player_num,
            hand@,
            field@,
            i as int,
            *outcomes,
            situation_bonus as int,
            allow_linear_dependence,
            hand@.len() as int,
        ),
        candidates_well_formed(moves@, player_num, field@),
{
    let mut moves: Vec<AiMove<i64>> = Vec::new();
    let mut j: usize = 0;
    while j < hand.len()
        invariant
            j <= hand@.len(),
            player_num == 1 || player_num == 2,
            i < hand@.len(),
            is_mult_div(hand@[i as int]),
            field_sizes_fit(field@),
            outcomes_cover(hand@, field@, turn_number, *outcomes),
            -0x1000_0000_0000 <= situation_bonus <= 0x1000_0000_0000,
            candidate_models(moves@) == spec_multi_moves(
                player_num,
                hand@,
                field@,
                i as int,
                *outcomes,
                situation_bonus as int,
                allow_linear_dependence,
                j as int,
            ),
            candidates_well_formed(moves@, player_num, field@),
        decreases hand@.len() - j,
    {
        let ghost before = moves@;
        let mut row = multi_row(
            player_num,
            hand,
            field,
            turn_number,
            outcomes,
            i,
            j,
            situation_bonus,
            allow_linear_dependence,
        );
        let ghost row_view = row@;
        moves.append(&mut row);
        assert(moves@ == before + row_view);
        assert(candidate_models(moves@) =~= candidate_models(before) + candidate_models(row_view));
        assert forall|k: int| 0 <= k < moves@.len() implies field_sizes_fit((#[trigger] moves@[k]).resulting_field@)
            && candidate_flags_hold(moves@[k], player_num, field@) by {
            if k >= before.len() {
                assert(moves@[k] == row_view[k - before.len()]);
            }
        }
        j = j + 1;
    }
    moves
}

/// the candidates of the card at hand position `i`
fn card_moves(
    player_num: u32,
    hand: &Vec<Card>,
    field: &Field,
    turn_number: u32,
    outcomes: &CandidateOutcomes,
    i: usize,
    situation_bonus: i64,
    allow_linear_dependence: bool,
) -> (moves: Vec<AiMove<i64>>)
    requires
        player_num == 1 || player_num == 2,
        i < hand@.len(),
        field_sizes_fit(field@),
        outcomes_cover(hand@, field@, turn_number, *outcomes),
        -0x1000_0000_0000 <= situation_bonus <= 0x1000_0000_0000,
    ensures
        candidate_models(moves@) == spec_card_moves(
            player_num,
            hand@,
            field@,
            turn_number,
            *outcomes,
            i as int,
            situation_bonus as int,
            allow_linear_dependence,
        ),
        candidates_well_formed(moves@, player_num, field@),
{
    let card = hand[i];
    match card {
        Card::BasisCard(basis_card) => {
            return basis_card_candidates(
                player_num,
                hand.as_slice(),
                field,
                i,
                basis_card,
                situation_bonus,
                allow_linear_dependence,
            );
        },
        _ => {},
    }
    let half_card = card == Card::DerivativeCard(DerivativeCard::Nabla) || (card == Card::DerivativeCard(
        DerivativeCard::Laplacian,
    ) && turn_number >= 2);
    if half_card {
        assert(derived_fits(field@, 0int * 3, half_outcome(*outcomes, i as int, 0)));
        assert(derived_fits(field@, 1int * 3, half_outcome(*outcomes, i as int, 1)));
        let mut moves: Vec<AiMove<i64>> = Vec::new();
        let first = half_field_candidate(
            player_num,
            hand.as_slice(),
            field,
            i,
            0,
            half_at(outcomes, i, 0),
            situation_bonus,
            allow_linear_dependence,
        );
        moves.push(first);
        let second = half_field_candidate(
            player_num,
            hand.as_slice(),
            field,
            i,
            3,
            half_at(outcomes, i, 1),
            situation_bonus,
            allow_linear_dependence,
        );
        moves.push(second);
        assert(candidate_models(moves@) =~= seq![candidate_model(first), candidate_model(second)]);
        return moves;
    }
    if card == Card::AlgebraicCard(AlgebraicCard::Mult) || card == Card::AlgebraicCard(AlgebraicCard::Div) {
        return multi_moves(
            player_num,
            hand,
            field,
            turn_number,
            outcomes,
            i,
            situation_bonus,
            allow_linear_dependence,
        );
    }
    let single = match card {
        Card::DerivativeCard(DerivativeCard::Derivative) | Card::DerivativeCard(DerivativeCard::Integral) => true,
        Card::AlgebraicCard(AlgebraicCard::Inverse) | Card::AlgebraicCard(AlgebraicCard::Log) | Card::AlgebraicCard(
            AlgebraicCard::Sqrt,
        ) => true,
        Card::LimitCard(_) => true,
        _ => false,
    };
    if single {
        return single_target_moves(
            player_num,
            hand,
            field,
            turn_number,
            outcomes,
            i,
            situation_bonus,
            allow_linear_dependence,
        );
    }
    let moves: Vec<AiMove<i64>> = Vec::new();
    assert(candidate_models(moves@) =~= Seq::<CandidateModel>::empty());
    moves
}

/// enumerates every legal move `player_num` can play from `hand` on `field` on
/// turn `turn_number`, with each move's predicted resulting field (after the
/// end-of-turn cleanup unless linear dependence is allowed), score and flags,
/// in the order of spec_candidates; what the expression engine makes of each
/// move is taken from `outcomes`. Whether the opponent can then win outright
/// is filled in by mark_losing_moves.
pub fn generate_candidates_for(
    player_num: u32,
    hand: &Vec<Card>,
    field: &Field,
    turn_number: u32,
    outcomes: &CandidateOutcomes,
    allow_linear_dependence: bool,
) -> (moves: Vec<AiMove<i64>>)
    requires
        player_num == 1 || player_num == 2,
        field_sizes_fit(field@),
        outcomes_cover(hand@, field@, turn_number, *outcomes),
    ensures
        candidate_models(moves@) == spec_candidates(
            player_num,
            hand@,
            field@,
            turn_number,
            *outcomes,
            allow_linear_dependence,
        ),
        candidates_well_formed(moves@, player_num, field@),
{
    let situation_bonus = evaluate_game_situation(player_num, hand, field);
    proof {
        lemma_situation_bounded(player_num, hand@, field@);
    }
    let mut moves: Vec<AiMove<i64>> = Vec::new();
    let mut i: usize = 0;
    while i < hand.len()
        invariant
            i <= hand@.len(),
            player_num == 1 || player_num == 2,
            field_sizes_fit(field@),
            outcomes_cover(hand@, field@, turn_number, *outcomes),
            situation_bonus == spec_evaluate_game_situation(player_num, hand@, field@),
            -100 <= situation_bonus <= 280,
            candidate_models(moves@) == spec_candidates_upto(
                player_num,
                hand@,
                field@,
                turn_number,
                *outcomes,
                situation_bonus as int,
                allow_linear_dependence,
                i as int,
            ),
            candidates_well_formed(moves@, player_num, field@),
        decreases hand@.len() - i,
    {
        let ghost before = moves@;
        let mut more = card_moves(
            player_num,
            hand,
            field,
            turn_number,
            outcomes,
            i,
            situation_bonus,
            allow_linear_dependence,
        );
        let ghost more_view = more@;
        moves.append(&mut more);
        assert(moves@ == before + more_view);
        assert(candidate_models(moves@) =~= candidate_models(before) + candidate_models(more_view));
        assert forall|k: int| 0 <= k < moves@.len() implies field_sizes_fit((#[trigger] moves@[k]).resulting_field@)
            && candidate_flags_hold(moves@[k], player_num, field@) by {
            if k >= before.len() {
                assert(moves@[k] == more_view[k - before.len()]);
            }
        }
        i = i + 1;
    }
    moves
}

/// whether some candidate of a list wins outright
pub open spec fn spec_some_win(moves: Seq<CandidateModel>) -> bool {
    exists|j: int| 0 <= j < moves.len() && (#[trigger] moves[j]).wins_immediately
}

/// the best score among some candidates, never below 0 (0 when there are none)
pub open spec fn spec_best_reply(moves: Seq<CandidateModel>) -> int
    decreases moves.len(),
{
    if moves.len() == 0 {
        0
    } else {
        let rest = spec_best_reply(moves.drop_last());
        if moves.last().score > rest { moves.last().score } else { rest }
    }
}

/// the single best score among the candidates, never below 0: how dangerous a
/// position is for whoever is left facing these replies (0, neutral, when
/// there are none)
pub fn best_reply_score(replies: &Vec<AiMove<i64>>) -> (best: i64)
    ensures
        best == spec_best_reply(candidate_models(replies@)),
        best >= 0,
        forall|k: int| 0 <= k < replies@.len() ==> best >= (#[trigger] replies@[k]).score,
        best == 0 || exists|k: int| 0 <= k < replies@.len() && (#[trigger] replies@[k]).score == best,
{
    let ghost models = candidate_models(replies@);
    let mut best: i64 = 0;
    let mut k: usize = 0;
    while k < replies.len()
        invariant
            k <= replies@.len(),
            models == candidate_models(replies@),
            best == spec_best_reply(models.take(k as int)),
            best == 0 || exists|m: int| 0 <= m < k && (#[trigger] replies@[m]).score == best,
        decreases replies@.len() - k,
    {
        assert(models.take(k + 1).drop_last() =~= models.take(k as int));
        assert(models.take(k + 1).last() == candidate_model(replies@[k as int]));
        if replies[k].score > best {
            best = replies[k].score;
        }
        k = k + 1;
    }
    assert(models.take(k as int) =~= models);
    proof {
        lemma_best_reply_is_the_maximum(models);
        assert forall|m: int| 0 <= m < replies@.len() implies best >= (#[trigger] replies@[m]).score by {
            assert(models[m].score == replies@[m].score);
        }
    }
    best
}

/// The best reply is the largest reply score, or 0 when none is positive (or
/// there are none): at least 0 and at least every score, and either 0 or one
/// of the scores.
pub proof fn lemma_best_reply_is_the_maximum(moves: Seq<CandidateModel>)
    ensures
        spec_best_reply(moves) >= 0,
        forall|k: int| 0 <= k < moves.len() ==> spec_best_reply(moves) >= (#[trigger] moves[k]).score,
        spec_best_reply(moves) == 0 || exists|k: int|
            0 <= k < moves.len() && (#[trigger] moves[k]).score == spec_best_reply(moves),
    decreases moves.len(),
{
    if moves.len() > 0 {
        let rest = moves.drop_last();
        lemma_best_reply_is_the_maximum(rest);
        assert forall|k: int| 0 <= k < moves.len() implies spec_best_reply(moves) >= (#[trigger] moves[k]).score by {
            if k < moves.len() - 1 {
                assert(moves[k] == rest[k]);
            }
        }
        if spec_best_reply(moves) != 0 && spec_best_reply(moves) != moves.last().score {
            let k = choose|k: int| 0 <= k < rest.len() && (#[trigger] rest[k]).score == spec_best_reply(rest);
            assert(moves[k] == rest[k]);
        }
    }
}

/// a candidate with `opponent_can_win_next` set to `flag` and the opponent's
/// best reply to `best`
pub open spec fn with_opponent_win(m: CandidateModel, flag: bool, best: int) -> CandidateModel {
    CandidateModel {
        clicks: m.clicks,
        score: m.score,
        resulting_field: m.resulting_field,
        wins_immediately: m.wins_immediately,
        hurts_self_or_helps_opponent: m.hurts_self_or_helps_opponent,
        opponent_can_win_next: flag,
        opponent_best_reply: best,
    }
}

/// marks each of the AI's candidates with what the opponent (player 1),
/// holding `opponent_hand`, could reply on its resulting field on the next
/// turn, from all of the opponent's candidates there (generate_candidates_for,
/// with `reply_outcomes[k]` for the `k`-th candidate's field): whether some
/// reply wins outright, and the best score a reply reaches (best_reply_score)
pub fn mark_losing_moves(
    candidates: Vec<AiMove<i64>>,
    opponent_hand: &Vec<Card>,
    turn_number: u32,
    reply_outcomes: &Vec<CandidateOutcomes>,
    allow_linear_dependence: bool,
) -> (marked: Vec<AiMove<i64>>)
    requires
        turn_number < u32::MAX,
        reply_outcomes@.len() == candidates@.len(),
        forall|k: int|
            0 <= k < candidates@.len() ==> field_sizes_fit((#[trigger] candidates@[k]).resulting_field@)
                && outcomes_cover(
                opponent_hand@,
                candidates@[k].resulting_field@,
                (turn_number + 1) as u32,
                reply_outcomes@[k],
            ),
    ensures
        marked@.len() == candidates@.len(),
        forall|k: int| 0 <= k < marked@.len() ==> score_in_range((#[trigger] marked@[k]).opponent_best_reply),
        forall|k: int|
            0 <= k < marked@.len() ==> candidate_model(#[trigger] marked@[k]) == with_opponent_win(
                candidate_model(candidates@[k]),
                spec_some_win(
                    spec_candidates(
                        1,
                        opponent_hand@,
                        candidates@[k].resulting_field@,
                        (turn_number + 1) as u32,
                        reply_outcomes@[k],
                        allow_linear_dependence,
                    ),
                ),
                spec_best_reply(
                    spec_candidates(
                        1,
                        opponent_hand@,
                        candidates@[k].resulting_field@,
                        (turn_number + 1) as u32,
                        reply_outcomes@[k],
                        allow_linear_dependence,
                    ),
                ),
            ),
{
    let ghost orig = candidates@;
    let mut rest = candidates;
    let mut marked: Vec<AiMove<i64>> = Vec::new();
    let mut k: usize = 0;
    while k < reply_outcomes.len()
        invariant
            turn_number < u32::MAX,
            reply_outcomes@.len() == orig.len(),
            k <= orig.len(),
            rest@ == orig.skip(k as int),
            marked@.len() == k,
            forall|m: int| 0 <= m < k ==> score_in_range((#[trigger] marked@[m]).opponent_best_reply),
            forall|m: int|
                0 <= m < orig.len() ==> field_sizes_fit((#[trigger] orig[m]).resulting_field@) && outcomes_cover(
                    opponent_hand@,
                    orig[m].resulting_field@,
                    (turn_number + 1) as u32,
                    reply_outcomes@[m],
                ),
            forall|m: int|
                0 <= m < k ==> candidate_model(#[trigger] marked@[m]) == with_opponent_win(
                    candidate_model(orig[m]),
                    spec_some_win(
                        spec_candidates(
                            1,
                            opponent_hand@,
                            orig[m].resulting_field@,
                            (turn_number + 1) as u32,
                            reply_outcomes@[m],
                            allow_linear_dependence,
                        ),
                    ),
                    spec_best_reply(
                        spec_candidates(
                            1,
                            opponent_hand@,
                            orig[m].resulting_field@,
                            (turn_number + 1) as u32,
                            reply_outcomes@[m],
                            allow_linear_dependence,
                        ),
                    ),
                ),
        decreases orig.len() - k,
    {
        let mut mv = rest.remove(0);
        assert(mv == orig[k as int]);
        assert(rest@ =~= orig.skip(k + 1));
        assert(field_sizes_fit(orig[k as int].resulting_field@));
        let replies = generate_candidates_for(
            1,
            opponent_hand,
            &mv.resulting_field,
            turn_number + 1,
            &reply_outcomes[k],
            allow_linear_dependence,
        );
        let wins = has_winning_move(&replies);
        let best = best_reply_score(&replies);
        proof {
            let models = candidate_models(replies@);
            if wins {
                let j = choose|j: int| 0 <= j < replies@.len() && (#[trigger] replies@[j]).wins_immediately;
                assert(models[j].wins_immediately);
            }
            if spec_some_win(models) {
                let j = choose|j: int| 0 <= j < models.len() && (#[trigger] models[j]).wins_immediately;
                assert(replies@[j].wins_immediately);
            }
        }
        assert(score_in_range(best)) by {
            if best != 0 {
                let j = choose|j: int| 0 <= j < replies@.len() && (#[trigger] replies@[j]).score == best;
                assert(score_in_range(replies@[j].score));
            }
        }
        let ghost before = candidate_model(mv);
        mv.opponent_can_win_next = wins;
        mv.opponent_best_reply = best;
        assert(candidate_model(mv) =~= with_opponent_win(before, wins, best as int));
        marked.push(mv);
        k = k + 1;
    }
    marked
}

/// `x` inserted into a list kept in descending key order, after every entry
/// whose key is at least its own (so equal keys keep their order)
pub open spec fn spec_insert_desc(sorted: Seq<(int, AiMove<i64>)>, x: (int, AiMove<i64>)) -> Seq<(int, AiMove<i64>)>
    decreases sorted.len(),
{
    if sorted.len() == 0 {
        seq![x]
    } else if sorted[0].0 < x.0 {
        seq![x] + sorted
    } else {
        seq![sorted[0]] + spec_insert_desc(sorted.drop_first(), x)
    }
}

/// a list sorted by descending key, equal keys keeping their order (a stable
/// sort)
pub open spec fn spec_sort_desc(items: Seq<(int, AiMove<i64>)>) -> Seq<(int, AiMove<i64>)>
    decreases items.len(),
{
    if items.len() == 0 {
        Seq::empty()
    } else {
        spec_insert_desc(spec_sort_desc(items.drop_last()), items.last())
    }
}

/// candidates paired with their keys
pub open spec fn keyed(keys: Seq<i64>, moves: Seq<AiMove<i64>>) -> Seq<(int, AiMove<i64>)> {
    Seq::new(moves.len(), |k: int| (keys[k] as int, moves[k]))
}

/// the candidates of a keyed list
pub open spec fn unkeyed(items: Seq<(int, AiMove<i64>)>) -> Seq<AiMove<i64>> {
    items.map_values(|p: (int, AiMove<i64>)| p.1)
}

/// the keys of a keyed list
pub open spec fn keys_of(items: Seq<(int, AiMove<i64>)>) -> Seq<int> {
    items.map_values(|p: (int, AiMove<i64>)| p.0)
}

/// inserting at the first position whose key is below the new one is the
/// stable descending insertion
proof fn lemma_insert_desc_at(sorted: Seq<(int, AiMove<i64>)>, x: (int, AiMove<i64>), p: int)
    requires
        0 <= p <= sorted.len(),
        forall|j: int| 0 <= j < p ==> (#[trigger] sorted[j]).0 >= x.0,
        p < sorted.len() ==> sorted[p].0 < x.0,
    ensures
        spec_insert_desc(sorted, x) == sorted.insert(p, x),
    decreases sorted.len(),
{
    if sorted.len() == 0 {
        assert(sorted.insert(p, x) =~= seq![x]);
    } else if sorted[0].0 < x.0 {
        assert(p == 0);
        assert(sorted.insert(p, x) =~= seq![x] + sorted);
    } else {
        let rest = sorted.drop_first();
        assert(p >= 1);
        assert forall|j: int| 0 <= j < p - 1 implies (#[trigger] rest[j]).0 >= x.0 by {
            assert(rest[j] == sorted[j + 1]);
        }
        lemma_insert_desc_at(rest, x, p - 1);
        assert(seq![sorted[0]] + rest.insert(p - 1, x) =~= sorted.insert(p, x));
    }
}

/// sorts candidates by descending key, equal keys keeping their order
fn sort_desc(moves: Vec<AiMove<i64>>, keys: Vec<i64>) -> (sorted: (Vec<AiMove<i64>>, Vec<i64>))
    requires
        keys@.len() == moves@.len(),
    ensures
        sorted.0@.len() == sorted.1@.len(),
        keyed(sorted.1@, sorted.0@) == spec_sort_desc(keyed(keys@, moves@)),
{
    let ghost input = keyed(keys@, moves@);
    let total = moves.len();
    let mut rest = moves;
    let mut rest_keys = keys;
    let mut out: Vec<AiMove<i64>> = Vec::new();
    let mut out_keys: Vec<i64> = Vec::new();
    let mut k: usize = 0;
    while rest.len() > 0
        invariant
            rest@.len() == rest_keys@.len(),
            input.len() == total,
            k + rest@.len() == input.len(),
            keyed(rest_keys@, rest@) == input.skip(k as int),
            out@.len() == out_keys@.len(),
            keyed(out_keys@, out@) == spec_sort_desc(input.take(k as int)),
        decreases rest@.len(),
    {
        let ghost sorted_before = keyed(out_keys@, out@);
        let ghost rest_before = keyed(rest_keys@, rest@);
        let mv = rest.remove(0);
        let key = rest_keys.remove(0);
        let ghost x = (key as int, mv);
        assert(rest_before[0] == x);
        assert(input.skip(k as int)[0] == x);
        assert forall|j: int| 0 <= j < rest@.len() implies #[trigger] keyed(rest_keys@, rest@)[j] == input.skip(k + 1)[j] by {
            assert(keyed(rest_keys@, rest@)[j] == rest_before[j + 1]);
            assert(rest_before[j + 1] == input.skip(k as int)[j + 1]);
        }
        assert(keyed(rest_keys@, rest@) =~= input.skip(k + 1));
        let mut p: usize = 0;
        while p < out_keys.len() && out_keys[p] >= key
            invariant
                p <= out_keys@.len(),
                out@.len() == out_keys@.len(),
                forall|j: int| 0 <= j < p ==> out_keys@[j] >= key,
            decreases out_keys@.len() - p,
        {
            p = p + 1;
        }
        proof {
            assert forall|j: int| 0 <= j < p implies (#[trigger] sorted_before[j]).0 >= x.0 by {}
            lemma_insert_desc_at(sorted_before, x, p as int);
            assert(input.take(k + 1).drop_last() =~= input.take(k as int));
            assert(input.take(k + 1).last() == x);
        }
        out.insert(p, mv);
        out_keys.insert(p, key);
        assert(keyed(out_keys@, out@) =~= sorted_before.insert(p as int, x));
        k = k + 1;
    }
    assert(input.take(k as int) =~= input);
    (out, out_keys)
}

/// the keys of a list: each candidate's score
pub open spec fn score_keys(moves: Seq<AiMove<i64>>) -> Seq<i64> {
    moves.map_values(|mv: AiMove<i64>| mv.score)
}

/// how many of the best-scored candidates get the opponent lookahead on Medium
pub const MEDIUM_LOOKAHEAD_POOL: usize = 15;

/// the lookahead ranking key, in tenths of a point: ten times the candidate's
/// score, less its opponent's best reply where the lookahead applies
/// (position `k` within `pool` of the score ranking)
pub open spec fn spec_lookahead_key(mv: AiMove<i64>, k: int, pool: int) -> int {
    10 * mv.score - (if k < pool { mv.opponent_best_reply as int } else { 0 })
}

/// a score or reply small enough that ten times a score, less a reply, fits in
/// 64 bits (the scores of generated candidates stay far inside this range)
pub open spec fn score_in_range(x: i64) -> bool {
    -0x0B00_0000_0000_0000 <= x <= 0x0B00_0000_0000_0000
}

/// every candidate's score and opponent reply are within range
pub open spec fn scores_in_range(moves: Seq<AiMove<i64>>) -> bool {
    forall|k: int|
        0 <= k < moves.len() ==> score_in_range((#[trigger] moves[k]).score) && score_in_range(
            moves[k].opponent_best_reply,
        )
}

/// re-ranks candidates already sorted by score, subtracting a tenth of the
/// opponent's best reply from each of the first `pool` (so the AI stops
/// walking into moves that hand the opponent an even better follow-up), and
/// sorting again by that adjusted score, ties keeping their order
pub fn apply_lookahead(by_score: Vec<AiMove<i64>>, pool: usize) -> (ranked: Vec<AiMove<i64>>)
    requires
        scores_in_range(by_score@),
    ensures
        ranked@ == unkeyed(
            spec_sort_desc(
                Seq::new(
                    by_score@.len(),
                    |k: int| (spec_lookahead_key(by_score@[k], k, pool as int), by_score@[k]),
                ),
            ),
        ),
{
    let ghost input = by_score@;
    let mut keys: Vec<i64> = Vec::new();
    let mut k: usize = 0;
    while k < by_score.len()
        invariant
            k <= by_score@.len(),
            by_score@ == input,
            scores_in_range(input),
            keys@.len() == k,
            forall|m: int| 0 <= m < k ==> #[trigger] keys@[m] == spec_lookahead_key(input[m], m, pool as int),
        decreases by_score@.len() - k,
    {
        let mv = &by_score[k];
        assert(score_in_range(input[k as int].score) && score_in_range(input[k as int].opponent_best_reply));
        let key = if k < pool { 10 * mv.score - mv.opponent_best_reply } else { 10 * mv.score };
        keys.push(key);
        k = k + 1;
    }
    let sorted = sort_desc(by_score, keys);
    proof {
        assert(keyed(keys@, input) =~= Seq::new(
            input.len(),
            |k: int| (spec_lookahead_key(input[k], k, pool as int), input[k]),
        ));
        assert(unkeyed(keyed(sorted.1@, sorted.0@)) =~= sorted.0@);
    }
    sorted.0
}

/// how many of the best-ranked candidates Medium picks from: the top fifth,
/// rounded up, at least one
pub open spec fn spec_medium_pick_pool(len: nat) -> nat {
    let fifth = (len + 4) / 5;
    let pool = if fifth < 1 { 1 } else { fifth };
    if pool < len { pool } else { len }
}

/// the AI's ranking of what is left after the hard rules (see
/// apply_hard_filters), best first: by score on Easy; re-ranked by the
/// lookahead (see apply_lookahead) over every candidate on Hard and over the
/// MEDIUM_LOOKAHEAD_POOL best-scored ones on Medium
pub open spec fn spec_ranked(filtered: Seq<AiMove<i64>>, difficulty: AiDifficulty) -> Seq<AiMove<i64>> {
    let by_score = unkeyed(spec_sort_desc(keyed(score_keys(filtered), filtered)));
    let pool: int = if difficulty == AiDifficulty::Hard { by_score.len() as int } else { MEDIUM_LOOKAHEAD_POOL as int };
    if difficulty == AiDifficulty::Easy {
        by_score
    } else {
        unkeyed(
            spec_sort_desc(
                Seq::new(by_score.len(), |k: int| (spec_lookahead_key(by_score[k], k, pool), by_score[k])),
            ),
        )
    }
}

/// a sort keeps the candidates it sorts: every one it returns was there
proof fn lemma_sort_keeps_members(items: Seq<(int, AiMove<i64>)>)
    ensures
        spec_sort_desc(items).len() == items.len(),
        forall|k: int|
            0 <= k < spec_sort_desc(items).len() ==> items.contains(#[trigger] spec_sort_desc(items)[k]),
    decreases items.len(),
{
    if items.len() > 0 {
        let prev = items.drop_last();
        lemma_sort_keeps_members(prev);
        lemma_insert_keeps_members(spec_sort_desc(prev), items.last());
        let sorted = spec_sort_desc(items);
        assert forall|k: int| 0 <= k < sorted.len() implies items.contains(#[trigger] sorted[k]) by {
            if sorted[k] != items.last() {
                assert(spec_sort_desc(prev).contains(sorted[k]));
                let j = choose|j: int| 0 <= j < spec_sort_desc(prev).len() && spec_sort_desc(prev)[j] == sorted[k];
                assert(prev.contains(spec_sort_desc(prev)[j]));
                let m = choose|m: int| 0 <= m < prev.len() && prev[m] == sorted[k];
                assert(items[m] == sorted[k]);
            } else {
                assert(items[items.len() - 1] == sorted[k]);
            }
        }
    }
}

/// inserting adds exactly the new entry
proof fn lemma_insert_keeps_members(sorted: Seq<(int, AiMove<i64>)>, x: (int, AiMove<i64>))
    ensures
        spec_insert_desc(sorted, x).len() == sorted.len() + 1,
        forall|k: int|
            0 <= k < spec_insert_desc(sorted, x).len() ==> #[trigger] spec_insert_desc(sorted, x)[k] == x
                || sorted.contains(spec_insert_desc(sorted, x)[k]),
    decreases sorted.len(),
{
    if sorted.len() > 0 && !(sorted[0].0 < x.0) {
        let rest = sorted.drop_first();
        lemma_insert_keeps_members(rest, x);
        let out = spec_insert_desc(sorted, x);
        assert forall|k: int| 0 <= k < out.len() implies #[trigger] out[k] == x || sorted.contains(out[k]) by {
            if k == 0 {
                assert(sorted[0] == out[0]);
            } else {
                let inner = spec_insert_desc(rest, x);
                assert(out[k] == inner[k - 1]);
                if inner[k - 1] != x {
                    let j = choose|j: int| 0 <= j < rest.len() && rest[j] == inner[k - 1];
                    assert(sorted[j + 1] == out[k]);
                }
            }
        }
    } else if sorted.len() > 0 {
        let out = spec_insert_desc(sorted, x);
        assert forall|k: int| 0 <= k < out.len() implies #[trigger] out[k] == x || sorted.contains(out[k]) by {
            if k > 0 {
                assert(sorted[k - 1] == out[k]);
            }
        }
    }
}

/// the keys of a keyed list never increase along it
pub open spec fn keys_descend(items: Seq<(int, AiMove<i64>)>) -> bool {
    forall|i: int, j: int| 0 <= i < j < items.len() ==> (#[trigger] items[i]).0 >= (#[trigger] items[j]).0
}

/// inserting into a descending list keeps it descending
proof fn lemma_insert_keeps_descending(sorted: Seq<(int, AiMove<i64>)>, x: (int, AiMove<i64>))
    requires
        keys_descend(sorted),
    ensures
        keys_descend(spec_insert_desc(sorted, x)),
    decreases sorted.len(),
{
    if sorted.len() == 0 {
    } else if sorted[0].0 < x.0 {
        let out = spec_insert_desc(sorted, x);
        assert(out == seq![x] + sorted);
        assert forall|i: int, j: int| 0 <= i < j < out.len() implies (#[trigger] out[i]).0 >= (#[trigger] out[j]).0 by {
            assert(out[j] == sorted[j - 1]);
            if i > 0 {
                assert(out[i] == sorted[i - 1]);
            } else if j > 1 {
                assert(sorted[0].0 >= sorted[j - 1].0);
            }
        }
    } else {
        let rest = sorted.drop_first();
        assert forall|i: int, j: int| 0 <= i < j < rest.len() implies (#[trigger] rest[i]).0 >= (#[trigger] rest[j]).0 by {
            assert(rest[i] == sorted[i + 1] && rest[j] == sorted[j + 1]);
        }
        lemma_insert_keeps_descending(rest, x);
        lemma_insert_keeps_members(rest, x);
        let inner = spec_insert_desc(rest, x);
        let out = spec_insert_desc(sorted, x);
        assert(out == seq![sorted[0]] + inner);
        assert forall|i: int, j: int| 0 <= i < j < out.len() implies (#[trigger] out[i]).0 >= (#[trigger] out[j]).0 by {
            assert(out[j] == inner[j - 1]);
            if i > 0 {
                assert(out[i] == inner[i - 1]);
            } else if inner[j - 1] != x {
                let m = choose|m: int| 0 <= m < rest.len() && rest[m] == inner[j - 1];
                assert(sorted[m + 1] == rest[m]);
                assert(sorted[0].0 >= sorted[m + 1].0);
            }
        }
    }
}

/// a sorted list descends by key
proof fn lemma_sort_descends(items: Seq<(int, AiMove<i64>)>)
    ensures
        keys_descend(spec_sort_desc(items)),
    decreases items.len(),
{
    if items.len() > 0 {
        lemma_sort_descends(items.drop_last());
        lemma_insert_keeps_descending(spec_sort_desc(items.drop_last()), items.last());
    }
}

/// when every entry is keyed by `key` of its candidate, the sorted list's
/// candidates descend by `key`
proof fn lemma_sorted_by_key(items: Seq<(int, AiMove<i64>)>, key: spec_fn(AiMove<i64>) -> int)
    requires
        forall|k: int| 0 <= k < items.len() ==> (#[trigger] items[k]).0 == key(items[k].1),
    ensures
        forall|i: int, j: int|
            0 <= i < j < unkeyed(spec_sort_desc(items)).len() ==> key(
                #[trigger] unkeyed(spec_sort_desc(items))[i],
            ) >= key(#[trigger] unkeyed(spec_sort_desc(items))[j]),
{
    lemma_sort_descends(items);
    lemma_sort_keeps_members(items);
    let sorted = spec_sort_desc(items);
    let out = unkeyed(sorted);
    assert forall|k: int| 0 <= k < sorted.len() implies (#[trigger] sorted[k]).0 == key(sorted[k].1) by {
        let m = choose|m: int| 0 <= m < items.len() && items[m] == sorted[k];
        assert(items[m].0 == key(items[m].1));
    }
    assert forall|i: int, j: int| 0 <= i < j < out.len() implies key(#[trigger] out[i]) >= key(#[trigger] out[j]) by {
        assert(sorted[i].0 >= sorted[j].0);
        assert(sorted[i].0 == key(sorted[i].1));
        assert(sorted[j].0 == key(sorted[j].1));
    }
}

/// The AI ranks its remaining candidates best first: on Easy by descending
/// score, and on Hard by descending score less a tenth of the opponent's best
/// reply (counted in tenths), so Hard's pick, the first of them, is the best by
/// that measure.
pub proof fn lemma_ranking_puts_the_best_first(filtered: Seq<AiMove<i64>>, difficulty: AiDifficulty)
    ensures
        difficulty == AiDifficulty::Easy ==> forall|i: int, j: int|
            0 <= i < j < spec_ranked(filtered, difficulty).len() ==> (#[trigger] spec_ranked(
                filtered,
                difficulty,
            )[i]).score >= (#[trigger] spec_ranked(filtered, difficulty)[j]).score,
        difficulty == AiDifficulty::Hard ==> forall|i: int, j: int|
            0 <= i < j < spec_ranked(filtered, difficulty).len() ==> 10 * (#[trigger] spec_ranked(
                filtered,
                difficulty,
            )[i]).score - spec_ranked(filtered, difficulty)[i].opponent_best_reply >= 10 * (
            #[trigger] spec_ranked(filtered, difficulty)[j]).score - spec_ranked(
                filtered,
                difficulty,
            )[j].opponent_best_reply,
{
    let items = keyed(score_keys(filtered), filtered);
    let by_score = unkeyed(spec_sort_desc(items));
    let score_of = |mv: AiMove<i64>| mv.score as int;
    assert forall|k: int| 0 <= k < items.len() implies (#[trigger] items[k]).0 == score_of(items[k].1) by {}
    lemma_sorted_by_key(items, score_of);
    if difficulty == AiDifficulty::Hard {
        let pool = by_score.len() as int;
        let adjusted = Seq::new(by_score.len(), |k: int| (spec_lookahead_key(by_score[k], k, pool), by_score[k]));
        let looked_ahead = |mv: AiMove<i64>| 10 * mv.score - mv.opponent_best_reply;
        assert forall|k: int| 0 <= k < adjusted.len() implies (#[trigger] adjusted[k]).0 == looked_ahead(
            adjusted[k].1,
        ) by {}
        lemma_sorted_by_key(adjusted, looked_ahead);
        let ranked = spec_ranked(filtered, difficulty);
        assert(ranked == unkeyed(spec_sort_desc(adjusted)));
        assert forall|i: int, j: int| 0 <= i < j < ranked.len() implies 10 * (#[trigger] ranked[i]).score
            - ranked[i].opponent_best_reply >= 10 * (#[trigger] ranked[j]).score - ranked[j].opponent_best_reply by {
            assert(looked_ahead(ranked[i]) >= looked_ahead(ranked[j]));
        }
    } else if difficulty == AiDifficulty::Easy {
        let ranked = spec_ranked(filtered, difficulty);
        assert(ranked == by_score);
        assert forall|i: int, j: int| 0 <= i < j < ranked.len() implies (#[trigger] ranked[i]).score >= (
        #[trigger] ranked[j]).score by {
            assert(score_of(ranked[i]) >= score_of(ranked[j]));
        }
    }
}

/// a sort keeps every property its candidates share
proof fn lemma_sorted_keeps_all(keys: Seq<i64>, moves: Seq<AiMove<i64>>, p: spec_fn(AiMove<i64>) -> bool)
    requires
        keys.len() == moves.len(),
        all_satisfy(moves, p),
    ensures
        all_satisfy(unkeyed(spec_sort_desc(keyed(keys, moves))), p),
        unkeyed(spec_sort_desc(keyed(keys, moves))).len() == moves.len(),
{
    let items = keyed(keys, moves);
    lemma_sort_keeps_members(items);
    let out = unkeyed(spec_sort_desc(items));
    assert forall|k: int| 0 <= k < out.len() implies p(#[trigger] out[k]) by {
        let m = choose|m: int| 0 <= m < items.len() && items[m] == spec_sort_desc(items)[k];
        assert(out[k] == moves[m]);
    }
}

/// the candidates left by the hard rules keep every property all candidates
/// share
proof fn lemma_hard_filters_keep_all<S>(
    candidates: Seq<AiMove<S>>,
    field: Seq<Option<BasisModel>>,
    p: spec_fn(AiMove<S>) -> bool,
)
    requires
        all_satisfy(candidates, p),
    ensures
        all_satisfy(spec_not_self_defeating(candidates), p),
        all_satisfy(spec_safety_filters(spec_not_self_defeating(candidates), field), p),
{
    let c1 = spec_not_self_defeating(candidates);
    lemma_filter_if_any_keeps_all(candidates, |mv: AiMove<S>| !is_self_defeating(mv), p);
    let c2 = spec_filter_if_any(c1, |mv: AiMove<S>| !mv.opponent_can_win_next);
    lemma_filter_if_any_keeps_all(c1, |mv: AiMove<S>| !mv.opponent_can_win_next, p);
    let c3 = spec_filter_if_any(c2, |mv: AiMove<S>| !mv.hurts_self_or_helps_opponent);
    lemma_filter_if_any_keeps_all(c2, |mv: AiMove<S>| !mv.hurts_self_or_helps_opponent, p);
    let c4 = spec_filter_if_any(c3, |mv: AiMove<S>| is_progressive(field, mv.resulting_field@));
    lemma_filter_if_any_keeps_all(c3, |mv: AiMove<S>| is_progressive(field, mv.resulting_field@), p);
    lemma_filter_if_any_keeps_all(c4, |mv: AiMove<S>| !strengthens_opponent(field, mv.resulting_field@), p);
}

/// each candidate's score as its sort key
fn score_key_list(moves: &Vec<AiMove<i64>>) -> (keys: Vec<i64>)
    ensures
        keys@ == score_keys(moves@),
{
    let mut keys: Vec<i64> = Vec::new();
    let mut k: usize = 0;
    while k < moves.len()
        invariant
            k <= moves@.len(),
            keys@ == moves@.take(k as int).map_values(|mv: AiMove<i64>| mv.score),
        decreases moves@.len() - k,
    {
        keys.push(moves[k].score);
        assert(moves@.take(k + 1) =~= moves@.take(k as int).push(moves@[k as int]));
        k = k + 1;
    }
    assert(moves@.take(k as int) =~= moves@);
    keys
}

/// the AI's hard rules, then its ranking of what is left (see spec_ranked):
/// an outright win to take at once, or every remaining candidate, best first
pub fn rank_moves(candidates: Vec<AiMove<i64>>, difficulty: AiDifficulty, field: &Field) -> (result: HardFilterResult<i64>)
    requires
        field_sizes_fit(field@),
        candidate_sizes_fit(candidates@),
        scores_in_range(candidates@),
    ensures
        ({
            let c1 = spec_not_self_defeating(candidates@);
            match first_winning_index(c1) {
                Some(i) => result matches HardFilterResult::Win(mv) && mv == c1[i],
                None => result matches HardFilterResult::Filtered(ranked) && ranked@ == spec_ranked(
                    spec_safety_filters(c1, field@),
                    difficulty,
                ),
            }
        }),
{
    let ghost given = candidates@;
    match apply_hard_filters(candidates, field) {
        HardFilterResult::Win(mv) => HardFilterResult::Win(mv),
        HardFilterResult::Filtered(kept) => {
            let ghost in_range = |mv: AiMove<i64>|
                score_in_range(mv.score) && score_in_range(mv.opponent_best_reply);
            proof {
                assert forall|k: int| 0 <= k < given.len() implies in_range(#[trigger] given[k]) by {}
                lemma_hard_filters_keep_all(given, field@, in_range);
            }
            let keys = score_key_list(&kept);
            let ghost kept_moves = kept@;
            let sorted = sort_desc(kept, keys);
            let by_score = sorted.0;
            proof {
                assert(unkeyed(keyed(sorted.1@, by_score@)) =~= by_score@);
                lemma_sorted_keeps_all(score_keys(kept_moves), kept_moves, in_range);
                assert forall|k: int| 0 <= k < by_score@.len() implies score_in_range((#[trigger] by_score@[k]).score)
                    && score_in_range(by_score@[k].opponent_best_reply) by {
                    assert(in_range(by_score@[k]));
                }
            }
            let ranked = match difficulty {
                AiDifficulty::Easy => by_score,
                AiDifficulty::Medium => apply_lookahead(by_score, MEDIUM_LOOKAHEAD_POOL),
                AiDifficulty::Hard => {
                    let pool = by_score.len();
                    apply_lookahead(by_score, pool)
                },
            };
            HardFilterResult::Filtered(ranked)
        },
    }
}

/// how many of the best-ranked candidates a pick is drawn from: the best one
/// on Hard, the top fifth on Medium, and on Easy the top three when `narrow`
/// (a one-in-four draw) and all of them otherwise
pub open spec fn spec_pick_range(len: nat, difficulty: AiDifficulty, narrow: bool) -> nat {
    match difficulty {
        AiDifficulty::Hard => if len < 1 { len } else { 1 },
        AiDifficulty::Medium => spec_medium_pick_pool(len),
        AiDifficulty::Easy => if narrow && 3 < len { 3 } else { len },
    }
}

/// how many of the best-ranked candidates a pick is drawn from (see
/// spec_pick_range)
pub fn pick_range(len: usize, difficulty: AiDifficulty, narrow: bool) -> (range: usize)
    ensures
        range == spec_pick_range(len as nat, difficulty, narrow),
{
    match difficulty {
        AiDifficulty::Hard => if len < 1 { len } else { 1 },
        AiDifficulty::Medium => {
            let fifth = len / 5 + if len % 5 == 0 { 0 } else { 1 };
            assert(fifth == (len + 4) / 5);
            let pool = if fifth < 1 { 1 } else { fifth };
            if pool < len { pool } else { len }
        },
        AiDifficulty::Easy => if narrow && 3 < len { 3 } else { len },
    }
}

/// whether `chosen` is a move the AI may choose among `candidates`: the first
/// outright win the hard rules find, else a move of the pick range (see
/// spec_pick_range) at the head of the ranking of what the hard rules leave
pub open spec fn spec_is_ai_choice(
    candidates: Seq<AiMove<i64>>,
    difficulty: AiDifficulty,
    field: Seq<Option<BasisModel>>,
    chosen: AiMove<i64>,
) -> bool {
    let c1 = spec_not_self_defeating(candidates);
    let ranked = spec_ranked(spec_safety_filters(c1, field), difficulty);
    match first_winning_index(c1) {
        Some(i) => chosen == c1[i],
        None => exists|k: int, narrow: bool|
            #![trigger ranked[k], spec_pick_range(ranked.len(), difficulty, narrow)]
            0 <= k < spec_pick_range(ranked.len(), difficulty, narrow) && chosen == ranked[k],
    }
}

/// the AI's choice among its candidates: an outright win when the hard rules
/// find one, else on Hard always the best-ranked move, on Medium a random one
/// of the top fifth, and on Easy a random one of the top three one time in
/// four and of all of them otherwise
pub fn choose_move(candidates: Vec<AiMove<i64>>, difficulty: AiDifficulty, field: &Field) -> (chosen: AiMove<i64>)
    requires
        candidates@.len() > 0,
        field_sizes_fit(field@),
        candidate_sizes_fit(candidates@),
        scores_in_range(candidates@),
    ensures
        spec_is_ai_choice(candidates@, difficulty, field@, chosen),
{
    proof {
        lemma_hard_filters_keep_a_move(candidates@, field@);
    }
    let ghost given = candidates@;
    match rank_moves(candidates, difficulty, field) {
        HardFilterResult::Win(mv) => mv,
        HardFilterResult::Filtered(ranked) => {
            let ghost filtered = spec_safety_filters(spec_not_self_defeating(given), field@);
            proof {
                let by_score = unkeyed(spec_sort_desc(keyed(score_keys(filtered), filtered)));
                lemma_sort_keeps_members(keyed(score_keys(filtered), filtered));
                let pool: int = if difficulty == AiDifficulty::Hard { by_score.len() as int } else { MEDIUM_LOOKAHEAD_POOL as int };
                lemma_sort_keeps_members(
                    Seq::new(by_score.len(), |k: int| (spec_lookahead_key(by_score[k], k, pool), by_score[k])),
                );
                assert(ranked@.len() == filtered.len());
            }
            let narrow = match difficulty {
                AiDifficulty::Easy => random_ratio(1, 4),
                _ => false,
            };
            let range = pick_range(ranked.len(), difficulty, narrow);
            let index = match difficulty {
                AiDifficulty::Hard => 0,
                _ => random_below(range),
            };
            let mut ranked = ranked;
            let ghost before = ranked@;
            let chosen = ranked.remove(index);
            assert(chosen == before[index as int]);
            chosen
        },
    }
}

/// the AI's turn: `None` when it has no candidate move (it then forfeits the
/// turn rather than stall the game), otherwise the replay of the clicks of the
/// move it chooses (see choose_move) as player 2's, which presses the confirm
/// button itself when the move awaits confirmation
pub fn plan_ai_turn(candidates: Vec<AiMove<i64>>, difficulty: AiDifficulty, field: &Field) -> (plan: Option<Replay>)
    requires
        field_sizes_fit(field@),
        candidate_sizes_fit(candidates@),
        scores_in_range(candidates@),
    ensures
        candidates@.len() == 0 <==> plan is None,
        plan matches Some(replay) ==> replay.player_num == AI_PLAYER_NUM && replay.next == 0 && !replay.finished
            && exists|chosen: AiMove<i64>|
            #[trigger] spec_is_ai_choice(candidates@, difficulty, field@, chosen) && replay.ids@ == chosen.clicks@,
{
    if candidates.len() == 0 {
        return None;
    }
    let ghost given = candidates@;
    let chosen = choose_move(candidates, difficulty, field);
    assert(spec_is_ai_choice(given, difficulty, field@, chosen));
    Some(Replay::new(AI_PLAYER_NUM, chosen.clicks))
}

/// the candidates with the opponent's replies looked at (see
/// mark_losing_moves): whether one of the replies to each wins, and the best
/// reply's score
pub open spec fn spec_marked(
    candidates: Seq<CandidateModel>,
    opponent_hand: Seq<Card>,
    turn_number: u32,
    reply_outcomes: Seq<CandidateOutcomes>,
    allow_linear_dependence: bool,
) -> Seq<CandidateModel> {
    Seq::new(
        candidates.len(),
        |k: int|
            {
                let replies = spec_candidates(
                    1,
                    opponent_hand,
                    candidates[k].resulting_field,
                    (turn_number + 1) as u32,
                    reply_outcomes[k],
                    allow_linear_dependence,
                );
                with_opponent_win(candidates[k], spec_some_win(replies), spec_best_reply(replies))
            },
    )
}

/// the AI's whole turn as player 2, given what the expression engine makes of
/// every move of its hand (`outcomes`) and of every reply of the opponent's
/// hand to each of those moves (`reply_outcomes`, in candidate order): its
/// candidates are generated (see generate_candidates_for), marked with the
/// opponent's replies (see mark_losing_moves) and the turn is planned (see
/// plan_ai_turn): `None` when it has no move, so it forfeits the turn
pub fn ai_turn(
    ai_hand: &Vec<Card>,
    opponent_hand: &Vec<Card>,
    field: &Field,
    turn_number: u32,
    outcomes: &CandidateOutcomes,
    reply_outcomes: &Vec<CandidateOutcomes>,
    difficulty: AiDifficulty,
    allow_linear_dependence: bool,
) -> (plan: Option<Replay>)
    requires
        turn_number < u32::MAX,
        field_sizes_fit(field@),
        outcomes_cover(ai_hand@, field@, turn_number, *outcomes),
        reply_outcomes@.len() == spec_candidates(
            AI_PLAYER_NUM,
            ai_hand@,
            field@,
            turn_number,
            *outcomes,
            allow_linear_dependence,
        ).len(),
        forall|k: int|
            0 <= k < reply_outcomes@.len() ==> outcomes_cover(
                opponent_hand@,
                (#[trigger] spec_candidates(
                    AI_PLAYER_NUM,
                    ai_hand@,
                    field@,
                    turn_number,
                    *outcomes,
                    allow_linear_dependence,
                )[k]).resulting_field,
                (turn_number + 1) as u32,
                reply_outcomes@[k],
            ),
    ensures
        ({
            let candidates = spec_candidates(
                AI_PLAYER_NUM,
                ai_hand@,
                field@,
                turn_number,
                *outcomes,
                allow_linear_dependence,
            );
            &&& candidates.len() == 0 <==> plan is None
            &&& plan matches Some(replay) ==> replay.player_num == AI_PLAYER_NUM && replay.next == 0
                && !replay.finished && exists|marked: Seq<AiMove<i64>>, chosen: AiMove<i64>|
                #![trigger spec_is_ai_choice(marked, difficulty, field@, chosen)]
                candidate_models(marked) == spec_marked(
                    candidates,
                    opponent_hand@,
                    turn_number,
                    reply_outcomes@,
                    allow_linear_dependence,
                ) && spec_is_ai_choice(marked, difficulty, field@, chosen) && replay.ids@ == chosen.clicks@
        }),
{
    let candidates = generate_candidates_for(
        AI_PLAYER_NUM,
        ai_hand,
        field,
        turn_number,
        outcomes,
        allow_linear_dependence,
    );
    let ghost models = candidate_models(candidates@);
    let ghost generated = candidates@;
    proof {
        assert forall|k: int| 0 <= k < generated.len() implies field_sizes_fit(
            (#[trigger] generated[k]).resulting_field@,
        ) && outcomes_cover(
            opponent_hand@,
            generated[k].resulting_field@,
            (turn_number + 1) as u32,
            reply_outcomes@[k],
        ) by {
            assert(models[k] == candidate_model(generated[k]));
        }
    }
    let marked = mark_losing_moves(
        candidates,
        opponent_hand,
        turn_number,
        reply_outcomes,
        allow_linear_dependence,
    );
    proof {
        assert forall|k: int| 0 <= k < marked@.len() implies field_sizes_fit(
            (#[trigger] marked@[k]).resulting_field@,
        ) && score_in_range(marked@[k].score) && score_in_range(marked@[k].opponent_best_reply) by {
            assert(candidate_model(marked@[k]).resulting_field == candidate_model(generated[k]).resulting_field);
            assert(candidate_model(marked@[k]).score == candidate_model(generated[k]).score);
        }
        assert(candidate_models(marked@) =~= spec_marked(
            models,
            opponent_hand@,
            turn_number,
            reply_outcomes@,
            allow_linear_dependence,
        ));
    }
    let ghost marked_moves = marked@;
    let plan = plan_ai_turn(marked, difficulty, field);
    proof {
        if plan is Some {
            let chosen = choose|chosen: AiMove<i64>|
                #[trigger] spec_is_ai_choice(marked_moves, difficulty, field@, chosen)
                    && plan->0.ids@ == chosen.clicks@;
            assert(spec_is_ai_choice(marked_moves, difficulty, field@, chosen));
        }
    }
    plan
}

} // verus!
