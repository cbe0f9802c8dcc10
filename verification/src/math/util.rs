use vstd::prelude::*;

use crate::basis::structs::{
    lemma_node_model, lemma_node_model_is, spec_scale, Basis, BasisElement, BasisModel, BasisNode,
};
use crate::math::fraction::{product_fits, Fraction};

verus! {

/// how deeply derivative()/integral() (which call each other) may recurse
/// before bailing out, so some expressions can't recurse unboundedly
pub const MAX_COMPUTE_DEPTH: u32 = 48;

/// the current recursion depth across derivative()/integral()
pub struct ComputeDepth {
    depth: u32,
}

impl View for ComputeDepth {
    type V = nat;

    closed spec fn view(&self) -> nat {
        self.depth as nat
    }
}

impl ComputeDepth {
    /// no computation in progress
    pub fn new() -> (depth: ComputeDepth)
        ensures
            depth@ == 0,
    {
        ComputeDepth { depth: 0 }
    }

    /// the current depth
    pub fn get(&self) -> (d: u32)
        ensures
            d == self@,
    {
        self.depth
    }
}

/// one level of compute depth, taken by `enter` and given back when the guard
/// goes out of scope; nested computations enter through `depth`
pub struct ComputeDepthGuard<'a> {
    pub depth: &'a mut ComputeDepth,
}

impl<'a> ComputeDepthGuard<'a> {
    /// takes one level of depth; `None` once MAX_COMPUTE_DEPTH is reached, so
    /// callers can bail out
    pub fn enter(depth: &'a mut ComputeDepth) -> (guard: Option<ComputeDepthGuard<'a>>)
        ensures
            old(depth)@ >= MAX_COMPUTE_DEPTH ==> guard is None && final(depth)@ == old(depth)@,
            old(depth)@ < MAX_COMPUTE_DEPTH ==> (guard matches Some(g) && (*g.depth)@ == old(depth)@ + 1),
    {
        if depth.depth >= MAX_COMPUTE_DEPTH {
            return None;
        }
        depth.depth = depth.depth + 1;
        Some(ComputeDepthGuard { depth })
    }
}

impl<'a> Drop for ComputeDepthGuard<'a> {
    /// gives the level taken by `enter` back
    fn drop(&mut self)
        ensures
            (*final(self).depth)@ == if (*old(self).depth)@ > 0 {
                (*old(self).depth)@ - 1
            } else {
                0
            },
        opens_invariants none
        no_unwind
    {
        if self.depth.depth > 0 {
            self.depth.depth = self.depth.depth - 1;
        }
    }
}

/// f o g: every `x` leaf of `f` (with coefficient `c`) is replaced by `g`
/// scaled by `c`; every other leaf, and the shape of `f`, is kept
pub open spec fn spec_compose(f: BasisModel, g: BasisModel) -> BasisModel
    decreases f,
{
    match f {
        BasisModel::Leaf { coefficient, element } => {
            if element == BasisElement::X {
                spec_scale(g, coefficient)
            } else {
                f
            }
        },
        BasisModel::Node { coefficient, operator, operands } => BasisModel::Node {
            coefficient,
            operator,
            operands: Seq::new(
                operands.len(),
                |i: int|
                    if 0 <= i < operands.len() {
                        spec_compose(operands[i], g)
                    } else {
                        f
                    },
            ),
        },
    }
}

/// every `x` leaf of `f` can scale a coefficient `gc` without overflow
pub open spec fn x_scalings_fit(f: BasisModel, gc: Fraction) -> bool
    decreases f,
{
    match f {
        BasisModel::Leaf { coefficient, element } => element == BasisElement::X ==> product_fits(
            gc,
            coefficient,
        ),
        BasisModel::Node { operands, .. } => forall|i: int|
            0 <= i < operands.len() ==> x_scalings_fit(#[trigger] operands[i], gc),
    }
}

/// every operand composed with `g`, in order
fn compose_operands(operands: &Vec<Basis>, g: &Basis) -> (composed: Vec<Basis>)
    requires
        forall|j: int| 0 <= j < operands@.len() ==> x_scalings_fit((#[trigger] operands@[j])@, g@.coefficient()),
    ensures
        composed@.len() == operands@.len(),
        forall|j: int| 0 <= j < operands@.len() ==> (#[trigger] composed@[j])@ == spec_compose(operands@[j]@, g@),
    decreases operands,
{
    let mut composed: Vec<Basis> = Vec::new();
    let mut i: usize = 0;
    while i < operands.len()
        invariant
            i <= operands@.len(),
            forall|j: int| 0 <= j < operands@.len() ==> x_scalings_fit((#[trigger] operands@[j])@, g@.coefficient()),
            composed@.len() == i,
            forall|j: int| 0 <= j < i ==> (#[trigger] composed@[j])@ == spec_compose(operands@[j]@, g@),
        decreases operands@.len() - i,
    {
        proof {
            vstd::std_specs::vec::axiom_vec_index_decreases(*operands, i as int);
        }
        composed.push(function_composition(&operands[i], g));
        i = i + 1;
    }
    composed
}

/// implements recursive f o g
pub fn function_composition(f: &Basis, g: &Basis) -> (composed: Basis)
    requires
        x_scalings_fit(f@, g@.coefficient()),
    ensures
        composed@ == spec_compose(f@, g@),
    decreases f, 0nat,
{
    match f {
        Basis::BasisLeaf(leaf) => {
            if leaf.element == BasisElement::X {
                g.mul_fraction(leaf.coefficient)
            } else {
                f.duplicate()
            }
        },
        Basis::BasisNode(node) => {
            proof {
                lemma_node_model(*node);
                let ops = f@->operands;
                assert forall|j: int| 0 <= j < node.operands@.len() implies x_scalings_fit(
                    (#[trigger] node.operands@[j])@,
                    g@.coefficient(),
                ) by {
                    assert(x_scalings_fit(ops[j], g@.coefficient()));
                }
            }
            let operands = compose_operands(&node.operands, g);
            let composed_node = BasisNode {
                coefficient: node.coefficient,
                operator: node.operator,
                operands,
            };
            proof {
                let ops = f@->operands;
                let composed_ops = Seq::new(
                    ops.len(),
                    |j: int|
                        if 0 <= j < ops.len() {
                            spec_compose(ops[j], g@)
                        } else {
                            f@
                        },
                );
                lemma_node_model_is(composed_node, composed_ops);
                assert(spec_compose(f@, g@)->operands =~= composed_ops);
                assert(Basis::BasisNode(composed_node)@ =~= spec_compose(f@, g@));
            }
            Basis::BasisNode(composed_node)
        },
    }
}

} // verus!
