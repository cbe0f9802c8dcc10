use vstd::prelude::*;

use crate::game::cards::BasisCard;
use crate::math::fraction::{product_fits, spec_mul, Fraction};

verus! {

broadcast use vstd::std_specs::vec::axiom_vec_decreases_to_view;

/// the atomic terms of an expression
#[derive(Clone, Copy, PartialEq, Eq, Structural, Debug)]
pub enum BasisElement {
    Num,
    X,
    Inf,
}

/// the operators an expression node applies to its operands
#[derive(Clone, Copy, PartialEq, Eq, Structural, Debug)]
pub enum BasisOperator {
    Add,
    Minus,
    Mult,
    Div,
    Pow(Fraction),
    Inv,
    Log,
    E,
    Sin,
    Cos,
    Asin,
    Acos,
    Int,
}

/// a leaf: `coefficient * element`
#[derive(Clone, Copy, PartialEq, Eq, Structural, Debug)]
pub struct BasisLeaf {
    pub coefficient: Fraction,
    pub element: BasisElement,
}

/// a node: `coefficient * operator(operands)`
#[derive(Debug)]
pub struct BasisNode {
    pub coefficient: Fraction,
    pub operator: BasisOperator,
    pub operands: Vec<Basis>,
}

/// a symbolic expression, as held by a field slot
#[derive(Debug)]
pub enum Basis {
    BasisLeaf(BasisLeaf),
    BasisNode(BasisNode),
}

/// the mathematical value of a `Basis`: the same tree, with sequences of
/// operands in place of vectors
#[verifier::ext_equal]
pub enum BasisModel {
    Leaf { coefficient: Fraction, element: BasisElement },
    Node { coefficient: Fraction, operator: BasisOperator, operands: Seq<BasisModel> },
}

impl Basis {
    /// the mathematical value of this expression
    pub open spec fn model(self) -> BasisModel
        decreases self,
    {
        match self {
            Basis::BasisLeaf(leaf) => BasisModel::Leaf {
                coefficient: leaf.coefficient,
                element: leaf.element,
            },
            Basis::BasisNode(node) => BasisModel::Node {
                coefficient: node.coefficient,
                operator: node.operator,
                operands: Seq::new(
                    node.operands@.len(),
                    |i: int|
                        if 0 <= i < node.operands@.len() {
                            node.operands@[i].model()
                        } else {
                            BasisModel::Leaf { coefficient: node.coefficient, element: BasisElement::Num }
                        },
                ),
            },
        }
    }
}

impl View for Basis {
    type V = BasisModel;

    open spec fn view(&self) -> BasisModel {
        self.model()
    }
}

impl BasisModel {
    /// the top-level coefficient
    pub open spec fn coefficient(self) -> Fraction {
        match self {
            BasisModel::Leaf { coefficient, .. } => coefficient,
            BasisModel::Node { coefficient, .. } => coefficient,
        }
    }

    /// the same expression with another top-level coefficient
    pub open spec fn with_coefficient(self, c: Fraction) -> BasisModel {
        match self {
            BasisModel::Leaf { element, .. } => BasisModel::Leaf { coefficient: c, element },
            BasisModel::Node { operator, operands, .. } => BasisModel::Node {
                coefficient: c,
                operator,
                operands,
            },
        }
    }
}

/// the operands of a node, each cloned
fn clone_operands(operands: &Vec<Basis>) -> (cloned: Vec<Basis>)
    ensures
        cloned@.len() == operands@.len(),
        forall|i: int| 0 <= i < operands@.len() ==> (#[trigger] cloned@[i])@ == operands@[i]@,
    decreases operands,
{
    let mut cloned: Vec<Basis> = Vec::new();
    let mut i: usize = 0;
    while i < operands.len()
        invariant
            i <= operands@.len(),
            cloned@.len() == i,
            forall|j: int| 0 <= j < i ==> (#[trigger] cloned@[j])@ == operands@[j]@,
        decreases operands@.len() - i,
    {
        proof {
            vstd::std_specs::vec::axiom_vec_index_decreases(*operands, i as int);
        }
        cloned.push(operands[i].duplicate());
        i = i + 1;
    }
    cloned
}

impl Basis {
    /// a deep copy of the expression
    pub fn duplicate(&self) -> (copy: Basis)
        ensures
            copy@ == self@,
        decreases self, 0nat,
    {
        match self {
            Basis::BasisLeaf(leaf) => Basis::BasisLeaf(*leaf),
            Basis::BasisNode(node) => {
                let operands = clone_operands(&node.operands);
                let ghost cloned = operands@;
                let copy = Basis::BasisNode(BasisNode {
                    coefficient: node.coefficient,
                    operator: node.operator,
                    operands,
                });
                proof {
                    let ops = Seq::new(
                        cloned.len(),
                        |i: int|
                            if 0 <= i < cloned.len() {
                                cloned[i].model()
                            } else {
                                BasisModel::Leaf { coefficient: node.coefficient, element: BasisElement::Num }
                            },
                    );
                    let self_ops = Seq::new(
                        node.operands@.len(),
                        |i: int|
                            if 0 <= i < node.operands@.len() {
                                node.operands@[i].model()
                            } else {
                                BasisModel::Leaf { coefficient: node.coefficient, element: BasisElement::Num }
                            },
                    );
                    assert forall|i: int| 0 <= i < ops.len() implies ops[i] == self_ops[i] by {
                        assert(cloned[i]@ == node.operands@[i]@);
                    }
                    assert(ops =~= self_ops);
                    assert(copy@->operands =~= ops);
                    assert(self@->operands =~= self_ops);
                    assert(copy@ =~= self@);
                }
                copy
            },
        }
    }

    /// the expression `x`
    pub fn x() -> (b: Basis)
        ensures
            b@ == (BasisModel::Leaf { coefficient: Fraction { n: 1, d: 1 }, element: BasisElement::X }),
    {
        Basis::BasisLeaf(BasisLeaf { coefficient: Fraction { n: 1, d: 1 }, element: BasisElement::X })
    }
}

} // verus!

verus! {

/// The model of a node lists the models of its operands, in order.
pub proof fn lemma_node_model(node: BasisNode)
    ensures
        Basis::BasisNode(node)@ is Node,
        Basis::BasisNode(node)@->Node_coefficient == node.coefficient,
        Basis::BasisNode(node)@->operator == node.operator,
        Basis::BasisNode(node)@->operands.len() == node.operands@.len(),
        forall|i: int|
            0 <= i < node.operands@.len() ==> Basis::BasisNode(node)@->operands[i]
                == (#[trigger] node.operands@[i])@,
{
}

/// A node whose operands model `ops` has exactly that model.
pub proof fn lemma_node_model_is(node: BasisNode, ops: Seq<BasisModel>)
    requires
        node.operands@.len() == ops.len(),
        forall|i: int| 0 <= i < ops.len() ==> (#[trigger] node.operands@[i])@ == ops[i],
    ensures
        Basis::BasisNode(node)@ == (BasisModel::Node {
            coefficient: node.coefficient,
            operator: node.operator,
            operands: ops,
        }),
{
    lemma_node_model(node);
    assert(Basis::BasisNode(node)@->operands =~= ops);
    assert(Basis::BasisNode(node)@ =~= BasisModel::Node {
        coefficient: node.coefficient,
        operator: node.operator,
        operands: ops,
    });
}

} // verus!

verus! {

/// `m` with its top-level coefficient multiplied by `c`
pub open spec fn spec_scale(m: BasisModel, c: Fraction) -> BasisModel {
    m.with_coefficient(spec_mul(m.coefficient(), c))
}

impl Basis {
    /// the top-level coefficient
    pub fn coefficient(&self) -> (c: Fraction)
        ensures
            c == self@.coefficient(),
    {
        match self {
            Basis::BasisLeaf(leaf) => leaf.coefficient,
            Basis::BasisNode(node) => node.coefficient,
        }
    }

    /// a copy of the expression scaled by `c`: the top-level coefficient is
    /// multiplied by `c`, everything below it is kept
    pub fn mul_fraction(&self, c: Fraction) -> (scaled: Basis)
        requires
            product_fits(self@.coefficient(), c),
        ensures
            scaled@ == spec_scale(self@, c),
    {
        match self {
            Basis::BasisLeaf(leaf) => Basis::BasisLeaf(BasisLeaf {
                coefficient: leaf.coefficient.mul(c),
                element: leaf.element,
            }),
            Basis::BasisNode(node) => {
                let operands = clone_operands(&node.operands);
                let new_node = BasisNode {
                    coefficient: node.coefficient.mul(c),
                    operator: node.operator,
                    operands,
                };
                proof {
                    lemma_node_model(*node);
                    lemma_node_model_is(new_node, self@->operands);
                }
                Basis::BasisNode(new_node)
            },
        }
    }
}

} // verus!

verus! {

/// number of nodes and leaves in an expression tree, the AI's cheap
/// complexity proxy
pub open spec fn spec_basis_size(m: BasisModel) -> nat
    decreases m, 1nat,
{
    match m {
        BasisModel::Leaf { .. } => 1,
        BasisModel::Node { operands, .. } => 1 + spec_operands_size(operands),
    }
}

/// total size of a list of expression trees
pub open spec fn spec_operands_size(ops: Seq<BasisModel>) -> nat
    decreases ops, 0nat,
{
    if ops.len() == 0 {
        0
    } else {
        spec_operands_size(ops.drop_last()) + spec_basis_size(ops.last())
    }
}

/// The size of a prefix of operands is at most the size of all of them.
pub proof fn lemma_operands_prefix_size(ops: Seq<BasisModel>, i: int)
    requires
        0 <= i <= ops.len(),
    ensures
        spec_operands_size(ops.take(i)) <= spec_operands_size(ops),
    decreases ops.len(),
{
    if i < ops.len() {
        assert(ops.drop_last().take(i) =~= ops.take(i));
        lemma_operands_prefix_size(ops.drop_last(), i);
    } else {
        assert(ops.take(i) =~= ops);
    }
}

/// `a` and `b` are the same expression up to their top-level coefficient,
/// ie. scalar multiples of each other
pub open spec fn scalar_multiples(a: BasisModel, b: BasisModel) -> bool {
    a.with_coefficient(Fraction { n: 1, d: 1 }) == b.with_coefficient(Fraction { n: 1, d: 1 })
}

/// whether two lists of operands are equal, element by element
fn operands_equal(a: &Vec<Basis>, b: &Vec<Basis>) -> (equal: bool)
    ensures
        equal == (a@.len() == b@.len() && forall|i: int|
            0 <= i < a@.len() ==> (#[trigger] a@[i])@ == b@[i]@),
    decreases a,
{
    if a.len() != b.len() {
        return false;
    }
    let mut i: usize = 0;
    while i < a.len()
        invariant
            a@.len() == b@.len(),
            i <= a@.len(),
            forall|j: int| 0 <= j < i ==> (#[trigger] a@[j])@ == b@[j]@,
        decreases a@.len() - i,
    {
        proof {
            vstd::std_specs::vec::axiom_vec_index_decreases(*a, i as int);
        }
        if !a[i].equals(&b[i]) {
            return false;
        }
        i = i + 1;
    }
    true
}

impl Basis {
    /// structural equality of two expressions
    pub fn equals(&self, other: &Basis) -> (equal: bool)
        ensures
            equal == (self@ == other@),
        decreases self, 0nat,
    {
        match (self, other) {
            (Basis::BasisLeaf(a), Basis::BasisLeaf(b)) => a.coefficient == b.coefficient && a.element
                == b.element,
            (Basis::BasisNode(a), Basis::BasisNode(b)) => {
                proof {
                    lemma_node_model(*a);
                    lemma_node_model(*b);
                }
                if a.coefficient != b.coefficient || a.operator != b.operator {
                    return false;
                }
                let same = operands_equal(&a.operands, &b.operands);
                proof {
                    if same {
                        assert(self@->operands =~= other@->operands);
                        assert(self@ =~= other@);
                    } else if self@ == other@ {
                        assert(a.operands@.len() == b.operands@.len());
                        assert forall|i: int| 0 <= i < a.operands@.len() implies (
                        #[trigger] a.operands@[i])@ == b.operands@[i]@ by {
                            assert(self@->operands[i] == other@->operands[i]);
                        }
                    }
                }
                same
            },
            _ => false,
        }
    }

    /// whether the two expressions are scalar multiples of each other
    pub fn same_up_to_coefficient(&self, other: &Basis) -> (same: bool)
        ensures
            same == scalar_multiples(self@, other@),
    {
        match (self, other) {
            (Basis::BasisLeaf(a), Basis::BasisLeaf(b)) => a.element == b.element,
            (Basis::BasisNode(a), Basis::BasisNode(b)) => {
                proof {
                    lemma_node_model(*a);
                    lemma_node_model(*b);
                }
                if a.operator != b.operator {
                    return false;
                }
                let same = operands_equal(&a.operands, &b.operands);
                proof {
                    let one = Fraction { n: 1, d: 1 };
                    if same {
                        assert(self@->operands =~= other@->operands);
                        assert(self@.with_coefficient(one) =~= other@.with_coefficient(one));
                    } else if scalar_multiples(self@, other@) {
                        assert(self@->operands == other@->operands);
                        assert forall|i: int| 0 <= i < a.operands@.len() implies (
                        #[trigger] a.operands@[i])@ == b.operands@[i]@ by {
                            assert(self@->operands[i] == other@->operands[i]);
                        }
                    }
                }
                same
            },
            _ => false,
        }
    }
}

} // verus!

verus! {

/// the expression a basis card places onto the field: a constant for Zero and
/// One, `x`, `x^2`, and cos/sin/e of `x`
pub open spec fn spec_basis_from_card(card: BasisCard) -> BasisModel {
    let one = Fraction { n: 1, d: 1 };
    let x = BasisModel::Leaf { coefficient: one, element: BasisElement::X };
    match card {
        BasisCard::Zero => BasisModel::Leaf { coefficient: Fraction { n: 0, d: 1 }, element: BasisElement::Num },
        BasisCard::One => BasisModel::Leaf { coefficient: one, element: BasisElement::Num },
        BasisCard::X => x,
        BasisCard::X2 => BasisModel::Node {
            coefficient: one,
            operator: BasisOperator::Pow(Fraction { n: 2, d: 1 }),
            operands: seq![x],
        },
        BasisCard::Cos => BasisModel::Node { coefficient: one, operator: BasisOperator::Cos, operands: seq![x] },
        BasisCard::Sin => BasisModel::Node { coefficient: one, operator: BasisOperator::Sin, operands: seq![x] },
        BasisCard::E => BasisModel::Node { coefficient: one, operator: BasisOperator::E, operands: seq![x] },
    }
}

impl Basis {
    /// the constant `n`
    pub fn from_int(n: i32) -> (b: Basis)
        ensures
            b@ == (BasisModel::Leaf { coefficient: Fraction { n: n, d: 1 }, element: BasisElement::Num }),
    {
        Basis::BasisLeaf(BasisLeaf { coefficient: Fraction { n, d: 1 }, element: BasisElement::Num })
    }

    /// the expression a basis card places onto the field
    pub fn from_card(card: BasisCard) -> (b: Basis)
        ensures
            b@ == spec_basis_from_card(card),
    {
        let one = Fraction { n: 1, d: 1 };
        let operator = match card {
            BasisCard::Zero => return Basis::from_int(0),
            BasisCard::One => return Basis::from_int(1),
            BasisCard::X => return Basis::x(),
            BasisCard::X2 => BasisOperator::Pow(Fraction { n: 2, d: 1 }),
            BasisCard::Cos => BasisOperator::Cos,
            BasisCard::Sin => BasisOperator::Sin,
            BasisCard::E => BasisOperator::E,
        };
        let mut operands: Vec<Basis> = Vec::new();
        operands.push(Basis::x());
        let node = BasisNode { coefficient: one, operator, operands };
        proof {
            lemma_node_model_is(node, seq![BasisModel::Leaf { coefficient: one, element: BasisElement::X }]);
        }
        Basis::BasisNode(node)
    }
}

/// whether an expression is the constant `n`: a number leaf whose
/// coefficient has the value `n`
pub open spec fn spec_is_num(b: BasisModel, n: int) -> bool {
    b matches BasisModel::Leaf { coefficient, element: BasisElement::Num } && coefficient.d != 0
        && coefficient.n == n * coefficient.d
}

/// whether an expression is `n` times infinity: an infinity leaf whose
/// coefficient has the value `n`
pub open spec fn spec_is_inf(b: BasisModel, n: int) -> bool {
    b matches BasisModel::Leaf { coefficient, element: BasisElement::Inf } && coefficient.d != 0
        && coefficient.n == n * coefficient.d
}

/// whether a leaf's coefficient has the value `n`
fn coefficient_is(c: Fraction, n: i32) -> (is: bool)
    ensures
        is == (c.d != 0 && c.n == n * c.d),
{
    if c.d == 0 {
        return false;
    }
    assert((n as int) * (c.d as int) <= 0x4000_0000_0000_0000 && (n as int) * (c.d as int) >= -0x4000_0000_0000_0000) by (nonlinear_arith)
        requires
            -0x8000_0000 <= n <= 0x7fff_ffff,
            -0x8000_0000 <= c.d <= 0x7fff_ffff,
    {};
    (c.n as i64) == (n as i64) * (c.d as i64)
}

impl Basis {
    /// whether this expression is the constant `n`
    pub fn is_num(&self, n: i32) -> (is: bool)
        ensures
            is == spec_is_num(self@, n as int),
    {
        match self {
            Basis::BasisLeaf(leaf) => match leaf.element {
                BasisElement::Num => coefficient_is(leaf.coefficient, n),
                _ => false,
            },
            Basis::BasisNode(_) => false,
        }
    }

    /// whether this expression is `n` times infinity
    pub fn is_inf(&self, n: i32) -> (is: bool)
        ensures
            is == spec_is_inf(self@, n as int),
    {
        match self {
            Basis::BasisLeaf(leaf) => match leaf.element {
                BasisElement::Inf => coefficient_is(leaf.coefficient, n),
                _ => false,
            },
            Basis::BasisNode(_) => false,
        }
    }
}

} // verus!
