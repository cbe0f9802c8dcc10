use vstd::prelude::*;

verus! {

/// cards that place a new expression onto an empty field slot (or, for
/// `Zero`, act as an operand of a Mult/Div play)
#[derive(Clone, Copy, PartialEq, Eq, Structural, Debug)]
pub enum BasisCard {
    Zero,
    One,
    X,
    X2,
    Cos,
    Sin,
    E,
}

/// algebraic operators
#[derive(Clone, Copy, PartialEq, Eq, Structural, Debug)]
pub enum AlgebraicCard {
    Div,
    Mult,
    Sqrt,
    Inverse,
    Log,
}

/// differential operators
#[derive(Clone, Copy, PartialEq, Eq, Structural, Debug)]
pub enum DerivativeCard {
    Derivative,
    Integral,
    Nabla,
    Laplacian,
}

/// limit operators
#[derive(Clone, Copy, PartialEq, Eq, Structural, Debug)]
pub enum LimitCard {
    LimPosInf,
    LimNegInf,
    Lim0,
    Liminf,
    Limsup,
}

/// every card of the game: 21 distinct kinds across four families
#[derive(Clone, Copy, PartialEq, Eq, Structural, Debug)]
pub enum Card {
    BasisCard(BasisCard),
    AlgebraicCard(AlgebraicCard),
    DerivativeCard(DerivativeCard),
    LimitCard(LimitCard),
}

} // verus!
