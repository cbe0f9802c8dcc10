use vstd::prelude::*;

verus! {

/// attributes of a render item that are able to be interpolated
#[derive(Copy, Clone, Debug, Hash, PartialEq, Eq, Structural)]
pub enum AnimAttribute {
    X,
    Y,
    W,
    H,
    R,
}

/// the name of an attribute
pub open spec fn spec_anim_attribute_name(attribute: AnimAttribute) -> Seq<char> {
    match attribute {
        AnimAttribute::X => seq!['X'],
        AnimAttribute::Y => seq!['Y'],
        AnimAttribute::W => seq!['W'],
        AnimAttribute::H => seq!['H'],
        AnimAttribute::R => seq!['R'],
    }
}

impl AnimAttribute {
    /// the attribute's name (its `Display` form)
    pub fn to_string(&self) -> (name: String)
        ensures
            name@ == spec_anim_attribute_name(*self),
    {
        proof {
            reveal_strlit("X");
            reveal_strlit("Y");
            reveal_strlit("W");
            reveal_strlit("H");
            reveal_strlit("R");
        }
        match self {
            AnimAttribute::X => String::from_str("X"),
            AnimAttribute::Y => String::from_str("Y"),
            AnimAttribute::W => String::from_str("W"),
            AnimAttribute::H => String::from_str("H"),
            AnimAttribute::R => String::from_str("R"),
        }
    }
}

} // verus!
