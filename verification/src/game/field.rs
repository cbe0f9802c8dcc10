use vstd::prelude::*;

use crate::basis::structs::{Basis, BasisModel};

verus! {

/// one field slot: empty, or holding an expression
pub struct FieldBasis {
    pub basis: Option<Basis>,
}

/// the mathematical value of a slot
pub open spec fn slot_model(slot: FieldBasis) -> Option<BasisModel> {
    match slot.basis {
        Some(b) => Some(b@),
        None => None,
    }
}

impl FieldBasis {
    /// a slot holding a copy of `basis`
    pub fn new(basis: &Basis) -> (slot: FieldBasis)
        ensures
            slot_model(slot) == Some(basis@),
    {
        FieldBasis { basis: Some(basis.duplicate()) }
    }

    /// an empty slot
    pub fn none() -> (slot: FieldBasis)
        ensures
            slot_model(slot) == None::<BasisModel>,
    {
        FieldBasis { basis: None }
    }
}

/// the six field slots: 0-2 belong to player 2, 3-5 to player 1
pub struct Field {
    pub basis: [FieldBasis; 6],
}

impl FieldBasis {
    /// a slot holding the same expression as this one, if any
    pub fn duplicate(&self) -> (copy: FieldBasis)
        ensures
            slot_model(copy) == slot_model(*self),
    {
        match &self.basis {
            Some(b) => FieldBasis::new(b),
            None => FieldBasis::none(),
        }
    }
}

impl Field {
    /// a field holding the same expressions as this one, slot for slot
    pub fn duplicate(&self) -> (copy: Field)
        ensures
            copy@ == self@,
    {
        let copy = Field {
            basis: [
                self.basis[0].duplicate(),
                self.basis[1].duplicate(),
                self.basis[2].duplicate(),
                self.basis[3].duplicate(),
                self.basis[4].duplicate(),
                self.basis[5].duplicate(),
            ],
        };
        assert(copy@ =~= self@);
        copy
    }

    /// the field with slot `i` replaced by `slot`
    pub fn set_slot(&mut self, i: usize, slot: FieldBasis)
        requires
            i < 6,
        ensures
            final(self)@ == old(self)@.update(i as int, slot_model(slot)),
    {
        let ghost before = self@;
        self.basis[i] = slot;
        assert(self@ =~= before.update(i as int, slot_model(slot)));
    }
}

impl View for Field {
    type V = Seq<Option<BasisModel>>;

    open spec fn view(&self) -> Seq<Option<BasisModel>> {
        Seq::new(6, |i: int| slot_model(self.basis@[i]))
    }
}

} // verus!
