//! Equality of polynomials: coefficient by coefficient.

use crate::polynomial::Polynomial;
use vstd::prelude::*;

verus! {

impl vstd::std_specs::cmp::PartialEqSpecImpl for Polynomial {
    open spec fn obeys_eq_spec() -> bool {
        true
    }

    open spec fn eq_spec(&self, other: &Polynomial) -> bool {
        self@ == other@
    }
}

impl PartialEq for Polynomial {
    /// Whether the two polynomials have the same coefficients.
    fn eq(&self, other: &Polynomial) -> (r: bool) {
        let a = self.coefficients();
        let b = other.coefficients();
        let mut i: usize = 0;
        while i < 256
            invariant
                i <= 256,
                self@.len() == 256,
                other@.len() == 256,
                forall|k: int| 0 <= k < 256 ==> self@[k] == a[k],
                forall|k: int| 0 <= k < 256 ==> other@[k] == b[k],
                forall|k: int| 0 <= k < i ==> self@[k] == other@[k],
            decreases 256 - i,
        {
            if a[i] != b[i] {
                assert(self@[i as int] != other@[i as int]);
                return false;
            }
            i += 1;
        }
        assert(self@ =~= other@);
        true
    }
}

impl Eq for Polynomial {

}

} // verus!
