//! AIR variants for zero-knowledge credential verification: no statement-specific preprocessed
//! references; the witness lives in the main trace and the issuer data (`pk_ntt`, `hm_ntt`) in
//! periodic columns.
use vstd::prelude::*;
use crate::params::{N, MODULUS};
use crate::bits::{cells_bool, cells_value};
use crate::field::{feq, canonical};
use crate::air::dual_ntt_equation::{dual_ntt_row_holds, lemma_dual_ntt_row_sound, NUM_MAIN_COLS as DUAL_MAIN_COLS};
use crate::air::coeff_dual_product_zero::{coeff_dual_row_holds, lemma_coeff_dual_row_sound, NUM_MAIN_COLS as COEFF_MAIN_COLS};

verus! {

/// Dual-NTT congruence against public periodic `pk_ntt`, `hm_ntt` only.
#[derive(Clone, Debug)]
pub struct FalconDualNttCredentialAir {
    pk_ntt: Vec<u32>,
    hm_ntt: Vec<u32>,
}

impl FalconDualNttCredentialAir {
    /// The periodic `pk_ntt` column.
    pub closed spec fn pk_ntt_view(&self) -> Seq<u32> {
        self.pk_ntt@
    }

    /// The periodic `hm_ntt` column.
    pub closed spec fn hm_ntt_view(&self) -> Seq<u32> {
        self.hm_ntt@
    }

    /// AIR over `N` public `pk_ntt` and `hm_ntt` values.
    pub fn new(pk_ntt: Vec<u32>, hm_ntt: Vec<u32>) -> (air: Self)
        requires
            pk_ntt@.len() == N,
            hm_ntt@.len() == N,
        ensures
            air.pk_ntt_view() == pk_ntt@,
            air.hm_ntt_view() == hm_ntt@,
    {
        FalconDualNttCredentialAir { pk_ntt, hm_ntt }
    }

    /// The periodic `pk_ntt` column.
    pub fn pk_ntt_values(&self) -> (r: &[u32])
        ensures
            r@ == self.pk_ntt_view(),
    {
        self.pk_ntt.as_slice()
    }

    /// The periodic `hm_ntt` column.
    pub fn hm_ntt_values(&self) -> (r: &[u32])
        ensures
            r@ == self.hm_ntt_view(),
    {
        self.hm_ntt.as_slice()
    }
}

/// The row constraints of the credential dual-NTT AIR (on every row): those of the dual-NTT
/// AIR without the equality of the limbs to reference rows.
pub open spec fn dual_credential_row_holds(pk: u32, hm: u32, main: Seq<u32>) -> bool {
    main.len() == DUAL_MAIN_COLS && dual_ntt_row_holds(pk, hm, main.subrange(0, 4), main)
}

/// Soundness of a credential dual-NTT row: with reduced public values and limbs, the row proves
/// `hm + v_neg + sig_neg·pk ≡ v_pos + sig_pos·pk (mod q)` for its own limbs.
pub proof fn lemma_dual_credential_row_sound(pk: u32, hm: u32, main: Seq<u32>)
    requires
        dual_credential_row_holds(pk, hm, main),
        pk < MODULUS,
        hm < MODULUS,
        main[0] < MODULUS,
        main[1] < MODULUS,
        main[2] < MODULUS,
        main[3] < MODULUS,
        forall|c: int| 0 <= c < DUAL_MAIN_COLS ==> canonical(#[trigger] main[c]),
    ensures
        (hm + main[3] + main[1] * pk) % (MODULUS as int) == (main[2] + main[0] * pk) % (MODULUS as int),
{
    lemma_dual_ntt_row_sound(pk, hm, main.subrange(0, 4), main);
}

/// Coefficient-domain `sig_pos[i] · sig_neg[i] = 0` without expected-coefficient binding.
#[derive(Clone, Debug, Default)]
pub struct FalconCoeffDualCredentialAir;

/// The row constraints of the credential coefficient AIR (on every row): the 28 cells are bits
/// and the product of the two 14-bit values vanishes in the field.
pub open spec fn coeff_credential_row_holds(main: Seq<u32>) -> bool {
    let pos = cells_value(main.subrange(0, 14));
    let neg = cells_value(main.subrange(14, 28));
    &&& main.len() == COEFF_MAIN_COLS
    &&& cells_bool(main)
    &&& feq(pos * neg, 0)
}

/// Soundness of a credential coefficient row: one of the two limbs is zero.
pub proof fn lemma_coeff_credential_row_sound(main: Seq<u32>)
    requires
        coeff_credential_row_holds(main),
    ensures
        cells_value(main.subrange(0, 14)) == 0 || cells_value(main.subrange(14, 28)) == 0,
{
    let prep = seq![cells_value(main.subrange(0, 14)) as u32, cells_value(main.subrange(14, 28)) as u32];
    crate::air::dual_ntt_equation::lemma_quot_cells_bounded(main, 0);
    crate::air::dual_ntt_equation::lemma_quot_cells_bounded(main, 14);
    assert(coeff_dual_row_holds(prep, main));
    lemma_coeff_dual_row_sound(prep, main);
}

/// L² bound over private coefficients in the main trace only; its constraints are those of
/// the L² AIR.
#[derive(Clone, Debug, Default)]
pub struct FalconL2CredentialAir;

} // verus!
