use crate::group::{fits_powers, pairing_well_behaved, pairings_agree, same_pairing, GroupOps};
use crate::prover::{Proof, PublicData};
use vstd::prelude::*;

verus! {

/// Both pairing checks pass, with `t_at_s` the target evaluated at the hidden point:
/// divisibility, `pairing(p, one) == pairing(h, t)`; and the restricted evaluation,
/// `pairing(p, alpha) == pairing(alpha_p, one)`.
pub open spec fn checks_pass<G1, G2, P: Fn(G1, G2, G1, G2) -> bool>(
    pairing: P,
    one2: G2,
    encrypted2_alpha: G2,
    t_at_s: G2,
    proof: Proof<G1>,
) -> bool {
    &&& pairings_agree(
        pairing,
        proof.encrypted1_secret_poly_at_s,
        one2,
        proof.encrypted1_ratio_poly_at_s,
        t_at_s,
    )
    &&& pairings_agree(
        pairing,
        proof.encrypted1_secret_poly_at_s,
        encrypted2_alpha,
        proof.encrypted1_alpha_times_secret_poly_at_s,
        one2,
    )
}

/// The verifier's verdict on `proof`: the target fits the reference string and both
/// pairing checks pass against its evaluation at the hidden point.
pub open spec fn accepts<G1, G2: Copy, M2: Fn(G2, usize) -> G2, A2: Fn(G2, G2) -> G2, P: Fn(G1, G2, G1, G2) -> bool>(
    public: PublicData<G1, G2>,
    proof: Proof<G1>,
    g2: GroupOps<G2, M2, A2>,
    pairing: P,
) -> bool {
    &&& fits_powers(public.crs.encrypted2_s_powers.len() as int, public.target_polynomial@)
    &&& forall|t_at_s: G2|
        #[trigger] g2.evaluates(public.crs.encrypted2_s_powers@, public.target_polynomial@, t_at_s)
            ==> checks_pass(pairing, g2.generator, public.crs.encrypted2_alpha, t_at_s, proof)
}

/// Accepts `proof` exactly where both pairing checks hold.
pub fn verify<G1: Copy, G2: Copy, M2: Fn(G2, usize) -> G2, A2: Fn(G2, G2) -> G2, P: Fn(G1, G2, G1, G2) -> bool>(
    public: &PublicData<G1, G2>,
    proof: &Proof<G1>,
    g2: &GroupOps<G2, M2, A2>,
    pairing: &P,
) -> (r: bool)
    requires
        g2.well_behaved(),
        pairing_well_behaved(*pairing),
    ensures
        r == accepts(*public, *proof, *g2, *pairing),
{
    let encrypted_target_poly_at_s: G2 = match g2.homomorphic_eval_polynomial(
        &public.crs.encrypted2_s_powers,
        &public.target_polynomial,
    ) {
        Ok(v) => v,
        Err(_) => {
            return false;
        },
    };
    let one2: G2 = g2.generator;
    let provers_secret_poly_has_roots_of_target_poly: bool = same_pairing(
        pairing,
        proof.encrypted1_secret_poly_at_s,
        one2,
        proof.encrypted1_ratio_poly_at_s,
        encrypted_target_poly_at_s,
    );
    let proof_was_created_only_by_polynomial_evaluation_only_of_restricted_degree: bool =
        same_pairing(
        pairing,
        proof.encrypted1_secret_poly_at_s,
        public.crs.encrypted2_alpha,
        proof.encrypted1_alpha_times_secret_poly_at_s,
        one2,
    );
    proof {
        assert forall|t_at_s: G2|
            #[trigger] g2.evaluates(
                public.crs.encrypted2_s_powers@,
                public.target_polynomial@,
                t_at_s,
            ) implies t_at_s == encrypted_target_poly_at_s by {
            g2.lemma_evaluates_unique(
                public.crs.encrypted2_s_powers@,
                public.target_polynomial@,
                t_at_s,
                encrypted_target_poly_at_s,
            );
        }
    }
    provers_secret_poly_has_roots_of_target_poly
        && proof_was_created_only_by_polynomial_evaluation_only_of_restricted_degree
}

} // verus!
