use crate::ceremony::Crs;
use crate::group::{fits_powers, EvalError, GroupOps};
use crate::polynomial::{
    divides, exact_divide_integer_polynomial, is_product, is_zero_poly, DivisionError,
};
use vstd::prelude::*;

verus! {

/// What prover and verifier share: the target polynomial and the reference string.
pub struct PublicData<G1, G2> {
    pub target_polynomial: Vec<usize>,
    pub crs: Crs<G1, G2>,
}

/// Commitments, in group 1, to the secret polynomial, to its quotient by the target,
/// and to the alpha-scaled secret polynomial, each at the hidden point.
pub struct Proof<G1> {
    pub encrypted1_ratio_poly_at_s: G1,
    pub encrypted1_secret_poly_at_s: G1,
    pub encrypted1_alpha_times_secret_poly_at_s: G1,
}

/// Why no proof was produced.
#[derive(Debug, Clone, Copy, PartialEq, Eq, Structural)]
pub enum ProveError {
    /// The target polynomial is zero.
    ZeroTarget,
    /// The secret polynomial is no multiple of the target.
    NotDivisible,
    /// A polynomial has more coefficients than the reference string has powers.
    DegreeTooHigh,
}

/// `e` is `poly` evaluated over `powers`, then scaled by `blinding`.
pub open spec fn is_commitment<G: Copy, M: Fn(G, usize) -> G, A: Fn(G, G) -> G>(
    g: GroupOps<G, M, A>,
    powers: Seq<G>,
    poly: Seq<usize>,
    blinding: usize,
    e: G,
) -> bool {
    &&& fits_powers(powers.len() as int, poly)
    &&& exists|v: G| #[trigger] g.evaluates(powers, poly, v) && g.scales(v, blinding, e)
}

/// `p` with its degree-two coefficient raised by one, where it has one.
pub open spec fn perturbed(p: Seq<usize>) -> Seq<usize> {
    if p.len() > 2 {
        p.update(2, (p[2] + 1) as usize)
    } else {
        p
    }
}

/// `pf` commits to `p`, to some exact quotient of `p` by `t`, and to `p` over the
/// alpha-scaled powers, all scaled by `blinding`.
pub open spec fn proves<G1: Copy, M1: Fn(G1, usize) -> G1, A1: Fn(G1, G1) -> G1, G2>(
    g1: GroupOps<G1, M1, A1>,
    crs: Crs<G1, G2>,
    t: Seq<usize>,
    p: Seq<usize>,
    blinding: usize,
    pf: Proof<G1>,
) -> bool {
    &&& is_commitment(g1, crs.encrypted1_s_powers@, p, blinding, pf.encrypted1_secret_poly_at_s)
    &&& exists|h: Seq<usize>|
        is_product(t, h, p) && #[trigger] is_commitment(
            g1,
            crs.encrypted1_s_powers@,
            h,
            blinding,
            pf.encrypted1_ratio_poly_at_s,
        )
    &&& is_commitment(
        g1,
        crs.encrypted1_alpha_times_s_powers@,
        p,
        blinding,
        pf.encrypted1_alpha_times_secret_poly_at_s,
    )
}

/// Holder of a secret polynomial, which proves that the target divides it.
pub struct Prover {
    my_secret_polynomial: Vec<usize>,
}

impl Prover {
    /// The secret polynomial, lowest degree first.
    pub closed spec fn secret_polynomial(&self) -> Seq<usize> {
        self.my_secret_polynomial@
    }

    /// A prover holding `p`, lowest degree first.
    pub fn new(p: Vec<usize>) -> (r: Self)
        ensures
            r.secret_polynomial() == p@,
    {
        Self { my_secret_polynomial: p }
    }

    /// Divides exactly by the target, then commits to the secret polynomial, the
    /// quotient and the alpha-scaled secret polynomial, each scaled by the nonzero
    /// `blinding`, which the caller draws afresh for every proof.
    pub fn prove<G1: Copy, M1: Fn(G1, usize) -> G1, A1: Fn(G1, G1) -> G1, G2>(
        &self,
        public: &PublicData<G1, G2>,
        g1: &GroupOps<G1, M1, A1>,
        blinding: usize,
    ) -> (r: Result<Proof<G1>, ProveError>)
        requires
            g1.well_behaved(),
            blinding != 0,
        ensures
            (r == Err::<Proof<G1>, ProveError>(ProveError::ZeroTarget)) <==> is_zero_poly(
                public.target_polynomial@,
            ),
            (r == Err::<Proof<G1>, ProveError>(ProveError::NotDivisible)) <==> (!is_zero_poly(
                public.target_polynomial@,
            ) && !divides(public.target_polynomial@, self.secret_polynomial())),
            (r == Err::<Proof<G1>, ProveError>(ProveError::DegreeTooHigh)) <==> (!is_zero_poly(
                public.target_polynomial@,
            ) && divides(public.target_polynomial@, self.secret_polynomial()) && !(fits_powers(
                public.crs.encrypted1_s_powers.len() as int,
                self.secret_polynomial(),
            ) && fits_powers(
                public.crs.encrypted1_alpha_times_s_powers.len() as int,
                self.secret_polynomial(),
            ))),
            r matches Ok(pf) ==> proves(*g1, public.crs, public.target_polynomial@, self.secret_polynomial(), blinding, pf),
    {
        self.prove_with(public, g1, blinding, &self.my_secret_polynomial)
    }

    /// A deliberately faulty proof, for exercising the verifier's rejection path: as
    /// `prove`, but the alpha-scaled commitment is computed with the degree-two
    /// coefficient raised by one.
    pub fn erroneous_prove<G1: Copy, M1: Fn(G1, usize) -> G1, A1: Fn(G1, G1) -> G1, G2>(
        &self,
        public: &PublicData<G1, G2>,
        g1: &GroupOps<G1, M1, A1>,
        blinding: usize,
    ) -> (r: Result<Proof<G1>, ProveError>)
        requires
            g1.well_behaved(),
            blinding != 0,
            self.secret_polynomial().len() <= 2 || self.secret_polynomial()[2] < usize::MAX,
        ensures
            (r == Err::<Proof<G1>, ProveError>(ProveError::ZeroTarget)) <==> is_zero_poly(
                public.target_polynomial@,
            ),
            (r == Err::<Proof<G1>, ProveError>(ProveError::NotDivisible)) <==> (!is_zero_poly(
                public.target_polynomial@,
            ) && !divides(public.target_polynomial@, self.secret_polynomial())),
            (r == Err::<Proof<G1>, ProveError>(ProveError::DegreeTooHigh)) <==> (!is_zero_poly(
                public.target_polynomial@,
            ) && divides(public.target_polynomial@, self.secret_polynomial()) && !(fits_powers(
                public.crs.encrypted1_s_powers.len() as int,
                self.secret_polynomial(),
            ) && fits_powers(
                public.crs.encrypted1_alpha_times_s_powers.len() as int,
                perturbed(self.secret_polynomial()),
            ))),
            r matches Ok(pf) ==> {
                &&& is_commitment(
                    *g1,
                    public.crs.encrypted1_s_powers@,
                    self.secret_polynomial(),
                    blinding,
                    pf.encrypted1_secret_poly_at_s,
                )
                &&& exists|h: Seq<usize>|
                    is_product(public.target_polynomial@, h, self.secret_polynomial())
                        && #[trigger] is_commitment(
                        *g1,
                        public.crs.encrypted1_s_powers@,
                        h,
                        blinding,
                        pf.encrypted1_ratio_poly_at_s,
                    )
                &&& is_commitment(
                    *g1,
                    public.crs.encrypted1_alpha_times_s_powers@,
                    perturbed(self.secret_polynomial()),
                    blinding,
                    pf.encrypted1_alpha_times_secret_poly_at_s,
                )
            },
    {
        let mut faulty: Vec<usize> = self.my_secret_polynomial.clone();
        if faulty.len() > 2 {
            let c: usize = faulty[2] + 1;
            faulty.set(2, c);
        }
        assert(faulty@ == perturbed(self.secret_polynomial()));
        self.prove_with(public, g1, blinding, &faulty)
    }

    fn prove_with<G1: Copy, M1: Fn(G1, usize) -> G1, A1: Fn(G1, G1) -> G1, G2>(
        &self,
        public: &PublicData<G1, G2>,
        g1: &GroupOps<G1, M1, A1>,
        blinding: usize,
        alpha_poly: &Vec<usize>,
    ) -> (r: Result<Proof<G1>, ProveError>)
        requires
            g1.well_behaved(),
        ensures
            (r == Err::<Proof<G1>, ProveError>(ProveError::ZeroTarget)) <==> is_zero_poly(
                public.target_polynomial@,
            ),
            (r == Err::<Proof<G1>, ProveError>(ProveError::NotDivisible)) <==> (!is_zero_poly(
                public.target_polynomial@,
            ) && !divides(public.target_polynomial@, self.secret_polynomial())),
            (r == Err::<Proof<G1>, ProveError>(ProveError::DegreeTooHigh)) <==> (!is_zero_poly(
                public.target_polynomial@,
            ) && divides(public.target_polynomial@, self.secret_polynomial()) && !(fits_powers(
                public.crs.encrypted1_s_powers.len() as int,
                self.secret_polynomial(),
            ) && fits_powers(
                public.crs.encrypted1_alpha_times_s_powers.len() as int,
                alpha_poly@,
            ))),
            r matches Ok(pf) ==> {
                &&& is_commitment(
                    *g1,
                    public.crs.encrypted1_s_powers@,
                    self.secret_polynomial(),
                    blinding,
                    pf.encrypted1_secret_poly_at_s,
                )
                &&& exists|h: Seq<usize>|
                    is_product(public.target_polynomial@, h, self.secret_polynomial())
                        && #[trigger] is_commitment(
                        *g1,
                        public.crs.encrypted1_s_powers@,
                        h,
                        blinding,
                        pf.encrypted1_ratio_poly_at_s,
                    )
                &&& is_commitment(
                    *g1,
                    public.crs.encrypted1_alpha_times_s_powers@,
                    alpha_poly@,
                    blinding,
                    pf.encrypted1_alpha_times_secret_poly_at_s,
                )
            },
    {
        let p = &self.my_secret_polynomial;
        let crs = &public.crs;
        let h: Vec<usize> = match exact_divide_integer_polynomial(p, &public.target_polynomial) {
            Ok(h) => h,
            Err(DivisionError::ZeroDivisor) => {
                return Err(ProveError::ZeroTarget);
            },
            Err(DivisionError::NotDivisible) => {
                return Err(ProveError::NotDivisible);
            },
        };
        let p_at_s: G1 = match g1.homomorphic_eval_polynomial(&crs.encrypted1_s_powers, p) {
            Ok(v) => v,
            Err(EvalError::DegreeTooHigh) => {
                return Err(ProveError::DegreeTooHigh);
            },
        };
        assert(fits_powers(crs.encrypted1_s_powers.len() as int, h@));
        let h_at_s: G1 = match g1.homomorphic_eval_polynomial(&crs.encrypted1_s_powers, &h) {
            Ok(v) => v,
            Err(EvalError::DegreeTooHigh) => {
                return Err(ProveError::DegreeTooHigh);
            },
        };
        let alpha_p_at_s: G1 = match g1.homomorphic_eval_polynomial(
            &crs.encrypted1_alpha_times_s_powers,
            alpha_poly,
        ) {
            Ok(v) => v,
            Err(EvalError::DegreeTooHigh) => {
                return Err(ProveError::DegreeTooHigh);
            },
        };
        let pf = Proof {
            encrypted1_secret_poly_at_s: g1.homomorphic_multiply(p_at_s, blinding),
            encrypted1_ratio_poly_at_s: g1.homomorphic_multiply(h_at_s, blinding),
            encrypted1_alpha_times_secret_poly_at_s: g1.homomorphic_multiply(
                alpha_p_at_s,
                blinding,
            ),
        };
        assert(is_commitment(*g1, crs.encrypted1_s_powers@, h@, blinding, pf.encrypted1_ratio_poly_at_s));
        Ok(pf)
    }
}

} // verus!
