use vstd::prelude::*;

verus! {

/// The operations of one encrypted group, supplied by the caller: the encodings of
/// one and of zero, scalar multiplication (`encrypt(a)`, `k` to `encrypt(k * a)`)
/// and the group operation (`encrypt(a)`, `encrypt(b)` to `encrypt(a + b)`).
#[verifier::reject_recursive_types(G)]
pub struct GroupOps<G, M: Fn(G, usize) -> G, A: Fn(G, G) -> G> {
    pub generator: G,
    pub identity: G,
    pub scale: M,
    pub combine: A,
}

/// Why a polynomial could not be evaluated over a vector of encrypted powers.
#[derive(Debug, Clone, Copy, PartialEq, Eq, Structural)]
pub enum EvalError {
    /// A nonzero coefficient has no encrypted power to go with it.
    DegreeTooHigh,
}

/// Every coefficient at index `n_powers` or beyond is zero.
pub open spec fn fits_powers(n_powers: int, coeffs: Seq<usize>) -> bool {
    forall|k: int| n_powers <= k < coeffs.len() ==> coeffs[k] == 0
}

/// How many terms an evaluation sums: one per coefficient that has a power.
pub open spec fn n_terms(n_powers: int, n_coeffs: int) -> int {
    if n_powers < n_coeffs {
        n_powers
    } else {
        n_coeffs
    }
}

/// The pairing comparison accepts every input and gives one answer per input.
pub open spec fn pairing_well_behaved<G1, G2, P: Fn(G1, G2, G1, G2) -> bool>(p: P) -> bool {
    &&& forall|a: G1, b: G2, c: G1, d: G2| #[trigger] p.requires((a, b, c, d))
    &&& forall|a: G1, b: G2, c: G1, d: G2, v1: bool, v2: bool|
        p.ensures((a, b, c, d), v1) && p.ensures((a, b, c, d), v2) ==> v1 == v2
}

/// `pairing(a, b) == pairing(c, d)`, as the comparison `p` answers it.
pub open spec fn pairings_agree<G1, G2, P: Fn(G1, G2, G1, G2) -> bool>(
    p: P,
    a: G1,
    b: G2,
    c: G1,
    d: G2,
) -> bool {
    p.ensures((a, b, c, d), true)
}

/// Compares `pairing(a, b)` with `pairing(c, d)`.
pub fn same_pairing<G1, G2, P: Fn(G1, G2, G1, G2) -> bool>(
    p: &P,
    a: G1,
    b: G2,
    c: G1,
    d: G2,
) -> (r: bool)
    requires
        pairing_well_behaved(*p),
    ensures
        r == pairings_agree(*p, a, b, c, d),
{
    p(a, b, c, d)
}

impl<G: Copy, M: Fn(G, usize) -> G, A: Fn(G, G) -> G> GroupOps<G, M, A> {
    /// Both operations accept every input and give one answer per input.
    pub open spec fn well_behaved(&self) -> bool {
        &&& forall|g: G, k: usize| #[trigger] self.scale.requires((g, k))
        &&& forall|x: G, y: G| #[trigger] self.combine.requires((x, y))
        &&& forall|g: G, k: usize, r1: G, r2: G|
            self.scale.ensures((g, k), r1) && self.scale.ensures((g, k), r2) ==> r1 == r2
        &&& forall|x: G, y: G, r1: G, r2: G|
            self.combine.ensures((x, y), r1) && self.combine.ensures((x, y), r2) ==> r1 == r2
    }

    /// `r` is `g` scaled by `k`.
    pub open spec fn scales(&self, g: G, k: usize, r: G) -> bool {
        self.scale.ensures((g, k), r)
    }

    /// `r` is `x` combined with `y`.
    pub open spec fn combines(&self, x: G, y: G, r: G) -> bool {
        self.combine.ensures((x, y), r)
    }

    /// `r` is the encryption of `n`: the generator scaled by `n`.
    pub open spec fn encrypts(&self, n: usize, r: G) -> bool {
        self.scales(self.generator, n, r)
    }

    /// `sums` accumulates, from the identity, `coeffs[k]` times `powers[k]` for each
    /// coefficient that has a power; `terms` holds the scaled powers.
    pub open spec fn is_eval_trace(
        &self,
        powers: Seq<G>,
        coeffs: Seq<usize>,
        terms: Seq<G>,
        sums: Seq<G>,
    ) -> bool {
        let n = n_terms(powers.len() as int, coeffs.len() as int);
        &&& terms.len() == n
        &&& sums.len() == n + 1
        &&& sums[0] == self.identity
        &&& forall|k: int|
            #![trigger terms[k]]
            0 <= k < n ==> self.scales(powers[k], coeffs[k], terms[k]) && self.combines(
                sums[k],
                terms[k],
                sums[k + 1],
            )
    }

    /// `r` is the polynomial `coeffs` evaluated over `powers` in the encrypted domain.
    pub open spec fn evaluates(&self, powers: Seq<G>, coeffs: Seq<usize>, r: G) -> bool {
        exists|terms: Seq<G>, sums: Seq<G>|
            #[trigger] self.is_eval_trace(powers, coeffs, terms, sums) && r == sums.last()
    }

    /// An evaluation has one result, since the operations are deterministic.
    pub proof fn lemma_evaluates_unique(&self, powers: Seq<G>, coeffs: Seq<usize>, r1: G, r2: G)
        requires
            self.well_behaved(),
            self.evaluates(powers, coeffs, r1),
            self.evaluates(powers, coeffs, r2),
        ensures
            r1 == r2,
    {
        let (t1, s1) = choose|terms: Seq<G>, sums: Seq<G>|
            #[trigger] self.is_eval_trace(powers, coeffs, terms, sums) && r1 == sums.last();
        let (t2, s2) = choose|terms: Seq<G>, sums: Seq<G>|
            #[trigger] self.is_eval_trace(powers, coeffs, terms, sums) && r2 == sums.last();
        let n = n_terms(powers.len() as int, coeffs.len() as int);
        self.lemma_traces_agree(powers, coeffs, t1, s1, t2, s2, n);
    }

    proof fn lemma_traces_agree(
        &self,
        powers: Seq<G>,
        coeffs: Seq<usize>,
        t1: Seq<G>,
        s1: Seq<G>,
        t2: Seq<G>,
        s2: Seq<G>,
        k: int,
    )
        requires
            self.well_behaved(),
            self.is_eval_trace(powers, coeffs, t1, s1),
            self.is_eval_trace(powers, coeffs, t2, s2),
            0 <= k <= n_terms(powers.len() as int, coeffs.len() as int),
        ensures
            s1[k] == s2[k],
        decreases k,
    {
        if k > 0 {
            self.lemma_traces_agree(powers, coeffs, t1, s1, t2, s2, k - 1);
            assert(t1[k - 1] == t2[k - 1]);
        }
    }

    /// Homomorphic multiplication of `e` by the cleartext `k`.
    pub fn homomorphic_multiply(&self, e: G, k: usize) -> (r: G)
        requires
            self.well_behaved(),
        ensures
            self.scales(e, k, r),
    {
        (self.scale)(e, k)
    }

    /// The group operation.
    pub fn group_add(&self, x: G, y: G) -> (r: G)
        requires
            self.well_behaved(),
        ensures
            self.combines(x, y, r),
    {
        (self.combine)(x, y)
    }

    /// The encryption of `n`.
    pub fn encrypt(&self, n: usize) -> (r: G)
        requires
            self.well_behaved(),
        ensures
            self.encrypts(n, r),
    {
        self.homomorphic_multiply(self.generator, n)
    }

    /// The encryption of each scalar.
    pub fn encrypt_each(&self, scalars: &Vec<usize>) -> (r: Vec<G>)
        requires
            self.well_behaved(),
        ensures
            r.len() == scalars.len(),
            forall|k: int| 0 <= k < r.len() ==> self.encrypts(scalars[k], #[trigger] r[k]),
    {
        let mut r: Vec<G> = Vec::new();
        let mut k: usize = 0;
        while k < scalars.len()
            invariant
                self.well_behaved(),
                k <= scalars.len(),
                r.len() == k,
                forall|i: int| 0 <= i < k ==> self.encrypts(scalars[i], #[trigger] r[i]),
            decreases scalars.len() - k,
        {
            let e: G = self.encrypt(scalars[k]);
            r.push(e);
            k = k + 1;
        }
        r
    }

    /// Each element scaled by the scalar at the same index.
    pub fn scale_each(&self, elems: &Vec<G>, scalars: &Vec<usize>) -> (r: Vec<G>)
        requires
            self.well_behaved(),
            elems.len() == scalars.len(),
        ensures
            r.len() == scalars.len(),
            forall|k: int|
                0 <= k < r.len() ==> self.scales(elems[k], scalars[k], #[trigger] r[k]),
    {
        let mut r: Vec<G> = Vec::new();
        let mut k: usize = 0;
        while k < scalars.len()
            invariant
                self.well_behaved(),
                elems.len() == scalars.len(),
                k <= scalars.len(),
                r.len() == k,
                forall|i: int| 0 <= i < k ==> self.scales(elems[i], scalars[i], #[trigger] r[i]),
            decreases scalars.len() - k,
        {
            let e: G = self.homomorphic_multiply(elems[k], scalars[k]);
            r.push(e);
            k = k + 1;
        }
        r
    }

    /// Each element scaled by the same scalar `k`.
    pub fn scale_all_by(&self, elems: &Vec<G>, k: usize) -> (r: Vec<G>)
        requires
            self.well_behaved(),
        ensures
            r.len() == elems.len(),
            forall|i: int| 0 <= i < r.len() ==> self.scales(elems[i], k, #[trigger] r[i]),
    {
        let mut r: Vec<G> = Vec::new();
        let mut i: usize = 0;
        while i < elems.len()
            invariant
                self.well_behaved(),
                i <= elems.len(),
                r.len() == i,
                forall|x: int| 0 <= x < i ==> self.scales(elems[x], k, #[trigger] r[x]),
            decreases elems.len() - i,
        {
            let e: G = self.homomorphic_multiply(elems[i], k);
            r.push(e);
            i = i + 1;
        }
        r
    }

    /// The element `e` scaled by each scalar.
    pub fn scale_by_each(&self, e: G, scalars: &Vec<usize>) -> (r: Vec<G>)
        requires
            self.well_behaved(),
        ensures
            r.len() == scalars.len(),
            forall|i: int| 0 <= i < r.len() ==> self.scales(e, scalars[i], #[trigger] r[i]),
    {
        let mut r: Vec<G> = Vec::new();
        let mut i: usize = 0;
        while i < scalars.len()
            invariant
                self.well_behaved(),
                i <= scalars.len(),
                r.len() == i,
                forall|x: int| 0 <= x < i ==> self.scales(e, scalars[x], #[trigger] r[x]),
            decreases scalars.len() - i,
        {
            let v: G = self.homomorphic_multiply(e, scalars[i]);
            r.push(v);
            i = i + 1;
        }
        r
    }

    /// Evaluates `polynomial` (lowest degree first) at the hidden point whose powers
    /// `encrypted_x_powers` holds, as the sum of each coefficient times its power.
    /// Fails where a nonzero coefficient has no power, rather than dropping it.
    pub fn homomorphic_eval_polynomial(
        &self,
        encrypted_x_powers: &Vec<G>,
        polynomial: &Vec<usize>,
    ) -> (r: Result<G, EvalError>)
        requires
            self.well_behaved(),
        ensures
            r is Ok <==> fits_powers(encrypted_x_powers.len() as int, polynomial@),
            r matches Ok(v) ==> self.evaluates(encrypted_x_powers@, polynomial@, v),
    {
        let n_powers: usize = encrypted_x_powers.len();
        let mut c: usize = n_powers;
        while c < polynomial.len()
            invariant
                n_powers == encrypted_x_powers.len(),
                n_powers <= c,
                forall|k: int| n_powers <= k < c && k < polynomial.len() ==> polynomial[k] == 0,
            decreases polynomial.len() - c,
        {
            if polynomial[c] != 0 {
                assert(!fits_powers(n_powers as int, polynomial@));
                return Err(EvalError::DegreeTooHigh);
            }
            c = c + 1;
        }
        let n: usize = if n_powers < polynomial.len() { n_powers } else { polynomial.len() };
        let ghost mut terms: Seq<G> = Seq::empty();
        let ghost mut sums: Seq<G> = seq![self.identity];
        let mut acc: G = self.identity;
        let mut k: usize = 0;
        while k < n
            invariant
                self.well_behaved(),
                n == n_terms(encrypted_x_powers.len() as int, polynomial.len() as int),
                k <= n,
                terms.len() == k,
                sums.len() == k + 1,
                sums[0] == self.identity,
                acc == sums[k as int],
                forall|i: int|
                    #![trigger terms[i]]
                    0 <= i < k ==> self.scales(encrypted_x_powers[i], polynomial[i], terms[i])
                        && self.combines(sums[i], terms[i], sums[i + 1]),
            decreases n - k,
        {
            let t: G = self.homomorphic_multiply(encrypted_x_powers[k], polynomial[k]);
            let next: G = self.group_add(acc, t);
            proof {
                terms = terms.push(t);
                sums = sums.push(next);
            }
            acc = next;
            k = k + 1;
        }
        proof {
            assert(self.is_eval_trace(encrypted_x_powers@, polynomial@, terms, sums));
        }
        Ok(acc)
    }
}

} // verus!
