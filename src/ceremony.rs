use crate::group::{pairing_well_behaved, pairings_agree, same_pairing, GroupOps};
use vstd::arithmetic::power::pow;
use vstd::prelude::*;

verus! {

/// Highest degree that the reference string supports.
pub const POLYNOMIAL_DEGREE: usize = 5;

/// Entries of each vector of powers: one per degree from zero to the bound.
pub const CRS_LEN: usize = 6;

/// The common reference string: encrypted powers of a hidden point `s`, also
/// scaled by a hidden `alpha`, in the two groups of the pairing.
pub struct Crs<G1, G2> {
    pub encrypted2_alpha: G2,
    pub encrypted2_s_powers: Vec<G2>,
    pub encrypted1_s_powers: Vec<G1>,
    pub encrypted1_alpha_times_s_powers: Vec<G1>,
}

/// What one participant's contribution changed, in the opposite group encodings,
/// so that an auditor can check the transformation without learning the secrets.
pub struct CrsCeremonyStep<G1, G2> {
    pub encrypted1_s_powers: Vec<G1>,
    pub encrypted1_alpha: G1,
    pub encrypted2_alpha_times_s_powers: Vec<G2>,
}

/// One entry of the transcript: the reference string after a contribution, and the
/// step that produced it.
pub struct CrsCeremonyValues<G1, G2> {
    pub accumulator: Crs<G1, G2>,
    pub step: CrsCeremonyStep<G1, G2>,
}

/// The ordered history of contributions.
pub struct CrsCeremonyTranscript<G1, G2> {
    pub history: Vec<CrsCeremonyValues<G1, G2>>,
}

/// Why a participant could not contribute.
#[derive(Debug, Clone, Copy, PartialEq, Eq, Structural)]
pub enum CeremonyError {
    /// A power of the secret point, or one scaled by alpha, exceeds `usize`.
    Overflow,
    /// There is no earlier contribution to build on.
    EmptyTranscript,
    /// The transcript so far fails validation.
    InvalidTranscript,
}

/// Every power `s^k` up to the degree bound fits in `usize`.
pub open spec fn powers_fit(s: nat) -> bool {
    forall|k: nat| k <= POLYNOMIAL_DEGREE ==> #[trigger] pow(s as int, k) <= usize::MAX
}

/// `s^k` as a cleartext scalar.
pub open spec fn s_power(s: nat, k: int) -> usize {
    pow(s as int, k as nat) as usize
}

/// The three vectors of a reference string have one entry per degree.
pub open spec fn crs_lengths_ok<G1, G2>(c: Crs<G1, G2>) -> bool {
    &&& c.encrypted2_s_powers.len() == CRS_LEN
    &&& c.encrypted1_s_powers.len() == CRS_LEN
    &&& c.encrypted1_alpha_times_s_powers.len() == CRS_LEN
}

/// The two vectors of a step have one entry per degree.
pub open spec fn step_lengths_ok<G1, G2>(st: CrsCeremonyStep<G1, G2>) -> bool {
    &&& st.encrypted1_s_powers.len() == CRS_LEN
    &&& st.encrypted2_alpha_times_s_powers.len() == CRS_LEN
}

/// `c` is the reference string built from scratch out of `s` and `alpha`.
pub open spec fn is_initial_crs<G1: Copy, M1: Fn(G1, usize) -> G1, A1: Fn(G1, G1) -> G1, G2: Copy, M2: Fn(G2, usize) -> G2, A2: Fn(G2, G2) -> G2>(
    g1: GroupOps<G1, M1, A1>,
    g2: GroupOps<G2, M2, A2>,
    c: Crs<G1, G2>,
    s: nat,
    alpha: nat,
) -> bool {
    &&& crs_lengths_ok(c)
    &&& g2.encrypts(alpha as usize, c.encrypted2_alpha)
    &&& forall|k: int|
        #![trigger c.encrypted1_s_powers[k]]
        0 <= k < CRS_LEN ==> {
            &&& g2.encrypts(s_power(s, k), c.encrypted2_s_powers[k])
            &&& g1.encrypts(s_power(s, k), c.encrypted1_s_powers[k])
            &&& g1.scales(c.encrypted1_s_powers[k], alpha as usize, c.encrypted1_alpha_times_s_powers[k])
        }
}

/// `st` exposes `s^k`, `alpha` and `alpha * s^k` in the opposite encodings; the last
/// as the encryption of `alpha` scaled by `s^k`.
pub open spec fn is_step_of<G1: Copy, M1: Fn(G1, usize) -> G1, A1: Fn(G1, G1) -> G1, G2: Copy, M2: Fn(G2, usize) -> G2, A2: Fn(G2, G2) -> G2>(
    g1: GroupOps<G1, M1, A1>,
    g2: GroupOps<G2, M2, A2>,
    st: CrsCeremonyStep<G1, G2>,
    s: nat,
    alpha: nat,
) -> bool {
    &&& step_lengths_ok(st)
    &&& g1.encrypts(alpha as usize, st.encrypted1_alpha)
    &&& forall|k: int|
        #![trigger st.encrypted1_s_powers[k]]
        0 <= k < CRS_LEN ==> g1.encrypts(s_power(s, k), st.encrypted1_s_powers[k])
    &&& exists|alpha2: G2|
        #[trigger] g2.encrypts(alpha as usize, alpha2) && forall|k: int|
            #![trigger st.encrypted2_alpha_times_s_powers[k]]
            0 <= k < CRS_LEN ==> g2.scales(
                alpha2,
                s_power(s, k),
                st.encrypted2_alpha_times_s_powers[k],
            )
}

/// `after` is `before` with `s` and `alpha` folded in: every entry scaled by the
/// matching power of the new secrets, the alpha-scaled entries by `s^k` and then by
/// `alpha`.
pub open spec fn is_folded_crs<G1: Copy, M1: Fn(G1, usize) -> G1, A1: Fn(G1, G1) -> G1, G2: Copy, M2: Fn(G2, usize) -> G2, A2: Fn(G2, G2) -> G2>(
    g1: GroupOps<G1, M1, A1>,
    g2: GroupOps<G2, M2, A2>,
    before: Crs<G1, G2>,
    after: Crs<G1, G2>,
    s: nat,
    alpha: nat,
) -> bool {
    &&& crs_lengths_ok(after)
    &&& g2.scales(before.encrypted2_alpha, alpha as usize, after.encrypted2_alpha)
    &&& forall|k: int|
        #![trigger after.encrypted1_s_powers[k]]
        0 <= k < CRS_LEN ==> {
            &&& g2.scales(before.encrypted2_s_powers[k], s_power(s, k), after.encrypted2_s_powers[k])
            &&& g1.scales(before.encrypted1_s_powers[k], s_power(s, k), after.encrypted1_s_powers[k])
            &&& exists|m: G1|
                #[trigger] g1.scales(before.encrypted1_alpha_times_s_powers[k], s_power(s, k), m)
                    && g1.scales(m, alpha as usize, after.encrypted1_alpha_times_s_powers[k])
        }
}

/// `pairing(e1_s[i], e2_s[j]) == pairing(e1_s[0], e2_s[i + j])`: both vectors hold
/// powers of one and the same point.
pub open spec fn ratio_holds<G1, G2, P: Fn(G1, G2, G1, G2) -> bool>(
    c: Crs<G1, G2>,
    p: P,
    i: int,
    j: int,
) -> bool {
    pairings_agree(
        p,
        c.encrypted1_s_powers[i],
        c.encrypted2_s_powers[j],
        c.encrypted1_s_powers[0],
        c.encrypted2_s_powers[i + j],
    )
}

/// The checks on one snapshot of the reference string: lengths; the alpha-scaled
/// vector agrees with `encrypted2_alpha`; both groups encode the same powers; and
/// those are powers of a single point. `one1` and `one2` encrypt the number one.
pub open spec fn is_internally_consistent<G1, G2, P: Fn(G1, G2, G1, G2) -> bool>(
    c: Crs<G1, G2>,
    one1: G1,
    one2: G2,
    p: P,
) -> bool {
    &&& crs_lengths_ok(c)
    &&& forall|k: int|
        #![trigger c.encrypted1_s_powers[k]]
        0 <= k < CRS_LEN ==> pairings_agree(
            p,
            c.encrypted1_s_powers[k],
            c.encrypted2_alpha,
            c.encrypted1_alpha_times_s_powers[k],
            one2,
        ) && pairings_agree(p, c.encrypted1_s_powers[k], one2, one1, c.encrypted2_s_powers[k])
    &&& forall|i: int, j: int|
        1 <= i && 0 <= j && i + j <= POLYNOMIAL_DEGREE ==> #[trigger] ratio_holds(c, p, i, j)
}

/// `after` is `before` transformed by exactly the secrets that `after.step` exposes.
pub open spec fn is_valid_step<G1, G2, P: Fn(G1, G2, G1, G2) -> bool>(
    before: CrsCeremonyValues<G1, G2>,
    after: CrsCeremonyValues<G1, G2>,
    one1: G1,
    one2: G2,
    p: P,
) -> bool {
    let b = before.accumulator;
    let a = after.accumulator;
    let st = after.step;
    &&& crs_lengths_ok(b)
    &&& crs_lengths_ok(a)
    &&& step_lengths_ok(st)
    &&& pairings_agree(p, st.encrypted1_alpha, b.encrypted2_alpha, one1, a.encrypted2_alpha)
    &&& forall|k: int|
        #![trigger st.encrypted1_s_powers[k]]
        0 <= k < CRS_LEN ==> pairings_agree(
            p,
            st.encrypted1_s_powers[k],
            b.encrypted2_s_powers[k],
            a.encrypted1_s_powers[k],
            one2,
        ) && pairings_agree(
            p,
            b.encrypted1_alpha_times_s_powers[k],
            st.encrypted2_alpha_times_s_powers[k],
            a.encrypted1_alpha_times_s_powers[k],
            one2,
        )
}

/// Every snapshot is internally consistent and every entry follows from the one
/// before it.
pub open spec fn is_valid_transcript<G1, G2, P: Fn(G1, G2, G1, G2) -> bool>(
    h: Seq<CrsCeremonyValues<G1, G2>>,
    one1: G1,
    one2: G2,
    p: P,
) -> bool {
    &&& forall|i: int|
        0 <= i < h.len() ==> is_internally_consistent(#[trigger] h[i].accumulator, one1, one2, p)
    &&& forall|i: int| 1 <= i < h.len() ==> #[trigger] is_valid_step(h[i - 1], h[i], one1, one2, p)
}

/// One participant of the setup ceremony, holding a secret evaluation point `s` and
/// a secret scaling factor `alpha`. Contributing consumes the participant.
pub struct CrsPlayer {
    s: usize,
    alpha: usize,
}

impl CrsPlayer {
    /// The secret evaluation point.
    pub closed spec fn secret_s(&self) -> nat {
        self.s as nat
    }

    /// The secret scaling factor.
    pub closed spec fn secret_alpha(&self) -> nat {
        self.alpha as nat
    }

    /// A participant with secret point `s` and secret scaling factor `alpha`.
    pub fn new(s: usize, alpha: usize) -> (r: Self)
        ensures
            r.secret_s() == s,
            r.secret_alpha() == alpha,
    {
        Self { s, alpha }
    }

    /// Overwrites both secrets.
    pub fn secure_erase_my_secret_s_and_alpha_values(&mut self)
        ensures
            final(self).secret_s() == 0,
            final(self).secret_alpha() == 0,
    {
        self.s = 0;
        self.alpha = 0;
    }

    fn get_crs_step_values<G1: Copy, M1: Fn(G1, usize) -> G1, A1: Fn(G1, G1) -> G1, G2: Copy, M2: Fn(G2, usize) -> G2, A2: Fn(G2, G2) -> G2>(
        &self,
        g1: &GroupOps<G1, M1, A1>,
        g2: &GroupOps<G2, M2, A2>,
        s_powers: &Vec<usize>,
    ) -> (r: CrsCeremonyStep<G1, G2>)
        requires
            g1.well_behaved(),
            g2.well_behaved(),
            s_powers.len() == CRS_LEN,
            forall|k: int| 0 <= k < CRS_LEN ==> #[trigger] s_powers[k] == s_power(self.s as nat, k),
        ensures
            is_step_of(*g1, *g2, r, self.s as nat, self.alpha as nat),
    {
        let alpha2: G2 = g2.encrypt(self.alpha);
        let step = CrsCeremonyStep {
            encrypted1_s_powers: g1.encrypt_each(s_powers),
            encrypted1_alpha: g1.encrypt(self.alpha),
            encrypted2_alpha_times_s_powers: g2.scale_by_each(alpha2, s_powers),
        };
        assert forall|k: int|
            #![trigger step.encrypted1_s_powers[k]]
            0 <= k < CRS_LEN implies g1.encrypts(
                s_power(self.s as nat, k),
                step.encrypted1_s_powers[k],
            ) by {
            assert(s_powers[k] == s_power(self.s as nat, k));
        }
        assert forall|k: int|
            #![trigger step.encrypted2_alpha_times_s_powers[k]]
            0 <= k < CRS_LEN implies g2.scales(
                alpha2,
                s_power(self.s as nat, k),
                step.encrypted2_alpha_times_s_powers[k],
            ) by {
            assert(s_powers[k] == s_power(self.s as nat, k));
        }
        assert(step_lengths_ok(step));
        assert(g1.encrypts(self.alpha, step.encrypted1_alpha));
        assert(g2.encrypts(self.alpha, alpha2));
        assert(is_step_of(*g1, *g2, step, self.s as nat, self.alpha as nat));
        step
    }

    /// Builds the first reference string from this participant's secrets alone,
    /// then erases them.
    pub fn start_crs_ceremony<G1: Copy, M1: Fn(G1, usize) -> G1, A1: Fn(G1, G1) -> G1, G2: Copy, M2: Fn(G2, usize) -> G2, A2: Fn(G2, G2) -> G2>(
        self,
        g1: &GroupOps<G1, M1, A1>,
        g2: &GroupOps<G2, M2, A2>,
    ) -> (r: Result<CrsCeremonyValues<G1, G2>, CeremonyError>)
        requires
            g1.well_behaved(),
            g2.well_behaved(),
        ensures
            r is Err <==> !powers_fit(self.secret_s()),
            r is Err ==> r == Err::<CrsCeremonyValues<G1, G2>, CeremonyError>(
                CeremonyError::Overflow,
            ),
            r matches Ok(v) ==> is_initial_crs(
                *g1,
                *g2,
                v.accumulator,
                self.secret_s(),
                self.secret_alpha(),
            ) && is_step_of(*g1, *g2, v.step, self.secret_s(), self.secret_alpha()),
    {
        let mut me = self;
        let sp: Vec<usize> = match me.secret_powers() {
            Some(p) => p,
            None => {
                me.secure_erase_my_secret_s_and_alpha_values();
                return Err(CeremonyError::Overflow);
            },
        };
        let encrypted1_s_powers: Vec<G1> = g1.encrypt_each(&sp);
        let encrypted1_alpha_times_s_powers: Vec<G1> = g1.scale_all_by(&encrypted1_s_powers, me.alpha);
        let accumulator = Crs {
            encrypted2_alpha: g2.encrypt(me.alpha),
            encrypted2_s_powers: g2.encrypt_each(&sp),
            encrypted1_s_powers,
            encrypted1_alpha_times_s_powers,
        };
        let step = me.get_crs_step_values(g1, g2, &sp);
        assert forall|k: int|
            #![trigger accumulator.encrypted1_s_powers[k]]
            0 <= k < CRS_LEN implies {
            &&& g2.encrypts(s_power(self.s as nat, k), accumulator.encrypted2_s_powers[k])
            &&& g1.encrypts(s_power(self.s as nat, k), accumulator.encrypted1_s_powers[k])
            &&& g1.scales(
                accumulator.encrypted1_s_powers[k],
                self.alpha,
                accumulator.encrypted1_alpha_times_s_powers[k],
            )
        } by {
            assert(sp[k] == s_power(self.s as nat, k));
        }
        assert(crs_lengths_ok(accumulator));
        assert(is_initial_crs(*g1, *g2, accumulator, self.s as nat, self.alpha as nat));
        me.secure_erase_my_secret_s_and_alpha_values();
        Ok(CrsCeremonyValues { accumulator, step })
    }

    /// Audits the transcript, then folds this participant's secrets into its last
    /// reference string and erases them.
    pub fn continue_crs_ceremony<G1: Copy, M1: Fn(G1, usize) -> G1, A1: Fn(G1, G1) -> G1, G2: Copy, M2: Fn(G2, usize) -> G2, A2: Fn(G2, G2) -> G2, P: Fn(G1, G2, G1, G2) -> bool>(
        self,
        transcript: &CrsCeremonyTranscript<G1, G2>,
        g1: &GroupOps<G1, M1, A1>,
        g2: &GroupOps<G2, M2, A2>,
        pairing: &P,
    ) -> (r: Result<CrsCeremonyValues<G1, G2>, CeremonyError>)
        requires
            g1.well_behaved(),
            g2.well_behaved(),
            pairing_well_behaved(*pairing),
        ensures
            (r == Err::<CrsCeremonyValues<G1, G2>, CeremonyError>(CeremonyError::EmptyTranscript))
                <==> transcript.history.len() == 0,
            (r == Err::<CrsCeremonyValues<G1, G2>, CeremonyError>(
                CeremonyError::InvalidTranscript,
            )) <==> (transcript.history.len() > 0 && !is_valid_transcript(
                transcript.history@,
                g1.generator,
                g2.generator,
                *pairing,
            )),
            (r == Err::<CrsCeremonyValues<G1, G2>, CeremonyError>(CeremonyError::Overflow)) <==> (
            transcript.history.len() > 0 && is_valid_transcript(
                transcript.history@,
                g1.generator,
                g2.generator,
                *pairing,
            ) && !powers_fit(self.secret_s())),
            r matches Ok(v) ==> is_folded_crs(
                *g1,
                *g2,
                transcript.history@.last().accumulator,
                v.accumulator,
                self.secret_s(),
                self.secret_alpha(),
            ) && is_step_of(*g1, *g2, v.step, self.secret_s(), self.secret_alpha()),
    {
        let mut me = self;
        if transcript.history.len() == 0 {
            me.secure_erase_my_secret_s_and_alpha_values();
            return Err(CeremonyError::EmptyTranscript);
        }
        if !validate_ceremony_transcript(transcript, g1.generator, g2.generator, pairing) {
            me.secure_erase_my_secret_s_and_alpha_values();
            return Err(CeremonyError::InvalidTranscript);
        }
        let sp: Vec<usize> = match me.secret_powers() {
            Some(p) => p,
            None => {
                me.secure_erase_my_secret_s_and_alpha_values();
                return Err(CeremonyError::Overflow);
            },
        };
        proof {
            let last: int = transcript.history.len() - 1;
            assert(is_internally_consistent(
                transcript.history@[last].accumulator,
                g1.generator,
                g2.generator,
                *pairing,
            ));
        }
        let retval = me.mix_my_secrets_into_ceremony_transcript(transcript, g1, g2, &sp);
        me.secure_erase_my_secret_s_and_alpha_values();
        Ok(retval)
    }

    fn mix_my_secrets_into_ceremony_transcript<G1: Copy, M1: Fn(G1, usize) -> G1, A1: Fn(G1, G1) -> G1, G2: Copy, M2: Fn(G2, usize) -> G2, A2: Fn(G2, G2) -> G2>(
        &self,
        transcript: &CrsCeremonyTranscript<G1, G2>,
        g1: &GroupOps<G1, M1, A1>,
        g2: &GroupOps<G2, M2, A2>,
        s_powers: &Vec<usize>,
    ) -> (r: CrsCeremonyValues<G1, G2>)
        requires
            g1.well_behaved(),
            g2.well_behaved(),
            transcript.history.len() > 0,
            crs_lengths_ok(transcript.history@.last().accumulator),
            s_powers.len() == CRS_LEN,
            forall|k: int| 0 <= k < CRS_LEN ==> #[trigger] s_powers[k] == s_power(self.s as nat, k),
        ensures
            is_folded_crs(
                *g1,
                *g2,
                transcript.history@.last().accumulator,
                r.accumulator,
                self.s as nat,
                self.alpha as nat,
            ),
            is_step_of(*g1, *g2, r.step, self.s as nat, self.alpha as nat),
    {
        let crs_current = &transcript.history[transcript.history.len() - 1].accumulator;
        let alpha_times_s_scaled: Vec<G1> = g1.scale_each(
            &crs_current.encrypted1_alpha_times_s_powers,
            s_powers,
        );
        let accumulator = Crs {
            encrypted2_alpha: g2.homomorphic_multiply(crs_current.encrypted2_alpha, self.alpha),
            encrypted2_s_powers: g2.scale_each(&crs_current.encrypted2_s_powers, s_powers),
            encrypted1_s_powers: g1.scale_each(&crs_current.encrypted1_s_powers, s_powers),
            encrypted1_alpha_times_s_powers: g1.scale_all_by(&alpha_times_s_scaled, self.alpha),
        };
        let step = self.get_crs_step_values(g1, g2, s_powers);
        proof {
            let before = transcript.history@.last().accumulator;
            assert forall|k: int|
                #![trigger accumulator.encrypted1_s_powers[k]]
                0 <= k < CRS_LEN implies {
                &&& g2.scales(
                    before.encrypted2_s_powers[k],
                    s_power(self.s as nat, k),
                    accumulator.encrypted2_s_powers[k],
                )
                &&& g1.scales(
                    before.encrypted1_s_powers[k],
                    s_power(self.s as nat, k),
                    accumulator.encrypted1_s_powers[k],
                )
                &&& exists|m: G1|
                    #[trigger] g1.scales(
                        before.encrypted1_alpha_times_s_powers[k],
                        s_power(self.s as nat, k),
                        m,
                    ) && g1.scales(m, self.alpha, accumulator.encrypted1_alpha_times_s_powers[k])
            } by {
                assert(s_powers[k] == s_power(self.s as nat, k));
                assert(g1.scales(
                    before.encrypted1_alpha_times_s_powers[k],
                    s_power(self.s as nat, k),
                    alpha_times_s_scaled[k],
                ));
            }
            assert(crs_lengths_ok(accumulator));
            assert(is_folded_crs(*g1, *g2, before, accumulator, self.s as nat, self.alpha as nat));
        }
        CrsCeremonyValues { accumulator, step }
    }

    /// `s^k` for every degree `k`, or `None` where one overflows.
    fn secret_powers(&self) -> (r: Option<Vec<usize>>)
        ensures
            r is None <==> !powers_fit(self.s as nat),
            r matches Some(sp) ==> sp.len() == CRS_LEN && (forall|k: int|
                0 <= k < CRS_LEN ==> #[trigger] sp[k] == s_power(self.s as nat, k)),
    {
        let mut sp: Vec<usize> = Vec::new();
        let mut p: usize = 1;
        let mut k: usize = 0;
        proof {
            reveal(pow);
        }
        while k < CRS_LEN
            invariant
                k <= CRS_LEN,
                sp.len() == k,
                k < CRS_LEN ==> p as int == pow(self.s as int, k as nat),
                forall|i: int| 0 <= i < k ==> #[trigger] sp[i] == s_power(self.s as nat, i),
                forall|i: nat| i < k ==> #[trigger] pow(self.s as int, i) <= usize::MAX,
            decreases CRS_LEN - k,
        {
            proof {
                reveal(pow);
            }
            sp.push(p);
            assert(sp[k as int] == s_power(self.s as nat, k as int));
            if k + 1 < CRS_LEN {
                p = match self.s.checked_mul(p) {
                    Some(v) => v,
                    None => {
                        assert(pow(self.s as int, (k + 1) as nat) == self.s * pow(
                            self.s as int,
                            k as nat,
                        ));
                        assert(!(pow(self.s as int, (k + 1) as nat) <= usize::MAX));
                        return None;
                    },
                };
                assert(pow(self.s as int, (k + 1) as nat) == self.s * pow(self.s as int, k as nat));
            }
            k = k + 1;
        }
        Some(sp)
    }
}

/// Checks one snapshot of the reference string; see `is_internally_consistent`.
pub fn current_crs_value_is_internally_consistent<G1: Copy, G2: Copy, P: Fn(G1, G2, G1, G2) -> bool>(
    accumulator: &Crs<G1, G2>,
    one1: G1,
    one2: G2,
    pairing: &P,
) -> (r: bool)
    requires
        pairing_well_behaved(*pairing),
    ensures
        r == is_internally_consistent(*accumulator, one1, one2, *pairing),
{
    // the pairing checks index every vector, so the lengths come first
    if !(accumulator.encrypted2_s_powers.len() == CRS_LEN && accumulator.encrypted1_s_powers.len()
        == CRS_LEN && accumulator.encrypted1_alpha_times_s_powers.len() == CRS_LEN) {
        return false;
    }
    let mut k: usize = 0;
    while k < CRS_LEN
        invariant
            pairing_well_behaved(*pairing),
            crs_lengths_ok(*accumulator),
            k <= CRS_LEN,
            forall|i: int|
                #![trigger accumulator.encrypted1_s_powers[i]]
                0 <= i < k ==> pairings_agree(
                    *pairing,
                    accumulator.encrypted1_s_powers[i],
                    accumulator.encrypted2_alpha,
                    accumulator.encrypted1_alpha_times_s_powers[i],
                    one2,
                ) && pairings_agree(
                    *pairing,
                    accumulator.encrypted1_s_powers[i],
                    one2,
                    one1,
                    accumulator.encrypted2_s_powers[i],
                ),
        decreases CRS_LEN - k,
    {
        let alpha_relation: bool = same_pairing(
            pairing,
            accumulator.encrypted1_s_powers[k],
            accumulator.encrypted2_alpha,
            accumulator.encrypted1_alpha_times_s_powers[k],
            one2,
        );
        let groups_match: bool = same_pairing(
            pairing,
            accumulator.encrypted1_s_powers[k],
            one2,
            one1,
            accumulator.encrypted2_s_powers[k],
        );
        if !(alpha_relation && groups_match) {
            proof {
                let ki: int = k as int;
                assert(!alpha_relation ==> !pairings_agree(
                    *pairing,
                    accumulator.encrypted1_s_powers@[ki],
                    accumulator.encrypted2_alpha,
                    accumulator.encrypted1_alpha_times_s_powers@[ki],
                    one2,
                ));
                assert(!groups_match ==> !pairings_agree(
                    *pairing,
                    accumulator.encrypted1_s_powers@[ki],
                    one2,
                    one1,
                    accumulator.encrypted2_s_powers@[ki],
                ));
                assert(!is_internally_consistent(*accumulator, one1, one2, *pairing));
            }
            return false;
        }
        k = k + 1;
    }
    let mut n: usize = 1;
    while n <= POLYNOMIAL_DEGREE
        invariant
            pairing_well_behaved(*pairing),
            crs_lengths_ok(*accumulator),
            1 <= n <= POLYNOMIAL_DEGREE + 1,
            forall|i: int, j: int|
                1 <= i && 0 <= j && i + j < n ==> #[trigger] ratio_holds(*accumulator, *pairing, i, j),
        decreases POLYNOMIAL_DEGREE + 1 - n,
    {
        let mut i: usize = 1;
        while i <= n
            invariant
                pairing_well_behaved(*pairing),
                crs_lengths_ok(*accumulator),
                1 <= n <= POLYNOMIAL_DEGREE,
                1 <= i <= n + 1,
                forall|a: int, b: int|
                    1 <= a && 0 <= b && a + b < n ==> #[trigger] ratio_holds(*accumulator, *pairing, a, b),
                forall|a: int, b: int|
                    1 <= a < i && a + b == n ==> #[trigger] ratio_holds(*accumulator, *pairing, a, b),
            decreases n + 1 - i,
        {
            if !same_pairing(
                pairing,
                accumulator.encrypted1_s_powers[i],
                accumulator.encrypted2_s_powers[n - i],
                accumulator.encrypted1_s_powers[0],
                accumulator.encrypted2_s_powers[n],
            ) {
                proof {
                    let ii: int = i as int;
                    let jj: int = (n - i) as int;
                    assert(!ratio_holds(*accumulator, *pairing, ii, jj));
                    if is_internally_consistent(*accumulator, one1, one2, *pairing) {
                        assert(ratio_holds(*accumulator, *pairing, ii, jj));
                    }
                }
                return false;
            }
            assert(ratio_holds(*accumulator, *pairing, i as int, (n - i) as int));
            i = i + 1;
        }
        n = n + 1;
    }
    true
}

/// Checks that `after` follows from `before`; see `is_valid_step`.
pub fn is_valid_crs_ceremony_step<G1: Copy, G2: Copy, P: Fn(G1, G2, G1, G2) -> bool>(
    before: &CrsCeremonyValues<G1, G2>,
    after: &CrsCeremonyValues<G1, G2>,
    one1: G1,
    one2: G2,
    pairing: &P,
) -> (r: bool)
    requires
        pairing_well_behaved(*pairing),
    ensures
        r == is_valid_step(*before, *after, one1, one2, *pairing),
{
    if !(before.accumulator.encrypted2_s_powers.len() == CRS_LEN && before.accumulator.encrypted1_s_powers.len() == CRS_LEN
        && before.accumulator.encrypted1_alpha_times_s_powers.len() == CRS_LEN && after.accumulator.encrypted2_s_powers.len()
        == CRS_LEN && after.accumulator.encrypted1_s_powers.len() == CRS_LEN
        && after.accumulator.encrypted1_alpha_times_s_powers.len() == CRS_LEN && after.step.encrypted1_s_powers.len()
        == CRS_LEN && after.step.encrypted2_alpha_times_s_powers.len() == CRS_LEN) {
        return false;
    }
    if !same_pairing(pairing, after.step.encrypted1_alpha, before.accumulator.encrypted2_alpha, one1, after.accumulator.encrypted2_alpha) {
        return false;
    }
    let mut k: usize = 0;
    while k < CRS_LEN
        invariant
            pairing_well_behaved(*pairing),
            crs_lengths_ok(before.accumulator),
            crs_lengths_ok(after.accumulator),
            step_lengths_ok(after.step),
            k <= CRS_LEN,
            pairings_agree(
                *pairing,
                after.step.encrypted1_alpha,
                before.accumulator.encrypted2_alpha,
                one1,
                after.accumulator.encrypted2_alpha,
            ),
            forall|i: int|
                0 <= i < k ==> #[trigger] pairings_agree(
                    *pairing,
                    after.step.encrypted1_s_powers[i],
                    before.accumulator.encrypted2_s_powers[i],
                    after.accumulator.encrypted1_s_powers[i],
                    one2,
                ),
            forall|i: int|
                0 <= i < k ==> #[trigger] pairings_agree(
                    *pairing,
                    before.accumulator.encrypted1_alpha_times_s_powers[i],
                    after.step.encrypted2_alpha_times_s_powers[i],
                    after.accumulator.encrypted1_alpha_times_s_powers[i],
                    one2,
                ),
        decreases CRS_LEN - k,
    {
        let s_ok: bool = same_pairing(
            pairing,
            after.step.encrypted1_s_powers[k],
            before.accumulator.encrypted2_s_powers[k],
            after.accumulator.encrypted1_s_powers[k],
            one2,
        );
        let alpha_s_ok: bool = same_pairing(
            pairing,
            before.accumulator.encrypted1_alpha_times_s_powers[k],
            after.step.encrypted2_alpha_times_s_powers[k],
            after.accumulator.encrypted1_alpha_times_s_powers[k],
            one2,
        );
        if !(s_ok && alpha_s_ok) {
            return false;
        }
        k = k + 1;
    }
    true
}

/// Audits a whole transcript; see `is_valid_transcript`.
pub fn validate_ceremony_transcript<G1: Copy, G2: Copy, P: Fn(G1, G2, G1, G2) -> bool>(
    transcript: &CrsCeremonyTranscript<G1, G2>,
    one1: G1,
    one2: G2,
    pairing: &P,
) -> (r: bool)
    requires
        pairing_well_behaved(*pairing),
    ensures
        r == is_valid_transcript(transcript.history@, one1, one2, *pairing),
{
    let mut i: usize = 0;
    while i < transcript.history.len()
        invariant
            pairing_well_behaved(*pairing),
            i <= transcript.history.len(),
            forall|x: int|
                0 <= x < i ==> is_internally_consistent(
                    #[trigger] transcript.history@[x].accumulator,
                    one1,
                    one2,
                    *pairing,
                ),
        decreases transcript.history.len() - i,
    {
        if !current_crs_value_is_internally_consistent(&transcript.history[i].accumulator, one1, one2, pairing) {
            return false;
        }
        i = i + 1;
    }
    let mut i: usize = 1;
    while i < transcript.history.len()
        invariant
            pairing_well_behaved(*pairing),
            1 <= i,
            i <= transcript.history.len() || transcript.history.len() == 0,
            forall|x: int|
                0 <= x < transcript.history.len() ==> is_internally_consistent(
                    #[trigger] transcript.history@[x].accumulator,
                    one1,
                    one2,
                    *pairing,
                ),
            forall|x: int|
                1 <= x < i && x < transcript.history.len() ==> #[trigger] is_valid_step(
                    transcript.history@[x - 1],
                    transcript.history@[x],
                    one1,
                    one2,
                    *pairing,
                ),
        decreases transcript.history.len() - i,
    {
        if !is_valid_crs_ceremony_step(&transcript.history[i - 1], &transcript.history[i], one1, one2, pairing) {
            return false;
        }
        i = i + 1;
    }
    true
}

} // verus!
