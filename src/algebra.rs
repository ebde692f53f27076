use crate::ceremony::{
    is_internally_consistent, is_valid_step, is_valid_transcript, ratio_holds, POLYNOMIAL_DEGREE,
    is_folded_crs, is_initial_crs, is_step_of, powers_fit, s_power, CrsCeremonyValues, Crs, CRS_LEN,
};
use crate::group::{fits_powers, n_terms, pairings_agree, GroupOps};
use crate::polynomial::{
    coeff, is_product, lemma_product_evaluates, lemma_value_zero_tail, poly_value, value_upto,
};
use crate::prover::{is_commitment, perturbed, proves, Proof, PublicData};
use crate::verification::{accepts, checks_pass};
use vstd::arithmetic::div_mod::{lemma_mul_mod_noop_left, lemma_mul_mod_noop_right};
use vstd::arithmetic::power::{lemma_pow0, lemma_pow_adds, lemma_pow_distributes, pow};
use vstd::prelude::*;

verus! {

/// The operations of `g` act on discrete logarithms modulo `q`, as `dl` reads them:
/// the generator encodes one, the identity zero, scaling multiplies and combining
/// adds.
pub open spec fn is_field_model<G: Copy, M: Fn(G, usize) -> G, A: Fn(G, G) -> G>(
    g: GroupOps<G, M, A>,
    dl: spec_fn(G) -> int,
    q: int,
) -> bool {
    &&& q > 1
    &&& dl(g.generator) % q == 1
    &&& dl(g.identity) % q == 0
    &&& forall|e: G, k: usize, r: G| #[trigger] g.scales(e, k, r) ==> dl(r) % q == (dl(e) * k) % q
    &&& forall|x: G, y: G, r: G|
        #[trigger] g.combines(x, y, r) ==> dl(r) % q == (dl(x) + dl(y)) % q
}

/// The pairing comparison is bilinear and non-degenerate: two pairings agree exactly
/// when the products of the logarithms agree modulo `q`.
pub open spec fn is_pairing_model<G1, G2, P: Fn(G1, G2, G1, G2) -> bool>(
    p: P,
    dl1: spec_fn(G1) -> int,
    dl2: spec_fn(G2) -> int,
    q: int,
) -> bool {
    forall|a: G1, b: G2, c: G1, d: G2|
        #[trigger] pairings_agree(p, a, b, c, d) <==> (dl1(a) * dl2(b)) % q == (dl1(c) * dl2(
            d,
        )) % q
}

/// `c` encodes the powers of `s` and `alpha * s^k` in both groups, and `alpha`.
pub open spec fn encodes<G1, G2>(
    c: Crs<G1, G2>,
    dl1: spec_fn(G1) -> int,
    dl2: spec_fn(G2) -> int,
    q: int,
    s: int,
    alpha: int,
) -> bool {
    &&& c.encrypted2_s_powers.len() == CRS_LEN
    &&& c.encrypted1_s_powers.len() == CRS_LEN
    &&& c.encrypted1_alpha_times_s_powers.len() == CRS_LEN
    &&& dl2(c.encrypted2_alpha) % q == alpha % q
    &&& forall|k: int|
        #![trigger c.encrypted1_s_powers[k]]
        0 <= k < CRS_LEN ==> {
            &&& dl1(c.encrypted1_s_powers[k]) % q == pow(s, k as nat) % q
            &&& dl2(c.encrypted2_s_powers[k]) % q == pow(s, k as nat) % q
            &&& dl1(c.encrypted1_alpha_times_s_powers[k]) % q == (alpha * pow(s, k as nat)) % q
        }
}

/// The product of the first `n` secret points.
pub open spec fn combined_s(secrets: Seq<(nat, nat)>, n: nat) -> int
    decreases n,
{
    if n == 0 || n > secrets.len() {
        1
    } else {
        combined_s(secrets, (n - 1) as nat) * secrets[n - 1].0
    }
}

/// The product of the first `n` secret scaling factors.
pub open spec fn combined_alpha(secrets: Seq<(nat, nat)>, n: nat) -> int
    decreases n,
{
    if n == 0 || n > secrets.len() {
        1
    } else {
        combined_alpha(secrets, (n - 1) as nat) * secrets[n - 1].1
    }
}

/// `h` is what honest participants with `secrets`, in order, produce: the first
/// starts the ceremony and each later one folds its secrets into the last string.
pub open spec fn is_honest_history<G1: Copy, M1: Fn(G1, usize) -> G1, A1: Fn(G1, G1) -> G1, G2: Copy, M2: Fn(G2, usize) -> G2, A2: Fn(G2, G2) -> G2>(
    g1: GroupOps<G1, M1, A1>,
    g2: GroupOps<G2, M2, A2>,
    h: Seq<CrsCeremonyValues<G1, G2>>,
    secrets: Seq<(nat, nat)>,
) -> bool {
    &&& h.len() == secrets.len()
    &&& h.len() >= 1
    &&& forall|i: int|
        0 <= i < h.len() ==> powers_fit(#[trigger] secrets[i].0) && secrets[i].1 <= usize::MAX
    &&& is_initial_crs(g1, g2, h[0].accumulator, secrets[0].0, secrets[0].1)
    &&& forall|i: int|
        0 <= i < h.len() ==> is_step_of(g1, g2, #[trigger] h[i].step, secrets[i].0, secrets[i].1)
    &&& forall|i: int|
        1 <= i < h.len() ==> is_folded_crs(
            g1,
            g2,
            h[i - 1].accumulator,
            #[trigger] h[i].accumulator,
            secrets[i].0,
            secrets[i].1,
        )
}

/// Powers of a natural number are natural.
proof fn lemma_pow_nonneg(b: nat, e: nat)
    ensures
        pow(b as int, e) >= 0,
    decreases e,
{
    reveal(pow);
    if e > 0 {
        lemma_pow_nonneg(b, (e - 1) as nat);
        assert(b * pow(b as int, (e - 1) as nat) >= 0) by (nonlinear_arith)
            requires
                pow(b as int, (e - 1) as nat) >= 0,
        ;
    }
}

/// Where the secrets fit, the cleartext scalars a participant uses are exact.
proof fn lemma_exact_scalars(s: nat, a: nat, k: int)
    requires
        powers_fit(s),
        a <= usize::MAX,
        0 <= k < CRS_LEN,
    ensures
        s_power(s, k) as int == pow(s as int, k as nat),
        (a as usize) as int == a,
{
    assert(pow(s as int, k as nat) <= usize::MAX);
    lemma_pow_nonneg(s, k as nat);
}

/// Scaling preserves congruence: `x ≡ t` gives `x * k ≡ t * k`.
proof fn lemma_scale_cong(x: int, t: int, k: int, q: int)
    requires
        q > 0,
        x % q == t % q,
    ensures
        (x * k) % q == (t * k) % q,
{
    lemma_mul_mod_noop_left(x, k, q);
    lemma_mul_mod_noop_left(t, k, q);
}

/// An element scaled by `k` from one encoding `t` encodes `t * k`.
proof fn lemma_scaled<G: Copy, M: Fn(G, usize) -> G, A: Fn(G, G) -> G>(
    g: GroupOps<G, M, A>,
    dl: spec_fn(G) -> int,
    q: int,
    e: G,
    t: int,
    k: usize,
    r: G,
)
    requires
        is_field_model(g, dl, q),
        g.scales(e, k, r),
        dl(e) % q == t % q,
    ensures
        dl(r) % q == (t * k) % q,
{
    lemma_scale_cong(dl(e), t, k as int, q);
}

/// The encryption of `n` encodes `n`.
proof fn lemma_encrypted<G: Copy, M: Fn(G, usize) -> G, A: Fn(G, G) -> G>(
    g: GroupOps<G, M, A>,
    dl: spec_fn(G) -> int,
    q: int,
    n: usize,
    r: G,
)
    requires
        is_field_model(g, dl, q),
        g.encrypts(n, r),
    ensures
        dl(r) % q == (n as int) % q,
{
    assert(1int % q == 1) by {
        vstd::arithmetic::div_mod::lemma_small_mod(1, q as nat);
    }
    lemma_scaled(g, dl, q, g.generator, 1, n, r);
}

/// After each honest contribution the reference string encodes the products of all
/// secret points and of all scaling factors contributed so far.
pub proof fn lemma_ceremony_combines_secrets<G1: Copy, M1: Fn(G1, usize) -> G1, A1: Fn(G1, G1) -> G1, G2: Copy, M2: Fn(G2, usize) -> G2, A2: Fn(G2, G2) -> G2>(
    g1: GroupOps<G1, M1, A1>,
    g2: GroupOps<G2, M2, A2>,
    dl1: spec_fn(G1) -> int,
    dl2: spec_fn(G2) -> int,
    q: int,
    h: Seq<CrsCeremonyValues<G1, G2>>,
    secrets: Seq<(nat, nat)>,
    i: int,
)
    requires
        is_field_model(g1, dl1, q),
        is_field_model(g2, dl2, q),
        is_honest_history(g1, g2, h, secrets),
        0 <= i < h.len(),
    ensures
        encodes(
            h[i].accumulator,
            dl1,
            dl2,
            q,
            combined_s(secrets, (i + 1) as nat),
            combined_alpha(secrets, (i + 1) as nat),
        ),
    decreases i,
{
    let s = secrets[i].0;
    let a = secrets[i].1;
    let c = h[i].accumulator;
    let big_s = combined_s(secrets, (i + 1) as nat);
    let big_a = combined_alpha(secrets, (i + 1) as nat);
    assert(powers_fit(secrets[i].0) && secrets[i].1 <= usize::MAX);
    assert(big_s == combined_s(secrets, i as nat) * s);
    assert(big_a == combined_alpha(secrets, i as nat) * a);
    if i == 0 {
        assert(big_s == s);
        assert(big_a == a);
        lemma_exact_scalars(s, a, 0);
        lemma_encrypted(g2, dl2, q, a as usize, c.encrypted2_alpha);
        assert forall|k: int|
            #![trigger c.encrypted1_s_powers[k]]
            0 <= k < CRS_LEN implies {
            &&& dl1(c.encrypted1_s_powers[k]) % q == pow(big_s, k as nat) % q
            &&& dl2(c.encrypted2_s_powers[k]) % q == pow(big_s, k as nat) % q
            &&& dl1(c.encrypted1_alpha_times_s_powers[k]) % q == (big_a * pow(big_s, k as nat)) % q
        } by {
            lemma_exact_scalars(s, a, k);
            lemma_encrypted(g1, dl1, q, s_power(s, k), c.encrypted1_s_powers[k]);
            lemma_encrypted(g2, dl2, q, s_power(s, k), c.encrypted2_s_powers[k]);
            let ps = pow(s as int, k as nat);
            lemma_scaled(
                g1,
                dl1,
                q,
                c.encrypted1_s_powers[k],
                ps,
                a as usize,
                c.encrypted1_alpha_times_s_powers[k],
            );
            assert(ps * a == big_a * pow(big_s, k as nat)) by (nonlinear_arith)
                requires
                    big_a == a,
                    big_s == s,
                    ps == pow(s as int, k as nat),
            ;
        }
    } else {
        lemma_ceremony_combines_secrets(g1, g2, dl1, dl2, q, h, secrets, i - 1);
        let before = h[i - 1].accumulator;
        let prev_s = combined_s(secrets, i as nat);
        let prev_a = combined_alpha(secrets, i as nat);
        assert(big_s == prev_s * s);
        assert(big_a == prev_a * a);
        assert(is_folded_crs(g1, g2, before, c, s, a));
        lemma_exact_scalars(s, a, 0);
        lemma_scaled(g2, dl2, q, before.encrypted2_alpha, prev_a, a as usize, c.encrypted2_alpha);
        assert forall|k: int|
            #![trigger c.encrypted1_s_powers[k]]
            0 <= k < CRS_LEN implies {
            &&& dl1(c.encrypted1_s_powers[k]) % q == pow(big_s, k as nat) % q
            &&& dl2(c.encrypted2_s_powers[k]) % q == pow(big_s, k as nat) % q
            &&& dl1(c.encrypted1_alpha_times_s_powers[k]) % q == (big_a * pow(big_s, k as nat)) % q
        } by {
            let ps = pow(s as int, k as nat);
            let pp = pow(prev_s, k as nat);
            lemma_exact_scalars(s, a, k);
            lemma_pow_distributes(prev_s, s as int, k as nat);
            lemma_scaled(
                g1,
                dl1,
                q,
                before.encrypted1_s_powers[k],
                pp,
                s_power(s, k),
                c.encrypted1_s_powers[k],
            );
            lemma_scaled(
                g2,
                dl2,
                q,
                before.encrypted2_s_powers[k],
                pp,
                s_power(s, k),
                c.encrypted2_s_powers[k],
            );
            let m = choose|m: G1|
                #[trigger] g1.scales(before.encrypted1_alpha_times_s_powers[k], s_power(s, k), m)
                    && g1.scales(m, a as usize, c.encrypted1_alpha_times_s_powers[k]);
            lemma_scaled(
                g1,
                dl1,
                q,
                before.encrypted1_alpha_times_s_powers[k],
                prev_a * pp,
                s_power(s, k),
                m,
            );
            lemma_scaled(
                g1,
                dl1,
                q,
                m,
                (prev_a * pp) * ps,
                a as usize,
                c.encrypted1_alpha_times_s_powers[k],
            );
            assert(((prev_a * pp) * ps) * a == (prev_a * a) * (pp * ps)) by (nonlinear_arith);
        }
    }
}

/// Two pairings agree when the products of what their arguments encode are equal.
proof fn lemma_agree<G1, G2, P: Fn(G1, G2, G1, G2) -> bool>(
    p: P,
    dl1: spec_fn(G1) -> int,
    dl2: spec_fn(G2) -> int,
    q: int,
    a: G1,
    b: G2,
    c: G1,
    d: G2,
    x1: int,
    y1: int,
    x2: int,
    y2: int,
)
    requires
        q > 1,
        is_pairing_model(p, dl1, dl2, q),
        dl1(a) % q == x1 % q,
        dl2(b) % q == y1 % q,
        dl1(c) % q == x2 % q,
        dl2(d) % q == y2 % q,
        x1 * y1 == x2 * y2,
    ensures
        pairings_agree(p, a, b, c, d),
{
    vstd::arithmetic::div_mod::lemma_mul_mod_noop(dl1(a), dl2(b), q);
    vstd::arithmetic::div_mod::lemma_mul_mod_noop(x1, y1, q);
    vstd::arithmetic::div_mod::lemma_mul_mod_noop(dl1(c), dl2(d), q);
    vstd::arithmetic::div_mod::lemma_mul_mod_noop(x2, y2, q);
}

/// A reference string that encodes powers of one point passes the snapshot checks.
proof fn lemma_encoding_is_consistent<G1: Copy, M1: Fn(G1, usize) -> G1, A1: Fn(G1, G1) -> G1, G2: Copy, M2: Fn(G2, usize) -> G2, A2: Fn(G2, G2) -> G2, P: Fn(G1, G2, G1, G2) -> bool>(
    g1: GroupOps<G1, M1, A1>,
    g2: GroupOps<G2, M2, A2>,
    p: P,
    dl1: spec_fn(G1) -> int,
    dl2: spec_fn(G2) -> int,
    q: int,
    c: Crs<G1, G2>,
    s: int,
    alpha: int,
)
    requires
        is_field_model(g1, dl1, q),
        is_field_model(g2, dl2, q),
        is_pairing_model(p, dl1, dl2, q),
        encodes(c, dl1, dl2, q, s, alpha),
    ensures
        is_internally_consistent(c, g1.generator, g2.generator, p),
{
    let one1 = g1.generator;
    let one2 = g2.generator;
    assert(1int % q == 1) by {
        vstd::arithmetic::div_mod::lemma_small_mod(1, q as nat);
    }
    assert forall|k: int|
        #![trigger c.encrypted1_s_powers[k]]
        0 <= k < CRS_LEN implies pairings_agree(
        p,
        c.encrypted1_s_powers[k],
        c.encrypted2_alpha,
        c.encrypted1_alpha_times_s_powers[k],
        one2,
    ) && pairings_agree(p, c.encrypted1_s_powers[k], one2, one1, c.encrypted2_s_powers[k]) by {
        let pk = pow(s, k as nat);
        lemma_agree(
            p,
            dl1,
            dl2,
            q,
            c.encrypted1_s_powers[k],
            c.encrypted2_alpha,
            c.encrypted1_alpha_times_s_powers[k],
            one2,
            pk,
            alpha,
            alpha * pk,
            1,
        );
        lemma_agree(
            p,
            dl1,
            dl2,
            q,
            c.encrypted1_s_powers[k],
            one2,
            one1,
            c.encrypted2_s_powers[k],
            pk,
            1,
            1,
            pk,
        );
    }
    assert forall|i: int, j: int|
        1 <= i && 0 <= j && i + j <= POLYNOMIAL_DEGREE implies #[trigger] ratio_holds(c, p, i, j) by {
        assert(dl1(c.encrypted1_s_powers[i]) % q == pow(s, i as nat) % q);
        assert(dl1(c.encrypted1_s_powers[0]) % q == pow(s, 0) % q);
        assert(dl1(c.encrypted1_s_powers[i + j]) % q == pow(s, (i + j) as nat) % q);
        assert(dl1(c.encrypted1_s_powers[j]) % q == pow(s, j as nat) % q);
        lemma_pow_adds(s, i as nat, j as nat);
        lemma_pow0(s);
        lemma_agree(
            p,
            dl1,
            dl2,
            q,
            c.encrypted1_s_powers[i],
            c.encrypted2_s_powers[j],
            c.encrypted1_s_powers[0],
            c.encrypted2_s_powers[i + j],
            pow(s, i as nat),
            pow(s, j as nat),
            pow(s, 0),
            pow(s, (i + j) as nat),
        );
    }
}

/// Honest participants produce a transcript that passes full validation.
pub proof fn lemma_honest_ceremony_validates<G1: Copy, M1: Fn(G1, usize) -> G1, A1: Fn(G1, G1) -> G1, G2: Copy, M2: Fn(G2, usize) -> G2, A2: Fn(G2, G2) -> G2, P: Fn(G1, G2, G1, G2) -> bool>(
    g1: GroupOps<G1, M1, A1>,
    g2: GroupOps<G2, M2, A2>,
    p: P,
    dl1: spec_fn(G1) -> int,
    dl2: spec_fn(G2) -> int,
    q: int,
    h: Seq<CrsCeremonyValues<G1, G2>>,
    secrets: Seq<(nat, nat)>,
)
    requires
        is_field_model(g1, dl1, q),
        is_field_model(g2, dl2, q),
        is_pairing_model(p, dl1, dl2, q),
        is_honest_history(g1, g2, h, secrets),
    ensures
        is_valid_transcript(h, g1.generator, g2.generator, p),
{
    let one1 = g1.generator;
    let one2 = g2.generator;
    assert(1int % q == 1) by {
        vstd::arithmetic::div_mod::lemma_small_mod(1, q as nat);
    }
    assert forall|i: int| 0 <= i < h.len() implies is_internally_consistent(
        #[trigger] h[i].accumulator,
        one1,
        one2,
        p,
    ) by {
        lemma_ceremony_combines_secrets(g1, g2, dl1, dl2, q, h, secrets, i);
        lemma_encoding_is_consistent(
            g1,
            g2,
            p,
            dl1,
            dl2,
            q,
            h[i].accumulator,
            combined_s(secrets, (i + 1) as nat),
            combined_alpha(secrets, (i + 1) as nat),
        );
    }
    assert forall|i: int| 1 <= i < h.len() implies #[trigger] is_valid_step(
        h[i - 1],
        h[i],
        one1,
        one2,
        p,
    ) by {
        lemma_honest_step_valid(g1, g2, p, dl1, dl2, q, h, secrets, i);
    }
}

/// Each honest contribution passes the step-to-step checks against the one before.
proof fn lemma_honest_step_valid<G1: Copy, M1: Fn(G1, usize) -> G1, A1: Fn(G1, G1) -> G1, G2: Copy, M2: Fn(G2, usize) -> G2, A2: Fn(G2, G2) -> G2, P: Fn(G1, G2, G1, G2) -> bool>(
    g1: GroupOps<G1, M1, A1>,
    g2: GroupOps<G2, M2, A2>,
    p: P,
    dl1: spec_fn(G1) -> int,
    dl2: spec_fn(G2) -> int,
    q: int,
    h: Seq<CrsCeremonyValues<G1, G2>>,
    secrets: Seq<(nat, nat)>,
    i: int,
)
    requires
        is_field_model(g1, dl1, q),
        is_field_model(g2, dl2, q),
        is_pairing_model(p, dl1, dl2, q),
        is_honest_history(g1, g2, h, secrets),
        1 <= i < h.len(),
    ensures
        is_valid_step(h[i - 1], h[i], g1.generator, g2.generator, p),
{
    let one1 = g1.generator;
    let one2 = g2.generator;
    assert(1int % q == 1) by {
        vstd::arithmetic::div_mod::lemma_small_mod(1, q as nat);
    }
    lemma_ceremony_combines_secrets(g1, g2, dl1, dl2, q, h, secrets, i - 1);
    lemma_ceremony_combines_secrets(g1, g2, dl1, dl2, q, h, secrets, i);
    let b = h[i - 1].accumulator;
    let a = h[i].accumulator;
    let st = h[i].step;
    let s = secrets[i].0;
    let al = secrets[i].1;
    let prev_s = combined_s(secrets, i as nat);
    let prev_a = combined_alpha(secrets, i as nat);
    assert(combined_s(secrets, (i + 1) as nat) == prev_s * s);
    assert(combined_alpha(secrets, (i + 1) as nat) == prev_a * al);
    assert(is_step_of(g1, g2, st, s, al));
    assert(powers_fit(secrets[i].0) && secrets[i].1 <= usize::MAX);
    lemma_exact_scalars(s, al, 0);
    lemma_encrypted(g1, dl1, q, al as usize, st.encrypted1_alpha);
    let alpha2 = choose|alpha2: G2|
        #[trigger] g2.encrypts(al as usize, alpha2) && forall|k: int|
            #![trigger st.encrypted2_alpha_times_s_powers[k]]
            0 <= k < CRS_LEN ==> g2.scales(
                alpha2,
                s_power(s, k),
                st.encrypted2_alpha_times_s_powers[k],
            );
    lemma_encrypted(g2, dl2, q, al as usize, alpha2);
    assert((al as int) * prev_a == 1 * (prev_a * al)) by (nonlinear_arith);
    lemma_agree(
        p,
        dl1,
        dl2,
        q,
        st.encrypted1_alpha,
        b.encrypted2_alpha,
        one1,
        a.encrypted2_alpha,
        al as int,
        prev_a,
        1,
        prev_a * al,
    );
    assert forall|k: int|
        #![trigger st.encrypted1_s_powers[k]]
        0 <= k < CRS_LEN implies pairings_agree(
        p,
        st.encrypted1_s_powers[k],
        b.encrypted2_s_powers[k],
        a.encrypted1_s_powers[k],
        one2,
    ) && pairings_agree(
        p,
        b.encrypted1_alpha_times_s_powers[k],
        st.encrypted2_alpha_times_s_powers[k],
        a.encrypted1_alpha_times_s_powers[k],
        one2,
    ) by {
        lemma_exact_scalars(s, al, k);
        let ps = pow(s as int, k as nat);
        let pp = pow(prev_s, k as nat);
        lemma_pow_distributes(prev_s, s as int, k as nat);
        lemma_encrypted(g1, dl1, q, s_power(s, k), st.encrypted1_s_powers[k]);
        lemma_scaled(
            g2,
            dl2,
            q,
            alpha2,
            al as int,
            s_power(s, k),
            st.encrypted2_alpha_times_s_powers[k],
        );
        assert((al as int) * ps == al * ps);
        lemma_agree(
            p,
            dl1,
            dl2,
            q,
            st.encrypted1_s_powers[k],
            b.encrypted2_s_powers[k],
            a.encrypted1_s_powers[k],
            one2,
            ps,
            pp,
            pow(prev_s * s, k as nat),
            1,
        );
        assert((prev_a * pp) * (al * ps) == ((prev_a * al) * pow(prev_s * s, k as nat)) * 1)
            by (nonlinear_arith)
            requires
                pow(prev_s * s, k as nat) == pp * ps,
        ;
        lemma_agree(
            p,
            dl1,
            dl2,
            q,
            b.encrypted1_alpha_times_s_powers[k],
            st.encrypted2_alpha_times_s_powers[k],
            a.encrypted1_alpha_times_s_powers[k],
            one2,
            prev_a * pp,
            al * ps,
            (prev_a * al) * pow(prev_s * s, k as nat),
            1,
        );
    }
    assert(crate::ceremony::crs_lengths_ok(b));
    assert(crate::ceremony::crs_lengths_ok(a));
    assert(crate::ceremony::step_lengths_ok(st));
    assert(pairings_agree(p, st.encrypted1_alpha, b.encrypted2_alpha, one1, a.encrypted2_alpha));
    assert(b == h[i - 1].accumulator && a == h[i].accumulator && st == h[i].step);
    assert(is_valid_step(h[i - 1], h[i], one1, one2, p));
}

/// Replacing one encrypted power `encrypted1_s_powers[k]` of an honest transcript's
/// entry `i` by an element that encodes another value makes validation fail.
pub proof fn lemma_tampered_power_fails_validation<G1: Copy, M1: Fn(G1, usize) -> G1, A1: Fn(G1, G1) -> G1, G2: Copy, M2: Fn(G2, usize) -> G2, A2: Fn(G2, G2) -> G2, P: Fn(G1, G2, G1, G2) -> bool>(
    g1: GroupOps<G1, M1, A1>,
    g2: GroupOps<G2, M2, A2>,
    p: P,
    dl1: spec_fn(G1) -> int,
    dl2: spec_fn(G2) -> int,
    q: int,
    h: Seq<CrsCeremonyValues<G1, G2>>,
    secrets: Seq<(nat, nat)>,
    tampered: Seq<CrsCeremonyValues<G1, G2>>,
    i: int,
    k: int,
    x: G1,
)
    requires
        is_field_model(g1, dl1, q),
        is_field_model(g2, dl2, q),
        is_pairing_model(p, dl1, dl2, q),
        is_honest_history(g1, g2, h, secrets),
        0 <= i < h.len(),
        0 <= k < CRS_LEN,
        tampered.len() == h.len(),
        tampered[i].accumulator.encrypted1_s_powers@ == h[i].accumulator.encrypted1_s_powers@.update(
            k,
            x,
        ),
        tampered[i].accumulator.encrypted2_s_powers@ == h[i].accumulator.encrypted2_s_powers@,
        dl1(x) % q != dl1(h[i].accumulator.encrypted1_s_powers[k]) % q,
    ensures
        !is_valid_transcript(tampered, g1.generator, g2.generator, p),
{
    let one1 = g1.generator;
    let one2 = g2.generator;
    lemma_ceremony_combines_secrets(g1, g2, dl1, dl2, q, h, secrets, i);
    let c = h[i].accumulator;
    let t = tampered[i].accumulator;
    assert(t.encrypted1_s_powers[k] == x);
    if is_valid_transcript(tampered, one1, one2, p) {
        assert(is_internally_consistent(tampered[i].accumulator, one1, one2, p));
        assert(pairings_agree(p, x, one2, one1, t.encrypted2_s_powers[k]));
        vstd::arithmetic::div_mod::lemma_mul_mod_noop(dl1(x), dl2(one2), q);
        vstd::arithmetic::div_mod::lemma_mul_mod_noop(dl1(one1), dl2(t.encrypted2_s_powers[k]), q);
        vstd::arithmetic::div_mod::lemma_mod_twice(dl1(x), q);
        vstd::arithmetic::div_mod::lemma_mod_twice(dl2(t.encrypted2_s_powers[k]), q);
        vstd::arithmetic::div_mod::lemma_mod_twice(pow(
            combined_s(secrets, (i + 1) as nat),
            k as nat,
        ), q);
        assert(false);
    }
}

/// Replacing one encrypted power `encrypted2_s_powers[k]` of an honest transcript's
/// entry `i` by an element that encodes another value makes validation fail.
pub proof fn lemma_tampered_power2_fails_validation<G1: Copy, M1: Fn(G1, usize) -> G1, A1: Fn(G1, G1) -> G1, G2: Copy, M2: Fn(G2, usize) -> G2, A2: Fn(G2, G2) -> G2, P: Fn(G1, G2, G1, G2) -> bool>(
    g1: GroupOps<G1, M1, A1>,
    g2: GroupOps<G2, M2, A2>,
    p: P,
    dl1: spec_fn(G1) -> int,
    dl2: spec_fn(G2) -> int,
    q: int,
    h: Seq<CrsCeremonyValues<G1, G2>>,
    secrets: Seq<(nat, nat)>,
    tampered: Seq<CrsCeremonyValues<G1, G2>>,
    i: int,
    k: int,
    x: G2,
)
    requires
        is_field_model(g1, dl1, q),
        is_field_model(g2, dl2, q),
        is_pairing_model(p, dl1, dl2, q),
        is_honest_history(g1, g2, h, secrets),
        0 <= i < h.len(),
        tampered.len() == h.len(),
        0 <= k < CRS_LEN,
        tampered[i].accumulator.encrypted1_s_powers@ == h[i].accumulator.encrypted1_s_powers@,
        tampered[i].accumulator.encrypted2_s_powers@ == h[i].accumulator.encrypted2_s_powers@.update(
            k,
            x,
        ),
        dl2(x) % q != dl2(h[i].accumulator.encrypted2_s_powers[k]) % q,
    ensures
        !is_valid_transcript(tampered, g1.generator, g2.generator, p),
{
    let one1 = g1.generator;
    let one2 = g2.generator;
    lemma_ceremony_combines_secrets(g1, g2, dl1, dl2, q, h, secrets, i);
    let c = h[i].accumulator;
    let t = tampered[i].accumulator;
    let big_s = pow(combined_s(secrets, (i + 1) as nat), k as nat);
    assert(dl1(c.encrypted1_s_powers[k]) % q == big_s % q);
    assert(dl2(c.encrypted2_s_powers[k]) % q == big_s % q);
    assert(t.encrypted2_s_powers[k] == x);
    if is_valid_transcript(tampered, one1, one2, p) {
        assert(is_internally_consistent(tampered[i].accumulator, one1, one2, p));
        assert(pairings_agree(p, t.encrypted1_s_powers[k], one2, one1, x));
        lemma_mul_mod_noop_right(dl1(t.encrypted1_s_powers[k]), dl2(one2), q);
        lemma_mul_mod_noop_left(dl1(one1), dl2(x), q);
        vstd::arithmetic::div_mod::lemma_mod_twice(dl1(t.encrypted1_s_powers[k]), q);
        vstd::arithmetic::div_mod::lemma_mod_twice(dl2(x), q);
        vstd::arithmetic::div_mod::lemma_mod_twice(big_s, q);
        assert(false);
    }
}

/// Replacing one element `encrypted1_alpha_times_s_powers[k]` of an honest
/// transcript's entry `i` by an element that encodes another value makes validation
/// fail.
pub proof fn lemma_tampered_alpha_power_fails_validation<G1: Copy, M1: Fn(G1, usize) -> G1, A1: Fn(G1, G1) -> G1, G2: Copy, M2: Fn(G2, usize) -> G2, A2: Fn(G2, G2) -> G2, P: Fn(G1, G2, G1, G2) -> bool>(
    g1: GroupOps<G1, M1, A1>,
    g2: GroupOps<G2, M2, A2>,
    p: P,
    dl1: spec_fn(G1) -> int,
    dl2: spec_fn(G2) -> int,
    q: int,
    h: Seq<CrsCeremonyValues<G1, G2>>,
    secrets: Seq<(nat, nat)>,
    tampered: Seq<CrsCeremonyValues<G1, G2>>,
    i: int,
    k: int,
    x: G1,
)
    requires
        is_field_model(g1, dl1, q),
        is_field_model(g2, dl2, q),
        is_pairing_model(p, dl1, dl2, q),
        is_honest_history(g1, g2, h, secrets),
        0 <= i < h.len(),
        tampered.len() == h.len(),
        0 <= k < CRS_LEN,
        tampered[i].accumulator.encrypted1_s_powers@ == h[i].accumulator.encrypted1_s_powers@,
        tampered[i].accumulator.encrypted2_alpha == h[i].accumulator.encrypted2_alpha,
        tampered[i].accumulator.encrypted1_alpha_times_s_powers@
            == h[i].accumulator.encrypted1_alpha_times_s_powers@.update(k, x),
        dl1(x) % q != dl1(h[i].accumulator.encrypted1_alpha_times_s_powers[k]) % q,
    ensures
        !is_valid_transcript(tampered, g1.generator, g2.generator, p),
{
    let one1 = g1.generator;
    let one2 = g2.generator;
    lemma_ceremony_combines_secrets(g1, g2, dl1, dl2, q, h, secrets, i);
    let c = h[i].accumulator;
    let t = tampered[i].accumulator;
    let sk = pow(combined_s(secrets, (i + 1) as nat), k as nat);
    let a = combined_alpha(secrets, (i + 1) as nat);
    assert(dl1(c.encrypted1_s_powers[k]) % q == sk % q);
    assert(dl1(c.encrypted1_alpha_times_s_powers[k]) % q == (a * sk) % q);
    assert(t.encrypted1_alpha_times_s_powers[k] == x);
    if is_valid_transcript(tampered, one1, one2, p) {
        assert(is_internally_consistent(tampered[i].accumulator, one1, one2, p));
        assert(t.encrypted1_s_powers[k] == c.encrypted1_s_powers[k]);
        assert(pairings_agree(p, c.encrypted1_s_powers[k], c.encrypted2_alpha, x, one2));
        vstd::arithmetic::div_mod::lemma_mul_mod_noop(
            dl1(c.encrypted1_s_powers[k]),
            dl2(c.encrypted2_alpha),
            q,
        );
        vstd::arithmetic::div_mod::lemma_mul_mod_noop(sk, a, q);
        lemma_mul_mod_noop_right(dl1(x), dl2(one2), q);
        vstd::arithmetic::div_mod::lemma_mod_twice(dl1(x), q);
        assert(sk * a == a * sk) by (nonlinear_arith);
        assert(false);
    }
}

/// Replacing `encrypted2_alpha` of an honest transcript's entry `i` by an element
/// that encodes another value makes validation fail.
pub proof fn lemma_tampered_alpha_fails_validation<G1: Copy, M1: Fn(G1, usize) -> G1, A1: Fn(G1, G1) -> G1, G2: Copy, M2: Fn(G2, usize) -> G2, A2: Fn(G2, G2) -> G2, P: Fn(G1, G2, G1, G2) -> bool>(
    g1: GroupOps<G1, M1, A1>,
    g2: GroupOps<G2, M2, A2>,
    p: P,
    dl1: spec_fn(G1) -> int,
    dl2: spec_fn(G2) -> int,
    q: int,
    h: Seq<CrsCeremonyValues<G1, G2>>,
    secrets: Seq<(nat, nat)>,
    tampered: Seq<CrsCeremonyValues<G1, G2>>,
    i: int,
    x: G2,
)
    requires
        is_field_model(g1, dl1, q),
        is_field_model(g2, dl2, q),
        is_pairing_model(p, dl1, dl2, q),
        is_honest_history(g1, g2, h, secrets),
        0 <= i < h.len(),
        tampered.len() == h.len(),
        tampered[i].accumulator.encrypted1_s_powers@ == h[i].accumulator.encrypted1_s_powers@,
        tampered[i].accumulator.encrypted1_alpha_times_s_powers@
            == h[i].accumulator.encrypted1_alpha_times_s_powers@,
        tampered[i].accumulator.encrypted2_alpha == x,
        dl2(x) % q != dl2(h[i].accumulator.encrypted2_alpha) % q,
    ensures
        !is_valid_transcript(tampered, g1.generator, g2.generator, p),
{
    let one1 = g1.generator;
    let one2 = g2.generator;
    lemma_ceremony_combines_secrets(g1, g2, dl1, dl2, q, h, secrets, i);
    let c = h[i].accumulator;
    let t = tampered[i].accumulator;
    let s0 = pow(combined_s(secrets, (i + 1) as nat), 0);
    let a = combined_alpha(secrets, (i + 1) as nat);
    lemma_pow0(combined_s(secrets, (i + 1) as nat));
    assert(dl1(c.encrypted1_s_powers[0]) % q == s0 % q);
    assert(dl1(c.encrypted1_alpha_times_s_powers[0]) % q == (a * s0) % q);
    assert(dl2(c.encrypted2_alpha) % q == a % q);
    assert(1int % q == 1) by {
        vstd::arithmetic::div_mod::lemma_small_mod(1, q as nat);
    }
    assert(s0 == 1);
    assert(a * s0 == a) by (nonlinear_arith)
        requires
            s0 == 1,
    ;
    if is_valid_transcript(tampered, one1, one2, p) {
        assert(is_internally_consistent(tampered[i].accumulator, one1, one2, p));
        assert(t.encrypted1_s_powers[0] == c.encrypted1_s_powers[0]);
        assert(t.encrypted1_alpha_times_s_powers[0] == c.encrypted1_alpha_times_s_powers[0]);
        assert(pairings_agree(
            p,
            c.encrypted1_s_powers[0],
            x,
            c.encrypted1_alpha_times_s_powers[0],
            one2,
        ));
        lemma_mul_mod_noop_left(dl1(c.encrypted1_s_powers[0]), dl2(x), q);
        lemma_mul_mod_noop_right(dl1(c.encrypted1_alpha_times_s_powers[0]), dl2(one2), q);
        vstd::arithmetic::div_mod::lemma_mod_twice(dl1(c.encrypted1_alpha_times_s_powers[0]), q);
        vstd::arithmetic::div_mod::lemma_mod_twice(a, q);
        assert(false);
    }
}

proof fn lemma_trace_encodes<G: Copy, M: Fn(G, usize) -> G, A: Fn(G, G) -> G>(
    g: GroupOps<G, M, A>,
    dl: spec_fn(G) -> int,
    q: int,
    powers: Seq<G>,
    c: Seq<usize>,
    terms: Seq<G>,
    sums: Seq<G>,
    s: int,
    m: int,
    i: int,
)
    requires
        is_field_model(g, dl, q),
        g.is_eval_trace(powers, c, terms, sums),
        forall|k: int| 0 <= k < powers.len() ==> dl(#[trigger] powers[k]) % q == (m * pow(s, k as nat)) % q,
        0 <= i <= n_terms(powers.len() as int, c.len() as int),
    ensures
        dl(sums[i]) % q == (m * value_upto(c, s, i as nat)) % q,
    decreases i,
{
    if i == 0 {
        assert(0int % q == 0) by {
            vstd::arithmetic::div_mod::lemma_small_mod(0, q as nat);
        }
    } else {
        let j: int = i - 1;
        lemma_trace_encodes(g, dl, q, powers, c, terms, sums, s, m, j);
        assert(g.scales(powers[j], c[j], terms[j]));
        assert(g.combines(sums[j], terms[j], sums[j + 1]));
        let v: int = value_upto(c, s, j as nat);
        let pj: int = pow(s, j as nat);
        let cj: int = c[j] as int;
        assert(coeff(c, j) == cj);
        lemma_scale_cong(dl(powers[j]), m * pj, cj, q);
        vstd::arithmetic::div_mod::lemma_add_mod_noop(dl(sums[j]), dl(terms[j]), q);
        vstd::arithmetic::div_mod::lemma_add_mod_noop(m * v, (m * pj) * cj, q);
        assert(m * v + (m * pj) * cj == m * (v + cj * pj)) by (nonlinear_arith);
    }
}

/// Evaluating `c` over elements that encode `m * s^k` encodes `m * c(s)`.
proof fn lemma_evaluation_encodes<G: Copy, M: Fn(G, usize) -> G, A: Fn(G, G) -> G>(
    g: GroupOps<G, M, A>,
    dl: spec_fn(G) -> int,
    q: int,
    powers: Seq<G>,
    c: Seq<usize>,
    v: G,
    s: int,
    m: int,
)
    requires
        is_field_model(g, dl, q),
        g.evaluates(powers, c, v),
        fits_powers(powers.len() as int, c),
        forall|k: int| 0 <= k < powers.len() ==> dl(#[trigger] powers[k]) % q == (m * pow(s, k as nat)) % q,
    ensures
        dl(v) % q == (m * poly_value(c, s)) % q,
{
    let (terms, sums) = choose|terms: Seq<G>, sums: Seq<G>|
        #[trigger] g.is_eval_trace(powers, c, terms, sums) && v == sums.last();
    let n = n_terms(powers.len() as int, c.len() as int);
    lemma_trace_encodes(g, dl, q, powers, c, terms, sums, s, m, n);
    lemma_value_zero_tail(c, s, n as nat, c.len());
}

/// A commitment to `c` over elements that encode `m * s^k` encodes `m * c(s) * blinding`.
proof fn lemma_commitment_encodes<G: Copy, M: Fn(G, usize) -> G, A: Fn(G, G) -> G>(
    g: GroupOps<G, M, A>,
    dl: spec_fn(G) -> int,
    q: int,
    powers: Seq<G>,
    c: Seq<usize>,
    blinding: usize,
    e: G,
    s: int,
    m: int,
)
    requires
        is_field_model(g, dl, q),
        crate::prover::is_commitment(g, powers, c, blinding, e),
        forall|k: int| 0 <= k < powers.len() ==> dl(#[trigger] powers[k]) % q == (m * pow(s, k as nat)) % q,
    ensures
        dl(e) % q == ((m * poly_value(c, s)) * blinding) % q,
{
    let v = choose|v: G| #[trigger] g.evaluates(powers, c, v) && g.scales(v, blinding, e);
    lemma_evaluation_encodes(g, dl, q, powers, c, v, s, m);
    lemma_scaled(g, dl, q, v, m * poly_value(c, s), blinding, e);
}

/// A proof made for a polynomial that the target divides, over a reference string
/// that encodes the powers of one point, passes verification.
pub proof fn lemma_divisible_polynomial_proof_verifies<G1: Copy, M1: Fn(G1, usize) -> G1, A1: Fn(G1, G1) -> G1, G2: Copy, M2: Fn(G2, usize) -> G2, A2: Fn(G2, G2) -> G2, P: Fn(G1, G2, G1, G2) -> bool>(
    g1: GroupOps<G1, M1, A1>,
    g2: GroupOps<G2, M2, A2>,
    p: P,
    dl1: spec_fn(G1) -> int,
    dl2: spec_fn(G2) -> int,
    q: int,
    s: int,
    alpha: int,
    public: PublicData<G1, G2>,
    secret: Seq<usize>,
    blinding: usize,
    pf: Proof<G1>,
)
    requires
        is_field_model(g1, dl1, q),
        is_field_model(g2, dl2, q),
        is_pairing_model(p, dl1, dl2, q),
        encodes(public.crs, dl1, dl2, q, s, alpha),
        fits_powers(public.crs.encrypted2_s_powers.len() as int, public.target_polynomial@),
        proves(g1, public.crs, public.target_polynomial@, secret, blinding, pf),
    ensures
        accepts(public, pf, g2, p),
{
    let crs = public.crs;
    let t = public.target_polynomial@;
    let b: int = blinding as int;
    let one2 = g2.generator;
    assert forall|k: int| 0 <= k < crs.encrypted1_s_powers@.len() implies dl1(
        #[trigger] crs.encrypted1_s_powers@[k],
    ) % q == (1 * pow(s, k as nat)) % q by {
        assert(dl1(crs.encrypted1_s_powers[k]) % q == pow(s, k as nat) % q);
    }
    assert forall|k: int| 0 <= k < crs.encrypted2_s_powers@.len() implies dl2(
        #[trigger] crs.encrypted2_s_powers@[k],
    ) % q == (1 * pow(s, k as nat)) % q by {
        assert(dl1(crs.encrypted1_s_powers[k]) % q == pow(s, k as nat) % q);
        assert(dl2(crs.encrypted2_s_powers[k]) % q == pow(s, k as nat) % q);
    }
    assert forall|k: int| 0 <= k < crs.encrypted1_alpha_times_s_powers@.len() implies dl1(
        #[trigger] crs.encrypted1_alpha_times_s_powers@[k],
    ) % q == (alpha * pow(s, k as nat)) % q by {
        assert(dl1(crs.encrypted1_s_powers[k]) % q == pow(s, k as nat) % q);
    }
    let h = choose|h: Seq<usize>|
        is_product(t, h, secret) && #[trigger] crate::prover::is_commitment(
            g1,
            crs.encrypted1_s_powers@,
            h,
            blinding,
            pf.encrypted1_ratio_poly_at_s,
        );
    let vp: int = poly_value(secret, s);
    let vh: int = poly_value(h, s);
    let vt: int = poly_value(t, s);
    lemma_product_evaluates(t, h, secret, s);
    lemma_commitment_encodes(
        g1,
        dl1,
        q,
        crs.encrypted1_s_powers@,
        secret,
        blinding,
        pf.encrypted1_secret_poly_at_s,
        s,
        1,
    );
    lemma_commitment_encodes(
        g1,
        dl1,
        q,
        crs.encrypted1_s_powers@,
        h,
        blinding,
        pf.encrypted1_ratio_poly_at_s,
        s,
        1,
    );
    lemma_commitment_encodes(
        g1,
        dl1,
        q,
        crs.encrypted1_alpha_times_s_powers@,
        secret,
        blinding,
        pf.encrypted1_alpha_times_secret_poly_at_s,
        s,
        alpha,
    );
    assert(1int % q == 1) by {
        vstd::arithmetic::div_mod::lemma_small_mod(1, q as nat);
    }
    assert forall|t_at_s: G2|
        #[trigger] g2.evaluates(crs.encrypted2_s_powers@, t, t_at_s) implies checks_pass(
        p,
        one2,
        crs.encrypted2_alpha,
        t_at_s,
        pf,
    ) by {
        lemma_evaluation_encodes(g2, dl2, q, crs.encrypted2_s_powers@, t, t_at_s, s, 1);
        assert((1 * vp) * b * 1 == ((1 * vh) * b) * (1 * vt)) by (nonlinear_arith)
            requires
                vp == vt * vh,
        ;
        lemma_agree(
            p,
            dl1,
            dl2,
            q,
            pf.encrypted1_secret_poly_at_s,
            one2,
            pf.encrypted1_ratio_poly_at_s,
            t_at_s,
            (1 * vp) * b,
            1,
            (1 * vh) * b,
            1 * vt,
        );
        assert(((1 * vp) * b) * alpha == ((alpha * vp) * b) * 1) by (nonlinear_arith);
        lemma_agree(
            p,
            dl1,
            dl2,
            q,
            pf.encrypted1_secret_poly_at_s,
            crs.encrypted2_alpha,
            pf.encrypted1_alpha_times_secret_poly_at_s,
            one2,
            (1 * vp) * b,
            alpha,
            (alpha * vp) * b,
            1,
        );
    }
}

proof fn lemma_perturbed_value(c: Seq<usize>, s: int, n: nat)
    requires
        c.len() > 2,
        c[2] < usize::MAX,
        n <= c.len(),
    ensures
        value_upto(perturbed(c), s, n) == value_upto(c, s, n) + (if n > 2 {
            pow(s, 2)
        } else {
            0
        }),
    decreases n,
{
    if n > 0 {
        lemma_perturbed_value(c, s, (n - 1) as nat);
        let k: int = n - 1;
        if k == 2 {
            assert(coeff(perturbed(c), k) == coeff(c, k) + 1);
            assert((coeff(c, k) + 1) * pow(s, 2) == coeff(c, k) * pow(s, 2) + pow(s, 2))
                by (nonlinear_arith);
        } else {
            assert(coeff(perturbed(c), k) == coeff(c, k));
        }
    }
}

/// A proof whose alpha-scaled commitment was computed with the degree-two coefficient
/// raised by one fails verification, wherever `alpha * blinding * s^2` is not zero
/// modulo `q`: the restricted-evaluation check catches it.
pub proof fn lemma_perturbed_proof_rejected<G1: Copy, M1: Fn(G1, usize) -> G1, A1: Fn(G1, G1) -> G1, G2: Copy, M2: Fn(G2, usize) -> G2, A2: Fn(G2, G2) -> G2, P: Fn(G1, G2, G1, G2) -> bool>(
    g1: GroupOps<G1, M1, A1>,
    g2: GroupOps<G2, M2, A2>,
    p: P,
    dl1: spec_fn(G1) -> int,
    dl2: spec_fn(G2) -> int,
    q: int,
    s: int,
    alpha: int,
    public: PublicData<G1, G2>,
    secret: Seq<usize>,
    blinding: usize,
    pf: Proof<G1>,
    t_at_s: G2,
)
    requires
        is_field_model(g1, dl1, q),
        is_field_model(g2, dl2, q),
        is_pairing_model(p, dl1, dl2, q),
        encodes(public.crs, dl1, dl2, q, s, alpha),
        g2.evaluates(public.crs.encrypted2_s_powers@, public.target_polynomial@, t_at_s),
        secret.len() > 2,
        secret[2] < usize::MAX,
        is_commitment(
            g1,
            public.crs.encrypted1_s_powers@,
            secret,
            blinding,
            pf.encrypted1_secret_poly_at_s,
        ),
        is_commitment(
            g1,
            public.crs.encrypted1_alpha_times_s_powers@,
            perturbed(secret),
            blinding,
            pf.encrypted1_alpha_times_secret_poly_at_s,
        ),
        (alpha * blinding * pow(s, 2)) % q != 0,
    ensures
        !accepts(public, pf, g2, p),
{
    let crs = public.crs;
    let b: int = blinding as int;
    assert forall|k: int| 0 <= k < crs.encrypted1_s_powers@.len() implies dl1(
        #[trigger] crs.encrypted1_s_powers@[k],
    ) % q == (1 * pow(s, k as nat)) % q by {
        assert(dl1(crs.encrypted1_s_powers[k]) % q == pow(s, k as nat) % q);
    }
    assert forall|k: int| 0 <= k < crs.encrypted1_alpha_times_s_powers@.len() implies dl1(
        #[trigger] crs.encrypted1_alpha_times_s_powers@[k],
    ) % q == (alpha * pow(s, k as nat)) % q by {
        assert(dl1(crs.encrypted1_s_powers[k]) % q == pow(s, k as nat) % q);
    }
    lemma_commitment_encodes(
        g1,
        dl1,
        q,
        crs.encrypted1_s_powers@,
        secret,
        blinding,
        pf.encrypted1_secret_poly_at_s,
        s,
        1,
    );
    lemma_commitment_encodes(
        g1,
        dl1,
        q,
        crs.encrypted1_alpha_times_s_powers@,
        perturbed(secret),
        blinding,
        pf.encrypted1_alpha_times_secret_poly_at_s,
        s,
        alpha,
    );
    lemma_perturbed_value(secret, s, secret.len());
    assert(perturbed(secret).len() == secret.len());
    let vp: int = poly_value(secret, s);
    let s2: int = pow(s, 2);
    assert(poly_value(perturbed(secret), s) == vp + s2);
    assert(1int % q == 1) by {
        vstd::arithmetic::div_mod::lemma_small_mod(1, q as nat);
    }
    if accepts(public, pf, g2, p) {
        assert(checks_pass(p, g2.generator, crs.encrypted2_alpha, t_at_s, pf));
        let x: int = ((1 * vp) * b) * alpha;
        let y: int = ((alpha * (vp + s2)) * b) * 1;
        let a1: G1 = pf.encrypted1_secret_poly_at_s;
        let a3: G1 = pf.encrypted1_alpha_times_secret_poly_at_s;
        vstd::arithmetic::div_mod::lemma_mul_mod_noop(dl1(a1), dl2(crs.encrypted2_alpha), q);
        vstd::arithmetic::div_mod::lemma_mul_mod_noop((1 * vp) * b, alpha, q);
        vstd::arithmetic::div_mod::lemma_mul_mod_noop(dl1(a3), dl2(g2.generator), q);
        vstd::arithmetic::div_mod::lemma_mul_mod_noop((alpha * (vp + s2)) * b, 1, q);
        assert(x % q == y % q);
        assert(y - x == alpha * blinding * s2) by (nonlinear_arith)
            requires
                x == ((1 * vp) * b) * alpha,
                y == ((alpha * (vp + s2)) * b) * 1,
                b == blinding,
        ;
        vstd::arithmetic::div_mod::lemma_sub_mod_noop(y, x, q);
        assert(0int % q == 0) by {
            vstd::arithmetic::div_mod::lemma_small_mod(0, q as nat);
        }
        assert(false);
    }
}

} // verus!
