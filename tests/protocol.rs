use zk_ceremony::ceremony::{
    validate_ceremony_transcript, CeremonyError, CrsCeremonyTranscript, CrsCeremonyValues,
    CrsPlayer,
};
use zk_ceremony::group::{EvalError, GroupOps};
use zk_ceremony::polynomial::{exact_divide_integer_polynomial, product_matches, DivisionError};
use zk_ceremony::prover::{Proof, ProveError, Prover, PublicData};
use zk_ceremony::verification::verify;

// A toy bilinear group: elements are multiples of a generator modulo a prime, and
// the pairing of two elements is their product.
const Q: u128 = (1u128 << 61) - 1;
const GEN: u64 = 7;

fn mulmod(a: u64, b: u64) -> u64 {
    ((a as u128 * b as u128) % Q) as u64
}

fn addmod(a: u64, b: u64) -> u64 {
    ((a as u128 + b as u128) % Q) as u64
}

fn toy_group() -> GroupOps<u64, impl Fn(u64, usize) -> u64, impl Fn(u64, u64) -> u64> {
    GroupOps {
        generator: GEN,
        identity: 0,
        scale: |e: u64, k: usize| mulmod(e, (k as u128 % Q) as u64),
        combine: |x: u64, y: u64| addmod(x, y),
    }
}

fn toy_pairing() -> impl Fn(u64, u64, u64, u64) -> bool {
    |a: u64, b: u64, c: u64, d: u64| mulmod(a, b) == mulmod(c, d)
}

fn enc(x: u64) -> u64 {
    mulmod(GEN, x)
}

fn run_ceremony(players: &[(usize, usize)]) -> CrsCeremonyTranscript<u64, u64> {
    let g = toy_group();
    let p = toy_pairing();
    let (s0, a0) = players[0];
    let first = CrsPlayer::new(s0, a0).start_crs_ceremony(&g, &g).unwrap();
    let mut transcript = CrsCeremonyTranscript { history: vec![first] };
    for &(s, a) in &players[1..] {
        let next = CrsPlayer::new(s, a)
            .continue_crs_ceremony(&transcript, &g, &g, &p)
            .unwrap();
        transcript.history.push(next);
    }
    transcript
}

fn is_valid(t: &CrsCeremonyTranscript<u64, u64>) -> bool {
    validate_ceremony_transcript(t, GEN, GEN, &toy_pairing())
}

fn public_for(t: CrsCeremonyTranscript<u64, u64>, target: Vec<usize>) -> PublicData<u64, u64> {
    let mut t = t;
    let last: CrsCeremonyValues<u64, u64> = t.history.pop().unwrap();
    PublicData { target_polynomial: target, crs: last.accumulator }
}

const PLAYERS: [(usize, usize); 3] = [(12, 13), (14, 15), (16, 17)];

#[test]
fn end_to_end_scenario() {
    let g = toy_group();
    let pairing = toy_pairing();
    let t = vec![3, 4, 5];
    let p = vec![18, 45, 58, 35];
    let transcript = run_ceremony(&PLAYERS);
    assert_eq!(transcript.history.len(), 3);
    assert!(is_valid(&transcript));
    let public = public_for(transcript, t);
    let prover = Prover::new(p);
    let proof = prover.prove(&public, &g, 7).unwrap();
    assert!(verify(&public, &proof, &g, &pairing));
    let faulty = prover.erroneous_prove(&public, &g, 7).unwrap();
    assert!(!verify(&public, &faulty, &g, &pairing));
}

#[test]
fn honest_ceremonies_validate() {
    for n in 1..=6 {
        let players: Vec<(usize, usize)> = (0..n).map(|i| (2 + i, 3 + 2 * i)).collect();
        let transcript = run_ceremony(&players);
        assert_eq!(transcript.history.len(), n);
        assert!(is_valid(&transcript));
    }
}

#[test]
fn tampered_accumulator_fails_validation() {
    let mut transcript = run_ceremony(&PLAYERS);
    transcript.history[1].accumulator.encrypted1_s_powers[2] = enc(5);
    assert!(!is_valid(&transcript));

    let mut transcript = run_ceremony(&PLAYERS);
    transcript.history[2].accumulator.encrypted2_alpha = enc(1);
    assert!(!is_valid(&transcript));

    let mut transcript = run_ceremony(&PLAYERS);
    transcript.history[0].accumulator.encrypted1_alpha_times_s_powers.pop();
    assert!(!is_valid(&transcript));

    let mut transcript = run_ceremony(&PLAYERS);
    transcript.history[2].accumulator.encrypted2_s_powers[5] = enc(5);
    assert!(!is_valid(&transcript));

    let mut transcript = run_ceremony(&PLAYERS);
    transcript.history[1].accumulator.encrypted1_alpha_times_s_powers[0] = enc(2);
    assert!(!is_valid(&transcript));
}

#[test]
fn continuing_a_tampered_transcript_is_refused() {
    let g = toy_group();
    let p = toy_pairing();
    let mut transcript = run_ceremony(&PLAYERS[..2]);
    transcript.history[1].step.encrypted1_alpha = enc(99);
    let r2 = CrsPlayer::new(16, 17).continue_crs_ceremony(&transcript, &g, &g, &p);
    assert!(matches!(r2, Err(CeremonyError::InvalidTranscript)));
}

#[test]
fn empty_transcript_is_refused() {
    let g = toy_group();
    let p = toy_pairing();
    let transcript: CrsCeremonyTranscript<u64, u64> = CrsCeremonyTranscript { history: vec![] };
    let r = CrsPlayer::new(2, 3).continue_crs_ceremony(&transcript, &g, &g, &p);
    assert!(matches!(r, Err(CeremonyError::EmptyTranscript)));
}

#[test]
fn overflowing_secret_is_refused() {
    let g = toy_group();
    let r = CrsPlayer::new(1 << 20, 2).start_crs_ceremony(&g, &g);
    assert!(matches!(r, Err(CeremonyError::Overflow)));
    let transcript = run_ceremony(&PLAYERS[..1]);
    let p = toy_pairing();
    let r = CrsPlayer::new(1 << 13, 1).continue_crs_ceremony(&transcript, &g, &g, &p);
    assert!(matches!(r, Err(CeremonyError::Overflow)));
}

#[test]
fn large_alpha_is_accepted() {
    let g = toy_group();
    let p = toy_pairing();
    let first = CrsPlayer::new(2, usize::MAX).start_crs_ceremony(&g, &g).unwrap();
    let alpha = (usize::MAX as u128 % Q) as u64;
    assert_eq!(first.accumulator.encrypted1_alpha_times_s_powers[5], enc(mulmod(alpha, 32)));
    assert_eq!(first.step.encrypted2_alpha_times_s_powers[3], enc(mulmod(alpha, 8)));
    let mut transcript = CrsCeremonyTranscript { history: vec![first] };
    assert!(is_valid(&transcript));
    let next = CrsPlayer::new(3, usize::MAX - 1)
        .continue_crs_ceremony(&transcript, &g, &g, &p)
        .unwrap();
    transcript.history.push(next);
    assert!(is_valid(&transcript));
}

#[test]
fn combined_secret_is_the_product() {
    let transcript = run_ceremony(&PLAYERS);
    let crs = &transcript.history[2].accumulator;
    let s: u64 = 12 * 14 * 16;
    let alpha: u64 = 13 * 15 * 17;
    let pairing = toy_pairing();
    let mut s_k: u64 = 1;
    for k in 0..6 {
        assert!(pairing(crs.encrypted1_s_powers[k], GEN, enc(s_k), GEN));
        assert!(pairing(GEN, crs.encrypted2_s_powers[k], GEN, enc(s_k)));
        assert!(pairing(crs.encrypted1_alpha_times_s_powers[k], GEN, enc(mulmod(alpha, s_k)), GEN));
        s_k = mulmod(s_k, s);
    }
    assert!(pairing(GEN, crs.encrypted2_alpha, GEN, enc(alpha)));
}

#[test]
fn first_contribution_encrypts_the_powers() {
    let g = toy_group();
    let v = CrsPlayer::new(3, 5).start_crs_ceremony(&g, &g).unwrap();
    assert_eq!(v.accumulator.encrypted1_s_powers, vec![enc(1), enc(3), enc(9), enc(27), enc(81), enc(243)]);
    assert_eq!(v.accumulator.encrypted1_alpha_times_s_powers[2], enc(45));
    assert_eq!(v.accumulator.encrypted2_alpha, enc(5));
    assert_eq!(v.step.encrypted1_alpha, enc(5));
    assert_eq!(v.step.encrypted2_alpha_times_s_powers[3], enc(135));
}

#[test]
fn erased_player_contributes_zero_secrets() {
    let g = toy_group();
    let mut player = CrsPlayer::new(3, 5);
    player.secure_erase_my_secret_s_and_alpha_values();
    let v = player.start_crs_ceremony(&g, &g).unwrap();
    assert_eq!(v.accumulator.encrypted1_s_powers, vec![enc(1), 0, 0, 0, 0, 0]);
    assert_eq!(v.accumulator.encrypted2_alpha, 0);
}

#[test]
fn divisible_polynomials_round_trip() {
    let g = toy_group();
    let pairing = toy_pairing();
    let t = vec![3, 4, 5];
    let quotients: Vec<Vec<usize>> = vec![vec![1], vec![6, 7], vec![0, 0, 2], vec![9, 0, 1, 4], vec![]];
    for h in quotients {
        let p = multiply(&t, &h);
        let transcript = run_ceremony(&PLAYERS);
        let public = public_for(transcript, t.clone());
        let proof = Prover::new(p).prove(&public, &g, 11).unwrap();
        assert!(verify(&public, &proof, &g, &pairing));
    }
}

#[test]
fn non_divisible_polynomial_is_refused() {
    let g = toy_group();
    let transcript = run_ceremony(&PLAYERS);
    let public = public_for(transcript, vec![3, 4, 5]);
    let r = Prover::new(vec![19, 45, 58, 35]).prove(&public, &g, 7);
    assert!(matches!(r, Err(ProveError::NotDivisible)));
    let r = Prover::new(vec![18, 45, 58, 36]).prove(&public, &g, 7);
    assert!(matches!(r, Err(ProveError::NotDivisible)));
    let r = Prover::new(vec![1, 2]).prove(&public, &g, 7);
    assert!(matches!(r, Err(ProveError::NotDivisible)));
}

#[test]
fn zero_target_is_refused() {
    let g = toy_group();
    let transcript = run_ceremony(&PLAYERS);
    let public = public_for(transcript, vec![0, 0]);
    let r = Prover::new(vec![1, 2]).prove(&public, &g, 7);
    assert!(matches!(r, Err(ProveError::ZeroTarget)));
}

#[test]
fn too_high_degree_is_refused() {
    let g = toy_group();
    let transcript = run_ceremony(&PLAYERS);
    let public = public_for(transcript, vec![1, 1]);
    let p = multiply(&vec![1, 1], &vec![1, 1, 1, 1, 1, 1]);
    let r = Prover::new(p).prove(&public, &g, 7);
    assert!(matches!(r, Err(ProveError::DegreeTooHigh)));
}

#[test]
fn faulty_proof_is_rejected_honest_one_accepted() {
    let g = toy_group();
    let pairing = toy_pairing();
    let t = vec![1, 2];
    let p = multiply(&t, &vec![4, 0, 3]);
    let transcript = run_ceremony(&PLAYERS);
    let public = public_for(transcript, t);
    let prover = Prover::new(p);
    let honest = prover.prove(&public, &g, 5).unwrap();
    assert!(verify(&public, &honest, &g, &pairing));
    let faulty = prover.erroneous_prove(&public, &g, 5).unwrap();
    assert!(!verify(&public, &faulty, &g, &pairing));
}

#[test]
fn forged_commitment_is_rejected() {
    let g = toy_group();
    let pairing = toy_pairing();
    let transcript = run_ceremony(&PLAYERS);
    let public = public_for(transcript, vec![3, 4, 5]);
    let proof = Prover::new(vec![18, 45, 58, 35]).prove(&public, &g, 1).unwrap();
    let forged = Proof {
        encrypted1_ratio_poly_at_s: proof.encrypted1_ratio_poly_at_s,
        encrypted1_secret_poly_at_s: addmod(proof.encrypted1_secret_poly_at_s, GEN),
        encrypted1_alpha_times_secret_poly_at_s: proof.encrypted1_alpha_times_secret_poly_at_s,
    };
    assert!(!verify(&public, &forged, &g, &pairing));
}

#[test]
fn target_beyond_reference_string_is_rejected() {
    let g = toy_group();
    let pairing = toy_pairing();
    let transcript = run_ceremony(&PLAYERS);
    let mut public = public_for(transcript, vec![3, 4, 5]);
    let proof = Prover::new(vec![18, 45, 58, 35]).prove(&public, &g, 1).unwrap();
    public.target_polynomial = vec![3, 4, 5, 0, 0, 0, 1];
    assert!(!verify(&public, &proof, &g, &pairing));
}

#[test]
fn exact_division_values() {
    assert_eq!(exact_divide_integer_polynomial(&vec![18, 45, 58, 35], &vec![3, 4, 5]), Ok(vec![6, 7]));
    assert_eq!(exact_divide_integer_polynomial(&vec![18, 45, 58, 35, 0], &vec![3, 4, 5, 0]), Ok(vec![6, 7]));
    assert_eq!(exact_divide_integer_polynomial(&vec![0, 0], &vec![3, 4, 5]), Ok(vec![]));
    assert_eq!(exact_divide_integer_polynomial(&vec![2, 4], &vec![2]), Ok(vec![1, 2]));
    assert_eq!(exact_divide_integer_polynomial(&vec![1, 0, 0, 1], &vec![1, 1]), Err(DivisionError::NotDivisible));
    assert_eq!(exact_divide_integer_polynomial(&vec![3, 4], &vec![2]), Err(DivisionError::NotDivisible));
    assert_eq!(exact_divide_integer_polynomial(&vec![1, 2], &vec![0, 0]), Err(DivisionError::ZeroDivisor));
    assert_eq!(exact_divide_integer_polynomial(&vec![1, 2], &vec![]), Err(DivisionError::ZeroDivisor));
}

#[test]
fn product_check_values() {
    assert!(product_matches(&vec![3, 4, 5], &vec![6, 7], &vec![18, 45, 58, 35]));
    assert!(product_matches(&vec![3, 4, 5], &vec![6, 7], &vec![18, 45, 58, 35, 0, 0]));
    assert!(!product_matches(&vec![3, 4, 5], &vec![6, 7], &vec![18, 45, 58]));
    assert!(!product_matches(&vec![usize::MAX], &vec![2], &vec![1]));
    assert!(product_matches(&vec![], &vec![6, 7], &vec![0]));
}

#[test]
fn encrypted_evaluation_values() {
    let g = toy_group();
    let powers = vec![enc(1), enc(2), enc(4)];
    assert_eq!(g.homomorphic_eval_polynomial(&powers, &vec![5, 1, 3]), Ok(enc(5 + 2 + 12)));
    assert_eq!(g.homomorphic_eval_polynomial(&powers, &vec![5, 1, 3, 0]), Ok(enc(19)));
    assert_eq!(g.homomorphic_eval_polynomial(&powers, &vec![]), Ok(0));
    assert_eq!(g.homomorphic_eval_polynomial(&powers, &vec![5, 1, 3, 1]), Err(EvalError::DegreeTooHigh));
    assert_eq!(g.encrypt(6), enc(6));
    assert_eq!(g.homomorphic_multiply(enc(3), 4), enc(12));
    assert_eq!(g.group_add(enc(3), enc(4)), enc(7));
}

fn multiply(a: &Vec<usize>, b: &Vec<usize>) -> Vec<usize> {
    if a.is_empty() || b.is_empty() {
        return vec![];
    }
    let mut r = vec![0; a.len() + b.len() - 1];
    for i in 0..a.len() {
        for j in 0..b.len() {
            r[i + j] += a[i] * b[j];
        }
    }
    r
}
