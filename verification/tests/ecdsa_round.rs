use alloy_signer::SignerSync;
use alloy_signer_local::PrivateKeySigner;
use square_dss::codec::encode_abi_word;
use square_dss::crypto::keccak256;
use square_dss::ecdsa::{aggregate_equal, aggregate_weighted, verify_message, TaskResponse};
use square_dss::errors::TaskError;
use square_dss::registry::OpId;
use square_dss::task::{render_completed_task, CompletedTask};

fn addr_to_opid(a: alloy_primitives::Address) -> OpId {
    let b = a.into_array();
    let hi = u32::from_be_bytes([b[0], b[1], b[2], b[3]]);
    let mut lo = [0u8; 16];
    lo.copy_from_slice(&b[4..20]);
    OpId { hi, lo: u128::from_be_bytes(lo) }
}

fn signer(seed: u8) -> PrivateKeySigner {
    let mut key = [0u8; 32];
    key[31] = seed;
    PrivateKeySigner::from_slice(&key).expect("key")
}

fn signed_response(s: &PrivateKeySigner, value: u128, response: u128) -> TaskResponse {
    let completed_task = CompletedTask { value, response, completed_at: 1_700_000_000_000 };
    let msg = render_completed_task(&completed_task);
    let sig = s.sign_message_sync(&msg).expect("sign");
    TaskResponse {
        completed_task,
        public_key: addr_to_opid(s.address()),
        signature: sig.as_bytes().to_vec(),
    }
}

#[test]
fn authentic_response_verifies() {
    let s = signer(1);
    let r = signed_response(&s, 7, 49);
    assert!(verify_message(&r));
}

#[test]
fn forged_identity_is_rejected() {
    let s = signer(1);
    let other = signer(2);
    let mut r = signed_response(&s, 7, 49);
    // Claim another operator's identity over a correct result.
    r.public_key = addr_to_opid(other.address());
    assert!(!verify_message(&r));
}

#[test]
fn tampered_result_is_rejected() {
    let s = signer(1);
    let mut r = signed_response(&s, 7, 49);
    r.completed_task.response = 50;
    assert!(!verify_message(&r));
}

#[test]
fn malformed_signature_is_rejected() {
    let s = signer(1);
    let mut r = signed_response(&s, 7, 49);
    r.signature = vec![0u8; 65];
    assert!(!verify_message(&r));
    r.signature = vec![1, 2, 3];
    assert!(!verify_message(&r));
}

#[test]
fn four_operators_three_answers_decide_forty_nine() {
    // Four registered operators, task value 7; three return 49 with valid
    // signatures, one never answers. Three exceeds half of four.
    let responses = vec![
        signed_response(&signer(1), 7, 49),
        signed_response(&signer(2), 7, 49),
        signed_response(&signer(3), 7, 49),
    ];
    assert_eq!(aggregate_equal(&responses, 4), Ok(49));
}

#[test]
fn two_of_four_do_not_reach_majority() {
    let responses = vec![
        signed_response(&signer(1), 7, 49),
        signed_response(&signer(2), 7, 49),
    ];
    assert_eq!(aggregate_equal(&responses, 4), Err(TaskError::MajorityNotReached));
}

#[test]
fn invalid_response_counts_nowhere() {
    // A forged response claiming the correct result must not help the
    // quorum: only the two authentic votes count, and two of four fail.
    let honest = vec![
        signed_response(&signer(1), 7, 49),
        signed_response(&signer(2), 7, 49),
    ];
    let mut with_forgery = honest.clone();
    let mut forged = signed_response(&signer(3), 7, 49);
    forged.signature[10] ^= 0xff;
    with_forgery.push(forged);
    assert_eq!(aggregate_equal(&with_forgery, 4), Err(TaskError::MajorityNotReached));
    assert_eq!(aggregate_equal(&honest, 4), aggregate_equal(&with_forgery, 4));
}

#[test]
fn empty_round_fails_verification() {
    let responses: Vec<TaskResponse> = Vec::new();
    assert_eq!(aggregate_equal(&responses, 4), Err(TaskError::TaskVerificationFailed));
}

#[test]
fn decision_ignores_arrival_order() {
    let mut responses = vec![
        signed_response(&signer(1), 7, 49),
        signed_response(&signer(2), 7, 49),
        signed_response(&signer(3), 7, 50),
        signed_response(&signer(4), 7, 49),
    ];
    let forward = aggregate_equal(&responses, 4);
    responses.reverse();
    assert_eq!(forward, aggregate_equal(&responses, 4));
    assert_eq!(forward, Ok(49));
}

#[test]
fn duplicate_operator_response_overwrites() {
    // A second response from one operator replaces its first; it is not a
    // second vote.
    let s1 = signer(1);
    let responses = vec![
        signed_response(&s1, 7, 49),
        signed_response(&signer(2), 7, 50),
        signed_response(&s1, 7, 49),
    ];
    // One vote for 49, one for 50: no strict majority of 3.
    assert_eq!(aggregate_equal(&responses, 3), Err(TaskError::MajorityNotReached));
}

#[test]
fn stake_weighted_round_weighs_eligible_votes() {
    let s1 = signer(1);
    let s2 = signer(2);
    let s3 = signer(3);
    let responses = vec![
        signed_response(&s1, 7, 49),
        signed_response(&s2, 7, 49),
        signed_response(&s3, 7, 50),
    ];
    let eligible = vec![
        (addr_to_opid(s1.address()), 40u64),
        (addr_to_opid(s2.address()), 30u64),
        (addr_to_opid(s3.address()), 60u64),
    ];
    // 70 of 130 eligible behind 49: a strict majority.
    assert_eq!(aggregate_weighted(&responses, &eligible, 130), Ok(49));
    // With a heavier absent operator in the denominator, 70 of 200 is not.
    assert_eq!(
        aggregate_weighted(&responses, &eligible, 200),
        Err(TaskError::MajorityNotReached)
    );
}

#[test]
fn keccak_digest_matches_known_value() {
    // The digest of the empty string under Keccak-256.
    let empty: Vec<u8> = Vec::new();
    let d = keccak256(&empty);
    let expected: [u8; 32] = [
        0xc5, 0xd2, 0x46, 0x01, 0x86, 0xf7, 0x23, 0x3c, 0x92, 0x7e, 0x7d, 0xb2, 0xdc, 0xc7, 0x03,
        0xc0, 0xe5, 0x00, 0xb6, 0x53, 0xca, 0x82, 0x27, 0x3b, 0x7b, 0xfa, 0xd8, 0x04, 0x5d, 0x85,
        0xa4, 0x70,
    ];
    assert_eq!(d, expected.to_vec());
}

#[test]
fn abi_word_is_big_endian() {
    let w = encode_abi_word(49);
    assert_eq!(w.len(), 32);
    assert_eq!(w[31], 49);
    assert!(w[..31].iter().all(|b| *b == 0));
    let w2 = encode_abi_word(0x0102030405060708090a0b0c0d0e0f10);
    assert_eq!(&w2[16..], &[1, 2, 3, 4, 5, 6, 7, 8, 9, 10, 11, 12, 13, 14, 15, 16]);
}
