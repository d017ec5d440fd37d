use vstd::prelude::*;

use crate::codec::{dec_str, push_bytes, u128_to_dec};
use crate::crypto::{bls_sign, bls_sign_of, keccak256, keccak_of, utc_now_millis};
use crate::points::{g1_in_range, G1Repr};
use crate::registry::{BlsPublicKey, OpId};

verus! {

/// A single work unit: one numeric value to be squared.
#[derive(Clone, Copy, PartialEq, Eq, Structural, Debug)]
pub struct Task {
    pub value: u128,
}

/// A task together with the block at which its request was observed.
#[derive(Clone, Copy, PartialEq, Eq, Structural, Debug)]
pub struct TaskRequest {
    pub task: Task,
    pub block_number: u64,
}

/// A task an operator finished: the input, the computed result, and when it
/// was completed (milliseconds since the epoch).
#[derive(Clone, Copy, PartialEq, Eq, Structural, Debug)]
pub struct CompletedTask {
    pub value: u128,
    pub response: u128,
    pub completed_at: i64,
}

/// The persisted checkpoint record.
#[derive(Clone, Copy, PartialEq, Eq, Structural, Debug)]
pub struct BlockNumberData {
    pub block_number: u64,
}

/// The task's result: its input value squared.
pub open spec fn square_of(value: u128) -> int {
    value * value
}

/// Computes the task result. The caller keeps the square within the result
/// type; `try_task_computation` checks it first.
pub fn task_computation(value: u128) -> (r: u128)
    requires
        square_of(value) <= u128::MAX,
    ensures
        r == square_of(value),
{
    value * value
}

/// Computes the task result, rejecting a value whose square the result type
/// cannot hold.
pub fn try_task_computation(value: u128) -> (r: Option<u128>)
    ensures
        match r {
            Some(p) => p == square_of(value),
            None => square_of(value) > u128::MAX,
        },
{
    value.checked_mul(value)
}

// ---------------------------------------------------------------------------
// The canonical encoding of a completed task, the message the
// address-recovery strategy signs and verifies.
// ---------------------------------------------------------------------------

/// A signed decimal numeral.
pub open spec fn signed_dec_str(t: int) -> Seq<u8> {
    if t >= 0 {
        dec_str(t as nat)
    } else {
        seq![0x2du8] + dec_str((-t) as nat)
    }
}

/// Renders a signed decimal numeral.
pub fn i64_to_dec(t: i64) -> (r: Vec<u8>)
    ensures
        r@ == signed_dec_str(t as int),
{
    if t >= 0 {
        u128_to_dec(t as u128)
    } else {
        let mag: u128 = (-(t as i128)) as u128;
        let mut out: Vec<u8> = Vec::new();
        out.push(0x2d);
        let digits = u128_to_dec(mag);
        push_bytes(&mut out, &digits);
        proof {
            assert(out@ =~= signed_dec_str(t as int));
        }
        out
    }
}

/// The bytes of `{"value":`.
pub open spec fn msg_head() -> Seq<u8> {
    seq![0x7bu8, 0x22u8, 0x76u8, 0x61u8, 0x6cu8, 0x75u8, 0x65u8, 0x22u8, 0x3au8]
}

/// The bytes of `,"response":`.
pub open spec fn msg_mid() -> Seq<u8> {
    seq![
        0x2cu8,
        0x22u8,
        0x72u8,
        0x65u8,
        0x73u8,
        0x70u8,
        0x6fu8,
        0x6eu8,
        0x73u8,
        0x65u8,
        0x22u8,
        0x3au8,
    ]
}

/// The bytes of `,"completed_at":`.
pub open spec fn msg_tail() -> Seq<u8> {
    seq![
        0x2cu8,
        0x22u8,
        0x63u8,
        0x6fu8,
        0x6du8,
        0x70u8,
        0x6cu8,
        0x65u8,
        0x74u8,
        0x65u8,
        0x64u8,
        0x5fu8,
        0x61u8,
        0x74u8,
        0x22u8,
        0x3au8,
    ]
}

/// The canonical message for a completed task: one JSON object holding its
/// three fields in order.
pub open spec fn completed_task_msg(t: CompletedTask) -> Seq<u8> {
    msg_head() + dec_str(t.value as nat) + msg_mid() + dec_str(t.response as nat) + msg_tail()
        + signed_dec_str(t.completed_at as int) + seq![0x7du8]
}

/// Renders the canonical message for a completed task.
pub fn render_completed_task(t: &CompletedTask) -> (r: Vec<u8>)
    ensures
        r@ == completed_task_msg(*t),
{
    let mut out: Vec<u8> = Vec::new();
    out.push(0x7b);
    out.push(0x22);
    out.push(0x76);
    out.push(0x61);
    out.push(0x6c);
    out.push(0x75);
    out.push(0x65);
    out.push(0x22);
    out.push(0x3a);
    proof {
        assert(out@ =~= msg_head());
    }
    let v = u128_to_dec(t.value);
    push_bytes(&mut out, &v);
    out.push(0x2c);
    out.push(0x22);
    out.push(0x72);
    out.push(0x65);
    out.push(0x73);
    out.push(0x70);
    out.push(0x6f);
    out.push(0x6e);
    out.push(0x73);
    out.push(0x65);
    out.push(0x22);
    out.push(0x3a);
    proof {
        assert(out@ =~= msg_head() + dec_str(t.value as nat) + msg_mid());
    }
    let p = u128_to_dec(t.response);
    push_bytes(&mut out, &p);
    out.push(0x2c);
    out.push(0x22);
    out.push(0x63);
    out.push(0x6f);
    out.push(0x6d);
    out.push(0x70);
    out.push(0x6c);
    out.push(0x65);
    out.push(0x74);
    out.push(0x65);
    out.push(0x64);
    out.push(0x5f);
    out.push(0x61);
    out.push(0x74);
    out.push(0x22);
    out.push(0x3a);
    proof {
        assert(out@ =~= msg_head() + dec_str(t.value as nat) + msg_mid() + dec_str(
            t.response as nat,
        ) + msg_tail());
    }
    let c = i64_to_dec(t.completed_at);
    push_bytes(&mut out, &c);
    out.push(0x7d);
    proof {
        assert(out@ =~= completed_task_msg(*t));
    }
    out
}

// ---------------------------------------------------------------------------
// The operator side: computing and signing one task.
// ---------------------------------------------------------------------------

/// What an operator signs for a completed task under the threshold scheme:
/// the digest of the result's ABI word, the same message the settlement
/// contract reconstructs.
pub open spec fn response_digest(response: u128) -> Seq<u8> {
    keccak_of(crate::codec::abi_word(response))
}

/// The key material and identity an operator serves tasks with.
pub struct TaskState {
    /// The 32-byte secret behind the operator's threshold-signature keys.
    pub bls_secret: Vec<u8>,
    /// The public-key pair matching the secret.
    pub bls_pubkey: BlsPublicKey,
    /// The operator's account identity.
    pub address: OpId,
}

/// A completed task as an operator reports it back under the threshold
/// scheme: the work, the claimed identity and public key, and a signature
/// over the canonical digest of the result.
#[derive(Clone, Copy, PartialEq, Eq, Debug)]
pub struct TaskResponse {
    pub completed_task: CompletedTask,
    pub public_key: OpId,
    pub bls_pubkey: BlsPublicKey,
    pub signature: G1Repr,
}

impl TaskState {
    pub fn new(bls_secret: Vec<u8>, bls_pubkey: BlsPublicKey, address: OpId) -> (r: TaskState)
        ensures
            r.bls_secret@ == bls_secret@,
            r.bls_pubkey == bls_pubkey,
            r.address == address,
    {
        TaskState { bls_secret, bls_pubkey, address }
    }

    /// Signs the canonical digest of a completed task's result.
    pub fn sign_object(&self, completed_task: &CompletedTask) -> (r: G1Repr)
        ensures
            r == bls_sign_of(self.bls_secret@, response_digest(completed_task.response)),
            g1_in_range(r),
    {
        let word = crate::codec::encode_abi_word(completed_task.response);
        let digest = keccak256(&word);
        bls_sign(&self.bls_secret, &digest)
    }

    /// Handles one task: computes the square, stamps the completion time,
    /// and signs the result. The caller keeps the square representable;
    /// `request_task` checks it first.
    pub fn handle_task(&self, task: Task) -> (r: TaskResponse)
        requires
            square_of(task.value) <= u128::MAX,
        ensures
            r.completed_task.value == task.value,
            r.completed_task.response == square_of(task.value),
            r.public_key == self.address,
            r.bls_pubkey == self.bls_pubkey,
            r.signature == bls_sign_of(self.bls_secret@, response_digest(r.completed_task.response)),
            g1_in_range(r.signature),
    {
        let response = task_computation(task.value);
        let completed_at = utc_now_millis();
        let completed_task = CompletedTask { value: task.value, response, completed_at };
        let signature = self.sign_object(&completed_task);
        TaskResponse {
            completed_task,
            public_key: self.address,
            bls_pubkey: self.bls_pubkey,
            signature,
        }
    }

    /// Handles one task request, rejecting a value whose square the result
    /// type cannot hold.
    pub fn request_task(&self, task: Task) -> (r: Result<TaskResponse, crate::errors::TaskError>)
        ensures
            match r {
                Ok(resp) => square_of(task.value) <= u128::MAX && resp.completed_task.value
                    == task.value && resp.completed_task.response == square_of(task.value)
                    && resp.public_key == self.address && resp.bls_pubkey == self.bls_pubkey
                    && resp.signature == bls_sign_of(
                    self.bls_secret@,
                    response_digest(resp.completed_task.response),
                ),
                Err(e) => e == crate::errors::TaskError::TaskVerificationFailed && square_of(
                    task.value,
                ) > u128::MAX,
            },
    {
        match try_task_computation(task.value) {
            Some(_) => Ok(self.handle_task(task)),
            None => Err(crate::errors::TaskError::TaskVerificationFailed),
        }
    }
}

} // verus!
