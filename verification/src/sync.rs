//! Agreeing on a job or on a checkpoint among three parties.
//!
//! Every party sends its value to both others. The values are then put in the order of the roles.

use crate::message::{NetworkValue, ProtocolError};
use crate::player::Role;
use vstd::prelude::*;

verus! {

/// Length of the digest of a job.
pub const JOB_HASH_LEN: usize = 32;

/// The message with the digest of a job.
pub fn job_hash_message(hash: &[u8; 32]) -> (msg: NetworkValue)
    ensures
        msg is Bytes,
        msg->Bytes_0@ == hash@,
{
    NetworkValue::Bytes(bytes_of(hash.as_slice()))
}

/// A copy of bytes.
fn bytes_of(bytes: &[u8]) -> (r: Vec<u8>)
    ensures
        r@ == bytes@,
{
    let mut out: Vec<u8> = Vec::new();
    let mut i: usize = 0;
    while i < bytes.len()
        invariant
            i <= bytes@.len(),
            out@.len() == i,
            forall|j: int| 0 <= j < i ==> out@[j] == bytes@[j],
        decreases bytes@.len() - i,
    {
        out.push(bytes[i]);
        i += 1;
    }
    assert(out@ =~= bytes@);
    out
}

/// The bytes of a message, if it carries as many as expected.
pub open spec fn bytes_in(msg: NetworkValue, len: nat) -> Option<Seq<u8>> {
    match msg {
        NetworkValue::Bytes(b) => if b@.len() == len {
            Some(b@)
        } else {
            None
        },
        _ => None,
    }
}

fn take_bytes(msg: &NetworkValue, len: usize) -> (r: Option<Vec<u8>>)
    ensures
        match bytes_in(*msg, len as nat) {
            Some(b) => r is Some && (r->0)@ == b,
            None => r is None,
        },
{
    match msg {
        NetworkValue::Bytes(b) => {
            if b.len() == len {
                Some(bytes_of(b.as_slice()))
            } else {
                None
            }
        },
        _ => None,
    }
}

/// Whether bytes are the same.
fn same_bytes(a: &[u8], b: &[u8]) -> (r: bool)
    ensures
        r == (a@ == b@),
{
    if a.len() != b.len() {
        return false;
    }
    let mut i: usize = 0;
    while i < a.len()
        invariant
            a@.len() == b@.len(),
            i <= a@.len(),
            forall|j: int| 0 <= j < i ==> a@[j] == b@[j],
        decreases a@.len() - i,
    {
        if a[i] != b[i] {
            assert(a@[i as int] != b@[i as int]);
            return false;
        }
        i += 1;
    }
    assert(a@ =~= b@);
    true
}

/// What a party concludes from its own digest and the messages of the next and the previous party.
pub open spec fn verdict(
    own: int,
    hash: Seq<u8>,
    from_next: NetworkValue,
    from_prev: NetworkValue,
) -> Result<bool, ProtocolError> {
    if own >= 3 {
        Err(ProtocolError::UnsupportedRole)
    } else {
        match (bytes_in(from_next, 32), bytes_in(from_prev, 32)) {
            (Some(next), Some(prev)) => Ok(next == hash && prev == hash),
            _ => Err(ProtocolError::WrongValueType),
        }
    }
}

/// Whether the digests of all three parties are the same, from the own one and the messages of the
/// next and the previous party.
pub fn sync_on_job_hash(
    own_role: Role,
    hash: &[u8; 32],
    from_next: &NetworkValue,
    from_prev: &NetworkValue,
) -> (r: Result<bool, ProtocolError>)
    ensures
        r == verdict(own_role.index as int, hash@, *from_next, *from_prev),
        own_role.index >= 3 ==> r == Err::<bool, ProtocolError>(ProtocolError::UnsupportedRole),
        own_role.index < 3 ==> match (*from_next, *from_prev) {
            (NetworkValue::Bytes(next), NetworkValue::Bytes(prev)) => if next@.len() == 32
                && prev@.len() == 32 {
                r == Ok::<bool, ProtocolError>(next@ == hash@ && prev@ == hash@)
            } else {
                r == Err::<bool, ProtocolError>(ProtocolError::WrongValueType)
            },
            _ => r == Err::<bool, ProtocolError>(ProtocolError::WrongValueType),
        },
{
    if own_role.index >= 3 {
        return Err(ProtocolError::UnsupportedRole);
    }
    match (take_bytes(from_next, 32), take_bytes(from_prev, 32)) {
        (Some(next), Some(prev)) => {
            let a: bool = same_bytes(next.as_slice(), hash.as_slice());
            let b: bool = same_bytes(prev.as_slice(), hash.as_slice());
            Ok(a && b)
        },
        _ => Err(ProtocolError::WrongValueType),
    }
}

/// All three parties come to the same verdict, which is that all digests are the same. `msgs[i]` is
/// the message with the digest of party `i`.
pub proof fn lemma_same_verdict(hashes: Seq<Seq<u8>>, msgs: Seq<NetworkValue>, own: int)
    requires
        hashes.len() == 3,
        msgs.len() == 3,
        forall|i: int| 0 <= i < 3 ==> bytes_in(#[trigger] msgs[i], 32) == Some(hashes[i]),
        0 <= own < 3,
    ensures
        verdict(own, hashes[own], msgs[(own + 1) % 3], msgs[(own + 2) % 3]) == Ok::<
            bool,
            ProtocolError,
        >(hashes[0] == hashes[1] && hashes[1] == hashes[2]),
{
    assert(bytes_in(msgs[0], 32) == Some(hashes[0]));
    assert(bytes_in(msgs[1], 32) == Some(hashes[1]));
    assert(bytes_in(msgs[2], 32) == Some(hashes[2]));
}

/// The number that eight bytes stand for, least significant byte first.
pub open spec fn le_number(b: Seq<u8>) -> int {
    b[0] + 0x100 * b[1] + 0x1_0000 * b[2] + 0x100_0000 * b[3] + 0x1_0000_0000 * b[4]
        + 0x100_0000_0000 * b[5] + 0x1_0000_0000_0000 * b[6] + 0x100_0000_0000_0000 * b[7]
}

/// The message with the number of a checkpoint: eight bytes, least significant byte first.
pub fn checkpoint_message(value: u64) -> (msg: NetworkValue)
    ensures
        msg is Bytes,
        msg->Bytes_0@.len() == 8,
        le_number(msg->Bytes_0@) == value,
        msg->Bytes_0@[0] == value % 0x100,
        msg->Bytes_0@[1] == (value / 0x100) % 0x100,
        msg->Bytes_0@[2] == (value / 0x1_0000) % 0x100,
        msg->Bytes_0@[3] == (value / 0x100_0000) % 0x100,
        msg->Bytes_0@[4] == (value / 0x1_0000_0000) % 0x100,
        msg->Bytes_0@[5] == (value / 0x100_0000_0000) % 0x100,
        msg->Bytes_0@[6] == (value / 0x1_0000_0000_0000) % 0x100,
        msg->Bytes_0@[7] == value / 0x100_0000_0000_0000,
{
    let (x1, x2, x3): (u64, u64, u64) = (value / 0x100, value / 0x1_0000, value / 0x100_0000);
    let (x4, x5): (u64, u64) = (value / 0x1_0000_0000, value / 0x100_0000_0000);
    let (x6, x7): (u64, u64) = (value / 0x1_0000_0000_0000, value / 0x100_0000_0000_0000);
    proof {
        assert(x2 == x1 / 0x100 && x3 == x2 / 0x100 && x4 == x3 / 0x100 && x5 == x4 / 0x100 && x6
            == x5 / 0x100 && x7 == x6 / 0x100);
    }
    let mut out: Vec<u8> = Vec::new();
    out.push((value % 0x100) as u8);
    out.push((x1 % 0x100) as u8);
    out.push((x2 % 0x100) as u8);
    out.push((x3 % 0x100) as u8);
    out.push((x4 % 0x100) as u8);
    out.push((x5 % 0x100) as u8);
    out.push((x6 % 0x100) as u8);
    out.push(x7 as u8);
    NetworkValue::Bytes(out)
}

/// The number in a message.
fn read_checkpoint(msg: &NetworkValue) -> (r: Option<u64>)
    ensures
        r == (match bytes_in(*msg, 8) {
            Some(b) => Some(le_number(b) as u64),
            None => None,
        }),
        bytes_in(*msg, 8) is Some ==> 0 <= le_number(bytes_in(*msg, 8)->0) <= u64::MAX,
{
    match take_bytes(msg, 8) {
        Some(b) => {
            let low: u64 = b[0] as u64 + 0x100 * (b[1] as u64) + 0x1_0000 * (b[2] as u64)
                + 0x100_0000 * (b[3] as u64);
            let high: u64 = b[4] as u64 + 0x100 * (b[5] as u64) + 0x1_0000 * (b[6] as u64)
                + 0x100_0000 * (b[7] as u64);
            Some(low + 0x1_0000_0000 * high)
        },
        None => None,
    }
}

/// Eight bytes stand for the number whose bytes they are, and different bytes for different numbers:
/// byte `k` is what is left of the number divided by `2^(8 k)` after division by 256.
pub proof fn lemma_number_of_bytes(b: Seq<u8>, v: u64)
    requires
        b.len() == 8,
    ensures
        (le_number(b) == v) == {
            &&& b[0] == v % 0x100
            &&& b[1] == (v / 0x100) % 0x100
            &&& b[2] == (v / 0x1_0000) % 0x100
            &&& b[3] == (v / 0x100_0000) % 0x100
            &&& b[4] == (v / 0x1_0000_0000) % 0x100
            &&& b[5] == (v / 0x100_0000_0000) % 0x100
            &&& b[6] == (v / 0x1_0000_0000_0000) % 0x100
            &&& b[7] == v / 0x100_0000_0000_0000
        },
{
    let (x1, x2, x3, x4, x5, x6, x7) = (
        v / 0x100,
        v / 0x1_0000,
        v / 0x100_0000,
        v / 0x1_0000_0000,
        v / 0x100_0000_0000,
        v / 0x1_0000_0000_0000,
        v / 0x100_0000_0000_0000,
    );
    assert(x2 == x1 / 0x100 && x3 == x2 / 0x100 && x4 == x3 / 0x100 && x5 == x4 / 0x100 && x6 == x5
        / 0x100 && x7 == x6 / 0x100);
}

/// What a party learns from its own checkpoint and the messages of the next and the previous party:
/// the checkpoints in the order of the roles.
pub open spec fn checkpoints(
    own: int,
    value: u64,
    from_next: NetworkValue,
    from_prev: NetworkValue,
) -> Result<Seq<u64>, ProtocolError> {
    if own >= 3 {
        Err(ProtocolError::UnsupportedRole)
    } else {
        match (bytes_in(from_next, 8), bytes_in(from_prev, 8)) {
            (Some(next), Some(prev)) => Ok(
                seq![0u64, 0, 0].update(own, value).update(
                    (own + 1) % 3,
                    le_number(next) as u64,
                ).update((own + 2) % 3, le_number(prev) as u64),
            ),
            _ => Err(ProtocolError::WrongValueType),
        }
    }
}

/// All three parties learn the same checkpoints, each at the place of its role. `msgs[i]` is the
/// message with the checkpoint of party `i`.
pub proof fn lemma_same_checkpoints(values: Seq<u64>, msgs: Seq<NetworkValue>, own: int)
    requires
        values.len() == 3,
        msgs.len() == 3,
        forall|i: int|
            0 <= i < 3 ==> bytes_in(#[trigger] msgs[i], 8) is Some && le_number(
                bytes_in(msgs[i], 8)->0,
            ) == values[i],
        0 <= own < 3,
    ensures
        checkpoints(own, values[own], msgs[(own + 1) % 3], msgs[(own + 2) % 3]) == Ok::<
            Seq<u64>,
            ProtocolError,
        >(values),
{
    let all = checkpoints(own, values[own], msgs[(own + 1) % 3], msgs[(own + 2) % 3])->Ok_0;
    assert(bytes_in(msgs[0], 8) is Some);
    assert(bytes_in(msgs[1], 8) is Some);
    assert(bytes_in(msgs[2], 8) is Some);
    assert(all =~= values);
}

/// The checkpoints of the three parties in the order of the roles, from the own one and the
/// messages of the next and the previous party.
pub fn exchange_checkpoint_id(
    own_role: Role,
    value: u64,
    from_next: &NetworkValue,
    from_prev: &NetworkValue,
) -> (r: Result<[u64; 3], ProtocolError>)
    ensures
        match checkpoints(own_role.index as int, value, *from_next, *from_prev) {
            Ok(all) => r is Ok && r->Ok_0@ == all,
            Err(e) => r == Err::<[u64; 3], ProtocolError>(e),
        },
        own_role.index >= 3 ==> r == Err::<[u64; 3], ProtocolError>(ProtocolError::UnsupportedRole),
        own_role.index < 3 ==> match (*from_next, *from_prev) {
            (NetworkValue::Bytes(next), NetworkValue::Bytes(prev)) => if next@.len() == 8
                && prev@.len() == 8 {
                &&& r is Ok
                &&& r->Ok_0@[own_role.index as int] == value
                &&& r->Ok_0@[(own_role.index + 1) % 3] == le_number(next@)
                &&& r->Ok_0@[(own_role.index + 2) % 3] == le_number(prev@)
            } else {
                r == Err::<[u64; 3], ProtocolError>(ProtocolError::WrongValueType)
            },
            _ => r == Err::<[u64; 3], ProtocolError>(ProtocolError::WrongValueType),
        },
{
    if own_role.index >= 3 {
        return Err(ProtocolError::UnsupportedRole);
    }
    match (read_checkpoint(from_next), read_checkpoint(from_prev)) {
        (Some(next), Some(prev)) => {
            if own_role.index == 0 {
                Ok([value, next, prev])
            } else if own_role.index == 1 {
                Ok([prev, value, next])
            } else {
                Ok([next, prev, value])
            }
        },
        _ => Err(ProtocolError::WrongValueType),
    }
}

} // verus!
