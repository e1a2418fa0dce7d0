//! Values that parties exchange, and how a batch of elements is packed into one of them.

use crate::primefield::PrimeElement;
use vstd::prelude::*;

verus! {

/// Why a protocol step cannot go on.
#[derive(Clone, Copy, Debug, PartialEq, Eq, Structural)]
pub enum ProtocolError {
    /// A message does not carry the kind of value that the step expects.
    WrongValueType,
    /// The step is not defined for this role.
    UnsupportedRole,
    /// A field element of a message belongs to another field or is not reduced.
    WrongModulus,
    /// Inputs that go together differ in length.
    LengthMismatch,
    /// The step needs at least one input.
    EmptyInput,
    /// An input has too few bits for the step.
    TooFewBits,
    /// An index points past the end of the values that it selects from.
    IndexOutOfBounds,
    /// The input needs an even number of elements.
    OddLength,
    /// A modulus of zero has no residues.
    ZeroModulus,
    /// A stream holds no value that the step accepts.
    StreamExhausted,
    /// The parties that were given do not form the set that the step needs.
    InvalidRoles,
    /// The keys that were given are not those that the role holds.
    WrongKeySet,
    /// Two copies of the same component differ.
    InconsistentShares,
    /// The step needs more inputs than were given.
    TooFewInputs,
    /// The dealer of a batch has to give its values.
    MissingInput,
    /// Only the dealer of a batch may give values.
    UnexpectedInput,
}

/// A value on the wire.
#[derive(Debug)]
pub enum NetworkValue {
    PrfKey([u8; 16]),
    RingElementBit(bool),
    RingElement8(u8),
    RingElement16(u16),
    RingElement32(u32),
    RingElement64(u64),
    PrimeElement16(PrimeElement),
    Bytes(Vec<u8>),
    NetworkVec(Vec<NetworkValue>),
}

/// Elements that travel one to a [`NetworkValue`].
pub trait Wire: Copy {
    /// The wire value of an element.
    spec fn wrapped(self) -> NetworkValue;

    /// The element of a wire value, if it carries one of this type.
    spec fn unwrapped(value: NetworkValue) -> Option<Self>;

    /// A wrapped element is found again, and is no vector.
    proof fn law_wire(self)
        ensures
            Self::unwrapped(self.wrapped()) == Some(self),
            self.wrapped() !is NetworkVec,
    ;

    /// The wire value of an element.
    fn wrap(self) -> (r: NetworkValue)
        ensures
            r == self.wrapped(),
    ;

    /// The element of a wire value, if it carries one of this type.
    fn unwrap(value: &NetworkValue) -> (r: Option<Self>)
        ensures
            r == Self::unwrapped(*value),
    ;
}

impl Wire for bool {
    open spec fn wrapped(self) -> NetworkValue {
        NetworkValue::RingElementBit(self)
    }

    open spec fn unwrapped(value: NetworkValue) -> Option<bool> {
        match value {
            NetworkValue::RingElementBit(x) => Some(x),
            _ => None,
        }
    }

    proof fn law_wire(self) {
    }

    fn wrap(self) -> (r: NetworkValue)
        ensures
            r == NetworkValue::RingElementBit(self),
    {
        NetworkValue::RingElementBit(self)
    }

    fn unwrap(value: &NetworkValue) -> (r: Option<bool>)
        ensures
            *value is RingElementBit ==> r == Some(value->RingElementBit_0),
            *value !is RingElementBit ==> r is None,
    {
        match value {
            NetworkValue::RingElementBit(x) => Some(*x),
            _ => None,
        }
    }
}

impl Wire for u8 {
    open spec fn wrapped(self) -> NetworkValue {
        NetworkValue::RingElement8(self)
    }

    open spec fn unwrapped(value: NetworkValue) -> Option<u8> {
        match value {
            NetworkValue::RingElement8(x) => Some(x),
            _ => None,
        }
    }

    proof fn law_wire(self) {
    }

    fn wrap(self) -> (r: NetworkValue)
        ensures
            r == NetworkValue::RingElement8(self),
    {
        NetworkValue::RingElement8(self)
    }

    fn unwrap(value: &NetworkValue) -> (r: Option<u8>)
        ensures
            *value is RingElement8 ==> r == Some(value->RingElement8_0),
            *value !is RingElement8 ==> r is None,
    {
        match value {
            NetworkValue::RingElement8(x) => Some(*x),
            _ => None,
        }
    }
}

impl Wire for u16 {
    open spec fn wrapped(self) -> NetworkValue {
        NetworkValue::RingElement16(self)
    }

    open spec fn unwrapped(value: NetworkValue) -> Option<u16> {
        match value {
            NetworkValue::RingElement16(x) => Some(x),
            _ => None,
        }
    }

    proof fn law_wire(self) {
    }

    fn wrap(self) -> (r: NetworkValue)
        ensures
            r == NetworkValue::RingElement16(self),
    {
        NetworkValue::RingElement16(self)
    }

    fn unwrap(value: &NetworkValue) -> (r: Option<u16>)
        ensures
            *value is RingElement16 ==> r == Some(value->RingElement16_0),
            *value !is RingElement16 ==> r is None,
    {
        match value {
            NetworkValue::RingElement16(x) => Some(*x),
            _ => None,
        }
    }
}

impl Wire for u32 {
    open spec fn wrapped(self) -> NetworkValue {
        NetworkValue::RingElement32(self)
    }

    open spec fn unwrapped(value: NetworkValue) -> Option<u32> {
        match value {
            NetworkValue::RingElement32(x) => Some(x),
            _ => None,
        }
    }

    proof fn law_wire(self) {
    }

    fn wrap(self) -> (r: NetworkValue)
        ensures
            r == NetworkValue::RingElement32(self),
    {
        NetworkValue::RingElement32(self)
    }

    fn unwrap(value: &NetworkValue) -> (r: Option<u32>)
        ensures
            *value is RingElement32 ==> r == Some(value->RingElement32_0),
            *value !is RingElement32 ==> r is None,
    {
        match value {
            NetworkValue::RingElement32(x) => Some(*x),
            _ => None,
        }
    }
}

impl Wire for u64 {
    open spec fn wrapped(self) -> NetworkValue {
        NetworkValue::RingElement64(self)
    }

    open spec fn unwrapped(value: NetworkValue) -> Option<u64> {
        match value {
            NetworkValue::RingElement64(x) => Some(x),
            _ => None,
        }
    }

    proof fn law_wire(self) {
    }

    fn wrap(self) -> (r: NetworkValue)
        ensures
            r == NetworkValue::RingElement64(self),
    {
        NetworkValue::RingElement64(self)
    }

    fn unwrap(value: &NetworkValue) -> (r: Option<u64>)
        ensures
            *value is RingElement64 ==> r == Some(value->RingElement64_0),
            *value !is RingElement64 ==> r is None,
    {
        match value {
            NetworkValue::RingElement64(x) => Some(*x),
            _ => None,
        }
    }
}

impl Wire for PrimeElement {
    open spec fn wrapped(self) -> NetworkValue {
        NetworkValue::PrimeElement16(self)
    }

    open spec fn unwrapped(value: NetworkValue) -> Option<PrimeElement> {
        match value {
            NetworkValue::PrimeElement16(x) => Some(x),
            _ => None,
        }
    }

    proof fn law_wire(self) {
    }

    fn wrap(self) -> (r: NetworkValue)
        ensures
            r == NetworkValue::PrimeElement16(self),
    {
        NetworkValue::PrimeElement16(self)
    }

    fn unwrap(value: &NetworkValue) -> (r: Option<PrimeElement>)
        ensures
            *value is PrimeElement16 ==> r == Some(value->PrimeElement16_0),
            *value !is PrimeElement16 ==> r is None,
    {
        match value {
            NetworkValue::PrimeElement16(x) => Some(*x),
            _ => None,
        }
    }
}

/// A batch as one message: a batch of one travels bare, any other as a vector.
pub open spec fn packed<W: Wire>(batch: Seq<W>, msg: NetworkValue) -> bool {
    if batch.len() == 1 {
        msg == batch[0].wrapped()
    } else {
        &&& msg is NetworkVec
        &&& msg->NetworkVec_0@ == batch.map_values(|x: W| x.wrapped())
    }
}

/// The elements that a message carries: exactly one if `single`, else a non-empty vector.
pub open spec fn unpacked<W: Wire>(msg: NetworkValue, single: bool) -> Option<Seq<W>> {
    if single {
        match W::unwrapped(msg) {
            Some(x) => Some(seq![x]),
            None => None,
        }
    } else {
        match msg {
            NetworkValue::NetworkVec(v) => {
                if v@.len() > 0 && (forall|i: int|
                    0 <= i < v@.len() ==> W::unwrapped(#[trigger] v@[i]) is Some) {
                    Some(Seq::new(v@.len(), |i: int| W::unwrapped(v@[i])->0))
                } else {
                    None
                }
            },
            _ => None,
        }
    }
}

/// Packs a batch into one message.
pub fn pack<W: Wire>(batch: &[W]) -> (msg: NetworkValue)
    ensures
        packed(batch@, msg),
        batch@.len() == 1 ==> msg == batch@[0].wrapped(),
        batch@.len() != 1 ==> msg is NetworkVec && msg->NetworkVec_0@.len() == batch@.len(),
        batch@.len() != 1 ==> forall|i: int|
            0 <= i < batch@.len() ==> #[trigger] msg->NetworkVec_0@[i] == batch@[i].wrapped(),
{
    if batch.len() == 1 {
        return batch[0].wrap();
    }
    let mut values: Vec<NetworkValue> = Vec::new();
    let mut i: usize = 0;
    while i < batch.len()
        invariant
            i <= batch@.len(),
            values@ == batch@.subrange(0, i as int).map_values(|x: W| x.wrapped()),
        decreases batch@.len() - i,
    {
        values.push(batch[i].wrap());
        proof {
            assert(batch@.subrange(0, i + 1).map_values(|x: W| x.wrapped())
                =~= batch@.subrange(0, i as int).map_values(|x: W| x.wrapped()).push(
                batch@[i as int].wrapped(),
            ));
        }
        i += 1;
    }
    proof {
        assert(batch@.subrange(0, i as int) =~= batch@);
    }
    NetworkValue::NetworkVec(values)
}

/// Takes the elements out of a message. `single` says that the step exchanges one element.
pub fn unpack<W: Wire>(msg: &NetworkValue, single: bool) -> (r: Result<Vec<W>, ProtocolError>)
    ensures
        match unpacked::<W>(*msg, single) {
            Some(batch) => r is Ok && r->Ok_0@ == batch,
            None => r == Err::<Vec<W>, ProtocolError>(ProtocolError::WrongValueType),
        },
        r is Err ==> r == Err::<Vec<W>, ProtocolError>(ProtocolError::WrongValueType),
        single ==> (r is Ok) == (W::unwrapped(*msg) is Some),
        single && r is Ok ==> r->Ok_0@.len() == 1 && W::unwrapped(*msg) == Some(r->Ok_0@[0]),
        !single ==> (r is Ok) == (*msg is NetworkVec && msg->NetworkVec_0@.len() > 0 && forall|
            i: int,
        |
            0 <= i < msg->NetworkVec_0@.len() ==> W::unwrapped(
                #[trigger] msg->NetworkVec_0@[i],
            ) is Some),
        !single && r is Ok ==> r->Ok_0@.len() == msg->NetworkVec_0@.len() && forall|i: int|
            0 <= i < r->Ok_0@.len() ==> W::unwrapped(#[trigger] msg->NetworkVec_0@[i]) == Some(
                r->Ok_0@[i],
            ),
{
    if single {
        return match W::unwrap(msg) {
            Some(x) => {
                let mut v: Vec<W> = Vec::new();
                v.push(x);
                assert(v@ =~= seq![x]);
                Ok(v)
            },
            None => Err(ProtocolError::WrongValueType),
        };
    }
    match msg {
        NetworkValue::NetworkVec(values) => {
            if values.len() == 0 {
                return Err(ProtocolError::WrongValueType);
            }
            let mut v: Vec<W> = Vec::new();
            let mut i: usize = 0;
            while i < values.len()
                invariant
                    !single,
                    i <= values@.len(),
                    *msg == NetworkValue::NetworkVec(*values),
                    v@.len() == i,
                    forall|j: int|
                        0 <= j < i ==> W::unwrapped(#[trigger] values@[j]) == Some(v@[j]),
                decreases values@.len() - i,
            {
                match W::unwrap(&values[i]) {
                    Some(x) => v.push(x),
                    None => {
                        return Err(ProtocolError::WrongValueType);
                    },
                }
                i += 1;
            }
            proof {
                assert(v@ =~= Seq::new(values@.len(), |j: int| W::unwrapped(values@[j])->0));
            }
            Ok(v)
        },
        _ => Err(ProtocolError::WrongValueType),
    }
}

/// A batch as a vector message, whatever its length.
pub open spec fn packed_vec<W: Wire>(batch: Seq<W>, msg: NetworkValue) -> bool {
    &&& msg is NetworkVec
    &&& msg->NetworkVec_0@ == batch.map_values(|x: W| x.wrapped())
}

/// The elements of a vector message, if all of them are of one type.
pub open spec fn vec_of<W: Wire>(msg: NetworkValue) -> Option<Seq<W>> {
    match msg {
        NetworkValue::NetworkVec(v) => {
            if forall|i: int| 0 <= i < v@.len() ==> W::unwrapped(#[trigger] v@[i]) is Some {
                Some(Seq::new(v@.len(), |i: int| W::unwrapped(v@[i])->0))
            } else {
                None
            }
        },
        _ => None,
    }
}

/// The elements that a message carries, in either form: those of a vector, or one bare element.
pub open spec fn elements_of<W: Wire>(msg: NetworkValue) -> Option<Seq<W>> {
    match msg {
        NetworkValue::NetworkVec(_) => vec_of::<W>(msg),
        _ => match W::unwrapped(msg) {
            Some(x) => Some(seq![x]),
            None => None,
        },
    }
}

/// Packs a batch into a vector message, whatever its length.
pub fn pack_vec<W: Wire>(batch: &[W]) -> (msg: NetworkValue)
    ensures
        packed_vec(batch@, msg),
        msg is NetworkVec && msg->NetworkVec_0@.len() == batch@.len(),
        forall|i: int|
            0 <= i < batch@.len() ==> #[trigger] msg->NetworkVec_0@[i] == batch@[i].wrapped(),
{
    let mut values: Vec<NetworkValue> = Vec::new();
    let mut i: usize = 0;
    while i < batch.len()
        invariant
            i <= batch@.len(),
            values@.len() == i,
            forall|j: int| 0 <= j < i ==> #[trigger] values@[j] == batch@[j].wrapped(),
        decreases batch@.len() - i,
    {
        values.push(batch[i].wrap());
        i += 1;
    }
    assert(values@ =~= batch@.map_values(|x: W| x.wrapped()));
    NetworkValue::NetworkVec(values)
}

/// What a step makes of a message that should carry `len` elements.
pub open spec fn expected_vec<W: Wire>(msg: NetworkValue, len: nat) -> Result<
    Seq<W>,
    ProtocolError,
> {
    match elements_of::<W>(msg) {
        None => Err(ProtocolError::WrongValueType),
        Some(batch) => if batch.len() == len {
            Ok(batch)
        } else {
            Err(ProtocolError::LengthMismatch)
        },
    }
}

/// Takes the elements out of a vector message.
pub fn unpack_vec<W: Wire>(msg: &NetworkValue) -> (r: Result<Vec<W>, ProtocolError>)
    ensures
        match vec_of::<W>(*msg) {
            Some(batch) => r is Ok && r->Ok_0@ == batch,
            None => r == Err::<Vec<W>, ProtocolError>(ProtocolError::WrongValueType),
        },
        r is Err ==> r == Err::<Vec<W>, ProtocolError>(ProtocolError::WrongValueType),
        (r is Ok) == (*msg is NetworkVec && forall|i: int|
            0 <= i < msg->NetworkVec_0@.len() ==> W::unwrapped(
                #[trigger] msg->NetworkVec_0@[i],
            ) is Some),
        r is Ok ==> r->Ok_0@.len() == msg->NetworkVec_0@.len() && forall|i: int|
            0 <= i < r->Ok_0@.len() ==> W::unwrapped(#[trigger] msg->NetworkVec_0@[i]) == Some(
                r->Ok_0@[i],
            ),
{
    match msg {
        NetworkValue::NetworkVec(values) => {
            let mut v: Vec<W> = Vec::new();
            let mut i: usize = 0;
            while i < values.len()
                invariant
                    i <= values@.len(),
                    *msg == NetworkValue::NetworkVec(*values),
                    v@.len() == i,
                    forall|j: int|
                        0 <= j < i ==> W::unwrapped(#[trigger] values@[j]) == Some(v@[j]),
                decreases values@.len() - i,
            {
                match W::unwrap(&values[i]) {
                    Some(x) => v.push(x),
                    None => {
                        return Err(ProtocolError::WrongValueType);
                    },
                }
                i += 1;
            }
            assert(v@ =~= Seq::new(values@.len(), |j: int| W::unwrapped(values@[j])->0));
            Ok(v)
        },
        _ => Err(ProtocolError::WrongValueType),
    }
}

/// Takes the elements out of a message, be it a vector or one bare element.
pub fn into_vec<W: Wire>(msg: &NetworkValue) -> (r: Result<Vec<W>, ProtocolError>)
    ensures
        match elements_of::<W>(*msg) {
            Some(batch) => r is Ok && r->Ok_0@ == batch,
            None => r == Err::<Vec<W>, ProtocolError>(ProtocolError::WrongValueType),
        },
        r is Err ==> r == Err::<Vec<W>, ProtocolError>(ProtocolError::WrongValueType),
        *msg is NetworkVec ==> (r is Ok) == (*msg is NetworkVec && forall|i: int|
            0 <= i < msg->NetworkVec_0@.len() ==> W::unwrapped(
                #[trigger] msg->NetworkVec_0@[i],
            ) is Some),
        *msg is NetworkVec && r is Ok ==> r->Ok_0@.len() == msg->NetworkVec_0@.len() && forall|i: int|
            0 <= i < r->Ok_0@.len() ==> W::unwrapped(#[trigger] msg->NetworkVec_0@[i]) == Some(
                r->Ok_0@[i],
            ),
        *msg !is NetworkVec ==> (r is Ok) == (W::unwrapped(*msg) is Some),
        *msg !is NetworkVec && r is Ok ==> r->Ok_0@.len() == 1 && W::unwrapped(*msg) == Some(
            r->Ok_0@[0],
        ),
{
    match msg {
        NetworkValue::NetworkVec(_) => unpack_vec(msg),
        _ => unpack(msg, true),
    }
}

/// Takes exactly `len` elements out of a message.
pub fn recv_elems<W: Wire>(msg: &NetworkValue, len: usize) -> (r: Result<Vec<W>, ProtocolError>)
    ensures
        match expected_vec::<W>(*msg, len as nat) {
            Ok(batch) => r is Ok && r->Ok_0@ == batch,
            Err(e) => r == Err::<Vec<W>, ProtocolError>(e),
        },
        match elements_of::<W>(*msg) {
            None => r == Err::<Vec<W>, ProtocolError>(ProtocolError::WrongValueType),
            Some(batch) => if batch.len() == len {
                r is Ok && r->Ok_0@ == batch
            } else {
                r == Err::<Vec<W>, ProtocolError>(ProtocolError::LengthMismatch)
            },
        },
{
    match into_vec(msg) {
        Ok(v) => {
            if v.len() != len {
                return Err(ProtocolError::LengthMismatch);
            }
            Ok(v)
        },
        Err(e) => Err(e),
    }
}

/// A batch that was packed comes out as it went in, in either form.
pub proof fn lemma_pack_roundtrip<W: Wire>(batch: Seq<W>, msg: NetworkValue)
    requires
        packed(batch, msg) || packed_vec(batch, msg),
    ensures
        elements_of::<W>(msg) == Some(batch),
        packed(batch, msg) && batch.len() > 0 ==> unpacked::<W>(msg, batch.len() == 1) == Some(
            batch,
        ),
{
    if batch.len() == 1 && packed(batch, msg) {
        batch[0].law_wire();
        assert(seq![batch[0]] =~= batch);
    } else {
        let v = msg->NetworkVec_0;
        assert forall|i: int| 0 <= i < v@.len() implies W::unwrapped(#[trigger] v@[i]) == Some(
            batch[i],
        ) by {
            batch[i].law_wire();
        }
        assert(Seq::new(v@.len(), |i: int| W::unwrapped(v@[i])->0) =~= batch);
    }
}

/// A batch that was packed into a vector message comes out as it went in.
pub proof fn lemma_vec_roundtrip<W: Wire>(batch: Seq<W>, msg: NetworkValue)
    requires
        packed_vec(batch, msg),
    ensures
        vec_of::<W>(msg) == Some(batch),
        expected_vec::<W>(msg, batch.len()) == Ok::<Seq<W>, ProtocolError>(batch),
{
    lemma_pack_roundtrip(batch, msg);
}

} // verus!
