//! The wire format of replication messages.
//!
//! A message is a sequence of bytes, all integers little-endian:
//!
//! ```text
//! message := tick:u32 count:u32 entity*
//! entity  := index:u32 generation:u32 count:u32 change* count:u32 removal*
//! change  := replication_id:u64 length:u32 payload
//! removal := replication_id:u64 tick:u32
//! ```
//!
//! Every entry says how long it is, so that a reader never depends on what a
//! payload holds. [`lemma_decode_inverts_encode`] shows that decoding gives
//! back what was encoded.

use vstd::prelude::*;
use crate::entity::Entity;
use crate::replicon_core::replication_rules::ReplicationId;
use crate::server::change_detection::ComponentRemovalCandidate;
use crate::server::replication_message::{
    change_views, entity_views, ComponentChange, ComponentChangeView, EntityChanges,
    EntityChangesView, ReplicationMessage, ReplicationMessageView,
};
use crate::tick::Tick;

verus! {

/// Why a message could not be encoded.
#[derive(Clone, Copy, Debug, PartialEq, Eq, Structural)]
pub enum EncodeError {
    /// A list or a payload is longer than a length field can say.
    TooLong,
}

/// Why a sequence of bytes is not a message.
#[derive(Clone, Copy, Debug, PartialEq, Eq, Structural)]
pub enum DecodeError {
    /// The bytes end before the message does.
    UnexpectedEnd,
    /// A replication identifier is larger than this machine can hold.
    IdentifierOutOfRange,
    /// Bytes follow the end of the message.
    TrailingBytes,
}

/// The four bytes of a `u32`, lowest first.
pub open spec fn u32_bytes(value: u32) -> Seq<u8> {
    seq![
        (value % 256) as u8,
        ((value / 256) % 256) as u8,
        ((value / 65536) % 256) as u8,
        (value / 16777216) as u8,
    ]
}

/// The `u32` whose four bytes stand at `at`.
pub open spec fn u32_at(bytes: Seq<u8>, at: int) -> u32 {
    (bytes[at] + bytes[at + 1] * 256 + bytes[at + 2] * 65536 + bytes[at + 3] * 16777216) as u32
}

/// The eight bytes of a `u64`, lowest first.
pub open spec fn u64_bytes(value: u64) -> Seq<u8> {
    u32_bytes((value % 0x1_0000_0000) as u32) + u32_bytes((value / 0x1_0000_0000) as u32)
}

/// The `u64` whose eight bytes stand at `at`.
pub open spec fn u64_at(bytes: Seq<u8>, at: int) -> u64 {
    (u32_at(bytes, at) + u32_at(bytes, at + 4) * 0x1_0000_0000) as u64
}

/// `encoding` stands in `bytes` at `at`.
#[verifier::opaque]
pub open spec fn stands_at(bytes: Seq<u8>, at: int, encoding: Seq<u8>) -> bool {
    &&& 0 <= at
    &&& at + encoding.len() <= bytes.len()
    &&& forall|i: int| 0 <= i < encoding.len() ==> bytes[at + i] == encoding[i]
}

/// Where two encodings stand one after the other, each of them stands.
pub proof fn lemma_stands_at_parts(bytes: Seq<u8>, at: int, first: Seq<u8>, second: Seq<u8>)
    requires
        stands_at(bytes, at, first + second),
    ensures
        stands_at(bytes, at, first),
        stands_at(bytes, at + first.len(), second),
{
    reveal(stands_at);
    assert forall|i: int| 0 <= i < first.len() implies bytes[at + i] == first[i] by {
        assert((first + second)[i] == first[i]);
    }
    assert forall|i: int| 0 <= i < second.len() implies bytes[at + first.len() + i]
        == second[i] by {
        assert((first + second)[first.len() + i] == second[i]);
    }
}

/// The bytes of a `u32` read back as that `u32`.
pub proof fn lemma_u32_round_trip(bytes: Seq<u8>, at: int, value: u32)
    requires
        stands_at(bytes, at, u32_bytes(value)),
    ensures
        u32_at(bytes, at) == value,
{
    reveal(stands_at);
    let encoding = u32_bytes(value);
    assert(bytes[at + 0] == encoding[0]);
    assert(bytes[at + 1] == encoding[1]);
    assert(bytes[at + 2] == encoding[2]);
    assert(bytes[at + 3] == encoding[3]);
}

/// The bytes of a `u64` read back as that `u64`.
pub proof fn lemma_u64_round_trip(bytes: Seq<u8>, at: int, value: u64)
    requires
        stands_at(bytes, at, u64_bytes(value)),
    ensures
        u64_at(bytes, at) == value,
{
    let low = (value % 0x1_0000_0000) as u32;
    let high = (value / 0x1_0000_0000) as u32;
    lemma_stands_at_parts(bytes, at, u32_bytes(low), u32_bytes(high));
    lemma_u32_round_trip(bytes, at, low);
    lemma_u32_round_trip(bytes, at + 4, high);
}

/// Appends the bytes of a `u32`.
pub fn write_u32(out: &mut Vec<u8>, value: u32)
    ensures
        final(out)@ == old(out)@ + u32_bytes(value),
{
    out.push((value % 256) as u8);
    out.push(((value / 256) % 256) as u8);
    out.push(((value / 65536) % 256) as u8);
    out.push((value / 16777216) as u8);
    proof {
        assert(out@ =~= old(out)@ + u32_bytes(value));
    }
}

/// Appends the bytes of a `u64`.
pub fn write_u64(out: &mut Vec<u8>, value: u64)
    ensures
        final(out)@ == old(out)@ + u64_bytes(value),
{
    write_u32(out, (value % 0x1_0000_0000) as u32);
    write_u32(out, (value / 0x1_0000_0000) as u32);
    proof {
        assert(out@ =~= old(out)@ + u64_bytes(value));
    }
}

/// Reads the `u32` at `at`, or nothing where fewer than four bytes are left.
pub fn read_u32(bytes: &Vec<u8>, at: usize) -> (value: Option<u32>)
    ensures
        value == if at + 4 <= bytes@.len() {
            Some(u32_at(bytes@, at as int))
        } else {
            None
        },
{
    if bytes.len() < 4 || at > bytes.len() - 4 {
        return None;
    }
    let b0: u32 = bytes[at] as u32;
    let b1: u32 = bytes[at + 1] as u32;
    let b2: u32 = bytes[at + 2] as u32;
    let b3: u32 = bytes[at + 3] as u32;
    Some(b0 + b1 * 256 + b2 * 65536 + b3 * 16777216)
}

/// Reads the `u64` at `at`, or nothing where fewer than eight bytes are left.
pub fn read_u64(bytes: &Vec<u8>, at: usize) -> (value: Option<u64>)
    ensures
        value == if at + 8 <= bytes@.len() {
            Some(u64_at(bytes@, at as int))
        } else {
            None
        },
{
    if bytes.len() < 8 || at > bytes.len() - 8 {
        return None;
    }
    let low = match read_u32(bytes, at) {
        Some(low) => low,
        None => {
            return None;
        },
    };
    let high = match read_u32(bytes, at + 4) {
        Some(high) => high,
        None => {
            return None;
        },
    };
    Some((low as u64) + (high as u64) * 0x1_0000_0000)
}

} // verus!

verus! {

/// The encoding of a change.
pub open spec fn change_bytes(change: ComponentChangeView) -> Seq<u8> {
    u64_bytes(change.replication_id.0 as u64) + (u32_bytes(change.payload.len() as u32)
        + change.payload)
}

/// The encodings of the first `n` changes, one after the other.
pub open spec fn changes_bytes(changes: Seq<ComponentChangeView>, n: int) -> Seq<u8>
    decreases n,
{
    if n <= 0 {
        Seq::empty()
    } else {
        changes_bytes(changes, n - 1) + change_bytes(changes[n - 1])
    }
}

/// The encoding of a removal.
pub open spec fn removal_bytes(removal: ComponentRemovalCandidate) -> Seq<u8> {
    u64_bytes(removal.replication_id.0 as u64) + u32_bytes(removal.tick@)
}

/// The encodings of the first `n` removals, one after the other.
pub open spec fn removals_bytes(removals: Seq<ComponentRemovalCandidate>, n: int) -> Seq<u8>
    decreases n,
{
    if n <= 0 {
        Seq::empty()
    } else {
        removals_bytes(removals, n - 1) + removal_bytes(removals[n - 1])
    }
}

/// The encoding of what a message tells about one entity.
pub open spec fn entity_bytes(entity: EntityChangesView) -> Seq<u8> {
    u32_bytes(entity.entity.index) + (u32_bytes(entity.entity.generation) + (u32_bytes(
        entity.changes.len() as u32,
    ) + (changes_bytes(entity.changes, entity.changes.len() as int) + (u32_bytes(
        entity.removals.len() as u32,
    ) + removals_bytes(entity.removals, entity.removals.len() as int)))))
}

/// The encodings of the first `n` entities, one after the other.
pub open spec fn entities_bytes(entities: Seq<EntityChangesView>, n: int) -> Seq<u8>
    decreases n,
{
    if n <= 0 {
        Seq::empty()
    } else {
        entities_bytes(entities, n - 1) + entity_bytes(entities[n - 1])
    }
}

/// The encoding of a message.
pub open spec fn message_bytes(message: ReplicationMessageView) -> Seq<u8> {
    u32_bytes(message.tick@) + (u32_bytes(message.entities.len() as u32) + entities_bytes(
        message.entities,
        message.entities.len() as int,
    ))
}

/// Every length in the entry of an entity fits its length field.
pub open spec fn entity_encodable(entity: EntityChangesView) -> bool {
    &&& entity.changes.len() <= u32::MAX
    &&& entity.removals.len() <= u32::MAX
    &&& forall|i: int|
        0 <= i < entity.changes.len() ==> (#[trigger] entity.changes[i]).payload.len() <= u32::MAX
}

/// Every length in the message fits its length field.
pub open spec fn encodable(message: ReplicationMessageView) -> bool {
    &&& message.entities.len() <= u32::MAX
    &&& forall|i: int|
        0 <= i < message.entities.len() ==> entity_encodable(#[trigger] message.entities[i])
}

/// Reads a `u32` at `at`: the value and where it ends.
pub open spec fn parse_u32(bytes: Seq<u8>, at: int) -> Result<(u32, int), DecodeError> {
    if at + 4 <= bytes.len() {
        Ok((u32_at(bytes, at), at + 4))
    } else {
        Err(DecodeError::UnexpectedEnd)
    }
}

/// Reads a replication identifier at `at`.
pub open spec fn parse_id(bytes: Seq<u8>, at: int) -> Result<(ReplicationId, int), DecodeError> {
    if at + 8 <= bytes.len() {
        if u64_at(bytes, at) <= usize::MAX {
            Ok((ReplicationId(u64_at(bytes, at) as usize), at + 8))
        } else {
            Err(DecodeError::IdentifierOutOfRange)
        }
    } else {
        Err(DecodeError::UnexpectedEnd)
    }
}

/// Reads a change at `at`.
pub open spec fn parse_change(bytes: Seq<u8>, at: int) -> Result<
    (ComponentChangeView, int),
    DecodeError,
> {
    match parse_id(bytes, at) {
        Ok((replication_id, at_length)) => match parse_u32(bytes, at_length) {
            Ok((length, at_payload)) => if at_payload + length <= bytes.len() {
                Ok(
                    (
                        ComponentChangeView {
                            replication_id,
                            payload: bytes.subrange(at_payload, at_payload + length),
                        },
                        at_payload + length,
                    ),
                )
            } else {
                Err(DecodeError::UnexpectedEnd)
            },
            Err(error) => Err(error),
        },
        Err(error) => Err(error),
    }
}

/// Reads `count` changes from `at` on.
pub open spec fn parse_changes(bytes: Seq<u8>, at: int, count: int) -> Result<
    (Seq<ComponentChangeView>, int),
    DecodeError,
>
    decreases count,
{
    if count <= 0 {
        Ok((Seq::empty(), at))
    } else {
        match parse_changes(bytes, at, count - 1) {
            Ok((earlier, at_last)) => match parse_change(bytes, at_last) {
                Ok((change, next)) => Ok((earlier.push(change), next)),
                Err(error) => Err(error),
            },
            Err(error) => Err(error),
        }
    }
}

/// Reads a removal at `at`.
pub open spec fn parse_removal(bytes: Seq<u8>, at: int) -> Result<
    (ComponentRemovalCandidate, int),
    DecodeError,
> {
    match parse_id(bytes, at) {
        Ok((replication_id, at_tick)) => match parse_u32(bytes, at_tick) {
            Ok((tick, next)) => Ok(
                (ComponentRemovalCandidate { replication_id, tick: Tick(tick) }, next),
            ),
            Err(error) => Err(error),
        },
        Err(error) => Err(error),
    }
}

/// Reads `count` removals from `at` on.
pub open spec fn parse_removals(bytes: Seq<u8>, at: int, count: int) -> Result<
    (Seq<ComponentRemovalCandidate>, int),
    DecodeError,
>
    decreases count,
{
    if count <= 0 {
        Ok((Seq::empty(), at))
    } else {
        match parse_removals(bytes, at, count - 1) {
            Ok((earlier, at_last)) => match parse_removal(bytes, at_last) {
                Ok((removal, next)) => Ok((earlier.push(removal), next)),
                Err(error) => Err(error),
            },
            Err(error) => Err(error),
        }
    }
}

/// Reads the entry of an entity at `at`.
pub open spec fn parse_entity(bytes: Seq<u8>, at: int) -> Result<
    (EntityChangesView, int),
    DecodeError,
> {
    match parse_u32(bytes, at) {
        Ok((index, at_generation)) => match parse_u32(bytes, at_generation) {
            Ok((generation, at_count)) => match parse_u32(bytes, at_count) {
                Ok((change_count, at_changes)) => match parse_changes(
                    bytes,
                    at_changes,
                    change_count as int,
                ) {
                    Ok((changes, at_removal_count)) => match parse_u32(bytes, at_removal_count) {
                        Ok((removal_count, at_removals)) => match parse_removals(
                            bytes,
                            at_removals,
                            removal_count as int,
                        ) {
                            Ok((removals, next)) => Ok(
                                (
                                    EntityChangesView {
                                        entity: Entity { index, generation },
                                        changes,
                                        removals,
                                    },
                                    next,
                                ),
                            ),
                            Err(error) => Err(error),
                        },
                        Err(error) => Err(error),
                    },
                    Err(error) => Err(error),
                },
                Err(error) => Err(error),
            },
            Err(error) => Err(error),
        },
        Err(error) => Err(error),
    }
}

/// Reads the entries of `count` entities from `at` on.
pub open spec fn parse_entities(bytes: Seq<u8>, at: int, count: int) -> Result<
    (Seq<EntityChangesView>, int),
    DecodeError,
>
    decreases count,
{
    if count <= 0 {
        Ok((Seq::empty(), at))
    } else {
        match parse_entities(bytes, at, count - 1) {
            Ok((earlier, at_last)) => match parse_entity(bytes, at_last) {
                Ok((entity, next)) => Ok((earlier.push(entity), next)),
                Err(error) => Err(error),
            },
            Err(error) => Err(error),
        }
    }
}

/// Reads a message: the bytes from the first to the last are one message.
pub open spec fn parse_message(bytes: Seq<u8>) -> Result<ReplicationMessageView, DecodeError> {
    match parse_u32(bytes, 0) {
        Ok((tick, at_count)) => match parse_u32(bytes, at_count) {
            Ok((count, at_entities)) => match parse_entities(bytes, at_entities, count as int) {
                Ok((entities, end)) => if end == bytes.len() {
                    Ok(ReplicationMessageView { tick: Tick(tick), entities })
                } else {
                    Err(DecodeError::TrailingBytes)
                },
                Err(error) => Err(error),
            },
            Err(error) => Err(error),
        },
        Err(error) => Err(error),
    }
}

} // verus!

verus! {

fn append_bytes(out: &mut Vec<u8>, bytes: &Vec<u8>)
    ensures
        final(out)@ == old(out)@ + bytes@,
{
    let mut i: usize = 0;
    while i < bytes.len()
        invariant
            i <= bytes@.len(),
            out@ == old(out)@ + bytes@.take(i as int),
        decreases bytes@.len() - i,
    {
        out.push(bytes[i]);
        proof {
            assert(bytes@.take(i + 1) =~= bytes@.take(i as int).push(bytes@[i as int]));
            assert(out@ =~= old(out)@ + bytes@.take(i + 1));
        }
        i += 1;
    }
    proof {
        assert(bytes@.take(bytes@.len() as int) =~= bytes@);
    }
}

fn copy_range(bytes: &Vec<u8>, from: usize, to: usize) -> (copy: Vec<u8>)
    requires
        from <= to <= bytes@.len(),
    ensures
        copy@ == bytes@.subrange(from as int, to as int),
{
    let mut copy: Vec<u8> = Vec::new();
    let mut i: usize = from;
    while i < to
        invariant
            from <= i <= to <= bytes@.len(),
            copy@ == bytes@.subrange(from as int, i as int),
        decreases to - i,
    {
        copy.push(bytes[i]);
        proof {
            assert(bytes@.subrange(from as int, i + 1) =~= bytes@.subrange(
                from as int,
                i as int,
            ).push(bytes@[i as int]));
        }
        i += 1;
    }
    copy
}

/// Appends the encoding of a change, where its payload is short enough.
fn encode_change(out: &mut Vec<u8>, change: &ComponentChange) -> (fits: bool)
    ensures
        fits == (change@.payload.len() <= u32::MAX),
        fits ==> final(out)@ == old(out)@ + change_bytes(change@),
{
    if change.payload.len() > u32::MAX as usize {
        return false;
    }
    write_u64(out, change.replication_id.0 as u64);
    write_u32(out, change.payload.len() as u32);
    append_bytes(out, &change.payload);
    proof {
        assert(out@ =~= old(out)@ + change_bytes(change@));
    }
    true
}

/// Appends the encoding of the entry of an entity, where all its lengths fit.
fn encode_entity(out: &mut Vec<u8>, entity: &EntityChanges) -> (fits: bool)
    ensures
        fits == entity_encodable(entity@),
        fits ==> final(out)@ == old(out)@ + entity_bytes(entity@),
{
    if entity.changes.len() > u32::MAX as usize || entity.removals.len() > u32::MAX as usize {
        return false;
    }
    write_u32(out, entity.entity.index);
    write_u32(out, entity.entity.generation);
    write_u32(out, entity.changes.len() as u32);
    let ghost head = out@;
    let mut i: usize = 0;
    while i < entity.changes.len()
        invariant
            i <= entity.changes@.len(),
            out@ == head + changes_bytes(entity@.changes, i as int),
            forall|j: int| 0 <= j < i ==> (#[trigger] entity@.changes[j]).payload.len() <= u32::MAX,
        decreases entity.changes@.len() - i,
    {
        let ghost before = out@;
        if !encode_change(out, &entity.changes[i]) {
            proof {
                assert(entity@.changes[i as int].payload.len() > u32::MAX);
            }
            return false;
        }
        proof {
            assert(entity@.changes[i as int] == entity.changes@[i as int]@);
            assert(out@ =~= head + changes_bytes(entity@.changes, i + 1));
        }
        i += 1;
    }
    write_u32(out, entity.removals.len() as u32);
    let ghost middle = out@;
    let mut j: usize = 0;
    while j < entity.removals.len()
        invariant
            j <= entity.removals@.len(),
            out@ == middle + removals_bytes(entity@.removals, j as int),
        decreases entity.removals@.len() - j,
    {
        let removal = entity.removals[j];
        write_u64(out, removal.replication_id.0 as u64);
        write_u32(out, removal.tick.get());
        proof {
            assert(out@ =~= middle + removals_bytes(entity@.removals, j + 1));
        }
        j += 1;
    }
    proof {
        assert(out@ =~= old(out)@ + entity_bytes(entity@));
    }
    true
}

/// Encodes a message. The result is an error exactly when a list or a payload
/// of the message is longer than `u32::MAX`; otherwise it is the encoding of
/// the message, which [`decode_message`] decodes to the same message.
pub fn encode_message(message: &ReplicationMessage) -> (encoded: Result<Vec<u8>, EncodeError>)
    ensures
        match encoded {
            Ok(bytes) => encodable(message@) && bytes@ == message_bytes(message@),
            Err(EncodeError::TooLong) => !encodable(message@),
        },
{
    if message.entities.len() > u32::MAX as usize {
        return Err(EncodeError::TooLong);
    }
    let mut out: Vec<u8> = Vec::new();
    write_u32(&mut out, message.tick.get());
    write_u32(&mut out, message.entities.len() as u32);
    let ghost head = out@;
    let mut i: usize = 0;
    while i < message.entities.len()
        invariant
            i <= message.entities@.len(),
            out@ == head + entities_bytes(message@.entities, i as int),
            forall|j: int| 0 <= j < i ==> entity_encodable(#[trigger] message@.entities[j]),
        decreases message.entities@.len() - i,
    {
        if !encode_entity(&mut out, &message.entities[i]) {
            proof {
                assert(!entity_encodable(message@.entities[i as int]));
            }
            return Err(EncodeError::TooLong);
        }
        proof {
            assert(message@.entities[i as int] == message.entities@[i as int]@);
            assert(out@ =~= head + entities_bytes(message@.entities, i + 1));
        }
        i += 1;
    }
    proof {
        assert(out@ =~= message_bytes(message@));
    }
    Ok(out)
}

} // verus!

verus! {

/// Once reading a list of changes has failed, reading a longer list from the
/// same place fails in the same way.
proof fn lemma_parse_changes_fails(bytes: Seq<u8>, at: int, n: int, m: int)
    requires
        0 <= n <= m,
        parse_changes(bytes, at, n) is Err,
    ensures
        parse_changes(bytes, at, m) == parse_changes(bytes, at, n),
    decreases m - n,
{
    if n < m {
        lemma_parse_changes_fails(bytes, at, n, m - 1);
    }
}

proof fn lemma_parse_removals_fails(bytes: Seq<u8>, at: int, n: int, m: int)
    requires
        0 <= n <= m,
        parse_removals(bytes, at, n) is Err,
    ensures
        parse_removals(bytes, at, m) == parse_removals(bytes, at, n),
    decreases m - n,
{
    if n < m {
        lemma_parse_removals_fails(bytes, at, n, m - 1);
    }
}

proof fn lemma_parse_entities_fails(bytes: Seq<u8>, at: int, n: int, m: int)
    requires
        0 <= n <= m,
        parse_entities(bytes, at, n) is Err,
    ensures
        parse_entities(bytes, at, m) == parse_entities(bytes, at, n),
    decreases m - n,
{
    if n < m {
        lemma_parse_entities_fails(bytes, at, n, m - 1);
    }
}

fn decode_id(bytes: &Vec<u8>, at: usize) -> (decoded: Result<(ReplicationId, usize), DecodeError>)
    ensures
        match decoded {
            Ok((id, next)) => parse_id(bytes@, at as int) == Ok::<_, DecodeError>((id, next as int)),
            Err(error) => parse_id(bytes@, at as int) == Err::<(ReplicationId, int), _>(error),
        },
{
    let total = bytes.len();
    match read_u64(bytes, at) {
        Some(value) => {
            assert(at + 8 <= total);
            if value > usize::MAX as u64 {
                Err(DecodeError::IdentifierOutOfRange)
            } else {
                Ok((ReplicationId(value as usize), at + 8))
            }
        },
        None => Err(DecodeError::UnexpectedEnd),
    }
}

fn decode_u32(bytes: &Vec<u8>, at: usize) -> (decoded: Result<(u32, usize), DecodeError>)
    ensures
        match decoded {
            Ok((value, next)) => parse_u32(bytes@, at as int) == Ok::<_, DecodeError>(
                (value, next as int),
            ),
            Err(error) => parse_u32(bytes@, at as int) == Err::<(u32, int), _>(error),
        },
{
    let total = bytes.len();
    match read_u32(bytes, at) {
        Some(value) => {
            assert(at + 4 <= total);
            Ok((value, at + 4))
        },
        None => Err(DecodeError::UnexpectedEnd),
    }
}

fn decode_change(bytes: &Vec<u8>, at: usize) -> (decoded: Result<
    (ComponentChange, usize),
    DecodeError,
>)
    ensures
        match decoded {
            Ok((change, next)) => parse_change(bytes@, at as int) == Ok::<_, DecodeError>(
                (change@, next as int),
            ),
            Err(error) => parse_change(bytes@, at as int) == Err::<(ComponentChangeView, int), _>(
                error,
            ),
        },
{
    let (replication_id, at_length) = match decode_id(bytes, at) {
        Ok(read) => read,
        Err(error) => {
            return Err(error);
        },
    };
    let (length, at_payload) = match decode_u32(bytes, at_length) {
        Ok(read) => read,
        Err(error) => {
            return Err(error);
        },
    };
    if length as usize > bytes.len() - at_payload {
        return Err(DecodeError::UnexpectedEnd);
    }
    let end = at_payload + length as usize;
    let payload = copy_range(bytes, at_payload, end);
    Ok((ComponentChange { replication_id, payload }, end))
}

fn decode_removal(bytes: &Vec<u8>, at: usize) -> (decoded: Result<
    (ComponentRemovalCandidate, usize),
    DecodeError,
>)
    ensures
        match decoded {
            Ok((removal, next)) => parse_removal(bytes@, at as int) == Ok::<_, DecodeError>(
                (removal, next as int),
            ),
            Err(error) => parse_removal(bytes@, at as int) == Err::<
                (ComponentRemovalCandidate, int),
                _,
            >(error),
        },
{
    let (replication_id, at_tick) = match decode_id(bytes, at) {
        Ok(read) => read,
        Err(error) => {
            return Err(error);
        },
    };
    let (tick, next) = match decode_u32(bytes, at_tick) {
        Ok(read) => read,
        Err(error) => {
            return Err(error);
        },
    };
    Ok((ComponentRemovalCandidate { replication_id, tick: Tick(tick) }, next))
}

fn decode_changes(bytes: &Vec<u8>, at: usize, count: u32) -> (decoded: Result<
    (Vec<ComponentChange>, usize),
    DecodeError,
>)
    ensures
        match decoded {
            Ok((changes, next)) => parse_changes(bytes@, at as int, count as int) == Ok::<
                _,
                DecodeError,
            >((change_views(changes@), next as int)),
            Err(error) => parse_changes(bytes@, at as int, count as int) == Err::<
                (Seq<ComponentChangeView>, int),
                _,
            >(error),
        },
{
    let mut changes: Vec<ComponentChange> = Vec::new();
    let mut next: usize = at;
    let mut i: u32 = 0;
    proof {
        assert(change_views(changes@) =~= Seq::<ComponentChangeView>::empty());
    }
    while i < count
        invariant
            i <= count,
            parse_changes(bytes@, at as int, i as int) == Ok::<_, DecodeError>(
                (change_views(changes@), next as int),
            ),
        decreases count - i,
    {
        match decode_change(bytes, next) {
            Ok((change, after)) => {
                let ghost before = changes@;
                changes.push(change);
                next = after;
                proof {
                    assert(change_views(changes@) =~= change_views(before).push(change@));
                }
            },
            Err(error) => {
                proof {
                    lemma_parse_changes_fails(bytes@, at as int, i + 1, count as int);
                }
                return Err(error);
            },
        }
        i += 1;
    }
    Ok((changes, next))
}

fn decode_removals(bytes: &Vec<u8>, at: usize, count: u32) -> (decoded: Result<
    (Vec<ComponentRemovalCandidate>, usize),
    DecodeError,
>)
    ensures
        match decoded {
            Ok((removals, next)) => parse_removals(bytes@, at as int, count as int) == Ok::<
                _,
                DecodeError,
            >((removals@, next as int)),
            Err(error) => parse_removals(bytes@, at as int, count as int) == Err::<
                (Seq<ComponentRemovalCandidate>, int),
                _,
            >(error),
        },
{
    let mut removals: Vec<ComponentRemovalCandidate> = Vec::new();
    let mut next: usize = at;
    let mut i: u32 = 0;
    while i < count
        invariant
            i <= count,
            parse_removals(bytes@, at as int, i as int) == Ok::<_, DecodeError>(
                (removals@, next as int),
            ),
        decreases count - i,
    {
        match decode_removal(bytes, next) {
            Ok((removal, after)) => {
                removals.push(removal);
                next = after;
            },
            Err(error) => {
                proof {
                    lemma_parse_removals_fails(bytes@, at as int, i + 1, count as int);
                }
                return Err(error);
            },
        }
        i += 1;
    }
    Ok((removals, next))
}

fn decode_entity(bytes: &Vec<u8>, at: usize) -> (decoded: Result<
    (EntityChanges, usize),
    DecodeError,
>)
    ensures
        match decoded {
            Ok((entity, next)) => parse_entity(bytes@, at as int) == Ok::<_, DecodeError>(
                (entity@, next as int),
            ),
            Err(error) => parse_entity(bytes@, at as int) == Err::<(EntityChangesView, int), _>(
                error,
            ),
        },
{
    let (index, at_generation) = match decode_u32(bytes, at) {
        Ok(read) => read,
        Err(error) => {
            return Err(error);
        },
    };
    let (generation, at_count) = match decode_u32(bytes, at_generation) {
        Ok(read) => read,
        Err(error) => {
            return Err(error);
        },
    };
    let (change_count, at_changes) = match decode_u32(bytes, at_count) {
        Ok(read) => read,
        Err(error) => {
            return Err(error);
        },
    };
    let (changes, at_removal_count) = match decode_changes(bytes, at_changes, change_count) {
        Ok(read) => read,
        Err(error) => {
            return Err(error);
        },
    };
    let (removal_count, at_removals) = match decode_u32(bytes, at_removal_count) {
        Ok(read) => read,
        Err(error) => {
            return Err(error);
        },
    };
    let (removals, next) = match decode_removals(bytes, at_removals, removal_count) {
        Ok(read) => read,
        Err(error) => {
            return Err(error);
        },
    };
    Ok((EntityChanges { entity: Entity { index, generation }, changes, removals }, next))
}

/// Decodes a message. The result is what [`parse_message`] makes of the
/// bytes: the message where the bytes are the encoding of one, and otherwise
/// the reason why they are not. Nothing of a malformed message is returned.
pub fn decode_message(bytes: &Vec<u8>) -> (decoded: Result<ReplicationMessage, DecodeError>)
    ensures
        match decoded {
            Ok(message) => parse_message(bytes@) == Ok::<_, DecodeError>(message@),
            Err(error) => parse_message(bytes@) == Err::<ReplicationMessageView, _>(error),
        },
{
    let (tick, at_count) = match decode_u32(bytes, 0) {
        Ok(read) => read,
        Err(error) => {
            return Err(error);
        },
    };
    let (count, at_entities) = match decode_u32(bytes, at_count) {
        Ok(read) => read,
        Err(error) => {
            return Err(error);
        },
    };
    let mut entities: Vec<EntityChanges> = Vec::new();
    let mut next: usize = at_entities;
    let mut i: u32 = 0;
    proof {
        assert(entity_views(entities@) =~= Seq::<EntityChangesView>::empty());
    }
    while i < count
        invariant
            i <= count,
            parse_u32(bytes@, 0) == Ok::<_, DecodeError>((tick, at_count as int)),
            parse_u32(bytes@, at_count as int) == Ok::<_, DecodeError>((count, at_entities as int)),
            parse_entities(bytes@, at_entities as int, i as int) == Ok::<_, DecodeError>(
                (entity_views(entities@), next as int),
            ),
        decreases count - i,
    {
        match decode_entity(bytes, next) {
            Ok((entity, after)) => {
                let ghost before = entities@;
                entities.push(entity);
                next = after;
                proof {
                    assert(entity_views(entities@) =~= entity_views(before).push(entity@));
                }
            },
            Err(error) => {
                proof {
                    lemma_parse_entities_fails(bytes@, at_entities as int, i + 1, count as int);
                }
                return Err(error);
            },
        }
        i += 1;
    }
    if next != bytes.len() {
        return Err(DecodeError::TrailingBytes);
    }
    Ok(ReplicationMessage { tick: Tick(tick), entities })
}

} // verus!

verus! {

proof fn lemma_parse_u32(bytes: Seq<u8>, at: int, value: u32)
    requires
        stands_at(bytes, at, u32_bytes(value)),
    ensures
        parse_u32(bytes, at) == Ok::<_, DecodeError>((value, at + 4)),
{
    reveal(stands_at);
    lemma_u32_round_trip(bytes, at, value);
}

proof fn lemma_parse_id(bytes: Seq<u8>, at: int, id: ReplicationId)
    requires
        stands_at(bytes, at, u64_bytes(id.0 as u64)),
    ensures
        parse_id(bytes, at) == Ok::<_, DecodeError>((id, at + 8)),
{
    reveal(stands_at);
    lemma_u64_round_trip(bytes, at, id.0 as u64);
}

proof fn lemma_parse_change(bytes: Seq<u8>, at: int, change: ComponentChangeView)
    requires
        stands_at(bytes, at, change_bytes(change)),
        change.payload.len() <= u32::MAX,
    ensures
        parse_change(bytes, at) == Ok::<_, DecodeError>(
            (change, at + change_bytes(change).len()),
        ),
{
    reveal(stands_at);
    let id = u64_bytes(change.replication_id.0 as u64);
    let length = u32_bytes(change.payload.len() as u32);
    lemma_stands_at_parts(bytes, at, id, length + change.payload);
    lemma_stands_at_parts(bytes, at + 8, length, change.payload);
    lemma_parse_id(bytes, at, change.replication_id);
    lemma_parse_u32(bytes, at + 8, change.payload.len() as u32);
    assert(bytes.subrange(at + 12, at + 12 + change.payload.len()) =~= change.payload);
}

proof fn lemma_parse_changes(bytes: Seq<u8>, at: int, changes: Seq<ComponentChangeView>, n: int)
    requires
        0 <= n <= changes.len(),
        stands_at(bytes, at, changes_bytes(changes, n)),
        forall|i: int| 0 <= i < n ==> (#[trigger] changes[i]).payload.len() <= u32::MAX,
    ensures
        parse_changes(bytes, at, n) == Ok::<_, DecodeError>(
            (changes.take(n), at + changes_bytes(changes, n).len()),
        ),
    decreases n,
{
    if n > 0 {
        let earlier = changes_bytes(changes, n - 1);
        lemma_stands_at_parts(bytes, at, earlier, change_bytes(changes[n - 1]));
        lemma_parse_changes(bytes, at, changes, n - 1);
        lemma_parse_change(bytes, at + earlier.len(), changes[n - 1]);
        assert(changes.take(n - 1).push(changes[n - 1]) =~= changes.take(n));
    } else {
        assert(changes.take(0) =~= Seq::<ComponentChangeView>::empty());
    }
}

proof fn lemma_parse_removal(bytes: Seq<u8>, at: int, removal: ComponentRemovalCandidate)
    requires
        stands_at(bytes, at, removal_bytes(removal)),
    ensures
        parse_removal(bytes, at) == Ok::<_, DecodeError>((removal, at + 12)),
{
    reveal(stands_at);
    let id = u64_bytes(removal.replication_id.0 as u64);
    lemma_stands_at_parts(bytes, at, id, u32_bytes(removal.tick@));
    lemma_parse_id(bytes, at, removal.replication_id);
    lemma_parse_u32(bytes, at + 8, removal.tick@);
}

proof fn lemma_parse_removals(
    bytes: Seq<u8>,
    at: int,
    removals: Seq<ComponentRemovalCandidate>,
    n: int,
)
    requires
        0 <= n <= removals.len(),
        stands_at(bytes, at, removals_bytes(removals, n)),
    ensures
        parse_removals(bytes, at, n) == Ok::<_, DecodeError>(
            (removals.take(n), at + removals_bytes(removals, n).len()),
        ),
    decreases n,
{
    if n > 0 {
        let earlier = removals_bytes(removals, n - 1);
        lemma_stands_at_parts(bytes, at, earlier, removal_bytes(removals[n - 1]));
        lemma_parse_removals(bytes, at, removals, n - 1);
        lemma_parse_removal(bytes, at + earlier.len(), removals[n - 1]);
        assert(removals.take(n - 1).push(removals[n - 1]) =~= removals.take(n));
    } else {
        assert(removals.take(0) =~= Seq::<ComponentRemovalCandidate>::empty());
    }
}

proof fn lemma_parse_entity(bytes: Seq<u8>, at: int, entity: EntityChangesView)
    requires
        stands_at(bytes, at, entity_bytes(entity)),
        entity_encodable(entity),
    ensures
        parse_entity(bytes, at) == Ok::<_, DecodeError>((entity, at + entity_bytes(entity).len())),
{
    let changes = changes_bytes(entity.changes, entity.changes.len() as int);
    let removals = removals_bytes(entity.removals, entity.removals.len() as int);
    let removal_count = u32_bytes(entity.removals.len() as u32);
    let change_count = u32_bytes(entity.changes.len() as u32);
    let generation = u32_bytes(entity.entity.generation);
    let index = u32_bytes(entity.entity.index);
    let tail4 = removal_count + removals;
    let tail3 = changes + tail4;
    let tail2 = change_count + tail3;
    let tail1 = generation + tail2;
    lemma_stands_at_parts(bytes, at, index, tail1);
    lemma_stands_at_parts(bytes, at + 4, generation, tail2);
    lemma_stands_at_parts(bytes, at + 8, change_count, tail3);
    lemma_stands_at_parts(bytes, at + 12, changes, tail4);
    lemma_stands_at_parts(bytes, at + 12 + changes.len(), removal_count, removals);
    lemma_parse_u32(bytes, at, entity.entity.index);
    lemma_parse_u32(bytes, at + 4, entity.entity.generation);
    lemma_parse_u32(bytes, at + 8, entity.changes.len() as u32);
    lemma_parse_changes(bytes, at + 12, entity.changes, entity.changes.len() as int);
    lemma_parse_u32(bytes, at + 12 + changes.len(), entity.removals.len() as u32);
    lemma_parse_removals(
        bytes,
        at + 16 + changes.len(),
        entity.removals,
        entity.removals.len() as int,
    );
    assert(entity.changes.take(entity.changes.len() as int) =~= entity.changes);
    assert(entity.removals.take(entity.removals.len() as int) =~= entity.removals);
}

proof fn lemma_parse_entities(bytes: Seq<u8>, at: int, entities: Seq<EntityChangesView>, n: int)
    requires
        0 <= n <= entities.len(),
        stands_at(bytes, at, entities_bytes(entities, n)),
        forall|i: int| 0 <= i < n ==> entity_encodable(#[trigger] entities[i]),
    ensures
        parse_entities(bytes, at, n) == Ok::<_, DecodeError>(
            (entities.take(n), at + entities_bytes(entities, n).len()),
        ),
    decreases n,
{
    if n > 0 {
        let earlier = entities_bytes(entities, n - 1);
        lemma_stands_at_parts(bytes, at, earlier, entity_bytes(entities[n - 1]));
        lemma_parse_entities(bytes, at, entities, n - 1);
        lemma_parse_entity(bytes, at + earlier.len(), entities[n - 1]);
        assert(entities.take(n - 1).push(entities[n - 1]) =~= entities.take(n));
    } else {
        assert(entities.take(0) =~= Seq::<EntityChangesView>::empty());
    }
}

/// Decoding inverts encoding: the encoding of a message whose lengths fit
/// their fields reads back as that message, with every entity, every change
/// with its payload byte for byte, and every removal, in order.
pub proof fn lemma_decode_inverts_encode(message: ReplicationMessageView)
    requires
        encodable(message),
    ensures
        parse_message(message_bytes(message)) == Ok::<_, DecodeError>(message),
{
    reveal(stands_at);
    let bytes = message_bytes(message);
    let count = u32_bytes(message.entities.len() as u32);
    let entities = entities_bytes(message.entities, message.entities.len() as int);
    assert(stands_at(bytes, 0, bytes));
    lemma_stands_at_parts(bytes, 0, u32_bytes(message.tick@), count + entities);
    lemma_stands_at_parts(bytes, 4, count, entities);
    lemma_parse_u32(bytes, 0, message.tick@);
    lemma_parse_u32(bytes, 4, message.entities.len() as u32);
    lemma_parse_entities(bytes, 8, message.entities, message.entities.len() as int);
    assert(message.entities.take(message.entities.len() as int) =~= message.entities);
}

} // verus!
