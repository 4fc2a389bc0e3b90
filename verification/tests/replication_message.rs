use bevy_replicon::entity::Entity;
use bevy_replicon::replicon_core::replication_rules::{ComponentId, ReplicationId};
use bevy_replicon::replicon_core::wire::{
    decode_message, encode_message, read_u32, read_u64, write_u32, write_u64, DecodeError,
};
use bevy_replicon::server::change_detection::{
    ComponentChangeCandidate, ComponentRemovalCandidate, EntityCandidate,
};
use bevy_replicon::server::replication_message::{
    build_entity_changes, build_message, select_entity_for_client, select_for_client,
    ComponentChange, EntityChanges, MessageError, ReplicationMessage, SkippedComponent,
};
use bevy_replicon::storage::PayloadLocation;
use bevy_replicon::tick::{ComponentTicks, Tick};
use bincode::Options;

fn change(replication_id: usize, changed: u32) -> ComponentChangeCandidate {
    ComponentChangeCandidate {
        component_id: ComponentId(replication_id + 10),
        replication_id: ReplicationId(replication_id),
        payload: PayloadLocation::Table { table_id: 0, column: replication_id, row: 0 },
        component_ticks: ComponentTicks::new(Tick::new(1), Tick::new(changed)),
    }
}

fn removal(replication_id: usize, tick: u32) -> ComponentRemovalCandidate {
    ComponentRemovalCandidate { replication_id: ReplicationId(replication_id), tick: Tick::new(tick) }
}

fn candidate(
    index: u32,
    changed: Vec<ComponentChangeCandidate>,
    removed: Vec<ComponentRemovalCandidate>,
) -> EntityCandidate {
    EntityCandidate {
        entity: Entity::new(index, 0),
        replication_marker: PayloadLocation::Table { table_id: 0, column: 0, row: index as usize },
        changed_component_candidates: changed,
        removed_component_candidates: removed,
    }
}

fn sample_message() -> ReplicationMessage {
    ReplicationMessage {
        tick: Tick::new(0x0102_0304),
        entities: vec![
            EntityChanges {
                entity: Entity::new(5, 1),
                changes: vec![
                    ComponentChange { replication_id: ReplicationId(2), payload: vec![0xaa, 0xbb] },
                    ComponentChange { replication_id: ReplicationId(0), payload: vec![] },
                ],
                removals: vec![removal(7, 9)],
            },
            EntityChanges { entity: Entity::new(6, 0), changes: vec![], removals: vec![] },
        ],
    }
}

fn assert_same_message(a: &ReplicationMessage, b: &ReplicationMessage) {
    assert_eq!(a.tick, b.tick);
    assert_eq!(a.entities.len(), b.entities.len());
    for (a, b) in a.entities.iter().zip(b.entities.iter()) {
        assert_eq!(a.entity, b.entity);
        assert_eq!(a.removals, b.removals);
        assert_eq!(a.changes.len(), b.changes.len());
        for (a, b) in a.changes.iter().zip(b.changes.iter()) {
            assert_eq!(a.replication_id, b.replication_id);
            assert_eq!(a.payload, b.payload);
        }
    }
}

#[test]
fn client_gets_only_what_is_newer_than_its_tick() {
    // The scan was bounded by tick 3, the oldest of all clients.
    let candidates = vec![
        candidate(0, vec![change(0, 4), change(1, 8)], vec![removal(2, 5), removal(3, 9)]),
        candidate(1, vec![change(0, 5)], vec![]),
        candidate(2, vec![change(0, 9)], vec![removal(1, 4)]),
    ];
    let selection = select_for_client(&candidates, Tick::new(6), Tick::new(10));
    assert_eq!(selection.len(), 2);
    assert_eq!(selection[0].entity, Entity::new(0, 0));
    assert_eq!(selection[0].changed_component_candidates, vec![change(1, 8)]);
    assert_eq!(selection[0].removed_component_candidates, vec![removal(3, 9)]);
    assert_eq!(selection[1].entity, Entity::new(2, 0));
    assert_eq!(selection[1].changed_component_candidates, vec![change(0, 9)]);
    assert!(selection[1].removed_component_candidates.is_empty());
    // The client at the oldest tick gets everything.
    let selection = select_for_client(&candidates, Tick::new(3), Tick::new(10));
    assert_eq!(selection.len(), 3);
    assert_eq!(selection[0].changed_component_candidates.len(), 2);
    // A client that is up to date gets nothing.
    assert!(select_for_client(&candidates, Tick::new(10), Tick::new(10)).is_empty());
}

#[test]
fn change_at_the_client_tick_is_excluded() {
    let cut = select_entity_for_client(
        &candidate(4, vec![change(0, 6), change(1, 7)], vec![removal(2, 6), removal(3, 7)]),
        Tick::new(6),
        Tick::new(10),
    );
    assert_eq!(cut.entity, Entity::new(4, 0));
    assert_eq!(cut.replication_marker, PayloadLocation::Table { table_id: 0, column: 0, row: 4 });
    assert_eq!(cut.changed_component_candidates, vec![change(1, 7)]);
    assert_eq!(cut.removed_component_candidates, vec![removal(3, 7)]);
}

#[test]
fn message_holds_selection_in_order() {
    let selection = vec![
        candidate(0, vec![change(0, 4), change(1, 8)], vec![removal(3, 9)]),
        candidate(2, vec![], vec![removal(1, 4)]),
    ];
    let outcomes = vec![vec![Some(vec![1, 2, 3]), Some(vec![])], vec![]];
    let (message, skipped) =
        build_message(Tick::new(10), &selection, &outcomes).expect("outcomes line up");
    assert!(skipped.is_empty());
    assert_same_message(&message, &ReplicationMessage {
        tick: Tick::new(10),
        entities: vec![
            EntityChanges {
                entity: Entity::new(0, 0),
                changes: vec![
                    ComponentChange { replication_id: ReplicationId(0), payload: vec![1, 2, 3] },
                    ComponentChange { replication_id: ReplicationId(1), payload: vec![] },
                ],
                removals: vec![removal(3, 9)],
            },
            EntityChanges {
                entity: Entity::new(2, 0),
                changes: vec![],
                removals: vec![removal(1, 4)],
            },
        ],
    });
}

#[test]
fn failed_serialization_skips_one_component() {
    let selection = vec![
        candidate(0, vec![change(0, 4), change(1, 8), change(2, 8)], vec![removal(3, 9)]),
        candidate(1, vec![change(0, 8)], vec![]),
    ];
    let outcomes = vec![vec![Some(vec![1]), None, Some(vec![3])], vec![None]];
    let (message, skipped) =
        build_message(Tick::new(10), &selection, &outcomes).expect("outcomes line up");
    assert_eq!(skipped, vec![
        SkippedComponent { entity: Entity::new(0, 0), replication_id: ReplicationId(1) },
        SkippedComponent { entity: Entity::new(1, 0), replication_id: ReplicationId(0) },
    ]);
    assert_eq!(message.entities.len(), 2);
    let ids: Vec<_> = message.entities[0].changes.iter().map(|c| c.replication_id).collect();
    assert_eq!(ids, vec![ReplicationId(0), ReplicationId(2)]);
    assert_eq!(message.entities[0].changes[1].payload, vec![3]);
    assert_eq!(message.entities[0].removals, vec![removal(3, 9)]);
    assert!(message.entities[1].changes.is_empty());
}

#[test]
fn entry_of_one_entity() {
    let (entry, skipped) = build_entity_changes(
        &candidate(3, vec![change(4, 4), change(5, 8)], vec![removal(6, 9)]),
        &vec![None, Some(vec![9, 9])],
    );
    assert_eq!(entry.entity, Entity::new(3, 0));
    assert_eq!(entry.changes.len(), 1);
    assert_eq!(entry.changes[0].replication_id, ReplicationId(5));
    assert_eq!(entry.changes[0].payload, vec![9, 9]);
    assert_eq!(entry.removals, vec![removal(6, 9)]);
    assert_eq!(skipped, vec![SkippedComponent {
        entity: Entity::new(3, 0),
        replication_id: ReplicationId(4)
    }]);
}

#[test]
fn outcomes_that_do_not_line_up_are_refused() {
    let selection =
        vec![candidate(0, vec![change(0, 4)], vec![]), candidate(1, vec![change(0, 8)], vec![])];
    let missing_entity = vec![vec![Some(vec![1])]];
    assert_eq!(
        build_message(Tick::new(10), &selection, &missing_entity).err(),
        Some(MessageError::OutcomeMismatch { position: 2 })
    );
    let missing_outcome = vec![vec![Some(vec![1])], vec![]];
    assert_eq!(
        build_message(Tick::new(10), &selection, &missing_outcome).err(),
        Some(MessageError::OutcomeMismatch { position: 1 })
    );
    let both_wrong = vec![vec![], vec![Some(vec![1]), None]];
    assert_eq!(
        build_message(Tick::new(10), &selection, &both_wrong).err(),
        Some(MessageError::OutcomeMismatch { position: 0 })
    );
}

#[test]
fn message_bytes_are_little_endian_and_length_prefixed() {
    let bytes = encode_message(&sample_message()).expect("message is small");
    let expected: Vec<u8> = vec![
        0x04, 0x03, 0x02, 0x01, // tick
        2, 0, 0, 0, // entities
        5, 0, 0, 0, 1, 0, 0, 0, // entity 5, generation 1
        2, 0, 0, 0, // changes
        2, 0, 0, 0, 0, 0, 0, 0, 2, 0, 0, 0, 0xaa, 0xbb, // id 2, two bytes
        0, 0, 0, 0, 0, 0, 0, 0, 0, 0, 0, 0, // id 0, no bytes
        1, 0, 0, 0, // removals
        7, 0, 0, 0, 0, 0, 0, 0, 9, 0, 0, 0, // id 7 at tick 9
        6, 0, 0, 0, 0, 0, 0, 0, // entity 6, generation 0
        0, 0, 0, 0, // changes
        0, 0, 0, 0, // removals
    ];
    assert_eq!(bytes, expected);
}

#[test]
fn decoding_gives_back_the_message() {
    let message = sample_message();
    let bytes = encode_message(&message).expect("message is small");
    let decoded = decode_message(&bytes).expect("bytes are a message");
    assert_same_message(&decoded, &message);
    let empty = ReplicationMessage { tick: Tick::new(u32::MAX), entities: vec![] };
    let bytes = encode_message(&empty).expect("message is small");
    assert_eq!(bytes, vec![0xff, 0xff, 0xff, 0xff, 0, 0, 0, 0]);
    assert_same_message(&decode_message(&bytes).expect("bytes are a message"), &empty);
}

#[test]
fn truncated_message_is_refused() {
    let bytes = encode_message(&sample_message()).expect("message is small");
    for length in 0..bytes.len() {
        assert_eq!(
            decode_message(&bytes[..length].to_vec()).err(),
            Some(DecodeError::UnexpectedEnd),
            "length {length}"
        );
    }
}

#[test]
fn trailing_bytes_are_refused() {
    let mut bytes = encode_message(&sample_message()).expect("message is small");
    bytes.push(0);
    assert_eq!(decode_message(&bytes).err(), Some(DecodeError::TrailingBytes));
}

#[test]
fn payload_longer_than_the_message_is_refused() {
    // One entity with one change that claims 255 bytes and has two.
    let bytes: Vec<u8> = vec![
        1, 0, 0, 0, 1, 0, 0, 0,
        5, 0, 0, 0, 1, 0, 0, 0,
        1, 0, 0, 0,
        2, 0, 0, 0, 0, 0, 0, 0, 255, 0, 0, 0, 0xaa, 0xbb,
        0, 0, 0, 0,
    ];
    assert_eq!(decode_message(&bytes).err(), Some(DecodeError::UnexpectedEnd));
    // A count of entities that the bytes cannot hold.
    let bytes: Vec<u8> = vec![1, 0, 0, 0, 0xff, 0xff, 0xff, 0xff];
    assert_eq!(decode_message(&bytes).err(), Some(DecodeError::UnexpectedEnd));
}

#[test]
fn integers_are_read_as_written() {
    let mut bytes = vec![0xee];
    write_u32(&mut bytes, 0x1234_5678);
    write_u64(&mut bytes, 0x0102_0304_0506_0708);
    assert_eq!(bytes, vec![
        0xee, 0x78, 0x56, 0x34, 0x12, 0x08, 0x07, 0x06, 0x05, 0x04, 0x03, 0x02, 0x01
    ]);
    assert_eq!(read_u32(&bytes, 1), Some(0x1234_5678));
    assert_eq!(read_u64(&bytes, 5), Some(0x0102_0304_0506_0708));
    assert_eq!(read_u32(&bytes, 9), Some(0x0102_0304));
    assert_eq!(read_u32(&bytes, 10), None);
    assert_eq!(read_u64(&bytes, 6), None);
    assert_eq!(read_u32(&bytes, usize::MAX), None);
    assert_eq!(read_u64(&bytes, usize::MAX - 3), None);
}

#[test]
fn component_value_survives_the_round_trip() {
    // The value of a component, serialized by its own serializer, travels as
    // the payload of a change and deserializes to an equal value.
    let sent: (u64, String, Vec<i16>) = (0xdead_beef, "counter".to_string(), vec![-1, 0, 1]);
    let payload = bincode::DefaultOptions::new().serialize(&sent).expect("serializable");
    let selection = vec![candidate(7, vec![change(3, 9)], vec![])];
    let (message, skipped) =
        build_message(Tick::new(10), &selection, &vec![vec![Some(payload)]]).expect("lines up");
    assert!(skipped.is_empty());
    let bytes = encode_message(&message).expect("message is small");
    let received = decode_message(&bytes).expect("bytes are a message");
    assert_eq!(received.tick, Tick::new(10));
    assert_eq!(received.entities[0].entity, Entity::new(7, 0));
    assert_eq!(received.entities[0].changes[0].replication_id, ReplicationId(3));
    let value: (u64, String, Vec<i16>) = bincode::DefaultOptions::new()
        .deserialize(&received.entities[0].changes[0].payload)
        .expect("deserializable");
    assert_eq!(value, sent);
}

#[test]
fn integers_are_laid_out_as_fixed_width_bincode() {
    for value in [0u32, 1, 0xff, 0x100, 0x1234_5678, u32::MAX] {
        let mut bytes = Vec::new();
        write_u32(&mut bytes, value);
        assert_eq!(bytes, bincode::serialize(&value).expect("serializable"));
        assert_eq!(bincode::deserialize::<u32>(&bytes).expect("deserializable"), value);
    }
    for value in [0u64, 0xffff_ffff, 0x1_0000_0000, 0x0102_0304_0506_0708, u64::MAX] {
        let mut bytes = Vec::new();
        write_u64(&mut bytes, value);
        assert_eq!(bytes, bincode::serialize(&value).expect("serializable"));
        assert_eq!(read_u64(&bytes, 0), Some(value));
    }
}
