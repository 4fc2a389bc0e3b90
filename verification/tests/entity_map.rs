use bevy_replicon::client::NetworkEntityMap;
use bevy_replicon::entity::Entity;

#[test]
fn insert_maps_both_ways() {
    let mut map = NetworkEntityMap::new();
    let server = Entity::new(10, 0);
    let client = Entity::new(1, 0);
    map.insert(server, client);
    assert_eq!(map.to_client(server), Some(client));
    assert_eq!(map.to_server(client), Some(server));
    assert_eq!(map.len(), 1);
}

#[test]
fn reinsert_replaces_stale_client() {
    let mut map = NetworkEntityMap::new();
    let server = Entity::new(10, 0);
    map.insert(server, Entity::new(1, 0));
    map.insert(server, Entity::new(2, 0));
    assert_eq!(map.to_client(server), Some(Entity::new(2, 0)));
    assert_eq!(map.to_server(Entity::new(1, 0)), None);
    assert_eq!(map.to_server(Entity::new(2, 0)), Some(server));
    assert_eq!(map.len(), 1);
}

#[test]
fn reinsert_replaces_stale_server() {
    let mut map = NetworkEntityMap::new();
    let client = Entity::new(1, 0);
    map.insert(Entity::new(10, 0), client);
    map.insert(Entity::new(11, 0), client);
    assert_eq!(map.to_server(client), Some(Entity::new(11, 0)));
    assert_eq!(map.to_client(Entity::new(10, 0)), None);
    assert_eq!(map.to_client(Entity::new(11, 0)), Some(client));
    assert_eq!(map.len(), 1);
}

#[test]
fn insert_that_aliases_two_entries_replaces_both() {
    let mut map = NetworkEntityMap::new();
    map.insert(Entity::new(10, 0), Entity::new(1, 0));
    map.insert(Entity::new(11, 0), Entity::new(2, 0));
    map.insert(Entity::new(10, 0), Entity::new(2, 0));
    assert_eq!(map.to_client(Entity::new(10, 0)), Some(Entity::new(2, 0)));
    assert_eq!(map.to_server(Entity::new(2, 0)), Some(Entity::new(10, 0)));
    assert_eq!(map.to_client(Entity::new(11, 0)), None);
    assert_eq!(map.to_server(Entity::new(1, 0)), None);
    assert_eq!(map.len(), 1);
}

#[test]
fn remove_unmaps_both_ways() {
    let mut map = NetworkEntityMap::new();
    map.insert(Entity::new(10, 0), Entity::new(1, 0));
    map.insert(Entity::new(11, 0), Entity::new(2, 0));
    assert_eq!(map.remove(Entity::new(10, 0)), Some(Entity::new(1, 0)));
    assert_eq!(map.to_client(Entity::new(10, 0)), None);
    assert_eq!(map.to_server(Entity::new(1, 0)), None);
    assert_eq!(map.to_client(Entity::new(11, 0)), Some(Entity::new(2, 0)));
    assert_eq!(map.remove(Entity::new(10, 0)), None);
    assert_eq!(map.len(), 1);
}

#[test]
fn generations_are_told_apart() {
    let mut map = NetworkEntityMap::new();
    map.insert(Entity::new(10, 0), Entity::new(1, 0));
    map.insert(Entity::new(10, 1), Entity::new(1, 1));
    assert_eq!(map.to_client(Entity::new(10, 0)), Some(Entity::new(1, 0)));
    assert_eq!(map.to_client(Entity::new(10, 1)), Some(Entity::new(1, 1)));
    assert_eq!(map.to_server(Entity::new(1, 1)), Some(Entity::new(10, 1)));
    assert_eq!(map.len(), 2);
}

#[test]
fn entity_bits_round_trip() {
    let entity = Entity::new(7, 3);
    assert_eq!(entity.to_bits(), (3u64 << 32) | 7);
    assert_eq!(Entity::from_bits(entity.to_bits()), entity);
    assert_eq!(Entity::from_bits(u64::MAX), Entity::new(u32::MAX, u32::MAX));
    assert_eq!(Entity::new(u32::MAX, u32::MAX).to_bits(), u64::MAX);
}
