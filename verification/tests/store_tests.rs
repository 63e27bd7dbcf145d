use grimbot::store::{Entity, EntityStore};

fn ent(name: &str, owner: u64) -> Entity {
    Entity { name: name.as_bytes().to_vec(), owner, attributes: Vec::new() }
}

fn loaded_empty() -> EntityStore {
    let mut s = EntityStore::new();
    s.load(Vec::new());
    s
}

#[test]
fn get_on_never_written_key_is_none() {
    // P7: a key never written reads back as absent.
    let s = loaded_empty();
    assert!(s.get(&b"alice".to_vec()).is_none());
}

#[test]
fn last_write_wins_wholesale() {
    // P7: upsert("alice", e1) then upsert("alice", e2) reads back e2.
    let mut s = loaded_empty();
    s.upsert(b"alice".to_vec(), ent("alice", 1));
    s.upsert(b"alice".to_vec(), ent("alice", 2));
    let got = s.get(&b"alice".to_vec()).unwrap();
    assert_eq!(got.owner, 2);
    assert_eq!(got.name, b"alice".to_vec());
}

#[test]
fn distinct_keys_both_persist() {
    // P7: writes to distinct keys never lose each other.
    let mut s = loaded_empty();
    s.upsert(b"alice".to_vec(), ent("alice", 1));
    s.upsert(b"bob".to_vec(), ent("bob", 2));
    assert_eq!(s.get(&b"alice".to_vec()).unwrap().owner, 1);
    assert_eq!(s.get(&b"bob".to_vec()).unwrap().owner, 2);
}

#[test]
fn load_installs_persisted_entries() {
    let mut s = EntityStore::new();
    s.load(vec![
        (b"alice".to_vec(), ent("alice", 1)),
        (b"bob".to_vec(), ent("bob", 2)),
    ]);
    assert_eq!(s.get(&b"alice".to_vec()).unwrap().owner, 1);
    assert_eq!(s.get(&b"bob".to_vec()).unwrap().owner, 2);
    assert!(s.get(&b"carol".to_vec()).is_none());
}

#[test]
fn load_keeps_the_later_duplicate() {
    let mut s = EntityStore::new();
    s.load(vec![
        (b"alice".to_vec(), ent("alice", 1)),
        (b"alice".to_vec(), ent("alice", 9)),
    ]);
    assert_eq!(s.get(&b"alice".to_vec()).unwrap().owner, 9);
}

#[test]
fn entries_round_trip_through_load() {
    let mut s = loaded_empty();
    s.upsert(b"alice".to_vec(), ent("alice", 1));
    s.upsert(b"bob".to_vec(), ent("bob", 2));
    let persisted: Vec<(Vec<u8>, Entity)> = s
        .entries()
        .iter()
        .map(|(k, e)| {
            (k.clone(), Entity { name: e.name.clone(), owner: e.owner, attributes: e.attributes.clone() })
        })
        .collect();
    let mut s2 = EntityStore::new();
    s2.load(persisted);
    assert_eq!(s2.get(&b"alice".to_vec()).unwrap().owner, 1);
    assert_eq!(s2.get(&b"bob".to_vec()).unwrap().owner, 2);
}

#[test]
fn attributes_are_kept_wholesale() {
    let mut s = loaded_empty();
    let e = Entity {
        name: b"alice".to_vec(),
        owner: 1,
        attributes: vec![(b"role".to_vec(), b"scout".to_vec())],
    };
    s.upsert(b"alice".to_vec(), e);
    let got = s.get(&b"alice".to_vec()).unwrap();
    assert_eq!(got.attributes.len(), 1);
    assert_eq!(got.attributes[0].0, b"role".to_vec());
    assert_eq!(got.attributes[0].1, b"scout".to_vec());
}
