use dod_tools::bitvec_model::BitVec;
use dod_tools::replay::{
    replay_state_before, DeltaEntityState, EntityState, ReplayFrame, ReplayMessage, WeaponData,
};

fn f(name: &str, v: &[u8]) -> (String, Vec<u8>) {
    (name.to_string(), v.to_vec())
}

fn field<'a>(fields: &'a [(String, Vec<u8>)], name: &str) -> Option<&'a Vec<u8>> {
    fields.iter().find(|(k, _)| k == name).map(|(_, v)| v)
}

#[test]
fn entity_fields_accumulate_and_removed_entities_go() {
    let frames = vec![
        ReplayFrame {
            before: true,
            messages: Some(vec![ReplayMessage::PacketEntities(vec![
                EntityState { entity_index: 5, has_custom_delta: true, delta: vec![f("origin", &[1]), f("angles", &[2])] },
                EntityState { entity_index: 7, has_custom_delta: false, delta: vec![f("model", &[9])] },
            ])]),
        },
        ReplayFrame { before: true, messages: None },
        ReplayFrame {
            before: true,
            messages: Some(vec![
                ReplayMessage::Other,
                ReplayMessage::DeltaPacketEntities(vec![
                    DeltaEntityState { entity_index: 5, remove_entity: false, has_custom_delta: None, delta: Some(vec![f("origin", &[3])]) },
                    DeltaEntityState { entity_index: 7, remove_entity: true, has_custom_delta: None, delta: None },
                    DeltaEntityState { entity_index: 8, remove_entity: false, has_custom_delta: Some(true), delta: None },
                    DeltaEntityState { entity_index: 9, remove_entity: false, has_custom_delta: Some(true), delta: Some(vec![]) },
                ]),
            ]),
        },
        ReplayFrame {
            before: false,
            messages: Some(vec![ReplayMessage::PacketEntities(vec![
                EntityState { entity_index: 100, has_custom_delta: false, delta: vec![] },
            ])]),
        },
    ];
    let st = replay_state_before(&frames);
    let ents: Vec<u16> = st.entities.iter().map(|e| e.index).collect();
    assert_eq!(ents, vec![5, 9]);
    let e5 = &st.entities[0];
    assert!(!e5.has_custom_delta);
    assert_eq!(field(&e5.fields.entries, "origin"), Some(&vec![3]));
    assert_eq!(field(&e5.fields.entries, "angles"), Some(&vec![2]));
    assert_eq!(e5.fields.entries.len(), 2);
    // Fields come in name order, entities in index order.
    let names: Vec<&str> = e5.fields.entries.iter().map(|(k, _)| k.as_str()).collect();
    assert_eq!(names, vec!["angles", "origin"]);
    assert!(st.entities[1].has_custom_delta);
    assert!(st.entities[1].fields.entries.is_empty());
    assert!(st.client_data.entries.is_empty());
}

#[test]
fn client_data_and_weapons_merge_by_field_and_slot() {
    let frames = vec![ReplayFrame {
        before: true,
        messages: Some(vec![
            ReplayMessage::ClientData {
                client_data: vec![f("health", &[100]), f("origin", &[1, 2])],
                weapon_data: Some(vec![
                    WeaponData { weapon_index: BitVec::from_slice(&[2]), weapon_data: vec![f("clip", &[30])] },
                ]),
            },
            ReplayMessage::ClientData {
                client_data: vec![f("health", &[50])],
                weapon_data: Some(vec![
                    WeaponData { weapon_index: BitVec::from_slice(&[2]), weapon_data: vec![f("clip", &[29]), f("ammo", &[90])] },
                    WeaponData { weapon_index: BitVec::from_slice(&[5]), weapon_data: vec![] },
                ]),
            },
        ]),
    }];
    let st = replay_state_before(&frames);
    assert_eq!(field(&st.client_data.entries, "health"), Some(&vec![50]));
    assert_eq!(field(&st.client_data.entries, "origin"), Some(&vec![1, 2]));
    assert_eq!(st.client_data.entries.len(), 2);
    assert_eq!(st.client_data.entries[0].0, "health");
    let slots: Vec<u8> = st.weapon_data.iter().map(|w| w.slot).collect();
    assert_eq!(slots, vec![2, 5]);
    assert_eq!(field(&st.weapon_data[0].fields.entries, "clip"), Some(&vec![29]));
    assert_eq!(field(&st.weapon_data[0].fields.entries, "ammo"), Some(&vec![90]));
    assert!(st.entities.is_empty());
}

#[test]
fn nothing_replayed_is_the_empty_state() {
    let st = replay_state_before(&vec![]);
    assert!(st.entities.is_empty() && st.client_data.entries.is_empty() && st.weapon_data.is_empty());
}

#[test]
fn entities_come_in_index_order() {
    let frames = vec![ReplayFrame {
        before: true,
        messages: Some(vec![ReplayMessage::PacketEntities(vec![
            EntityState { entity_index: 30, has_custom_delta: false, delta: vec![f("b", &[1]), f("a", &[2])] },
            EntityState { entity_index: 10, has_custom_delta: false, delta: vec![] },
            EntityState { entity_index: 20, has_custom_delta: false, delta: vec![] },
        ])]),
    }];
    let st = replay_state_before(&frames);
    let ents: Vec<u16> = st.entities.iter().map(|e| e.index).collect();
    assert_eq!(ents, vec![10, 20, 30]);
    let names: Vec<&str> = st.entities[2].fields.entries.iter().map(|(k, _)| k.as_str()).collect();
    assert_eq!(names, vec!["a", "b"]);
}
