//! The state a client has accumulated by some point of a section: every
//! entity field and every local-player field ever set before it.
//!
//! Entity updates (`svc_packetentities`, `svc_deltapacketentities`) and
//! client data (`svc_clientdata`) are delta chains against the client's own
//! running state, with no periodic full resend; a cut that starts mid-match
//! has to rebuild that state to hand the client a self-contained start.
use vstd::prelude::*;
use crate::bitvec_model::{BitVec, bits_value};
use crate::bit::{BitSliceCast, clamp_bits};
use crate::text::chars_of;
use crate::resources::{
    chars_eq, chars_le, chars_le_exec, lemma_chars_le_total, lemma_chars_le_trans,
    lemma_chars_le_antisym,
};

verus! {

// ---------------------------------------------------------------------------
// Association lists as maps
// ---------------------------------------------------------------------------

/// The map an association list stands for: later pairs override earlier
/// ones.
pub open spec fn assoc_map<K, V>(s: Seq<(K, V)>) -> Map<K, V>
    decreases s.len(),
{
    if s.len() == 0 {
        Map::empty()
    } else {
        assoc_map(s.drop_last()).insert(s.last().0, s.last().1)
    }
}

/// No key occurs twice.
pub open spec fn unique_keys<K, V>(s: Seq<(K, V)>) -> bool {
    forall|i: int, j: int| 0 <= i < j < s.len() ==> #[trigger] s[i].0 != #[trigger] s[j].0
}

proof fn lemma_assoc_has<K, V>(s: Seq<(K, V)>, i: int)
    requires
        unique_keys(s),
        0 <= i < s.len(),
    ensures
        assoc_map(s).contains_key(s[i].0),
        assoc_map(s)[s[i].0] == s[i].1,
    decreases s.len(),
{
    if i < s.len() - 1 {
        lemma_assoc_has(s.drop_last(), i);
    }
}

proof fn lemma_assoc_lacks<K, V>(s: Seq<(K, V)>, k: K)
    requires
        forall|i: int| 0 <= i < s.len() ==> s[i].0 != k,
    ensures
        !assoc_map(s).contains_key(k),
    decreases s.len(),
{
    if s.len() > 0 {
        lemma_assoc_lacks(s.drop_last(), k);
    }
}

proof fn lemma_assoc_update<K, V>(s: Seq<(K, V)>, i: int, v: V)
    requires
        unique_keys(s),
        0 <= i < s.len(),
    ensures
        assoc_map(s.update(i, (s[i].0, v))) == assoc_map(s).insert(s[i].0, v),
        unique_keys(s.update(i, (s[i].0, v))),
    decreases s.len(),
{
    let k = s[i].0;
    let t = s.update(i, (k, v));
    if i == s.len() - 1 {
        assert(t.drop_last() =~= s.drop_last());
        assert(assoc_map(t) =~= assoc_map(s).insert(k, v));
    } else {
        let d = s.drop_last();
        lemma_assoc_update(d, i, v);
        assert(t.drop_last() =~= d.update(i, (k, v)));
        assert(s.last().0 != k);
        assert(assoc_map(t) =~= assoc_map(s).insert(k, v));
    }
    assert forall|a: int, b: int| 0 <= a < b < t.len() implies #[trigger] t[a].0 != #[trigger] t[b].0 by {
        assert(s[a].0 != s[b].0);
    }
}

proof fn lemma_assoc_remove<K, V>(s: Seq<(K, V)>, i: int)
    requires
        unique_keys(s),
        0 <= i < s.len(),
    ensures
        assoc_map(s.remove(i)) == assoc_map(s).remove(s[i].0),
        unique_keys(s.remove(i)),
    decreases s.len(),
{
    let k = s[i].0;
    let t = s.remove(i);
    s.remove_ensures(i);
    if i == s.len() - 1 {
        assert(t =~= s.drop_last());
        let d = s.drop_last();
        assert forall|j: int| 0 <= j < d.len() implies d[j].0 != k by {
            assert(s[j].0 != s[i].0);
        }
        lemma_assoc_lacks(d, k);
        assert(assoc_map(t) =~= assoc_map(s).remove(k));
    } else {
        let d = s.drop_last();
        lemma_assoc_remove(d, i);
        assert(t.drop_last() =~= d.remove(i));
        assert(t.last() == s.last());
        assert(s.last().0 != k);
        assert(assoc_map(t) =~= assoc_map(s).remove(k));
    }
    assert forall|a: int, b: int| 0 <= a < b < t.len() implies #[trigger] t[a].0 != #[trigger] t[b].0 by {
        let a2 = if a < i { a } else { a + 1 };
        let b2 = if b < i { b } else { b + 1 };
        assert(t[a] == s[a2]);
        assert(t[b] == s[b2]);
    }
}

proof fn lemma_assoc_push<K, V>(s: Seq<(K, V)>, k: K, v: V)
    requires
        unique_keys(s),
        forall|i: int| 0 <= i < s.len() ==> s[i].0 != k,
    ensures
        assoc_map(s.push((k, v))) == assoc_map(s).insert(k, v),
        unique_keys(s.push((k, v))),
{
    assert(s.push((k, v)).drop_last() =~= s);
    assert forall|a: int, b: int| 0 <= a < b < s.len() + 1 implies #[trigger] s.push((k, v))[a].0
        != #[trigger] s.push((k, v))[b].0 by {
        if b == s.len() {
            assert(s.push((k, v))[a] == s[a]);
        }
    }
}

proof fn lemma_assoc_insert<K, V>(s: Seq<(K, V)>, j: int, k: K, v: V)
    requires
        unique_keys(s),
        0 <= j <= s.len(),
        forall|i: int| 0 <= i < s.len() ==> s[i].0 != k,
    ensures
        assoc_map(s.insert(j, (k, v))) == assoc_map(s).insert(k, v),
        unique_keys(s.insert(j, (k, v))),
    decreases s.len(),
{
    let t = s.insert(j, (k, v));
    s.insert_ensures(j, (k, v));
    if j == s.len() {
        assert(t =~= s.push((k, v)));
        lemma_assoc_push(s, k, v);
    } else {
        let d = s.drop_last();
        assert forall|a: int, b: int| 0 <= a < b < d.len() implies #[trigger] d[a].0 != #[trigger] d[b].0 by {
            assert(d[a] == s[a] && d[b] == s[b]);
        }
        lemma_assoc_insert(d, j, k, v);
        assert(t.drop_last() =~= d.insert(j, (k, v)));
        assert(t.last() == s.last());
        assert(s.last().0 != k);
        assert(assoc_map(t) =~= assoc_map(s).insert(k, v));
        assert forall|a: int, b: int| 0 <= a < b < t.len() implies #[trigger] t[a].0 != #[trigger] t[b].0 by {
            if a == j {
                assert(t[b] == s[b - 1]);
            } else if b == j {
                assert(t[a] == s[a]);
            } else {
                let a2 = if a < j { a } else { a - 1 };
                let b2 = if b < j { b } else { b - 1 };
                assert(t[a] == s[a2]);
                assert(t[b] == s[b2]);
            }
        }
    }
}

/// Whether the names come in strictly increasing order (the order of a
/// `BTreeMap` of strings).
pub open spec fn names_sorted(s: Seq<(Seq<char>, Seq<u8>)>) -> bool {
    forall|a: int, b: int|
        0 <= a < b < s.len() ==> chars_le(#[trigger] s[a].0, #[trigger] s[b].0) && s[a].0 != s[b].0
}

// ---------------------------------------------------------------------------
// Delta fields
// ---------------------------------------------------------------------------

/// The fields of one delta: field names, as the delta parser names them,
/// and their encoded values.
pub struct Fields {
    pub entries: Vec<(String, Vec<u8>)>,
}

pub open spec fn pair_view(p: (String, Vec<u8>)) -> (Seq<char>, Seq<u8>) {
    (p.0@, p.1@)
}

impl Fields {
    pub open spec fn pairs(&self) -> Seq<(Seq<char>, Seq<u8>)> {
        self.entries@.map_values(|p: (String, Vec<u8>)| pair_view(p))
    }

    /// The fields as a map from name to value, a later field of the same
    /// name overriding an earlier one.
    pub open spec fn map(&self) -> Map<Seq<char>, Seq<u8>> {
        assoc_map(self.pairs())
    }

    pub open spec fn wf(&self) -> bool {
        &&& unique_keys(self.pairs())
        &&& names_sorted(self.pairs())
    }

    pub fn new() -> (r: Self)
        ensures
            r.wf(),
            r.map() == Map::<Seq<char>, Seq<u8>>::empty(),
            r.pairs().len() == 0,
    {
        let r = Fields { entries: Vec::new() };
        assert(r.pairs() =~= Seq::<(Seq<char>, Seq<u8>)>::empty());
        r
    }

    /// Sets field `k` to `v`, keeping the names in order.
    fn set(&mut self, k: &String, v: &Vec<u8>)
        requires
            old(self).wf(),
        ensures
            final(self).wf(),
            final(self).map() == old(self).map().insert(k@, v@),
    {
        let kc = chars_of(k.as_str());
        let ghost orig = self.pairs();
        let mut i: usize = 0;
        while i < self.entries.len()
            invariant
                i <= self.entries@.len(),
                self.pairs() == orig,
                orig == old(self).pairs(),
                self.entries@ == old(self).entries@,
                self.wf(),
                kc@ == k@,
                forall|j: int| 0 <= j < i ==> chars_le(#[trigger] orig[j].0, k@) && orig[j].0 != k@,
            ensures
                i <= self.entries@.len(),
                self.pairs() == orig,
                self.entries@ == old(self).entries@,
                self.wf(),
                forall|j: int| 0 <= j < i ==> chars_le(#[trigger] orig[j].0, k@) && orig[j].0 != k@,
                i < orig.len() ==> !chars_le(orig[i as int].0, k@),
            decreases self.entries@.len() - i,
        {
            let ec = chars_of(self.entries[i].0.as_str());
            proof {
                assert(orig[i as int] == pair_view(self.entries@[i as int]));
            }
            if chars_eq(&ec, &kc) {
                let name = self.entries[i].0.clone();
                let value = copy_bytes(v);
                self.entries.set(i, (name, value));
                proof {
                    lemma_assoc_update(orig, i as int, v@);
                    assert(self.pairs() =~= orig.update(i as int, (orig[i as int].0, v@)));
                    assert forall|a: int, b: int| 0 <= a < b < self.pairs().len() implies chars_le(
                        #[trigger] self.pairs()[a].0,
                        #[trigger] self.pairs()[b].0,
                    ) && self.pairs()[a].0 != self.pairs()[b].0 by {
                        assert(orig[a].0 == self.pairs()[a].0);
                        assert(orig[b].0 == self.pairs()[b].0);
                    }
                }
                return;
            }
            if !chars_le_exec(&ec, &kc) {
                break;
            }
            i = i + 1;
        }
        proof {
            // Every name from `i` on comes after `k`.
            if i < orig.len() {
                lemma_chars_le_total(orig[i as int].0, k@);
            }
            assert forall|m: int| i <= m < orig.len() implies chars_le(k@, #[trigger] orig[m].0)
                && orig[m].0 != k@ by {
                lemma_chars_le_total(orig[i as int].0, k@);
                if m > i {
                    lemma_chars_le_trans(k@, orig[i as int].0, orig[m].0);
                    if orig[m].0 == k@ {
                        lemma_chars_le_antisym(orig[i as int].0, k@);
                    }
                }
            }
        }
        let ghost before = self.entries@;
        self.entries.insert(i, (k.clone(), copy_bytes(v)));
        proof {
            assert forall|j: int| 0 <= j < orig.len() implies orig[j].0 != k@ by {}
            lemma_assoc_insert(orig, i as int, k@, v@);
            assert(self.entries@ =~= before.insert(i as int, self.entries@[i as int]));
            assert(self.pairs() =~= orig.insert(i as int, (k@, v@)));
            let t = self.pairs();
            orig.insert_ensures(i as int, (k@, v@));
            assert forall|a: int, b: int| 0 <= a < b < t.len() implies chars_le(
                #[trigger] t[a].0,
                #[trigger] t[b].0,
            ) && t[a].0 != t[b].0 by {
                if a == i {
                    assert(t[b] == orig[b - 1]);
                } else if b == i {
                    assert(t[a] == orig[a]);
                } else {
                    let a2 = if a < i { a } else { a - 1 };
                    let b2 = if b < i { b } else { b - 1 };
                    assert(t[a] == orig[a2]);
                    assert(t[b] == orig[b2]);
                }
            }
        }
    }

    /// Sets every field of `delta`, in order.
    fn merge(&mut self, delta: &Vec<(String, Vec<u8>)>)
        requires
            old(self).wf(),
        ensures
            final(self).wf(),
            final(self).map() == merge_fields(
                old(self).map(),
                delta@.map_values(|p: (String, Vec<u8>)| pair_view(p)),
            ),
    {
        let ghost d = delta@.map_values(|p: (String, Vec<u8>)| pair_view(p));
        let ghost m0 = self.map();
        let mut i: usize = 0;
        while i < delta.len()
            invariant
                i <= delta@.len(),
                d == delta@.map_values(|p: (String, Vec<u8>)| pair_view(p)),
                self.wf(),
                self.map() == merge_fields(m0, d.take(i as int)),
            decreases delta@.len() - i,
        {
            self.set(&delta[i].0, &delta[i].1);
            proof {
                assert(d.take(i + 1).drop_last() =~= d.take(i as int));
            }
            i = i + 1;
        }
        proof {
            assert(d.take(d.len() as int) =~= d);
        }
    }
}

fn copy_bytes(v: &Vec<u8>) -> (r: Vec<u8>)
    ensures
        r@ == v@,
{
    let mut r: Vec<u8> = Vec::new();
    let mut i: usize = 0;
    while i < v.len()
        invariant
            i <= v@.len(),
            r@ == v@.take(i as int),
        decreases v@.len() - i,
    {
        r.push(v[i]);
        proof {
            assert(r@ =~= v@.take(i + 1));
        }
        i = i + 1;
    }
    assert(r@ =~= v@);
    r
}

/// `m` with every field of `delta` set, in order.
pub open spec fn merge_fields(m: Map<Seq<char>, Seq<u8>>, delta: Seq<(Seq<char>, Seq<u8>)>) -> Map<
    Seq<char>,
    Seq<u8>,
>
    decreases delta.len(),
{
    if delta.len() == 0 {
        m
    } else {
        merge_fields(m, delta.drop_last()).insert(delta.last().0, delta.last().1)
    }
}

pub open spec fn delta_view(d: Vec<(String, Vec<u8>)>) -> Seq<(Seq<char>, Seq<u8>)> {
    d@.map_values(|p: (String, Vec<u8>)| pair_view(p))
}

// ---------------------------------------------------------------------------
// Messages
// ---------------------------------------------------------------------------

/// An entity of a full `svc_packetentities`.
pub struct EntityState {
    pub entity_index: u16,
    pub has_custom_delta: bool,
    pub delta: Vec<(String, Vec<u8>)>,
}

/// An entity of a `svc_deltapacketentities`.
pub struct DeltaEntityState {
    pub entity_index: u16,
    pub remove_entity: bool,
    pub has_custom_delta: Option<bool>,
    pub delta: Option<Vec<(String, Vec<u8>)>>,
}

/// The fields of one weapon slot in a `svc_clientdata`.
pub struct WeaponData {
    /// The slot (6 bits).
    pub weapon_index: BitVec,
    pub weapon_data: Vec<(String, Vec<u8>)>,
}

/// A decoded message, as far as the replay reads it.
pub enum ReplayMessage {
    PacketEntities(Vec<EntityState>),
    DeltaPacketEntities(Vec<DeltaEntityState>),
    ClientData { client_data: Vec<(String, Vec<u8>)>, weapon_data: Option<Vec<WeaponData>> },
    /// Any other message.
    Other,
}

/// A frame of the section, as far as the replay reads it.
pub struct ReplayFrame {
    /// Whether the frame's time lies before the replay's end point.
    pub before: bool,
    /// Its decoded messages, when it is a network message whose messages
    /// were decoded.
    pub messages: Option<Vec<ReplayMessage>>,
}

// ---------------------------------------------------------------------------
// State
// ---------------------------------------------------------------------------

/// One entity's accumulated state.
pub struct EntityEntry {
    pub index: u16,
    pub has_custom_delta: bool,
    pub fields: Fields,
}

/// One weapon slot's accumulated fields.
pub struct WeaponEntry {
    pub slot: u8,
    pub fields: Fields,
}

/// What a replay accumulates: every entity, with its `has_custom_delta`
/// flag and every field ever set for it; the local player's client data;
/// and its weapon data by slot. Each entity and each slot occurs once.
pub struct ReplayedState {
    pub entities: Vec<EntityEntry>,
    pub client_data: Fields,
    pub weapon_data: Vec<WeaponEntry>,
}

pub open spec fn entity_pair(e: EntityEntry) -> (u16, (bool, Map<Seq<char>, Seq<u8>>)) {
    (e.index, (e.has_custom_delta, e.fields.map()))
}

pub open spec fn weapon_pair(w: WeaponEntry) -> (u8, Map<Seq<char>, Seq<u8>>) {
    (w.slot, w.fields.map())
}

/// The state as maps: entities by index, client data by field, weapons by
/// slot.
pub struct StateView {
    pub entities: Map<u16, (bool, Map<Seq<char>, Seq<u8>>)>,
    pub client_data: Map<Seq<char>, Seq<u8>>,
    pub weapons: Map<u8, Map<Seq<char>, Seq<u8>>>,
}

impl ReplayedState {
    pub open spec fn entity_pairs(&self) -> Seq<(u16, (bool, Map<Seq<char>, Seq<u8>>))> {
        self.entities@.map_values(|e: EntityEntry| entity_pair(e))
    }

    pub open spec fn weapon_pairs(&self) -> Seq<(u8, Map<Seq<char>, Seq<u8>>)> {
        self.weapon_data@.map_values(|w: WeaponEntry| weapon_pair(w))
    }

    pub open spec fn view(&self) -> StateView {
        StateView {
            entities: assoc_map(self.entity_pairs()),
            client_data: self.client_data.map(),
            weapons: assoc_map(self.weapon_pairs()),
        }
    }

    /// Entities in index order and weapon slots in slot order, each once
    /// (the order of a `BTreeMap`), and every field table in name order.
    pub open spec fn wf(&self) -> bool {
        &&& entities_wf(self.entities@)
        &&& weapons_wf(self.weapon_data@)
        &&& self.client_data.wf()
    }
}

/// The empty state.
pub open spec fn empty_state() -> StateView {
    StateView { entities: Map::empty(), client_data: Map::empty(), weapons: Map::empty() }
}

/// The fields an entity has so far (none when it is not there).
pub open spec fn entity_fields(t: Map<u16, (bool, Map<Seq<char>, Seq<u8>>)>, index: u16) -> Map<
    Seq<char>,
    Seq<u8>,
> {
    if t.contains_key(index) {
        t[index].1
    } else {
        Map::empty()
    }
}

/// `merge_entity`: the entity takes the new flag, and the delta's fields
/// on top of the ones it had.
pub open spec fn merge_entity_spec(
    t: Map<u16, (bool, Map<Seq<char>, Seq<u8>>)>,
    index: u16,
    hcd: bool,
    delta: Seq<(Seq<char>, Seq<u8>)>,
) -> Map<u16, (bool, Map<Seq<char>, Seq<u8>>)> {
    t.insert(index, (hcd, merge_fields(entity_fields(t, index), delta)))
}

/// A full entity message's entities, merged in order.
pub open spec fn apply_full(
    t: Map<u16, (bool, Map<Seq<char>, Seq<u8>>)>,
    es: Seq<EntityState>,
) -> Map<u16, (bool, Map<Seq<char>, Seq<u8>>)>
    decreases es.len(),
{
    if es.len() == 0 {
        t
    } else {
        let e = es.last();
        merge_entity_spec(apply_full(t, es.drop_last()), e.entity_index, e.has_custom_delta, delta_view(e.delta))
    }
}

/// A delta entity message's entities, in order: a removed entity goes; an
/// entity with fields gets them merged, its flag defaulting to false.
pub open spec fn apply_delta(
    t: Map<u16, (bool, Map<Seq<char>, Seq<u8>>)>,
    es: Seq<DeltaEntityState>,
) -> Map<u16, (bool, Map<Seq<char>, Seq<u8>>)>
    decreases es.len(),
{
    if es.len() == 0 {
        t
    } else {
        let prev = apply_delta(t, es.drop_last());
        let e = es.last();
        if e.remove_entity {
            prev.remove(e.entity_index)
        } else {
            match e.delta {
                Some(d) => merge_entity_spec(
                    prev,
                    e.entity_index,
                    match e.has_custom_delta {
                        Some(b) => b,
                        None => false,
                    },
                    delta_view(d),
                ),
                None => prev,
            }
        }
    }
}

/// The slot a weapon entry names.
pub open spec fn weapon_slot(w: WeaponData) -> u8 {
    bits_value(clamp_bits(w.weapon_index@, 8)) as u8
}

pub open spec fn slot_fields(m: Map<u8, Map<Seq<char>, Seq<u8>>>, slot: u8) -> Map<Seq<char>, Seq<u8>> {
    if m.contains_key(slot) {
        m[slot]
    } else {
        Map::empty()
    }
}

/// A client-data message's weapon slots, merged in order.
pub open spec fn apply_weapons(m: Map<u8, Map<Seq<char>, Seq<u8>>>, ws: Seq<WeaponData>) -> Map<
    u8,
    Map<Seq<char>, Seq<u8>>,
>
    decreases ws.len(),
{
    if ws.len() == 0 {
        m
    } else {
        let prev = apply_weapons(m, ws.drop_last());
        let w = ws.last();
        prev.insert(weapon_slot(w), merge_fields(slot_fields(prev, weapon_slot(w)), delta_view(w.weapon_data)))
    }
}

/// What one message does to the state.
pub open spec fn apply_message(s: StateView, m: ReplayMessage) -> StateView {
    match m {
        ReplayMessage::PacketEntities(es) => StateView {
            entities: apply_full(s.entities, es@),
            client_data: s.client_data,
            weapons: s.weapons,
        },
        ReplayMessage::DeltaPacketEntities(es) => StateView {
            entities: apply_delta(s.entities, es@),
            client_data: s.client_data,
            weapons: s.weapons,
        },
        ReplayMessage::ClientData { client_data, weapon_data } => StateView {
            entities: s.entities,
            client_data: merge_fields(s.client_data, delta_view(client_data)),
            weapons: match weapon_data {
                Some(ws) => apply_weapons(s.weapons, ws@),
                None => s.weapons,
            },
        },
        ReplayMessage::Other => s,
    }
}

pub open spec fn apply_messages(s: StateView, ms: Seq<ReplayMessage>) -> StateView
    decreases ms.len(),
{
    if ms.len() == 0 {
        s
    } else {
        apply_message(apply_messages(s, ms.drop_last()), ms.last())
    }
}

/// The state after the decoded frames before the end point, in order.
pub open spec fn replay_spec(frames: Seq<ReplayFrame>) -> StateView
    decreases frames.len(),
{
    if frames.len() == 0 {
        empty_state()
    } else {
        let prev = replay_spec(frames.drop_last());
        let f = frames.last();
        if f.before && f.messages is Some {
            apply_messages(prev, f.messages->0@)
        } else {
            prev
        }
    }
}

/// Setting fields never touches a field that is not among them.
proof fn lemma_merge_fields_keeps(m: Map<Seq<char>, Seq<u8>>, delta: Seq<(Seq<char>, Seq<u8>)>, k: Seq<char>)
    requires
        forall|q: int| 0 <= q < delta.len() ==> (#[trigger] delta[q]).0 != k,
    ensures
        merge_fields(m, delta).contains_key(k) == m.contains_key(k),
        m.contains_key(k) ==> merge_fields(m, delta)[k] == m[k],
    decreases delta.len(),
{
    if delta.len() > 0 {
        assert forall|q: int| 0 <= q < delta.drop_last().len() implies (
        #[trigger] delta.drop_last()[q]).0 != k by {
            assert(delta.drop_last()[q] == delta[q]);
        }
        lemma_merge_fields_keeps(m, delta.drop_last(), k);
        assert(delta.last() == delta[delta.len() - 1]);
    }
}

/// The entities of a full message, merged one after another, keep every
/// field that none of them lists for its entity.
proof fn lemma_apply_full_keeps(
    t: Map<u16, (bool, Map<Seq<char>, Seq<u8>>)>,
    es: Seq<EntityState>,
    x: u16,
    k: Seq<char>,
)
    requires
        forall|j: int, q: int|
            0 <= j < es.len() && es[j].entity_index == x && 0 <= q < es[j].delta@.len()
                ==> (#[trigger] es[j].delta@[q]).0@ != k,
    ensures
        entity_fields(t, x).contains_key(k) ==> entity_fields(apply_full(t, es), x).contains_key(k)
            && entity_fields(apply_full(t, es), x)[k] == entity_fields(t, x)[k],
    decreases es.len(),
{
    if es.len() > 0 {
        let init = es.drop_last();
        assert forall|j: int, q: int|
            0 <= j < init.len() && init[j].entity_index == x && 0 <= q < init[j].delta@.len()
                implies (#[trigger] init[j].delta@[q]).0@ != k by {
            assert(init[j] == es[j]);
        }
        lemma_apply_full_keeps(t, init, x, k);
        let e = es.last();
        let prev = apply_full(t, init);
        if e.entity_index == x {
            let dv = delta_view(e.delta);
            assert forall|q: int| 0 <= q < dv.len() implies (#[trigger] dv[q]).0 != k by {
                assert(es[es.len() - 1] == e);
                assert(dv[q] == pair_view(e.delta@[q]));
                assert(e.delta@[q].0@ != k);
            }
            lemma_merge_fields_keeps(entity_fields(prev, x), dv, k);
        }
    }
}

/// A full `svc_packetentities` merges into what the entities had, as a
/// delta one does: after it, every entity still has each field it had that
/// the message does not list for it, with its earlier value.
pub proof fn law_full_update_keeps_unlisted_fields(
    s: StateView,
    m: ReplayMessage,
    x: u16,
    k: Seq<char>,
)
    requires
        m is PacketEntities,
        entity_fields(s.entities, x).contains_key(k),
        forall|j: int, q: int|
            0 <= j < m->PacketEntities_0@.len() && m->PacketEntities_0@[j].entity_index == x && 0
                <= q < m->PacketEntities_0@[j].delta@.len() ==> (
            #[trigger] m->PacketEntities_0@[j].delta@[q]).0@ != k,
    ensures
        entity_fields(apply_message(s, m).entities, x).contains_key(k),
        entity_fields(apply_message(s, m).entities, x)[k] == entity_fields(s.entities, x)[k],
{
    lemma_apply_full_keeps(s.entities, m->PacketEntities_0@, x, k);
}

/// Setting fields leaves a field with the value it is given last.
proof fn lemma_merge_fields_sets(m: Map<Seq<char>, Seq<u8>>, delta: Seq<(Seq<char>, Seq<u8>)>, q: int)
    requires
        0 <= q < delta.len(),
        forall|r: int| q < r < delta.len() ==> (#[trigger] delta[r]).0 != delta[q].0,
    ensures
        merge_fields(m, delta).contains_key(delta[q].0),
        merge_fields(m, delta)[delta[q].0] == delta[q].1,
    decreases delta.len(),
{
    if q < delta.len() - 1 {
        let init = delta.drop_last();
        assert forall|r: int| q < r < init.len() implies (#[trigger] init[r]).0 != init[q].0 by {
            assert(init[r] == delta[r]);
        }
        lemma_merge_fields_sets(m, init, q);
        assert(delta.last() == delta[delta.len() - 1]);
    }
}

/// The entities of a full message, merged one after another, leave a field
/// listed for an entity with the value listed last for it.
proof fn lemma_apply_full_sets(
    t: Map<u16, (bool, Map<Seq<char>, Seq<u8>>)>,
    es: Seq<EntityState>,
    j: int,
    q: int,
)
    requires
        0 <= j < es.len(),
        0 <= q < es[j].delta@.len(),
        forall|r: int|
            q < r < es[j].delta@.len() ==> (#[trigger] es[j].delta@[r]).0@ != es[j].delta@[q].0@,
        forall|i: int, r: int|
            j < i < es.len() && es[i].entity_index == es[j].entity_index && 0 <= r
                < es[i].delta@.len() ==> (#[trigger] es[i].delta@[r]).0@ != es[j].delta@[q].0@,
    ensures
        entity_fields(apply_full(t, es), es[j].entity_index).contains_key(es[j].delta@[q].0@),
        entity_fields(apply_full(t, es), es[j].entity_index)[es[j].delta@[q].0@]
            == es[j].delta@[q].1@,
    decreases es.len(),
{
    let x = es[j].entity_index;
    let k = es[j].delta@[q].0@;
    let init = es.drop_last();
    let e = es.last();
    assert(es[es.len() - 1] == e);
    let prev = apply_full(t, init);
    if j == es.len() - 1 {
        let dv = delta_view(e.delta);
        assert forall|r: int| q < r < dv.len() implies (#[trigger] dv[r]).0 != dv[q].0 by {
            assert(dv[r] == pair_view(e.delta@[r]));
            assert(dv[q] == pair_view(e.delta@[q]));
        }
        assert(dv[q] == pair_view(e.delta@[q]));
        lemma_merge_fields_sets(entity_fields(prev, x), dv, q);
    } else {
        assert(init[j] == es[j]);
        assert forall|r: int| q < r < init[j].delta@.len() implies (
        #[trigger] init[j].delta@[r]).0@ != init[j].delta@[q].0@ by {}
        assert forall|i: int, r: int|
            j < i < init.len() && init[i].entity_index == init[j].entity_index && 0 <= r
                < init[i].delta@.len() implies (#[trigger] init[i].delta@[r]).0@
            != init[j].delta@[q].0@ by {
            assert(init[i] == es[i]);
        }
        lemma_apply_full_sets(t, init, j, q);
        if e.entity_index == x {
            let dv = delta_view(e.delta);
            assert forall|r: int| 0 <= r < dv.len() implies (#[trigger] dv[r]).0 != k by {
                assert(dv[r] == pair_view(e.delta@[r]));
                assert(es[es.len() - 1].delta@[r].0@ != k);
            }
            lemma_merge_fields_keeps(entity_fields(prev, x), dv, k);
        }
    }
}

/// A full `svc_packetentities` sets every field it lists: after it, the
/// entity has the field, with the value the message lists last for it.
pub proof fn law_full_update_sets_listed_fields(s: StateView, m: ReplayMessage, j: int, q: int)
    requires
        m is PacketEntities,
        0 <= j < m->PacketEntities_0@.len(),
        0 <= q < m->PacketEntities_0@[j].delta@.len(),
        forall|r: int|
            q < r < m->PacketEntities_0@[j].delta@.len() ==> (
            #[trigger] m->PacketEntities_0@[j].delta@[r]).0@ != m->PacketEntities_0@[j].delta@[q].0@,
        forall|i: int, r: int|
            j < i < m->PacketEntities_0@.len() && m->PacketEntities_0@[i].entity_index
                == m->PacketEntities_0@[j].entity_index && 0 <= r
                < m->PacketEntities_0@[i].delta@.len() ==> (
            #[trigger] m->PacketEntities_0@[i].delta@[r]).0@ != m->PacketEntities_0@[j].delta@[q].0@,
    ensures
        entity_fields(
            apply_message(s, m).entities,
            m->PacketEntities_0@[j].entity_index,
        ).contains_key(m->PacketEntities_0@[j].delta@[q].0@),
        entity_fields(apply_message(s, m).entities, m->PacketEntities_0@[j].entity_index)[m->PacketEntities_0@[j].delta@[q].0@]
            == m->PacketEntities_0@[j].delta@[q].1@,
{
    lemma_apply_full_sets(s.entities, m->PacketEntities_0@, j, q);
}

/// The same, over a replay: when the last frame before the end point holds
/// one full `svc_packetentities`, each entity keeps every field it had after
/// the earlier frames that the message does not list for it.
pub proof fn law_replay_full_update_keeps_unlisted_fields(
    frames: Seq<ReplayFrame>,
    x: u16,
    k: Seq<char>,
)
    requires
        frames.len() > 0,
        frames.last().before,
        frames.last().messages matches Some(ms) && ms@.len() == 1 && ms@[0] is PacketEntities,
        entity_fields(replay_spec(frames.drop_last()).entities, x).contains_key(k),
        forall|j: int, q: int|
            0 <= j < frames.last().messages->0@[0]->PacketEntities_0@.len()
                && frames.last().messages->0@[0]->PacketEntities_0@[j].entity_index == x && 0 <= q
                < frames.last().messages->0@[0]->PacketEntities_0@[j].delta@.len() ==> (
            #[trigger] frames.last().messages->0@[0]->PacketEntities_0@[j].delta@[q]).0@ != k,
    ensures
        entity_fields(replay_spec(frames).entities, x).contains_key(k),
        entity_fields(replay_spec(frames).entities, x)[k] == entity_fields(
            replay_spec(frames.drop_last()).entities,
            x,
        )[k],
{
    let ms = frames.last().messages->0@;
    let prev = replay_spec(frames.drop_last());
    assert(ms.drop_last() =~= Seq::<ReplayMessage>::empty());
    assert(apply_messages(prev, ms.drop_last()) == prev);
    assert(ms.last() == ms[0]);
    assert(replay_spec(frames) == apply_messages(prev, ms));
    assert(apply_messages(prev, ms) == apply_message(prev, ms[0]));
    law_full_update_keeps_unlisted_fields(prev, ms[0], x, k);
}

// ---------------------------------------------------------------------------
// Replay
// ---------------------------------------------------------------------------

pub open spec fn entities_wf(es: Seq<EntityEntry>) -> bool {
    &&& unique_keys(es.map_values(|e: EntityEntry| entity_pair(e)))
    &&& forall|a: int, b: int| 0 <= a < b < es.len() ==> #[trigger] es[a].index < #[trigger] es[b].index
    &&& forall|i: int| 0 <= i < es.len() ==> (#[trigger] es[i]).fields.wf()
}

pub open spec fn entities_map(es: Seq<EntityEntry>) -> Map<u16, (bool, Map<Seq<char>, Seq<u8>>)> {
    assoc_map(es.map_values(|e: EntityEntry| entity_pair(e)))
}

/// Where the entity of this index is, or would go: the first entity whose
/// index is not below it.
fn locate_entity(es: &Vec<EntityEntry>, index: u16) -> (r: usize)
    requires
        entities_wf(es@),
    ensures
        r <= es@.len(),
        forall|j: int| 0 <= j < r ==> es@[j].index < index,
        forall|j: int| r <= j < es@.len() ==> es@[j].index >= index,
{
    let mut i: usize = 0;
    while i < es.len() && es[i].index < index
        invariant
            i <= es@.len(),
            entities_wf(es@),
            forall|j: int| 0 <= j < i ==> es@[j].index < index,
        decreases es@.len() - i,
    {
        i = i + 1;
    }
    proof {
        assert forall|j: int| i <= j < es@.len() implies es@[j].index >= index by {
            if j > i {
                assert(es@[i as int].index < es@[j].index);
            }
        }
    }
    i
}

proof fn lemma_entities_insert(es: Seq<EntityEntry>, i: int, e: EntityEntry)
    requires
        entities_wf(es),
        0 <= i <= es.len(),
        forall|j: int| 0 <= j < i ==> es[j].index < e.index,
        forall|j: int| i <= j < es.len() ==> es[j].index > e.index,
        e.fields.wf(),
    ensures
        entities_wf(es.insert(i, e)),
        entities_map(es.insert(i, e)) == entities_map(es).insert(e.index, (e.has_custom_delta, e.fields.map())),
{
    let pairs = es.map_values(|x: EntityEntry| entity_pair(x));
    let t = es.insert(i, e);
    es.insert_ensures(i, e);
    assert forall|j: int| 0 <= j < pairs.len() implies pairs[j].0 != e.index by {
        assert(pairs[j] == entity_pair(es[j]));
    }
    lemma_assoc_insert(pairs, i, e.index, (e.has_custom_delta, e.fields.map()));
    assert(t.map_values(|x: EntityEntry| entity_pair(x)) =~= pairs.insert(i, entity_pair(e)));
    assert forall|a: int, b: int| 0 <= a < b < t.len() implies #[trigger] t[a].index < #[trigger] t[b].index by {
        if a == i {
            assert(t[b] == es[b - 1]);
        } else if b == i {
            assert(t[a] == es[a]);
        } else {
            let a2 = if a < i { a } else { a - 1 };
            let b2 = if b < i { b } else { b - 1 };
            assert(t[a] == es[a2]);
            assert(t[b] == es[b2]);
        }
    }
    assert forall|j: int| 0 <= j < t.len() implies (#[trigger] t[j]).fields.wf() by {
        if j < i {
            assert(t[j] == es[j]);
        } else if j > i {
            assert(t[j] == es[j - 1]);
        }
    }
}

/// The entity takes the new flag, and the delta's fields on top of the
/// ones it had; entities stay in index order.
fn merge_entity(es: &mut Vec<EntityEntry>, index: u16, has_custom_delta: bool, delta: &Vec<(String, Vec<u8>)>)
    requires
        entities_wf(old(es)@),
    ensures
        entities_wf(final(es)@),
        entities_map(final(es)@) == merge_entity_spec(
            entities_map(old(es)@),
            index,
            has_custom_delta,
            delta_view(*delta),
        ),
{
    let ghost pairs = es@.map_values(|e: EntityEntry| entity_pair(e));
    let i = locate_entity(es, index);
    if i < es.len() && es[i].index == index {
        proof {
            assert(pairs[i as int].0 == index);
            lemma_assoc_has(pairs, i as int);
        }
        let ghost old_es = es@;
        let mut e = es.remove(i);
        e.has_custom_delta = has_custom_delta;
        e.fields.merge(delta);
        es.insert(i, e);
        proof {
            let v = (has_custom_delta, e.fields.map());
            lemma_assoc_update(pairs, i as int, v);
            assert(es@ =~= old_es.update(i as int, e));
            assert(es@.map_values(|e: EntityEntry| entity_pair(e)) =~= pairs.update(
                i as int,
                (pairs[i as int].0, v),
            ));
            assert forall|a: int, b: int| 0 <= a < b < es@.len() implies #[trigger] es@[a].index
                < #[trigger] es@[b].index by {
                assert(es@[a].index == old_es[a].index);
                assert(es@[b].index == old_es[b].index);
            }
            assert forall|j: int| 0 <= j < es@.len() implies (#[trigger] es@[j]).fields.wf() by {
                if j != i {
                    assert(es@[j] == old_es[j]);
                }
            }
        }
    } else {
        let mut fields = Fields::new();
        fields.merge(delta);
        let ghost old_es = es@;
        let e = EntityEntry { index, has_custom_delta, fields };
        proof {
            assert forall|j: int| i <= j < old_es.len() implies old_es[j].index > index by {
                if j == i {
                } else {
                    assert(old_es[i as int].index < old_es[j].index);
                }
            }
            assert forall|j: int| 0 <= j < pairs.len() implies pairs[j].0 != index by {
                assert(pairs[j] == entity_pair(old_es[j]));
            }
            lemma_assoc_lacks(pairs, index);
            lemma_entities_insert(old_es, i as int, e);
        }
        es.insert(i, e);
    }
}

/// Drops the entity of this index, if it is there.
fn remove_entity(es: &mut Vec<EntityEntry>, index: u16)
    requires
        entities_wf(old(es)@),
    ensures
        entities_wf(final(es)@),
        entities_map(final(es)@) == entities_map(old(es)@).remove(index),
{
    let ghost pairs = es@.map_values(|e: EntityEntry| entity_pair(e));
    let i = locate_entity(es, index);
    if i < es.len() && es[i].index == index {
        let ghost old_es = es@;
        es.remove(i);
        proof {
            assert(pairs[i as int].0 == index);
            lemma_assoc_remove(pairs, i as int);
            assert(es@ =~= old_es.remove(i as int));
            assert(es@.map_values(|e: EntityEntry| entity_pair(e)) =~= pairs.remove(i as int));
            assert forall|a: int, b: int| 0 <= a < b < es@.len() implies #[trigger] es@[a].index
                < #[trigger] es@[b].index by {
                let a2 = if a < i { a } else { a + 1 };
                let b2 = if b < i { b } else { b + 1 };
                assert(es@[a] == old_es[a2]);
                assert(es@[b] == old_es[b2]);
            }
            assert forall|j: int| 0 <= j < es@.len() implies (#[trigger] es@[j]).fields.wf() by {
                let j2 = if j < i { j } else { j + 1 };
                assert(es@[j] == old_es[j2]);
            }
        }
    } else {
        proof {
            assert forall|j: int| 0 <= j < pairs.len() implies pairs[j].0 != index by {
                assert(pairs[j] == entity_pair(es@[j]));
                if j >= i {
                    if j > i {
                        assert(es@[i as int].index < es@[j].index);
                    }
                }
            }
            lemma_assoc_lacks(pairs, index);
            assert(entities_map(es@) =~= entities_map(es@).remove(index));
        }
    }
}

pub open spec fn weapons_wf(ws: Seq<WeaponEntry>) -> bool {
    &&& unique_keys(ws.map_values(|w: WeaponEntry| weapon_pair(w)))
    &&& forall|a: int, b: int| 0 <= a < b < ws.len() ==> #[trigger] ws[a].slot < #[trigger] ws[b].slot
    &&& forall|i: int| 0 <= i < ws.len() ==> (#[trigger] ws[i]).fields.wf()
}

pub open spec fn weapons_map(ws: Seq<WeaponEntry>) -> Map<u8, Map<Seq<char>, Seq<u8>>> {
    assoc_map(ws.map_values(|w: WeaponEntry| weapon_pair(w)))
}

/// The slot's fields get the delta's on top; slots stay in order.
fn merge_weapon(ws: &mut Vec<WeaponEntry>, slot: u8, delta: &Vec<(String, Vec<u8>)>)
    requires
        weapons_wf(old(ws)@),
    ensures
        weapons_wf(final(ws)@),
        weapons_map(final(ws)@) == weapons_map(old(ws)@).insert(
            slot,
            merge_fields(slot_fields(weapons_map(old(ws)@), slot), delta_view(*delta)),
        ),
{
    let ghost pairs = ws@.map_values(|w: WeaponEntry| weapon_pair(w));
    let mut i: usize = 0;
    while i < ws.len() && ws[i].slot < slot
        invariant
            i <= ws@.len(),
            weapons_wf(ws@),
            forall|j: int| 0 <= j < i ==> ws@[j].slot < slot,
        decreases ws@.len() - i,
    {
        i = i + 1;
    }
    if i < ws.len() && ws[i].slot == slot {
        proof {
            assert(pairs[i as int].0 == slot);
            lemma_assoc_has(pairs, i as int);
        }
        let ghost old_ws = ws@;
        let mut w = ws.remove(i);
        w.fields.merge(delta);
        ws.insert(i, w);
        proof {
            let v = w.fields.map();
            lemma_assoc_update(pairs, i as int, v);
            assert(ws@ =~= old_ws.update(i as int, w));
            assert(ws@.map_values(|w: WeaponEntry| weapon_pair(w)) =~= pairs.update(
                i as int,
                (pairs[i as int].0, v),
            ));
            assert forall|a: int, b: int| 0 <= a < b < ws@.len() implies #[trigger] ws@[a].slot
                < #[trigger] ws@[b].slot by {
                assert(ws@[a].slot == old_ws[a].slot);
                assert(ws@[b].slot == old_ws[b].slot);
            }
            assert forall|j: int| 0 <= j < ws@.len() implies (#[trigger] ws@[j]).fields.wf() by {
                if j != i {
                    assert(ws@[j] == old_ws[j]);
                }
            }
        }
        return;
    }
    let mut fields = Fields::new();
    fields.merge(delta);
    let ghost old_ws = ws@;
    let w = WeaponEntry { slot, fields };
    ws.insert(i, w);
    proof {
        assert forall|j: int| i <= j < old_ws.len() implies old_ws[j].slot > slot by {
            if j > i {
                assert(old_ws[i as int].slot < old_ws[j].slot);
            }
        }
        assert forall|j: int| 0 <= j < pairs.len() implies pairs[j].0 != slot by {
            assert(pairs[j] == weapon_pair(old_ws[j]));
        }
        lemma_assoc_lacks(pairs, slot);
        lemma_assoc_insert(pairs, i as int, slot, w.fields.map());
        old_ws.insert_ensures(i as int, w);
        assert(ws@ =~= old_ws.insert(i as int, w));
        assert(ws@.map_values(|w: WeaponEntry| weapon_pair(w)) =~= pairs.insert(i as int, (slot, w.fields.map())));
        assert forall|a: int, b: int| 0 <= a < b < ws@.len() implies #[trigger] ws@[a].slot
            < #[trigger] ws@[b].slot by {
            if a == i {
                assert(ws@[b] == old_ws[b - 1]);
            } else if b == i {
                assert(ws@[a] == old_ws[a]);
            } else {
                let a2 = if a < i { a } else { a - 1 };
                let b2 = if b < i { b } else { b - 1 };
                assert(ws@[a] == old_ws[a2]);
                assert(ws@[b] == old_ws[b2]);
            }
        }
        assert forall|j: int| 0 <= j < ws@.len() implies (#[trigger] ws@[j]).fields.wf() by {
            if j < i {
                assert(ws@[j] == old_ws[j]);
            } else if j > i {
                assert(ws@[j] == old_ws[j - 1]);
            }
        }
    }
}

/// Applies one decoded message to the state.
fn apply(st: &mut ReplayedState, m: &ReplayMessage)
    requires
        old(st).wf(),
    ensures
        final(st).wf(),
        final(st).view() == apply_message(old(st).view(), *m),
{
    match m {
        ReplayMessage::PacketEntities(ents) => {
            let ghost t0 = entities_map(st.entities@);
            let mut i: usize = 0;
            while i < ents.len()
                invariant
                    i <= ents@.len(),
                    st.wf(),
                    st.client_data == old(st).client_data,
                    st.weapon_data == old(st).weapon_data,
                    t0 == entities_map(old(st).entities@),
                    entities_map(st.entities@) == apply_full(t0, ents@.take(i as int)),
                decreases ents@.len() - i,
            {
                let e = &ents[i];
                merge_entity(&mut st.entities, e.entity_index, e.has_custom_delta, &e.delta);
                proof {
                    assert(ents@.take(i + 1).drop_last() =~= ents@.take(i as int));
                }
                i = i + 1;
            }
            proof {
                assert(ents@.take(ents@.len() as int) =~= ents@);
            }
        },
        ReplayMessage::DeltaPacketEntities(ents) => {
            let ghost t0 = entities_map(st.entities@);
            let mut i: usize = 0;
            while i < ents.len()
                invariant
                    i <= ents@.len(),
                    st.wf(),
                    st.client_data == old(st).client_data,
                    st.weapon_data == old(st).weapon_data,
                    t0 == entities_map(old(st).entities@),
                    entities_map(st.entities@) == apply_delta(t0, ents@.take(i as int)),
                decreases ents@.len() - i,
            {
                let e = &ents[i];
                proof {
                    assert(ents@.take(i + 1).drop_last() =~= ents@.take(i as int));
                }
                if e.remove_entity {
                    remove_entity(&mut st.entities, e.entity_index);
                } else {
                    let hcd = match e.has_custom_delta {
                        Some(b) => b,
                        None => false,
                    };
                    if let Some(delta) = &e.delta {
                        merge_entity(&mut st.entities, e.entity_index, hcd, delta);
                    }
                }
                i = i + 1;
            }
            proof {
                assert(ents@.take(ents@.len() as int) =~= ents@);
            }
        },
        ReplayMessage::ClientData { client_data, weapon_data } => {
            st.client_data.merge(client_data);
            if let Some(weapons) = weapon_data {
                let ghost m0 = weapons_map(st.weapon_data@);
                let mut i: usize = 0;
                while i < weapons.len()
                    invariant
                        i <= weapons@.len(),
                        st.wf(),
                        st.entities == old(st).entities,
                        st.client_data.map() == merge_fields(
                            old(st).client_data.map(),
                            delta_view(*client_data),
                        ),
                        m0 == weapons_map(old(st).weapon_data@),
                        weapons_map(st.weapon_data@) == apply_weapons(m0, weapons@.take(i as int)),
                    decreases weapons@.len() - i,
                {
                    let w = &weapons[i];
                    let slot = w.weapon_index.to_u8();
                    merge_weapon(&mut st.weapon_data, slot, &w.weapon_data);
                    proof {
                        assert(weapons@.take(i + 1).drop_last() =~= weapons@.take(i as int));
                    }
                    i = i + 1;
                }
                proof {
                    assert(weapons@.take(weapons@.len() as int) =~= weapons@);
                }
            }
        },
        ReplayMessage::Other => {},
    }
}

/// Replays every decoded network message frame before the end point,
/// folding entity and local-player fields into running tables. Full and
/// delta entity messages merge alike (fields listed are set, removed
/// entities dropped); client data merges the same way every time.
pub fn replay_state_before(frames: &Vec<ReplayFrame>) -> (r: ReplayedState)
    ensures
        r.wf(),
        r.view() == replay_spec(frames@),
{
    let mut st = ReplayedState {
        entities: Vec::new(),
        client_data: Fields::new(),
        weapon_data: Vec::new(),
    };
    proof {
        assert(st.entity_pairs() =~= Seq::<(u16, (bool, Map<Seq<char>, Seq<u8>>))>::empty());
        assert(st.weapon_pairs() =~= Seq::<(u8, Map<Seq<char>, Seq<u8>>)>::empty());
        assert(st.view() =~= empty_state());
    }
    let mut i: usize = 0;
    while i < frames.len()
        invariant
            i <= frames@.len(),
            st.wf(),
            st.view() == replay_spec(frames@.take(i as int)),
        decreases frames@.len() - i,
    {
        let f = &frames[i];
        proof {
            assert(frames@.take(i + 1).drop_last() =~= frames@.take(i as int));
        }
        if f.before {
            if let Some(msgs) = &f.messages {
                let ghost s0 = st.view();
                let mut k: usize = 0;
                while k < msgs.len()
                    invariant
                        k <= msgs@.len(),
                        st.wf(),
                        st.view() == apply_messages(s0, msgs@.take(k as int)),
                    decreases msgs@.len() - k,
                {
                    apply(&mut st, &msgs[k]);
                    proof {
                        assert(msgs@.take(k + 1).drop_last() =~= msgs@.take(k as int));
                    }
                    k = k + 1;
                }
                proof {
                    assert(msgs@.take(msgs@.len() as int) =~= msgs@);
                }
            }
        }
        i = i + 1;
    }
    proof {
        assert(frames@.take(frames@.len() as int) =~= frames@);
    }
    st
}

} // verus!
