//! The script-visible ECS snapshot and the queue of writes that still have to
//! reach the host world.
//!
//! Every operation takes the owner (the script context) on whose behalf it
//! runs: entities are keyed by `(owner, id)`, so scripts can reuse ids without
//! seeing each other's entities. Resources are shared by all owners.

use vstd::prelude::*;
use crate::entity_map::{EntityMap, KeyView};
use crate::key::{valid_key, valid_key_spec};
use crate::name_map::NameMap;
use crate::naming::{make_owner_name, owner_name};
use crate::value::{duplicate_fields, fields_model, value_model, EcsValue, ValueModel};

verus! {

/// The identity of an asset, as plain values: an index with its generation,
/// or a UUID.
#[derive(Clone, Copy, Debug, PartialEq, Eq, Hash, Structural)]
pub enum ScriptAssetId {
    Index { generation: u32, index: u32 },
    Uuid(u128),
}

/// Where a script is attached: to an entity (by its bits), or statically.
#[derive(Clone, Copy, Debug, PartialEq, Eq, Hash, Structural)]
pub enum AttachmentKey {
    EntityScript(u64, ScriptAssetId),
    StaticScript(ScriptAssetId),
}

/// The components of one entity, by name.
pub type ComponentMap = NameMap<EcsValue>;

/// The resources, by name.
pub type ResourceMap = NameMap<EcsValue>;

/// The content of the bridge.
pub struct BridgeModel {
    /// Components of each live entity, keyed by `(owner, id)`.
    pub entities: Map<KeyView, Map<Seq<char>, ValueModel>>,
    /// Resources shared by all owners.
    pub resources: Map<Seq<char>, ValueModel>,
    /// Entities written since the last `take_changes`.
    pub dirty_entities: Set<KeyView>,
    /// Entities despawned since the last `take_changes`.
    pub removed_entities: Set<KeyView>,
    /// Owners whose world was cleared since the last `take_changes`.
    pub cleared_owners: Set<Seq<char>>,
    /// Whether resources were written since the last `take_changes`.
    pub resources_dirty: bool,
    /// The owner name given to each attachment seen so far.
    pub owners: Map<AttachmentKey, Seq<char>>,
    /// How many owner names have been given out.
    pub next_owner_id: nat,
}

/// Whether every name held in a map of named values is a valid key.
pub open spec fn names_valid(m: Map<Seq<char>, ValueModel>) -> bool {
    forall|n: Seq<char>| #[trigger] m.contains_key(n) ==> valid_key_spec(n)
}

/// The writes collected since the last `take_changes`, as contents.
pub struct ChangesModel {
    pub cleared_owners: Set<Seq<char>>,
    pub upsert_entities: Map<KeyView, Map<Seq<char>, ValueModel>>,
    pub removed_entities: Set<KeyView>,
    pub resources: Option<Map<Seq<char>, ValueModel>>,
}

impl BridgeModel {
    /// What every reachable state satisfies: ids, component names and resource
    /// names are valid keys.
    pub open spec fn valid(self) -> bool {
        &&& forall|k: KeyView| #[trigger] self.entities.contains_key(k) ==> valid_key_spec(k.1)
        &&& forall|k: KeyView| #[trigger] self.entities.contains_key(k) ==> names_valid(self.entities[k])
        &&& names_valid(self.resources)
        &&& forall|a: AttachmentKey| #[trigger] self.owners.contains_key(a) ==>
                exists|k: nat| 1 <= k <= self.next_owner_id && self.owners[a] == #[trigger] owner_name(k)
        &&& forall|a: AttachmentKey, b: AttachmentKey|
                #[trigger] self.owners.contains_key(a) && #[trigger] self.owners.contains_key(b) && a != b
                ==> self.owners[a] != self.owners[b]
    }

    /// Whether `(owner, id)` is a live entity.
    pub open spec fn entity_exists(self, owner: Seq<char>, id: Seq<char>) -> bool {
        self.entities.contains_key((owner, id))
    }

    /// The state after `owner` clears its world.
    pub open spec fn clear_world(self, owner: Seq<char>) -> BridgeModel {
        BridgeModel {
            entities: self.entities.restrict(self.entities.dom().filter(|k: KeyView| k.0 != owner)),
            dirty_entities: self.dirty_entities.filter(|k: KeyView| k.0 != owner),
            removed_entities: self.removed_entities.filter(|k: KeyView| k.0 != owner),
            cleared_owners: self.cleared_owners.insert(owner),
            ..self
        }
    }

    /// The state after `owner` spawns (or replaces) `id` with `components`.
    pub open spec fn spawn(self, owner: Seq<char>, id: Seq<char>, components: Map<Seq<char>, ValueModel>) -> BridgeModel {
        if valid_key_spec(id) && names_valid(components) {
            BridgeModel {
                entities: self.entities.insert((owner, id), components),
                dirty_entities: self.dirty_entities.insert((owner, id)),
                removed_entities: self.removed_entities.remove((owner, id)),
                ..self
            }
        } else {
            self
        }
    }

    /// The state after `owner` despawns `id`.
    pub open spec fn despawn(self, owner: Seq<char>, id: Seq<char>) -> BridgeModel {
        if self.entity_exists(owner, id) {
            BridgeModel {
                entities: self.entities.remove((owner, id)),
                dirty_entities: self.dirty_entities.remove((owner, id)),
                removed_entities: self.removed_entities.insert((owner, id)),
                ..self
            }
        } else {
            self
        }
    }

    /// Whether inserting component `name` on `(owner, id)` succeeds.
    pub open spec fn can_insert_component(self, owner: Seq<char>, id: Seq<char>, name: Seq<char>) -> bool {
        valid_key_spec(id) && valid_key_spec(name) && self.entity_exists(owner, id)
    }

    /// The state after `owner` inserts component `name` on `id`.
    pub open spec fn insert_component(self, owner: Seq<char>, id: Seq<char>, name: Seq<char>, value: ValueModel) -> BridgeModel {
        if self.can_insert_component(owner, id, name) {
            BridgeModel {
                entities: self.entities.insert((owner, id), self.entities[(owner, id)].insert(name, value)),
                dirty_entities: self.dirty_entities.insert((owner, id)),
                ..self
            }
        } else {
            self
        }
    }

    /// The component `name` of `(owner, id)`, if both exist.
    pub open spec fn get_component(self, owner: Seq<char>, id: Seq<char>, name: Seq<char>) -> Option<ValueModel> {
        if self.entity_exists(owner, id) && self.entities[(owner, id)].contains_key(name) {
            Some(self.entities[(owner, id)][name])
        } else {
            None
        }
    }

    /// Whether removing component `name` from `(owner, id)` succeeds.
    pub open spec fn can_remove_component(self, owner: Seq<char>, id: Seq<char>, name: Seq<char>) -> bool {
        valid_key_spec(id) && valid_key_spec(name) && self.get_component(owner, id, name) is Some
    }

    /// The state after `owner` removes component `name` from `id`.
    pub open spec fn remove_component(self, owner: Seq<char>, id: Seq<char>, name: Seq<char>) -> BridgeModel {
        if self.can_remove_component(owner, id, name) {
            BridgeModel {
                entities: self.entities.insert((owner, id), self.entities[(owner, id)].remove(name)),
                dirty_entities: self.dirty_entities.insert((owner, id)),
                ..self
            }
        } else {
            self
        }
    }

    /// The state after resource `name` is set to `value`.
    pub open spec fn set_resource(self, name: Seq<char>, value: ValueModel) -> BridgeModel {
        if valid_key_spec(name) {
            BridgeModel { resources: self.resources.insert(name, value), resources_dirty: true, ..self }
        } else {
            self
        }
    }

    /// The resource `name`, if set.
    pub open spec fn get_resource(self, name: Seq<char>) -> Option<ValueModel> {
        if self.resources.contains_key(name) {
            Some(self.resources[name])
        } else {
            None
        }
    }

    /// Whether removing resource `name` succeeds.
    pub open spec fn can_remove_resource(self, name: Seq<char>) -> bool {
        valid_key_spec(name) && self.resources.contains_key(name)
    }

    /// The state after resource `name` is removed.
    pub open spec fn remove_resource(self, name: Seq<char>) -> BridgeModel {
        if self.can_remove_resource(name) {
            BridgeModel { resources: self.resources.remove(name), resources_dirty: true, ..self }
        } else {
            self
        }
    }

    /// The writes that `take_changes` hands over.
    pub open spec fn changes(self) -> ChangesModel {
        ChangesModel {
            cleared_owners: self.cleared_owners,
            upsert_entities: self.entities.restrict(self.dirty_entities),
            removed_entities: self.removed_entities,
            resources: if self.resources_dirty { Some(self.resources) } else { None },
        }
    }

    /// The state after `take_changes`: nothing pending.
    pub open spec fn drained(self) -> BridgeModel {
        BridgeModel {
            dirty_entities: Set::empty(),
            removed_entities: Set::empty(),
            cleared_owners: Set::empty(),
            resources_dirty: false,
            ..self
        }
    }

    /// The owner name for `attachment`: the one it was given, or the next one.
    pub open spec fn owner_for(self, attachment: AttachmentKey) -> Seq<char> {
        if self.owners.contains_key(attachment) {
            self.owners[attachment]
        } else {
            owner_name(self.next_owner_id + 1)
        }
    }

    /// The state after the owner name for `attachment` is looked up.
    pub open spec fn attach(self, attachment: AttachmentKey) -> BridgeModel {
        if self.owners.contains_key(attachment) {
            self
        } else {
            BridgeModel {
                owners: self.owners.insert(attachment, owner_name(self.next_owner_id + 1)),
                next_owner_id: self.next_owner_id + 1,
                ..self
            }
        }
    }
}

} // verus!

verus! {

/// Whether `components` has every `required` name, at least one `any` name
/// (when `any` is not empty), and no `excluded` name.
pub open spec fn query_matches(
    components: Map<Seq<char>, ValueModel>,
    required: Seq<Seq<char>>,
    any: Seq<Seq<char>>,
    excluded: Seq<Seq<char>>,
) -> bool {
    &&& forall|i: int| 0 <= i < required.len() ==> components.contains_key(#[trigger] required[i])
    &&& (any.len() == 0 || exists|i: int| 0 <= i < any.len() && components.contains_key(#[trigger] any[i]))
    &&& forall|i: int| 0 <= i < excluded.len() ==> !components.contains_key(#[trigger] excluded[i])
}

impl BridgeModel {
    /// The ids of `owner`'s entities that match a query.
    pub open spec fn query_ids(
        self,
        owner: Seq<char>,
        required: Seq<Seq<char>>,
        any: Seq<Seq<char>>,
        excluded: Seq<Seq<char>>,
    ) -> Set<Seq<char>> {
        Set::new(|id: Seq<char>|
            self.entities.contains_key((owner, id)) && query_matches(self.entities[(owner, id)], required, any, excluded))
    }
}

/// The views of a sequence of strings.
pub open spec fn string_views(s: Seq<String>) -> Seq<Seq<char>> {
    s.map_values(|x: String| x@)
}

/// The state shared by every script context of one app.
pub struct BridgeState {
    entities: EntityMap<ComponentMap>,
    resources: ResourceMap,
    dirty_entities: EntityMap<()>,
    removed_entities: EntityMap<()>,
    cleared_owners: NameMap<()>,
    resources_dirty: bool,
    owners: Vec<(AttachmentKey, String)>,
    next_owner_id: u64,
}

/// The content of a collection of entities.
pub open spec fn entities_model(m: EntityMap<ComponentMap>) -> Map<KeyView, Map<Seq<char>, ValueModel>> {
    Map::new(|k: KeyView| m@.contains_key(k), |k: KeyView| fields_model(m@[k]))
}

/// The owner table as a map.
pub open spec fn owners_model(s: Seq<(AttachmentKey, String)>) -> Map<AttachmentKey, Seq<char>> {
    Map::new(
        |a: AttachmentKey| exists|i: int| 0 <= i < s.len() && s[i].0 == a,
        |a: AttachmentKey| s[choose|i: int| 0 <= i < s.len() && s[i].0 == a].1@,
    )
}

impl BridgeState {
    /// The content of the state.
    pub closed spec fn view(&self) -> BridgeModel {
        BridgeModel {
            entities: entities_model(self.entities),
            resources: fields_model(self.resources),
            dirty_entities: self.dirty_entities@.dom(),
            removed_entities: self.removed_entities@.dom(),
            cleared_owners: self.cleared_owners@.dom(),
            resources_dirty: self.resources_dirty,
            owners: owners_model(self.owners@),
            next_owner_id: self.next_owner_id as nat,
        }
    }

    /// The state's invariant.
    pub closed spec fn wf(&self) -> bool {
        &&& self.entities.inv()
        &&& self.dirty_entities.inv()
        &&& self.removed_entities.inv()
        &&& forall|i: int, j: int| 0 <= i < j < self.owners@.len() ==> self.owners@[i].0 != self.owners@[j].0
        &&& self.next_owner_id == self.owners@.len()
        &&& forall|j: int| 0 <= j < self.owners@.len() ==> (#[trigger] self.owners@[j]).1@ == owner_name((j + 1) as nat)
        &&& self.entity_part_valid()
    }

    /// Ids, component names and resource names are valid keys.
    closed spec fn entity_part_valid(&self) -> bool {
        &&& forall|k: KeyView| #[trigger] self@.entities.contains_key(k) ==> valid_key_spec(k.1)
        &&& forall|k: KeyView| #[trigger] self@.entities.contains_key(k) ==> names_valid(self@.entities[k])
        &&& names_valid(self@.resources)
    }

    /// A reachable state's content satisfies `BridgeModel::valid`.
    pub proof fn lemma_valid(&self)
        requires
            self.wf(),
        ensures
            self@.valid(),
    {
        let s = self.owners@;
        let m = self@;
        assert forall|a: AttachmentKey| #[trigger] m.owners.contains_key(a) implies
            exists|k: nat| 1 <= k <= m.next_owner_id && m.owners[a] == #[trigger] owner_name(k) by {
            let j = choose|j: int| 0 <= j < s.len() && s[j].0 == a;
            assert(m.owners[a] == owner_name((j + 1) as nat));
        }
        assert forall|a: AttachmentKey, b: AttachmentKey|
            #[trigger] m.owners.contains_key(a) && #[trigger] m.owners.contains_key(b) && a != b implies
            m.owners[a] != m.owners[b] by {
            let j = choose|j: int| 0 <= j < s.len() && s[j].0 == a;
            let k = choose|k: int| 0 <= k < s.len() && s[k].0 == b;
            if m.owners[a] == m.owners[b] {
                crate::naming::lemma_owner_name_injective((j + 1) as nat, (k + 1) as nat);
            }
        }
    }

    /// An empty state.
    pub fn new() -> (r: Self)
        ensures
            r.wf(),
            r@.entities == Map::<KeyView, Map<Seq<char>, ValueModel>>::empty(),
            r@.resources == Map::<Seq<char>, ValueModel>::empty(),
            r@.dirty_entities == Set::<KeyView>::empty(),
            r@.removed_entities == Set::<KeyView>::empty(),
            r@.cleared_owners == Set::<Seq<char>>::empty(),
            !r@.resources_dirty,
            r@.owners == Map::<AttachmentKey, Seq<char>>::empty(),
            r@.next_owner_id == 0,
    {
        let r = BridgeState {
            entities: EntityMap::new(),
            resources: NameMap::new(),
            dirty_entities: EntityMap::new(),
            removed_entities: EntityMap::new(),
            cleared_owners: NameMap::new(),
            resources_dirty: false,
            owners: Vec::new(),
            next_owner_id: 0,
        };
        proof {
            assert(r@.entities =~= Map::<KeyView, Map<Seq<char>, ValueModel>>::empty());
            assert(r@.resources =~= Map::<Seq<char>, ValueModel>::empty());
            assert(r@.dirty_entities =~= Set::<KeyView>::empty());
            assert(r@.removed_entities =~= Set::<KeyView>::empty());
            assert(r@.cleared_owners =~= Set::<Seq<char>>::empty());
            assert(r@.owners =~= Map::<AttachmentKey, Seq<char>>::empty());
        }
        r
    }

    /// Whether `(owner, id)` is a live entity.
    pub fn entity_exists(&self, owner: &str, id: &str) -> (r: bool)
        ensures
            r == self@.entity_exists(owner@, id@),
    {
        self.entities.contains_key(owner, id)
    }

    /// Destroys every entity of `owner`; resources stay.
    pub fn clear_world(&mut self, owner: &str)
        requires
            old(self).wf(),
        ensures
            final(self).wf(),
            final(self)@ == old(self)@.clear_world(owner@),
    {
        self.entities.remove_owner(owner);
        self.dirty_entities.remove_owner(owner);
        self.removed_entities.remove_owner(owner);
        self.cleared_owners.insert(owner.to_owned(), ());
        proof {
            let o = old(self)@.clear_world(owner@);
            assert(self@.entities =~= o.entities);
            assert(self@.dirty_entities =~= o.dirty_entities);
            assert(self@.removed_entities =~= o.removed_entities);
            assert(self@.cleared_owners =~= o.cleared_owners);
        }
    }
}

} // verus!

verus! {

/// Whether every key of `m` is a valid key.
pub fn all_keys_valid<V>(m: &NameMap<V>) -> (r: bool)
    ensures
        r == (forall|n: Seq<char>| #[trigger] m@.contains_key(n) ==> valid_key_spec(n)),
{
    proof {
        use_type_invariant(m);
        m.lemma_len();
    }
    let n = m.len();
    for i in 0..n
        invariant
            n == m.key_seq().len(),
            m@.dom() == m.key_seq().to_set(),
            forall|j: int| 0 <= j < i ==> valid_key_spec(#[trigger] m.key_seq()[j]),
    {
        if !valid_key(m.key_at(i).as_str()) {
            proof {
                assert(m.key_seq().to_set().contains(m.key_seq()[i as int]));
            }
            return false;
        }
    }
    proof {
        assert forall|q: Seq<char>| #[trigger] m@.contains_key(q) implies valid_key_spec(q) by {
            assert(m.key_seq().to_set().contains(q));
        }
    }
    true
}

impl BridgeState {
    /// Creates or replaces entity `id` of `owner` with the given components.
    /// Nothing happens when `id` or a component name is not a valid key.
    pub fn spawn_entity_bundle(&mut self, owner: &str, id: String, components: ComponentMap)
        requires
            old(self).wf(),
        ensures
            final(self).wf(),
            final(self)@ == old(self)@.spawn(owner@, id@, fields_model(components)),
    {
        let ghost cm = fields_model(components);
        assert(names_valid(cm) <==> (forall|n: Seq<char>| #[trigger] components@.contains_key(n) ==> valid_key_spec(n))) by {
            assert forall|n: Seq<char>| #![trigger cm.contains_key(n)] #![trigger components@.contains_key(n)]
                cm.contains_key(n) <==> components@.contains_key(n) by {}
        }
        if !valid_key(id.as_str()) || !all_keys_valid(&components) {
            return;
        }
        let ghost idv = id@;
        self.entities.insert(owner, id.clone(), components);
        self.removed_entities.remove(owner, id.as_str());
        self.dirty_entities.insert(owner, id, ());
        proof {
            let o = old(self)@.spawn(owner@, idv, cm);
            assert(self@.entities =~= o.entities);
            assert(self@.dirty_entities =~= o.dirty_entities);
            assert(self@.removed_entities =~= o.removed_entities);
        }
    }

    /// Creates or replaces entity `id` of `owner` with no components.
    pub fn spawn_entity(&mut self, owner: &str, id: String)
        requires
            old(self).wf(),
        ensures
            final(self).wf(),
            final(self)@ == old(self)@.spawn(owner@, id@, Map::empty()),
    {
        let components = NameMap::new();
        proof {
            assert(fields_model(components) =~= Map::<Seq<char>, ValueModel>::empty());
        }
        self.spawn_entity_bundle(owner, id, components);
    }

    /// Destroys entity `id` of `owner`; `false` when it does not exist.
    pub fn despawn_entity(&mut self, owner: &str, id: String) -> (r: bool)
        requires
            old(self).wf(),
        ensures
            final(self).wf(),
            r == old(self)@.entity_exists(owner@, id@),
            final(self)@ == old(self)@.despawn(owner@, id@),
    {
        let removed = self.entities.remove(owner, id.as_str());
        if removed.is_none() {
            proof {
                assert(self.entities@ =~= old(self).entities@);
                assert(self@.entities =~= old(self)@.entities);
            }
            return false;
        }
        let ghost idv = id@;
        self.dirty_entities.remove(owner, id.as_str());
        self.removed_entities.insert(owner, id, ());
        proof {
            let o = old(self)@.despawn(owner@, idv);
            assert(self@.entities =~= o.entities);
            assert(self@.dirty_entities =~= o.dirty_entities);
            assert(self@.removed_entities =~= o.removed_entities);
        }
        true
    }
}

} // verus!

verus! {

/// The content of an optional value.
pub open spec fn option_model(v: Option<EcsValue>) -> Option<ValueModel> {
    match v {
        Some(x) => Some(value_model(x)),
        None => None,
    }
}

impl BridgeState {
    /// Inserts or replaces component `name` of entity `id`; `false` when a key
    /// is invalid or the entity does not exist.
    pub fn insert_component(&mut self, owner: &str, id: &str, name: String, value: EcsValue) -> (r: bool)
        requires
            old(self).wf(),
        ensures
            final(self).wf(),
            r == old(self)@.can_insert_component(owner@, id@, name@),
            final(self)@ == old(self)@.insert_component(owner@, id@, name@, value_model(value)),
    {
        if !valid_key(id) || !valid_key(name.as_str()) {
            return false;
        }
        let ghost vm = value_model(value);
        let ghost nv = name@;
        match self.entities.remove(owner, id) {
            None => {
                proof {
                    assert(self.entities@ =~= old(self).entities@);
                    assert(self@.entities =~= old(self)@.entities);
                }
                false
            },
            Some(mut components) => {
                let ghost before = fields_model(components);
                components.insert(name, value);
                proof {
                    assert(fields_model(components) =~= before.insert(nv, vm));
                }
                self.entities.insert(owner, id.to_owned(), components);
                self.dirty_entities.insert(owner, id.to_owned(), ());
                proof {
                    let o = old(self)@.insert_component(owner@, id@, nv, vm);
                    assert(self@.entities =~= o.entities);
                    assert(self@.dirty_entities =~= o.dirty_entities);
                }
                true
            },
        }
    }

    /// Removes component `name` of entity `id`; `false` when a key is invalid
    /// or the component does not exist.
    pub fn remove_component(&mut self, owner: &str, id: &str, name: &str) -> (r: bool)
        requires
            old(self).wf(),
        ensures
            final(self).wf(),
            r == old(self)@.can_remove_component(owner@, id@, name@),
            final(self)@ == old(self)@.remove_component(owner@, id@, name@),
    {
        if !valid_key(id) || !valid_key(name) {
            return false;
        }
        match self.entities.remove(owner, id) {
            None => {
                proof {
                    assert(self.entities@ =~= old(self).entities@);
                    assert(self@.entities =~= old(self)@.entities);
                }
                false
            },
            Some(mut components) => {
                let ghost before = fields_model(components);
                let ghost comps_before = components;
                let removed = components.remove(name);
                proof {
                    assert(fields_model(components) =~= before.remove(name@));
                }
                let found = removed.is_some();
                self.entities.insert(owner, id.to_owned(), components);
                if found {
                    self.dirty_entities.insert(owner, id.to_owned(), ());
                }
                proof {
                    let o = old(self)@.remove_component(owner@, id@, name@);
                    if found {
                        assert(self@.entities =~= o.entities);
                        assert(self@.dirty_entities =~= o.dirty_entities);
                    } else {
                        assert(components@ =~= comps_before@);
                        assert(self@.entities =~= o.entities);
                    }
                }
                found
            },
        }
    }

    /// A copy of component `name` of entity `id`, if both exist.
    pub fn get_component(&self, owner: &str, id: &str, name: &str) -> (r: Option<EcsValue>)
        ensures
            option_model(r) == self@.get_component(owner@, id@, name@),
    {
        match self.entities.get(owner, id) {
            Some(components) => match components.get(name) {
                Some(value) => Some(value.duplicate()),
                None => None,
            },
            None => None,
        }
    }

    /// Whether entity `id` has component `name`.
    pub fn has_component(&self, owner: &str, id: &str, name: &str) -> (r: bool)
        ensures
            r == self@.get_component(owner@, id@, name@) is Some,
    {
        match self.entities.get(owner, id) {
            Some(components) => components.contains_key(name),
            None => false,
        }
    }

    /// Inserts or replaces resource `name`; nothing happens when `name` is
    /// not a valid key.
    pub fn set_resource(&mut self, name: String, value: EcsValue)
        requires
            old(self).wf(),
        ensures
            final(self).wf(),
            final(self)@ == old(self)@.set_resource(name@, value_model(value)),
    {
        if !valid_key(name.as_str()) {
            return;
        }
        let ghost nv = name@;
        let ghost vm = value_model(value);
        self.resources.insert(name, value);
        self.resources_dirty = true;
        proof {
            assert(self@.resources =~= old(self)@.resources.insert(nv, vm));
            assert(self@.entities == old(self)@.entities);
            assert(names_valid(self@.resources));
        }
    }

    /// A copy of resource `name`, if set.
    pub fn get_resource(&self, name: &str) -> (r: Option<EcsValue>)
        ensures
            option_model(r) == self@.get_resource(name@),
    {
        match self.resources.get(name) {
            Some(value) => Some(value.duplicate()),
            None => None,
        }
    }

    /// Removes resource `name`; `false` when the name is invalid or unset.
    pub fn remove_resource(&mut self, name: &str) -> (r: bool)
        requires
            old(self).wf(),
        ensures
            final(self).wf(),
            r == old(self)@.can_remove_resource(name@),
            final(self)@ == old(self)@.remove_resource(name@),
    {
        if !valid_key(name) {
            return false;
        }
        if self.resources.remove(name).is_none() {
            proof {
                assert(self@.resources =~= old(self)@.resources);
            }
            return false;
        }
        self.resources_dirty = true;
        proof {
            assert(self@.resources =~= old(self)@.resources.remove(name@));
            assert(self@.entities == old(self)@.entities);
            assert(names_valid(self@.resources));
        }
        true
    }
}

} // verus!

verus! {

/// Whether `names` holds a string equal to some key of `m`; the first such
/// position, if any.
fn find_present(m: &ComponentMap, names: &[String]) -> (r: Option<usize>)
    ensures
        match r {
            Some(i) => i < names@.len() && m@.contains_key(names@[i as int]@),
            None => forall|i: int| 0 <= i < names@.len() ==> !m@.contains_key(#[trigger] names@[i]@),
        },
{
    let n = names.len();
    for i in 0..n
        invariant
            n == names@.len(),
            forall|j: int| 0 <= j < i ==> !m@.contains_key(#[trigger] names@[j]@),
    {
        if m.contains_key(names[i].as_str()) {
            return Some(i);
        }
    }
    None
}

/// Whether every string of `names` is a key of `m`.
fn all_present(m: &ComponentMap, names: &[String]) -> (r: bool)
    ensures
        r == (forall|i: int| 0 <= i < names@.len() ==> m@.contains_key(#[trigger] names@[i]@)),
{
    let n = names.len();
    for i in 0..n
        invariant
            n == names@.len(),
            forall|j: int| 0 <= j < i ==> m@.contains_key(#[trigger] names@[j]@),
    {
        if !m.contains_key(names[i].as_str()) {
            return false;
        }
    }
    true
}

/// Whether a component map matches a query.
pub fn matches_query(components: &ComponentMap, required: &[String], any: &[String], excluded: &[String]) -> (r: bool)
    ensures
        r == query_matches(fields_model(*components), string_views(required@), string_views(any@), string_views(excluded@)),
{
    let req = all_present(components, required);
    let any_found = find_present(components, any);
    let any_ok = any.len() == 0 || any_found.is_some();
    let exc_found = find_present(components, excluded);
    let exc_ok = exc_found.is_none();
    proof {
        let fm = fields_model(*components);
        let rq = string_views(required@);
        let an = string_views(any@);
        let ex = string_views(excluded@);
        assert forall|n: Seq<char>| #![trigger fm.contains_key(n)] #![trigger components@.contains_key(n)]
            fm.contains_key(n) <==> components@.contains_key(n) by {}
        assert forall|i: int| 0 <= i < rq.len() implies rq[i] == (#[trigger] required@[i])@ by {}
        assert forall|i: int| 0 <= i < an.len() implies an[i] == (#[trigger] any@[i])@ by {}
        assert forall|i: int| 0 <= i < ex.len() implies ex[i] == (#[trigger] excluded@[i])@ by {}
        if !req {
            let i = choose|i: int| 0 <= i < required@.len() && !components@.contains_key(#[trigger] required@[i]@);
            assert(!fm.contains_key(rq[i]));
        }
        if let Some(i) = any_found {
            assert(fm.contains_key(an[i as int]));
        } else {
            assert(forall|i: int| 0 <= i < an.len() ==> !fm.contains_key(#[trigger] an[i]));
        }
        if let Some(i) = exc_found {
            assert(fm.contains_key(ex[i as int]));
        }
    }
    req && any_ok && exc_ok
}

} // verus!

verus! {

impl BridgeState {
    /// The ids of `owner`'s entities that have every `required` component,
    /// at least one `any` component (unless `any` is empty) and no `excluded`
    /// component, in increasing order.
    pub fn query_entities_matching(
        &self,
        owner: &str,
        required: &[String],
        any: &[String],
        excluded: &[String],
    ) -> (r: Vec<String>)
        requires
            self.wf(),
        ensures
            crate::name_map::keys_sorted(string_views(r@)),
            string_views(r@).to_set() == self@.query_ids(
                owner@,
                string_views(required@),
                string_views(any@),
                string_views(excluded@),
            ),
    {
        let ghost rq = string_views(required@);
        let ghost an = string_views(any@);
        let ghost ex = string_views(excluded@);
        let ghost target = self@.query_ids(owner@, rq, an, ex);
        proof {
            self.entities.lemma_layout();
        }
        let mut out: Vec<String> = Vec::new();
        match self.entities.owner_entries(owner) {
            None => {
                proof {
                    assert(string_views(out@).to_set() =~= target);
                }
                out
            },
            Some(ids) => {
                proof {
                    use_type_invariant(ids);
                }
                let n = ids.len();
                let ghost mut pos: Seq<int> = Seq::empty();
                for i in 0..n
                    invariant
                        n == ids.key_seq().len(),
                        ids.wf(),
                        self.entities.of_owner(owner@) == Some(*ids),
                        self.entities.inv(),
                        pos.len() == out@.len(),
                        forall|a: int| 0 <= a < pos.len() ==> 0 <= #[trigger] pos[a] < i,
                        forall|a: int, b: int| 0 <= a < b < pos.len() ==> #[trigger] pos[a] < #[trigger] pos[b],
                        forall|a: int| 0 <= a < pos.len() ==> (#[trigger] out@[a])@ == ids.key_seq()[pos[a]],
                        forall|j: int| 0 <= j < i ==> (target.contains(#[trigger] ids.key_seq()[j]) <==> exists|a: int| 0 <= a < pos.len() && pos[a] == j),
                        target == self@.query_ids(owner@, rq, an, ex),
                        rq == string_views(required@),
                        an == string_views(any@),
                        ex == string_views(excluded@),
                {
                    proof {
                        ids.lemma_unique(i as int);
                        self.entities.lemma_layout();
                    }
                    let hit = matches_query(ids.value_at(i), required, any, excluded);
                    proof {
                        let id = ids.key_seq()[i as int];
                        assert(self@.entities.contains_key((owner@, id)));
                        assert(self@.entities[(owner@, id)] == fields_model(ids@[id]));
                        assert(target.contains(id) == hit);
                    }
                    let ghost old_pos = pos;
                    if hit {
                        out.push(ids.key_at(i).clone());
                        proof {
                            pos = pos.push(i as int);
                        }
                    }
                    proof {
                        assert forall|j: int| 0 <= j < i + 1 implies (target.contains(#[trigger] ids.key_seq()[j]) <==> exists|a: int| 0 <= a < pos.len() && pos[a] == j) by {
                            if j < i {
                                if target.contains(ids.key_seq()[j]) {
                                    let a = choose|a: int| 0 <= a < old_pos.len() && old_pos[a] == j;
                                    assert(pos[a] == j);
                                } else {
                                    if exists|a: int| 0 <= a < pos.len() && pos[a] == j {
                                        let a = choose|a: int| 0 <= a < pos.len() && pos[a] == j;
                                        assert(a < old_pos.len());
                                        assert(old_pos[a] == j);
                                    }
                                }
                            } else {
                                if hit {
                                    assert(pos[pos.len() - 1] == j);
                                } else {
                                    assert(pos == old_pos);
                                }
                            }
                        }
                    }
                }
                proof {
                    let s = string_views(out@);
                    assert forall|a: int, b: int| 0 <= a < b < s.len() implies crate::order::key_lt(#[trigger] s[a], #[trigger] s[b]) by {
                        assert(s[a] == out@[a]@);
                        assert(s[b] == out@[b]@);
                    }
                    assert forall|id: Seq<char>| target.contains(id) implies #[trigger] s.to_set().contains(id) by {
                        assert(self@.entities.contains_key((owner@, id)));
                        let j = crate::name_map::index_of_key(ids.key_seq(), id);
                        assert(target.contains(ids.key_seq()[j]));
                        let a = choose|a: int| 0 <= a < pos.len() && pos[a] == j;
                        assert(s[a] == id);
                    }
                    assert forall|id: Seq<char>| #[trigger] s.to_set().contains(id) implies target.contains(id) by {
                        let a = choose|a: int| 0 <= a < s.len() && s[a] == id;
                        assert(s[a] == out@[a]@);
                        let j = pos[a];
                        assert(exists|b: int| 0 <= b < pos.len() && pos[b] == j);
                        assert(target.contains(ids.key_seq()[j]));
                    }
                    assert(s.to_set() =~= target);
                }
                out
            },
        }
    }
}

} // verus!

verus! {

/// The writes collected since the last hand-over.
pub struct EcsChanges {
    /// Owners whose world was cleared.
    pub cleared_owners: NameMap<()>,
    /// Entities written, with their current components.
    pub upsert_entities: EntityMap<ComponentMap>,
    /// Entities despawned.
    pub removed_entities: EntityMap<()>,
    /// All resources, when any was written.
    pub resources: Option<ResourceMap>,
}

/// The content of a hand-over.
pub open spec fn changes_model(c: EcsChanges) -> ChangesModel {
    ChangesModel {
        cleared_owners: c.cleared_owners@.dom(),
        upsert_entities: entities_model(c.upsert_entities),
        removed_entities: c.removed_entities@.dom(),
        resources: match c.resources {
            Some(r) => Some(fields_model(r)),
            None => None,
        },
    }
}

impl BridgeState {
    /// Hands over the writes collected since the last call and forgets them.
    pub fn take_changes(&mut self) -> (r: EcsChanges)
        requires
            old(self).wf(),
        ensures
            final(self).wf(),
            changes_model(r) == old(self)@.changes(),
            final(self)@ == old(self)@.drained(),
            r.upsert_entities.inv(),
            r.removed_entities.inv(),
    {
        let mut dirty: EntityMap<()> = EntityMap::new();
        std::mem::swap(&mut dirty, &mut self.dirty_entities);
        let ghost ents = old(self)@.entities;
        let ghost dirty_set = dirty@.dom();
        proof {
            dirty.lemma_layout();
            self.entities.lemma_layout();
        }
        let mut upserts: EntityMap<ComponentMap> = EntityMap::new();
        let ghost mut done: Set<KeyView> = Set::empty();
        assert(entities_model(upserts) =~= ents.restrict(done));
        let owner_count = dirty.owner_count();
        for oi in 0..owner_count
            invariant
                owner_count == dirty.owner_seq().len(),
                dirty.inv(),
                dirty_set == dirty@.dom(),
                self.entities.inv(),
                entities_model(self.entities) == ents,
                upserts.inv(),
                forall|p: KeyView| #[trigger] done.contains(p) ==> dirty_set.contains(p),
                forall|p: KeyView, k: int| 0 <= k < oi && dirty_set.contains(p) && p.0 == #[trigger] dirty.owner_seq()[k] ==> #[trigger] done.contains(p),
                entities_model(upserts) == ents.restrict(done),
        {
            let owner = dirty.owner_at(oi);
            let ids = dirty.inner_at(oi);
            proof {
                dirty.lemma_layout();
                use_type_invariant(ids);
            }
            let id_count = ids.len();
            for j in 0..id_count
                invariant
                    owner_count == dirty.owner_seq().len(),
                    oi < owner_count,
                    owner@ == dirty.owner_seq()[oi as int],
                    dirty.of_owner(owner@) == Some(*ids),
                    id_count == ids.key_seq().len(),
                    ids.wf(),
                    dirty.inv(),
                    dirty_set == dirty@.dom(),
                    self.entities.inv(),
                    entities_model(self.entities) == ents,
                    upserts.inv(),
                    forall|p: KeyView| #[trigger] done.contains(p) ==> dirty_set.contains(p),
                    forall|p: KeyView, k: int| 0 <= k < oi && dirty_set.contains(p) && p.0 == #[trigger] dirty.owner_seq()[k] ==> #[trigger] done.contains(p),
                    forall|p: KeyView, q: int| 0 <= q < j && p.0 == owner@ && p.1 == #[trigger] ids.key_seq()[q] ==> #[trigger] done.contains(p),
                    entities_model(upserts) == ents.restrict(done),
            {
                let id = ids.key_at(j);
                proof {
                    ids.lemma_unique(j as int);
                    dirty.lemma_layout();
                    self.entities.lemma_layout();
                }
                let ghost p: KeyView = (owner@, id@);
                let ghost old_up = entities_model(upserts);
                let found = self.entities.get(owner.as_str(), id.as_str());
                match found {
                    Some(components) => {
                        let copy = duplicate_fields(components);
                        upserts.insert(owner.as_str(), id.clone(), copy);
                        proof {
                            assert(ents.contains_key(p));
                            assert(ents[p] == fields_model(*components));
                            assert(entities_model(upserts) =~= old_up.insert(p, ents[p]));
                        }
                    },
                    None => {
                        proof {
                            assert(!ents.contains_key(p));
                        }
                    },
                }
                proof {
                    done = done.insert(p);
                    assert(entities_model(upserts) =~= ents.restrict(done));
                }
            }
            proof {
                assert forall|p: KeyView, k: int| 0 <= k < oi + 1 && dirty_set.contains(p) && p.0 == #[trigger] dirty.owner_seq()[k] implies #[trigger] done.contains(p) by {
                    if k == oi {
                        dirty.lemma_layout();
                        let q = crate::name_map::index_of_key(ids.key_seq(), p.1);
                        assert(ids@.contains_key(p.1));
                        assert(p.1 == ids.key_seq()[q]);
                    }
                }
            }
        }
        proof {
            dirty.lemma_layout();
            assert forall|p: KeyView| dirty_set.contains(p) implies #[trigger] done.contains(p) by {
                assert(dirty@.contains_key((p.0, p.1)));
                assert(dirty.owner_seq().contains(p.0));
                let k = crate::name_map::index_of_key(dirty.owner_seq(), p.0);
                assert(dirty.owner_seq()[k] == p.0);
            }
            assert(done =~= dirty_set);
        }
        let resources = if self.resources_dirty {
            Some(duplicate_fields(&self.resources))
        } else {
            None
        };
        let mut cleared: NameMap<()> = NameMap::new();
        std::mem::swap(&mut cleared, &mut self.cleared_owners);
        let mut removed: EntityMap<()> = EntityMap::new();
        std::mem::swap(&mut removed, &mut self.removed_entities);
        self.resources_dirty = false;
        let r = EcsChanges {
            cleared_owners: cleared,
            upsert_entities: upserts,
            removed_entities: removed,
            resources: resources,
        };
        proof {
            assert(self@.dirty_entities =~= Set::<KeyView>::empty());
            assert(self@.removed_entities =~= Set::<KeyView>::empty());
            assert(self@.cleared_owners =~= Set::<Seq<char>>::empty());
        }
        r
    }
}

} // verus!

verus! {

impl BridgeState {
    /// The owner name of a script attachment: the name it was given the first
    /// time it was seen, or else the next name `script-<n>`.
    pub fn owner_for_attachment(&mut self, attachment: AttachmentKey) -> (r: String)
        requires
            old(self).wf(),
        ensures
            final(self).wf(),
            r@ == old(self)@.owner_for(attachment),
            final(self)@ == old(self)@.attach(attachment),
    {
        let n = self.owners.len();
        for i in 0..n
            invariant
                n == self.owners@.len(),
                self.wf(),
                *self == *old(self),
                forall|j: int| 0 <= j < i ==> self.owners@[j].0 != attachment,
        {
            if self.owners[i].0 == attachment {
                proof {
                    let s = self.owners@;
                    let c = choose|j: int| 0 <= j < s.len() && s[j].0 == attachment;
                    assert(c == i) by {
                        if c != i as int {
                            assert(s[c].0 == s[i as int].0);
                        }
                    }
                }
                return self.owners[i].1.clone();
            }
        }
        let ghost old_owners = self.owners@;
        self.owners.push((attachment, String::new()));
        let count = self.owners.len();
        let name = make_owner_name(count as u64);
        self.owners.set(count - 1, (attachment, name.clone()));
        self.next_owner_id = count as u64;
        proof {
            let s = self.owners@;
            assert(s =~= old_owners.push((attachment, name)));
            assert(forall|j: int| 0 <= j < old_owners.len() ==> old_owners[j].0 != attachment);
            let o = old(self)@.attach(attachment);
            assert forall|a: AttachmentKey| #[trigger] owners_model(s).contains_key(a) == o.owners.contains_key(a) by {
                if a != attachment {
                    if owners_model(s).contains_key(a) {
                        let j = choose|j: int| 0 <= j < s.len() && s[j].0 == a;
                        assert(old_owners[j].0 == a);
                    }
                    if old(self)@.owners.contains_key(a) {
                        let j = choose|j: int| 0 <= j < old_owners.len() && old_owners[j].0 == a;
                        assert(s[j].0 == a);
                    }
                } else {
                    assert(s[s.len() - 1].0 == a);
                }
            }
            assert forall|a: AttachmentKey| #[trigger] owners_model(s).contains_key(a) implies owners_model(s)[a] == o.owners[a] by {
                let j = choose|j: int| 0 <= j < s.len() && s[j].0 == a;
                if a != attachment {
                    let k = choose|k: int| 0 <= k < old_owners.len() && old_owners[k].0 == a;
                    assert(s[k].0 == a);
                    if j != k {
                        assert(j < old_owners.len());
                    }
                } else {
                    if j != s.len() - 1 {
                        assert(old_owners[j].0 == a);
                    }
                }
            }
            assert(owners_model(s) =~= o.owners);
            assert forall|a: int, b: int| 0 <= a < b < s.len() implies s[a].0 != s[b].0 by {
                if b == s.len() - 1 {
                    assert(old_owners[a].0 != attachment);
                }
            }
        }
        name
    }
}

} // verus!

verus! {

/// A script context's handle: it names the owner on whose behalf each
/// operation acts on the state shared by every context of one app. The state
/// itself is passed to each call, so one state serves every handle; whoever
/// shares it between threads holds it behind a lock.
pub struct EcsBridge {
    owner: String,
}

impl EcsBridge {
    /// The owner on whose behalf this handle acts.
    pub closed spec fn owner_view(&self) -> Seq<char> {
        self.owner@
    }

    /// A handle for the owner named `""`.
    pub fn new() -> (r: Self)
        ensures
            r.owner_view() == Seq::<char>::empty(),
    {
        EcsBridge { owner: String::new() }
    }

    /// A handle for `owner`.
    pub fn for_owner(&self, owner: String) -> (r: Self)
        ensures
            r.owner_view() == owner@,
    {
        EcsBridge { owner }
    }

    /// A handle for the owner of a script attachment: the name the attachment
    /// was first given, or the next one, which it keeps from now on.
    pub fn for_attachment(&self, state: &mut BridgeState, attachment: AttachmentKey) -> (r: Self)
        requires
            old(state).wf(),
        ensures
            final(state).wf(),
            r.owner_view() == old(state)@.owner_for(attachment),
            final(state)@ == old(state)@.attach(attachment),
    {
        let owner = state.owner_for_attachment(attachment);
        EcsBridge { owner }
    }

    /// Destroys every entity of this owner; resources stay.
    pub fn clear_world(&self, state: &mut BridgeState)
        requires
            old(state).wf(),
        ensures
            final(state).wf(),
            final(state)@ == old(state)@.clear_world(self.owner_view()),
    {
        state.clear_world(self.owner.as_str());
    }

    /// Creates or replaces entity `id` with no components.
    pub fn spawn_entity(&self, state: &mut BridgeState, id: String)
        requires
            old(state).wf(),
        ensures
            final(state).wf(),
            final(state)@ == old(state)@.spawn(self.owner_view(), id@, Map::empty()),
    {
        state.spawn_entity(self.owner.as_str(), id);
    }

    /// Creates or replaces entity `id` with `components`.
    pub fn spawn_entity_bundle(&self, state: &mut BridgeState, id: String, components: ComponentMap)
        requires
            old(state).wf(),
        ensures
            final(state).wf(),
            final(state)@ == old(state)@.spawn(self.owner_view(), id@, fields_model(components)),
    {
        state.spawn_entity_bundle(self.owner.as_str(), id, components);
    }

    /// Whether entity `id` exists.
    pub fn entity_exists(&self, state: &BridgeState, id: &str) -> (r: bool)
        ensures
            r == state@.entity_exists(self.owner_view(), id@),
    {
        state.entity_exists(self.owner.as_str(), id)
    }

    /// Destroys entity `id`; `false` when it does not exist.
    pub fn despawn_entity(&self, state: &mut BridgeState, id: String) -> (r: bool)
        requires
            old(state).wf(),
        ensures
            final(state).wf(),
            r == old(state)@.entity_exists(self.owner_view(), id@),
            final(state)@ == old(state)@.despawn(self.owner_view(), id@),
    {
        state.despawn_entity(self.owner.as_str(), id)
    }

    /// Inserts or replaces component `name` of entity `id`; `false` when a
    /// key is invalid or the entity does not exist.
    pub fn insert_component(&self, state: &mut BridgeState, id: &str, name: String, value: EcsValue) -> (r: bool)
        requires
            old(state).wf(),
        ensures
            final(state).wf(),
            r == old(state)@.can_insert_component(self.owner_view(), id@, name@),
            final(state)@ == old(state)@.insert_component(self.owner_view(), id@, name@, value_model(value)),
    {
        state.insert_component(self.owner.as_str(), id, name, value)
    }

    /// Removes component `name` of entity `id`; `false` when a key is invalid
    /// or the component does not exist.
    pub fn remove_component(&self, state: &mut BridgeState, id: &str, name: &str) -> (r: bool)
        requires
            old(state).wf(),
        ensures
            final(state).wf(),
            r == old(state)@.can_remove_component(self.owner_view(), id@, name@),
            final(state)@ == old(state)@.remove_component(self.owner_view(), id@, name@),
    {
        state.remove_component(self.owner.as_str(), id, name)
    }

    /// A copy of component `name` of entity `id`, if both exist.
    pub fn get_component(&self, state: &BridgeState, id: &str, name: &str) -> (r: Option<EcsValue>)
        ensures
            option_model(r) == state@.get_component(self.owner_view(), id@, name@),
    {
        state.get_component(self.owner.as_str(), id, name)
    }

    /// Whether entity `id` has component `name`.
    pub fn has_component(&self, state: &BridgeState, id: &str, name: &str) -> (r: bool)
        ensures
            r == state@.get_component(self.owner_view(), id@, name@) is Some,
    {
        state.has_component(self.owner.as_str(), id, name)
    }

    /// The ids of this owner's entities that have every `required`
    /// component, in increasing order.
    pub fn query_entities(&self, state: &BridgeState, required: &[String]) -> (r: Vec<String>)
        requires
            state.wf(),
        ensures
            crate::name_map::keys_sorted(string_views(r@)),
            string_views(r@).to_set() == state@.query_ids(
                self.owner_view(), string_views(required@), Seq::empty(), Seq::empty()),
    {
        let none: Vec<String> = Vec::new();
        let r = self.query_entities_filtered(state, required, none.as_slice());
        proof {
            assert(string_views(none@) =~= Seq::<Seq<char>>::empty());
        }
        r
    }

    /// The ids of this owner's entities that have every `required` component
    /// and no `excluded` component, in increasing order.
    pub fn query_entities_filtered(&self, state: &BridgeState, required: &[String], excluded: &[String]) -> (r: Vec<String>)
        requires
            state.wf(),
        ensures
            crate::name_map::keys_sorted(string_views(r@)),
            string_views(r@).to_set() == state@.query_ids(
                self.owner_view(), string_views(required@), Seq::empty(), string_views(excluded@)),
    {
        let none: Vec<String> = Vec::new();
        let r = self.query_entities_matching(state, required, none.as_slice(), excluded);
        proof {
            assert(string_views(none@) =~= Seq::<Seq<char>>::empty());
        }
        r
    }

    /// The ids of this owner's entities that have every `required`
    /// component, at least one `any` component (unless `any` is empty) and no
    /// `excluded` component, in increasing order.
    pub fn query_entities_matching(
        &self,
        state: &BridgeState,
        required: &[String],
        any: &[String],
        excluded: &[String],
    ) -> (r: Vec<String>)
        requires
            state.wf(),
        ensures
            crate::name_map::keys_sorted(string_views(r@)),
            string_views(r@).to_set() == state@.query_ids(
                self.owner_view(), string_views(required@), string_views(any@), string_views(excluded@)),
    {
        state.query_entities_matching(self.owner.as_str(), required, any, excluded)
    }

    /// Inserts or replaces resource `name`.
    pub fn set_resource(&self, state: &mut BridgeState, name: String, value: EcsValue)
        requires
            old(state).wf(),
        ensures
            final(state).wf(),
            final(state)@ == old(state)@.set_resource(name@, value_model(value)),
    {
        state.set_resource(name, value);
    }

    /// A copy of resource `name`, if set.
    pub fn get_resource(&self, state: &BridgeState, name: &str) -> (r: Option<EcsValue>)
        ensures
            option_model(r) == state@.get_resource(name@),
    {
        state.get_resource(name)
    }

    /// Removes resource `name`; `false` when the name is invalid or unset.
    pub fn remove_resource(&self, state: &mut BridgeState, name: &str) -> (r: bool)
        requires
            old(state).wf(),
        ensures
            final(state).wf(),
            r == old(state)@.can_remove_resource(name@),
            final(state)@ == old(state)@.remove_resource(name@),
    {
        state.remove_resource(name)
    }

    /// Hands over the writes collected since the last call, and forgets them.
    pub fn take_changes(&self, state: &mut BridgeState) -> (r: EcsChanges)
        requires
            old(state).wf(),
        ensures
            final(state).wf(),
            changes_model(r) == old(state)@.changes(),
            final(state)@ == old(state)@.drained(),
            r.upsert_entities.inv(),
            r.removed_entities.inv(),
    {
        state.take_changes()
    }
}

} // verus!

verus! {

impl Default for EcsBridge {
    fn default() -> (r: Self)
        ensures
            r.owner_view() == Seq::<char>::empty(),
    {
        EcsBridge::new()
    }
}

impl Clone for EcsBridge {
    fn clone(&self) -> (r: Self)
        ensures
            r.owner_view() == self.owner_view(),
    {
        EcsBridge { owner: self.owner.clone() }
    }
}

} // verus!
