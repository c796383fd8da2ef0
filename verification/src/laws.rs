//! Properties that span several operations: of the bridge, and of values
//! passed between scripts and the host.

use vstd::prelude::*;
use crate::bridge::{names_valid, AttachmentKey, BridgeModel, ChangesModel};
use crate::entity_map::KeyView;
use crate::key::valid_key_spec;
use crate::convert::{
    fits_depth, is_lua_array, js_mirrors, js_value, lemma_fits_depth_model, lemma_js_items_in_order,
    lemma_js_mirror_reads_back, lemma_js_props_by_name, lemma_js_value_within, lemma_lua_array_slots,
    lemma_lua_object_fields, lemma_lua_value_within, lua_numbers_finite, lua_value, model_finite, prop_names,
    slot_of, string_keys_distinct, ErrorView, JsInput, LuaInput,
};
use crate::value::{value_model, EcsValue, ValueModel};
use crate::naming::{decimal, digit_char, owner_name};
use crate::launch::{engine_config_verdict, entry_matches_language_spec, is_white_space, trim_end, trim_start, trimmed, ConfigError};
use crate::script_path::{path_components, path_is_absolute, parts_view};
use crate::host::{sprite_asset_spec, sprite_kind_spec, SpriteKind};
use crate::script_path::{normalized_parts, PartView};
use crate::world::{despawned_keys, expected_commands, injective_map, kept, CommandModel};

verus! {

/// A spawned entity can be read back at once, with exactly the components it
/// was spawned with.
pub proof fn law_spawn_then_read(
    m: BridgeModel,
    owner: Seq<char>,
    id: Seq<char>,
    components: Map<Seq<char>, ValueModel>,
    name: Seq<char>,
)
    requires
        valid_key_spec(id),
        names_valid(components),
    ensures
        m.spawn(owner, id, components).entity_exists(owner, id),
        m.spawn(owner, id, components).get_component(owner, id, name) == (if components.contains_key(name) {
            Some(components[name])
        } else {
            None
        }),
{
}

/// A spawn with an invalid id or component name changes nothing.
pub proof fn law_invalid_spawn_ignored(
    m: BridgeModel,
    owner: Seq<char>,
    id: Seq<char>,
    components: Map<Seq<char>, ValueModel>,
)
    requires
        !valid_key_spec(id) || !names_valid(components),
    ensures
        m.spawn(owner, id, components) == m,
{
}

/// A component that was inserted is read back unchanged.
pub proof fn law_insert_then_get(m: BridgeModel, owner: Seq<char>, id: Seq<char>, name: Seq<char>, value: ValueModel)
    requires
        m.can_insert_component(owner, id, name),
    ensures
        m.insert_component(owner, id, name, value).get_component(owner, id, name) == Some(value),
{
}

/// Inserting a component leaves every other component of every entity as it was.
pub proof fn law_insert_keeps_others(
    m: BridgeModel,
    owner: Seq<char>,
    id: Seq<char>,
    name: Seq<char>,
    value: ValueModel,
    other_owner: Seq<char>,
    other_id: Seq<char>,
    other_name: Seq<char>,
)
    requires
        (owner, id, name) != (other_owner, other_id, other_name),
    ensures
        m.insert_component(owner, id, name, value).get_component(other_owner, other_id, other_name)
            == m.get_component(other_owner, other_id, other_name),
{
}

/// A removed component is gone, and removing leaves every other component as
/// it was.
pub proof fn law_remove_then_get(
    m: BridgeModel,
    owner: Seq<char>,
    id: Seq<char>,
    name: Seq<char>,
    other_owner: Seq<char>,
    other_id: Seq<char>,
    other_name: Seq<char>,
)
    requires
        valid_key_spec(id),
        valid_key_spec(name),
    ensures
        m.remove_component(owner, id, name).get_component(owner, id, name) is None,
        (owner, id, name) != (other_owner, other_id, other_name) ==>
            m.remove_component(owner, id, name).get_component(other_owner, other_id, other_name)
                == m.get_component(other_owner, other_id, other_name),
{
}

/// A despawned entity no longer exists, and no other entity is affected.
pub proof fn law_despawn(m: BridgeModel, owner: Seq<char>, id: Seq<char>, other_owner: Seq<char>, other_id: Seq<char>)
    ensures
        !m.despawn(owner, id).entity_exists(owner, id),
        (other_owner, other_id) != (owner, id) ==> m.despawn(owner, id).entity_exists(other_owner, other_id)
            == m.entity_exists(other_owner, other_id),
{
}

/// A resource that was set is read back unchanged; an invalid name changes nothing.
pub proof fn law_set_then_get_resource(m: BridgeModel, name: Seq<char>, value: ValueModel)
    ensures
        valid_key_spec(name) ==> m.set_resource(name, value).get_resource(name) == Some(value),
        !valid_key_spec(name) ==> m.set_resource(name, value) == m,
{
}

/// A removed resource is gone.
pub proof fn law_remove_then_get_resource(m: BridgeModel, name: Seq<char>)
    requires
        valid_key_spec(name),
    ensures
        m.remove_resource(name).get_resource(name) is None,
{
}

/// Clearing an owner's world destroys every entity of that owner, keeps every
/// entity of the other owners, and keeps the resources.
pub proof fn law_clear_world(m: BridgeModel, owner: Seq<char>, other: Seq<char>, id: Seq<char>, name: Seq<char>)
    ensures
        !m.clear_world(owner).entity_exists(owner, id),
        m.clear_world(owner).get_component(owner, id, name) is None,
        other != owner ==> m.clear_world(owner).entity_exists(other, id) == m.entity_exists(other, id),
        other != owner ==> m.clear_world(owner).get_component(other, id, name)
            == m.get_component(other, id, name),
        m.clear_world(owner).resources == m.resources,
{
}

/// What one owner does never changes the entities of another owner.
pub proof fn law_owners_isolated(
    m: BridgeModel,
    owner: Seq<char>,
    other: Seq<char>,
    id: Seq<char>,
    other_id: Seq<char>,
    name: Seq<char>,
    value: ValueModel,
    components: Map<Seq<char>, ValueModel>,
)
    requires
        owner != other,
    ensures
        m.spawn(owner, id, components).entities.restrict(owned_by(m.entities.dom(), other))
            == m.entities.restrict(owned_by(m.entities.dom(), other)),
        m.despawn(owner, id).entity_exists(other, other_id) == m.entity_exists(other, other_id),
        m.insert_component(owner, id, name, value).get_component(other, other_id, name)
            == m.get_component(other, other_id, name),
        m.remove_component(owner, id, name).get_component(other, other_id, name)
            == m.get_component(other, other_id, name),
        m.clear_world(owner).entity_exists(other, other_id) == m.entity_exists(other, other_id),
{
    assert(m.spawn(owner, id, components).entities.restrict(owned_by(m.entities.dom(), other))
        =~= m.entities.restrict(owned_by(m.entities.dom(), other)));
}

/// The keys of `keys` that belong to `owner`.
pub open spec fn owned_by(keys: Set<KeyView>, owner: Seq<char>) -> Set<KeyView> {
    keys.filter(|k: KeyView| k.0 == owner)
}

/// Every operation keeps a valid state valid.
pub proof fn law_operations_keep_valid(
    m: BridgeModel,
    owner: Seq<char>,
    id: Seq<char>,
    name: Seq<char>,
    value: ValueModel,
    components: Map<Seq<char>, ValueModel>,
    attachment: AttachmentKey,
)
    requires
        m.valid(),
    ensures
        m.clear_world(owner).valid(),
        m.spawn(owner, id, components).valid(),
        m.despawn(owner, id).valid(),
        m.insert_component(owner, id, name, value).valid(),
        m.remove_component(owner, id, name).valid(),
        m.set_resource(name, value).valid(),
        m.remove_resource(name).valid(),
        m.drained().valid(),
        m.attach(attachment).valid(),
{
    let a = m.attach(attachment);
    if !m.owners.contains_key(attachment) {
        assert forall|x: AttachmentKey| #[trigger] a.owners.contains_key(x) implies
            exists|k: nat| 1 <= k <= a.next_owner_id && a.owners[x] == #[trigger] crate::naming::owner_name(k) by {
            if x == attachment {
                assert(a.owners[x] == crate::naming::owner_name(a.next_owner_id));
            } else {
                let k = choose|k: nat| 1 <= k <= m.next_owner_id && m.owners[x] == #[trigger] crate::naming::owner_name(k);
                assert(a.owners[x] == crate::naming::owner_name(k));
            }
        }
        assert forall|x: AttachmentKey, y: AttachmentKey|
            #[trigger] a.owners.contains_key(x) && #[trigger] a.owners.contains_key(y) && x != y implies
            a.owners[x] != a.owners[y] by {
            if x == attachment || y == attachment {
                let z = if x == attachment { y } else { x };
                let k = choose|k: nat| 1 <= k <= m.next_owner_id && m.owners[z] == #[trigger] crate::naming::owner_name(k);
                if a.owners[x] == a.owners[y] {
                    crate::naming::lemma_owner_name_injective(k, m.next_owner_id + 1);
                }
            }
        }
    }
    let c = m.clear_world(owner);
    assert forall|k: KeyView| #[trigger] c.entities.contains_key(k) implies m.entities.contains_key(k) by {}
}

/// An attachment keeps the owner name it was first given, and two different
/// attachments never share an owner name.
pub proof fn law_attachment_owner_stable(m: BridgeModel, a: AttachmentKey, b: AttachmentKey)
    requires
        m.valid(),
    ensures
        m.attach(a).owner_for(a) == m.owner_for(a),
        m.attach(a).attach(a) == m.attach(a),
        a != b ==> m.attach(a).attach(b).owner_for(a) != m.attach(a).attach(b).owner_for(b),
{
    law_operations_keep_valid(m, Seq::empty(), Seq::empty(), Seq::empty(), ValueModel::Null, Map::empty(), a);
    let ma = m.attach(a);
    law_operations_keep_valid(ma, Seq::empty(), Seq::empty(), Seq::empty(), ValueModel::Null, Map::empty(), b);
    let mb = ma.attach(b);
    if a != b {
        assert(mb.owners.contains_key(a));
        assert(mb.owners.contains_key(b));
    }
}

/// After a hand-over nothing is pending, so a second hand-over is empty.
pub proof fn law_take_changes_drains(m: BridgeModel)
    ensures
        m.drained().changes().cleared_owners == Set::<Seq<char>>::empty(),
        m.drained().changes().upsert_entities == Map::<KeyView, Map<Seq<char>, ValueModel>>::empty(),
        m.drained().changes().removed_entities == Set::<KeyView>::empty(),
        m.drained().changes().resources is None,
        m.drained().entities == m.entities,
        m.drained().resources == m.resources,
{
    assert(m.drained().changes().upsert_entities =~= Map::<KeyView, Map<Seq<char>, ValueModel>>::empty());
}

/// Every write since the last hand-over is reported by the next one: an entity
/// spawned and still alive comes with its current components, a despawned one
/// as removed, and written resources in full.
pub proof fn law_changes_report_writes(
    m: BridgeModel,
    owner: Seq<char>,
    id: Seq<char>,
    components: Map<Seq<char>, ValueModel>,
    name: Seq<char>,
    value: ValueModel,
)
    requires
        valid_key_spec(id),
        names_valid(components),
    ensures
        m.spawn(owner, id, components).changes().upsert_entities.contains_key((owner, id)),
        m.spawn(owner, id, components).changes().upsert_entities[(owner, id)] == components,
        m.entity_exists(owner, id) ==> m.despawn(owner, id).changes().removed_entities.contains((owner, id)),
        m.entity_exists(owner, id) ==> !m.despawn(owner, id).changes().upsert_entities.contains_key((owner, id)),
        valid_key_spec(name) ==> m.set_resource(name, value).changes().resources == Some(m.resources.insert(name, value)),
        m.clear_world(owner).changes().cleared_owners.contains(owner),
{
}

/// The entities of a host world after it applied a hand-over: those of
/// cleared owners and despawned ones go, and every written entity takes the
/// components handed over.
pub open spec fn apply_changes(
    host: Map<KeyView, Map<Seq<char>, ValueModel>>,
    c: ChangesModel,
) -> Map<KeyView, Map<Seq<char>, ValueModel>> {
    host.restrict(host.dom().filter(|k: KeyView| !c.cleared_owners.contains(k.0) && !c.removed_entities.contains(k)))
        .union_prefer_right(c.upsert_entities)
}

/// Whether the pending writes of `m` bring a host world that holds `host`
/// to the entities of `m`.
pub open spec fn mirrors(m: BridgeModel, host: Map<KeyView, Map<Seq<char>, ValueModel>>) -> bool {
    apply_changes(host, m.changes()) == m.entities
}

/// The host world follows the scripts: after a hand-over the host holds the
/// entities the scripts see. A state with nothing pending is mirrored by its
/// own entities, and every operation keeps the pending writes enough to bring
/// the host world of the last hand-over to the current entities.
pub proof fn law_hand_over_mirrors(
    m: BridgeModel,
    host: Map<KeyView, Map<Seq<char>, ValueModel>>,
    owner: Seq<char>,
    id: Seq<char>,
    components: Map<Seq<char>, ValueModel>,
    name: Seq<char>,
    value: ValueModel,
    attachment: AttachmentKey,
)
    ensures
        mirrors(m.drained(), m.entities),
        mirrors(m, host) ==> mirrors(m.spawn(owner, id, components), host),
        mirrors(m, host) ==> mirrors(m.despawn(owner, id), host),
        mirrors(m, host) ==> mirrors(m.insert_component(owner, id, name, value), host),
        mirrors(m, host) ==> mirrors(m.remove_component(owner, id, name), host),
        mirrors(m, host) ==> mirrors(m.clear_world(owner), host),
        mirrors(m, host) ==> mirrors(m.set_resource(name, value), host),
        mirrors(m, host) ==> mirrors(m.remove_resource(name), host),
        mirrors(m, host) ==> mirrors(m.attach(attachment), host),
{
    let d = m.drained();
    assert(apply_changes(m.entities, d.changes()) =~= m.entities);
    if mirrors(m, host) {
        let k = (owner, id);
        let a = m.spawn(owner, id, components);
        assert(apply_changes(host, a.changes()) =~= a.entities) by {
            assert forall|j: KeyView| #[trigger] a.entities.contains_key(j) == apply_changes(host, a.changes()).contains_key(j) by {
                assert(m.entities.contains_key(j) == apply_changes(host, m.changes()).contains_key(j));
            }
            assert forall|j: KeyView| #[trigger] a.entities.contains_key(j) implies a.entities[j] == apply_changes(host, a.changes())[j] by {
                assert(m.entities.contains_key(j) ==> m.entities[j] == apply_changes(host, m.changes())[j]);
            }
        }
        let b = m.despawn(owner, id);
        assert(apply_changes(host, b.changes()) =~= b.entities) by {
            assert forall|j: KeyView| #[trigger] b.entities.contains_key(j) == apply_changes(host, b.changes()).contains_key(j) by {
                assert(m.entities.contains_key(j) == apply_changes(host, m.changes()).contains_key(j));
            }
            assert forall|j: KeyView| #[trigger] b.entities.contains_key(j) implies b.entities[j] == apply_changes(host, b.changes())[j] by {
                assert(m.entities.contains_key(j) ==> m.entities[j] == apply_changes(host, m.changes())[j]);
            }
        }
        let c = m.insert_component(owner, id, name, value);
        assert(apply_changes(host, c.changes()) =~= c.entities) by {
            assert forall|j: KeyView| #[trigger] c.entities.contains_key(j) == apply_changes(host, c.changes()).contains_key(j) by {
                assert(m.entities.contains_key(j) == apply_changes(host, m.changes()).contains_key(j));
            }
            assert forall|j: KeyView| #[trigger] c.entities.contains_key(j) implies c.entities[j] == apply_changes(host, c.changes())[j] by {
                assert(m.entities.contains_key(j) ==> m.entities[j] == apply_changes(host, m.changes())[j]);
            }
        }
        let r = m.remove_component(owner, id, name);
        assert(apply_changes(host, r.changes()) =~= r.entities) by {
            assert forall|j: KeyView| #[trigger] r.entities.contains_key(j) == apply_changes(host, r.changes()).contains_key(j) by {
                assert(m.entities.contains_key(j) == apply_changes(host, m.changes()).contains_key(j));
            }
            assert forall|j: KeyView| #[trigger] r.entities.contains_key(j) implies r.entities[j] == apply_changes(host, r.changes())[j] by {
                assert(m.entities.contains_key(j) ==> m.entities[j] == apply_changes(host, m.changes())[j]);
            }
        }
        let w = m.clear_world(owner);
        assert(apply_changes(host, w.changes()) =~= w.entities) by {
            assert forall|j: KeyView| #[trigger] w.entities.contains_key(j) == apply_changes(host, w.changes()).contains_key(j) by {
                assert(m.entities.contains_key(j) == apply_changes(host, m.changes()).contains_key(j));
            }
            assert forall|j: KeyView| #[trigger] w.entities.contains_key(j) implies w.entities[j] == apply_changes(host, w.changes())[j] by {
                assert(m.entities.contains_key(j) ==> m.entities[j] == apply_changes(host, m.changes())[j]);
            }
        }
        assert(m.set_resource(name, value).changes().upsert_entities == m.changes().upsert_entities);
        assert(m.remove_resource(name).changes().upsert_entities == m.changes().upsert_entities);
        assert(m.attach(attachment).changes() == m.changes());
    }
}

/// A hand-over plan brings the host world to `apply_changes`: every entity
/// the host keeps stays registered (and takes the written components when it
/// was written), every entity the host gains is spawned with the written
/// components, and every registered entity the host loses is despawned.
pub proof fn law_plan_follows_hand_over(
    reg: Map<KeyView, u64>,
    c: ChangesModel,
    host: Map<KeyView, Map<Seq<char>, ValueModel>>,
    k: KeyView,
)
    requires
        reg.dom() == host.dom(),
    ensures
        apply_changes(host, c).contains_key(k) <==> kept(reg, c).contains_key(k) || c.upsert_entities.contains_key(k),
        kept(reg, c).contains_key(k) && c.upsert_entities.contains_key(k) ==>
            expected_commands(reg, c).contains(CommandModel::Insert(reg[k], c.upsert_entities[k])),
        kept(reg, c).contains_key(k) && !c.upsert_entities.contains_key(k) ==> apply_changes(host, c)[k] == host[k],
        !kept(reg, c).contains_key(k) && c.upsert_entities.contains_key(k) ==>
            expected_commands(reg, c).contains(CommandModel::Spawn(k, c.upsert_entities[k])),
        reg.contains_key(k) && !apply_changes(host, c).contains_key(k) ==>
            expected_commands(reg, c).contains(CommandModel::Despawn(reg[k])),
{
    if reg.contains_key(k) && !apply_changes(host, c).contains_key(k) {
        assert(despawned_keys(reg, c).contains(k));
    }
}

/// The registry stays one-to-one: a hand-over keeps it so, and so does
/// recording a host entity that no other script entity has.
pub proof fn law_registry_one_to_one(reg: Map<KeyView, u64>, c: ChangesModel, k: KeyView, entity: u64)
    requires
        injective_map(reg),
    ensures
        injective_map(kept(reg, c)),
        (forall|j: KeyView| #[trigger] kept(reg, c).contains_key(j) && j != k ==> kept(reg, c)[j] != entity)
            ==> injective_map(kept(reg, c).insert(k, entity)),
{
}

/// What a Lua script hands over meets the limits on values sent back to a
/// script: it lies within the nesting limit, and holds only finite numbers
/// when the script's integers do.
pub proof fn law_lua_values_within_limits(v: LuaInput, e: EcsValue)
    requires
        lua_value(v, 0) is Ok,
        value_model(e) == lua_value(v, 0)->Ok_0,
    ensures
        fits_depth(e, 0),
        lua_numbers_finite(v) ==> model_finite(value_model(e)),
{
    lemma_lua_value_within(v, 0);
    lemma_fits_depth_model(e, 0);
}

/// What a JavaScript script hands over meets the limits on values sent back
/// to a script: it lies within the nesting limit and holds only finite
/// numbers.
pub proof fn law_js_values_within_limits(v: JsInput, e: EcsValue)
    requires
        js_value(v, 0) is Ok,
        value_model(e) == js_value(v, 0)->Ok_0,
    ensures
        fits_depth(e, 0),
        model_finite(value_model(e)),
{
    lemma_js_value_within(v, 0);
    lemma_fits_depth_model(e, 0);
}

/// A value handed to a JavaScript script reads back unchanged: the value
/// the library hands over for it (see `ecs_to_js_input`) converts back to
/// the same content, when it meets the limits on values sent to scripts
/// (nesting within the limit, finite numbers).
pub proof fn law_js_values_round_trip(e: EcsValue, j: JsInput)
    requires
        js_mirrors(j, value_model(e)),
        fits_depth(e, 0),
        model_finite(value_model(e)),
    ensures
        js_value(j, 0) == Ok::<ValueModel, ErrorView>(value_model(e)),
{
    lemma_fits_depth_model(e, 0);
    lemma_js_mirror_reads_back(j, value_model(e), 0);
}

/// A query returns exactly this owner's entities that have every required
/// component, at least one of the `any` components (when `any` is not
/// empty), and none of the excluded ones.
pub proof fn law_query_ids_exact(
    m: BridgeModel,
    owner: Seq<char>,
    required: Seq<Seq<char>>,
    any: Seq<Seq<char>>,
    excluded: Seq<Seq<char>>,
    id: Seq<char>,
)
    ensures
        m.query_ids(owner, required, any, excluded).contains(id) <==> {
            &&& m.entities.contains_key((owner, id))
            &&& forall|i: int| 0 <= i < required.len() ==> m.entities[(owner, id)].contains_key(#[trigger] required[i])
            &&& (any.len() == 0 || exists|i: int| 0 <= i < any.len() && m.entities[(owner, id)].contains_key(#[trigger] any[i]))
            &&& forall|i: int| 0 <= i < excluded.len() ==> !m.entities[(owner, id)].contains_key(#[trigger] excluded[i])
        },
{
}

/// Asking for more components, or excluding more, never adds a result: a
/// query's results shrink as its required or excluded names grow.
pub proof fn law_query_narrows(
    m: BridgeModel,
    owner: Seq<char>,
    required: Seq<Seq<char>>,
    more_required: Seq<Seq<char>>,
    any: Seq<Seq<char>>,
    excluded: Seq<Seq<char>>,
    more_excluded: Seq<Seq<char>>,
)
    requires
        forall|i: int| 0 <= i < required.len() ==> more_required.contains(#[trigger] required[i]),
        forall|i: int| 0 <= i < excluded.len() ==> more_excluded.contains(#[trigger] excluded[i]),
    ensures
        m.query_ids(owner, more_required, any, excluded).subset_of(m.query_ids(owner, required, any, excluded)),
        m.query_ids(owner, required, any, more_excluded).subset_of(m.query_ids(owner, required, any, excluded)),
{
    assert forall|id: Seq<char>| #[trigger] m.query_ids(owner, more_required, any, excluded).contains(id)
        implies m.query_ids(owner, required, any, excluded).contains(id) by {
        law_query_ids_exact(m, owner, more_required, any, excluded, id);
        law_query_ids_exact(m, owner, required, any, excluded, id);
        assert forall|i: int| 0 <= i < required.len() implies m.entities[(owner, id)].contains_key(#[trigger] required[i]) by {
            let j = choose|j: int| 0 <= j < more_required.len() && more_required[j] == required[i];
            assert(m.entities[(owner, id)].contains_key(more_required[j]));
        }
    }
    assert forall|id: Seq<char>| #[trigger] m.query_ids(owner, required, any, more_excluded).contains(id)
        implies m.query_ids(owner, required, any, excluded).contains(id) by {
        law_query_ids_exact(m, owner, required, any, more_excluded, id);
        law_query_ids_exact(m, owner, required, any, excluded, id);
        assert forall|i: int| 0 <= i < excluded.len() implies !m.entities[(owner, id)].contains_key(#[trigger] excluded[i]) by {
            let j = choose|j: int| 0 <= j < more_excluded.len() && more_excluded[j] == excluded[i];
            assert(!m.entities[(owner, id)].contains_key(more_excluded[j]));
        }
    }
}

/// A Lua scalar within the nesting limit converts to the same value: `nil`
/// to null, a boolean to itself, an integer to its `f64`, a string to its
/// text, and a float to itself when finite (an error otherwise); and Lua and
/// JavaScript agree on every scalar they share.
pub proof fn law_lua_scalars_keep_their_value(b: bool, bits: u64, value: i64, number: u64, s: String, depth: nat)
    requires
        depth <= 32,
    ensures
        lua_value(LuaInput::Nil, depth) == Ok::<ValueModel, ErrorView>(ValueModel::Null),
        lua_value(LuaInput::Boolean(b), depth) == Ok::<ValueModel, ErrorView>(ValueModel::Bool(b)),
        lua_value(LuaInput::Integer { value, number }, depth) == Ok::<ValueModel, ErrorView>(ValueModel::Number(number)),
        lua_value(LuaInput::String(s), depth) == Ok::<ValueModel, ErrorView>(ValueModel::Str(s@)),
        (bits >> 52u64) & 0x7ffu64 != 0x7ffu64 ==>
            lua_value(LuaInput::Number(bits), depth) == Ok::<ValueModel, ErrorView>(ValueModel::Number(bits)),
        (bits >> 52u64) & 0x7ffu64 == 0x7ffu64 ==>
            lua_value(LuaInput::Number(bits), depth) == Err::<ValueModel, ErrorView>(ErrorView::NotFinite),
        lua_value(LuaInput::Nil, depth) == js_value(JsInput::Null, depth),
        lua_value(LuaInput::Boolean(b), depth) == js_value(JsInput::Bool(b), depth),
        lua_value(LuaInput::Number(bits), depth) == js_value(JsInput::Number(bits), depth),
        lua_value(LuaInput::String(s), depth) == js_value(JsInput::String(s), depth),
{
}

/// Whether a host that holds `host` resources comes to hold the resources of
/// `m` by applying the pending hand-over: the whole map when it changed,
/// nothing otherwise.
pub open spec fn mirrors_resources(m: BridgeModel, host: Map<Seq<char>, ValueModel>) -> bool {
    match m.changes().resources {
        Some(r) => r == m.resources,
        None => host == m.resources,
    }
}

/// Resources reach the host: a state with nothing pending is mirrored by its
/// own resources, every operation keeps the pending hand-over enough to bring
/// the host's resources of the last hand-over to the current ones, and in
/// particular a removed resource is handed over as gone.
pub proof fn law_resources_hand_over(
    m: BridgeModel,
    host: Map<Seq<char>, ValueModel>,
    owner: Seq<char>,
    id: Seq<char>,
    components: Map<Seq<char>, ValueModel>,
    name: Seq<char>,
    value: ValueModel,
    attachment: AttachmentKey,
)
    ensures
        mirrors_resources(m.drained(), m.resources),
        valid_key_spec(name) && m.resources.contains_key(name) ==>
            m.remove_resource(name).changes().resources == Some(m.resources.remove(name)),
        valid_key_spec(name) ==> m.set_resource(name, value).changes().resources == Some(m.resources.insert(name, value)),
        mirrors_resources(m, host) ==> mirrors_resources(m.set_resource(name, value), host),
        mirrors_resources(m, host) ==> mirrors_resources(m.remove_resource(name), host),
        mirrors_resources(m, host) ==> mirrors_resources(m.spawn(owner, id, components), host),
        mirrors_resources(m, host) ==> mirrors_resources(m.despawn(owner, id), host),
        mirrors_resources(m, host) ==> mirrors_resources(m.insert_component(owner, id, name, value), host),
        mirrors_resources(m, host) ==> mirrors_resources(m.remove_component(owner, id, name), host),
        mirrors_resources(m, host) ==> mirrors_resources(m.clear_world(owner), host),
        mirrors_resources(m, host) ==> mirrors_resources(m.attach(attachment), host),
{
}

/// The entry script keeps every component after the stripped prefix: an
/// absolute path loses the asset root and nothing else, a relative path
/// loses a leading `assets` and nothing else, and another relative path is
/// kept whole; a path that climbs with `..` is refused.
pub proof fn law_script_path_keeps_the_rest(
    root_parts: Seq<PartView>,
    assets_parts: Seq<PartView>,
    rest: Seq<PartView>,
    root: Seq<char>,
)
    ensures
        rest.len() > 0 && !rest.contains(PartView::ParentDir) ==> {
            &&& normalized_parts(root_parts + rest, true, root_parts, assets_parts, root)
                == Ok::<Seq<PartView>, Seq<char>>(rest)
            &&& normalized_parts(assets_parts + rest, false, root_parts, assets_parts, root)
                == Ok::<Seq<PartView>, Seq<char>>(rest)
            &&& !(assets_parts.len() <= rest.len() && rest.subrange(0, assets_parts.len() as int) == assets_parts) ==>
                normalized_parts(rest, false, root_parts, assets_parts, root) == Ok::<Seq<PartView>, Seq<char>>(rest)
        },
        rest.contains(PartView::ParentDir) ==> {
            &&& normalized_parts(root_parts + rest, true, root_parts, assets_parts, root)
                == Err::<Seq<PartView>, Seq<char>>("script path must point to a file inside the asset directory"@)
            &&& normalized_parts(assets_parts + rest, false, root_parts, assets_parts, root)
                == Err::<Seq<PartView>, Seq<char>>("script path must point to a file inside the asset directory"@)
        },
{
    assert((root_parts + rest).take(root_parts.len() as int) =~= root_parts);
    assert((root_parts + rest).skip(root_parts.len() as int) =~= rest);
    assert((assets_parts + rest).take(assets_parts.len() as int) =~= assets_parts);
    assert((assets_parts + rest).skip(assets_parts.len() as int) =~= rest);
    assert(rest.take(assets_parts.len() as int) == rest.subrange(0, assets_parts.len() as int));
}

/// Each sprite kind the host knows is drawn with its own image,
/// `sprites/<kind>.png`, and any other kind with the bullet image; the known
/// kinds are told apart and never taken for an unknown one.
pub proof fn law_known_sprites_have_their_own_image(k: Seq<char>, other: Seq<char>)
    ensures
        k == "player"@ || k == "enemy"@ || k == "bullet"@ ==> {
            &&& sprite_asset_spec(sprite_kind_spec(k)) == "sprites/"@ + k + ".png"@
            &&& sprite_kind_spec(k) != SpriteKind::Unknown
        },
        !(k == "player"@ || k == "enemy"@ || k == "bullet"@) ==> {
            &&& sprite_asset_spec(sprite_kind_spec(k)) == "sprites/bullet.png"@
            &&& sprite_kind_spec(k) == SpriteKind::Unknown
        },
        (k == "player"@ || k == "enemy"@ || k == "bullet"@) && (other == "player"@ || other == "enemy"@ || other == "bullet"@)
            && sprite_kind_spec(k) == sprite_kind_spec(other) ==> k == other,
{
    reveal_strlit("player");
    reveal_strlit("enemy");
    reveal_strlit("bullet");
    reveal_strlit("sprites/");
    reveal_strlit(".png");
    reveal_strlit("sprites/player.png");
    reveal_strlit("sprites/enemy.png");
    reveal_strlit("sprites/bullet.png");
    if k == "player"@ {
        assert("sprites/"@ + k + ".png"@ =~= "sprites/player.png"@);
    } else if k == "enemy"@ {
        assert("sprites/"@ + k + ".png"@ =~= "sprites/enemy.png"@);
    } else if k == "bullet"@ {
        assert("sprites/"@ + k + ".png"@ =~= "sprites/bullet.png"@);
    }
}

/// A Lua table converts entry by entry: an array table (keys exactly
/// `1..=n`) becomes an array of `n` items whose item `k - 1` is what the
/// value under key `k` converts to, and any other table becomes an object
/// whose fields are exactly its string keys, each holding what its value
/// converts to. A table never holds a key twice.
pub proof fn law_lua_tables_convert_entry_by_entry(t: Vec<(LuaInput, LuaInput)>, depth: nat)
    requires
        forall|a: int, b: int| 0 <= a < b < t@.len() && (#[trigger] t@[a].0) is Integer && (#[trigger] t@[b].0) is Integer
            ==> slot_of(t@[a].0) != slot_of(t@[b].0),
        string_keys_distinct(t@),
        lua_value(LuaInput::Table(t), depth) is Ok,
    ensures
        is_lua_array(t@) ==> {
            &&& lua_value(LuaInput::Table(t), depth)->Ok_0 is Array
            &&& lua_value(LuaInput::Table(t), depth)->Ok_0->Array_0.len() == t@.len()
            &&& forall|j: int| 0 <= j < t@.len() ==> {
                &&& 0 <= slot_of((#[trigger] t@[j]).0) < t@.len()
                &&& lua_value(t@[j].1, depth + 1) is Ok
                &&& lua_value(LuaInput::Table(t), depth)->Ok_0->Array_0[slot_of(t@[j].0)] == lua_value(t@[j].1, depth + 1)->Ok_0
            }
        },
        !is_lua_array(t@) ==> {
            &&& lua_value(LuaInput::Table(t), depth)->Ok_0 is Object
            &&& forall|j: int| 0 <= j < t@.len() ==> {
                &&& (#[trigger] t@[j]).0 is String
                &&& lua_value(t@[j].1, depth + 1) is Ok
                &&& lua_value(LuaInput::Table(t), depth)->Ok_0->Object_0.contains_key(t@[j].0->String_0@)
                &&& lua_value(LuaInput::Table(t), depth)->Ok_0->Object_0[t@[j].0->String_0@] == lua_value(t@[j].1, depth + 1)->Ok_0
            }
            &&& forall|k: Seq<char>| #[trigger] lua_value(LuaInput::Table(t), depth)->Ok_0->Object_0.contains_key(k) ==>
                exists|j: int| 0 <= j < t@.len() && (#[trigger] t@[j].0) is String && t@[j].0->String_0@ == k
        },
{
    let e = t@;
    if is_lua_array(e) {
        let n = e.len();
        assert forall|j: int| 0 <= j < e.len() implies (#[trigger] e[j]).0 is Integer && 0 <= slot_of(e[j].0) < n by {
            assert(match e[j].0 {
                LuaInput::Integer { value, number } => 0 < value && value <= n,
                _ => false,
            });
        }
        assert forall|a: int, b: int| 0 <= a < b < e.len() implies slot_of(#[trigger] e[a].0) != slot_of(#[trigger] e[b].0) by {
            assert(e[a].0 is Integer && e[b].0 is Integer);
        }
        assert forall|j: int| 0 <= j < e.len() implies 0 <= #[trigger] slot_of(e[j].0) < n by {
            assert(e[j].0 is Integer);
        }
        lemma_lua_array_slots(e, depth + 1, n);
    } else {
        lemma_lua_object_fields(e, depth + 1);
    }
}

/// A JavaScript array converts item by item, in order, and an object whose
/// property names are distinct converts property by property: its fields
/// are exactly those names, each holding what its property converts to.
pub proof fn law_js_containers_convert_part_by_part(items: Vec<JsInput>, props: Vec<(String, JsInput)>, depth: nat)
    ensures
        js_value(JsInput::Array(items), depth) is Ok ==> {
            &&& js_value(JsInput::Array(items), depth)->Ok_0 is Array
            &&& js_value(JsInput::Array(items), depth)->Ok_0->Array_0.len() == items@.len()
            &&& forall|i: int| 0 <= i < items@.len() ==> js_value(#[trigger] items@[i], depth + 1)
                == Ok::<ValueModel, ErrorView>(js_value(JsInput::Array(items), depth)->Ok_0->Array_0[i])
        },
        js_value(JsInput::Object(props), depth) is Ok && prop_names(props@).no_duplicates() ==> {
            &&& js_value(JsInput::Object(props), depth)->Ok_0 is Object
            &&& js_value(JsInput::Object(props), depth)->Ok_0->Object_0.dom() == prop_names(props@).to_set()
            &&& forall|i: int| 0 <= i < props@.len() ==> js_value((#[trigger] props@[i]).1, depth + 1)
                == Ok::<ValueModel, ErrorView>(js_value(JsInput::Object(props), depth)->Ok_0->Object_0[props@[i].0@])
        },
{
    if js_value(JsInput::Array(items), depth) is Ok {
        lemma_js_items_in_order(items@, depth + 1);
    }
    if js_value(JsInput::Object(props), depth) is Ok && prop_names(props@).no_duplicates() {
        lemma_js_props_by_name(props@, depth + 1);
    }
}

/// The number a string of decimal digits stands for, read left to right.
pub open spec fn digits_value(s: Seq<char>) -> int
    decreases s.len(),
{
    if s.len() == 0 {
        0
    } else {
        digits_value(s.drop_last()) * 10 + (s.last() as int - '0' as int)
    }
}

proof fn lemma_digit_char_value(d: nat)
    requires
        d < 10,
    ensures
        digit_char(d) as int - '0' as int == d,
        '0' <= digit_char(d) <= '9',
{
}

/// Owner names read back: `script-` followed by the decimal digits of the
/// script's number, most significant first, with no leading zero; reading
/// those digits gives the number again.
pub proof fn law_owner_names_read_back(n: nat)
    ensures
        owner_name(n) == "script-"@ + decimal(n),
        digits_value(decimal(n)) == n,
        forall|i: int| 0 <= i < decimal(n).len() ==> '0' <= #[trigger] decimal(n)[i] <= '9',
        decimal(n).len() > 0,
        n > 0 ==> decimal(n)[0] != '0',
    decreases n,
{
    reveal_strlit("script-");
    assert(owner_name(n) =~= "script-"@ + decimal(n));
    if n < 10 {
        lemma_digit_char_value(n);
        assert(decimal(n).drop_last() =~= Seq::<char>::empty());
        assert(digits_value(Seq::<char>::empty()) == 0);
        assert(digits_value(decimal(n)) == digits_value(decimal(n).drop_last()) * 10 + (decimal(n).last() as int - '0' as int));
    } else {
        law_owner_names_read_back(n / 10);
        lemma_digit_char_value(n % 10);
        assert(decimal(n).drop_last() =~= decimal(n / 10));
        assert(decimal(n)[0] == decimal(n / 10)[0]);
        assert(digits_value(decimal(n)) == digits_value(decimal(n).drop_last()) * 10 + (decimal(n).last() as int - '0' as int));
        assert(n == (n / 10) * 10 + n % 10);
        assert forall|i: int| 0 <= i < decimal(n).len() implies '0' <= #[trigger] decimal(n)[i] <= '9' by {
            if i < decimal(n).len() - 1 {
                assert(decimal(n)[i] == decimal(n / 10)[i]);
            }
        }
    }
}

/// An entry script's extension suits its language exactly when a Lua game
/// starts from a `.lua` file or a JavaScript or TypeScript game from a
/// `.js` or `.mjs` file: the two families never accept each other's files,
/// and no other language or extension is ever accepted.
pub proof fn law_entry_extension_by_language(language: Seq<char>, extension: Seq<char>)
    ensures
        entry_matches_language_spec("lua"@, "lua"@),
        entry_matches_language_spec("js"@, "js"@),
        entry_matches_language_spec("js"@, "mjs"@),
        entry_matches_language_spec("typescript"@, "js"@),
        entry_matches_language_spec("typescript"@, "mjs"@),
        !entry_matches_language_spec("lua"@, "js"@),
        !entry_matches_language_spec("lua"@, "mjs"@),
        !entry_matches_language_spec("js"@, "lua"@),
        !entry_matches_language_spec("typescript"@, "lua"@),
        entry_matches_language_spec(language, extension) ==>
            (language == "lua"@ || language == "js"@ || language == "typescript"@)
            && (extension == "lua"@ || extension == "js"@ || extension == "mjs"@),
        entry_matches_language_spec(language, extension) ==> (language == "lua"@ <==> extension == "lua"@),
{
    reveal_strlit("lua");
    reveal_strlit("js");
    reveal_strlit("mjs");
    reveal_strlit("typescript");
    assert("lua"@.len() != "js"@.len() && "lua"@[0] != "mjs"@[0] && "js"@.len() != "mjs"@.len());
    assert("lua"@.len() != "typescript"@.len() && "js"@.len() != "typescript"@.len());
}

proof fn lemma_trim_start(s: Seq<char>)
    ensures
        trim_start(s).len() == 0 <==> forall|i: int| 0 <= i < s.len() ==> is_white_space(#[trigger] s[i]),
        trim_start(s).len() > 0 ==> !is_white_space(trim_start(s)[0]),
    decreases s.len(),
{
    if s.len() > 0 && is_white_space(s[0]) {
        lemma_trim_start(s.drop_first());
        assert forall|i: int| 0 <= i < s.len() && (forall|j: int| 0 <= j < s.drop_first().len() ==> is_white_space(#[trigger] s.drop_first()[j]))
            implies is_white_space(#[trigger] s[i]) by {
            if i > 0 {
                assert(s[i] == s.drop_first()[i - 1]);
            }
        }
        assert((forall|i: int| 0 <= i < s.len() ==> is_white_space(#[trigger] s[i]))
            ==> forall|j: int| 0 <= j < s.drop_first().len() ==> is_white_space(#[trigger] s.drop_first()[j])) by {
            assert forall|j: int| 0 <= j < s.drop_first().len() && (forall|i: int| 0 <= i < s.len() ==> is_white_space(#[trigger] s[i]))
                implies is_white_space(#[trigger] s.drop_first()[j]) by {
                assert(s.drop_first()[j] == s[j + 1]);
            }
        }
    } else if s.len() > 0 {
        assert(!is_white_space(s[0]));
    }
}

proof fn lemma_trim_end_keeps_first(t: Seq<char>)
    requires
        t.len() > 0,
        !is_white_space(t[0]),
    ensures
        trim_end(t).len() > 0,
    decreases t.len(),
{
    if is_white_space(t.last()) {
        assert(t.len() >= 2);
        assert(t.drop_last()[0] == t[0]);
        lemma_trim_end_keeps_first(t.drop_last());
    }
}

/// A text is blank after trimming exactly when every character of it is
/// white space.
pub proof fn lemma_trimmed_blank(s: Seq<char>)
    ensures
        trimmed(s).len() == 0 <==> forall|i: int| 0 <= i < s.len() ==> is_white_space(#[trigger] s[i]),
{
    lemma_trim_start(s);
    if trim_start(s).len() > 0 {
        lemma_trim_end_keeps_first(trim_start(s));
    } else {
        assert(trim_end(trim_start(s)) == trim_start(s));
    }
}

/// A game's configuration is accepted exactly when its schema version is 1,
/// its name and version each hold a character other than white space, and
/// its entry script is a relative path that never climbs with `..` and names
/// a file; a wrong schema version is reported before anything else, and a
/// name or version made only of white space before the entry is looked at.
pub proof fn law_engine_config_accepts(
    schema_version: u32,
    name: Seq<char>,
    version: Seq<char>,
    entry: Seq<char>,
    entry_is_file: bool,
)
    ensures
        engine_config_verdict(schema_version, name, version, entry, entry_is_file) is Ok <==> {
            &&& schema_version == 1
            &&& exists|i: int| 0 <= i < name.len() && !is_white_space(#[trigger] name[i])
            &&& exists|i: int| 0 <= i < version.len() && !is_white_space(#[trigger] version[i])
            &&& !path_is_absolute(entry)
            &&& !parts_view(path_components(entry)).contains(PartView::ParentDir)
            &&& entry_is_file
        },
        schema_version != 1 ==> engine_config_verdict(schema_version, name, version, entry, entry_is_file)
            == Err::<(), ConfigError>(ConfigError::UnsupportedSchema(schema_version)),
        schema_version == 1 && (forall|i: int| 0 <= i < name.len() ==> is_white_space(#[trigger] name[i]))
            ==> engine_config_verdict(schema_version, name, version, entry, entry_is_file)
                == Err::<(), ConfigError>(ConfigError::BlankNameOrVersion),
        schema_version == 1 && (forall|i: int| 0 <= i < version.len() ==> is_white_space(#[trigger] version[i]))
            ==> engine_config_verdict(schema_version, name, version, entry, entry_is_file)
                == Err::<(), ConfigError>(ConfigError::BlankNameOrVersion),
{
    lemma_trimmed_blank(name);
    lemma_trimmed_blank(version);
}

} // verus!
