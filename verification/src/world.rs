//! How the collected script writes reach the host world: which host entities
//! to despawn, which to update and which to spawn.

use vstd::prelude::*;
use crate::bridge::{changes_model, ChangesModel, ComponentMap, EcsChanges, ResourceMap};
use crate::entity_map::{EntityMap, KeyView};
use crate::name_map::NameMap;
use crate::value::{duplicate_fields, fields_model, EcsValue, ValueModel};

verus! {

/// One change to the host world.
pub enum WorldCommand {
    /// Despawn the host entity with these bits.
    Despawn(u64),
    /// Replace the script components of the host entity with these bits.
    Insert(u64, ComponentMap),
    /// Spawn a host entity for a script entity, then record it with
    /// [`ScriptEntityRegistry::record_spawn`].
    Spawn { owner: String, id: String, components: ComponentMap },
}

/// The content of a command.
pub enum CommandModel {
    Despawn(u64),
    Insert(u64, Map<Seq<char>, ValueModel>),
    Spawn(KeyView, Map<Seq<char>, ValueModel>),
}

/// The content of a command.
pub open spec fn command_model(c: WorldCommand) -> CommandModel {
    match c {
        WorldCommand::Despawn(e) => CommandModel::Despawn(e),
        WorldCommand::Insert(e, m) => CommandModel::Insert(e, fields_model(m)),
        WorldCommand::Spawn { owner, id, components } => CommandModel::Spawn((owner@, id@), fields_model(components)),
    }
}

/// Everything the host has to do for one hand-over.
pub struct WorldPlan {
    /// Entity changes, in no particular order.
    pub commands: Vec<WorldCommand>,
    /// The new resources, when they changed.
    pub resources: Option<ResourceMap>,
}

/// The registry keys whose host entity goes: those of a cleared owner and
/// those despawned.
pub open spec fn despawned_keys(reg: Map<KeyView, u64>, c: ChangesModel) -> Set<KeyView> {
    reg.dom().filter(|k: KeyView| c.cleared_owners.contains(k.0) || c.removed_entities.contains(k))
}

/// The registry after a hand-over, before new host entities are recorded.
pub open spec fn kept(reg: Map<KeyView, u64>, c: ChangesModel) -> Map<KeyView, u64> {
    reg.remove_keys(despawned_keys(reg, c))
}

/// The commands a hand-over calls for.
pub open spec fn expected_commands(reg: Map<KeyView, u64>, c: ChangesModel) -> Set<CommandModel> {
    Set::new(|cmd: CommandModel| match cmd {
        CommandModel::Despawn(e) => exists|k: KeyView| #[trigger] despawned_keys(reg, c).contains(k) && reg[k] == e,
        CommandModel::Insert(e, m) => exists|k: KeyView| #[trigger] c.upsert_entities.contains_key(k)
            && kept(reg, c).contains_key(k) && kept(reg, c)[k] == e && c.upsert_entities[k] == m,
        CommandModel::Spawn(k, m) => c.upsert_entities.contains_key(k) && !kept(reg, c).contains_key(k)
            && c.upsert_entities[k] == m,
    })
}

/// Whether no two script entities share a host entity.
pub open spec fn injective_map(reg: Map<KeyView, u64>) -> bool {
    forall|a: KeyView, b: KeyView|
        #[trigger] reg.contains_key(a) && #[trigger] reg.contains_key(b) && a != b ==> reg[a] != reg[b]
}

/// Whether no `Spawn` command occurs twice.
pub open spec fn spawns_unique(s: Seq<CommandModel>) -> bool {
    forall|i: int, j: int| 0 <= i < j < s.len() && (#[trigger] s[i]) is Spawn ==> s[i] != #[trigger] s[j]
}

/// The host entity of each script entity, by `(owner, id)`.
pub struct ScriptEntityRegistry {
    entities: EntityMap<u64>,
}

impl ScriptEntityRegistry {
    /// The registry as a map from `(owner, id)` to host entity bits.
    pub closed spec fn view(&self) -> Map<KeyView, u64> {
        self.entities@
    }

    /// The registry's invariant.
    pub closed spec fn wf(&self) -> bool {
        self.entities.inv()
    }

    /// An empty registry.
    pub fn new() -> (r: Self)
        ensures
            r.wf(),
            r@ == Map::<KeyView, u64>::empty(),
    {
        ScriptEntityRegistry { entities: EntityMap::new() }
    }

    /// The host entity of `(owner, id)`, if one was recorded.
    pub fn get(&self, owner: &str, id: &str) -> (r: Option<u64>)
        ensures
            r == (if self@.contains_key((owner@, id@)) { Some(self@[(owner@, id@)]) } else { None::<u64> }),
    {
        match self.entities.get(owner, id) {
            Some(e) => Some(*e),
            None => None,
        }
    }

    /// Records the host entity spawned for `(owner, id)`.
    pub fn record_spawn(&mut self, owner: &str, id: String, entity: u64)
        requires
            old(self).wf(),
        ensures
            final(self).wf(),
            final(self)@ == old(self)@.insert((owner@, id@), entity),
    {
        self.entities.insert(owner, id, entity);
    }
}

} // verus!

verus! {

/// The contents of a sequence of commands.
pub open spec fn command_models(s: Seq<WorldCommand>) -> Seq<CommandModel> {
    s.map_values(|c: WorldCommand| command_model(c))
}

impl ScriptEntityRegistry {
    /// Decides what one hand-over does to the host world: the host entities
    /// of cleared owners and despawned entities go (and leave the registry),
    /// written entities with a host entity get their components replaced, the
    /// others are spawned, and the resources are replaced when they changed.
    pub fn plan_writes(&mut self, changes: EcsChanges) -> (r: WorldPlan)
        requires
            old(self).wf(),
            changes.upsert_entities.inv(),
            changes.removed_entities.inv(),
        ensures
            final(self).wf(),
            final(self)@ == kept(old(self)@, changes_model(changes)),
            command_models(r.commands@).to_set() == expected_commands(old(self)@, changes_model(changes)),
            spawns_unique(command_models(r.commands@)),
            injective_map(old(self)@) ==> command_models(r.commands@).no_duplicates(),
            match r.resources {
                Some(m) => changes_model(changes).resources == Some(fields_model(m)),
                None => changes_model(changes).resources is None,
            },
    {
        let ghost reg0 = self@;
        let ghost cm = changes_model(changes);
        let ghost dk = despawned_keys(reg0, cm);
        let mut out: Vec<WorldCommand> = Vec::new();
        let mut kept_reg: EntityMap<u64> = EntityMap::new();
        let ghost mut done: Set<KeyView> = Set::empty();
        proof {
            self.entities.lemma_layout();
            assert(kept_reg@ =~= reg0.restrict(done.difference(dk)));
        }
        let owner_count = self.entities.owner_count();
        for oi in 0..owner_count
            invariant
                owner_count == self.entities.owner_seq().len(),
                self.entities.inv(),
                self@ == reg0,
                cm == changes_model(changes),
                dk == despawned_keys(reg0, cm),
                kept_reg.inv(),
                forall|p: KeyView| #[trigger] done.contains(p) ==> reg0.contains_key(p),
                forall|p: KeyView, k: int| 0 <= k < oi && reg0.contains_key(p) && p.0 == #[trigger] self.entities.owner_seq()[k] ==> #[trigger] done.contains(p),
                kept_reg@ == reg0.restrict(done.difference(dk)),
                forall|q: int| 0 <= q < out@.len() ==> (#[trigger] command_model(out@[q])) is Despawn,
                forall|e: u64| #[trigger] command_models(out@).contains(CommandModel::Despawn(e)) <==>
                    exists|k: KeyView| #[trigger] done.contains(k) && dk.contains(k) && reg0[k] == e,
                forall|p: KeyView| #[trigger] done.contains(p) ==>
                    exists|k: int| 0 <= k < oi && p.0 == self.entities.owner_seq()[k],
                injective_map(reg0) ==> command_models(out@).no_duplicates(),
        {
            let owner = self.entities.owner_at(oi);
            let ids = self.entities.inner_at(oi);
            proof {
                self.entities.lemma_layout();
                use_type_invariant(ids);
            }
            let id_count = ids.len();
            for j in 0..id_count
                invariant
                    owner_count == self.entities.owner_seq().len(),
                    oi < owner_count,
                    owner@ == self.entities.owner_seq()[oi as int],
                    self.entities.of_owner(owner@) == Some(*ids),
                    id_count == ids.key_seq().len(),
                    ids.wf(),
                    self.entities.inv(),
                    self@ == reg0,
                    cm == changes_model(changes),
                    dk == despawned_keys(reg0, cm),
                    kept_reg.inv(),
                    forall|p: KeyView| #[trigger] done.contains(p) ==> reg0.contains_key(p),
                    forall|p: KeyView, k: int| 0 <= k < oi && reg0.contains_key(p) && p.0 == #[trigger] self.entities.owner_seq()[k] ==> #[trigger] done.contains(p),
                    forall|p: KeyView, q: int| 0 <= q < j && p.0 == owner@ && p.1 == #[trigger] ids.key_seq()[q] ==> #[trigger] done.contains(p),
                    kept_reg@ == reg0.restrict(done.difference(dk)),
                    forall|q: int| 0 <= q < out@.len() ==> (#[trigger] command_model(out@[q])) is Despawn,
                    forall|e: u64| #[trigger] command_models(out@).contains(CommandModel::Despawn(e)) <==>
                        exists|k: KeyView| #[trigger] done.contains(k) && dk.contains(k) && reg0[k] == e,
                    forall|p: KeyView| #[trigger] done.contains(p) ==>
                        (exists|k: int| 0 <= k < oi && p.0 == self.entities.owner_seq()[k])
                        || (p.0 == owner@ && exists|q: int| 0 <= q < j && p.1 == ids.key_seq()[q]),
                    injective_map(reg0) ==> command_models(out@).no_duplicates(),
            {
                let id = ids.key_at(j);
                let entity = *ids.value_at(j);
                proof {
                    ids.lemma_unique(j as int);
                    self.entities.lemma_layout();
                }
                let ghost p: KeyView = (owner@, id@);
                let ghost old_out = out@;
                let ghost old_kept = kept_reg@;
                let ghost old_done = done;
                assert(reg0.contains_key(p) && reg0[p] == entity);
                proof {
                    lemma_fresh_key(self.entities.owner_seq(), oi as int, *ids, j as int, old_done, p);
                }
                let goes = changes.cleared_owners.contains_key(owner.as_str())
                    || changes.removed_entities.contains_key(owner.as_str(), id.as_str());
                assert(goes == dk.contains(p));
                if goes {
                    out.push(WorldCommand::Despawn(entity));
                } else {
                    kept_reg.insert(owner.as_str(), id.clone(), entity);
                }
                proof {
                    done = done.insert(p);
                    assert forall|x: KeyView| #[trigger] done.contains(x) implies
                        (exists|k: int| 0 <= k < oi && x.0 == self.entities.owner_seq()[k])
                        || (x.0 == owner@ && exists|q: int| 0 <= q < j + 1 && x.1 == ids.key_seq()[q]) by {
                        if x == p {
                            assert(x.1 == ids.key_seq()[j as int]);
                        }
                    }
                    if goes && injective_map(reg0) {
                        let olds = command_models(old_out);
                        if olds.contains(CommandModel::Despawn(entity)) {
                            let k = choose|k: KeyView| #[trigger] old_done.contains(k) && dk.contains(k) && reg0[k] == entity;
                            assert(reg0.contains_key(k));
                            assert(k == p);
                        }
                        lemma_push_no_duplicates(olds, CommandModel::Despawn(entity));
                    }
                    assert(kept_reg@ =~= reg0.restrict(done.difference(dk)));
                    assert(command_models(out@) =~= if goes {
                        command_models(old_out).push(CommandModel::Despawn(entity))
                    } else {
                        command_models(old_out)
                    });
                    assert forall|q: int| 0 <= q < out@.len() implies (#[trigger] command_model(out@[q])) is Despawn by {
                        if q < old_out.len() {
                            assert(out@[q] == old_out[q]);
                        }
                    }
                    let news = command_models(out@);
                    let olds = command_models(old_out);
                    assert forall|e: u64| #[trigger] command_models(out@).contains(CommandModel::Despawn(e)) <==>
                        exists|k: KeyView| #[trigger] done.contains(k) && dk.contains(k) && reg0[k] == e by {
                        let x = CommandModel::Despawn(e);
                        if news.contains(x) {
                            let q = choose|q: int| 0 <= q < news.len() && news[q] == x;
                            if q < olds.len() {
                                assert(olds[q] == x);
                                assert(olds.contains(x));
                                let k = choose|k: KeyView| #[trigger] old_done.contains(k) && dk.contains(k) && reg0[k] == e;
                                assert(done.contains(k));
                            } else {
                                assert(goes);
                                assert(e == entity);
                                assert(done.contains(p));
                            }
                        }
                        if exists|k: KeyView| #[trigger] done.contains(k) && dk.contains(k) && reg0[k] == e {
                            let k = choose|k: KeyView| #[trigger] done.contains(k) && dk.contains(k) && reg0[k] == e;
                            if k == p {
                                assert(goes);
                                assert(news[news.len() - 1] == x);
                            } else {
                                assert(old_done.contains(k));
                                assert(olds.contains(x));
                                let q = choose|q: int| 0 <= q < olds.len() && olds[q] == x;
                                assert(news[q] == x);
                            }
                        }
                    }
                }
            }
            proof {
                assert forall|p: KeyView| #[trigger] done.contains(p) implies
                    exists|k: int| 0 <= k < oi + 1 && p.0 == self.entities.owner_seq()[k] by {
                    if p.0 == owner@ {
                        assert(p.0 == self.entities.owner_seq()[oi as int]);
                    }
                }
                assert forall|p: KeyView, k: int| 0 <= k < oi + 1 && reg0.contains_key(p) && p.0 == #[trigger] self.entities.owner_seq()[k] implies #[trigger] done.contains(p) by {
                    if k == oi {
                        self.entities.lemma_layout();
                        assert(reg0.contains_key((p.0, p.1)));
                        let q = crate::name_map::index_of_key(ids.key_seq(), p.1);
                        assert(ids@.contains_key(p.1));
                        assert(p.1 == ids.key_seq()[q]);
                    }
                }
            }
        }
        proof {
            self.entities.lemma_layout();
            assert forall|p: KeyView| reg0.contains_key(p) implies #[trigger] done.contains(p) by {
                assert(reg0.contains_key((p.0, p.1)));
                assert(self.entities.owner_seq().contains(p.0));
                let k = crate::name_map::index_of_key(self.entities.owner_seq(), p.0);
                assert(self.entities.owner_seq()[k] == p.0);
            }
            assert(done =~= reg0.dom());
            assert(kept_reg@ =~= kept(reg0, cm));
        }
        self.entities = kept_reg;
        let ghost despawn_part = out@;
        self.plan_upserts(&changes.upsert_entities, &mut out);
        let resources = match changes.resources {
            Some(m) => Some(m),
            None => None,
        };
        proof {
            let all = command_models(out@);
            let cut = despawn_part.len() as int;
            let kr = kept(reg0, cm);
            assert(all.subrange(0, cut) =~= command_models(despawn_part));
            assert forall|c: CommandModel| #[trigger] all.to_set().contains(c) <==> expected_commands(reg0, cm).contains(c) by {
                if all.contains(c) {
                    let q = choose|q: int| 0 <= q < all.len() && all[q] == c;
                    if q >= cut {
                        assert(all.skip(cut)[q - cut] == c);
                        assert(all.skip(cut).contains(c));
                    } else {
                        assert(command_models(despawn_part)[q] == c);
                        assert(command_models(despawn_part).contains(c));
                    }
                }
                match c {
                    CommandModel::Despawn(e) => {
                        if expected_commands(reg0, cm).contains(c) {
                            assert(command_models(despawn_part).contains(c));
                            let q = choose|q: int| 0 <= q < command_models(despawn_part).len() && command_models(despawn_part)[q] == c;
                            assert(all[q] == c);
                        }
                        if all.skip(cut).contains(c) {
                            assert(!upsert_command(kr, cm.upsert_entities, c));
                        }
                    },
                    _ => {
                        if command_models(despawn_part).contains(c) {
                            let q = choose|q: int| 0 <= q < command_models(despawn_part).len() && command_models(despawn_part)[q] == c;
                            assert(command_model(despawn_part[q]) is Despawn);
                        }
                        if expected_commands(reg0, cm).contains(c) {
                            assert(upsert_command(kr, cm.upsert_entities, c));
                            assert(all.skip(cut).contains(c));
                            let q = choose|q: int| 0 <= q < all.skip(cut).len() && all.skip(cut)[q] == c;
                            assert(all[q + cut] == c);
                        }
                    },
                }
            }
            assert(all.to_set() =~= expected_commands(reg0, cm));
            let dpart = command_models(despawn_part);
            let upart = all.skip(cut);
            assert forall|q: int| 0 <= q < upart.len() implies !((#[trigger] upart[q]) is Despawn) by {
                assert(upart.contains(upart[q]));
                assert(upsert_command(kr, cm.upsert_entities, upart[q]));
            }
            assert forall|q: int| 0 <= q < cut implies (#[trigger] all[q]) is Despawn by {
                assert(all[q] == dpart[q]);
                assert(command_model(despawn_part[q]) is Despawn);
            }
            assert forall|i: int, j: int| 0 <= i < j < all.len() && (#[trigger] all[i]) is Spawn implies all[i] != #[trigger] all[j] by {
                assert(i >= cut);
                assert(all[i] == upart[i - cut] && all[j] == upart[j - cut]);
            }
            if injective_map(reg0) {
                assert(injective_map(kr));
                assert forall|i: int, j: int| 0 <= i < all.len() && 0 <= j < all.len() && i != j implies all[i] != all[j] by {
                    if i < cut && j < cut {
                        assert(all[i] == dpart[i] && all[j] == dpart[j]);
                    } else if i >= cut && j >= cut {
                        assert(all[i] == upart[i - cut] && all[j] == upart[j - cut]);
                    } else if i < cut {
                        assert(all[j] == upart[j - cut]);
                    } else {
                        assert(all[i] == upart[i - cut]);
                    }
                }
            }
        }
        WorldPlan { commands: out, resources }
    }
}

} // verus!

verus! {

/// Whether `c` is the command a written entity calls for, given the registry
/// `reg` after despawns and the written entities `ups`.
pub open spec fn upsert_command(reg: Map<KeyView, u64>, ups: Map<KeyView, Map<Seq<char>, ValueModel>>, c: CommandModel) -> bool {
    match c {
        CommandModel::Despawn(_) => false,
        CommandModel::Insert(e, m) => exists|k: KeyView| #[trigger] ups.contains_key(k) && reg.contains_key(k) && reg[k] == e && ups[k] == m,
        CommandModel::Spawn(k, m) => ups.contains_key(k) && !reg.contains_key(k) && ups[k] == m,
    }
}

impl ScriptEntityRegistry {
    /// Appends, for each written entity, an `Insert` when it has a host
    /// entity and a `Spawn` otherwise.
    fn plan_upserts(&self, upserts: &EntityMap<ComponentMap>, out: &mut Vec<WorldCommand>)
        requires
            self.wf(),
            upserts.inv(),
        ensures
            final(out)@.len() >= old(out)@.len(),
            final(out)@.subrange(0, old(out)@.len() as int) == old(out)@,
            forall|c: CommandModel| #[trigger] command_models(final(out)@).skip(old(out)@.len() as int).contains(c) <==>
                upsert_command(self@, crate::bridge::entities_model(*upserts), c),
            spawns_unique(command_models(final(out)@).skip(old(out)@.len() as int)),
            injective_map(self@) ==> command_models(final(out)@).skip(old(out)@.len() as int).no_duplicates(),
    {
        let ghost reg = self@;
        let ghost ups = crate::bridge::entities_model(*upserts);
        let ghost start = out@.len() as int;
        let ghost mut done: Set<KeyView> = Set::empty();
        proof {
            upserts.lemma_layout();
        }
        let owner_count = upserts.owner_count();
        for oi in 0..owner_count
            invariant
                owner_count == upserts.owner_seq().len(),
                upserts.inv(),
                self.wf(),
                reg == self@,
                ups == crate::bridge::entities_model(*upserts),
                start == old(out)@.len(),
                out@.len() >= start,
                out@.subrange(0, start) == old(out)@,
                forall|p: KeyView| #[trigger] done.contains(p) ==> ups.contains_key(p),
                forall|p: KeyView, k: int| 0 <= k < oi && ups.contains_key(p) && p.0 == #[trigger] upserts.owner_seq()[k] ==> #[trigger] done.contains(p),
                forall|c: CommandModel| #[trigger] command_models(out@).skip(start).contains(c) <==>
                    upsert_command(reg, ups.restrict(done), c),
                forall|p: KeyView| #[trigger] done.contains(p) ==>
                    exists|k: int| 0 <= k < oi && p.0 == upserts.owner_seq()[k],
                spawns_unique(command_models(out@).skip(start)),
                injective_map(reg) ==> command_models(out@).skip(start).no_duplicates(),
        {
            let owner = upserts.owner_at(oi);
            let ids = upserts.inner_at(oi);
            proof {
                upserts.lemma_layout();
                use_type_invariant(ids);
            }
            let id_count = ids.len();
            for j in 0..id_count
                invariant
                    owner_count == upserts.owner_seq().len(),
                    oi < owner_count,
                    owner@ == upserts.owner_seq()[oi as int],
                    upserts.of_owner(owner@) == Some(*ids),
                    id_count == ids.key_seq().len(),
                    ids.wf(),
                    upserts.inv(),
                    self.wf(),
                    reg == self@,
                    ups == crate::bridge::entities_model(*upserts),
                    start == old(out)@.len(),
                    out@.len() >= start,
                    out@.subrange(0, start) == old(out)@,
                    forall|p: KeyView| #[trigger] done.contains(p) ==> ups.contains_key(p),
                    forall|p: KeyView, k: int| 0 <= k < oi && ups.contains_key(p) && p.0 == #[trigger] upserts.owner_seq()[k] ==> #[trigger] done.contains(p),
                    forall|p: KeyView, q: int| 0 <= q < j && p.0 == owner@ && p.1 == #[trigger] ids.key_seq()[q] ==> #[trigger] done.contains(p),
                    forall|c: CommandModel| #[trigger] command_models(out@).skip(start).contains(c) <==>
                        upsert_command(reg, ups.restrict(done), c),
                    forall|p: KeyView| #[trigger] done.contains(p) ==>
                        (exists|k: int| 0 <= k < oi && p.0 == upserts.owner_seq()[k])
                        || (p.0 == owner@ && exists|q: int| 0 <= q < j && p.1 == ids.key_seq()[q]),
                    spawns_unique(command_models(out@).skip(start)),
                    injective_map(reg) ==> command_models(out@).skip(start).no_duplicates(),
            {
                let id = ids.key_at(j);
                proof {
                    ids.lemma_unique(j as int);
                    upserts.lemma_layout();
                }
                let ghost p: KeyView = (owner@, id@);
                let ghost old_out = out@;
                let ghost old_done = done;
                proof {
                    lemma_fresh_key(upserts.owner_seq(), oi as int, *ids, j as int, old_done, p);
                }
                let components = duplicate_fields(ids.value_at(j));
                assert(ups.contains_key(p) && ups[p] == fields_model(components));
                let ghost cmd;
                match self.get(owner.as_str(), id.as_str()) {
                    Some(entity) => {
                        proof {
                            cmd = CommandModel::Insert(entity, fields_model(components));
                        }
                        out.push(WorldCommand::Insert(entity, components));
                    },
                    None => {
                        proof {
                            cmd = CommandModel::Spawn(p, fields_model(components));
                        }
                        out.push(WorldCommand::Spawn { owner: owner.clone(), id: id.clone(), components });
                    },
                }
                assert(reg.contains_key(p) ==> cmd == CommandModel::Insert(reg[p], fields_model(components)));
                assert(!reg.contains_key(p) ==> cmd == CommandModel::Spawn(p, ups[p]));
                proof {
                    done = done.insert(p);
                    assert(ups.restrict(done).contains_key(p));
                    let olds = command_models(old_out).skip(start);
                    let news = command_models(out@).skip(start);
                    assert(news =~= olds.push(cmd));
                    assert forall|x: KeyView| #[trigger] done.contains(x) implies
                        (exists|k: int| 0 <= k < oi && x.0 == upserts.owner_seq()[k])
                        || (x.0 == owner@ && exists|q: int| 0 <= q < j + 1 && x.1 == ids.key_seq()[q]) by {
                        if x == p {
                            assert(x.1 == ids.key_seq()[j as int]);
                        }
                    }
                    if olds.contains(cmd) {
                        assert(upsert_command(reg, ups.restrict(old_done), cmd));
                        match cmd {
                            CommandModel::Insert(e, m) => {
                                let k = choose|k: KeyView| #[trigger] ups.restrict(old_done).contains_key(k) && reg.contains_key(k) && reg[k] == e && ups.restrict(old_done)[k] == m;
                                assert(k != p);
                                assert(!injective_map(reg));
                            },
                            _ => {},
                        }
                    }
                    lemma_push_spawns_unique(olds, cmd);
                    if injective_map(reg) {
                        lemma_push_no_duplicates(olds, cmd);
                    }
                    assert(out@.subrange(0, start) =~= old_out.subrange(0, start));
                    assert forall|c: CommandModel| #[trigger] news.contains(c) <==> upsert_command(reg, ups.restrict(done), c) by {
                        if news.contains(c) && c != cmd {
                            let q = choose|q: int| 0 <= q < news.len() && news[q] == c;
                            assert(olds[q] == c);
                            assert(olds.contains(c));
                        }
                        if olds.contains(c) {
                            let q = choose|q: int| 0 <= q < olds.len() && olds[q] == c;
                            assert(news[q] == c);
                        }
                        if c == cmd {
                            assert(news[news.len() - 1] == c);
                        }
                        match c {
                            CommandModel::Insert(e, m) => {
                                if upsert_command(reg, ups.restrict(done), c) && c != cmd {
                                    let k = choose|k: KeyView| #[trigger] ups.restrict(done).contains_key(k) && reg.contains_key(k) && reg[k] == e && ups.restrict(done)[k] == m;
                                    assert(k != p);
                                    assert(ups.restrict(old_done).contains_key(k));
                                }
                                if c == cmd {
                                    assert(ups.restrict(done).contains_key(p) && reg.contains_key(p));
                                }
                                if upsert_command(reg, ups.restrict(old_done), c) {
                                    let k = choose|k: KeyView| #[trigger] ups.restrict(old_done).contains_key(k) && reg.contains_key(k) && reg[k] == e && ups.restrict(old_done)[k] == m;
                                    assert(ups.restrict(done).contains_key(k));
                                }
                            },
                            _ => {},
                        }
                    }
                }
            }
            proof {
                assert forall|p: KeyView| #[trigger] done.contains(p) implies
                    exists|k: int| 0 <= k < oi + 1 && p.0 == upserts.owner_seq()[k] by {
                    if p.0 == owner@ {
                        assert(p.0 == upserts.owner_seq()[oi as int]);
                    }
                }
                assert forall|p: KeyView, k: int| 0 <= k < oi + 1 && ups.contains_key(p) && p.0 == #[trigger] upserts.owner_seq()[k] implies #[trigger] done.contains(p) by {
                    if k == oi {
                        upserts.lemma_layout();
                        assert(upserts@.contains_key((p.0, p.1)));
                        let q = crate::name_map::index_of_key(ids.key_seq(), p.1);
                        assert(ids@.contains_key(p.1));
                        assert(p.1 == ids.key_seq()[q]);
                    }
                }
            }
        }
        proof {
            upserts.lemma_layout();
            assert forall|p: KeyView| ups.contains_key(p) implies #[trigger] done.contains(p) by {
                assert(upserts@.contains_key((p.0, p.1)));
                assert(upserts.owner_seq().contains(p.0));
                let k = crate::name_map::index_of_key(upserts.owner_seq(), p.0);
                assert(upserts.owner_seq()[k] == p.0);
            }
            assert(ups.restrict(done) =~= ups);
        }
    }
}

} // verus!

verus! {

/// All script-defined components attached to one host entity.
#[derive(Debug)]
pub struct ScriptComponents(ComponentMap);

impl ScriptComponents {
    /// The components, by name.
    pub closed spec fn view(&self) -> Map<Seq<char>, ValueModel> {
        fields_model(self.0)
    }

    /// Wraps the components of one entity.
    pub fn new(components: ComponentMap) -> (r: Self)
        ensures
            r@ == fields_model(components),
    {
        ScriptComponents(components)
    }

    /// The component `name`, if present.
    pub closed spec fn get_spec(&self, name: Seq<char>) -> Option<EcsValue> {
        if self.0@.contains_key(name) {
            Some(self.0@[name])
        } else {
            None
        }
    }

    /// Returns a named component value.
    pub fn get(&self, name: &str) -> (r: Option<&EcsValue>)
        ensures
            match r {
                Some(v) => self.get_spec(name@) == Some(*v),
                None => self.get_spec(name@) is None,
            },
            match r {
                Some(v) => self@.contains_key(name@) && self@[name@] == crate::value::value_model(*v),
                None => !self@.contains_key(name@),
            },
    {
        self.0.get(name)
    }

    /// All named component values, in name order.
    pub fn iter(&self) -> (r: Vec<(&str, &EcsValue)>)
        ensures
            r@.len() == self@.len(),
            crate::name_map::keys_sorted(entry_names(r@)),
            forall|i: int| 0 <= i < r@.len() ==> self@.contains_key((#[trigger] r@[i]).0@)
                && self@[r@[i].0@] == crate::value::value_model(*r@[i].1),
    {
        entries_of(&self.0)
    }
}

/// The names of a sequence of named values.
pub open spec fn entry_names(s: Seq<(&str, &EcsValue)>) -> Seq<Seq<char>> {
    s.map_values(|e: (&str, &EcsValue)| e.0@)
}

/// The entries of a map of named values, in name order.
fn entries_of(m: &ComponentMap) -> (r: Vec<(&str, &EcsValue)>)
    ensures
        r@.len() == fields_model(*m).len(),
        crate::name_map::keys_sorted(entry_names(r@)),
        forall|i: int| 0 <= i < r@.len() ==> fields_model(*m).contains_key((#[trigger] r@[i]).0@)
            && fields_model(*m)[r@[i].0@] == crate::value::value_model(*r@[i].1),
{
    proof {
        use_type_invariant(m);
        m.lemma_len();
        assert(fields_model(*m).dom() =~= m@.dom());
    }
    let mut out: Vec<(&str, &EcsValue)> = Vec::new();
    let n = m.len();
    for i in 0..n
        invariant
            n == m.key_seq().len(),
            m.wf(),
            out@.len() == i,
            forall|j: int| 0 <= j < i ==> (#[trigger] out@[j]).0@ == m.key_seq()[j],
            forall|j: int| 0 <= j < i ==> m@.contains_key((#[trigger] out@[j]).0@) && m@[out@[j].0@] == *out@[j].1,
    {
        proof {
            m.lemma_unique(i as int);
        }
        out.push((m.key_at(i).as_str(), m.value_at(i)));
    }
    proof {
        assert(entry_names(out@) =~= m.key_seq());
    }
    out
}

/// Script-defined resources shared by all script-owned entities.
#[derive(Debug)]
pub struct ScriptResources(ResourceMap);

impl ScriptResources {
    /// The resources, by name.
    pub closed spec fn view(&self) -> Map<Seq<char>, ValueModel> {
        fields_model(self.0)
    }

    /// No resources.
    pub fn new() -> (r: Self)
        ensures
            r@ == Map::<Seq<char>, ValueModel>::empty(),
    {
        let r = ScriptResources(NameMap::new());
        assert(r@ =~= Map::<Seq<char>, ValueModel>::empty());
        r
    }

    /// Replaces every resource.
    pub fn replace(&mut self, resources: ResourceMap)
        ensures
            final(self)@ == fields_model(resources),
    {
        self.0 = resources;
    }

    /// Returns a named resource value.
    pub fn get(&self, name: &str) -> (r: Option<&EcsValue>)
        ensures
            match r {
                Some(v) => self@.contains_key(name@) && self@[name@] == crate::value::value_model(*v),
                None => !self@.contains_key(name@),
            },
    {
        self.0.get(name)
    }

    /// All named resource values, in name order.
    pub fn iter(&self) -> (r: Vec<(&str, &EcsValue)>)
        ensures
            r@.len() == self@.len(),
            crate::name_map::keys_sorted(entry_names(r@)),
            forall|i: int| 0 <= i < r@.len() ==> self@.contains_key((#[trigger] r@[i]).0@)
                && self@[r@[i].0@] == crate::value::value_model(*r@[i].1),
    {
        entries_of(&self.0)
    }
}

/// Marks host entities whose lifecycle is owned by a script.
pub struct ScriptOwned;

/// Stable script-facing identity of a host entity.
pub struct ScriptEntityId(String);

impl ScriptEntityId {
    /// The id as a string.
    pub closed spec fn view(&self) -> Seq<char> {
        self.0@
    }

    /// Wraps a script-facing id.
    pub fn new(id: String) -> (r: Self)
        ensures
            r@ == id@,
    {
        ScriptEntityId(id)
    }

    /// Returns the stable script-facing identifier.
    pub fn as_str(&self) -> (r: &str)
        ensures
            r@ == self@,
    {
        self.0.as_str()
    }
}

/// Stable identity of the script context that owns a host entity.
#[derive(Clone, Debug, PartialEq, Eq)]
pub struct ScriptOwnerId(String);

impl ScriptOwnerId {
    /// The owner as a string.
    pub closed spec fn view(&self) -> Seq<char> {
        self.0@
    }

    /// Wraps an owner name.
    pub fn new(owner: String) -> (r: Self)
        ensures
            r@ == owner@,
    {
        ScriptOwnerId(owner)
    }

    /// Returns the stable owner identifier.
    pub fn as_str(&self) -> (r: &str)
        ensures
            r@ == self@,
    {
        self.0.as_str()
    }
}

} // verus!

verus! {

/// A key met for the first time in a walk by owner, then by id: none of the
/// keys walked before has the same owner and id.
proof fn lemma_fresh_key<V>(owners: Seq<Seq<char>>, oi: int, ids: NameMap<V>, j: int, done: Set<KeyView>, p: KeyView)
    requires
        crate::name_map::keys_sorted(owners),
        0 <= oi < owners.len(),
        ids.wf(),
        0 <= j < ids.key_seq().len(),
        p == (owners[oi], ids.key_seq()[j]),
        forall|x: KeyView| #[trigger] done.contains(x) ==>
            (exists|k: int| 0 <= k < oi && x.0 == owners[k])
            || (x.0 == owners[oi] && exists|q: int| 0 <= q < j && x.1 == ids.key_seq()[q]),
    ensures
        !done.contains(p),
{
    if done.contains(p) {
        if exists|k: int| 0 <= k < oi && p.0 == owners[k] {
            let k = choose|k: int| 0 <= k < oi && p.0 == owners[k];
            assert(crate::order::key_lt(owners[k], owners[oi]));
            crate::order::lemma_key_order(owners[oi], owners[oi], owners[oi]);
        } else {
            let q = choose|q: int| 0 <= q < j && p.1 == ids.key_seq()[q];
            ids.lemma_unique(q);
            ids.lemma_unique(j);
        }
    }
}

/// Pushing a command that is no `Spawn` already there keeps `Spawn`s unique.
proof fn lemma_push_spawns_unique(s: Seq<CommandModel>, c: CommandModel)
    requires
        spawns_unique(s),
        c is Spawn ==> !s.contains(c),
    ensures
        spawns_unique(s.push(c)),
{
    let t = s.push(c);
    assert forall|i: int, j: int| 0 <= i < j < t.len() && (#[trigger] t[i]) is Spawn implies t[i] != #[trigger] t[j] by {
        assert(t[i] == s[i]);
        if j == s.len() {
            if t[i] == t[j] {
                assert(s.contains(c));
            }
        } else {
            assert(t[j] == s[j]);
        }
    }
}

/// Pushing an element that is not there keeps a sequence free of duplicates.
proof fn lemma_push_no_duplicates(s: Seq<CommandModel>, c: CommandModel)
    requires
        s.no_duplicates(),
        !s.contains(c),
    ensures
        s.push(c).no_duplicates(),
{
    let t = s.push(c);
    assert forall|i: int, j: int| 0 <= i < t.len() && 0 <= j < t.len() && i != j implies t[i] != t[j] by {
        if i == s.len() {
            assert(t[j] == s[j]);
        } else if j == s.len() {
            assert(t[i] == s[i]);
        } else {
            assert(t[i] == s[i] && t[j] == s[j]);
        }
    }
}

} // verus!
