//! The embedding-indexed entity store: generic create/read/list/update/
//! delete over per-kind entity tables, kept in lockstep with the vector
//! index by the replace-embedding protocol.
//!
//! Embedding vectors come from an external provider, so every function here
//! that stores one takes it as a plain argument and is verified for every
//! value the provider could return. The provider's failure is likewise a
//! value (`None`), and the contracts say exactly what the store does then:
//! the entity write is kept, the stale embedding is reported.

use vstd::pervasive::VecAdditionalExecFns;
use vstd::prelude::*;

use crate::entity::{with_times, Entity, EntityKind, Leaf, Rec, Sage};
use crate::error::StoreError;
use crate::index::{
    has_vector, hits_of, hseq, index_wf, keep_map_pred, keep_vec_pred, key_le,
    lemma_dist_positive, lemma_dist_self, lemma_filter_subseq, lemma_insert_wf,
    lemma_remove_owner_wf, lemma_sort_hits_contains, lemma_sort_hits_ensures, lemma_vector_of,
    ranking, slot_index, slot_owned, spec_insert, spec_remove_owner, vector_of, HitV, IndexV,
    MapRowV, SearchHit, VectorIndex,
};
use crate::sys::now_rfc3339;

verus! {

/// What an update makes of a field the caller left empty: overwrite it like
/// any other, or keep the stored value. This is deliberately a
/// configuration choice of the store, fixed at construction.
#[derive(Clone, Copy, Debug, PartialEq, Eq, Structural)]
pub enum UpdatePolicy {
    /// An empty incoming field means "leave the stored value unchanged".
    SkipEmpty,
    /// An empty incoming field clears the stored value like any other.
    ClearEmpty,
}

/// The mathematical content of the store: the entity rows of both kinds,
/// tagged by kind and in insertion order, the vector index, and the update
/// policy.
#[verifier::ext_equal]
pub struct StoreV {
    pub entities: Seq<(EntityKind, Rec)>,
    pub index: IndexV,
    pub policy: UpdatePolicy,
}

/// The entity store. Entity rows live in `rows`; their embeddings and the
/// slot-to-owner metadata mapping live in `index`.
///
/// Every mutation takes `&mut self`, so writers — in particular two writers
/// to the same identifier, whose replace-embedding sequences must not
/// interleave — serialize at the type level; a shared store wants a lock
/// around it, not around individual rows.
#[derive(Debug)]
pub struct SqlDatabase {
    pub rows: Vec<Entity>,
    pub index: VectorIndex,
    pub policy: UpdatePolicy,
}

impl View for SqlDatabase {
    type V = StoreV;

    open spec fn view(&self) -> StoreV {
        StoreV {
            entities: self.rows@.map_values(|e: Entity| (e.kind(), e.rec())),
            index: self.index@,
            policy: self.policy,
        }
    }
}

/// Whether the store holds an entity of kind `k` with identifier `id`.
pub open spec fn has_entity(s: StoreV, k: EntityKind, id: Seq<char>) -> bool {
    exists|i: int|
        0 <= i < s.entities.len() && (#[trigger] s.entities[i]).0 == k && s.entities[i].1.id
            == id
}

/// The position of the entity of kind `k` with identifier `id`.
pub open spec fn entity_at(s: StoreV, k: EntityKind, id: Seq<char>) -> int {
    choose|i: int|
        0 <= i < s.entities.len() && (#[trigger] s.entities[i]).0 == k && s.entities[i].1.id
            == id
}

/// At most one metadata mapping row per `(identifier, kind)`: the central
/// consistency invariant the replace-embedding protocol upholds.
pub open spec fn owner_unique(m: Seq<MapRowV>) -> bool {
    forall|i: int, j: int|
        0 <= i < j < m.len() ==> !((#[trigger] m[i]).object_id == (#[trigger] m[j]).object_id
            && m[i].object_kind == m[j].object_kind)
}

/// Well-formedness of the store model: the index is well formed, its
/// mapping holds at most one row per owner, and identifiers are unique
/// within each kind.
pub open spec fn store_wf(s: StoreV) -> bool {
    &&& index_wf(s.index)
    &&& owner_unique(s.index.mapping)
    &&& forall|i: int, j: int|
        0 <= i < j < s.entities.len() && (#[trigger] s.entities[i]).0 == (
        #[trigger] s.entities[j]).0 ==> s.entities[i].1.id != s.entities[j].1.id
}

/// The store after a successful create: the new row, stamped, appended to
/// its kind's table.
pub open spec fn spec_create(s: StoreV, k: EntityKind, r: Rec, now: Seq<char>) -> StoreV {
    StoreV { entities: s.entities.push((k, with_times(r, now))), ..s }
}

/// What a read of `(k, id)` returns: the record, or nothing.
pub open spec fn spec_read(s: StoreV, k: EntityKind, id: Seq<char>) -> Option<Rec> {
    if has_entity(s, k, id) {
        Some(s.entities[entity_at(s, k, id)].1)
    } else {
        None
    }
}

/// All records of one kind, in insertion order.
pub open spec fn table(s: StoreV, k: EntityKind) -> Seq<Rec> {
    s.entities.filter(keep_kind_pred(k)).map_values(|p: (EntityKind, Rec)| p.1)
}

/// The predicate keeping the rows of kind `k`.
pub open spec fn keep_kind_pred(k: EntityKind) -> spec_fn((EntityKind, Rec)) -> bool {
    |p: (EntityKind, Rec)| p.0 == k
}

/// What an update makes of one field, under the store's policy.
pub open spec fn merge_field(pol: UpdatePolicy, cur: Seq<char>, new: Seq<char>) -> Seq<char> {
    if pol == UpdatePolicy::SkipEmpty && new.len() == 0 {
        cur
    } else {
        new
    }
}

/// What an update makes of a whole record: the identifier is immutable,
/// each text field is merged under the policy, and `modified_at` is
/// refreshed to `now`.
pub open spec fn merge_rec(pol: UpdatePolicy, cur: Rec, r: Rec, now: Seq<char>) -> Rec {
    Rec {
        id: cur.id,
        name: merge_field(pol, cur.name, r.name),
        body: merge_field(pol, cur.body, r.body),
        created_at: merge_field(pol, cur.created_at, r.created_at),
        modified_at: now,
    }
}

/// The store after an update: the matching row merged and re-stamped, or
/// the store unchanged when the identifier is absent — overwriting nothing
/// is not an error.
pub open spec fn spec_update(s: StoreV, k: EntityKind, r: Rec, now: Seq<char>) -> StoreV {
    if has_entity(s, k, r.id) {
        let i = entity_at(s, k, r.id);
        StoreV {
            entities: s.entities.update(i, (k, merge_rec(s.policy, s.entities[i].1, r, now))),
            ..s
        }
    } else {
        s
    }
}

/// The predicate keeping the entity rows other than `(k, id)`.
pub open spec fn keep_entity_pred(k: EntityKind, id: Seq<char>) -> spec_fn(
    (EntityKind, Rec),
) -> bool {
    |p: (EntityKind, Rec)| !(p.0 == k && p.1.id == id)
}

/// The store after a delete: the entity row gone, and every embedding
/// record and mapping row of the owner gone with it.
pub open spec fn spec_delete(s: StoreV, k: EntityKind, id: Seq<char>) -> StoreV {
    StoreV {
        entities: s.entities.filter(keep_entity_pred(k, id)),
        index: spec_remove_owner(s.index, id, k),
        ..s
    }
}

/// The store after a replace-embedding step: every existing record of the
/// owner removed, then the new vector inserted at the next free slot. The
/// entity rows do not change.
pub open spec fn spec_store_embedding(s: StoreV, k: EntityKind, id: Seq<char>, v: Seq<u32>) -> StoreV {
    StoreV { index: spec_insert(spec_remove_owner(s.index, id, k), v, id, k), ..s }
}

/// Resolution of a ranked hit list against the entity tables: the hits of
/// kind `k`, in ranking order, each replaced by its entity record. A hit of
/// another kind is passed over, and so is a stale mapping — a hit whose
/// entity row is gone.
pub open spec fn resolved(s: StoreV, hits: Seq<HitV>, k: EntityKind) -> Seq<Rec>
    decreases hits.len(),
{
    if hits.len() == 0 {
        Seq::empty()
    } else {
        let h = hits.first();
        let rest = resolved(s, hits.drop_first(), k);
        if h.object_kind == k && has_entity(s, k, h.object_id) {
            seq![s.entities[entity_at(s, k, h.object_id)].1] + rest
        } else {
            rest
        }
    }
}

/// Resolution distributes over concatenation of hit lists.
proof fn lemma_resolved_append(s: StoreV, a: Seq<HitV>, b: Seq<HitV>, k: EntityKind)
    ensures
        resolved(s, a + b, k) =~= resolved(s, a, k) + resolved(s, b, k),
    decreases a.len(),
{
    if a.len() == 0 {
        assert(a + b =~= b);
        assert(resolved(s, a, k) + resolved(s, b, k) =~= resolved(s, b, k));
    } else {
        assert((a + b).first() == a.first());
        assert((a + b).drop_first() =~= a.drop_first() + b);
        lemma_resolved_append(s, a.drop_first(), b, k);
        assert(resolved(s, a, k) == if a.first().object_kind == k && has_entity(
            s,
            k,
            a.first().object_id,
        ) {
            seq![s.entities[entity_at(s, k, a.first().object_id)].1] + resolved(
                s,
                a.drop_first(),
                k,
            )
        } else {
            resolved(s, a.drop_first(), k)
        });
    }
}

/// What a similarity query returns: the resolved ranking of the query,
/// truncated to the requested number of entities.
pub open spec fn spec_find_similar_entities(
    s: StoreV,
    k: EntityKind,
    q: Seq<u32>,
    limit: int,
) -> Seq<Rec> {
    let all = resolved(s, ranking(s.index, q), k);
    all.take(
        if limit <= all.len() {
            limit
        } else {
            all.len() as int
        },
    )
}

/// A create keeps the store well formed.
pub proof fn lemma_create_wf(s: StoreV, k: EntityKind, r: Rec, now: Seq<char>)
    requires
        store_wf(s),
        !has_entity(s, k, r.id),
    ensures
        store_wf(spec_create(s, k, r, now)),
{
    let y = spec_create(s, k, r, now);
    assert forall|i: int, j: int|
        0 <= i < j < y.entities.len() && (#[trigger] y.entities[i]).0 == (
        #[trigger] y.entities[j]).0 implies y.entities[i].1.id != y.entities[j].1.id by {
        if j < s.entities.len() {
            assert(s.entities[i].1.id != s.entities[j].1.id);
        } else {
            if y.entities[i].1.id == r.id && y.entities[i].0 == k {
                assert(has_entity(s, k, r.id));
            }
        }
    }
}

/// Creating then reading the same identifier gives the record back, equal
/// to what was handed in except for the server-assigned timestamps.
pub proof fn lemma_create_then_read(s: StoreV, k: EntityKind, r: Rec, now: Seq<char>)
    requires
        store_wf(s),
        !has_entity(s, k, r.id),
    ensures
        spec_read(spec_create(s, k, r, now), k, r.id) == Some(with_times(r, now)),
{
    let y = spec_create(s, k, r, now);
    let n = s.entities.len() as int;
    assert(y.entities[n].0 == k && y.entities[n].1.id == r.id);
    assert(has_entity(y, k, r.id));
    let i = entity_at(y, k, r.id);
    assert(0 <= i < y.entities.len() && y.entities[i].0 == k && y.entities[i].1.id == r.id);
    if i != n {
        assert(s.entities[i].0 == k && s.entities[i].1.id == r.id);
        assert(has_entity(s, k, r.id));
    }
    assert(y.entities[n].1 == with_times(r, now));
}

/// An update keeps the store well formed.
pub proof fn lemma_update_wf(s: StoreV, k: EntityKind, r: Rec, now: Seq<char>)
    requires
        store_wf(s),
    ensures
        store_wf(spec_update(s, k, r, now)),
{
    if has_entity(s, k, r.id) {
        let w = entity_at(s, k, r.id);
        let y = spec_update(s, k, r, now);
        assert forall|i: int, j: int|
            0 <= i < j < y.entities.len() && (#[trigger] y.entities[i]).0 == (
            #[trigger] y.entities[j]).0 implies y.entities[i].1.id != y.entities[j].1.id by {
            assert(y.entities[i].0 == s.entities[i].0 && y.entities[i].1.id
                == s.entities[i].1.id);
            assert(y.entities[j].0 == s.entities[j].0 && y.entities[j].1.id
                == s.entities[j].1.id);
        }
    }
}

/// Filtering keeps identifier uniqueness within each kind.
proof fn lemma_filter_entities_unique(s: Seq<(EntityKind, Rec)>, pred: spec_fn((EntityKind, Rec)) -> bool)
    requires
        forall|i: int, j: int|
            0 <= i < j < s.len() && (#[trigger] s[i]).0 == (#[trigger] s[j]).0 ==> s[i].1.id
                != s[j].1.id,
    ensures
        forall|i: int, j: int|
            0 <= i < j < s.filter(pred).len() && (#[trigger] s.filter(pred)[i]).0 == (
            #[trigger] s.filter(pred)[j]).0 ==> s.filter(pred)[i].1.id != s.filter(
                pred,
            )[j].1.id,
    decreases s.len(),
{
    reveal(Seq::filter);
    if s.len() > 0 {
        let dl = s.drop_last();
        assert forall|i: int, j: int|
            0 <= i < j < dl.len() && (#[trigger] dl[i]).0 == (#[trigger] dl[j]).0 implies dl[i].1.id
                != dl[j].1.id by {
            assert(s[i].0 == dl[i].0 && s[j].0 == dl[j].0);
        }
        lemma_filter_entities_unique(dl, pred);
        lemma_filter_subseq(dl, pred);
        let f = s.filter(pred);
        let fd = dl.filter(pred);
        assert forall|i: int, j: int|
            0 <= i < j < f.len() && (#[trigger] f[i]).0 == (#[trigger] f[j]).0 implies f[i].1.id
                != f[j].1.id by {
            if pred(s.last()) && j == f.len() - 1 {
                assert(f[i] == fd[i]);
                assert(dl.contains(fd[i]));
                let w = choose|w: int| 0 <= w < dl.len() && dl[w] == fd[i];
                assert(s[w] == f[i] && s[s.len() - 1] == f[j]);
                assert(s[w].1.id != s[s.len() - 1].1.id);
            } else {
                assert(f[i] == fd[i] && f[j] == fd[j]);
            }
        }
    }
}

/// Filtering keeps the one-record-per-owner invariant of the mapping.
proof fn lemma_filter_owner_unique(m: Seq<MapRowV>, pred: spec_fn(MapRowV) -> bool)
    requires
        owner_unique(m),
    ensures
        owner_unique(m.filter(pred)),
    decreases m.len(),
{
    reveal(Seq::filter);
    if m.len() > 0 {
        let dl = m.drop_last();
        assert forall|i: int, j: int|
            0 <= i < j < dl.len() implies !((#[trigger] dl[i]).object_id == (
            #[trigger] dl[j]).object_id && dl[i].object_kind == dl[j].object_kind) by {
            assert(m[i] == dl[i] && m[j] == dl[j]);
            assert(!(m[i].object_id == m[j].object_id && m[i].object_kind == m[j].object_kind));
        }
        lemma_filter_owner_unique(dl, pred);
        lemma_filter_subseq(dl, pred);
        let f = m.filter(pred);
        let fd = dl.filter(pred);
        assert forall|i: int, j: int|
            0 <= i < j < f.len() implies !((#[trigger] f[i]).object_id == (
            #[trigger] f[j]).object_id && f[i].object_kind == f[j].object_kind) by {
            if pred(m.last()) && j == f.len() - 1 {
                assert(f[i] == fd[i]);
                assert(dl.contains(fd[i]));
                let w = choose|w: int| 0 <= w < dl.len() && dl[w] == fd[i];
                assert(m[w] == f[i] && m[m.len() - 1] == f[j]);
                assert(!(m[w].object_id == m[m.len() - 1].object_id && m[w].object_kind
                    == m[m.len() - 1].object_kind));
            } else {
                assert(f[i] == fd[i] && f[j] == fd[j]);
            }
        }
    }
}

/// Merges one field under the policy.
fn merge_field_exec(policy: UpdatePolicy, cur: &String, new: &String) -> (r: String)
    ensures
        r@ == merge_field(policy, cur@, new@),
{
    if policy == UpdatePolicy::SkipEmpty && new.as_str().is_empty() {
        cur.clone()
    } else {
        new.clone()
    }
}

/// Merges an incoming entity into the stored one: the stored identifier is
/// kept, each field is merged under the policy, and `modified_at` becomes
/// `now`.
fn merge_entity(policy: UpdatePolicy, cur: &Entity, incoming: &Entity, now: String) -> (r: Entity)
    requires
        cur.kind() == incoming.kind(),
    ensures
        r.kind() == cur.kind(),
        r.rec() =~= merge_rec(policy, cur.rec(), incoming.rec(), now@),
{
    match (cur, incoming) {
        (Entity::Leaf(c), Entity::Leaf(n)) => Entity::Leaf(
            Leaf {
                id: c.id.clone(),
                name: merge_field_exec(policy, &c.name, &n.name),
                content: merge_field_exec(policy, &c.content, &n.content),
                created_at: merge_field_exec(policy, &c.created_at, &n.created_at),
                modified_at: now,
            },
        ),
        (Entity::Sage(c), Entity::Sage(n)) => Entity::Sage(
            Sage {
                id: c.id.clone(),
                name: merge_field_exec(policy, &c.name, &n.name),
                description: merge_field_exec(policy, &c.description, &n.description),
                created_at: merge_field_exec(policy, &c.created_at, &n.created_at),
                modified_at: now,
            },
        ),
        (other, _) => {
            proof {
                assert(false);
            }
            other.duplicate()
        },
    }
}

/// A delete keeps the store well formed.
pub proof fn lemma_delete_wf(s: StoreV, k: EntityKind, id: Seq<char>)
    requires
        store_wf(s),
    ensures
        store_wf(spec_delete(s, k, id)),
{
    lemma_remove_owner_wf(s.index, id, k);
    lemma_filter_owner_unique(s.index.mapping, keep_map_pred(id, k));
    lemma_filter_entities_unique(s.entities, keep_entity_pred(k, id));
}

impl SqlDatabase {
    /// Well-formedness: the model invariant plus the index's own byte-level
    /// invariant.
    pub open spec fn wf(&self) -> bool {
        &&& self.index.wf()
        &&& store_wf(self@)
    }

    /// An empty store for the given vector dimension and update policy.
    pub fn new(dim: usize, policy: UpdatePolicy) -> (r: SqlDatabase)
        ensures
            r.wf(),
            r@.entities =~= Seq::<(EntityKind, Rec)>::empty(),
            r@.index.dim == dim,
            r@.index.next_slot == 0,
            r@.index.vectors =~= Seq::<crate::index::VecRowV>::empty(),
            r@.index.mapping =~= Seq::<MapRowV>::empty(),
            r@.policy == policy,
    {
        SqlDatabase { rows: Vec::new(), index: VectorIndex::new(dim), policy }
    }

    /// The configured vector dimension.
    pub fn dimension(&self) -> (d: usize)
        ensures
            d == self@.index.dim,
    {
        self.index.dim
    }

    /// Scans the rows for the entity of kind `kind` with identifier `id`.
    fn find_row(&self, kind: EntityKind, id: &String) -> (r: Option<usize>)
        ensures
            match r {
                Some(i) => i < self.rows@.len() && self@.entities[i as int].0 == kind
                    && self@.entities[i as int].1.id == id@,
                None => !has_entity(self@, kind, id@),
            },
    {
        let mut i: usize = 0;
        while i < self.rows.len()
            invariant
                i <= self.rows@.len(),
                forall|t: int|
                    0 <= t < i ==> !((#[trigger] self@.entities[t]).0 == kind
                        && self@.entities[t].1.id == id@),
            decreases self.rows@.len() - i,
        {
            let row = &self.rows[i];
            if row.get_kind() == kind && row.get_id().eq(id) {
                return Some(i);
            }
            i = i + 1;
        }
        None
    }

    /// Point lookup by kind and identifier. Returns the entity, or nothing
    /// when the identifier is absent — absence is not an error.
    pub fn read(&self, kind: EntityKind, id: &String) -> (r: Option<Entity>)
        requires
            self.wf(),
        ensures
            match r {
                Some(e) => has_entity(self@, kind, id@) && spec_read(self@, kind, id@) == Some(
                    e.rec(),
                ) && e.kind() == kind && e.rec().id == id@,
                None => !has_entity(self@, kind, id@) && spec_read(self@, kind, id@) is None,
            },
    {
        match self.find_row(kind, id) {
            Some(i) => {
                let e = self.rows[i].duplicate();
                proof {
                    let w = entity_at(self@, kind, id@);
                    assert(has_entity(self@, kind, id@));
                    assert(0 <= w < self@.entities.len() && self@.entities[w].0 == kind
                        && self@.entities[w].1.id == id@);
                    if w != i {
                        assert(self@.entities[w].1.id != self@.entities[i as int].1.id);
                    }
                    assert(self@.entities[i as int].1 =~= e.rec());
                }
                Some(e)
            },
            None => None,
        }
    }

    /// All entities of one kind. The order is the table's physical order,
    /// which callers must not rely on.
    pub fn list(&self, kind: EntityKind) -> (r: Vec<Entity>)
        requires
            self.wf(),
        ensures
            r@.map_values(|e: Entity| e.rec()) =~= table(self@, kind),
            forall|t: int| 0 <= t < r@.len() ==> (#[trigger] r@[t]).kind() == kind,
    {
        let ghost es = self@.entities;
        let ghost pred = keep_kind_pred(kind);
        let mut out: Vec<Entity> = Vec::new();
        let mut i: usize = 0;
        while i < self.rows.len()
            invariant
                i <= self.rows@.len(),
                es == self@.entities,
                pred == keep_kind_pred(kind),
                out@.map_values(|e: Entity| (e.kind(), e.rec())) =~= es.take(i as int).filter(
                    pred,
                ),
                forall|t: int| 0 <= t < out@.len() ==> (#[trigger] out@[t]).kind() == kind,
            decreases self.rows@.len() - i,
        {
            let row = &self.rows[i];
            proof {
                reveal(Seq::filter);
                assert(es.take(i + 1).drop_last() =~= es.take(i as int));
                assert(es.take(i + 1).last() == es[i as int]);
            }
            if row.get_kind() == kind {
                out.push(row.duplicate());
            }
            proof {
                assert(out@.map_values(|e: Entity| (e.kind(), e.rec())) =~= es.take(i + 1)
                    .filter(pred));
            }
            i = i + 1;
        }
        proof {
            assert(es.take(es.len() as int) =~= es);
            assert(out@.map_values(|e: Entity| e.rec()) =~= es.filter(pred).map_values(
                |p: (EntityKind, Rec)| p.1,
            ));
        }
        out
    }

    /// Inserts a new entity with both timestamps set to `now` and returns
    /// its identifier.
    ///
    /// Fails with `StoreError::Conflict` exactly when an entity of the same
    /// kind already holds the identifier; nothing changes then.
    pub fn create_at(&mut self, entity: Entity, now: String) -> (r: Result<String, StoreError>)
        requires
            old(self).wf(),
        ensures
            final(self).wf(),
            match r {
                Ok(id) => !has_entity(old(self)@, entity.kind(), entity.rec().id) && id@
                    == entity.rec().id && final(self)@ =~~= spec_create(
                    old(self)@,
                    entity.kind(),
                    entity.rec(),
                    now@,
                ),
                Err(e) => e == StoreError::Conflict && has_entity(
                    old(self)@,
                    entity.kind(),
                    entity.rec().id,
                ) && final(self)@ =~~= old(self)@,
            },
    {
        let ghost k0 = entity.kind();
        let ghost rec0 = entity.rec();
        let mut entity = entity;
        if self.find_row(entity.get_kind(), entity.get_id()).is_some() {
            return Err(StoreError::Conflict);
        }
        entity.stamp_for_create(&now);
        let id = entity.get_id().clone();
        self.rows.push(entity);
        proof {
            let oldv = old(self)@;
            assert(self@.entities =~= oldv.entities.push((k0, with_times(rec0, now@))));
            lemma_create_wf(oldv, k0, rec0, now@);
            assert(self@ =~~= spec_create(oldv, k0, rec0, now@));
        }
        Ok(id)
    }

    /// Inserts a new entity, timestamping it with the clock's current
    /// moment.
    pub fn create(&mut self, entity: Entity) -> (r: Result<String, StoreError>)
        requires
            old(self).wf(),
        ensures
            final(self).wf(),
            match r {
                Ok(id) => !has_entity(old(self)@, entity.kind(), entity.rec().id) && id@
                    == entity.rec().id && exists|t: Seq<char>|
                    final(self)@ =~~= spec_create(old(self)@, entity.kind(), entity.rec(), t),
                Err(e) => e == StoreError::Conflict && has_entity(
                    old(self)@,
                    entity.kind(),
                    entity.rec().id,
                ) && final(self)@ =~~= old(self)@,
            },
    {
        let now = now_rfc3339();
        let ghost t = now@;
        let r = self.create_at(entity, now);
        proof {
            if r is Ok {
                assert(self@ =~~= spec_create(old(self)@, entity.kind(), entity.rec(), t));
            }
        }
        r
    }

    /// Overwrites the matching entity's fields under the store's update
    /// policy and refreshes its `modified_at` to `now`. An absent
    /// identifier leaves the store unchanged and is not an error.
    pub fn update_at(&mut self, entity: &Entity, now: String) -> (r: Result<(), StoreError>)
        requires
            old(self).wf(),
        ensures
            final(self).wf(),
            r is Ok,
            final(self)@ =~~= spec_update(old(self)@, entity.kind(), entity.rec(), now@),
    {
        let ghost oldv = old(self)@;
        proof {
            lemma_update_wf(oldv, entity.kind(), entity.rec(), now@);
        }
        let i = match self.find_row(entity.get_kind(), entity.get_id()) {
            Some(i) => i,
            None => {
                return Ok(());
            },
        };
        let merged = merge_entity(self.policy, &self.rows[i], entity, now);
        self.rows.set(i, merged);
        proof {
            assert(has_entity(oldv, entity.kind(), entity.rec().id));
            let w = entity_at(oldv, entity.kind(), entity.rec().id);
            assert(0 <= w < oldv.entities.len() && oldv.entities[w].0 == entity.kind()
                && oldv.entities[w].1.id == entity.rec().id);
            if w != i {
                assert(oldv.entities[w].1.id != oldv.entities[i as int].1.id);
            }
            assert(self@.entities =~= oldv.entities.update(
                i as int,
                (entity.kind(), merge_rec(oldv.policy, oldv.entities[i as int].1, entity.rec(), now@)),
            ));
            assert(self@ =~~= spec_update(oldv, entity.kind(), entity.rec(), now@));
        }
        Ok(())
    }

    /// Overwrites the matching entity's fields, stamping the modification
    /// with the clock's current moment.
    pub fn update(&mut self, entity: &Entity) -> (r: Result<(), StoreError>)
        requires
            old(self).wf(),
        ensures
            final(self).wf(),
            r is Ok,
            exists|t: Seq<char>|
                final(self)@ =~~= spec_update(old(self)@, entity.kind(), entity.rec(), t),
    {
        let now = now_rfc3339();
        let ghost t = now@;
        let r = self.update_at(entity, now);
        proof {
            assert(self@ =~~= spec_update(old(self)@, entity.kind(), entity.rec(), t));
        }
        r
    }

    /// Removes the entity row together with its metadata mapping rows and
    /// embedding vectors. The mapping rows go first, then the vectors, then
    /// the entity row. Idempotent: deleting an absent identifier is a
    /// no-op, not an error.
    pub fn delete(&mut self, kind: EntityKind, id: &String)
        requires
            old(self).wf(),
        ensures
            final(self).wf(),
            final(self)@ =~~= spec_delete(old(self)@, kind, id@),
    {
        let ghost oldv = old(self)@;
        self.index.delete_by_owner(id, kind);
        let ghost es = oldv.entities;
        let ghost pred = keep_entity_pred(kind, id@);
        let mut kept: Vec<Entity> = Vec::new();
        let mut i: usize = 0;
        while i < self.rows.len()
            invariant
                i <= self.rows@.len(),
                es == self.rows@.map_values(|e: Entity| (e.kind(), e.rec())),
                pred == keep_entity_pred(kind, id@),
                kept@.map_values(|e: Entity| (e.kind(), e.rec())) =~= es.take(i as int).filter(
                    pred,
                ),
            decreases self.rows@.len() - i,
        {
            let row = &self.rows[i];
            let keep = !(row.get_kind() == kind && row.get_id().eq(id));
            proof {
                reveal(Seq::filter);
                assert(es.take(i + 1).drop_last() =~= es.take(i as int));
                assert(es.take(i + 1).last() == es[i as int]);
                assert(keep == pred(es[i as int]));
            }
            if keep {
                kept.push(row.duplicate());
            }
            proof {
                assert(kept@.map_values(|e: Entity| (e.kind(), e.rec())) =~= es.take(i + 1)
                    .filter(pred));
            }
            i = i + 1;
        }
        self.rows = kept;
        proof {
            assert(es.take(es.len() as int) =~= es);
            assert(self@ =~~= spec_delete(oldv, kind, id@));
            lemma_delete_wf(oldv, kind, id@);
        }
    }

    /// The replace-embedding step of the synchroniser: removes any existing
    /// embedding record for the owner, then inserts the provided vector and
    /// the mapping row binding its slot back to the owner — in that order,
    /// so a concurrent reader never sees two records for one owner.
    ///
    /// Fails with `StoreError::DimensionMismatch` exactly when the vector's
    /// length differs from the configured dimension; nothing changes then,
    /// and in particular the metadata mapping gains no orphan row.
    pub fn store_embedding(&mut self, object_id: &String, object_kind: EntityKind, vector: &Vec<
        u32,
    >) -> (r: Result<(), StoreError>)
        requires
            old(self).wf(),
            old(self).index.next_slot < u64::MAX,
        ensures
            final(self).wf(),
            match r {
                Ok(_) => vector@.len() == old(self)@.index.dim && final(self)@
                    =~~= spec_store_embedding(old(self)@, object_kind, object_id@, vector@),
                Err(e) => e == StoreError::DimensionMismatch && vector@.len() != old(
                    self,
                )@.index.dim && final(self)@ =~~= old(self)@,
            },
    {
        let ghost oldv = old(self)@;
        if vector.len() != self.index.dim {
            return Err(StoreError::DimensionMismatch);
        }
        self.index.delete_by_owner(object_id, object_kind);
        let r = self.index.insert(vector, object_id.clone(), object_kind);
        proof {
            if r is Err {
                assert(false);
            }
            assert(self@ =~~= spec_store_embedding(oldv, object_kind, object_id@, vector@));
            lemma_store_embedding_wf(oldv, object_kind, object_id@, vector@);
            assert(store_wf(self@));
        }
        Ok(())
    }

    /// Answers a raw similarity query: up to `limit` hits over all kinds,
    /// ordered by ascending distance with ties broken by physical insertion
    /// order. A `limit` of zero yields an empty result, not an error.
    ///
    /// Fails with `StoreError::DimensionMismatch` exactly when the query
    /// vector's length differs from the configured dimension.
    pub fn find_similar(&self, query: &Vec<u32>, limit: usize) -> (r: Result<
        Vec<SearchHit>,
        StoreError,
    >)
        requires
            self.wf(),
        ensures
            match r {
                Ok(hits) => query@.len() == self@.index.dim && hseq(hits@) =~= ranking(
                    self@.index,
                    query@,
                ).take(
                    if limit as int <= self@.index.mapping.len() {
                        limit as int
                    } else {
                        self@.index.mapping.len() as int
                    },
                ),
                Err(e) => e == StoreError::DimensionMismatch && query@.len()
                    != self@.index.dim,
            },
    {
        self.index.search(query, limit)
    }

    /// Answers a similarity query joined back to the entity tables: up to
    /// `limit` entities of the requested kind, in ranking order. The whole
    /// ranking serves as the candidate list, since hits of all kinds mix in
    /// it; a candidate whose entity row is gone — a stale mapping — is
    /// skipped, not an error.
    pub fn find_similar_entities(&self, kind: EntityKind, query: &Vec<u32>, limit: usize) -> (r:
        Result<Vec<Entity>, StoreError>)
        requires
            self.wf(),
        ensures
            match r {
                Ok(es) => query@.len() == self@.index.dim && es@.map_values(|e: Entity| e.rec())
                    =~= spec_find_similar_entities(self@, kind, query@, limit as int) && forall|
                    t: int,
                |
                    0 <= t < es@.len() ==> (#[trigger] es@[t]).kind() == kind,
                Err(e) => e == StoreError::DimensionMismatch && query@.len()
                    != self@.index.dim,
            },
    {
        let n = self.index.mapping.len();
        let hits = match self.index.search(query, n) {
            Ok(h) => h,
            Err(e) => {
                return Err(e);
            },
        };
        let ghost rk = ranking(self@.index, query@);
        proof {
            lemma_sort_hits_ensures(crate::index::hits_of(self@.index, query@));
            assert(rk.len() == self@.index.mapping.len());
            assert(rk.take(n as int) =~= rk);
            assert(hseq(hits@) =~= rk);
        }
        let mut out: Vec<Entity> = Vec::new();
        let mut i: usize = 0;
        while i < hits.len() && out.len() < limit
            invariant
                self.wf(),
                query@.len() == self@.index.dim,
                rk == ranking(self@.index, query@),
                hseq(hits@) =~= rk,
                i <= hits@.len(),
                out@.len() <= limit,
                out@.map_values(|e: Entity| e.rec()) =~= resolved(self@, rk.take(i as int), kind),
                forall|t: int| 0 <= t < out@.len() ==> (#[trigger] out@[t]).kind() == kind,
            decreases hits@.len() - i,
        {
            let h = &hits[i];
            proof {
                assert(h@ == rk[i as int]);
                assert(rk.take(i + 1) =~= rk.take(i as int) + seq![rk[i as int]]);
                lemma_resolved_append(self@, rk.take(i as int), seq![rk[i as int]], kind);
                assert(seq![rk[i as int]].first() == rk[i as int]);
                assert(seq![rk[i as int]].drop_first() =~= Seq::<HitV>::empty());
                assert(resolved(self@, seq![rk[i as int]].drop_first(), kind) =~= Seq::<
                    Rec,
                >::empty());
            }
            if h.object_kind == kind {
                match self.read(kind, &h.object_id) {
                    Some(e) => {
                        out.push(e);
                        proof {
                            assert(has_entity(self@, kind, rk[i as int].object_id));
                            assert(resolved(self@, seq![rk[i as int]], kind) =~= seq![
                                self@.entities[entity_at(self@, kind, rk[i as int].object_id)].1,
                            ]);
                            assert(out@.map_values(|e: Entity| e.rec()) =~= resolved(
                                self@,
                                rk.take(i + 1),
                                kind,
                            ));
                        }
                    },
                    None => {
                        proof {
                            assert(!has_entity(self@, kind, rk[i as int].object_id));
                            assert(resolved(self@, seq![rk[i as int]], kind) =~= Seq::<
                                Rec,
                            >::empty());
                            assert(out@.map_values(|e: Entity| e.rec()) =~= resolved(
                                self@,
                                rk.take(i + 1),
                                kind,
                            ));
                        }
                    },
                }
            } else {
                proof {
                    assert(resolved(self@, seq![rk[i as int]], kind) =~= Seq::<Rec>::empty());
                    assert(out@.map_values(|e: Entity| e.rec()) =~= resolved(
                        self@,
                        rk.take(i + 1),
                        kind,
                    ));
                }
            }
            i = i + 1;
        }
        proof {
            let all = resolved(self@, rk, kind);
            if i == hits@.len() {
                assert(rk.take(rk.len() as int) =~= rk);
                assert(out@.map_values(|e: Entity| e.rec()) =~= all);
                assert(all.take(all.len() as int) =~= all);
            } else {
                assert(out@.len() == limit);
                lemma_resolved_append(self@, rk.take(i as int), rk.skip(i as int), kind);
                assert(rk.take(i as int) + rk.skip(i as int) =~= rk);
                assert(all =~= resolved(self@, rk.take(i as int), kind) + resolved(
                    self@,
                    rk.skip(i as int),
                    kind,
                ));
                assert(out@.map_values(|e: Entity| e.rec()) =~= all.take(limit as int));
            }
        }
        Ok(out)
    }

    /// Creates an entity and runs the replace-embedding protocol for it in
    /// one step, with the provider's outcome handed in as a value: the
    /// vector it returned, or `None` when it failed.
    ///
    /// On `StoreError::Conflict` nothing changes. On
    /// `StoreError::Provider` and `StoreError::DimensionMismatch` the
    /// entity row is nevertheless kept — the entity write is not rolled
    /// back when its embedding cannot be stored; the entity is then
    /// readable by key but not findable by similarity until the next
    /// successful write.
    pub fn create_with_embedding(
        &mut self,
        entity: Entity,
        now: String,
        provided: Option<Vec<u32>>,
    ) -> (r: Result<String, StoreError>)
        requires
            old(self).wf(),
            old(self).index.next_slot < u64::MAX,
        ensures
            final(self).wf(),
            match r {
                Ok(id) => {
                    &&& !has_entity(old(self)@, entity.kind(), entity.rec().id)
                    &&& id@ == entity.rec().id
                    &&& provided matches Some(v) && v@.len() == old(self)@.index.dim
                        && final(self)@ =~~= spec_store_embedding(
                        spec_create(old(self)@, entity.kind(), entity.rec(), now@),
                        entity.kind(),
                        entity.rec().id,
                        v@,
                    )
                },
                Err(e) => {
                    &&& (e == StoreError::Conflict || e == StoreError::Provider || e
                        == StoreError::DimensionMismatch)
                    &&& e == StoreError::Conflict ==> has_entity(
                        old(self)@,
                        entity.kind(),
                        entity.rec().id,
                    ) && final(self)@ =~~= old(self)@
                    &&& e == StoreError::Provider ==> !has_entity(
                        old(self)@,
                        entity.kind(),
                        entity.rec().id,
                    ) && provided is None && final(self)@ =~~= spec_create(
                        old(self)@,
                        entity.kind(),
                        entity.rec(),
                        now@,
                    )
                    &&& e == StoreError::DimensionMismatch ==> !has_entity(
                        old(self)@,
                        entity.kind(),
                        entity.rec().id,
                    ) && (provided matches Some(v) && v@.len() != old(self)@.index.dim) && final(self)@
                        =~~= spec_create(old(self)@, entity.kind(), entity.rec(), now@)
                },
            },
    {
        let kind = entity.get_kind();
        let id = match self.create_at(entity, now) {
            Ok(id) => id,
            Err(e) => {
                return Err(e);
            },
        };
        match provided {
            None => Err(StoreError::Provider),
            Some(v) => {
                match self.store_embedding(&id, kind, &v) {
                    Ok(_) => Ok(id),
                    Err(e) => Err(e),
                }
            },
        }
    }

    /// Updates an entity and runs the replace-embedding protocol for it in
    /// one step, with the provider's outcome handed in as a value.
    ///
    /// An absent identifier leaves the store unchanged and is not an
    /// error, and nothing is embedded then. On `StoreError::Provider` and
    /// `StoreError::DimensionMismatch` the updated entity row is kept —
    /// only its embedding is stale.
    pub fn update_with_embedding(
        &mut self,
        entity: &Entity,
        now: String,
        provided: Option<Vec<u32>>,
    ) -> (r: Result<(), StoreError>)
        requires
            old(self).wf(),
            old(self).index.next_slot < u64::MAX,
        ensures
            final(self).wf(),
            match r {
                Ok(_) => if has_entity(old(self)@, entity.kind(), entity.rec().id) {
                    provided matches Some(v) && v@.len() == old(self)@.index.dim && final(self)@
                        =~~= spec_store_embedding(
                        spec_update(old(self)@, entity.kind(), entity.rec(), now@),
                        entity.kind(),
                        entity.rec().id,
                        v@,
                    )
                } else {
                    final(self)@ =~~= old(self)@
                },
                Err(e) => {
                    &&& has_entity(old(self)@, entity.kind(), entity.rec().id)
                    &&& final(self)@ =~~= spec_update(
                        old(self)@,
                        entity.kind(),
                        entity.rec(),
                        now@,
                    )
                    &&& e == StoreError::Provider ==> provided is None
                    &&& e == StoreError::DimensionMismatch ==> (provided matches Some(v) && v@.len()
                        != old(self)@.index.dim)
                    &&& (e == StoreError::Provider || e == StoreError::DimensionMismatch)
                },
            },
    {
        if self.find_row(entity.get_kind(), entity.get_id()).is_none() {
            return Ok(());
        }
        let id = entity.get_id().clone();
        let kind = entity.get_kind();
        match self.update_at(entity, now) {
            Ok(_) => {},
            Err(_) => {},
        }
        match provided {
            None => Err(StoreError::Provider),
            Some(v) => {
                match self.store_embedding(&id, kind, &v) {
                    Ok(_) => Ok(()),
                    Err(e) => Err(e),
                }
            },
        }
    }
}

/// Every element of a sequence a predicate holds on survives its filter.
proof fn lemma_filter_all_kept<T>(s: Seq<T>, pred: spec_fn(T) -> bool)
    requires
        forall|i: int| 0 <= i < s.len() ==> pred(#[trigger] s[i]),
    ensures
        s.filter(pred) =~= s,
    decreases s.len(),
{
    reveal(Seq::filter);
    if s.len() > 0 {
        let dl = s.drop_last();
        assert forall|i: int| 0 <= i < dl.len() implies pred(#[trigger] dl[i]) by {
            assert(pred(s[i]));
        }
        lemma_filter_all_kept(dl, pred);
    }
}

/// Deleting is idempotent: a second delete of the same identifier finds
/// nothing to remove and leaves the store exactly as the first left it.
pub proof fn lemma_delete_idempotent(s: StoreV, k: EntityKind, id: Seq<char>)
    requires
        store_wf(s),
    ensures
        spec_delete(spec_delete(s, k, id), k, id) =~~= spec_delete(s, k, id),
{
    broadcast use vstd::seq_lib::group_filter_ensures;

    let y = spec_delete(s, k, id);
    assert forall|i: int| 0 <= i < y.entities.len() implies keep_entity_pred(k, id)(
        #[trigger] y.entities[i],
    ) by {}
    lemma_filter_all_kept(y.entities, keep_entity_pred(k, id));
    assert forall|i: int| 0 <= i < y.index.mapping.len() implies keep_map_pred(id, k)(
        #[trigger] y.index.mapping[i],
    ) by {}
    lemma_filter_all_kept(y.index.mapping, keep_map_pred(id, k));
    assert forall|i: int| 0 <= i < y.index.vectors.len() implies keep_vec_pred(
        y.index.mapping,
        id,
        k,
    )(#[trigger] y.index.vectors[i]) by {
        if slot_owned(y.index.mapping, id, k, y.index.vectors[i].slot) {
            let u = choose|u: int|
                0 <= u < y.index.mapping.len() && (#[trigger] y.index.mapping[u]).object_id
                    == id && y.index.mapping[u].object_kind == k && y.index.mapping[u].slot
                    == y.index.vectors[i].slot;
            assert(keep_map_pred(id, k)(y.index.mapping[u]));
            assert(false);
        }
    }
    lemma_filter_all_kept(y.index.vectors, keep_vec_pred(y.index.mapping, id, k));
    assert(spec_delete(y, k, id) =~~= y);
}

/// After a delete, no similarity search of any query at any limit can
/// return the deleted owner: its embedding records are unreachable.
pub proof fn lemma_delete_unsearchable(s: StoreV, k: EntityKind, id: Seq<char>, q: Seq<u32>)
    requires
        store_wf(s),
    ensures
        forall|t: int|
            0 <= t < ranking(spec_delete(s, k, id).index, q).len() ==> !((#[trigger] ranking(
                spec_delete(s, k, id).index,
                q,
            )[t]).object_id == id && ranking(spec_delete(s, k, id).index, q)[t].object_kind
                == k),
{
    broadcast use vstd::seq_lib::group_filter_ensures;

    let y = spec_delete(s, k, id).index;
    let hs = hits_of(y, q);
    let rk = ranking(y, q);
    lemma_sort_hits_ensures(hs);
    assert forall|t: int| 0 <= t < rk.len() implies !((#[trigger] rk[t]).object_id == id
        && rk[t].object_kind == k) by {
        assert(rk.contains(rk[t]));
        lemma_sort_hits_contains(hs, rk[t]);
        assert(hs.contains(rk[t]));
        let j = choose|j: int| 0 <= j < hs.len() && hs[j] == rk[t];
        assert(keep_map_pred(id, k)(y.mapping[j]));
    }
}

/// The replace invariant: however many creates, updates and replaces have
/// run, a raw scan of the metadata mapping finds at most one row for any
/// `(identifier, kind)`. Every operation of the store ensures
/// well-formedness of the state it leaves, so this holds after any
/// sequence of operations.
pub proof fn lemma_at_most_one_embedding_record(s: StoreV, k: EntityKind, id: Seq<char>)
    requires
        store_wf(s),
    ensures
        forall|i: int, j: int|
            0 <= i < j < s.index.mapping.len() ==> !((#[trigger] s.index.mapping[i]).object_id
                == id && s.index.mapping[i].object_kind == k && (
            #[trigger] s.index.mapping[j]).object_id == id && s.index.mapping[j].object_kind
                == k),
{
}

/// A replace-embedding keeps the store well formed.
pub proof fn lemma_store_embedding_wf(s: StoreV, k: EntityKind, id: Seq<char>, v: Seq<u32>)
    requires
        store_wf(s),
        v.len() == s.index.dim,
    ensures
        store_wf(spec_store_embedding(s, k, id, v)),
{
    let xr = spec_remove_owner(s.index, id, k);
    lemma_remove_owner_wf(s.index, id, k);
    lemma_insert_wf(xr, v, id, k);
    lemma_filter_owner_unique(s.index.mapping, keep_map_pred(id, k));
    let newm = spec_store_embedding(s, k, id, v).index.mapping;
    broadcast use vstd::seq_lib::group_filter_ensures;

    assert forall|i: int, j: int| 0 <= i < j < newm.len() implies !((
    #[trigger] newm[i]).object_id == (#[trigger] newm[j]).object_id && newm[i].object_kind
        == newm[j].object_kind) by {
        if j < xr.mapping.len() {
            assert(xr.mapping[i] == newm[i] && xr.mapping[j] == newm[j]);
        } else {
            assert(newm[i] == xr.mapping[i]);
            assert(keep_map_pred(id, k)(newm[i]));
        }
    }
}

/// After a replace-embedding whose vector equals no other stored vector,
/// the owner that was embedded is the top result of a similarity search
/// for that very vector, at distance zero: freshly written content is
/// immediately found first.
pub proof fn lemma_fresh_embedding_top(s: StoreV, k: EntityKind, id: Seq<char>, v: Seq<u32>)
    requires
        store_wf(s),
        v.len() == s.index.dim,
        forall|t: int|
            0 <= t < s.index.vectors.len() ==> (#[trigger] s.index.vectors[t]).vector != v,
    ensures
        ranking(spec_store_embedding(s, k, id, v).index, v).len() == spec_store_embedding(
            s,
            k,
            id,
            v,
        ).index.mapping.len(),
        ranking(spec_store_embedding(s, k, id, v).index, v)[0].object_id == id,
        ranking(spec_store_embedding(s, k, id, v).index, v)[0].object_kind == k,
        ranking(spec_store_embedding(s, k, id, v).index, v)[0].distance == 0,
{
    broadcast use vstd::seq_lib::group_filter_ensures;

    let y = spec_store_embedding(s, k, id, v);
    let x = y.index;
    let xr = spec_remove_owner(s.index, id, k);
    lemma_remove_owner_wf(s.index, id, k);
    lemma_insert_wf(xr, v, id, k);
    lemma_store_embedding_wf(s, k, id, v);
    let n = x.mapping.len() - 1;
    assert(x.mapping[n].object_id == id && x.mapping[n].object_kind == k);
    let last = x.vectors.len() - 1;
    assert(x.vectors[last].slot == x.mapping[n].slot && x.vectors[last].vector == v);
    lemma_vector_of(x, last);
    assert(vector_of(x, x.mapping[n].slot) == v);
    lemma_filter_subseq(s.index.vectors, keep_vec_pred(s.index.mapping, id, k));
    assert forall|j: int| 0 <= j < x.mapping.len() && j != n implies vector_of(
        x,
        (#[trigger] x.mapping[j]).slot,
    ) != v by {
        assert(x.mapping[j] == xr.mapping[j]);
        assert(x.mapping[j].slot < xr.next_slot);
        assert(has_vector(x, x.mapping[j].slot));
        let w = choose|w: int|
            0 <= w < x.vectors.len() && (#[trigger] x.vectors[w]).slot == x.mapping[j].slot;
        if w == last {
            assert(x.vectors[w].slot == xr.next_slot);
            assert(false);
        }
        assert(x.vectors[w] == xr.vectors[w]);
        assert(s.index.vectors.contains(xr.vectors[w]));
        let t = choose|t: int|
            0 <= t < s.index.vectors.len() && s.index.vectors[t] == xr.vectors[w];
        assert(s.index.vectors[t].vector != v);
        lemma_vector_of(x, w);
    }
    lemma_self_similarity(y, k, id, n, v);
}

/// Self-similarity is minimal distance: when an owner's stored vector is
/// queried for and no other stored vector equals it, that owner is the top
/// result, at distance zero. (With duplicate identical vectors the top
/// result is the one in the earliest slot, which need not be this owner.)
pub proof fn lemma_self_similarity(s: StoreV, k: EntityKind, id: Seq<char>, i: int, v: Seq<u32>)
    requires
        store_wf(s),
        0 <= i < s.index.mapping.len(),
        s.index.mapping[i].object_id == id,
        s.index.mapping[i].object_kind == k,
        vector_of(s.index, s.index.mapping[i].slot) == v,
        forall|j: int|
            0 <= j < s.index.mapping.len() && j != i ==> vector_of(
                s.index,
                (#[trigger] s.index.mapping[j]).slot,
            ) != v,
    ensures
        ranking(s.index, v).len() == s.index.mapping.len(),
        ranking(s.index, v)[0].object_id == id,
        ranking(s.index, v)[0].object_kind == k,
        ranking(s.index, v)[0].distance == 0,
{
    let x = s.index;
    let hs = hits_of(x, v);
    let rk = ranking(x, v);
    lemma_dist_self(v);
    assert(hs[i].distance == 0);
    assert(v.len() == x.dim) by {
        assert(has_vector(x, x.mapping[i].slot));
        let w = choose|w: int|
            0 <= w < x.vectors.len() && (#[trigger] x.vectors[w]).slot == x.mapping[i].slot;
        assert(x.vectors[slot_index(x, x.mapping[i].slot)].vector == v);
    }
    assert forall|j: int| 0 <= j < hs.len() && j != i implies (#[trigger] hs[j]).distance
        > 0 by {
        let w = vector_of(x, x.mapping[j].slot);
        assert(w != v);
        assert(w.len() == x.dim) by {
            assert(has_vector(x, x.mapping[j].slot));
            let u = choose|u: int|
                0 <= u < x.vectors.len() && (#[trigger] x.vectors[u]).slot == x.mapping[j].slot;
            assert(0 <= slot_index(x, x.mapping[j].slot) < x.vectors.len());
        }
        lemma_dist_positive(v, w);
    }
    lemma_sort_hits_ensures(hs);
    lemma_sort_hits_contains(hs, hs[i]);
    assert(hs.contains(hs[i]));
    assert(rk.contains(hs[i]));
    let t = choose|t: int| 0 <= t < rk.len() && rk[t] == hs[i];
    assert(rk.contains(rk[0]));
    lemma_sort_hits_contains(hs, rk[0]);
    let w = choose|w: int| 0 <= w < hs.len() && hs[w] == rk[0];
    assert(key_le(rk[0], rk[t]));
    assert(rk[0].distance == 0);
    if w != i {
        assert(hs[w].distance > 0);
        assert(false);
    }
    assert(rk[0] == hs[i]);
}

} // verus!
