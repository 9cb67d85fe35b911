//! The vector index: physical storage of fixed-dimension component vectors
//! plus the metadata mapping that binds each storage slot back to the
//! `(identifier, kind)` of the entity owning the vector.
//!
//! The index is independent of entity semantics. It supports insert,
//! delete-by-owner and k-nearest-neighbour search; distances are squared
//! Euclidean distances over the integer components, so smaller means more
//! similar, and ties are broken by storage slot — that is, by physical
//! insertion order. Vectors are held at rest in the flat little-endian byte
//! form of [`crate::codec`].

use vstd::multiset::Multiset;
use vstd::prelude::*;

use crate::codec::{decode_vector, decoded, encode_vector, lemma_decode_of_encode};
use crate::entity::EntityKind;
use crate::error::StoreError;

verus! {

/// The squared difference of two components.
pub open spec fn sq_diff(a: int, b: int) -> nat {
    (if a >= b {
        (a - b) * (a - b)
    } else {
        (b - a) * (b - a)
    }) as nat
}

/// The squared Euclidean distance between two component vectors of equal
/// length: the sum of the squared componentwise differences.
pub open spec fn dist(a: Seq<u32>, b: Seq<u32>) -> nat
    decreases a.len(),
{
    if a.len() == 0 || b.len() == 0 {
        0
    } else {
        sq_diff(a.first() as int, b.first() as int) + dist(a.drop_first(), b.drop_first())
    }
}

/// Extending both vectors by one component adds that component pair's
/// squared difference.
proof fn lemma_dist_push(a: Seq<u32>, b: Seq<u32>, x: u32, y: u32)
    requires
        a.len() == b.len(),
    ensures
        dist(a.push(x), b.push(y)) == dist(a, b) + sq_diff(x as int, y as int),
    decreases a.len(),
{
    if a.len() == 0 {
        assert(a.push(x).first() == x);
        assert(b.push(y).first() == y);
        assert(a.push(x).drop_first() =~= Seq::<u32>::empty());
        assert(b.push(y).drop_first() =~= Seq::<u32>::empty());
        assert(dist(a.push(x).drop_first(), b.push(y).drop_first()) == 0);
    } else {
        assert(a.push(x).first() == a.first());
        assert(b.push(y).first() == b.first());
        assert(a.push(x).drop_first() =~= a.drop_first().push(x));
        assert(b.push(y).drop_first() =~= b.drop_first().push(y));
        lemma_dist_push(a.drop_first(), b.drop_first(), x, y);
    }
}

/// The largest possible squared componentwise difference.
pub open spec fn max_sq_diff() -> nat {
    0xfffffffe00000001
}

/// A vector is at distance zero from itself.
pub proof fn lemma_dist_self(a: Seq<u32>)
    ensures
        dist(a, a) == 0,
    decreases a.len(),
{
    if a.len() > 0 {
        lemma_dist_self(a.drop_first());
    }
}

/// Distinct vectors of equal length are at strictly positive distance:
/// the metric separates points exactly.
pub proof fn lemma_dist_positive(a: Seq<u32>, b: Seq<u32>)
    requires
        a.len() == b.len(),
        a != b,
    ensures
        dist(a, b) > 0,
    decreases a.len(),
{
    if forall|i: int| 0 <= i < a.len() ==> a[i] == b[i] {
        assert(a =~= b);
    } else {
        let i = choose|i: int| 0 <= i < a.len() && a[i] != b[i];
        if i == 0 {
            let x = a.first() as int;
            let y = b.first() as int;
            let d = if x >= y {
                x - y
            } else {
                y - x
            };
            assert(d > 0);
            assert(d * d > 0) by (nonlinear_arith)
                requires
                    d > 0,
            ;
        } else {
            assert(a.drop_first()[i - 1] != b.drop_first()[i - 1]);
            assert(a.drop_first() != b.drop_first());
            lemma_dist_positive(a.drop_first(), b.drop_first());
        }
    }
}

/// Computes the squared Euclidean distance between two equal-length
/// component vectors. The sum always fits: each squared difference is below
/// `2^64` and there are fewer than `2^64` of them.
pub fn distance(a: &Vec<u32>, b: &Vec<u32>) -> (r: u128)
    requires
        a@.len() == b@.len(),
    ensures
        r == dist(a@, b@),
{
    let mut acc: u128 = 0;
    let mut i: usize = 0;
    while i < a.len()
        invariant
            i <= a@.len(),
            a@.len() == b@.len(),
            acc == dist(a@.take(i as int), b@.take(i as int)),
            acc <= i * max_sq_diff(),
        decreases a@.len() - i,
    {
        let x = a[i];
        let y = b[i];
        let d: u64 = if x >= y {
            (x - y) as u64
        } else {
            (y - x) as u64
        };
        proof {
            assert(d <= 0xffffffff);
            assert((d as int) * (d as int) <= max_sq_diff()) by (nonlinear_arith)
                requires
                    0 <= d <= 0xffffffff,
            ;
            assert(acc + (d as int) * (d as int) <= (i + 1) * max_sq_diff()) by {
                vstd::arithmetic::mul::lemma_mul_is_distributive_add_other_way(
                    max_sq_diff() as int,
                    i as int,
                    1,
                );
            }
            assert(((i + 1) as int) * max_sq_diff() <= 0xffffffffffffffff * max_sq_diff()) by {
                vstd::arithmetic::mul::lemma_mul_inequality(
                    (i + 1) as int,
                    0xffffffffffffffff,
                    max_sq_diff() as int,
                );
            }
        }
        let term: u128 = (d as u128) * (d as u128);
        acc = acc + term;
        proof {
            assert(a@.take(i + 1) =~= a@.take(i as int).push(a@[i as int]));
            assert(b@.take(i + 1) =~= b@.take(i as int).push(b@[i as int]));
            lemma_dist_push(a@.take(i as int), b@.take(i as int), a@[i as int], b@[i as int]);
            assert(sq_diff(x as int, y as int) == (d as int) * (d as int));
        }
        i = i + 1;
    }
    proof {
        assert(a@.take(a@.len() as int) =~= a@);
        assert(b@.take(b@.len() as int) =~= b@);
    }
    acc
}

/// One nearest-neighbour candidate: the owning entity's identifier and
/// kind, the storage slot the vector sits in, and its distance from the
/// query.
#[derive(Debug)]
pub struct SearchHit {
    pub slot: u64,
    pub object_id: String,
    pub object_kind: EntityKind,
    pub distance: u128,
}

/// The mathematical content of a search hit.
#[verifier::ext_equal]
pub struct HitV {
    pub slot: nat,
    pub object_id: Seq<char>,
    pub object_kind: EntityKind,
    pub distance: nat,
}

impl View for SearchHit {
    type V = HitV;

    open spec fn view(&self) -> HitV {
        HitV {
            slot: self.slot as nat,
            object_id: self.object_id@,
            object_kind: self.object_kind,
            distance: self.distance as nat,
        }
    }
}

/// The contents of a hit list, hit by hit.
pub open spec fn hseq(s: Seq<SearchHit>) -> Seq<HitV> {
    s.map_values(|h: SearchHit| h@)
}

/// The ranking order on hits: ascending distance, ties broken by ascending
/// slot — physical insertion order.
pub open spec fn key_le(a: HitV, b: HitV) -> bool {
    a.distance < b.distance || (a.distance == b.distance && a.slot <= b.slot)
}

/// Whether a hit list is in ranking order.
pub open spec fn hits_sorted(s: Seq<HitV>) -> bool {
    forall|i: int, j: int| 0 <= i < j < s.len() ==> key_le(#[trigger] s[i], #[trigger] s[j])
}

/// Insertion of one hit into a list already in ranking order, before the
/// first element it ranks no worse than.
pub open spec fn insert_sorted(h: HitV, s: Seq<HitV>) -> Seq<HitV>
    decreases s.len(),
{
    if s.len() == 0 {
        seq![h]
    } else if key_le(h, s.first()) {
        seq![h] + s
    } else {
        seq![s.first()] + insert_sorted(h, s.drop_first())
    }
}

/// The ranking of a hit list: its hits in ranking order. Insertion from the
/// back keeps the definition aligned with a front-to-back building loop.
pub open spec fn sort_hits(s: Seq<HitV>) -> Seq<HitV>
    decreases s.len(),
{
    if s.len() == 0 {
        Seq::empty()
    } else {
        insert_sorted(s.last(), sort_hits(s.drop_last()))
    }
}

/// What sorted insertion does: one longer, same hits plus the new one, and
/// still in ranking order.
proof fn lemma_insert_sorted_ensures(h: HitV, s: Seq<HitV>)
    ensures
        insert_sorted(h, s).len() == s.len() + 1,
        insert_sorted(h, s).to_multiset() =~= s.to_multiset().insert(h),
        hits_sorted(s) ==> hits_sorted(insert_sorted(h, s)),
    decreases s.len(),
{
    broadcast use vstd::seq_lib::group_to_multiset_ensures;

    let out = insert_sorted(h, s);
    if s.len() == 0 {
        assert(out =~= Seq::empty().push(h));
        assert(Seq::<HitV>::empty().to_multiset() =~= Multiset::empty());
    } else if key_le(h, s.first()) {
        assert(out =~= seq![h] + s);
        lemma_multiset_of_cons(h, s);
        if hits_sorted(s) {
            assert forall|i: int, j: int| 0 <= i < j < out.len() implies key_le(
                #[trigger] out[i],
                #[trigger] out[j],
            ) by {
                if i == 0 {
                    assert(key_le(h, s.first()));
                    if j > 1 {
                        assert(key_le(s[0], s[j - 1]));
                    }
                } else {
                    assert(key_le(s[i - 1], s[j - 1]));
                }
            }
        }
    } else {
        let rest = insert_sorted(h, s.drop_first());
        lemma_insert_sorted_ensures(h, s.drop_first());
        assert(out =~= seq![s.first()] + rest);
        lemma_multiset_of_cons(s.first(), rest);
        lemma_multiset_of_cons(s.first(), s.drop_first());
        assert(s =~= seq![s.first()] + s.drop_first());
        assert(out.to_multiset() =~= s.to_multiset().insert(h));
        if hits_sorted(s) {
            assert(hits_sorted(s.drop_first())) by {
                assert forall|i: int, j: int| 0 <= i < j < s.drop_first().len() implies key_le(
                    #[trigger] s.drop_first()[i],
                    #[trigger] s.drop_first()[j],
                ) by {
                    assert(key_le(s[i + 1], s[j + 1]));
                }
            }
            assert forall|i: int, j: int| 0 <= i < j < out.len() implies key_le(
                #[trigger] out[i],
                #[trigger] out[j],
            ) by {
                if i == 0 {
                    // the head ranks no worse than h and than every element
                    // of the sorted remainder, hence than everything in rest
                    assert(!key_le(h, s.first()));
                    assert(rest.to_multiset().contains(out[j]));
                    assert(rest.contains(out[j]));
                    let w = choose|w: int| 0 <= w < rest.len() && rest[w] == out[j];
                    assert(s.drop_first().to_multiset().insert(h).contains(out[j]));
                    if out[j] == h {
                        assert(key_le(s.first(), h));
                    } else {
                        assert(s.drop_first().to_multiset().contains(out[j]));
                        assert(s.drop_first().contains(out[j]));
                        let w2 = choose|w2: int|
                            0 <= w2 < s.drop_first().len() && s.drop_first()[w2] == out[j];
                        assert(key_le(s[0], s[w2 + 1]));
                    }
                } else {
                    assert(key_le(rest[i - 1], rest[j - 1]));
                }
            }
        }
    }
}

/// A one-element prepend adds that element to the multiset.
proof fn lemma_multiset_of_cons(h: HitV, s: Seq<HitV>)
    ensures
        (seq![h] + s).to_multiset() =~= s.to_multiset().insert(h),
    decreases s.len(),
{
    broadcast use vstd::seq_lib::group_to_multiset_ensures;

    if s.len() == 0 {
        assert(seq![h] + s =~= Seq::empty().push(h));
    } else {
        lemma_multiset_of_cons(h, s.drop_last());
        assert(seq![h] + s =~= (seq![h] + s.drop_last()).push(s.last()));
        assert(s =~= s.drop_last().push(s.last()));
    }
}

/// What ranking does: same length, same hits, ranking order.
pub proof fn lemma_sort_hits_ensures(s: Seq<HitV>)
    ensures
        sort_hits(s).len() == s.len(),
        sort_hits(s).to_multiset() =~= s.to_multiset(),
        hits_sorted(sort_hits(s)),
    decreases s.len(),
{
    broadcast use vstd::seq_lib::group_to_multiset_ensures;

    if s.len() > 0 {
        lemma_sort_hits_ensures(s.drop_last());
        lemma_insert_sorted_ensures(s.last(), sort_hits(s.drop_last()));
        assert(s =~= s.drop_last().push(s.last()));
    }
}

/// A hit list and its ranking hold the same hits.
pub proof fn lemma_sort_hits_contains(s: Seq<HitV>, h: HitV)
    ensures
        sort_hits(s).contains(h) <==> s.contains(h),
{
    broadcast use vstd::seq_lib::group_to_multiset_ensures;

    lemma_sort_hits_ensures(s);
    assert(sort_hits(s).contains(h) <==> sort_hits(s).to_multiset().count(h) > 0);
    assert(s.contains(h) <==> s.to_multiset().count(h) > 0);
    assert(sort_hits(s).to_multiset().count(h) == s.to_multiset().count(h));
}

/// Compares two hits in ranking order.
fn key_le_exec(a: &SearchHit, b: &SearchHit) -> (r: bool)
    ensures
        r == key_le(a@, b@),
{
    a.distance < b.distance || (a.distance == b.distance && a.slot <= b.slot)
}

/// Sorted insertion lands exactly before the first element the new hit
/// ranks no worse than.
proof fn lemma_insert_sorted_position(h: HitV, s: Seq<HitV>, p: int)
    requires
        0 <= p <= s.len(),
        forall|i: int| 0 <= i < p ==> !key_le(h, #[trigger] s[i]),
        p < s.len() ==> key_le(h, s[p]),
    ensures
        insert_sorted(h, s) =~= s.insert(p, h),
    decreases s.len(),
{
    if s.len() == 0 {
        assert(insert_sorted(h, s) =~= s.insert(0, h));
    } else if key_le(h, s.first()) {
        assert(p == 0);
        assert(seq![h] + s =~= s.insert(0, h));
    } else {
        assert(p >= 1);
        lemma_insert_sorted_position(h, s.drop_first(), p - 1);
        assert(seq![s.first()] + s.drop_first().insert(p - 1, h) =~= s.insert(p, h));
    }
}

/// Inserts a hit into a list kept in ranking order.
fn insert_hit(list: &mut Vec<SearchHit>, h: SearchHit)
    ensures
        hseq(final(list)@) =~= insert_sorted(h@, hseq(old(list)@)),
{
    let mut p: usize = 0;
    while p < list.len() && !key_le_exec(&h, &list[p])
        invariant
            p <= list@.len(),
            list@ == old(list)@,
            forall|i: int| 0 <= i < p ==> !key_le(h@, #[trigger] hseq(list@)[i]),
        decreases list@.len() - p,
    {
        p = p + 1;
    }
    proof {
        lemma_insert_sorted_position(h@, hseq(list@), p as int);
    }
    list.insert(p, h);
    proof {
        assert(hseq(final(list)@) =~= hseq(old(list)@).insert(p as int, h@));
    }
}

/// Sorts a hit list into ranking order.
fn sort_hit_list(hits: Vec<SearchHit>) -> (r: Vec<SearchHit>)
    ensures
        hseq(r@) =~= sort_hits(hseq(hits@)),
{
    let ghost orig = hseq(hits@);
    let mut rem = hits;
    let total = rem.len();
    let mut out: Vec<SearchHit> = Vec::new();
    let mut i: usize = 0;
    while rem.len() > 0
        invariant
            orig.len() == total,
            i + rem@.len() == orig.len(),
            hseq(rem@) =~= orig.skip(i as int),
            hseq(out@) =~= sort_hits(orig.take(i as int)),
        decreases rem@.len(),
    {
        let ghost rem_before = rem@;
        let h = rem.remove(0);
        proof {
            assert(h@ == hseq(rem_before)[0]);
            assert(h@ == orig[i as int]);
            assert(hseq(rem@) =~= orig.skip(i + 1)) by {
                assert forall|j: int| 0 <= j < rem@.len() implies hseq(rem@)[j] == orig.skip(
                    i + 1,
                )[j] by {
                    assert(rem@[j] == rem_before[j + 1]);
                    assert(hseq(rem_before)[j + 1] == orig.skip(i as int)[j + 1]);
                }
            }
        }
        insert_hit(&mut out, h);
        proof {
            assert(orig.take(i + 1).drop_last() =~= orig.take(i as int));
            assert(orig.take(i + 1).last() == orig[i as int]);
            assert(sort_hits(orig.take(i + 1)) == insert_sorted(
                orig[i as int],
                sort_hits(orig.take(i as int)),
            ));
        }
        i = i + 1;
    }
    proof {
        assert(orig.take(orig.len() as int) =~= orig);
    }
    out
}

/// One vector row: a storage slot and the vector's at-rest byte payload.
#[derive(Debug)]
pub struct VecRow {
    pub slot: u64,
    pub payload: Vec<u8>,
}

/// The mathematical content of a vector row: the slot and the decoded
/// component vector.
#[verifier::ext_equal]
pub struct VecRowV {
    pub slot: nat,
    pub vector: Seq<u32>,
}

impl View for VecRow {
    type V = VecRowV;

    open spec fn view(&self) -> VecRowV {
        VecRowV { slot: self.slot as nat, vector: decoded(self.payload@) }
    }
}

/// One metadata mapping row: the storage slot and the owning entity's
/// identifier and kind.
#[derive(Debug)]
pub struct MapRow {
    pub slot: u64,
    pub object_id: String,
    pub object_kind: EntityKind,
}

/// The mathematical content of a mapping row.
#[verifier::ext_equal]
pub struct MapRowV {
    pub slot: nat,
    pub object_id: Seq<char>,
    pub object_kind: EntityKind,
}

impl View for MapRow {
    type V = MapRowV;

    open spec fn view(&self) -> MapRowV {
        MapRowV {
            slot: self.slot as nat,
            object_id: self.object_id@,
            object_kind: self.object_kind,
        }
    }
}

impl MapRow {
    /// A field-for-field copy.
    fn duplicate(&self) -> (r: MapRow)
        ensures
            r@ == self@,
    {
        MapRow {
            slot: self.slot,
            object_id: self.object_id.clone(),
            object_kind: self.object_kind,
        }
    }
}

impl VecRow {
    /// A field-for-field copy, byte for byte.
    fn duplicate(&self) -> (r: VecRow)
        ensures
            r.slot == self.slot,
            r.payload@ =~= self.payload@,
            r@ == self@,
    {
        let mut payload: Vec<u8> = Vec::new();
        let mut i: usize = 0;
        while i < self.payload.len()
            invariant
                i <= self.payload@.len(),
                payload@ =~= self.payload@.take(i as int),
            decreases self.payload@.len() - i,
        {
            payload.push(self.payload[i]);
            i = i + 1;
        }
        proof {
            assert(self.payload@.take(self.payload@.len() as int) =~= self.payload@);
        }
        VecRow { slot: self.slot, payload }
    }
}

/// Every element of a filtered sequence is an element of the original.
pub(crate) proof fn lemma_filter_subseq<T>(s: Seq<T>, pred: spec_fn(T) -> bool)
    ensures
        forall|i: int| 0 <= i < s.filter(pred).len() ==> s.contains(#[trigger] s.filter(pred)[i]),
    decreases s.len(),
{
    reveal(Seq::filter);
    if s.len() > 0 {
        lemma_filter_subseq(s.drop_last(), pred);
        let f = s.filter(pred);
        let fd = s.drop_last().filter(pred);
        assert forall|i: int| 0 <= i < f.len() implies s.contains(#[trigger] f[i]) by {
            if pred(s.last()) && i == f.len() - 1 {
                assert(f[i] == s[s.len() - 1]);
            } else {
                assert(f[i] == fd[i]);
                assert(s.drop_last().contains(fd[i]));
                let j = choose|j: int| 0 <= j < s.drop_last().len() && s.drop_last()[j] == fd[i];
                assert(s[j] == f[i]);
            }
        }
    }
}

/// Filtering preserves a strictly increasing key.
proof fn lemma_filter_ascending<T>(s: Seq<T>, pred: spec_fn(T) -> bool, key: spec_fn(T) -> nat)
    requires
        forall|i: int, j: int| 0 <= i < j < s.len() ==> key(#[trigger] s[i]) < key(#[trigger] s[j]),
    ensures
        forall|i: int, j: int|
            0 <= i < j < s.filter(pred).len() ==> key(#[trigger] s.filter(pred)[i]) < key(
                #[trigger] s.filter(pred)[j],
            ),
    decreases s.len(),
{
    reveal(Seq::filter);
    if s.len() > 0 {
        let dl = s.drop_last();
        assert forall|i: int, j: int| 0 <= i < j < dl.len() implies key(#[trigger] dl[i]) < key(
            #[trigger] dl[j],
        ) by {
            assert(key(s[i]) < key(s[j]));
        }
        lemma_filter_ascending(dl, pred, key);
        let f = s.filter(pred);
        let fd = dl.filter(pred);
        assert forall|i: int, j: int| 0 <= i < j < f.len() implies key(#[trigger] f[i]) < key(
            #[trigger] f[j],
        ) by {
            if pred(s.last()) && j == f.len() - 1 {
                assert(f[i] == fd[i]);
                lemma_filter_subseq(dl, pred);
                assert(dl.contains(fd[i]));
                let w = choose|w: int| 0 <= w < dl.len() && dl[w] == fd[i];
                assert(key(s[w]) < key(s.last()));
            } else {
                assert(f[i] == fd[i] && f[j] == fd[j]);
            }
        }
    }
}

/// The vector index: vector rows, the metadata mapping, the configured
/// dimension and the next free storage slot.
#[derive(Debug)]
pub struct VectorIndex {
    pub dim: usize,
    pub next_slot: u64,
    pub vectors: Vec<VecRow>,
    pub mapping: Vec<MapRow>,
}

/// The mathematical content of the whole index.
#[verifier::ext_equal]
pub struct IndexV {
    pub dim: nat,
    pub next_slot: nat,
    pub vectors: Seq<VecRowV>,
    pub mapping: Seq<MapRowV>,
}

impl View for VectorIndex {
    type V = IndexV;

    open spec fn view(&self) -> IndexV {
        IndexV {
            dim: self.dim as nat,
            next_slot: self.next_slot as nat,
            vectors: self.vectors@.map_values(|r: VecRow| r@),
            mapping: self.mapping@.map_values(|r: MapRow| r@),
        }
    }
}

/// Well-formedness of the index model: slots are strictly increasing in
/// both tables (so each slot is unique and order is insertion order), every
/// slot is below the next free one, every vector has the configured
/// dimension, and no mapping row dangles — each one's slot has a vector row.
/// An orphaned vector row with no mapping is allowed; it is unreachable.
/// Whether some vector row sits in storage slot `s`.
pub open spec fn has_vector(x: IndexV, s: nat) -> bool {
    exists|j: int| 0 <= j < x.vectors.len() && (#[trigger] x.vectors[j]).slot == s
}

pub open spec fn index_wf(x: IndexV) -> bool {
    &&& forall|i: int, j: int|
        0 <= i < j < x.vectors.len() ==> (#[trigger] x.vectors[i]).slot < (
        #[trigger] x.vectors[j]).slot
    &&& forall|i: int| 0 <= i < x.vectors.len() ==> (#[trigger] x.vectors[i]).slot < x.next_slot
    &&& forall|i: int|
        0 <= i < x.vectors.len() ==> (#[trigger] x.vectors[i]).vector.len() == x.dim
    &&& forall|i: int, j: int|
        0 <= i < j < x.mapping.len() ==> (#[trigger] x.mapping[i]).slot < (
        #[trigger] x.mapping[j]).slot
    &&& forall|i: int| 0 <= i < x.mapping.len() ==> (#[trigger] x.mapping[i]).slot < x.next_slot
    &&& forall|i: int| 0 <= i < x.mapping.len() ==> has_vector(x, (#[trigger] x.mapping[i]).slot)
}

/// Whether some mapping row binds storage slot `s` to owner `(id, k)`.
pub open spec fn slot_owned(m: Seq<MapRowV>, id: Seq<char>, k: EntityKind, s: nat) -> bool {
    exists|i: int|
        0 <= i < m.len() && (#[trigger] m[i]).object_id == id && m[i].object_kind == k
            && m[i].slot == s
}

/// The predicate keeping the mapping rows that `(id, k)` does not own.
pub open spec fn keep_map_pred(id: Seq<char>, k: EntityKind) -> spec_fn(MapRowV) -> bool {
    |r: MapRowV| !(r.object_id == id && r.object_kind == k)
}

/// The predicate keeping the vector rows whose slot mapping `m` does not
/// bind to `(id, k)`.
pub open spec fn keep_vec_pred(m: Seq<MapRowV>, id: Seq<char>, k: EntityKind) -> spec_fn(
    VecRowV,
) -> bool {
    |v: VecRowV| !slot_owned(m, id, k, v.slot)
}

/// The index after removing every vector and mapping row owned by
/// `(id, k)`.
pub open spec fn spec_remove_owner(x: IndexV, id: Seq<char>, k: EntityKind) -> IndexV {
    IndexV {
        mapping: x.mapping.filter(keep_map_pred(id, k)),
        vectors: x.vectors.filter(keep_vec_pred(x.mapping, id, k)),
        ..x
    }
}

/// The index after appending a vector for `(id, k)` at the next free slot.
pub open spec fn spec_insert(x: IndexV, v: Seq<u32>, id: Seq<char>, k: EntityKind) -> IndexV {
    IndexV {
        vectors: x.vectors.push(VecRowV { slot: x.next_slot, vector: v }),
        mapping: x.mapping.push(
            MapRowV { slot: x.next_slot, object_id: id, object_kind: k },
        ),
        next_slot: x.next_slot + 1,
        dim: x.dim,
    }
}

impl VectorIndex {
    /// Well-formedness: the model invariant, plus each at-rest payload being
    /// exactly four bytes per configured dimension, so that decoding it back
    /// is always possible.
    pub open spec fn wf(&self) -> bool {
        &&& index_wf(self@)
        &&& forall|i: int|
            0 <= i < self.vectors@.len() ==> (#[trigger] self.vectors@[i]).payload@.len() == 4
                * self.dim
    }

    /// An empty index for the given vector dimension.
    pub fn new(dim: usize) -> (r: VectorIndex)
        ensures
            r.wf(),
            r@.dim == dim,
            r@.next_slot == 0,
            r@.vectors =~= Seq::<VecRowV>::empty(),
            r@.mapping =~= Seq::<MapRowV>::empty(),
    {
        VectorIndex { dim, next_slot: 0, vectors: Vec::new(), mapping: Vec::new() }
    }

    /// Appends a vector to physical storage together with the mapping row
    /// binding its slot to the owning entity, and returns the slot.
    ///
    /// Fails with `StoreError::DimensionMismatch` exactly when the vector's
    /// length differs from the configured dimension; no partial write
    /// happens then — in particular the metadata mapping gains no orphan
    /// row.
    pub fn insert(&mut self, v: &Vec<u32>, object_id: String, object_kind: EntityKind) -> (r:
        Result<u64, StoreError>)
        requires
            old(self).wf(),
            old(self).next_slot < u64::MAX,
        ensures
            final(self).wf(),
            final(self)@.dim == old(self)@.dim,
            match r {
                Ok(slot) => v@.len() == old(self)@.dim && slot == old(self)@.next_slot
                    && final(self)@ =~~= spec_insert(
                    old(self)@,
                    v@,
                    object_id@,
                    object_kind,
                ),
                Err(e) => e == StoreError::DimensionMismatch && v@.len() != old(self)@.dim
                    && final(self)@ =~~= old(self)@,
            },
    {
        if v.len() != self.dim {
            return Err(StoreError::DimensionMismatch);
        }
        let slot = self.next_slot;
        let payload = encode_vector(v);
        proof {
            lemma_decode_of_encode(v@);
        }
        self.vectors.push(VecRow { slot, payload });
        self.mapping.push(MapRow { slot, object_id, object_kind });
        self.next_slot = slot + 1;
        proof {
            let oldv = old(self)@;
            assert(self@.vectors =~= oldv.vectors.push(
                VecRowV { slot: oldv.next_slot, vector: v@ },
            ));
            assert(self@.mapping =~= oldv.mapping.push(
                MapRowV { slot: oldv.next_slot, object_id: object_id@, object_kind },
            ));
            assert(self@ =~~= spec_insert(oldv, v@, object_id@, object_kind));
            assert forall|i: int| 0 <= i < self@.mapping.len() implies has_vector(
                self@,
                (#[trigger] self@.mapping[i]).slot,
            ) by {
                if i < oldv.mapping.len() {
                    assert(has_vector(oldv, oldv.mapping[i].slot));
                    let j = choose|j: int|
                        0 <= j < oldv.vectors.len() && (#[trigger] oldv.vectors[j]).slot
                            == oldv.mapping[i].slot;
                    assert(self@.vectors[j].slot == self@.mapping[i].slot);
                } else {
                    assert(self@.vectors[oldv.vectors.len() as int].slot
                        == self@.mapping[i].slot);
                }
            }
            assert forall|i: int, j: int|
                0 <= i < j < self@.vectors.len() implies (#[trigger] self@.vectors[i]).slot < (
            #[trigger] self@.vectors[j]).slot by {
                if j < oldv.vectors.len() {
                    assert(oldv.vectors[i].slot < oldv.vectors[j].slot);
                } else {
                    assert(oldv.vectors[i].slot < oldv.next_slot);
                }
            }
            assert forall|i: int, j: int|
                0 <= i < j < self@.mapping.len() implies (#[trigger] self@.mapping[i]).slot < (
            #[trigger] self@.mapping[j]).slot by {
                if j < oldv.mapping.len() {
                    assert(oldv.mapping[i].slot < oldv.mapping[j].slot);
                } else {
                    assert(oldv.mapping[i].slot < oldv.next_slot);
                }
            }
            assert(forall|i: int|
                0 <= i < self@.vectors.len() ==> (#[trigger] self@.vectors[i]).slot
                    < self@.next_slot);
            assert(forall|i: int|
                0 <= i < self@.mapping.len() ==> (#[trigger] self@.mapping[i]).slot
                    < self@.next_slot);
            assert(forall|i: int|
                0 <= i < self@.vectors.len() ==> (#[trigger] self@.vectors[i]).vector.len()
                    == self@.dim);
            assert(index_wf(self@));
            assert(forall|i: int|
                0 <= i < self.vectors@.len() ==> (#[trigger] self.vectors@[i]).payload@.len()
                    == 4 * self.dim);
            assert(self.wf());
        }
        Ok(slot)
    }

    /// Removes every mapping row, and every vector row, owned by
    /// `(object_id, object_kind)`. Idempotent: deleting an absent owner is a
    /// no-op. The mapping rows go first, then the vector rows they pointed
    /// at, so a reachable mapping row never points at a wrong vector.
    pub fn delete_by_owner(&mut self, object_id: &String, object_kind: EntityKind)
        requires
            old(self).wf(),
        ensures
            final(self).wf(),
            final(self)@ =~~= spec_remove_owner(old(self)@, object_id@, object_kind),
    {
        let ghost oldv = old(self)@;
        let owned = collect_owner_slots(&self.mapping, object_id, object_kind);
        let kept = filter_mapping(&self.mapping, object_id, object_kind);
        let kept_vectors = filter_vectors(
            &self.vectors,
            &owned,
            Ghost(oldv.mapping),
            Ghost(object_id@),
            Ghost(object_kind),
            Ghost(4 * self.dim as nat),
        );
        self.mapping = kept;
        self.vectors = kept_vectors;
        proof {
            assert(self@ =~~= spec_remove_owner(oldv, object_id@, object_kind));
            lemma_remove_owner_wf(oldv, object_id@, object_kind);
            assert(index_wf(self@));
            assert(self.wf());
        }
    }
}

/// Collects the slots that the metadata mapping binds to one owner.
fn collect_owner_slots(mapping: &Vec<MapRow>, object_id: &String, object_kind: EntityKind) -> (
    owned: Vec<u64>)
    ensures
        forall|t: int|
            0 <= t < owned@.len() ==> slot_owned(
                mapping@.map_values(|r: MapRow| r@),
                object_id@,
                object_kind,
                #[trigger] owned@[t] as nat,
            ),
        forall|j: int|
            0 <= j < mapping@.len() && (#[trigger] mapping@[j])@.object_id == object_id@
                && mapping@[j]@.object_kind == object_kind ==> exists|t: int|
                0 <= t < owned@.len() && #[trigger] owned@[t] as nat == mapping@[j]@.slot,
{
    let ghost m = mapping@.map_values(|r: MapRow| r@);
    let mut owned: Vec<u64> = Vec::new();
    let mut i: usize = 0;
    while i < mapping.len()
        invariant
            i <= mapping@.len(),
            m == mapping@.map_values(|r: MapRow| r@),
            forall|t: int|
                0 <= t < owned@.len() ==> slot_owned(
                    m,
                    object_id@,
                    object_kind,
                    #[trigger] owned@[t] as nat,
                ),
            forall|j: int|
                0 <= j < i && (#[trigger] mapping@[j])@.object_id == object_id@
                    && mapping@[j]@.object_kind == object_kind ==> exists|t: int|
                    0 <= t < owned@.len() && #[trigger] owned@[t] as nat == mapping@[j]@.slot,
        decreases mapping@.len() - i,
    {
        let row = &mapping[i];
        let ghost owned_before = owned@;
        let is_owner = row.object_id.eq(object_id) && row.object_kind == object_kind;
        if is_owner {
            owned.push(row.slot);
        }
        proof {
            assert(m[i as int] == mapping@[i as int]@);
            assert forall|j: int|
                0 <= j < i + 1 && (#[trigger] mapping@[j])@.object_id == object_id@
                    && mapping@[j]@.object_kind == object_kind implies exists|t: int|
                0 <= t < owned@.len() && #[trigger] owned@[t] as nat == mapping@[j]@.slot by {
                if j == i {
                    assert(is_owner);
                    assert(owned@[owned@.len() - 1] as nat == mapping@[j]@.slot);
                } else {
                    let t = choose|t: int|
                        0 <= t < owned_before.len() && #[trigger] owned_before[t] as nat
                            == mapping@[j]@.slot;
                    assert(owned@[t] as nat == mapping@[j]@.slot);
                }
            }
        }
        i = i + 1;
    }
    owned
}

/// Keeps the mapping rows that do not belong to the owner.
fn filter_mapping(mapping: &Vec<MapRow>, object_id: &String, object_kind: EntityKind) -> (kept:
    Vec<MapRow>)
    ensures
        kept@.map_values(|r: MapRow| r@) =~= mapping@.map_values(|r: MapRow| r@).filter(
            keep_map_pred(object_id@, object_kind),
        ),
{
    let ghost m = mapping@.map_values(|r: MapRow| r@);
    let ghost mpred = keep_map_pred(object_id@, object_kind);
    let mut kept: Vec<MapRow> = Vec::new();
    let mut i: usize = 0;
    while i < mapping.len()
        invariant
            i <= mapping@.len(),
            m == mapping@.map_values(|r: MapRow| r@),
            mpred == keep_map_pred(object_id@, object_kind),
            kept@.map_values(|r: MapRow| r@) =~= m.take(i as int).filter(mpred),
        decreases mapping@.len() - i,
    {
        let row = &mapping[i];
        let keep = !(row.object_id.eq(object_id) && row.object_kind == object_kind);
        proof {
            reveal(Seq::filter);
            assert(m.take(i + 1).drop_last() =~= m.take(i as int));
            assert(m.take(i + 1).last() == m[i as int]);
            assert(m[i as int] == mapping@[i as int]@);
            assert(keep == mpred(m[i as int]));
        }
        if keep {
            kept.push(row.duplicate());
        }
        proof {
            assert(kept@.map_values(|r: MapRow| r@) =~= m.take(i + 1).filter(mpred));
        }
        i = i + 1;
    }
    proof {
        assert(m.take(m.len() as int) =~= m);
    }
    kept
}

/// Keeps the vector rows whose slots are not in the owner's slot list.
/// `m` is the metadata mapping the slot list was read from.
fn filter_vectors(
    vectors: &Vec<VecRow>,
    owned: &Vec<u64>,
    Ghost(m): Ghost<Seq<MapRowV>>,
    Ghost(id): Ghost<Seq<char>>,
    Ghost(kind): Ghost<EntityKind>,
    Ghost(payload_len): Ghost<nat>,
) -> (kept: Vec<VecRow>)
    requires
        forall|t: int|
            0 <= t < owned@.len() ==> slot_owned(m, id, kind, #[trigger] owned@[t] as nat),
        forall|j: int|
            0 <= j < m.len() && (#[trigger] m[j]).object_id == id && m[j].object_kind == kind
                ==> exists|t: int| 0 <= t < owned@.len() && #[trigger] owned@[t] as nat == m[j].slot,
        forall|t: int| 0 <= t < vectors@.len() ==> (#[trigger] vectors@[t]).payload@.len()
            == payload_len,
    ensures
        kept@.map_values(|r: VecRow| r@) =~= vectors@.map_values(|r: VecRow| r@).filter(
            keep_vec_pred(m, id, kind),
        ),
        forall|t: int| 0 <= t < kept@.len() ==> (#[trigger] kept@[t]).payload@.len()
            == payload_len,
{
    let ghost vs = vectors@.map_values(|r: VecRow| r@);
    let ghost vpred = keep_vec_pred(m, id, kind);
    let mut kept: Vec<VecRow> = Vec::new();
    let mut i: usize = 0;
    while i < vectors.len()
        invariant
            i <= vectors@.len(),
            vs == vectors@.map_values(|r: VecRow| r@),
            vpred == keep_vec_pred(m, id, kind),
            kept@.map_values(|r: VecRow| r@) =~= vs.take(i as int).filter(vpred),
            forall|t: int|
                0 <= t < owned@.len() ==> slot_owned(m, id, kind, #[trigger] owned@[t] as nat),
            forall|j: int|
                0 <= j < m.len() && (#[trigger] m[j]).object_id == id && m[j].object_kind == kind
                    ==> exists|t: int|
                    0 <= t < owned@.len() && #[trigger] owned@[t] as nat == m[j].slot,
            forall|t: int|
                0 <= t < vectors@.len() ==> (#[trigger] vectors@[t]).payload@.len()
                    == payload_len,
            forall|t: int|
                0 <= t < kept@.len() ==> (#[trigger] kept@[t]).payload@.len() == payload_len,
        decreases vectors@.len() - i,
    {
        let row = &vectors[i];
        let keep = !slot_listed(owned, row.slot);
        proof {
            reveal(Seq::filter);
            assert(vs.take(i + 1).drop_last() =~= vs.take(i as int));
            assert(vs.take(i + 1).last() == vs[i as int]);
            assert(vs[i as int] == vectors@[i as int]@);
            if owned@.contains(row.slot) {
                let t = choose|t: int| 0 <= t < owned@.len() && owned@[t] == row.slot;
                assert(slot_owned(m, id, kind, owned@[t] as nat));
                assert(!vpred(vs[i as int]));
            } else if !vpred(vs[i as int]) {
                let j = choose|j: int|
                    0 <= j < m.len() && (#[trigger] m[j]).object_id == id && m[j].object_kind
                        == kind && m[j].slot == vs[i as int].slot;
                let t = choose|t: int|
                    0 <= t < owned@.len() && #[trigger] owned@[t] as nat == m[j].slot;
                assert(owned@[t] == row.slot);
                assert(owned@.contains(row.slot));
            }
            assert(keep == vpred(vs[i as int]));
        }
        if keep {
            kept.push(row.duplicate());
        }
        proof {
            assert(kept@.map_values(|r: VecRow| r@) =~= vs.take(i + 1).filter(vpred));
        }
        i = i + 1;
    }
    proof {
        assert(vs.take(vs.len() as int) =~= vs);
    }
    kept
}

/// Appending a vector of the configured dimension keeps the index well
/// formed.
pub proof fn lemma_insert_wf(x: IndexV, v: Seq<u32>, id: Seq<char>, k: EntityKind)
    requires
        index_wf(x),
        v.len() == x.dim,
    ensures
        index_wf(spec_insert(x, v, id, k)),
{
    let y = spec_insert(x, v, id, k);
    assert forall|i: int, j: int|
        0 <= i < j < y.vectors.len() implies (#[trigger] y.vectors[i]).slot < (
    #[trigger] y.vectors[j]).slot by {
        if j < x.vectors.len() {
            assert(x.vectors[i].slot < x.vectors[j].slot);
        } else {
            assert(x.vectors[i].slot < x.next_slot);
        }
    }
    assert forall|i: int, j: int|
        0 <= i < j < y.mapping.len() implies (#[trigger] y.mapping[i]).slot < (
    #[trigger] y.mapping[j]).slot by {
        if j < x.mapping.len() {
            assert(x.mapping[i].slot < x.mapping[j].slot);
        } else {
            assert(x.mapping[i].slot < x.next_slot);
        }
    }
    assert forall|i: int| 0 <= i < y.mapping.len() implies has_vector(
        y,
        (#[trigger] y.mapping[i]).slot,
    ) by {
        if i < x.mapping.len() {
            assert(has_vector(x, x.mapping[i].slot));
            let j = choose|j: int|
                0 <= j < x.vectors.len() && (#[trigger] x.vectors[j]).slot == x.mapping[i].slot;
            assert(y.vectors[j].slot == y.mapping[i].slot);
        } else {
            assert(y.vectors[x.vectors.len() as int].slot == y.mapping[i].slot);
        }
    }
    assert(index_wf(y));
}

/// Removing an owner keeps the index well formed.
#[verifier::rlimit(50)]
pub proof fn lemma_remove_owner_wf(x: IndexV, id: Seq<char>, k: EntityKind)
    requires
        index_wf(x),
    ensures
        index_wf(spec_remove_owner(x, id, k)),
{
    broadcast use vstd::seq_lib::group_filter_ensures;

    let mpred = keep_map_pred(id, k);
    let vpred = keep_vec_pred(x.mapping, id, k);
    let fm = x.mapping.filter(mpred);
    let fv = x.vectors.filter(vpred);
    lemma_filter_subseq(x.mapping, mpred);
    lemma_filter_subseq(x.vectors, vpred);
    lemma_filter_ascending(x.mapping, mpred, |r: MapRowV| r.slot);
    lemma_filter_ascending(x.vectors, vpred, |v: VecRowV| v.slot);
    let y = spec_remove_owner(x, id, k);
    assert forall|t: int| 0 <= t < fm.len() implies (#[trigger] fm[t]).slot < x.next_slot by {
        assert(x.mapping.contains(fm[t]));
        let j = choose|j: int| 0 <= j < x.mapping.len() && x.mapping[j] == fm[t];
        assert(x.mapping[j].slot < x.next_slot);
    }
    assert forall|t: int| 0 <= t < fv.len() implies (#[trigger] fv[t]).slot < x.next_slot by {
        assert(x.vectors.contains(fv[t]));
        let j = choose|j: int| 0 <= j < x.vectors.len() && x.vectors[j] == fv[t];
        assert(x.vectors[j].slot < x.next_slot);
    }
    assert forall|t: int| 0 <= t < fv.len() implies (#[trigger] fv[t]).vector.len() == x.dim by {
        assert(x.vectors.contains(fv[t]));
        let j = choose|j: int| 0 <= j < x.vectors.len() && x.vectors[j] == fv[t];
        assert(x.vectors[j].vector.len() == x.dim);
    }
    assert forall|i: int| 0 <= i < y.mapping.len() implies has_vector(
        y,
        (#[trigger] y.mapping[i]).slot,
    ) by {
        assert(x.mapping.contains(fm[i]));
        let j0 = choose|j0: int| 0 <= j0 < x.mapping.len() && x.mapping[j0] == fm[i];
        assert(mpred(fm[i]));
        let w0 = choose|w0: int|
            0 <= w0 < x.vectors.len() && (#[trigger] x.vectors[w0]).slot == x.mapping[j0].slot;
        assert(vpred(x.vectors[w0])) by {
            if slot_owned(x.mapping, id, k, x.vectors[w0].slot) {
                let u = choose|u: int|
                    0 <= u < x.mapping.len() && (#[trigger] x.mapping[u]).object_id == id
                        && x.mapping[u].object_kind == k && x.mapping[u].slot
                        == x.vectors[w0].slot;
                if u != j0 {
                    assert(x.mapping[u].slot != x.mapping[j0].slot);
                }
                assert(false);
            }
        }
        assert(fv.contains(x.vectors[w0]));
        let w = choose|w: int| 0 <= w < fv.len() && fv[w] == x.vectors[w0];
        assert(y.vectors[w].slot == y.mapping[i].slot);
        assert(has_vector(y, y.mapping[i].slot));
    }
    assert forall|i: int, j: int|
        0 <= i < j < y.mapping.len() implies (#[trigger] y.mapping[i]).slot < (
    #[trigger] y.mapping[j]).slot by {
        assert(0 <= i < j < fm.len());
    }
    assert forall|i: int, j: int|
        0 <= i < j < y.vectors.len() implies (#[trigger] y.vectors[i]).slot < (
    #[trigger] y.vectors[j]).slot by {
        assert(0 <= i < j < fv.len());
    }
    assert(index_wf(y));
}

/// The position of the vector row sitting in slot `s`.
pub open spec fn slot_index(x: IndexV, s: nat) -> int {
    choose|j: int| 0 <= j < x.vectors.len() && (#[trigger] x.vectors[j]).slot == s
}

/// The stored vector sitting in slot `s`.
pub open spec fn vector_of(x: IndexV, s: nat) -> Seq<u32> {
    x.vectors[slot_index(x, s)].vector
}

/// In a well-formed index, slots are unique, so looking a vector row up by
/// its own slot finds that row.
pub proof fn lemma_vector_of(x: IndexV, j: int)
    requires
        index_wf(x),
        0 <= j < x.vectors.len(),
    ensures
        vector_of(x, x.vectors[j].slot) == x.vectors[j].vector,
{
    let s = x.vectors[j].slot;
    assert(0 <= j < x.vectors.len() && x.vectors[j].slot == s);
    let w = slot_index(x, s);
    assert(0 <= w < x.vectors.len() && x.vectors[w].slot == s);
    if w != j {
        assert(x.vectors[w].slot != x.vectors[j].slot);
    }
}

/// The unranked candidate list of a query: one hit per metadata mapping
/// row, in mapping order, with the distance from the query to the vector in
/// that row's slot. Orphaned vectors have no mapping row and so never
/// appear.
pub open spec fn hits_of(x: IndexV, q: Seq<u32>) -> Seq<HitV> {
    Seq::new(
        x.mapping.len(),
        |i: int|
            HitV {
                slot: x.mapping[i].slot,
                object_id: x.mapping[i].object_id,
                object_kind: x.mapping[i].object_kind,
                distance: dist(q, vector_of(x, x.mapping[i].slot)),
            },
    )
}

/// The full ranking of a query: every reachable stored vector's hit, in
/// ranking order — ascending distance, ties broken by slot.
pub open spec fn ranking(x: IndexV, q: Seq<u32>) -> Seq<HitV> {
    sort_hits(hits_of(x, q))
}

impl VectorIndex {
    /// Scans the vector rows for the one sitting in `slot`.
    fn find_vector(&self, slot: u64) -> (r: Option<usize>)
        ensures
            match r {
                Some(j) => j < self.vectors@.len() && self@.vectors[j as int].slot == slot as nat,
                None => !has_vector(self@, slot as nat),
            },
    {
        let mut i: usize = 0;
        while i < self.vectors.len()
            invariant
                i <= self.vectors@.len(),
                forall|t: int| 0 <= t < i ==> (#[trigger] self@.vectors[t]).slot != slot as nat,
            decreases self.vectors@.len() - i,
        {
            if self.vectors[i].slot == slot {
                return Some(i);
            }
            i = i + 1;
        }
        None
    }

    /// Answers a k-nearest-neighbour query: up to `k` hits, ordered by
    /// ascending distance with ties broken by physical insertion order. A
    /// `k` of zero yields an empty result, not an error.
    ///
    /// Fails with `StoreError::DimensionMismatch` exactly when the query
    /// vector's length differs from the configured dimension.
    pub fn search(&self, query: &Vec<u32>, k: usize) -> (r: Result<Vec<SearchHit>, StoreError>)
        requires
            self.wf(),
        ensures
            match r {
                Ok(hits) => query@.len() == self@.dim && hseq(hits@) =~= ranking(
                    self@,
                    query@,
                ).take(
                    if k as int <= self@.mapping.len() {
                        k as int
                    } else {
                        self@.mapping.len() as int
                    },
                ),
                Err(e) => e == StoreError::DimensionMismatch && query@.len() != self@.dim,
            },
    {
        if query.len() != self.dim {
            return Err(StoreError::DimensionMismatch);
        }
        let ghost x = self@;
        let mut hits: Vec<SearchHit> = Vec::new();
        let mut i: usize = 0;
        while i < self.mapping.len()
            invariant
                self.wf(),
                x == self@,
                query@.len() == x.dim,
                i <= self.mapping@.len(),
                hseq(hits@) =~= hits_of(x, query@).take(i as int),
            decreases self.mapping@.len() - i,
        {
            let mrow = &self.mapping[i];
            proof {
                assert(has_vector(x, x.mapping[i as int].slot));
            }
            let vi = match self.find_vector(mrow.slot) {
                Some(j) => j,
                None => {
                    proof {
                        assert(false);
                    }
                    return Err(StoreError::DimensionMismatch);
                },
            };
            let vrow = &self.vectors[vi];
            proof {
                assert(vrow.payload@.len() == 4 * self.dim);
                assert((4 * self.dim as int) % 4 == 0) by {
                    vstd::arithmetic::div_mod::lemma_mod_multiples_basic(self.dim as int, 4);
                }
            }
            let vec = match decode_vector(&vrow.payload) {
                Ok(v) => v,
                Err(_) => {
                    proof {
                        assert(false);
                    }
                    return Err(StoreError::DimensionMismatch);
                },
            };
            proof {
                assert(vec@ == x.vectors[vi as int].vector);
                assert(x.vectors[vi as int].vector.len() == x.dim);
            }
            let d = distance(query, &vec);
            let hit = SearchHit {
                slot: mrow.slot,
                object_id: mrow.object_id.clone(),
                object_kind: mrow.object_kind,
                distance: d,
            };
            let ghost hits_before = hits@;
            hits.push(hit);
            proof {
                lemma_vector_of(x, vi as int);
                assert(vector_of(x, x.mapping[i as int].slot) == x.vectors[vi as int].vector);
                assert(hit@ =~= hits_of(x, query@)[i as int]);
                assert(hseq(hits_before).len() == hits_before.len());
                assert(hits_before.len() == i);
                assert(hits@.len() == i + 1);
                assert forall|j: int| 0 <= j < i + 1 implies hseq(hits@)[j] == hits_of(
                    x,
                    query@,
                ).take(i + 1)[j] by {
                    if j < i {
                        assert(hits@[j] == hits_before[j]);
                        assert(hseq(hits_before)[j] == hits_of(x, query@).take(i as int)[j]);
                    } else {
                        assert(hits@[j] == hit);
                    }
                }
                assert(hseq(hits@) =~= hits_of(x, query@).take(i + 1));
            }
            i = i + 1;
        }
        proof {
            assert(hits_of(x, query@).take(x.mapping.len() as int) =~= hits_of(x, query@));
        }
        let mut out = sort_hit_list(hits);
        proof {
            lemma_sort_hits_ensures(hits_of(x, query@));
            assert(hseq(out@) =~= ranking(x, query@));
            assert(out@.len() == x.mapping.len());
        }
        if k < out.len() {
            out.truncate(k);
            proof {
                assert(hseq(out@) =~= ranking(x, query@).take(k as int));
            }
        } else {
            proof {
                assert(ranking(x, query@).take(x.mapping.len() as int) =~= ranking(x, query@));
            }
        }
        Ok(out)
    }
}

/// Whether a slot occurs in a slot list.
fn slot_listed(owned: &Vec<u64>, slot: u64) -> (r: bool)
    ensures
        r == owned@.contains(slot),
{
    let mut i: usize = 0;
    while i < owned.len()
        invariant
            i <= owned@.len(),
            forall|t: int| 0 <= t < i ==> owned@[t] != slot,
        decreases owned@.len() - i,
    {
        if owned[i] == slot {
            return true;
        }
        i = i + 1;
    }
    false
}

} // verus!
