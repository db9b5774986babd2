//! The registry of collections and the operations on it.
use vstd::prelude::*;

use crate::collection::{
    copy_point, is_scoring, scored_pairs, Collection, CollectionModel, Point, PointModel,
    ScoredPoint,
};
use crate::index::{is_nearest, lemma_nearest_properties};

verus! {

/// Why an operation failed.
#[derive(Debug, Clone, Copy, PartialEq, Eq)]
pub enum StoreError {
    /// A collection of that name exists already.
    AlreadyExists,
    /// No collection of that name, or no point of that id.
    NotFound,
    /// A vector's length is not the collection's dimension: the id of the
    /// offending point, or `None` for a query vector.
    DimensionMismatch(Option<u64>),
    /// A collection was asked for with a dimension of zero.
    InvalidDimension,
}

/// The number of points of a collection.
pub struct CollectionsInfo {
    pub points_count: u64,
}

/// All collections, each under a unique name.
pub struct Store {
    collections: Vec<Collection>,
}

/// The map from name to content that a sequence of collections holds.
pub open spec fn collections_map(s: Seq<Collection>) -> Map<Seq<char>, CollectionModel> {
    Map::new(
        |k: Seq<char>| exists|i: int| 0 <= i < s.len() && s[i].name@ == k,
        |k: Seq<char>| s[choose|i: int| 0 <= i < s.len() && s[i].name@ == k].model(),
    )
}

pub open spec fn unique_names(s: Seq<Collection>) -> bool {
    forall|i: int, j: int|
        0 <= i < s.len() && 0 <= j < s.len() && i != j ==> s[i].name@ != s[j].name@
}

proof fn lemma_collections_map(s: Seq<Collection>)
    requires
        unique_names(s),
    ensures
        forall|i: int|
            0 <= i < s.len() ==> collections_map(s).contains_key(#[trigger] s[i].name@)
                && collections_map(s)[s[i].name@] == s[i].model(),
        forall|k: Seq<char>|
            #[trigger] collections_map(s).contains_key(k) ==> exists|i: int|
                0 <= i < s.len() && s[i].name@ == k,
{
    assert forall|i: int| 0 <= i < s.len() implies collections_map(s).contains_key(
        #[trigger] s[i].name@,
    ) && collections_map(s)[s[i].name@] == s[i].model() by {
        let k = s[i].name@;
        assert(exists|i2: int| 0 <= i2 < s.len() && s[i2].name@ == k);
        let c = choose|i2: int| 0 <= i2 < s.len() && s[i2].name@ == k;
        assert(c == i);
    }
}

/// Replacing the collection at `i` by one of the same name replaces its
/// content in the map.
proof fn lemma_collections_update(s: Seq<Collection>, i: int, c: Collection)
    requires
        unique_names(s),
        0 <= i < s.len(),
        c.name@ == s[i].name@,
    ensures
        unique_names(s.update(i, c)),
        collections_map(s.update(i, c)) == collections_map(s).insert(c.name@, c.model()),
{
    let t = s.update(i, c);
    assert(unique_names(t));
    lemma_collections_map(s);
    lemma_collections_map(t);
    assert forall|k: Seq<char>| #[trigger] collections_map(t).contains_key(k) <==> collections_map(
        s,
    ).insert(c.name@, c.model()).contains_key(k) by {
        if collections_map(t).contains_key(k) {
            let j = choose|j: int| 0 <= j < t.len() && t[j].name@ == k;
            if j != i {
                assert(s[j].name@ == k);
            }
        }
        if collections_map(s).contains_key(k) {
            let j = choose|j: int| 0 <= j < s.len() && s[j].name@ == k;
            assert(t[j].name@ == k);
        }
        assert(t[i].name@ == c.name@);
    }
    assert forall|k: Seq<char>| #[trigger] collections_map(t).contains_key(k) implies collections_map(
        t,
    )[k] == collections_map(s).insert(c.name@, c.model())[k] by {
        let j = choose|j: int| 0 <= j < t.len() && t[j].name@ == k;
        if j != i {
            assert(s[j].name@ == k);
        }
    }
    assert(collections_map(t) =~= collections_map(s).insert(c.name@, c.model()));
}

/// Adding a collection of a new name adds its content to the map.
proof fn lemma_collections_push(s: Seq<Collection>, c: Collection)
    requires
        unique_names(s),
        !collections_map(s).contains_key(c.name@),
    ensures
        unique_names(s.push(c)),
        collections_map(s.push(c)) == collections_map(s).insert(c.name@, c.model()),
{
    let t = s.push(c);
    lemma_collections_map(s);
    assert forall|a: int, b: int| 0 <= a < t.len() && 0 <= b < t.len() && a != b implies t[a].name@
        != t[b].name@ by {
        if a == s.len() {
            assert(collections_map(s).contains_key(s[b].name@));
        } else if b == s.len() {
            assert(collections_map(s).contains_key(s[a].name@));
        }
    }
    lemma_collections_map(t);
    assert forall|k: Seq<char>| #[trigger] collections_map(t).contains_key(k) <==> collections_map(
        s,
    ).insert(c.name@, c.model()).contains_key(k) by {
        if collections_map(t).contains_key(k) {
            let j = choose|j: int| 0 <= j < t.len() && t[j].name@ == k;
            if j != s.len() {
                assert(s[j].name@ == k);
            }
        }
        if collections_map(s).contains_key(k) {
            let j = choose|j: int| 0 <= j < s.len() && s[j].name@ == k;
            assert(t[j].name@ == k);
        }
        assert(t[s.len() as int].name@ == c.name@);
    }
    assert forall|k: Seq<char>| #[trigger] collections_map(t).contains_key(k) implies collections_map(
        t,
    )[k] == collections_map(s).insert(c.name@, c.model())[k] by {
        let j = choose|j: int| 0 <= j < t.len() && t[j].name@ == k;
        if j != s.len() {
            assert(s[j].name@ == k);
        }
    }
    assert(collections_map(t) =~= collections_map(s).insert(c.name@, c.model()));
}

/// Taking out the collection at `i` takes its name out of the map.
proof fn lemma_collections_remove(s: Seq<Collection>, i: int)
    requires
        unique_names(s),
        0 <= i < s.len(),
    ensures
        unique_names(s.remove(i)),
        collections_map(s.remove(i)) == collections_map(s).remove(s[i].name@),
{
    let t = s.remove(i);
    assert forall|a: int, b: int| 0 <= a < t.len() && 0 <= b < t.len() && a != b implies t[a].name@
        != t[b].name@ by {
        let a2 = if a < i { a } else { a + 1 };
        let b2 = if b < i { b } else { b + 1 };
        assert(t[a] == s[a2] && t[b] == s[b2]);
    }
    lemma_collections_map(s);
    lemma_collections_map(t);
    assert forall|k: Seq<char>| #[trigger] collections_map(t).contains_key(k) <==> collections_map(
        s,
    ).remove(s[i].name@).contains_key(k) by {
        if collections_map(t).contains_key(k) {
            let j = choose|j: int| 0 <= j < t.len() && t[j].name@ == k;
            let j2 = if j < i { j } else { j + 1 };
            assert(t[j] == s[j2]);
        }
        if collections_map(s).contains_key(k) && k != s[i].name@ {
            let j = choose|j: int| 0 <= j < s.len() && s[j].name@ == k;
            if j < i {
                assert(t[j] == s[j]);
            } else {
                assert(t[j - 1] == s[j]);
            }
        }
    }
    assert forall|k: Seq<char>| #[trigger] collections_map(t).contains_key(k) implies collections_map(
        t,
    )[k] == collections_map(s).remove(s[i].name@)[k] by {
        let j = choose|j: int| 0 <= j < t.len() && t[j].name@ == k;
        let j2 = if j < i { j } else { j + 1 };
        assert(t[j] == s[j2]);
    }
    assert(collections_map(t) =~= collections_map(s).remove(s[i].name@));
}

impl View for Store {
    type V = Map<Seq<char>, CollectionModel>;

    closed spec fn view(&self) -> Self::V {
        collections_map(self.collections@)
    }
}

impl Store {
    /// Names are unique and every collection is well formed.
    pub closed spec fn wf(&self) -> bool {
        &&& unique_names(self.collections@)
        &&& forall|i: int|
            0 <= i < self.collections@.len() ==> (#[trigger] self.collections@[i]).wf()
    }

    /// The points of the collection `name`, in storage order.
    pub closed spec fn points_of(&self, name: Seq<char>) -> Seq<Point> {
        self.collections@[choose|i: int|
            0 <= i < self.collections@.len() && self.collections@[i].name@ == name].points@
    }

    /// A store with no collections.
    pub fn new() -> (r: Store)
        ensures
            r.wf(),
            r@ == Map::<Seq<char>, CollectionModel>::empty(),
    {
        let r = Store { collections: Vec::new() };
        assert(r@ =~= Map::<Seq<char>, CollectionModel>::empty());
        r
    }

    /// Where the collection `name` stands, if it exists.
    fn find(&self, name: &str) -> (r: Option<usize>)
        requires
            self.wf(),
        ensures
            match r {
                Some(i) => i < self.collections@.len() && self.collections@[i as int].name@ == name@
                    && self@.contains_key(name@) && self@[name@] == self.collections@[i as int].model()
                    && self.points_of(name@) == self.collections@[i as int].points@,
                None => !self@.contains_key(name@),
            },
    {
        let key: String = name.to_owned();
        let mut i: usize = 0;
        while i < self.collections.len()
            invariant
                self.wf(),
                key@ == name@,
                i <= self.collections@.len(),
                forall|j: int| 0 <= j < i ==> (#[trigger] self.collections@[j]).name@ != name@,
            decreases self.collections@.len() - i,
        {
            if self.collections[i].name == key {
                proof {
                    lemma_collections_map(self.collections@);
                    let c = choose|c: int|
                        0 <= c < self.collections@.len() && self.collections@[c].name@ == name@;
                    assert(c == i);
                }
                return Some(i);
            }
            i = i + 1;
        }
        proof {
            lemma_collections_map(self.collections@);
        }
        None
    }
}


/// The map after writing each point of `ps` in turn under its id: where `ps`
/// lists an id twice, the later point wins.
pub open spec fn upsert_all(m: Map<u64, PointModel>, ps: Seq<Point>) -> Map<u64, PointModel>
    decreases ps.len(),
{
    if ps.len() == 0 {
        m
    } else {
        upsert_all(m, ps.drop_last()).insert(ps.last().id, ps.last().model())
    }
}

/// Every vector of `ps` has length `d`.
pub open spec fn dims_ok(ps: Seq<Point>, d: nat) -> bool {
    forall|i: int| 0 <= i < ps.len() ==> (#[trigger] ps[i]).vector@.len() == d
}

/// `ps[i]` is the first point of `ps` whose vector does not have length `d`.
pub open spec fn first_mismatch(ps: Seq<Point>, d: nat, i: int) -> bool {
    &&& 0 <= i < ps.len()
    &&& ps[i].vector@.len() != d
    &&& forall|j: int| 0 <= j < i ==> (#[trigger] ps[j]).vector@.len() == d
}

impl Store {
    /// What `points_of` holds is what the view shows of the collection.
    pub proof fn lemma_points_of(&self, name: Seq<char>)
        requires
            self.wf(),
            self@.contains_key(name),
        ensures
            crate::collection::unique_ids(self.points_of(name)),
            crate::collection::points_map(self.points_of(name)) == self@[name].points,
            self.points_of(name).len() == self@[name].points.len(),
    {
        lemma_collections_map(self.collections@);
        let i = choose|i: int|
            0 <= i < self.collections@.len() && self.collections@[i].name@ == name;
        assert(self.collections@[i].wf());
        crate::collection::lemma_points_map_len(self.collections@[i].points@);
    }

    /// Every collection has a positive dimension, and every stored vector
    /// has the dimension of its collection.
    pub proof fn lemma_dimensions(&self)
        requires
            self.wf(),
        ensures
            forall|name: Seq<char>| #[trigger] self@.contains_key(name) ==> self@[name].dimension > 0,
            forall|name: Seq<char>, id: u64|
                self@.contains_key(name) && #[trigger] self@[name].points.contains_key(id)
                    ==> self@[name].points[id].vector.len() == self@[name].dimension,
    {
        lemma_collections_map(self.collections@);
        assert forall|name: Seq<char>| #[trigger] self@.contains_key(name) implies self@[name].dimension
            > 0 by {
            let i = choose|i: int|
                0 <= i < self.collections@.len() && self.collections@[i].name@ == name;
            assert(self.collections@[i].wf());
        }
        assert forall|name: Seq<char>, id: u64|
            self@.contains_key(name) && #[trigger] self@[name].points.contains_key(
                id,
            ) implies self@[name].points[id].vector.len() == self@[name].dimension by {
            let i = choose|i: int|
                0 <= i < self.collections@.len() && self.collections@[i].name@ == name;
            let c = self.collections@[i];
            assert(c.wf());
            crate::collection::lemma_points_map(c.points@);
            let j = choose|j: int| 0 <= j < c.points@.len() && c.points@[j].id == id;
        }
    }

    /// Puts `c` back at `i`, where a collection of the same name stood.
    fn put_back(&mut self, i: usize, c: Collection, Ghost(s): Ghost<Seq<Collection>>)
        requires
            unique_names(s),
            forall|j: int| 0 <= j < s.len() ==> (#[trigger] s[j]).wf(),
            i < s.len(),
            old(self).collections@ == s.remove(i as int),
            c.wf(),
            c.name@ == s[i as int].name@,
        ensures
            final(self).wf(),
            final(self)@ == collections_map(s).insert(c.name@, c.model()),
    {
        self.collections.insert(i, c);
        proof {
            assert(self.collections@ =~= s.update(i as int, c));
            lemma_collections_update(s, i as int, c);
        }
    }
}

/// Where the first point of `points` whose vector does not have `dim`
/// components stands, if there is one.
fn first_bad_dimension(points: &[Point], dim: usize) -> (r: Option<usize>)
    ensures
        match r {
            Some(j) => first_mismatch(points@, dim as nat, j as int),
            None => dims_ok(points@, dim as nat),
        },
{
    let mut j: usize = 0;
    while j < points.len()
        invariant
            j <= points@.len(),
            forall|m: int| 0 <= m < j ==> (#[trigger] points@[m]).vector@.len() == dim,
        decreases points@.len() - j,
    {
        if points[j].vector.len() != dim {
            return Some(j);
        }
        j = j + 1;
    }
    None
}

/// Creates the empty collection `name` with vectors of `size` components.
/// An existing name fails with `AlreadyExists`; otherwise `size` must be
/// positive.
pub fn create_collections(store: &mut Store, name: &str, size: usize) -> (r: Result<(), StoreError>)
    requires
        old(store).wf(),
    ensures
        final(store).wf(),
        match r {
            Ok(()) => size > 0 && !old(store)@.contains_key(name@) && final(store)@ == old(
                store,
            )@.insert(name@, CollectionModel { dimension: size as nat, points: Map::empty() }),
            Err(e) => final(store)@ == old(store)@ && ((old(store)@.contains_key(name@) && e
                == StoreError::AlreadyExists) || (!old(store)@.contains_key(name@) && size == 0
                && e == StoreError::InvalidDimension)),
        },
{
    match store.find(name) {
        Some(_) => Err(StoreError::AlreadyExists),
        None => {
            if size == 0 {
                return Err(StoreError::InvalidDimension);
            }
            let c = Collection::new(name.to_owned(), size);
            proof {
                lemma_collections_push(store.collections@, c);
            }
            store.collections.push(c);
            Ok(())
        },
    }
}

/// The number of points of the collection `name`.
pub fn get_collections_info(store: &Store, name: &str) -> (r: Result<CollectionsInfo, StoreError>)
    requires
        store.wf(),
    ensures
        match r {
            Ok(info) => store@.contains_key(name@) && info.points_count == store@[name@].points.len(),
            Err(e) => !store@.contains_key(name@) && e == StoreError::NotFound,
        },
{
    match store.find(name) {
        Some(i) => Ok(CollectionsInfo { points_count: store.collections[i].count() }),
        None => Err(StoreError::NotFound),
    }
}

/// Writes `points` into the collection `name`, each under its id, replacing
/// what was stored there; returns their ids in the order given. Nothing is
/// written when a vector does not have the collection's dimension.
pub fn add_point(store: &mut Store, name: &str, points: &[Point]) -> (r: Result<Vec<u64>, StoreError>)
    requires
        old(store).wf(),
    ensures
        final(store).wf(),
        match r {
            Ok(ids) => old(store)@.contains_key(name@) && dims_ok(
                points@,
                old(store)@[name@].dimension,
            ) && ids@ == points@.map_values(|p: Point| p.id) && final(store)@ == old(store)@.insert(
                name@,
                CollectionModel {
                    dimension: old(store)@[name@].dimension,
                    points: upsert_all(old(store)@[name@].points, points@),
                },
            ),
            Err(e) => final(store)@ == old(store)@ && ((!old(store)@.contains_key(name@) && e
                == StoreError::NotFound) || (old(store)@.contains_key(name@) && exists|i: int|
                first_mismatch(points@, old(store)@[name@].dimension, i) && e
                == StoreError::DimensionMismatch(Some(points@[i].id)))),
        },
{
    let i = match store.find(name) {
        Some(i) => i,
        None => {
            return Err(StoreError::NotFound);
        },
    };
    let dim: usize = store.collections[i].dimension;
    if let Some(j) = first_bad_dimension(points, dim) {
        assert(first_mismatch(points@, store@[name@].dimension, j as int));
        return Err(StoreError::DimensionMismatch(Some(points[j].id)));
    }
    let ghost s = store.collections@;
    let ghost m0 = s[i as int].model().points;
    let mut c = store.collections.remove(i);
    let mut ids: Vec<u64> = Vec::new();
    let mut k: usize = 0;
    while k < points.len()
        invariant
            k <= points@.len(),
            dims_ok(points@, dim as nat),
            c.wf(),
            i < s.len(),
            c.name == s[i as int].name,
            c.dimension == dim,
            c.model().points == upsert_all(m0, points@.take(k as int)),
            ids@ == points@.take(k as int).map_values(|p: Point| p.id),
        decreases points@.len() - k,
    {
        let p = copy_point(&points[k]);
        ids.push(p.id);
        c.upsert_one(p);
        proof {
            assert(points@.take(k as int + 1).drop_last() =~= points@.take(k as int));
            assert(ids@ =~= points@.take(k as int + 1).map_values(|p: Point| p.id));
        }
        k = k + 1;
    }
    proof {
        assert(points@.take(points@.len() as int) =~= points@);
    }
    store.put_back(i, c, Ghost(s));
    Ok(ids)
}

/// `v` lists, once each, the points of `m` whose ids are in `ids`, with
/// their content.
pub open spec fn is_lookup(m: Map<u64, PointModel>, ids: Seq<u64>, v: Seq<Point>) -> bool {
    &&& crate::collection::unique_ids(v)
    &&& forall|j: int|
        0 <= j < v.len() ==> ids.contains((#[trigger] v[j]).id) && m.contains_key(v[j].id)
            && m[v[j].id] == v[j].model()
    &&& forall|k: u64|
        ids.contains(k) && m.contains_key(k) ==> exists|j: int|
            0 <= j < v.len() && (#[trigger] v[j]).id == k
}

/// The stored points of the collection `name` whose ids are listed in `ids`;
/// ids that are not stored are left out.
pub fn get_points(store: &Store, name: &str, ids: Vec<u64>) -> (r: Result<Vec<Point>, StoreError>)
    requires
        store.wf(),
    ensures
        match r {
            Ok(v) => store@.contains_key(name@) && is_lookup(store@[name@].points, ids@, v@),
            Err(e) => !store@.contains_key(name@) && e == StoreError::NotFound,
        },
{
    match store.find(name) {
        Some(i) => Ok(store.collections[i].select(ids.as_slice(), true)),
        None => Err(StoreError::NotFound),
    }
}

/// The point `id` of the collection `name`.
pub fn get_point(store: &Store, name: &str, id: u64) -> (r: Result<Point, StoreError>)
    requires
        store.wf(),
    ensures
        match r {
            Ok(p) => store@.contains_key(name@) && store@[name@].points.contains_key(id) && p.id == id
                && p.model() == store@[name@].points[id],
            Err(e) => e == StoreError::NotFound && (!store@.contains_key(name@)
                || !store@[name@].points.contains_key(id)),
        },
{
    match store.find(name) {
        Some(i) => match store.collections[i].get_one(id) {
            Some(p) => Ok(p),
            None => Err(StoreError::NotFound),
        },
        None => Err(StoreError::NotFound),
    }
}

/// The `limit` points of the collection `name` nearest to `vector` by
/// `distance`, nearest first, ties broken by ascending id.
pub fn search_points<F: Fn(&Vec<u32>, &Vec<u32>) -> u32>(
    store: &Store,
    name: &str,
    vector: &Vec<u32>,
    limit: usize,
    distance: &F,
) -> (r: Result<Vec<ScoredPoint>, StoreError>)
    requires
        store.wf(),
        forall|a: &Vec<u32>, b: &Vec<u32>| distance.requires((a, b)),
    ensures
        match r {
            Ok(v) => store@.contains_key(name@) && vector@.len() == store@[name@].dimension && (exists|
                sc: Seq<(u32, u64)>,
            |
                #[trigger] is_scoring(*distance, *vector, store.points_of(name@), sc) && is_nearest(
                    sc,
                    limit as nat,
                    scored_pairs(v@),
                )) && (forall|j: int|
                0 <= j < v@.len() ==> store@[name@].points.contains_key((#[trigger] v@[j]).id)
                    && store@[name@].points[v@[j].id] == v@[j].model()),
            Err(e) => (!store@.contains_key(name@) && e == StoreError::NotFound) || (
            store@.contains_key(name@) && vector@.len() != store@[name@].dimension && e
                == StoreError::DimensionMismatch(None)),
        },
{
    match store.find(name) {
        Some(i) => {
            if vector.len() != store.collections[i].dimension {
                Err(StoreError::DimensionMismatch(None))
            } else {
                Ok(store.collections[i].search(vector, limit, distance))
            }
        },
        None => Err(StoreError::NotFound),
    }
}

/// Removes the points listed in `ids` from the collection `name`; ids that
/// are not stored are ignored.
pub fn delete_points(store: &mut Store, name: &str, ids: Vec<u64>) -> (r: Result<(), StoreError>)
    requires
        old(store).wf(),
    ensures
        final(store).wf(),
        match r {
            Ok(()) => old(store)@.contains_key(name@) && final(store)@ == old(store)@.insert(
                name@,
                CollectionModel {
                    dimension: old(store)@[name@].dimension,
                    points: old(store)@[name@].points.remove_keys(ids@.to_set()),
                },
            ),
            Err(e) => !old(store)@.contains_key(name@) && e == StoreError::NotFound && final(store)@
                == old(store)@,
        },
{
    match store.find(name) {
        Some(i) => {
            let ghost s = store.collections@;
            let mut c = store.collections.remove(i);
            c.delete_many(ids.as_slice());
            store.put_back(i, c, Ghost(s));
            Ok(())
        },
        None => Err(StoreError::NotFound),
    }
}

/// Removes the collection `name` with all its points.
pub fn delete_collection(store: &mut Store, name: &str) -> (r: Result<(), StoreError>)
    requires
        old(store).wf(),
    ensures
        final(store).wf(),
        match r {
            Ok(()) => old(store)@.contains_key(name@) && final(store)@ == old(store)@.remove(name@),
            Err(e) => !old(store)@.contains_key(name@) && e == StoreError::NotFound && final(store)@
                == old(store)@,
        },
{
    match store.find(name) {
        Some(i) => {
            proof {
                lemma_collections_remove(store.collections@, i as int);
            }
            store.collections.remove(i);
            Ok(())
        },
        None => Err(StoreError::NotFound),
    }
}


/// A collection just created holds no points, so its count is zero.
pub proof fn lemma_created_is_empty(
    before: Map<Seq<char>, CollectionModel>,
    after: Map<Seq<char>, CollectionModel>,
    name: Seq<char>,
    size: nat,
)
    requires
        after == before.insert(name, CollectionModel { dimension: size, points: Map::empty() }),
    ensures
        after.contains_key(name),
        after[name].dimension == size,
        after[name].points.len() == 0,
{
    assert(after[name].points.dom() =~= Set::empty());
}

/// After an upsert, each id holds the last point the batch gave for it, and
/// every other id keeps what it held.
pub proof fn lemma_upsert_then_get(m: Map<u64, PointModel>, ps: Seq<Point>, i: int)
    requires
        0 <= i < ps.len(),
        forall|j: int| i < j < ps.len() ==> (#[trigger] ps[j]).id != ps[i].id,
    ensures
        upsert_all(m, ps).contains_key(ps[i].id),
        upsert_all(m, ps)[ps[i].id] == ps[i].model(),
    decreases ps.len(),
{
    if i < ps.len() - 1 {
        lemma_upsert_then_get(m, ps.drop_last(), i);
        assert(ps.drop_last()[i] == ps[i]);
    }
}

/// An upsert leaves alone the ids that the batch does not name.
pub proof fn lemma_upsert_keeps_others(m: Map<u64, PointModel>, ps: Seq<Point>, k: u64)
    requires
        forall|j: int| 0 <= j < ps.len() ==> (#[trigger] ps[j]).id != k,
    ensures
        upsert_all(m, ps).contains_key(k) == m.contains_key(k),
        m.contains_key(k) ==> upsert_all(m, ps)[k] == m[k],
    decreases ps.len(),
{
    if ps.len() > 0 {
        assert forall|j: int| 0 <= j < ps.drop_last().len() implies (#[trigger] ps.drop_last()[j]).id
            != k by {
            assert(ps.drop_last()[j] == ps[j]);
        }
        lemma_upsert_keeps_others(m, ps.drop_last(), k);
    }
}

/// Writing `q` over a stored `p` of the same id replaces vector and payload
/// together: the id then holds exactly what `q` holds.
pub proof fn lemma_upsert_replaces(m: Map<u64, PointModel>, p: Point, q: Point)
    requires
        p.id == q.id,
    ensures
        upsert_all(upsert_all(m, seq![p]), seq![q])[q.id] == q.model(),
        upsert_all(upsert_all(m, seq![p]), seq![q]).dom() == upsert_all(m, seq![p]).dom(),
{
    let m1 = upsert_all(m, seq![p]);
    assert(seq![p].drop_last() =~= Seq::<Point>::empty());
    assert(seq![q].drop_last() =~= Seq::<Point>::empty());
    assert(seq![q].len() == 1 && seq![q].last() == q);
    assert(upsert_all(m1, Seq::<Point>::empty()) == m1);
    assert(upsert_all(m1, seq![q]) == m1.insert(q.id, q.model()));
    assert(m1.insert(q.id, q.model()).dom() =~= m1.dom());
}

/// Once `ids` are deleted, a lookup of `ids` finds nothing.
pub proof fn lemma_delete_then_lookup(m: Map<u64, PointModel>, ids: Seq<u64>, v: Seq<Point>)
    requires
        is_lookup(m.remove_keys(ids.to_set()), ids, v),
    ensures
        v.len() == 0,
{
    if v.len() > 0 {
        assert(ids.contains(v[0].id));
        assert(ids.to_set().contains(v[0].id));
    }
}

/// Once a collection is deleted, it is absent, so every operation on its
/// points fails with `NotFound`.
pub proof fn lemma_deleted_collection_absent(
    before: Map<Seq<char>, CollectionModel>,
    after: Map<Seq<char>, CollectionModel>,
    name: Seq<char>,
)
    requires
        after == before.remove(name),
    ensures
        !after.contains_key(name),
{
}

/// A search returns at most `limit` points, by non-decreasing score; where
/// `limit` is at least the number of points of the collection, it returns
/// every one of them.
pub proof fn lemma_search_bounds<F: Fn(&Vec<u32>, &Vec<u32>) -> u32>(
    store: &Store,
    name: Seq<char>,
    distance: F,
    query: Vec<u32>,
    limit: nat,
    v: Seq<ScoredPoint>,
)
    requires
        store.wf(),
        store@.contains_key(name),
        exists|sc: Seq<(u32, u64)>|
            #[trigger] is_scoring(distance, query, store.points_of(name), sc) && is_nearest(
                sc,
                limit,
                scored_pairs(v),
            ),
    ensures
        v.len() <= limit,
        forall|i: int, j: int| 0 <= i < j < v.len() ==> v[i].score <= v[j].score,
        limit >= store@[name].points.len() ==> v.len() == store@[name].points.len() && forall|
            id: u64,
        |
            #[trigger] store@[name].points.contains_key(id) ==> exists|j: int|
                0 <= j < v.len() && v[j].id == id,
{
    let sc = choose|sc: Seq<(u32, u64)>|
        #[trigger] is_scoring(distance, query, store.points_of(name), sc) && is_nearest(
            sc,
            limit,
            scored_pairs(v),
        );
    let pts = store.points_of(name);
    lemma_collections_map(store.collections@);
    let c = choose|c: int|
        0 <= c < store.collections@.len() && store.collections@[c].name@ == name;
    assert(store.collections@[c].wf());
    assert(crate::collection::unique_ids(pts));
    assert(crate::index::distinct_ids(sc)) by {
        assert forall|a: int, b: int|
            0 <= a < sc.len() && 0 <= b < sc.len() && a != b implies sc[a].1 != sc[b].1 by {
            assert(sc[a].1 == pts[a].id && sc[b].1 == pts[b].id);
        }
    }
    store.lemma_points_of(name);
    let r = scored_pairs(v);
    lemma_nearest_properties(sc, limit, r);
    assert forall|i: int, j: int| 0 <= i < j < v.len() implies v[i].score <= v[j].score by {
        assert(r[i].0 == v[i].score && r[j].0 == v[j].score);
    }
    if limit >= store@[name].points.len() {
        assert forall|id: u64| #[trigger] store@[name].points.contains_key(id) implies exists|j: int|
            0 <= j < v.len() && v[j].id == id by {
            crate::collection::lemma_points_map(pts);
            let m = choose|m: int| 0 <= m < pts.len() && pts[m].id == id;
            assert(sc[m].1 == id);
            assert(sc.contains(sc[m]));
            assert(r.contains(sc[m]));
            let j = choose|j: int| 0 <= j < r.len() && r[j] == sc[m];
            assert(v[j].id == r[j].1);
        }
    }
}

} // verus!
