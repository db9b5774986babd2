//! One collection: points keyed by id, all of one dimension.
use vstd::prelude::*;

use crate::index::{distinct_ids, is_nearest, nearest};

verus! {

/// A stored point: a caller-chosen id, a vector of IEEE-754 single-precision
/// bit patterns, and an optional payload held as serialized JSON text.
pub struct Point {
    pub id: u64,
    pub vector: Vec<u32>,
    pub payload: Option<String>,
}

/// A point returned by a search, with its distance from the query.
pub struct ScoredPoint {
    pub id: u64,
    pub vector: Vec<u32>,
    pub payload: Option<String>,
    pub score: u32,
}

/// What a collection holds for one id.
pub ghost struct PointModel {
    pub vector: Seq<u32>,
    pub payload: Option<Seq<char>>,
}

/// The mathematical content of a collection.
pub ghost struct CollectionModel {
    pub dimension: nat,
    pub points: Map<u64, PointModel>,
}

pub open spec fn payload_view(p: Option<String>) -> Option<Seq<char>> {
    match p {
        Some(s) => Some(s@),
        None => None,
    }
}

impl Point {
    pub open spec fn model(self) -> PointModel {
        PointModel { vector: self.vector@, payload: payload_view(self.payload) }
    }
}

impl ScoredPoint {
    pub open spec fn model(self) -> PointModel {
        PointModel { vector: self.vector@, payload: payload_view(self.payload) }
    }
}

/// No two points of `s` share an id.
pub open spec fn unique_ids(s: Seq<Point>) -> bool {
    forall|i: int, j: int| 0 <= i < s.len() && 0 <= j < s.len() && i != j ==> s[i].id != s[j].id
}

/// The map from id to point content that a sequence of points holds.
pub open spec fn points_map(s: Seq<Point>) -> Map<u64, PointModel> {
    Map::new(
        |k: u64| exists|i: int| 0 <= i < s.len() && s[i].id == k,
        |k: u64| s[choose|i: int| 0 <= i < s.len() && s[i].id == k].model(),
    )
}

pub proof fn lemma_points_map(s: Seq<Point>)
    requires
        unique_ids(s),
    ensures
        forall|i: int|
            0 <= i < s.len() ==> points_map(s).contains_key(#[trigger] s[i].id) && points_map(s)[s[i].id]
                == s[i].model(),
        forall|k: u64|
            #[trigger] points_map(s).contains_key(k) ==> exists|i: int| 0 <= i < s.len() && s[i].id == k,
{
    assert forall|i: int| 0 <= i < s.len() implies points_map(s).contains_key(#[trigger] s[i].id)
        && points_map(s)[s[i].id] == s[i].model() by {
        let k = s[i].id;
        assert(exists|i2: int| 0 <= i2 < s.len() && s[i2].id == k);
        let c = choose|i2: int| 0 <= i2 < s.len() && s[i2].id == k;
        assert(c == i);
    }
}

pub proof fn lemma_points_map_len(s: Seq<Point>)
    requires
        unique_ids(s),
    ensures
        points_map(s).len() == s.len(),
{
    let ids = s.map_values(|p: Point| p.id);
    assert(ids.no_duplicates());
    ids.unique_seq_to_set();
    lemma_points_map(s);
    assert forall|k: u64| #[trigger] points_map(s).dom().contains(k) <==> ids.to_set().contains(k) by {
        if ids.to_set().contains(k) {
            assert(ids.contains(k));
            let i = choose|i: int| 0 <= i < ids.len() && ids[i] == k;
            assert(s[i].id == k);
        }
        if points_map(s).dom().contains(k) {
            let i = choose|i: int| 0 <= i < s.len() && s[i].id == k;
            assert(ids[i] == k);
        }
    }
    assert(points_map(s).dom() =~= ids.to_set());
}

/// A copy of a vector, component by component.
pub fn copy_vector(v: &Vec<u32>) -> (r: Vec<u32>)
    ensures
        r@ == v@,
{
    let mut r: Vec<u32> = Vec::new();
    let mut i: usize = 0;
    while i < v.len()
        invariant
            i <= v@.len(),
            r@ == v@.take(i as int),
        decreases v@.len() - i,
    {
        r.push(v[i]);
        i = i + 1;
        assert(r@ =~= v@.take(i as int));
    }
    assert(v@.take(v@.len() as int) =~= v@);
    r
}

/// A copy of a payload.
pub fn copy_payload(p: &Option<String>) -> (r: Option<String>)
    ensures
        payload_view(r) == payload_view(*p),
{
    match p {
        Some(s) => Some(s.clone()),
        None => None,
    }
}

/// A copy of a point.
pub fn copy_point(p: &Point) -> (r: Point)
    ensures
        r.id == p.id,
        r.model() == p.model(),
{
    Point { id: p.id, vector: copy_vector(&p.vector), payload: copy_payload(&p.payload) }
}

/// Whether `id` is listed in `ids`.
pub fn listed(ids: &[u64], id: u64) -> (r: bool)
    ensures
        r == ids@.contains(id),
{
    let mut i: usize = 0;
    while i < ids.len()
        invariant
            i <= ids@.len(),
            forall|j: int| 0 <= j < i ==> ids@[j] != id,
        decreases ids@.len() - i,
    {
        if ids[i] == id {
            return true;
        }
        i = i + 1;
    }
    false
}

/// The `(score, id)` pairs of a search result, in order.
pub open spec fn scored_pairs(r: Seq<ScoredPoint>) -> Seq<(u32, u64)> {
    r.map_values(|p: ScoredPoint| (p.score, p.id))
}

/// `sc` scores each point of `pts`, in order, by what `distance` returned
/// for the query and that point's vector.
pub open spec fn is_scoring<F: Fn(&Vec<u32>, &Vec<u32>) -> u32>(
    distance: F,
    query: Vec<u32>,
    pts: Seq<Point>,
    sc: Seq<(u32, u64)>,
) -> bool {
    &&& sc.len() == pts.len()
    &&& forall|i: int|
        0 <= i < pts.len() ==> (#[trigger] sc[i]).1 == pts[i].id && distance.ensures(
            (&query, &pts[i].vector),
            sc[i].0,
        )
}

/// A named collection: its dimension is fixed when it is made.
pub struct Collection {
    pub name: String,
    pub dimension: usize,
    pub points: Vec<Point>,
}

impl Collection {
    /// The dimension is positive, ids are unique and every vector has the
    /// collection's dimension.
    pub open spec fn wf(&self) -> bool {
        &&& self.dimension > 0
        &&& unique_ids(self.points@)
        &&& forall|i: int|
            0 <= i < self.points@.len() ==> (#[trigger] self.points@[i]).vector@.len()
                == self.dimension
    }

    pub open spec fn model(&self) -> CollectionModel {
        CollectionModel { dimension: self.dimension as nat, points: points_map(self.points@) }
    }

    /// An empty collection.
    pub fn new(name: String, dimension: usize) -> (r: Collection)
        requires
            dimension > 0,
        ensures
            r.wf(),
            r.name@ == name@,
            r.model() == (CollectionModel { dimension: dimension as nat, points: Map::empty() }),
    {
        let r = Collection { name, dimension, points: Vec::new() };
        assert(points_map(r.points@) =~= Map::empty());
        r
    }

    /// Number of stored points.
    pub fn count(&self) -> (r: u64)
        requires
            self.wf(),
        ensures
            r == self.model().points.len(),
    {
        proof {
            lemma_points_map_len(self.points@);
        }
        self.points.len() as u64
    }

    /// Where the point with `id` stands, if there is one.
    pub fn position(&self, id: u64) -> (r: Option<usize>)
        requires
            self.wf(),
        ensures
            match r {
                Some(i) => i < self.points@.len() && self.points@[i as int].id == id,
                None => !self.model().points.contains_key(id),
            },
    {
        proof {
            lemma_points_map(self.points@);
        }
        let mut i: usize = 0;
        while i < self.points.len()
            invariant
                i <= self.points@.len(),
                forall|j: int| 0 <= j < i ==> (#[trigger] self.points@[j]).id != id,
            decreases self.points@.len() - i,
        {
            if self.points[i].id == id {
                return Some(i);
            }
            i = i + 1;
        }
        None
    }

    /// Writes `p` under its id, replacing whatever was there.
    pub fn upsert_one(&mut self, p: Point)
        requires
            old(self).wf(),
            p.vector@.len() == old(self).dimension,
        ensures
            final(self).wf(),
            final(self).name == old(self).name,
            final(self).dimension == old(self).dimension,
            final(self).model().points == old(self).model().points.insert(p.id, p.model()),
    {
        let ghost s = self.points@;
        let ghost pm = p.model();
        let ghost pid = p.id;
        let ghost mut at: int = 0;
        proof {
            lemma_points_map(s);
        }
        match self.position(p.id) {
            Some(i) => {
                self.points.remove(i);
                self.points.insert(i, p);
                assert(self.points@ =~= s.update(i as int, p));
                proof {
                    at = i as int;
                }
            },
            None => {
                self.points.push(p);
                assert(self.points@ =~= s.push(p));
                proof {
                    at = s.len() as int;
                }
            },
        }
        let ghost t = self.points@;
        proof {
            assert(unique_ids(t));
            lemma_points_map(t);
            assert(t[at].id == pid);
            assert forall|k: u64| #[trigger] points_map(t).contains_key(k) <==> points_map(
                s,
            ).insert(pid, pm).contains_key(k) by {
                if points_map(t).contains_key(k) {
                    let i = choose|i: int| 0 <= i < t.len() && t[i].id == k;
                    if k != pid {
                        assert(s[i].id == k);
                    }
                }
                if k != pid && points_map(s).contains_key(k) {
                    let i = choose|i: int| 0 <= i < s.len() && s[i].id == k;
                    assert(t[i].id == k);
                }
            }
            assert forall|k: u64| #[trigger] points_map(t).contains_key(k) implies points_map(t)[k]
                == points_map(s).insert(pid, pm)[k] by {
                let i = choose|i: int| 0 <= i < t.len() && t[i].id == k;
                if k != pid {
                    assert(s[i].id == k);
                }
            }
            assert(points_map(t) =~= points_map(s).insert(pid, pm));
        }
    }

    /// The point stored under `id`, if any.
    pub fn get_one(&self, id: u64) -> (r: Option<Point>)
        requires
            self.wf(),
        ensures
            match r {
                Some(p) => self.model().points.contains_key(id) && p.id == id && p.model()
                    == self.model().points[id],
                None => !self.model().points.contains_key(id),
            },
    {
        proof {
            lemma_points_map(self.points@);
        }
        match self.position(id) {
            Some(i) => Some(copy_point(&self.points[i])),
            None => None,
        }
    }

    /// Copies of the stored points whose id is listed in `ids` (when
    /// `keep_listed`) or not listed (otherwise), in storage order.
    pub fn select(&self, ids: &[u64], keep_listed: bool) -> (r: Vec<Point>)
        requires
            self.wf(),
        ensures
            unique_ids(r@),
            forall|j: int|
                0 <= j < r@.len() ==> ids@.contains((#[trigger] r@[j]).id) == keep_listed
                    && self.model().points.contains_key(r@[j].id) && self.model().points[r@[j].id]
                    == r@[j].model(),
            forall|k: u64|
                self.model().points.contains_key(k) && ids@.contains(k) == keep_listed ==> exists|
                    j: int,
                | 0 <= j < r@.len() && (#[trigger] r@[j]).id == k,
    {
        proof {
            lemma_points_map(self.points@);
        }
        let ghost s = self.points@;
        let mut r: Vec<Point> = Vec::new();
        let mut i: usize = 0;
        while i < self.points.len()
            invariant
                s == self.points@,
                self.wf(),
                i <= s.len(),
                unique_ids(r@),
                forall|j: int|
                    0 <= j < r@.len() ==> exists|m: int|
                        0 <= m < i && s[m].id == (#[trigger] r@[j]).id && s[m].model()
                            == r@[j].model() && ids@.contains(s[m].id) == keep_listed,
                forall|m: int|
                    0 <= m < i && ids@.contains(s[m].id) == keep_listed ==> exists|j: int|
                        0 <= j < r@.len() && (#[trigger] r@[j]).id == s[m].id,
            decreases s.len() - i,
        {
            if listed(ids, self.points[i].id) == keep_listed {
                let ghost old_r = r@;
                r.push(copy_point(&self.points[i]));
                assert forall|a: int, b: int|
                    0 <= a < r@.len() && 0 <= b < r@.len() && a != b implies r@[a].id != r@[b].id by {
                    if a == old_r.len() {
                        let m = choose|m: int| 0 <= m < i && s[m].id == old_r[b].id && s[m].model()
                            == old_r[b].model() && ids@.contains(s[m].id) == keep_listed;
                        assert(old_r[b] == r@[b]);
                    } else if b == old_r.len() {
                        let m = choose|m: int| 0 <= m < i && s[m].id == old_r[a].id && s[m].model()
                            == old_r[a].model() && ids@.contains(s[m].id) == keep_listed;
                        assert(old_r[a] == r@[a]);
                    } else {
                        assert(old_r[a] == r@[a] && old_r[b] == r@[b]);
                    }
                }
                assert forall|j: int| 0 <= j < r@.len() implies exists|m: int|
                    0 <= m < i + 1 && s[m].id == (#[trigger] r@[j]).id && s[m].model()
                        == r@[j].model() && ids@.contains(s[m].id) == keep_listed by {
                    if j < old_r.len() {
                        assert(old_r[j] == r@[j]);
                    } else {
                        assert(s[i as int].id == r@[j].id);
                    }
                }
                assert forall|m: int|
                    0 <= m < i + 1 && ids@.contains(s[m].id) == keep_listed implies exists|j: int|
                    0 <= j < r@.len() && (#[trigger] r@[j]).id == s[m].id by {
                    if m < i {
                        let j = choose|j: int| 0 <= j < old_r.len() && old_r[j].id == s[m].id;
                        assert(r@[j] == old_r[j]);
                    } else {
                        assert(r@[old_r.len() as int].id == s[m].id);
                    }
                }
            }
            i = i + 1;
        }
        proof {
            assert forall|j: int|
                0 <= j < r@.len() implies ids@.contains((#[trigger] r@[j]).id) == keep_listed
                && self.model().points.contains_key(r@[j].id) && self.model().points[r@[j].id]
                == r@[j].model() by {
                let m = choose|m: int| 0 <= m < i && s[m].id == r@[j].id && s[m].model()
                    == r@[j].model() && ids@.contains(s[m].id) == keep_listed;
                assert(points_map(s).contains_key(s[m].id));
            }
            assert forall|k: u64|
                self.model().points.contains_key(k) && ids@.contains(k) == keep_listed implies exists|
                j: int,
            | 0 <= j < r@.len() && (#[trigger] r@[j]).id == k by {
                let m = choose|m: int| 0 <= m < s.len() && s[m].id == k;
            }
        }
        r
    }

    /// Removes the points whose id is listed in `ids`; other ids are ignored.
    pub fn delete_many(&mut self, ids: &[u64])
        requires
            old(self).wf(),
        ensures
            final(self).wf(),
            final(self).name == old(self).name,
            final(self).dimension == old(self).dimension,
            final(self).model().points == old(self).model().points.remove_keys(ids@.to_set()),
    {
        let ghost before = self.model().points;
        let kept = self.select(ids, false);
        proof {
            lemma_points_map(kept@);
            assert forall|j: int| 0 <= j < kept@.len() implies (#[trigger] kept@[j]).vector@.len()
                == self.dimension by {
                let k = kept@[j].id;
                let m = choose|m: int| 0 <= m < self.points@.len() && self.points@[m].id == k;
                lemma_points_map(self.points@);
            }
            assert forall|k: u64| #[trigger] points_map(kept@).contains_key(k) <==> before.remove_keys(
                ids@.to_set(),
            ).contains_key(k) by {
                if points_map(kept@).contains_key(k) {
                    let j = choose|j: int| 0 <= j < kept@.len() && kept@[j].id == k;
                }
            }
            assert forall|k: u64| #[trigger] points_map(kept@).contains_key(k) implies points_map(
                kept@,
            )[k] == before.remove_keys(ids@.to_set())[k] by {
                let j = choose|j: int| 0 <= j < kept@.len() && kept@[j].id == k;
            }
            assert(points_map(kept@) =~= before.remove_keys(ids@.to_set()));
        }
        self.points = kept;
    }

    /// Scores every stored point against `query`, in storage order.
    pub fn scores<F: Fn(&Vec<u32>, &Vec<u32>) -> u32>(&self, query: &Vec<u32>, distance: &F) -> (r:
        Vec<(u32, u64)>)
        requires
            self.wf(),
            forall|a: &Vec<u32>, b: &Vec<u32>| distance.requires((a, b)),
        ensures
            is_scoring(*distance, *query, self.points@, r@),
            distinct_ids(r@),
    {
        let mut r: Vec<(u32, u64)> = Vec::new();
        let mut i: usize = 0;
        while i < self.points.len()
            invariant
                self.wf(),
                i <= self.points@.len(),
                r@.len() == i,
                forall|a: &Vec<u32>, b: &Vec<u32>| distance.requires((a, b)),
                forall|m: int|
                    0 <= m < i ==> (#[trigger] r@[m]).1 == self.points@[m].id && distance.ensures(
                        (query, &self.points@[m].vector),
                        r@[m].0,
                    ),
            decreases self.points@.len() - i,
        {
            let s: u32 = distance(query, &self.points[i].vector);
            r.push((s, self.points[i].id));
            i = i + 1;
        }
        r
    }

    /// The `k` stored points nearest to `query` by `distance`, nearest first,
    /// ties broken by ascending id.
    pub fn search<F: Fn(&Vec<u32>, &Vec<u32>) -> u32>(
        &self,
        query: &Vec<u32>,
        k: usize,
        distance: &F,
    ) -> (r: Vec<ScoredPoint>)
        requires
            self.wf(),
            forall|a: &Vec<u32>, b: &Vec<u32>| distance.requires((a, b)),
        ensures
            exists|sc: Seq<(u32, u64)>|
                #[trigger] is_scoring(*distance, *query, self.points@, sc) && is_nearest(
                    sc,
                    k as nat,
                    scored_pairs(r@),
                ),
            forall|j: int|
                0 <= j < r@.len() ==> self.model().points.contains_key((#[trigger] r@[j]).id)
                    && self.model().points[r@[j].id] == r@[j].model(),
    {
        proof {
            lemma_points_map(self.points@);
        }
        let cands = self.scores(query, distance);
        let sel = nearest(&cands, k);
        let mut r: Vec<ScoredPoint> = Vec::new();
        let mut j: usize = 0;
        while j < sel.len()
            invariant
                self.wf(),
                j <= sel@.len(),
                r@.len() == j,
                is_scoring(*distance, *query, self.points@, cands@),
                forall|i: int| 0 <= i < sel@.len() ==> cands@.contains(#[trigger] sel@[i]),
                forall|i: int|
                    0 <= i < j ==> (#[trigger] r@[i]).score == sel@[i].0 && r@[i].id == sel@[i].1
                        && self.model().points.contains_key(r@[i].id) && self.model().points[r@[i].id]
                        == r@[i].model(),
            decreases sel@.len() - j,
        {
            let (score, id) = sel[j];
            proof {
                assert(cands@.contains(sel@[j as int]));
                let m = choose|m: int| 0 <= m < cands@.len() && cands@[m] == sel@[j as int];
                assert(self.points@[m].id == id);
            }
            match self.position(id) {
                Some(pos) => {
                    let p = &self.points[pos];
                    r.push(
                        ScoredPoint {
                            id,
                            vector: copy_vector(&p.vector),
                            payload: copy_payload(&p.payload),
                            score,
                        },
                    );
                },
                // Every selected id is stored: the proof rules this arm out.
                None => {},
            }
            j = j + 1;
        }
        assert(scored_pairs(r@) =~= sel@);
        r
    }
}

} // verus!
