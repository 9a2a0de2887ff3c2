//! Roof fields: the roof planes of a level joined edge to edge form one
//! assembly, which shares its overhangs and is edited as a whole.

use vstd::prelude::*;
use vstd::set_lib::{lemma_int_range, lemma_len_subset, set_int_range};

use crate::element::{id_views, ElementId};
use crate::model::{roof_edges_shared, roofs_share_edge, BuildingModel};
use crate::model::system_index;
use crate::order::{first_index, key_index, lemma_first_index, position_of};
use crate::system::{first_layer_from, lemma_first_layer_from_range, nominal_inches, LayerFunction};
use crate::wall::Wall;
use crate::surfaces::RoofPlane;
use crate::units::{Length, Point2};

verus! {

/// Roof plane `b` touches roof plane `a`: a plane with id `b` on the level of
/// the first plane with id `a` has an edge in common with it.
pub open spec fn roof_adjacent(m: BuildingModel, a: Seq<char>, b: Seq<char>) -> bool {
    let i = key_index(m.roof_planes@, a);
    &&& i >= 0
    &&& exists|j: int|
        0 <= j < m.roof_planes@.len() && #[trigger] m.roof_planes@[j].id@ == b && m.roof_planes@[j].level@
            == m.roof_planes@[i].level@ && roofs_share_edge(m.roof_planes@[i], m.roof_planes@[j])
}

/// A set of plane ids that holds every plane touching one of its members.
pub open spec fn roof_closed(m: BuildingModel, inside: spec_fn(Seq<char>) -> bool) -> bool {
    forall|a: Seq<char>, b: Seq<char>| inside(a) && #[trigger] roof_adjacent(m, a, b) ==> inside(b)
}

/// Some roof plane has id `x`.
pub open spec fn is_roof_id(planes: Seq<RoofPlane>, x: Seq<char>) -> bool {
    exists|j: int| 0 <= j < planes.len() && #[trigger] planes[j].id@ == x
}

/// Distinct ids, each of some roof plane, are no more than the planes.
proof fn lemma_roof_ids_bounded(planes: Seq<RoofPlane>, ids: Seq<Seq<char>>)
    requires
        ids.no_duplicates(),
        forall|i: int| 0 <= i < ids.len() ==> is_roof_id(planes, #[trigger] ids[i]),
    ensures
        ids.len() <= planes.len(),
{
    let idx = Seq::new(ids.len(), |i: int| choose|j: int| 0 <= j < planes.len() && #[trigger] planes[j].id@ == ids[i]);
    assert forall|i: int| 0 <= i < ids.len() implies 0 <= #[trigger] idx[i] < planes.len() && planes[idx[i]].id@ == ids[i] by {
        assert(is_roof_id(planes, ids[i]));
    }
    assert forall|a: int, b: int| 0 <= a < idx.len() && 0 <= b < idx.len() && a != b implies #[trigger] idx[a] != #[trigger] idx[b] by {
        assert(planes[idx[a]].id@ == ids[a]);
        assert(planes[idx[b]].id@ == ids[b]);
    }
    assert(idx.no_duplicates());
    idx.unique_seq_to_set();
    lemma_int_range(0, planes.len() as int);
    assert(idx.to_set().subset_of(set_int_range(0, planes.len() as int))) by {
        assert forall|x: int| idx.to_set().contains(x) implies set_int_range(0, planes.len() as int).contains(x) by {
            assert(idx.contains(x));
        }
    }
    lemma_len_subset(idx.to_set(), set_int_range(0, planes.len() as int));
}

fn id_listed(ids: &Vec<ElementId>, id: &ElementId) -> (r: bool)
    ensures
        r == id_views(ids@).contains(id@),
{
    let mut i: usize = 0;
    while i < ids.len()
        invariant
            i <= ids@.len(),
            forall|k: int| 0 <= k < i ==> ids@[k]@ != id@,
        decreases ids@.len() - i,
    {
        if ids[i] == *id {
            assert(id_views(ids@)[i as int] == id@);
            return true;
        }
        i = i + 1;
    }
    assert forall|k: int| 0 <= k < id_views(ids@).len() implies id_views(ids@)[k] != id@ by {
        assert(id_views(ids@)[k] == ids@[k]@);
    }
    false
}

/// Wall `w` of the plane's level runs along the edge from `a` to `b`, either way.
pub open spec fn bears_edge(w: Wall, level: Seq<char>, a: Point2, b: Point2) -> bool {
    w.level@ == level && ((w.start == a && w.end == b) || (w.start == b && w.end == a))
}

/// The depth, in ticks, of the framing members of the first wall under the
/// plane's eave edge; none without such a wall, a known system, a framing
/// layer or a framing spec.
pub open spec fn bearing_depth(m: BuildingModel, plane: RoofPlane) -> Option<int> {
    let n = plane.outline@.len() as int;
    let e = plane.eave_edge as int;
    if n < 2 || e >= n {
        None
    } else {
        let a = plane.outline@[e];
        let b = plane.outline@[(e + 1) % n];
        let i = first_index(m.walls@, |w: Wall| bears_edge(w, plane.level@, a, b));
        if i < 0 {
            None
        } else {
            let si = system_index(m.systems@, m.walls@[i].system@);
            if si < 0 {
                None
            } else {
                let layers = m.systems@[si].layers@;
                match first_layer_from(layers, LayerFunction::Framing, LayerFunction::Framing, 0) {
                    None => None,
                    Some(f) => match layers[f].framing {
                        None => None,
                        Some(spec) => Some(16 * nominal_inches(spec.member)),
                    },
                }
            }
        }
    }
}

/// The member depth of the wall a roof plane's eave bears on.
pub fn matched_bearing_depth(model: &BuildingModel, plane: &RoofPlane) -> (r: Option<Length>)
    ensures
        match bearing_depth(*model, *plane) {
            Some(d) => r matches Some(l) && l.ticks == d,
            None => r is None,
        },
{
    let count = plane.outline.len();
    if count < 2 || plane.eave_edge as usize >= count {
        return None;
    }
    let index = plane.eave_edge as usize;
    let a = plane.outline[index];
    let b = plane.outline[(index + 1) % count];
    let ghost p = |w: Wall| bears_edge(w, plane.level@, a, b);
    let mut i: usize = 0;
    while i < model.walls.len()
        invariant
            i <= model.walls@.len(),
            p == (|w: Wall| bears_edge(w, plane.level@, a, b)),
            count == plane.outline@.len(),
            2 <= count,
            index == plane.eave_edge as usize,
            index < count,
            a == plane.outline@[index as int],
            b == plane.outline@[(index as int + 1) % (count as int)],
            forall|j: int| 0 <= j < i ==> !p(#[trigger] model.walls@[j]),
        decreases model.walls@.len() - i,
    {
        let w = &model.walls[i];
        if w.level == plane.level && ((w.start == a && w.end == b) || (w.start == b && w.end == a)) {
            proof {
                lemma_first_index(model.walls@, p, i as int);
            }
            let system = match model.system_for(w) {
                Some(s) => s,
                None => {
                    return None;
                },
            };
            proof {
                lemma_first_layer_from_range(system.layers@, LayerFunction::Framing, LayerFunction::Framing, 0);
            }
            let layer = match system.framing_layer() {
                Some(l) => l,
                None => {
                    return None;
                },
            };
            return match &layer.framing {
                Some(spec) => Some(spec.member.nominal_depth()),
                None => None,
            };
        }
        i = i + 1;
    }
    proof {
        lemma_first_index(model.walls@, p, i as int);
    }
    None
}

impl BuildingModel {
    /// The roof field of `roof_plane`: the ids of the planes reachable from it
    /// through edges shared on one level, itself included; none for an unknown
    /// plane. Planes of one field form one watertight assembly.
    pub fn connected_roof_plane_ids(&self, roof_plane: &ElementId) -> (r: Vec<ElementId>)
        ensures
            key_index(self.roof_planes@, roof_plane@) < 0 ==> r@.len() == 0,
            key_index(self.roof_planes@, roof_plane@) >= 0 ==> {
                &&& id_views(r@).contains(roof_plane@)
                &&& id_views(r@).no_duplicates()
                &&& roof_closed(*self, |x: Seq<char>| id_views(r@).contains(x))
                &&& forall|t: spec_fn(Seq<char>) -> bool|
                    roof_closed(*self, t) && t(roof_plane@) ==> forall|x: Seq<char>| #[trigger]
                        id_views(r@).contains(x) ==> t(x)
            },
    {
        let si = match position_of(&self.roof_planes, roof_plane.as_str()) {
            Some(i) => i,
            None => {
                return Vec::new();
            },
        };
        let n = self.roof_planes.len();
        let mut connected: Vec<ElementId> = Vec::new();
        connected.push(self.roof_planes[si].id.clone());
        let mut frontier: Vec<ElementId> = Vec::new();
        frontier.push(self.roof_planes[si].id.clone());
        let ghost seed = roof_plane@;
        proof {
            assert(id_views(connected@) =~= seq![seed]);
            assert(id_views(frontier@) =~= seq![seed]);
            assert(id_views(connected@)[0] == seed);
            assert(is_roof_id(self.roof_planes@, self.roof_planes@[si as int].id@));
        }
        while frontier.len() > 0
            invariant
                n == self.roof_planes@.len(),
                seed == roof_plane@,
                id_views(connected@).contains(seed),
                id_views(connected@).no_duplicates(),
                id_views(frontier@).no_duplicates(),
                forall|i: int| 0 <= i < connected@.len() ==> is_roof_id(self.roof_planes@, #[trigger] connected@[i]@),
                forall|x: Seq<char>| id_views(frontier@).contains(x) ==> id_views(connected@).contains(x),
                forall|a: Seq<char>, b: Seq<char>|
                    id_views(connected@).contains(a) && !id_views(frontier@).contains(a) && #[trigger] roof_adjacent(
                        *self,
                        a,
                        b,
                    ) ==> id_views(connected@).contains(b),
                forall|t: spec_fn(Seq<char>) -> bool|
                    roof_closed(*self, t) && t(seed) ==> forall|x: Seq<char>| #[trigger]
                        id_views(connected@).contains(x) ==> t(x),
                connected@.len() <= n,
            decreases n - connected@.len(), frontier@.len(),
        {
let ghost c0 = connected@.len();
            let ghost f0 = frontier@.len();
            let ghost before = frontier@;
            let current = frontier.pop().unwrap();
            proof {
                assert(frontier@ == before.drop_last());
                assert(id_views(frontier@) =~= id_views(before).drop_last());
                assert(id_views(before)[before.len() - 1] == current@);
                assert(id_views(before).contains(current@));
                assert forall|k: int| 0 <= k < id_views(frontier@).len() implies id_views(frontier@)[k] != current@ by {
                    assert(id_views(frontier@)[k] == id_views(before)[k]);
                }
            }
            let ci = match position_of(&self.roof_planes, current.as_str()) {
                Some(i) => i,
                None => {
                    proof {
                        assert forall|a: Seq<char>, b: Seq<char>|
                            id_views(connected@).contains(a) && !id_views(frontier@).contains(a) && #[trigger] roof_adjacent(
                                *self,
                                a,
                                b,
                            ) implies id_views(connected@).contains(b) by {
                            if a != current@ {
                                assert(!id_views(before).contains(a)) by {
                                    if id_views(before).contains(a) {
                                        let k = choose|k: int| 0 <= k < id_views(before).len() && id_views(before)[k] == a;
                                        assert(k != before.len() - 1);
                                        assert(id_views(frontier@)[k] == a);
                                    }
                                }
                            }
                        }
                    }
                    continue;
                },
            };
            let cur = &self.roof_planes[ci];
            proof {
                assert forall|a: Seq<char>, b: Seq<char>|
                    a != current@ && id_views(connected@).contains(a) && !id_views(frontier@).contains(a)
                        && #[trigger] roof_adjacent(*self, a, b) implies id_views(connected@).contains(b) by {
                    assert(!id_views(before).contains(a)) by {
                        if id_views(before).contains(a) {
                            let k = choose|k: int| 0 <= k < id_views(before).len() && id_views(before)[k] == a;
                            assert(k != before.len() - 1);
                            assert(id_views(frontier@)[k] == a);
                        }
                    }
                }
            }
            let mut j: usize = 0;
            while j < n
                invariant
                    n == self.roof_planes@.len(),
                    seed == roof_plane@,
                    0 <= ci < n,
                    key_index(self.roof_planes@, current@) == ci as int,
                    *cur == self.roof_planes@[ci as int],
                    cur.id@ == current@,
                    0 <= j <= n,
                    id_views(connected@).contains(seed),
                    id_views(connected@).contains(current@),
                    !id_views(frontier@).contains(current@),
                    id_views(connected@).no_duplicates(),
                    id_views(frontier@).no_duplicates(),
                    forall|i: int| 0 <= i < connected@.len() ==> is_roof_id(self.roof_planes@, #[trigger] connected@[i]@),
                    forall|x: Seq<char>| id_views(frontier@).contains(x) ==> id_views(connected@).contains(x),
                    forall|a: Seq<char>, b: Seq<char>|
                        a != current@ && id_views(connected@).contains(a) && !id_views(frontier@).contains(a)
                            && #[trigger] roof_adjacent(*self, a, b) ==> id_views(connected@).contains(b),
                    forall|k: int|
                        0 <= k < j && self.roof_planes@[k].level@ == cur.level@ && roofs_share_edge(
                            *cur,
                            #[trigger] self.roof_planes@[k],
                        ) ==> id_views(connected@).contains(self.roof_planes@[k].id@),
                    forall|t: spec_fn(Seq<char>) -> bool|
                        roof_closed(*self, t) && t(seed) ==> forall|x: Seq<char>| #[trigger]
                            id_views(connected@).contains(x) ==> t(x),
                    connected@.len() <= n,
                    connected@.len() >= c0,
                    connected@.len() - c0 == frontier@.len() - (f0 - 1),
                decreases n - j,
            {
                let cand = &self.roof_planes[j];
                if cand.level == cur.level && !id_listed(&connected, &cand.id) && roof_edges_shared(cur, cand) {
                    let ghost b = cand.id@;
                    let ghost old_conn = id_views(connected@);
                    let ghost old_front = id_views(frontier@);
                    proof {
                        assert(self.roof_planes@[j as int].id@ == b);
                        assert(roof_adjacent(*self, current@, b));
                        assert forall|t: spec_fn(Seq<char>) -> bool| roof_closed(*self, t) && t(seed) implies t(b) by {
                            assert(old_conn.contains(current@));
                            assert(t(current@));
                        }
                    }
                    connected.push(cand.id.clone());
                    frontier.push(cand.id.clone());
                    proof {
                        assert(id_views(connected@) =~= old_conn.push(b));
                        assert(id_views(frontier@) =~= old_front.push(b));
                        assert(id_views(connected@)[old_conn.len() as int] == b);
                        assert(id_views(frontier@)[old_front.len() as int] == b);
                        assert forall|x: Seq<char>| #[trigger] id_views(connected@).contains(x) implies old_conn.contains(x) || x == b by {
                            let k = choose|k: int| 0 <= k < id_views(connected@).len() && id_views(connected@)[k] == x;
                            if k < old_conn.len() {
                                assert(old_conn[k] == x);
                            }
                        }
                        assert forall|x: Seq<char>| #[trigger] id_views(frontier@).contains(x) implies old_front.contains(x) || x == b by {
                            let k = choose|k: int| 0 <= k < id_views(frontier@).len() && id_views(frontier@)[k] == x;
                            if k < old_front.len() {
                                assert(old_front[k] == x);
                            }
                        }
                        assert forall|x: Seq<char>| old_conn.contains(x) implies #[trigger] id_views(connected@).contains(x) by {
                            let k = choose|k: int| 0 <= k < old_conn.len() && old_conn[k] == x;
                            assert(id_views(connected@)[k] == x);
                        }
                        assert forall|x: Seq<char>| old_front.contains(x) implies #[trigger] id_views(frontier@).contains(x) by {
                            let k = choose|k: int| 0 <= k < old_front.len() && old_front[k] == x;
                            assert(id_views(frontier@)[k] == x);
                        }
                        assert(!old_front.contains(b));
                        assert(is_roof_id(self.roof_planes@, b));
                        assert forall|i: int| 0 <= i < connected@.len() implies is_roof_id(self.roof_planes@, #[trigger] connected@[i]@) by {
                            if i < old_conn.len() {
                                assert(connected@[i]@ == old_conn[i]);
                            }
                        }
                        assert forall|i: int| 0 <= i < id_views(connected@).len() implies is_roof_id(
                            self.roof_planes@,
                            #[trigger] id_views(connected@)[i],
                        ) by {
                            assert(id_views(connected@)[i] == connected@[i]@);
                        }
                        lemma_roof_ids_bounded(self.roof_planes@, id_views(connected@));
                    }
                }
                j = j + 1;
            }
            proof {
                assert forall|a: Seq<char>, b: Seq<char>|
                    id_views(connected@).contains(a) && !id_views(frontier@).contains(a) && #[trigger] roof_adjacent(
                        *self,
                        a,
                        b,
                    ) implies id_views(connected@).contains(b) by {
                    if a == current@ {
                        let k = choose|k: int|
                            0 <= k < self.roof_planes@.len() && #[trigger] self.roof_planes@[k].id@ == b
                                && self.roof_planes@[k].level@ == self.roof_planes@[ci as int].level@ && roofs_share_edge(
                                self.roof_planes@[ci as int],
                                self.roof_planes@[k],
                            );
                        assert(self.roof_planes@[k].level@ == cur.level@);
                    }
                }
            }
        }
        connected
    }
}

} // verus!
