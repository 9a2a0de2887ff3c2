//! Deriving the wall joins that the wall geometry implies, and reconciling
//! them with the authored joins so that ids and names do not churn.

use vstd::prelude::*;

use crate::element::ElementId;
use crate::model::BuildingModel;
use crate::text::str_eq;
use crate::units::Point2;
use crate::wall::{on_wall_segment, point_on_segment_fits, Wall, WallJoin, WallJoinKind};

verus! {

/// A join that the geometry implies, before an id and a name are assigned.
pub struct DesiredJoin {
    pub kind: WallJoinKind,
    /// For a tee the through wall; otherwise the wall that comes first.
    pub first: ElementId,
    pub second: ElementId,
    pub point: Point2,
}

/// The shape of a join: kind, first wall, second wall, point.
pub open spec fn shape(d: DesiredJoin) -> (WallJoinKind, Seq<char>, Seq<char>, Point2) {
    (d.kind, d.first@, d.second@, d.point)
}

/// The shapes of a list of desired joins.
pub open spec fn shapes(s: Seq<DesiredJoin>) -> Seq<(WallJoinKind, Seq<char>, Seq<char>, Point2)> {
    s.map_values(|d: DesiredJoin| shape(d))
}

/// `p` lies on the wall's segment but is neither endpoint.
pub open spec fn interior(w: Wall, p: Point2) -> bool {
    on_wall_segment(w, p) && !(w.start == p || w.end == p)
}

/// Where a horizontal and a vertical wall's lines cross; `None` unless one is
/// horizontal and the other vertical.
pub open spec fn crossing_point(a: Wall, b: Wall) -> Option<Point2> {
    if a.start.y == a.end.y && b.start.x == b.end.x {
        Some(Point2 { x: b.start.x, y: a.start.y })
    } else if a.start.x == a.end.x && b.start.y == b.end.y {
        Some(Point2 { x: a.start.x, y: b.start.y })
    } else {
        None
    }
}

/// The one join between two walls, by priority: a shared endpoint is a corner;
/// an endpoint on the other's interior is a tee, through wall first; an
/// interior crossing is a cross.
pub open spec fn relation(a: Wall, b: Wall) -> Option<(WallJoinKind, Seq<char>, Seq<char>, Point2)> {
    if a.level@ != b.level@ {
        None
    } else if b.start == a.start || b.end == a.start {
        Some((WallJoinKind::Corner, a.id@, b.id@, a.start))
    } else if b.start == a.end || b.end == a.end {
        Some((WallJoinKind::Corner, a.id@, b.id@, a.end))
    } else if interior(b, a.start) {
        Some((WallJoinKind::Tee, b.id@, a.id@, a.start))
    } else if interior(b, a.end) {
        Some((WallJoinKind::Tee, b.id@, a.id@, a.end))
    } else if interior(a, b.start) {
        Some((WallJoinKind::Tee, a.id@, b.id@, b.start))
    } else if interior(a, b.end) {
        Some((WallJoinKind::Tee, a.id@, b.id@, b.end))
    } else {
        match crossing_point(a, b) {
            Some(p) => if interior(a, p) && interior(b, p) {
                Some((WallJoinKind::Cross, a.id@, b.id@, p))
            } else {
                None
            },
            None => None,
        }
    }
}

/// Two walls on one level that share an endpoint (the start or the end of
/// either) are related by a corner at a shared endpoint, the first wall first;
/// the same holds with the walls taken the other way round.
pub proof fn lemma_shared_endpoint_corner(a: Wall, b: Wall)
    requires
        a.level@ == b.level@,
        a.start == b.start || a.start == b.end || a.end == b.start || a.end == b.end,
    ensures
        relation(a, b) matches Some(j) && j.0 == WallJoinKind::Corner && j.1 == a.id@ && j.2 == b.id@ && (j.3 == a.start
            || j.3 == a.end) && (j.3 == b.start || j.3 == b.end),
        relation(b, a) matches Some(j) && j.0 == WallJoinKind::Corner && j.1 == b.id@ && j.2 == a.id@ && (j.3 == a.start
            || j.3 == a.end) && (j.3 == b.start || j.3 == b.end),
{
}

/// Walls on different levels are never joined.
pub proof fn lemma_other_level_unrelated(a: Wall, b: Wall)
    requires
        a.level@ != b.level@,
    ensures
        relation(a, b) is None,
{
}

/// Two walls on one level that share no endpoint, where an endpoint of one
/// lies inside the other, make a tee: the wall whose inside holds the point
/// comes first, and the point is an endpoint of the second wall.
pub proof fn lemma_endpoint_inside_tee(a: Wall, b: Wall)
    requires
        a.level@ == b.level@,
        a.start != b.start && a.start != b.end && a.end != b.start && a.end != b.end,
        interior(b, a.start) || interior(b, a.end) || interior(a, b.start) || interior(a, b.end),
    ensures
        relation(a, b) matches Some(j) && j.0 == WallJoinKind::Tee && ((j.1 == b.id@ && j.2 == a.id@ && interior(b, j.3) && (j.3
            == a.start || j.3 == a.end)) || (j.1 == a.id@ && j.2 == b.id@ && interior(a, j.3) && (j.3 == b.start || j.3
            == b.end))),
{
}

/// Two walls on one level that touch nowhere but where their lines cross
/// inside both make a cross at that point; walls that do not touch at all
/// are not joined.
pub proof fn lemma_crossing_walls(a: Wall, b: Wall)
    requires
        a.level@ == b.level@,
        a.start != b.start && a.start != b.end && a.end != b.start && a.end != b.end,
        !interior(b, a.start) && !interior(b, a.end) && !interior(a, b.start) && !interior(a, b.end),
    ensures
        crossing_point(a, b) matches Some(p) && interior(a, p) && interior(b, p) ==> relation(a, b) == Some(
            (WallJoinKind::Cross, a.id@, b.id@, crossing_point(a, b)->0),
        ),
        !(crossing_point(a, b) matches Some(p) && interior(a, p) && interior(b, p)) ==> relation(a, b) is None,
{
}

/// Whether two walls are joined, and by which kind of join, does not depend
/// on the order in which they are taken.
pub proof fn lemma_relation_kind_symmetric(a: Wall, b: Wall)
    requires
        !degenerate(a),
        !degenerate(b),
    ensures
        relation(a, b) is Some <==> relation(b, a) is Some,
        relation(a, b) matches Some(j) ==> relation(b, a) matches Some(k) && k.0 == j.0,
{
    if a.start.y == a.end.y && a.start.x == a.end.x {
        assert(a.start == a.end);
    }
    if b.start.y == b.end.y && b.start.x == b.end.x {
        assert(b.start == b.end);
    }
}

/// The segment tests that relating `a` and `b` performs stay in range.
pub open spec fn relation_fits(a: Wall, b: Wall) -> bool {
    &&& point_on_segment_fits(b, a.start)
    &&& point_on_segment_fits(b, a.end)
    &&& point_on_segment_fits(a, b.start)
    &&& point_on_segment_fits(a, b.end)
    &&& (crossing_point(a, b) matches Some(p) ==> point_on_segment_fits(a, p) && point_on_segment_fits(b, p))
}

/// A wall with both endpoints at one point.
pub open spec fn degenerate(w: Wall) -> bool {
    w.start == w.end
}

/// Every pair of distinct, non-degenerate walls on one level can be related.
pub open spec fn walls_relate_fit(walls: Seq<Wall>) -> bool {
    forall|i: int, j: int|
        0 <= i < j < walls.len() && walls[i].level@ == walls[j].level@ && !degenerate(walls[i])
            && !degenerate(walls[j]) ==> #[trigger] relation_fits(walls[i], walls[j])
}

/// The join of walls `i` and `j`, skipping degenerate walls.
pub open spec fn pair_join(walls: Seq<Wall>, i: int, j: int) -> Option<(WallJoinKind, Seq<char>, Seq<char>, Point2)> {
    if degenerate(walls[i]) || degenerate(walls[j]) {
        None
    } else {
        relation(walls[i], walls[j])
    }
}

/// The joins of wall `i` with walls `i + 1 .. j`, in order.
pub open spec fn row_joins(walls: Seq<Wall>, i: int, j: int) -> Seq<(WallJoinKind, Seq<char>, Seq<char>, Point2)>
    decreases j - i,
{
    if j <= i + 1 {
        Seq::empty()
    } else {
        let p = row_joins(walls, i, j - 1);
        match pair_join(walls, i, j - 1) {
            Some(x) => p.push(x),
            None => p,
        }
    }
}

/// The joins of the pairs whose first wall is among `0 .. i`, in order.
pub open spec fn rows_joins(walls: Seq<Wall>, i: int) -> Seq<(WallJoinKind, Seq<char>, Seq<char>, Point2)>
    decreases i,
{
    if i <= 0 {
        Seq::empty()
    } else {
        rows_joins(walls, i - 1) + row_joins(walls, i - 1, walls.len() as int)
    }
}

/// Every join that the walls' geometry implies, pair by pair in order.
pub open spec fn derived_joins(walls: Seq<Wall>) -> Seq<(WallJoinKind, Seq<char>, Seq<char>, Point2)> {
    rows_joins(walls, walls.len() as int)
}

/// The crossing point of one horizontal and one vertical wall.
fn ortho_crossing(a: &Wall, b: &Wall) -> (r: Option<Point2>)
    ensures
        r == crossing_point(*a, *b),
{
    if a.start.y == a.end.y && b.start.x == b.end.x {
        Some(Point2::new(b.start.x, a.start.y))
    } else if a.start.x == a.end.x && b.start.y == b.end.y {
        Some(Point2::new(a.start.x, b.start.y))
    } else {
        None
    }
}

fn desired(kind: WallJoinKind, first: &ElementId, second: &ElementId, point: Point2) -> (r: DesiredJoin)
    ensures
        shape(r) == (kind, first@, second@, point),
{
    DesiredJoin { kind, first: first.clone(), second: second.clone(), point }
}

/// The join between two walls, if they meet.
fn relate_walls(a: &Wall, b: &Wall) -> (r: Option<DesiredJoin>)
    requires
        a.level@ == b.level@ ==> relation_fits(*a, *b),
    ensures
        match r {
            Some(d) => relation(*a, *b) == Some(shape(d)),
            None => relation(*a, *b) is None,
        },
{
    if a.level != b.level {
        return None;
    }
    if b.has_endpoint(a.start) {
        return Some(desired(WallJoinKind::Corner, &a.id, &b.id, a.start));
    }
    if b.has_endpoint(a.end) {
        return Some(desired(WallJoinKind::Corner, &a.id, &b.id, a.end));
    }
    if b.point_on_interior(a.start) {
        return Some(desired(WallJoinKind::Tee, &b.id, &a.id, a.start));
    }
    if b.point_on_interior(a.end) {
        return Some(desired(WallJoinKind::Tee, &b.id, &a.id, a.end));
    }
    if a.point_on_interior(b.start) {
        return Some(desired(WallJoinKind::Tee, &a.id, &b.id, b.start));
    }
    if a.point_on_interior(b.end) {
        return Some(desired(WallJoinKind::Tee, &a.id, &b.id, b.end));
    }
    match ortho_crossing(a, b) {
        Some(point) => {
            if a.point_on_interior(point) && b.point_on_interior(point) {
                Some(desired(WallJoinKind::Cross, &a.id, &b.id, point))
            } else {
                None
            }
        },
        None => None,
    }
}

/// Every join implied by the walls' geometry, pair by pair in order.
pub fn derive_wall_joins(walls: &Vec<Wall>) -> (r: Vec<DesiredJoin>)
    requires
        walls_relate_fit(walls@),
    ensures
        shapes(r@) == derived_joins(walls@),
{
    let n = walls.len();
    let mut joins: Vec<DesiredJoin> = Vec::new();
    let mut i: usize = 0;
    while i < n
        invariant
            i <= n,
            n == walls@.len(),
            walls_relate_fit(walls@),
            shapes(joins@) == rows_joins(walls@, i as int),
        decreases n - i,
    {
        let mut j: usize = i + 1;
        proof {
            assert(rows_joins(walls@, i as int) + row_joins(walls@, i as int, j as int) =~= rows_joins(
                walls@,
                i as int,
            ));
        }
        while j < n
            invariant
                i < n,
                i + 1 <= j <= n,
                n == walls@.len(),
                walls_relate_fit(walls@),
                shapes(joins@) == rows_joins(walls@, i as int) + row_joins(walls@, i as int, j as int),
            decreases n - j,
        {
            let ghost before = joins@;
            if !(walls[i].start == walls[i].end || walls[j].start == walls[j].end) {
                proof {
                    if walls@[i as int].level@ == walls@[j as int].level@ {
                        assert(relation_fits(walls@[i as int], walls@[j as int]));
                    }
                }
                match relate_walls(&walls[i], &walls[j]) {
                    Some(join) => {
                        joins.push(join);
                        proof {
                            assert(shapes(joins@) =~= shapes(before).push(shape(join)));
                        }
                    },
                    None => {},
                }
            }
            proof {
                let a = rows_joins(walls@, i as int);
                let b = row_joins(walls@, i as int, j as int);
                match pair_join(walls@, i as int, j as int) {
                    Some(x) => {
                        assert((a + b).push(x) =~= a + b.push(x));
                    },
                    None => {},
                }
            }
            j = j + 1;
        }
        i = i + 1;
    }
    joins
}

// ---------------------------------------------------------------------------
// Join ids and names
// ---------------------------------------------------------------------------

/// The decimal digit `d`.
pub open spec fn digit_char(d: int) -> char {
    if d == 0 {
        '0'
    } else if d == 1 {
        '1'
    } else if d == 2 {
        '2'
    } else if d == 3 {
        '3'
    } else if d == 4 {
        '4'
    } else if d == 5 {
        '5'
    } else if d == 6 {
        '6'
    } else if d == 7 {
        '7'
    } else if d == 8 {
        '8'
    } else {
        '9'
    }
}

/// `n` written in decimal.
pub open spec fn decimal(n: nat) -> Seq<char>
    decreases n,
{
    if n < 10 {
        seq![digit_char(n as int)]
    } else {
        decimal(n / 10).push(digit_char((n % 10) as int))
    }
}

/// `prefix` followed by `n` in decimal.
pub open spec fn numbered(prefix: Seq<char>, n: nat) -> Seq<char> {
    prefix + decimal(n)
}

/// The id `join-N`.
pub open spec fn join_label(n: nat) -> Seq<char> {
    numbered("join-"@, n)
}

/// The ids of a list of joins.
pub open spec fn join_ids(joins: Seq<WallJoin>) -> Seq<Seq<char>> {
    joins.map_values(|j: WallJoin| j.id@)
}

/// `id` is `join-N` for the least `N >= base` that `ids` does not hold.
pub open spec fn first_free_label(ids: Seq<Seq<char>>, base: nat, id: Seq<char>) -> bool {
    exists|n: nat|
        {
            &&& n >= base
            &&& id == #[trigger] join_label(n)
            &&& !ids.contains(join_label(n))
            &&& forall|m: nat| base <= m < n ==> ids.contains(#[trigger] join_label(m))
        }
}

/// The word for a join kind in a join's default name.
pub open spec fn kind_word(kind: WallJoinKind) -> Seq<char> {
    match kind {
        WallJoinKind::Corner => "corner"@,
        WallJoinKind::EndToEnd => "end-to-end"@,
        WallJoinKind::Tee => "tee"@,
        WallJoinKind::Cross => "cross"@,
    }
}

/// The default name of a derived join: `first – second kind`.
pub open spec fn default_name(d: (WallJoinKind, Seq<char>, Seq<char>, Point2)) -> Seq<char> {
    d.1 + " \u{2013} "@ + d.2 + " "@ + kind_word(d.0)
}

proof fn lemma_decimal_len(n: nat)
    ensures
        decimal(n).len() >= 1,
        n >= 10 ==> decimal(n).len() >= 2,
    decreases n,
{
    if n >= 10 {
        lemma_decimal_len(n / 10);
    }
}

proof fn lemma_digit_injective(a: int, b: int)
    requires
        0 <= a < 10,
        0 <= b < 10,
        digit_char(a) == digit_char(b),
    ensures
        a == b,
{
}

/// Distinct numbers have distinct decimal forms.
pub proof fn lemma_decimal_injective(a: nat, b: nat)
    requires
        decimal(a) == decimal(b),
    ensures
        a == b,
    decreases a,
{
    lemma_decimal_len(a);
    lemma_decimal_len(b);
    if a < 10 && b < 10 {
        assert(decimal(a) == seq![digit_char(a as int)]);
        assert(decimal(b) == seq![digit_char(b as int)]);
        assert(decimal(a)[0] == digit_char(a as int));
        assert(decimal(b)[0] == digit_char(b as int));
        lemma_digit_injective(a as int, b as int);
    } else if a >= 10 && b >= 10 {
        assert(decimal(a).last() == digit_char((a % 10) as int));
        assert(decimal(b).last() == digit_char((b % 10) as int));
        lemma_digit_injective((a % 10) as int, (b % 10) as int);
        assert(decimal(a / 10) =~= decimal(a).drop_last());
        assert(decimal(b / 10) =~= decimal(b).drop_last());
        lemma_decimal_injective(a / 10, b / 10);
        assert(a == (a / 10) * 10 + a % 10);
        assert(b == (b / 10) * 10 + b % 10);
    } else {
        assert(decimal(a).len() != decimal(b).len());
    }
}

/// Distinct numbers give distinct numbered ids.
pub proof fn lemma_numbered_injective(prefix: Seq<char>, a: nat, b: nat)
    requires
        numbered(prefix, a) == numbered(prefix, b),
    ensures
        a == b,
{
    assert(decimal(a) =~= numbered(prefix, a).subrange(prefix.len() as int, numbered(prefix, a).len() as int));
    assert(decimal(b) =~= numbered(prefix, b).subrange(prefix.len() as int, numbered(prefix, b).len() as int));
    lemma_decimal_injective(a, b);
}

/// `id` is `prefix` numbered with some `N >= k`.
pub open spec fn label_from(prefix: Seq<char>, id: Seq<char>, k: nat) -> bool {
    exists|m: nat| m >= k && id == #[trigger] numbered(prefix, m)
}

/// How many of `ids` are `prefix` numbered with `N >= k`.
pub open spec fn label_count(prefix: Seq<char>, ids: Seq<Seq<char>>, k: nat) -> nat
    decreases ids.len(),
{
    if ids.len() == 0 {
        0
    } else {
        label_count(prefix, ids.drop_last(), k) + if label_from(prefix, ids.last(), k) {
            1nat
        } else {
            0nat
        }
    }
}

/// Counting numbered ids from `k + 1` counts no more than from `k`, and
/// strictly fewer when `ids` holds the one numbered `k`.
pub proof fn lemma_label_count_step(prefix: Seq<char>, ids: Seq<Seq<char>>, k: nat)
    ensures
        label_count(prefix, ids, k + 1) <= label_count(prefix, ids, k),
        label_count(prefix, ids, k) <= ids.len(),
        ids.contains(numbered(prefix, k)) ==> label_count(prefix, ids, k + 1) < label_count(prefix, ids, k),
    decreases ids.len(),
{
    if ids.len() > 0 {
        let rest = ids.drop_last();
        let x = ids.last();
        lemma_label_count_step(prefix, rest, k);
        if label_from(prefix, x, k + 1) {
            let m = choose|m: nat| m >= k + 1 && x == #[trigger] numbered(prefix, m);
            assert(label_from(prefix, x, k));
        }
        if x == numbered(prefix, k) {
            assert(label_from(prefix, x, k));
            if label_from(prefix, x, k + 1) {
                let m = choose|m: nat| m >= k + 1 && x == #[trigger] numbered(prefix, m);
                lemma_numbered_injective(prefix, m, k);
            }
        }
        if ids.contains(numbered(prefix, k)) && x != numbered(prefix, k) {
            let i = choose|i: int| 0 <= i < ids.len() && ids[i] == numbered(prefix, k);
            assert(rest[i] == numbered(prefix, k));
        }
    }
}

fn digit_str(d: usize) -> (r: &'static str)
    requires
        d < 10,
    ensures
        r@ == seq![digit_char(d as int)],
{
    if d == 0 {
        proof {
            reveal_strlit("0");
        }
        "0"
    } else if d == 1 {
        proof {
            reveal_strlit("1");
        }
        "1"
    } else if d == 2 {
        proof {
            reveal_strlit("2");
        }
        "2"
    } else if d == 3 {
        proof {
            reveal_strlit("3");
        }
        "3"
    } else if d == 4 {
        proof {
            reveal_strlit("4");
        }
        "4"
    } else if d == 5 {
        proof {
            reveal_strlit("5");
        }
        "5"
    } else if d == 6 {
        proof {
            reveal_strlit("6");
        }
        "6"
    } else if d == 7 {
        proof {
            reveal_strlit("7");
        }
        "7"
    } else if d == 8 {
        proof {
            reveal_strlit("8");
        }
        "8"
    } else {
        proof {
            reveal_strlit("9");
        }
        "9"
    }
}

/// Appends `n` in decimal to `s`.
pub(crate) fn push_decimal(s: &mut String, n: u64)
    ensures
        final(s)@ == old(s)@ + decimal(n as nat),
    decreases n,
{
    let ghost start = s@;
    if n >= 10 {
        push_decimal(s, n / 10);
    }
    let ghost mid = s@;
    s.append(digit_str((n % 10) as usize));
    proof {
        if n >= 10 {
            assert(s@ =~= start + decimal(n as nat));
        } else {
            assert(s@ =~= start + decimal(n as nat));
        }
    }
}

/// The id `join-N`.
fn join_label_string(n: usize) -> (r: String)
    ensures
        r@ == join_label(n as nat),
{
    let mut s = "join-".to_owned();
    push_decimal(&mut s, n as u64);
    s
}

/// Whether one of `joins` has id `id`.
fn join_id_taken(joins: &Vec<WallJoin>, id: &str) -> (r: bool)
    ensures
        r == join_ids(joins@).contains(id@),
{
    let mut i: usize = 0;
    while i < joins.len()
        invariant
            i <= joins@.len(),
            forall|k: int| 0 <= k < i ==> joins@[k].id@ != id@,
        decreases joins@.len() - i,
    {
        if str_eq(joins[i].id.as_str(), id) {
            assert(join_ids(joins@)[i as int] == id@);
            return true;
        }
        i = i + 1;
    }
    proof {
        if join_ids(joins@).contains(id@) {
            let k = choose|k: int| 0 <= k < join_ids(joins@).len() && join_ids(joins@)[k] == id@;
            assert(joins@[k].id@ == id@);
        }
    }
    false
}

proof fn lemma_contains_concat(a: Seq<Seq<char>>, b: Seq<Seq<char>>, x: Seq<char>)
    ensures
        (a + b).contains(x) <==> a.contains(x) || b.contains(x),
{
    if a.contains(x) {
        let i = choose|i: int| 0 <= i < a.len() && a[i] == x;
        assert((a + b)[i] == x);
    }
    if b.contains(x) {
        let i = choose|i: int| 0 <= i < b.len() && b[i] == x;
        assert((a + b)[a.len() + i] == x);
    }
    if (a + b).contains(x) {
        let i = choose|i: int| 0 <= i < (a + b).len() && (a + b)[i] == x;
        if i < a.len() {
            assert(a[i] == x);
        } else {
            assert(b[i - a.len()] == x);
        }
    }
}

/// The next free `join-N` id, unique against the kept joins and those already
/// staged, counting up from one past their number.
fn next_reconciled_join_id(existing: &Vec<WallJoin>, staged: &Vec<WallJoin>) -> (r: String)
    requires
        2 * (existing@.len() + staged@.len()) + 1 <= usize::MAX,
    ensures
        first_free_label(
            join_ids(existing@) + join_ids(staged@),
            (existing@.len() + staged@.len() + 1) as nat,
            r@,
        ),
{
    let ghost ids = join_ids(existing@) + join_ids(staged@);
    let base = existing.len() + staged.len() + 1;
    let mut index = base;
    proof {
        lemma_label_count_step("join-"@, ids, base as nat);
    }
    loop
        invariant
            base <= index,
            base == existing@.len() + staged@.len() + 1,
            ids == join_ids(existing@) + join_ids(staged@),
            ids.len() == existing@.len() + staged@.len(),
            2 * (existing@.len() + staged@.len()) + 1 <= usize::MAX,
            label_count("join-"@, ids, index as nat) + (index - base) <= ids.len(),
            forall|m: nat| base <= m < index ==> ids.contains(#[trigger] join_label(m)),
        decreases label_count("join-"@, ids, index as nat),
    {
        let id = join_label_string(index);
        let in_existing = join_id_taken(existing, id.as_str());
        let in_staged = join_id_taken(staged, id.as_str());
        proof {
            lemma_contains_concat(join_ids(existing@), join_ids(staged@), id@);
        }
        if !in_existing && !in_staged {
            proof {
                assert(id@ == join_label(index as nat));
                assert(first_free_label(ids, base as nat, id@));
            }
            return id;
        }
        proof {
            lemma_label_count_step("join-"@, ids, index as nat);
        }
        index = index + 1;
    }
}

fn kind_word_str(kind: WallJoinKind) -> (r: &'static str)
    ensures
        r@ == kind_word(kind),
{
    match kind {
        WallJoinKind::Corner => "corner",
        WallJoinKind::EndToEnd => "end-to-end",
        WallJoinKind::Tee => "tee",
        WallJoinKind::Cross => "cross",
    }
}

/// The default name of a freshly derived join.
fn default_join_name(join: &DesiredJoin) -> (r: String)
    ensures
        r@ == default_name(shape(*join)),
{
    let mut s = join.first.as_str().to_owned();
    s.append(" \u{2013} ");
    s.append(join.second.as_str());
    s.append(" ");
    s.append(kind_word_str(join.kind));
    proof {
        assert(s@ =~= default_name(shape(*join)));
    }
    s
}

// ---------------------------------------------------------------------------
// Reconciliation
// ---------------------------------------------------------------------------

/// `e` joins the same unordered pair of walls as `d`.
pub open spec fn same_pair(e: WallJoin, d: (WallJoinKind, Seq<char>, Seq<char>, Point2)) -> bool {
    (e.first_wall@ == d.1 && e.second_wall@ == d.2) || (e.first_wall@ == d.2 && e.second_wall@ == d.1)
}

/// The first position from `k` on of a join of `existing`, not in `taken`,
/// between the walls of `d`; -1 when there is none.
pub open spec fn match_from(
    existing: Seq<WallJoin>,
    taken: Set<int>,
    d: (WallJoinKind, Seq<char>, Seq<char>, Point2),
    k: int,
) -> int
    decreases existing.len() - k,
{
    if k < 0 || k >= existing.len() {
        -1
    } else if !taken.contains(k) && same_pair(existing[k], d) {
        k
    } else {
        match_from(existing, taken, d, k + 1)
    }
}

/// The positions of `existing` reused by the first `k` of `desired`.
pub open spec fn taken_after(
    existing: Seq<WallJoin>,
    desired: Seq<(WallJoinKind, Seq<char>, Seq<char>, Point2)>,
    k: int,
) -> Set<int>
    decreases k,
{
    if k <= 0 {
        Set::empty()
    } else {
        let t = taken_after(existing, desired, k - 1);
        let m = match_from(existing, t, desired[k - 1], 0);
        if m >= 0 {
            t.insert(m)
        } else {
            t
        }
    }
}

/// The position of the existing join that desired join `k` reuses, or -1.
pub open spec fn reused(
    existing: Seq<WallJoin>,
    desired: Seq<(WallJoinKind, Seq<char>, Seq<char>, Point2)>,
    k: int,
) -> int {
    match_from(existing, taken_after(existing, desired, k), desired[k], 0)
}

/// Join `k` of `result` is derived join `k` of `walls`: it keeps the id and
/// name of the first unused existing join between the same two walls, or else
/// takes the next free `join-N` id and the default name.
pub open spec fn join_reconciled(existing: Seq<WallJoin>, walls: Seq<Wall>, result: Seq<WallJoin>, k: int) -> bool {
    let desired = derived_joins(walls);
    let d = desired[k];
    let r = result[k];
    let m = reused(existing, desired, k);
    &&& r.kind == d.0
    &&& r.first_wall@ == d.1
    &&& r.second_wall@ == d.2
    &&& r.point == d.3
    &&& m >= 0 ==> r.id@ == existing[m].id@ && r.name@ == existing[m].name@
    &&& m < 0 ==> first_free_label(
        join_ids(existing) + join_ids(result.take(k)),
        (existing.len() + k + 1) as nat,
        r.id@,
    ) && r.name@ == default_name(d)
}

/// `result` is the reconciliation of the joins `existing` with `walls`.
pub open spec fn joins_reconciled(existing: Seq<WallJoin>, walls: Seq<Wall>, result: Seq<WallJoin>) -> bool {
    &&& result.len() == derived_joins(walls).len()
    &&& forall|k: int| 0 <= k < result.len() ==> #[trigger] join_reconciled(existing, walls, result, k)
}

proof fn lemma_match_skip(
    existing: Seq<WallJoin>,
    taken: Set<int>,
    d: (WallJoinKind, Seq<char>, Seq<char>, Point2),
    k: int,
)
    requires
        0 <= k <= existing.len(),
        forall|j: int| 0 <= j < k ==> !(!taken.contains(j) && same_pair(#[trigger] existing[j], d)),
    ensures
        match_from(existing, taken, d, 0) == match_from(existing, taken, d, k),
    decreases k,
{
    if k > 0 {
        lemma_match_skip(existing, taken, d, k - 1);
    }
}

proof fn lemma_match_range(
    existing: Seq<WallJoin>,
    taken: Set<int>,
    d: (WallJoinKind, Seq<char>, Seq<char>, Point2),
    k: int,
)
    requires
        0 <= k,
    ensures
        match_from(existing, taken, d, k) >= 0 ==> {
            let m = match_from(existing, taken, d, k);
            &&& k <= m < existing.len()
            &&& !taken.contains(m)
            &&& same_pair(existing[m], d)
        },
        match_from(existing, taken, d, k) >= -1,
    decreases existing.len() - k,
{
    if k < existing.len() {
        lemma_match_range(existing, taken, d, k + 1);
    }
}

proof fn lemma_taken_prefix(
    once: Seq<WallJoin>,
    desired: Seq<(WallJoinKind, Seq<char>, Seq<char>, Point2)>,
    k: int,
)
    requires
        0 <= k <= desired.len(),
        once.len() == desired.len(),
        forall|j: int| 0 <= j < desired.len() ==> #[trigger] once[j].first_wall@ == desired[j].1
            && once[j].second_wall@ == desired[j].2,
    ensures
        taken_after(once, desired, k) == Set::new(|j: int| 0 <= j < k),
        k < desired.len() ==> reused(once, desired, k) == k,
    decreases k,
{
    if k > 0 {
        lemma_taken_prefix(once, desired, k - 1);
        assert(taken_after(once, desired, k) =~= Set::new(|j: int| 0 <= j < k));
    }
    if k < desired.len() {
        let t = taken_after(once, desired, k);
        assert(once[k].first_wall@ == desired[k].1);
        lemma_match_skip(once, t, desired[k], k);
    }
}

/// Reconciling again, with the walls unchanged, gives the same joins back:
/// every join keeps its id, name, kind, walls and point.
pub proof fn lemma_reconcile_idempotent(existing: Seq<WallJoin>, walls: Seq<Wall>, once: Seq<WallJoin>, twice: Seq<WallJoin>)
    requires
        joins_reconciled(existing, walls, once),
        joins_reconciled(once, walls, twice),
    ensures
        twice.len() == once.len(),
        forall|k: int| 0 <= k < once.len() ==> {
            &&& (#[trigger] twice[k]).id@ == once[k].id@
            &&& twice[k].name@ == once[k].name@
            &&& twice[k].kind == once[k].kind
            &&& twice[k].first_wall@ == once[k].first_wall@
            &&& twice[k].second_wall@ == once[k].second_wall@
            &&& twice[k].point == once[k].point
        },
{
    let desired = derived_joins(walls);
    assert forall|j: int| 0 <= j < desired.len() implies #[trigger] once[j].first_wall@ == desired[j].1
        && once[j].second_wall@ == desired[j].2 by {
        assert(join_reconciled(existing, walls, once, j));
    }
    assert forall|k: int| 0 <= k < once.len() implies {
        &&& (#[trigger] twice[k]).id@ == once[k].id@
        &&& twice[k].name@ == once[k].name@
        &&& twice[k].kind == once[k].kind
        &&& twice[k].first_wall@ == once[k].first_wall@
        &&& twice[k].second_wall@ == once[k].second_wall@
        &&& twice[k].point == once[k].point
    } by {
        lemma_taken_prefix(once, desired, k);
        assert(join_reconciled(existing, walls, once, k));
        assert(join_reconciled(once, walls, twice, k));
    }
}

impl BuildingModel {
    /// Rebuilds the wall joins from the current wall geometry, keeping the id
    /// and name of any join whose two walls still meet.
    pub fn reconcile_joins(&mut self)
        requires
            walls_relate_fit(old(self).walls@),
            2 * (old(self).wall_joins@.len() + derived_joins(old(self).walls@).len()) + 1 <= usize::MAX,
        ensures
            joins_reconciled(old(self).wall_joins@, old(self).walls@, final(self).wall_joins@),
            *final(self) == (BuildingModel { wall_joins: final(self).wall_joins, ..*old(self) }),
    {
        let desired = derive_wall_joins(&self.walls);
        let ghost dshapes = shapes(desired@);
        let ghost existing = self.wall_joins@;
        let n = self.wall_joins.len();
        let mut taken: Vec<bool> = Vec::new();
        let mut e: usize = 0;
        while e < n
            invariant
                e <= n,
                taken@.len() == e,
                forall|j: int| 0 <= j < e ==> !taken@[j],
            decreases n - e,
        {
            taken.push(false);
            e = e + 1;
        }
        let mut rebuilt: Vec<WallJoin> = Vec::new();
        let mut k: usize = 0;
        while k < desired.len()
            invariant
                k <= desired@.len(),
                dshapes == shapes(desired@),
                dshapes == derived_joins(self.walls@),
                existing == self.wall_joins@,
                n == existing.len(),
                taken@.len() == n,
                2 * (n + desired@.len()) + 1 <= usize::MAX,
                rebuilt@.len() == k,
                forall|j: int| 0 <= j < n ==> (taken@[j] <==> taken_after(existing, dshapes, k as int).contains(j)),
                forall|q: int| 0 <= q < k ==> #[trigger] join_reconciled(existing, self.walls@, rebuilt@, q),
            decreases desired@.len() - k,
        {
            let join = &desired[k];
            let ghost d = dshapes[k as int];
            let ghost t = taken_after(existing, dshapes, k as int);
            assert(shape(*join) == d);
            let mut found: Option<usize> = None;
            let mut j: usize = 0;
            while j < n
                invariant
                    j <= n,
                    n == existing.len(),
                    existing == self.wall_joins@,
                    taken@.len() == n,
                    d == shape(*join),
                    forall|i: int| 0 <= i < n ==> (taken@[i] <==> t.contains(i)),
                    found is None ==> forall|i: int|
                        0 <= i < j ==> !(!t.contains(i) && same_pair(#[trigger] existing[i], d)),
                    found matches Some(m) ==> {
                        &&& m < j
                        &&& !t.contains(m as int)
                        &&& same_pair(existing[m as int], d)
                        &&& forall|i: int| 0 <= i < m ==> !(!t.contains(i) && same_pair(#[trigger] existing[i], d))
                    },
                decreases n - j,
            {
                let w = &self.wall_joins[j];
                if found.is_none() && !taken[j] && ((w.first_wall == join.first && w.second_wall == join.second)
                    || (w.first_wall == join.second && w.second_wall == join.first)) {
                    found = Some(j);
                }
                j = j + 1;
            }
            proof {
                match found {
                    Some(m) => {
                        lemma_match_skip(existing, t, d, m as int);
                    },
                    None => {
                        lemma_match_skip(existing, t, d, n as int);
                    },
                }
                assert(reused(existing, dshapes, k as int) == match_from(existing, t, d, 0));
            }
            let ghost before = rebuilt@;
            let next = match found {
                Some(m) => {
                    taken.set(m, true);
                    proof {
                        assert(taken_after(existing, dshapes, k as int + 1) == t.insert(m as int));
                    }
                    WallJoin::new(
                        self.wall_joins[m].id.as_str(),
                        self.wall_joins[m].name.as_str(),
                        join.kind,
                        join.first.as_str(),
                        join.second.as_str(),
                        join.point,
                    )
                },
                None => {
                    proof {
                        assert(taken_after(existing, dshapes, k as int + 1) == t);
                    }
                    let id = next_reconciled_join_id(&self.wall_joins, &rebuilt);
                    let name = default_join_name(join);
                    WallJoin::new(id.as_str(), name.as_str(), join.kind, join.first.as_str(), join.second.as_str(), join.point)
                },
            };
            rebuilt.push(next);
            proof {
                assert(rebuilt@.take(k as int) =~= before);
                assert forall|q: int| 0 <= q < k + 1 implies #[trigger] join_reconciled(existing, self.walls@, rebuilt@, q) by {
                    if q < k {
                        assert(join_reconciled(existing, self.walls@, before, q));
                        assert(rebuilt@.take(q) =~= before.take(q));
                    }
                }
            }
            k = k + 1;
        }
        self.wall_joins = rebuilt;
    }
}

} // verus!
