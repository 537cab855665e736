//! Boolean combination of two solids along one ray.
//!
//! Each child reports the parameters at which the ray crosses its boundary,
//! as order keys that sort like the parameters. The combination merges both
//! lists into one ordered walk, tracks whether the ray is inside each child,
//! and keeps exactly the crossings at which being inside the combined solid
//! changes.

use vstd::prelude::*;

verus! {

/// The boolean operation of a combined solid.
#[derive(Debug, Clone, Copy, PartialEq, Eq, Structural)]
pub enum CsgOperation {
    Union,
    Intersection,
    Difference,
}

impl CsgOperation {
    /// Whether a point that is inside the left child exactly when `in_left`
    /// and inside the right child exactly when `in_right` is inside the
    /// combined solid.
    pub open spec fn holds(self, in_left: bool, in_right: bool) -> bool {
        match self {
            CsgOperation::Union => in_left || in_right,
            CsgOperation::Intersection => in_left && in_right,
            CsgOperation::Difference => in_left && !in_right,
        }
    }

    /// Decides `holds` at run time.
    pub fn contains(&self, in_left: bool, in_right: bool) -> (r: bool)
        ensures
            r == self.holds(in_left, in_right),
    {
        match self {
            CsgOperation::Union => in_left || in_right,
            CsgOperation::Intersection => in_left && in_right,
            CsgOperation::Difference => in_left && !in_right,
        }
    }
}

/// Which child of a combined solid a crossing belongs to.
#[derive(Debug, Clone, Copy, PartialEq, Eq, Structural)]
pub enum Side {
    Left,
    Right,
}

/// A crossing of one child's boundary: its order key along the ray, the
/// child it belongs to, and its position in that child's list.
#[derive(Debug, Clone, Copy, PartialEq, Eq, Structural)]
pub struct Crossing {
    pub t_key: u32,
    pub side: Side,
    pub index: usize,
}

/// A crossing kept as a boundary of the combined solid. `flipped` is set when
/// the surface is seen from its other side: the normal and the front-face bit
/// of the hit are to be reversed.
#[derive(Debug, Clone, Copy, PartialEq, Eq, Structural)]
pub struct Boundary {
    pub t_key: u32,
    pub side: Side,
    pub index: usize,
    pub flipped: bool,
}

/// The keys never decrease along the list.
pub open spec fn keys_sorted(keys: Seq<u32>) -> bool {
    forall|a: int, b: int| 0 <= a <= b < keys.len() ==> keys[a] <= keys[b]
}

/// The crossings' keys never decrease along the walk.
pub open spec fn crossings_sorted(cs: Seq<Crossing>) -> bool {
    forall|a: int, b: int| 0 <= a <= b < cs.len() ==> cs[a].t_key <= cs[b].t_key
}

/// The boundaries' keys never decrease along the list.
pub open spec fn boundaries_sorted(bs: Seq<Boundary>) -> bool {
    forall|a: int, b: int| 0 <= a <= b < bs.len() ==> bs[a].t_key <= bs[b].t_key
}

/// The crossing at position `i` of the left child's list.
pub open spec fn left_crossing(left: Seq<u32>, i: nat) -> Crossing {
    Crossing { t_key: left[i as int], side: Side::Left, index: i as usize }
}

/// The crossing at position `j` of the right child's list.
pub open spec fn right_crossing(right: Seq<u32>, j: nat) -> Crossing {
    Crossing { t_key: right[j as int], side: Side::Right, index: j as usize }
}

/// How many entries of a list of length `len` lie at or after position `i`.
pub open spec fn remaining(len: nat, i: nat) -> nat {
    if i < len {
        (len - i) as nat
    } else {
        0
    }
}

/// The stable merge of what is left of both lists from positions `i` and `j`:
/// the smaller key goes first, and on equal keys the left crossing does.
pub open spec fn merge_from(left: Seq<u32>, right: Seq<u32>, i: nat, j: nat) -> Seq<Crossing>
    decreases remaining(left.len(), i) + remaining(right.len(), j),
{
    if i < left.len() && (j >= right.len() || left[i as int] <= right[j as int]) {
        seq![left_crossing(left, i)] + merge_from(left, right, i + 1, j)
    } else if j < right.len() {
        seq![right_crossing(right, j)] + merge_from(left, right, i, j + 1)
    } else {
        Seq::empty()
    }
}

/// Both children's crossings in the order in which the ray meets them.
pub open spec fn merged(left: Seq<u32>, right: Seq<u32>) -> Seq<Crossing> {
    merge_from(left, right, 0, 0)
}

/// Merges the crossings of two children into one walk: the smaller key
/// first, and on equal keys the left child's crossing. Where each child lists
/// its crossings by nondecreasing key, as intersection results do, the walk
/// is the order in which the ray meets them.
pub fn merge_crossings(left: &Vec<u32>, right: &Vec<u32>) -> (r: Vec<Crossing>)
    ensures
        r@ == merged(left@, right@),
        keys_sorted(left@) && keys_sorted(right@) ==> crossings_sorted(r@),
{
    let mut r: Vec<Crossing> = Vec::new();
    let mut i: usize = 0;
    let mut j: usize = 0;
    while i < left.len() || j < right.len()
        invariant
            i <= left.len(),
            j <= right.len(),
            r@ + merge_from(left@, right@, i as nat, j as nat) == merged(left@, right@),
        decreases remaining(left@.len(), i as nat) + remaining(right@.len(), j as nat),
    {
        let ghost before = r@;
        if i < left.len() && (j >= right.len() || left[i] <= right[j]) {
            r.push(Crossing { t_key: left[i], side: Side::Left, index: i });
            proof {
                assert(r@ == before + seq![left_crossing(left@, i as nat)]);
                assert(r@ + merge_from(left@, right@, (i + 1) as nat, j as nat) =~= before
                    + merge_from(left@, right@, i as nat, j as nat));
            }
            i = i + 1;
        } else {
            r.push(Crossing { t_key: right[j], side: Side::Right, index: j });
            proof {
                assert(r@ == before + seq![right_crossing(right@, j as nat)]);
                assert(r@ + merge_from(left@, right@, i as nat, (j + 1) as nat) =~= before
                    + merge_from(left@, right@, i as nat, j as nat));
            }
            j = j + 1;
        }
    }
    assert(r@ =~= r@ + merge_from(left@, right@, i as nat, j as nat));
    proof {
        if keys_sorted(left@) && keys_sorted(right@) {
            lemma_merge_sorted(left@, right@, 0, 0);
        }
    }
    r
}

/// Each crossing of a merge from positions `i` and `j` is a crossing of one
/// child at or after that child's starting position.
pub proof fn lemma_merge_elements(left: Seq<u32>, right: Seq<u32>, i: nat, j: nat)
    requires
        left.len() <= usize::MAX,
        right.len() <= usize::MAX,
    ensures
        forall|k: int|
            0 <= k < merge_from(left, right, i, j).len() ==> {
                let c = #[trigger] merge_from(left, right, i, j)[k];
                ||| (c.side == Side::Left && i <= c.index < left.len() && c
                    == left_crossing(left, c.index as nat))
                ||| (c.side == Side::Right && j <= c.index < right.len() && c
                    == right_crossing(right, c.index as nat))
            },
    decreases remaining(left.len(), i) + remaining(right.len(), j),
{
    let m = merge_from(left, right, i, j);
    if i < left.len() && (j >= right.len() || left[i as int] <= right[j as int]) {
        lemma_merge_elements(left, right, i + 1, j);
        assert(m[0].index as nat == i);
        assert forall|k: int| 0 < k < m.len() implies m[k] == merge_from(left, right, i + 1, j)[k
            - 1] by {}
    } else if j < right.len() {
        lemma_merge_elements(left, right, i, j + 1);
        assert(m[0].index as nat == j);
        assert forall|k: int| 0 < k < m.len() implies m[k] == merge_from(left, right, i, j + 1)[k
            - 1] by {}
    }
}

/// Merging two lists sorted by key gives a walk sorted by key.
pub proof fn lemma_merge_sorted(left: Seq<u32>, right: Seq<u32>, i: nat, j: nat)
    requires
        left.len() <= usize::MAX,
        right.len() <= usize::MAX,
        keys_sorted(left),
        keys_sorted(right),
    ensures
        crossings_sorted(merge_from(left, right, i, j)),
    decreases remaining(left.len(), i) + remaining(right.len(), j),
{
    let m = merge_from(left, right, i, j);
    if i < left.len() && (j >= right.len() || left[i as int] <= right[j as int]) {
        lemma_merge_sorted(left, right, i + 1, j);
        lemma_merge_elements(left, right, i + 1, j);
        let rest = merge_from(left, right, i + 1, j);
        assert forall|a: int, b: int| 0 <= a <= b < m.len() implies m[a].t_key <= m[b].t_key by {
            if a == 0 && b > 0 {
                assert(m[b] == rest[b - 1]);
            } else if a > 0 {
                assert(m[a] == rest[a - 1]);
                assert(m[b] == rest[b - 1]);
            }
        }
    } else if j < right.len() {
        lemma_merge_sorted(left, right, i, j + 1);
        lemma_merge_elements(left, right, i, j + 1);
        let rest = merge_from(left, right, i, j + 1);
        assert forall|a: int, b: int| 0 <= a <= b < m.len() implies m[a].t_key <= m[b].t_key by {
            if a == 0 && b > 0 {
                assert(m[b] == rest[b - 1]);
            } else if a > 0 {
                assert(m[a] == rest[a - 1]);
                assert(m[b] == rest[b - 1]);
            }
        }
    }
}


/// Whether the ray is inside the given child after the crossings `cs`: it
/// starts outside and each crossing of that child toggles the state.
pub open spec fn inside(cs: Seq<Crossing>, side: Side) -> bool
    decreases cs.len(),
{
    if cs.len() == 0 {
        false
    } else {
        inside(cs.drop_last(), side) != (cs.last().side == side)
    }
}

/// Whether the ray is inside the combined solid after the crossings `cs`.
pub open spec fn inside_combined(op: CsgOperation, cs: Seq<Crossing>) -> bool {
    op.holds(inside(cs, Side::Left), inside(cs, Side::Right))
}

/// The boundary that a kept crossing becomes: a surface of the subtracted
/// child bounds a difference from its other side.
pub open spec fn boundary_of(op: CsgOperation, c: Crossing) -> Boundary {
    Boundary {
        t_key: c.t_key,
        side: c.side,
        index: c.index,
        flipped: op == CsgOperation::Difference && c.side == Side::Right,
    }
}

/// The crossings of the walk `cs` at which being inside the combined solid
/// changes, in walk order.
pub open spec fn boundaries(op: CsgOperation, cs: Seq<Crossing>) -> Seq<Boundary>
    decreases cs.len(),
{
    if cs.len() == 0 {
        Seq::empty()
    } else {
        let prev = cs.drop_last();
        if inside_combined(op, prev) != inside_combined(op, cs) {
            boundaries(op, prev).push(boundary_of(op, cs.last()))
        } else {
            boundaries(op, prev)
        }
    }
}

/// Walks the crossings in order and keeps those at which the ray enters or
/// leaves the combined solid.
pub fn select_boundaries(op: CsgOperation, crossings: &Vec<Crossing>) -> (r: Vec<Boundary>)
    ensures
        r@ == boundaries(op, crossings@),
{
    let mut r: Vec<Boundary> = Vec::new();
    let mut in_left = false;
    let mut in_right = false;
    let mut k: usize = 0;
    while k < crossings.len()
        invariant
            k <= crossings.len(),
            in_left == inside(crossings@.take(k as int), Side::Left),
            in_right == inside(crossings@.take(k as int), Side::Right),
            r@ == boundaries(op, crossings@.take(k as int)),
        decreases crossings.len() - k,
    {
        let c = crossings[k];
        let was_inside = op.contains(in_left, in_right);
        match c.side {
            Side::Left => {
                in_left = !in_left;
            },
            Side::Right => {
                in_right = !in_right;
            },
        }
        let is_inside = op.contains(in_left, in_right);
        proof {
            assert(crossings@.take(k + 1).drop_last() =~= crossings@.take(k as int));
            assert(crossings@.take(k + 1).last() == c);
        }
        if was_inside != is_inside {
            let flipped = match op {
                CsgOperation::Difference => match c.side {
                    Side::Right => true,
                    Side::Left => false,
                },
                _ => false,
            };
            r.push(Boundary { t_key: c.t_key, side: c.side, index: c.index, flipped });
        }
        k = k + 1;
    }
    assert(crossings@.take(k as int) =~= crossings@);
    r
}

/// The boundaries of the solid `left op right` along one ray, from the
/// crossings of its two children, each listed by nondecreasing key.
pub open spec fn combined(op: CsgOperation, left: Seq<u32>, right: Seq<u32>) -> Seq<Boundary> {
    boundaries(op, merged(left, right))
}

/// Combines the crossings of two children under `op`: the result names, in
/// order along the ray, each child crossing that is a boundary of the
/// combined solid.
pub fn combine(op: CsgOperation, left: &Vec<u32>, right: &Vec<u32>) -> (r: Vec<Boundary>)
    ensures
        r@ == combined(op, left@, right@),
        keys_sorted(left@) && keys_sorted(right@) ==> boundaries_sorted(r@),
        left@.len() % 2 == 0 && right@.len() % 2 == 0 ==> r@.len() % 2 == 0,
{
    let crossings = merge_crossings(left, right);
    let r = select_boundaries(op, &crossings);
    proof {
        if keys_sorted(left@) && keys_sorted(right@) {
            lemma_boundaries_sorted(op, crossings@);
        }
        if left@.len() % 2 == 0 && right@.len() % 2 == 0 {
            law_closed_pairs(op, left@, right@);
        }
    }
    r
}


/// Each child crossing of `left`, kept unchanged as a boundary.
pub open spec fn unchanged(left: Seq<u32>) -> Seq<Boundary> {
    Seq::new(
        left.len(),
        |i: int| Boundary { t_key: left[i], side: Side::Left, index: i as usize, flipped: false },
    )
}

/// Parity of crossings over a concatenated walk.
pub proof fn lemma_inside_concat(a: Seq<Crossing>, b: Seq<Crossing>, side: Side)
    ensures
        inside(a + b, side) == (inside(a, side) != inside(b, side)),
    decreases b.len(),
{
    if b.len() == 0 {
        assert(a + b =~= a);
    } else {
        assert((a + b).drop_last() =~= a + b.drop_last());
        assert((a + b).last() == b.last());
        lemma_inside_concat(a, b.drop_last(), side);
    }
}

/// A walk of one crossing is inside exactly the child it belongs to.
pub proof fn lemma_inside_single(c: Crossing, side: Side)
    ensures
        inside(seq![c], side) == (c.side == side),
{
    assert(seq![c].drop_last() =~= Seq::<Crossing>::empty());
    assert(seq![c].last() == c);
    assert(!inside(Seq::<Crossing>::empty(), side));
}

/// After the whole merge from positions `i` and `j`, the ray is inside a
/// child exactly when an odd number of that child's crossings were left.
pub proof fn lemma_merge_inside(left: Seq<u32>, right: Seq<u32>, i: nat, j: nat)
    ensures
        inside(merge_from(left, right, i, j), Side::Left) == (remaining(left.len(), i) % 2 == 1),
        inside(merge_from(left, right, i, j), Side::Right) == (remaining(right.len(), j) % 2
            == 1),
    decreases remaining(left.len(), i) + remaining(right.len(), j),
{
    if i < left.len() && (j >= right.len() || left[i as int] <= right[j as int]) {
        let c = left_crossing(left, i);
        lemma_merge_inside(left, right, i + 1, j);
        lemma_inside_concat(seq![c], merge_from(left, right, i + 1, j), Side::Left);
        lemma_inside_concat(seq![c], merge_from(left, right, i + 1, j), Side::Right);
        lemma_inside_single(c, Side::Left);
        lemma_inside_single(c, Side::Right);
    } else if j < right.len() {
        let c = right_crossing(right, j);
        lemma_merge_inside(left, right, i, j + 1);
        lemma_inside_concat(seq![c], merge_from(left, right, i, j + 1), Side::Left);
        lemma_inside_concat(seq![c], merge_from(left, right, i, j + 1), Side::Right);
        lemma_inside_single(c, Side::Left);
        lemma_inside_single(c, Side::Right);
    }
}

/// A point of the ray just past the crossings `cs` is inside the combined
/// solid exactly when it is inside under `op` of the two children, each
/// judged alone by the parity of its own crossings; and the combined solid
/// is entered there exactly when an odd number of its boundaries were kept.
/// So the kept boundaries delimit the same stretches of the ray as the
/// union, intersection or difference of the children's stretches.
pub proof fn law_inside_parity(op: CsgOperation, cs: Seq<Crossing>)
    ensures
        (boundaries(op, cs).len() % 2 == 1) == op.holds(
            inside(cs, Side::Left),
            inside(cs, Side::Right),
        ),
    decreases cs.len(),
{
    if cs.len() > 0 {
        law_inside_parity(op, cs.drop_last());
    }
}

/// The boundaries kept within the first `k` crossings of a walk are the
/// first boundaries kept over the whole walk.
pub proof fn lemma_boundaries_prefix(op: CsgOperation, cs: Seq<Crossing>, k: int)
    requires
        0 <= k <= cs.len(),
    ensures
        boundaries(op, cs.take(k)).len() <= boundaries(op, cs).len(),
        boundaries(op, cs.take(k)) == boundaries(op, cs).take(
            boundaries(op, cs.take(k)).len() as int,
        ),
    decreases cs.len() - k,
{
    if k == cs.len() {
        assert(cs.take(k) =~= cs);
        assert(boundaries(op, cs) =~= boundaries(op, cs).take(boundaries(op, cs).len() as int));
    } else {
        lemma_boundaries_prefix(op, cs.drop_last(), k);
        assert(cs.drop_last().take(k) =~= cs.take(k));
        let whole = boundaries(op, cs);
        let prev = boundaries(op, cs.drop_last());
        let part = boundaries(op, cs.take(k));
        assert(part =~= whole.take(part.len() as int)) by {
            assert forall|m: int| 0 <= m < part.len() implies part[m] == whole[m] by {
                assert(part[m] == prev[m]);
            }
        }
    }
}

/// Inside the combined solid, for any stretch of the ray between two
/// successive crossings of the merged walk, exactly when inside under `op`
/// of the two children: the boundaries that `combine` keeps before that
/// stretch are odd in number exactly then.
pub proof fn law_combined_inside(op: CsgOperation, left: Seq<u32>, right: Seq<u32>, k: int)
    requires
        0 <= k <= merged(left, right).len(),
    ensures
        ({
            let walk = merged(left, right).take(k);
            let kept = boundaries(op, walk);
            &&& kept == combined(op, left, right).take(kept.len() as int)
            &&& (kept.len() % 2 == 1) == op.holds(
                inside(walk, Side::Left),
                inside(walk, Side::Right),
            )
        }),
{
    lemma_boundaries_prefix(op, merged(left, right), k);
    law_inside_parity(op, merged(left, right).take(k));
}

/// Two closed solids, each crossed an even number of times, combine into a
/// solid crossed an even number of times: entries and exits still pair up.
pub proof fn law_closed_pairs(op: CsgOperation, left: Seq<u32>, right: Seq<u32>)
    requires
        left.len() % 2 == 0,
        right.len() % 2 == 0,
    ensures
        combined(op, left, right).len() % 2 == 0,
{
    lemma_merge_inside(left, right, 0, 0);
    law_inside_parity(op, merged(left, right));
}

/// Every boundary kept over a walk carries the key of one of its crossings.
pub proof fn lemma_boundaries_bounded(op: CsgOperation, cs: Seq<Crossing>, bound: u32)
    requires
        forall|k: int| 0 <= k < cs.len() ==> cs[k].t_key <= bound,
    ensures
        forall|k: int|
            0 <= k < boundaries(op, cs).len() ==> #[trigger] boundaries(op, cs)[k].t_key <= bound,
    decreases cs.len(),
{
    if cs.len() > 0 {
        lemma_boundaries_bounded(op, cs.drop_last(), bound);
    }
}

/// Over a walk sorted by key the kept boundaries are sorted by key.
pub proof fn lemma_boundaries_sorted(op: CsgOperation, cs: Seq<Crossing>)
    requires
        crossings_sorted(cs),
    ensures
        boundaries_sorted(boundaries(op, cs)),
    decreases cs.len(),
{
    if cs.len() > 0 {
        let prev = cs.drop_last();
        lemma_boundaries_sorted(op, prev);
        lemma_boundaries_bounded(op, prev, cs.last().t_key);
    }
}

/// The crossings of `left` alone, in order.
pub open spec fn left_walk(left: Seq<u32>) -> Seq<Crossing> {
    Seq::new(left.len(), |i: int| left_crossing(left, i as nat))
}

/// A merge from position `i` of `left` with an exhausted right list is the
/// rest of `left`; with one right crossing left whose key is at least every
/// remaining left key, that crossing comes last.
pub proof fn lemma_merge_left_rest(left: Seq<u32>, right: Seq<u32>, i: nat, j: nat)
    requires
        i <= left.len(),
        j == right.len() || (j + 1 == right.len() && forall|k: int|
            i <= k < left.len() ==> left[k] <= right[j as int]),
    ensures
        merge_from(left, right, i, j) == left_walk(left).skip(i as int) + right.skip(j as int).map(
            |k: int, key: u32| right_crossing(right, (k + j) as nat),
        ),
    decreases left.len() - i,
{
    let tail = right.skip(j as int).map(|k: int, key: u32| right_crossing(right, (k + j) as nat));
    if i < left.len() {
        lemma_merge_left_rest(left, right, i + 1, j);
        assert(left_walk(left).skip(i as int) =~= seq![left_crossing(left, i)] + left_walk(
            left,
        ).skip((i + 1) as int));
        assert(merge_from(left, right, i, j) =~= left_walk(left).skip(i as int) + tail);
    } else if j < right.len() {
        assert(merge_from(left, right, i, j + 1) =~= Seq::<Crossing>::empty());
        assert(merge_from(left, right, i, j) =~= left_walk(left).skip(i as int) + tail);
    } else {
        assert(merge_from(left, right, i, j) =~= left_walk(left).skip(i as int) + tail);
    }
}

/// Appending crossings of the left child alone to a walk after which `op`
/// follows the left child keeps each of them.
pub proof fn lemma_walk_lefts(op: CsgOperation, prefix: Seq<Crossing>, lefts: Seq<Crossing>)
    requires
        forall|x: bool| op.holds(x, inside(prefix, Side::Right)) == x,
        forall|k: int| 0 <= k < lefts.len() ==> #[trigger] lefts[k].side == Side::Left,
    ensures
        boundaries(op, prefix + lefts) == boundaries(op, prefix) + lefts.map_values(
            |c: Crossing| boundary_of(op, c),
        ),
    decreases lefts.len(),
{
    let f = |c: Crossing| boundary_of(op, c);
    if lefts.len() == 0 {
        assert(prefix + lefts =~= prefix);
        assert(boundaries(op, prefix + lefts) =~= boundaries(op, prefix) + lefts.map_values(f));
    } else {
        let shorter = lefts.drop_last();
        lemma_walk_lefts(op, prefix, shorter);
        assert((prefix + lefts).drop_last() =~= prefix + shorter);
        assert((prefix + lefts).last() == lefts.last());
        assert(lefts.last().side == Side::Left);
        lemma_inside_concat(prefix, lefts, Side::Right);
        lemma_inside_concat(prefix, shorter, Side::Right);
        lemma_lefts_stay_outside_right(lefts);
        lemma_lefts_stay_outside_right(shorter);
        assert(op.holds(inside(prefix + shorter, Side::Left), inside(prefix, Side::Right)) == inside(
            prefix + shorter,
            Side::Left,
        ));
        assert(op.holds(inside(prefix + lefts, Side::Left), inside(prefix, Side::Right)) == inside(
            prefix + lefts,
            Side::Left,
        ));
        assert(boundaries(op, prefix + lefts) =~= boundaries(op, prefix) + lefts.map_values(f));
    }
}

/// A walk made of left crossings only never enters the right child.
pub proof fn lemma_lefts_stay_outside_right(lefts: Seq<Crossing>)
    requires
        forall|k: int| 0 <= k < lefts.len() ==> #[trigger] lefts[k].side == Side::Left,
    ensures
        !inside(lefts, Side::Right),
    decreases lefts.len(),
{
    if lefts.len() > 0 {
        lemma_lefts_stay_outside_right(lefts.drop_last());
    }
}

/// The union of a solid with the empty solid is that solid: every crossing
/// is kept as it is.
pub proof fn law_union_with_empty(left: Seq<u32>)
    ensures
        combined(CsgOperation::Union, left, Seq::empty()) == unchanged(left),
{
    law_with_empty(CsgOperation::Union, left);
}

/// Subtracting the empty solid from a solid leaves that solid: every
/// crossing is kept as it is, none reversed.
pub proof fn law_difference_with_empty(left: Seq<u32>)
    ensures
        combined(CsgOperation::Difference, left, Seq::empty()) == unchanged(left),
{
    law_with_empty(CsgOperation::Difference, left);
}

proof fn law_with_empty(op: CsgOperation, left: Seq<u32>)
    requires
        op == CsgOperation::Union || op == CsgOperation::Difference,
    ensures
        combined(op, left, Seq::empty()) == unchanged(left),
{
    let right = Seq::<u32>::empty();
    lemma_merge_left_rest(left, right, 0, 0);
    let walk = left_walk(left);
    assert(merged(left, right) =~= walk);
    assert(Seq::<Crossing>::empty() + walk =~= walk);
    lemma_walk_lefts(op, Seq::empty(), walk);
    assert(Seq::<Boundary>::empty() + walk.map_values(|c: Crossing| boundary_of(op, c))
        =~= unchanged(left));
}

/// The intersection of a solid with a solid that holds all of its stretch
/// of the ray is that solid. Within one ray's interval list the whole space
/// shows as a solid entered before the first crossing of `left` and left at
/// or after its last; `left` is a closed solid, crossed an even number of
/// times in order.
pub proof fn law_intersection_with_enclosing(left: Seq<u32>, enter: u32, exit: u32)
    requires
        keys_sorted(left),
        left.len() % 2 == 0,
        left.len() > 0 ==> enter < left[0] && left.last() <= exit,
    ensures
        combined(CsgOperation::Intersection, left, seq![enter, exit]) == unchanged(left),
{
    let op = CsgOperation::Intersection;
    let right = seq![enter, exit];
    let walk = left_walk(left);
    let first = right_crossing(right, 0);
    let last = right_crossing(right, 1);
    lemma_merge_left_rest(left, right, 0, 1);
    assert(right.skip(1).map(|k: int, key: u32| right_crossing(right, (k + 1) as nat)) =~= seq![
        last,
    ]);
    assert(left_walk(left).skip(0) =~= walk);
    assert(merged(left, right) == seq![first] + merge_from(left, right, 0, 1));
    let cs = seq![first] + walk + seq![last];
    assert(merged(left, right) =~= cs);
    lemma_inside_single(first, Side::Right);
    lemma_inside_single(first, Side::Left);
    assert(seq![first].drop_last() =~= Seq::<Crossing>::empty());
    assert(!inside_combined(op, seq![first]));
    assert(!inside_combined(op, Seq::<Crossing>::empty()));
    assert(boundaries(op, Seq::<Crossing>::empty()) =~= Seq::<Boundary>::empty());
    assert(boundaries(op, seq![first]) =~= Seq::<Boundary>::empty());
    lemma_walk_lefts(op, seq![first], walk);
    assert(cs.drop_last() =~= seq![first] + walk);
    lemma_inside_concat(seq![first], walk, Side::Left);
    lemma_inside_concat(seq![first], walk, Side::Right);
    lemma_lefts_stay_outside_right(walk);
    lemma_merge_inside(left, Seq::empty(), 0, 0);
    lemma_merge_left_rest(left, Seq::empty(), 0, 0);
    assert(merged(left, Seq::empty()) =~= walk);
    lemma_inside_concat(seq![first] + walk, seq![last], Side::Left);
    lemma_inside_concat(seq![first] + walk, seq![last], Side::Right);
    lemma_inside_single(last, Side::Left);
    lemma_inside_single(last, Side::Right);
    assert(Seq::<Boundary>::empty() + walk.map_values(|c: Crossing| boundary_of(op, c))
        =~= unchanged(left));
}

} // verus!
