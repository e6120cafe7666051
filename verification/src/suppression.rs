//! Non-maximum suppression: of boxes that lie over one another, the surest is kept.
use crate::face::FaceBox;
use crate::select::{
    law_selection_exact, lemma_selection_agrees, names_places, pick, selected,
};
use crate::single::Single;
use vstd::prelude::*;

verus! {

/// The edges of a box: where it begins and ends from left to right and from top to bottom.
#[derive(Clone, Copy, Debug, PartialEq, Eq, Structural)]
pub struct Edges {
    pub left: Single,
    pub top: Single,
    pub right: Single,
    pub bottom: Single,
}

/// The part that two boxes share, empty or not.
pub open spec fn shared_part(a: Edges, b: Edges) -> Edges {
    Edges {
        left: a.left.greater_of(b.left),
        top: a.top.greater_of(b.top),
        right: a.right.lesser_of(b.right),
        bottom: a.bottom.lesser_of(b.bottom),
    }
}

/// Whether a part ends where it begins or before.
pub open spec fn is_empty(part: Edges) -> bool {
    part.right.le(part.left) || part.bottom.le(part.top)
}

/// The part that two boxes share, if they share any. Boxes that share none overlap by 0.
pub fn intersection(a: &Edges, b: &Edges) -> (part: Option<Edges>)
    ensures
        part == (if is_empty(shared_part(*a, *b)) {
            None
        } else {
            Some(shared_part(*a, *b))
        }),
{
    let x1 = a.left.greater(&b.left);
    let y1 = a.top.greater(&b.top);
    let x2 = a.right.lesser(&b.right);
    let y2 = a.bottom.lesser(&b.bottom);
    if x2.at_most(&x1) || y2.at_most(&y1) {
        None
    } else {
        Some(Edges { left: x1, top: y1, right: x2, bottom: y2 })
    }
}

/// Whether all edges of a box are numbers.
pub open spec fn is_numeric(part: Edges) -> bool {
    !part.left.nan() && !part.top.nan() && !part.right.nan() && !part.bottom.nan()
}

/// The part that two boxes share lies in both of them, and it is the same part, edge by edge,
/// whichever box is named first.
pub proof fn law_intersection_symmetric(a: Edges, b: Edges)
    requires
        is_numeric(a),
        is_numeric(b),
    ensures
        is_empty(shared_part(a, b)) == is_empty(shared_part(b, a)),
        shared_part(a, b).left.rank() == shared_part(b, a).left.rank(),
        shared_part(a, b).top.rank() == shared_part(b, a).top.rank(),
        shared_part(a, b).right.rank() == shared_part(b, a).right.rank(),
        shared_part(a, b).bottom.rank() == shared_part(b, a).bottom.rank(),
        a.left.le(shared_part(a, b).left) && b.left.le(shared_part(a, b).left),
        a.top.le(shared_part(a, b).top) && b.top.le(shared_part(a, b).top),
        shared_part(a, b).right.le(a.right) && shared_part(a, b).right.le(b.right),
        shared_part(a, b).bottom.le(a.bottom) && shared_part(a, b).bottom.le(b.bottom),
{
}

/// A box that is not empty shares all of itself with itself.
pub proof fn law_box_meets_itself(a: Edges)
    requires
        is_numeric(a),
        !is_empty(a),
    ensures
        shared_part(a, a) == a,
        !is_empty(shared_part(a, a)),
{
}

/// Whether item `a` comes before item `b` when items are ranked by falling key and equal keys
/// keep their order.
pub open spec fn ranks_before(keys: Seq<i64>, a: int, b: int) -> bool {
    keys[a] > keys[b] || (keys[a] == keys[b] && a < b)
}

/// Whether `order` lists every item once, each before those that it ranks before.
pub open spec fn is_ranking(order: Seq<usize>, keys: Seq<i64>) -> bool {
    &&& order.len() == keys.len()
    &&& names_places(order, keys.len() as int)
    &&& forall|i: int| 0 <= i < keys.len() ==> #[trigger] order.contains(i as usize)
    &&& forall|p: int, q: int|
        0 <= p < q < order.len() ==> ranks_before(
            keys,
            #[trigger] order[p] as int,
            #[trigger] order[q] as int,
        )
}

/// The items by falling key, equal keys in their own order.
pub open spec fn ranking(keys: Seq<i64>) -> Seq<usize> {
    choose|order: Seq<usize>| is_ranking(order, keys)
}

/// There is only one ranking.
pub proof fn law_ranking_unique(order: Seq<usize>, keys: Seq<i64>)
    requires
        is_ranking(order, keys),
    ensures
        order == ranking(keys),
{
    let other = ranking(keys);
    assert(is_ranking(other, keys));
    assert forall|p: int| 0 <= p < order.len() implies order[p] == other[p] by {
        lemma_rankings_agree(order, other, keys, p);
    }
    assert(order =~= other);
}

proof fn lemma_rankings_agree(one: Seq<usize>, other: Seq<usize>, keys: Seq<i64>, p: int)
    requires
        is_ranking(one, keys),
        is_ranking(other, keys),
        0 <= p < one.len(),
    ensures
        forall|q: int| 0 <= q <= p ==> one[q] == other[q],
    decreases p,
{
    if p > 0 {
        lemma_rankings_agree(one, other, keys, p - 1);
    }
    let a = one[p];
    let b = other[p];
    assert(other.contains(a as int as usize));
    assert(one.contains(b as int as usize));
    let r = choose|r: int| 0 <= r < other.len() && other[r] == a;
    let s = choose|s: int| 0 <= s < one.len() && one[s] == b;
    assert(r >= p) by {
        if r < p {
            assert(one[r] == other[r]);
            assert(one[r] == one[p]);
        }
    }
    assert(s >= p) by {
        if s < p {
            assert(one[s] == other[s]);
            assert(other[s] == other[p]);
        }
    }
    if a != b {
        assert(ranks_before(keys, other[p] as int, other[r] as int));
        assert(ranks_before(keys, one[p] as int, one[s] as int));
    }
}

/// Ranks items by falling key, equal keys in their own order.
pub fn rank(keys: &Vec<i64>) -> (order: Vec<usize>)
    ensures
        is_ranking(order@, keys@),
        order@ == ranking(keys@),
{
    let mut order: Vec<usize> = Vec::new();
    let mut n: usize = 0;
    while n < keys.len()
        invariant
            0 <= n <= keys@.len(),
            is_ranking(order@, keys@.take(n as int)),
        decreases keys@.len() - n,
    {
        let ghost before = order@;
        let ghost part = keys@.take(n as int);
        let mut at: usize = n;
        while at > 0 && keys[order[at - 1]] < keys[n]
            invariant
                0 <= at <= n,
                n < keys@.len(),
                part == keys@.take(n as int),
                order@ == before,
                is_ranking(order@, part),
                forall|p: int| at <= p < n ==> part[#[trigger] order@[p] as int] < keys@[n as int],
            decreases at,
        {
            at -= 1;
        }
        order.insert(at, n);
        proof {
            lemma_insert_ranked(before, keys@, n as int, at as int);
            assert(order@ =~= before.insert(at as int, n));
        }
        n += 1;
    }
    assert(keys@.take(n as int) =~= keys@);
    proof {
        law_ranking_unique(order@, keys@);
    }
    order
}

proof fn lemma_insert_ranked(before: Seq<usize>, keys: Seq<i64>, n: int, at: int)
    requires
        0 <= n < keys.len(),
        n <= usize::MAX,
        0 <= at <= n,
        is_ranking(before, keys.take(n)),
        forall|p: int| at <= p < n ==> keys[#[trigger] before[p] as int] < keys[n],
        at > 0 ==> keys[before[at - 1] as int] >= keys[n],
    ensures
        is_ranking(before.insert(at, n as usize), keys.take(n + 1)),
{
    let part = keys.take(n);
    let whole = keys.take(n + 1);
    let after = before.insert(at, n as usize);
    assert forall|i: int| 0 <= i < whole.len() implies #[trigger] after.contains(i as usize) by {
        if i == n {
            assert(after[at] == n);
        } else {
            assert(before.contains(i as usize));
            let p = choose|p: int| 0 <= p < before.len() && before[p] == i as usize;
            if p < at {
                assert(after[p] == i as usize);
            } else {
                assert(after[p + 1] == i as usize);
            }
        }
    }
    assert forall|p: int| 0 <= p < at implies keys[#[trigger] before[p] as int] >= keys[n] by {
        if p < at - 1 {
            assert(ranks_before(part, before[p] as int, before[at - 1] as int));
        }
    }
    assert forall|p: int, q: int| 0 <= p < q < after.len() implies ranks_before(
        whole,
        #[trigger] after[p] as int,
        #[trigger] after[q] as int,
    ) by {
        let p0 = if p < at { p } else { p - 1 };
        let q0 = if q < at { q } else { q - 1 };
        if p != at && q != at {
            assert(after[p] == before[p0]);
            assert(after[q] == before[q0]);
            assert(ranks_before(part, before[p0] as int, before[q0] as int));
        } else if p == at {
            assert(after[q] == before[q0]);
        } else {
            assert(after[p] == before[p0]);
        }
    }
    assert(after.no_duplicates()) by {
        assert forall|p: int, q: int| 0 <= p < q < after.len() implies after[p] != after[q] by {
            assert(ranks_before(whole, after[p] as int, after[q] as int));
        }
    }
    assert forall|p: int| 0 <= p < after.len() implies #[trigger] after[p] < whole.len() by {
        if p < at {
            assert(after[p] == before[p]);
        } else if p > at {
            assert(after[p] == before[p - 1]);
        }
    }
}

/// Whether box `b` lies over box `a` by more than the threshold allows, given how much each box
/// overlaps each other (intersection over union).
pub open spec fn overlaps(iou: Seq<Vec<Single>>, threshold: Single, a: int, b: int) -> bool {
    threshold.lt(iou[a]@[b])
}

/// Whether the box at place `p` of a ranking is kept: no kept box before it overlaps it.
pub open spec fn survives(order: Seq<usize>, iou: Seq<Vec<Single>>, threshold: Single, p: int) -> bool
    decreases p,
{
    forall|q: int|
        0 <= q < p && survives(order, iou, threshold, q) ==> !overlaps(
            iou,
            threshold,
            #[trigger] order[q] as int,
            order[p] as int,
        )
}

/// The places of a ranking whose boxes are kept, in order.
pub open spec fn survivors(order: Seq<usize>, iou: Seq<Vec<Single>>, threshold: Single) -> Seq<int> {
    selected(|p: int| survives(order, iou, threshold, p), order.len() as int)
}

/// What boxes are ranked by: the place of their confidence in the total order of numbers.
pub open spec fn confidence_keys(boxes: Seq<FaceBox>) -> Seq<i64> {
    boxes.map_values(|face: FaceBox| face.confidence.total_rank() as i64)
}

/// The numbers of the boxes that are kept, surest first.
pub open spec fn kept_places(
    boxes: Seq<FaceBox>,
    iou: Seq<Vec<Single>>,
    threshold: Single,
) -> Seq<usize> {
    let order = ranking(confidence_keys(boxes));
    survivors(order, iou, threshold).map_values(|p: int| order[p])
}

/// Whether `iou` has an entry for each pair of `count` boxes.
pub open spec fn pairs_all(iou: Seq<Vec<Single>>, count: int) -> bool {
    &&& iou.len() == count
    &&& forall|i: int| 0 <= i < count ==> (#[trigger] iou[i])@.len() == count
}

/// The bit pattern of 0.4, the overlap above which two boxes are taken for the same face.
pub const OVERLAP_LIMIT_BITS: u32 = 0x3ECC_CCCD;

/// Ranks boxes by falling confidence and keeps each that no kept box before it overlaps by more
/// than `iou_threshold`; `iou[a][b]` is the overlap of box `a` with box `b`.
pub fn nms(boxes: Vec<FaceBox>, iou: &Vec<Vec<Single>>, iou_threshold: Single) -> (kept: Vec<FaceBox>)
    requires
        pairs_all(iou@, boxes@.len() as int),
    ensures
        kept@ == kept_places(boxes@, iou@, iou_threshold).map_values(
            |place: usize| boxes@[place as int],
        ),
{
    let count = boxes.len();
    let mut keys: Vec<i64> = Vec::new();
    let mut n: usize = 0;
    while n < count
        invariant
            0 <= n <= count,
            count == boxes@.len(),
            keys@ == confidence_keys(boxes@.take(n as int)),
        decreases count - n,
    {
        let key = boxes[n].confidence.total_order();
        keys.push(key);
        assert(keys@ =~= confidence_keys(boxes@.take(n + 1)));
        n += 1;
    }
    assert(boxes@.take(n as int) =~= boxes@);
    let order = rank(&keys);
    let mut suppressed: Vec<bool> = vec![false; count];
    let mut places: Vec<usize> = Vec::new();
    let ghost alive = |p: int| survives(order@, iou@, iou_threshold, p);
    let mut i: usize = 0;
    while i < count
        invariant
            0 <= i <= count,
            pairs_all(iou@, count as int),
            order@.len() == count,
            names_places(order@, count as int),
            suppressed@.len() == count,
            alive == (|p: int| survives(order@, iou@, iou_threshold, p)),
            forall|p: int|
                i <= p < count ==> (#[trigger] suppressed@[p] <==> hit(
                    order@,
                    iou@,
                    iou_threshold,
                    i as int,
                    p,
                )),
            places@ == selected(alive, i as int).map_values(|p: int| order@[p]),
        decreases count - i,
    {
        let ghost before = suppressed@;
        assert(alive(i as int) == survives(order@, iou@, iou_threshold, i as int));
        if suppressed[i] {
            proof {
                lemma_hit_unless_alive(order@, iou@, iou_threshold, i as int);
            }
        } else {
            proof {
                lemma_hit_unless_alive(order@, iou@, iou_threshold, i as int);
            }
            places.push(order[i]);
            let mut j: usize = i + 1;
            while j < count
                invariant
                    i < j <= count,
                    pairs_all(iou@, count as int),
                    order@.len() == count,
                    names_places(order@, count as int),
                    suppressed@.len() == count,
                    before.len() == count,
                    forall|p: int|
                        i < p < count ==> (#[trigger] suppressed@[p] <==> (before[p] || (p < j
                            && overlaps(
                            iou@,
                            iou_threshold,
                            order@[i as int] as int,
                            order@[p] as int,
                        )))),
                decreases count - j,
            {
                if !suppressed[j] {
                    if iou_threshold.less_than(&iou[order[i]][order[j]]) {
                        suppressed.set(j, true);
                    }
                }
                j += 1;
            }
        }
        assert forall|p: int| i < p < count implies (#[trigger] suppressed@[p] <==> hit(
            order@,
            iou@,
            iou_threshold,
            i + 1,
            p,
        )) by {
            assert(before[p] <==> hit(order@, iou@, iou_threshold, i as int, p));
            lemma_hit_next(order@, iou@, iou_threshold, i as int, p);
        }
        assert(places@ =~= selected(alive, i + 1).map_values(|p: int| order@[p]));
        i += 1;
    }
    proof {
        law_selection_exact(alive, count as int);
        let chosen = selected(alive, count as int);
        assert(names_places(places@, count as int)) by {
            assert forall|a: int, b: int| 0 <= a < b < places@.len() implies places@[a]
                != places@[b] by {
                assert(chosen[a] < chosen[b]);
            }
        }
        assert(places@ == kept_places(boxes@, iou@, iou_threshold));
    }
    pick(boxes, &places)
}

/// Whether one of the first `n` places of a ranking is kept and overlaps place `p`.
spec fn hit(order: Seq<usize>, iou: Seq<Vec<Single>>, threshold: Single, n: int, p: int) -> bool {
    exists|q: int|
        0 <= q < n && survives(order, iou, threshold, q) && overlaps(
            iou,
            threshold,
            #[trigger] order[q] as int,
            order[p] as int,
        )
}

proof fn lemma_hit_unless_alive(order: Seq<usize>, iou: Seq<Vec<Single>>, threshold: Single, p: int)
    ensures
        hit(order, iou, threshold, p, p) <==> !survives(order, iou, threshold, p),
{
}

proof fn lemma_hit_next(order: Seq<usize>, iou: Seq<Vec<Single>>, threshold: Single, n: int, p: int)
    requires
        n >= 0,
    ensures
        hit(order, iou, threshold, n + 1, p) <==> hit(order, iou, threshold, n, p) || (survives(
            order,
            iou,
            threshold,
            n,
        ) && overlaps(iou, threshold, order[n] as int, order[p] as int)),
{
    if survives(order, iou, threshold, n) && overlaps(
        iou,
        threshold,
        order[n] as int,
        order[p] as int,
    ) {
        assert(hit(order, iou, threshold, n + 1, p));
    }
    if hit(order, iou, threshold, n, p) {
        let q = choose|q: int|
            0 <= q < n && survives(order, iou, threshold, q) && overlaps(
                iou,
                threshold,
                #[trigger] order[q] as int,
                order[p] as int,
            );
        assert(overlaps(iou, threshold, order[q] as int, order[p] as int));
    }
}

/// Some ranking exists for any keys.
proof fn lemma_ranking_exists(keys: Seq<i64>)
    requires
        keys.len() <= usize::MAX,
    ensures
        is_ranking(ranking(keys), keys),
{
    lemma_some_ranking(keys, keys.len() as int);
    assert(keys.take(keys.len() as int) =~= keys);
}

proof fn lemma_some_ranking(keys: Seq<i64>, n: int)
    requires
        0 <= n <= keys.len() <= usize::MAX,
    ensures
        exists|order: Seq<usize>| is_ranking(order, keys.take(n)),
    decreases n,
{
    if n == 0 {
        assert(is_ranking(Seq::<usize>::empty(), keys.take(0)));
    } else {
        lemma_some_ranking(keys, n - 1);
        let part = keys.take(n - 1);
        let before = choose|order: Seq<usize>| is_ranking(order, part);
        let at = insertion_place(before, keys, n - 1, n - 1);
        lemma_insertion_place(before, keys, n - 1, n - 1);
        lemma_insert_ranked(before, keys, n - 1, at);
    }
}

/// Where, at or before place `at`, an item with the key of `n` is to be inserted.
spec fn insertion_place(order: Seq<usize>, keys: Seq<i64>, n: int, at: int) -> int
    decreases at,
{
    if at > 0 && keys[order[at - 1] as int] < keys[n] {
        insertion_place(order, keys, n, at - 1)
    } else {
        at
    }
}

proof fn lemma_insertion_place(order: Seq<usize>, keys: Seq<i64>, n: int, at: int)
    requires
        0 <= at <= n,
    ensures
        ({
            let place = insertion_place(order, keys, n, at);
            &&& 0 <= place <= at
            &&& forall|p: int| place <= p < at ==> keys[#[trigger] order[p] as int] < keys[n]
            &&& place > 0 ==> keys[order[place - 1] as int] >= keys[n]
        }),
    decreases at,
{
    if at > 0 && keys[order[at - 1] as int] < keys[n] {
        lemma_insertion_place(order, keys, n, at - 1);
    }
}

/// What is kept comes by falling confidence, and no box is kept twice.
pub proof fn law_kept_by_confidence(boxes: Seq<FaceBox>, iou: Seq<Vec<Single>>, threshold: Single)
    requires
        boxes.len() <= usize::MAX,
    ensures
        names_places(kept_places(boxes, iou, threshold), boxes.len() as int),
        forall|c: int, d: int|
            0 <= c < d < kept_places(boxes, iou, threshold).len() ==> ranks_before(
                confidence_keys(boxes),
                #[trigger] kept_places(boxes, iou, threshold)[c] as int,
                #[trigger] kept_places(boxes, iou, threshold)[d] as int,
            ),
{
    let keys = confidence_keys(boxes);
    lemma_ranking_exists(keys);
    let order = ranking(keys);
    let alive = |p: int| survives(order, iou, threshold, p);
    law_selection_exact(alive, order.len() as int);
    let places = kept_places(boxes, iou, threshold);
    let chosen = survivors(order, iou, threshold);
    assert(chosen == selected(alive, order.len() as int));
    assert forall|c: int, d: int| 0 <= c < d < places.len() implies ranks_before(
        keys,
        #[trigger] places[c] as int,
        #[trigger] places[d] as int,
    ) by {
        assert(chosen[c] < chosen[d]);
        assert(places[c] == order[chosen[c]]);
        assert(places[d] == order[chosen[d]]);
    }
    assert forall|c: int| 0 <= c < places.len() implies #[trigger] places[c] < boxes.len() by {
        assert(0 <= chosen[c] < order.len());
        assert(places[c] == order[chosen[c]]);
    }
    assert(places.no_duplicates()) by {
        assert forall|c: int, d: int| 0 <= c < d < places.len() implies places[c] != places[d] by {
            assert(ranks_before(keys, places[c] as int, places[d] as int));
        }
    }
}

/// Of two boxes that are kept, the less sure does not lie over the surer one by more than the
/// threshold.
pub proof fn law_kept_boxes_apart(
    boxes: Seq<FaceBox>,
    iou: Seq<Vec<Single>>,
    threshold: Single,
    c: int,
    d: int,
)
    requires
        boxes.len() <= usize::MAX,
        0 <= c < d < kept_places(boxes, iou, threshold).len(),
    ensures
        !overlaps(
            iou,
            threshold,
            kept_places(boxes, iou, threshold)[c] as int,
            kept_places(boxes, iou, threshold)[d] as int,
        ),
{
    let keys = confidence_keys(boxes);
    lemma_ranking_exists(keys);
    let order = ranking(keys);
    let alive = |p: int| survives(order, iou, threshold, p);
    law_selection_exact(alive, order.len() as int);
    let chosen = survivors(order, iou, threshold);
    assert(chosen == selected(alive, order.len() as int));
    assert(alive(chosen[c]) && alive(chosen[d]));
    assert(survives(order, iou, threshold, chosen[d]));
    assert(survives(order, iou, threshold, chosen[c]));
    assert(!overlaps(iou, threshold, order[chosen[c]] as int, order[chosen[d]] as int));
}

/// A box that is dropped lies over a kept box that ranks before it.
pub proof fn law_dropped_box_covered(
    boxes: Seq<FaceBox>,
    iou: Seq<Vec<Single>>,
    threshold: Single,
    dropped: int,
)
    requires
        0 <= dropped < boxes.len() <= usize::MAX,
        !kept_places(boxes, iou, threshold).contains(dropped as usize),
    ensures
        exists|c: int|
            0 <= c < kept_places(boxes, iou, threshold).len() && ranks_before(
                confidence_keys(boxes),
                #[trigger] kept_places(boxes, iou, threshold)[c] as int,
                dropped,
            ) && overlaps(iou, threshold, kept_places(boxes, iou, threshold)[c] as int, dropped),
{
    let keys = confidence_keys(boxes);
    lemma_ranking_exists(keys);
    let order = ranking(keys);
    let alive = |p: int| survives(order, iou, threshold, p);
    law_selection_exact(alive, order.len() as int);
    let places = kept_places(boxes, iou, threshold);
    let chosen = survivors(order, iou, threshold);
    assert(chosen == selected(alive, order.len() as int));
    assert(order.contains(dropped as usize));
    let p = choose|p: int| 0 <= p < order.len() && order[p] == dropped as usize;
    assert(!alive(p)) by {
        if alive(p) {
            assert(chosen.contains(p));
            let c = choose|c: int| 0 <= c < chosen.len() && chosen[c] == p;
            assert(places[c] == dropped as usize);
        }
    }
    lemma_hit_unless_alive(order, iou, threshold, p);
    let q = choose|q: int|
        0 <= q < p && survives(order, iou, threshold, q) && overlaps(
            iou,
            threshold,
            #[trigger] order[q] as int,
            order[p] as int,
        );
    assert(alive(q));
    assert(chosen.contains(q));
    let c = choose|c: int| 0 <= c < chosen.len() && chosen[c] == q;
    assert(places[c] == order[q]);
    assert(ranks_before(keys, order[q] as int, order[p] as int));
}

/// The surest box is always kept, and comes first.
pub proof fn law_surest_box_kept(boxes: Seq<FaceBox>, iou: Seq<Vec<Single>>, threshold: Single)
    requires
        0 < boxes.len() <= usize::MAX,
    ensures
        kept_places(boxes, iou, threshold).len() > 0,
        forall|i: int|
            0 <= i < boxes.len() && i != kept_places(boxes, iou, threshold)[0] ==> ranks_before(
                confidence_keys(boxes),
                kept_places(boxes, iou, threshold)[0] as int,
                i,
            ),
{
    let keys = confidence_keys(boxes);
    lemma_ranking_exists(keys);
    let order = ranking(keys);
    let alive = |p: int| survives(order, iou, threshold, p);
    law_selection_exact(alive, order.len() as int);
    let chosen = survivors(order, iou, threshold);
    let places = kept_places(boxes, iou, threshold);
    assert(chosen == selected(alive, order.len() as int));
    assert(alive(0));
    assert(chosen.contains(0));
    let c = choose|c: int| 0 <= c < chosen.len() && chosen[c] == 0;
    if c > 0 {
        assert(chosen[0] < chosen[c]);
    }
    assert(places[0] == order[0]);
    assert forall|i: int| 0 <= i < boxes.len() && i != places[0] implies ranks_before(
        keys,
        places[0] as int,
        i,
    ) by {
        assert(order.contains(i as usize));
        let p = choose|p: int| 0 <= p < order.len() && order[p] == i as usize;
        assert(ranks_before(keys, order[0] as int, order[p] as int));
    }
}

/// Suppressing a second time changes nothing: what was kept is kept, in the same order.
pub proof fn law_suppression_settles(
    boxes: Seq<FaceBox>,
    iou: Seq<Vec<Single>>,
    threshold: Single,
    kept: Seq<FaceBox>,
    kept_iou: Seq<Vec<Single>>,
)
    requires
        boxes.len() <= usize::MAX,
        kept == kept_places(boxes, iou, threshold).map_values(|place: usize| boxes[place as int]),
        pairs_all(kept_iou, kept.len() as int),
        forall|c: int, d: int|
            0 <= c < kept.len() && 0 <= d < kept.len() ==> #[trigger] kept_iou[c]@[d]
                == iou[kept_places(boxes, iou, threshold)[c] as int]@[kept_places(
                boxes,
                iou,
                threshold,
            )[d] as int],
    ensures
        kept_places(kept, kept_iou, threshold).map_values(|place: usize| kept[place as int])
            == kept,
{
    let keys = confidence_keys(boxes);
    let places = kept_places(boxes, iou, threshold);
    law_kept_by_confidence(boxes, iou, threshold);
    let n = kept.len() as int;
    assert(n <= usize::MAX) by {
        lemma_ranking_exists(keys);
        let order = ranking(keys);
        law_selection_exact(|p: int| survives(order, iou, threshold, p), order.len() as int);
    }
    let new_keys = confidence_keys(kept);
    let own = Seq::new(n as nat, |i: int| i as usize);
    assert(is_ranking(own, new_keys)) by {
        assert forall|i: int| 0 <= i < new_keys.len() implies #[trigger] own.contains(
            i as usize,
        ) by {
            assert(own[i] == i as usize);
        }
        assert forall|p: int, q: int| 0 <= p < q < own.len() implies ranks_before(
            new_keys,
            #[trigger] own[p] as int,
            #[trigger] own[q] as int,
        ) by {
            assert(ranks_before(keys, places[p] as int, places[q] as int));
            assert(kept[p] == boxes[places[p] as int]);
            assert(kept[q] == boxes[places[q] as int]);
        }
    }
    law_ranking_unique(own, new_keys);
    let alive = |p: int| survives(own, kept_iou, threshold, p);
    assert forall|p: int| 0 <= p < n implies #[trigger] alive(p) by {
        assert forall|q: int|
            0 <= q < p && survives(own, kept_iou, threshold, q) implies !overlaps(
            kept_iou,
            threshold,
            #[trigger] own[q] as int,
            own[p] as int,
        ) by {
            law_kept_boxes_apart(boxes, iou, threshold, q, p);
            assert(kept_iou[q]@[p] == iou[places[q] as int]@[places[p] as int]);
        }
    }
    lemma_select_all(alive, n);
    assert(survivors(own, kept_iou, threshold) == selected(alive, n));
    assert(kept_places(kept, kept_iou, threshold).map_values(|place: usize| kept[place as int])
        =~= kept);
}

/// Whether `other` lists the items of `one` in another order: its item `i` is item `from[i]` of
/// `one`.
pub open spec fn is_reordered<T>(one: Seq<T>, other: Seq<T>, from: Seq<int>) -> bool {
    &&& other.len() == one.len()
    &&& from.len() == one.len()
    &&& forall|i: int| 0 <= i < from.len() ==> 0 <= #[trigger] from[i] < one.len()
    &&& forall|k: int| 0 <= k < one.len() ==> #[trigger] from.contains(k)
    &&& from.no_duplicates()
    &&& forall|i: int| 0 <= i < other.len() ==> #[trigger] other[i] == one[from[i]]
}

/// Where no two boxes are equally sure, the order in which they come does not matter: the same
/// boxes are kept, in the same order.
pub proof fn law_input_order_does_not_count(
    boxes: Seq<FaceBox>,
    iou: Seq<Vec<Single>>,
    other_boxes: Seq<FaceBox>,
    other_iou: Seq<Vec<Single>>,
    threshold: Single,
    from: Seq<int>,
)
    requires
        boxes.len() <= usize::MAX,
        is_reordered(boxes, other_boxes, from),
        forall|i: int, j: int|
            0 <= i < boxes.len() && 0 <= j < boxes.len() ==> #[trigger] other_iou[i]@[j]
                == iou[from[i]]@[from[j]],
        forall|i: int, j: int|
            0 <= i < j < boxes.len() ==> (#[trigger] boxes[i]).confidence.total_rank() != (
            #[trigger] boxes[j]).confidence.total_rank(),
    ensures
        kept_places(other_boxes, other_iou, threshold).map_values(
            |place: usize| other_boxes[place as int],
        ) == kept_places(boxes, iou, threshold).map_values(|place: usize| boxes[place as int]),
{
    let keys = confidence_keys(boxes);
    let other_keys = confidence_keys(other_boxes);
    let n = boxes.len() as int;
    lemma_ranking_exists(keys);
    lemma_ranking_exists(other_keys);
    let order = ranking(keys);
    let other_order = ranking(other_keys);
    let moved = Seq::new(n as nat, |p: int| from[other_order[p] as int] as usize);
    assert forall|i: int| 0 <= i < n implies #[trigger] other_keys[i] == keys[from[i]] by {
        assert(other_boxes[i] == boxes[from[i]]);
    }
    assert forall|a: int, b: int| 0 <= a < n && 0 <= b < n && a != b implies #[trigger] keys[a]
        != #[trigger] keys[b] by {
        if a < b {
            assert(boxes[a].confidence.total_rank() != boxes[b].confidence.total_rank());
        } else {
            assert(boxes[b].confidence.total_rank() != boxes[a].confidence.total_rank());
        }
    }
    assert forall|p: int| 0 <= p < n implies #[trigger] moved[p] < n && moved[p] as int
        == from[other_order[p] as int] by {
        assert(other_order[p] < n);
        assert(0 <= from[other_order[p] as int] < n);
    }
    assert(is_ranking(moved, keys)) by {
        assert forall|i: int| 0 <= i < keys.len() implies #[trigger] moved.contains(i as usize) by {
            assert(from.contains(i));
            let k = choose|k: int| 0 <= k < from.len() && from[k] == i;
            assert(other_order.contains(k as usize));
            let p = choose|p: int| 0 <= p < other_order.len() && other_order[p] == k as usize;
            assert(moved[p] == i as usize);
        }
        assert forall|p: int, q: int| 0 <= p < q < moved.len() implies ranks_before(
            keys,
            #[trigger] moved[p] as int,
            #[trigger] moved[q] as int,
        ) by {
            let (a, b) = (other_order[p] as int, other_order[q] as int);
            assert(ranks_before(other_keys, a, b));
            assert(a != b);
            assert(from[a] != from[b]);
            assert(other_keys[a] == keys[from[a]]);
            assert(other_keys[b] == keys[from[b]]);
            assert(keys[from[a]] != keys[from[b]]);
        }
        assert(moved.no_duplicates()) by {
            assert forall|p: int, q: int| 0 <= p < q < moved.len() implies moved[p]
                != moved[q] by {
                assert(ranks_before(keys, moved[p] as int, moved[q] as int));
            }
        }
    }
    law_ranking_unique(moved, keys);
    let alive = |p: int| survives(order, iou, threshold, p);
    let other_alive = |p: int| survives(other_order, other_iou, threshold, p);
    assert forall|p: int| 0 <= p < n implies #[trigger] alive(p) == other_alive(p) by {
        lemma_survival_moves(order, iou, other_order, other_iou, threshold, from, p);
    }
    lemma_selection_agrees(alive, other_alive, n);
    law_selection_exact(alive, n);
    let chosen = selected(alive, n);
    assert(survivors(order, iou, threshold) == chosen);
    assert(survivors(other_order, other_iou, threshold) == chosen);
    let kept = kept_places(boxes, iou, threshold);
    let other_kept = kept_places(other_boxes, other_iou, threshold);
    assert forall|c: int| 0 <= c < chosen.len() implies other_boxes[#[trigger] other_kept[c] as int]
        == boxes[kept[c] as int] by {
        let p = chosen[c];
        assert(0 <= p < n);
        assert(moved[p] == order[p]);
        assert(other_boxes[other_order[p] as int] == boxes[from[other_order[p] as int]]);
    }
    assert(other_kept.map_values(|place: usize| other_boxes[place as int]) =~= kept.map_values(
        |place: usize| boxes[place as int],
    ));
}

/// A place of a ranking is kept whichever order the boxes behind the ranking come in.
proof fn lemma_survival_moves(
    order: Seq<usize>,
    iou: Seq<Vec<Single>>,
    other_order: Seq<usize>,
    other_iou: Seq<Vec<Single>>,
    threshold: Single,
    from: Seq<int>,
    p: int,
)
    requires
        order.len() == from.len(),
        other_order.len() == from.len(),
        forall|q: int|
            0 <= q < from.len() ==> #[trigger] other_order[q] < from.len() && order[q] as int
                == from[other_order[q] as int],
        forall|i: int, j: int|
            0 <= i < from.len() && 0 <= j < from.len() ==> #[trigger] other_iou[i]@[j]
                == iou[from[i]]@[from[j]],
        0 <= p < from.len(),
    ensures
        survives(order, iou, threshold, p) == survives(other_order, other_iou, threshold, p),
    decreases p,
{
    assert forall|q: int| 0 <= q < p implies survives(order, iou, threshold, q) == survives(
        other_order,
        other_iou,
        threshold,
        q,
    ) && overlaps(iou, threshold, #[trigger] order[q] as int, order[p] as int) == overlaps(
        other_iou,
        threshold,
        #[trigger] other_order[q] as int,
        other_order[p] as int,
    ) by {
        lemma_survival_moves(order, iou, other_order, other_iou, threshold, from, q);
        let (a, b) = (other_order[q] as int, other_order[p] as int);
        assert(other_iou[a]@[b] == iou[from[a]]@[from[b]]);
    }
    lemma_hit_unless_alive(order, iou, threshold, p);
    lemma_hit_unless_alive(other_order, other_iou, threshold, p);
    if hit(order, iou, threshold, p, p) {
        let q = choose|q: int|
            0 <= q < p && survives(order, iou, threshold, q) && overlaps(
                iou,
                threshold,
                #[trigger] order[q] as int,
                order[p] as int,
            );
        assert(overlaps(other_iou, threshold, other_order[q] as int, other_order[p] as int));
    }
    if hit(other_order, other_iou, threshold, p, p) {
        let q = choose|q: int|
            0 <= q < p && survives(other_order, other_iou, threshold, q) && overlaps(
                other_iou,
                threshold,
                #[trigger] other_order[q] as int,
                other_order[p] as int,
            );
        assert(overlaps(iou, threshold, order[q] as int, order[p] as int));
    }
}

proof fn lemma_select_all(wanted: spec_fn(int) -> bool, count: int)
    requires
        count >= 0,
        forall|i: int| 0 <= i < count ==> #[trigger] wanted(i),
    ensures
        selected(wanted, count) == Seq::new(count as nat, |i: int| i),
    decreases count,
{
    if count > 0 {
        lemma_select_all(wanted, count - 1);
        assert(selected(wanted, count) =~= Seq::new(count as nat, |i: int| i));
    } else {
        assert(selected(wanted, count) =~= Seq::new(count as nat, |i: int| i));
    }
}

/// A place lies in the part that two boxes share exactly if it lies in both of them.
pub proof fn law_shared_part_is_common(a: Edges, b: Edges, x: Single, y: Single)
    requires
        is_numeric(a),
        is_numeric(b),
        !x.nan(),
        !y.nan(),
    ensures
        shared_part(a, b).left.le(x) && x.le(shared_part(a, b).right) <==> a.left.le(x) && x.le(
            a.right,
        ) && b.left.le(x) && x.le(b.right),
        shared_part(a, b).top.le(y) && y.le(shared_part(a, b).bottom) <==> a.top.le(y) && y.le(
            a.bottom,
        ) && b.top.le(y) && y.le(b.bottom),
        is_empty(shared_part(a, b)) <==> !(shared_part(a, b).left.lt(shared_part(a, b).right)
            && shared_part(a, b).top.lt(shared_part(a, b).bottom)),
{
}

/// Boxes that do not reach over one another share nothing, and boxes that do share something.
pub proof fn law_boxes_meet(a: Edges, b: Edges)
    requires
        is_numeric(a),
        is_numeric(b),
    ensures
        a.right.le(b.left) || b.right.le(a.left) || a.bottom.le(b.top) || b.bottom.le(a.top)
            ==> is_empty(shared_part(a, b)),
        is_empty(shared_part(a, b)) ==> a.right.le(b.left) || b.right.le(a.left) || a.bottom.le(
            b.top,
        ) || b.bottom.le(a.top) || a.right.le(a.left) || b.right.le(b.left) || a.bottom.le(a.top)
            || b.bottom.le(b.top),
{
}

/// Whether box `a` comes before box `b`: the network is surer of it, or as sure and it was found
/// earlier.
pub open spec fn surer(boxes: Seq<FaceBox>, a: int, b: int) -> bool {
    ||| boxes[a].confidence.total_rank() > boxes[b].confidence.total_rank()
    ||| boxes[a].confidence.total_rank() == boxes[b].confidence.total_rank() && a < b
}

/// What is kept comes surest first: no later box has the larger confidence.
pub proof fn law_kept_surest_first(
    boxes: Seq<FaceBox>,
    iou: Seq<Vec<Single>>,
    threshold: Single,
    c: int,
    d: int,
)
    requires
        boxes.len() <= usize::MAX,
        0 <= c < d < kept_places(boxes, iou, threshold).len(),
    ensures
        kept_places(boxes, iou, threshold)[c] < boxes.len(),
        kept_places(boxes, iou, threshold)[d] < boxes.len(),
        surer(
            boxes,
            kept_places(boxes, iou, threshold)[c] as int,
            kept_places(boxes, iou, threshold)[d] as int,
        ),
        !boxes[kept_places(boxes, iou, threshold)[c] as int].confidence.nan()
            ==> !boxes[kept_places(boxes, iou, threshold)[c] as int].confidence.lt(
            boxes[kept_places(boxes, iou, threshold)[d] as int].confidence,
        ),
{
    law_kept_by_confidence(boxes, iou, threshold);
    let places = kept_places(boxes, iou, threshold);
    assert(places[c] < boxes.len() && places[d] < boxes.len());
    assert(ranks_before(confidence_keys(boxes), places[c] as int, places[d] as int));
}

/// Of two boxes that are kept, the overlap of the surer one with the other is not above the
/// threshold.
pub proof fn law_kept_overlap_within_threshold(
    boxes: Seq<FaceBox>,
    iou: Seq<Vec<Single>>,
    threshold: Single,
    c: int,
    d: int,
)
    requires
        boxes.len() <= usize::MAX,
        0 <= c < d < kept_places(boxes, iou, threshold).len(),
    ensures
        !threshold.lt(
            iou[kept_places(boxes, iou, threshold)[c] as int]@[kept_places(
                boxes,
                iou,
                threshold,
            )[d] as int],
        ),
{
    law_kept_boxes_apart(boxes, iou, threshold, c, d);
}

/// A box is kept exactly if its overlap with no surer box that is kept is above the threshold.
pub proof fn law_box_kept_unless_covered(
    boxes: Seq<FaceBox>,
    iou: Seq<Vec<Single>>,
    threshold: Single,
    i: int,
)
    requires
        0 <= i < boxes.len() <= usize::MAX,
    ensures
        kept_places(boxes, iou, threshold).contains(i as usize) <==> forall|c: int|
            0 <= c < kept_places(boxes, iou, threshold).len() && surer(
                boxes,
                #[trigger] kept_places(boxes, iou, threshold)[c] as int,
                i,
            ) ==> !threshold.lt(iou[kept_places(boxes, iou, threshold)[c] as int]@[i]),
{
    let places = kept_places(boxes, iou, threshold);
    law_kept_by_confidence(boxes, iou, threshold);
    if places.contains(i as usize) {
        let d = choose|d: int| 0 <= d < places.len() && places[d] == i as usize;
        assert forall|c: int|
            0 <= c < places.len() && surer(boxes, #[trigger] places[c] as int, i) implies !threshold.lt(
            iou[places[c] as int]@[i],
        ) by {
            assert(places[c] < boxes.len());
            if c < d {
                law_kept_overlap_within_threshold(boxes, iou, threshold, c, d);
            } else if c > d {
                law_kept_surest_first(boxes, iou, threshold, d, c);
            }
        }
    } else {
        law_dropped_box_covered(boxes, iou, threshold, i);
        let c = choose|c: int|
            0 <= c < places.len() && ranks_before(
                confidence_keys(boxes),
                #[trigger] places[c] as int,
                i,
            ) && overlaps(iou, threshold, places[c] as int, i);
        assert(places[c] < boxes.len());
        assert(surer(boxes, places[c] as int, i));
        assert(threshold.lt(iou[places[c] as int]@[i]));
    }
}

/// More overlap does not bring a box back: where box `i` is dropped, it stays dropped when the
/// overlaps of other boxes with it grow and nothing else changes.
pub proof fn law_more_overlap_keeps_dropped(
    boxes: Seq<FaceBox>,
    iou: Seq<Vec<Single>>,
    more: Seq<Vec<Single>>,
    threshold: Single,
    i: int,
)
    requires
        0 <= i < boxes.len() <= usize::MAX,
        forall|a: int, b: int|
            0 <= a < boxes.len() && 0 <= b < boxes.len() && b != i ==> #[trigger] more[a]@[b]
                == iou[a]@[b],
        forall|a: int| 0 <= a < boxes.len() ==> iou[a]@[i].le(#[trigger] more[a]@[i]),
        !kept_places(boxes, iou, threshold).contains(i as usize),
    ensures
        !kept_places(boxes, more, threshold).contains(i as usize),
{
    let keys = confidence_keys(boxes);
    lemma_ranking_exists(keys);
    let order = ranking(keys);
    let n = order.len() as int;
    let alive = |p: int| survives(order, iou, threshold, p);
    let alive_more = |p: int| survives(order, more, threshold, p);
    law_selection_exact(alive, n);
    law_selection_exact(alive_more, n);
    let chosen = survivors(order, iou, threshold);
    let chosen_more = survivors(order, more, threshold);
    assert(order.contains(i as usize));
    let p = choose|p: int| 0 <= p < n && order[p] == i as usize;
    assert(!alive(p)) by {
        if alive(p) {
            assert(chosen.contains(p));
            let c = choose|c: int| 0 <= c < chosen.len() && chosen[c] == p;
            assert(kept_places(boxes, iou, threshold)[c] == i as usize);
        }
    }
    lemma_hit_unless_alive(order, iou, threshold, p);
    let q = choose|q: int|
        0 <= q < p && survives(order, iou, threshold, q) && overlaps(
            iou,
            threshold,
            #[trigger] order[q] as int,
            order[p] as int,
        );
    assert forall|r: int| 0 <= r < p implies order[r] != i as usize by {
        assert(order[r] != order[p]);
    }
    lemma_survival_agrees(order, iou, more, threshold, i, q);
    assert(iou[order[q] as int]@[i].le(more[order[q] as int]@[i]));
    assert(overlaps(more, threshold, order[q] as int, order[p] as int));
    assert(!survives(order, more, threshold, p));
    if kept_places(boxes, more, threshold).contains(i as usize) {
        let places = kept_places(boxes, more, threshold);
        let c = choose|c: int| 0 <= c < places.len() && places[c] == i as usize;
        assert(alive_more(chosen_more[c]));
        assert(order[chosen_more[c]] == i as usize);
        assert(chosen_more[c] == p);
    }
}

/// Whether a place of a ranking is kept depends only on overlaps with the boxes up to it.
proof fn lemma_survival_agrees(
    order: Seq<usize>,
    iou: Seq<Vec<Single>>,
    more: Seq<Vec<Single>>,
    threshold: Single,
    i: int,
    p: int,
)
    requires
        0 <= p < order.len(),
        forall|r: int| 0 <= r < order.len() ==> #[trigger] order[r] < order.len(),
        forall|r: int| 0 <= r <= p ==> #[trigger] order[r] != i,
        forall|a: int, b: int|
            0 <= a < order.len() && 0 <= b < order.len() && b != i ==> #[trigger] more[a]@[b]
                == iou[a]@[b],
    ensures
        survives(order, iou, threshold, p) == survives(order, more, threshold, p),
    decreases p,
{
    assert forall|q: int| 0 <= q < p implies survives(order, iou, threshold, q) == survives(
        order,
        more,
        threshold,
        q,
    ) && overlaps(iou, threshold, #[trigger] order[q] as int, order[p] as int) == overlaps(
        more,
        threshold,
        order[q] as int,
        order[p] as int,
    ) by {
        lemma_survival_agrees(order, iou, more, threshold, i, q);
        assert(more[order[q] as int]@[order[p] as int] == iou[order[q] as int]@[order[p] as int]);
    }
    lemma_hit_unless_alive(order, iou, threshold, p);
    lemma_hit_unless_alive(order, more, threshold, p);
    if hit(order, iou, threshold, p, p) {
        let q = choose|q: int|
            0 <= q < p && survives(order, iou, threshold, q) && overlaps(
                iou,
                threshold,
                #[trigger] order[q] as int,
                order[p] as int,
            );
        assert(overlaps(more, threshold, order[q] as int, order[p] as int));
    }
    if hit(order, more, threshold, p, p) {
        let q = choose|q: int|
            0 <= q < p && survives(order, more, threshold, q) && overlaps(
                more,
                threshold,
                #[trigger] order[q] as int,
                order[p] as int,
            );
        assert(overlaps(iou, threshold, order[q] as int, order[p] as int));
    }
}

/// The part that two boxes share begins where the later of them begins and ends where the earlier
/// ends; an edge that is not a number does not count. It is empty where it ends at its beginning or
/// before.
pub proof fn law_shared_part_by_edges(a: Edges, b: Edges)
    ensures
        shared_part(a, b).left == a.left.greater_of(b.left),
        shared_part(a, b).top == a.top.greater_of(b.top),
        shared_part(a, b).right == a.right.lesser_of(b.right),
        shared_part(a, b).bottom == a.bottom.lesser_of(b.bottom),
        is_empty(a) <==> a.right.le(a.left) || a.bottom.le(a.top),
{
}

/// A ranking has every item once, those with larger keys first and those with equal keys in their
/// own order.
pub proof fn law_ranking_by_key(order: Seq<usize>, keys: Seq<i64>, p: int, q: int, i: int)
    requires
        is_ranking(order, keys),
        0 <= p < q < order.len(),
        0 <= i < keys.len(),
    ensures
        order.len() == keys.len(),
        order[p] < keys.len() && order[q] < keys.len(),
        keys[order[p] as int] >= keys[order[q] as int],
        keys[order[p] as int] == keys[order[q] as int] ==> order[p] < order[q],
        order.contains(i as usize),
{
    assert(ranks_before(keys, order[p] as int, order[q] as int));
}

} // verus!
