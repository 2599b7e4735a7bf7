//! From matched characters to the boxes that mark them on a page.
use vstd::arithmetic::power2::*;
use vstd::prelude::*;

use crate::models::{BBox, CharCoordinate, SpatialIndex};
use crate::rounding::{lemma_nearest_at_most, lemma_nearest_exists};
use crate::single::{nearest, Single};

verus! {

/// The encoding of 3: how many points the bottoms of characters on one line may drift apart.
pub const LINE_TOLERANCE_BITS: u32 = 0x4040_0000;

/// The characters stand on one line: their bottoms are less than three points apart.
pub open spec fn same_line(a: BBox, b: BBox) -> bool {
    a.bottom.nearer_than(b.bottom, Single { bits: LINE_TOLERANCE_BITS })
}

/// The smallest box around two boxes.
pub open spec fn hull(a: BBox, b: BBox) -> BBox {
    BBox {
        left: a.left.lower(b.left),
        bottom: a.bottom.lower(b.bottom),
        right: a.right.higher(b.right),
        top: a.top.higher(b.top),
    }
}

/// Boxes in the making: the page that was reached, the boxes that are complete, and the box that
/// may still grow.
pub struct Grouping {
    pub page: usize,
    pub complete: Seq<BBox>,
    pub growing: Option<BBox>,
}

/// Adds a character: the box that may still grow is drawn around it too if it stands on the same
/// line of the same page, else a new box is begun.
pub open spec fn take_mark(g: Grouping, coord: CharCoordinate) -> Grouping {
    match g.growing {
        None => Grouping { page: coord.page_number, growing: Some(coord.bounds), ..g },
        Some(b) => if g.page == coord.page_number && same_line(b, coord.bounds) {
            Grouping { growing: Some(hull(b, coord.bounds)), ..g }
        } else {
            Grouping {
                page: coord.page_number,
                complete: g.complete.push(b),
                growing: Some(coord.bounds),
            }
        },
    }
}

/// Adds the characters with the first `n` indices. Indices without a location are passed over.
pub open spec fn take_marks(indices: Seq<u32>, coords: Seq<CharCoordinate>, n: nat) -> Grouping
    decreases n,
{
    if n == 0 {
        Grouping { page: 1, complete: Seq::empty(), growing: None }
    } else {
        let g = take_marks(indices, coords, (n - 1) as nat);
        let idx = indices[n - 1];
        if idx < coords.len() {
            take_mark(g, coords[idx as int])
        } else {
            g
        }
    }
}

/// All boxes of a grouping.
pub open spec fn boxes_of(g: Grouping) -> Seq<BBox> {
    match g.growing {
        None => g.complete,
        Some(b) => g.complete.push(b),
    }
}

/// The boxes around the marked characters.
pub open spec fn marked_boxes(indices: Seq<u32>, coords: Seq<CharCoordinate>) -> Seq<BBox> {
    boxes_of(take_marks(indices, coords, indices.len()))
}

/// The page of the last marked character that has a location, or the first page.
pub open spec fn marked_page(indices: Seq<u32>, coords: Seq<CharCoordinate>) -> usize {
    take_marks(indices, coords, indices.len()).page
}

/// Resolves raw character indices into grouped physical bounding boxes.
pub fn resolve_spatial_highlights(matched_indices: &[u32], spatial_index: &SpatialIndex) -> (r: (
    usize,
    Vec<BBox>,
))
    ensures
        r.0 == marked_page(matched_indices@, spatial_index.char_mappings@),
        r.1@ == marked_boxes(matched_indices@, spatial_index.char_mappings@),
{
    let coords = &spatial_index.char_mappings;
    let mut target_page: usize = 1;
    let mut grouped_boxes: Vec<BBox> = Vec::new();
    let mut current_box: Option<BBox> = None;
    let tolerance = Single { bits: LINE_TOLERANCE_BITS };
    let mut i: usize = 0;
    while i < matched_indices.len()
        invariant
            i <= matched_indices@.len(),
            tolerance.bits == LINE_TOLERANCE_BITS,
            coords@ == spatial_index.char_mappings@,
            (Grouping { page: target_page, complete: grouped_boxes@, growing: current_box })
                == take_marks(matched_indices@, coords@, i as nat),
        decreases matched_indices.len() - i,
    {
        let idx = matched_indices[i] as usize;
        if idx < coords.len() {
            let coord = coords[idx];
            match current_box {
                None => {
                    current_box = Some(coord.bounds);
                    target_page = coord.page_number;
                },
                Some(b) => {
                    if target_page == coord.page_number && b.bottom.within(
                        coord.bounds.bottom,
                        tolerance,
                    ) {
                        current_box = Some(
                            BBox {
                                left: b.left.lower_of(coord.bounds.left),
                                bottom: b.bottom.lower_of(coord.bounds.bottom),
                                right: b.right.higher_of(coord.bounds.right),
                                top: b.top.higher_of(coord.bounds.top),
                            },
                        );
                    } else {
                        grouped_boxes.push(b);
                        current_box = Some(coord.bounds);
                        target_page = coord.page_number;
                    }
                },
            }
        }
        i = i + 1;
    }
    if let Some(b) = current_box {
        grouped_boxes.push(b);
    }
    (target_page, grouped_boxes)
}

/// The box has numbers for all its sides.
pub open spec fn measured(b: BBox) -> bool {
    b.left.is_number() && b.bottom.is_number() && b.right.is_number() && b.top.is_number()
}

/// `outer` reaches as far as `inner` on all sides.
pub open spec fn surrounds(outer: BBox, inner: BBox) -> bool {
    &&& outer.left.place() <= inner.left.place()
    &&& outer.bottom.place() <= inner.bottom.place()
    &&& outer.right.place() >= inner.right.place()
    &&& outer.top.place() >= inner.top.place()
}

/// One of the boxes surrounds `inner`.
pub open spec fn surrounded(boxes: Seq<BBox>, inner: BBox) -> bool {
    exists|j: int| 0 <= j < boxes.len() && surrounds(#[trigger] boxes[j], inner)
}

proof fn lemma_marks(indices: Seq<u32>, coords: Seq<CharCoordinate>, n: nat, i: int)
    requires
        0 <= i < n <= indices.len(),
        indices[i] < coords.len(),
        forall|j: int| 0 <= j < coords.len() ==> measured(#[trigger] coords[j].bounds),
    ensures
        surrounded(
            boxes_of(take_marks(indices, coords, n)),
            coords[indices[i] as int].bounds,
        ),
    decreases n,
{
    let g = take_marks(indices, coords, (n - 1) as nat);
    let next = take_marks(indices, coords, n);
    let inner = coords[indices[i] as int].bounds;
    lemma_measured(indices, coords, (n - 1) as nat);
    if i < n - 1 {
        lemma_marks(indices, coords, (n - 1) as nat, i);
        let old = boxes_of(g);
        let new = boxes_of(next);
        let j = choose|j: int| 0 <= j < old.len() && surrounds(#[trigger] old[j], inner);
        if indices[n - 1] < coords.len() {
            assert(surrounds(new[j], inner));
        }
    } else {
        let new = boxes_of(next);
        assert(surrounds(new[new.len() - 1], inner));
    }
}

proof fn lemma_measured(indices: Seq<u32>, coords: Seq<CharCoordinate>, n: nat)
    requires
        n <= indices.len(),
        forall|j: int| 0 <= j < coords.len() ==> measured(#[trigger] coords[j].bounds),
    ensures
        take_marks(indices, coords, n).growing matches Some(b) ==> measured(b),
    decreases n,
{
    if n > 0 {
        lemma_measured(indices, coords, (n - 1) as nat);
    }
}

/// Every matched character that has a location lies inside one of the boxes.
pub proof fn law_matched_characters_are_boxed(
    indices: Seq<u32>,
    coords: Seq<CharCoordinate>,
    i: int,
)
    requires
        0 <= i < indices.len(),
        indices[i] < coords.len(),
        forall|j: int| 0 <= j < coords.len() ==> measured(#[trigger] coords[j].bounds),
    ensures
        surrounded(marked_boxes(indices, coords), coords[indices[i] as int].bounds),
{
    lemma_marks(indices, coords, indices.len(), i);
}

proof fn lemma_page(indices: Seq<u32>, coords: Seq<CharCoordinate>, n: nat, last: int)
    requires
        0 <= last < n <= indices.len(),
        indices[last] < coords.len(),
        forall|i: int| last < i < n ==> #[trigger] indices[i] >= coords.len(),
    ensures
        take_marks(indices, coords, n).page == coords[indices[last] as int].page_number,
    decreases n,
{
    if last < n - 1 {
        lemma_page(indices, coords, (n - 1) as nat, last);
    }
}

/// The page to be shown is the one that holds the last matched character that has a location.
pub proof fn law_page_holds_last_mark(indices: Seq<u32>, coords: Seq<CharCoordinate>, last: int)
    requires
        0 <= last < indices.len(),
        indices[last] < coords.len(),
        forall|i: int| last < i < indices.len() ==> #[trigger] indices[i] >= coords.len(),
    ensures
        marked_page(indices, coords) == coords[indices[last] as int].page_number,
{
    lemma_page(indices, coords, indices.len(), last);
}

proof fn lemma_no_marks(indices: Seq<u32>, coords: Seq<CharCoordinate>, n: nat)
    requires
        n <= indices.len(),
        forall|i: int| 0 <= i < n ==> #[trigger] indices[i] >= coords.len(),
    ensures
        take_marks(indices, coords, n) == (Grouping {
            page: 1,
            complete: Seq::empty(),
            growing: None,
        }),
    decreases n,
{
    if n > 0 {
        lemma_no_marks(indices, coords, (n - 1) as nat);
    }
}

/// Where no matched character has a location, nothing is marked and the first page is shown.
pub proof fn law_nothing_located_nothing_marked(indices: Seq<u32>, coords: Seq<CharCoordinate>)
    requires
        forall|i: int| 0 <= i < indices.len() ==> #[trigger] indices[i] >= coords.len(),
    ensures
        marked_page(indices, coords) == 1,
        marked_boxes(indices, coords).len() == 0,
{
    lemma_no_marks(indices, coords, indices.len());
}

/// Where all matched characters have locations, and there are any, there are boxes.
pub proof fn lemma_located_is_boxed(indices: Seq<u32>, coords: Seq<CharCoordinate>, n: nat)
    requires
        0 < n <= indices.len(),
        indices[n - 1] < coords.len(),
    ensures
        boxes_of(take_marks(indices, coords, n)).len() > 0,
{
}

/// The page of a match lies in a range of pages that has the first page and those of all locations
/// in it.
pub proof fn lemma_page_range(indices: Seq<u32>, coords: Seq<CharCoordinate>, n: nat, last: int)
    requires
        last >= 1,
        n <= indices.len(),
        forall|i: int|
            0 <= i < coords.len() ==> 1 <= (#[trigger] coords[i]).page_number <= last,
    ensures
        1 <= take_marks(indices, coords, n).page <= last,
    decreases n,
{
    if n > 0 {
        lemma_page_range(indices, coords, (n - 1) as nat, last);
    }
}

/// The locations of the marked characters that have one.
pub open spec fn located(indices: Seq<u32>, coords: Seq<CharCoordinate>) -> Seq<CharCoordinate> {
    indices.filter(|idx: u32| idx < coords.len()).map_values(|idx: u32| coords[idx as int])
}

/// The smallest box around the characters of a run.
pub open spec fn bounding(run: Seq<CharCoordinate>) -> BBox
    decreases run.len(),
{
    if run.len() <= 1 {
        run[0].bounds
    } else {
        hull(bounding(run.drop_last()), run.last().bounds)
    }
}

/// The character goes on with the run: it is on the same page, and its bottom has not drifted from
/// that of the run.
pub open spec fn continues(run: Seq<CharCoordinate>, next: CharCoordinate) -> bool {
    run.last().page_number == next.page_number && same_line(bounding(run), next.bounds)
}

/// The characters are a run: there are some, they are on one page, and each goes on with those in
/// front of it.
pub open spec fn is_run(run: Seq<CharCoordinate>) -> bool {
    &&& run.len() > 0
    &&& forall|k: int| 0 <= k < run.len() ==> (#[trigger] run[k]).page_number == run[0].page_number
    &&& forall|k: int| 0 < k < run.len() ==> continues(run.take(k), #[trigger] run[k])
}

/// The characters between two neighbouring cuts.
pub open spec fn run_of(marks: Seq<CharCoordinate>, cuts: Seq<int>, j: int) -> Seq<CharCoordinate> {
    marks.subrange(cuts[j], cuts[j + 1])
}

/// The box at `j` is that around the run between the cuts at `j` and `j + 1`, and the run is as
/// long as it can be: the next character does not go on with it.
pub open spec fn box_of_run(
    marks: Seq<CharCoordinate>,
    cuts: Seq<int>,
    boxes: Seq<BBox>,
    j: int,
) -> bool {
    &&& 0 <= cuts[j] < cuts[j + 1] <= marks.len()
    &&& is_run(run_of(marks, cuts, j))
    &&& boxes[j] == bounding(run_of(marks, cuts, j))
    &&& j + 1 < boxes.len() ==> !continues(run_of(marks, cuts, j), marks[cuts[j + 1]])
}

/// The cuts divide the characters into runs that follow each other, and the boxes are those around
/// the runs.
pub open spec fn cut_into_runs(
    marks: Seq<CharCoordinate>,
    cuts: Seq<int>,
    boxes: Seq<BBox>,
) -> bool {
    &&& cuts.len() == boxes.len() + 1
    &&& cuts[0] == 0
    &&& cuts.last() == marks.len()
    &&& forall|j: int| 0 <= j < boxes.len() ==> #[trigger] box_of_run(marks, cuts, boxes, j)
}

proof fn lemma_longer_run(run: Seq<CharCoordinate>, next: CharCoordinate)
    requires
        is_run(run),
        continues(run, next),
    ensures
        is_run(run.push(next)),
        bounding(run.push(next)) == hull(bounding(run), next.bounds),
{
    let longer = run.push(next);
    assert(longer.drop_last() == run);
    assert forall|k: int| 0 < k < longer.len() implies continues(
        longer.take(k),
        #[trigger] longer[k],
    ) by {
        if k < run.len() {
            assert(longer.take(k) == run.take(k));
            assert(continues(run.take(k), run[k]));
        } else {
            assert(longer.take(k) == run);
        }
    }
}

proof fn lemma_located(indices: Seq<u32>, coords: Seq<CharCoordinate>, n: int)
    requires
        0 < n <= indices.len(),
    ensures
        located(indices.take(n), coords) == if indices[n - 1] < coords.len() {
            located(indices.take(n - 1), coords).push(coords[indices[n - 1] as int])
        } else {
            located(indices.take(n - 1), coords)
        },
{
    reveal(Seq::filter);
    assert(indices.take(n).drop_last() == indices.take(n - 1));
}

/// The cuts between the runs of the first `n` marked characters.
proof fn lemma_runs(indices: Seq<u32>, coords: Seq<CharCoordinate>, n: nat) -> (cuts: Seq<int>)
    requires
        n <= indices.len(),
    ensures
        ({
            let g = take_marks(indices, coords, n);
            let marks = located(indices.take(n as int), coords);
            &&& cut_into_runs(marks, cuts, boxes_of(g))
            &&& g.growing is None <==> marks.len() == 0
            &&& g.growing is None ==> g.complete.len() == 0
            &&& marks.len() > 0 ==> g.page == marks.last().page_number
        }),
    decreases n,
{
    if n == 0 {
        reveal(Seq::filter);
        seq![0int]
    } else {
        let cuts = lemma_runs(indices, coords, (n - 1) as nat);
        let g = take_marks(indices, coords, (n - 1) as nat);
        let marks = located(indices.take(n - 1), coords);
        let boxes = boxes_of(g);
        lemma_located(indices, coords, n as int);
        if indices[n - 1] >= coords.len() {
            cuts
        } else {
            let coord = coords[indices[n - 1] as int];
            let next = take_marks(indices, coords, n);
            let longer = marks.push(coord);
            let last = boxes.len() - 1;
            if g.growing is None {
                let r = seq![0int, 1];
                assert(run_of(longer, r, 0) == longer);
                r
            } else if g.page == coord.page_number && same_line(g.growing->0, coord.bounds) {
                let run = run_of(marks, cuts, last);
                let r = cuts.update(boxes.len() as int, longer.len() as int);
                let grown = boxes_of(next);
                assert(box_of_run(marks, cuts, boxes, last));
                assert(boxes[last] == g.growing->0);
                lemma_longer_run(run, coord);
                assert forall|j: int| 0 <= j < grown.len() implies #[trigger] box_of_run(
                    longer,
                    r,
                    grown,
                    j,
                ) by {
                    assert(box_of_run(marks, cuts, boxes, j));
                    if j == last {
                        assert(run_of(longer, r, last) == run.push(coord));
                    } else {
                        assert(box_of_run(marks, cuts, boxes, j + 1));
                        assert(run_of(longer, r, j) == run_of(marks, cuts, j));
                        assert(longer[r[j + 1]] == marks[cuts[j + 1]]);
                    }
                }
                r
            } else {
                let r = cuts.push(longer.len() as int);
                let grown = boxes_of(next);
                assert(box_of_run(marks, cuts, boxes, last));
                assert(boxes[last] == g.growing->0);
                assert forall|j: int| 0 <= j < grown.len() implies #[trigger] box_of_run(
                    longer,
                    r,
                    grown,
                    j,
                ) by {
                    if j <= last {
                        assert(box_of_run(marks, cuts, boxes, j));
                        assert(run_of(longer, r, j) == run_of(marks, cuts, j));
                        if j < last {
                            assert(box_of_run(marks, cuts, boxes, j + 1));
                            assert(longer[r[j + 1]] == marks[cuts[j + 1]]);
                        }
                    } else {
                        assert(run_of(longer, r, j) == seq![coord]);
                    }
                }
                r
            }
        }
    }
}

/// The marked characters that have a location fall into runs that follow each other, each on one
/// page, and the boxes are those around the runs. A run ends where the page changes or where the
/// bottom of a character has drifted by three points.
pub proof fn law_boxes_are_those_of_runs(indices: Seq<u32>, coords: Seq<CharCoordinate>)
    ensures
        exists|cuts: Seq<int>|
            cut_into_runs(located(indices, coords), cuts, marked_boxes(indices, coords)),
{
    let cuts = lemma_runs(indices, coords, indices.len());
    assert(indices.take(indices.len() as int) == indices);
    assert(cut_into_runs(located(indices, coords), cuts, marked_boxes(indices, coords)));
}

/// Of two runs that begin at the same character neither ends before the other.
proof fn lemma_run_is_full(
    marks: Seq<CharCoordinate>,
    cuts: Seq<int>,
    boxes: Seq<BBox>,
    cuts2: Seq<int>,
    boxes2: Seq<BBox>,
    j: int,
)
    requires
        box_of_run(marks, cuts, boxes, j),
        box_of_run(marks, cuts2, boxes2, j),
        cuts[j] == cuts2[j],
        j + 1 < boxes.len() || cuts[j + 1] == marks.len(),
    ensures
        cuts[j + 1] >= cuts2[j + 1],
{
    let run = run_of(marks, cuts, j);
    let run2 = run_of(marks, cuts2, j);
    let n = run.len() as int;
    if cuts[j + 1] < cuts2[j + 1] {
        assert(run2.take(n) == run);
        assert(run2[n] == marks[cuts[j + 1]]);
        assert(continues(run2.take(n), run2[n]));
    }
}

/// A cut is where it has to be: two divisions into runs agree up to any cut.
proof fn lemma_same_cuts(
    marks: Seq<CharCoordinate>,
    cuts: Seq<int>,
    boxes: Seq<BBox>,
    cuts2: Seq<int>,
    boxes2: Seq<BBox>,
    j: int,
)
    requires
        cut_into_runs(marks, cuts, boxes),
        cut_into_runs(marks, cuts2, boxes2),
        0 <= j <= boxes.len(),
        j <= boxes2.len(),
    ensures
        cuts[j] == cuts2[j],
    decreases j,
{
    if j > 0 {
        lemma_same_cuts(marks, cuts, boxes, cuts2, boxes2, j - 1);
        assert(box_of_run(marks, cuts, boxes, j - 1));
        assert(box_of_run(marks, cuts2, boxes2, j - 1));
        lemma_run_is_full(marks, cuts, boxes, cuts2, boxes2, j - 1);
        lemma_run_is_full(marks, cuts2, boxes2, cuts, boxes, j - 1);
    }
}

/// There is only one way to divide characters into runs, so that the runs tell the boxes.
pub proof fn law_runs_tell_the_boxes(
    marks: Seq<CharCoordinate>,
    cuts: Seq<int>,
    boxes: Seq<BBox>,
    cuts2: Seq<int>,
    boxes2: Seq<BBox>,
)
    requires
        cut_into_runs(marks, cuts, boxes),
        cut_into_runs(marks, cuts2, boxes2),
    ensures
        cuts == cuts2,
        boxes == boxes2,
{
    let n = boxes.len() as int;
    let n2 = boxes2.len() as int;
    if n < n2 {
        lemma_same_cuts(marks, cuts, boxes, cuts2, boxes2, n);
        assert(box_of_run(marks, cuts2, boxes2, n));
    } else if n2 < n {
        lemma_same_cuts(marks, cuts, boxes, cuts2, boxes2, n2);
        assert(box_of_run(marks, cuts, boxes, n2));
    }
    assert forall|j: int| 0 <= j < cuts.len() implies cuts[j] == cuts2[j] by {
        lemma_same_cuts(marks, cuts, boxes, cuts2, boxes2, j);
    }
    assert forall|j: int| 0 <= j < n implies boxes[j] == boxes2[j] by {
        assert(box_of_run(marks, cuts, boxes, j));
        assert(box_of_run(marks, cuts2, boxes2, j));
        assert(cuts == cuts2);
    }
}

/// One of the characters reaches as far as the box to the left, one to the bottom, one to the
/// right and one to the top.
pub open spec fn touched(b: BBox, run: Seq<CharCoordinate>) -> bool {
    &&& exists|k: int| 0 <= k < run.len() && (#[trigger] run[k]).bounds.left == b.left
    &&& exists|k: int| 0 <= k < run.len() && (#[trigger] run[k]).bounds.bottom == b.bottom
    &&& exists|k: int| 0 <= k < run.len() && (#[trigger] run[k]).bounds.right == b.right
    &&& exists|k: int| 0 <= k < run.len() && (#[trigger] run[k]).bounds.top == b.top
}

/// The box around a run is as small as can be: it surrounds every character, and every side
/// touches one.
pub proof fn law_box_of_a_run_is_tight(run: Seq<CharCoordinate>)
    requires
        run.len() > 0,
        forall|k: int| 0 <= k < run.len() ==> measured((#[trigger] run[k]).bounds),
    ensures
        measured(bounding(run)),
        forall|k: int|
            0 <= k < run.len() ==> surrounds(bounding(run), (#[trigger] run[k]).bounds),
        touched(bounding(run), run),
    decreases run.len(),
{
    if run.len() > 1 {
        let rest = run.drop_last();
        let b = bounding(rest);
        assert forall|k: int| 0 <= k < rest.len() implies measured(
            (#[trigger] rest[k]).bounds,
        ) by {
            assert(measured(run[k].bounds));
        }
        law_box_of_a_run_is_tight(rest);
        assert(measured(run[run.len() - 1].bounds));
        let l = choose|k: int| 0 <= k < rest.len() && (#[trigger] rest[k]).bounds.left == b.left;
        let m = choose|k: int|
            0 <= k < rest.len() && (#[trigger] rest[k]).bounds.bottom == b.bottom;
        let r = choose|k: int| 0 <= k < rest.len() && (#[trigger] rest[k]).bounds.right == b.right;
        let t = choose|k: int| 0 <= k < rest.len() && (#[trigger] rest[k]).bounds.top == b.top;
        assert(run[l].bounds.left == b.left);
        assert(run[m].bounds.bottom == b.bottom);
        assert(run[r].bounds.right == b.right);
        assert(run[t].bounds.top == b.top);
        assert forall|k: int| 0 <= k < run.len() implies surrounds(
            bounding(run),
            (#[trigger] run[k]).bounds,
        ) by {
            if k < rest.len() {
                assert(surrounds(b, rest[k].bounds));
            }
        }
    } else {
        assert(run[0].bounds == bounding(run));
    }
}

proof fn lemma_first_marks(indices: Seq<u32>, coords: Seq<CharCoordinate>, k: u32, n: nat)
    requires
        n <= indices.len(),
    ensures
        take_marks(indices.push(k), coords, n) == take_marks(indices, coords, n),
    decreases n,
{
    if n > 0 {
        lemma_first_marks(indices, coords, k, (n - 1) as nat);
    }
}

/// Three points, and what is visibly less.
proof fn lemma_line_tolerance(a: Single, b: Single)
    requires
        a.is_finite(),
        b.is_finite(),
    ensures
        a.distance(b) >= 3 * pow2(149) ==> !a.nearer_than(b, Single { bits: LINE_TOLERANCE_BITS }),
        1000 * a.distance(b) <= 2999 * pow2(149) ==> a.nearer_than(
            b,
            Single { bits: LINE_TOLERANCE_BITS },
        ),
{
    let limit = Single { bits: LINE_TOLERANCE_BITS };
    let below = Single { bits: 0x403F_FFFF };
    let u = pow2(127) as int;
    lemma2_to64();
    lemma_pow2_pos(127);
    lemma_pow2_adds(22, 127);
    assert(limit.significand() == 0xC0_0000 && limit.exponent() == 127);
    assert(below.significand() == 0xBF_FFFF && below.exponent() == 127);
    assert(limit.scaled() == 0xC0_0000 * u);
    assert(below.scaled() == 0xBF_FFFF * u);
    assert(pow2(149) == 0x40_0000 * u);
    let d = a.distance(b);
    if 1000 * d <= 2999 * pow2(149) {
        lemma_pow2_adds(127, 149);
        lemma_pow2_pos(149);
        lemma_pow2_strictly_increases(25, 149);
        lemma_pow2_unfold(25);
        assert(0x100_0000 * u < u * pow2(149)) by (nonlinear_arith)
            requires
                u > 0,
                pow2(149) > 0x100_0000,
        ;
        assert(d < 1 * pow2(276));
        lemma_nearest_exists(d, 1, 252);
        lemma_nearest_at_most(nearest(d, 1), d, 1, below);
    }
}

/// One more marked character with a location: where it is on another page than the one before, or
/// its bottom is three points or more away from that of the last box, it begins a box of its own,
/// and the other boxes stay what they are. Where it is on the same page and its bottom is near, the
/// last box grows around it, by no more than that, and the other boxes stay what they are. Without
/// a location it changes nothing; the first one begins a box.
pub proof fn law_mark_extends_the_boxes(
    indices: Seq<u32>,
    coords: Seq<CharCoordinate>,
    k: u32,
)
    requires
        k < coords.len(),
        marked_boxes(indices, coords).len() > 0,
        measured(coords[k as int].bounds),
        measured(marked_boxes(indices, coords).last()),
        coords[k as int].bounds.bottom.is_finite(),
        marked_boxes(indices, coords).last().bottom.is_finite(),
    ensures
        ({
            let before = marked_boxes(indices, coords);
            let after = marked_boxes(indices.push(k), coords);
            let old = before.last();
            let new = after.last();
            let bounds = coords[k as int].bounds;
            let same_page = marked_page(indices, coords) == coords[k as int].page_number;
            let apart = old.bottom.distance(bounds.bottom);
            &&& !same_page || apart >= 3 * pow2(149) ==> after == before.push(bounds)
            &&& same_page && 1000 * apart <= 2999 * pow2(149) ==> {
                &&& after.len() == before.len()
                &&& after.drop_last() == before.drop_last()
                &&& new.left == old.left || new.left == bounds.left
                &&& new.left.place() <= old.left.place() && new.left.place() <= bounds.left.place()
                &&& new.bottom == old.bottom || new.bottom == bounds.bottom
                &&& new.bottom.place() <= old.bottom.place() && new.bottom.place()
                    <= bounds.bottom.place()
                &&& new.right == old.right || new.right == bounds.right
                &&& new.right.place() >= old.right.place() && new.right.place()
                    >= bounds.right.place()
                &&& new.top == old.top || new.top == bounds.top
                &&& new.top.place() >= old.top.place() && new.top.place() >= bounds.top.place()
            }
            &&& marked_page(indices.push(k), coords) == coords[k as int].page_number
        }),
{
    let more = indices.push(k);
    let n = indices.len();
    lemma_first_marks(indices, coords, k, n);
    let g = take_marks(indices, coords, n);
    let before = marked_boxes(indices, coords);
    let after = marked_boxes(more, coords);
    let bounds = coords[k as int].bounds;
    assert(more[n as int] == k);
    assert(take_marks(more, coords, n + 1) == take_mark(g, coords[k as int]));
    lemma_growing_box(indices, coords, n);
    assert(g.growing is Some);
    assert(before.last() == g.growing->0);
    assert(before.drop_last() == g.complete);
    lemma_line_tolerance(before.last().bottom, bounds.bottom);
    if g.page == coords[k as int].page_number && same_line(g.growing->0, bounds) {
        assert(after.drop_last() == g.complete);
    } else {
        assert(after == before.push(bounds));
    }
}

proof fn lemma_growing_box(indices: Seq<u32>, coords: Seq<CharCoordinate>, n: nat)
    ensures
        take_marks(indices, coords, n).growing is None ==> take_marks(
            indices,
            coords,
            n,
        ).complete.len() == 0,
    decreases n,
{
    if n > 0 {
        lemma_growing_box(indices, coords, (n - 1) as nat);
    }
}

/// The first marked character with a location begins the first box, on its page; one without a
/// location changes nothing.
pub proof fn law_first_mark_begins_a_box(indices: Seq<u32>, coords: Seq<CharCoordinate>, k: u32)
    ensures
        k < coords.len() && marked_boxes(indices, coords).len() == 0 ==> marked_boxes(
            indices.push(k),
            coords,
        ) == seq![coords[k as int].bounds] && marked_page(indices.push(k), coords)
            == coords[k as int].page_number,
        k >= coords.len() ==> marked_boxes(indices.push(k), coords) == marked_boxes(
            indices,
            coords,
        ) && marked_page(indices.push(k), coords) == marked_page(indices, coords),
        marked_boxes(Seq::empty(), coords).len() == 0,
        marked_page(Seq::empty(), coords) == 1,
{
    let more = indices.push(k);
    let n = indices.len();
    lemma_first_marks(indices, coords, k, n);
    let g = take_marks(indices, coords, n);
    assert(more[n as int] == k);
    lemma_growing_box(indices, coords, n);
    if k < coords.len() && marked_boxes(indices, coords).len() == 0 {
        assert(take_marks(more, coords, n + 1) == take_mark(g, coords[k as int]));
        assert(marked_boxes(more, coords) == seq![coords[k as int].bounds]);
    }
}

} // verus!
