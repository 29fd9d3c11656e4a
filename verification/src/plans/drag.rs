//! Drawing plans with the mouse: a drag spans a rectangle of cells.

use crate::blocks::{BlockSlot, Cardinal};
use crate::cells::{cell_before, fits_i32, in_box, max_of, min_of, shifted, IVec3};
use crate::plans::{batch_of, Plans};
use crate::protocol::{MaterialEntry, PlanEditBatch, PlanKind, PlanView, PLAN_EDIT_BATCH_MAX};
use vstd::prelude::*;

verus! {

/// What a drag does when it ends.
#[derive(Clone, Copy, Debug, PartialEq, Eq, Structural)]
pub enum DragVerb {
    /// Untag planned cells, tag the others for removal.
    LeftSweep,
    /// Plan blocks in front of the face.
    Build,
}

/// A drag under way.
#[derive(Clone, Copy, Debug, PartialEq, Eq, Structural)]
pub struct ActiveDrag {
    pub verb: DragVerb,
    pub anchor: IVec3,
    pub face_normal: IVec3,
    pub second: IVec3,
    pub build_slot: BlockSlot,
    pub build_orientation: Cardinal,
}

/// The drag of the local player, if any.
#[derive(Clone, Copy, Debug, PartialEq, Eq, Structural)]
pub struct PlanDragState {
    pub active: Option<ActiveDrag>,
}

/// A face of a block under the cursor, and how far away it is.
#[derive(Clone, Copy, Debug, PartialEq, Eq, Structural)]
pub struct FaceHit {
    pub cell: IVec3,
    pub face_normal: IVec3,
    pub distance: u64,
}

/// A plan under the cursor, and how far away it is.
#[derive(Clone, Copy, Debug, PartialEq, Eq, Structural)]
pub struct PlanHit {
    pub cell: IVec3,
    pub distance: u64,
}

/// A message about many cells, as a value.
pub struct BatchView {
    pub kind: Option<PlanKind>,
    pub cells: Seq<IVec3>,
    pub materials: Seq<MaterialEntry>,
}

impl View for PlanEditBatch {
    type V = BatchView;

    open spec fn view(&self) -> BatchView {
        BatchView { kind: self.kind, cells: self.cells@, materials: self.materials@ }
    }
}

/// The messages of a list, as values.
pub open spec fn batch_views(batches: Seq<PlanEditBatch>) -> Seq<BatchView> {
    Seq::new(batches.len(), |i: int| batches[i]@)
}

/// A request for an edit; clients leave the material list to the server.
pub open spec fn request(kind: Option<PlanKind>, cells: Seq<IVec3>) -> BatchView {
    BatchView { kind, cells, materials: Seq::empty() }
}

fn make_request(kind: Option<PlanKind>, cells: Vec<IVec3>) -> (r: PlanEditBatch)
    requires
        cells@.len() <= PLAN_EDIT_BATCH_MAX,
    ensures
        r@ == request(kind, cells@),
{
    batch_of(kind, cells, Vec::new())
}

// ---------- boxes of cells ----------

/// Smaller corner of the box that two cells span.
pub open spec fn low_corner(a: IVec3, b: IVec3) -> IVec3 {
    IVec3 {
        x: min_of(a.x as int, b.x as int) as i32,
        y: min_of(a.y as int, b.y as int) as i32,
        z: min_of(a.z as int, b.z as int) as i32,
    }
}

/// Larger corner of the box that two cells span.
pub open spec fn high_corner(a: IVec3, b: IVec3) -> IVec3 {
    IVec3 {
        x: max_of(a.x as int, b.x as int) as i32,
        y: max_of(a.y as int, b.y as int) as i32,
        z: max_of(a.z as int, b.z as int) as i32,
    }
}

/// `n` cells in a row along z.
pub open spec fn row(x: int, y: int, z: int, n: int) -> Seq<IVec3> {
    Seq::new(n as nat, |i: int| IVec3 { x: x as i32, y: y as i32, z: (z + i) as i32 })
}

/// The first `n` rows of the box at `x`.
pub open spec fn sheet(x: int, lo: IVec3, hi: IVec3, n: int) -> Seq<IVec3>
    decreases n,
{
    if n <= 0 {
        Seq::empty()
    } else {
        sheet(x, lo, hi, n - 1) + row(x, lo.y + n - 1, lo.z as int, hi.z - lo.z + 1)
    }
}

/// The first `n` sheets of the box.
pub open spec fn sheets(lo: IVec3, hi: IVec3, n: int) -> Seq<IVec3>
    decreases n,
{
    if n <= 0 {
        Seq::empty()
    } else {
        sheets(lo, hi, n - 1) + sheet(lo.x + n - 1, lo, hi, hi.y - lo.y + 1)
    }
}

/// All cells of the box that two cells span, by x, then y, then z.
pub open spec fn box_cells(a: IVec3, b: IVec3) -> Seq<IVec3> {
    let lo = low_corner(a, b);
    let hi = high_corner(a, b);
    sheets(lo, hi, hi.x - lo.x + 1)
}

/// The list is strictly ascending.
pub open spec fn ascending(cells: Seq<IVec3>) -> bool {
    forall|i: int, j: int|
        #![trigger cells[i], cells[j]]
        0 <= i < j < cells.len() ==> cell_before(cells[i], cells[j])
}

proof fn lemma_sheet(x: int, lo: IVec3, hi: IVec3, n: int)
    requires
        fits_i32(x),
        lo.z <= hi.z,
        0 <= n <= hi.y - lo.y + 1,
    ensures
        sheet(x, lo, hi, n).len() == n * (hi.z - lo.z + 1),
        ascending(sheet(x, lo, hi, n)),
        forall|c: IVec3|
            #![trigger sheet(x, lo, hi, n).contains(c)]
            sheet(x, lo, hi, n).contains(c) <==> c.x == x && lo.y <= c.y < lo.y + n && lo.z <= c.z
                <= hi.z,
    decreases n,
{
    if n > 0 {
        lemma_sheet(x, lo, hi, n - 1);
        let rest = sheet(x, lo, hi, n - 1);
        let last = row(x, lo.y + n - 1, lo.z as int, hi.z - lo.z + 1);
        let all = sheet(x, lo, hi, n);
        assert(all == rest + last);
        assert((n - 1) * (hi.z - lo.z + 1) + (hi.z - lo.z + 1) == n * (hi.z - lo.z + 1))
            by (nonlinear_arith);
        assert forall|c: IVec3| #[trigger] all.contains(c) implies c.x == x && lo.y <= c.y < lo.y + n
            && lo.z <= c.z <= hi.z by {
            let k = all.index_of(c);
            if k < rest.len() {
                assert(rest[k] == c);
                assert(rest.contains(c));
            } else {
                assert(last[k - rest.len()] == c);
            }
        }
        assert forall|c: IVec3|
            c.x == x && lo.y <= c.y < lo.y + n && lo.z <= c.z <= hi.z implies #[trigger] all.contains(
            c,
        ) by {
            if c.y < lo.y + n - 1 {
                assert(rest.contains(c));
                let k = rest.index_of(c);
                assert(all[k] == c);
            } else {
                let k = c.z - lo.z;
                assert(last[k] == c);
                assert(all[rest.len() + k] == c);
            }
        }
        assert forall|i: int, j: int|
            #![trigger all[i], all[j]]
            0 <= i < j < all.len() implies cell_before(all[i], all[j]) by {
            if j < rest.len() {
                assert(all[i] == rest[i] && all[j] == rest[j]);
            } else if i < rest.len() {
                assert(all[i] == rest[i]);
                assert(rest.contains(rest[i]));
                assert(all[j] == last[j - rest.len()]);
            } else {
                assert(all[i] == last[i - rest.len()]);
                assert(all[j] == last[j - rest.len()]);
            }
        }
    }
}

proof fn lemma_sheets(lo: IVec3, hi: IVec3, n: int)
    requires
        lo.y <= hi.y,
        lo.z <= hi.z,
        0 <= n <= hi.x - lo.x + 1,
    ensures
        sheets(lo, hi, n).len() == n * ((hi.y - lo.y + 1) * (hi.z - lo.z + 1)),
        ascending(sheets(lo, hi, n)),
        forall|c: IVec3|
            #![trigger sheets(lo, hi, n).contains(c)]
            sheets(lo, hi, n).contains(c) <==> lo.x <= c.x < lo.x + n && lo.y <= c.y <= hi.y && lo.z
                <= c.z <= hi.z,
    decreases n,
{
    if n > 0 {
        lemma_sheets(lo, hi, n - 1);
        lemma_sheet(lo.x + n - 1, lo, hi, hi.y - lo.y + 1);
        let rest = sheets(lo, hi, n - 1);
        let last = sheet(lo.x + n - 1, lo, hi, hi.y - lo.y + 1);
        let all = sheets(lo, hi, n);
        assert(all == rest + last);
        let area = (hi.y - lo.y + 1) * (hi.z - lo.z + 1);
        assert((n - 1) * area + area == n * area) by (nonlinear_arith);
        assert forall|c: IVec3| #[trigger] all.contains(c) implies lo.x <= c.x < lo.x + n && lo.y
            <= c.y <= hi.y && lo.z <= c.z <= hi.z by {
            let k = all.index_of(c);
            if k < rest.len() {
                assert(rest[k] == c);
                assert(rest.contains(c));
            } else {
                assert(last[k - rest.len()] == c);
                assert(last.contains(c));
            }
        }
        assert forall|c: IVec3|
            lo.x <= c.x < lo.x + n && lo.y <= c.y <= hi.y && lo.z <= c.z
                <= hi.z implies #[trigger] all.contains(c) by {
            if c.x < lo.x + n - 1 {
                assert(rest.contains(c));
                let k = rest.index_of(c);
                assert(all[k] == c);
            } else {
                assert(last.contains(c));
                let k = last.index_of(c);
                assert(all[rest.len() + k] == c);
            }
        }
        assert forall|i: int, j: int|
            #![trigger all[i], all[j]]
            0 <= i < j < all.len() implies cell_before(all[i], all[j]) by {
            if j < rest.len() {
                assert(all[i] == rest[i] && all[j] == rest[j]);
            } else if i < rest.len() {
                assert(all[i] == rest[i]);
                assert(rest.contains(rest[i]));
                assert(all[j] == last[j - rest.len()]);
                assert(last.contains(last[j - rest.len()]));
            } else {
                assert(all[i] == last[i - rest.len()]);
                assert(all[j] == last[j - rest.len()]);
            }
        }
    }
}

/// How many cells the box that two cells span has.
pub open spec fn box_size(a: IVec3, b: IVec3) -> int {
    let lo = low_corner(a, b);
    let hi = high_corner(a, b);
    (hi.x - lo.x + 1) * (hi.y - lo.y + 1) * (hi.z - lo.z + 1)
}

/// The cells of a box are listed once each, in order, with both corners.
pub proof fn law_box_cells(a: IVec3, b: IVec3)
    ensures
        box_cells(a, b).len() == box_size(a, b),
        ascending(box_cells(a, b)),
        forall|c: IVec3| #[trigger]
            box_cells(a, b).contains(c) <==> in_box(c, low_corner(a, b), high_corner(a, b)),
        box_cells(a, b).contains(a),
        box_cells(a, b).contains(b),
        box_cells(a, b) == box_cells(b, a),
{
    let lo = low_corner(a, b);
    let hi = high_corner(a, b);
    lemma_sheets(lo, hi, hi.x - lo.x + 1);
    let (w, h, d) = (hi.x - lo.x + 1, hi.y - lo.y + 1, hi.z - lo.z + 1);
    assert(w * (h * d) == w * h * d) by (nonlinear_arith);
    assert(low_corner(b, a) == lo);
    assert(high_corner(b, a) == hi);
}

/// Lists all cells of the box that two cells span.
pub fn rect_cells_on_plane(a: IVec3, b: IVec3) -> (cells: Vec<IVec3>)
    ensures
        cells@ == box_cells(a, b),
        cells@.len() > 0,
{
    let lo: IVec3 = a.min(b);
    let hi: IVec3 = a.max(b);
    assert(lo == low_corner(a, b));
    assert(hi == high_corner(a, b));
    let mut cells: Vec<IVec3> = Vec::new();
    let mut x: i64 = lo.x as i64;
    while x <= hi.x as i64
        invariant
            lo.x <= x <= hi.x + 1,
            lo.y <= hi.y,
            lo.z <= hi.z,
            cells@ == sheets(lo, hi, x - lo.x),
        decreases hi.x - x + 1,
    {
        let ghost before_x = cells@;
        let mut y: i64 = lo.y as i64;
        assert(cells@ =~= before_x + sheet(x as int, lo, hi, 0));
        while y <= hi.y as i64
            invariant
                lo.x <= x <= hi.x,
                lo.y <= y <= hi.y + 1,
                lo.z <= hi.z,
                cells@ == before_x + sheet(x as int, lo, hi, y - lo.y),
            decreases hi.y - y + 1,
        {
            let ghost before_y = cells@;
            let mut z: i64 = lo.z as i64;
            assert(cells@ =~= before_y + row(x as int, y as int, lo.z as int, 0));
            while z <= hi.z as i64
                invariant
                    lo.x <= x <= hi.x,
                    lo.y <= y <= hi.y,
                    lo.z <= z <= hi.z + 1,
                    cells@ == before_y + row(x as int, y as int, lo.z as int, z - lo.z),
                decreases hi.z - z + 1,
            {
                cells.push(IVec3::new(x as i32, y as i32, z as i32));
                z = z + 1;
                assert(cells@ =~= before_y + row(x as int, y as int, lo.z as int, z - lo.z));
            }
            y = y + 1;
            assert(cells@ =~= before_x + sheet(x as int, lo, hi, y - lo.y));
        }
        x = x + 1;
    }
    proof {
        law_box_cells(a, b);
        assert(cells@.contains(a));
    }
    cells
}

// ---------- ending a drag ----------

/// The cells with a plan (`tagged`), or those without.
pub open spec fn split_cells(
    cells: Seq<IVec3>,
    plans: Map<IVec3, PlanView>,
    tagged: bool,
) -> Seq<IVec3>
    decreases cells.len(),
{
    if cells.len() == 0 {
        Seq::empty()
    } else {
        let rest = split_cells(cells.drop_last(), plans, tagged);
        if plans.contains_key(cells.last()) == tagged {
            rest.push(cells.last())
        } else {
            rest
        }
    }
}

/// Every cell moved by the face normal.
pub open spec fn in_front(cells: Seq<IVec3>, normal: IVec3) -> Seq<IVec3> {
    Seq::new(
        cells.len(),
        |i: int| shifted(cells[i], normal.x as int, normal.y as int, normal.z as int),
    )
}

/// The cells in front of the face exist.
pub open spec fn drag_fits(drag: ActiveDrag) -> bool {
    let lo = low_corner(drag.anchor, drag.second);
    let hi = high_corner(drag.anchor, drag.second);
    let n = drag.face_normal;
    &&& fits_i32(lo.x + n.x) && fits_i32(hi.x + n.x)
    &&& fits_i32(lo.y + n.y) && fits_i32(hi.y + n.y)
    &&& fits_i32(lo.z + n.z) && fits_i32(hi.z + n.z)
}

/// The messages that together carry all the cells: each is as full as a message
/// may be, but for the last.
pub open spec fn pages(kind: Option<PlanKind>, cells: Seq<IVec3>) -> Seq<BatchView>
    decreases cells.len(),
{
    if cells.len() == 0 {
        Seq::empty()
    } else if cells.len() <= PLAN_EDIT_BATCH_MAX {
        seq![request(kind, cells)]
    } else {
        seq![request(kind, cells.take(PLAN_EDIT_BATCH_MAX as int))] + pages(
            kind,
            cells.skip(PLAN_EDIT_BATCH_MAX as int),
        )
    }
}

/// The cells of the messages, one message after the other.
pub open spec fn joined(batches: Seq<BatchView>) -> Seq<IVec3>
    decreases batches.len(),
{
    if batches.len() == 0 {
        Seq::empty()
    } else {
        batches[0].cells + joined(batches.skip(1))
    }
}

/// Splitting a list of cells into messages loses nothing and keeps the order;
/// no message is empty or too long, and each asks for the same.
pub proof fn law_pages_carry_all(kind: Option<PlanKind>, cells: Seq<IVec3>)
    ensures
        joined(pages(kind, cells)) == cells,
        forall|i: int|
            0 <= i < pages(kind, cells).len() ==> {
                let page = #[trigger] pages(kind, cells)[i];
                &&& page == request(kind, page.cells)
                &&& 1 <= page.cells.len() <= PLAN_EDIT_BATCH_MAX
            },
    decreases cells.len(),
{
    let all = pages(kind, cells);
    if cells.len() > PLAN_EDIT_BATCH_MAX {
        let rest = cells.skip(PLAN_EDIT_BATCH_MAX as int);
        law_pages_carry_all(kind, rest);
        assert(all.skip(1) =~= pages(kind, rest));
        assert(joined(all) =~= cells);
        assert forall|i: int| 0 <= i < all.len() implies {
            let page = #[trigger] all[i];
            &&& page == request(kind, page.cells)
            &&& 1 <= page.cells.len() <= PLAN_EDIT_BATCH_MAX
        } by {
            if i > 0 {
                assert(all[i] == pages(kind, rest)[i - 1]);
            }
        }
    } else if cells.len() > 0 {
        assert(all.skip(1) =~= Seq::empty());
        assert(joined(all.skip(1)) =~= Seq::empty());
        assert(joined(all) =~= cells);
    }
}

/// The kind of plan that a build drag asks for.
pub open spec fn dragged_kind(drag: ActiveDrag) -> PlanKind {
    PlanKind::Build { slot: drag.build_slot, orientation: drag.build_orientation }
}

/// What a drag asks of the server when it ends.
pub open spec fn drag_requests(drag: ActiveDrag, plans: Map<IVec3, PlanView>) -> Seq<BatchView> {
    let cells = box_cells(drag.anchor, drag.second);
    match drag.verb {
        DragVerb::LeftSweep => pages(None, split_cells(cells, plans, true)) + pages(
            Some(PlanKind::Remove),
            split_cells(cells, plans, false),
        ),
        DragVerb::Build => pages(Some(dragged_kind(drag)), in_front(cells, drag.face_normal)),
    }
}

/// Adds the messages that carry the cells.
fn push_pages(out: &mut Vec<PlanEditBatch>, kind: Option<PlanKind>, cells: &Vec<IVec3>)
    ensures
        batch_views(final(out)@) == batch_views(old(out)@) + pages(kind, cells@),
{
    let mut i: usize = 0;
    assert(cells@.skip(0) =~= cells@);
    while i < cells.len()
        invariant
            i <= cells@.len(),
            batch_views(out@) + pages(kind, cells@.skip(i as int)) == batch_views(old(out)@) + pages(
                kind,
                cells@,
            ),
        decreases cells@.len() - i,
    {
        let ghost sent = batch_views(out@);
        let ghost left = cells@.skip(i as int);
        let end: usize = if cells.len() - i <= PLAN_EDIT_BATCH_MAX {
            cells.len()
        } else {
            i + PLAN_EDIT_BATCH_MAX
        };
        let mut page: Vec<IVec3> = Vec::new();
        let mut k: usize = i;
        while k < end
            invariant
                i <= k <= end <= cells@.len(),
                page@ == cells@.subrange(i as int, k as int),
            decreases end - k,
        {
            page.push(cells[k]);
            k = k + 1;
            assert(page@ =~= cells@.subrange(i as int, k as int));
        }
        let ghost piece = request(kind, page@);
        out.push(make_request(kind, page));
        proof {
            assert(page@ =~= left.take(end - i));
            assert(left.skip(end - i) =~= cells@.skip(end as int));
            assert(left.take(left.len() as int) =~= left);
            assert(pages(kind, left) =~= seq![piece] + pages(kind, cells@.skip(end as int)));
            assert(batch_views(out@) =~= sent.push(piece));
            assert(batch_views(out@) + pages(kind, cells@.skip(end as int)) =~= sent + pages(
                kind,
                left,
            ));
        }
        i = end;
    }
    assert(batch_views(out@) + pages(kind, cells@.skip(i as int)) =~= batch_views(out@));
}

fn move_in_front(cells: &Vec<IVec3>, drag: ActiveDrag) -> (r: Vec<IVec3>)
    requires
        cells@ == box_cells(drag.anchor, drag.second),
        drag_fits(drag),
    ensures
        r@ == in_front(cells@, drag.face_normal),
{
    let n: IVec3 = drag.face_normal;
    let mut out: Vec<IVec3> = Vec::new();
    let mut i: usize = 0;
    while i < cells.len()
        invariant
            cells@ == box_cells(drag.anchor, drag.second),
            drag_fits(drag),
            n == drag.face_normal,
            i <= cells@.len(),
            out@ == in_front(cells@, n).take(i as int),
        decreases cells@.len() - i,
    {
        proof {
            law_box_cells(drag.anchor, drag.second);
            assert(cells@.contains(cells@[i as int]));
        }
        out.push(cells[i].shift(n.x, n.y, n.z));
        assert(out@ =~= in_front(cells@, n).take(i + 1));
        i = i + 1;
    }
    assert(out@ =~= in_front(cells@, n));
    out
}

/// Turns a finished drag into requests.
pub fn commit_drag(drag: ActiveDrag, plans: &Plans) -> (r: Vec<PlanEditBatch>)
    requires
        drag.verb == DragVerb::Build ==> drag_fits(drag),
    ensures
        batch_views(r@) == drag_requests(drag, plans@),
{
    let cells: Vec<IVec3> = rect_cells_on_plane(drag.anchor, drag.second);
    let mut out: Vec<PlanEditBatch> = Vec::new();
    match drag.verb {
        DragVerb::LeftSweep => {
            let mut tagged: Vec<IVec3> = Vec::new();
            let mut untagged: Vec<IVec3> = Vec::new();
            let mut i: usize = 0;
            assert(cells@.take(0) =~= Seq::empty());
            while i < cells.len()
                invariant
                    i <= cells@.len(),
                    tagged@ == split_cells(cells@.take(i as int), plans@, true),
                    untagged@ == split_cells(cells@.take(i as int), plans@, false),
                decreases cells@.len() - i,
            {
                assert(cells@.take(i + 1).drop_last() =~= cells@.take(i as int));
                if plans.get(cells[i]).is_some() {
                    tagged.push(cells[i]);
                } else {
                    untagged.push(cells[i]);
                }
                i = i + 1;
            }
            assert(cells@.take(cells@.len() as int) =~= cells@);
            push_pages(&mut out, None, &tagged);
            push_pages(&mut out, Some(PlanKind::Remove), &untagged);
        },
        DragVerb::Build => {
            let moved: Vec<IVec3> = move_in_front(&cells, drag);
            let kind = PlanKind::Build {
                slot: drag.build_slot,
                orientation: drag.build_orientation,
            };
            push_pages(&mut out, Some(kind), &moved);
        },
    }
    assert(batch_views(out@) =~= drag_requests(drag, plans@));
    out
}

/// The cells that the preview of a drag covers.
pub open spec fn preview_cells(drag: ActiveDrag) -> Seq<IVec3> {
    let cells = box_cells(drag.anchor, drag.second);
    match drag.verb {
        DragVerb::Build => in_front(cells, drag.face_normal),
        DragVerb::LeftSweep => cells,
    }
}

pub fn rect_cells_for_preview(drag: ActiveDrag) -> (r: Vec<IVec3>)
    requires
        drag.verb == DragVerb::Build ==> drag_fits(drag),
    ensures
        r@ == preview_cells(drag),
        r@.len() > 0,
{
    let cells: Vec<IVec3> = rect_cells_on_plane(drag.anchor, drag.second);
    match drag.verb {
        DragVerb::Build => move_in_front(&cells, drag),
        DragVerb::LeftSweep => cells,
    }
}

/// The box is the smallest around the cells.
pub open spec fn tight_box(cells: Seq<IVec3>, lo: IVec3, hi: IVec3) -> bool {
    &&& forall|i: int| 0 <= i < cells.len() ==> in_box(#[trigger] cells[i], lo, hi)
    &&& exists|i: int| 0 <= i < cells.len() && (#[trigger] cells[i]).x == lo.x
    &&& exists|i: int| 0 <= i < cells.len() && (#[trigger] cells[i]).y == lo.y
    &&& exists|i: int| 0 <= i < cells.len() && (#[trigger] cells[i]).z == lo.z
    &&& exists|i: int| 0 <= i < cells.len() && (#[trigger] cells[i]).x == hi.x
    &&& exists|i: int| 0 <= i < cells.len() && (#[trigger] cells[i]).y == hi.y
    &&& exists|i: int| 0 <= i < cells.len() && (#[trigger] cells[i]).z == hi.z
}

/// The box that the preview of a drag draws.
pub fn drag_preview_box(drag: ActiveDrag) -> (r: (IVec3, IVec3))
    requires
        drag.verb == DragVerb::Build ==> drag_fits(drag),
    ensures
        tight_box(preview_cells(drag), r.0, r.1),
{
    let cells: Vec<IVec3> = rect_cells_for_preview(drag);
    let mut lo: IVec3 = cells[0];
    let mut hi: IVec3 = cells[0];
    let mut i: usize = 1;
    assert(tight_box(cells@.take(1), lo, hi)) by {
        assert(cells@.take(1)[0] == lo);
    }
    while i < cells.len()
        invariant
            1 <= i <= cells@.len(),
            tight_box(cells@.take(i as int), lo, hi),
        decreases cells@.len() - i,
    {
        let ghost before = cells@.take(i as int);
        let ghost now = cells@.take(i + 1);
        let ghost (lo0, hi0) = (lo, hi);
        lo = lo.min(cells[i]);
        hi = hi.max(cells[i]);
        proof {
            lemma_box_grows(before, now, lo0, hi0, lo, hi);
        }
        i = i + 1;
    }
    assert(cells@.take(cells@.len() as int) =~= cells@);
    (lo, hi)
}

pub proof fn lemma_box_grows(
    before: Seq<IVec3>,
    now: Seq<IVec3>,
    lo0: IVec3,
    hi0: IVec3,
    lo: IVec3,
    hi: IVec3,
)
    requires
        tight_box(before, lo0, hi0),
        now.len() == before.len() + 1,
        before =~= now.drop_last(),
        lo == low_corner(lo0, now.last()),
        hi == high_corner(hi0, now.last()),
    ensures
        tight_box(now, lo, hi),
{
    let k = now.len() - 1;
    assert(now[k] == now.last());
    assert forall|i: int| 0 <= i < now.len() implies in_box(#[trigger] now[i], lo, hi) by {
        if i < before.len() {
            assert(before[i] == now[i]);
        }
    }
    let x0 = choose|i: int| 0 <= i < before.len() && (#[trigger] before[i]).x == lo0.x;
    let y0 = choose|i: int| 0 <= i < before.len() && (#[trigger] before[i]).y == lo0.y;
    let z0 = choose|i: int| 0 <= i < before.len() && (#[trigger] before[i]).z == lo0.z;
    let x1 = choose|i: int| 0 <= i < before.len() && (#[trigger] before[i]).x == hi0.x;
    let y1 = choose|i: int| 0 <= i < before.len() && (#[trigger] before[i]).y == hi0.y;
    let z1 = choose|i: int| 0 <= i < before.len() && (#[trigger] before[i]).z == hi0.z;
    assert(now[x0] == before[x0] && now[y0] == before[y0] && now[z0] == before[z0]);
    assert(now[x1] == before[x1] && now[y1] == before[y1] && now[z1] == before[z1]);
}

/// A finished build drag asks for exactly what its preview showed, in messages
/// of one kind that are neither empty nor too long.
pub proof fn law_build_matches_preview(drag: ActiveDrag, plans: Map<IVec3, PlanView>)
    requires
        drag.verb == DragVerb::Build,
    ensures
        joined(drag_requests(drag, plans)) == preview_cells(drag),
        forall|i: int|
            0 <= i < drag_requests(drag, plans).len() ==> {
                let page = #[trigger] drag_requests(drag, plans)[i];
                &&& page == request(Some(dragged_kind(drag)), page.cells)
                &&& 1 <= page.cells.len() <= PLAN_EDIT_BATCH_MAX
            },
{
    law_pages_carry_all(
        Some(dragged_kind(drag)),
        in_front(box_cells(drag.anchor, drag.second), drag.face_normal),
    );
}

proof fn lemma_joined_concat(a: Seq<BatchView>, b: Seq<BatchView>)
    ensures
        joined(a + b) == joined(a) + joined(b),
    decreases a.len(),
{
    if a.len() == 0 {
        assert(a + b =~= b);
        assert(joined(a) + joined(b) =~= joined(b));
    } else {
        assert((a + b).skip(1) =~= a.skip(1) + b);
        lemma_joined_concat(a.skip(1), b);
        assert(joined(a + b) =~= joined(a) + joined(b));
    }
}

/// A finished sweep asks about every cell that its preview showed and no other:
/// first the planned ones, then the rest.
pub proof fn law_sweep_matches_preview(
    drag: ActiveDrag,
    plans: Map<IVec3, PlanView>,
    c: IVec3,
)
    requires
        drag.verb == DragVerb::LeftSweep,
    ensures
        joined(drag_requests(drag, plans)) == split_cells(preview_cells(drag), plans, true)
            + split_cells(preview_cells(drag), plans, false),
        joined(drag_requests(drag, plans)).contains(c) <==> preview_cells(drag).contains(c),
{
    let cells = box_cells(drag.anchor, drag.second);
    let planned = split_cells(cells, plans, true);
    let rest = split_cells(cells, plans, false);
    let all = planned + rest;
    law_pages_carry_all(None, planned);
    law_pages_carry_all(Some(PlanKind::Remove), rest);
    lemma_joined_concat(pages(None, planned), pages(Some(PlanKind::Remove), rest));
    law_sweep_splits(cells, plans, c);
    if planned.contains(c) {
        let k = planned.index_of(c);
        assert(all[k] == c);
    }
    if rest.contains(c) {
        let k = rest.index_of(c);
        assert(all[planned.len() + k] == c);
    }
    if all.contains(c) {
        let k = all.index_of(c);
        if k < planned.len() {
            assert(planned[k] == c);
        } else {
            assert(rest[k - planned.len()] == c);
        }
    }
}

/// The cells that a sweep untags carry a plan, those that it tags carry none,
/// and together they are the swept cells.
pub proof fn law_sweep_splits(cells: Seq<IVec3>, plans: Map<IVec3, PlanView>, c: IVec3)
    ensures
        split_cells(cells, plans, true).contains(c) <==> cells.contains(c) && plans.contains_key(c),
        split_cells(cells, plans, false).contains(c) <==> cells.contains(c) && !plans.contains_key(c),
        split_cells(cells, plans, true).len() + split_cells(cells, plans, false).len()
            == cells.len(),
    decreases cells.len(),
{
    if cells.len() > 0 {
        let rest = cells.drop_last();
        law_sweep_splits(rest, plans, c);
        let last = cells.last();
        assert(cells =~= rest.push(last));
        lemma_push_contains(rest, last, c);
        lemma_push_contains(split_cells(rest, plans, true), last, c);
        lemma_push_contains(split_cells(rest, plans, false), last, c);
    }
}

proof fn lemma_push_contains(s: Seq<IVec3>, last: IVec3, c: IVec3)
    ensures
        s.push(last).contains(c) <==> s.contains(c) || c == last,
{
    if s.contains(c) {
        let k = s.index_of(c);
        assert(s.push(last)[k] == c);
    }
    assert(s.push(last)[s.len() as int] == last);
    if s.push(last).contains(c) && c != last {
        let k = s.push(last).index_of(c);
        assert(s[k] == c);
    }
}

// ---------- the mouse ----------

/// The buttons as they changed since the last frame.
#[derive(Clone, Copy, Debug, PartialEq, Eq, Structural)]
pub struct PlanButtons {
    pub left_pressed: bool,
    pub right_pressed: bool,
    pub left_released: bool,
    pub right_released: bool,
}

/// What lies under the cursor.
#[derive(Clone, Copy, Debug, PartialEq, Eq, Structural)]
pub struct PlanCursor {
    pub plan: Option<PlanHit>,
    pub face: Option<FaceHit>,
    /// The block in hand, and how it would be turned.
    pub selected: Option<BlockSlot>,
    pub orientation: Cardinal,
}

/// A plan is picked when it is nearer than the block behind it.
pub open spec fn prefers_plan(cursor: PlanCursor) -> bool {
    match (cursor.plan, cursor.face) {
        (Some(p), Some(f)) => p.distance < f.distance,
        (Some(_), None) => true,
        _ => false,
    }
}

/// The drag that a press starts.
pub open spec fn started(cursor: PlanCursor, verb: DragVerb, slot: BlockSlot, facing: Cardinal)
    -> Option<ActiveDrag> {
    match cursor.face {
        None => None,
        Some(f) => Some(
            ActiveDrag {
                verb,
                anchor: f.cell,
                face_normal: f.face_normal,
                second: f.cell,
                build_slot: slot,
                build_orientation: facing,
            },
        ),
    }
}

/// A left press picks the plan under the cursor instead of starting a drag.
pub open spec fn picks_plan(state: PlanDragState, buttons: PlanButtons, cursor: PlanCursor) -> bool {
    state.active is None && buttons.left_pressed && prefers_plan(cursor)
}

/// The drag state after the presses of a frame.
pub open spec fn after_press(state: PlanDragState, buttons: PlanButtons, cursor: PlanCursor)
    -> PlanDragState {
    if state.active is Some {
        state
    } else if buttons.left_pressed {
        if prefers_plan(cursor) {
            state
        } else {
            PlanDragState {
                active: started(cursor, DragVerb::LeftSweep, BlockSlot(0), Cardinal::East),
            }
        }
    } else if buttons.right_pressed && cursor.selected is Some {
        PlanDragState {
            active: started(cursor, DragVerb::Build, cursor.selected->0, cursor.orientation),
        }
    } else {
        state
    }
}

fn start(cursor: PlanCursor, verb: DragVerb, slot: BlockSlot, facing: Cardinal) -> (r: Option<
    ActiveDrag,
>)
    ensures
        r == started(cursor, verb, slot, facing),
{
    match cursor.face {
        None => None,
        Some(f) => Some(
            ActiveDrag {
                verb,
                anchor: f.cell,
                face_normal: f.face_normal,
                second: f.cell,
                build_slot: slot,
                build_orientation: facing,
            },
        ),
    }
}

impl PlanDragState {
    pub fn new() -> (r: PlanDragState)
        ensures
            r.active is None,
    {
        PlanDragState { active: None }
    }

    /// Leaving the mode, or a menu in front, ends a drag without effect.
    pub fn interrupt(&mut self)
        ensures
            final(self).active is None,
    {
        self.active = None;
    }

    /// Handles the presses of a frame. A press on a plan asks to clear it.
    pub fn press(&mut self, buttons: PlanButtons, cursor: PlanCursor) -> (r: Option<PlanEditBatch>)
        ensures
            *final(self) == after_press(*old(self), buttons, cursor),
            r is Some <==> picks_plan(*old(self), buttons, cursor),
            r matches Some(batch) ==> batch@ == request(None, seq![(cursor.plan->0).cell]),
    {
        if self.active.is_some() {
            return None;
        }
        if buttons.left_pressed {
            let prefer: bool = match (cursor.plan, cursor.face) {
                (Some(p), Some(f)) => p.distance < f.distance,
                (Some(_), None) => true,
                _ => false,
            };
            if prefer {
                if let Some(p) = cursor.plan {
                    let mut cells: Vec<IVec3> = Vec::new();
                    cells.push(p.cell);
                    assert(cells@ =~= seq![p.cell]);
                    return Some(make_request(None, cells));
                }
            }
            self.active = start(cursor, DragVerb::LeftSweep, BlockSlot(0), Cardinal::East);
        } else if buttons.right_pressed {
            if let Some(slot) = cursor.selected {
                self.active = start(cursor, DragVerb::Build, slot, cursor.orientation);
            }
        }
        None
    }

    /// Moves the far corner to where the cursor meets the plane of the drag.
    pub fn track(&mut self, projected: Option<IVec3>)
        ensures
            final(self).active is Some <==> old(self).active is Some,
            old(self).active matches Some(a) ==> final(self).active == Some(
                ActiveDrag {
                    second: if projected is Some {
                        projected->0
                    } else {
                        a.second
                    },
                    ..a
                },
            ),
    {
        if let Some(a) = self.active {
            if let Some(p) = projected {
                let mut moved: ActiveDrag = a;
                moved.second = p;
                self.active = Some(moved);
            }
        }
    }

    /// Ends the drag when its own button comes up.
    pub fn release(&mut self, buttons: PlanButtons, plans: &Plans) -> (r: Vec<PlanEditBatch>)
        requires
            old(self).active matches Some(a) ==> a.verb == DragVerb::Build ==> drag_fits(a),
        ensures
            match old(self).active {
                None => final(self).active is None && r@.len() == 0,
                Some(a) => if (a.verb == DragVerb::LeftSweep && buttons.left_released) || (a.verb
                    == DragVerb::Build && buttons.right_released) {
                    final(self).active is None && batch_views(r@) == drag_requests(a, plans@)
                } else {
                    *final(self) == *old(self) && r@.len() == 0
                },
            },
    {
        match self.active {
            None => Vec::new(),
            Some(a) => {
                let released: bool = match a.verb {
                    DragVerb::LeftSweep => buttons.left_released,
                    DragVerb::Build => buttons.right_released,
                };
                if released {
                    self.active = None;
                    commit_drag(a, plans)
                } else {
                    Vec::new()
                }
            },
        }
    }
}

/// Dragging spans the box between two cells: its cells are those that lie
/// between the two along each axis, whichever corner came first.
pub proof fn law_boxes_lie_between_their_corners(a: IVec3, b: IVec3, c: IVec3)
    ensures
        box_cells(a, b).contains(c) <==> (a.x <= c.x <= b.x || b.x <= c.x <= a.x) && (a.y <= c.y
            <= b.y || b.y <= c.y <= a.y) && (a.z <= c.z <= b.z || b.z <= c.z <= a.z),
{
    law_box_cells(a, b);
}

/// A build drag asks for the cells right in front of the swept ones: each
/// moved by the face's normal, in the same order.
pub proof fn law_builds_stand_before_the_face(drag: ActiveDrag, i: int)
    requires
        drag.verb is Build,
        drag_fits(drag),
        0 <= i < box_cells(drag.anchor, drag.second).len(),
    ensures
        ({
            let swept = box_cells(drag.anchor, drag.second);
            let shown = preview_cells(drag);
            &&& shown.len() == swept.len()
            &&& shown[i].x == swept[i].x + drag.face_normal.x
            &&& shown[i].y == swept[i].y + drag.face_normal.y
            &&& shown[i].z == swept[i].z + drag.face_normal.z
        }),
{
    let swept = box_cells(drag.anchor, drag.second);
    law_box_cells(drag.anchor, drag.second);
    assert(swept.contains(swept[i]));
}

/// A sweep shows the swept cells themselves.
pub proof fn law_sweeps_show_what_they_sweep(drag: ActiveDrag, c: IVec3)
    requires
        drag.verb is LeftSweep,
    ensures
        preview_cells(drag).contains(c) <==> (drag.anchor.x <= c.x <= drag.second.x || drag.second.x
            <= c.x <= drag.anchor.x) && (drag.anchor.y <= c.y <= drag.second.y || drag.second.y
            <= c.y <= drag.anchor.y) && (drag.anchor.z <= c.z <= drag.second.z || drag.second.z
            <= c.z <= drag.anchor.z),
{
    law_box_cells(drag.anchor, drag.second);
}

/// Messages are filled up before another is begun: all but the last carry 4096
/// cells, and none carries more.
pub proof fn law_pages_are_filled(kind: Option<PlanKind>, cells: Seq<IVec3>, i: int)
    requires
        0 <= i < pages(kind, cells).len(),
    ensures
        pages(kind, cells)[i].cells.len() <= 4096,
        i + 1 < pages(kind, cells).len() ==> pages(kind, cells)[i].cells.len() == 4096,
        (pages(kind, cells).len() - 1) * 4096 < cells.len() <= pages(kind, cells).len() * 4096,
        pages(kind, cells)[i].kind == kind,
        pages(kind, cells)[i].materials.len() == 0,
    decreases cells.len(),
{
    let all = pages(kind, cells);
    if cells.len() > 4096 {
        let rest = cells.skip(4096);
        assert(all =~= seq![request(kind, cells.take(4096))] + pages(kind, rest));
        assert(pages(kind, rest).len() > 0);
        if i > 0 {
            assert(all[i] == pages(kind, rest)[i - 1]);
            law_pages_are_filled(kind, rest, i - 1);
        } else {
            law_pages_are_filled(kind, rest, 0);
        }
    }
}

/// A sweep asks to clear a cell exactly if the cell was swept and planned, and
/// to remove the block exactly if it was swept and not planned; it asks for
/// nothing else.
pub proof fn law_sweeps_clear_plans_and_remove_blocks(
    drag: ActiveDrag,
    plans: Map<IVec3, PlanView>,
    i: int,
    j: int,
)
    requires
        drag.verb is LeftSweep,
        0 <= i < drag_requests(drag, plans).len(),
        0 <= j < drag_requests(drag, plans)[i].cells.len(),
    ensures
        ({
            let page = drag_requests(drag, plans)[i];
            let c = page.cells[j];
            &&& page.kind is None <==> plans.contains_key(c)
            &&& page.kind is Some ==> page.kind->0 is Remove
            &&& preview_cells(drag).contains(c)
        }),
{
    let cells = box_cells(drag.anchor, drag.second);
    let planned = split_cells(cells, plans, true);
    let rest = split_cells(cells, plans, false);
    let first = pages(None, planned);
    let then = pages(Some(PlanKind::Remove), rest);
    let page = drag_requests(drag, plans)[i];
    let c = page.cells[j];
    law_sweep_splits(cells, plans, c);
    if i < first.len() {
        assert(page == first[i]);
        lemma_paged_cells(None, planned, i, j);
        law_pages_are_filled(None, planned, i);
    } else {
        assert(page == then[i - first.len()]);
        lemma_paged_cells(Some(PlanKind::Remove), rest, i - first.len(), j);
        law_pages_are_filled(Some(PlanKind::Remove), rest, i - first.len());
    }
}

/// What a message carries comes from the list.
proof fn lemma_paged_cells(kind: Option<PlanKind>, cells: Seq<IVec3>, i: int, j: int)
    requires
        0 <= i < pages(kind, cells).len(),
        0 <= j < pages(kind, cells)[i].cells.len(),
    ensures
        cells.contains(pages(kind, cells)[i].cells[j]),
    decreases cells.len(),
{
    let all = pages(kind, cells);
    let max = PLAN_EDIT_BATCH_MAX as int;
    if cells.len() > max {
        let rest = cells.skip(max);
        assert(all =~= seq![request(kind, cells.take(max))] + pages(kind, rest));
        if i > 0 {
            assert(all[i] == pages(kind, rest)[i - 1]);
            lemma_paged_cells(kind, rest, i - 1, j);
            let k = rest.index_of(all[i].cells[j]);
            assert(cells[max + k] == all[i].cells[j]);
        } else {
            assert(cells[j] == all[i].cells[j]);
        }
    } else {
        assert(cells[j] == all[i].cells[j]);
    }
}

/// A finished build drag asks for the block in hand, turned as it was when the
/// drag began.
pub proof fn law_builds_ask_for_the_block_in_hand(
    drag: ActiveDrag,
    plans: Map<IVec3, PlanView>,
    i: int,
)
    requires
        drag.verb is Build,
        0 <= i < drag_requests(drag, plans).len(),
    ensures
        ({
            let kind = drag_requests(drag, plans)[i].kind;
            &&& kind is Some && kind->0 is Build
            &&& (kind->0)->slot == drag.build_slot
            &&& (kind->0)->orientation == drag.build_orientation
        }),
{
    law_pages_are_filled(
        Some(dragged_kind(drag)),
        in_front(box_cells(drag.anchor, drag.second), drag.face_normal),
        i,
    );
}

/// A drag under way goes on whatever is pressed. Without one, a left press
/// picks the plan under the cursor if no block face is as near, and else
/// sweeps from the face under the cursor; a right press alone builds from that
/// face with the block in hand. Without a face, or without a press, nothing
/// begins.
pub proof fn law_presses_begin_drags(
    state: PlanDragState,
    buttons: PlanButtons,
    cursor: PlanCursor,
)
    ensures
        ({
            let after = after_press(state, buttons, cursor).active;
            let idle = state.active is None;
            let plan_nearer = cursor.plan is Some && (cursor.face is None || (
            cursor.plan->0).distance < (cursor.face->0).distance);
            let sweeps = buttons.left_pressed && !plan_nearer && cursor.face is Some;
            let builds = !buttons.left_pressed && buttons.right_pressed && cursor.selected is Some
                && cursor.face is Some;
            &&& !idle ==> after == state.active
            &&& idle ==> (after is Some <==> sweeps || builds)
            &&& idle && after is Some ==> {
                let (drag, face) = (after->0, cursor.face->0);
                &&& drag.anchor == face.cell && drag.second == face.cell
                &&& drag.face_normal == face.face_normal
                &&& drag.verb is LeftSweep <==> sweeps
                &&& builds ==> drag.build_slot == cursor.selected->0
                &&& builds ==> drag.build_orientation == cursor.orientation
            }
            &&& picks_plan(state, buttons, cursor) <==> idle && buttons.left_pressed && plan_nearer
        }),
{
}

} // verus!
