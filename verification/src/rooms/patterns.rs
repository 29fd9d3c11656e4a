//! Room patterns: what makes a region a yard, a house or a bedroom.

use crate::rooms::contents::{AdjacentPairCount, TagCount};
use crate::rooms::signature::{Fraction, PatternDomain, RoomSignature};
use vstd::prelude::*;

verus! {

/// A share in millionths; 1 000 000 is the whole.
#[derive(Clone, Copy, Debug, PartialEq, Eq, Structural)]
pub struct Millionths(pub u32);

/// What holds up a floor cell.
#[derive(Clone, Copy, Debug, PartialEq, Eq, Structural)]
pub enum FloorKind {
    Solid,
    WaterBelow,
    SupportInCell,
}

/// One condition on a signature.
#[allow(inconsistent_fields)]
pub enum Constraint {
    Volume { min: Option<u32>, max: Option<u32> },
    FloorArea { min: Option<u32>, max: Option<u32> },
    EnclosureHeight { min: Option<u32>, max: Option<u32> },
    HasRoof { required: bool },
    RoofFraction { min: Option<Millionths>, max: Option<Millionths> },
    FloorFraction { surface: FloorKind, min: Millionths },
    TagCount { tag: String, min: u32, max: Option<u32> },
    TagFraction { tag: String, min: Millionths },
    ComponentSize { min: Option<u32>, max: Option<u32> },
    DoorCount { min: u32, max: Option<u32> },
    AdjacentPair { a: String, b: String, min: u32 },
}

/// A kind of room. It inherits every condition of its parent.
pub struct RoomPattern {
    pub id: String,
    pub display_name: String,
    pub parent: Option<String>,
    pub domain: PatternDomain,
    pub constraints: Vec<Constraint>,
    pub priority: i32,
}

// ---------- conditions ----------

pub open spec fn within_spec(v: u32, min: Option<u32>, max: Option<u32>) -> bool {
    &&& min matches Some(m) ==> v >= m
    &&& max matches Some(m) ==> v <= m
}

fn within(v: u32, min: Option<u32>, max: Option<u32>) -> (r: bool)
    ensures
        r == within_spec(v, min, max),
{
    let above: bool = match min {
        Some(m) => v >= m,
        None => true,
    };
    let below: bool = match max {
        Some(m) => v <= m,
        None => true,
    };
    above && below
}

/// `part / whole` is at least `m`; nothing out of nothing counts as none.
pub open spec fn share_reaches(part: u32, whole: u32, m: Millionths) -> bool {
    if whole == 0 {
        m.0 == 0
    } else {
        part * 1000000 >= m.0 * whole
    }
}

/// `part / whole` is at most `m`.
pub open spec fn share_stays(part: u32, whole: u32, m: Millionths) -> bool {
    whole == 0 || part * 1000000 <= m.0 * whole
}

fn reaches(part: u32, whole: u32, m: Millionths) -> (r: bool)
    ensures
        r == share_reaches(part, whole, m),
{
    assert(m.0 * whole <= 0xffff_ffff * 0xffff_ffff) by (nonlinear_arith)
        requires
            m.0 <= 0xffff_ffff,
            whole <= 0xffff_ffff,
    ;
    if whole == 0 {
        m.0 == 0
    } else {
        part as u64 * 1000000 >= m.0 as u64 * whole as u64
    }
}

fn stays(part: u32, whole: u32, m: Millionths) -> (r: bool)
    ensures
        r == share_stays(part, whole, m),
{
    assert(m.0 * whole <= 0xffff_ffff * 0xffff_ffff) by (nonlinear_arith)
        requires
            m.0 <= 0xffff_ffff,
            whole <= 0xffff_ffff,
    ;
    whole == 0 || part as u64 * 1000000 <= m.0 as u64 * whole as u64
}

/// The count listed for tag `t` from position `i` on, 0 where it is not listed.
pub open spec fn listed_count(list: Seq<TagCount>, t: Seq<char>, i: int) -> u32
    decreases list.len() - i,
{
    if i >= list.len() {
        0
    } else if list[i].tag@ == t {
        list[i].count
    } else {
        listed_count(list, t, i + 1)
    }
}

/// The count listed for the pair `(a, b)` from position `i` on.
pub open spec fn listed_pair(
    list: Seq<AdjacentPairCount>,
    a: Seq<char>,
    b: Seq<char>,
    i: int,
) -> u32
    decreases list.len() - i,
{
    if i >= list.len() {
        0
    } else if list[i].a@ == a && list[i].b@ == b {
        list[i].count
    } else {
        listed_pair(list, a, b, i + 1)
    }
}

fn find_count(list: &Vec<TagCount>, t: &String) -> (r: u32)
    ensures
        r == listed_count(list@, t@, 0),
{
    let mut i: usize = 0;
    while i < list.len()
        invariant
            i <= list@.len(),
            listed_count(list@, t@, 0) == listed_count(list@, t@, i as int),
        decreases list@.len() - i,
    {
        if list[i].tag == *t {
            return list[i].count;
        }
        i = i + 1;
    }
    0
}

fn find_pair(list: &Vec<AdjacentPairCount>, a: &String, b: &String) -> (r: u32)
    ensures
        r == listed_pair(list@, a@, b@, 0),
{
    let mut i: usize = 0;
    while i < list.len()
        invariant
            i <= list@.len(),
            listed_pair(list@, a@, b@, 0) == listed_pair(list@, a@, b@, i as int),
        decreases list@.len() - i,
    {
        if list[i].a == *a && list[i].b == *b {
            return list[i].count;
        }
        i = i + 1;
    }
    0
}

pub open spec fn value_or<T>(o: Option<T>, default: T) -> T {
    match o {
        Some(v) => v,
        None => default,
    }
}

/// The signature satisfies the condition.
pub open spec fn satisfies(c: Constraint, sig: &RoomSignature) -> bool {
    match c {
        Constraint::Volume { min, max } => within_spec(value_or(sig.volume, 0), min, max),
        Constraint::FloorArea { min, max } => within_spec(
            value_or(sig.walkable_count, sig.cell_count),
            min,
            max,
        ),
        Constraint::EnclosureHeight { min, max } => within_spec(
            value_or(sig.enclosure_height, 0),
            min,
            max,
        ),
        Constraint::HasRoof { required } => sig.has_roof == Some(required),
        Constraint::RoofFraction { min, max } => {
            let f = value_or(sig.roof_fraction, Fraction { part: 0, whole: 1 });
            &&& min matches Some(m) ==> share_reaches(f.part, f.whole, m)
            &&& max matches Some(m) ==> share_stays(f.part, f.whole, m)
        },
        Constraint::FloorFraction { surface, min } => match sig.floor_composition {
            None => min.0 == 0,
            Some(comp) => share_reaches(
                match surface {
                    FloorKind::Solid => comp.solid,
                    FloorKind::WaterBelow => comp.water_below,
                    FloorKind::SupportInCell => comp.support_in_cell,
                },
                sig.cell_count,
                min,
            ),
        },
        Constraint::TagCount { tag, min, max } => {
            let n = listed_count(sig.tag_counts@, tag@, 0);
            n >= min && (max matches Some(m) ==> n <= m)
        },
        Constraint::TagFraction { tag, min } => share_reaches(
            listed_count(sig.tag_counts@, tag@, 0),
            if sig.cell_count == 0 {
                1
            } else {
                sig.cell_count
            },
            min,
        ),
        Constraint::ComponentSize { min, max } => within_spec(sig.cell_count, min, max),
        Constraint::DoorCount { min, max } => {
            let n = value_or(sig.door_count, 0);
            n >= min && (max matches Some(m) ==> n <= m)
        },
        Constraint::AdjacentPair { a, b, min } => listed_pair(
            sig.adjacent_pairs@,
            a@,
            b@,
            0,
        ) >= min,
    }
}

pub fn evaluate_constraint(c: &Constraint, sig: &RoomSignature) -> (r: bool)
    ensures
        r == satisfies(*c, sig),
{
    match c {
        Constraint::Volume { min, max } => {
            let v: u32 = match sig.volume {
                Some(v) => v,
                None => 0,
            };
            within(v, *min, *max)
        },
        Constraint::FloorArea { min, max } => {
            let v: u32 = match sig.walkable_count {
                Some(v) => v,
                None => sig.cell_count,
            };
            within(v, *min, *max)
        },
        Constraint::EnclosureHeight { min, max } => {
            let v: u32 = match sig.enclosure_height {
                Some(v) => v,
                None => 0,
            };
            within(v, *min, *max)
        },
        Constraint::HasRoof { required } => match sig.has_roof {
            Some(v) => v == *required,
            None => false,
        },
        Constraint::RoofFraction { min, max } => {
            let f: Fraction = match sig.roof_fraction {
                Some(f) => f,
                None => Fraction { part: 0, whole: 1 },
            };
            let above: bool = match min {
                Some(m) => reaches(f.part, f.whole, *m),
                None => true,
            };
            let below: bool = match max {
                Some(m) => stays(f.part, f.whole, *m),
                None => true,
            };
            above && below
        },
        Constraint::FloorFraction { surface, min } => match sig.floor_composition {
            None => min.0 == 0,
            Some(comp) => {
                let part: u32 = match surface {
                    FloorKind::Solid => comp.solid,
                    FloorKind::WaterBelow => comp.water_below,
                    FloorKind::SupportInCell => comp.support_in_cell,
                };
                reaches(part, sig.cell_count, *min)
            },
        },
        Constraint::TagCount { tag, min, max } => {
            let n: u32 = find_count(&sig.tag_counts, tag);
            let below: bool = match max {
                Some(m) => n <= *m,
                None => true,
            };
            n >= *min && below
        },
        Constraint::TagFraction { tag, min } => {
            let n: u32 = find_count(&sig.tag_counts, tag);
            let whole: u32 = if sig.cell_count == 0 {
                1
            } else {
                sig.cell_count
            };
            reaches(n, whole, *min)
        },
        Constraint::ComponentSize { min, max } => within(sig.cell_count, *min, *max),
        Constraint::DoorCount { min, max } => {
            let n: u32 = match sig.door_count {
                Some(n) => n,
                None => 0,
            };
            let below: bool = match max {
                Some(m) => n <= *m,
                None => true,
            };
            n >= *min && below
        },
        Constraint::AdjacentPair { a, b, min } => find_pair(&sig.adjacent_pairs, a, b) >= *min,
    }
}

// ---------- registry ----------

#[derive(Debug)]
pub enum RoomBootstrapError {
    Duplicate(String),
    UnknownParent { child: String, parent: String },
    DomainMismatch {
        child: String,
        child_domain: PatternDomain,
        parent: String,
        parent_domain: PatternDomain,
    },
    Cycle(String),
}

/// Position of the first pattern with this id, from `i` on.
pub open spec fn index_from(pats: Seq<RoomPattern>, id: Seq<char>, i: int) -> Option<int>
    decreases pats.len() - i,
{
    if i >= pats.len() {
        None
    } else if pats[i].id@ == id {
        Some(i)
    } else {
        index_from(pats, id, i + 1)
    }
}

pub open spec fn index_of(pats: Seq<RoomPattern>, id: Seq<char>) -> Option<int> {
    index_from(pats, id, 0)
}

/// The parent of pattern `i`.
pub open spec fn parent_of(pats: Seq<RoomPattern>, i: int) -> Option<int> {
    match pats[i].parent {
        None => None,
        Some(p) => index_of(pats, p@),
    }
}

/// The `k`-th ancestor of pattern `i`; it is its own ancestor for `k == 0`.
pub open spec fn ancestor(pats: Seq<RoomPattern>, i: int, k: nat) -> Option<int>
    decreases k,
{
    if k == 0 {
        Some(i)
    } else {
        match ancestor(pats, i, (k - 1) as nat) {
            None => None,
            Some(a) => parent_of(pats, a),
        }
    }
}

/// How the climb from a pattern to its root ends.
pub enum ClimbEnd {
    Root(nat),
    UnknownParent(int),
    DomainMismatch(int, int),
    Cycle,
}

/// Climbs from `at`, having seen the patterns listed.
pub open spec fn climb(pats: Seq<RoomPattern>, at: int, seen: Seq<int>) -> ClimbEnd
    decreases pats.len() + 1 - seen.len(),
{
    if seen.len() > pats.len() {
        // More patterns seen than there are: some repeat.
        ClimbEnd::Cycle
    } else {
        match pats[at].parent {
            None => ClimbEnd::Root((seen.len() - 1) as nat),
            Some(id) => match index_of(pats, id@) {
                None => ClimbEnd::UnknownParent(at),
                Some(p) => if pats[p].domain != pats[at].domain {
                    ClimbEnd::DomainMismatch(at, p)
                } else if seen.contains(p) {
                    ClimbEnd::Cycle
                } else {
                    climb(pats, p, seen.push(p))
                },
            },
        }
    }
}

/// How the climb from pattern `i` ends.
pub open spec fn climb_end(pats: Seq<RoomPattern>, i: int) -> ClimbEnd {
    climb(pats, i, seq![i])
}

/// No two of the first `n` patterns share an id.
pub open spec fn ids_distinct(pats: Seq<RoomPattern>, n: int) -> bool {
    forall|i: int, j: int|
        #![trigger pats[i], pats[j]]
        0 <= i < j < n ==> pats[i].id@ != pats[j].id@
}

/// The error reports how the climb from pattern `i` fails.
pub open spec fn reports(pats: Seq<RoomPattern>, i: int, e: RoomBootstrapError) -> bool {
    match climb_end(pats, i) {
        ClimbEnd::Root(_) => false,
        ClimbEnd::UnknownParent(c) => e matches RoomBootstrapError::UnknownParent { child, parent }
            && child@ == pats[c].id@ && pats[c].parent is Some && parent@ == pats[c].parent->0@,
        ClimbEnd::DomainMismatch(c, p) => e matches RoomBootstrapError::DomainMismatch {
            child,
            child_domain,
            parent,
            parent_domain,
        } && child@ == pats[c].id@ && child_domain == pats[c].domain && parent@ == pats[p].id@
            && parent_domain == pats[p].domain,
        ClimbEnd::Cycle => e matches RoomBootstrapError::Cycle(id) && id@ == pats[i].id@,
    }
}

proof fn lemma_index(pats: Seq<RoomPattern>, id: Seq<char>, i: int)
    requires
        0 <= i,
    ensures
        match index_from(pats, id, i) {
            Some(k) => i <= k < pats.len() && pats[k].id@ == id && forall|j: int|
                i <= j < k ==> (#[trigger] pats[j]).id@ != id,
            None => forall|j: int| i <= j < pats.len() ==> (#[trigger] pats[j]).id@ != id,
        },
    decreases pats.len() - i,
{
    if i < pats.len() && pats[i].id@ != id {
        lemma_index(pats, id, i + 1);
    }
}

/// A climb that reaches the root does so too when less has been seen.
proof fn lemma_climb_forget(pats: Seq<RoomPattern>, at: int, pre: int, seen: Seq<int>)
    requires
        climb(pats, at, seq![pre] + seen) is Root,
        seen.len() > 0,
    ensures
        climb(pats, at, seen) == ClimbEnd::Root(
            (climb(pats, at, seq![pre] + seen)->Root_0 - 1) as nat,
        ),
        climb(pats, at, seq![pre] + seen)->Root_0 >= 1,
    decreases pats.len() + 1 - seen.len(),
{
    let long = seq![pre] + seen;
    assert(long.len() == seen.len() + 1);
    match pats[at].parent {
        None => {},
        Some(id) => {
            match index_of(pats, id@) {
                None => {},
                Some(p) => {
                    if pats[p].domain == pats[at].domain && !long.contains(p) {
                        assert(!seen.contains(p)) by {
                            if seen.contains(p) {
                                let k = choose|k: int| 0 <= k < seen.len() && seen[k] == p;
                                assert(long[k + 1] == p);
                            }
                        }
                        assert(long.push(p) =~= seq![pre] + seen.push(p));
                        lemma_climb_forget(pats, p, pre, seen.push(p));
                    }
                },
            }
        },
    }
}

/// The id repeats an earlier one, and is the first to do so.
pub open spec fn first_duplicate(pats: Seq<RoomPattern>, id: Seq<char>) -> bool {
    exists|i: int, j: int|
        #![trigger pats[i], pats[j]]
        0 <= j < i < pats.len() && pats[i].id@ == id && pats[j].id@ == id && ids_distinct(pats, i)
}

/// The error is about the first pattern that does not climb to a root.
pub open spec fn first_lost(pats: Seq<RoomPattern>, e: RoomBootstrapError) -> bool {
    exists|i: int|
        0 <= i < pats.len() && #[trigger] reports(pats, i, e) && forall|k: int|
            0 <= k < i ==> #[trigger] climb_end(pats, k) is Root
}

/// The error names the first fault of the patterns.
pub open spec fn patterns_blamed(pats: Seq<RoomPattern>, e: RoomBootstrapError) -> bool {
    match e {
        RoomBootstrapError::Duplicate(id) => first_duplicate(pats, id@),
        _ => ids_distinct(pats, pats.len() as int) && first_lost(pats, e),
    }
}

pub struct RoomPatternRegistry {
    patterns: Vec<RoomPattern>,
    parents: Vec<Option<usize>>,
    depths: Vec<u32>,
}

spec fn linked(pats: Seq<RoomPattern>, parents: Seq<Option<usize>>, depths: Seq<u32>) -> bool {
    &&& parents.len() == pats.len()
    &&& depths.len() == pats.len()
    &&& ids_distinct(pats, pats.len() as int)
    &&& forall|i: int|
        0 <= i < pats.len() ==> match #[trigger] parents[i] {
            None => parent_of(pats, i) is None && pats[i].parent is None,
            Some(p) => parent_of(pats, i) == Some(p as int) && p < pats.len() && depths[p as int]
                < depths[i],
        }
    &&& forall|i: int|
        0 <= i < pats.len() ==> climb_end(pats, i) == ClimbEnd::Root(#[trigger] depths[i] as nat)
}

impl RoomPatternRegistry {
    #[verifier::type_invariant]
    spec fn well_formed(self) -> bool {
        linked(self.patterns@, self.parents@, self.depths@)
    }

    /// The patterns in registration order.
    pub closed spec fn patterns(&self) -> Seq<RoomPattern> {
        self.patterns@
    }

    /// Depth of pattern `i` below its root.
    pub open spec fn depth(&self, i: int) -> nat {
        climb_end(self.patterns(), i)->Root_0
    }

    /// Checks and links the patterns.
    pub fn build(pending: Vec<RoomPattern>) -> (r: Result<RoomPatternRegistry, RoomBootstrapError>)
        requires
            pending@.len() < u32::MAX,
        ensures
            r is Ok <==> ids_distinct(pending@, pending@.len() as int) && forall|i: int|
                0 <= i < pending@.len() ==> #[trigger] climb_end(pending@, i) is Root,
            r matches Ok(reg) ==> reg.patterns() == pending@,
            r matches Err(e) ==> patterns_blamed(pending@, e),
    {
        let mut i: usize = 0;
        while i < pending.len()
            invariant
                i <= pending@.len(),
                ids_distinct(pending@, i as int),
            decreases pending@.len() - i,
        {
            let mut j: usize = 0;
            while j < i
                invariant
                    j <= i < pending@.len(),
                    ids_distinct(pending@, i as int),
                    forall|k: int| 0 <= k < j ==> (#[trigger] pending@[k]).id@ != pending@[i as int].id@,
                decreases i - j,
            {
                if pending[j].id == pending[i].id {
                    let id: String = pending[i].id.clone();
                    assert(pending@[j as int].id@ == id@ && pending@[i as int].id@ == id@);
                    return Err(RoomBootstrapError::Duplicate(id));
                }
                j = j + 1;
            }
            i = i + 1;
        }
        let mut parents: Vec<Option<usize>> = Vec::new();
        let mut depths: Vec<u32> = Vec::new();
        let mut n: usize = 0;
        while n < pending.len()
            invariant
                n <= pending@.len(),
                pending@.len() < u32::MAX,
                ids_distinct(pending@, pending@.len() as int),
                parents@.len() == n,
                depths@.len() == n,
                forall|k: int|
                    0 <= k < n ==> match #[trigger] parents@[k] {
                        None => parent_of(pending@, k) is None && pending@[k].parent is None,
                        Some(p) => parent_of(pending@, k) == Some(p as int) && p < pending@.len(),
                    },
                forall|k: int|
                    0 <= k < n ==> climb_end(pending@, k) == ClimbEnd::Root(
                        #[trigger] depths@[k] as nat,
                    ),
            decreases pending@.len() - n,
        {
            match Self::climb_from(&pending, n) {
                Err(e) => {
                    assert(reports(pending@, n as int, e));
                    assert forall|k: int| 0 <= k < n implies #[trigger] climb_end(pending@, k) is Root by {
                        assert(climb_end(pending@, k) == ClimbEnd::Root(depths@[k] as nat));
                    }
                    return Err(e);
                },
                Ok(depth) => {
                    depths.push(depth);
                },
            }
            match &pending[n].parent {
                None => {
                    parents.push(None);
                },
                Some(id) => {
                    let p: Option<usize> = Self::find(&pending, id);
                    proof {
                        lemma_index(pending@, id@, 0);
                        assert(climb_end(pending@, n as int) is Root);
                    }
                    parents.push(p);
                },
            }
            n = n + 1;
        }
        proof {
            let pats = pending@;
            assert forall|k: int| 0 <= k < n implies #[trigger] climb_end(pending@, k) is Root by {
                assert(climb_end(pending@, k) == ClimbEnd::Root(depths@[k] as nat));
            }
            assert forall|k: int| 0 <= k < pats.len() implies match #[trigger] parents@[k] {
                None => true,
                Some(p) => depths@[p as int] < depths@[k],
            } by {
                match parents@[k] {
                    None => {},
                    Some(p) => {
                        let q = p as int;
                        assert(climb_end(pats, k) == ClimbEnd::Root(depths@[k] as nat));
                        assert(climb_end(pats, q) == ClimbEnd::Root(depths@[q] as nat));
                        assert(seq![k].push(q) =~= seq![k] + seq![q]);
                        assert(climb(pats, k, seq![k]) == climb(pats, q, seq![k].push(q)));
                        lemma_climb_forget(pats, q, k, seq![q]);
                    },
                }
            }
        }
        Ok(RoomPatternRegistry { patterns: pending, parents, depths })
    }

    fn find(pats: &Vec<RoomPattern>, id: &String) -> (r: Option<usize>)
        ensures
            match r {
                Some(k) => index_of(pats@, id@) == Some(k as int) && k < pats@.len(),
                None => index_of(pats@, id@) is None,
            },
    {
        let mut i: usize = 0;
        while i < pats.len()
            invariant
                i <= pats@.len(),
                index_of(pats@, id@) == index_from(pats@, id@, i as int),
            decreases pats@.len() - i,
        {
            if pats[i].id == *id {
                return Some(i);
            }
            i = i + 1;
        }
        None
    }

    /// Climbs from pattern `i` to its root and returns its depth.
    fn climb_from(pats: &Vec<RoomPattern>, i: usize) -> (r: Result<u32, RoomBootstrapError>)
        requires
            i < pats@.len(),
            pats@.len() < u32::MAX,
        ensures
            match r {
                Ok(depth) => climb_end(pats@, i as int) == ClimbEnd::Root(depth as nat),
                Err(e) => reports(pats@, i as int, e) && e !is Duplicate,
            },
    {
        let mut seen: Vec<usize> = Vec::new();
        seen.push(i);
        let mut at: usize = i;
        let ghost mut trail: Seq<int> = seq![i as int];
        while seen.len() <= pats.len()
            invariant
                i < pats@.len(),
                at < pats@.len(),
                pats@.len() < u32::MAX,
                1 <= seen@.len() <= pats@.len() + 1,
                trail.len() == seen@.len(),
                forall|k: int| 0 <= k < trail.len() ==> #[trigger] trail[k] == seen@[k],
                climb_end(pats@, i as int) == climb(pats@, at as int, trail),
            decreases pats@.len() + 1 - seen@.len(),
        {
            match &pats[at].parent {
                None => {
                    return Ok((seen.len() - 1) as u32);
                },
                Some(id) => {
                    let p: usize = match Self::find(pats, id) {
                        None => {
                            return Err(
                                RoomBootstrapError::UnknownParent {
                                    child: pats[at].id.clone(),
                                    parent: id.clone(),
                                },
                            );
                        },
                        Some(p) => p,
                    };
                    if pats[p].domain != pats[at].domain {
                        return Err(
                            RoomBootstrapError::DomainMismatch {
                                child: pats[at].id.clone(),
                                child_domain: pats[at].domain,
                                parent: pats[p].id.clone(),
                                parent_domain: pats[p].domain,
                            },
                        );
                    }
                    let mut k: usize = 0;
                    while k < seen.len()
                        invariant
                            k <= seen@.len(),
                            forall|j: int| 0 <= j < k ==> seen@[j] != p,
                            i < pats@.len(),
                            at < pats@.len(),
                            p < pats@.len(),
                            seen@.len() <= pats@.len(),
                            trail.len() == seen@.len(),
                            forall|k: int| 0 <= k < trail.len() ==> #[trigger] trail[k] == seen@[k],
                            climb_end(pats@, i as int) == climb(pats@, at as int, trail),
                            pats@[at as int].parent == Some(*id),
                            index_of(pats@, id@) == Some(p as int),
                            pats@[p as int].domain == pats@[at as int].domain,
                        decreases seen@.len() - k,
                    {
                        if seen[k] == p {
                            assert(trail[k as int] == p);
                            assert(trail.contains(p as int));
                            return Err(RoomBootstrapError::Cycle(pats[i].id.clone()));
                        }
                        k = k + 1;
                    }
                    assert(!trail.contains(p as int));
                    proof {
                        trail = trail.push(p as int);
                    }
                    seen.push(p);
                    at = p;
                },
            }
        }
        Err(RoomBootstrapError::Cycle(pats[i].id.clone()))
    }

    pub fn get(&self, id: &String) -> (r: Option<&RoomPattern>)
        ensures
            match r {
                Some(p) => index_of(self.patterns(), id@) matches Some(k) && *p
                    == self.patterns()[k],
                None => index_of(self.patterns(), id@) is None,
            },
    {
        match Self::find(&self.patterns, id) {
            Some(k) => Some(&self.patterns[k]),
            None => None,
        }
    }

    pub fn depth_of(&self, id: &String) -> (r: Option<u32>)
        ensures
            match r {
                Some(d) => index_of(self.patterns(), id@) matches Some(k) && d == self.depth(k),
                None => index_of(self.patterns(), id@) is None,
            },
    {
        proof {
            use_type_invariant(self);
        }
        match Self::find(&self.patterns, id) {
            Some(k) => {
                assert(climb_end(self.patterns@, k as int) == ClimbEnd::Root(
                    self.depths@[k as int] as nat,
                ));
                Some(self.depths[k])
            },
            None => None,
        }
    }

    pub fn pattern_count(&self) -> (r: usize)
        ensures
            r == self.patterns().len(),
    {
        self.patterns.len()
    }

    /// The pattern at a position of the registration order.
    pub fn pattern_at(&self, i: usize) -> (r: &RoomPattern)
        requires
            i < self.patterns().len(),
        ensures
            *r == self.patterns()[i as int],
    {
        &self.patterns[i]
    }
}

/// A pattern whose climb ends at a root is one deeper than its parent, whose
/// climb ends there too; one without a parent is at depth zero.
pub proof fn law_child_is_one_deeper(reg: &RoomPatternRegistry, i: int)
    requires
        0 <= i < reg.patterns().len(),
        climb_end(reg.patterns(), i) is Root,
    ensures
        match parent_of(reg.patterns(), i) {
            Some(p) => 0 <= p < reg.patterns().len() && climb_end(reg.patterns(), p) is Root
                && reg.depth(i) == reg.depth(p) + 1,
            None => reg.patterns()[i].parent is None && reg.depth(i) == 0,
        },
{
    let pats = reg.patterns();
    if let Some(id) = pats[i].parent {
        lemma_index(pats, id@, 0);
        let p = parent_of(pats, i)->0;
        assert(seq![i].push(p) =~= seq![i] + seq![p]);
        lemma_climb_forget(pats, p, i, seq![p]);
    }
}

// ---------- matching ----------

/// Every condition of the pattern holds.
pub open spec fn conditions_hold(p: RoomPattern, sig: &RoomSignature) -> bool {
    forall|k: int| 0 <= k < p.constraints@.len() ==> satisfies(#[trigger] p.constraints@[k], sig)
}

/// The pattern fits: its domain is right, and its own conditions and those of
/// every ancestor hold.
pub open spec fn fits(pats: Seq<RoomPattern>, i: int, sig: &RoomSignature) -> bool {
    &&& pats[i].domain == sig.domain
    &&& forall|k: nat| #[trigger]
        ancestor(pats, i, k) matches Some(a) ==> conditions_hold(pats[a], sig)
}

/// Pattern `i` is preferred to pattern `j`: deeper, then higher priority, then
/// registered earlier.
pub open spec fn preferred(reg: &RoomPatternRegistry, i: int, j: int) -> bool {
    let pats = reg.patterns();
    ||| reg.depth(i) > reg.depth(j)
    ||| reg.depth(i) == reg.depth(j) && pats[i].priority > pats[j].priority
    ||| reg.depth(i) == reg.depth(j) && pats[i].priority == pats[j].priority && i < j
}

/// The pattern that the signature matches.
pub open spec fn best_match(reg: &RoomPatternRegistry, sig: &RoomSignature, i: int) -> bool {
    &&& 0 <= i < reg.patterns().len()
    &&& fits(reg.patterns(), i, sig)
    &&& forall|j: int|
        0 <= j < reg.patterns().len() && j != i && #[trigger] fits(reg.patterns(), j, sig)
            ==> preferred(reg, i, j)
}

proof fn lemma_no_more_ancestors(pats: Seq<RoomPattern>, i: int, k: nat, m: nat)
    requires
        ancestor(pats, i, k) is None,
        k <= m,
    ensures
        ancestor(pats, i, m) is None,
    decreases m,
{
    if k < m {
        lemma_no_more_ancestors(pats, i, k, (m - 1) as nat);
    }
}

fn conditions_met(p: &RoomPattern, sig: &RoomSignature) -> (r: bool)
    ensures
        r == conditions_hold(*p, sig),
{
    let mut k: usize = 0;
    while k < p.constraints.len()
        invariant
            k <= p.constraints@.len(),
            forall|j: int| 0 <= j < k ==> satisfies(#[trigger] p.constraints@[j], sig),
        decreases p.constraints@.len() - k,
    {
        if !evaluate_constraint(&p.constraints[k], sig) {
            return false;
        }
        k = k + 1;
    }
    true
}

impl RoomPatternRegistry {
    fn pattern_fits(&self, i: usize, sig: &RoomSignature) -> (r: bool)
        requires
            i < self.patterns().len(),
        ensures
            r == fits(self.patterns(), i as int, sig),
    {
        proof {
            use_type_invariant(self);
        }
        if self.patterns[i].domain != sig.domain {
            return false;
        }
        let ghost pats = self.patterns@;
        let ghost mut up: nat = 0;
        let mut at: usize = i;
        loop
            invariant
                linked(self.patterns@, self.parents@, self.depths@),
                pats == self.patterns@,
                i < pats.len(),
                at < pats.len(),
                pats[i as int].domain == sig.domain,
                ancestor(pats, i as int, up) == Some(at as int),
                forall|k: nat|
                    k < up ==> (#[trigger] ancestor(pats, i as int, k) matches Some(a)
                        ==> conditions_hold(pats[a], sig)),
            decreases self.depths@[at as int],
        {
            if !conditions_met(&self.patterns[at], sig) {
                return false;
            }
            match self.parents[at] {
                None => {
                    proof {
                        assert(ancestor(pats, i as int, up + 1) is None);
                        assert forall|k: nat|
                            (#[trigger] ancestor(pats, i as int, k)) is Some implies conditions_hold(
                            pats[ancestor(pats, i as int, k)->0],
                            sig,
                        ) by {
                            if k > up {
                                lemma_no_more_ancestors(pats, i as int, up + 1, k);
                            }
                        }
                    }
                    return true;
                },
                Some(p) => {
                    proof {
                        assert(ancestor(pats, i as int, up + 1) == Some(p as int));
                        up = up + 1;
                    }
                    at = p;
                },
            }
        }
    }
}

/// Finds the deepest pattern that fits, with ties broken by priority and then
/// by registration order.
pub fn match_pattern(sig: &RoomSignature, registry: &RoomPatternRegistry) -> (r: Option<String>)
    ensures
        match r {
            Some(id) => exists|i: int| #[trigger]
                best_match(registry, sig, i) && id@ == registry.patterns()[i].id@,
            None => forall|i: int|
                0 <= i < registry.patterns().len() ==> !(#[trigger] fits(
                    registry.patterns(),
                    i,
                    sig,
                )),
        },
{
    proof {
        use_type_invariant(registry);
    }
    let ghost pats = registry.patterns();
    let mut best: Option<usize> = None;
    let mut i: usize = 0;
    while i < registry.patterns.len()
        invariant
            linked(registry.patterns@, registry.parents@, registry.depths@),
            pats == registry.patterns@,
            pats == registry.patterns(),
            i <= pats.len(),
            match best {
                None => forall|j: int| 0 <= j < i ==> !(#[trigger] fits(pats, j, sig)),
                Some(b) => b < i && fits(pats, b as int, sig) && forall|j: int|
                    0 <= j < i && j != b && #[trigger] fits(pats, j, sig) ==> preferred(
                        registry,
                        b as int,
                        j,
                    ),
            },
        decreases pats.len() - i,
    {
        if registry.pattern_fits(i, sig) {
            let take: bool = match best {
                None => true,
                Some(b) => registry.depths[i] > registry.depths[b] || (registry.depths[i]
                    == registry.depths[b] && registry.patterns[i].priority
                    > registry.patterns[b].priority),
            };
            assert(climb_end(pats, i as int) == ClimbEnd::Root(registry.depths@[i as int] as nat));
            proof {
                if best is Some {
                    let b = best->0 as int;
                    assert(climb_end(pats, b) == ClimbEnd::Root(registry.depths@[b] as nat));
                    assert(take ==> preferred(registry, i as int, b));
                    assert(!take ==> preferred(registry, b, i as int));
                }
            }
            if take {
                best = Some(i);
            }
        }
        i = i + 1;
    }
    match best {
        None => None,
        Some(b) => {
            assert(best_match(registry, sig, b as int));
            Some(registry.patterns[b].id.clone())
        },
    }
}

// ---------- what a match promises ----------

/// A region counts as having a size exactly while its number is neither below
/// the smallest nor above the largest that the condition names: the walkable
/// area (all cells where none was measured), the volume, the height of the
/// enclosure, the number of cells and the number of doors (none where they were
/// not measured).
pub proof fn law_sizes_stay_between_bounds(c: Constraint, sig: &RoomSignature)
    ensures
        match c {
            Constraint::FloorArea { min, max } => {
                let n: int = if sig.walkable_count is Some {
                    sig.walkable_count->0 as int
                } else {
                    sig.cell_count as int
                };
                &&& (min is Some && n < min->0) ==> !satisfies(c, sig)
                &&& (max is Some && n > max->0) ==> !satisfies(c, sig)
                &&& (min is None || n >= min->0) && (max is None || n <= max->0) ==> satisfies(c, sig)
            },
            Constraint::Volume { min, max } => {
                let n: int = if sig.volume is Some {
                    sig.volume->0 as int
                } else {
                    0
                };
                &&& (min is Some && n < min->0) ==> !satisfies(c, sig)
                &&& (max is Some && n > max->0) ==> !satisfies(c, sig)
                &&& (min is None || n >= min->0) && (max is None || n <= max->0) ==> satisfies(c, sig)
            },
            Constraint::EnclosureHeight { min, max } => {
                let n: int = if sig.enclosure_height is Some {
                    sig.enclosure_height->0 as int
                } else {
                    0
                };
                &&& (min is Some && n < min->0) ==> !satisfies(c, sig)
                &&& (max is Some && n > max->0) ==> !satisfies(c, sig)
                &&& (min is None || n >= min->0) && (max is None || n <= max->0) ==> satisfies(c, sig)
            },
            Constraint::ComponentSize { min, max } => {
                let n = sig.cell_count;
                &&& (min is Some && n < min->0) ==> !satisfies(c, sig)
                &&& (max is Some && n > max->0) ==> !satisfies(c, sig)
                &&& (min is None || n >= min->0) && (max is None || n <= max->0) ==> satisfies(c, sig)
            },
            Constraint::DoorCount { min, max } => {
                let n: int = if sig.door_count is Some {
                    sig.door_count->0 as int
                } else {
                    0
                };
                &&& n < min ==> !satisfies(c, sig)
                &&& (max is Some && n > max->0) ==> !satisfies(c, sig)
                &&& n >= min && (max is None || n <= max->0) ==> satisfies(c, sig)
            },
            _ => true,
        },
{
}

/// A roof condition is met exactly by a region that was found to have the roof,
/// or the open sky, that it asks for. A share is met while `part` out of
/// `whole` reaches the share asked for: the roof between both its bounds (a
/// region without a roof has none of it), the floor by the cells of its kind out
/// of all cells (any region where nothing is asked for), and the share of a tag
/// by its count out of all cells, but at least one.
pub proof fn law_shares_are_compared_exactly(c: Constraint, sig: &RoomSignature)
    ensures
        match c {
            Constraint::HasRoof { required } => satisfies(c, sig) <==> match sig.has_roof {
                Some(roofed) => roofed == required,
                None => false,
            },
            Constraint::RoofFraction { min, max } => match sig.roof_fraction {
                Some(f) => f.whole > 0 ==> {
                    &&& (min is Some && f.part * 1000000 < (min->0).0 * f.whole) ==> !satisfies(c, sig)
                    &&& (max is Some && f.part * 1000000 > (max->0).0 * f.whole) ==> !satisfies(c, sig)
                    &&& (min is None || f.part * 1000000 >= (min->0).0 * f.whole) && (max is None || f.part
                        * 1000000 <= (max->0).0 * f.whole) ==> satisfies(c, sig)
                },
                None => satisfies(c, sig) <==> (min is None || (min->0).0 == 0),
            },
            Constraint::FloorFraction { surface, min } => match sig.floor_composition {
                Some(comp) => {
                    let n: int = match surface {
                        FloorKind::Solid => comp.solid as int,
                        FloorKind::WaterBelow => comp.water_below as int,
                        FloorKind::SupportInCell => comp.support_in_cell as int,
                    };
                    sig.cell_count > 0 ==> (satisfies(c, sig) <==> n * 1000000 >= min.0
                        * sig.cell_count)
                },
                None => satisfies(c, sig) <==> min.0 == 0,
            },
            _ => true,
        },
{
}

/// The number that counts for a tag, or for two kinds side by side, is the one
/// listed for it; what is not listed counts as none. A condition on it is met
/// exactly between its bounds, and one on the share of a tag compares that
/// number with all cells.
pub proof fn law_listed_numbers_count(c: Constraint, sig: &RoomSignature, k: int)
    ensures
        match c {
            Constraint::TagCount { tag, min, max } => {
                &&& (0 <= k < sig.tag_counts@.len() && sig.tag_counts@[k].tag@ == tag@ && forall|j: int|
                    0 <= j < k ==> (#[trigger] sig.tag_counts@[j]).tag@ != tag@) ==> (satisfies(c, sig)
                    <==> min <= sig.tag_counts@[k].count && (max is None || sig.tag_counts@[k].count
                    <= max->0))
                &&& (forall|j: int|
                    0 <= j < sig.tag_counts@.len() ==> (#[trigger] sig.tag_counts@[j]).tag@ != tag@)
                    ==> (satisfies(c, sig) <==> min == 0)
            },
            Constraint::TagFraction { tag, min } => {
                let whole: int = if sig.cell_count > 0 {
                    sig.cell_count as int
                } else {
                    1
                };
                &&& (0 <= k < sig.tag_counts@.len() && sig.tag_counts@[k].tag@ == tag@ && forall|j: int|
                    0 <= j < k ==> (#[trigger] sig.tag_counts@[j]).tag@ != tag@) ==> (satisfies(c, sig)
                    <==> sig.tag_counts@[k].count * 1000000 >= min.0 * whole)
                &&& (forall|j: int|
                    0 <= j < sig.tag_counts@.len() ==> (#[trigger] sig.tag_counts@[j]).tag@ != tag@)
                    ==> (satisfies(c, sig) <==> min.0 == 0)
            },
            Constraint::AdjacentPair { a, b, min } => {
                &&& (0 <= k < sig.adjacent_pairs@.len() && sig.adjacent_pairs@[k].a@ == a@
                    && sig.adjacent_pairs@[k].b@ == b@ && forall|j: int|
                    0 <= j < k ==> (#[trigger] sig.adjacent_pairs@[j]).a@ != a@
                        || sig.adjacent_pairs@[j].b@ != b@) ==> (satisfies(c, sig) <==> min
                    <= sig.adjacent_pairs@[k].count)
                &&& (forall|j: int|
                    0 <= j < sig.adjacent_pairs@.len() ==> (#[trigger] sig.adjacent_pairs@[j]).a@ != a@
                        || sig.adjacent_pairs@[j].b@ != b@) ==> (satisfies(c, sig) <==> min == 0)
            },
            _ => true,
        },
{
    match c {
        Constraint::TagCount { tag, .. } => {
            lemma_listed_count(sig.tag_counts@, tag@, 0, k);
        },
        Constraint::TagFraction { tag, min } => {
            lemma_listed_count(sig.tag_counts@, tag@, 0, k);
            let whole: int = if sig.cell_count > 0 {
                sig.cell_count as int
            } else {
                1
            };
            assert(min.0 * whole == 0 <==> min.0 == 0) by (nonlinear_arith)
                requires
                    whole > 0,
            ;
            assert(min.0 * whole >= 0) by (nonlinear_arith)
                requires
                    whole > 0,
            ;
        },
        Constraint::AdjacentPair { a, b, .. } => {
            lemma_listed_pair(sig.adjacent_pairs@, a@, b@, 0, k);
        },
        _ => {},
    }
}

proof fn lemma_listed_count(list: Seq<TagCount>, t: Seq<char>, i: int, k: int)
    requires
        0 <= i,
    ensures
        (i <= k < list.len() && list[k].tag@ == t && forall|j: int|
            i <= j < k ==> (#[trigger] list[j]).tag@ != t) ==> listed_count(list, t, i)
            == list[k].count,
        (forall|j: int| i <= j < list.len() ==> (#[trigger] list[j]).tag@ != t) ==> listed_count(
            list,
            t,
            i,
        ) == 0,
    decreases list.len() - i,
{
    if i < list.len() && list[i].tag@ != t {
        lemma_listed_count(list, t, i + 1, k);
    }
}

proof fn lemma_listed_pair(
    list: Seq<AdjacentPairCount>,
    a: Seq<char>,
    b: Seq<char>,
    i: int,
    k: int,
)
    requires
        0 <= i,
    ensures
        (i <= k < list.len() && list[k].a@ == a && list[k].b@ == b && forall|j: int|
            i <= j < k ==> (#[trigger] list[j]).a@ != a || list[j].b@ != b) ==> listed_pair(
            list,
            a,
            b,
            i,
        ) == list[k].count,
        (forall|j: int| i <= j < list.len() ==> (#[trigger] list[j]).a@ != a || list[j].b@ != b)
            ==> listed_pair(list, a, b, i) == 0,
    decreases list.len() - i,
{
    if i < list.len() && !(list[i].a@ == a && list[i].b@ == b) {
        lemma_listed_pair(list, a, b, i + 1, k);
    }
}

/// Ancestors of a child are the child and the ancestors of its parent.
proof fn lemma_ancestors_of_parent(pats: Seq<RoomPattern>, i: int, p: int, k: nat)
    requires
        parent_of(pats, i) == Some(p),
    ensures
        ancestor(pats, i, k + 1) == ancestor(pats, p, k),
    decreases k,
{
    if k > 0 {
        lemma_ancestors_of_parent(pats, i, p, (k - 1) as nat);
    } else {
        assert(ancestor(pats, i, 0) == Some(i));
    }
}

/// A pattern fits a region exactly when it is of the region's domain, each of
/// its own conditions is met, and, where it names a parent of the same domain,
/// the parent fits too. What a pattern asks for, its children ask for as well.
pub proof fn law_patterns_inherit(pats: Seq<RoomPattern>, sig: &RoomSignature, i: int, p: int)
    requires
        0 <= i < pats.len(),
        0 <= p < pats.len(),
        pats[i].domain == pats[p].domain,
        forall|a: int, b: int|
            #![trigger pats[a], pats[b]]
            0 <= a < b < pats.len() ==> pats[a].id@ != pats[b].id@,
    ensures
        (pats[i].parent is Some && pats[i].parent->0@ == pats[p].id@) ==> (fits(pats, i, sig)
            <==> pats[i].domain == sig.domain && fits(pats, p, sig) && forall|k: int|
            0 <= k < pats[i].constraints@.len() ==> satisfies(
                #[trigger] pats[i].constraints@[k],
                sig,
            )),
        pats[i].parent is None ==> (fits(pats, i, sig) <==> pats[i].domain == sig.domain
            && forall|k: int|
            0 <= k < pats[i].constraints@.len() ==> satisfies(
                #[trigger] pats[i].constraints@[k],
                sig,
            )),
{
    assert(ancestor(pats, i, 0) == Some(i));
    if let Some(id) = pats[i].parent {
        if id@ == pats[p].id@ {
            lemma_index(pats, id@, 0);
            let q = index_of(pats, id@)->0;
            assert(pats[q].id@ == pats[p].id@);
            assert(q == p);
            assert(parent_of(pats, i) == Some(p));
            if fits(pats, i, sig) {
                assert forall|k: nat| (#[trigger] ancestor(pats, p, k)) is Some implies conditions_hold(
                    pats[ancestor(pats, p, k)->0],
                    sig,
                ) by {
                    lemma_ancestors_of_parent(pats, i, p, k);
                    assert(ancestor(pats, i, k + 1) is Some);
                }
            }
            if fits(pats, p, sig) && conditions_hold(pats[i], sig) {
                assert forall|k: nat| (#[trigger] ancestor(pats, i, k)) is Some implies conditions_hold(
                    pats[ancestor(pats, i, k)->0],
                    sig,
                ) by {
                    if k > 0 {
                        lemma_ancestors_of_parent(pats, i, p, (k - 1) as nat);
                    }
                }
            }
        }
    } else {
        assert(ancestor(pats, i, 1) is None) by {
            assert(ancestor(pats, i, 0) == Some(i));
        }
        if conditions_hold(pats[i], sig) {
            assert forall|k: nat| (#[trigger] ancestor(pats, i, k)) is Some implies conditions_hold(
                pats[ancestor(pats, i, k)->0],
                sig,
            ) by {
                if k > 0 {
                    lemma_no_more_ancestors(pats, i, 1, k);
                }
            }
        }
    }
}

/// A region is never given a pattern while one of that pattern's children fits
/// too, nor one of lower priority than another that fits and is as deep, nor,
/// of two alike in both, the one registered later; and there is only one
/// pattern that it can be given.
pub proof fn law_the_most_specific_pattern_wins(
    reg: &RoomPatternRegistry,
    sig: &RoomSignature,
    i: int,
    j: int,
)
    requires
        best_match(reg, sig, i),
        0 <= j < reg.patterns().len(),
        climb_end(reg.patterns(), i) is Root,
        climb_end(reg.patterns(), j) is Root,
        fits(reg.patterns(), j, sig),
        j != i,
    ensures
        parent_of(reg.patterns(), j) != Some(i),
        parent_of(reg.patterns(), j) == parent_of(reg.patterns(), i) ==> reg.patterns()[j].priority
            <= reg.patterns()[i].priority,
        parent_of(reg.patterns(), j) == parent_of(reg.patterns(), i) && reg.patterns()[j].priority
            == reg.patterns()[i].priority ==> i < j,
        !best_match(reg, sig, j),
{
    law_child_is_one_deeper(reg, i);
    law_child_is_one_deeper(reg, j);
    assert(fits(reg.patterns(), i, sig));
}

/// Where a climb that does not reach a root ends.
proof fn lemma_climb(pats: Seq<RoomPattern>, at: int, seen: Seq<int>)
    requires
        0 <= at < pats.len(),
    ensures
        match climb(pats, at, seen) {
            ClimbEnd::UnknownParent(c) => 0 <= c < pats.len() && pats[c].parent is Some && index_of(
                pats,
                pats[c].parent->0@,
            ) is None,
            ClimbEnd::DomainMismatch(c, p) => 0 <= c < pats.len() && pats[c].parent is Some
                && index_of(pats, pats[c].parent->0@) == Some(p) && pats[p].domain
                != pats[c].domain,
            ClimbEnd::Root(_) => true,
            ClimbEnd::Cycle => pats[at].parent is Some || seen.len() > pats.len(),
        },
    decreases pats.len() + 1 - seen.len(),
{
    if seen.len() <= pats.len() {
        if let Some(id) = pats[at].parent {
            lemma_index(pats, id@, 0);
            if let Some(p) = index_of(pats, id@) {
                if pats[p].domain == pats[at].domain && !seen.contains(p) {
                    lemma_climb(pats, p, seen.push(p));
                }
            }
        }
    }
}

/// A refused set of patterns really has the fault that it is refused for: an id
/// that two of them share, a parent that no pattern has the id of, a parent of
/// another domain than its child, or a pattern whose parents lead nowhere.
pub proof fn law_refused_patterns_are_at_fault(pats: Seq<RoomPattern>, e: RoomBootstrapError)
    requires
        patterns_blamed(pats, e),
    ensures
        match e {
            RoomBootstrapError::Duplicate(id) => exists|i: int, j: int|
                0 <= j < i < pats.len() && (#[trigger] pats[i]).id@ == id@ && (
                #[trigger] pats[j]).id@ == id@,
            RoomBootstrapError::UnknownParent { child, parent } => (exists|c: int|
                0 <= c < pats.len() && (#[trigger] pats[c]).id@ == child@ && pats[c].parent is Some
                    && pats[c].parent->0@ == parent@) && forall|k: int|
                0 <= k < pats.len() ==> (#[trigger] pats[k]).id@ != parent@,
            RoomBootstrapError::DomainMismatch { child, child_domain, parent, parent_domain } =>
            child_domain != parent_domain && exists|c: int, p: int|
                0 <= c < pats.len() && 0 <= p < pats.len() && (#[trigger] pats[c]).id@ == child@
                    && (#[trigger] pats[p]).id@ == parent@ && pats[c].domain == child_domain
                    && pats[p].domain == parent_domain && pats[c].parent is Some
                    && pats[c].parent->0@ == parent@,
            RoomBootstrapError::Cycle(id) => exists|i: int|
                0 <= i < pats.len() && (#[trigger] pats[i]).id@ == id@ && pats[i].parent is Some,
        },
{
    if e is Duplicate {
    } else {
        let i = choose|i: int|
            0 <= i < pats.len() && #[trigger] reports(pats, i, e) && forall|k: int|
                0 <= k < i ==> #[trigger] climb_end(pats, k) is Root;
        lemma_climb(pats, i, seq![i]);
        match climb_end(pats, i) {
            ClimbEnd::UnknownParent(c) => {
                lemma_index(pats, pats[c].parent->0@, 0);
                assert(pats[c].id@ == pats[c].id@);
            },
            ClimbEnd::DomainMismatch(c, p) => {
                lemma_index(pats, pats[c].parent->0@, 0);
                assert(pats[c].id@ == pats[c].id@ && pats[p].id@ == pats[p].id@);
            },
            _ => {
                assert(pats[i].id@ == pats[i].id@);
            },
        }
    }
}

/// Patterns without a fault each have either no parent or one that is a pattern
/// of the same domain.
pub proof fn law_rooted_patterns_have_their_parents(pats: Seq<RoomPattern>, i: int)
    requires
        0 <= i < pats.len(),
        climb_end(pats, i) is Root,
        pats[i].parent is Some,
    ensures
        exists|p: int|
            0 <= p < pats.len() && (#[trigger] pats[p]).id@ == pats[i].parent->0@ && pats[p].domain
                == pats[i].domain && p != i,
{
    lemma_index(pats, pats[i].parent->0@, 0);
    let p = index_of(pats, pats[i].parent->0@)->0;
    assert(pats[p].id@ == pats[i].parent->0@);
    assert(seq![i][0] == i);
    assert(seq![i].contains(i));
}

} // verus!
