//! What mods declare about villagers: needs, animations, kinds, and the work
//! defaults.

use crate::blocks::NeedRestore;
use crate::registry::{
    distinct, find_named, is_repeated, lemma_position, position_of, repeated, Named,
};
use crate::strings::{has_text, insert_sorted, texts_sorted};
use vstd::prelude::*;

verus! {

/// Why the villager declarations of the mods cannot be used.
pub enum NpcBootstrapError {
    DuplicateKind(String),
    DuplicateNeed(String),
    KindNeedsUnknownNeed { kind: String, need: String },
    DuplicateAnimation(String),
    KindAnimationUnknown { kind: String, slot: AnimationUse, anim: String },
    WorkDefaultsUnknownNeed(String),
    WorkDefaultsBadDuration(u32),
    KindStatInvalid { kind: String, stat: String, problem: StatProblem },
}

/// What a kind uses an animation for.
#[derive(Clone, Copy, Debug, PartialEq, Eq, Structural)]
pub enum AnimationUse {
    Idle,
    Walk,
    Work,
}

/// What is wrong with a stat.
#[derive(Clone, Copy, Debug, PartialEq, Eq, Structural)]
pub enum StatProblem {
    EmptyId,
    MinAboveMax,
    DuplicateId,
}

// ---------- needs ----------

/// A need; rates and thresholds are in billionths of its full range.
pub struct NeedDef {
    pub id: String,
    pub display_name: String,
    pub decay_per_sec: u32,
    pub urge_threshold: Option<u32>,
    pub preempt_threshold: Option<u32>,
    pub decay_boost: Option<NeedBoost>,
}

/// An effect of another need that has grown high: a factor in thousandths.
pub struct NeedBoost {
    pub need: String,
    pub above: u32,
    pub multiplier: u32,
}

impl Named for NeedDef {
    open spec fn name(&self) -> Seq<char> {
        self.id@
    }

    fn is_named(&self, id: &String) -> bool {
        self.id == *id
    }
}

pub struct NeedRegistry {
    pub defs: Vec<NeedDef>,
}

/// The id of the first definition that repeats an earlier one.
pub open spec fn first_repeated<T: Named>(defs: Seq<T>, id: Seq<char>) -> bool {
    exists|k: int|
        0 <= k < defs.len() && #[trigger] repeated(defs, k) && defs[k].name() == id && forall|j: int|
            0 <= j < k ==> !#[trigger] repeated(defs, j)
}

impl NeedRegistry {
    /// The need with this id.
    pub open spec fn find(&self, id: Seq<char>) -> Option<NeedDef> {
        match position_of(self.defs@, id, 0) {
            Some(k) => Some(self.defs@[k]),
            None => None,
        }
    }

    pub fn build(pending: Vec<NeedDef>) -> (r: Result<NeedRegistry, NpcBootstrapError>)
        ensures
            match r {
                Ok(reg) => reg.defs == pending && crate::registry::distinct(pending@),
                Err(NpcBootstrapError::DuplicateNeed(id)) => first_repeated(pending@, id@),
                Err(_) => false,
            },
    {
        let mut i: usize = 0;
        while i < pending.len()
            invariant
                i <= pending@.len(),
                forall|k: int| 0 <= k < i ==> !#[trigger] repeated(pending@, k),
            decreases pending@.len() - i,
        {
            if is_repeated(&pending, i, &pending[i].id) {
                return Err(NpcBootstrapError::DuplicateNeed(pending[i].id.clone()));
            }
            i = i + 1;
        }
        Ok(NeedRegistry { defs: pending })
    }

    fn lookup(&self, id: &String) -> (r: Option<&NeedDef>)
        ensures
            match r {
                Some(d) => self.find(id@) == Some(*d),
                None => self.find(id@) is None,
            },
    {
        match find_named(&self.defs, id) {
            Some(k) => Some(&self.defs[k]),
            None => None,
        }
    }

    pub fn contains(&self, id: &String) -> (r: bool)
        ensures
            r == (self.find(id@) is Some),
    {
        self.lookup(id).is_some()
    }

    /// How fast the need grows. Unknown needs do not.
    pub fn decay_per_sec(&self, id: &String) -> (r: u32)
        ensures
            r == match self.find(id@) {
                Some(d) => d.decay_per_sec,
                None => 0,
            },
    {
        match self.lookup(id) {
            Some(d) => d.decay_per_sec,
            None => 0,
        }
    }

    /// From where on a villager starts to care.
    pub fn urge_threshold(&self, id: &String) -> (r: Option<u32>)
        ensures
            r == match self.find(id@) {
                Some(d) => d.urge_threshold,
                None => None,
            },
    {
        match self.lookup(id) {
            Some(d) => d.urge_threshold,
            None => None,
        }
    }

    /// From where on a villager drops everything.
    pub fn preempt_threshold(&self, id: &String) -> (r: Option<u32>)
        ensures
            r == match self.find(id@) {
                Some(d) => d.preempt_threshold,
                None => None,
            },
    {
        match self.lookup(id) {
            Some(d) => d.preempt_threshold,
            None => None,
        }
    }

    /// What makes the need grow faster.
    pub fn decay_boost(&self, id: &String) -> (r: Option<&NeedBoost>)
        ensures
            match self.find(id@) {
                Some(d) => r is Some == d.decay_boost is Some && (r matches Some(b)
                    ==> d.decay_boost == Some(*b)),
                None => r is None,
            },
    {
        match self.lookup(id) {
            Some(d) => match &d.decay_boost {
                Some(b) => Some(b),
                None => None,
            },
            None => None,
        }
    }

    pub fn need_count(&self) -> (r: usize)
        ensures
            r == self.defs@.len(),
    {
        self.defs.len()
    }
}

// ---------- animations ----------

pub struct AnimationDef {
    pub id: String,
    pub clip: String,
}

impl Named for AnimationDef {
    open spec fn name(&self) -> Seq<char> {
        self.id@
    }

    fn is_named(&self, id: &String) -> bool {
        self.id == *id
    }
}

/// Animations in the order of registration.
pub struct AnimationRegistry {
    pub defs: Vec<AnimationDef>,
}

impl AnimationRegistry {
    pub open spec fn has(&self, id: Seq<char>) -> bool {
        position_of(self.defs@, id, 0) is Some
    }

    pub fn build(pending: Vec<AnimationDef>) -> (r: Result<AnimationRegistry, NpcBootstrapError>)
        ensures
            match r {
                Ok(reg) => reg.defs == pending && crate::registry::distinct(pending@),
                Err(NpcBootstrapError::DuplicateAnimation(id)) => first_repeated(pending@, id@),
                Err(_) => false,
            },
    {
        let mut i: usize = 0;
        while i < pending.len()
            invariant
                i <= pending@.len(),
                forall|k: int| 0 <= k < i ==> !#[trigger] repeated(pending@, k),
            decreases pending@.len() - i,
        {
            if is_repeated(&pending, i, &pending[i].id) {
                return Err(NpcBootstrapError::DuplicateAnimation(pending[i].id.clone()));
            }
            i = i + 1;
        }
        Ok(AnimationRegistry { defs: pending })
    }

    pub fn contains(&self, id: &String) -> (r: bool)
        ensures
            r == self.has(id@),
    {
        find_named(&self.defs, id).is_some()
    }

    pub fn len(&self) -> (r: usize)
        ensures
            r == self.defs@.len(),
    {
        self.defs.len()
    }

    /// The `i`-th animation, in the order of registration.
    pub fn at(&self, i: usize) -> (r: &AnimationDef)
        requires
            i < self.defs@.len(),
        ensures
            *r == self.defs@[i as int],
    {
        &self.defs[i]
    }
}

// ---------- work defaults ----------

/// What work on blocks takes and gives unless they say otherwise.
pub struct WorkDefaults {
    pub duration_ms: u32,
    pub need_restore: Option<NeedRestore>,
    /// What slows work down.
    pub worn_down: Option<NeedBoost>,
}

impl Default for WorkDefaults {
    fn default() -> (r: WorkDefaults)
        ensures
            r == (WorkDefaults { duration_ms: 4000, need_restore: None, worn_down: None }),
    {
        WorkDefaults { duration_ms: 4000, need_restore: None, worn_down: None }
    }
}

/// The error names the first fault of the work defaults.
pub open spec fn defaults_blamed(d: WorkDefaults, needs: &NeedRegistry, e: NpcBootstrapError) -> bool {
    match e {
        NpcBootstrapError::WorkDefaultsBadDuration(got) => d.duration_ms == 0 && got == 0,
        NpcBootstrapError::WorkDefaultsUnknownNeed(need) => d.duration_ms > 0 && (
        d.need_restore matches Some(nr) && needs.find(nr.need@) is None && need@ == nr.need@),
        _ => false,
    }
}

/// Work defaults that were checked against the needs.
pub struct WorkDefaultsRes(pub WorkDefaults);

impl WorkDefaultsRes {
    pub fn build(pending: Option<WorkDefaults>, needs: &NeedRegistry) -> (r: Result<
        WorkDefaultsRes,
        NpcBootstrapError,
    >)
        ensures
            ({
                let d = match pending {
                    Some(p) => p,
                    None => WorkDefaults { duration_ms: 4000, need_restore: None, worn_down: None },
                };
                match r {
                    Ok(w) => w.0 == d && d.duration_ms > 0 && (d.need_restore matches Some(nr)
                        ==> needs.find(nr.need@) is Some),
                    Err(e) => defaults_blamed(d, needs, e),
                }
            }),
    {
        let defaults: WorkDefaults = match pending {
            Some(p) => p,
            None => WorkDefaults::default(),
        };
        if defaults.duration_ms == 0 {
            return Err(NpcBootstrapError::WorkDefaultsBadDuration(defaults.duration_ms));
        }
        if let Some(nr) = &defaults.need_restore {
            if !needs.contains(&nr.need) {
                return Err(NpcBootstrapError::WorkDefaultsUnknownNeed(nr.need.clone()));
            }
        }
        Ok(WorkDefaultsRes(defaults))
    }
}

// ---------- kinds ----------

/// A number that each villager of a kind gets at random, within bounds.
pub struct StatDef {
    pub id: String,
    pub min: i64,
    pub max: i64,
}

impl Named for StatDef {
    open spec fn name(&self) -> Seq<char> {
        self.id@
    }

    fn is_named(&self, id: &String) -> bool {
        self.id == *id
    }
}

pub struct KindAnimations {
    pub idle: String,
    pub walk: String,
    pub work: String,
}

/// A need and its level at birth, in billionths.
pub struct DefaultNeed {
    pub need: String,
    pub level: u32,
}

impl Named for DefaultNeed {
    open spec fn name(&self) -> Seq<char> {
        self.need@
    }

    fn is_named(&self, id: &String) -> bool {
        self.need == *id
    }
}

/// The needs that a kind declares, each once.
pub struct DefaultNeeds {
    list: Vec<DefaultNeed>,
}

impl View for DefaultNeeds {
    type V = Seq<DefaultNeed>;

    closed spec fn view(&self) -> Seq<DefaultNeed> {
        self.list@
    }
}

/// The declared needs with one set to a level.
pub open spec fn with_need(list: Seq<DefaultNeed>, need: String, level: u32) -> Seq<DefaultNeed> {
    match position_of(list, need@, 0) {
        Some(k) => list.update(k, DefaultNeed { need, level }),
        None => list.push(DefaultNeed { need, level }),
    }
}

/// Setting a need leaves every need listed once.
proof fn lemma_with_need(list: Seq<DefaultNeed>, need: String, level: u32)
    requires
        distinct(list),
    ensures
        distinct(with_need(list, need, level)),
{
    let after = with_need(list, need, level);
    lemma_position(list, need@, 0);
    assert forall|k: int| 0 <= k < after.len() implies !#[trigger] repeated(after, k) by {
        if repeated(after, k) {
            let j = choose|j: int| 0 <= j < k && (#[trigger] after[j]).name() == after[k].name();
            if k < list.len() {
                assert(list[j].name() == list[k].name());
                assert(repeated(list, k));
            } else {
                assert(list[j].name() == need@);
            }
        }
    }
}

impl DefaultNeeds {
    #[verifier::type_invariant]
    spec fn well_formed(self) -> bool {
        distinct(self.list@)
    }

    pub fn new() -> (r: DefaultNeeds)
        ensures
            r@.len() == 0,
    {
        DefaultNeeds { list: Vec::new() }
    }

    /// Declares a need, or another level for one that is declared already.
    pub fn set(&mut self, need: String, level: u32)
        ensures
            final(self)@ == with_need(old(self)@, need, level),
    {
        proof {
            use_type_invariant(&*self);
            lemma_with_need(self.list@, need, level);
        }
        let mut list: Vec<DefaultNeed> = Vec::new();
        std::mem::swap(&mut list, &mut self.list);
        match find_named(&list, &need) {
            Some(k) => list.set(k, DefaultNeed { need, level }),
            None => list.push(DefaultNeed { need, level }),
        }
        self.list = list;
    }

    pub fn len(&self) -> (r: usize)
        ensures
            r == self@.len(),
            distinct(self@),
    {
        proof {
            use_type_invariant(self);
        }
        self.list.len()
    }

    pub fn at(&self, i: usize) -> (r: &DefaultNeed)
        requires
            i < self@.len(),
        ensures
            *r == self@[i as int],
    {
        &self.list[i]
    }
}

pub struct NpcKindDef {
    pub id: String,
    /// How many items a villager of the kind carries at once.
    pub carry_capacity: u32,
    pub default_needs: DefaultNeeds,
    pub animations: KindAnimations,
    pub stats: Vec<StatDef>,
}

impl Named for NpcKindDef {
    open spec fn name(&self) -> Seq<char> {
        self.id@
    }

    fn is_named(&self, id: &String) -> bool {
        self.id == *id
    }
}

pub struct NpcKindRegistry {
    pub defs: Vec<NpcKindDef>,
}

/// First declared need that does not exist, from `i` on.
pub open spec fn unknown_need(list: Seq<DefaultNeed>, needs: &NeedRegistry, i: int) -> Option<int>
    decreases list.len() - i,
{
    if i >= list.len() {
        None
    } else if needs.find(list[i].need@) is None {
        Some(i)
    } else {
        unknown_need(list, needs, i + 1)
    }
}

/// The first use whose animation does not exist.
pub open spec fn unknown_animation(a: KindAnimations, reg: &AnimationRegistry) -> Option<
    AnimationUse,
> {
    if !reg.has(a.idle@) {
        Some(AnimationUse::Idle)
    } else if !reg.has(a.walk@) {
        Some(AnimationUse::Walk)
    } else if !reg.has(a.work@) {
        Some(AnimationUse::Work)
    } else {
        None
    }
}

/// The animation that a kind names for a use.
pub open spec fn animation_for(a: KindAnimations, u: AnimationUse) -> Seq<char> {
    match u {
        AnimationUse::Idle => a.idle@,
        AnimationUse::Walk => a.walk@,
        AnimationUse::Work => a.work@,
    }
}

/// What is wrong with the `i`-th stat.
pub open spec fn stat_problem(stats: Seq<StatDef>, i: int) -> Option<StatProblem> {
    if stats[i].id@.len() == 0 {
        Some(StatProblem::EmptyId)
    } else if stats[i].min > stats[i].max {
        Some(StatProblem::MinAboveMax)
    } else if repeated(stats, i) {
        Some(StatProblem::DuplicateId)
    } else {
        None
    }
}

/// First stat that something is wrong with, from `i` on.
pub open spec fn bad_stat(stats: Seq<StatDef>, i: int) -> Option<int>
    decreases stats.len() - i,
{
    if i >= stats.len() {
        None
    } else if stat_problem(stats, i) is Some {
        Some(i)
    } else {
        bad_stat(stats, i + 1)
    }
}

/// Nothing is wrong with the `k`-th kind.
pub open spec fn kind_ok(
    defs: Seq<NpcKindDef>,
    needs: &NeedRegistry,
    animations: &AnimationRegistry,
    k: int,
) -> bool {
    &&& unknown_need(defs[k].default_needs@, needs, 0) is None
    &&& unknown_animation(defs[k].animations, animations) is None
    &&& bad_stat(defs[k].stats@, 0) is None
    &&& !repeated(defs, k)
}

/// The error says what is wrong with the `k`-th kind. Of several faults the
/// first of these counts: a need, an animation, a stat, a repeated id.
pub open spec fn kind_blamed(
    e: NpcBootstrapError,
    defs: Seq<NpcKindDef>,
    needs: &NeedRegistry,
    animations: &AnimationRegistry,
    k: int,
) -> bool {
    let def = defs[k];
    let need = unknown_need(def.default_needs@, needs, 0);
    let anim_use = unknown_animation(def.animations, animations);
    let bad = bad_stat(def.stats@, 0);
    match e {
        NpcBootstrapError::KindNeedsUnknownNeed { kind, need: n } => need is Some && n@
            == def.default_needs@[need->0].need@ && kind@ == def.id@,
        NpcBootstrapError::KindAnimationUnknown { kind, slot, anim } => need is None && anim_use
            == Some(slot) && anim@ == animation_for(def.animations, slot) && kind@ == def.id@,
        NpcBootstrapError::KindStatInvalid { kind, stat, problem } => need is None && anim_use is None
            && bad is Some && stat@ == def.stats@[bad->0].id@ && Some(problem) == stat_problem(
            def.stats@,
            bad->0,
        ) && kind@ == def.id@,
        NpcBootstrapError::DuplicateKind(id) => need is None && anim_use is None && bad is None
            && repeated(defs, k) && id@ == def.id@,
        _ => false,
    }
}

/// The error names the first kind that something is wrong with.
pub open spec fn first_kind_blamed(
    e: NpcBootstrapError,
    defs: Seq<NpcKindDef>,
    needs: &NeedRegistry,
    animations: &AnimationRegistry,
) -> bool {
    exists|k: int|
        0 <= k < defs.len() && #[trigger] kind_blamed(e, defs, needs, animations, k)
            && forall|j: int| 0 <= j < k ==> #[trigger] kind_ok(defs, needs, animations, j)
}

fn find_unknown_need(list: &DefaultNeeds, needs: &NeedRegistry) -> (r: Option<usize>)
    ensures
        match r {
            Some(i) => unknown_need(list@, needs, 0) == Some(i as int) && i < list@.len(),
            None => unknown_need(list@, needs, 0) is None,
        },
{
    let mut i: usize = 0;
    while i < list.len()
        invariant
            i <= list@.len(),
            unknown_need(list@, needs, 0) == unknown_need(list@, needs, i as int),
        decreases list@.len() - i,
    {
        if !needs.contains(&list.at(i).need) {
            return Some(i);
        }
        i = i + 1;
    }
    None
}

fn find_bad_stat(stats: &Vec<StatDef>) -> (r: Option<(usize, StatProblem)>)
    ensures
        match r {
            Some((i, p)) => bad_stat(stats@, 0) == Some(i as int) && i < stats@.len() && stat_problem(
                stats@,
                i as int,
            ) == Some(p),
            None => bad_stat(stats@, 0) is None,
        },
{
    let mut i: usize = 0;
    while i < stats.len()
        invariant
            i <= stats@.len(),
            bad_stat(stats@, 0) == bad_stat(stats@, i as int),
        decreases stats@.len() - i,
    {
        let stat: &StatDef = &stats[i];
        if stat.id.as_str().unicode_len() == 0 {
            return Some((i, StatProblem::EmptyId));
        }
        if stat.min > stat.max {
            return Some((i, StatProblem::MinAboveMax));
        }
        if is_repeated(stats, i, &stat.id) {
            return Some((i, StatProblem::DuplicateId));
        }
        i = i + 1;
    }
    None
}

fn find_unknown_animation(a: &KindAnimations, reg: &AnimationRegistry) -> (r: Option<AnimationUse>)
    ensures
        r == unknown_animation(*a, reg),
{
    if !reg.contains(&a.idle) {
        Some(AnimationUse::Idle)
    } else if !reg.contains(&a.walk) {
        Some(AnimationUse::Walk)
    } else if !reg.contains(&a.work) {
        Some(AnimationUse::Work)
    } else {
        None
    }
}

impl NpcKindRegistry {
    /// The kind with this id.
    pub open spec fn find(&self, id: Seq<char>) -> Option<NpcKindDef> {
        match position_of(self.defs@, id, 0) {
            Some(k) => Some(self.defs@[k]),
            None => None,
        }
    }

    pub fn build(
        pending: Vec<NpcKindDef>,
        needs: &NeedRegistry,
        animations: &AnimationRegistry,
    ) -> (r: Result<NpcKindRegistry, NpcBootstrapError>)
        ensures
            match r {
                Ok(reg) => reg.defs == pending && forall|k: int|
                    0 <= k < pending@.len() ==> #[trigger] kind_ok(pending@, needs, animations, k),
                Err(e) => first_kind_blamed(e, pending@, needs, animations),
            },
    {
        let mut i: usize = 0;
        while i < pending.len()
            invariant
                i <= pending@.len(),
                forall|k: int| 0 <= k < i ==> #[trigger] kind_ok(pending@, needs, animations, k),
            decreases pending@.len() - i,
        {
            if let Some(e) = Self::fault(&pending, needs, animations, i) {
                assert(kind_blamed(e, pending@, needs, animations, i as int));
                return Err(e);
            }
            i = i + 1;
        }
        Ok(NpcKindRegistry { defs: pending })
    }

    fn fault(
        pending: &Vec<NpcKindDef>,
        needs: &NeedRegistry,
        animations: &AnimationRegistry,
        i: usize,
    ) -> (r: Option<NpcBootstrapError>)
        requires
            i < pending@.len(),
        ensures
            r is None ==> kind_ok(pending@, needs, animations, i as int),
            r matches Some(e) ==> kind_blamed(e, pending@, needs, animations, i as int),
    {
        let def: &NpcKindDef = &pending[i];
        if let Some(k) = find_unknown_need(&def.default_needs, needs) {
            return Some(
                NpcBootstrapError::KindNeedsUnknownNeed {
                    kind: def.id.clone(),
                    need: def.default_needs.at(k).need.clone(),
                },
            );
        }
        if let Some(slot) = find_unknown_animation(&def.animations, animations) {
            let anim: String = match slot {
                AnimationUse::Idle => def.animations.idle.clone(),
                AnimationUse::Walk => def.animations.walk.clone(),
                AnimationUse::Work => def.animations.work.clone(),
            };
            return Some(
                NpcBootstrapError::KindAnimationUnknown { kind: def.id.clone(), slot, anim },
            );
        }
        if let Some((k, problem)) = find_bad_stat(&def.stats) {
            return Some(
                NpcBootstrapError::KindStatInvalid {
                    kind: def.id.clone(),
                    stat: def.stats[k].id.clone(),
                    problem,
                },
            );
        }
        if is_repeated(pending, i, &def.id) {
            return Some(NpcBootstrapError::DuplicateKind(def.id.clone()));
        }
        None
    }

    pub fn get(&self, id: &String) -> (r: Option<&NpcKindDef>)
        ensures
            match r {
                Some(d) => self.find(id@) == Some(*d),
                None => self.find(id@) is None,
            },
    {
        match find_named(&self.defs, id) {
            Some(k) => Some(&self.defs[k]),
            None => None,
        }
    }

    pub fn kind_count(&self) -> (r: usize)
        ensures
            r == self.defs@.len(),
    {
        self.defs.len()
    }

    /// All ids in ascending order, so that both sides of a connection list
    /// them alike.
    pub fn ids_sorted(&self) -> (ids: Vec<String>)
        ensures
            texts_sorted(ids@),
            forall|id: Seq<char>| #[trigger] has_text(ids@, id) <==> self.find(id) is Some,
    {
        let mut ids: Vec<String> = Vec::new();
        let mut i: usize = 0;
        while i < self.defs.len()
            invariant
                i <= self.defs@.len(),
                texts_sorted(ids@),
                forall|id: Seq<char>| #[trigger]
                    has_text(ids@, id) <==> exists|k: int|
                        0 <= k < i && (#[trigger] self.defs@[k]).id@ == id,
            decreases self.defs@.len() - i,
        {
            let ghost before = ids@;
            insert_sorted(&mut ids, &self.defs[i].id);
            proof {
                assert forall|id: Seq<char>| #[trigger] has_text(ids@, id) <==> exists|k: int|
                    0 <= k < i + 1 && (#[trigger] self.defs@[k]).id@ == id by {
                    assert(has_text(before, id) <==> exists|k: int|
                        0 <= k < i && (#[trigger] self.defs@[k]).id@ == id);
                    if has_text(before, id) {
                        let k = choose|k: int| 0 <= k < i && (#[trigger] self.defs@[k]).id@ == id;
                        assert(self.defs@[k].id@ == id);
                    }
                    assert(self.defs@[i as int].id@ == self.defs@[i as int].id@);
                }
            }
            i = i + 1;
        }
        proof {
            assert forall|id: Seq<char>| #[trigger] has_text(ids@, id) <==> self.find(id) is Some by {
                lemma_position(self.defs@, id, 0);
                if has_text(ids@, id) {
                    let k = choose|k: int|
                        0 <= k < self.defs@.len() && (#[trigger] self.defs@[k]).id@ == id;
                    assert(self.defs@[k].name() == id);
                }
                if let Some(k) = position_of(self.defs@, id, 0) {
                    assert(self.defs@[k].id@ == id);
                }
            }
        }
        ids
    }
}

/// A kind is accepted exactly if every need that it declares exists, its three
/// animations exist, each of its stats has an id of its own and bounds in
/// order, and no earlier kind has its id.
pub proof fn law_accepted_kinds(
    defs: Seq<NpcKindDef>,
    needs: &NeedRegistry,
    animations: &AnimationRegistry,
    k: int,
)
    requires
        0 <= k < defs.len(),
    ensures
        kind_ok(defs, needs, animations, k) <==> {
            let def = defs[k];
            &&& forall|i: int|
                0 <= i < def.default_needs@.len() ==> needs.find(
                    (#[trigger] def.default_needs@[i]).need@,
                ) is Some
            &&& animations.has(def.animations.idle@)
            &&& animations.has(def.animations.walk@)
            &&& animations.has(def.animations.work@)
            &&& forall|i: int|
                0 <= i < def.stats@.len() ==> (#[trigger] def.stats@[i]).id@.len() > 0
                    && def.stats@[i].min <= def.stats@[i].max
            &&& forall|i: int, j: int|
                0 <= i < j < def.stats@.len() ==> (#[trigger] def.stats@[i]).id@ != (
                #[trigger] def.stats@[j]).id@
            &&& forall|j: int| 0 <= j < k ==> (#[trigger] defs[j]).id@ != def.id@
        },
{
    let def = defs[k];
    let stats = def.stats@;
    lemma_unknown_need(def.default_needs@, needs, 0);
    lemma_bad_stat(stats, 0);
    if kind_ok(defs, needs, animations, k) {
        assert forall|i: int| 0 <= i < stats.len() implies (#[trigger] stats[i]).id@.len() > 0
            && stats[i].min <= stats[i].max by {
            assert(stat_problem(stats, i) is None);
        }
        assert forall|i: int, j: int| 0 <= i < j < stats.len() implies (#[trigger] stats[i]).id@
            != (#[trigger] stats[j]).id@ by {
            assert(stat_problem(stats, j) is None);
            assert(stats[i].name() == stats[i].id@);
        }
        assert forall|j: int| 0 <= j < k implies (#[trigger] defs[j]).id@ != def.id@ by {
            assert(defs[j].name() == defs[j].id@);
        }
    } else {
        if let Some(i) = bad_stat(stats, 0) {
            assert(stat_problem(stats, i) is Some);
            if repeated(stats, i) {
                let j = choose|j: int| 0 <= j < i && (#[trigger] stats[j]).name() == stats[i].name();
                assert(stats[j].id@ == stats[i].id@);
            }
        }
        if repeated(defs, k) {
            let j = choose|j: int| 0 <= j < k && (#[trigger] defs[j]).name() == defs[k].name();
            assert(defs[j].id@ == def.id@);
        }
    }
}

proof fn lemma_unknown_need(list: Seq<DefaultNeed>, needs: &NeedRegistry, i: int)
    requires
        0 <= i <= list.len(),
    ensures
        match unknown_need(list, needs, i) {
            Some(k) => i <= k < list.len() && needs.find(list[k].need@) is None && forall|j: int|
                i <= j < k ==> needs.find((#[trigger] list[j]).need@) is Some,
            None => forall|j: int|
                i <= j < list.len() ==> needs.find((#[trigger] list[j]).need@) is Some,
        },
    decreases list.len() - i,
{
    if i < list.len() && needs.find(list[i].need@) is Some {
        lemma_unknown_need(list, needs, i + 1);
    }
}

proof fn lemma_bad_stat(stats: Seq<StatDef>, i: int)
    requires
        0 <= i <= stats.len(),
    ensures
        match bad_stat(stats, i) {
            Some(k) => i <= k < stats.len() && stat_problem(stats, k) is Some && forall|j: int|
                i <= j < k ==> (#[trigger] stat_problem(stats, j)) is None,
            None => forall|j: int|
                i <= j < stats.len() ==> (#[trigger] stat_problem(stats, j)) is None,
        },
    decreases stats.len() - i,
{
    if i < stats.len() && stat_problem(stats, i) is None {
        lemma_bad_stat(stats, i + 1);
    }
}

/// A refused kind really has the fault that it is refused for.
pub proof fn law_blamed_kinds_are_at_fault(
    e: NpcBootstrapError,
    defs: Seq<NpcKindDef>,
    needs: &NeedRegistry,
    animations: &AnimationRegistry,
    k: int,
)
    requires
        0 <= k < defs.len(),
        kind_blamed(e, defs, needs, animations, k),
    ensures
        !kind_ok(defs, needs, animations, k),
        match e {
            NpcBootstrapError::KindNeedsUnknownNeed { kind, need } => kind@ == defs[k].id@
                && needs.find(need@) is None && exists|i: int|
                0 <= i < defs[k].default_needs@.len() && (
                #[trigger] defs[k].default_needs@[i]).need@ == need@,
            NpcBootstrapError::KindAnimationUnknown { kind, slot, anim } => kind@ == defs[k].id@
                && !animations.has(anim@) && match slot {
                AnimationUse::Idle => anim@ == defs[k].animations.idle@,
                AnimationUse::Walk => anim@ == defs[k].animations.walk@,
                AnimationUse::Work => anim@ == defs[k].animations.work@,
            },
            NpcBootstrapError::KindStatInvalid { kind, stat, problem } => kind@ == defs[k].id@
                && exists|i: int|
                0 <= i < defs[k].stats@.len() && (#[trigger] defs[k].stats@[i]).id@ == stat@
                    && match problem {
                    StatProblem::EmptyId => stat@.len() == 0,
                    StatProblem::MinAboveMax => defs[k].stats@[i].min > defs[k].stats@[i].max,
                    StatProblem::DuplicateId => repeated(defs[k].stats@, i),
                },
            NpcBootstrapError::DuplicateKind(id) => id@ == defs[k].id@ && exists|j: int|
                0 <= j < k && (#[trigger] defs[j]).id@ == id@,
            _ => false,
        },
{
    let def = defs[k];
    lemma_unknown_need(def.default_needs@, needs, 0);
    lemma_bad_stat(def.stats@, 0);
    if let Some(i) = unknown_need(def.default_needs@, needs, 0) {
        assert(def.default_needs@[i].need@ == def.default_needs@[i].need@);
    }
    if let Some(i) = bad_stat(def.stats@, 0) {
        assert(def.stats@[i].id@ == def.stats@[i].id@);
    }
    if repeated(defs, k) {
        let j = choose|j: int| 0 <= j < k && (#[trigger] defs[j]).name() == defs[k].name();
        assert(defs[j].id@ == def.id@);
    }
}

/// Declaring a need gives it the level, whether or not it was declared before;
/// every other need keeps its place and its level.
pub proof fn law_declared_needs_take_the_last_level(
    list: Seq<DefaultNeed>,
    need: String,
    level: u32,
    i: int,
)
    requires
        0 <= i < list.len(),
        distinct(list),
    ensures
        ({
            let after = with_need(list, need, level);
            &&& list[i].need@ != need@ ==> after[i] == list[i]
            &&& list[i].need@ == need@ ==> after[i].need@ == need@ && after[i].level == level
                && after.len() == list.len()
            &&& after.len() == list.len() || after.len() == list.len() + 1
            &&& after.len() == list.len() + 1 ==> after.last().need@ == need@ && after.last().level
                == level
            &&& exists|k: int|
                0 <= k < after.len() && (#[trigger] after[k]).need@ == need@ && after[k].level
                    == level
        }),
{
    lemma_position(list, need@, 0);
    let after = with_need(list, need, level);
    assert(list[i].name() == list[i].need@);
    match position_of(list, need@, 0) {
        Some(k) => {
            assert(after[k].need@ == need@);
            assert(list[k].name() == list[k].need@);
            if list[i].need@ == need@ && i != k {
                assert(!repeated(list, i));
                assert(list[k].name() == list[i].name());
            }
        },
        None => {
            assert(after[list.len() as int].need@ == need@);
        },
    }
}

/// A need id stands for the first need that has it, and for none exactly if no
/// need has it; so for kinds and animations.
pub proof fn law_villager_lookups(
    needs: &NeedRegistry,
    kinds: &NpcKindRegistry,
    animations: &AnimationRegistry,
    id: Seq<char>,
)
    ensures
        needs.find(id) is Some <==> exists|k: int|
            0 <= k < needs.defs@.len() && (#[trigger] needs.defs@[k]).id@ == id,
        needs.find(id) is Some ==> (needs.find(id)->0).id@ == id,
        kinds.find(id) is Some <==> exists|k: int|
            0 <= k < kinds.defs@.len() && (#[trigger] kinds.defs@[k]).id@ == id,
        kinds.find(id) is Some ==> (kinds.find(id)->0).id@ == id,
        animations.has(id) <==> exists|k: int|
            0 <= k < animations.defs@.len() && (#[trigger] animations.defs@[k]).id@ == id,
{
    lemma_position(needs.defs@, id, 0);
    lemma_position(kinds.defs@, id, 0);
    lemma_position(animations.defs@, id, 0);
    assert forall|k: int| 0 <= k < needs.defs@.len() implies (#[trigger] needs.defs@[k]).name()
        == needs.defs@[k].id@ by {}
    assert forall|k: int| 0 <= k < kinds.defs@.len() implies (#[trigger] kinds.defs@[k]).name()
        == kinds.defs@[k].id@ by {}
    assert forall|k: int|
        0 <= k < animations.defs@.len() implies (#[trigger] animations.defs@[k]).name()
        == animations.defs@[k].id@ by {}
    if let Some(k) = position_of(needs.defs@, id, 0) {
        assert(needs.defs@[k].id@ == id);
    }
    if let Some(k) = position_of(kinds.defs@, id, 0) {
        assert(kinds.defs@[k].id@ == id);
    }
    if let Some(k) = position_of(animations.defs@, id, 0) {
        assert(animations.defs@[k].id@ == id);
    }
}

/// A list is refused for the first id in it that an earlier entry has.
pub proof fn law_repeated_ids_are_found<T: Named>(defs: Seq<T>, id: Seq<char>)
    requires
        first_repeated(defs, id),
    ensures
        !distinct(defs),
        exists|j: int, k: int|
            0 <= j < k < defs.len() && (#[trigger] defs[j]).name() == id && (
            #[trigger] defs[k]).name() == id && distinct(defs.take(k)),
{
    let k = choose|k: int|
        0 <= k < defs.len() && #[trigger] repeated(defs, k) && defs[k].name() == id && forall|j: int|
            0 <= j < k ==> !#[trigger] repeated(defs, j);
    let j = choose|j: int| 0 <= j < k && (#[trigger] defs[j]).name() == defs[k].name();
    assert(defs[j].name() == id && defs[k].name() == id);
    assert forall|m: int| 0 <= m < k implies !#[trigger] repeated(defs.take(k), m) by {
        if repeated(defs.take(k), m) {
            let i = choose|i: int|
                0 <= i < m && (#[trigger] defs.take(k)[i]).name() == defs.take(k)[m].name();
            assert(defs[i].name() == defs[m].name());
            assert(repeated(defs, m));
        }
    }
}

/// Work defaults are refused for work that takes no time, or for easing a need
/// that no need has the id of.
pub proof fn law_blamed_work_defaults_are_at_fault(
    d: WorkDefaults,
    needs: &NeedRegistry,
    e: NpcBootstrapError,
)
    requires
        defaults_blamed(d, needs, e),
    ensures
        d.duration_ms == 0 <==> e is WorkDefaultsBadDuration,
        e is WorkDefaultsUnknownNeed ==> d.need_restore is Some && forall|k: int|
            0 <= k < needs.defs@.len() ==> (#[trigger] needs.defs@[k]).id@ != (
            d.need_restore->0).need@,
        e is WorkDefaultsBadDuration || e is WorkDefaultsUnknownNeed,
{
    if let Some(nr) = d.need_restore {
        lemma_position(needs.defs@, nr.need@, 0);
        assert forall|k: int| 0 <= k < needs.defs@.len() implies (#[trigger] needs.defs@[k]).name()
            == needs.defs@[k].id@ by {}
    }
}

} // verus!
