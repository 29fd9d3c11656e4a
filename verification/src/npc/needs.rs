//! What villagers need. Levels grow from 0, which is content, to
//! [`FULL_NEED`].

use crate::npc_registry::{NeedBoost, NeedRegistry};
use crate::registry::{find_named, lemma_position, position_of, Named};
use vstd::prelude::*;

verus! {

/// The level of a need that could not be greater, in billionths.
pub const FULL_NEED: u32 = 1000000000;

pub struct NeedLevel {
    pub id: String,
    pub level: u32,
}

impl Named for NeedLevel {
    open spec fn name(&self) -> Seq<char> {
        self.id@
    }

    fn is_named(&self, id: &String) -> bool {
        self.id == *id
    }
}

/// The needs of one villager.
pub struct Needs {
    pub levels: Vec<NeedLevel>,
}

impl View for Needs {
    type V = Seq<NeedLevel>;

    open spec fn view(&self) -> Seq<NeedLevel> {
        self.levels@
    }
}

/// The level of a need; 0 for one that the villager does not have.
pub open spec fn level_of(levels: Seq<NeedLevel>, id: Seq<char>) -> u32 {
    match position_of(levels, id, 0) {
        Some(k) => levels[k].level,
        None => 0,
    }
}

/// The factor by which a high need of another kind counts, in thousandths.
pub open spec fn boost_factor(levels: Seq<NeedLevel>, boost: Option<NeedBoost>) -> int {
    match boost {
        Some(b) => if level_of(levels, b.need@) >= b.above {
            b.multiplier as int
        } else {
            1000
        },
        None => 1000,
    }
}

/// How much a need grows in some time.
pub open spec fn growth(levels: Seq<NeedLevel>, reg: &NeedRegistry, id: Seq<char>, dt_ms: int) -> int {
    match reg.find(id) {
        Some(d) => d.decay_per_sec * boost_factor(levels, d.decay_boost) * dt_ms / 1000000,
        None => 0,
    }
}

/// The needs after some time.
pub open spec fn grown(levels: Seq<NeedLevel>, reg: &NeedRegistry, dt_ms: int) -> Seq<NeedLevel> {
    Seq::new(
        levels.len(),
        |i: int|
            NeedLevel {
                id: levels[i].id,
                level: if levels[i].level + growth(levels, reg, levels[i].id@, dt_ms)
                    <= FULL_NEED {
                    (levels[i].level + growth(levels, reg, levels[i].id@, dt_ms)) as u32
                } else {
                    FULL_NEED
                },
            },
    )
}

/// The needs after one of them was eased. One that the villager does not have
/// stays that way.
pub open spec fn eased(levels: Seq<NeedLevel>, id: Seq<char>, amount: int) -> Seq<NeedLevel> {
    match position_of(levels, id, 0) {
        None => levels,
        Some(k) => levels.update(
            k,
            NeedLevel {
                id: levels[k].id,
                level: if levels[k].level > amount {
                    (levels[k].level - amount) as u32
                } else {
                    0
                },
            },
        ),
    }
}

/// The need has grown so high that everything else has to wait.
pub open spec fn is_pressing(levels: Seq<NeedLevel>, reg: &NeedRegistry, i: int) -> bool {
    match reg.find(levels[i].id@) {
        Some(d) => d.preempt_threshold matches Some(t) && levels[i].level >= t,
        None => false,
    }
}

/// Some need is pressing.
pub open spec fn any_pressing(levels: Seq<NeedLevel>, reg: &NeedRegistry) -> bool {
    exists|i: int| 0 <= i < levels.len() && #[trigger] is_pressing(levels, reg, i)
}

impl Needs {
    pub fn level(&self, id: &String) -> (r: u32)
        ensures
            r == level_of(self@, id@),
    {
        match find_named(&self.levels, id) {
            Some(k) => self.levels[k].level,
            None => 0,
        }
    }

    pub fn copy(&self) -> (r: Needs)
        ensures
            r@ == self@,
    {
        let mut levels: Vec<NeedLevel> = Vec::new();
        let mut i: usize = 0;
        while i < self.levels.len()
            invariant
                i <= self@.len(),
                levels@ == self@.take(i as int),
            decreases self@.len() - i,
        {
            levels.push(NeedLevel { id: self.levels[i].id.clone(), level: self.levels[i].level });
            assert(levels@ =~= self@.take(i + 1));
            i = i + 1;
        }
        assert(levels@ =~= self@);
        Needs { levels }
    }

    /// The factor by which a high need of another kind counts, in thousandths.
    pub fn factor(&self, boost: &Option<NeedBoost>) -> (r: u32)
        ensures
            r == boost_factor(self@, *boost),
    {
        match boost {
            Some(b) => if self.level(&b.need) >= b.above {
                b.multiplier
            } else {
                1000
            },
            None => 1000,
        }
    }

    fn growth_of(&self, reg: &NeedRegistry, id: &String, dt_ms: u32) -> (r: u128)
        ensures
            r == growth(self@, reg, id@, dt_ms as int),
    {
        let decay: u32 = reg.decay_per_sec(id);
        let factor: u32 = match reg.decay_boost(id) {
            Some(b) => if self.level(&b.need) >= b.above {
                b.multiplier
            } else {
                1000
            },
            None => 1000,
        };
        assert(0 <= decay * factor <= 0xffff_ffff * 0xffff_ffff) by (nonlinear_arith)
            requires
                0 <= decay <= 0xffff_ffff,
                0 <= factor <= 0xffff_ffff,
        ;
        let rate: u128 = decay as u128 * factor as u128;
        assert(0 <= rate * dt_ms <= 0xffff_ffff_ffff_ffff * 0xffff_ffff) by (nonlinear_arith)
            requires
                0 <= rate <= 0xffff_ffff * 0xffff_ffff,
                0 <= dt_ms <= 0xffff_ffff,
        ;
        proof {
            if reg.find(id@) is None {
                assert(decay == 0);
                assert(rate == 0) by (nonlinear_arith)
                    requires
                        decay == 0,
                        rate == decay * factor,
                ;
                assert(rate * dt_ms == 0) by (nonlinear_arith)
                    requires
                        rate == 0,
                ;
            }
        }
        rate * dt_ms as u128 / 1000000
    }

    /// Lets time pass.
    pub fn advance(&mut self, reg: &NeedRegistry, dt_ms: u32)
        ensures
            final(self)@ == grown(old(self)@, reg, dt_ms as int),
    {
        let mut next: Vec<NeedLevel> = Vec::new();
        let mut i: usize = 0;
        while i < self.levels.len()
            invariant
                self@ == old(self)@,
                i <= self@.len(),
                next@ == grown(self@, reg, dt_ms as int).take(i as int),
            decreases self@.len() - i,
        {
            let id: String = self.levels[i].id.clone();
            let gain: u128 = self.growth_of(reg, &id, dt_ms);
            let level: u32 = self.levels[i].level;
            let raised: u32 = if level <= FULL_NEED && gain <= (FULL_NEED - level) as u128 {
                level + gain as u32
            } else {
                FULL_NEED
            };
            next.push(NeedLevel { id, level: raised });
            assert(next@ =~= grown(self@, reg, dt_ms as int).take(i + 1));
            i = i + 1;
        }
        assert(next@ =~= grown(self@, reg, dt_ms as int));
        self.levels = next;
    }

    /// Eases a need.
    pub fn ease(&mut self, id: &String, amount: u32)
        ensures
            final(self)@ == eased(old(self)@, id@, amount as int),
    {
        if let Some(k) = find_named(&self.levels, id) {
            let level: u32 = self.levels[k].level;
            let left: u32 = if level > amount {
                level - amount
            } else {
                0
            };
            let name: String = self.levels[k].id.clone();
            self.levels.set(k, NeedLevel { id: name, level: left });
        }
    }

    /// Is some need pressing?
    pub fn pressing(&self, reg: &NeedRegistry) -> (r: bool)
        ensures
            r == any_pressing(self@, reg),
    {
        let mut i: usize = 0;
        while i < self.levels.len()
            invariant
                i <= self@.len(),
                forall|k: int| 0 <= k < i ==> !#[trigger] is_pressing(self@, reg, k),
            decreases self@.len() - i,
        {
            if let Some(t) = reg.preempt_threshold(&self.levels[i].id) {
                if self.levels[i].level >= t {
                    assert(is_pressing(self@, reg, i as int));
                    return true;
                }
            }
            assert(!is_pressing(self@, reg, i as int));
            i = i + 1;
        }
        false
    }
}

/// Needs stay within their range: time raises them up to the full level,
/// easing lowers them, and no need appears or goes away.
pub proof fn law_needs_stay_in_range(
    levels: Seq<NeedLevel>,
    reg: &NeedRegistry,
    dt_ms: int,
    id: Seq<char>,
    amount: int,
    i: int,
)
    requires
        0 <= i < levels.len(),
        levels[i].level <= FULL_NEED,
        dt_ms >= 0,
        amount >= 0,
    ensures
        grown(levels, reg, dt_ms).len() == levels.len(),
        grown(levels, reg, dt_ms)[i].id == levels[i].id,
        levels[i].level <= grown(levels, reg, dt_ms)[i].level <= FULL_NEED,
        eased(levels, id, amount).len() == levels.len(),
        eased(levels, id, amount)[i].id == levels[i].id,
        eased(levels, id, amount)[i].level <= levels[i].level,
{
    lemma_position(levels, id, 0);
    if let Some(d) = reg.find(levels[i].id@) {
        let f = boost_factor(levels, d.decay_boost);
        assert(d.decay_per_sec * f * dt_ms >= 0) by (nonlinear_arith)
            requires
                d.decay_per_sec >= 0,
                f >= 0,
                dt_ms >= 0,
        ;
        assert(growth(levels, reg, levels[i].id@, dt_ms) >= 0);
    }
}

/// Easing a need lowers it by the amount, though not below zero, and leaves
/// every other need where it was. A villager that does not have the need keeps
/// all of its needs as they are.
pub proof fn law_easing_lowers_one_need(
    levels: Seq<NeedLevel>,
    id: Seq<char>,
    other: Seq<char>,
    amount: int,
)
    requires
        amount >= 0,
    ensures
        level_of(levels, id) >= amount ==> level_of(eased(levels, id, amount), id) == level_of(
            levels,
            id,
        ) - amount,
        level_of(levels, id) < amount ==> level_of(eased(levels, id, amount), id) == 0,
        other != id ==> level_of(eased(levels, id, amount), other) == level_of(levels, other),
        eased(levels, id, amount).len() == levels.len(),
{
    let after = eased(levels, id, amount);
    lemma_position(levels, id, 0);
    lemma_position(levels, other, 0);
    assert forall|k: int| 0 <= k < levels.len() implies (#[trigger] after[k]).name()
        == levels[k].name() by {}
    lemma_names_stay(levels, after, id, 0);
    lemma_names_stay(levels, after, other, 0);
}

/// Lists with the same names have them at the same positions.
proof fn lemma_names_stay(a: Seq<NeedLevel>, b: Seq<NeedLevel>, id: Seq<char>, i: int)
    requires
        a.len() == b.len(),
        forall|k: int| 0 <= k < a.len() ==> (#[trigger] b[k]).name() == a[k].name(),
        0 <= i,
    ensures
        position_of(a, id, i) == position_of(b, id, i),
    decreases a.len() - i,
{
    if i < a.len() {
        assert(b[i].name() == a[i].name());
        lemma_names_stay(a, b, id, i + 1);
    }
}

/// The level of a need is that of its entry; a need without an entry is at 0.
pub proof fn law_levels_are_those_listed(levels: Seq<NeedLevel>, id: Seq<char>, k: int)
    ensures
        (0 <= k < levels.len() && levels[k].id@ == id && forall|j: int|
            0 <= j < k ==> (#[trigger] levels[j]).id@ != id) ==> level_of(levels, id)
            == levels[k].level,
        (forall|j: int| 0 <= j < levels.len() ==> (#[trigger] levels[j]).id@ != id) ==> level_of(
            levels,
            id,
        ) == 0,
{
    lemma_position(levels, id, 0);
    if let Some(p) = position_of(levels, id, 0) {
        assert(levels[p].name() == levels[p].id@);
        if 0 <= k < levels.len() && levels[k].id@ == id {
            assert(levels[k].name() == id);
            assert(p <= k);
        }
    } else if 0 <= k < levels.len() {
        assert(levels[k].name() == levels[k].id@);
    }
}

/// In a time without anything that speeds it up, a need grows by its own pace:
/// so much per second, up to the full level. Where another need has reached the
/// level from which it counts, the growth is multiplied by its factor, given in
/// thousandths; below that level it is not. A need of no known kind does not
/// grow.
pub proof fn law_needs_grow_at_their_pace(
    levels: Seq<NeedLevel>,
    reg: &NeedRegistry,
    dt_ms: int,
    i: int,
)
    requires
        0 <= i < levels.len(),
        levels[i].level <= 1000000000,
        dt_ms >= 0,
    ensures
        ({
            let before: int = levels[i].level as int;
            let after: int = grown(levels, reg, dt_ms)[i].level as int;
            match reg.find(levels[i].id@) {
                Some(d) => {
                    let gain: int = match d.decay_boost {
                        Some(b) => if level_of(levels, b.need@) >= b.above {
                            (d.decay_per_sec * b.multiplier * dt_ms) / 1000000
                        } else {
                            (d.decay_per_sec * dt_ms) / 1000
                        },
                        None => (d.decay_per_sec * dt_ms) / 1000,
                    };
                    &&& before + gain <= 1000000000 ==> after == before + gain
                    &&& before + gain > 1000000000 ==> after == 1000000000
                },
                None => after == before,
            }
        }),
{
    if let Some(d) = reg.find(levels[i].id@) {
        let rate = d.decay_per_sec as int;
        let whole = rate * dt_ms;
        assert(rate * 1000 * dt_ms == 1000 * whole) by (nonlinear_arith)
            requires
                whole == rate * dt_ms,
        ;
        assert((1000 * whole) / 1000000 == whole / 1000);
        let f = boost_factor(levels, d.decay_boost);
        assert(d.decay_per_sec * f * dt_ms >= 0) by (nonlinear_arith)
            requires
                d.decay_per_sec >= 0,
                f >= 0,
                dt_ms >= 0,
        ;
    }
}

/// A need presses exactly when it is of a known kind that says from which level
/// on it interrupts, and that level is reached.
pub proof fn law_needs_press_from_their_threshold(levels: Seq<NeedLevel>, reg: &NeedRegistry, i: int)
    requires
        0 <= i < levels.len(),
    ensures
        ({
            let d = reg.find(levels[i].id@);
            &&& (d is Some && (d->0).preempt_threshold is Some && levels[i].level
                >= (d->0).preempt_threshold->0) ==> any_pressing(levels, reg)
            &&& (forall|k: int|
                0 <= k < levels.len() ==> (reg.find((#[trigger] levels[k]).id@) is None || (
                reg.find(levels[k].id@)->0).preempt_threshold is None || levels[k].level < (reg.find(
                    levels[k].id@,
                )->0).preempt_threshold->0)) ==> !any_pressing(levels, reg)
        }),
{
    if is_pressing(levels, reg, i) {
        assert(any_pressing(levels, reg));
    }
}

} // verus!
