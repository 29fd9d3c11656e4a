//! What the player's mouse buttons mean at the moment.

use vstd::prelude::*;

verus! {

#[derive(Clone, Copy, Debug, PartialEq, Eq, Hash, Structural)]
pub enum PlayerMode {
    Normal,
    Plan,
    Storage,
}

impl Default for PlayerMode {
    fn default() -> (r: PlayerMode)
        ensures
            r == PlayerMode::Normal,
    {
        PlayerMode::Normal
    }
}

/// The place of a mode in the cycle.
pub open spec fn place(mode: PlayerMode) -> int {
    match mode {
        PlayerMode::Normal => 0,
        PlayerMode::Plan => 1,
        PlayerMode::Storage => 2,
    }
}

/// The mode at a place in the cycle.
pub open spec fn mode_at(i: int) -> PlayerMode {
    if i == 0 {
        PlayerMode::Normal
    } else if i == 1 {
        PlayerMode::Plan
    } else {
        PlayerMode::Storage
    }
}

impl PlayerMode {
    /// The next mode in the cycle, or the one before.
    pub open spec fn cycled(self, forward: bool) -> PlayerMode {
        if forward {
            mode_at((place(self) + 1) % 3)
        } else {
            mode_at((place(self) + 2) % 3)
        }
    }

    /// All modes, in the order of the cycle.
    pub fn all() -> (r: [PlayerMode; 3])
        ensures
            forall|i: int| 0 <= i < 3 ==> #[trigger] r@[i] == mode_at(i),
    {
        [PlayerMode::Normal, PlayerMode::Plan, PlayerMode::Storage]
    }

    pub fn label(self) -> (r: &'static str)
        ensures
            r@ == match self {
                PlayerMode::Normal => "Normal"@,
                PlayerMode::Plan => "Plan"@,
                PlayerMode::Storage => "Storage"@,
            },
    {
        match self {
            PlayerMode::Normal => "Normal",
            PlayerMode::Plan => "Plan",
            PlayerMode::Storage => "Storage",
        }
    }

    pub fn icon_path(self) -> (r: &'static str)
        ensures
            r@ == match self {
                PlayerMode::Normal => "ui/mode_icons/hand_point.png"@,
                PlayerMode::Plan => "ui/mode_icons/drawing_pencil.png"@,
                PlayerMode::Storage => "ui/mode_icons/basket.png"@,
            },
    {
        match self {
            PlayerMode::Normal => "ui/mode_icons/hand_point.png",
            PlayerMode::Plan => "ui/mode_icons/drawing_pencil.png",
            PlayerMode::Storage => "ui/mode_icons/basket.png",
        }
    }

    /// What the buttons do, in short.
    pub fn verb_hint(self) -> (r: &'static str)
        ensures
            r@ == match self {
                PlayerMode::Normal => "L: mine · R: interact"@,
                PlayerMode::Plan =>
                "L: remove · R: build\n1-9/wheel: block · B: palette · Ctrl+wheel: rotate"@,
                PlayerMode::Storage => "L: clear storage · R: mark storage (drag on ground)"@,
            },
    {
        match self {
            PlayerMode::Normal => "L: mine · R: interact",
            PlayerMode::Plan =>
            "L: remove · R: build\n1-9/wheel: block · B: palette · Ctrl+wheel: rotate",
            PlayerMode::Storage => "L: clear storage · R: mark storage (drag on ground)",
        }
    }

    pub fn index(self) -> (r: usize)
        ensures
            r == place(self),
            r < 3,
    {
        match self {
            PlayerMode::Normal => 0,
            PlayerMode::Plan => 1,
            PlayerMode::Storage => 2,
        }
    }

    pub fn cycle(self, forward: bool) -> (r: PlayerMode)
        ensures
            r == self.cycled(forward),
    {
        let idx: usize = self.index();
        let next: usize = if forward {
            (idx + 1) % 3
        } else {
            (idx + 2) % 3
        };
        Self::all()[next]
    }

    /// The mode after a frame's keys: Tab goes on, Shift+Tab goes back, and
    /// nothing happens while an overlay holds the keys.
    pub fn after_input(self, captured: bool, tab: bool, shift: bool) -> (r: PlayerMode)
        ensures
            r == if !captured && tab {
                self.cycled(!shift)
            } else {
                self
            },
    {
        if !captured && tab {
            self.cycle(!shift)
        } else {
            self
        }
    }
}

/// Going on and going back undo each other, and three steps come full circle.
pub proof fn law_cycle(mode: PlayerMode, forward: bool)
    ensures
        mode.cycled(forward).cycled(!forward) == mode,
        mode.cycled(forward) != mode,
        mode.cycled(forward).cycled(forward).cycled(forward) == mode,
{
}

/// Going on leads from normal play to planning, from there to storage, and
/// back to normal play; going back takes the same way the other way round.
pub proof fn law_modes_follow_each_other(mode: PlayerMode)
    ensures
        mode.cycled(true) is Plan <==> mode is Normal,
        mode.cycled(true) is Storage <==> mode is Plan,
        mode.cycled(true) is Normal <==> mode is Storage,
        mode.cycled(false) is Storage <==> mode is Normal,
        mode.cycled(false) is Normal <==> mode is Plan,
        mode.cycled(false) is Plan <==> mode is Storage,
{
}

/// The modes stand in the cycle at the places that they say: normal play
/// first, storage last, and no two at the same place.
pub proof fn law_places_in_the_cycle(mode: PlayerMode, other: PlayerMode)
    ensures
        0 <= place(mode) < 3,
        mode_at(place(mode)) == mode,
        place(mode) == place(other) ==> mode == other,
        mode is Normal ==> place(mode) == 0,
        mode is Storage ==> place(mode) == 2,
        place(mode) + 1 < 3 ==> mode.cycled(true) == mode_at(place(mode) + 1),
{
}

} // verus!
