use block_junk::blocks::{BlockDef, BlockFlags, BlockRegistry, BlockSlot, BlockWorld, NeedRestore, Regrow};
use block_junk::cells::IVec3;
use block_junk::items::{ItemDef, ItemRegistry, ItemSlot};
use block_junk::npc_registry::{
    AnimationDef, AnimationRegistry, AnimationUse, DefaultNeeds, KindAnimations, NeedDef,
    NeedRegistry, NpcBootstrapError, NpcKindDef, NpcKindRegistry, StatDef, StatProblem,
    WorkDefaults, WorkDefaultsRes,
};
use block_junk::player_mode::PlayerMode;
use block_junk::recipes::{ItemCount, RecipeBootstrapError, RecipeDef, RecipeRegistry, RecipeSlot};
use block_junk::regrow::{current_regrow_target, CellEdit, RegrowSchedule};
use block_junk::scripting::{load_declarations, shorten_toast, LoadError, PendingDeclarations};

fn s(text: &str) -> String {
    text.to_owned()
}

fn billionths(share: f64) -> u32 {
    (share * 1e9).round() as u32
}

fn need(id: &str, decay: f64, urge: Option<f64>, preempt: Option<f64>) -> NeedDef {
    NeedDef {
        id: s(id),
        display_name: s(id),
        decay_per_sec: billionths(decay),
        urge_threshold: urge.map(billionths),
        preempt_threshold: preempt.map(billionths),
        decay_boost: None,
    }
}

fn needs_of(list: Vec<NeedDef>) -> NeedRegistry {
    match NeedRegistry::build(list) {
        Ok(r) => r,
        Err(_) => panic!("needs build"),
    }
}

#[test]
fn need_registry_returns_per_need_thresholds() {
    let registry = needs_of(vec![
        need("hunger", 0.01, Some(0.3), Some(0.6)),
        need("work", 0.02, Some(0.3), None),
    ]);
    assert_eq!(registry.urge_threshold(&s("hunger")), Some(billionths(0.3)));
    assert_eq!(registry.preempt_threshold(&s("hunger")), Some(billionths(0.6)));
    assert_eq!(registry.urge_threshold(&s("work")), Some(billionths(0.3)));
    assert_eq!(registry.preempt_threshold(&s("work")), None);
}

#[test]
fn need_registry_returns_none_for_unknown_or_unset() {
    let registry = needs_of(vec![need("hunger", 0.01, None, None)]);
    assert_eq!(registry.urge_threshold(&s("hunger")), None);
    assert_eq!(registry.preempt_threshold(&s("hunger")), None);
    assert_eq!(registry.urge_threshold(&s("missing")), None);
    assert_eq!(registry.preempt_threshold(&s("missing")), None);
}

#[test]
fn need_registry_answers_for_every_need() {
    let registry = needs_of(vec![need("hunger", 0.01, None, None)]);
    assert_eq!(registry.need_count(), 1);
    assert!(registry.contains(&s("hunger")));
    assert!(!registry.contains(&s("missing")));
    assert_eq!(registry.decay_per_sec(&s("hunger")), 10_000_000);
    assert_eq!(registry.decay_per_sec(&s("missing")), 0);
    match NeedRegistry::build(vec![need("a", 0.0, None, None), need("a", 0.1, None, None)]) {
        Err(NpcBootstrapError::DuplicateNeed(id)) => assert_eq!(id, "a"),
        _ => panic!("needs must be distinct"),
    }
}

fn clip(id: &str) -> AnimationDef {
    AnimationDef { id: s(id), clip: s("file") }
}

fn clips() -> AnimationRegistry {
    match AnimationRegistry::build(vec![clip("stand"), clip("walk"), clip("dig")]) {
        Ok(r) => r,
        Err(_) => panic!("animations build"),
    }
}

#[test]
fn animations_keep_their_order() {
    let reg = clips();
    assert_eq!(reg.len(), 3);
    assert_eq!(reg.at(1).id, "walk");
    assert!(reg.contains(&s("dig")));
    match AnimationRegistry::build(vec![clip("x"), clip("y"), clip("x")]) {
        Err(NpcBootstrapError::DuplicateAnimation(id)) => assert_eq!(id, "x"),
        _ => panic!("animations must be distinct"),
    }
}

fn declared(list: &[(&str, u32)]) -> DefaultNeeds {
    let mut needs = DefaultNeeds::new();
    for (need, level) in list {
        needs.set(s(need), *level);
    }
    needs
}

#[test]
fn needs_are_declared_once() {
    let needs = declared(&[("hunger", 3), ("sleep", 4), ("hunger", 9)]);
    assert_eq!(needs.len(), 2);
    assert_eq!((needs.at(0).need.as_str(), needs.at(0).level), ("hunger", 9));
    assert_eq!((needs.at(1).need.as_str(), needs.at(1).level), ("sleep", 4));
}

fn kind(id: &str) -> NpcKindDef {
    NpcKindDef {
        id: s(id),
        carry_capacity: 4,
        default_needs: declared(&[("hunger", 0)]),
        animations: KindAnimations { idle: s("stand"), walk: s("walk"), work: s("dig") },
        stats: vec![StatDef { id: s("speed"), min: 1, max: 5 }],
    }
}

fn kinds(list: Vec<NpcKindDef>) -> Result<NpcKindRegistry, NpcBootstrapError> {
    NpcKindRegistry::build(list, &needs_of(vec![need("hunger", 0.01, None, None)]), &clips())
}

#[test]
fn kinds_are_found_and_listed() {
    let reg = match kinds(vec![kind("b"), kind("a")]) {
        Ok(r) => r,
        Err(_) => panic!("kinds build"),
    };
    assert_eq!(reg.kind_count(), 2);
    assert_eq!(reg.ids_sorted(), vec![s("a"), s("b")]);
    assert_eq!(reg.get(&s("a")).map(|k| k.carry_capacity), Some(4));
    assert!(reg.get(&s("c")).is_none());
}

#[test]
fn faulty_kinds_are_named() {
    match kinds(vec![kind("a"), kind("a")]) {
        Err(NpcBootstrapError::DuplicateKind(id)) => assert_eq!(id, "a"),
        _ => panic!("kinds must be distinct"),
    }
    let mut k = kind("a");
    k.default_needs = declared(&[("thirst", 0)]);
    match kinds(vec![k]) {
        Err(NpcBootstrapError::KindNeedsUnknownNeed { kind, need }) => {
            assert_eq!((kind.as_str(), need.as_str()), ("a", "thirst"));
        }
        _ => panic!("needs must be known"),
    }
    let mut k = kind("a");
    k.animations.work = s("fly");
    match kinds(vec![k]) {
        Err(NpcBootstrapError::KindAnimationUnknown { slot, anim, .. }) => {
            assert_eq!((slot, anim.as_str()), (AnimationUse::Work, "fly"));
        }
        _ => panic!("animations must be known"),
    }
    let stat = |id: &str, min: i64, max: i64| StatDef { id: s(id), min, max };
    for (stats, want) in [
        (vec![stat("", 0, 1)], StatProblem::EmptyId),
        (vec![stat("x", 2, 1)], StatProblem::MinAboveMax),
        (vec![stat("x", 0, 1), stat("x", 0, 1)], StatProblem::DuplicateId),
    ] {
        let mut k = kind("a");
        k.stats = stats;
        match kinds(vec![k]) {
            Err(NpcBootstrapError::KindStatInvalid { problem, .. }) => assert_eq!(problem, want),
            _ => panic!("stats must be sound"),
        }
    }
}

#[test]
fn work_defaults_are_checked() {
    let needs = needs_of(vec![need("work", 0.02, None, None)]);
    let defaults = match WorkDefaultsRes::build(None, &needs) {
        Ok(d) => d.0,
        Err(_) => panic!("defaults build"),
    };
    assert_eq!(defaults.duration_ms, 4000);
    assert!(defaults.need_restore.is_none());
    let with = |duration_ms: u32, need: &str| {
        Some(WorkDefaults {
            duration_ms,
            need_restore: Some(NeedRestore { need: s(need), restores: 5 }),
            worn_down: None,
        })
    };
    assert!(WorkDefaultsRes::build(with(1, "work"), &needs).is_ok());
    assert!(matches!(
        WorkDefaultsRes::build(with(0, "work"), &needs),
        Err(NpcBootstrapError::WorkDefaultsBadDuration(0))
    ));
    match WorkDefaultsRes::build(with(1, "fun"), &needs) {
        Err(NpcBootstrapError::WorkDefaultsUnknownNeed(n)) => assert_eq!(n, "fun"),
        _ => panic!("the need must be known"),
    }
}

fn items() -> ItemRegistry {
    ItemRegistry {
        defs: vec![
            ItemDef { id: s("log"), tool_tags: vec![] },
            ItemDef { id: s("plank"), tool_tags: vec![] },
            ItemDef { id: s("axe"), tool_tags: vec![s("chop")] },
        ],
    }
}

#[test]
fn tools_are_known_by_their_tags() {
    let items = items();
    assert_eq!(items.slot_of(&s("axe")), Some(ItemSlot(2)));
    assert_eq!(items.slot_of(&s("saw")), None);
    assert!(items.tool_has_tag(Some(ItemSlot(2)), &s("chop")));
    assert!(!items.tool_has_tag(Some(ItemSlot(0)), &s("chop")));
    assert!(!items.tool_has_tag(None, &s("chop")));
}

fn recipe(id: &str, station: &str, tier: u8, duration_ms: u32) -> RecipeDef {
    RecipeDef {
        id: s(id),
        station: s(station),
        tier,
        duration_ms,
        inputs: vec![ItemCount { item: s("log"), count: 1 }],
        output: ItemCount { item: s("plank"), count: 4 },
    }
}

#[test]
fn recipes_are_offered_by_station_and_tier() {
    let reg = match RecipeRegistry::build(
        vec![
            recipe("a", "bench", 0, 1000),
            recipe("b", "oven", 0, 1000),
            recipe("c", "bench", 2, 1000),
        ],
        &items(),
    ) {
        Ok(r) => r,
        Err(_) => panic!("recipes build"),
    };
    assert_eq!(reg.slot_count(), 3);
    assert_eq!(reg.at_station(&s("bench")), vec![RecipeSlot(0), RecipeSlot(2)]);
    assert_eq!(reg.at_station_tier(&s("bench"), 1), vec![RecipeSlot(0)]);
    assert_eq!(reg.slot_of(&s("b")), Some(RecipeSlot(1)));
    assert_eq!(reg.def(RecipeSlot(2)).id, "c");
    let mut bench = BlockDef::plain(s("bench_block"), BlockFlags::default());
    bench.station_tag = Some(s("bench"));
    match reg.validate_against_blocks(&vec![bench]) {
        Err(RecipeBootstrapError::StationUnreachable { recipe, tag }) => {
            assert_eq!((recipe.as_str(), tag.as_str()), ("b", "oven"));
        }
        _ => panic!("nothing offers the oven"),
    }
}

#[test]
fn faulty_recipes_are_named() {
    let build = |list: Vec<RecipeDef>| RecipeRegistry::build(list, &items()).err();
    match build(vec![recipe("a", "x", 0, 100), recipe("a", "x", 0, 100)]) {
        Some(RecipeBootstrapError::DuplicateRecipeId(id)) => assert_eq!(id, "a"),
        _ => panic!("recipes must be distinct"),
    }
    for (ms, ok) in [(99, false), (100, true), (120000, true), (120001, false)] {
        match build(vec![recipe("a", "x", 0, ms)]) {
            Some(RecipeBootstrapError::DurationOutOfRange { got, min, max, .. }) => {
                assert!(!ok);
                assert_eq!((got, min, max), (ms, 100, 120000));
            }
            None => assert!(ok),
            _ => panic!("only the duration is in question"),
        }
    }
    let mut r = recipe("a", "x", 0, 100);
    r.inputs[0].item = s("ore");
    assert!(matches!(build(vec![r]), Some(RecipeBootstrapError::InputItemUnknown { .. })));
    let mut r = recipe("a", "x", 0, 100);
    r.output.item = s("ore");
    assert!(matches!(build(vec![r]), Some(RecipeBootstrapError::OutputItemUnknown { .. })));
    let many = (0..0x1_0000).map(|_| recipe("a", "x", 0, 100)).collect();
    assert!(matches!(
        build(many),
        Some(RecipeBootstrapError::SlotOverflow { slots: 0x1_0000 })
    ));
}

fn pending() -> PendingDeclarations {
    PendingDeclarations {
        recipes: vec![],
        rooms: vec![],
        needs: vec![need("hunger", 0.01, None, None)],
        work_defaults: None,
        animations: vec![clip("stand"), clip("walk"), clip("dig")],
        npc_kinds: vec![kind("a")],
    }
}

#[test]
fn declarations_load_as_a_whole() {
    match load_declarations(pending(), &vec![], &items()) {
        Ok(d) => {
            assert_eq!(d.npc_kinds.kind_count(), 1);
            assert_eq!(d.work_defaults.0.duration_ms, 4000);
            assert_eq!(d.animations.len(), 3);
        }
        Err(_) => panic!("declarations load"),
    }
    let mut p = pending();
    p.recipes = vec![recipe("a", "bench", 0, 1000)];
    assert!(matches!(
        load_declarations(p, &vec![], &items()),
        Err(LoadError::Stations(RecipeBootstrapError::StationUnreachable { .. }))
    ));
    let mut p = pending();
    p.recipes = vec![recipe("a", "bench", 0, 1)];
    assert!(matches!(load_declarations(p, &vec![], &items()), Err(LoadError::Recipes(_))));
    let mut p = pending();
    p.needs.push(need("hunger", 0.0, None, None));
    assert!(matches!(load_declarations(p, &vec![], &items()), Err(LoadError::Needs(_))));
    let mut p = pending();
    p.animations.pop();
    assert!(matches!(load_declarations(p, &vec![], &items()), Err(LoadError::NpcKinds(_))));
    let mut p = pending();
    p.animations.push(clip("dig"));
    assert!(matches!(load_declarations(p, &vec![], &items()), Err(LoadError::Animations(_))));
    let mut p = pending();
    p.work_defaults = Some(WorkDefaults { duration_ms: 0, need_restore: None, worn_down: None });
    assert!(matches!(load_declarations(p, &vec![], &items()), Err(LoadError::WorkDefaults(_))));
}

#[test]
fn toasts_are_cut_at_a_character() {
    assert_eq!(shorten_toast(&s("hello")), "hello");
    let exact = "x".repeat(120);
    assert_eq!(shorten_toast(&exact), exact);
    let long = "x".repeat(121);
    assert_eq!(shorten_toast(&long), format!("{}…", "x".repeat(117)));
    assert_eq!(shorten_toast(&long).len(), 120);
    let wide = format!("{}ä{}", "x".repeat(116), "y".repeat(9));
    assert_eq!(shorten_toast(&wide), format!("{}…", "x".repeat(116)));
}

#[test]
fn arm_does_not_reset_a_running_timer() {
    let mut schedule = RegrowSchedule::new();
    let cell = IVec3::new(3, 8, -2);
    schedule.arm(cell, 100);
    schedule.arm(cell, 250);
    assert_eq!(
        schedule.due_at(cell),
        Some(100),
        "the original due time must survive a re-arm"
    );
}

fn bush_registry() -> BlockRegistry {
    let mut bare = BlockDef::plain(s("bare_bush"), BlockFlags::default());
    bare.regrow = Some(Regrow { into: s("bush"), after_ms: 500 });
    let mut odd = BlockDef::plain(s("odd"), BlockFlags::default());
    odd.regrow = Some(Regrow { into: s("nothing"), after_ms: 1 });
    BlockRegistry {
        defs: vec![
            BlockDef::plain(s("vanilla:empty"), BlockFlags::default()),
            bare,
            BlockDef::plain(s("bush"), BlockFlags::default()),
            odd,
        ],
    }
}

#[test]
fn bare_bushes_grow_back() {
    let reg = bush_registry();
    let cell = IVec3::new(-1, 4, 33);
    let mut world = BlockWorld::new();
    world.set(cell, BlockSlot(1));
    let mut schedule = RegrowSchedule::new();
    let edit = |slot: u16| CellEdit { world: cell, slot: BlockSlot(slot) };
    schedule.arm_from_cell_edits(&vec![edit(1)], &reg, 1000);
    assert_eq!(schedule.due_at(cell), Some(1500));
    schedule.arm_from_cell_edits(&vec![edit(2)], &reg, 1100);
    assert_eq!(schedule.due_at(cell), None);
    schedule.scan_chunk(IVec3::new(0, 0, 0), &world, &reg, 1200);
    assert_eq!(schedule.due_at(cell), None);
    schedule.scan_chunk(IVec3::new(-1, 0, 1), &world, &reg, 1200);
    schedule.scan_chunk(IVec3::new(-1, 0, 1), &world, &reg, 1300);
    assert_eq!(schedule.due_at(cell), Some(1700));
    assert!(schedule.take_due(1699).is_empty());
    assert_eq!(schedule.take_due(1700), vec![cell]);
    assert_eq!(schedule.due_at(cell), None);
    assert_eq!(current_regrow_target(cell, &world, &reg), Some(BlockSlot(2)));
    world.set(cell, BlockSlot(2));
    assert_eq!(current_regrow_target(cell, &world, &reg), None);
    world.set(cell, BlockSlot(3));
    assert_eq!(current_regrow_target(cell, &world, &reg), None);
    world.clear(cell);
    assert_eq!(current_regrow_target(cell, &world, &reg), None);
}

#[test]
fn modes_cycle_both_ways() {
    for m in PlayerMode::all() {
        assert_eq!(m.cycle(true).cycle(false), m);
        assert_eq!(m.cycle(true).cycle(true).cycle(true), m);
        assert_eq!(m.after_input(true, true, false), m);
        assert_eq!(m.after_input(false, false, true), m);
        assert_eq!(m.after_input(false, true, true), m.cycle(false));
        assert_eq!(PlayerMode::all()[m.index()], m);
    }
    assert_eq!(PlayerMode::default().cycle(true), PlayerMode::Plan);
    assert_eq!(PlayerMode::Plan.label(), "Plan");
    assert_eq!(PlayerMode::Storage.icon_path(), "ui/mode_icons/basket.png");
    assert_eq!(PlayerMode::Normal.verb_hint(), "L: mine · R: interact");
}
