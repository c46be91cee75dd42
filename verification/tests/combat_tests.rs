use deckbound::actor::{Actor, Attack, Driver, Range, Script, Token};
use deckbound::cards::{Card, Cast, Effect, Resolve, RoleKind, ZoneBehavior};
use deckbound::combat::{apply_strike, living, pick_target, play_card, resolve_reckoning, resolve_round, resolve_round_checked, step, step_checked, tally, tick_burn, try_evade, Resolution, Stage};
use deckbound::game::battle_state;
use deckbound::actor::Intention;
use deckbound::duel::{Move, Strike};
use deckbound::form::Form;
use deckbound::policy::avoid_cost;
use deckbound::state::Deferred;
use deckbound::stats::{Defense, Health, Offense};
use deckbound::actor::TargetRule;

fn card(name: &str, effects: Vec<Effect>, targets: u32) -> Card {
    Card {
        name: name.into(),
        text: String::new(),
        flavor: String::new(),
        targets,
        reach: [1, 1],
        zone: ZoneBehavior::Return,
        tags: Vec::new(),
        passive: false,
        effects,
        cast: Cast::Strike,
        resolve: Resolve::OnCast,
        one_shot: false,
        role: None,
        kind: RoleKind::Base,
        positional: false,
        modifies: None,
    }
}

/// A bare melee combatant with explicit stats and a 0-power weapon.
fn fighter(name: &str, might: u32, vit: u32, tough: u32) -> Actor {
    Actor {
        name: name.into(),
        role: String::new(),
        offense: Offense { might, cadence: 1, finesse: 1 },
        defense: Defense { health: Health::new(vit, tough), health_pile: 0 },
        form: Form { cards: Vec::new() },
        weapon: card("Jab", vec![Effect::Damage { power: 0 }], 1),
        actions: Vec::new(),
        driver: Driver::Human,
        attack: Attack::Melee,
        aoe: false,
        tokens: Vec::new(),
        tempo: 10,
        cannot_fall: false,
        stunned: false,
        shoved: false,
        disarmed: false,
        routed: false,
        might_bonus: 0,
        free_slip_used: false,
        fallen: false,
        spent_one_shots: Vec::new(),
    }
}

#[test]
fn attack_profiles_contest_their_range() {
    assert!(Attack::Melee.has(Range::Melee));
    assert!(!Attack::Melee.has(Range::Ranged));
    assert!(Attack::Ranged.has(Range::Ranged));
    assert!(!Attack::Ranged.has(Range::Melee));
    assert!(Attack::Both.has(Range::Melee) && Attack::Both.has(Range::Ranged));
    assert!(!Attack::Neither.has(Range::Melee) && !Attack::Neither.has(Range::Ranged));
}

#[test]
fn script_charges_then_strikes() {
    assert_eq!(Script::ChargeThenStrike { until: 2 }.pick(0), Move::Gather);
    assert_eq!(Script::ChargeThenStrike { until: 2 }.pick(2), Move::Strike);
}

#[test]
fn avoid_cost_is_a_threshold() {
    assert_eq!(avoid_cost(2, 2), 2);
    assert_eq!(avoid_cost(2, 1), 3);
    assert_eq!(avoid_cost(1, 2), 1);
    assert_eq!(avoid_cost(1, 1), 2);
}

#[test]
fn a_strike_banks_might_and_toughness_gates_the_flip() {
    let mut def = fighter("D", 1, 2, 3);
    let mut log = Vec::new();
    apply_strike(&mut def, Strike { raw: 1 }, "A", &mut log);
    assert_eq!(def.defense.health.remaining(), 2);
    def.defense.clear_pile();
    apply_strike(&mut def, Strike { raw: 3 }, "A", &mut log);
    assert_eq!(def.defense.health.remaining(), 1);
}

#[test]
fn recover_turns_a_health_card_back_up() {
    let mut a = fighter("R", 1, 3, 1);
    a.defense.take(1);
    assert_eq!(a.defense.health.remaining(), 2);
    a.defense.recover_card();
    assert_eq!(a.defense.health.remaining(), 3);
}

#[test]
fn a_strike_is_narrated_with_the_health_meter() {
    let mut def = fighter("Ogre", 1, 3, 2);
    let mut log = Vec::new();
    apply_strike(&mut def, Strike { raw: 4 }, "Hero", &mut log);
    assert_eq!(log, vec!["  Hero hits Ogre: 4 might — turns 2 health cards face down. [health 1/3]".to_string()]);
}

#[test]
fn a_guard_token_raises_the_wall() {
    let mut def = fighter("W", 1, 3, 2);
    def.tokens.push(Token::Guard { toughness: 2 });
    let mut log = Vec::new();
    apply_strike(&mut def, Strike { raw: 3 }, "A", &mut log);
    assert_eq!(def.defense.health.remaining(), 3);
    assert_eq!(def.defense.health_pile, 3);
}

#[test]
fn tally_fells_the_downed_and_spares_the_lifeline() {
    let mut a = fighter("A", 1, 1, 1);
    let mut b = fighter("B", 1, 1, 1);
    a.defense.take(1);
    b.defense.take(1);
    b.cannot_fall = true;
    a.tokens.push(Token::Mark { finesse: 1 });
    let mut pool = vec![a, b];
    let mut log = Vec::new();
    tally(&mut pool, &mut log);
    assert!(pool[0].fallen);
    assert!(pool[0].tokens.is_empty());
    assert!(!pool[1].fallen);
    assert_eq!(pool[1].defense.health.remaining(), 1);
    assert_eq!(log, vec!["A — all its health cards are face down; defeated.".to_string()]);
}

#[test]
fn living_and_pick_target() {
    let mut a = fighter("A", 1, 2, 1);
    let b = fighter("B", 1, 1, 1);
    let c = fighter("C", 1, 3, 1);
    a.defense.take(2);
    let pool = vec![a, b, c];
    assert_eq!(living(&pool), vec![1, 2]);
    assert_eq!(pick_target(&pool, &[2, 1], TargetRule::LowestBody), Some(1));
    assert_eq!(pick_target(&pool, &[2, 1], TargetRule::Front), Some(2));
    assert_eq!(pick_target(&pool, &[], TargetRule::Front), None);
}

#[test]
fn evading_costs_the_minimum_strictly_exceeding_bid() {
    let mut d = fighter("D", 1, 3, 1);
    d.offense.finesse = 2;
    d.tempo = 3;
    let mut log = Vec::new();
    assert!(try_evade(&mut d, 3, &mut log));
    assert_eq!(d.tempo, 1);
    let mut poor = fighter("P", 1, 3, 1);
    poor.tempo = 0;
    assert!(!try_evade(&mut poor, 3, &mut log));
    assert_eq!(poor.tempo, 0);
}

#[test]
fn a_damage_card_strikes_the_first_n_living_foes() {
    let mut foes = vec![fighter("F0", 1, 3, 1), fighter("F1", 1, 3, 1), fighter("F2", 1, 3, 1)];
    let mut allies = vec![fighter("Mage", 1, 3, 1)];
    let mut log = Vec::new();
    let c = card("Fireball", vec![Effect::Damage { power: 1 }], 2);
    play_card(&c, "Mage", Offense { might: 1, cadence: 1, finesse: 1 }, &mut foes, &mut allies, Some(0), &mut log);
    assert_eq!(log[0], "Mage plays Fireball.");
    assert_eq!(foes[0].defense.health.remaining(), 1);
    assert_eq!(foes[1].defense.health.remaining(), 1);
    assert_eq!(foes[2].defense.health.remaining(), 3);
}

#[test]
fn a_single_target_hit_redirects_to_its_cover() {
    let mut wall = fighter("Wall", 1, 3, 1);
    let aimed = fighter("Aimed", 1, 3, 1);
    wall.tokens.push(Token::Cover { ally: 1 });
    wall.defense.take(3);
    // The wall is down: cover only holds while the wall stands.
    let mut foes = vec![wall, aimed];
    let mut allies = vec![fighter("Archer", 1, 3, 1)];
    let mut log = Vec::new();
    let c = card("Arrow", vec![Effect::Damage { power: 1 }], 1);
    play_card(&c, "Archer", Offense { might: 0, cadence: 1, finesse: 1 }, &mut foes, &mut allies, Some(0), &mut log);
    assert_eq!(foes[1].defense.health.remaining(), 2);
}

#[test]
fn mend_heals_the_most_wounded_first() {
    let mut a = fighter("A", 1, 4, 1);
    let mut b = fighter("B", 1, 4, 1);
    a.defense.take(1);
    b.defense.take(3);
    let mut allies = vec![a, b];
    let mut foes: Vec<Actor> = Vec::new();
    let mut log = Vec::new();
    let c = card("Salve", vec![Effect::Mend { vitality: 2 }], 1);
    play_card(&c, "Healer", Offense { might: 0, cadence: 1, finesse: 1 }, &mut foes, &mut allies, None, &mut log);
    assert_eq!(allies[0].defense.health.remaining(), 3);
    assert_eq!(allies[1].defense.health.remaining(), 3);
    assert_eq!(log[1], "  mends B (+2 health).");
}

#[test]
fn controller_tokens_and_statuses_land_on_foes() {
    let mut foes = vec![fighter("F", 1, 3, 2)];
    let mut allies = vec![fighter("C", 1, 3, 1)];
    let mut log = Vec::new();
    let c = card(
        "Hex",
        vec![Effect::Sunder { toughness: 1 }, Effect::Stagger, Effect::Suppress { tempo: 4 }, Effect::Burn { stacks: 2, power: 3 }],
        1,
    );
    play_card(&c, "C", Offense { might: 0, cadence: 1, finesse: 1 }, &mut foes, &mut allies, Some(0), &mut log);
    assert!(foes[0].stunned);
    assert_eq!(foes[0].tempo, 6);
    assert_eq!(foes[0].eff_toughness(), 1);
    assert_eq!(foes[0].tokens.len(), 3);
}

#[test]
fn caster_buffs_land_on_the_caster() {
    let mut foes: Vec<Actor> = Vec::new();
    let mut allies = vec![fighter("A", 1, 3, 1), fighter("B", 1, 3, 1)];
    let mut log = Vec::new();
    let c = card("Focus", vec![Effect::Charge { amount: 2 }, Effect::Guard { tempo: 3 }, Effect::Empower { might: 2 }], 1);
    play_card(&c, "B", Offense { might: 0, cadence: 1, finesse: 1 }, &mut foes, &mut allies, Some(1), &mut log);
    assert_eq!(allies[1].charge_count(), 2);
    assert_eq!(allies[1].tempo, 13);
    assert_eq!(allies[0].tempo, 10);
    assert_eq!(allies[0].might_bonus, 2);
    assert_eq!(allies[1].might_bonus, 2);
}

#[test]
fn burn_ticks_one_stack_per_reckoning() {
    let mut a = fighter("A", 1, 3, 1);
    a.tokens.push(Token::Burn { power: 1 });
    a.tokens.push(Token::Burn { power: 1 });
    let mut pool = vec![a];
    let mut log = Vec::new();
    tick_burn(&mut pool, &mut log);
    assert_eq!(pool[0].defense.health.remaining(), 2);
    assert_eq!(pool[0].tokens.len(), 1);
}

#[test]
fn a_disrupted_spell_is_dropped_and_a_live_one_lands() {
    let mut heroes = vec![fighter("Mage", 1, 3, 1), fighter("Sage", 1, 3, 1)];
    heroes[1].fallen = true;
    let mut foes = vec![fighter("Ogre", 1, 3, 1)];
    let fire = card("Meteor", vec![Effect::Damage { power: 2 }], 1);
    let deferred = vec![
        Deferred { side: 0, caster: 1, card: fire.clone(), offense: Offense { might: 0, cadence: 1, finesse: 1 }, name: "Sage".into() },
        Deferred { side: 0, caster: 0, card: fire, offense: Offense { might: 0, cadence: 1, finesse: 1 }, name: "Mage".into() },
    ];
    let mut log = Vec::new();
    resolve_reckoning(&mut heroes, &mut foes, &deferred, &mut log);
    assert_eq!(foes[0].defense.health.remaining(), 1);
    assert_eq!(log[0], "Sage's held Meteor is dropped — its caster fell before the Reckoning (disrupted).");
    assert_eq!(log[1], "Mage's held Meteor releases.");
}

/// Driving the round one step at a time reproduces the exact end state of the batched round —
/// same Health, same pile, same Tempo, same fallen flags, same log.
#[test]
fn stepping_reproduces_resolve_round_exactly() {
    let heroes = vec![fighter("Hero", 3, 4, 1), fighter("Squire", 2, 3, 1)];
    let foes = vec![fighter("Brute", 3, 4, 1), fighter("Imp", 2, 3, 1)];
    let mut batched = battle_state(heroes.clone(), foes.clone(), false, 11);
    let mut stepped = battle_state(heroes, foes, false, 11);

    resolve_round(&mut batched);
    assert!(batched.resolution.is_none(), "resolve_round clears the cursor");

    stepped.resolution = Some(Resolution::start());
    let mut guard = 0;
    while step(&mut stepped) {
        guard += 1;
        assert!(guard < 1000, "step machine failed to terminate");
    }
    assert!(stepped.resolution.is_none(), "step clears the cursor when done");

    assert_eq!(stepped.log, batched.log, "logs identical");
    for (a, b) in stepped.heroes.iter().zip(batched.heroes.iter()) {
        assert_eq!(a.defense.health.remaining(), b.defense.health.remaining());
        assert_eq!(a.defense.health_pile, b.defense.health_pile);
        assert_eq!(a.tempo, b.tempo);
        assert_eq!(a.fallen, b.fallen);
    }
    for (a, b) in stepped.creatures.iter().zip(batched.creatures.iter()) {
        assert_eq!(a.defense.health.remaining(), b.defense.health.remaining());
        assert_eq!(a.defense.health_pile, b.defense.health_pile);
        assert_eq!(a.tempo, b.tempo);
        assert_eq!(a.fallen, b.fallen);
    }
}

/// A bare ranged combatant (so it deals from the Rearguard) with a 0-power weapon.
fn shooter(name: &str, might: u32, vit: u32, tough: u32) -> Actor {
    let mut a = fighter(name, might, vit, tough);
    a.attack = Attack::Ranged;
    a
}

/// Area fire bypasses the bodyguard: a tough front shields two squishy backs in one group; a lone
/// aimed attacker cannot crack the front, so the backs live — an area attacker of the same Might
/// lands on every member at once and kills the shielded backs through the shield.
#[test]
fn aoe_attacker_shreds_a_group_through_the_bodyguard() {
    let make_group = || {
        vec![
            fighter("Front", 1, 2, 4),
            shooter("BackA", 3, 1, 2),
            shooter("BackB", 3, 1, 2),
        ]
    };
    let backs_alive = |aoe: bool| -> usize {
        let attacker = {
            let mut a = shooter("Sniper", 3, 4, 1);
            a.aoe = aoe;
            a.offense.cadence = 1;
            a.tempo = 1;
            a
        };
        let mut state = battle_state(vec![attacker], make_group(), false, 7);
        state.plan.hero_intent = vec![Intention::Rearguard];
        state.plan.foe_intent = vec![Intention::Vanguard; 3];
        state.plan.foe_group = vec![0, 0, 0];
        for _ in 0..4 {
            resolve_round(&mut state);
            state.round += 1;
            for a in state.heroes.iter_mut().chain(state.creatures.iter_mut()) {
                if !a.is_down() {
                    a.refresh_round();
                }
            }
        }
        tally(&mut state.creatures, &mut state.log);
        state.creatures.iter().skip(1).filter(|a| !a.is_down()).count()
    };
    assert_eq!(backs_alive(false), 2, "aimed fire cannot reach the shielded back");
    assert_eq!(backs_alive(true), 0, "area fire lands on every member — the back dies through the shield");
}

/// One step at the boundary finalizes deaths, wipes the piles and moves to the next engagement.
#[test]
fn a_boundary_step_wipes_piles_and_advances() {
    let mut state = battle_state(vec![fighter("Hero", 1, 3, 5)], vec![fighter("Brute", 1, 3, 5)], false, 3);
    state.heroes[0].defense.health_pile = 2;
    state.resolution = Some(Resolution { step: 0, stage: Stage::Boundary });
    assert!(step(&mut state));
    assert_eq!(state.resolution, Some(Resolution { step: 1, stage: Stage::Cycle }));
    assert_eq!(state.heroes[0].defense.health_pile, 0);
    // The last boundary completes the resolution and clears the cursor.
    state.resolution = Some(Resolution { step: 4, stage: Stage::Boundary });
    assert!(!step(&mut state));
    assert_eq!(state.resolution, None);
}

/// An exhausted engagement (nobody can strike) moves the cursor to its boundary without touching the
/// board.
#[test]
fn an_exhausted_cycle_moves_to_the_boundary() {
    let mut h = fighter("Hero", 1, 3, 5);
    h.tempo = 0;
    let mut f = fighter("Brute", 1, 3, 5);
    f.tempo = 0;
    let mut state = battle_state(vec![h], vec![f], false, 3);
    state.resolution = Some(Resolution::start());
    let log_before = state.log.clone();
    assert!(step(&mut state));
    assert_eq!(state.resolution, Some(Resolution { step: 0, stage: Stage::Boundary }));
    assert_eq!(state.log, log_before);
}

#[test]
fn a_burn_tick_is_narrated_as_a_strike() {
    let mut a = fighter("A", 1, 3, 2);
    a.tokens.push(Token::Burn { power: 1 });
    let mut b = fighter("B", 1, 3, 1);
    b.tokens.push(Token::Burn { power: 0 });
    let c = fighter("C", 1, 3, 1);
    let mut pool = vec![a, b, c];
    let mut log = Vec::new();
    tick_burn(&mut pool, &mut log);
    assert_eq!(log, vec!["  burn hits A: 1 might — damage accumulates. [health 3/3]".to_string()]);
    assert!(pool[1].tokens.is_empty());
}

#[test]
fn a_played_card_narrates_each_effect_in_order() {
    let mut foes = vec![fighter("F0", 1, 3, 1), fighter("F1", 1, 3, 1)];
    let mut allies = vec![fighter("Mage", 1, 3, 1)];
    let mut log = Vec::new();
    let c = card("Sleet", vec![Effect::Damage { power: 1 }, Effect::Slow { cadence: 1 }, Effect::Silence], 2);
    play_card(&c, "Mage", Offense { might: 0, cadence: 1, finesse: 1 }, &mut foes, &mut allies, Some(0), &mut log);
    assert_eq!(
        log,
        vec![
            "Mage plays Sleet.".to_string(),
            "  Mage hits F0: 1 might — turns a health card face down. [health 2/3]".to_string(),
            "  Mage hits F1: 1 might — turns a health card face down. [health 2/3]".to_string(),
            "  slows F0 (-1 Cadence).".to_string(),
            "  slows F1 (-1 Cadence).".to_string(),
            "  silences a held enemy spell (a deferred effect is cancelled).".to_string(),
        ]
    );
}

#[test]
fn a_released_spell_narrates_its_play() {
    let mut heroes = vec![fighter("Mage", 1, 3, 1)];
    let mut foes = vec![fighter("Ogre", 1, 3, 1)];
    let fire = card("Meteor", vec![Effect::Damage { power: 2 }], 1);
    let deferred = vec![Deferred { side: 0, caster: 0, card: fire, offense: Offense { might: 0, cadence: 1, finesse: 1 }, name: "Mage".into() }];
    let mut log = Vec::new();
    resolve_reckoning(&mut heroes, &mut foes, &deferred, &mut log);
    assert_eq!(
        log,
        vec![
            "Mage's held Meteor releases.".to_string(),
            "Mage plays Meteor.".to_string(),
            "  Mage hits Ogre: 2 might — turns 2 health cards face down. [health 1/3]".to_string(),
        ]
    );
}

#[test]
fn a_single_target_hit_on_a_covered_ally_goes_to_its_wall() {
    let aimed = fighter("Aimed", 1, 10, 1);
    let mut wall = fighter("Wall", 1, 10, 1);
    wall.tokens.push(Token::Cover { ally: 0 });
    let mut foes = vec![aimed, wall];
    let mut allies = vec![fighter("Archer", 1, 3, 1)];
    let mut log = Vec::new();
    let c = card("Arrow", vec![Effect::Damage { power: 5 }], 1);
    play_card(&c, "Archer", Offense { might: 0, cadence: 1, finesse: 1 }, &mut foes, &mut allies, Some(0), &mut log);
    assert_eq!(foes[0].defense.health.remaining(), 10);
    assert_eq!(foes[1].defense.health.remaining(), 5);
}

#[test]
fn an_area_hit_bypasses_cover() {
    let aimed = fighter("Aimed", 1, 10, 1);
    let mut wall = fighter("Wall", 1, 10, 1);
    wall.tokens.push(Token::Cover { ally: 0 });
    let mut foes = vec![aimed, wall];
    let mut allies = vec![fighter("Mage", 1, 3, 1)];
    let mut log = Vec::new();
    let c = card("Nova", vec![Effect::Damage { power: 2 }], 2);
    play_card(&c, "Mage", Offense { might: 0, cadence: 1, finesse: 1 }, &mut foes, &mut allies, Some(0), &mut log);
    assert_eq!(foes[0].defense.health.remaining(), 8);
    assert_eq!(foes[1].defense.health.remaining(), 8);
}

#[test]
fn avoid_cost_is_exact_for_large_finesse() {
    assert_eq!(avoid_cost(4_000_000_000, 2), 2_000_000_001);
}

#[test]
fn an_oversized_board_is_reported_and_left_alone() {
    let mut big = fighter("Titan", 3, 4, 1);
    big.offense.might = 0x20_0000;
    let mut s = battle_state(vec![big], vec![fighter("Imp", 2, 3, 1)], false, 11);
    let log_len = s.log.len();
    assert!(!resolve_round_checked(&mut s));
    assert_eq!(s.log.len(), log_len);
    assert_eq!(step_checked(&mut s), None);
    let mut ok = battle_state(vec![fighter("Hero", 3, 4, 1)], vec![fighter("Imp", 2, 3, 1)], false, 11);
    assert!(resolve_round_checked(&mut ok));
    assert!(ok.resolution.is_none());
}
