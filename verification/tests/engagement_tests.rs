use deckbound::actor::{Attack, Intention};
use deckbound::engagement::{
    balanced_party, battle, battle_checked, battle_traced, build_side, counter_report, default_hits, default_intention,
    extreme_sides, intention_for, make_unit, matrix_report, n_of, rps_report, survivors_after, unit_from_class,
    ClassDef, HitMode, IntentPlan, Outcome, Strategy,
};

#[test]
fn default_intentions_match_the_triad() {
    assert_eq!(default_intention("Fighter", (1, 2, 3, 1, 1)), Intention::Vanguard);
    assert_eq!(default_intention("Assassin", (1, 1, 1, 2, 2)), Intention::Outrider);
    assert_eq!(default_intention("Mage", (3, 1, 1, 1, 1)), Intention::Rearguard);
}

/// The balanced party is not beaten by any extreme scenario — each is countered (a win) or held (a
/// draw).
#[test]
fn balanced_party_counters_every_extreme() {
    let (party, pstrat) = balanced_party();
    for (label, force) in extreme_sides() {
        let o = battle(build_side(&party, &pstrat, 0), force, 8);
        assert_ne!(o, Outcome::Loss, "uncountered extreme: {label}");
    }
}

#[test]
fn mirror_is_a_draw() {
    // Symmetric default play on identical rosters resolves to a draw (no side-0 bias).
    let s0 = vec![make_unit("Fighter", (1, 2, 3, 1, 1), 0)];
    let s1 = vec![make_unit("Fighter", (1, 2, 3, 1, 1), 1)];
    assert_eq!(battle(s0, s1, 8), Outcome::Draw);
}

#[test]
fn intention_emerges_from_range_and_stats() {
    assert_eq!(intention_for(true, (9, 1, 1, 1, 1)), Intention::Rearguard);
    assert_eq!(intention_for(false, (2, 1, 2, 1, 1)), Intention::Outrider);
    assert_eq!(intention_for(false, (1, 1, 2, 1, 1)), Intention::Vanguard);
    assert_eq!(default_hits(Intention::Vanguard), HitMode::Endure);
    assert_eq!(default_hits(Intention::Outrider), HitMode::Evade);
    assert_eq!(default_hits(Intention::Rearguard), HitMode::Evade);
}

#[test]
fn a_class_builds_its_unit() {
    let c = ClassDef { name: "Sniper".into(), ranged: true, aoe: true, stats: (3, 2, 1, 2, 4) };
    let u = unit_from_class(&c, 1);
    assert_eq!(u.name, "Sniper");
    assert_eq!(u.side, 1);
    assert_eq!(u.intent, Intention::Rearguard);
    assert_eq!(u.attack, Attack::Ranged);
    assert!(u.aoe);
    assert_eq!(u.hits, HitMode::Evade);
    assert_eq!((u.offense.might, u.offense.cadence, u.offense.finesse), (3, 2, 4));
    assert_eq!(u.defense.health.remaining(), 2);
    assert_eq!(u.defense.health.toughness(), 1);
    assert_eq!(u.tempo, 2);
    assert_eq!(u.group, None);
    let m = make_unit("Mage", (3, 1, 2, 1, 1), 0);
    assert_eq!(m.attack, Attack::Ranged);
    assert!(!m.aoe);
    let f = make_unit("Fighter", (1, 2, 3, 2, 2), 0);
    assert_eq!(f.attack, Attack::Melee);
    assert_eq!(f.intent, Intention::Vanguard);
    assert_eq!(f.hits, HitMode::Endure);
}

#[test]
fn a_strategy_places_every_recruit() {
    let roster = n_of("Assassin", (2, 1, 1, 2, 2), 2);
    assert_eq!(roster.len(), 2);
    let side = build_side(&roster, &Strategy { name: "wall", plan: IntentPlan::AllVanguard }, 0);
    assert!(side.iter().all(|u| u.intent == Intention::Vanguard && u.hits == HitMode::Endure));
    let side = build_side(&roster, &Strategy { name: "stats", plan: IntentPlan::ByStats }, 0);
    assert!(side.iter().all(|u| u.intent == Intention::Outrider && u.hits == HitMode::Evade));
}

#[test]
fn the_extremes_are_eight_triples() {
    let x = extreme_sides();
    assert_eq!(x.len(), 8);
    assert!(x.iter().all(|(_, f)| f.len() == 3));
    assert_eq!(x[0].0, "all-Vanguard wall");
    assert!(x[2].1.iter().all(|u| u.hits == HitMode::Endure));
    assert!(x[7].1.iter().all(|u| u.aoe));
    assert!(x[6].1.iter().all(|u| u.group == Some(0)));
}

#[test]
fn an_empty_enemy_side_is_a_win_and_no_rounds_is_a_draw() {
    let hero = || vec![make_unit("Fighter", (1, 2, 3, 1, 1), 0)];
    assert_eq!(battle(hero(), Vec::new(), 8), Outcome::Win);
    assert_eq!(battle(Vec::new(), hero(), 8), Outcome::Loss);
    assert_eq!(battle(hero(), hero(), 0), Outcome::Draw);
    let (o, log) = battle_traced(hero(), Vec::new(), 3);
    assert_eq!(o, Outcome::Win);
    assert_eq!(log[0], "== round 1 ==");
    let (o, log) = battle_traced(hero(), hero(), 0);
    assert_eq!(o, Outcome::Draw);
    assert!(log.is_empty());
}

#[test]
fn survivors_are_counted_per_side() {
    let s0 = vec![make_unit("Fighter", (1, 2, 3, 1, 1), 0), make_unit("Fighter", (1, 2, 3, 1, 1), 0)];
    let (a, b) = survivors_after(s0, Vec::new(), 2);
    assert_eq!((a, b), (2, 0));
}

#[test]
fn the_reports_frame_their_records() {
    let triad = [("Fighter", (1, 2, 3, 2, 2)), ("Assassin", (2, 1, 1, 2, 2)), ("Mage", (3, 1, 2, 1, 1))];
    let r = rps_report(&triad);
    assert!(r.starts_with("RPS triangle (1v1, default vs default):\n  Fighter   M1 V2 T3 C2 F2\n"));
    assert!(r.contains("  cycle (want WIN): Hold>Break "));
    assert!(r.contains("\n  anti   (want !WIN): Break>Hold "));
    let m = matrix_report(&triad, 1);
    assert!(m.starts_with("Engagement-model matrix (equal size, default vs default):\n\n== size 1 ==\n"));
    assert!(m.contains("  1F       "));
    assert_eq!(m.lines().filter(|l| l.ends_with('D')).count(), 3);
    let c = counter_report();
    assert!(c.starts_with("Counterability — balanced party vs extreme scenarios:\n  all-Vanguard wall"));
    assert_eq!(c.lines().count(), 9);
}

#[test]
fn every_extreme_stands_on_the_eight_point_budget() {
    let sides = extreme_sides();
    assert_eq!(sides.len(), 8);
    for (label, units) in sides {
        assert_eq!(units.len(), 3, "{label}");
        for u in units {
            assert_eq!(u.side, 1);
            let total = u.offense.might + u.defense.health.max() + u.defense.health.toughness() + u.offense.cadence + u.offense.finesse;
            assert_eq!(total, 8, "{label}");
        }
    }
}

#[test]
fn battle_checked_reports_sides_it_cannot_run() {
    let hero = || vec![make_unit("Fighter", (1, 2, 3, 1, 1), 0)];
    assert_eq!(battle_checked(hero(), Vec::new(), 8), Some(Outcome::Win));
    let mut giant = make_unit("Fighter", (1, 2, 3, 1, 1), 1);
    giant.offense.might = 0x20_0000;
    assert_eq!(battle_checked(hero(), vec![giant], 8), None);
}
