use deckbound::balance::{check_diagonal, comp_label, compositions, compositions_k, sim_subset, Level, RoleSpec};
use deckbound::game::{battle_state, battle_state_with};
use deckbound::rules::Rule;
use deckbound::ruleset::Ruleset;
use deckbound::state::Phase;
use deckbound::actor::Intention;
use deckbound::engagement::make_unit;

#[test]
fn compositions_enumerate_every_split_in_order() {
    assert_eq!(compositions_k(2, 3), vec![
        vec![0, 0, 2], vec![0, 1, 1], vec![0, 2, 0], vec![1, 0, 1], vec![1, 1, 0], vec![2, 0, 0],
    ]);
    assert_eq!(compositions_k(0, 0), vec![Vec::<u32>::new()]);
    assert!(compositions_k(3, 0).is_empty());
    assert_eq!(compositions_k(4, 1), vec![vec![4]]);
    assert_eq!(compositions(1), vec![[0, 0, 1], [0, 1, 0], [1, 0, 0]]);
    assert_eq!(compositions_k(5, 3).len(), 21);
}

#[test]
fn composition_labels_skip_zero_counts() {
    assert_eq!(comp_label(&[2, 1, 0]), "2F1A");
    assert_eq!(comp_label(&[0, 0, 3]), "3M");
    assert_eq!(comp_label(&[0, 0, 0]), "-");
    assert_eq!(comp_label(&[10, 0, 1]), "10F1M");
}

#[test]
fn the_subset_ruleset_disables_grouping_and_aoe() {
    let r = sim_subset();
    assert_eq!(r.max_rounds, 5);
    assert_eq!(r.max_unique_per_side, 5);
    assert!(!r.allows(Rule::Grouping));
    assert!(!r.allows(Rule::AreaOfEffect));
}

fn body(class: &str, s: (u32, u32, u32, u32, u32)) -> deckbound::actor::Actor {
    let u = make_unit(class, s, 0);
    deckbound::actor::Actor {
        name: u.name,
        role: String::new(),
        offense: u.offense,
        defense: u.defense,
        form: deckbound::form::Form { cards: Vec::new() },
        weapon: deckbound::cards::Card {
            name: "Jab".into(),
            text: String::new(),
            flavor: String::new(),
            targets: 1,
            reach: [1, 1],
            zone: deckbound::cards::ZoneBehavior::Return,
            tags: Vec::new(),
            passive: false,
            effects: vec![deckbound::cards::Effect::Damage { power: 0 }],
            cast: deckbound::cards::Cast::Strike,
            resolve: deckbound::cards::Resolve::OnCast,
            one_shot: false,
            role: None,
            kind: deckbound::cards::RoleKind::Base,
            positional: false,
            modifies: None,
        },
        actions: Vec::new(),
        driver: deckbound::actor::Driver::Human,
        attack: u.attack,
        aoe: false,
        tokens: Vec::new(),
        tempo: u.tempo,
        cannot_fall: false,
        stunned: false,
        shoved: false,
        disarmed: false,
        routed: false,
        might_bonus: 0,
        free_slip_used: false,
        fallen: false,
        spent_one_shots: Vec::new(),
    }
}

#[test]
fn a_battle_board_opens_on_the_marshal_at_default_positions() {
    let heroes = vec![body("Fighter", (1, 2, 3, 1, 1)), body("Mage", (3, 1, 1, 1, 1))];
    let foes = vec![body("Assassin", (2, 1, 1, 2, 2))];
    let s = battle_state(heroes, foes, false, 9);
    assert_eq!(s.round, 1);
    assert_eq!(s.seed, 9);
    assert_eq!(s.phase, Phase::Marshal);
    assert_eq!(s.plan.hero_intent, vec![Intention::Vanguard, Intention::Rearguard]);
    assert_eq!(s.plan.foe_intent, vec![Intention::Outrider]);
    assert_eq!(s.plan.hero_group, vec![0, 1]);
    assert_eq!(s.plan.foe_group, vec![0]);
    assert_eq!(s.log, vec!["-- Round 1: Marshal --".to_string()]);
    assert_eq!(s.ruleset.max_rounds, 100);
    let d = battle_state_with(vec![body("Fighter", (1, 2, 3, 1, 1))], vec![body("Fighter", (1, 2, 3, 1, 1))], true, 2, Ruleset::analysis());
    assert_eq!(d.phase, Phase::Clash);
    assert!(d.plan.clash_mode);
    assert_eq!(d.clash.map(|c| (c.hero, c.foe)), Some((0, 0)));
    assert_eq!(d.log, vec!["-- the duel begins --".to_string()]);
    assert_eq!(d.ruleset.max_rounds, 5);
}

#[test]
fn a_level_runs_the_analysis_envelope_without_its_rules_off() {
    let level = Level {
        name: "L1".into(),
        rules_off: vec!["Grouping".into(), "AreaOfEffect".into()],
        roles: vec![RoleSpec { class: "Fighter".into(), stats: (1, 2, 3, 1, 1) }],
        sizes: vec![1, 2],
        budget: 1000,
    };
    let r = level.ruleset();
    assert_eq!(r.max_rounds, 5);
    assert_eq!(r.max_unique_per_side, 5);
    assert!(!r.allows(Rule::Grouping));
    assert!(!r.allows(Rule::AreaOfEffect));
    assert_eq!(r.enabled_rules().len() + 2, Ruleset::analysis().enabled_rules().len());
}

#[test]
fn a_clean_diagonal_has_no_violations_and_breaks_are_named() {
    let kits = vec!["Wall".to_string(), "Blade".to_string()];
    let foes = vec!["Ogre".to_string(), "Hoard".to_string()];
    let clean = vec![vec![Some(true), Some(false)], vec![Some(false), Some(true)]];
    assert!(check_diagonal(&kits, &foes, &clean).is_empty());
    let broken = vec![vec![Some(false), Some(true)], vec![None, Some(true)]];
    let v = check_diagonal(&kits, &foes, &broken);
    assert_eq!(v.len(), 2);
    assert_eq!(v[0].property, "Wall vs Ogre");
    assert_eq!(v[0].detail, "expected WIN (its key), got loss/draw");
    assert_eq!(v[1].property, "Wall vs Hoard");
    assert_eq!(v[1].detail, "expected loss/draw (off-diagonal), got win");
}
