use deckbound::actor::{Actor, Attack, Driver, Range, Token};
use deckbound::cards::{Card, Cast, Effect, Resolve, RoleKind, ZoneBehavior};
use deckbound::combat::charged_snapshot;
use deckbound::duel::Move;
use deckbound::form::Form;
use deckbound::game::{battle_state, check_outcome, hero_won};
use deckbound::state::Verdict;
use deckbound::read::Read;
use deckbound::stats::{Defense, Health, Offense};
use deckbound::text::join2;

fn card(name: &str, effects: Vec<Effect>) -> Card {
    Card {
        name: name.into(),
        text: String::new(),
        flavor: String::new(),
        targets: 1,
        reach: [1, 1],
        zone: ZoneBehavior::Return,
        tags: Vec::new(),
        passive: false,
        effects,
        cast: Cast::Strike,
        resolve: Resolve::OnCast,
        one_shot: false,
        role: None,
        kind: RoleKind::Base,
        positional: false,
        modifies: None,
    }
}

fn body(name: &str, might: u32, vit: u32, tough: u32) -> Actor {
    Actor {
        name: name.into(),
        role: String::new(),
        offense: Offense { might, cadence: 2, finesse: 1 },
        defense: Defense { health: Health::new(vit, tough), health_pile: 0 },
        form: Form { cards: Vec::new() },
        weapon: card("Jab", vec![Effect::Damage { power: 0 }]),
        actions: Vec::new(),
        driver: Driver::Human,
        attack: Attack::Melee,
        aoe: false,
        tokens: Vec::new(),
        tempo: 2,
        cannot_fall: false,
        stunned: false,
        shoved: false,
        disarmed: false,
        routed: false,
        might_bonus: 0,
        free_slip_used: false,
        fallen: false,
        spent_one_shots: Vec::new(),
    }
}

#[test]
fn contesting_now_respects_stagger_and_shove() {
    let mut a = body("A", 1, 2, 1);
    assert!(a.is_human());
    assert!(a.can_contest_now(Range::Melee));
    a.shoved = true;
    assert!(!a.can_contest_now(Range::Melee));
    a.shoved = false;
    a.stunned = true;
    assert!(!a.can_contest_now(Range::Melee));
    assert!(!a.can_contest_now(Range::Ranged));
}

#[test]
fn smoke_is_consumed_once() {
    let mut a = body("A", 1, 2, 1);
    assert!(!a.has_smoke());
    assert!(!a.consume_smoke());
    a.tokens = vec![Token::Charge, Token::Smoke, Token::Smoke];
    assert!(a.has_smoke());
    assert!(a.consume_smoke());
    assert_eq!(a.tokens, vec![Token::Charge, Token::Smoke]);
}

#[test]
fn a_charged_strike_adds_the_charges_and_spends_them() {
    let mut a = body("A", 3, 2, 1);
    a.tokens = vec![Token::Charge, Token::Charge];
    let mut log = Vec::new();
    a.tokens.push(Token::Smoke);
    a.might_bonus = 1;
    a.stunned = true;
    let s = charged_snapshot(&mut a, &mut log);
    assert_eq!(s.raw, 6);
    assert_eq!(a.tokens, vec![Token::Smoke]);
    assert_eq!(a.might_bonus, 1);
    assert!(a.stunned);
    assert_eq!(log.len(), 1);
    let s = charged_snapshot(&mut a, &mut log);
    assert_eq!(s.raw, 4);
    assert_eq!(log.len(), 1);
}

#[test]
fn move_and_read_classes() {
    assert!(Move::Strike.is_attack());
    assert!(Move::Throw.is_attack());
    assert!(!Move::Parry.is_attack());
    assert!(Read::Block.is_defense());
    assert!(Read::Evade.is_defense());
    assert!(!Read::Strike.is_defense());
    assert!(!Read::Scheme.is_defense());
    assert!(card("Knock", vec![Effect::Stagger]).has_stagger());
    assert!(!card("Jab", vec![Effect::Damage { power: 0 }]).has_stagger());
}

#[test]
fn a_deck_is_resized_and_hardened() {
    let mut h = Health::new(2, 3);
    h.set_count(4);
    assert_eq!((h.remaining(), h.toughness()), (4, 3));
    h.set_toughness(0);
    assert_eq!(h.toughness(), 1);
    h.add_cards(1);
    assert_eq!(h.max(), 5);
    h.add_toughness(2);
    assert_eq!(h.toughness(), 3);
}

#[test]
fn the_board_reports_its_sides() {
    let mut s = battle_state(vec![body("H", 1, 2, 1), body("I", 1, 2, 1)], vec![body("F", 1, 2, 1)], false, 1);
    assert!(!s.committing_is_foe());
    assert_eq!((s.s_len(0), s.s_len(1)), (2, 1));
    assert_eq!(s.s_group(0), &[0, 1]);
    assert_eq!(s.s_acted(1), &[false]);
    assert_eq!(s.first_living_hero(), Some(0));
    assert_eq!(s.first_living_creature(), Some(0));
    assert_eq!((s.living_heroes(), s.living_creatures()), (2, 1));
    s.heroes[0].fallen = true;
    assert_eq!(s.living_heroes(), 1);
    assert!(!s.hero_can_act(0));
    assert!(s.hero_can_act(1));
    assert!(!s.hero_can_act(5));
    assert_eq!(join2("ab", "cd"), "abcd");
}

#[test]
fn a_mutual_wipe_is_a_tie_and_a_foe_wipe_a_victory() {
    let mut dead_hero = body("H", 1, 1, 1);
    dead_hero.fallen = true;
    let mut down_foe = body("F", 1, 1, 1);
    down_foe.defense.take(1);
    let mut s = battle_state(vec![dead_hero], vec![down_foe.clone()], false, 1);
    let n = s.log.len();
    check_outcome(&mut s);
    assert_eq!(s.outcome, Some(Verdict::Tie));
    assert_eq!(s.log.len(), n + 1);
    assert_eq!(s.log[n], "Both sides annihilate each other — a draw.");
    assert!(!hero_won(&s));

    let mut s = battle_state(vec![body("H", 1, 1, 1)], vec![down_foe], false, 1);
    check_outcome(&mut s);
    assert_eq!(s.outcome, Some(Verdict::HeroesWin));
    assert_eq!(s.log.last().unwrap(), "Every foe is down — victory!");
    assert!(hero_won(&s));

    let mut s = battle_state(vec![body("H", 1, 1, 1)], vec![body("F", 1, 1, 1)], false, 1);
    let n = s.log.len();
    check_outcome(&mut s);
    assert_eq!(s.outcome, None);
    assert_eq!(s.log.len(), n);
}
