use deckbound::currency::Currency;
use deckbound::encounter::{grind_encounter, EncounterCard, RosterEntry};
use deckbound::form::StatCard;

fn entry(creature: &str, from_level: u32, base: u32, growth: u32) -> RosterEntry {
    RosterEntry { creature: creature.into(), from_level, base, growth }
}

fn brute_pack() -> EncounterCard {
    EncounterCard {
        name: "Brute pack".into(),
        currency: Currency::Iron,
        strategy: "brute".into(),
        foes: vec![entry("A", 1, 1, 0), entry("B", 1, 1, 0), entry("C", 2, 1, 0), entry("D", 3, 2, 1)],
        scaling: StatCard { vitality: 3, ..Default::default() },
    }
}

#[test]
fn roster_evaluates_the_level_formulas() {
    let e = brute_pack();
    assert_eq!(e.roster(1), vec![("A".into(), 1), ("B".into(), 1)]);
    assert_eq!(e.roster(2), vec![("A".into(), 1), ("B".into(), 1), ("C".into(), 1)]);
    let d3 = e.roster(3).into_iter().find(|(n, _)| n == "D").unwrap().1;
    assert_eq!(d3, 2);
    let d5 = e.roster(5).into_iter().find(|(n, _)| n == "D").unwrap().1;
    assert_eq!(d5, 4);
}

#[test]
fn scaling_is_thematic_times_level() {
    let e = brute_pack();
    assert_eq!(e.scaling_at(3).vitality, 9);
    assert_eq!(e.scaling_at(3).cadence, 0);
}

#[test]
fn level_is_one_dial_more_foes_and_tougher() {
    let e = brute_pack();
    let foes_at = |lvl| e.roster(lvl).iter().map(|(_, n)| *n).sum::<u32>();
    assert!(foes_at(5) > foes_at(1));
    assert!(e.scaling_at(5).vitality > e.scaling_at(1).vitality);
}

#[test]
fn a_scaled_card_is_named_for_its_level() {
    assert_eq!(brute_pack().scaling_at(4).name, "Brute pack +L4");
    assert_eq!(entry("X", 3, 2, 1).count(2), 0);
}

#[test]
fn grind_encounters_teach_each_track() {
    let e = grind_encounter(Currency::Silver, 3);
    assert_eq!(e.name, "Silver L3");
    assert_eq!(e.currency, Currency::Silver);
    assert_eq!(e.strategy, "aggressor");
    assert_eq!(e.foes.len(), 2);
    assert_eq!(e.foes[0].creature, "Seer");
    assert_eq!((e.foes[0].from_level, e.foes[0].base, e.foes[0].growth), (1, 1, 0));
    assert_eq!(e.foes[1].creature, "Husk");
    assert_eq!((e.foes[1].base, e.foes[1].growth), (0, 1));
    let b = grind_encounter(Currency::Brass, 5);
    assert_eq!(b.name, "Brass L5");
    assert_eq!(b.foes.len(), 1);
    assert_eq!((b.foes[0].base, b.foes[0].growth), (2, 1));
    assert_eq!(b.scaling.might, 0);
}
