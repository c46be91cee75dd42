use deckbound::actors::{Line, Play};
use deckbound::read::Read;

#[test]
fn attacking_plays_commit_to_a_target_or_area() {
    assert!(Play::Read(Read::Strike).is_attacking());
    assert!(Play::Bash.is_attacking());
    assert!(Play::Firestorm.is_attacking());
    assert!(Play::Frostbite.is_attacking());
    assert!(Play::Dread.is_attacking());
    assert!(!Play::Read(Read::Block).is_attacking());
    assert!(!Play::Read(Read::Evade).is_attacking());
    assert!(!Play::Read(Read::Scheme).is_attacking());
    assert!(!Play::Riposte.is_attacking());
    assert!(!Play::Rally.is_attacking());
    assert!(!Play::Steel.is_attacking());
}

#[test]
fn firestorm_attacks_without_a_chosen_target() {
    assert!(Play::Firestorm.is_attacking());
    assert!(!Play::Firestorm.needs_target());
    assert!(Play::Read(Read::Strike).needs_target());
    assert!(Play::Bash.needs_target());
    assert!(Play::Frostbite.needs_target());
    assert!(Play::Dread.needs_target());
    assert!(!Play::Rally.needs_target());
    assert!(!Play::Read(Read::Evade).needs_target());
}

#[test]
fn plays_are_labelled_by_read_or_card() {
    assert_eq!(Play::Read(Read::Scheme).name(), "Scheme");
    assert_eq!(Play::Read(Read::Strike).name(), "Strike");
    assert_eq!(Play::Riposte.name(), "Riposte");
    assert_eq!(Play::Steel.name(), "Steel");
    assert_ne!(Line::Front, Line::Back);
}
