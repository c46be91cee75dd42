use deckbound::read::{Clash, Read, clash};

#[test]
fn defense_beats_strike() {
    assert_eq!(clash(Read::Strike, Read::Block), Clash::DefenderWins);
    assert_eq!(clash(Read::Strike, Read::Evade), Clash::DefenderWins);
}

#[test]
fn strike_shatters_a_scheme() {
    assert_eq!(clash(Read::Strike, Read::Scheme), Clash::AttackerWins);
}

#[test]
fn scheme_beats_a_guard() {
    assert_eq!(clash(Read::Scheme, Read::Block), Clash::AttackerWins);
}

#[test]
fn like_categories_mirror() {
    assert_eq!(clash(Read::Strike, Read::Strike), Clash::Mirror);
    assert_eq!(clash(Read::Block, Read::Evade), Clash::Mirror);
}

#[test]
fn swapping_sides_swaps_the_winner() {
    assert_eq!(clash(Read::Block, Read::Strike), Clash::AttackerWins);
    assert_eq!(clash(Read::Scheme, Read::Strike), Clash::DefenderWins);
}
