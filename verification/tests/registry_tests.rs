use deckbound::rules::{Rule, RuleKind, all_rules};
use deckbound::ruleset::Ruleset;

#[test]
fn every_rule_is_documented_and_listed() {
    for &r in all_rules().iter() {
        let info = r.info();
        assert!(!info.name.is_empty(), "{r:?} has no name");
        assert!(info.description.len() > 20, "{r:?} has no real description");
    }
    let mut seen = std::collections::HashSet::new();
    for &r in all_rules().iter() {
        assert!(seen.insert(r), "{r:?} listed twice");
    }
}

#[test]
fn presets_carry_the_intended_bounds() {
    assert_eq!(Ruleset::default().max_rounds, 100);
    assert_eq!(Ruleset::default().max_unique_per_side, u32::MAX);
    assert_eq!(Ruleset::analysis().max_rounds, 5);
    assert_eq!(Ruleset::analysis().max_unique_per_side, 5);
    assert!(Ruleset::analysis().roster_within(5));
    assert!(!Ruleset::analysis().roster_within(6));
}

#[test]
fn rules_default_on_and_without_disables() {
    assert!(Ruleset::default().allows(Rule::Intercept));
    assert!(Ruleset::analysis().allows(Rule::Grouping));
    assert_eq!(Ruleset::analysis().enabled_rules().len(), all_rules().len());
    let subset = Ruleset::analysis().without(&[Rule::Grouping, Rule::AreaOfEffect]);
    assert!(!subset.allows(Rule::Grouping));
    assert!(!subset.allows(Rule::AreaOfEffect));
    assert!(subset.allows(Rule::Clash));
    assert_eq!(subset.enabled_rules().len(), all_rules().len() - 2);
}

#[test]
fn rule_bits_and_identifiers() {
    assert_eq!(Rule::Marshal.bit(), 1);
    assert_eq!(Rule::Grouping.bit(), 1 << 14);
    assert_eq!(Rule::from_ident("AreaOfEffect"), Some(Rule::AreaOfEffect));
    assert_eq!(Rule::from_ident("Nope"), None);
    assert_eq!(Rule::Refresh.name(), "Refresh (the Lull)");
    assert!(Rule::Engage.is_phase());
    assert!(!Rule::Clash.is_phase());
    assert_eq!(Rule::Clash.info().kind, RuleKind::SubPhase);
}

#[test]
fn disabling_twice_is_disabling_once() {
    let once = Ruleset::default().without(&[Rule::Refresh]);
    let twice = once.without(&[Rule::Refresh]);
    assert_eq!(once, twice);
    assert_eq!(once.enabled_rules().len(), 14);
}
