use deckbound::catalog::{
    ability_description, ability_reach, ability_shape, creature, creature_counter, creature_intention,
    creature_posture, encounter_for, encounter_foes, encounter_roster, stat_description, stat_names,
};

#[test]
fn stats_and_abilities_are_described() {
    assert_eq!(stat_names(), ["Might", "Vitality", "Toughness", "Cadence", "Finesse"]);
    assert_eq!(stat_description("Cadence"), "Your pace - how many actions you get each round.");
    assert_eq!(stat_description("Luck"), "");
    assert_eq!(ability_description("Jab"), "Melee | single target - a close blow to one foe.");
    assert_eq!(ability_reach("Salvo"), (false, true));
    assert_eq!(ability_reach("Mystery"), (true, false));
    assert_eq!(ability_shape("Sweep"), (false, true));
    assert_eq!(ability_shape("Shot"), (true, false));
}

#[test]
fn creatures_read_their_stance_and_answer() {
    let coil = creature("The Coil").unwrap();
    assert_eq!(creature_intention(&coil), "Vanguard");
    let mirage = creature("The Mirage").unwrap();
    assert_eq!(creature_intention(&mirage), "Outrider");
    let anvil = creature("The Anvil").unwrap();
    assert_eq!(creature_intention(&anvil), "Vanguard");
    assert_eq!(creature_posture(&anvil), "armored");
    assert_eq!(creature_counter(&anvil), "Executioner");
    assert!(creature("Nobody").is_none());
}

#[test]
fn encounters_field_their_keystones() {
    assert!(encounter_for("Ashfen Crossing").is_none());
    let solo = encounter_for("Thornmarch Gate").unwrap();
    let foes = encounter_foes(&solo);
    assert_eq!(foes.len(), 1);
    assert_eq!(foes[0].0.name, "The Swarm");
    assert_eq!(
        encounter_roster("Greywater Ford"),
        vec![("The Anvil", 1), ("The Swarm", 1), ("The Coil", 2), ("The Mirage", 1)]
    );
    assert!(encounter_roster("Ashfen Crossing").is_empty());
}
