use deckbound::currency::Currency;
use deckbound::form::{Form, StatCard};

#[test]
fn five_role_tracks_plus_a_generic() {
    assert_eq!(Currency::tracks().len(), 5);
    let roles: Vec<_> = Currency::tracks().iter().filter_map(|c| c.role()).collect();
    assert_eq!(roles.len(), 5);
    assert_eq!(Currency::Gold.role(), None);
    assert!(!Currency::tracks().contains(&Currency::Gold));
}

#[test]
fn form_sums_fundamental_and_attachments_commutatively() {
    let fundamental = StatCard {
        name: "Anvil (base)".into(),
        might: 4,
        cadence: 2,
        finesse: 1,
        vitality: 10,
        toughness: 2,
    };
    let reward_a = StatCard { name: "Toughen".into(), toughness: 1, ..Default::default() };
    let reward_b = StatCard { name: "Swiften".into(), cadence: 1, ..Default::default() };

    let form = Form::new(vec![fundamental.clone(), reward_a.clone(), reward_b.clone()]);
    let o = form.offense();
    assert_eq!((o.might, o.cadence, o.finesse), (4, 3, 1));
    let d = form.defense();
    assert_eq!(d.health.max(), 10);
    assert_eq!(d.health.toughness(), 3);

    let reordered = Form::new(vec![reward_b, reward_a, fundamental]);
    assert_eq!(reordered.defense().health.toughness(), d.health.toughness());
    assert_eq!(reordered.offense().cadence, o.cadence);
}

#[test]
fn currency_labels_and_roles() {
    assert_eq!(Currency::all().len(), 6);
    assert_eq!(Currency::Gold.ranged_weapon(), None);
}
