use deckbound::duel::{Charges, Move, Side, resolve};

fn side(power: u32, up: u32, down: u32, max: u32) -> Side<'static> {
    Side { power, up, down, max, name: "X" }
}

#[test]
fn defense_answers_every_attack() {
    let s = side(5, 0, 0, 3);
    assert!(resolve(&s, Move::Strike, &s, Move::Parry).on_a.is_none());
    assert!(resolve(&s, Move::Throw, &s, Move::Evade).on_a.is_none());
}

#[test]
fn offense_answers_every_move() {
    let me = side(5, 0, 0, 3);
    let you = side(5, 0, 0, 3);
    let lands = |am: Move, bm: Move| resolve(&me, am, &you, bm).on_b.is_some();
    assert!(lands(Move::Throw, Move::Parry), "Throw beats Parry");
    assert!(lands(Move::Strike, Move::Evade), "Strike beats Evade");
    assert!(lands(Move::Strike, Move::Strike), "Strike trades into Strike");
    assert!(lands(Move::Strike, Move::Throw), "Strike clips Throw");
    assert!(lands(Move::Strike, Move::Charge), "Strike hits a charger");
    assert!(lands(Move::Strike, Move::Recover), "Strike hits a recoverer");
}

#[test]
fn landing_on_a_strike_requires_a_trade() {
    let me = side(5, 0, 0, 3);
    let you = side(5, 0, 0, 3);
    for am in [Move::Throw, Move::Parry, Move::Evade, Move::Charge, Move::Recover] {
        assert!(
            resolve(&me, am, &you, Move::Strike).on_b.is_none(),
            "{am:?} shouldn't land vs Strike"
        );
    }
    let trade = resolve(&me, Move::Strike, &you, Move::Strike);
    assert!(trade.on_b.is_some() && trade.on_a.is_some(), "Strike lands but you're also hit");
}

#[test]
fn charges_double_damage_and_persist() {
    let a = side(3, 2, 0, 3);
    let b = side(3, 0, 0, 3);
    let r = resolve(&a, Move::Strike, &b, Move::Evade);
    assert_eq!(r.on_b.unwrap().raw, 12);
    assert_eq!(r.a, Charges { up: 2, down: 0 }, "charges persist (durable)");
}

#[test]
fn a_defended_strike_flips_the_charges_down() {
    let a = side(3, 2, 0, 3);
    let b = side(3, 0, 0, 3);
    let r = resolve(&a, Move::Strike, &b, Move::Parry);
    assert!(r.on_b.is_none(), "parried — no damage");
    assert_eq!(r.a, Charges { up: 0, down: 2 }, "the parry flipped both charges down");
}

#[test]
fn charge_builds_and_recover_restores() {
    let a = side(3, 0, 0, 2);
    let b = side(3, 0, 0, 2);
    let r = resolve(&a, Move::Charge, &b, Move::Parry);
    assert_eq!(r.a, Charges { up: 1, down: 0 });
    let a2 = side(3, 0, 2, 2);
    let r2 = resolve(&a2, Move::Recover, &b, Move::Parry);
    assert_eq!(r2.a, Charges { up: 2, down: 0 });
}

#[test]
fn an_attack_interrupts_a_charge() {
    let a = side(3, 0, 0, 3);
    let b = side(3, 0, 0, 3);
    let r = resolve(&a, Move::Charge, &b, Move::Strike);
    assert!(r.on_a.is_some(), "the charger is hit");
    assert_eq!(r.a, Charges { up: 0, down: 0 }, "the charge was interrupted");
}

#[test]
fn gather_banks_no_charge_and_connects_nothing() {
    let a = side(3, 0, 0, 3);
    let b = side(3, 0, 0, 3);
    let r = resolve(&a, Move::Gather, &b, Move::Parry);
    assert!(r.on_a.is_none() && r.on_b.is_none());
    assert!(!r.connected);
    assert_eq!(r.a, Charges { up: 0, down: 0 });
}

#[test]
fn damage_saturates_rather_than_wrapping() {
    let a = side(u32::MAX, 1, 0, 3);
    let b = side(1, 0, 0, 3);
    let r = resolve(&a, Move::Strike, &b, Move::Evade);
    assert_eq!(r.on_b.unwrap().raw, u32::MAX);
}

#[test]
fn an_exchange_of_strikes_never_weighs_the_charges() {
    let a = Side { power: 1, up: u32::MAX, down: 1, max: 3, name: "A" };
    let b = Side { power: 1, up: 1, down: u32::MAX, max: 3, name: "B" };
    let r = resolve(&a, Move::Strike, &b, Move::Strike);
    assert!(r.connected);
    assert_eq!(r.a, Charges { up: u32::MAX, down: 1 });
    assert_eq!(r.b, Charges { up: 1, down: u32::MAX });
    assert_eq!(r.on_a.unwrap().raw, 2);
    assert_eq!(r.on_b.unwrap().raw, 65536);
}
