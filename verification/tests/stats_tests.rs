use deckbound::stats::{Defense, Health};

fn knight() -> Defense {
    // Vitality 8, Toughness 2.
    Defense::new(8, 2)
}

#[test]
fn might_accumulates_into_the_pile_and_toughness_gates_flips() {
    let mut d = knight();
    let o = d.take(1);
    assert_eq!(o.cards_flipped, 0);
    let o = d.take(1);
    assert_eq!(o.cards_flipped, 1);
}

#[test]
fn a_big_hit_flips_several_cards() {
    let mut d = knight();
    let o = d.take(6);
    assert_eq!(o.cards_flipped, 3);
}

#[test]
fn partial_damage_clears_at_round_end() {
    let mut d = knight();
    d.take(1);
    assert_eq!(d.health_pile, 1);
    d.end_round();
    assert_eq!(d.health_pile, 0);
}

#[test]
fn health_deck_flips_front_first_and_recovers_like_the_old_counts() {
    let mut h = Health::new(3, 2);
    assert_eq!(h.max(), 3);
    assert_eq!(h.remaining(), 3);
    assert_eq!(h.toughness(), 2);
    assert!(!h.is_empty());

    assert!(h.flip_down());
    assert!(h.cards[0].down, "front card flips first");
    assert!(!h.cards[1].down);
    assert_eq!(h.remaining(), 2);
    assert_eq!(h.max(), 3, "max is the deck size, unchanged by flips");
    assert_eq!(h.toughness(), 2, "bar still reads from the next face-up card");

    assert!(h.flip_down());
    assert!(h.flip_down());
    assert_eq!(h.remaining(), 0);
    assert!(h.is_empty());
    assert!(!h.flip_down(), "no face-up card left to flip");

    assert!(h.turn_up());
    assert!(!h.cards[0].down, "front card recovers first");
    assert_eq!(h.remaining(), 1);
    assert!(!h.is_empty());

    let mut d = Defense::new(4, 2);
    let o = d.take(5);
    assert_eq!(o.cards_flipped, 2);
    assert_eq!(d.health.remaining(), 2);
    assert_eq!(d.health_pile, 1);
    assert_eq!(d.recover_card(), 1);
    assert_eq!(d.health.remaining(), 3);
    assert_eq!(d.health_pile, 0);
}

#[test]
fn emptying_the_pool_downs_the_actor() {
    let mut d = Defense::new(2, 1);
    assert!(!d.take(1).down);
    let o = d.take(1);
    assert!(o.down);
    assert!(d.is_down());
}

#[test]
fn heal_turns_cards_up_front_first_and_stops_when_none_are_down() {
    let mut h = Health::new(4, 1);
    h.flip_down();
    h.flip_down();
    assert_eq!(h.heal(5), 2);
    assert_eq!(h.remaining(), 4);
    assert_eq!(h.heal(1), 0);
}

#[test]
fn a_flip_then_a_recovery_restores_the_face_up_count() {
    let mut h = Health::new(3, 2);
    let before = h.remaining();
    assert!(h.flip_down());
    assert!(h.turn_up());
    assert_eq!(h.remaining(), before);
}

#[test]
fn a_wall_of_zero_counts_as_one() {
    let mut d = Defense::new(3, 5);
    let o = d.take_with_toughness(2, 0);
    assert_eq!(o.cards_flipped, 2);
    assert_eq!(d.health_pile, 0);
}
