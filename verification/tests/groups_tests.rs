use deckbound::groups::{aoe, block_bid, group_can_act, group_slips, hoard_bodies, spillover};

#[test]
fn block_sums_but_slip_is_weakest_link() {
    assert_eq!(block_bid(&[2, 3, 4]), 9);
    assert!(group_slips(&[4, 5, 6], 3), "all members beat 3 → the group slips");
    assert!(!group_slips(&[4, 2, 6], 3), "one member (2) fails to beat 3 → the group is caught");
    assert!(!group_slips(&[3, 3, 3], 3), "a tie lands the strike");
    assert!(!group_slips(&[], 0), "an empty group cannot slip");
    assert!(group_slips(&[7], 5), "a lone fast body slips");
}

#[test]
fn spillover_overflows_in_declared_order() {
    let mut hp = [5, 3, 4];
    let leftover = spillover(7, &mut hp);
    assert_eq!(hp, [0, 1, 4], "tank emptied, 2 overflowed to the second member");
    assert_eq!(leftover, 0);
    let mut hp = [2, 2];
    assert_eq!(spillover(10, &mut hp), 6, "10 − 4 = 6 leftover");
    assert_eq!(hp, [0, 0]);
}

#[test]
fn aoe_hits_every_member_bypassing_the_queue() {
    let mut hp = [5, 3, 4];
    aoe(2, &mut hp);
    assert_eq!(hp, [3, 1, 2], "every body takes the full 2");
}

#[test]
fn group_acts_only_if_every_member_can_spend() {
    assert!(group_can_act(&[1, 2, 3]), "all have Tempo → the group acts");
    assert!(!group_can_act(&[1, 0, 3]), "one member is out of Tempo → the group cannot act");
    assert!(!group_can_act(&[]), "an empty group cannot act");
}

#[test]
fn hoard_is_a_group_of_one_health_bodies() {
    let mut swarm = hoard_bodies(4);
    assert_eq!(swarm, vec![1, 1, 1, 1]);
    aoe(2, &mut swarm);
    assert_eq!(swarm, vec![0, 0, 0, 0], "one AoE shreds the whole swarm");
    assert!(!group_slips(&[1, 1, 1, 1], 1), "a swarm cannot slip");
}

#[test]
fn spillover_conserves_damage() {
    let mut hp = [3, 4, 1];
    let before: u32 = hp.iter().sum();
    let left = spillover(6, &mut hp);
    let after: u32 = hp.iter().sum();
    assert_eq!(before - after + left, 6);
}
