use deckbound::actor::Intention;
use deckbound::layout::{Rank, Slot};

#[test]
fn group_runs_split_on_group_change() {
    let rank = Rank {
        intention: Intention::Vanguard,
        slots: vec![
            Slot { unit: 0, group: 1, down: false },
            Slot { unit: 1, group: 1, down: false },
            Slot { unit: 2, group: 4, down: false },
            Slot { unit: 3, group: 1, down: false },
        ],
    };
    assert_eq!(rank.group_runs(), vec![0..2, 2..3, 3..4]);
}

#[test]
fn an_empty_rank_has_no_runs() {
    let rank = Rank { intention: Intention::Rearguard, slots: Vec::new() };
    assert!(rank.group_runs().is_empty());
}
