use deckbound::decktree::{Deck, FormTree, Stat, Suit, card_cost, denominations};
use deckbound::form::{Form, StatCard};

#[test]
fn base2_denominations_are_the_unique_binary_expansion() {
    assert_eq!(denominations(18), vec![2, 16]);
    assert_eq!(card_cost(18), 2);
    assert_eq!(denominations(0), Vec::<u32>::new());
    assert_eq!(denominations(1), vec![1]);
    assert_eq!(denominations(7), vec![1, 2, 4]);
    for v in 0u32..=64 {
        let d = denominations(v);
        assert_eq!(d.iter().sum::<u32>(), v, "leaves sum to the value");
        assert!(d.iter().all(|x| x.is_power_of_two()), "every leaf is a power of two");
        let mut sorted = d.clone();
        sorted.dedup();
        assert_eq!(sorted.len(), d.len(), "no denomination repeats (one of each)");
        assert_eq!(card_cost(v), d.len() as u32, "cost = popcount = leaf count");
    }
}

#[test]
fn stat_cells_are_the_locked_deck_x_suit_map() {
    assert_eq!(Stat::Vitality.cell(), (Deck::Health, Suit::Quantity));
    assert_eq!(Stat::Toughness.cell(), (Deck::Health, Suit::Power));
    assert_eq!(Stat::Cadence.cell(), (Deck::Tempo, Suit::Quantity));
    assert_eq!(Stat::Finesse.cell(), (Deck::Tempo, Suit::Power));
    assert_eq!(Stat::Might.cell(), (Deck::Might, Suit::Power));
}

#[test]
fn form_tree_face_equals_the_summed_form() {
    let form = Form::new(vec![
        StatCard { name: "base".into(), might: 6, vitality: 10, toughness: 3, cadence: 5, finesse: 2 },
        StatCard { name: "reward".into(), toughness: 1, cadence: 2, ..Default::default() },
    ]);
    let tree = FormTree::of(&form);
    assert_eq!(tree.stat(Stat::Vitality), 10);
    assert_eq!(tree.stat(Stat::Toughness), 4);
    assert_eq!(tree.stat(Stat::Cadence), 7);
    assert_eq!(tree.stat(Stat::Finesse), 2);
    assert_eq!(tree.stat(Stat::Might), 6);
    for sd in &tree.decks {
        for suit in &sd.suits {
            assert_eq!(
                suit.leaves.iter().sum::<u32>(),
                suit.value,
                "{:?} {:?} leaves sum to the face",
                sd.deck,
                suit.suit
            );
        }
    }
    assert_eq!(tree.total_cards(), 2 + 1 + 3 + 1 + 2);
}

#[test]
fn might_deck_is_power_only_no_quantity() {
    let form = Form::new(vec![StatCard { might: 5, ..Default::default() }]);
    let tree = FormTree::of(&form);
    let might = tree.decks.iter().find(|d| d.deck == Deck::Might).expect("a Might deck");
    assert_eq!(might.suits.len(), 1, "Might has Power only — no Quantity");
    assert_eq!(might.suits[0].suit, Suit::Power);
}

#[test]
fn stat_labels_name_each_stat() {
    assert_eq!(Stat::Might.label(), "Might");
    assert_eq!(Stat::Finesse.label(), "Finesse");
}
