# deckbound

The rules core of *Deckbound*, a cooperative card-combat game, written in Verus: every function in
`src/` carries a `requires`/`ensures` contract that Verus proves.

- `stats`, `form`, `decktree`, `currency`, `cards`, `actor` — the data model: health decks, the Form
  (stat cards summed commutatively), the suit/denomination deck tree, role tracks, cards and effects,
  combatants and their token tallies.
- `duel`, `read`, `groups`, `actors` — the four-card Clash, the read cycle, group blocking and spillover,
  and the sample roster's plays.
- `effects`, `combat`, `policy`, `state` — playing cards, the engagement-schedule round (declare,
  apply, boundary, step by step), and the targeting / evade / strike-back policy it consults.
- `game`, `engagement`, `balance`, `combinatorics` — building a battle board, the balance front-end
  (units, battles, strategies, reports) and composition enumeration.
- `rules`, `ruleset`, `encounter`, `layout`, `catalog`, `text` — the rule registry and ruleset mask,
  encounter scaling, the combat layout, the catalog tables, and narration text.

`tests/` exercises the library from outside; `app/` holds the file I/O around it (reading a class set
written in RON).

## Scope

The library holds the rules core: the data model, the round resolver, card effects, the Clash, the
battle front-end and the balance helpers. It does not hold the menu-driven game state machine (its
views and legal actions serve an outside table interface and a seeded generator), the world-map
campaign and reference world, the booklet-driven roster builders and card catalog, or the par-solver
and the balance checks built on them. Of the game layer it holds the battle-board builder,
`check_outcome` and `hero_won` (`game`), the grind encounters (`encounter`), a balance level's
ruleset and the locks-diagonal check (`balance`).

## The resolver's bounds

The round resolver (`combat::step`, `combat::resolve_round`, and `engagement::battle` through
`sides_fit`) is proved free of overflow on boards within fixed bounds, `combat::board_ok`:

- at most 256 bodies a side (`pool_cap`);
- every stat, token tally, weapon power, Might bonus, health-card bar and Tempo at most 2^20
  (`stat_cap`), with Tempo no lower than −2^29 (`tempo_floor`);
- every standing body's pile at most 2^22 (`pile_cap`).

Within these bounds every sum the round forms fits its integer type; a round keeps the board within
them. `combat::board_fits` checks them without overflow, and `combat::resolve_round_checked`,
`combat::step_checked` and `engagement::battle_checked` take any board, reporting one outside the
bounds instead of resolving it.
