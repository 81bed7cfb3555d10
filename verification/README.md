# plo_eval

Hand evaluation and equity calculation for Pot-Limit Omaha (high and
eight-or-better) and Texas Hold'em, verified with Verus.

Layout:

- `src/` — the verified library.
  - `cards.rs`: suits, ranks, cards, notation, the deck, canonical order, hands and boards.
  - `card_order.rs`: the canonical order as `<` on cards.
  - `eval.rs`: five-card high and low evaluation; `eval_fast.rs`: deck indices and scores.
  - `showdown.rs`: best Omaha (two hole cards plus three board cards) and Hold'em hands, and Omaha lows.
  - `equity.rs`: exact win/tie/loss counts of hand against hand, hand against range, range against range.
  - `rng.rs`: dealing random hands from a shuffled deck (`rand`, `rand_pcg`).
  - `range.rs`: shorthand range notation for both games.
  - `backend.rs`: routing between the GPU and the CPU, and the integer layout of GPU requests.
  - `validation.rs`: reading checklist lines and board texts.
- `app/` — the validation bench program: equity fractions and weighted ranges,
  the `wgpu` GPU evaluator, serializable copies of the library types.
- `tests/` — tests of the library.
