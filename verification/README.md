# liholiswano

A rotating savings contract, written in Verus.

Members of a group post collateral and pay a contribution each round. The eligible member
with the highest bid takes the pot, less what it bid; the others share the bid. From the
deadline of a round on, members that did not pay are defaulted: their collateral goes to
the reserve, which tops up the pots to come. When every active member has won, the group
is completed, and survivors claim their collateral and an equal share of the reserve.

## Layout

- `src/` is the verified library.
  - `types`: the stored values and their views
  - `members`: counting and finding members
  - `rules`: what each request does to a group
  - `calls`: what each call does to the contract
  - `group`, `contract`: the code, proved to follow `rules` and `calls`
  - `amounts`, `upkeep`, `solvency`, `books`: why amounts add up, what every request keeps,
    why no bad debt arises, and what the contract holds for a group
  - `history`, `laws`: what holds after any calls, in any order
- `app/` is the Soroban contract around the library. It reads entries off the ledger, has
  the library answer a call, and carries out the actions that the answer lists.
- `tests/` plays the contract against a small ledger.

## Amounts

Token amounts are 128-bit. A call whose amounts would not fit is aborted as a whole: the
methods named `checked_..` answer `None` for it and change nothing, and their plain
namesakes require that it does not happen.
