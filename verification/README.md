# go_fish

Card games for the terminal (Go Fish and War, and the rules of Blackjack), written in Verus.

- `src/` is the verified library: cards and card sets (`card`), decks and how they are
  printed (`deck`, `text`), reading answers (`input`), and the rules of each game
  (`war`, `go_fish`, `blackjack`). Every function states its behaviour in `requires` /
  `ensures`, and the laws of the games (no card is made or lost in a turn of Go Fish or in a
  round of War that has a winner, sorting keeps the cards, books are four of a kind, ...)
  are public proof functions next to the code they are about.
- `app/` is the program: menus, prompts, the card set files of the `card_sets` folder, and
  the loops that ask the players and print each round or turn the library decides.
- `tests/` runs the library on concrete games.
