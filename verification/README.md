# clases_rust

Small exercises on text processing and concurrency, with their logic written and
proved in Verus.

- `src/` is the verified library, one module per exercise plus shared pieces:
  - `texto`: characters of strings, whitespace splitting, trimming, word cleaning.
  - `numeros`: decimal integers read as `str::parse` reads them.
  - `tabla`, `orden`: maps kept as key/value pairs, and ordering by count.
  - `ahorcado`: hangman, from the masked word to the state of a game.
  - `frecuencias`: word counts of lines and files, and how partial counts add up.
  - `indice`: an inverted index and the scoring of documents for a query.
  - `diff`: the longest-common-subsequence table and the line diff it yields.
  - `cuenta`: a bank account.
  - `chat`: nickname announcements, the register of users, and typed messages.
- `app/` holds the programs: terminal, files, sockets and threads around the library.
  Its first argument names the program to run.
- `tests/` runs the library on concrete inputs.
