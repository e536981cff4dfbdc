# Dynamic search rules

A dynamic search rule pins documents to positions in the results of a search while the conditions
of the rule hold: it is switched on, its time has come, the query is empty or not as it asks, and
the query has every word that it asks for. A rule that asks for no word gets by without any.

- `src/` is the library, verified with Verus. It decides which rules are active (`active`,
  `satisfied`), which documents they pin (`pins`, `search`), what the store of the rules shows its
  readers (`body`, `rules`, `store`), which tasks change the rules (`scheduler`) and how requests about
  them are answered (`routes`). `active_laws` and `pins_laws` prove what whole searches come to.
- `tests/` runs the library.
- `app/` is the code around it: databases, JSON and HTTP.

The library reads and writes no database. A search is a value that says which read it waits for;
handed what the read found, it becomes the next step or the result.

What is taken on trust are the contracts of the calls into `roaring` (`bitmap`), `itertools`
(`combinations`) and `time` (`search_time`).
