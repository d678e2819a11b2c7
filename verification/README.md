# elbie

Elbie is a toolkit for building constructed languages: phoneme inventories and their sets,
phonotactic patterns that generate and validate words, sound-change rules, orthographies,
lexicons, and the tables that show them.

The library under `src/` is verified with Verus. Each public function states its result in its
contract, over spec functions and views, and the properties that relate several functions are
public proof functions next to them.

- `bag`, `weighted_vec`, `order`, `names`: ordered sets without repeats, weighted choice, and
  the byte order of names.
- `phoneme`, `word`, `reading`: inventories of phonemes and named sets, words, and reading a
  word from text by the longest phoneme names.
- `patterns`, `validation`, `generation`, `messages`: phonotactic patterns, the validation of
  words against them, the generation of words from them, and the texts of traces and
  explanations.
- `transformation`, `splice`: the state a sound-change rule matches on, and applying the
  replacements it finds to a word.
- `phoneme_table`, `phoneme_grid`, `grid`, `format`: table definitions, the grids of phonemes
  they make, and rendering grids as CSV, blended plain text, text table rows (`grid_text`), an HTML
  tree (`grid_html`) and a JSON tree (`grid_json`).
- `word_table`, `lexicon`, `orthography`, `spelling`, `analysis`: word lists with attributes,
  lexicons, orthography choices, spelling tables and cluster analysis.
- `transform_table`: recording the results of transforming or validating the words of a
  table in its entries and attributes.
- `arguments`, `transformation_arguments`: the command lines of the single-language and the
  transformation tools.
- `text`, `random`, `errors`: text helpers, the random number source, and the error type.

`app/` holds what is not verified: the command-line programs, file and terminal output, the
language and family builders that hold user closures, and the comparison of a random
floating-point number with a probability that word generation is handed.
