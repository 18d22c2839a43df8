# exam_quiz

A console quiz for exam preparation: it reads a file of test questions, asks a
random selection of them one by one (one right option, several right options, or
a typed answer checked loosely against accepted spellings), and prints a report
with the share of right answers and the questions that went wrong.

Layout:

- `src/` is the library, verified with Verus: the question file parser, the
  answer matching (normalisation and Levenshtein distance), the decisions made on
  each typed line, the shuffling of options and questions, and the texts the
  program prints (the prompts, the header, the report and the messages of a
  refused question file). The line with the percentage of right answers and
  the messages about files that cannot be read stay in `app/`. Contracts are stated over `Seq`, `Set` and `Multiset` views,
  and the laws that tie the functions together are public proof functions.
- `app/` is the program around it: reading the settings and the test files
  (YAML, through serde), the terminal, the loop of a session, and the mark given
  for a percentage, which is a floating-point number.
- `tests/` runs the library on concrete inputs.
