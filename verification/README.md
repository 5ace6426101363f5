# formula-fmt

A validating parser and pretty printer for spreadsheet formulas, verified
with Verus.

Formula text is tokenized and parsed with the operator precedence
spreadsheets document, errors are reported with the character position where
the formula breaks, and a parsed tree is written back in canonical form:
upper-case function names and cell columns, consistent spacing, numbers in
plain positional notation, and only the parentheses the tree needs.

## Layout

- `src/chars.rs`: character classes and small text helpers.
- `src/number.rs`: number literals, kept as decimals in normal form (exact
  while the power of ten stays within `EXP_LIMIT`, saturated beyond it).
- `src/lexer.rs`: the tokenizer, with its specification (`lex`).
- `src/parser.rs`: the tree, the parser and its specification (`spec_parse`),
  cell references and defined names.
- `src/printer.rs`: canonical text (`spec_render`) and JSON (`spec_json`).
- `src/eval.rs`: values, and the parts of evaluation that need no
  floating point (literals, references and names, refusals, error
  propagation, the order of non-numeric values, the JSON form of a value).
- `src/workbook.rs`: cells and defined names, modelled as maps.
- `src/lexemes.rs`, `src/relex.rs`, `src/reparse.rs`, `src/parsed.rs`,
  `src/roundtrip.rs`: the proof that canonical output reads back as the same
  tree (`law_reparse_canonical`).
- `src/parens.rs`, `src/ref_parens.rs`: the proof that the parentheses
  written around operands of operators are needed.
- `app/main.rs`: the command-line program, including evaluation, which
  computes with `f64`.

## What is proved

Every executable function in `src/` meets its contract: `parse` returns
exactly what `spec_parse` says (tree or error message and position),
`render` writes exactly `spec_render`, `to_json` exactly `spec_json`, and the
workbook reads and writes as a map keyed without regard to ASCII case.

On top of these:

- `law_reparse_canonical`: for every text that parses, its canonical text
  parses to the same tree (and so renders to the same text again).
- `lemma_parse_wf`: every parsed tree is in canonical form (`wf`).
- `law_left_operand_parens_needed`, `law_right_operand_parens_needed`,
  `law_sign_operand_parens_needed`, `law_percent_operand_parens_needed`:
  where canonical text puts parentheses around an operand of an operator,
  the text without them parses to a different tree.
- `law_range_left_parens_needed`, `law_range_right_parens_needed`,
  `law_intersect_left_parens_needed`, `law_intersect_right_parens_needed`:
  the same for the operands of the range and intersection operators (the
  text without the parentheses parses to another tree or not at all).
- `law_cell_pattern_is_reference`, `law_reference_is_cell_pattern`
  (`src/cells.rs`): a text is a cell reference exactly when it is an
  optional `$`, one to three ASCII letters, an optional `$` and digits for a
  row from 1 to `u32::MAX`; the reference has the column upper-cased and the
  row the digits' value.
- `law_identifier_is_a_name`, `law_cell_reference_parses`: identifiers that
  are not cell references are defined names; canonical references parse as
  themselves.
- `law_error_literal_any_case`: error literals are read in any ASCII case
  and come out in their canonical spelling.
- `law_cell_read_after_write`, `law_cell_write_keeps_others`,
  `law_unset_cell_reads_zero`, `law_name_read_after_write`,
  `law_name_write_keeps_others`: what the workbook gives back of what was
  written.
