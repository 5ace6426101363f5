//! Re-parsing canonical output gives the same tree.
//!
//! The trees the parser builds are well formed (`parsed`); the canonical
//! text of a well-formed tree lexes into the tokens of its lexemes (`relex`),
//! and those tokens parse back into the tree (`reparse`).

use vstd::prelude::*;
use crate::lexer::lex;
use crate::chars::{spec_is_whitespace, upper};
use crate::parser::{Ex, Cell, spec_parse, p_expr, spec_cell_ref, is_valid_name};
use crate::printer::{spec_render, ref_text};
use crate::lexemes::{wf, lexemes, flat, lemma_lexemes_flat, canonical_cell, true_text, false_text};
use crate::reparse::{reads, lemma_level, lemma_lxw_shape, lemma_precedence_range};
use crate::relex::{tokens_of, lemma_good_lexemes, lemma_lex_seq};

verus! {

/// The canonical text of a well-formed tree lexes into the tokens of its
/// lexemes, then the end.
pub proof fn lemma_lex_canonical(e: Ex)
    requires
        wf(e),
    ensures
        lex(spec_render(e)) matches Ok(t) && tokens_of(t, lexemes(e), 0),
{
    lemma_lexemes_flat(e);
    lemma_good_lexemes(e);
    let ls = lexemes(e);
    assert(ls.take(0) =~= Seq::<crate::lexemes::Lx>::empty());
    assert(flat(Seq::<crate::lexemes::Lx>::empty()).len() == 0);
    lemma_lex_seq(spec_render(e), ls, 0);
}

/// The canonical text of a well-formed tree parses back as that tree.
pub proof fn lemma_reparse_wf(e: Ex)
    requires
        wf(e),
    ensures
        spec_parse(spec_render(e)) == Ok::<Ex, crate::lexer::Failure>(e),
{
    lemma_lex_canonical(e);
    let t = lex(spec_render(e))->Ok_0;
    let ls = lexemes(e);
    let n = ls.len() as int;
    assert(reads(t, 0, ls)) by {
        assert forall|j: int| 0 <= j < 0 + ls.len() implies (#[trigger] t[j]).kind == ls[j - 0].kind by {}
        assert forall|j: int| 0 < j < 0 + ls.len() implies (#[trigger] t[j]).after_space == ls[j - 0].space by {}
    }
    assert(t[n].kind is Eof);
    lemma_lxw_shape(e, false);
    lemma_precedence_range(e);
    lemma_level(t, 0, e, false, 1);
    assert(p_expr(t, 0) == crate::parser::PResult::Ok((e, n)));
}


/// Re-parsing the canonical output always produces the same tree: for any
/// formula text that parses, its canonical text parses to the same tree, and
/// so renders to the same canonical text again.
pub proof fn law_reparse_canonical(s: Seq<char>)
    requires
        spec_parse(s) is Ok,
    ensures
        spec_parse(spec_render(spec_parse(s)->Ok_0)) == spec_parse(s),
        spec_render(spec_parse(spec_render(spec_parse(s)->Ok_0))->Ok_0) == spec_render(
            spec_parse(s)->Ok_0,
        ),
{
    crate::parsed::lemma_parse_wf(s);
    lemma_reparse_wf(spec_parse(s)->Ok_0);
}


/// Any identifier that is not a cell reference (nor `TRUE` or `FALSE`) is
/// a defined name: a valid name on its own parses as that name.
pub proof fn law_identifier_is_a_name(n: Seq<char>)
    requires
        is_valid_name(n),
        !spec_is_whitespace(n[0]),
        spec_cell_ref(n) is None,
        upper(n) != true_text(),
        upper(n) != false_text(),
    ensures
        spec_parse(n) == Ok::<Ex, crate::lexer::Failure>(Ex::Name(n)),
{
    lemma_reparse_wf(Ex::Name(n));
}

/// A cell reference in canonical form (upper-case column of one to three
/// letters, a row from 1 up, optional `$`s, an optional sheet) parses as
/// that reference.
pub proof fn law_cell_reference_parses(c: Cell)
    requires
        canonical_cell(c),
    ensures
        spec_parse(ref_text(c)) == Ok::<Ex, crate::lexer::Failure>(Ex::Reference(c)),
{
    lemma_reparse_wf(Ex::Reference(c));
}

} // verus!
