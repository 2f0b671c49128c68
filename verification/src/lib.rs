//! Ordered string position keys: generate keys before, after, and between
//! existing keys so that a list can be reordered without renumbering rows.
//!
//! A position is a non-empty string over the visible-ASCII alphabet (code
//! points 32 through 126) that does not end in the minimum character.
//! Positions are ordered lexicographically by code point, and the
//! generators derive new positions that slot in before, after, or between
//! existing ones while keeping the strings short.

use vstd::prelude::*;
use core::cmp::Ordering;

pub mod figma;
pub mod order;

use crate::figma::{after_spec, before_spec, between_spec, FigmaStrategy};
use crate::order::{lex_cmp, valid_position};

verus! {

/// The closed set of ranking algorithm kinds; adding a kind is a pure
/// extension point.
#[derive(Debug)]
pub enum LexoRankKind {
    FIGMA,
}

impl Default for LexoRankKind {
    fn default() -> (r: Self)
        ensures
            r == LexoRankKind::FIGMA,
    {
        LexoRankKind::FIGMA
    }
}

/// Facade over one ranking algorithm implementation, chosen at construction
/// time by a [`LexoRankKind`]; every operation is forwarded unchanged.
#[derive(Debug)]
pub struct LexoRank {
    pub lexorank_strategy: FigmaStrategy,
    pub kind: LexoRankKind,
}

impl LexoRank {
    /// Constructs the facade for the chosen algorithm kind.
    pub fn new(kind: LexoRankKind) -> (r: LexoRank)
        ensures
            r.kind == LexoRankKind::FIGMA,
    {
        match kind {
            LexoRankKind::FIGMA => LexoRank { kind, lexorank_strategy: FigmaStrategy {} },
        }
    }

    /// Lexicographic comparison of two position strings by their code
    /// points; performs no validation.
    pub fn compare_positions(&self, first_pos: &str, second_pos: &str) -> (r: Ordering)
        ensures
            r == lex_cmp(first_pos@, second_pos@),
    {
        self.lexorank_strategy.compare_positions(first_pos, second_pos)
    }

    /// Reports whether a candidate string is a well-formed position.
    pub fn is_valid_position(&self, pos: &str) -> (r: bool)
        ensures
            r == valid_position(pos@),
    {
        self.lexorank_strategy.is_valid_position(pos)
    }

    /// A position strictly before `pos`; the input must be well formed.
    pub fn position_before(&self, pos: &str) -> (r: String)
        requires
            valid_position(pos@),
        ensures
            r@ == before_spec(pos@),
            valid_position(r@),
            lex_cmp(r@, pos@) == Ordering::Less,
    {
        self.lexorank_strategy.position_before(pos)
    }

    /// A position strictly after `pos`; the input must be well formed.
    pub fn position_after(&self, pos: &str) -> (r: String)
        requires
            valid_position(pos@),
        ensures
            r@ == after_spec(pos@),
            valid_position(r@),
            lex_cmp(r@, pos@) == Ordering::Greater,
    {
        self.lexorank_strategy.position_after(pos)
    }

    /// A position strictly between two well-formed positions, the first
    /// strictly before the second.
    pub fn position_between(&self, first_pos: &str, second_pos: &str) -> (r: String)
        requires
            valid_position(first_pos@),
            valid_position(second_pos@),
            lex_cmp(first_pos@, second_pos@) == Ordering::Less,
        ensures
            r@ == between_spec(first_pos@, second_pos@),
            valid_position(r@),
            lex_cmp(first_pos@, r@) == Ordering::Less,
            lex_cmp(r@, second_pos@) == Ordering::Less,
    {
        self.lexorank_strategy.position_between(first_pos, second_pos)
    }
}

} // verus!
