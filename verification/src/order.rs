//! The alphabet of position characters and the lexicographic order on
//! positions, together with the laws that make that order a strict total
//! order.

use vstd::prelude::*;
use core::cmp::Ordering;

verus! {

/// Smallest code point of the alphabet (a space).
pub const START_CHAR_CODE: u8 = 32;

/// Largest code point of the alphabet (a tilde).
pub const END_CHAR_CODE: u8 = 126;

/// A character belongs to the alphabet when its code point lies in
/// `[START_CHAR_CODE, END_CHAR_CODE]` (visible ASCII plus space).
pub open spec fn char_in_alphabet(c: char) -> bool {
    START_CHAR_CODE as u32 <= c as u32 <= END_CHAR_CODE as u32
}

/// A well-formed position: non-empty, every character drawn from the
/// alphabet, and the last character is not the minimum (a trailing minimum
/// character would be ordering-redundant, so it is ruled out to keep the
/// representation canonical).
pub open spec fn valid_position(s: Seq<char>) -> bool {
    &&& s.len() >= 1
    &&& (forall|j: int| 0 <= j < s.len() ==> char_in_alphabet(#[trigger] s[j]))
    &&& s[s.len() - 1] as u32 != START_CHAR_CODE as u32
}

/// Lexicographic comparison of the suffixes of `a` and `b` starting at
/// index `i`: the first differing code point decides; if one sequence is
/// exhausted first it sorts before the longer one.
pub open spec fn lex_cmp_from(a: Seq<char>, b: Seq<char>, i: int) -> Ordering
    decreases a.len() - i,
{
    if 0 <= i < a.len() && i < b.len() {
        if (a[i] as u32) < (b[i] as u32) {
            Ordering::Less
        } else if (b[i] as u32) < (a[i] as u32) {
            Ordering::Greater
        } else {
            lex_cmp_from(a, b, i + 1)
        }
    } else if 0 <= i < b.len() {
        Ordering::Less
    } else if 0 <= i < a.len() {
        Ordering::Greater
    } else {
        Ordering::Equal
    }
}

/// Plain lexicographic comparison of two character sequences.
pub open spec fn lex_cmp(a: Seq<char>, b: Seq<char>) -> Ordering {
    lex_cmp_from(a, b, 0)
}

/// When `a` and `b` agree on every index below `i`, the comparison is
/// decided by the suffixes from `i` on.
pub proof fn lemma_lex_cmp_skip_prefix(a: Seq<char>, b: Seq<char>, i: int)
    requires
        0 <= i <= a.len(),
        i <= b.len(),
        forall|j: int| 0 <= j < i ==> a[j] == b[j],
    ensures
        lex_cmp(a, b) == lex_cmp_from(a, b, i),
    decreases i,
{
    if i > 0 {
        lemma_lex_cmp_skip_prefix(a, b, i - 1);
        assert(a[i - 1] == b[i - 1]);
    }
}

/// Two sequences that agree below `k` and differ at `k` compare by the
/// characters at `k`.
pub proof fn lemma_lex_cmp_differs_at(a: Seq<char>, b: Seq<char>, k: int)
    requires
        0 <= k < a.len(),
        k < b.len(),
        forall|j: int| 0 <= j < k ==> a[j] == b[j],
        (a[k] as u32) < (b[k] as u32),
    ensures
        lex_cmp(a, b) == Ordering::Less,
{
    lemma_lex_cmp_skip_prefix(a, b, k);
}

/// A proper prefix sorts strictly before any extension of it.
pub proof fn lemma_lex_cmp_proper_prefix(a: Seq<char>, b: Seq<char>)
    requires
        a.len() < b.len(),
        forall|j: int| 0 <= j < a.len() ==> a[j] == b[j],
    ensures
        lex_cmp(a, b) == Ordering::Less,
{
    lemma_lex_cmp_skip_prefix(a, b, a.len() as int);
}

/// Two characters with the same code point are the same character.
pub proof fn lemma_char_code_injective(c: char, d: char)
    requires
        c as u32 == d as u32,
    ensures
        c == d,
{
    vstd::utf8::char_u32_cast(c, c as u32);
    vstd::utf8::char_u32_cast(d, d as u32);
}

proof fn lemma_lex_cmp_from_equal(a: Seq<char>, b: Seq<char>, i: int)
    requires
        0 <= i <= a.len(),
        i <= b.len(),
    ensures
        lex_cmp_from(a, b, i) == Ordering::Equal <==> (a.len() == b.len() && forall|j: int|
            i <= j < a.len() ==> a[j] == b[j]),
    decreases a.len() - i,
{
    if i < a.len() && i < b.len() && a[i] as u32 == b[i] as u32 {
        lemma_char_code_injective(a[i], b[i]);
        lemma_lex_cmp_from_equal(a, b, i + 1);
    }
}

/// The comparison reports `Equal` exactly on equal sequences: it is
/// consistent with plain sequence equality.
pub proof fn lemma_lex_cmp_equal_iff(a: Seq<char>, b: Seq<char>)
    ensures
        lex_cmp(a, b) == Ordering::Equal <==> a == b,
{
    lemma_lex_cmp_from_equal(a, b, 0);
    if a.len() == b.len() && (forall|j: int| 0 <= j < a.len() ==> a[j] == b[j]) {
        assert(a =~= b);
    }
}

proof fn lemma_lex_cmp_from_flip(a: Seq<char>, b: Seq<char>, i: int)
    requires
        0 <= i,
    ensures
        lex_cmp_from(a, b, i) == Ordering::Less <==> lex_cmp_from(b, a, i) == Ordering::Greater,
        lex_cmp_from(a, b, i) == Ordering::Equal <==> lex_cmp_from(b, a, i) == Ordering::Equal,
    decreases a.len() - i,
{
    if i < a.len() && i < b.len() && a[i] as u32 == b[i] as u32 {
        lemma_lex_cmp_from_flip(a, b, i + 1);
    }
}

/// Antisymmetry: `a` sorts before `b` exactly when `b` sorts after `a`.
pub proof fn lemma_lex_cmp_antisymmetric(a: Seq<char>, b: Seq<char>)
    ensures
        lex_cmp(a, b) == Ordering::Less <==> lex_cmp(b, a) == Ordering::Greater,
        lex_cmp(a, b) == Ordering::Equal <==> lex_cmp(b, a) == Ordering::Equal,
{
    lemma_lex_cmp_from_flip(a, b, 0);
}

proof fn lemma_lex_cmp_from_transitive(a: Seq<char>, b: Seq<char>, c: Seq<char>, i: int)
    requires
        0 <= i,
        lex_cmp_from(a, b, i) == Ordering::Less,
        lex_cmp_from(b, c, i) == Ordering::Less,
    ensures
        lex_cmp_from(a, c, i) == Ordering::Less,
    decreases a.len() - i,
{
    if i < a.len() && i < b.len() && a[i] as u32 == b[i] as u32 && i < c.len() && b[i] as u32
        == c[i] as u32 {
        lemma_lex_cmp_from_transitive(a, b, c, i + 1);
    }
}

/// Transitivity of the strict order.
pub proof fn lemma_lex_cmp_transitive(a: Seq<char>, b: Seq<char>, c: Seq<char>)
    requires
        lex_cmp(a, b) == Ordering::Less,
        lex_cmp(b, c) == Ordering::Less,
    ensures
        lex_cmp(a, c) == Ordering::Less,
{
    lemma_lex_cmp_from_transitive(a, b, c, 0);
}

/// The stated reasons a candidate fails validation: an empty string, a
/// last character equal to the minimum of the alphabet, or any character
/// outside the alphabet.
pub proof fn lemma_invalid_positions(s: Seq<char>)
    ensures
        s.len() == 0 ==> !valid_position(s),
        s.len() > 0 && s[s.len() - 1] as u32 == START_CHAR_CODE as u32 ==> !valid_position(s),
        (exists|j: int| 0 <= j < s.len() && !char_in_alphabet(s[j])) ==> !valid_position(s),
{
}

} // verus!
