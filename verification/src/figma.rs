//! The ranking algorithm itself: lexicographic comparison, validation, and
//! the generators that produce a position before, after, or between given
//! positions.

use vstd::prelude::*;
use vstd::string::StrSliceExecFns;
use core::cmp::Ordering;
use crate::order::{
    char_in_alphabet, lex_cmp, lex_cmp_from, lemma_char_code_injective,
    lemma_lex_cmp_antisymmetric, lemma_lex_cmp_differs_at, lemma_lex_cmp_equal_iff,
    lemma_lex_cmp_proper_prefix, valid_position, END_CHAR_CODE, START_CHAR_CODE,
};

verus! {

/// Relies on String::push: appends the given character at the end of the
/// string.
#[verifier::external_body]
fn push_char(s: &mut String, c: char)
    ensures
        final(s)@ == old(s)@.push(c),
{
    s.push(c);
}

/// Index of the rightmost character whose code point is strictly above
/// `bound`, or `-1` when there is none.
pub open spec fn scan_above(s: Seq<char>, bound: u32) -> int
    decreases s.len(),
{
    if s.len() == 0 {
        -1
    } else if (s[s.len() - 1] as u32) > bound {
        s.len() - 1
    } else {
        scan_above(s.drop_last(), bound)
    }
}

/// Index of the rightmost character whose code point is strictly below
/// `bound`, or `-1` when there is none.
pub open spec fn scan_below(s: Seq<char>, bound: u32) -> int
    decreases s.len(),
{
    if s.len() == 0 {
        -1
    } else if (s[s.len() - 1] as u32) < bound {
        s.len() - 1
    } else {
        scan_below(s.drop_last(), bound)
    }
}

proof fn lemma_scan_above_found(s: Seq<char>, bound: u32, m: int)
    requires
        0 <= m < s.len(),
        (s[m] as u32) > bound,
        forall|j: int| m < j < s.len() ==> (#[trigger] s[j] as u32) <= bound,
    ensures
        scan_above(s, bound) == m,
    decreases s.len(),
{
    if m < s.len() - 1 {
        lemma_scan_above_found(s.drop_last(), bound, m);
    }
}

proof fn lemma_scan_above_none(s: Seq<char>, bound: u32)
    requires
        forall|j: int| 0 <= j < s.len() ==> (#[trigger] s[j] as u32) <= bound,
    ensures
        scan_above(s, bound) == -1,
    decreases s.len(),
{
    if s.len() > 0 {
        lemma_scan_above_none(s.drop_last(), bound);
    }
}

proof fn lemma_scan_below_found(s: Seq<char>, bound: u32, m: int)
    requires
        0 <= m < s.len(),
        (s[m] as u32) < bound,
        forall|j: int| m < j < s.len() ==> (#[trigger] s[j] as u32) >= bound,
    ensures
        scan_below(s, bound) == m,
    decreases s.len(),
{
    if m < s.len() - 1 {
        lemma_scan_below_found(s.drop_last(), bound, m);
    }
}

proof fn lemma_scan_below_none(s: Seq<char>, bound: u32)
    requires
        forall|j: int| 0 <= j < s.len() ==> (#[trigger] s[j] as u32) >= bound,
    ensures
        scan_below(s, bound) == -1,
    decreases s.len(),
{
    if s.len() > 0 {
        lemma_scan_below_none(s.drop_last(), bound);
    }
}

/// The position produced before `s`: decrement the rightmost character
/// that has headroom above the minimum-plus-one; when none has, drop the
/// last character and extend with the minimum then the maximum.
pub open spec fn before_spec(s: Seq<char>) -> Seq<char> {
    let i = scan_above(s, (START_CHAR_CODE + 1) as u32);
    if i >= 0 {
        s.subrange(0, i).push((s[i] as u32 - 1) as char)
    } else {
        s.subrange(0, s.len() - 1) + seq![START_CHAR_CODE as char, END_CHAR_CODE as char]
    }
}

/// The position produced after `s`: increment the rightmost character
/// below the maximum; when every character is the maximum, extend with the
/// character one above the minimum.
pub open spec fn after_spec(s: Seq<char>) -> Seq<char> {
    let i = scan_below(s, END_CHAR_CODE as u32);
    if i >= 0 {
        s.subrange(0, i).push((s[i] as u32 + 1) as char)
    } else {
        s + seq![(START_CHAR_CODE as u32 + 1) as char]
    }
}

/// The greater of the two lengths.
pub open spec fn max_len(a: Seq<char>, b: Seq<char>) -> int {
    if a.len() >= b.len() {
        a.len() as int
    } else {
        b.len() as int
    }
}

/// The lower bound the midpoint search sees at index `i`: the character of
/// the first position, or the minimum once that position is exhausted.
pub open spec fn lower_at(a: Seq<char>, i: int) -> u32 {
    if 0 <= i < a.len() {
        a[i] as u32
    } else {
        START_CHAR_CODE as u32
    }
}

/// The upper bound at index `i`: the character of the second position
/// while it still constrains the result, and the maximum once it is
/// exhausted or the open-ended flag is set.
pub open spec fn upper_at(b: Seq<char>, i: int, open_ended: bool) -> u32 {
    if 0 <= i < b.len() && !open_ended {
        b[i] as u32
    } else {
        END_CHAR_CODE as u32
    }
}

/// The characters the midpoint search emits from index `i` on: shared
/// bounds are copied, a gap of at least two yields the decisive midpoint,
/// adjacent bounds copy the lower one and open the upper range; if the
/// scan runs out with the range open, one overall midpoint is appended.
pub open spec fn between_from(a: Seq<char>, b: Seq<char>, i: int, open_ended: bool) -> Seq<char>
    decreases max_len(a, b) - i,
{
    if 0 <= i < max_len(a, b) {
        let lo = lower_at(a, i);
        let up = upper_at(b, i, open_ended);
        if lo == up {
            seq![lo as char] + between_from(a, b, i + 1, open_ended)
        } else if up - lo > 1 {
            seq![(((lo + up) / 2) as char)]
        } else {
            seq![lo as char] + between_from(a, b, i + 1, true)
        }
    } else {
        if open_ended {
            seq![(((START_CHAR_CODE + END_CHAR_CODE) / 2) as char)]
        } else {
            Seq::empty()
        }
    }
}

/// The position produced between two ordered positions.
pub open spec fn between_spec(a: Seq<char>, b: Seq<char>) -> Seq<char> {
    between_from(a, b, 0, false)
}

/// The ranking algorithm: positions are strings over the visible-ASCII
/// alphabet, ordered lexicographically, and new positions are derived by
/// per-character arithmetic on the code points.
#[derive(Debug)]
pub struct FigmaStrategy {}

impl FigmaStrategy {
    /// Integer midpoint of two code points, truncating toward zero.
    pub fn avg(a: u8, b: u8) -> (r: u8)
        requires
            a as int + b as int <= u8::MAX as int,
        ensures
            r as int == (a as int + b as int) / 2,
    {
        (a + b) / 2
    }

    /// Lexicographic comparison of two position strings by their code
    /// points; performs no validation.
    pub fn compare_positions(&self, first_pos: &str, second_pos: &str) -> (r: Ordering)
        ensures
            r == lex_cmp(first_pos@, second_pos@),
    {
        let a_len = first_pos.unicode_len();
        let b_len = second_pos.unicode_len();
        let mut i: usize = 0;
        while i < a_len && i < b_len
            invariant
                i <= a_len,
                i <= b_len,
                a_len == first_pos@.len(),
                b_len == second_pos@.len(),
                lex_cmp(first_pos@, second_pos@) == lex_cmp_from(
                    first_pos@,
                    second_pos@,
                    i as int,
                ),
            decreases a_len - i,
        {
            let ca = first_pos.get_char(i);
            let cb = second_pos.get_char(i);
            if (ca as u32) < (cb as u32) {
                return Ordering::Less;
            }
            if (cb as u32) < (ca as u32) {
                return Ordering::Greater;
            }
            i = i + 1;
        }
        if i < b_len {
            Ordering::Less
        } else if i < a_len {
            Ordering::Greater
        } else {
            Ordering::Equal
        }
    }

    /// Validation: a position is well formed when it is non-empty, all its
    /// characters lie in the alphabet, and it does not end in the minimum
    /// character.
    pub fn is_valid_position(&self, pos: &str) -> (r: bool)
        ensures
            r == valid_position(pos@),
    {
        let len = pos.unicode_len();
        if len == 0 {
            return false;
        }
        let last = pos.get_char(len - 1);
        if last as u32 == START_CHAR_CODE as u32 {
            return false;
        }
        let mut i: usize = 0;
        while i < len
            invariant
                i <= len,
                len == pos@.len(),
                forall|j: int| 0 <= j < i ==> char_in_alphabet(#[trigger] pos@[j]),
            decreases len - i,
        {
            let c = pos.get_char(i);
            if (c as u32) < START_CHAR_CODE as u32 || (c as u32) > END_CHAR_CODE as u32 {
                assert(!char_in_alphabet(pos@[i as int]));
                return false;
            }
            i = i + 1;
        }
        true
    }

    /// A position strictly before `pos`, produced without validation;
    /// `pos` must already be well formed.
    pub fn position_before(&self, pos: &str) -> (r: String)
        requires
            valid_position(pos@),
        ensures
            r@ == before_spec(pos@),
            valid_position(r@),
            lex_cmp(r@, pos@) == Ordering::Less,
    {
        let len = pos.unicode_len();
        let mut i: usize = len;
        while i > 0
            invariant
                i <= len,
                len == pos@.len(),
                valid_position(pos@),
                forall|j: int|
                    i <= j < len ==> (#[trigger] pos@[j] as u32) <= START_CHAR_CODE as u32 + 1,
            decreases i,
        {
            let c = pos.get_char(i - 1);
            if (c as u32) > START_CHAR_CODE as u32 + 1 {
                proof {
                    lemma_scan_above_found(pos@, (START_CHAR_CODE + 1) as u32, i - 1);
                }
                let prefix = pos.substring_char(0, i - 1);
                let mut r = prefix.to_owned();
                push_char(&mut r, ((c as u32 - 1) as u8) as char);
                proof {
                    assert(r@ =~= before_spec(pos@));
                    assert(char_in_alphabet(r@[i - 1]));
                    assert(forall|j: int| 0 <= j < i - 1 ==> r@[j] == #[trigger] pos@[j]);
                    assert(valid_position(r@));
                    lemma_lex_cmp_differs_at(r@, pos@, i - 1);
                }
                return r;
            }
            i = i - 1;
        }
        proof {
            lemma_scan_above_none(pos@, (START_CHAR_CODE + 1) as u32);
        }
        let prefix = pos.substring_char(0, len - 1);
        let mut r = prefix.to_owned();
        push_char(&mut r, START_CHAR_CODE as char);
        push_char(&mut r, END_CHAR_CODE as char);
        proof {
            assert(r@ =~= before_spec(pos@));
            assert(forall|j: int| 0 <= j < len - 1 ==> r@[j] == #[trigger] pos@[j]);
            assert(valid_position(r@));
            assert(pos@[len - 1] as u32 == START_CHAR_CODE as u32 + 1);
            lemma_lex_cmp_differs_at(r@, pos@, len - 1);
        }
        r
    }

    /// A position strictly after `pos`, produced without validation;
    /// `pos` must already be well formed.
    pub fn position_after(&self, pos: &str) -> (r: String)
        requires
            valid_position(pos@),
        ensures
            r@ == after_spec(pos@),
            valid_position(r@),
            lex_cmp(r@, pos@) == Ordering::Greater,
    {
        let len = pos.unicode_len();
        let mut i: usize = len;
        while i > 0
            invariant
                i <= len,
                len == pos@.len(),
                valid_position(pos@),
                forall|j: int|
                    i <= j < len ==> (#[trigger] pos@[j] as u32) >= END_CHAR_CODE as u32,
            decreases i,
        {
            let c = pos.get_char(i - 1);
            if (c as u32) < END_CHAR_CODE as u32 {
                proof {
                    lemma_scan_below_found(pos@, END_CHAR_CODE as u32, i - 1);
                }
                let prefix = pos.substring_char(0, i - 1);
                let mut r = prefix.to_owned();
                push_char(&mut r, ((c as u32 + 1) as u8) as char);
                proof {
                    assert(r@ =~= after_spec(pos@));
                    assert(char_in_alphabet(r@[i - 1]));
                    assert(forall|j: int| 0 <= j < i - 1 ==> r@[j] == #[trigger] pos@[j]);
                    assert(valid_position(r@));
                    lemma_lex_cmp_differs_at(pos@, r@, i - 1);
                    lemma_lex_cmp_antisymmetric(pos@, r@);
                }
                return r;
            }
            i = i - 1;
        }
        proof {
            lemma_scan_below_none(pos@, END_CHAR_CODE as u32);
        }
        let mut r = pos.to_owned();
        push_char(&mut r, (START_CHAR_CODE + 1) as char);
        proof {
            assert(r@ =~= after_spec(pos@));
            assert(valid_position(r@));
            lemma_lex_cmp_proper_prefix(pos@, r@);
            lemma_lex_cmp_antisymmetric(pos@, r@);
        }
        r
    }

    /// A position strictly between two well-formed positions, the first
    /// strictly before the second; no validation is performed.
    pub fn position_between(&self, first_pos: &str, second_pos: &str) -> (r: String)
        requires
            valid_position(first_pos@),
            valid_position(second_pos@),
            lex_cmp(first_pos@, second_pos@) == Ordering::Less,
        ensures
            r@ == between_spec(first_pos@, second_pos@),
            valid_position(r@),
            lex_cmp(first_pos@, r@) == Ordering::Less,
            lex_cmp(r@, second_pos@) == Ordering::Less,
    {
        let ghost a = first_pos@;
        let ghost b = second_pos@;
        let mut flag = false;
        let mut position = String::new();
        let first_pos_len = first_pos.unicode_len();
        let second_pos_len = second_pos.unicode_len();
        let longer_len = if first_pos_len >= second_pos_len {
            first_pos_len
        } else {
            second_pos_len
        };
        let ghost mut k: int = 0;
        let mut i: usize = 0;
        while i < longer_len
            invariant
                i <= longer_len,
                first_pos_len == a.len(),
                second_pos_len == b.len(),
                longer_len == max_len(a, b),
                a == first_pos@,
                b == second_pos@,
                valid_position(a),
                valid_position(b),
                lex_cmp(a, b) == Ordering::Less,
                position@.len() == i as int,
                forall|j: int| 0 <= j < i ==> (#[trigger] position@[j] as u32) == lower_at(a, j),
                !flag ==> forall|j: int|
                    0 <= j < i ==> lower_at(a, j) == upper_at(b, j, false),
                flag ==> 0 <= k < i && k < b.len() && (forall|j: int|
                    0 <= j < k ==> #[trigger] position@[j] == b[j]) && position@[k] as u32 + 1
                    == b[k] as u32,
                between_spec(a, b) == position@ + between_from(a, b, i as int, flag),
            decreases longer_len - i,
        {
            let lower: u32 = if i < first_pos_len {
                first_pos.get_char(i) as u32
            } else {
                START_CHAR_CODE as u32
            };
            let upper: u32 = if i < second_pos_len && !flag {
                second_pos.get_char(i) as u32
            } else {
                END_CHAR_CODE as u32
            };
            proof {
                assert(lower == lower_at(a, i as int));
                assert(upper == upper_at(b, i as int, flag));
                assert(lower <= END_CHAR_CODE as u32);
                // The lower bound can never exceed the upper bound: were the
                // first position's character above the second's at the first
                // unconstrained index, the first position would sort after
                // the second.
                if !flag && (i as int) < b.len() && (i as int) < a.len() && (a[i as int] as u32)
                    > (b[i as int] as u32) {
                    assert forall|j: int| 0 <= j < i implies a[j] == b[j] by {
                        assert(lower_at(a, j) == upper_at(b, j, false));
                        lemma_char_code_injective(a[j], b[j]);
                    }
                    lemma_lex_cmp_differs_at(b, a, i as int);
                    lemma_lex_cmp_antisymmetric(b, a);
                    assert(false);
                }
                assert(lower <= upper);
            }
            if lower == upper {
                push_char(&mut position, (lower as u8) as char);
                proof {
                    assert(position@.last() as u32 == lower);
                    assert(position@ + between_from(a, b, i + 1, flag) =~= position@.drop_last()
                        + between_from(a, b, i as int, flag));
                }
            } else if upper - lower > 1 {
                let mid = Self::avg(lower as u8, upper as u8);
                push_char(&mut position, mid as char);
                proof {
                    assert(mid as u32 == (lower + upper) / 2);
                    assert(position@.last() as u32 == mid as u32);
                    assert(position@ =~= position@.drop_last() + between_from(
                        a,
                        b,
                        i as int,
                        flag,
                    ));
                    assert(position@ == between_spec(a, b));
                    // The midpoint lies strictly between the bounds.
                    assert(lower < (mid as u32) && (mid as u32) < upper);
                    // The result is a well-formed position.
                    assert(valid_position(position@));
                    // The result sorts strictly after the first position.
                    if (i as int) < a.len() {
                        assert forall|j: int| 0 <= j < i implies a[j] == position@[j] by {
                            lemma_char_code_injective(a[j], position@[j]);
                        }
                        lemma_lex_cmp_differs_at(a, position@, i as int);
                    } else {
                        assert forall|j: int| 0 <= j < a.len() implies a[j] == position@[j] by {
                            lemma_char_code_injective(a[j], position@[j]);
                        }
                        lemma_lex_cmp_proper_prefix(a, position@);
                    }
                    // The result sorts strictly before the second position.
                    if flag {
                        assert(position@[k] as u32 + 1 == b[k] as u32);
                        lemma_lex_cmp_differs_at(position@, b, k);
                    } else {
                        if (i as int) >= b.len() {
                            // Impossible: the second position would then be a
                            // proper prefix of the first.
                            assert((i as int) < a.len());
                            assert forall|j: int| 0 <= j < b.len() implies b[j] == a[j] by {
                                assert(lower_at(a, j) == upper_at(b, j, false));
                                lemma_char_code_injective(a[j], b[j]);
                            }
                            lemma_lex_cmp_proper_prefix(b, a);
                            lemma_lex_cmp_antisymmetric(b, a);
                            assert(false);
                        }
                        assert forall|j: int| 0 <= j < i implies position@[j] == b[j] by {
                            assert(lower_at(a, j) == upper_at(b, j, false));
                            lemma_char_code_injective(position@[j], b[j]);
                        }
                        lemma_lex_cmp_differs_at(position@, b, i as int);
                    }
                }
                return position;
            } else {
                push_char(&mut position, (lower as u8) as char);
                proof {
                    assert(position@.last() as u32 == lower);
                    assert(position@ + between_from(a, b, i + 1, true) =~= position@.drop_last()
                        + between_from(a, b, i as int, flag));
                    if !flag {
                        // The flag is being set here: the second position
                        // must still constrain this index, else it would be
                        // a proper prefix of the first.
                        if (i as int) >= b.len() {
                            assert(lower == END_CHAR_CODE as u32 - 1);
                            assert((i as int) < a.len());
                            assert forall|j: int| 0 <= j < b.len() implies b[j] == a[j] by {
                                assert(lower_at(a, j) == upper_at(b, j, false));
                                lemma_char_code_injective(a[j], b[j]);
                            }
                            lemma_lex_cmp_proper_prefix(b, a);
                            lemma_lex_cmp_antisymmetric(b, a);
                            assert(false);
                        }
                        k = i as int;
                        assert forall|j: int| 0 <= j < k implies position@[j] == b[j] by {
                            assert(lower_at(a, j) == upper_at(b, j, false));
                            lemma_char_code_injective(position@[j], b[j]);
                        }
                        assert(position@[k] as u32 + 1 == b[k] as u32);
                    }
                }
                flag = true;
            }
            i = i + 1;
        }
        if flag {
            let mid = Self::avg(START_CHAR_CODE, END_CHAR_CODE);
            push_char(&mut position, mid as char);
            proof {
                assert(position@ =~= position@.drop_last() + between_from(
                    a,
                    b,
                    longer_len as int,
                    true,
                ));
                assert(position@ == between_spec(a, b));
                assert(valid_position(position@));
                // Strictly after the first position: that one is a proper
                // prefix of the result.
                assert forall|j: int| 0 <= j < a.len() implies a[j] == position@[j] by {
                    lemma_char_code_injective(a[j], position@[j]);
                }
                lemma_lex_cmp_proper_prefix(a, position@);
                // Strictly before the second position, which exceeds the
                // result at the index where the flag was set.
                lemma_lex_cmp_differs_at(position@, b, k);
            }
        } else {
            proof {
                // Unreachable: were no index decisive and the range never
                // opened, the two positions would compare equal, or the
                // second would be a proper prefix of the first, or the
                // second would end in the minimum character.
                if a.len() == b.len() {
                    assert forall|j: int| 0 <= j < a.len() implies a[j] == b[j] by {
                        assert(lower_at(a, j) == upper_at(b, j, false));
                        lemma_char_code_injective(a[j], b[j]);
                    }
                    assert(a =~= b);
                    lemma_lex_cmp_equal_iff(a, b);
                } else if a.len() > b.len() {
                    assert forall|j: int| 0 <= j < b.len() implies b[j] == a[j] by {
                        assert(lower_at(a, j) == upper_at(b, j, false));
                        lemma_char_code_injective(a[j], b[j]);
                    }
                    lemma_lex_cmp_proper_prefix(b, a);
                    lemma_lex_cmp_antisymmetric(b, a);
                } else {
                    assert(lower_at(a, b.len() - 1) == upper_at(b, b.len() - 1, false));
                    assert(b[b.len() - 1] as u32 == START_CHAR_CODE as u32);
                }
                assert(false);
            }
        }
        position
    }
}

} // verus!
