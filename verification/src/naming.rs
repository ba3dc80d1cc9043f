//! The tile naming codec: cell directory and file names embed their
//! level and coordinate as `_L<level>_<digits>`.
//!
//! Parsing is total: a name without the pattern is reported as having
//! none, which callers treat as an ungraded (flat) cell rather than an
//! error.

use crate::text::all_digits;
use crate::text::digits_value;
use crate::text::is_digit;
use vstd::prelude::*;

verus! {

/// ASCII underscore.
pub const B_UNDERSCORE: u8 = 95;

/// ASCII capital L.
pub const B_UPPER_L: u8 = 76;

/// The first index at or after `from` whose byte is not an ASCII digit
/// (or the length of `s`).
pub open spec fn digit_run_end(s: Seq<u8>, from: int) -> int
    decreases s.len() - from,
{
    if from < 0 || from >= s.len() {
        from
    } else if is_digit(s[from]) {
        digit_run_end(s, from + 1)
    } else {
        from
    }
}

proof fn lemma_digit_run_end_at(s: Seq<u8>, from: int, e: int)
    requires
        0 <= from <= e <= s.len(),
        forall|j: int| from <= j < e ==> is_digit(#[trigger] s[j]),
        e == s.len() || !is_digit(s[e]),
    ensures
        digit_run_end(s, from) == e,
    decreases e - from,
{
    if from < e {
        lemma_digit_run_end_at(s, from + 1, e);
    }
}

/// Whether the level pattern `_L<digits>_` starts at index `i`: an
/// underscore, a capital L, one to nine digits, and a closing
/// underscore.
pub open spec fn level_pattern_at(s: Seq<u8>, i: int) -> bool {
    let e = digit_run_end(s, i + 2);
    &&& 0 <= i
    &&& i + 2 < s.len()
    &&& s[i] == B_UNDERSCORE
    &&& s[i + 1] == B_UPPER_L
    &&& e > i + 2
    &&& e - (i + 2) <= 9  // longest digit run accepted as a level
    &&& e < s.len()
    &&& s[e] == B_UNDERSCORE
}

/// The level denoted by the pattern starting at `i`.
pub open spec fn level_value_at(s: Seq<u8>, i: int) -> int {
    digits_value(s.subrange(i + 2, digit_run_end(s, i + 2)))
}

/// Extracts the level from the first `_L<digits>_` pattern of a name.
/// Returns `None` exactly when no such pattern occurs.
pub fn extract_level(name: &[u8]) -> (r: Option<u32>)
    ensures
        match r {
            Some(v) => exists|i: int|
                #![trigger level_pattern_at(name@, i)]
                level_pattern_at(name@, i) && (forall|j: int|
                    0 <= j < i ==> !level_pattern_at(name@, j)) && v == level_value_at(name@, i),
            None => forall|i: int| !level_pattern_at(name@, i),
        },
{
    let n = name.len();
    let mut i: usize = 0;
    while i < n
        invariant
            i <= n == name@.len(),
            forall|j: int| 0 <= j < i ==> !level_pattern_at(name@, j),
        decreases n - i,
    {
        if n > 2 && i < n - 2 && name[i] == B_UNDERSCORE && name[i + 1] == B_UPPER_L {
            // scan the digit run after the delimiter
            let mut e: usize = i + 2;
            while e < n && name[e] >= 48 && name[e] <= 57
                invariant
                    i + 2 <= e <= n == name@.len(),
                    forall|j: int| i + 2 <= j < e ==> is_digit(#[trigger] name@[j]),
                decreases n - e,
            {
                e = e + 1;
            }
            proof {
                lemma_digit_run_end_at(name@, i + 2 as int, e as int);
            }
            if e > i + 2 && e - (i + 2) <= 9 && e < n && name[e] == B_UNDERSCORE {
                // the pattern holds here: read its value
                let mut acc: u32 = 0;
                let mut k: usize = i + 2;
                while k < e
                    invariant
                        i + 2 <= k <= e <= n == name@.len(),
                        e - (i + 2) <= 9,
                        forall|j: int| i + 2 <= j < e ==> is_digit(#[trigger] name@[j]),
                        acc == digits_value(name@.subrange(i + 2 as int, k as int)),
                        acc < 1_000_000_000,
                        acc < crate::text::pow10((k - (i + 2)) as nat),
                    decreases e - k,
                {
                    proof {
                        reveal_with_fuel(crate::text::pow10, 11);
                        assert(name@.subrange(i + 2 as int, (k + 1) as int).drop_last()
                            =~= name@.subrange(i + 2 as int, k as int));
                    }
                    acc = acc * 10 + ((name[k] - 48) as u32);
                    k = k + 1;
                }
                proof {
                    assert(level_pattern_at(name@, i as int));
                }
                return Some(acc);
            } else {
                proof {
                    assert(!level_pattern_at(name@, i as int));
                }
            }
        } else {
            proof {
                assert(!level_pattern_at(name@, i as int));
            }
        }
        i = i + 1;
    }
    None
}

/// Extracts the run of ASCII digits beginning at `start`: the
/// coordinate key following a level delimiter. An empty result means
/// no coordinate is present there.
pub fn extract_coordinate(name: &[u8], start: usize) -> (r: Vec<u8>)
    requires
        start <= name@.len(),
    ensures
        r@ == name@.subrange(start as int, digit_run_end(name@, start as int)),
        all_digits(r@),
{
    let n = name.len();
    let mut e: usize = start;
    let mut out: Vec<u8> = Vec::new();
    while e < n && name[e] >= 48 && name[e] <= 57
        invariant
            start <= e <= n == name@.len(),
            forall|j: int| start <= j < e ==> is_digit(#[trigger] name@[j]),
            out@ =~= name@.subrange(start as int, e as int),
        decreases n - e,
    {
        out.push(name[e]);
        proof {
            assert(out@ =~= name@.subrange(start as int, (e + 1) as int));
        }
        e = e + 1;
    }
    proof {
        lemma_digit_run_end_at(name@, start as int, e as int);
    }
    out
}

} // verus!
