//! The UTF-8 grammar: which byte sequences encode a Unicode scalar value,
//! how far a greedy decode of a suffix reaches, and which offsets within the
//! decoded region begin a scalar value.

use vstd::prelude::*;

verus! {

/// True of UTF-8 continuation bytes (`0b10xxxxxx`).
pub open spec fn is_continuation(b: u8) -> bool {
    0x80 <= b && b <= 0xBF
}

/// Byte length (1 to 4) of the UTF-8 encoding of the Unicode scalar value
/// starting at offset `i` of `s`, or 0 if no valid encoding starts there.
/// Truncated sequences, stray continuation bytes, overlong encodings and
/// surrogate code points all yield 0.
pub open spec fn scalar_len(s: Seq<u8>, i: int) -> int {
    if !(0 <= i < s.len()) {
        0
    } else {
        let b0 = s[i];
        if b0 <= 0x7F {
            1
        } else if 0xC2 <= b0 && b0 <= 0xDF {
            if i + 2 <= s.len() && is_continuation(s[i + 1]) {
                2
            } else {
                0
            }
        } else if b0 == 0xE0 {
            if i + 3 <= s.len() && 0xA0 <= s[i + 1] && s[i + 1] <= 0xBF
                && is_continuation(s[i + 2]) {
                3
            } else {
                0
            }
        } else if b0 == 0xED {
            if i + 3 <= s.len() && 0x80 <= s[i + 1] && s[i + 1] <= 0x9F
                && is_continuation(s[i + 2]) {
                3
            } else {
                0
            }
        } else if (0xE1 <= b0 && b0 <= 0xEC) || b0 == 0xEE || b0 == 0xEF {
            if i + 3 <= s.len() && is_continuation(s[i + 1]) && is_continuation(s[i + 2]) {
                3
            } else {
                0
            }
        } else if b0 == 0xF0 {
            if i + 4 <= s.len() && 0x90 <= s[i + 1] && s[i + 1] <= 0xBF
                && is_continuation(s[i + 2]) && is_continuation(s[i + 3]) {
                4
            } else {
                0
            }
        } else if 0xF1 <= b0 && b0 <= 0xF3 {
            if i + 4 <= s.len() && is_continuation(s[i + 1]) && is_continuation(s[i + 2])
                && is_continuation(s[i + 3]) {
                4
            } else {
                0
            }
        } else if b0 == 0xF4 {
            if i + 4 <= s.len() && 0x80 <= s[i + 1] && s[i + 1] <= 0x8F
                && is_continuation(s[i + 2]) && is_continuation(s[i + 3]) {
                4
            } else {
                0
            }
        } else {
            0
        }
    }
}

/// Offset at which a greedy decode starting at `i` stops: the first offset
/// reached by stepping over whole scalar values that does not itself begin a
/// valid scalar value (`s.len()` if the decode reaches the end of `s`).
pub open spec fn prefix_end(s: Seq<u8>, i: int) -> int
    decreases s.len() - i,
{
    if i < 0 || i >= s.len() || scalar_len(s, i) == 0 {
        i
    } else {
        prefix_end(s, i + scalar_len(s, i))
    }
}

/// The set of absolute offsets at which a scalar value begins when `s` is
/// decoded greedily starting at `i`.
pub open spec fn char_starts(s: Seq<u8>, i: int) -> Set<int>
    decreases s.len() - i,
{
    if i < 0 || i >= s.len() || scalar_len(s, i) == 0 {
        Set::empty()
    } else {
        char_starts(s, i + scalar_len(s, i)).insert(i)
    }
}

/// The decode from `i` stops no earlier than `i` and within `s`.
pub proof fn lemma_prefix_end_bounds(s: Seq<u8>, i: int)
    requires
        0 <= i <= s.len(),
    ensures
        i <= prefix_end(s, i) <= s.len(),
    decreases s.len() - i,
{
    if i < s.len() && scalar_len(s, i) != 0 {
        lemma_prefix_end_bounds(s, i + scalar_len(s, i));
    }
}

/// Every offset in `char_starts(s, i)` lies in `[i, prefix_end(s, i))` and
/// begins a valid scalar value.
pub proof fn lemma_char_starts_bounds(s: Seq<u8>, i: int)
    requires
        0 <= i <= s.len(),
    ensures
        forall|j: int|
            #[trigger] char_starts(s, i).contains(j) ==> i <= j < prefix_end(s, i) && scalar_len(
                s,
                j,
            ) != 0,
    decreases s.len() - i,
{
    if i < s.len() && scalar_len(s, i) != 0 {
        let k = scalar_len(s, i);
        assert(1 <= k && i + k <= s.len());
        lemma_prefix_end_bounds(s, i + k);
        lemma_char_starts_bounds(s, i + k);
        assert(char_starts(s, i) == char_starts(s, i + k).insert(i));
        assert(prefix_end(s, i) == prefix_end(s, i + k));
        assert forall|j: int|
            #[trigger] char_starts(s, i).contains(j) implies i <= j < prefix_end(s, i)
            && scalar_len(s, j) != 0 by {
            if j != i {
                assert(char_starts(s, i + k).contains(j));
            }
        }
    }
}

/// A decode that stops before the end of `s` stops at an offset that does
/// not begin a valid scalar value.
pub proof fn lemma_prefix_end_stops(s: Seq<u8>, i: int)
    requires
        0 <= i <= s.len(),
    ensures
        prefix_end(s, i) < s.len() ==> scalar_len(s, prefix_end(s, i)) == 0,
    decreases s.len() - i,
{
    if i < s.len() && scalar_len(s, i) != 0 {
        lemma_prefix_end_stops(s, i + scalar_len(s, i));
    }
}

/// Stepping over one scalar value keeps the decode's end, drops its own
/// start from the start set, and skips no other start.
pub proof fn lemma_decode_step(s: Seq<u8>, i: int)
    requires
        0 <= i < s.len(),
        scalar_len(s, i) != 0,
    ensures
        prefix_end(s, i) == prefix_end(s, i + scalar_len(s, i)),
        char_starts(s, i) == char_starts(s, i + scalar_len(s, i)).insert(i),
        char_starts(s, i).contains(i),
        forall|j: int|
            i < j < i + scalar_len(s, i) ==> !(#[trigger] char_starts(s, i).contains(j)),
{
    let k = scalar_len(s, i);
    lemma_char_starts_bounds(s, i + k);
    lemma_prefix_end_bounds(s, i + k);
    assert forall|j: int| i < j < i + k implies !char_starts(s, i).contains(j) by {
        if char_starts(s, i + k).contains(j) {
            assert(i + k <= j);
        }
    }
}

/// Within a decoded region, an offset that does not begin a scalar value of
/// that decode holds a continuation byte, which cannot begin a scalar value
/// of any decode.
pub proof fn lemma_interior_not_start(s: Seq<u8>, i: int)
    requires
        0 <= i <= s.len(),
    ensures
        forall|x: int|
            i <= x < prefix_end(s, i) && !(#[trigger] char_starts(s, i).contains(x))
                ==> scalar_len(s, x) == 0,
    decreases s.len() - i,
{
    if i < s.len() && scalar_len(s, i) != 0 {
        let k = scalar_len(s, i);
        lemma_interior_not_start(s, i + k);
        lemma_decode_step(s, i);
        lemma_prefix_end_bounds(s, i + k);
        assert forall|x: int|
            i <= x < prefix_end(s, i) && !(#[trigger] char_starts(s, i).contains(x)) implies
            scalar_len(s, x) == 0 by {
            if x < i + k {
                assert(x != i);
                assert(is_continuation(s[x]));
                assert(scalar_len(s, x) == 0);
            } else {
                assert(!char_starts(s, i + k).contains(x));
            }
        }
    }
}

/// A buffer of pure ASCII decodes to the end from any offset, every byte its
/// own scalar value.
pub proof fn lemma_ascii_decodes_fully(s: Seq<u8>, i: int)
    requires
        0 <= i <= s.len(),
        forall|j: int| 0 <= j < s.len() ==> #[trigger] s[j] <= 0x7F,
    ensures
        prefix_end(s, i) == s.len(),
        forall|j: int| i <= j < s.len() ==> char_starts(s, i).contains(j),
    decreases s.len() - i,
{
    if i < s.len() {
        assert(scalar_len(s, i) == 1);
        lemma_ascii_decodes_fully(s, i + 1);
        assert forall|j: int| i <= j < s.len() implies char_starts(s, i).contains(j) by {
            if j != i {
                assert(char_starts(s, i + 1).contains(j));
            }
        }
    }
}

/// Byte length of the scalar value starting at offset `i`, or 0 if no valid
/// encoding starts there.
pub fn scalar_len_at(bytes: &Vec<u8>, i: usize) -> (k: usize)
    requires
        i < bytes@.len(),
    ensures
        k == scalar_len(bytes@, i as int),
{
    let n = bytes.len();
    let b0 = bytes[i];
    if b0 <= 0x7F {
        1
    } else if 0xC2 <= b0 && b0 <= 0xDF {
        if n - i >= 2 && 0x80 <= bytes[i + 1] && bytes[i + 1] <= 0xBF {
            2
        } else {
            0
        }
    } else if b0 == 0xE0 {
        if n - i >= 3 && 0xA0 <= bytes[i + 1] && bytes[i + 1] <= 0xBF && 0x80 <= bytes[i + 2]
            && bytes[i + 2] <= 0xBF {
            3
        } else {
            0
        }
    } else if b0 == 0xED {
        if n - i >= 3 && 0x80 <= bytes[i + 1] && bytes[i + 1] <= 0x9F && 0x80 <= bytes[i + 2]
            && bytes[i + 2] <= 0xBF {
            3
        } else {
            0
        }
    } else if (0xE1 <= b0 && b0 <= 0xEC) || b0 == 0xEE || b0 == 0xEF {
        if n - i >= 3 && 0x80 <= bytes[i + 1] && bytes[i + 1] <= 0xBF && 0x80 <= bytes[i + 2]
            && bytes[i + 2] <= 0xBF {
            3
        } else {
            0
        }
    } else if b0 == 0xF0 {
        if n - i >= 4 && 0x90 <= bytes[i + 1] && bytes[i + 1] <= 0xBF && 0x80 <= bytes[i + 2]
            && bytes[i + 2] <= 0xBF && 0x80 <= bytes[i + 3] && bytes[i + 3] <= 0xBF {
            4
        } else {
            0
        }
    } else if 0xF1 <= b0 && b0 <= 0xF3 {
        if n - i >= 4 && 0x80 <= bytes[i + 1] && bytes[i + 1] <= 0xBF && 0x80 <= bytes[i + 2]
            && bytes[i + 2] <= 0xBF && 0x80 <= bytes[i + 3] && bytes[i + 3] <= 0xBF {
            4
        } else {
            0
        }
    } else if b0 == 0xF4 {
        if n - i >= 4 && 0x80 <= bytes[i + 1] && bytes[i + 1] <= 0x8F && 0x80 <= bytes[i + 2]
            && bytes[i + 2] <= 0xBF && 0x80 <= bytes[i + 3] && bytes[i + 3] <= 0xBF {
            4
        } else {
            0
        }
    } else {
        0
    }
}

} // verus!
