//! The classes of characters that the syntax of Markdown goes by.

use vstd::prelude::*;

verus! {

/// A space, a tabulator or a line feed.
pub open spec fn is_gap(c: char) -> bool {
    c == ' ' || c == '\t' || c == '\n'
}

/// A punctuation mark of ASCII. A backslash in front of one stands for the
/// mark itself.
pub open spec fn is_mark(c: char) -> bool {
    let v = c as u32;
    (0x21 <= v && v <= 0x2F) || (0x3A <= v && v <= 0x40) || (0x5B <= v && v <= 0x60) || (0x7B <= v
        && v <= 0x7E)
}

/// A letter or a digit of ASCII, or any character beyond ASCII: what a
/// word is made of.
pub open spec fn is_word(c: char) -> bool {
    let v = c as u32;
    (0x30 <= v && v <= 0x39) || (0x41 <= v && v <= 0x5A) || (0x61 <= v && v <= 0x7A) || v >= 0x80
}

/// A letter of ASCII.
pub open spec fn is_letter(c: char) -> bool {
    let v = c as u32;
    (0x41 <= v && v <= 0x5A) || (0x61 <= v && v <= 0x7A)
}

/// Computes `is_gap`.
pub fn gap(c: char) -> (r: bool)
    ensures
        r == is_gap(c),
{
    c == ' ' || c == '\t' || c == '\n'
}

/// Computes `is_mark`.
pub fn mark(c: char) -> (r: bool)
    ensures
        r == is_mark(c),
{
    let v: u32 = c as u32;
    (0x21 <= v && v <= 0x2F) || (0x3A <= v && v <= 0x40) || (0x5B <= v && v <= 0x60) || (0x7B <= v
        && v <= 0x7E)
}

/// Computes `is_word`.
pub fn word(c: char) -> (r: bool)
    ensures
        r == is_word(c),
{
    let v: u32 = c as u32;
    (0x30 <= v && v <= 0x39) || (0x41 <= v && v <= 0x5A) || (0x61 <= v && v <= 0x7A) || v >= 0x80
}

/// Computes `is_letter`.
pub fn letter(c: char) -> (r: bool)
    ensures
        r == is_letter(c),
{
    let v: u32 = c as u32;
    (0x41 <= v && v <= 0x5A) || (0x61 <= v && v <= 0x7A)
}

/// The number of times that `c` stands at index `i` and behind it without
/// a break.
pub open spec fn repeat_len(s: Seq<char>, i: int, c: char) -> nat
    decreases s.len() - i,
{
    if 0 <= i < s.len() && s[i] == c {
        1 + repeat_len(s, i + 1, c)
    } else {
        0
    }
}

/// The number of times that `c` stands at the end of `s` without a break.
pub open spec fn trail_len(s: Seq<char>, c: char) -> nat
    decreases s.len(),
{
    if s.len() > 0 && s.last() == c {
        1 + trail_len(s.drop_last(), c)
    } else {
        0
    }
}

/// `s` without the run of `c` at its end.
pub open spec fn without_trail(s: Seq<char>, c: char) -> Seq<char> {
    s.take(s.len() - trail_len(s, c))
}

/// Computes `trail_len`.
pub fn count_trail(s: &Vec<char>, c: char) -> (r: usize)
    ensures
        r == trail_len(s@, c),
        r <= s.len(),
{
    let mut n: usize = 0;
    proof {
        assert(s@.take(s@.len() as int) =~= s@);
    }
    while n < s.len() && s[s.len() - 1 - n] == c
        invariant
            n <= s.len(),
            trail_len(s@, c) == n + trail_len(s@.take(s.len() - n), c),
        decreases s.len() - n,
    {
        proof {
            let t = s@.take(s.len() - n);
            assert(t.last() == s@[s.len() - 1 - n]);
            assert(t.drop_last() =~= s@.take(s.len() - n - 1));
        }
        n += 1;
    }
    proof {
        let t = s@.take(s.len() - n);
        if n < s.len() {
            assert(t.last() == s@[s.len() - 1 - n]);
        }
    }
    n
}

/// A run of one character is no longer than what is left of the text.
pub proof fn lemma_repeat_len_bound(s: Seq<char>, i: int, c: char)
    requires
        0 <= i <= s.len(),
    ensures
        repeat_len(s, i, c) <= s.len() - i,
    decreases s.len() - i,
{
    if i < s.len() && s[i] == c {
        lemma_repeat_len_bound(s, i + 1, c);
    }
}

/// Computes `repeat_len`.
pub fn count_repeat(s: &Vec<char>, i: usize, c: char) -> (r: usize)
    requires
        i <= s.len(),
    ensures
        r == repeat_len(s@, i as int, c),
        i + r <= s.len(),
{
    let mut j: usize = i;
    while j < s.len() && s[j] == c
        invariant
            i <= j <= s.len(),
            repeat_len(s@, i as int, c) == (j - i) + repeat_len(s@, j as int, c),
        decreases s.len() - j,
    {
        j += 1;
    }
    j - i
}

} // verus!
