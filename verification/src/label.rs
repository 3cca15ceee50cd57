//! Text shown on the treemap's labels.
use vstd::prelude::*;

use crate::text::{chars_of, string_from_chars};

verus! {

/// Index of the last `c` in `s`, or -1 when there is none.
pub open spec fn last_index_of(s: Seq<char>, c: char) -> int
    decreases s.len(),
{
    if s.len() == 0 {
        -1
    } else if s.last() == c {
        s.len() - 1
    } else {
        last_index_of(s.drop_last(), c)
    }
}

/// `name` without its extension: everything before the last `.`, when that
/// dot is neither the first nor the last character.
pub open spec fn without_extension(name: Seq<char>) -> Seq<char> {
    let pos = last_index_of(name, '.');
    if pos > 0 && pos < name.len() - 1 {
        name.take(pos)
    } else {
        name
    }
}

proof fn lemma_last_index_of(s: Seq<char>, c: char, n: int)
    requires
        0 <= n <= s.len(),
        forall|j: int| n <= j < s.len() ==> s[j] != c,
    ensures
        last_index_of(s, c) == last_index_of(s.take(n), c),
    decreases s.len() - n,
{
    if n < s.len() {
        lemma_last_index_of(s, c, n + 1);
        assert(s.take(n + 1).drop_last() == s.take(n));
    } else {
        assert(s.take(n) == s);
    }
}

/// Strip the file extension (e.g. ".c", ".h", ".rs") if present.
pub fn strip_extension(name: &str) -> (r: String)
    ensures
        r@ == without_extension(name@),
{
    let cs = chars_of(name);
    let mut i: usize = cs.len();
    while i > 0 && cs[i - 1] != '.'
        invariant
            i <= cs.len(),
            forall|j: int| i <= j < cs.len() ==> cs@[j] != '.',
        decreases i,
    {
        i -= 1;
    }
    proof {
        lemma_last_index_of(cs@, '.', i as int);
        if i > 0 {
            assert(cs@.take(i as int).last() == '.');
        }
    }
    // `i` is one past the last dot, or 0 when there is none.
    if i > 1 && i < cs.len() {
        let r = string_from_chars(&cs, 0, i - 1);
        assert(cs@.subrange(0, i - 1) == cs@.take(i - 1));
        r
    } else {
        let r = string_from_chars(&cs, 0, cs.len());
        assert(cs@.subrange(0, cs.len() as int) == cs@);
        r
    }
}

} // verus!
