//! Character-level helpers for names and source paths: splitting a path into
//! its components, joining components back, lexicographic comparison, and the
//! conversions between `String` and sequences of `char`.
use vstd::prelude::*;
use vstd::string::*;

verus! {

/// Appends one character to a `String` (`String::push`).
#[verifier::external_body]
pub(crate) fn push_char(s: &mut String, c: char)
    ensures
        final(s)@ == old(s)@.push(c),
{
    s.push(c);
}

/// Unicode "Lowercase" property of a character, as `char::is_lowercase` reports it.
pub uninterp spec fn lowercase_char(c: char) -> bool;

/// Unicode "Uppercase" property of a character, as `char::is_uppercase` reports it.
pub uninterp spec fn uppercase_char(c: char) -> bool;

/// `char::is_lowercase`. The result is the Unicode Lowercase property, named
/// `lowercase_char`; for ASCII characters that property holds exactly of
/// `'a'..='z'`, as the standard library documents. Nothing more is stated of
/// the other characters.
#[verifier::external_body]
pub(crate) fn is_lowercase(c: char) -> (r: bool)
    ensures
        r == lowercase_char(c),
        (c as u32) < 128 ==> (r <==> ('a' <= c && c <= 'z')),
{
    c.is_lowercase()
}

/// `char::is_uppercase`. The result is the Unicode Uppercase property, named
/// `uppercase_char`; for ASCII characters that property holds exactly of
/// `'A'..='Z'`. Nothing more is stated of the other characters.
#[verifier::external_body]
pub(crate) fn is_uppercase(c: char) -> (r: bool)
    ensures
        r == uppercase_char(c),
        (c as u32) < 128 ==> (r <==> ('A' <= c && c <= 'Z')),
{
    c.is_uppercase()
}

/// The characters of a string slice, in order.
pub fn chars_of(s: &str) -> (v: Vec<char>)
    ensures
        v@ == s@,
{
    let mut v: Vec<char> = Vec::new();
    for c in it: s.chars()
        invariant
            v@ == it.seq().take(it.index() as int),
    {
        v.push(c);
    }
    v
}

/// A `String` holding `v[from..to]`.
pub fn string_from_chars(v: &Vec<char>, from: usize, to: usize) -> (s: String)
    requires
        from <= to <= v.len(),
    ensures
        s@ == v@.subrange(from as int, to as int),
{
    let mut s = String::new();
    let mut i = from;
    while i < to
        invariant
            from <= i <= to <= v.len(),
            s@ == v@.subrange(from as int, i as int),
        decreases to - i,
    {
        push_char(&mut s, v[i]);
        assert(v@.subrange(from as int, i + 1) == v@.subrange(from as int, i as int).push(v@[i as int]));
        i += 1;
    }
    s
}

/// A copy of a string.
pub fn copy_string(s: &String) -> (r: String)
    ensures
        r@ == s@,
{
    s.clone()
}

/// A copy of an optional string.
pub fn copy_opt_string(s: &Option<String>) -> (r: Option<String>)
    ensures
        r.deep_view() == s.deep_view(),
{
    match s {
        Some(x) => Some(x.clone()),
        None => None,
    }
}

/// A copy of a list of strings.
pub fn copy_strings(v: &Vec<String>) -> (r: Vec<String>)
    ensures
        r.deep_view() == v.deep_view(),
{
    let mut r: Vec<String> = Vec::new();
    for i in 0..v.len()
        invariant
            r@.len() == i,
            forall|j: int| 0 <= j < i ==> #[trigger] r@[j]@ == v@[j]@,
    {
        r.push(v[i].clone());
    }
    assert(r.deep_view() =~= v.deep_view());
    r
}

/// `a` followed by `b`.
pub fn concat_strings(a: &String, b: &String) -> (r: String)
    ensures
        r@ == a@ + b@,
{
    let mut r = a.clone();
    r.append(b.as_str());
    r
}

/// Whether two optional strings are equal.
pub fn opt_string_eq(a: &Option<String>, b: &Option<String>) -> (r: bool)
    ensures
        r == (a.deep_view() == b.deep_view()),
{
    match a {
        Some(x) => match b {
            Some(y) => {
                let r = *x == *y;
                proof {
                    if r {
                        assert(a.deep_view() == Some(x@));
                    } else {
                        assert(a.deep_view()->0 != b.deep_view()->0);
                    }
                }
                r
            },
            None => false,
        },
        None => match b {
            Some(_) => false,
            None => true,
        },
    }
}

/// Whether `v` holds a string equal to `s`.
pub fn strings_contain(v: &Vec<String>, s: &String) -> (r: bool)
    ensures
        r == v.deep_view().contains(s@),
{
    for i in 0..v.len()
        invariant
            forall|j: int| 0 <= j < i ==> v.deep_view()[j] != s@,
    {
        if v[i] == *s {
            assert(v.deep_view()[i as int] == s@);
            return true;
        }
    }
    false
}

// ---------------------------------------------------------------------------
// Path components

/// One step of splitting a path on `/`: the completed components and the one
/// being read.
pub open spec fn comp_step(st: (Seq<Seq<char>>, Seq<char>), c: char) -> (Seq<Seq<char>>, Seq<char>) {
    if c == '/' {
        (if st.1.len() > 0 { st.0.push(st.1) } else { st.0 }, Seq::<char>::empty())
    } else {
        (st.0, st.1.push(c))
    }
}

/// The state after reading all of `s`.
pub open spec fn comp_scan(s: Seq<char>) -> (Seq<Seq<char>>, Seq<char>)
    decreases s.len(),
{
    if s.len() == 0 {
        (Seq::<Seq<char>>::empty(), Seq::<char>::empty())
    } else {
        comp_step(comp_scan(s.drop_last()), s.last())
    }
}

/// The non-empty pieces of `s` between `/` separators, in order.
pub open spec fn components(s: Seq<char>) -> Seq<Seq<char>> {
    let st = comp_scan(s);
    if st.1.len() > 0 { st.0.push(st.1) } else { st.0 }
}

/// The non-empty `/`-separated components of a path.
pub fn components_of(s: &str) -> (r: Vec<String>)
    ensures
        r.deep_view() == components(s@),
{
    let cs = chars_of(s);
    let mut done: Vec<String> = Vec::new();
    let mut start: usize = 0;
    let mut i: usize = 0;
    while i < cs.len()
        invariant
            0 <= start <= i <= cs.len(),
            cs@ == s@,
            (done.deep_view(), cs@.subrange(start as int, i as int)) == comp_scan(cs@.take(i as int)),
        decreases cs.len() - i,
    {
        let ghost before = comp_scan(cs@.take(i as int));
        assert(cs@.take(i + 1).drop_last() == cs@.take(i as int));
        if cs[i] == '/' {
            if start < i {
                let part = string_from_chars(&cs, start, i);
                done.push(part);
            }
            start = i + 1;
        }
        i += 1;
        assert(cs@.subrange(start as int, i as int) == comp_scan(cs@.take(i as int)).1);
    }
    assert(cs@.take(cs.len() as int) == cs@);
    if start < cs.len() {
        let part = string_from_chars(&cs, start, cs.len());
        done.push(part);
    }
    done
}

/// Components joined by `/`.
pub open spec fn join_slash(parts: Seq<Seq<char>>) -> Seq<char>
    decreases parts.len(),
{
    if parts.len() == 0 {
        Seq::<char>::empty()
    } else if parts.len() == 1 {
        parts[0]
    } else {
        join_slash(parts.drop_last()) + seq!['/'] + parts.last()
    }
}

/// `parts[from..]` joined by `/`.
pub fn join_from(parts: &Vec<String>, from: usize) -> (r: String)
    requires
        from <= parts.len(),
    ensures
        r@ == join_slash(parts.deep_view().skip(from as int)),
{
    let mut r = String::new();
    let mut i = from;
    while i < parts.len()
        invariant
            from <= i <= parts.len(),
            r@ == join_slash(parts.deep_view().subrange(from as int, i as int)),
        decreases parts.len() - i,
    {
        let ghost prev = parts.deep_view().subrange(from as int, i as int);
        assert(parts.deep_view().subrange(from as int, i + 1).drop_last() == prev);
        if i > from {
            push_char(&mut r, '/');
        }
        r.append(parts[i].as_str());
        i += 1;
    }
    assert(parts.deep_view().subrange(from as int, parts.len() as int) == parts.deep_view().skip(from as int));
    r
}

// ---------------------------------------------------------------------------
// Ordering

/// Lexicographic order on character sequences (the order of `str`).
pub open spec fn seq_lt(a: Seq<char>, b: Seq<char>) -> bool
    decreases a.len(),
{
    if b.len() == 0 {
        false
    } else if a.len() == 0 {
        true
    } else if a[0] != b[0] {
        (a[0] as u32) < (b[0] as u32)
    } else {
        seq_lt(a.drop_first(), b.drop_first())
    }
}

/// Whether `a` sorts strictly before `b`.
pub fn chars_lt(a: &Vec<char>, b: &Vec<char>) -> (r: bool)
    ensures
        r == seq_lt(a@, b@),
{
    let mut i: usize = 0;
    assert(a@.skip(0) =~= a@);
    assert(b@.skip(0) =~= b@);
    while i < a.len() && i < b.len()
        invariant
            i <= a.len(),
            i <= b.len(),
            seq_lt(a@, b@) == seq_lt(a@.skip(i as int), b@.skip(i as int)),
        decreases a.len() - i,
    {
        if a[i] != b[i] {
            return (a[i] as u32) < (b[i] as u32);
        }
        assert(a@.skip(i as int).drop_first() == a@.skip(i + 1));
        assert(b@.skip(i as int).drop_first() == b@.skip(i + 1));
        i += 1;
    }
    i < b.len()
}

} // verus!
