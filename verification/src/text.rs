//! Character-level helpers shared by the rest of the crate.
//!
//! Strings are handled through their sequence of characters: every exec
//! function here states its result over the `Seq<char>` view of its inputs.

use vstd::prelude::*;

verus! {

/// `String::push` appends one character at the end of the string and
/// leaves what was there before untouched.
pub assume_specification[ String::push ](s: &mut String, c: char)
    ensures
        final(s)@ == old(s)@.push(c),
;

/// Letters, digits and the underscore: what a generated name may hold.
pub open spec fn is_ident_char(c: char) -> bool {
    ('a' <= c && c <= 'z') || ('A' <= c && c <= 'Z') || ('0' <= c && c <= '9') || c == '_'
}

/// The ten ASCII digits.
pub open spec fn is_digit(c: char) -> bool {
    '0' <= c && c <= '9'
}

/// A name that can be used as a symbol: non-empty, made of identifier
/// characters, and not starting with a digit.
pub open spec fn is_identifier(s: Seq<char>) -> bool {
    &&& s.len() > 0
    &&& !is_digit(s[0])
    &&& forall|i: int| 0 <= i < s.len() ==> is_ident_char(#[trigger] s[i])
}

/// The characters that count as white space (the Unicode property
/// `White_Space`).
pub open spec fn is_space(c: char) -> bool {
    let u = c as u32;
    ||| (0x09 <= u && u <= 0x0D)
    ||| u == 0x20
    ||| u == 0x85
    ||| u == 0xA0
    ||| u == 0x1680
    ||| (0x2000 <= u && u <= 0x200A)
    ||| u == 0x2028
    ||| u == 0x2029
    ||| u == 0x202F
    ||| u == 0x205F
    ||| u == 0x3000
}

/// `c` with the ASCII capitals mapped to their small letters.
pub open spec fn lower_char(c: char) -> char {
    if 'A' <= c && c <= 'Z' {
        ((c as u8) + 32) as char
    } else {
        c
    }
}

/// `s` with every ASCII capital mapped to its small letter.
pub open spec fn lower(s: Seq<char>) -> Seq<char> {
    Seq::new(s.len(), |i: int| lower_char(s[i]))
}

/// Equality up to the case of ASCII letters.
pub open spec fn eq_ignore_case(a: Seq<char>, b: Seq<char>) -> bool {
    lower(a) == lower(b)
}

/// The index of the first character at or after `i` that is no white space
/// (`s.len()` if there is none).
pub open spec fn leading(s: Seq<char>, i: int) -> int
    decreases s.len() - i,
{
    if 0 <= i < s.len() && is_space(s[i]) {
        leading(s, i + 1)
    } else {
        i
    }
}

/// The index just after the last character before `j` that is no white
/// space (0 if there is none).
pub open spec fn trailing(s: Seq<char>, j: int) -> int
    decreases j,
{
    if 0 < j <= s.len() && is_space(s[j - 1]) {
        trailing(s, j - 1)
    } else {
        j
    }
}

/// `s` without the white space at its two ends.
pub open spec fn trimmed(s: Seq<char>) -> Seq<char> {
    let a = leading(s, 0);
    let b = trailing(s, s.len() as int);
    if a < b {
        s.subrange(a, b)
    } else {
        Seq::empty()
    }
}

proof fn lemma_leading_ignores_case(s: Seq<char>, i: int)
    requires
        0 <= i,
    ensures
        leading(lower(s), i) == leading(s, i),
    decreases s.len() - i,
{
    if i < s.len() {
        assert(lower(s)[i] == lower_char(s[i]));
        lemma_leading_ignores_case(s, i + 1);
    }
}

proof fn lemma_trailing_ignores_case(s: Seq<char>, j: int)
    requires
        j <= s.len(),
    ensures
        trailing(lower(s), j) == trailing(s, j),
    decreases j,
{
    if 0 < j {
        assert(lower(s)[j - 1] == lower_char(s[j - 1]));
        lemma_trailing_ignores_case(s, j - 1);
    }
}

proof fn lemma_leading_bounds(s: Seq<char>, i: int)
    requires
        0 <= i <= s.len(),
    ensures
        i <= leading(s, i) <= s.len(),
    decreases s.len() - i,
{
    if i < s.len() && is_space(s[i]) {
        lemma_leading_bounds(s, i + 1);
    }
}

proof fn lemma_trailing_bounds(s: Seq<char>, j: int)
    requires
        0 <= j <= s.len(),
    ensures
        0 <= trailing(s, j) <= j,
    decreases j,
{
    if 0 < j && is_space(s[j - 1]) {
        lemma_trailing_bounds(s, j - 1);
    }
}

/// Trimming and lowering can be done in either order: no ASCII letter is
/// white space.
pub proof fn lemma_trim_ignores_case(s: Seq<char>)
    ensures
        trimmed(lower(s)) == lower(trimmed(s)),
{
    lemma_leading_ignores_case(s, 0);
    lemma_trailing_ignores_case(s, s.len() as int);
    lemma_leading_bounds(s, 0);
    lemma_trailing_bounds(s, s.len() as int);
    assert(trimmed(lower(s)) =~= lower(trimmed(s)));
}

/// Whether `c` is a letter, a digit or the underscore.
pub fn ident_char(c: char) -> (r: bool)
    ensures
        r == is_ident_char(c),
{
    ('a' <= c && c <= 'z') || ('A' <= c && c <= 'Z') || ('0' <= c && c <= '9') || c == '_'
}

/// Whether `c` is white space.
pub fn space(c: char) -> (r: bool)
    ensures
        r == is_space(c),
{
    let u: u32 = c as u32;
    (0x09 <= u && u <= 0x0D) || u == 0x20 || u == 0x85 || u == 0xA0 || u == 0x1680 || (0x2000 <= u
        && u <= 0x200A) || u == 0x2028 || u == 0x2029 || u == 0x202F || u == 0x205F || u == 0x3000
}

/// `c`, or its small letter if `c` is an ASCII capital.
pub fn to_lower_char(c: char) -> (r: char)
    ensures
        r == lower_char(c),
{
    if 'A' <= c && c <= 'Z' {
        let b: u8 = c as u8;
        (b + 32) as char
    } else {
        c
    }
}

/// The characters of `s`, in order.
pub fn to_chars(s: &str) -> (v: Vec<char>)
    ensures
        v@ == s@,
{
    broadcast use vstd::string::group_string_axioms;

    let mut v: Vec<char> = Vec::new();
    for c in it: s.chars()
        invariant
            it.seq() == s@,
            v@ == it.seq().take(it.index()),
    {
        v.push(c);
    }
    v
}

/// The string made of the characters `v[from..to]`.
pub fn slice_to_string(v: &Vec<char>, from: usize, to: usize) -> (s: String)
    requires
        from <= to <= v.len(),
    ensures
        s@ == v@.subrange(from as int, to as int),
{
    let mut s = String::new();
    let mut i: usize = from;
    while i < to
        invariant
            from <= i <= to <= v.len(),
            s@ == v@.subrange(from as int, i as int),
        decreases to - i,
    {
        s.push(v[i]);
        i += 1;
    }
    s
}

/// The string made of the characters of `v`.
pub fn from_chars(v: &Vec<char>) -> (s: String)
    ensures
        s@ == v@,
{
    slice_to_string(v, 0, v.len())
}

/// Whether `s` can be used as a symbol.
pub fn identifier(s: &str) -> (r: bool)
    ensures
        r == is_identifier(s@),
{
    let v = to_chars(s);
    if v.len() == 0 {
        return false;
    }
    if '0' <= v[0] && v[0] <= '9' {
        return false;
    }
    let mut i: usize = 0;
    while i < v.len()
        invariant
            i <= v.len(),
            v@ == s@,
            forall|j: int| 0 <= j < i ==> is_ident_char(#[trigger] v@[j]),
        decreases v.len() - i,
    {
        if !ident_char(v[i]) {
            return false;
        }
        i += 1;
    }
    true
}

/// Whether `a` and `b` hold the same characters.
pub fn same_text(a: &str, b: &str) -> (r: bool)
    ensures
        r == (a@ == b@),
{
    let x = to_chars(a);
    let y = to_chars(b);
    if x.len() != y.len() {
        return false;
    }
    let mut i: usize = 0;
    while i < x.len()
        invariant
            i <= x.len(),
            x.len() == y.len(),
            x@ == a@,
            y@ == b@,
            forall|j: int| 0 <= j < i ==> x@[j] == y@[j],
        decreases x.len() - i,
    {
        if x[i] != y[i] {
            return false;
        }
        i += 1;
    }
    assert(x@ =~= y@);
    true
}

/// `s` with every ASCII capital mapped to its small letter.
pub fn to_lower(v: &Vec<char>) -> (r: Vec<char>)
    ensures
        r@ == lower(v@),
{
    let mut r: Vec<char> = Vec::new();
    let mut i: usize = 0;
    while i < v.len()
        invariant
            i <= v.len(),
            r@ == lower(v@).take(i as int),
        decreases v.len() - i,
    {
        r.push(to_lower_char(v[i]));
        i += 1;
    }
    r
}

/// Whether `a` and `b` are equal up to the case of ASCII letters.
pub fn same_ignoring_case(a: &str, b: &str) -> (r: bool)
    ensures
        r == eq_ignore_case(a@, b@),
{
    let x = to_lower(&to_chars(a));
    let y = to_lower(&to_chars(b));
    if x.len() != y.len() {
        return false;
    }
    let mut i: usize = 0;
    while i < x.len()
        invariant
            i <= x.len(),
            x.len() == y.len(),
            x@ == lower(a@),
            y@ == lower(b@),
            forall|j: int| 0 <= j < i ==> x@[j] == y@[j],
        decreases x.len() - i,
    {
        if x[i] != y[i] {
            return false;
        }
        i += 1;
    }
    assert(x@ =~= y@);
    true
}

/// `v` without the white space at its two ends.
pub fn trim(v: &Vec<char>) -> (r: Vec<char>)
    ensures
        r@ == trimmed(v@),
{
    let mut a: usize = 0;
    while a < v.len() && space(v[a])
        invariant
            a <= v.len(),
            leading(v@, a as int) == leading(v@, 0),
        decreases v.len() - a,
    {
        a += 1;
    }
    let mut b: usize = v.len();
    while b > 0 && space(v[b - 1])
        invariant
            b <= v.len(),
            trailing(v@, b as int) == trailing(v@, v@.len() as int),
        decreases b,
    {
        b -= 1;
    }
    let mut r: Vec<char> = Vec::new();
    if a < b {
        let mut i: usize = a;
        while i < b
            invariant
                a <= i <= b <= v.len(),
                r@ == v@.subrange(a as int, i as int),
            decreases b - i,
        {
            r.push(v[i]);
            i += 1;
        }
    }
    r
}

} // verus!
