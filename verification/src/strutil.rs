//! Character and string helpers shared across the crate: ASCII
//! lowercasing, lexicographic ordering of character sequences, substring
//! occurrence, and decimal rendering of integers.

use vstd::prelude::*;

verus! {

/// Relies on `String::push` from std: appends the given character to the
/// end of the string.
pub assume_specification[ String::push ](s: &mut String, c: char)
    ensures
        final(s)@ == old(s)@.push(c),
;

/// Maps an ASCII upper-case letter to its lower-case form; any other
/// character is unchanged. Folding is deliberately ASCII-only: the
/// latin names the library keys on are ASCII, and a wider folding
/// would have to be taken on trust rather than verified.
pub open spec fn lower_char(c: char) -> char {
    match c {
        'A' => 'a',
        'B' => 'b',
        'C' => 'c',
        'D' => 'd',
        'E' => 'e',
        'F' => 'f',
        'G' => 'g',
        'H' => 'h',
        'I' => 'i',
        'J' => 'j',
        'K' => 'k',
        'L' => 'l',
        'M' => 'm',
        'N' => 'n',
        'O' => 'o',
        'P' => 'p',
        'Q' => 'q',
        'R' => 'r',
        'S' => 's',
        'T' => 't',
        'U' => 'u',
        'V' => 'v',
        'W' => 'w',
        'X' => 'x',
        'Y' => 'y',
        'Z' => 'z',
        _ => c,
    }
}

/// Character-wise lower-casing of a sequence.
pub open spec fn lower(s: Seq<char>) -> Seq<char> {
    s.map_values(|c: char| lower_char(c))
}

/// Lower-cases one character.
pub fn lower_char_exec(c: char) -> (r: char)
    ensures
        r == lower_char(c),
{
    match c {
        'A' => 'a',
        'B' => 'b',
        'C' => 'c',
        'D' => 'd',
        'E' => 'e',
        'F' => 'f',
        'G' => 'g',
        'H' => 'h',
        'I' => 'i',
        'J' => 'j',
        'K' => 'k',
        'L' => 'l',
        'M' => 'm',
        'N' => 'n',
        'O' => 'o',
        'P' => 'p',
        'Q' => 'q',
        'R' => 'r',
        'S' => 's',
        'T' => 't',
        'U' => 'u',
        'V' => 'v',
        'W' => 'w',
        'X' => 'x',
        'Y' => 'y',
        'Z' => 'z',
        _ => c,
    }
}

/// The form names take for matching: lower-cased, with underscores read
/// as spaces, since filenames conventionally write spaces as
/// underscores.
pub open spec fn canon_char(c: char) -> char {
    if c == '_' {
        ' '
    } else {
        lower_char(c)
    }
}

/// Character-wise matching form of a sequence.
pub open spec fn canon(s: Seq<char>) -> Seq<char> {
    s.map_values(|c: char| canon_char(c))
}

/// Canonicalizes one character for matching.
pub fn canon_char_exec(c: char) -> (r: char)
    ensures
        r == canon_char(c),
{
    if c == '_' {
        ' '
    } else {
        lower_char_exec(c)
    }
}

/// Returns the matching form of a string: lower-cased, underscores read
/// as spaces.
pub fn to_canon(s: &str) -> (r: String)
    ensures
        r@ == canon(s@),
{
    let n = s.unicode_len();
    let mut out = String::new();
    let mut i: usize = 0;
    while i < n
        invariant
            i <= n,
            n == s@.len(),
            out@ == canon(s@.subrange(0, i as int)),
        decreases n - i,
    {
        let c = s.get_char(i);
        out.push(canon_char_exec(c));
        proof {
            assert(s@.subrange(0, i + 1) =~= s@.subrange(0, i as int).push(s@[i as int]));
            assert(canon(s@.subrange(0, i + 1)) =~= canon(s@.subrange(0, i as int)).push(
                canon_char(s@[i as int])));
        }
        i = i + 1;
    }
    proof {
        assert(s@.subrange(0, n as int) =~= s@);
    }
    out
}

/// ASCII whitespace, the class stripped from the edges of loaded
/// fields; wider whitespace classes are left alone, as above.
pub open spec fn is_space(c: char) -> bool {
    c == ' ' || c == '\t' || c == '\n' || c == '\r' || c == '\u{b}' || c == '\u{c}'
}

/// Tests whether one character is ASCII whitespace.
pub fn is_space_exec(c: char) -> (r: bool)
    ensures
        r == is_space(c),
{
    c == ' ' || c == '\t' || c == '\n' || c == '\r' || c == '\u{b}' || c == '\u{c}'
}

/// The sequence with leading whitespace removed.
pub open spec fn trim_left(s: Seq<char>) -> Seq<char>
    decreases s.len(),
{
    if s.len() > 0 && is_space(s[0]) {
        trim_left(s.drop_first())
    } else {
        s
    }
}

/// The sequence with trailing whitespace removed.
pub open spec fn trim_right(s: Seq<char>) -> Seq<char>
    decreases s.len(),
{
    if s.len() > 0 && is_space(s[s.len() - 1]) {
        trim_right(s.drop_last())
    } else {
        s
    }
}

/// The sequence with whitespace removed from both edges.
pub open spec fn trim_spec(s: Seq<char>) -> Seq<char> {
    trim_right(trim_left(s))
}

proof fn lemma_trim_left_len(s: Seq<char>)
    ensures
        trim_left(s).len() <= s.len(),
    decreases s.len(),
{
    if s.len() > 0 && is_space(s[0]) {
        lemma_trim_left_len(s.drop_first());
    }
}

proof fn lemma_trim_right_len(s: Seq<char>)
    ensures
        trim_right(s).len() <= s.len(),
    decreases s.len(),
{
    if s.len() > 0 && is_space(s[s.len() - 1]) {
        lemma_trim_right_len(s.drop_last());
    }
}

/// Trimming never lengthens a sequence.
pub proof fn lemma_trim_spec_len(s: Seq<char>)
    ensures
        trim_spec(s).len() <= s.len(),
{
    lemma_trim_left_len(s);
    lemma_trim_right_len(trim_left(s));
}

pub proof fn lemma_trim_left_step(s: Seq<char>, i: int)
    requires
        0 <= i < s.len(),
        forall|j: int| 0 <= j < i ==> is_space(s[j]),
    ensures
        !is_space(s[i]) ==> trim_left(s) =~= s.subrange(i, s.len() as int),
        is_space(s[i]) && i + 1 == s.len() ==> trim_left(s) =~= Seq::<char>::empty(),
    decreases i,
{
    if i == 0 {
        if is_space(s[0]) && s.len() == 1 {
            assert(trim_left(s) == trim_left(s.drop_first()));
            assert(s.drop_first().len() == 0);
        }
        if !is_space(s[0]) {
            assert(trim_left(s) == s);
            assert(s.subrange(0, s.len() as int) =~= s);
        }
    } else {
        assert(is_space(s[0]));
        assert(trim_left(s) == trim_left(s.drop_first()));
        let t = s.drop_first();
        assert(forall|j: int| 0 <= j < i - 1 ==> is_space(#[trigger] t[j]));
        lemma_trim_left_step(t, i - 1);
        if !is_space(s[i]) {
            assert(t.subrange(i - 1, t.len() as int) =~= s.subrange(i, s.len() as int));
        }
    }
}

proof fn lemma_trim_right_step(s: Seq<char>, j: int)
    requires
        0 <= j <= s.len(),
        forall|k: int| j <= k < s.len() ==> is_space(s[k]),
    ensures
        j == 0 ==> trim_right(s) =~= Seq::<char>::empty(),
        j > 0 && !is_space(s[j - 1]) ==> trim_right(s) =~= s.subrange(0, j),
    decreases s.len(),
{
    if j == s.len() {
        if j > 0 && !is_space(s[j - 1]) {
            assert(trim_right(s) == s);
            assert(s.subrange(0, j) =~= s);
        }
        if j == 0 {
            assert(s.len() == 0);
        }
    } else {
        assert(is_space(s[s.len() - 1]));
        assert(trim_right(s) == trim_right(s.drop_last()));
        let t = s.drop_last();
        assert(forall|k: int| j <= k < t.len() ==> is_space(#[trigger] t[k]));
        lemma_trim_right_step(t, j);
        if j > 0 && !is_space(s[j - 1]) {
            assert(t.subrange(0, j) =~= s.subrange(0, j));
        }
    }
}

/// Returns the copy of a string with whitespace removed from both edges.
pub fn trim(s: &str) -> (r: String)
    ensures
        r@ == trim_spec(s@),
{
    let n = s.unicode_len();
    let mut i: usize = 0;
    while i < n && is_space_exec(s.get_char(i))
        invariant
            i <= n,
            n == s@.len(),
            forall|j: int| 0 <= j < i ==> is_space(s@[j]),
        decreases n - i,
    {
        i = i + 1;
    }
    if i == n {
        proof {
            if n > 0 {
                lemma_trim_left_step(s@, n - 1);
                assert(trim_left(s@) =~= Seq::<char>::empty());
            }
            assert(trim_spec(s@) =~= Seq::<char>::empty());
        }
        return String::new();
    }
    proof {
        lemma_trim_left_step(s@, i as int);
    }
    let mut j: usize = n;
    while j > i && is_space_exec(s.get_char(j - 1))
        invariant
            i <= j <= n,
            n == s@.len(),
            i < n,
            !is_space(s@[i as int]),
            forall|k: int| j <= k < n ==> is_space(s@[k]),
        decreases j,
    {
        j = j - 1;
    }
    proof {
        let t = trim_left(s@);
        assert(t =~= s@.subrange(i as int, n as int));
        assert(forall|k: int| j - i <= k < t.len() ==> is_space(#[trigger] t[k]));
        lemma_trim_right_step(t, j - i);
        assert(j > i);
        assert(!is_space(t[j - i - 1]));
        assert(trim_right(t) =~= t.subrange(0, j - i));
        assert(t.subrange(0, j - i) =~= s@.subrange(i as int, j as int));
    }
    let piece = s.substring_char(i, j);
    piece.to_owned()
}

/// Lexicographic order on character sequences by Unicode scalar value:
/// a prefix comes before its extensions.
pub open spec fn lex_le(a: Seq<char>, b: Seq<char>) -> bool
    decreases a.len(),
{
    if a.len() == 0 {
        true
    } else if b.len() == 0 {
        false
    } else if (a[0] as u32) < (b[0] as u32) {
        true
    } else if (a[0] as u32) > (b[0] as u32) {
        false
    } else {
        lex_le(a.drop_first(), b.drop_first())
    }
}

/// Strict lexicographic order.
pub open spec fn lex_lt(a: Seq<char>, b: Seq<char>) -> bool {
    lex_le(a, b) && a != b
}

/// `lex_le` holds in at least one direction, and in both only for equal
/// sequences.
pub proof fn lemma_lex_le_total(a: Seq<char>, b: Seq<char>)
    ensures
        lex_le(a, b) || lex_le(b, a),
        lex_le(a, b) && lex_le(b, a) ==> a =~= b,
    decreases a.len(),
{
    if a.len() == 0 || b.len() == 0 {
        if a.len() == 0 && b.len() == 0 {
            assert(a =~= b);
        }
    } else if (a[0] as u32) == (b[0] as u32) {
        lemma_lex_le_total(a.drop_first(), b.drop_first());
        vstd::utf8::char_u32_cast(a[0], a[0] as u32);
        vstd::utf8::char_u32_cast(b[0], b[0] as u32);
        if lex_le(a, b) && lex_le(b, a) {
            assert(a.drop_first() =~= b.drop_first());
            assert(a =~= seq![a[0]] + a.drop_first());
            assert(b =~= seq![b[0]] + b.drop_first());
            assert(a[0] == b[0]);
        }
    }
}

/// `lex_le` is transitive.
pub proof fn lemma_lex_le_trans(a: Seq<char>, b: Seq<char>, c: Seq<char>)
    requires
        lex_le(a, b),
        lex_le(b, c),
    ensures
        lex_le(a, c),
    decreases a.len(),
{
    if a.len() == 0 {
    } else if b.len() == 0 {
        assert(false);
    } else if c.len() == 0 {
        assert(false);
    } else {
        if (a[0] as u32) == (b[0] as u32) && (b[0] as u32) == (c[0] as u32) {
            lemma_lex_le_trans(a.drop_first(), b.drop_first(), c.drop_first());
        }
    }
}

/// Compares two strings in the lexicographic order of `lex_le`.
pub fn lex_le_exec(a: &str, b: &str) -> (r: bool)
    ensures
        r == lex_le(a@, b@),
{
    let na = a.unicode_len();
    let nb = b.unicode_len();
    let mut i: usize = 0;
    proof {
        assert(a@.skip(0) =~= a@);
        assert(b@.skip(0) =~= b@);
    }
    loop
        invariant
            i <= na,
            i <= nb,
            na == a@.len(),
            nb == b@.len(),
            lex_le(a@, b@) == lex_le(a@.skip(i as int), b@.skip(i as int)),
            lex_le(b@, a@) == lex_le(b@.skip(i as int), a@.skip(i as int)),
        decreases na - i,
    {
        if i == na {
            proof {
                assert(a@.skip(i as int).len() == 0);
            }
            return true;
        }
        if i == nb {
            proof {
                assert(b@.skip(i as int).len() == 0);
                assert(a@.skip(i as int).len() > 0);
            }
            return false;
        }
        let ca = a.get_char(i) as u32;
        let cb = b.get_char(i) as u32;
        proof {
            assert(a@.skip(i as int)[0] == a@[i as int]);
            assert(b@.skip(i as int)[0] == b@[i as int]);
        }
        if ca < cb {
            return true;
        }
        if ca > cb {
            return false;
        }
        proof {
            assert(a@.skip(i as int).drop_first() =~= a@.skip(i + 1));
            assert(b@.skip(i as int).drop_first() =~= b@.skip(i + 1));
        }
        i = i + 1;
    }
}

/// `pat` occurs in `hay` starting at position `pos`.
pub open spec fn occurs_at(hay: Seq<char>, pat: Seq<char>, pos: int) -> bool {
    &&& 0 <= pos
    &&& pos + pat.len() <= hay.len()
    &&& hay.subrange(pos, pos + pat.len() as int) =~= pat
}

/// `pat` occurs somewhere in `hay`.
pub open spec fn occurs(hay: Seq<char>, pat: Seq<char>) -> bool {
    exists|pos: int| occurs_at(hay, pat, pos)
}

/// The decimal digit character for one digit value.
pub open spec fn digit_char(d: int) -> char {
    if d == 0 {
        '0'
    } else if d == 1 {
        '1'
    } else if d == 2 {
        '2'
    } else if d == 3 {
        '3'
    } else if d == 4 {
        '4'
    } else if d == 5 {
        '5'
    } else if d == 6 {
        '6'
    } else if d == 7 {
        '7'
    } else if d == 8 {
        '8'
    } else {
        '9'
    }
}

/// The decimal rendering of a natural number, most significant digit
/// first.
pub open spec fn dec_spec(n: nat) -> Seq<char>
    decreases n,
{
    if n < 10 {
        seq![digit_char(n as int)]
    } else {
        dec_spec(n / 10).push(digit_char((n % 10) as int))
    }
}

fn digit_char_exec(d: u64) -> (r: char)
    requires
        d < 10,
    ensures
        r == digit_char(d as int),
{
    match d {
        0 => '0',
        1 => '1',
        2 => '2',
        3 => '3',
        4 => '4',
        5 => '5',
        6 => '6',
        7 => '7',
        8 => '8',
        _ => '9',
    }
}

/// Renders a number in decimal.
pub fn u64_to_string(n: u64) -> (r: String)
    ensures
        r@ == dec_spec(n as nat),
    decreases n,
{
    if n < 10 {
        let mut s = String::new();
        s.push(digit_char_exec(n));
        proof {
            assert(s@ =~= dec_spec(n as nat));
        }
        s
    } else {
        let mut s = u64_to_string(n / 10);
        s.push(digit_char_exec(n % 10));
        proof {
            assert(s@ =~= dec_spec(n as nat));
        }
        s
    }
}

/// Returns the character-wise lower-cased copy of a string.
pub fn to_lower(s: &str) -> (r: String)
    ensures
        r@ == lower(s@),
{
    let n = s.unicode_len();
    let mut out = String::new();
    let mut i: usize = 0;
    while i < n
        invariant
            i <= n,
            n == s@.len(),
            out@ == lower(s@.subrange(0, i as int)),
        decreases n - i,
    {
        let c = s.get_char(i);
        out.push(lower_char_exec(c));
        proof {
            assert(s@.subrange(0, i + 1) =~= s@.subrange(0, i as int).push(s@[i as int]));
            assert(lower(s@.subrange(0, i + 1)) =~= lower(s@.subrange(0, i as int)).push(
                lower_char(s@[i as int])));
        }
        i = i + 1;
    }
    proof {
        assert(s@.subrange(0, n as int) =~= s@);
    }
    out
}

} // verus!
