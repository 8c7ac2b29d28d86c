use vstd::prelude::*;
use vstd::string::StrSliceExecFns;

verus! {

/// Relies on `String::push`: appends the given character to the end of the
/// string, per its standard-library documentation.
pub assume_specification[ String::push ](s: &mut String, ch: char)
    ensures
        final(s)@ == old(s)@.push(ch),
;

/// The characters of a string slice, in order.
pub fn str_chars(s: &str) -> (r: Vec<char>)
    ensures
        r@ == s@,
{
    let n = s.unicode_len();
    let mut r: Vec<char> = Vec::new();
    let mut i: usize = 0;
    while i < n
        invariant
            i <= n,
            n == s@.len(),
            r@ == s@.subrange(0, i as int),
        decreases n - i,
    {
        r.push(s.get_char(i));
        i = i + 1;
        proof {
            assert(r@ =~= s@.subrange(0, i as int));
        }
    }
    proof {
        assert(s@.subrange(0, n as int) =~= s@);
    }
    r
}

/// A string holding exactly the given characters, in order.
pub fn chars_string(v: &[char]) -> (r: String)
    ensures
        r@ == v@,
{
    let mut r: String = String::new();
    let mut i: usize = 0;
    while i < v.len()
        invariant
            i <= v.len(),
            r@ == v@.subrange(0, i as int),
        decreases v.len() - i,
    {
        r.push(v[i]);
        i = i + 1;
        proof {
            assert(r@ =~= v@.subrange(0, i as int));
        }
    }
    proof {
        assert(v@.subrange(0, v@.len() as int) =~= v@);
    }
    r
}

/// Whether two string slices hold the same characters.
pub fn str_eq(a: &str, b: &str) -> (r: bool)
    ensures
        r == (a@ == b@),
{
    let na = a.unicode_len();
    let nb = b.unicode_len();
    if na != nb {
        return false;
    }
    let mut i: usize = 0;
    while i < na
        invariant
            i <= na,
            na == a@.len(),
            na == b@.len(),
            forall|j: int| 0 <= j < i ==> a@[j] == b@[j],
        decreases na - i,
    {
        if a.get_char(i) != b.get_char(i) {
            return false;
        }
        i = i + 1;
    }
    proof {
        assert(a@ =~= b@);
    }
    true
}

/// The lower-case form of one character: ASCII capitals are shifted to
/// their small form, every other character is kept.
pub open spec fn lower_char(c: char) -> char {
    if 'A' <= c && c <= 'Z' {
        (((c as u32) + 32) as u8) as char
    } else {
        c
    }
}

/// The character-wise ASCII lower-casing of a sequence.
pub open spec fn lower_chars(s: Seq<char>) -> Seq<char> {
    s.map_values(|c: char| lower_char(c))
}

/// Lower-casing is idempotent: a character already shifted stays put.
pub proof fn lemma_lower_char_idempotent(c: char)
    ensures
        lower_char(lower_char(c)) == lower_char(c),
{
}

/// Lower-casing a sequence twice equals lower-casing it once.
pub proof fn lemma_lower_chars_idempotent(s: Seq<char>)
    ensures
        lower_chars(lower_chars(s)) == lower_chars(s),
{
    assert(lower_chars(lower_chars(s)) =~= lower_chars(s)) by {
        assert forall|i: int| 0 <= i < s.len() implies lower_char(lower_char(s[i]))
            == lower_char(s[i]) by {
            lemma_lower_char_idempotent(s[i]);
        }
    }
}

/// The ASCII lower-casing of a string.
pub fn lower_string(s: &str) -> (r: String)
    ensures
        r@ == lower_chars(s@),
{
    let n = s.unicode_len();
    let mut r: String = String::new();
    let mut i: usize = 0;
    while i < n
        invariant
            i <= n,
            n == s@.len(),
            r@ == lower_chars(s@).subrange(0, i as int),
        decreases n - i,
    {
        let c = s.get_char(i);
        if 'A' <= c && c <= 'Z' {
            r.push((((c as u32) + 32) as u8) as char);
        } else {
            r.push(c);
        }
        i = i + 1;
        proof {
            assert(r@ =~= lower_chars(s@).subrange(0, i as int));
        }
    }
    proof {
        assert(lower_chars(s@).subrange(0, n as int) =~= lower_chars(s@));
    }
    r
}

/// Whether `c` is a space or a tab.
pub open spec fn is_ws(c: char) -> bool {
    c == ' ' || c == '\t'
}

/// The first position at or after `i` that is past the end or holds a
/// character that is not a space or a tab.
pub open spec fn ws_end(s: Seq<char>, i: int) -> int
    decreases s.len() - i,
{
    if i < 0 || i >= s.len() {
        i
    } else if is_ws(s[i]) {
        ws_end(s, i + 1)
    } else {
        i
    }
}

/// Where `ws_end` lands.
pub proof fn lemma_ws_end(s: Seq<char>, i: int)
    requires
        0 <= i <= s.len(),
    ensures
        i <= ws_end(s, i) <= s.len(),
        forall|j: int| i <= j < ws_end(s, i) ==> is_ws(s[j]),
        ws_end(s, i) < s.len() ==> !is_ws(s[ws_end(s, i)]),
    decreases s.len() - i,
{
    if i < s.len() && is_ws(s[i]) {
        lemma_ws_end(s, i + 1);
    }
}

/// The position of the first non-space, non-tab character of `s`, one
/// past the end when there is none.
pub fn find_nonws(s: &[char]) -> (r: usize)
    ensures
        r == ws_end(s@, 0),
{
    let mut i: usize = 0;
    while i < s.len() && (s[i] == ' ' || s[i] == '\t')
        invariant
            i <= s@.len(),
            forall|j: int| 0 <= j < i ==> is_ws(s@[j]),
        decreases s.len() - i,
    {
        i = i + 1;
    }
    proof {
        lemma_ws_end(s@, 0);
        assert(ws_end(s@, 0) == i as int);
    }
    i
}

/// The last position before `n` such that every character from it on is a
/// space or a tab; used to trim a trailing run of blanks.
pub open spec fn trim_end_at(s: Seq<char>, n: int) -> int
    decreases n,
{
    if n <= 0 {
        0
    } else if is_ws(s[n - 1]) {
        trim_end_at(s, n - 1)
    } else {
        n
    }
}

/// Where `trim_end_at` lands.
pub proof fn lemma_trim_end_at(s: Seq<char>, n: int)
    requires
        0 <= n <= s.len(),
    ensures
        0 <= trim_end_at(s, n) <= n,
        forall|j: int| trim_end_at(s, n) <= j < n ==> is_ws(s[j]),
        trim_end_at(s, n) > 0 ==> !is_ws(s[trim_end_at(s, n) - 1]),
    decreases n,
{
    if n > 0 && is_ws(s[n - 1]) {
        lemma_trim_end_at(s, n - 1);
    }
}

/// The position after dropping the trailing spaces and tabs of `s`.
pub fn find_trim_end(s: &[char]) -> (r: usize)
    ensures
        r == trim_end_at(s@, s@.len() as int),
{
    let mut n: usize = s.len();
    while n > 0 && (s[n - 1] == ' ' || s[n - 1] == '\t')
        invariant
            n <= s@.len(),
            forall|j: int| n <= j < s@.len() ==> is_ws(s@[j]),
        decreases n,
    {
        n = n - 1;
    }
    proof {
        lemma_trim_end_at(s@, s@.len() as int);
        assert(trim_end_at(s@, s@.len() as int) == n as int);
    }
    n
}

/// The first position at or after `i` that is past the end or holds a
/// newline.
pub open spec fn nl_end(s: Seq<char>, i: int) -> int
    decreases s.len() - i,
{
    if i < 0 || i >= s.len() {
        i
    } else if s[i] == '\n' {
        i
    } else {
        nl_end(s, i + 1)
    }
}

/// Where `nl_end` lands.
pub proof fn lemma_nl_end(s: Seq<char>, i: int)
    requires
        0 <= i <= s.len(),
    ensures
        i <= nl_end(s, i) <= s.len(),
        forall|j: int| i <= j < nl_end(s, i) ==> s[j] != '\n',
        nl_end(s, i) < s.len() ==> s[nl_end(s, i)] == '\n',
    decreases s.len() - i,
{
    if i < s.len() && s[i] != '\n' {
        lemma_nl_end(s, i + 1);
    }
}

/// One split piece: the characters from `i` up to the next newline, with
/// one carriage return dropped from its end when the newline exists.
pub open spec fn line_piece(s: Seq<char>, i: int) -> Seq<char> {
    let j = nl_end(s, i);
    if j < s.len() && j > i && s[j - 1] == '\r' {
        s.subrange(i, j - 1)
    } else {
        s.subrange(i, j)
    }
}

/// The lines of a text from position `i` on: pieces split at newlines,
/// each stripped of one carriage return before the newline; a final
/// newline ends the text without starting an empty last line.
pub open spec fn lines_from(s: Seq<char>, i: int) -> Seq<Seq<char>>
    decreases s.len() - i,
    via lines_from_decreases
{
    if i < 0 || i >= s.len() {
        Seq::empty()
    } else {
        let j = nl_end(s, i);
        if j >= s.len() {
            seq![line_piece(s, i)]
        } else {
            seq![line_piece(s, i)] + lines_from(s, j + 1)
        }
    }
}

/// The recursion in `lines_from` always advances.
#[via_fn]
proof fn lines_from_decreases(s: Seq<char>, i: int) {
    if 0 <= i < s.len() {
        lemma_nl_end(s, i);
    }
}

/// The lines of a text, as the line-by-line readers see them.
pub open spec fn spec_lines(s: Seq<char>) -> Seq<Seq<char>> {
    lines_from(s, 0)
}

/// Splits a text into lines at newlines, dropping one carriage return
/// before each newline and not counting an empty piece after a final
/// newline.
pub fn split_lines(s: &str) -> (r: Vec<Vec<char>>)
    ensures
        r.deep_view() == spec_lines(s@),
{
    let cs = str_chars(s);
    let n = cs.len();
    let mut out: Vec<Vec<char>> = Vec::new();
    let mut i: usize = 0;
    while i < n
        invariant
            i <= n,
            n == cs.len(),
            cs@ == s@,
            spec_lines(s@) == out.deep_view() + lines_from(s@, i as int),
        decreases n - i,
    {
        let ghost out0 = out.deep_view();
        let ghost i0 = i as int;
        let mut j: usize = i;
        while j < n && cs[j] != '\n'
            invariant
                i <= j <= n,
                n == cs.len(),
                cs@ == s@,
                forall|k: int| i <= k < j ==> s@[k] != '\n',
            decreases n - j,
        {
            j = j + 1;
        }
        proof {
            lemma_nl_end(s@, i0);
            assert(nl_end(s@, i0) == j as int);
        }
        let end = if j < n && j > i && cs[j - 1] == '\r' {
            j - 1
        } else {
            j
        };
        let mut piece: Vec<char> = Vec::new();
        let mut k: usize = i;
        while k < end
            invariant
                i <= k <= end,
                end <= n,
                n == cs.len(),
                cs@ == s@,
                piece@ == s@.subrange(i as int, k as int),
            decreases end - k,
        {
            piece.push(cs[k]);
            k = k + 1;
            proof {
                assert(piece@ =~= s@.subrange(i as int, k as int));
            }
        }
        proof {
            assert(piece@ == line_piece(s@, i0));
        }
        out.push(piece);
        if j >= n {
            i = n;
        } else {
            i = j + 1;
        }
        proof {
            assert forall|t: int| 0 <= t < out.deep_view().len() implies out.deep_view()[t] == (out0
                + seq![line_piece(s@, i0)])[t] by {
                assert(out.deep_view()[t] == out@[t]@);
                if t < out0.len() {
                    assert(out0[t] == out@[t]@);
                }
            }
            assert(out.deep_view() =~~= out0 + seq![line_piece(s@, i0)]);
            assert((out0 + seq![line_piece(s@, i0)]) + lines_from(s@, i as int) =~~= out0 + (seq![
                line_piece(s@, i0),
            ] + lines_from(s@, i as int)));
            if nl_end(s@, i0) >= s@.len() {
                assert(lines_from(s@, i as int) =~~= Seq::<Seq<char>>::empty());
                assert(seq![line_piece(s@, i0)] + lines_from(s@, i as int) =~~= lines_from(
                    s@,
                    i0,
                ));
            }
        }
    }
    proof {
        assert(out.deep_view() + lines_from(s@, i as int) =~~= out.deep_view());
    }
    out
}

} // verus!
