use vstd::prelude::*;
use crate::error::{ErrorV, TextFsmError};
use crate::text::chars_string;

verus! {

/// Spec image of a [`ParseChunk`].
#[verifier::ext_equal]
pub enum ChunkV {
    DollarDollar,
    Variable(Seq<char>),
    Text(Seq<char>),
}

/// A part of a parsed variable-substitution string.
#[derive(Debug, Clone, PartialEq)]
pub enum ParseChunk {
    /// A literal dollar sign, written `$$`.
    DollarDollar,
    /// A variable reference, written `$NAME` or `${NAME}`.
    Variable(String),
    /// Literal text.
    Text(String),
}

impl View for ParseChunk {
    type V = ChunkV;

    open spec fn view(&self) -> ChunkV {
        match self {
            ParseChunk::DollarDollar => ChunkV::DollarDollar,
            ParseChunk::Variable(s) => ChunkV::Variable(s@),
            ParseChunk::Text(s) => ChunkV::Text(s@),
        }
    }
}

/// The spec image of a chunk list.
pub open spec fn chunks_view_of(v: Seq<ParseChunk>) -> Seq<ChunkV>
    decreases v.len(),
{
    if v.len() == 0 {
        Seq::empty()
    } else {
        chunks_view_of(v.drop_last()).push(v.last()@)
    }
}

/// The viewed chunks have the same length and viewed entries.
pub proof fn lemma_chunks_view_of(v: Seq<ParseChunk>)
    ensures
        chunks_view_of(v).len() == v.len(),
        forall|j: int| 0 <= j < v.len() ==> #[trigger] chunks_view_of(v)[j] == v[j]@,
    decreases v.len(),
{
    if v.len() > 0 {
        lemma_chunks_view_of(v.drop_last());
    }
}

/// Whether `c` may occur in a variable name.
pub open spec fn is_ident_char(c: char) -> bool {
    ('a' <= c && c <= 'z') || ('A' <= c && c <= 'Z') || ('0' <= c && c <= '9') || c == '_'
}

/// The first position at or after `i` that is past the end or holds a
/// character that cannot occur in a variable name.
pub open spec fn ident_end(s: Seq<char>, i: int) -> int
    decreases s.len() - i,
{
    if i < 0 || i >= s.len() {
        i
    } else if is_ident_char(s[i]) {
        ident_end(s, i + 1)
    } else {
        i
    }
}

/// Where `ident_end` lands: at or after `i`, within the string or just
/// past it, with name characters before it and none at it.
pub proof fn lemma_ident_end(s: Seq<char>, i: int)
    requires
        0 <= i <= s.len(),
    ensures
        i <= ident_end(s, i) <= s.len(),
        forall|j: int| i <= j < ident_end(s, i) ==> is_ident_char(s[j]),
        ident_end(s, i) < s.len() ==> !is_ident_char(s[ident_end(s, i)]),
    decreases s.len() - i,
{
    if i < s.len() && is_ident_char(s[i]) {
        lemma_ident_end(s, i + 1);
    }
}

/// The first position at or after `i` that is past the end or holds a
/// dollar sign.
pub open spec fn text_end(s: Seq<char>, i: int) -> int
    decreases s.len() - i,
{
    if i < 0 || i >= s.len() {
        i
    } else if s[i] == '$' {
        i
    } else {
        text_end(s, i + 1)
    }
}

/// Where `text_end` lands.
pub proof fn lemma_text_end(s: Seq<char>, i: int)
    requires
        0 <= i <= s.len(),
    ensures
        i <= text_end(s, i) <= s.len(),
        forall|j: int| i <= j < text_end(s, i) ==> s[j] != '$',
        text_end(s, i) < s.len() ==> s[text_end(s, i)] == '$',
    decreases s.len() - i,
{
    if i < s.len() && s[i] != '$' {
        lemma_text_end(s, i + 1);
    }
}

/// The grammar of variable-substitution strings, from position `i` on:
/// `$$` is a literal dollar, `${NAME}` and `$NAME` are references, a
/// trailing lone `$` counts as a literal dollar, a `$` before any other
/// character is plain text, and every other run of characters up to the
/// next `$` is plain text.  `None` is an unclosed or empty `${` form.
pub open spec fn parse_chunks_from(s: Seq<char>, i: int) -> Option<Seq<ChunkV>>
    decreases s.len() - i,
    via parse_chunks_from_decreases
{
    if i < 0 || i >= s.len() {
        Some(Seq::empty())
    } else if s[i] == '$' {
        if i + 1 >= s.len() {
            Some(seq![ChunkV::DollarDollar])
        } else if s[i + 1] == '$' {
            prepend_chunk(ChunkV::DollarDollar, parse_chunks_from(s, i + 2))
        } else if s[i + 1] == '{' {
            let j = ident_end(s, i + 2);
            if j == i + 2 {
                None
            } else if j < s.len() && s[j] == '}' {
                prepend_chunk(ChunkV::Variable(s.subrange(i + 2, j)), parse_chunks_from(s, j + 1))
            } else {
                None
            }
        } else if is_ident_char(s[i + 1]) {
            let j = ident_end(s, i + 1);
            prepend_chunk(ChunkV::Variable(s.subrange(i + 1, j)), parse_chunks_from(s, j))
        } else {
            prepend_chunk(ChunkV::Text(seq!['$']), parse_chunks_from(s, i + 1))
        }
    } else {
        let j = text_end(s, i);
        prepend_chunk(ChunkV::Text(s.subrange(i, j)), parse_chunks_from(s, j))
    }
}

/// `c` in front of each chunk list in `rest`.
pub open spec fn prepend_chunk(c: ChunkV, rest: Option<Seq<ChunkV>>) -> Option<Seq<ChunkV>> {
    match rest {
        Some(r) => Some(seq![c] + r),
        None => None,
    }
}

/// The parse of a whole variable-substitution string.
pub open spec fn parse_chunks(s: Seq<char>) -> Option<Seq<ChunkV>> {
    parse_chunks_from(s, 0)
}

/// The recursion in `parse_chunks_from` always advances.
#[via_fn]
proof fn parse_chunks_from_decreases(s: Seq<char>, i: int) {
    if 0 <= i < s.len() {
        if s[i] == '$' {
            if i + 1 < s.len() {
                if s[i + 1] == '{' {
                    lemma_ident_end(s, i + 2);
                } else if is_ident_char(s[i + 1]) {
                    lemma_ident_end(s, i + 1);
                }
            }
        } else {
            lemma_text_end(s, i);
        }
    }
}

/// A parser for strings containing variable substitutions: `$NAME`,
/// `${NAME}`, and the escaped literal `$$`.
#[derive(Debug)]
pub struct VariableParser;

/// Whether `c` may occur in a variable name.
pub fn ident_char(c: char) -> (r: bool)
    ensures
        r == is_ident_char(c),
{
    ('a' <= c && c <= 'z') || ('A' <= c && c <= 'Z') || ('0' <= c && c <= '9') || c == '_'
}

impl VariableParser {
    /// Parses a string of literal text and `$` substitutions into chunks.
    /// Returns the chunk list that the substitution grammar assigns to the
    /// input, and an error exactly on an unclosed or empty `${` form.
    pub fn parse_dollar_string(input: &str) -> (r: Result<Vec<ParseChunk>, TextFsmError>)
        ensures
            match r {
                Ok(cs) => parse_chunks(input@) == Some(chunks_view_of(cs@)),
                Err(e) => parse_chunks(input@) is None && e@ == ErrorV::ParseError(
                    "unclosed or empty ${ in variable string"@,
                ),
            },
    {
        let s = crate::text::str_chars(input);
        let n = s.len();
        let mut out: Vec<ParseChunk> = Vec::new();
        let mut i: usize = 0;
        while i < n
            invariant
                i <= n,
                n == s.len(),
                s@ == input@,
                parse_chunks(input@) == (match parse_chunks_from(input@, i as int) {
                    Some(rest) => Some(chunks_view_of(out@) + rest),
                    None => None::<Seq<ChunkV>>,
                }),
            decreases n - i,
        {
            let ghost out0 = out@;
            let ghost i0 = i as int;
            if s[i] == '$' {
                if i + 1 >= n {
                    out.push(ParseChunk::DollarDollar);
                    i = i + 1;
                } else if s[i + 1] == '$' {
                    out.push(ParseChunk::DollarDollar);
                    i = i + 2;
                } else if s[i + 1] == '{' {
                    let mut j: usize = i + 2;
                    while j < n && ident_char(s[j])
                        invariant
                            i + 2 <= j <= n,
                            n == s.len(),
                            s@ == input@,
                            forall|k: int| i + 2 <= k < j ==> is_ident_char(input@[k]),
                        decreases n - j,
                    {
                        j = j + 1;
                    }
                    proof {
                        lemma_ident_end(input@, i0 + 2);
                        assert(ident_end(input@, i0 + 2) == j as int);
                    }
                    if j == i + 2 || j >= n || s[j] != '}' {
                        return Err(
                            TextFsmError::ParseError(
                                "unclosed or empty ${ in variable string".to_owned(),
                            ),
                        );
                    }
                    let name = chars_string(&s.as_slice()[i + 2..j]);
                    proof {
                        assert(name@ =~= input@.subrange(i0 + 2, j as int));
                    }
                    out.push(ParseChunk::Variable(name));
                    i = j + 1;
                } else if ident_char(s[i + 1]) {
                    let mut j: usize = i + 1;
                    while j < n && ident_char(s[j])
                        invariant
                            i + 1 <= j <= n,
                            n == s.len(),
                            s@ == input@,
                            forall|k: int| i + 1 <= k < j ==> is_ident_char(input@[k]),
                        decreases n - j,
                    {
                        j = j + 1;
                    }
                    proof {
                        lemma_ident_end(input@, i0 + 1);
                        assert(ident_end(input@, i0 + 1) == j as int);
                    }
                    let name = chars_string(&s.as_slice()[i + 1..j]);
                    proof {
                        assert(name@ =~= input@.subrange(i0 + 1, j as int));
                    }
                    out.push(ParseChunk::Variable(name));
                    i = j;
                } else {
                    out.push(ParseChunk::Text("$".to_owned()));
                    proof {
                        assert("$"@ =~= seq!['$']) by {
                            reveal_strlit("$");
                        }
                    }
                    i = i + 1;
                }
            } else {
                let mut j: usize = i;
                while j < n && s[j] != '$'
                    invariant
                        i <= j <= n,
                        n == s.len(),
                        s@ == input@,
                        forall|k: int| i <= k < j ==> input@[k] != '$',
                    decreases n - j,
                {
                    j = j + 1;
                }
                proof {
                    lemma_text_end(input@, i0);
                    assert(text_end(input@, i0) == j as int);
                }
                let text = chars_string(&s.as_slice()[i..j]);
                proof {
                    assert(text@ =~= input@.subrange(i0, j as int));
                }
                out.push(ParseChunk::Text(text));
                i = j;
            }
            proof {
                lemma_chunks_view_of(out@);
                lemma_chunks_view_of(out0);
                assert(out@.drop_last() =~= out0);
                assert(chunks_view_of(out@) =~~= chunks_view_of(out0).push(out@.last()@));
                match parse_chunks_from(input@, i as int) {
                    Some(rest) => {
                        assert(chunks_view_of(out0) + (seq![out@.last()@] + rest)
                            =~~= chunks_view_of(out@) + rest);
                    },
                    None => {},
                }
            }
        }
        proof {
            assert(chunks_view_of(out@) + Seq::<ChunkV>::empty() =~~= chunks_view_of(out@));
        }
        Ok(out)
    }
}

} // verus!
