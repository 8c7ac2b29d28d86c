use vstd::prelude::*;

verus! {

/// Whether the linear regex engine accepts `pattern`.  Compilation is a
/// function of the pattern text alone.
pub uninterp spec fn classic_compiles(pattern: Seq<char>) -> bool;

/// What the linear engine extracts from `line` under `pattern`: `None`
/// when the pattern matches nowhere in the line; otherwise one entry per
/// name in `names`, read from the last of the successive non-overlapping
/// matches, where a group that took no part is `None`.  Matching is a
/// function of the pattern, the line and the names alone.
pub uninterp spec fn classic_found(
    pattern: Seq<char>,
    line: Seq<char>,
    names: Seq<Seq<char>>,
) -> Option<Seq<Option<Seq<char>>>>;

/// Whether the backtracking regex engine accepts `pattern`.
pub uninterp spec fn fancy_compiles(pattern: Seq<char>) -> bool;

/// What the backtracking engine extracts, as `classic_found`, or `Err`
/// when the engine gives up at run time on this pattern and line.
pub uninterp spec fn fancy_found(
    pattern: Seq<char>,
    line: Seq<char>,
    names: Seq<Seq<char>>,
) -> Result<Option<Seq<Option<Seq<char>>>>, ()>;

/// Whether the backtracking engine finds a match of `pattern` anywhere in
/// `text`, or `Err` when it gives up at run time.
pub uninterp spec fn fancy_match_result(pattern: Seq<char>, text: Seq<char>) -> Result<bool, ()>;

/// How the backtracking engine answers an attempt to compile a pattern.
#[derive(Debug, Clone, PartialEq, Eq, Structural)]
pub enum FancyCompileOutcome {
    /// The pattern compiled.
    Accepted,
    /// A quantifier was applied to a lookaround or another zero-width
    /// item; the position names the offending quantifier.
    NotRepeatable(usize),
    /// Any other rejection, with its description.
    Rejected,
}

/// Relies on `regex::Regex::new`: it accepts or rejects a pattern as a
/// function of the pattern text alone.
#[verifier::external_body]
pub(crate) fn classic_compile_ok(pattern: &str) -> (r: bool)
    ensures
        r == classic_compiles(pattern@),
{
    regex::Regex::new(pattern).is_ok()
}

/// Relies on `regex::Regex::new`, `Regex::captures_iter` and
/// `Captures::name`: walks every match of the pattern over the line and
/// reads the named groups of the last one, a function of pattern, line
/// and names alone.
#[verifier::external_body]
pub(crate) fn classic_find(pattern: &str, line: &str, names: &Vec<String>) -> (r: Option<
    Vec<Option<String>>,
>)
    requires
        classic_compiles(pattern@),
    ensures
        r.deep_view() == classic_found(pattern@, line@, names.deep_view()),
{
    let re = regex::Regex::new(pattern).unwrap();
    let mut out: Option<Vec<Option<String>>> = None;
    for caps in re.captures_iter(line) {
        out = Some(
            names.iter().map(|n| caps.name(n.as_str()).map(|m| m.as_str().to_string())).collect(),
        );
    }
    out
}

/// Relies on `fancy_regex::Regex::new`: sorts a pattern into accepted,
/// rejected for a repeated zero-width item (with the position), or
/// otherwise rejected, as a function of the pattern text alone.
#[verifier::external_body]
pub(crate) fn fancy_compile_check(pattern: &str) -> (r: FancyCompileOutcome)
    ensures
        (r is Accepted) == fancy_compiles(pattern@),
{
    match fancy_regex::Regex::new(pattern) {
        Ok(_) => FancyCompileOutcome::Accepted,
        Err(fancy_regex::Error::ParseError(pos, fancy_regex::ParseError::TargetNotRepeatable)) => {
            FancyCompileOutcome::NotRepeatable(pos)
        },
        Err(_) => FancyCompileOutcome::Rejected,
    }
}

/// Relies on `fancy_regex::Regex::new`, `Regex::captures_iter` and
/// `Captures::name`: walks every match of the pattern over the line and
/// reads the named groups of the last one; an `Err` item from the engine
/// surfaces as `Err` at once, since the iterator never advances past an
/// error.  A function of pattern, line and names alone.
#[verifier::external_body]
pub(crate) fn fancy_find(pattern: &str, line: &str, names: &Vec<String>) -> (r: Result<
    Option<Vec<Option<String>>>,
    (),
>)
    requires
        fancy_compiles(pattern@),
    ensures
        match r {
            Ok(o) => fancy_found(pattern@, line@, names.deep_view()) == Ok::<
                Option<Seq<Option<Seq<char>>>>,
                (),
            >(o.deep_view()),
            Err(_) => fancy_found(pattern@, line@, names.deep_view()) is Err,
        },
{
    let re = fancy_regex::Regex::new(pattern).unwrap();
    let mut out: Option<Vec<Option<String>>> = None;
    for caps in re.captures_iter(line) {
        let c = caps.map_err(|_| ())?;
        out = Some(
            names.iter().map(|n| c.name(n.as_str()).map(|m| m.as_str().to_string())).collect(),
        );
    }
    Ok(out)
}

/// Relies on `fancy_regex::Regex::new` and `Regex::is_match`: whether the
/// pattern matches anywhere in the text, or `Err` when the engine gives
/// up at run time.  A function of pattern and text alone.
#[verifier::external_body]
pub(crate) fn fancy_is_match(pattern: &str, text: &str) -> (r: Result<bool, ()>)
    requires
        fancy_compiles(pattern@),
    ensures
        r == fancy_match_result(pattern@, text@),
{
    let re = fancy_regex::Regex::new(pattern).unwrap();
    re.is_match(text).map_err(|_| ())
}

} // verus!
