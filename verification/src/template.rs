use vstd::prelude::*;
use crate::error::{ErrorV, TextFsmError};
use crate::text::{
    chars_string, find_nonws, find_trim_end, is_ws, lemma_trim_end_at, lemma_ws_end, trim_end_at,
    ws_end,
};
use crate::varsubst::{ident_char, is_ident_char};
use vstd::string::StringExecFns;

verus! {

/// Spec image of a [`NextState`].
#[verifier::ext_equal]
pub enum NextStateV {
    Error(Option<Seq<char>>),
    NamedState(Seq<char>),
}

/// Where a rule sends the machine next: a named state, or the error
/// transition with an optional message.
#[derive(Debug, PartialEq)]
pub enum NextState {
    Error(Option<String>),
    NamedState(String),
}

impl View for NextState {
    type V = NextStateV;

    open spec fn view(&self) -> NextStateV {
        match self {
            NextState::Error(m) => NextStateV::Error(
                match m {
                    Some(t) => Some(t@),
                    None => None,
                },
            ),
            NextState::NamedState(n) => NextStateV::NamedState(n@),
        }
    }
}

/// Spec image of a [`LineAction`].
#[verifier::ext_equal]
pub enum LineActionV {
    Continue,
    Next(Option<NextStateV>),
}

/// What happens to the input line when a rule matches: `Continue` keeps
/// the line and goes on to the next rule; `Next` consumes it, optionally
/// changing state.
#[derive(Debug, PartialEq)]
pub enum LineAction {
    Continue,
    Next(Option<NextState>),
}

impl View for LineAction {
    type V = LineActionV;

    open spec fn view(&self) -> LineActionV {
        match self {
            LineAction::Continue => LineActionV::Continue,
            LineAction::Next(n) => LineActionV::Next(
                match n {
                    Some(ns) => Some(ns@),
                    None => None,
                },
            ),
        }
    }
}

impl Default for LineAction {
    /// The default line action consumes the line and stays in the state.
    fn default() -> (r: LineAction)
        ensures
            r@ == LineActionV::Next(None::<NextStateV>),
    {
        LineAction::Next(None)
    }
}

/// What happens to the record buffers when a rule matches.
#[derive(Debug, Clone, Copy, PartialEq, Eq, Structural)]
pub enum RecordAction {
    NoRecord,
    Record,
    Clear,
    Clearall,
}

impl Default for RecordAction {
    /// The default record action leaves the buffers alone.
    fn default() -> (r: RecordAction)
        ensures
            r == RecordAction::NoRecord,
    {
        RecordAction::NoRecord
    }
}

/// Spec image of a [`RuleTransition`].
#[verifier::ext_equal]
pub struct RuleTransitionV {
    pub line_action: LineActionV,
    pub record_action: RecordAction,
}

/// The pair of actions a rule carries.
#[derive(Debug, PartialEq)]
pub struct RuleTransition {
    pub line_action: LineAction,
    pub record_action: RecordAction,
}

impl View for RuleTransition {
    type V = RuleTransitionV;

    open spec fn view(&self) -> RuleTransitionV {
        RuleTransitionV { line_action: self.line_action@, record_action: self.record_action }
    }
}

impl Clone for NextState {
    /// A clone names the same target.
    fn clone(&self) -> (r: NextState)
        ensures
            r@ == self@,
    {
        match self {
            NextState::Error(m) => NextState::Error(
                match m {
                    Some(t) => Some(t.clone()),
                    None => None,
                },
            ),
            NextState::NamedState(n) => NextState::NamedState(n.clone()),
        }
    }
}

impl Clone for LineAction {
    /// A clone carries the same action.
    fn clone(&self) -> (r: LineAction)
        ensures
            r@ == self@,
    {
        match self {
            LineAction::Continue => LineAction::Continue,
            LineAction::Next(n) => LineAction::Next(
                match n {
                    Some(ns) => Some(ns.clone()),
                    None => None,
                },
            ),
        }
    }
}

impl Clone for RuleTransition {
    /// A clone carries the same actions.
    fn clone(&self) -> (r: RuleTransition)
        ensures
            r@ == self@,
    {
        RuleTransition { line_action: self.line_action.clone(), record_action: self.record_action }
    }
}

impl Default for RuleTransition {
    /// The default transition consumes the line and records nothing.
    fn default() -> (r: RuleTransition)
        ensures
            r@.line_action == LineActionV::Next(None::<NextStateV>),
            r@.record_action == RecordAction::NoRecord,
    {
        RuleTransition { line_action: LineAction::Next(None), record_action: RecordAction::NoRecord }
    }
}

/// Spec image of a [`StateRule`].
#[verifier::ext_equal]
pub struct StateRuleV {
    pub rule_match: Seq<char>,
    pub transition: RuleTransitionV,
}

/// One rule of a state, before regex compilation: the pattern text as
/// written and the transition.
#[derive(Debug, Clone, PartialEq)]
pub struct StateRule {
    pub rule_match: String,
    pub transition: RuleTransition,
}

impl View for StateRule {
    type V = StateRuleV;

    open spec fn view(&self) -> StateRuleV {
        StateRuleV { rule_match: self.rule_match@, transition: self.transition@ }
    }
}

/// Spec image of a [`ValueDefinition`].
#[verifier::ext_equal]
pub struct ValueDefV {
    pub name: Seq<char>,
    pub regex_pattern: Seq<char>,
    pub is_filldown: bool,
    pub is_key: bool,
    pub is_required: bool,
    pub is_list: bool,
    pub is_fillup: bool,
    pub options: Option<Seq<char>>,
}

/// A declared value: its name, its parenthesized capture pattern as
/// written, and its options.
#[derive(Debug, Clone, PartialEq)]
pub struct ValueDefinition {
    pub name: String,
    pub regex_pattern: String,
    pub is_filldown: bool,
    pub is_key: bool,
    pub is_required: bool,
    pub is_list: bool,
    pub is_fillup: bool,
    pub options: Option<String>,
}

impl View for ValueDefinition {
    type V = ValueDefV;

    open spec fn view(&self) -> ValueDefV {
        ValueDefV {
            name: self.name@,
            regex_pattern: self.regex_pattern@,
            is_filldown: self.is_filldown,
            is_key: self.is_key,
            is_required: self.is_required,
            is_list: self.is_list,
            is_fillup: self.is_fillup,
            options: match self.options {
                Some(o) => Some(o@),
                None => None,
            },
        }
    }
}

/// Whether `p` is a prefix of `s`.
pub open spec fn has_prefix(s: Seq<char>, p: Seq<char>) -> bool {
    s.len() >= p.len() && s.subrange(0, p.len() as int) == p
}

/// Whether the characters of `s` from `i` to `j` equal `p`.
pub open spec fn has_at(s: Seq<char>, i: int, p: Seq<char>) -> bool {
    0 <= i && i + p.len() <= s.len() && s.subrange(i, i + p.len()) == p
}

/// Whether every character of `s` may occur in an identifier.
pub open spec fn all_ident(s: Seq<char>) -> bool {
    forall|j: int| 0 <= j < s.len() ==> is_ident_char(s[j])
}

/// The first position at or after `i` that is past the end or holds a
/// space or tab.
pub open spec fn tok_end(s: Seq<char>, i: int) -> int
    decreases s.len() - i,
{
    if i < 0 || i >= s.len() {
        i
    } else if is_ws(s[i]) {
        i
    } else {
        tok_end(s, i + 1)
    }
}

/// Where `tok_end` lands.
pub proof fn lemma_tok_end(s: Seq<char>, i: int)
    requires
        0 <= i <= s.len(),
    ensures
        i <= tok_end(s, i) <= s.len(),
        forall|j: int| i <= j < tok_end(s, i) ==> !is_ws(s[j]),
        tok_end(s, i) < s.len() ==> is_ws(s[tok_end(s, i)]),
    decreases s.len() - i,
{
    if i < s.len() && !is_ws(s[i]) {
        lemma_tok_end(s, i + 1);
    }
}

/// Whether a prefix of `s` equals the view of `p`.
pub fn slice_has_prefix(s: &[char], p: &str) -> (r: bool)
    ensures
        r == has_prefix(s@, p@),
{
    let pc = crate::text::str_chars(p);
    if s.len() < pc.len() {
        proof {
            assert(!has_prefix(s@, p@));
        }
        return false;
    }
    let mut i: usize = 0;
    while i < pc.len()
        invariant
            i <= pc.len(),
            pc.len() <= s@.len(),
            pc@ == p@,
            forall|j: int| 0 <= j < i ==> s@[j] == p@[j],
        decreases pc.len() - i,
    {
        if s[i] != pc[i] {
            proof {
                assert(!has_prefix(s@, p@)) by {
                    if has_prefix(s@, p@) {
                        assert(s@.subrange(0, p@.len() as int)[i as int] == p@[i as int]);
                    }
                }
            }
            return false;
        }
        i = i + 1;
    }
    proof {
        assert(s@.subrange(0, p@.len() as int) =~= p@);
    }
    true
}

/// Whether the characters of `s` from `i` to `i + |p|` equal the view of
/// `p`.
pub fn slice_has_at(s: &[char], i: usize, p: &str) -> (r: bool)
    requires
        i <= s@.len(),
    ensures
        r == has_at(s@, i as int, p@),
{
    let pc = crate::text::str_chars(p);
    if s.len() - i < pc.len() {
        proof {
            assert(!has_at(s@, i as int, p@));
        }
        return false;
    }
    let mut k: usize = 0;
    while k < pc.len()
        invariant
            k <= pc.len(),
            i + pc.len() <= s@.len(),
            i <= s@.len(),
            s@.len() == s.len(),
            pc@ == p@,
            forall|j: int| 0 <= j < k ==> s@[i + j] == p@[j],
        decreases pc.len() - k,
    {
        if s[i + k] != pc[k] {
            proof {
                assert(!has_at(s@, i as int, p@)) by {
                    if has_at(s@, i as int, p@) {
                        assert(s@.subrange(i as int, i + p@.len())[k as int] == p@[k as int]);
                    }
                }
            }
            return false;
        }
        k = k + 1;
    }
    proof {
        assert(s@.subrange(i as int, i + p@.len()) =~= p@);
    }
    true
}

/// Whether every character of `s` may occur in an identifier.
pub fn slice_all_ident(s: &[char]) -> (r: bool)
    ensures
        r == all_ident(s@),
{
    let mut i: usize = 0;
    while i < s.len()
        invariant
            i <= s@.len(),
            forall|j: int| 0 <= j < i ==> is_ident_char(s@[j]),
        decreases s.len() - i,
    {
        if !ident_char(s[i]) {
            return false;
        }
        i = i + 1;
    }
    true
}

/// The position of the first space or tab at or after `i`, one past the
/// end when there is none.
pub fn find_tok_end(s: &[char], i: usize) -> (r: usize)
    requires
        i <= s@.len(),
    ensures
        r == tok_end(s@, i as int),
{
    let mut j: usize = i;
    while j < s.len() && !(s[j] == ' ' || s[j] == '\t')
        invariant
            i <= j <= s@.len(),
            forall|k: int| i <= k < j ==> !is_ws(s@[k]),
        decreases s.len() - j,
    {
        j = j + 1;
    }
    proof {
        lemma_tok_end(s@, i as int);
        assert(tok_end(s@, i as int) == j as int);
    }
    j
}

/// The position of the first non-space, non-tab character at or after
/// `i`.
pub fn find_ws_end(s: &[char], i: usize) -> (r: usize)
    requires
        i <= s@.len(),
    ensures
        r == ws_end(s@, i as int),
{
    let mut j: usize = i;
    while j < s.len() && (s[j] == ' ' || s[j] == '\t')
        invariant
            i <= j <= s@.len(),
            forall|k: int| i <= k < j ==> is_ws(s@[k]),
        decreases s.len() - j,
    {
        j = j + 1;
    }
    proof {
        lemma_ws_end(s@, i as int);
        assert(ws_end(s@, i as int) == j as int);
    }
    j
}

/// The text with every escaped angle bracket `\<` or `\>` replaced by the
/// plain bracket, in one left-to-right pass.
pub open spec fn rewrite_angles(s: Seq<char>) -> Seq<char>
    decreases s.len(),
{
    if s.len() == 0 {
        Seq::empty()
    } else if s.len() >= 2 && s[0] == '\\' && (s[1] == '<' || s[1] == '>') {
        seq![s[1]] + rewrite_angles(s.skip(2))
    } else {
        seq![s[0]] + rewrite_angles(s.skip(1))
    }
}

/// The first position at or after `i` that is past the end or holds a
/// comma.
pub open spec fn comma_end(s: Seq<char>, i: int) -> int
    decreases s.len() - i,
{
    if i < 0 || i >= s.len() {
        i
    } else if s[i] == ',' {
        i
    } else {
        comma_end(s, i + 1)
    }
}

/// Where `comma_end` lands.
pub proof fn lemma_comma_end(s: Seq<char>, i: int)
    requires
        0 <= i <= s.len(),
    ensures
        i <= comma_end(s, i) <= s.len(),
        forall|j: int| i <= j < comma_end(s, i) ==> s[j] != ',',
        comma_end(s, i) < s.len() ==> s[comma_end(s, i)] == ',',
    decreases s.len() - i,
{
    if i < s.len() && s[i] != ',' {
        lemma_comma_end(s, i + 1);
    }
}

/// The five value options, as one record of flags: filldown, key,
/// required, list, fillup.
pub type OptionFlags = (bool, bool, bool, bool, bool);

/// The flags with one option word applied, or `None` for an unknown
/// word.
pub open spec fn apply_option(w: Seq<char>, f: OptionFlags) -> Option<OptionFlags> {
    if w == "Filldown"@ {
        Some((true, f.1, f.2, f.3, f.4))
    } else if w == "Key"@ {
        Some((f.0, true, f.2, f.3, f.4))
    } else if w == "Required"@ {
        Some((f.0, f.1, true, f.3, f.4))
    } else if w == "List"@ {
        Some((f.0, f.1, f.2, true, f.4))
    } else if w == "Fillup"@ {
        Some((f.0, f.1, f.2, f.3, true))
    } else {
        None
    }
}

/// The comma-separated option words of `o` from `i` on, folded over the
/// flags; an unknown word is handed back as the error.
pub open spec fn parse_options_from(o: Seq<char>, i: int, f: OptionFlags) -> Result<
    OptionFlags,
    Seq<char>,
>
    decreases o.len() - i,
    via parse_options_from_decreases
{
    if i < 0 || i > o.len() {
        Ok(f)
    } else {
        let j = comma_end(o, i);
        let w = o.subrange(i, j);
        match apply_option(w, f) {
            None => Err(w),
            Some(f2) => {
                if j >= o.len() {
                    Ok(f2)
                } else {
                    parse_options_from(o, j + 1, f2)
                }
            },
        }
    }
}

/// The recursion in `parse_options_from` always advances.
#[via_fn]
proof fn parse_options_from_decreases(o: Seq<char>, i: int, f: OptionFlags) {
    if 0 <= i <= o.len() {
        lemma_comma_end(o, i);
    }
}

/// The flags named by a comma-separated option string.
pub open spec fn parse_options(o: Seq<char>) -> Result<OptionFlags, Seq<char>> {
    parse_options_from(o, 0, (false, false, false, false, false))
}

/// The malformed-value-line error for `line`.
pub open spec fn bad_value_line(line: Seq<char>) -> ErrorV {
    ErrorV::ParseError("bad value line: '"@ + line + "'"@)
}

/// The unknown-option error for word `w`.
pub open spec fn unknown_option_err(w: Seq<char>) -> ErrorV {
    ErrorV::ParseError("unknown option '"@ + w + "'"@)
}

/// A value definition assembled from its parsed parts, once the name and
/// pattern have been checked.
pub open spec fn make_value_def(
    options: Option<Seq<char>>,
    f: OptionFlags,
    name: Seq<char>,
    regex: Seq<char>,
) -> ValueDefV {
    ValueDefV {
        name: name,
        regex_pattern: rewrite_angles(regex),
        is_filldown: f.0,
        is_key: f.1,
        is_required: f.2,
        is_list: f.3,
        is_fillup: f.4,
        options: options,
    }
}

/// The parse of one `Value` line: the keyword, an optional comma-joined
/// option word, the name, and a parenthesized pattern reaching to the end
/// of the line.  Escaped angle brackets in the pattern are rewritten to
/// plain ones.
pub open spec fn parse_value_line_spec(line: Seq<char>) -> Result<ValueDefV, ErrorV> {
    if !has_prefix(line, "Value"@) {
        Err(bad_value_line(line))
    } else {
        let p1 = ws_end(line, "Value"@.len() as int);
        if p1 == "Value"@.len() {
            Err(bad_value_line(line))
        } else {
            let t1e = tok_end(line, p1);
            let tok1 = line.subrange(p1, t1e);
            let p2 = ws_end(line, t1e);
            let te = trim_end_at(line, line.len() as int);
            if t1e == p1 || p2 >= line.len() {
                Err(bad_value_line(line))
            } else if line[p2] == '(' {
                check_value_def(None, (false, false, false, false, false), tok1, line, p2)
            } else {
                let t2e = tok_end(line, p2);
                let tok2 = line.subrange(p2, t2e);
                let p3 = ws_end(line, t2e);
                if t2e == p2 || p3 >= line.len() || line[p3] != '(' {
                    Err(bad_value_line(line))
                } else {
                    match parse_options(tok1) {
                        Err(w) => Err(unknown_option_err(w)),
                        Ok(f) => check_value_def(Some(tok1), f, tok2, line, p3),
                    }
                }
            }
        }
    }
}

/// The name and pattern checks shared by both value-line forms; `lo` is
/// where the parenthesized pattern starts, and it reaches to the end of
/// the line with trailing blanks dropped.
pub open spec fn check_value_def(
    options: Option<Seq<char>>,
    f: OptionFlags,
    name: Seq<char>,
    line: Seq<char>,
    lo: int,
) -> Result<ValueDefV, ErrorV> {
    let te = trim_end_at(line, line.len() as int);
    if name.len() == 0 || !all_ident(name) {
        Err(bad_value_line(line))
    } else if te < lo + 2 || line[te - 1] != ')' {
        Err(bad_value_line(line))
    } else {
        Ok(make_value_def(options, f, name, line.subrange(lo, te)))
    }
}

/// Applies `rewrite_angles` to a character slice.
pub fn do_rewrite_angles(s: &[char]) -> (r: Vec<char>)
    ensures
        r@ == rewrite_angles(s@),
{
    let mut out: Vec<char> = Vec::new();
    let mut i: usize = 0;
    proof {
        assert(s@.skip(0) =~= s@);
        assert(out@ + rewrite_angles(s@) =~= rewrite_angles(s@));
    }
    while i < s.len()
        invariant
            i <= s@.len(),
            rewrite_angles(s@) == out@ + rewrite_angles(s@.skip(i as int)),
        decreases s.len() - i,
    {
        let ghost tail0 = s@.skip(i as int);
        if i + 1 < s.len() && s[i] == '\\' && (s[i + 1] == '<' || s[i + 1] == '>') {
            out.push(s[i + 1]);
            i = i + 2;
            proof {
                assert(tail0[0] == s@[i - 2]);
                assert(tail0[1] == s@[i - 1]);
                assert(tail0.skip(2) =~= s@.skip(i as int));
                assert(out@ + rewrite_angles(s@.skip(i as int)) =~= rewrite_angles(s@));
            }
        } else {
            out.push(s[i]);
            i = i + 1;
            proof {
                assert(tail0[0] == s@[i - 1]);
                assert(tail0.skip(1) =~= s@.skip(i as int));
                if tail0.len() >= 2 && tail0[0] == '\\' && (tail0[1] == '<' || tail0[1] == '>') {
                    assert(false);
                }
                assert(out@ + rewrite_angles(s@.skip(i as int)) =~= rewrite_angles(s@));
            }
        }
    }
    proof {
        assert(s@.skip(s@.len() as int) =~= Seq::<char>::empty());
        assert(out@ + rewrite_angles(s@.skip(s@.len() as int)) =~= out@);
    }
    out
}

/// The first position at or after `i` that is past the end or holds a
/// dot.
pub open spec fn dot_end(s: Seq<char>, i: int) -> int
    decreases s.len() - i,
{
    if i < 0 || i >= s.len() {
        i
    } else if s[i] == '.' {
        i
    } else {
        dot_end(s, i + 1)
    }
}

/// Where `dot_end` lands.
pub proof fn lemma_dot_end(s: Seq<char>, i: int)
    requires
        0 <= i <= s.len(),
    ensures
        i <= dot_end(s, i) <= s.len(),
        forall|j: int| i <= j < dot_end(s, i) ==> s[j] != '.',
        dot_end(s, i) < s.len() ==> s[dot_end(s, i)] == '.',
    decreases s.len() - i,
{
    if i < s.len() && s[i] != '.' {
        lemma_dot_end(s, i + 1);
    }
}

/// The record action named by a word, if any.
pub open spec fn rec_action_of(w: Seq<char>) -> Option<RecordAction> {
    if w == "Record"@ {
        Some(RecordAction::Record)
    } else if w == "NoRecord"@ {
        Some(RecordAction::NoRecord)
    } else if w == "Clear"@ {
        Some(RecordAction::Clear)
    } else if w == "Clearall"@ {
        Some(RecordAction::Clearall)
    } else {
        None
    }
}

/// The line action named by a word, if any.
pub open spec fn line_action_of(w: Seq<char>) -> Option<LineActionV> {
    if w == "Continue"@ {
        Some(LineActionV::Continue)
    } else if w == "Next"@ {
        Some(LineActionV::Next(None))
    } else {
        None
    }
}

/// The malformed-transition error for `t`.
pub open spec fn bad_transition(t: Seq<char>) -> ErrorV {
    ErrorV::ParseError("bad transition: '"@ + t + "'"@)
}

/// The error for a `Continue` paired with a transition target.
pub open spec fn continue_next_err() -> ErrorV {
    ErrorV::ParseError("line action Continue does not support a next state"@)
}

/// The state part of a transition, from `sp` on: empty, `Error` with an
/// optional quoted message reaching the end, or a state name.  `Continue`
/// may carry no target.
pub open spec fn finish_transition(
    t: Seq<char>,
    la: LineActionV,
    ra: RecordAction,
    sp: int,
) -> Result<RuleTransitionV, ErrorV> {
    if sp >= t.len() {
        Ok(RuleTransitionV { line_action: la, record_action: ra })
    } else {
        let se = tok_end(t, sp);
        let stok = t.subrange(sp, se);
        if stok == "Error"@ {
            if la is Continue {
                Err(continue_next_err())
            } else {
                let mp = ws_end(t, se);
                if mp >= t.len() {
                    Ok(
                        RuleTransitionV {
                            line_action: LineActionV::Next(Some(NextStateV::Error(None))),
                            record_action: ra,
                        },
                    )
                } else if t[mp] == '"' && t.len() >= mp + 2 && t.last() == '"' {
                    Ok(
                        RuleTransitionV {
                            line_action: LineActionV::Next(
                                Some(NextStateV::Error(Some(t.subrange(mp + 1, t.len() - 1)))),
                            ),
                            record_action: ra,
                        },
                    )
                } else {
                    Err(bad_transition(t))
                }
            }
        } else if se == t.len() && stok.len() > 0 && all_ident(stok) {
            if la is Continue {
                Err(continue_next_err())
            } else {
                Ok(
                    RuleTransitionV {
                        line_action: LineActionV::Next(Some(NextStateV::NamedState(stok))),
                        record_action: ra,
                    },
                )
            }
        } else {
            Err(bad_transition(t))
        }
    }
}

/// The parse of a transition text (already trimmed of outer blanks): an
/// optional action word, either a record action, a line action, or a line
/// action joined to a record action by a dot, then an optional target.
pub open spec fn parse_transition_spec(t: Seq<char>) -> Result<RuleTransitionV, ErrorV> {
    if t.len() == 0 {
        Err(bad_transition(t))
    } else {
        let he = tok_end(t, 0);
        let hd = dot_end(t, 0);
        if hd < he {
            let law = line_action_of(t.subrange(0, hd));
            let raw = rec_action_of(t.subrange(hd + 1, he));
            if law is Some && raw is Some {
                finish_transition(t, law->0, raw->0, ws_end(t, he))
            } else {
                Err(bad_transition(t))
            }
        } else {
            let head = t.subrange(0, he);
            if rec_action_of(head) is Some {
                finish_transition(t, LineActionV::Next(None), rec_action_of(head)->0, ws_end(t, he))
            } else if line_action_of(head) is Some {
                finish_transition(t, line_action_of(head)->0, RecordAction::NoRecord, ws_end(t, he))
            } else {
                finish_transition(t, LineActionV::Next(None), RecordAction::NoRecord, 0)
            }
        }
    }
}

/// The position of the last ` -> ` at or after `lo` and ending by `hi`,
/// if any.
pub open spec fn last_arrow_from(s: Seq<char>, lo: int, hi: int) -> Option<int>
    decreases hi - lo,
{
    if lo < 0 || hi < lo + 4 {
        None
    } else if has_at(s, hi - 4, " -> "@) {
        Some(hi - 4)
    } else {
        last_arrow_from(s, lo, hi - 1)
    }
}

/// The malformed-rule-line error for `line`.
pub open spec fn bad_rule_line(line: Seq<char>) -> ErrorV {
    ErrorV::ParseError("bad rule line: '"@ + line + "'"@)
}

/// The parse of one indented rule line: a pattern beginning with `^`,
/// optionally followed by ` -> ` and a transition.  Without a transition
/// the pattern loses its trailing blanks; escaped angle brackets are
/// rewritten to plain ones either way.
pub open spec fn parse_rule_line_spec(line: Seq<char>) -> Result<StateRuleV, ErrorV> {
    let i0 = ws_end(line, 0);
    if i0 >= line.len() || line[i0] != '^' {
        Err(bad_rule_line(line))
    } else {
        match last_arrow_from(line, i0, line.len() as int) {
            None => Ok(
                StateRuleV {
                    rule_match: rewrite_angles(
                        line.subrange(i0, trim_end_at(line, line.len() as int)),
                    ),
                    transition: RuleTransitionV {
                        line_action: LineActionV::Next(None),
                        record_action: RecordAction::NoRecord,
                    },
                },
            ),
            Some(j) => {
                let ts = ws_end(line, j + 4);
                let te = trim_end_at(line, line.len() as int);
                let t = if ts < te {
                    line.subrange(ts, te)
                } else {
                    Seq::<char>::empty()
                };
                match parse_transition_spec(t) {
                    Ok(tr) => Ok(
                        StateRuleV {
                            rule_match: rewrite_angles(line.subrange(i0, j)),
                            transition: tr,
                        },
                    ),
                    Err(e) => Err(e),
                }
            },
        }
    }
}

/// Whether the characters of `s` from `i` to `j` equal the view of `w`.
pub fn token_is(s: &[char], i: usize, j: usize, w: &str) -> (r: bool)
    requires
        i <= j <= s@.len(),
    ensures
        r == (s@.subrange(i as int, j as int) == w@),
{
    let wc = crate::text::str_chars(w);
    if j - i != wc.len() {
        proof {
            assert(s@.subrange(i as int, j as int).len() != w@.len());
        }
        return false;
    }
    let mut k: usize = 0;
    while k < wc.len()
        invariant
            k <= wc.len(),
            i + wc.len() == j,
            j <= s@.len(),
            wc@ == w@,
            forall|t: int| 0 <= t < k ==> s@[i + t] == w@[t],
        decreases wc.len() - k,
    {
        if s[i + k] != wc[k] {
            proof {
                assert(s@.subrange(i as int, j as int) != w@) by {
                    if s@.subrange(i as int, j as int) == w@ {
                        assert(s@.subrange(i as int, j as int)[k as int] == w@[k as int]);
                    }
                }
            }
            return false;
        }
        k = k + 1;
    }
    proof {
        assert(s@.subrange(i as int, j as int) =~= w@);
    }
    true
}

/// A message assembled from a prefix, a middle text and a suffix.
pub fn wrap_msg(pre: &str, mid: &[char], suf: &str) -> (r: String)
    ensures
        r@ == pre@ + mid@ + suf@,
{
    let mut m = String::from_str(pre);
    let mid_s = chars_string(mid);
    m.append(mid_s.as_str());
    m.append(suf);
    m
}

/// The position of the first comma at or after `i`, one past the end
/// when there is none.
pub fn find_comma_end(s: &[char], i: usize) -> (r: usize)
    requires
        i <= s@.len(),
    ensures
        r == comma_end(s@, i as int),
{
    let mut j: usize = i;
    while j < s.len() && s[j] != ','
        invariant
            i <= j <= s@.len(),
            forall|k: int| i <= k < j ==> s@[k] != ',',
        decreases s.len() - j,
    {
        j = j + 1;
    }
    proof {
        lemma_comma_end(s@, i as int);
        assert(comma_end(s@, i as int) == j as int);
    }
    j
}

/// The position of the first dot at or after `i`, one past the end when
/// there is none.
pub fn find_dot_end(s: &[char], i: usize) -> (r: usize)
    requires
        i <= s@.len(),
    ensures
        r == dot_end(s@, i as int),
{
    let mut j: usize = i;
    while j < s.len() && s[j] != '.'
        invariant
            i <= j <= s@.len(),
            forall|k: int| i <= k < j ==> s@[k] != '.',
        decreases s.len() - j,
    {
        j = j + 1;
    }
    proof {
        lemma_dot_end(s@, i as int);
        assert(dot_end(s@, i as int) == j as int);
    }
    j
}

/// The comma-separated option flags of `o`, or the unknown word.
fn parse_options_exec(o: &[char]) -> (r: Result<OptionFlags, String>)
    ensures
        match r {
            Ok(f) => parse_options(o@) == Ok::<OptionFlags, Seq<char>>(f),
            Err(w) => parse_options(o@) == Err::<OptionFlags, Seq<char>>(w@),
        },
{
    let mut f = (false, false, false, false, false);
    let mut i: usize = 0;
    loop
        invariant
            i <= o@.len(),
            parse_options(o@) == parse_options_from(o@, i as int, f),
        decreases o@.len() - i,
    {
        let j = find_comma_end(o, i);
        proof {
            lemma_comma_end(o@, i as int);
        }
        let nf = if token_is(o, i, j, "Filldown") {
            Some((true, f.1, f.2, f.3, f.4))
        } else if token_is(o, i, j, "Key") {
            Some((f.0, true, f.2, f.3, f.4))
        } else if token_is(o, i, j, "Required") {
            Some((f.0, f.1, true, f.3, f.4))
        } else if token_is(o, i, j, "List") {
            Some((f.0, f.1, f.2, true, f.4))
        } else if token_is(o, i, j, "Fillup") {
            Some((f.0, f.1, f.2, f.3, true))
        } else {
            None
        };
        match nf {
            None => {
                return Err(chars_string(&o[i..j]));
            },
            Some(f2) => {
                if j >= o.len() {
                    return Ok(f2);
                }
                f = f2;
                i = j + 1;
            },
        }
    }
}

/// Parses one `Value` line into a value definition.
pub fn parse_value_line(line: &[char]) -> (r: Result<ValueDefinition, TextFsmError>)
    ensures
        match r {
            Ok(v) => parse_value_line_spec(line@) == Ok::<ValueDefV, ErrorV>(v@),
            Err(e) => parse_value_line_spec(line@) == Err::<ValueDefV, ErrorV>(e@),
        },
{
    if !slice_has_prefix(line, "Value") {
        return Err(TextFsmError::ParseError(wrap_msg("bad value line: '", line, "'")));
    }
    proof {
        assert("Value"@.len() == 5) by {
            reveal_strlit("Value");
        }
        lemma_ws_end(line@, 5);
    }
    let p1 = find_ws_end(line, 5);
    if p1 == 5 {
        return Err(TextFsmError::ParseError(wrap_msg("bad value line: '", line, "'")));
    }
    proof {
        lemma_tok_end(line@, p1 as int);
    }
    let t1e = find_tok_end(line, p1);
    proof {
        lemma_ws_end(line@, t1e as int);
        lemma_trim_end_at(line@, line@.len() as int);
    }
    let p2 = find_ws_end(line, t1e);
    let te = find_trim_end(line);
    if t1e == p1 || p2 >= line.len() {
        return Err(TextFsmError::ParseError(wrap_msg("bad value line: '", line, "'")));
    }
    if line[p2] == '(' {
        build_value_def(line, None, (false, false, false, false, false), p1, t1e, p2, te)
    } else {
        proof {
            lemma_tok_end(line@, p2 as int);
        }
        let t2e = find_tok_end(line, p2);
        proof {
            lemma_ws_end(line@, t2e as int);
        }
        let p3 = find_ws_end(line, t2e);
        if t2e == p2 || p3 >= line.len() || line[p3] != '(' {
            return Err(TextFsmError::ParseError(wrap_msg("bad value line: '", line, "'")));
        }
        match parse_options_exec(&line[p1..t1e]) {
            Err(w) => {
                let wc = crate::text::str_chars(w.as_str());
                Err(TextFsmError::ParseError(wrap_msg("unknown option '", wc.as_slice(), "'")))
            },
            Ok(f) => {
                let opts = chars_string(&line[p1..t1e]);
                build_value_def(line, Some(opts), f, p2, t2e, p3, te)
            },
        }
    }
}

/// Builds the value definition once the name span and pattern start are
/// known.
fn build_value_def(
    line: &[char],
    options: Option<String>,
    f: OptionFlags,
    name_lo: usize,
    name_hi: usize,
    re_lo: usize,
    te: usize,
) -> (r: Result<ValueDefinition, TextFsmError>)
    requires
        name_lo <= name_hi <= line@.len(),
        re_lo < line@.len(),
        te == trim_end_at(line@, line@.len() as int),
        te <= line@.len(),
        match options {
            Some(o) => check_value_def(
                Some(o@),
                f,
                line@.subrange(name_lo as int, name_hi as int),
                line@,
                re_lo as int,
            ) == parse_value_line_spec(line@),
            None => check_value_def(
                None,
                f,
                line@.subrange(name_lo as int, name_hi as int),
                line@,
                re_lo as int,
            ) == parse_value_line_spec(line@),
        },
    ensures
        match r {
            Ok(v) => parse_value_line_spec(line@) == Ok::<ValueDefV, ErrorV>(v@),
            Err(e) => parse_value_line_spec(line@) == Err::<ValueDefV, ErrorV>(e@),
        },
{
    let name_ok = name_hi > name_lo && slice_all_ident(&line[name_lo..name_hi]);
    proof {
        assert((&line@.subrange(name_lo as int, name_hi as int)).len() == name_hi - name_lo);
    }
    if !name_ok {
        return Err(TextFsmError::ParseError(wrap_msg("bad value line: '", line, "'")));
    }
    let too_short = te < re_lo || te - re_lo < 2;
    if too_short || line[te - 1] != ')' {
        return Err(TextFsmError::ParseError(wrap_msg("bad value line: '", line, "'")));
    }
    let name = chars_string(&line[name_lo..name_hi]);
    let re_raw = do_rewrite_angles(&line[re_lo..te]);
    let regex_pattern = chars_string(re_raw.as_slice());
    let v = ValueDefinition {
        name,
        regex_pattern,
        is_filldown: f.0,
        is_key: f.1,
        is_required: f.2,
        is_list: f.3,
        is_fillup: f.4,
        options,
    };
    proof {
        assert(v@ =~~= make_value_def(
            match options {
                Some(o) => Some(o@),
                None => None,
            },
            f,
            line@.subrange(name_lo as int, name_hi as int),
            line@.subrange(re_lo as int, te as int),
        ));
    }
    Ok(v)
}

/// Builds the state part of a transition.
fn finish_transition_exec(t: &[char], la: LineAction, ra: RecordAction, sp: usize) -> (r: Result<
    RuleTransition,
    TextFsmError,
>)
    requires
        sp <= t@.len(),
        finish_transition(t@, la@, ra, sp as int) is Ok || finish_transition(
            t@,
            la@,
            ra,
            sp as int,
        ) is Err,
    ensures
        match r {
            Ok(tr) => finish_transition(t@, la@, ra, sp as int) == Ok::<RuleTransitionV, ErrorV>(
                tr@,
            ),
            Err(e) => finish_transition(t@, la@, ra, sp as int) == Err::<RuleTransitionV, ErrorV>(
                e@,
            ),
        },
{
    if sp >= t.len() {
        return Ok(RuleTransition { line_action: la, record_action: ra });
    }
    proof {
        lemma_tok_end(t@, sp as int);
    }
    let se = find_tok_end(t, sp);
    if token_is(t, sp, se, "Error") {
        let is_continue = match la {
            LineAction::Continue => true,
            LineAction::Next(_) => false,
        };
        if is_continue {
            return Err(
                TextFsmError::ParseError(
                    String::from_str("line action Continue does not support a next state"),
                ),
            );
        }
        proof {
            lemma_ws_end(t@, se as int);
        }
        let mp = find_ws_end(t, se);
        if mp >= t.len() {
            return Ok(
                RuleTransition {
                    line_action: LineAction::Next(Some(NextState::Error(None))),
                    record_action: ra,
                },
            );
        }
        if t[mp] == '"' && t.len() - mp >= 2 && t[t.len() - 1] == '"' {
            let msg = chars_string(&t[mp + 1..t.len() - 1]);
            proof {
                assert(msg@ =~= t@.subrange(mp + 1, t@.len() - 1));
            }
            return Ok(
                RuleTransition {
                    line_action: LineAction::Next(Some(NextState::Error(Some(msg)))),
                    record_action: ra,
                },
            );
        }
        return Err(TextFsmError::ParseError(wrap_msg("bad transition: '", t, "'")));
    }
    if se == t.len() && se > sp && slice_all_ident(&t[sp..se]) {
        proof {
            assert((&t@.subrange(sp as int, se as int)).len() == se - sp);
        }
        let is_continue = match la {
            LineAction::Continue => true,
            LineAction::Next(_) => false,
        };
        if is_continue {
            return Err(
                TextFsmError::ParseError(
                    String::from_str("line action Continue does not support a next state"),
                ),
            );
        }
        let name = chars_string(&t[sp..se]);
        proof {
            assert(name@ =~= t@.subrange(sp as int, se as int));
        }
        return Ok(
            RuleTransition {
                line_action: LineAction::Next(Some(NextState::NamedState(name))),
                record_action: ra,
            },
        );
    }
    Err(TextFsmError::ParseError(wrap_msg("bad transition: '", t, "'")))
}

/// Parses the text after `->` on a rule line into a transition.  The
/// text must already be trimmed of outer blanks.
pub fn parse_transition_text(t: &[char]) -> (r: Result<RuleTransition, TextFsmError>)
    ensures
        match r {
            Ok(tr) => parse_transition_spec(t@) == Ok::<RuleTransitionV, ErrorV>(tr@),
            Err(e) => parse_transition_spec(t@) == Err::<RuleTransitionV, ErrorV>(e@),
        },
{
    if t.len() == 0 {
        return Err(TextFsmError::ParseError(wrap_msg("bad transition: '", t, "'")));
    }
    proof {
        lemma_tok_end(t@, 0);
        lemma_dot_end(t@, 0);
    }
    let he = find_tok_end(t, 0);
    let hd = find_dot_end(t, 0);
    if hd < he {
        let law = if token_is(t, 0, hd, "Continue") {
            Some(LineAction::Continue)
        } else if token_is(t, 0, hd, "Next") {
            Some(LineAction::Next(None))
        } else {
            None
        };
        let raw = if token_is(t, hd + 1, he, "Record") {
            Some(RecordAction::Record)
        } else if token_is(t, hd + 1, he, "NoRecord") {
            Some(RecordAction::NoRecord)
        } else if token_is(t, hd + 1, he, "Clear") {
            Some(RecordAction::Clear)
        } else if token_is(t, hd + 1, he, "Clearall") {
            Some(RecordAction::Clearall)
        } else {
            None
        };
        match (law, raw) {
            (Some(la), Some(ra)) => {
                proof {
                    lemma_ws_end(t@, he as int);
                }
                let sp = find_ws_end(t, he);
                finish_transition_exec(t, la, ra, sp)
            },
            _ => Err(TextFsmError::ParseError(wrap_msg("bad transition: '", t, "'"))),
        }
    } else {
        let ra = if token_is(t, 0, he, "Record") {
            Some(RecordAction::Record)
        } else if token_is(t, 0, he, "NoRecord") {
            Some(RecordAction::NoRecord)
        } else if token_is(t, 0, he, "Clear") {
            Some(RecordAction::Clear)
        } else if token_is(t, 0, he, "Clearall") {
            Some(RecordAction::Clearall)
        } else {
            None
        };
        match ra {
            Some(ra) => {
                proof {
                    lemma_ws_end(t@, he as int);
                }
                let sp = find_ws_end(t, he);
                finish_transition_exec(t, LineAction::Next(None), ra, sp)
            },
            None => {
                let la = if token_is(t, 0, he, "Continue") {
                    Some(LineAction::Continue)
                } else if token_is(t, 0, he, "Next") {
                    Some(LineAction::Next(None))
                } else {
                    None
                };
                match la {
                    Some(la) => {
                        proof {
                            lemma_ws_end(t@, he as int);
                        }
                        let sp = find_ws_end(t, he);
                        finish_transition_exec(t, la, RecordAction::NoRecord, sp)
                    },
                    None => finish_transition_exec(t, LineAction::Next(None), RecordAction::NoRecord, 0),
                }
            },
        }
    }
}

/// The position of the last ` -> ` at or after `lo`, if any.
fn find_last_arrow(line: &[char], lo: usize) -> (r: Option<usize>)
    requires
        lo <= line@.len(),
    ensures
        match r {
            Some(j) => last_arrow_from(line@, lo as int, line@.len() as int) == Some(j as int)
                && lo <= j && j + 4 <= line@.len(),
            None => last_arrow_from(line@, lo as int, line@.len() as int) is None,
        },
{
    let mut hi: usize = line.len();
    while hi >= 4 && hi - 4 >= lo
        invariant
            lo <= line@.len(),
            hi <= line@.len(),
            last_arrow_from(line@, lo as int, line@.len() as int) == last_arrow_from(
                line@,
                lo as int,
                hi as int,
            ),
        decreases hi,
    {
        if slice_has_at(line, hi - 4, " -> ") {
            return Some(hi - 4);
        }
        hi = hi - 1;
    }
    None
}

/// Parses one indented rule line into a rule.
pub fn parse_rule_line(line: &[char]) -> (r: Result<StateRule, TextFsmError>)
    ensures
        match r {
            Ok(v) => parse_rule_line_spec(line@) == Ok::<StateRuleV, ErrorV>(v@),
            Err(e) => parse_rule_line_spec(line@) == Err::<StateRuleV, ErrorV>(e@),
        },
{
    proof {
        lemma_ws_end(line@, 0);
    }
    let i0 = find_nonws(line);
    if i0 >= line.len() || line[i0] != '^' {
        return Err(TextFsmError::ParseError(wrap_msg("bad rule line: '", line, "'")));
    }
    proof {
        lemma_trim_end_at(line@, line@.len() as int);
    }
    let te = find_trim_end(line);
    match find_last_arrow(line, i0) {
        None => {
            let pat = do_rewrite_angles(&line[i0..te]);
            proof {
                assert((&line@.subrange(i0 as int, te as int)) == line@.subrange(
                    i0 as int,
                    te as int,
                ));
            }
            Ok(
                StateRule {
                    rule_match: chars_string(pat.as_slice()),
                    transition: RuleTransition {
                        line_action: LineAction::Next(None),
                        record_action: RecordAction::NoRecord,
                    },
                },
            )
        },
        Some(j) => {
            proof {
                lemma_ws_end(line@, (j + 4) as int);
            }
            let ts = find_ws_end(line, j + 4);
            let t: Vec<char> = if ts < te {
                let mut v: Vec<char> = Vec::new();
                let mut k: usize = ts;
                while k < te
                    invariant
                        ts <= k <= te,
                        te <= line@.len(),
                        v@ == line@.subrange(ts as int, k as int),
                    decreases te - k,
                {
                    v.push(line[k]);
                    k = k + 1;
                    proof {
                        assert(v@ =~= line@.subrange(ts as int, k as int));
                    }
                }
                v
            } else {
                Vec::new()
            };
            proof {
                if ts < te {
                    assert(t@ == line@.subrange(ts as int, te as int));
                } else {
                    assert(t@ =~= Seq::<char>::empty());
                }
            }
            match parse_transition_text(t.as_slice()) {
                Ok(tr) => {
                    let pat = do_rewrite_angles(&line[i0..j]);
                    Ok(StateRule { rule_match: chars_string(pat.as_slice()), transition: tr })
                },
                Err(e) => Err(e),
            }
        },
    }
}

} // verus!
