use vstd::prelude::*;
use crate::error::{ErrorV, TextFsmError};
use crate::rx::{
    classic_compile_ok, classic_compiles, fancy_compile_check, fancy_compiles, FancyCompileOutcome,
};
use crate::template::{
    all_ident, bad_rule_line, bad_value_line, has_prefix, parse_rule_line, parse_rule_line_spec,
    parse_value_line, parse_value_line_spec, slice_all_ident, slice_has_prefix, wrap_msg,
    LineAction, LineActionV, NextState, NextStateV, RecordAction, RuleTransition, RuleTransitionV,
    StateRule, StateRuleV, ValueDefinition, ValueDefV,
};
use crate::text::{find_nonws, find_trim_end, is_ws, lemma_trim_end_at, lemma_ws_end, spec_lines,
    split_lines, trim_end_at, ws_end};
use crate::text::chars_string;
use crate::varsubst::{chunks_view_of, parse_chunks, ChunkV, ParseChunk, VariableParser};
use vstd::string::StringExecFns;

verus! {

/// Which regex engine a compiled rule runs on: the linear engine, or the
/// backtracking engine for patterns the linear one rejects.
#[derive(Debug, Clone, Copy, PartialEq, Eq, Structural)]
pub enum MultiRegex {
    Classic,
    Fancy,
}

/// Spec image of a [`StateRuleCompiled`].
#[verifier::ext_equal]
pub struct RuleV {
    pub rule_match: Seq<char>,
    pub expanded: Seq<char>,
    pub vars: Seq<Seq<char>>,
    pub engine: MultiRegex,
    pub transition: RuleTransitionV,
}

/// A rule ready to run: the pattern as written, its variable-expanded
/// form, the variables it captures in order, the engine that accepted the
/// expanded form, and the transition.
#[derive(Debug, Clone)]
pub struct StateRuleCompiled {
    pub rule_match: String,
    pub expanded_rule_match: String,
    pub match_variables: Vec<String>,
    pub engine: MultiRegex,
    pub transition: RuleTransition,
}

impl View for StateRuleCompiled {
    type V = RuleV;

    open spec fn view(&self) -> RuleV {
        RuleV {
            rule_match: self.rule_match@,
            expanded: self.expanded_rule_match@,
            vars: crate::record::strs_view_of(self.match_variables@),
            engine: self.engine,
            transition: self.transition@,
        }
    }
}

/// A compiled rule's pattern is accepted by its engine.
pub open spec fn rule_wf(r: RuleV) -> bool {
    match r.engine {
        MultiRegex::Classic => classic_compiles(r.expanded),
        MultiRegex::Fancy => fancy_compiles(r.expanded),
    }
}

/// The spec image of a value-definition list.
pub open spec fn vals_view_of(v: Seq<ValueDefinition>) -> Seq<ValueDefV>
    decreases v.len(),
{
    if v.len() == 0 {
        Seq::empty()
    } else {
        vals_view_of(v.drop_last()).push(v.last()@)
    }
}

/// The viewed definitions have the same length and viewed entries.
pub proof fn lemma_vals_view_of(v: Seq<ValueDefinition>)
    ensures
        vals_view_of(v).len() == v.len(),
        forall|j: int| 0 <= j < v.len() ==> #[trigger] vals_view_of(v)[j] == v[j]@,
    decreases v.len(),
{
    if v.len() > 0 {
        lemma_vals_view_of(v.drop_last());
    }
}

/// The position of the first declared value named `name` at or after `i`.
pub open spec fn value_index_from(values: Seq<ValueDefV>, name: Seq<char>, i: int) -> Option<int>
    decreases values.len() - i,
{
    if i < 0 || i >= values.len() {
        None
    } else if values[i].name == name {
        Some(i)
    } else {
        value_index_from(values, name, i + 1)
    }
}

/// The first declared value named `name`, if any.
pub open spec fn lookup_value(values: Seq<ValueDefV>, name: Seq<char>) -> Option<ValueDefV> {
    match value_index_from(values, name, 0) {
        Some(i) => Some(values[i]),
        None => None,
    }
}

/// Where `value_index_from` lands.
pub proof fn lemma_value_index_from(values: Seq<ValueDefV>, name: Seq<char>, i: int)
    requires
        0 <= i <= values.len(),
    ensures
        match value_index_from(values, name, i) {
            Some(k) => i <= k < values.len() && values[k].name == name && forall|j: int|
                i <= j < k ==> values[j].name != name,
            None => forall|j: int| i <= j < values.len() ==> values[j].name != name,
        },
    decreases values.len() - i,
{
    if i < values.len() && values[i].name != name {
        lemma_value_index_from(values, name, i + 1);
    }
}

/// The variable expansion of a chunk list over the declared values: text
/// and `$$` pass through, and each variable becomes a named group holding
/// its declared pattern.  The error carries the first unknown variable.
pub open spec fn expand_chunks(chunks: Seq<ChunkV>, values: Seq<ValueDefV>) -> Result<
    (Seq<char>, Seq<Seq<char>>),
    Seq<char>,
>
    decreases chunks.len(),
{
    if chunks.len() == 0 {
        Ok((Seq::empty(), Seq::empty()))
    } else {
        match expand_chunks(chunks.drop_last(), values) {
            Err(e) => Err(e),
            Ok((s, vs)) => match chunks.last() {
                ChunkV::DollarDollar => Ok((s + "$"@, vs)),
                ChunkV::Text(t) => Ok((s + t, vs)),
                ChunkV::Variable(v) => match lookup_value(values, v) {
                    None => Err(v),
                    Some(vd) => Ok(
                        (s + "(?P<"@ + v + ">"@ + vd.regex_pattern + ")"@, vs.push(v)),
                    ),
                },
            },
        }
    }
}

/// An expansion that failed on a prefix fails the same way on the whole.
pub proof fn lemma_expand_err_extends(chunks: Seq<ChunkV>, values: Seq<ValueDefV>, j: int)
    requires
        0 <= j <= chunks.len(),
        expand_chunks(chunks.subrange(0, j), values) is Err,
    ensures
        expand_chunks(chunks, values) == expand_chunks(chunks.subrange(0, j), values),
    decreases chunks.len() - j,
{
    if j == chunks.len() {
        assert(chunks.subrange(0, j) =~= chunks);
    } else {
        assert(chunks.subrange(0, j + 1).drop_last() =~= chunks.subrange(0, j));
        lemma_expand_err_extends(chunks, values, j + 1);
    }
}

/// Every variable that an expansion collected is a declared value.
pub proof fn lemma_expand_vars_known(chunks: Seq<ChunkV>, values: Seq<ValueDefV>)
    ensures
        expand_chunks(chunks, values) matches Ok((s, vs)) ==> forall|j: int|
            0 <= j < vs.len() ==> lookup_value(values, #[trigger] vs[j]) is Some,
    decreases chunks.len(),
{
    if chunks.len() > 0 {
        lemma_expand_vars_known(chunks.drop_last(), values);
    }
}

/// What compilation promises of a compiled rule against its source rule:
/// the pattern parsed and expanded, the variables and transition carried
/// over, the linear engine preferred, and the pattern of a fallen-back
/// rule accepted by the backtracking engine.
pub open spec fn rule_compiled_from(c: RuleV, r: StateRuleV, values: Seq<ValueDefV>) -> bool {
    &&& parse_chunks(r.rule_match) matches Some(chunks) && {
        &&& expand_chunks(chunks, values) matches Ok(ev) && {
            &&& c.rule_match == r.rule_match
            &&& c.vars == ev.1
            &&& c.transition == r.transition
            &&& (classic_compiles(ev.0) ==> c.engine == MultiRegex::Classic && c.expanded == ev.0)
            &&& (!classic_compiles(ev.0) ==> c.engine == MultiRegex::Fancy && fancy_compiles(
                c.expanded,
            ))
            &&& (!classic_compiles(ev.0) && fancy_compiles(ev.0) ==> c.expanded == ev.0)
        }
    }
}

/// The position of the first declared value named `name`, if any.
pub fn find_value_position(values: &Vec<ValueDefinition>, name: &str) -> (r: Option<usize>)
    ensures
        match r {
            Some(k) => k < values.len() && value_index_from(vals_view_of(values@), name@, 0)
                == Some(k as int),
            None => value_index_from(vals_view_of(values@), name@, 0) is None,
        },
{
    proof {
        lemma_vals_view_of(values@);
    }
    let ghost vv = vals_view_of(values@);
    let mut k: usize = 0;
    while k < values.len()
        invariant
            k <= values@.len(),
            vv == vals_view_of(values@),
            vv.len() == values@.len(),
            forall|j: int| 0 <= j < values@.len() ==> #[trigger] vv[j] == values@[j]@,
            value_index_from(vv, name@, 0) == value_index_from(vv, name@, k as int),
        decreases values@.len() - k,
    {
        if crate::text::str_eq(values[k].name.as_str(), name) {
            return Some(k);
        }
        k = k + 1;
    }
    None
}

/// The unknown-variable error for variable `v` inside pattern `rm`.
pub open spec fn unknown_variable_err(v: Seq<char>, rm: Seq<char>) -> ErrorV {
    ErrorV::ParseError(
        "Can not find variable '"@ + v + "' while parsing rule_match '"@ + rm + "'"@,
    )
}

/// Strips one character at a time while the backtracking engine points at
/// a repeated zero-width item, and gives up on any other rejection.  A
/// pattern the engine accepts as given is handed back unchanged.
fn repair_fancy(pattern: Vec<char>) -> (r: Result<String, TextFsmError>)
    ensures
        match r {
            Ok(s) => fancy_compiles(s@) && (fancy_compiles(pattern@) ==> s@ == pattern@),
            Err(e) => e@ is ParseError,
        },
{
    let mut work = pattern;
    loop
        invariant
            work@ == pattern@ || !fancy_compiles(pattern@),
        decreases work@.len(),
    {
        let s = chars_string(work.as_slice());
        match fancy_compile_check(s.as_str()) {
            FancyCompileOutcome::Accepted => {
                return Ok(s);
            },
            FancyCompileOutcome::Rejected => {
                return Err(
                    TextFsmError::ParseError(
                        String::from_str("the backtracking engine rejected the pattern"),
                    ),
                );
            },
            FancyCompileOutcome::NotRepeatable(pos) => {
                if pos < work.len() {
                    work.remove(pos);
                } else {
                    return Err(TextFsmError::ParseError(String::from_str("Can not fix up regex!")));
                }
            },
        }
    }
}

/// Compiles one rule: expands its variables over the declared values,
/// tries the linear engine, and falls back to the backtracking engine
/// with the zero-width-repeat repair.
pub fn compile_state_rule(rule: &StateRule, values: &Vec<ValueDefinition>) -> (r: Result<
    StateRuleCompiled,
    TextFsmError,
>)
    ensures
        match r {
            Ok(c) => rule_compiled_from(c@, rule@, vals_view_of(values@)),
            Err(e) => {
                ||| (parse_chunks(rule@.rule_match) is None && e@ == ErrorV::ParseError(
                    "unclosed or empty ${ in variable string"@,
                ))
                ||| (parse_chunks(rule@.rule_match) matches Some(chunks) && match expand_chunks(
                    chunks,
                    vals_view_of(values@),
                ) {
                    Err(v) => e@ == unknown_variable_err(v, rule@.rule_match),
                    Ok(ev) => !classic_compiles(ev.0) && e@ is ParseError,
                })
            },
        },
{
    proof {
        lemma_vals_view_of(values@);
    }
    let chunks = match VariableParser::parse_dollar_string(rule.rule_match.as_str()) {
        Ok(cs) => cs,
        Err(e) => {
            return Err(e);
        },
    };
    let mut expanded: String = String::new();
    let mut match_variables: Vec<String> = Vec::new();
    let ghost vv = vals_view_of(values@);
    let mut i: usize = 0;
    proof {
        crate::varsubst::lemma_chunks_view_of(chunks@);
        assert(chunks_view_of(chunks@).subrange(0, 0) =~= Seq::<ChunkV>::empty());
        crate::record::lemma_strs_view_of(match_variables@);
        assert(crate::record::strs_view_of(match_variables@) =~~= Seq::<Seq<char>>::empty());
    }
    while i < chunks.len()
        invariant
            i <= chunks@.len(),
            vv == vals_view_of(values@),
            vv.len() == values@.len(),
            forall|j: int| 0 <= j < values@.len() ==> #[trigger] vv[j] == values@[j]@,
            parse_chunks(rule@.rule_match) == Some(chunks_view_of(chunks@)),
            chunks_view_of(chunks@).len() == chunks@.len(),
            forall|j: int| 0 <= j < chunks@.len() ==> #[trigger] chunks_view_of(chunks@)[j]
                == chunks@[j]@,
            expand_chunks(chunks_view_of(chunks@).subrange(0, i as int), vv) == Ok::<
                (Seq<char>, Seq<Seq<char>>),
                Seq<char>,
            >((expanded@, crate::record::strs_view_of(match_variables@))),
        decreases chunks@.len() - i,
    {
        proof {
            crate::varsubst::lemma_chunks_view_of(chunks@);
            assert(chunks_view_of(chunks@).subrange(0, (i + 1) as int).drop_last()
                =~= chunks_view_of(chunks@).subrange(0, i as int));
            assert(chunks_view_of(chunks@).subrange(0, (i + 1) as int).last() == chunks@[i as int]@);
        }
        let ghost pre_exp = expanded@;
        let ghost pre_mv = match_variables@;
        let ghost pre_vars = crate::record::strs_view_of(match_variables@);
        match &chunks[i] {
            ParseChunk::DollarDollar => {
                expanded.append("$");
            },
            ParseChunk::Text(t) => {
                expanded.append(t.as_str());
            },
            ParseChunk::Variable(v) => {
                match find_value_position(values, v.as_str()) {
                    None => {
                        proof {
                            assert(lookup_value(vv, v@) is None);
                            assert(expand_chunks(
                                chunks_view_of(chunks@).subrange(0, (i + 1) as int),
                                vv,
                            ) == Err::<(Seq<char>, Seq<Seq<char>>), Seq<char>>(v@));
                            lemma_expand_err_extends(chunks_view_of(chunks@), vv, i + 1);
                        }
                        let vc = crate::text::str_chars(v.as_str());
                        let mut msg = wrap_msg("Can not find variable '", vc.as_slice(),
                            "' while parsing rule_match '");
                        msg.append(rule.rule_match.as_str());
                        msg.append("'");
                        proof {
                            assert(msg@ =~= "Can not find variable '"@ + v@
                                + "' while parsing rule_match '"@ + rule@.rule_match + "'"@);
                        }
                        return Err(TextFsmError::ParseError(msg));
                    },
                    Some(k) => {
                        proof {
                            assert(lookup_value(vv, v@) == Some(values@[k as int]@));
                        }
                        expanded.append("(?P<");
                        expanded.append(v.as_str());
                        expanded.append(">");
                        expanded.append(values[k].regex_pattern.as_str());
                        expanded.append(")");
                        match_variables.push(v.clone());
                        proof {
                            assert(match_variables@.drop_last() =~= pre_mv);
                            assert(crate::record::strs_view_of(match_variables@)
                                == pre_vars.push(v@));
                            assert(expanded@ =~= pre_exp + "(?P<"@ + v@ + ">"@ + values@[
                                k as int]@.regex_pattern + ")"@);
                        }
                    },
                }
            },
        }
        proof {
            assert(expand_chunks(chunks_view_of(chunks@).subrange(0, (i + 1) as int), vv) == Ok::<
                (Seq<char>, Seq<Seq<char>>),
                Seq<char>,
            >((expanded@, crate::record::strs_view_of(match_variables@))));
        }
        i = i + 1;
    }
    proof {
        assert(chunks_view_of(chunks@).subrange(0, chunks_view_of(chunks@).len() as int)
            =~= chunks_view_of(chunks@));
        crate::varsubst::lemma_chunks_view_of(chunks@);
    }
    let transition = rule.transition.clone();
    proof {
        assert(transition@ == rule@.transition);
    }
    if classic_compile_ok(expanded.as_str()) {
        return Ok(
            StateRuleCompiled {
                rule_match: rule.rule_match.clone(),
                expanded_rule_match: expanded,
                match_variables,
                engine: MultiRegex::Classic,
                transition,
            },
        );
    }
    match repair_fancy(crate::text::str_chars(expanded.as_str())) {
        Ok(repaired) => Ok(
            StateRuleCompiled {
                rule_match: rule.rule_match.clone(),
                expanded_rule_match: repaired,
                match_variables,
                engine: MultiRegex::Fancy,
                transition,
            },
        ),
        Err(e) => Err(e),
    }
}

/// The spec image of a rule list.
pub open spec fn rules_view_of(v: Seq<StateRule>) -> Seq<StateRuleV>
    decreases v.len(),
{
    if v.len() == 0 {
        Seq::empty()
    } else {
        rules_view_of(v.drop_last()).push(v.last()@)
    }
}

/// The viewed rules have the same length and viewed entries.
pub proof fn lemma_rules_view_of(v: Seq<StateRule>)
    ensures
        rules_view_of(v).len() == v.len(),
        forall|j: int| 0 <= j < v.len() ==> #[trigger] rules_view_of(v)[j] == v[j]@,
    decreases v.len(),
{
    if v.len() > 0 {
        lemma_rules_view_of(v.drop_last());
    }
}

/// One state as the template text declares it: a name and its rules in
/// order, before regex compilation.
#[derive(Debug)]
pub struct StateDef {
    pub name: String,
    pub rules: Vec<StateRule>,
}

impl View for StateDef {
    type V = (Seq<char>, Seq<StateRuleV>);

    open spec fn view(&self) -> (Seq<char>, Seq<StateRuleV>) {
        (self.name@, rules_view_of(self.rules@))
    }
}

/// The spec image of a state-definition list.
pub open spec fn defs_view_of(v: Seq<StateDef>) -> Seq<(Seq<char>, Seq<StateRuleV>)>
    decreases v.len(),
{
    if v.len() == 0 {
        Seq::empty()
    } else {
        defs_view_of(v.drop_last()).push(v.last()@)
    }
}

/// The viewed definitions have the same length and viewed entries.
pub proof fn lemma_defs_view_of(v: Seq<StateDef>)
    ensures
        defs_view_of(v).len() == v.len(),
        forall|j: int| 0 <= j < v.len() ==> #[trigger] defs_view_of(v)[j] == v[j]@,
    decreases v.len(),
{
    if v.len() > 0 {
        lemma_defs_view_of(v.drop_last());
    }
}

/// The parser's accumulator over template lines: the values seen, the
/// states seen with their rules, and whether a state header has begun.
#[verifier::ext_equal]
pub struct TplAccV {
    pub values: Seq<ValueDefV>,
    pub states: Seq<(Seq<char>, Seq<StateRuleV>)>,
    pub in_states: bool,
}

/// The values with `v` bound: a value of the same name is replaced in
/// place, a new name is appended.
pub open spec fn set_valuedef(values: Seq<ValueDefV>, v: ValueDefV) -> Seq<ValueDefV> {
    match value_index_from(values, v.name, 0) {
        Some(i) => values.update(i, v),
        None => values.push(v),
    }
}

/// The position of the first state named `name` at or after `i`.
pub open spec fn state_index_from(
    states: Seq<(Seq<char>, Seq<StateRuleV>)>,
    name: Seq<char>,
    i: int,
) -> Option<int>
    decreases states.len() - i,
{
    if i < 0 || i >= states.len() {
        None
    } else if states[i].0 == name {
        Some(i)
    } else {
        state_index_from(states, name, i + 1)
    }
}

/// Where `state_index_from` lands.
pub proof fn lemma_state_index_from(
    states: Seq<(Seq<char>, Seq<StateRuleV>)>,
    name: Seq<char>,
    i: int,
)
    requires
        0 <= i <= states.len(),
    ensures
        match state_index_from(states, name, i) {
            Some(k) => i <= k < states.len() && states[k].0 == name && forall|j: int|
                i <= j < k ==> states[j].0 != name,
            None => forall|j: int| i <= j < states.len() ==> states[j].0 != name,
        },
    decreases states.len() - i,
{
    if i < states.len() && states[i].0 != name {
        lemma_state_index_from(states, name, i + 1);
    }
}

/// Whether a line is a value declaration: the keyword `Value` followed by
/// a blank.
pub open spec fn is_value_line(line: Seq<char>) -> bool {
    has_prefix(line, "Value"@) && line.len() > "Value"@.len() && is_ws(line["Value"@.len() as int])
}

/// The rule-outside-a-state error for `line`.
pub open spec fn stray_rule_err(line: Seq<char>) -> ErrorV {
    ErrorV::ParseError("rule line outside a state: '"@ + line + "'"@)
}

/// The malformed-state-header error for `line`.
pub open spec fn bad_header_err(line: Seq<char>) -> ErrorV {
    ErrorV::ParseError("bad state header: '"@ + line + "'"@)
}

/// The duplicate-state error for `name`.
pub open spec fn duplicate_state_err(name: Seq<char>) -> ErrorV {
    ErrorV::StateError("State "@ + name + " already defined in the file!"@)
}

/// One template line folded into the accumulator.  Blank lines and
/// comment lines pass; a line at column zero is a value declaration
/// before the first state header and a state header afterwards; an
/// indented line is a rule of the last opened state.  A state name may
/// recur only for `EOF`, which starts over.
pub open spec fn tpl_step(acc: TplAccV, line: Seq<char>) -> Result<TplAccV, ErrorV> {
    let i0 = ws_end(line, 0);
    if i0 >= line.len() {
        Ok(acc)
    } else if line[i0] == '#' {
        Ok(acc)
    } else if i0 > 0 {
        if !acc.in_states || acc.states.len() == 0 {
            Err(stray_rule_err(line))
        } else {
            match parse_rule_line_spec(line) {
                Err(e) => Err(e),
                Ok(rv) => Ok(
                    TplAccV {
                        values: acc.values,
                        states: acc.states.update(
                            acc.states.len() - 1,
                            (
                                acc.states.last().0,
                                acc.states.last().1.push(rv),
                            ),
                        ),
                        in_states: acc.in_states,
                    },
                ),
            }
        }
    } else if !acc.in_states && is_value_line(line) {
        match parse_value_line_spec(line) {
            Err(e) => Err(e),
            Ok(v) => Ok(
                TplAccV {
                    values: set_valuedef(acc.values, v),
                    states: acc.states,
                    in_states: acc.in_states,
                },
            ),
        }
    } else {
        let te = trim_end_at(line, line.len() as int);
        let name = line.subrange(0, te);
        if name.len() == 0 || !all_ident(name) {
            Err(bad_header_err(line))
        } else if name == "EOF"@ {
            let dropped = match state_index_from(acc.states, "EOF"@, 0) {
                Some(i) => acc.states.remove(i),
                None => acc.states,
            };
            Ok(
                TplAccV {
                    values: acc.values,
                    states: dropped.push((name, Seq::empty())),
                    in_states: true,
                },
            )
        } else if state_index_from(acc.states, name, 0) is Some {
            Err(duplicate_state_err(name))
        } else {
            Ok(
                TplAccV {
                    values: acc.values,
                    states: acc.states.push((name, Seq::empty())),
                    in_states: true,
                },
            )
        }
    }
}

/// The lines from `i` on folded into the accumulator.
pub open spec fn tpl_fold(lines: Seq<Seq<char>>, i: int, acc: TplAccV) -> Result<TplAccV, ErrorV>
    decreases lines.len() - i,
{
    if i < 0 || i >= lines.len() {
        Ok(acc)
    } else {
        match tpl_step(acc, lines[i]) {
            Err(e) => Err(e),
            Ok(acc2) => tpl_fold(lines, i + 1, acc2),
        }
    }
}

/// The parse of a whole template, line by line.
pub open spec fn parse_template_spec(lines: Seq<Seq<char>>) -> Result<TplAccV, ErrorV> {
    tpl_fold(
        lines,
        0,
        TplAccV { values: Seq::empty(), states: Seq::empty(), in_states: false },
    )
}

/// Whether no two declared values share a name.
pub open spec fn values_unique(values: Seq<ValueDefV>) -> bool {
    forall|i: int, j: int| 0 <= i < j < values.len() ==> values[i].name != values[j].name
}

/// Whether no two parsed states share a name.
pub open spec fn def_names_unique(states: Seq<(Seq<char>, Seq<StateRuleV>)>) -> bool {
    forall|i: int, j: int| 0 <= i < j < states.len() ==> states[i].0 != states[j].0
}

/// Binding a value keeps names unique when they were unique.
pub proof fn lemma_set_valuedef_unique(values: Seq<ValueDefV>, v: ValueDefV)
    requires
        values_unique(values),
    ensures
        values_unique(set_valuedef(values, v)),
{
    lemma_value_index_from(values, v.name, 0);
}

/// The position of the first parsed state named `name`, if any.
fn find_def_position(defs: &Vec<StateDef>, name: &str) -> (r: Option<usize>)
    ensures
        match r {
            Some(k) => k < defs.len() && state_index_from(defs_view_of(defs@), name@, 0) == Some(
                k as int,
            ),
            None => state_index_from(defs_view_of(defs@), name@, 0) is None,
        },
{
    proof {
        lemma_defs_view_of(defs@);
    }
    let ghost dv = defs_view_of(defs@);
    let mut k: usize = 0;
    while k < defs.len()
        invariant
            k <= defs@.len(),
            dv == defs_view_of(defs@),
            dv.len() == defs@.len(),
            forall|j: int| 0 <= j < defs@.len() ==> #[trigger] dv[j] == defs@[j]@,
            state_index_from(dv, name@, 0) == state_index_from(dv, name@, k as int),
        decreases defs@.len() - k,
    {
        if crate::text::str_eq(defs[k].name.as_str(), name) {
            return Some(k);
        }
        k = k + 1;
    }
    None
}

/// Binds `v` among the declared values, replacing a value of the same
/// name in place and appending a new name.
fn set_value_def(values: &mut Vec<ValueDefinition>, v: ValueDefinition)
    ensures
        vals_view_of(final(values)@) == set_valuedef(vals_view_of(old(values)@), v@),
{
    proof {
        lemma_vals_view_of(values@);
    }
    let ghost v0 = v@;
    match find_value_position(values, v.name.as_str()) {
        Some(k) => {
            values[k] = v;
            proof {
                lemma_vals_view_of(values@);
                assert(vals_view_of(values@) =~~= set_valuedef(vals_view_of(old(values)@), v0));
            }
        },
        None => {
            values.push(v);
            proof {
                lemma_vals_view_of(values@);
                assert(vals_view_of(values@) =~~= set_valuedef(vals_view_of(old(values)@), v0));
            }
        },
    }
}

/// Parses the lines of a template into its declared values and its
/// states with their rules, as the line fold describes; names stay
/// unique on both sides.
fn parse_template_exec(lines: &Vec<Vec<char>>) -> (r: Result<
    (Vec<ValueDefinition>, Vec<StateDef>),
    TextFsmError,
>)
    ensures
        match r {
            Ok(out) => parse_template_spec(lines.deep_view()) matches Ok(tv) && tv.values
                == vals_view_of(out.0@) && tv.states == defs_view_of(out.1@) && values_unique(
                tv.values,
            ) && def_names_unique(tv.states),
            Err(e) => parse_template_spec(lines.deep_view()) == Err::<TplAccV, ErrorV>(e@),
        },
{
    let mut values: Vec<ValueDefinition> = Vec::new();
    let mut defs: Vec<StateDef> = Vec::new();
    let mut in_states = false;
    let mut i: usize = 0;
    let n = lines.len();
    proof {
        assert(vals_view_of(values@) =~= Seq::<ValueDefV>::empty());
        assert(defs_view_of(defs@) =~= Seq::<(Seq<char>, Seq<StateRuleV>)>::empty());
    }
    while i < n
        invariant
            i <= n,
            n == lines@.len(),
            lines.deep_view().len() == lines@.len(),
            forall|j: int| 0 <= j < lines@.len() ==> #[trigger] lines.deep_view()[j]
                == lines@[j]@,
            parse_template_spec(lines.deep_view()) == tpl_fold(
                lines.deep_view(),
                i as int,
                TplAccV {
                    values: vals_view_of(values@),
                    states: defs_view_of(defs@),
                    in_states: in_states,
                },
            ),
            values_unique(vals_view_of(values@)),
            def_names_unique(defs_view_of(defs@)),
        decreases n - i,
    {
        let ghost acc0 = TplAccV {
            values: vals_view_of(values@),
            states: defs_view_of(defs@),
            in_states: in_states,
        };
        let line = &lines[i];
        proof {
            assert(lines.deep_view()[i as int] == lines@[i as int]@);
            lemma_ws_end(line@, 0);
        }
        let i0 = find_nonws(line.as_slice());
        if i0 >= line.len() {
            // blank line
        } else if line[i0] == '#' {
            // comment line
        } else if i0 > 0 {
            if !in_states || defs.len() == 0 {
                return Err(TextFsmError::ParseError(wrap_msg("rule line outside a state: '",
                    line.as_slice(), "'")));
            }
            match parse_rule_line(line.as_slice()) {
                Err(e) => {
                    return Err(e);
                },
                Ok(rv) => {
                    let ghost rv0 = rv@;
                    let mut last = match defs.pop() {
                        Some(d) => d,
                        None => {
                            proof {
                                assert(false);
                            }
                            StateDef { name: String::new(), rules: Vec::new() }
                        },
                    };
                    let ghost last0 = last@;
                    let ghost pre_rules = last.rules@;
                    let ghost pre_defs = defs@;
                    last.rules.push(rv);
                    proof {
                        assert(last.rules@.drop_last() =~= pre_rules);
                        lemma_rules_view_of(last.rules@);
                        assert(last@ == (last0.0, last0.1.push(rv0)));
                    }
                    defs.push(last);
                    proof {
                        lemma_defs_view_of(defs@);
                        lemma_defs_view_of(pre_defs);
                        assert(defs@.drop_last() =~= pre_defs);
                        assert(defs_view_of(defs@) =~~= acc0.states.update(
                            acc0.states.len() - 1,
                            (acc0.states.last().0, acc0.states.last().1.push(rv0)),
                        ));
                    }
                },
            }
        } else if !in_states && line.len() > 5 && slice_has_prefix(line.as_slice(), "Value")
            && (line[5] == ' ' || line[5] == '\t') {
            proof {
                assert("Value"@.len() == 5) by {
                    reveal_strlit("Value");
                }
                assert(is_value_line(line@));
            }
            match parse_value_line(line.as_slice()) {
                Err(e) => {
                    return Err(e);
                },
                Ok(v) => {
                    proof {
                        lemma_set_valuedef_unique(vals_view_of(values@), v@);
                    }
                    set_value_def(&mut values, v);
                },
            }
        } else {
            proof {
                assert("Value"@.len() == 5) by {
                    reveal_strlit("Value");
                }
                assert(!(!acc0.in_states && is_value_line(line@)));
                lemma_trim_end_at(line@, line@.len() as int);
            }
            let te = find_trim_end(line.as_slice());
            let name_ok = te > 0 && slice_all_ident(&line.as_slice()[0..te]);
            proof {
                assert((&line@.subrange(0, te as int)).len() == te as int);
            }
            if !name_ok {
                return Err(TextFsmError::ParseError(wrap_msg("bad state header: '",
                    line.as_slice(), "'")));
            }
            let name = crate::text::chars_string(&line.as_slice()[0..te]);
            proof {
                assert(name@ =~= line@.subrange(0, te as int));
            }
            if crate::text::str_eq(name.as_str(), "EOF") {
                match find_def_position(&defs, "EOF") {
                    Some(k) => {
                        proof {
                            lemma_state_index_from(defs_view_of(defs@), "EOF"@, 0);
                        }
                        let ghost pre_defs = defs@;
                        defs.remove(k);
                        proof {
                            lemma_defs_view_of(defs@);
                            lemma_defs_view_of(pre_defs);
                            assert forall|j: int| 0 <= j < defs@.len() implies defs_view_of(
                                defs@,
                            )[j] == acc0.states.remove(k as int)[j] by {
                                if j < k {
                                    assert(defs@[j] == pre_defs[j]);
                                } else {
                                    assert(defs@[j] == pre_defs[j + 1]);
                                }
                            }
                            assert(defs_view_of(defs@) =~~= acc0.states.remove(k as int));
                        }
                    },
                    None => {},
                }
                let ghost mid = defs_view_of(defs@);
                proof {
                    lemma_state_index_from(mid, "EOF"@, 0);
                }
                let ghost pre_defs = defs@;
                defs.push(StateDef { name, rules: Vec::new() });
                in_states = true;
                proof {
                    assert(defs@.drop_last() =~= pre_defs);
                    lemma_defs_view_of(defs@);
                    assert(rules_view_of(Seq::<StateRule>::empty()) =~= Seq::<StateRuleV>::empty());
                    assert(defs_view_of(defs@) =~~= mid.push(("EOF"@, Seq::<StateRuleV>::empty())));
                }
            } else {
                match find_def_position(&defs, name.as_str()) {
                    Some(_) => {
                        let nc = crate::text::str_chars(name.as_str());
                        return Err(TextFsmError::StateError(wrap_msg("State ", nc.as_slice(),
                            " already defined in the file!")));
                    },
                    None => {
                        proof {
                            lemma_state_index_from(defs_view_of(defs@), name@, 0);
                        }
                        let ghost name0 = name@;
                        let ghost pre_defs = defs@;
                        defs.push(StateDef { name, rules: Vec::new() });
                        in_states = true;
                        proof {
                            assert(defs@.drop_last() =~= pre_defs);
                            lemma_defs_view_of(defs@);
                            assert(rules_view_of(Seq::<StateRule>::empty()) =~= Seq::<
                                StateRuleV,
                            >::empty());
                            assert(defs_view_of(defs@) =~~= acc0.states.push(
                                (name0, Seq::<StateRuleV>::empty()),
                            ));
                        }
                    },
                }
            }
        }
        i = i + 1;
        proof {
            assert(parse_template_spec(lines.deep_view()) == tpl_fold(
                lines.deep_view(),
                i as int,
                TplAccV {
                    values: vals_view_of(values@),
                    states: defs_view_of(defs@),
                    in_states: in_states,
                },
            ));
        }
    }
    Ok((values, defs))
}

/// The spec image of a compiled-rule list.
pub open spec fn crules_view_of(v: Seq<StateRuleCompiled>) -> Seq<RuleV>
    decreases v.len(),
{
    if v.len() == 0 {
        Seq::empty()
    } else {
        crules_view_of(v.drop_last()).push(v.last()@)
    }
}

/// The viewed rules have the same length and viewed entries.
pub proof fn lemma_crules_view_of(v: Seq<StateRuleCompiled>)
    ensures
        crules_view_of(v).len() == v.len(),
        forall|j: int| 0 <= j < v.len() ==> #[trigger] crules_view_of(v)[j] == v[j]@,
    decreases v.len(),
{
    if v.len() > 0 {
        lemma_crules_view_of(v.drop_last());
    }
}

/// Spec image of a [`StateCompiled`].
#[verifier::ext_equal]
pub struct StateV {
    pub name: Seq<char>,
    pub rules: Seq<RuleV>,
}

/// A named state with its compiled rules in template order.
#[derive(Debug)]
pub struct StateCompiled {
    pub name: String,
    pub rules: Vec<StateRuleCompiled>,
}

impl View for StateCompiled {
    type V = StateV;

    open spec fn view(&self) -> StateV {
        StateV { name: self.name@, rules: crules_view_of(self.rules@) }
    }
}

/// The spec image of a compiled-state list.
pub open spec fn cstates_view_of(v: Seq<StateCompiled>) -> Seq<StateV>
    decreases v.len(),
{
    if v.len() == 0 {
        Seq::empty()
    } else {
        cstates_view_of(v.drop_last()).push(v.last()@)
    }
}

/// The viewed states have the same length and viewed entries.
pub proof fn lemma_cstates_view_of(v: Seq<StateCompiled>)
    ensures
        cstates_view_of(v).len() == v.len(),
        forall|j: int| 0 <= j < v.len() ==> #[trigger] cstates_view_of(v)[j] == v[j]@,
    decreases v.len(),
{
    if v.len() > 0 {
        lemma_cstates_view_of(v.drop_last());
    }
}

/// Spec image of a [`TextFSMParser`]: a whole compiled template.
#[verifier::ext_equal]
pub struct ProgramV {
    pub values: Seq<ValueDefV>,
    pub mandatory: Seq<Seq<char>>,
    pub states: Seq<StateV>,
}

/// A compiled template: its declared values, the names of the required
/// ones in declaration order, and its states.  Immutable once built, and
/// shared read-only by any number of parses.
#[derive(Debug)]
pub struct TextFSMParser {
    pub values: Vec<ValueDefinition>,
    pub mandatory_values: Vec<String>,
    pub states: Vec<StateCompiled>,
}

impl View for TextFSMParser {
    type V = ProgramV;

    open spec fn view(&self) -> ProgramV {
        ProgramV {
            values: vals_view_of(self.values@),
            mandatory: crate::record::strs_view_of(self.mandatory_values@),
            states: cstates_view_of(self.states@),
        }
    }
}

/// The names of the required values, in declaration order.
pub open spec fn mandatory_of(values: Seq<ValueDefV>) -> Seq<Seq<char>>
    decreases values.len(),
{
    if values.len() == 0 {
        Seq::empty()
    } else if values.last().is_required {
        mandatory_of(values.drop_last()).push(values.last().name)
    } else {
        mandatory_of(values.drop_last())
    }
}

/// The parsed states that are not the `EOF` override, in order.
pub open spec fn non_eof_states(states: Seq<(Seq<char>, Seq<StateRuleV>)>) -> Seq<
    (Seq<char>, Seq<StateRuleV>),
>
    decreases states.len(),
{
    if states.len() == 0 {
        Seq::empty()
    } else if states.last().0 == "EOF"@ {
        non_eof_states(states.drop_last())
    } else {
        non_eof_states(states.drop_last()).push(states.last())
    }
}

/// The rules of the last `EOF` override among the parsed states, if any.
pub open spec fn last_eof_rules(states: Seq<(Seq<char>, Seq<StateRuleV>)>) -> Option<
    Seq<StateRuleV>,
>
    decreases states.len(),
{
    if states.len() == 0 {
        None
    } else if states.last().0 == "EOF"@ {
        Some(states.last().1)
    } else {
        last_eof_rules(states.drop_last())
    }
}

/// The rule the compiler installs for the synthetic `EOF` state: match
/// anything, emit the record, and stop.
pub open spec fn synthetic_eof_rule() -> StateRuleV {
    StateRuleV {
        rule_match: ".*"@,
        transition: RuleTransitionV {
            line_action: LineActionV::Next(Some(NextStateV::NamedState("End"@))),
            record_action: RecordAction::Record,
        },
    }
}

/// A compiled state carries its parsed counterpart rule for rule.
pub open spec fn state_compiled_from(
    sc: StateV,
    sd: (Seq<char>, Seq<StateRuleV>),
    values: Seq<ValueDefV>,
) -> bool {
    &&& sc.name == sd.0
    &&& sc.rules.len() == sd.1.len()
    &&& forall|j: int| 0 <= j < sd.1.len() ==> rule_compiled_from(
        #[trigger] sc.rules[j],
        sd.1[j],
        values,
    )
}

/// Whether a parsed rule can make compilation fall back or fail: its
/// pattern does not parse, a variable is unknown, or the linear engine
/// rejects the expansion.
pub open spec fn rule_trouble(r: StateRuleV, values: Seq<ValueDefV>) -> bool {
    match parse_chunks(r.rule_match) {
        None => true,
        Some(c) => match expand_chunks(c, values) {
            Err(_) => true,
            Ok(ev) => !classic_compiles(ev.0),
        },
    }
}

/// Whether any rule of the parsed template, the synthetic `EOF` rule
/// counted too, can make compilation fall back or fail.
pub open spec fn template_trouble(tv: TplAccV) -> bool {
    ||| rule_trouble(synthetic_eof_rule(), tv.values)
    ||| exists|i: int, j: int|
        0 <= i < tv.states.len() && 0 <= j < tv.states[i].1.len() && rule_trouble(
            tv.states[i].1[j],
            tv.values,
        )
}

/// Every rule of a state, compiled against its declared values, is
/// accepted by its engine and names only declared variables.
pub open spec fn state_wf(s: StateV, values: Seq<ValueDefV>) -> bool {
    forall|j: int| 0 <= j < s.rules.len() ==> rule_wf(#[trigger] s.rules[j]) && (forall|k: int|
        0 <= k < s.rules[j].vars.len() ==> lookup_value(values, #[trigger] s.rules[j].vars[k])
            is Some)
}

/// What every compiled template satisfies: value names are unique, the
/// required list follows from the values, and every state is well
/// formed.
pub open spec fn program_wf(p: ProgramV) -> bool {
    &&& values_unique(p.values)
    &&& p.mandatory == mandatory_of(p.values)
    &&& forall|i: int| 0 <= i < p.states.len() ==> state_wf(#[trigger] p.states[i], p.values)
}

/// A compiled rule that came from a source rule is well formed.
pub proof fn lemma_compiled_rule_wf(c: RuleV, r: StateRuleV, values: Seq<ValueDefV>)
    requires
        rule_compiled_from(c, r, values),
    ensures
        rule_wf(c),
        forall|k: int| 0 <= k < c.vars.len() ==> lookup_value(values, #[trigger] c.vars[k]) is Some,
{
    let chunks = parse_chunks(r.rule_match)->Some_0;
    lemma_expand_vars_known(chunks, values);
}

/// Compiles each rule of one parsed state.
fn compile_state_def(d: &StateDef, values: &Vec<ValueDefinition>) -> (r: Result<
    StateCompiled,
    TextFsmError,
>)
    ensures
        match r {
            Ok(sc) => state_compiled_from(sc@, d@, vals_view_of(values@)),
            Err(e) => e@ is ParseError && exists|j: int|
                0 <= j < d@.1.len() && rule_trouble(#[trigger] d@.1[j], vals_view_of(values@)),
        },
{
    proof {
        lemma_rules_view_of(d.rules@);
    }
    let mut rules: Vec<StateRuleCompiled> = Vec::new();
    let mut j: usize = 0;
    proof {
        lemma_crules_view_of(rules@);
    }
    while j < d.rules.len()
        invariant
            j <= d.rules@.len(),
            d@.1.len() == d.rules@.len(),
            forall|t: int| 0 <= t < d.rules@.len() ==> #[trigger] d@.1[t] == d.rules@[t]@,
            crules_view_of(rules@).len() == j,
            forall|t: int| 0 <= t < j ==> state_compiled_from_at(
                crules_view_of(rules@),
                d@.1,
                vals_view_of(values@),
                t,
            ),
        decreases d.rules@.len() - j,
    {
        match compile_state_rule(&d.rules[j], values) {
            Err(e) => {
                proof {
                    assert(rule_trouble(d@.1[j as int], vals_view_of(values@)));
                }
                return Err(e);
            },
            Ok(c) => {
                let ghost pre = rules@;
                let ghost cv = c@;
                rules.push(c);
                j = j + 1;
                proof {
                    assert(rules@.drop_last() =~= pre);
                    lemma_crules_view_of(rules@);
                    lemma_crules_view_of(pre);
                    assert forall|t: int| 0 <= t < j implies state_compiled_from_at(
                        crules_view_of(rules@),
                        d@.1,
                        vals_view_of(values@),
                        t,
                    ) by {
                        if t < j - 1 {
                            assert(state_compiled_from_at(crules_view_of(pre), d@.1, vals_view_of(
                                values@,
                            ), t));
                            assert(crules_view_of(pre)[t] == pre[t]@);
                            assert(crules_view_of(rules@)[t] == rules@[t]@);
                        } else {
                            assert(crules_view_of(rules@)[t] == cv);
                        }
                    }
                }
            },
        }
    }
    let sc = StateCompiled { name: d.name.clone(), rules };
    proof {
        assert forall|t: int| 0 <= t < d@.1.len() implies rule_compiled_from(
            #[trigger] sc@.rules[t],
            d@.1[t],
            vals_view_of(values@),
        ) by {
            assert(state_compiled_from_at(sc@.rules, d@.1, vals_view_of(values@), t));
        }
        assert(state_compiled_from(sc@, d@, vals_view_of(values@)));
    }
    Ok(sc)
}

/// One position of the rule-for-rule compilation relation.
pub open spec fn state_compiled_from_at(
    rules: Seq<RuleV>,
    src: Seq<StateRuleV>,
    values: Seq<ValueDefV>,
    t: int,
) -> bool {
    0 <= t < src.len() && t < rules.len() && rule_compiled_from(rules[t], src[t], values)
}

/// A parsed state that is not the `EOF` override keeps a place among
/// the non-override states.
pub proof fn lemma_non_eof_keeps_name(states: Seq<(Seq<char>, Seq<StateRuleV>)>, name: Seq<char>)
    requires
        name != "EOF"@,
        state_index_from(states, name, 0) is Some,
    ensures
        exists|q: int|
            0 <= q < non_eof_states(states).len() && (#[trigger] non_eof_states(states)[q]).0
                == name,
    decreases states.len(),
{
    lemma_state_index_from(states, name, 0);
    let k = state_index_from(states, name, 0)->Some_0;
    if k == states.len() - 1 {
        let ne = non_eof_states(states);
        assert(states.last().0 == name);
        assert(ne[ne.len() - 1].0 == name);
    } else {
        assert(state_index_from(states.drop_last(), name, 0) is Some) by {
            lemma_state_index_from(states.drop_last(), name, 0);
            if state_index_from(states.drop_last(), name, 0) is None {
                assert(states.drop_last()[k].0 != name);
                assert(states.drop_last()[k] == states[k]);
            }
        }
        lemma_non_eof_keeps_name(states.drop_last(), name);
        let w = choose|q: int|
            0 <= q < non_eof_states(states.drop_last()).len() && (#[trigger] non_eof_states(
                states.drop_last(),
            )[q]).0 == name;
        if states.last().0 == "EOF"@ {
            assert(non_eof_states(states)[w].0 == name);
        } else {
            assert(non_eof_states(states) == non_eof_states(states.drop_last()).push(
                states.last(),
            ));
            assert(non_eof_states(states)[w].0 == name);
        }
    }
}

impl TextFSMParser {
    /// Parses one `Value` declaration line.
    pub fn parse_value_definition(line: &str) -> (r: Result<ValueDefinition, TextFsmError>)
        ensures
            match r {
                Ok(v) => crate::template::parse_value_line_spec(line@) == Ok::<
                    ValueDefV,
                    crate::error::ErrorV,
                >(v@),
                Err(e) => crate::template::parse_value_line_spec(line@) == Err::<
                    ValueDefV,
                    crate::error::ErrorV,
                >(e@),
            },
    {
        let cs = crate::text::str_chars(line);
        parse_value_line(cs.as_slice())
    }

    /// Parses one indented rule line.
    pub fn parse_state_rule(line: &str) -> (r: Result<StateRule, TextFsmError>)
        ensures
            match r {
                Ok(v) => crate::template::parse_rule_line_spec(line@) == Ok::<
                    StateRuleV,
                    crate::error::ErrorV,
                >(v@),
                Err(e) => crate::template::parse_rule_line_spec(line@) == Err::<
                    StateRuleV,
                    crate::error::ErrorV,
                >(e@),
            },
    {
        let cs = crate::text::str_chars(line);
        parse_rule_line(cs.as_slice())
    }

    /// Parses the transition text of a rule, as it stands after `->`.
    pub fn parse_state_rule_transition(text: &str) -> (r: Result<RuleTransition, TextFsmError>)
        ensures
            match r {
                Ok(v) => crate::template::parse_transition_spec(text@) == Ok::<
                    RuleTransitionV,
                    crate::error::ErrorV,
                >(v@),
                Err(e) => crate::template::parse_transition_spec(text@) == Err::<
                    RuleTransitionV,
                    crate::error::ErrorV,
                >(e@),
            },
    {
        let cs = crate::text::str_chars(text);
        crate::template::parse_transition_text(cs.as_slice())
    }

    /// Compiles a whole template from its text: parses the value block
    /// and the state blocks, expands every rule over the declared
    /// values, picks an engine for each, and installs the synthetic
    /// `EOF` state unless the template overrides it.
    pub fn from_string(template: &str) -> (r: Result<TextFSMParser, TextFsmError>)
        ensures
            match r {
                Ok(p) => parse_template_spec(spec_lines(template@)) matches Ok(tv) && {
                    &&& p@.values == tv.values
                    &&& p@.mandatory == mandatory_of(tv.values)
                    &&& program_wf(p@)
                    &&& state_index_from(tv.states, "Start"@, 0) is Some
                    &&& (exists|q: int|
                        0 <= q < p@.states.len() && (#[trigger] p@.states[q]).name == "Start"@)
                    &&& p@.states.len() == non_eof_states(tv.states).len() + 1
                    &&& p@.states[0].name == "EOF"@
                    &&& (match last_eof_rules(tv.states) {
                        None => p@.states[0].rules.len() == 1 && rule_compiled_from(
                            p@.states[0].rules[0],
                            synthetic_eof_rule(),
                            tv.values,
                        ),
                        Some(rls) => state_compiled_from(p@.states[0], ("EOF"@, rls), tv.values),
                    })
                    &&& (forall|q: int|
                        0 <= q < non_eof_states(tv.states).len() ==> state_compiled_from(
                            p@.states[q + 1],
                            #[trigger] non_eof_states(tv.states)[q],
                            tv.values,
                        ))
                },
                Err(e) => {
                    ||| parse_template_spec(spec_lines(template@)) matches Err(pe) && e@ == pe
                    ||| parse_template_spec(spec_lines(template@)) matches Ok(tv)
                        && state_index_from(tv.states, "Start"@, 0) is None && e@
                        == ErrorV::ParseError("template has no Start state"@)
                    ||| parse_template_spec(spec_lines(template@)) matches Ok(tv)
                        && template_trouble(tv) && e@ is ParseError
                },
            },
    {
        let lines = split_lines(template);
        let parsed = match parse_template_exec(&lines) {
            Ok(x) => x,
            Err(e) => {
                return Err(e);
            },
        };
        let values = parsed.0;
        let defs = parsed.1;
        if find_def_position(&defs, "Start").is_none() {
            return Err(
                TextFsmError::ParseError(String::from_str("template has no Start state")),
            );
        }
        let ghost vv = vals_view_of(values@);
        let ghost dsv = defs_view_of(defs@);
        proof {
            lemma_vals_view_of(values@);
            lemma_defs_view_of(defs@);
        }
        // the required names, in declaration order
        let mut mandatory_values: Vec<String> = Vec::new();
        let mut t: usize = 0;
        proof {
            crate::record::lemma_strs_view_of(mandatory_values@);
            assert(crate::record::strs_view_of(mandatory_values@) =~~= mandatory_of(vv.subrange(
                0,
                0,
            ))) by {
                assert(vv.subrange(0, 0) =~= Seq::<ValueDefV>::empty());
            }
        }
        while t < values.len()
            invariant
                t <= values@.len(),
                vv == vals_view_of(values@),
                vv.len() == values@.len(),
                forall|j: int| 0 <= j < values@.len() ==> #[trigger] vv[j] == values@[j]@,
                crate::record::strs_view_of(mandatory_values@) == mandatory_of(vv.subrange(
                    0,
                    t as int,
                )),
            decreases values@.len() - t,
        {
            proof {
                assert(vv.subrange(0, (t + 1) as int).drop_last() =~= vv.subrange(0, t as int));
                assert(vv.subrange(0, (t + 1) as int).last() == vv[t as int]);
            }
            if values[t].is_required {
                let ghost pre = mandatory_values@;
                mandatory_values.push(values[t].name.clone());
                proof {
                    assert(mandatory_values@.drop_last() =~= pre);
                    assert(crate::record::strs_view_of(mandatory_values@) == mandatory_of(
                        vv.subrange(0, (t + 1) as int),
                    ));
                }
            }
            t = t + 1;
        }
        proof {
            assert(vv.subrange(0, vv.len() as int) =~= vv);
        }
        // the synthetic EOF state
        let eof_src = StateRule {
            rule_match: String::from_str(".*"),
            transition: RuleTransition {
                line_action: LineAction::Next(
                    Some(NextState::NamedState(String::from_str("End"))),
                ),
                record_action: RecordAction::Record,
            },
        };
        proof {
            assert(eof_src@ =~~= synthetic_eof_rule());
        }
        let eof_c = match compile_state_rule(&eof_src, &values) {
            Ok(c) => c,
            Err(e) => {
                proof {
                    assert(rule_trouble(synthetic_eof_rule(), vv));
                }
                return Err(e);
            },
        };
        let ghost eof_cv = eof_c@;
        let mut rules0: Vec<StateRuleCompiled> = Vec::new();
        rules0.push(eof_c);
        let mut states: Vec<StateCompiled> = Vec::new();
        states.push(StateCompiled { name: String::from_str("EOF"), rules: rules0 });
        proof {
            lemma_cstates_view_of(states@);
            lemma_crules_view_of(states@[0].rules@);
            assert(cstates_view_of(states@)[0].rules =~~= seq![eof_cv]);
            assert(non_eof_states(dsv.subrange(0, 0)) =~~= Seq::<
                (Seq<char>, Seq<StateRuleV>),
            >::empty()) by {
                assert(dsv.subrange(0, 0) =~= Seq::<(Seq<char>, Seq<StateRuleV>)>::empty());
            }
        }
        let mut t: usize = 0;
        while t < defs.len()
            invariant
                t <= defs@.len(),
                vv == vals_view_of(values@),
                dsv == defs_view_of(defs@),
                parse_template_spec(spec_lines(template@)) matches Ok(tv) && tv.values == vv
                    && tv.states == dsv,
                dsv.len() == defs@.len(),
                forall|j: int| 0 <= j < defs@.len() ==> #[trigger] dsv[j] == defs@[j]@,
                states@.len() == 1 + non_eof_states(dsv.subrange(0, t as int)).len(),
                cstates_view_of(states@).len() == states@.len(),
                forall|j: int| 0 <= j < states@.len() ==> #[trigger] cstates_view_of(states@)[j]
                    == states@[j]@,
                states@[0]@.name == "EOF"@,
                (match last_eof_rules(dsv.subrange(0, t as int)) {
                    None => states@[0]@.rules.len() == 1 && rule_compiled_from(
                        states@[0]@.rules[0],
                        synthetic_eof_rule(),
                        vv,
                    ),
                    Some(rls) => state_compiled_from(states@[0]@, ("EOF"@, rls), vv),
                }),
                forall|q: int|
                    0 <= q < non_eof_states(dsv.subrange(0, t as int)).len()
                        ==> state_compiled_from(
                        states@[q + 1]@,
                        #[trigger] non_eof_states(dsv.subrange(0, t as int))[q],
                        vv,
                    ),
            decreases defs@.len() - t,
        {
            proof {
                assert(dsv.subrange(0, (t + 1) as int).drop_last() =~= dsv.subrange(0, t as int));
                assert(dsv.subrange(0, (t + 1) as int).last() == dsv[t as int]);
            }
            let sc = match compile_state_def(&defs[t], &values) {
                Ok(sc) => sc,
                Err(e) => {
                    proof {
                        let jw = choose|j: int|
                            0 <= j < defs@[t as int]@.1.len() && rule_trouble(
                                #[trigger] defs@[t as int]@.1[j],
                                vv,
                            );
                        assert(0 <= t < dsv.len() && 0 <= jw < dsv[t as int].1.len()
                            && rule_trouble(dsv[t as int].1[jw], vv));
                    }
                    return Err(e);
                },
            };
            let ghost scv = sc@;
            let is_eof = crate::text::str_eq(sc.name.as_str(), "EOF");
            if is_eof {
                states[0] = sc;
                proof {
                    lemma_cstates_view_of(states@);
                }
            } else {
                let ghost pre_states = states@;
                states.push(sc);
                proof {
                    assert(states@.drop_last() =~= pre_states);
                    lemma_cstates_view_of(states@);
                    lemma_cstates_view_of(pre_states);
                }
            }
            t = t + 1;
        }
        proof {
            assert(dsv.subrange(0, dsv.len() as int) =~= dsv);
        }
        let p = TextFSMParser { values, mandatory_values, states };
        proof {
            lemma_cstates_view_of(p.states@);
            assert(p@.states =~~= cstates_view_of(p.states@));
            assert forall|i: int| 0 <= i < p@.states.len() implies state_wf(
                #[trigger] p@.states[i],
                p@.values,
            ) by {
                assert forall|j: int| 0 <= j < p@.states[i].rules.len() implies rule_wf(
                    #[trigger] p@.states[i].rules[j],
                ) && (forall|k: int|
                    0 <= k < p@.states[i].rules[j].vars.len() ==> lookup_value(
                        p@.values,
                        #[trigger] p@.states[i].rules[j].vars[k],
                    ) is Some) by {
                    if i == 0 {
                        match last_eof_rules(dsv) {
                            None => {
                                lemma_compiled_rule_wf(
                                    p@.states[0].rules[0],
                                    synthetic_eof_rule(),
                                    vv,
                                );
                            },
                            Some(rls) => {
                                lemma_compiled_rule_wf(p@.states[0].rules[j], rls[j], vv);
                            },
                        }
                    } else {
                        lemma_compiled_rule_wf(
                            p@.states[i].rules[j],
                            non_eof_states(dsv)[i - 1].1[j],
                            vv,
                        );
                    }
                }
            }
            assert("Start"@ != "EOF"@) by {
                reveal_strlit("Start");
                reveal_strlit("EOF");
                assert("Start"@[0] == 'S');
                assert("EOF"@[0] == 'E');
            }
            lemma_non_eof_keeps_name(dsv, "Start"@);
            let w = choose|q: int|
                0 <= q < non_eof_states(dsv).len() && (#[trigger] non_eof_states(dsv)[q]).0
                    == "Start"@;
            assert(p@.states[w + 1] == p.states@[w + 1]@);
            assert(state_compiled_from(p@.states[w + 1], non_eof_states(dsv)[w], vv));
            assert(p@.states[w + 1].name == "Start"@);
        }
        Ok(p)
    }
}

} // verus!
