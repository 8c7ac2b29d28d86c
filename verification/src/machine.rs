use vstd::prelude::*;
use crate::compile::{
    lookup_value, program_wf, MultiRegex, ProgramV, StateV, TextFSMParser, RuleV,
};
use crate::error::{ErrorV, TextFsmError};
use crate::record::{
    append_field, field_index, find_field, set_field, DataRecord, FieldsV, RecordV, Value, ValueV,
    fields_unique, quoted, value_text,
};
use crate::rx::{classic_found, fancy_found};
use crate::template::{LineActionV, NextState, NextStateV, RecordAction, ValueDefV};
use vstd::string::StringExecFns;

verus! {

/// The mutable side of one parse: the record being filled, the filldown
/// defaults, and the records emitted so far.
#[verifier::ext_equal]
pub struct MemV {
    pub curr: RecordV,
    pub filldown: RecordV,
    pub out: Seq<RecordV>,
}

/// A machine in flight: its current state name and its memory.
#[verifier::ext_equal]
pub struct MachV {
    pub state: Seq<char>,
    pub mem: MemV,
}

/// Spec image of a [`TextFSM`].
#[verifier::ext_equal]
pub struct FsmV {
    pub program: ProgramV,
    pub state: Seq<char>,
    pub mem: MemV,
}

/// The spec image of a record list.
pub open spec fn recs_view_of(v: Seq<DataRecord>) -> Seq<RecordV>
    decreases v.len(),
{
    if v.len() == 0 {
        Seq::empty()
    } else {
        recs_view_of(v.drop_last()).push(v.last()@)
    }
}

/// The viewed records have the same length and viewed entries.
pub proof fn lemma_recs_view_of(v: Seq<DataRecord>)
    ensures
        recs_view_of(v).len() == v.len(),
        forall|j: int| 0 <= j < v.len() ==> #[trigger] recs_view_of(v)[j] == v[j]@,
    decreases v.len(),
{
    if v.len() > 0 {
        lemma_recs_view_of(v.drop_last());
    }
}

/// The position of the first state named `name` at or after `i`.
pub open spec fn state_pos_from(states: Seq<StateV>, name: Seq<char>, i: int) -> Option<int>
    decreases states.len() - i,
{
    if i < 0 || i >= states.len() {
        None
    } else if states[i].name == name {
        Some(i)
    } else {
        state_pos_from(states, name, i + 1)
    }
}

/// Where `state_pos_from` lands.
pub proof fn lemma_state_pos_from(states: Seq<StateV>, name: Seq<char>, i: int)
    requires
        0 <= i <= states.len(),
    ensures
        match state_pos_from(states, name, i) {
            Some(k) => i <= k < states.len() && states[k].name == name,
            None => forall|j: int| i <= j < states.len() ==> states[j].name != name,
        },
    decreases states.len() - i,
{
    if i < states.len() && states[i].name != name {
        lemma_state_pos_from(states, name, i + 1);
    }
}

/// The first state of the program named `name`, if any.
pub open spec fn lookup_state(p: ProgramV, name: Seq<char>) -> Option<StateV> {
    match state_pos_from(p.states, name, 0) {
        Some(i) => Some(p.states[i]),
        None => None,
    }
}

/// What a rule's engine hands back on a line: the named groups of the
/// last match, `None` for no match, or `Err` when the backtracking
/// engine gives up.
pub open spec fn rule_outcome(rule: RuleV, line: Seq<char>) -> Result<
    Option<Seq<Option<Seq<char>>>>,
    (),
> {
    match rule.engine {
        MultiRegex::Classic => Ok(classic_found(rule.expanded, line, rule.vars)),
        MultiRegex::Fancy => fancy_found(rule.expanded, line, rule.vars),
    }
}

/// The value stored for a captured group: the text as a scalar or a
/// one-element list, and for a group that took no part the empty string
/// or the one-element list `["None"]`, by the declared kind.
pub open spec fn captured_value(vd: ValueDefV, c: Option<Seq<char>>) -> ValueV {
    match c {
        Some(s) => if vd.is_list {
            ValueV::List(seq![s])
        } else {
            ValueV::Single(s)
        },
        None => if vd.is_list {
            ValueV::List(seq!["None"@])
        } else {
            ValueV::Single(Seq::empty())
        },
    }
}

/// The empty value of a declared kind: `""` or `[]`.
pub open spec fn default_value(vd: ValueDefV) -> ValueV {
    if vd.is_list {
        ValueV::List(Seq::empty())
    } else {
        ValueV::Single(Seq::empty())
    }
}

/// The failed-lookup error of one of the option probes.
pub open spec fn probe_err(probe: Seq<char>, name: Seq<char>) -> ErrorV {
    ErrorV::InternalError(probe + name + " failed"@)
}

/// The temporary capture records of one matched rule: each captured
/// variable bound in order into a fresh record, and the filldown-marked
/// ones also into a fresh filldown record.
pub open spec fn build_tmp(
    values: Seq<ValueDefV>,
    vars: Seq<Seq<char>>,
    caps: Seq<Option<Seq<char>>>,
    i: int,
    acc: (FieldsV, FieldsV),
) -> Result<(FieldsV, FieldsV), ErrorV>
    decreases vars.len() - i,
{
    if i < 0 || i >= vars.len() {
        Ok(acc)
    } else {
        let name = vars[i];
        match lookup_value(values, name) {
            None => Err(probe_err("is_list_value for "@, name)),
            Some(vd) => {
                let v = captured_value(
                    vd,
                    if i < caps.len() {
                        caps[i]
                    } else {
                        None
                    },
                );
                build_tmp(
                    values,
                    vars,
                    caps,
                    i + 1,
                    (
                        set_field(acc.0, name, v),
                        if vd.is_filldown {
                            set_field(acc.1, name, v)
                        } else {
                            acc.1
                        },
                    ),
                )
            },
        }
    }
}

/// Back-fill of one captured value into the emitted records, newest
/// first: records missing the field or holding the empty string take the
/// value; the walk stops at the first non-empty scalar; a list stops the
/// parse with an error.
pub open spec fn apply_fillup(records: Seq<RecordV>, name: Seq<char>, v: ValueV) -> Result<
    Seq<RecordV>,
    ErrorV,
>
    decreases records.len(),
{
    if records.len() == 0 {
        Ok(records)
    } else {
        match find_field(records.last().fields, name) {
            Some(ValueV::List(_)) => Err(
                ErrorV::ParseError("fillup not supported for lists!"@),
            ),
            Some(ValueV::Single(s)) => {
                if s.len() > 0 {
                    Ok(records)
                } else {
                    match apply_fillup(records.drop_last(), name, v) {
                        Err(e) => Err(e),
                        Ok(front) => Ok(
                            front.push(
                                RecordV {
                                    fields: set_field(records.last().fields, name, v),
                                    record_key: records.last().record_key,
                                },
                            ),
                        ),
                    }
                }
            },
            None => match apply_fillup(records.drop_last(), name, v) {
                Err(e) => Err(e),
                Ok(front) => Ok(
                    front.push(
                        RecordV {
                            fields: set_field(records.last().fields, name, v),
                            record_key: records.last().record_key,
                        },
                    ),
                ),
            },
        }
    }
}

/// The temporary records of a match merged into the live memory: each
/// field in order is back-filled when its value is marked fillup and
/// then merged into the current record; the filldown captures then merge
/// into the filldown record; the record key is recomputed at the end.
pub open spec fn merge_step(
    values: Seq<ValueDefV>,
    out: Seq<RecordV>,
    curr: FieldsV,
    tmp: FieldsV,
    i: int,
) -> Result<(Seq<RecordV>, FieldsV), ErrorV>
    decreases tmp.len() - i,
{
    if i < 0 || i >= tmp.len() {
        Ok((out, curr))
    } else {
        let name = tmp[i].0;
        let v = tmp[i].1;
        match lookup_value(values, name) {
            None => Err(probe_err("is_fillup_value for "@, name)),
            Some(vd) => {
                let stepped = if vd.is_fillup {
                    apply_fillup(out, name, v)
                } else {
                    Ok(out)
                };
                match stepped {
                    Err(e) => Err(e),
                    Ok(out2) => merge_step(values, out2, append_field(curr, name, v), tmp, i + 1),
                }
            },
        }
    }
}

/// Every field of `src`, merged over `fields` in order.
pub open spec fn append_all(fields: FieldsV, src: FieldsV) -> FieldsV
    decreases src.len(),
{
    if src.len() == 0 {
        fields
    } else {
        append_field(append_all(fields, src.drop_last()), src.last().0, src.last().1)
    }
}

/// The rendered key values of a record, in field order.
pub open spec fn key_parts(values: Seq<ValueDefV>, fields: FieldsV) -> Seq<Seq<char>>
    decreases fields.len(),
{
    if fields.len() == 0 {
        Seq::empty()
    } else {
        let front = key_parts(values, fields.drop_last());
        match lookup_value(values, fields.last().0) {
            Some(vd) => if vd.is_key {
                front.push(value_text(fields.last().1))
            } else {
                front
            },
            None => front,
        }
    }
}

/// Parts joined by a slash.
pub open spec fn join_slash(parts: Seq<Seq<char>>) -> Seq<char>
    decreases parts.len(),
{
    if parts.len() == 0 {
        Seq::empty()
    } else if parts.len() == 1 {
        parts[0]
    } else {
        join_slash(parts.drop_last()) + "/"@ + parts.last()
    }
}

/// The composite key of a record: its rendered key values joined by
/// slashes, or nothing when no key field is present.
pub open spec fn record_key_of(values: Seq<ValueDefV>, fields: FieldsV) -> Option<Seq<char>> {
    let parts = key_parts(values, fields);
    if parts.len() == 0 {
        None
    } else {
        Some(join_slash(parts))
    }
}

/// Whether one required value is bound and set in the fields: a scalar
/// must not be the empty string, a list counts as set.
pub open spec fn mandatory_ok_at(fields: FieldsV, name: Seq<char>) -> bool {
    match find_field(fields, name) {
        Some(ValueV::Single(s)) => s.len() > 0,
        Some(ValueV::List(_)) => true,
        None => false,
    }
}

/// Whether every required value is bound and set in the fields.
pub open spec fn mandatory_satisfied(p: ProgramV, fields: FieldsV) -> bool {
    forall|k: int| 0 <= k < p.mandatory.len() ==> mandatory_ok_at(fields, #[trigger] p.mandatory[k])
}

/// The fields with every declared value not yet present bound to its
/// empty default, in declaration order.
pub open spec fn add_missing(values: Seq<ValueDefV>, fields: FieldsV, i: int) -> FieldsV
    decreases values.len() - i,
{
    if i < 0 || i >= values.len() {
        fields
    } else {
        let vd = values[i];
        let f2 = if find_field(fields, vd.name) is None {
            fields.push((vd.name, default_value(vd)))
        } else {
            fields
        };
        add_missing(values, f2, i + 1)
    }
}

/// The current record's fields kept on `Clear`: only the filldown-marked
/// ones stay, in order; a field whose name is not declared stops the
/// parse.
pub open spec fn clear_fields(values: Seq<ValueDefV>, fields: FieldsV) -> Result<FieldsV, ErrorV>
    decreases fields.len(),
{
    if fields.len() == 0 {
        Ok(Seq::empty())
    } else {
        match clear_fields(values, fields.drop_last()) {
            Err(e) => Err(e),
            Ok(front) => match lookup_value(values, fields.last().0) {
                None => Err(probe_err("is_filldown_value for "@, fields.last().0)),
                Some(vd) => {
                    if vd.is_filldown {
                        Ok(front.push(fields.last()))
                    } else {
                        Ok(front)
                    }
                },
            },
        }
    }
}

/// An empty record.
pub open spec fn empty_record() -> RecordV {
    RecordV { fields: Seq::empty(), record_key: None }
}

/// A rule's record action applied to the memory.  `Record` emits the
/// current record when it has any field and every required value: the
/// emitted copy takes an empty default for each still-absent declared
/// value, and the current record starts over from the filldown record.
pub open spec fn apply_record_action(p: ProgramV, ra: RecordAction, mem: MemV) -> Result<
    MemV,
    ErrorV,
> {
    match ra {
        RecordAction::NoRecord => Ok(mem),
        RecordAction::Record => {
            if mem.curr.fields.len() > 0 && mandatory_satisfied(p, mem.curr.fields) {
                let emitted = RecordV {
                    fields: add_missing(p.values, mem.curr.fields, 0),
                    record_key: mem.curr.record_key,
                };
                Ok(MemV { curr: mem.filldown, filldown: mem.filldown, out: mem.out.push(emitted) })
            } else {
                Ok(mem)
            }
        },
        RecordAction::Clear => match clear_fields(p.values, mem.curr.fields) {
            Err(e) => Err(e),
            Ok(f2) => Ok(
                MemV {
                    curr: RecordV { fields: f2, record_key: mem.curr.record_key },
                    filldown: mem.filldown,
                    out: mem.out,
                },
            ),
        },
        RecordAction::Clearall => Ok(
            MemV { curr: empty_record(), filldown: empty_record(), out: mem.out },
        ),
    }
}

/// One matched rule's captures merged into the memory.
pub open spec fn merge_captures(
    p: ProgramV,
    mem: MemV,
    vars: Seq<Seq<char>>,
    caps: Seq<Option<Seq<char>>>,
) -> Result<MemV, ErrorV> {
    match build_tmp(p.values, vars, caps, 0, (Seq::empty(), Seq::empty())) {
        Err(e) => Err(e),
        Ok((tmp, tmpf)) => match merge_step(p.values, mem.out, mem.curr.fields, tmp, 0) {
            Err(e) => Err(e),
            Ok((out2, curr2)) => {
                let fd2 = append_all(mem.filldown.fields, tmpf);
                Ok(
                    MemV {
                        curr: RecordV {
                            fields: curr2,
                            record_key: record_key_of(p.values, curr2),
                        },
                        filldown: RecordV { fields: fd2, record_key: mem.filldown.record_key },
                        out: out2,
                    },
                )
            },
        },
    }
}

/// The rules of a state tried in order on one line, from rule `i` on:
/// the first match applies its record action, and its line action either
/// consumes the line (handing back the optional transition target) or
/// keeps going with the next rule.
pub open spec fn run_rules(
    p: ProgramV,
    mem: MemV,
    rules: Seq<RuleV>,
    i: int,
    line: Seq<char>,
) -> Result<(MemV, Option<NextStateV>), ErrorV>
    decreases rules.len() - i,
{
    if i < 0 || i >= rules.len() {
        Ok((mem, None))
    } else {
        let rule = rules[i];
        match rule_outcome(rule, line) {
            Err(_) => Err(ErrorV::ParseError("FANCY caps not ok"@)),
            Ok(None) => run_rules(p, mem, rules, i + 1, line),
            Ok(Some(caps)) => match merge_captures(p, mem, rule.vars, caps) {
                Err(e) => Err(e),
                Ok(mem2) => match apply_record_action(p, rule.transition.record_action, mem2) {
                    Err(e) => Err(e),
                    Ok(mem3) => match rule.transition.line_action {
                        LineActionV::Next(x) => Ok((mem3, x)),
                        LineActionV::Continue => run_rules(p, mem3, rules, i + 1, line),
                    },
                },
            },
        }
    }
}

/// The state-not-found error for `name`.
pub open spec fn no_state_err(name: Seq<char>) -> ErrorV {
    ErrorV::StateError("State "@ + name + " not found!"@)
}

/// The error of entering an undeclared state `name`.
pub open spec fn bad_target_err(name: Seq<char>) -> ErrorV {
    ErrorV::StateError("State '"@ + name + "' not found!"@)
}

/// One line evaluated in the named state.
pub open spec fn step_line(p: ProgramV, state: Seq<char>, mem: MemV, line: Seq<char>) -> Result<
    (MemV, Option<NextStateV>),
    ErrorV,
> {
    match lookup_state(p, state) {
        None => Err(no_state_err(state)),
        Some(st) => run_rules(p, mem, st.rules, 0, line),
    }
}

/// The rendering of an optional error message in a diagnostic form.
pub open spec fn opt_msg_diag(m: Option<Seq<char>>) -> Seq<char> {
    match m {
        None => "None"@,
        Some(t) => "Some("@ + quoted(t) + ")"@,
    }
}

/// The error raised when a rule transitions to the error state.
pub open spec fn error_state_err(m: Option<Seq<char>>) -> ErrorV {
    ErrorV::StateError("Error state reached! msg: "@ + opt_msg_diag(m))
}

/// One line fed to the machine: the line is evaluated in the current
/// state and the returned transition is applied, checking that a named
/// target other than `End` exists.
pub open spec fn feed_one(p: ProgramV, m: MachV, line: Seq<char>) -> Result<MachV, ErrorV> {
    match step_line(p, m.state, m.mem, line) {
        Err(e) => Err(e),
        Ok((mem2, ns)) => match ns {
            None => Ok(MachV { state: m.state, mem: mem2 }),
            Some(NextStateV::Error(msg)) => Err(error_state_err(msg)),
            Some(NextStateV::NamedState(n)) => {
                if n != "End"@ && lookup_state(p, n) is None {
                    Err(bad_target_err(n))
                } else {
                    Ok(MachV { state: n, mem: mem2 })
                }
            },
        },
    }
}

/// The lines from `i` on fed in order; reaching `EOF` or `End` stops the
/// loop after the line that entered it.
pub open spec fn run_lines(p: ProgramV, m: MachV, lines: Seq<Seq<char>>, i: int) -> Result<
    MachV,
    ErrorV,
>
    decreases lines.len() - i,
{
    if i < 0 || i >= lines.len() {
        Ok(m)
    } else {
        match feed_one(p, m, lines[i]) {
            Err(e) => Err(e),
            Ok(m2) => {
                if m2.state == "EOF"@ || m2.state == "End"@ {
                    Ok(m2)
                } else {
                    run_lines(p, m2, lines, i + 1)
                }
            },
        }
    }
}

/// The synthetic end of input: unless the machine already reached `End`,
/// it enters `EOF`, evaluates one empty line there, and stops in `End`.
pub open spec fn finish_run(p: ProgramV, m: MachV) -> Result<MachV, ErrorV> {
    if m.state == "End"@ {
        Ok(m)
    } else if lookup_state(p, "EOF"@) is None {
        Err(bad_target_err("EOF"@))
    } else {
        match step_line(p, "EOF"@, m.mem, Seq::empty()) {
            Err(e) => Err(e),
            Ok((mem2, _)) => Ok(MachV { state: "End"@, mem: mem2 }),
        }
    }
}

/// A whole text parsed from the machine's present state: its lines fed
/// in order, then the synthetic end of input.
pub open spec fn parse_run(p: ProgramV, m: MachV, text: Seq<char>) -> Result<MachV, ErrorV> {
    match run_lines(p, m, crate::text::spec_lines(text), 0) {
        Err(e) => Err(e),
        Ok(m1) => finish_run(p, m1),
    }
}

/// Whether the fields bind only declared names, with the declared kind,
/// each name at most once.
pub open spec fn fields_wf(values: Seq<ValueDefV>, fields: FieldsV) -> bool {
    &&& fields_unique(fields)
    &&& forall|j: int|
        0 <= j < fields.len() ==> (lookup_value(values, (#[trigger] fields[j]).0) matches Some(vd)
            && (vd.is_list <==> fields[j].1 is List))
}

/// Whether a memory is well formed over the declared values: both
/// buffers bind declared names with their kinds, the filldown buffer
/// holds only filldown-marked names, and every emitted record is well
/// formed and complete.
pub open spec fn mem_wf(values: Seq<ValueDefV>, mem: MemV) -> bool {
    &&& fields_wf(values, mem.curr.fields)
    &&& fields_wf(values, mem.filldown.fields)
    &&& forall|j: int|
        0 <= j < mem.filldown.fields.len() ==> (lookup_value(
            values,
            (#[trigger] mem.filldown.fields[j]).0,
        ) matches Some(vd) && vd.is_filldown)
    &&& forall|r: int| 0 <= r < mem.out.len() ==> fields_wf(values, (#[trigger] mem.out[r]).fields)
    &&& forall|r: int, k: int|
        0 <= r < mem.out.len() && 0 <= k < values.len() ==> find_field(
            (#[trigger] mem.out[r]).fields,
            (#[trigger] values[k]).name,
        ) is Some
}

/// A whole machine is well formed when its program is and its memory is.
pub open spec fn fsm_wf(f: FsmV) -> bool {
    &&& program_wf(f.program)
    &&& mem_wf(f.program.values, f.mem)
}

/// A template-driven parser in flight: the compiled template, the name
/// of the state it stands in, the record being assembled, the filldown
/// defaults, and the records emitted so far.
#[derive(Debug)]
pub struct TextFSM {
    pub parser: TextFSMParser,
    pub curr_state: String,
    pub curr_record: DataRecord,
    pub filldown_record: DataRecord,
    pub records: Vec<DataRecord>,
}

impl View for TextFSM {
    type V = FsmV;

    open spec fn view(&self) -> FsmV {
        FsmV {
            program: self.parser@,
            state: self.curr_state@,
            mem: MemV {
                curr: self.curr_record@,
                filldown: self.filldown_record@,
                out: recs_view_of(self.records@),
            },
        }
    }
}

/// The machine part of a whole parser.
pub open spec fn mach_of(f: FsmV) -> MachV {
    MachV { state: f.state, mem: f.mem }
}

/// Which conversions may be applied to the records a parse returns.
#[derive(Debug, Clone, Copy, PartialEq, Eq, Structural)]
pub enum DataRecordConversion {
    /// Post-map every record's field names to lower case.
    LowercaseKeys,
}

impl TextFSM {
    /// A machine over the template compiled from `template`, standing in
    /// `Start` with empty buffers.
    pub fn from_string(template: &str) -> (r: Result<TextFSM, TextFsmError>)
        ensures
            match r {
                Ok(f) => {
                    &&& call_ensures(
                        TextFSMParser::from_string,
                        (template,),
                        Ok::<TextFSMParser, TextFsmError>(f.parser),
                    )
                    &&& f@.state == "Start"@
                    &&& f@.mem.curr == empty_record()
                    &&& f@.mem.filldown == empty_record()
                    &&& f@.mem.out == Seq::<RecordV>::empty()
                    &&& fsm_wf(f@)
                },
                Err(e) => call_ensures(
                    TextFSMParser::from_string,
                    (template,),
                    Err::<TextFSMParser, TextFsmError>(e),
                ),
            },
    {
        let parser = match TextFSMParser::from_string(template) {
            Ok(p) => p,
            Err(e) => {
                return Err(e);
            },
        };
        let f = TextFSM {
            parser,
            curr_state: String::from_str("Start"),
            curr_record: DataRecord::new(),
            filldown_record: DataRecord::new(),
            records: Vec::new(),
        };
        proof {
            lemma_recs_view_of(f.records@);
            assert(f@.mem.curr =~~= empty_record());
            assert(f@.mem.filldown =~~= empty_record());
            assert(f@.mem.out =~~= Seq::<RecordV>::empty());
        }
        Ok(f)
    }
}

/// The position of the first compiled state named `name`, if any.
fn find_state_position(states: &Vec<crate::compile::StateCompiled>, name: &str) -> (r: Option<
    usize,
>)
    ensures
        match r {
            Some(k) => k < states.len() && state_pos_from(
                crate::compile::cstates_view_of(states@),
                name@,
                0,
            ) == Some(k as int),
            None => state_pos_from(crate::compile::cstates_view_of(states@), name@, 0) is None,
        },
{
    proof {
        crate::compile::lemma_cstates_view_of(states@);
    }
    let ghost sv = crate::compile::cstates_view_of(states@);
    let mut k: usize = 0;
    while k < states.len()
        invariant
            k <= states@.len(),
            sv == crate::compile::cstates_view_of(states@),
            sv.len() == states@.len(),
            forall|j: int| 0 <= j < states@.len() ==> #[trigger] sv[j] == states@[j]@,
            state_pos_from(sv, name@, 0) == state_pos_from(sv, name@, k as int),
        decreases states@.len() - k,
    {
        if crate::text::str_eq(states[k].name.as_str(), name) {
            return Some(k);
        }
        k = k + 1;
    }
    None
}

impl TextFSM {
    /// Returns the machine to `Start` with empty buffers; the program is
    /// kept.
    pub fn reset(&mut self)
        ensures
            final(self)@.program == old(self)@.program,
            final(self)@.state == "Start"@,
            final(self)@.mem.curr == empty_record(),
            final(self)@.mem.filldown == empty_record(),
            final(self)@.mem.out == Seq::<RecordV>::empty(),
    {
        self.curr_state = String::from_str("Start");
        self.curr_record = DataRecord::new();
        self.filldown_record = DataRecord::new();
        self.records = Vec::new();
        proof {
            lemma_recs_view_of(self.records@);
            assert(self@.mem.curr =~~= empty_record());
            assert(self@.mem.filldown =~~= empty_record());
            assert(self@.mem.out =~~= Seq::<RecordV>::empty());
        }
    }

    /// Moves the machine to the named state.  Any name may be `End`;
    /// every other name must be a state of the program.
    pub fn set_curr_state(&mut self, state_name: &str) -> (r: Result<(), TextFsmError>)
        ensures
            final(self)@.program == old(self)@.program,
            final(self)@.mem == old(self)@.mem,
            match r {
                Ok(_) => (state_name@ == "End"@ || lookup_state(old(self)@.program, state_name@)
                    is Some) && final(self)@.state == state_name@,
                Err(e) => state_name@ != "End"@ && lookup_state(old(self)@.program, state_name@)
                    is None && e@ == bad_target_err(state_name@) && final(self)@.state == old(
                    self,
                )@.state,
            },
    {
        if !crate::text::str_eq(state_name, "End") {
            match find_state_position(&self.parser.states, state_name) {
                Some(_) => {},
                None => {
                    let nc = crate::text::str_chars(state_name);
                    return Err(
                        TextFsmError::StateError(
                            crate::template::wrap_msg("State '", nc.as_slice(), "' not found!"),
                        ),
                    );
                },
            }
        }
        self.curr_state = String::from_str(state_name);
        Ok(())
    }

    /// Whether the named value participates in record identity, if it is
    /// declared.
    pub fn is_key_value(&self, value_name: &str) -> (r: Option<bool>)
        ensures
            match r {
                Some(b) => lookup_value(self@.program.values, value_name@) matches Some(vd)
                    && b == vd.is_key,
                None => lookup_value(self@.program.values, value_name@) is None,
            },
    {
        match crate::compile::find_value_position(&self.parser.values, value_name) {
            Some(k) => {
                proof {
                    crate::compile::lemma_vals_view_of(self.parser.values@);
                }
                Some(self.parser.values[k].is_key)
            },
            None => None,
        }
    }

    /// Whether the named value carries forward between records, if it is
    /// declared.
    pub fn is_filldown_value(&self, value_name: &str) -> (r: Option<bool>)
        ensures
            match r {
                Some(b) => lookup_value(self@.program.values, value_name@) matches Some(vd)
                    && b == vd.is_filldown,
                None => lookup_value(self@.program.values, value_name@) is None,
            },
    {
        match crate::compile::find_value_position(&self.parser.values, value_name) {
            Some(k) => {
                proof {
                    crate::compile::lemma_vals_view_of(self.parser.values@);
                }
                Some(self.parser.values[k].is_filldown)
            },
            None => None,
        }
    }

    /// Whether the named value back-fills earlier records, if it is
    /// declared.
    pub fn is_fillup_value(&self, value_name: &str) -> (r: Option<bool>)
        ensures
            match r {
                Some(b) => lookup_value(self@.program.values, value_name@) matches Some(vd)
                    && b == vd.is_fillup,
                None => lookup_value(self@.program.values, value_name@) is None,
            },
    {
        match crate::compile::find_value_position(&self.parser.values, value_name) {
            Some(k) => {
                proof {
                    crate::compile::lemma_vals_view_of(self.parser.values@);
                }
                Some(self.parser.values[k].is_fillup)
            },
            None => None,
        }
    }

    /// Whether the named value accumulates as a list, if it is declared.
    pub fn is_list_value(&self, value_name: &str) -> (r: Option<bool>)
        ensures
            match r {
                Some(b) => lookup_value(self@.program.values, value_name@) matches Some(vd)
                    && b == vd.is_list,
                None => lookup_value(self@.program.values, value_name@) is None,
            },
    {
        match crate::compile::find_value_position(&self.parser.values, value_name) {
            Some(k) => {
                proof {
                    crate::compile::lemma_vals_view_of(self.parser.values@);
                }
                Some(self.parser.values[k].is_list)
            },
            None => None,
        }
    }

    /// Binds one captured group into the temporary capture records: the
    /// captured text, or its kind's missing-capture stand-in, goes into
    /// `curr_record`, and also into `filldown_record` when the value
    /// carries forward.  An undeclared name is an internal error.
    pub fn insert_value(
        &self,
        typ: &str,
        curr_record: &mut DataRecord,
        filldown_record: &mut DataRecord,
        name: &str,
        maybe_value: Option<String>,
        aline: &str,
    ) -> (r: Result<(), TextFsmError>)
        ensures
            match r {
                Ok(_) => lookup_value(self@.program.values, name@) matches Some(vd) && {
                    &&& final(curr_record)@.fields == set_field(
                        old(curr_record)@.fields,
                        name@,
                        captured_value(
                            vd,
                            match maybe_value {
                                Some(v) => Some(v@),
                                None => None,
                            },
                        ),
                    )
                    &&& final(curr_record)@.record_key == old(curr_record)@.record_key
                    &&& final(filldown_record)@.fields == (if vd.is_filldown {
                        set_field(
                            old(filldown_record)@.fields,
                            name@,
                            captured_value(
                                vd,
                                match maybe_value {
                                    Some(v) => Some(v@),
                                    None => None,
                                },
                            ),
                        )
                    } else {
                        old(filldown_record)@.fields
                    })
                    &&& final(filldown_record)@.record_key == old(filldown_record)@.record_key
                },
                Err(e) => lookup_value(self@.program.values, name@) is None && e@ == probe_err(
                    "is_list_value for "@,
                    name@,
                ) && final(curr_record)@ == old(curr_record)@ && final(filldown_record)@ == old(
                    filldown_record,
                )@,
            },
    {
        let is_list = match self.is_list_value(name) {
            Some(b) => b,
            None => {
                let nc = crate::text::str_chars(name);
                return Err(
                    TextFsmError::InternalError(
                        crate::template::wrap_msg("is_list_value for ", nc.as_slice(), " failed"),
                    ),
                );
            },
        };
        let ins_value = match maybe_value {
            Some(value) => {
                if is_list {
                    let mut items: Vec<String> = Vec::new();
                    items.push(value);
                    proof {
                        assert(items.deep_view() =~~= seq![items@[0]@]);
                    }
                    Value::List(items)
                } else {
                    Value::Single(value)
                }
            },
            None => {
                if is_list {
                    let mut items: Vec<String> = Vec::new();
                    items.push(String::from_str("None"));
                    proof {
                        assert(items.deep_view() =~~= seq!["None"@]);
                    }
                    Value::List(items)
                } else {
                    Value::Single(String::new())
                }
            },
        };
        let is_filldown = match self.is_filldown_value(name) {
            Some(b) => b,
            None => {
                proof {
                    assert(false);
                }
                false
            },
        };
        let name_s = crate::text::chars_string(crate::text::str_chars(name).as_slice());
        if is_filldown {
            filldown_record.set_value(name_s.clone(), ins_value.duplicate());
        }
        curr_record.set_value(name_s, ins_value);
        Ok(())
    }
}

/// Binding a declared name with its kind keeps the fields well formed.
pub proof fn lemma_set_field_wf(
    values: Seq<ValueDefV>,
    fields: FieldsV,
    name: Seq<char>,
    v: ValueV,
)
    requires
        fields_wf(values, fields),
        lookup_value(values, name) matches Some(vd) && (vd.is_list <==> v is List),
    ensures
        fields_wf(values, set_field(fields, name, v)),
        find_field(set_field(fields, name, v), name) == Some(v),
        forall|n: Seq<char>|
            n != name ==> find_field(set_field(fields, name, v), n) == find_field(fields, n),
{
    crate::record::lemma_set_field_unique(fields, name, v);
    crate::record::lemma_field_index(fields, name);
    let out = set_field(fields, name, v);
    assert forall|n: Seq<char>| n != name implies find_field(out, n) == find_field(
        fields,
        n,
    ) by {
        crate::record::lemma_field_index(out, n);
        crate::record::lemma_field_index(fields, n);
        match field_index(fields, n) {
            Some(i) => {
                assert(out[i].0 == n && out[i].1 == fields[i].1) by {
                    crate::record::lemma_field_index(fields, name);
                }
                crate::record::lemma_field_index(out, n);
                match field_index(out, n) {
                    Some(k) => {
                        if k < i {
                            assert(fields[k].0 == n);
                        }
                    },
                    None => {
                        assert(out[i].0 == n);
                    },
                }
            },
            None => {
                match field_index(out, n) {
                    Some(k) => {
                        if k < fields.len() {
                            assert(fields[k].0 == n);
                        }
                    },
                    None => {},
                }
            },
        }
    }
}

/// The kind-directed merge of a declared name keeps the fields well
/// formed.
pub proof fn lemma_append_field_wf(
    values: Seq<ValueDefV>,
    fields: FieldsV,
    name: Seq<char>,
    v: ValueV,
)
    requires
        fields_wf(values, fields),
        lookup_value(values, name) matches Some(vd) && (vd.is_list <==> v is List),
    ensures
        fields_wf(values, append_field(fields, name, v)),
        find_field(append_field(fields, name, v), name) is Some,
        forall|n: Seq<char>|
            n != name ==> find_field(append_field(fields, name, v), n) == find_field(fields, n),
{
    crate::record::lemma_field_index(fields, name);
    match find_field(fields, name) {
        None => {
            let out = fields.push((name, v));
            assert(out =~~= set_field(fields, name, v));
            lemma_set_field_wf(values, fields, name, v);
        },
        Some(ValueV::Single(_)) => {
            lemma_set_field_wf(values, fields, name, v);
        },
        Some(ValueV::List(l)) => {
            match v {
                ValueV::Single(nv) => {
                    lemma_set_field_wf(values, fields, name, ValueV::List(l.push(nv)));
                },
                ValueV::List(nl) => {
                    lemma_set_field_wf(values, fields, name, ValueV::List(l + nl));
                },
            }
        },
    }
}

/// Back-filling keeps every emitted record well formed and complete,
/// and keeps their number.
pub proof fn lemma_apply_fillup_wf(
    values: Seq<ValueDefV>,
    records: Seq<RecordV>,
    name: Seq<char>,
    v: ValueV,
)
    requires
        forall|r: int| 0 <= r < records.len() ==> fields_wf(values, (#[trigger] records[r]).fields),
        lookup_value(values, name) matches Some(vd) && (vd.is_list <==> v is List),
    ensures
        apply_fillup(records, name, v) matches Ok(r2) ==> r2.len() == records.len() && (forall|
            r: int,
        |
            0 <= r < r2.len() ==> fields_wf(values, (#[trigger] r2[r]).fields)) && (forall|
            r: int,
            n: Seq<char>,
        |
            0 <= r < r2.len() && #[trigger] find_field(records[r].fields, n) is Some
                ==> #[trigger] find_field(r2[r].fields, n) is Some),
    decreases records.len(),
{
    if records.len() > 0 {
        assert(forall|r: int|
            0 <= r < records.drop_last().len() ==> #[trigger] records.drop_last()[r]
                == records[r]);
        lemma_apply_fillup_wf(values, records.drop_last(), name, v);
        lemma_set_field_wf(values, records.last().fields, name, v);
        match apply_fillup(records, name, v) {
            Err(_) => {},
            Ok(r2) => {
                match find_field(records.last().fields, name) {
                    Some(ValueV::Single(st)) if st.len() > 0 => {},
                    Some(ValueV::List(_)) => {},
                    _ => {
                        let front = apply_fillup(records.drop_last(), name, v)->Ok_0;
                        assert forall|r: int, n: Seq<char>|
                            0 <= r < r2.len() && #[trigger] find_field(records[r].fields, n)
                                is Some implies #[trigger] find_field(r2[r].fields, n)
                            is Some by {
                            if r < records.len() - 1 {
                                assert(records.drop_last()[r] == records[r]);
                                assert(r2[r] == front[r]);
                            } else {
                                assert(r2[r].fields == set_field(
                                    records.last().fields,
                                    name,
                                    v,
                                ));
                                if n != name {
                                    assert(find_field(r2[r].fields, n) == find_field(
                                        records[r].fields,
                                        n,
                                    ));
                                }
                            }
                        }
                        assert forall|r: int| 0 <= r < r2.len() implies fields_wf(
                            values,
                            (#[trigger] r2[r]).fields,
                        ) by {
                            if r < records.len() - 1 {
                                assert(r2[r] == front[r]);
                            }
                        }
                    },
                }
            },
        }
    }
}

/// Merging the captures keeps the current fields and the emitted
/// records well formed and complete.
pub proof fn lemma_merge_step_wf(
    values: Seq<ValueDefV>,
    out: Seq<RecordV>,
    curr: FieldsV,
    tmp: FieldsV,
    i: int,
)
    requires
        forall|r: int| 0 <= r < out.len() ==> fields_wf(values, (#[trigger] out[r]).fields),
        fields_wf(values, curr),
        fields_wf(values, tmp),
    ensures
        merge_step(values, out, curr, tmp, i) matches Ok((o2, c2)) ==> o2.len() == out.len() && (
        forall|r: int| 0 <= r < o2.len() ==> fields_wf(values, (#[trigger] o2[r]).fields))
            && fields_wf(values, c2) && (forall|r: int, n: Seq<char>|
            0 <= r < o2.len() && #[trigger] find_field(out[r].fields, n) is Some
                ==> #[trigger] find_field(o2[r].fields, n) is Some),
    decreases tmp.len() - i,
{
    if 0 <= i < tmp.len() {
        let name = tmp[i].0;
        let v = tmp[i].1;
        match lookup_value(values, name) {
            None => {},
            Some(vd) => {
                assert(lookup_value(values, tmp[i].0) matches Some(vd2) && (vd2.is_list <==> tmp[
                    i].1 is List));
                if vd.is_fillup {
                    lemma_apply_fillup_wf(values, out, name, v);
                }
                let stepped = if vd.is_fillup {
                    apply_fillup(out, name, v)
                } else {
                    Ok(out)
                };
                match stepped {
                    Err(_) => {},
                    Ok(out2) => {
                        lemma_append_field_wf(values, curr, name, v);
                        lemma_merge_step_wf(values, out2, append_field(curr, name, v), tmp, i + 1);
                        match merge_step(values, out2, append_field(curr, name, v), tmp, i + 1) {
                            Err(_) => {},
                            Ok((o2, c2)) => {
                                assert forall|r: int, n: Seq<char>|
                                    0 <= r < o2.len() && #[trigger] find_field(
                                        out[r].fields,
                                        n,
                                    ) is Some implies #[trigger] find_field(o2[r].fields, n)
                                    is Some by {
                                    assert(find_field(out2[r].fields, n) is Some);
                                }
                            },
                        }
                    },
                }
            },
        }
    }
}

/// Merging all filldown captures keeps the filldown fields well formed
/// and filldown-marked.
pub proof fn lemma_append_all_wf(values: Seq<ValueDefV>, fields: FieldsV, src: FieldsV)
    requires
        fields_wf(values, fields),
        forall|j: int|
            0 <= j < fields.len() ==> (lookup_value(values, (#[trigger] fields[j]).0)
                matches Some(vd) && vd.is_filldown),
        fields_wf(values, src),
        forall|j: int|
            0 <= j < src.len() ==> (lookup_value(values, (#[trigger] src[j]).0) matches Some(vd)
                && vd.is_filldown),
    ensures
        fields_wf(values, append_all(fields, src)),
        forall|j: int|
            0 <= j < append_all(fields, src).len() ==> (lookup_value(
                values,
                (#[trigger] append_all(fields, src)[j]).0,
            ) matches Some(vd) && vd.is_filldown),
    decreases src.len(),
{
    if src.len() > 0 {
        assert(fields_wf(values, src.drop_last())) by {
            assert(forall|j: int|
                0 <= j < src.drop_last().len() ==> #[trigger] src.drop_last()[j] == src[j]);
        }
        lemma_append_all_wf(values, fields, src.drop_last());
        let mid = append_all(fields, src.drop_last());
        let name = src.last().0;
        let v = src.last().1;
        assert(lookup_value(values, name) matches Some(vd) && (vd.is_list <==> v is List)) by {
            assert(src[src.len() - 1] == src.last());
        }
        lemma_append_field_wf(values, mid, name, v);
        let out = append_field(mid, name, v);
        assert forall|j: int| 0 <= j < out.len() implies (lookup_value(
            values,
            (#[trigger] out[j]).0,
        ) matches Some(vd) && vd.is_filldown) by {
            crate::record::lemma_field_index(mid, name);
            match find_field(mid, name) {
                None => {
                    if j < mid.len() {
                        assert(out[j] == mid[j]);
                    } else {
                        assert(out[j].0 == name);
                    }
                },
                Some(_) => {
                    crate::record::lemma_field_index(mid, name);
                    match field_index(mid, name) {
                        Some(k) => {
                            if j != k {
                                assert(out[j] == mid[j]);
                            } else {
                                assert(out[j].0 == name);
                            }
                        },
                        None => {},
                    }
                },
            }
        }
    }
}

/// Filling the defaults keeps the fields well formed, keeps what is
/// present, and makes every declared value from `i` on present.
pub proof fn lemma_add_missing_wf(values: Seq<ValueDefV>, fields: FieldsV, i: int)
    requires
        fields_wf(values, fields),
        crate::compile::values_unique(values),
        0 <= i,
    ensures
        fields_wf(values, add_missing(values, fields, i)),
        forall|n: Seq<char>|
            #[trigger] find_field(fields, n) is Some ==> find_field(
                add_missing(values, fields, i),
                n,
            ) == find_field(fields, n),
        forall|k: int|
            i <= k < values.len() ==> find_field(
                add_missing(values, fields, i),
                (#[trigger] values[k]).name,
            ) is Some,
    decreases values.len() - i,
{
    if i < values.len() {
        let vd = values[i];
        crate::record::lemma_field_index(fields, vd.name);
        proof_lookup_own_name(values, i);
        if find_field(fields, vd.name) is None {
            let f2 = fields.push((vd.name, default_value(vd)));
            assert(f2 =~~= set_field(fields, vd.name, default_value(vd)));
            lemma_set_field_wf(values, fields, vd.name, default_value(vd));
            lemma_add_missing_wf(values, f2, i + 1);
        } else {
            lemma_add_missing_wf(values, fields, i + 1);
        }
    }
}

/// With unique names, looking a declared value up by its own name finds
/// that very value.
pub proof fn proof_lookup_own_name(values: Seq<ValueDefV>, i: int)
    requires
        crate::compile::values_unique(values),
        0 <= i < values.len(),
    ensures
        lookup_value(values, values[i].name) == Some(values[i]),
{
    crate::compile::lemma_value_index_from(values, values[i].name, 0);
    match crate::compile::value_index_from(values, values[i].name, 0) {
        Some(k) => {
            if k != i {
                assert(values[k].name == values[i].name);
            }
        },
        None => {
            assert(values[i].name == values[i].name);
        },
    }
}

/// Clearing keeps the fields well formed; what stays is filldown-marked
/// and was present.
pub proof fn lemma_clear_fields_wf(values: Seq<ValueDefV>, fields: FieldsV)
    requires
        fields_wf(values, fields),
    ensures
        clear_fields(values, fields) matches Ok(f2) ==> fields_wf(values, f2) && (forall|q: int|
            0 <= q < f2.len() ==> fields.contains(#[trigger] f2[q])),
    decreases fields.len(),
{
    if fields.len() > 0 {
        assert(fields_wf(values, fields.drop_last())) by {
            assert(forall|j: int|
                0 <= j < fields.drop_last().len() ==> #[trigger] fields.drop_last()[j]
                    == fields[j]);
        }
        lemma_clear_fields_wf(values, fields.drop_last());
        match clear_fields(values, fields.drop_last()) {
            Err(_) => {},
            Ok(front) => {
                assert forall|q: int| 0 <= q < front.len() implies fields.contains(
                    #[trigger] front[q],
                ) by {
                    let w = choose|w: int|
                        0 <= w < fields.drop_last().len() && fields.drop_last()[w] == front[q];
                    assert(fields[w] == front[q]);
                }
                match lookup_value(values, fields.last().0) {
                    None => {},
                    Some(vd) => {
                        if vd.is_filldown {
                            let out = front.push(fields.last());
                            assert(fields[fields.len() - 1] == fields.last());
                            assert forall|a: int, b: int|
                                0 <= a < b < out.len() implies out[a].0 != out[b].0 by {
                                if b < front.len() {
                                } else {
                                    let w = choose|w: int|
                                        0 <= w < fields.drop_last().len() && fields.drop_last()[w]
                                            == front[a];
                                    assert(fields[w].0 == front[a].0);
                                    assert(fields[w].0 != fields[fields.len() - 1].0);
                                }
                            }
                        }
                    },
                }
            },
        }
    }
}

/// Back-fills one captured value into the emitted records, newest
/// first.
fn do_fillup(records: &mut Vec<DataRecord>, name: &str, v: &Value) -> (r: Result<(), TextFsmError>)
    ensures
        match r {
            Ok(_) => apply_fillup(recs_view_of(old(records)@), name@, v@) == Ok::<
                Seq<RecordV>,
                ErrorV,
            >(recs_view_of(final(records)@)),
            Err(e) => apply_fillup(recs_view_of(old(records)@), name@, v@) == Err::<
                Seq<RecordV>,
                ErrorV,
            >(e@) && final(records)@.len() == old(records)@.len() && (forall|j: int|
                0 <= j < final(records)@.len() ==> final(records)@[j]@.fields == old(
                    records,
                )@[j]@.fields || final(records)@[j]@.fields == set_field(
                    old(records)@[j]@.fields,
                    name@,
                    v@,
                )) && (forall|j: int|
                0 <= j < final(records)@.len() ==> final(records)@[j]@.record_key == old(
                    records,
                )@[j]@.record_key),
        },
{
    let ghost recs0 = recs_view_of(records@);
    proof {
        lemma_recs_view_of(records@);
    }
    let mut idx: usize = records.len();
    proof {
        assert(recs_view_of(records@).subrange(0, records@.len() as int) =~= recs_view_of(
            records@,
        ));
        match apply_fillup(recs0, name@, v@) {
            Err(_) => {},
            Ok(front) => {},
        }
        assert(apply_fillup(recs0, name@, v@) == (match apply_fillup(
            recs_view_of(records@).subrange(0, idx as int),
            name@,
            v@,
        ) {
            Err(e) => Err::<Seq<RecordV>, ErrorV>(e),
            Ok(front) => Ok(
                front + recs_view_of(records@).subrange(idx as int, records@.len() as int),
            ),
        })) by {
            match apply_fillup(recs0, name@, v@) {
                Err(_) => {},
                Ok(front) => {
                    assert(front + recs_view_of(records@).subrange(
                        records@.len() as int,
                        records@.len() as int,
                    ) =~~= front);
                },
            }
        }
    }
    while idx > 0
        invariant
            recs0 == recs_view_of(old(records)@),
            idx <= records@.len(),
            records@.len() == recs0.len(),
            recs_view_of(records@).len() == records@.len(),
            forall|j: int| 0 <= j < records@.len() ==> #[trigger] recs_view_of(records@)[j]
                == records@[j]@,
            forall|j: int| 0 <= j < idx ==> #[trigger] records@[j]@ == recs0[j],
            forall|j: int|
                0 <= j < records@.len() ==> #[trigger] records@[j]@.fields == recs0[j].fields
                    || records@[j]@.fields == set_field(recs0[j].fields, name@, v@),
            forall|j: int| 0 <= j < records@.len() ==> #[trigger] records@[j]@.record_key
                == recs0[j].record_key,
            apply_fillup(recs0, name@, v@) == (match apply_fillup(
                recs_view_of(records@).subrange(0, idx as int),
                name@,
                v@,
            ) {
                Err(e) => Err::<Seq<RecordV>, ErrorV>(e),
                Ok(front) => Ok(
                    front + recs_view_of(records@).subrange(
                        idx as int,
                        records@.len() as int,
                    ),
                ),
            }),
        decreases idx,
    {
        idx = idx - 1;
        let ghost cur = recs_view_of(records@);
        proof {
            assert(cur.subrange(0, (idx + 1) as int).drop_last() =~= cur.subrange(0, idx as int));
            assert(cur.subrange(0, (idx + 1) as int).last() == records@[idx as int]@);
        }
        let stop = match records[idx].get(name) {
            Some(ov) => match ov {
                Value::Single(st) => {
                    if st.as_str().unicode_len() > 0 {
                        true
                    } else {
                        false
                    }
                },
                Value::List(_) => {
                    proof {
                        assert(apply_fillup(cur.subrange(0, (idx + 1) as int), name@, v@) == Err::<
                            Seq<RecordV>,
                            ErrorV,
                        >(ErrorV::ParseError("fillup not supported for lists!"@)));
                        lemma_recs_view_of(old(records)@);
                    }
                    return Err(
                        TextFsmError::ParseError(
                            String::from_str("fillup not supported for lists!"),
                        ),
                    );
                },
            },
            None => false,
        };
        if stop {
            proof {
                assert(apply_fillup(cur.subrange(0, (idx + 1) as int), name@, v@) == Ok::<
                    Seq<RecordV>,
                    ErrorV,
                >(cur.subrange(0, (idx + 1) as int)));
                assert(cur.subrange(0, (idx + 1) as int) + cur.subrange(
                    (idx + 1) as int,
                    records@.len() as int,
                ) =~~= cur);
                assert(cur =~~= recs_view_of(records@));
            }
            return Ok(());
        }
        let updated = {
            let rec = &records[idx];
            let mut c = rec.duplicate();
            c.set_value(crate::text::chars_string(crate::text::str_chars(name).as_slice()),
                v.duplicate());
            c
        };
        records[idx] = updated;
        proof {
            lemma_recs_view_of(records@);
            let curn = recs_view_of(records@);
            assert(curn =~~= cur.update(
                idx as int,
                RecordV {
                    fields: set_field(cur[idx as int].fields, name@, v@),
                    record_key: cur[idx as int].record_key,
                },
            ));
            assert(curn.subrange(0, idx as int) =~~= cur.subrange(0, idx as int));
            assert(apply_fillup(cur.subrange(0, (idx + 1) as int), name@, v@) == (match
                apply_fillup(cur.subrange(0, idx as int), name@, v@) {
                Err(e) => Err::<Seq<RecordV>, ErrorV>(e),
                Ok(front) => Ok(front.push(curn[idx as int])),
            }));
            assert(curn.subrange((idx + 1) as int, records@.len() as int) =~~= cur.subrange(
                (idx + 1) as int,
                records@.len() as int,
            ));
            match apply_fillup(curn.subrange(0, idx as int), name@, v@) {
                Err(_) => {},
                Ok(front) => {
                    assert(front.push(curn[idx as int]) + curn.subrange(
                        (idx + 1) as int,
                        records@.len() as int,
                    ) =~~= front + curn.subrange(idx as int, records@.len() as int));
                },
            }
            assert(apply_fillup(recs0, name@, v@) == (match apply_fillup(
                curn.subrange(0, idx as int),
                name@,
                v@,
            ) {
                Err(e) => Err::<Seq<RecordV>, ErrorV>(e),
                Ok(front) => Ok(front + curn.subrange(idx as int, records@.len() as int)),
            }));
        }
    }
    proof {
        let cur = recs_view_of(records@);
        assert(cur.subrange(0, 0) =~~= Seq::<RecordV>::empty());
        assert(apply_fillup(cur.subrange(0, 0), name@, v@) == Ok::<Seq<RecordV>, ErrorV>(
            cur.subrange(0, 0),
        ));
        assert(cur.subrange(0, 0) + cur.subrange(0, records@.len() as int) =~~= cur);
        assert(cur.subrange(0, records@.len() as int) =~= cur);
    }
    Ok(())
}

/// Building the temporary capture records from well-formed accumulators
/// gives well-formed records, the filldown one holding only
/// filldown-marked names.
pub proof fn lemma_build_tmp_wf(
    values: Seq<ValueDefV>,
    vars: Seq<Seq<char>>,
    caps: Seq<Option<Seq<char>>>,
    i: int,
    acc: (FieldsV, FieldsV),
)
    requires
        fields_wf(values, acc.0),
        fields_wf(values, acc.1),
        forall|j: int|
            0 <= j < acc.1.len() ==> (lookup_value(values, (#[trigger] acc.1[j]).0)
                matches Some(vd) && vd.is_filldown),
    ensures
        build_tmp(values, vars, caps, i, acc) matches Ok(t) ==> fields_wf(values, t.0)
            && fields_wf(values, t.1) && (forall|j: int|
            0 <= j < t.1.len() ==> (lookup_value(values, (#[trigger] t.1[j]).0) matches Some(vd)
                && vd.is_filldown)),
    decreases vars.len() - i,
{
    if 0 <= i < vars.len() {
        let name = vars[i];
        match lookup_value(values, name) {
            None => {},
            Some(vd) => {
                let v = captured_value(
                    vd,
                    if i < caps.len() {
                        caps[i]
                    } else {
                        None
                    },
                );
                lemma_set_field_wf(values, acc.0, name, v);
                let acc1 = if vd.is_filldown {
                    set_field(acc.1, name, v)
                } else {
                    acc.1
                };
                if vd.is_filldown {
                    lemma_set_field_wf(values, acc.1, name, v);
                    crate::record::lemma_field_index(acc.1, name);
                    assert forall|j: int| 0 <= j < acc1.len() implies (lookup_value(
                        values,
                        (#[trigger] acc1[j]).0,
                    ) matches Some(vd2) && vd2.is_filldown) by {
                        match field_index(acc.1, name) {
                            Some(k) => {
                                if j != k {
                                    assert(acc1[j] == acc.1[j]);
                                } else {
                                    assert(acc1[j].0 == name);
                                }
                            },
                            None => {
                                if j < acc.1.len() {
                                    assert(acc1[j] == acc.1[j]);
                                } else {
                                    assert(acc1[j].0 == name);
                                }
                            },
                        }
                    }
                }
                lemma_build_tmp_wf(values, vars, caps, i + 1, (set_field(acc.0, name, v), acc1));
            },
        }
    }
}

/// A clearing that failed on a prefix fails the same way on the whole.
pub proof fn lemma_clear_err_extends(values: Seq<ValueDefV>, fields: FieldsV, j: int)
    requires
        0 <= j <= fields.len(),
        clear_fields(values, fields.subrange(0, j)) is Err,
    ensures
        clear_fields(values, fields) == clear_fields(values, fields.subrange(0, j)),
    decreases fields.len() - j,
{
    if j == fields.len() {
        assert(fields.subrange(0, j) =~= fields);
    } else {
        assert(fields.subrange(0, j + 1).drop_last() =~= fields.subrange(0, j));
        lemma_clear_err_extends(values, fields, j + 1);
    }
}

/// The composite key of a record's present fields.
fn compute_record_key(values: &Vec<crate::template::ValueDefinition>, rec: &DataRecord) -> (r:
    Option<String>)
    ensures
        match r {
            Some(s) => record_key_of(crate::compile::vals_view_of(values@), rec@.fields) == Some(
                s@,
            ),
            None => record_key_of(crate::compile::vals_view_of(values@), rec@.fields) is None,
        },
{
    let ghost vv = crate::compile::vals_view_of(values@);
    let ghost fv = rec@.fields;
    proof {
        crate::compile::lemma_vals_view_of(values@);
        crate::record::lemma_fields_view_of(rec.fields@);
        assert(key_parts(vv, fv.subrange(0, 0)) =~~= Seq::<Seq<char>>::empty()) by {
            assert(fv.subrange(0, 0) =~= Seq::<(Seq<char>, ValueV)>::empty());
        }
    }
    let mut out: String = String::new();
    let mut cnt: usize = 0;
    let mut i: usize = 0;
    while i < rec.fields.len()
        invariant
            i <= rec.fields@.len(),
            vv == crate::compile::vals_view_of(values@),
            fv == rec@.fields,
            fv.len() == rec.fields@.len(),
            forall|j: int| 0 <= j < rec.fields@.len() ==> #[trigger] fv[j] == (
                rec.fields@[j].0@,
                rec.fields@[j].1@,
            ),
            cnt <= i,
            cnt == key_parts(vv, fv.subrange(0, i as int)).len(),
            cnt == 0 ==> out@ == Seq::<char>::empty(),
            cnt > 0 ==> out@ == join_slash(key_parts(vv, fv.subrange(0, i as int))),
        decreases rec.fields@.len() - i,
    {
        proof {
            assert(fv.subrange(0, (i + 1) as int).drop_last() =~= fv.subrange(0, i as int));
            assert(fv.subrange(0, (i + 1) as int).last() == fv[i as int]);
        }
        let is_key = match crate::compile::find_value_position(
            values,
            rec.fields[i].0.as_str(),
        ) {
            Some(k) => {
                proof {
                    crate::compile::lemma_vals_view_of(values@);
                }
                values[k].is_key
            },
            None => false,
        };
        if is_key {
            let txt = rec.fields[i].1.to_string();
            let ghost kp0 = key_parts(vv, fv.subrange(0, i as int));
            if cnt == 0 {
                out = txt;
            } else {
                out.append("/");
                out.append(txt.as_str());
            }
            cnt = cnt + 1;
            proof {
                let kp1 = key_parts(vv, fv.subrange(0, (i + 1) as int));
                assert(kp1 == kp0.push(value_text(fv[i as int].1)));
                assert(kp1.drop_last() =~~= kp0);
                if kp0.len() > 0 {
                    assert(out@ == join_slash(kp1));
                }
            }
        }
        i = i + 1;
    }
    proof {
        assert(fv.subrange(0, fv.len() as int) =~= fv);
    }
    if cnt == 0 {
        None
    } else {
        Some(out)
    }
}

/// Merges the temporary capture records of one match into the live
/// memory: back-fill, the current record, the filldown record, and the
/// recomputed record key.
fn merge_into(
    parser: &TextFSMParser,
    curr: &mut DataRecord,
    filldown: &mut DataRecord,
    records: &mut Vec<DataRecord>,
    tmp: &DataRecord,
    tmpf: &DataRecord,
) -> (r: Result<(), TextFsmError>)
    requires
        fields_wf(parser@.values, old(curr)@.fields),
        fields_wf(parser@.values, old(filldown)@.fields),
        forall|j: int|
            0 <= j < old(filldown)@.fields.len() ==> (lookup_value(
                parser@.values,
                (#[trigger] old(filldown)@.fields[j]).0,
            ) matches Some(vd) && vd.is_filldown),
        forall|r: int|
            0 <= r < recs_view_of(old(records)@).len() ==> fields_wf(
                parser@.values,
                (#[trigger] recs_view_of(old(records)@)[r]).fields,
            ),
        fields_wf(parser@.values, tmp@.fields),
        fields_wf(parser@.values, tmpf@.fields),
        forall|j: int|
            0 <= j < tmpf@.fields.len() ==> (lookup_value(
                parser@.values,
                (#[trigger] tmpf@.fields[j]).0,
            ) matches Some(vd) && vd.is_filldown),
    ensures
        match r {
            Ok(_) => merge_step(
                parser@.values,
                recs_view_of(old(records)@),
                old(curr)@.fields,
                tmp@.fields,
                0,
            ) matches Ok(oc) && {
                &&& recs_view_of(final(records)@) == oc.0
                &&& final(curr)@.fields == oc.1
                &&& final(curr)@.record_key == record_key_of(parser@.values, oc.1)
                &&& final(filldown)@.fields == append_all(old(filldown)@.fields, tmpf@.fields)
                &&& final(filldown)@.record_key == old(filldown)@.record_key
            },
            Err(e) => merge_step(
                parser@.values,
                recs_view_of(old(records)@),
                old(curr)@.fields,
                tmp@.fields,
                0,
            ) == Err::<(Seq<RecordV>, FieldsV), ErrorV>(e@) && fields_wf(
                parser@.values,
                final(curr)@.fields,
            ) && final(curr)@.record_key == old(curr)@.record_key
                && final(filldown)@ == old(filldown)@ && recs_view_of(final(records)@).len()
                == recs_view_of(
                old(records)@,
            ).len() && (forall|j: int|
                0 <= j < recs_view_of(final(records)@).len() ==> fields_wf(
                    parser@.values,
                    (#[trigger] recs_view_of(final(records)@)[j]).fields,
                )) && (forall|j: int, n: Seq<char>|
                0 <= j < recs_view_of(final(records)@).len() && #[trigger] find_field(
                    recs_view_of(old(records)@)[j].fields,
                    n,
                ) is Some ==> #[trigger] find_field(
                    recs_view_of(final(records)@)[j].fields,
                    n,
                ) is Some),
        },
{
    let ghost values = parser@.values;
    let ghost out0 = recs_view_of(records@);
    let ghost curr0 = curr@.fields;
    let ghost tmpv = tmp@.fields;
    proof {
        lemma_recs_view_of(records@);
        crate::record::lemma_fields_view_of(tmp.fields@);
    }
    let mut ti: usize = 0;
    while ti < tmp.fields.len()
        invariant
            ti <= tmp.fields@.len(),
            values == parser@.values,
            out0 == recs_view_of(old(records)@),
            curr0 == old(curr)@.fields,
            tmpv == tmp@.fields,
            tmpv.len() == tmp.fields@.len(),
            forall|j: int| 0 <= j < tmp.fields@.len() ==> #[trigger] tmpv[j] == (
                tmp.fields@[j].0@,
                tmp.fields@[j].1@,
            ),
            fields_wf(values, tmpv),
            fields_wf(values, curr@.fields),
            curr@.record_key == old(curr)@.record_key,
            filldown@ == old(filldown)@,
            forall|r: int|
                0 <= r < recs_view_of(records@).len() ==> fields_wf(
                    values,
                    (#[trigger] recs_view_of(records@)[r]).fields,
                ),
            recs_view_of(records@).len() == out0.len(),
            forall|j: int, n: Seq<char>|
                0 <= j < recs_view_of(records@).len() && #[trigger] find_field(
                    out0[j].fields,
                    n,
                ) is Some ==> #[trigger] find_field(recs_view_of(records@)[j].fields, n) is Some,
            merge_step(values, out0, curr0, tmpv, 0) == merge_step(
                values,
                recs_view_of(records@),
                curr@.fields,
                tmpv,
                ti as int,
            ),
        decreases tmp.fields@.len() - ti,
    {
        let ghost out_pre = recs_view_of(records@);
        let ghost curr_pre = curr@.fields;
        let name = tmp.fields[ti].0.clone();
        let v = tmp.fields[ti].1.duplicate();
        let is_fillup = match crate::compile::find_value_position(&parser.values, name.as_str()) {
            Some(k) => {
                proof {
                    crate::compile::lemma_vals_view_of(parser.values@);
                }
                parser.values[k].is_fillup
            },
            None => {
                proof {
                    assert(false);
                }
                false
            },
        };
        proof {
            assert(tmpv[ti as int] == (name@, v@));
            assert(lookup_value(values, name@) matches Some(vdx) && (vdx.is_list <==> v@
                is List));
        }
        if is_fillup {
            proof {
                lemma_recs_view_of(records@);
            }
            match do_fillup(records, name.as_str(), &v) {
                Ok(_) => {
                    proof {
                        lemma_apply_fillup_wf(values, out_pre, name@, v@);
                        lemma_recs_view_of(records@);
                        assert forall|j: int|
                            0 <= j < recs_view_of(records@).len() implies fields_wf(
                            values,
                            (#[trigger] recs_view_of(records@)[j]).fields,
                        ) by {
                            assert(apply_fillup(out_pre, name@, v@) == Ok::<Seq<RecordV>, ErrorV>(
                                recs_view_of(records@),
                            ));
                        }
                        assert forall|j: int, n: Seq<char>|
                            0 <= j < recs_view_of(records@).len() && #[trigger] find_field(
                                out0[j].fields,
                                n,
                            ) is Some implies #[trigger] find_field(
                            recs_view_of(records@)[j].fields,
                            n,
                        ) is Some by {
                            assert(find_field(out_pre[j].fields, n) is Some);
                        }
                    }
                },
                Err(e) => {
                    proof {
                        lemma_recs_view_of(records@);
                        assert forall|j: int|
                            0 <= j < recs_view_of(records@).len() implies fields_wf(
                            values,
                            (#[trigger] recs_view_of(records@)[j]).fields,
                        ) by {
                            if recs_view_of(records@)[j].fields == set_field(
                                out_pre[j].fields,
                                name@,
                                v@,
                            ) {
                                lemma_set_field_wf(values, out_pre[j].fields, name@, v@);
                            }
                        }
                        assert forall|j: int, n: Seq<char>|
                            0 <= j < recs_view_of(records@).len() && #[trigger] find_field(
                                out0[j].fields,
                                n,
                            ) is Some implies #[trigger] find_field(
                            recs_view_of(records@)[j].fields,
                            n,
                        ) is Some by {
                            assert(find_field(out_pre[j].fields, n) is Some);
                            if recs_view_of(records@)[j].fields == set_field(
                                out_pre[j].fields,
                                name@,
                                v@,
                            ) {
                                lemma_set_field_wf(values, out_pre[j].fields, name@, v@);
                                if n == name@ {
                                    assert(find_field(recs_view_of(records@)[j].fields, n)
                                        == Some(v@));
                                } else {
                                    assert(find_field(recs_view_of(records@)[j].fields, n)
                                        == find_field(out_pre[j].fields, n));
                                }
                            }
                        }
                    }
                    return Err(e);
                },
            }
        }
        proof {
            crate::record::lemma_field_index(curr@.fields, name@);
            lemma_append_field_wf(values, curr_pre, name@, v@);
        }
        curr.append_value(name, v);
        ti = ti + 1;
        proof {
            assert(merge_step(values, out0, curr0, tmpv, 0) == merge_step(
                values,
                recs_view_of(records@),
                curr@.fields,
                tmpv,
                ti as int,
            ));
        }
    }
    proof {
        assert(merge_step(values, recs_view_of(records@), curr@.fields, tmpv, ti as int) == Ok::<
            (Seq<RecordV>, FieldsV),
            ErrorV,
        >((recs_view_of(records@), curr@.fields)));
    }
    // the filldown captures
    let ghost fd0 = filldown@.fields;
    let ghost tmpfv = tmpf@.fields;
    proof {
        crate::record::lemma_fields_view_of(tmpf.fields@);
        assert(append_all(fd0, tmpfv.subrange(0, 0)) =~~= fd0) by {
            assert(tmpfv.subrange(0, 0) =~= Seq::<(Seq<char>, ValueV)>::empty());
        }
    }
    let mut fi: usize = 0;
    while fi < tmpf.fields.len()
        invariant
            fi <= tmpf.fields@.len(),
            values == parser@.values,
            fd0 == old(filldown)@.fields,
            tmpfv == tmpf@.fields,
            tmpfv.len() == tmpf.fields@.len(),
            forall|j: int| 0 <= j < tmpf.fields@.len() ==> #[trigger] tmpfv[j] == (
                tmpf.fields@[j].0@,
                tmpf.fields@[j].1@,
            ),
            fields_wf(values, tmpfv),
            fields_wf(values, filldown@.fields),
            filldown@.fields == append_all(fd0, tmpfv.subrange(0, fi as int)),
            filldown@.record_key == old(filldown)@.record_key,
        decreases tmpf.fields@.len() - fi,
    {
        proof {
            assert(tmpfv.subrange(0, (fi + 1) as int).drop_last() =~= tmpfv.subrange(
                0,
                fi as int,
            ));
            assert(tmpfv.subrange(0, (fi + 1) as int).last() == tmpfv[fi as int]);
            crate::record::lemma_field_index(filldown@.fields, tmpfv[fi as int].0);
            lemma_append_field_wf(values, filldown@.fields, tmpfv[fi as int].0, tmpfv[fi as int].1);
        }
        let name = tmpf.fields[fi].0.clone();
        let v = tmpf.fields[fi].1.duplicate();
        filldown.append_value(name, v);
        fi = fi + 1;
    }
    proof {
        assert(tmpfv.subrange(0, tmpfv.len() as int) =~= tmpfv);
    }
    // the record key over the merged current record
    let key = compute_record_key(&parser.values, curr);
    curr.record_key = key;
    Ok(())
}

/// Applies a rule's record action to the live memory.
fn do_record_action(
    parser: &TextFSMParser,
    curr: &mut DataRecord,
    filldown: &mut DataRecord,
    records: &mut Vec<DataRecord>,
    ra: RecordAction,
) -> (r: Result<(), TextFsmError>)
    requires
        program_wf(parser@),
        mem_wf(
            parser@.values,
            MemV {
                curr: old(curr)@,
                filldown: old(filldown)@,
                out: recs_view_of(old(records)@),
            },
        ),
    ensures
        match r {
            Ok(_) => apply_record_action(
                parser@,
                ra,
                MemV {
                    curr: old(curr)@,
                    filldown: old(filldown)@,
                    out: recs_view_of(old(records)@),
                },
            ) matches Ok(m2) && m2 == MemV {
                curr: final(curr)@,
                filldown: final(filldown)@,
                out: recs_view_of(final(records)@),
            } && mem_wf(parser@.values, m2),
            Err(e) => apply_record_action(
                parser@,
                ra,
                MemV {
                    curr: old(curr)@,
                    filldown: old(filldown)@,
                    out: recs_view_of(old(records)@),
                },
            ) == Err::<MemV, ErrorV>(e@) && final(curr)@ == old(curr)@ && final(filldown)@ == old(
                filldown,
            )@ && final(records)@ == old(records)@,
        },
{
    let ghost values = parser@.values;
    let ghost mem0 = MemV {
        curr: curr@,
        filldown: filldown@,
        out: recs_view_of(records@),
    };
    match ra {
        RecordAction::NoRecord => Ok(()),
        RecordAction::Clearall => {
            *curr = DataRecord::new();
            *filldown = DataRecord::new();
            proof {
                assert(curr@ =~~= empty_record());
                assert(filldown@ =~~= empty_record());
            }
            Ok(())
        },
        RecordAction::Clear => {
            let ghost cf = curr@.fields;
            proof {
                crate::record::lemma_fields_view_of(curr.fields@);
                assert(clear_fields(values, cf.subrange(0, 0)) == Ok::<FieldsV, ErrorV>(
                    Seq::empty(),
                )) by {
                    assert(cf.subrange(0, 0) =~= Seq::<(Seq<char>, ValueV)>::empty());
                }
            }
            let mut kept: Vec<(String, Value)> = Vec::new();
            let mut i: usize = 0;
            while i < curr.fields.len()
                invariant
                    i <= curr.fields@.len(),
                    values == parser@.values,
                    cf == curr@.fields,
                    cf.len() == curr.fields@.len(),
                    forall|j: int| 0 <= j < curr.fields@.len() ==> #[trigger] cf[j] == (
                        curr.fields@[j].0@,
                        curr.fields@[j].1@,
                    ),
                    clear_fields(values, cf.subrange(0, i as int)) == Ok::<FieldsV, ErrorV>(
                        crate::record::fields_view_of(kept@),
                    ),
                    curr@ == old(curr)@,
                    filldown@ == old(filldown)@,
                    records@ == old(records)@,
                    ra == RecordAction::Clear,
                decreases curr.fields@.len() - i,
            {
                proof {
                    assert(cf.subrange(0, (i + 1) as int).drop_last() =~= cf.subrange(0, i as int));
                    assert(cf.subrange(0, (i + 1) as int).last() == cf[i as int]);
                }
                match crate::compile::find_value_position(
                    &parser.values,
                    curr.fields[i].0.as_str(),
                ) {
                    None => {
                        proof {
                            assert(clear_fields(values, cf.subrange(0, (i + 1) as int)) == Err::<
                                FieldsV,
                                ErrorV,
                            >(probe_err("is_filldown_value for "@, cf[i as int].0)));
                            lemma_clear_err_extends(values, cf, i + 1);
                        }
                        let nc = crate::text::str_chars(curr.fields[i].0.as_str());
                        return Err(
                            TextFsmError::InternalError(
                                crate::template::wrap_msg(
                                    "is_filldown_value for ",
                                    nc.as_slice(),
                                    " failed",
                                ),
                            ),
                        );
                    },
                    Some(k) => {
                        proof {
                            crate::compile::lemma_vals_view_of(parser.values@);
                        }
                        if parser.values[k].is_filldown {
                            let ghost pre = kept@;
                            kept.push(
                                (curr.fields[i].0.clone(), curr.fields[i].1.duplicate()),
                            );
                            proof {
                                assert(kept@.drop_last() =~= pre);
                                assert(crate::record::fields_view_of(kept@)
                                    =~~= crate::record::fields_view_of(pre).push(cf[i as int]));
                            }
                        }
                    },
                }
                i = i + 1;
            }
            proof {
                assert(cf.subrange(0, cf.len() as int) =~= cf);
                lemma_clear_fields_wf(values, cf);
            }
            curr.fields = kept;
            Ok(())
        },
        RecordAction::Record => {
            let ghost mand = parser@.mandatory;
            proof {
                crate::record::lemma_strs_view_of(parser.mandatory_values@);
            }
            let mut all_present = true;
            let mut mi: usize = 0;
            while mi < parser.mandatory_values.len()
                invariant
                    mi <= parser.mandatory_values@.len(),
                    mand == parser@.mandatory,
                    mand.len() == parser.mandatory_values@.len(),
                    forall|j: int| 0 <= j < parser.mandatory_values@.len() ==> #[trigger] mand[j]
                        == parser.mandatory_values@[j]@,
                    curr@ == mem0.curr,
                    all_present == (forall|k: int|
                        0 <= k < mi ==> mandatory_ok_at(curr@.fields, #[trigger] mand[k])),
                decreases parser.mandatory_values@.len() - mi,
            {
                let present = match curr.get(parser.mandatory_values[mi].as_str()) {
                    Some(v) => match v {
                        Value::Single(sv) => !sv.as_str().is_empty(),
                        Value::List(_) => true,
                    },
                    None => false,
                };
                proof {
                    assert(present == mandatory_ok_at(curr@.fields, mand[mi as int]));
                }
                let ghost was = all_present;
                if !present {
                    all_present = false;
                }
                mi = mi + 1;
                proof {
                    if all_present {
                        assert forall|k: int|
                            0 <= k < mi implies mandatory_ok_at(
                            curr@.fields,
                            #[trigger] mand[k],
                        ) by {
                            if k == mi - 1 {
                                assert(present);
                            }
                        }
                    } else {
                        if was {
                            assert(!present);
                            assert(!mandatory_ok_at(curr@.fields, mand[mi - 1]));
                        } else {
                            let w = choose|k: int|
                                0 <= k < mi - 1 && !mandatory_ok_at(
                                    curr@.fields,
                                    #[trigger] mand[k],
                                );
                            assert(!mandatory_ok_at(curr@.fields, mand[w]));
                        }
                    }
                }
            }
            let has_fields = curr.fields.len() > 0;
            proof {
                crate::record::lemma_fields_view_of(curr.fields@);
                assert(curr@.fields.len() == curr.fields@.len());
            }
            if has_fields && all_present {
                proof {
                    assert(mandatory_satisfied(parser@, mem0.curr.fields));
                }
                let mut new_rec = filldown.duplicate();
                core::mem::swap(&mut new_rec, curr);
                let ghost orig = new_rec@.fields;
                proof {
                    crate::compile::lemma_vals_view_of(parser.values@);
                    assert(add_missing(values, orig, 0) == add_missing(values, new_rec@.fields, 0));
                }
                let mut i: usize = 0;
                while i < parser.values.len()
                    invariant
                        i <= parser.values@.len(),
                        values == parser@.values,
                        values.len() == parser.values@.len(),
                        forall|j: int| 0 <= j < parser.values@.len() ==> #[trigger] values[j]
                            == parser.values@[j]@,
                        new_rec@.record_key == mem0.curr.record_key,
                        add_missing(values, orig, 0) == add_missing(
                            values,
                            new_rec@.fields,
                            i as int,
                        ),
                    decreases parser.values@.len() - i,
                {
                    let absent = match new_rec.get(parser.values[i].name.as_str()) {
                        Some(_) => false,
                        None => true,
                    };
                    if absent {
                        let dv = if parser.values[i].is_list {
                            Value::List(Vec::new())
                        } else {
                            Value::Single(String::new())
                        };
                        let ghost pre = new_rec@.fields;
                        proof {
                            crate::record::lemma_field_index(pre, parser.values@[i as int]@.name);
                            assert(dv@ == default_value(values[i as int])) by {
                                if values[i as int].is_list {
                                    assert(dv@ =~~= ValueV::List(Seq::<Seq<char>>::empty()));
                                } else {
                                    assert(dv@ =~~= ValueV::Single(Seq::<char>::empty()));
                                }
                            }
                        }
                        new_rec.set_value(parser.values[i].name.clone(), dv);
                        proof {
                            assert(new_rec@.fields =~~= pre.push(
                                (values[i as int].name, default_value(values[i as int])),
                            ));
                        }
                    }
                    i = i + 1;
                }
                let ghost emitted = new_rec@;
                let ghost pre_recs = records@;
                records.push(new_rec);
                proof {
                    assert(records@.drop_last() =~= pre_recs);
                    lemma_recs_view_of(records@);
                    lemma_recs_view_of(pre_recs);
                    assert(recs_view_of(records@) =~~= mem0.out.push(emitted));
                    lemma_add_missing_wf(values, mem0.curr.fields, 0);
                    assert(emitted.fields == add_missing(values, mem0.curr.fields, 0));
                    assert(mem_wf(
                        values,
                        MemV { curr: curr@, filldown: filldown@, out: recs_view_of(records@) },
                    )) by {
                        assert(curr@ == mem0.filldown);
                        assert forall|rr: int, kk: int|
                            0 <= rr < recs_view_of(records@).len() && 0 <= kk < values.len()
                                implies find_field(
                            (#[trigger] recs_view_of(records@)[rr]).fields,
                            (#[trigger] values[kk]).name,
                        ) is Some by {
                            if rr < mem0.out.len() {
                                assert(recs_view_of(records@)[rr] == mem0.out[rr]);
                            } else {
                                assert(recs_view_of(records@)[rr] == emitted);
                            }
                        }
                    }
                }
                Ok(())
            } else {
                proof {
                    if has_fields {
                        assert(!mandatory_satisfied(parser@, mem0.curr.fields));
                    }
                }
                Ok(())
            }
        },
    }
}

/// The spec image of an optional transition target.
pub open spec fn opt_ns_view(r: Option<NextState>) -> Option<NextStateV> {
    match r {
        Some(n) => Some(n@),
        None => None,
    }
}

impl TextFSM {
    /// Evaluates one line against the rules of the current state, in
    /// template order: the first matching rule merges its captures and
    /// applies its record action; its line action either consumes the
    /// line, handing back the transition target, or carries on with the
    /// following rules.  The state name itself is not changed here.
    pub fn parse_line(&mut self, aline: &str) -> (r: Result<Option<NextState>, TextFsmError>)
        requires
            fsm_wf(old(self)@),
        ensures
            final(self)@.program == old(self)@.program,
            final(self)@.state == old(self)@.state,
            fsm_wf(final(self)@),
            final(self)@.mem.out.len() >= old(self)@.mem.out.len(),
            forall|j: int, n: Seq<char>|
                0 <= j < old(self)@.mem.out.len() && #[trigger] find_field(
                    old(self)@.mem.out[j].fields,
                    n,
                ) is Some ==> #[trigger] find_field(final(self)@.mem.out[j].fields, n) is Some,
            match step_line(old(self)@.program, old(self)@.state, old(self)@.mem, aline@) {
                Ok(mr) => r matches Ok(rns) && opt_ns_view(rns) == mr.1 && final(self)@.mem
                    == mr.0,
                Err(e) => r matches Err(re) && re@ == e,
            },
    {
        let ghost p = self@.program;
        let ghost mem0 = self@.mem;
        let si = match find_state_position(&self.parser.states, self.curr_state.as_str()) {
            Some(si) => si,
            None => {
                let nc = crate::text::str_chars(self.curr_state.as_str());
                return Err(
                    TextFsmError::StateError(
                        crate::template::wrap_msg("State ", nc.as_slice(), " not found!"),
                    ),
                );
            },
        };
        proof {
            crate::compile::lemma_cstates_view_of(self.parser.states@);
            assert(lookup_state(p, old(self)@.state) == Some(p.states[si as int]));
        }
        let ghost rules = p.states[si as int].rules;
        let n_rules = self.parser.states[si].rules.len();
        proof {
            crate::compile::lemma_crules_view_of(self.parser.states@[si as int].rules@);
        }
        let mut ri: usize = 0;
        while ri < n_rules
            invariant
                ri <= n_rules,
                si < self.parser.states@.len(),
                p == self@.program,
                p == old(self)@.program,
                fsm_wf(self@),
                self@.state == old(self)@.state,
                mem0 == old(self)@.mem,
                rules == p.states[si as int].rules,
                lookup_state(p, old(self)@.state) == Some(p.states[si as int]),
                n_rules == self.parser.states@[si as int].rules@.len(),
                rules.len() == n_rules,
                forall|j: int| 0 <= j < n_rules ==> #[trigger] rules[j] == self.parser.states@[
                    si as int].rules@[j]@,
                self@.mem.out.len() >= mem0.out.len(),
                forall|j: int, n: Seq<char>|
                    0 <= j < mem0.out.len() && #[trigger] find_field(mem0.out[j].fields, n)
                        is Some ==> #[trigger] find_field(self@.mem.out[j].fields, n) is Some,
                run_rules(p, mem0, rules, 0, aline@) == run_rules(
                    p,
                    self@.mem,
                    rules,
                    ri as int,
                    aline@,
                ),
            decreases n_rules - ri,
        {
            let ghost mem_pre = self@.mem;
            let ghost rv = rules[ri as int];
            proof {
                crate::compile::lemma_cstates_view_of(self.parser.states@);
                assert(p.states[si as int] == self.parser.states@[si as int]@);
                crate::compile::lemma_crules_view_of(self.parser.states@[si as int].rules@);
                assert(crate::compile::state_wf(p.states[si as int], p.values));
                assert(p.states[si as int].rules[ri as int] == rv);
                assert(crate::compile::rule_wf(rv));
                let mvs = self.parser.states@[si as int].rules@[ri as int].match_variables;
                crate::record::lemma_strs_view_of(mvs@);
                assert(mvs.deep_view() =~~= rv.vars) by {
                    assert(forall|j: int| 0 <= j < mvs@.len() ==> #[trigger] mvs.deep_view()[j]
                        == mvs@[j]@);
                }
            }
            let caps_res: Result<Option<Vec<Option<String>>>, ()> = {
                let rule = &self.parser.states[si].rules[ri];
                match rule.engine {
                    MultiRegex::Classic => Ok(
                        crate::rx::classic_find(
                            rule.expanded_rule_match.as_str(),
                            aline,
                            &rule.match_variables,
                        ),
                    ),
                    MultiRegex::Fancy => crate::rx::fancy_find(
                        rule.expanded_rule_match.as_str(),
                        aline,
                        &rule.match_variables,
                    ),
                }
            };
            match caps_res {
                Err(_) => {
                    proof {
                        assert(rule_outcome(rv, aline@) is Err);
                    }
                    return Err(TextFsmError::ParseError(String::from_str("FANCY caps not ok")));
                },
                Ok(None) => {
                    proof {
                        assert(rule_outcome(rv, aline@) == Ok::<
                            Option<Seq<Option<Seq<char>>>>,
                            (),
                        >(None));
                    }
                    ri = ri + 1;
                },
                Ok(Some(caps)) => {
                    let ghost capsv = caps.deep_view();
                    proof {
                        assert(rule_outcome(rv, aline@) == Ok::<
                            Option<Seq<Option<Seq<char>>>>,
                            (),
                        >(Some(capsv)));
                    }
                    // the temporary capture records
                    let mut tmp = DataRecord::new();
                    let mut tmpf = DataRecord::new();
                    let nvars = {
                        let rule = &self.parser.states[si].rules[ri];
                        rule.match_variables.len()
                    };
                    proof {
                        crate::record::lemma_strs_view_of(self.parser.states@[
                            si as int].rules@[ri as int].match_variables@);
                        assert(tmp@.fields =~~= Seq::<(Seq<char>, ValueV)>::empty());
                        assert(tmpf@.fields =~~= Seq::<(Seq<char>, ValueV)>::empty());
                    }
                    let mut vi: usize = 0;
                    while vi < nvars
                        invariant
                            vi <= nvars,
                            si < self.parser.states@.len(),
                            ri < self.parser.states@[si as int].rules@.len(),
                            p == self@.program,
                            fsm_wf(self@),
                            rv == self.parser.states@[si as int].rules@[ri as int]@,
                            crate::compile::state_wf(self.parser.states@[si as int]@, p.values),
                            nvars == self.parser.states@[si as int].rules@[
                                ri as int].match_variables@.len(),
                            rv.vars.len() == nvars,
                            forall|j: int| 0 <= j < nvars ==> #[trigger] rv.vars[j]
                                == self.parser.states@[si as int].rules@[
                                ri as int].match_variables@[j]@,
                            capsv == caps.deep_view(),
                            caps.deep_view().len() == caps@.len(),
                            forall|j: int| 0 <= j < caps@.len() ==> #[trigger] caps.deep_view()[j]
                                == caps@[j].deep_view(),
                            tmp@.record_key is None,
                            tmpf@.record_key is None,
                            fields_wf(p.values, tmp@.fields),
                            fields_wf(p.values, tmpf@.fields),
                            forall|j: int|
                                0 <= j < tmpf@.fields.len() ==> (lookup_value(
                                    p.values,
                                    (#[trigger] tmpf@.fields[j]).0,
                                ) matches Some(vd) && vd.is_filldown),
                            build_tmp(p.values, rv.vars, capsv, 0, (Seq::empty(), Seq::empty()))
                                == build_tmp(
                                p.values,
                                rv.vars,
                                capsv,
                                vi as int,
                                (tmp@.fields, tmpf@.fields),
                            ),
                        decreases nvars - vi,
                    {
                        let mv: Option<String> = if vi < caps.len() {
                            match &caps[vi] {
                                Some(sv) => Some(sv.clone()),
                                None => None,
                            }
                        } else {
                            None
                        };
                        proof {
                            if vi < caps@.len() {
                                assert(caps.deep_view()[vi as int] == caps@[vi as int].deep_view());
                            }
                        }
                        let vname = {
                            let rule = &self.parser.states[si].rules[ri];
                            rule.match_variables[vi].clone()
                        };
                        let ghost vdx = lookup_value(p.values, vname@)->Some_0;
                        let ghost tmp_pre = tmp@.fields;
                        let ghost tmpf_pre = tmpf@.fields;
                        let ghost mvv = (match mv {
                            Some(ref v) => Some(v@),
                            None => None::<Seq<char>>,
                        });
                        let ghost cv = captured_value(vdx, mvv);
                        proof {
                            crate::compile::lemma_crules_view_of(self.parser.states@[
                                si as int].rules@);
                            assert(self.parser.states@[si as int]@.rules[ri as int] == rv);
                            assert(lookup_value(p.values, rv.vars[vi as int]) is Some);
                            assert(vname@ == rv.vars[vi as int]);
                            assert(mvv == (if vi < capsv.len() {
                                capsv[vi as int]
                            } else {
                                None::<Seq<char>>
                            }));
                            assert(vdx.is_list <==> cv is List);
                        }
                        match self.insert_value("RULE", &mut tmp, &mut tmpf, vname.as_str(), mv,
                            aline) {
                            Ok(_) => {
                                proof {
                                    lemma_set_field_wf(p.values, tmp_pre, vname@, cv);
                                    if vdx.is_filldown {
                                        lemma_set_field_wf(p.values, tmpf_pre, vname@, cv);
                                        crate::record::lemma_field_index(tmpf_pre, vname@);
                                        assert forall|j: int|
                                            0 <= j < tmpf@.fields.len() implies (lookup_value(
                                            p.values,
                                            (#[trigger] tmpf@.fields[j]).0,
                                        ) matches Some(vd) && vd.is_filldown) by {
                                            match field_index(tmpf_pre, vname@) {
                                                Some(k) => {
                                                    if j != k {
                                                        assert(tmpf@.fields[j] == tmpf_pre[j]);
                                                    } else {
                                                        assert(tmpf@.fields[j].0 == vname@);
                                                    }
                                                },
                                                None => {
                                                    if j < tmpf_pre.len() {
                                                        assert(tmpf@.fields[j] == tmpf_pre[j]);
                                                    } else {
                                                        assert(tmpf@.fields[j].0 == vname@);
                                                    }
                                                },
                                            }
                                        }
                                    }
                                    assert(build_tmp(p.values, rv.vars, capsv, vi as int, (
                                        tmp_pre,
                                        tmpf_pre,
                                    )) == build_tmp(p.values, rv.vars, capsv, (vi + 1) as int, (
                                        tmp@.fields,
                                        tmpf@.fields,
                                    )));
                                }
                            },
                            Err(e) => {
                                proof {
                                    assert(false);
                                }
                                return Err(e);
                            },
                        }
                        vi = vi + 1;
                    }
                    proof {
                        assert(build_tmp(p.values, rv.vars, capsv, vi as int, (
                            tmp@.fields,
                            tmpf@.fields,
                        )) == Ok::<(FieldsV, FieldsV), ErrorV>((tmp@.fields, tmpf@.fields)));
                    }
                    // merge into the live memory
                    let tr = {
                        let rule = &self.parser.states[si].rules[ri];
                        rule.transition.clone()
                    };
                    let ghost curr_pre_f = mem_pre.curr.fields;
                    let ghost out_pre = mem_pre.out;
                    let ghost fd_pre = mem_pre.filldown.fields;
                    match merge_into(&self.parser, &mut self.curr_record,
                        &mut self.filldown_record, &mut self.records, &tmp, &tmpf) {
                        Ok(_) => {},
                        Err(e) => {
                            proof {
                                assert(merge_captures(p, mem_pre, rv.vars, capsv) == Err::<
                                    MemV,
                                    ErrorV,
                                >(e@));
                                assert(mem_wf(p.values, self@.mem)) by {
                                    assert forall|rr: int, kk: int|
                                        0 <= rr < self@.mem.out.len() && 0 <= kk
                                            < p.values.len() implies find_field(
                                        (#[trigger] self@.mem.out[rr]).fields,
                                        (#[trigger] p.values[kk]).name,
                                    ) is Some by {
                                        assert(find_field(out_pre[rr].fields, p.values[kk].name)
                                            is Some);
                                    }
                                }
                                assert(run_rules(p, mem0, rules, 0, aline@) == Err::<
                                    (MemV, Option<NextStateV>),
                                    ErrorV,
                                >(e@));
                                assert(self@.mem.out.len() >= mem0.out.len());
                                assert forall|j: int, n: Seq<char>|
                                    0 <= j < mem0.out.len() && #[trigger] find_field(
                                        mem0.out[j].fields,
                                        n,
                                    ) is Some implies #[trigger] find_field(
                                    self@.mem.out[j].fields,
                                    n,
                                ) is Some by {
                                    assert(find_field(mem_pre.out[j].fields, n) is Some);
                                }
                            }
                            return Err(e);
                        },
                    }
                    proof {
                        assert(merge_captures(p, mem_pre, rv.vars, capsv) == Ok::<MemV, ErrorV>(
                            self@.mem,
                        ));
                        lemma_merge_step_wf(p.values, out_pre, curr_pre_f, tmp@.fields, 0);
                        lemma_append_all_wf(p.values, fd_pre, tmpf@.fields);
                        assert(mem_wf(p.values, self@.mem)) by {
                            assert forall|rr: int, kk: int|
                                0 <= rr < self@.mem.out.len() && 0 <= kk
                                    < p.values.len() implies find_field(
                                (#[trigger] self@.mem.out[rr]).fields,
                                (#[trigger] p.values[kk]).name,
                            ) is Some by {
                                assert(find_field(out_pre[rr].fields, p.values[kk].name) is Some);
                            }
                        }
                        assert(self@.mem.out.len() >= mem0.out.len());
                        assert forall|j: int, n: Seq<char>|
                            0 <= j < mem0.out.len() && #[trigger] find_field(
                                mem0.out[j].fields,
                                n,
                            ) is Some implies #[trigger] find_field(
                            self@.mem.out[j].fields,
                            n,
                        ) is Some by {
                            assert(find_field(mem_pre.out[j].fields, n) is Some);
                        }
                    }
                    let ghost mem_merged = self@.mem;
                    match do_record_action(&self.parser, &mut self.curr_record,
                        &mut self.filldown_record, &mut self.records, tr.record_action) {
                        Ok(_) => {},
                        Err(e) => {
                            proof {
                                assert(apply_record_action(p, rv.transition.record_action,
                                    mem_merged) == Err::<MemV, ErrorV>(e@));
                                assert(self@.mem == mem_merged);
                            }
                            return Err(e);
                        },
                    }
                    proof {
                        assert(apply_record_action(p, rv.transition.record_action, mem_merged)
                            == Ok::<MemV, ErrorV>(self@.mem));
                        assert(self@.mem.out == mem_merged.out || self@.mem.out
                            == mem_merged.out.push(self@.mem.out.last())) by {
                            match rv.transition.record_action {
                                RecordAction::NoRecord => {},
                                RecordAction::Record => {},
                                RecordAction::Clear => {},
                                RecordAction::Clearall => {},
                            }
                        }
                        assert(self@.mem.out.len() >= mem0.out.len());
                        assert forall|j: int, n: Seq<char>|
                            0 <= j < mem0.out.len() && #[trigger] find_field(
                                mem0.out[j].fields,
                                n,
                            ) is Some implies #[trigger] find_field(
                            self@.mem.out[j].fields,
                            n,
                        ) is Some by {
                            assert(find_field(mem_merged.out[j].fields, n) is Some);
                            if self@.mem.out != mem_merged.out {
                                assert(self@.mem.out[j] == mem_merged.out[j]);
                            }
                        }
                    }
                    match tr.line_action {
                        crate::template::LineAction::Next(x) => {
                            proof {
                                assert(rv.transition.line_action == LineActionV::Next(opt_ns_view(
                                    x,
                                )));
                            }
                            return Ok(x);
                        },
                        crate::template::LineAction::Continue => {
                            proof {
                                assert(rv.transition.line_action == LineActionV::Continue);
                            }
                            ri = ri + 1;
                        },
                    }
                },
            }
        }
        proof {
            assert(run_rules(p, self@.mem, rules, ri as int, aline@) == Ok::<
                (MemV, Option<NextStateV>),
                ErrorV,
            >((self@.mem, None)));
        }
        Ok(None)
    }
}

impl TextFSM {
    /// Feeds one line to the machine: evaluates it in the current state
    /// and applies the returned transition.  Hands back whether parsing
    /// should stop because the machine entered `EOF` or `End`.
    pub fn feed_line(&mut self, aline: &str) -> (r: Result<bool, TextFsmError>)
        requires
            fsm_wf(old(self)@),
        ensures
            final(self)@.program == old(self)@.program,
            fsm_wf(final(self)@),
            final(self)@.mem.out.len() >= old(self)@.mem.out.len(),
            forall|j: int, n: Seq<char>|
                0 <= j < old(self)@.mem.out.len() && #[trigger] find_field(
                    old(self)@.mem.out[j].fields,
                    n,
                ) is Some ==> #[trigger] find_field(final(self)@.mem.out[j].fields, n) is Some,
            match feed_one(old(self)@.program, mach_of(old(self)@), aline@) {
                Ok(m2) => r matches Ok(stop) && final(self)@.state == m2.state && final(self)@.mem
                    == m2.mem && stop == (m2.state == "EOF"@ || m2.state == "End"@),
                Err(e) => r matches Err(re) && re@ == e,
            },
    {
        let ns = match self.parse_line(aline) {
            Ok(ns) => ns,
            Err(e) => {
                return Err(e);
            },
        };
        match ns {
            None => {},
            Some(NextState::Error(maybe_msg)) => {
                let mut m = String::from_str("Error state reached! msg: ");
                match &maybe_msg {
                    None => {
                        m.append("None");
                    },
                    Some(t) => {
                        m.append("Some(");
                        crate::record::append_quoted(&mut m, t.as_str());
                        m.append(")");
                        proof {
                            assert(m@ =~= "Error state reached! msg: "@ + ("Some("@ + quoted(t@)
                                + ")"@));
                        }
                    },
                }
                return Err(TextFsmError::StateError(m));
            },
            Some(NextState::NamedState(n)) => {
                match self.set_curr_state(n.as_str()) {
                    Ok(_) => {},
                    Err(e) => {
                        return Err(e);
                    },
                }
            },
        }
        let stop = crate::text::str_eq(self.curr_state.as_str(), "EOF") || crate::text::str_eq(
            self.curr_state.as_str(),
            "End",
        );
        Ok(stop)
    }

    /// Runs the synthetic end of input: unless the machine already
    /// reached `End`, it enters `EOF`, evaluates one empty line there,
    /// and stops in `End`.
    pub fn finish(&mut self) -> (r: Result<(), TextFsmError>)
        requires
            fsm_wf(old(self)@),
        ensures
            final(self)@.program == old(self)@.program,
            fsm_wf(final(self)@),
            final(self)@.mem.out.len() >= old(self)@.mem.out.len(),
            forall|j: int, n: Seq<char>|
                0 <= j < old(self)@.mem.out.len() && #[trigger] find_field(
                    old(self)@.mem.out[j].fields,
                    n,
                ) is Some ==> #[trigger] find_field(final(self)@.mem.out[j].fields, n) is Some,
            match finish_run(old(self)@.program, mach_of(old(self)@)) {
                Ok(m2) => r matches Ok(u) && final(self)@.state == m2.state && final(self)@.mem
                    == m2.mem,
                Err(e) => r matches Err(re) && re@ == e,
            },
    {
        if crate::text::str_eq(self.curr_state.as_str(), "End") {
            return Ok(());
        }
        match self.set_curr_state("EOF") {
            Ok(_) => {},
            Err(e) => {
                return Err(e);
            },
        }
        proof {
            assert("EOF"@ != "End"@) by {
                reveal_strlit("EOF");
                reveal_strlit("End");
                assert("EOF"@[1] == 'O');
                assert("End"@[1] == 'n');
            }
            assert(""@ =~= Seq::<char>::empty()) by {
                reveal_strlit("");
            }
        }
        match self.parse_line("") {
            Ok(_) => {},
            Err(e) => {
                return Err(e);
            },
        }
        match self.set_curr_state("End") {
            Ok(_) => {},
            Err(e) => {
                proof {
                    assert(false) by {
                        reveal_strlit("End");
                    }
                }
                return Err(e);
            },
        }
        Ok(())
    }
}

/// The fields with every name lower-cased, later bindings of a now-equal
/// name replacing earlier ones in place.
pub open spec fn lower_fields(fields: FieldsV) -> FieldsV
    decreases fields.len(),
{
    if fields.len() == 0 {
        Seq::empty()
    } else {
        set_field(
            lower_fields(fields.drop_last()),
            crate::text::lower_chars(fields.last().0),
            fields.last().1,
        )
    }
}

/// A record with its field names lower-cased; the key is kept.
pub open spec fn lower_record(r: RecordV) -> RecordV {
    RecordV { fields: lower_fields(r.fields), record_key: r.record_key }
}

/// Every record with its field names lower-cased.
pub open spec fn lower_records(rs: Seq<RecordV>) -> Seq<RecordV>
    decreases rs.len(),
{
    if rs.len() == 0 {
        Seq::empty()
    } else {
        lower_records(rs.drop_last()).push(lower_record(rs.last()))
    }
}

/// The lower-cased records have the same length and entries.
pub proof fn lemma_lower_records(rs: Seq<RecordV>)
    ensures
        lower_records(rs).len() == rs.len(),
        forall|j: int| 0 <= j < rs.len() ==> #[trigger] lower_records(rs)[j] == lower_record(
            rs[j],
        ),
    decreases rs.len(),
{
    if rs.len() > 0 {
        lemma_lower_records(rs.drop_last());
    }
}

impl TextFSM {
    /// A copy of the records with every field name lower-cased; keys are
    /// kept, and names that collide once lowered keep the later value.
    /// Only ASCII capitals are shifted; template value names are ASCII
    /// identifiers, so every name a parse produces is covered.
    pub fn lowercase_keys(src: &Vec<DataRecord>) -> (r: Vec<DataRecord>)
        ensures
            recs_view_of(r@) == lower_records(recs_view_of(src@)),
    {
        proof {
            lemma_recs_view_of(src@);
        }
        let ghost sv = recs_view_of(src@);
        let mut out: Vec<DataRecord> = Vec::new();
        let mut i: usize = 0;
        proof {
            assert(recs_view_of(out@) =~~= lower_records(sv.subrange(0, 0))) by {
                assert(sv.subrange(0, 0) =~= Seq::<RecordV>::empty());
            }
        }
        while i < src.len()
            invariant
                i <= src@.len(),
                sv == recs_view_of(src@),
                sv.len() == src@.len(),
                forall|j: int| 0 <= j < src@.len() ==> #[trigger] sv[j] == src@[j]@,
                recs_view_of(out@) == lower_records(sv.subrange(0, i as int)),
            decreases src@.len() - i,
        {
            proof {
                assert(sv.subrange(0, (i + 1) as int).drop_last() =~= sv.subrange(0, i as int));
                assert(sv.subrange(0, (i + 1) as int).last() == sv[i as int]);
            }
            let rec = &src[i];
            let mut hm = DataRecord::new();
            hm.record_key = match &rec.record_key {
                Some(k) => Some(k.clone()),
                None => None,
            };
            let ghost rf = rec@.fields;
            proof {
                crate::record::lemma_fields_view_of(rec.fields@);
                assert(lower_fields(rf.subrange(0, 0)) =~~= Seq::<(Seq<char>, ValueV)>::empty())
                    by {
                    assert(rf.subrange(0, 0) =~= Seq::<(Seq<char>, ValueV)>::empty());
                }
            }
            let mut fi: usize = 0;
            while fi < rec.fields.len()
                invariant
                    fi <= rec.fields@.len(),
                    rf == rec@.fields,
                    rf.len() == rec.fields@.len(),
                    forall|j: int| 0 <= j < rec.fields@.len() ==> #[trigger] rf[j] == (
                        rec.fields@[j].0@,
                        rec.fields@[j].1@,
                    ),
                    hm@.fields == lower_fields(rf.subrange(0, fi as int)),
                    hm@.record_key == (match rec.record_key {
                        Some(k) => Some(k@),
                        None => None::<Seq<char>>,
                    }),
                decreases rec.fields@.len() - fi,
            {
                proof {
                    assert(rf.subrange(0, (fi + 1) as int).drop_last() =~= rf.subrange(
                        0,
                        fi as int,
                    ));
                    assert(rf.subrange(0, (fi + 1) as int).last() == rf[fi as int]);
                }
                let kl = crate::text::lower_string(rec.fields[fi].0.as_str());
                hm.set_value(kl, rec.fields[fi].1.duplicate());
                fi = fi + 1;
            }
            proof {
                assert(rf.subrange(0, rf.len() as int) =~= rf);
            }
            let ghost pre_out = out@;
            out.push(hm);
            i = i + 1;
            proof {
                assert(out@.drop_last() =~= pre_out);
                assert(recs_view_of(out@) =~~= lower_records(sv.subrange(0, i as int)));
            }
        }
        proof {
            assert(sv.subrange(0, sv.len() as int) =~= sv);
        }
        out
    }

    /// A copy of the emitted records.
    fn duplicate_records(&self) -> (r: Vec<DataRecord>)
        ensures
            recs_view_of(r@) == self@.mem.out,
    {
        proof {
            lemma_recs_view_of(self.records@);
        }
        let mut out: Vec<DataRecord> = Vec::new();
        let mut i: usize = 0;
        while i < self.records.len()
            invariant
                i <= self.records@.len(),
                recs_view_of(out@).len() == i,
                recs_view_of(self.records@).len() == self.records@.len(),
                forall|j: int| 0 <= j < self.records@.len() ==> #[trigger] recs_view_of(
                    self.records@,
                )[j] == self.records@[j]@,
                forall|j: int| 0 <= j < i ==> #[trigger] recs_view_of(out@)[j] == recs_view_of(
                    self.records@,
                )[j],
            decreases self.records@.len() - i,
        {
            let ghost pre = out@;
            out.push(self.records[i].duplicate());
            i = i + 1;
            proof {
                assert(out@.drop_last() =~= pre);
                lemma_recs_view_of(out@);
                lemma_recs_view_of(pre);
            }
        }
        proof {
            assert(recs_view_of(out@) =~~= self@.mem.out);
        }
        out
    }

    /// Parses a whole text from the machine's present state: feeds its
    /// lines in order, stops after a line enters `EOF` or `End`, runs
    /// the synthetic end of input, and hands back a copy of all emitted
    /// records, optionally with lower-cased field names.
    pub fn parse_string(&mut self, data: &str, conversion: Option<DataRecordConversion>) -> (r:
        Result<Vec<DataRecord>, TextFsmError>)
        requires
            fsm_wf(old(self)@),
        ensures
            final(self)@.program == old(self)@.program,
            fsm_wf(final(self)@),
            final(self)@.mem.out.len() >= old(self)@.mem.out.len(),
            forall|j: int, n: Seq<char>|
                0 <= j < old(self)@.mem.out.len() && #[trigger] find_field(
                    old(self)@.mem.out[j].fields,
                    n,
                ) is Some ==> #[trigger] find_field(final(self)@.mem.out[j].fields, n) is Some,
            match parse_run(old(self)@.program, mach_of(old(self)@), data@) {
                Ok(m2) => r matches Ok(recs) && final(self)@.state == m2.state && final(self)@.mem
                    == m2.mem && (match conversion {
                    None => recs_view_of(recs@) == m2.mem.out,
                    Some(DataRecordConversion::LowercaseKeys) => recs_view_of(recs@)
                        == lower_records(m2.mem.out),
                }),
                Err(e) => r matches Err(re) && re@ == e,
            },
    {
        let ghost p = self@.program;
        let ghost m0 = mach_of(self@);
        let ghost lv = crate::text::spec_lines(data@);
        let lines = crate::text::split_lines(data);
        let mut i: usize = 0;
        let mut stopped = false;
        while i < lines.len() && !stopped
            invariant
                i <= lines@.len(),
                p == self@.program,
                p == old(self)@.program,
                m0 == mach_of(old(self)@),
                fsm_wf(self@),
                lv == crate::text::spec_lines(data@),
                lines.deep_view() == lv,
                lv.len() == lines@.len(),
                forall|j: int| 0 <= j < lines@.len() ==> #[trigger] lines.deep_view()[j]
                    == lines@[j]@,
                self@.mem.out.len() >= m0.mem.out.len(),
                forall|j: int, n: Seq<char>|
                    0 <= j < m0.mem.out.len() && #[trigger] find_field(m0.mem.out[j].fields, n)
                        is Some ==> #[trigger] find_field(self@.mem.out[j].fields, n) is Some,
                !stopped ==> run_lines(p, m0, lv, 0) == run_lines(p, mach_of(self@), lv, i as int),
                stopped ==> run_lines(p, m0, lv, 0) == Ok::<MachV, ErrorV>(mach_of(self@)),
            decreases lines@.len() - i,
        {
            let line_s = crate::text::chars_string(lines[i].as_slice());
            proof {
                assert(line_s@ == lv[i as int]);
            }
            let ghost mem_b = self@.mem;
            match self.feed_line(line_s.as_str()) {
                Ok(stop) => {
                    stopped = stop;
                    proof {
                        assert forall|j: int, n: Seq<char>|
                            0 <= j < m0.mem.out.len() && #[trigger] find_field(
                                m0.mem.out[j].fields,
                                n,
                            ) is Some implies #[trigger] find_field(
                            self@.mem.out[j].fields,
                            n,
                        ) is Some by {
                            assert(find_field(mem_b.out[j].fields, n) is Some);
                        }
                    }
                },
                Err(e) => {
                    proof {
                        assert forall|j: int, n: Seq<char>|
                            0 <= j < m0.mem.out.len() && #[trigger] find_field(
                                m0.mem.out[j].fields,
                                n,
                            ) is Some implies #[trigger] find_field(
                            self@.mem.out[j].fields,
                            n,
                        ) is Some by {
                            assert(find_field(mem_b.out[j].fields, n) is Some);
                        }
                    }
                    return Err(e);
                },
            }
            i = i + 1;
        }
        proof {
            if !stopped {
                assert(run_lines(p, mach_of(self@), lv, i as int) == Ok::<MachV, ErrorV>(mach_of(
                    self@,
                )));
            }
        }
        let ghost mem_c = self@.mem;
        match self.finish() {
            Ok(_) => {
                proof {
                    assert forall|j: int, n: Seq<char>|
                        0 <= j < m0.mem.out.len() && #[trigger] find_field(
                            m0.mem.out[j].fields,
                            n,
                        ) is Some implies #[trigger] find_field(
                        self@.mem.out[j].fields,
                        n,
                    ) is Some by {
                        assert(find_field(mem_c.out[j].fields, n) is Some);
                    }
                }
            },
            Err(e) => {
                proof {
                    assert forall|j: int, n: Seq<char>|
                        0 <= j < m0.mem.out.len() && #[trigger] find_field(
                            m0.mem.out[j].fields,
                            n,
                        ) is Some implies #[trigger] find_field(
                        self@.mem.out[j].fields,
                        n,
                    ) is Some by {
                        assert(find_field(mem_c.out[j].fields, n) is Some);
                    }
                }
                return Err(e);
            },
        }
        let out = self.duplicate_records();
        match conversion {
            None => Ok(out),
            Some(DataRecordConversion::LowercaseKeys) => Ok(TextFSM::lowercase_keys(&out)),
        }
    }
}

} // verus!
