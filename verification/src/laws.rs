use vstd::prelude::*;
use crate::compile::{lookup_value, program_wf, state_wf, ProgramV, RuleV};
use crate::machine::{
    apply_fillup, apply_record_action, build_tmp, empty_record, feed_one, fields_wf, finish_run,
    lemma_add_missing_wf, lemma_append_all_wf, lemma_build_tmp_wf, lemma_clear_fields_wf,
    lemma_merge_step_wf, lower_fields, lower_record, lower_records, mem_wf, merge_captures,
    merge_step, parse_run, run_lines, run_rules, MachV, MemV,
};
use crate::record::{
    field_index, fields_unique, find_field, lemma_field_index, lemma_set_field_unique, set_field,
    FieldsV, RecordV,
};
use crate::template::{LineActionV, NextStateV, RecordAction, ValueDefV};
use crate::text::{lower_chars, lemma_lower_chars_idempotent, spec_lines};

verus! {

/// Every variable any compiled rule captures is a declared value of the
/// template: compilation rejects a reference to an unknown variable.
pub proof fn law_variables_declared(p: ProgramV)
    requires
        program_wf(p),
    ensures
        forall|i: int, j: int, k: int|
            0 <= i < p.states.len() && 0 <= j < p.states[i].rules.len() && 0 <= k < p.states[i].rules[j].vars.len() ==> lookup_value(
                p.values,
                #[trigger] p.states[i].rules[j].vars[k],
            ) is Some,
{
    assert forall|i: int, j: int, k: int|
        0 <= i < p.states.len() && 0 <= j < p.states[i].rules.len() && 0 <= k < p.states[i].rules[j].vars.len() implies lookup_value(
        p.values,
        #[trigger] p.states[i].rules[j].vars[k],
    ) is Some by {
        assert(state_wf(p.states[i], p.values));
        assert(crate::compile::rule_wf(p.states[i].rules[j]));
    }
}

/// Merging one matched rule's captures preserves a well-formed memory.
pub proof fn lemma_merge_captures_wf(
    p: ProgramV,
    mem: MemV,
    vars: Seq<Seq<char>>,
    caps: Seq<Option<Seq<char>>>,
)
    requires
        mem_wf(p.values, mem),
    ensures
        merge_captures(p, mem, vars, caps) matches Ok(m2) ==> mem_wf(p.values, m2)
            && m2.out.len() == mem.out.len(),
{
    lemma_build_tmp_wf(p.values, vars, caps, 0, (Seq::empty(), Seq::empty()));
    match build_tmp(p.values, vars, caps, 0, (Seq::empty(), Seq::empty())) {
        Err(_) => {},
        Ok((tmp, tmpf)) => {
            lemma_merge_step_wf(p.values, mem.out, mem.curr.fields, tmp, 0);
            lemma_append_all_wf(p.values, mem.filldown.fields, tmpf);
            match merge_step(p.values, mem.out, mem.curr.fields, tmp, 0) {
                Err(_) => {},
                Ok((o2, c2)) => {
                    let m2 = merge_captures(p, mem, vars, caps)->Ok_0;
                    assert(mem_wf(p.values, m2)) by {
                        assert forall|rr: int, kk: int|
                            0 <= rr < m2.out.len() && 0 <= kk < p.values.len() implies find_field(
                            (#[trigger] m2.out[rr]).fields,
                            (#[trigger] p.values[kk]).name,
                        ) is Some by {
                            assert(find_field(mem.out[rr].fields, p.values[kk].name) is Some);
                        }
                    }
                },
            }
        },
    }
}

/// A record action preserves a well-formed memory, and `Record` is the
/// only action that adds to the output.
pub proof fn lemma_apply_record_action_wf(p: ProgramV, ra: RecordAction, mem: MemV)
    requires
        program_wf(p),
        mem_wf(p.values, mem),
    ensures
        apply_record_action(p, ra, mem) matches Ok(m2) ==> mem_wf(p.values, m2) && (m2.out
            == mem.out || (ra == RecordAction::Record && m2.out.len() == mem.out.len() + 1)),
{
    match ra {
        RecordAction::NoRecord => {},
        RecordAction::Clearall => {},
        RecordAction::Clear => {
            lemma_clear_fields_wf(p.values, mem.curr.fields);
        },
        RecordAction::Record => {
            lemma_add_missing_wf(p.values, mem.curr.fields, 0);
            match apply_record_action(p, ra, mem) {
                Err(_) => {},
                Ok(m2) => {
                    if mem.curr.fields.len() > 0 && crate::machine::mandatory_satisfied(
                        p,
                        mem.curr.fields,
                    ) {
                        assert(mem_wf(p.values, m2)) by {
                            assert forall|rr: int, kk: int|
                                0 <= rr < m2.out.len() && 0 <= kk
                                    < p.values.len() implies find_field(
                                (#[trigger] m2.out[rr]).fields,
                                (#[trigger] p.values[kk]).name,
                            ) is Some by {
                                if rr < mem.out.len() {
                                    assert(m2.out[rr] == mem.out[rr]);
                                } else {
                                    assert(m2.out[rr].fields == crate::machine::add_missing(
                                        p.values,
                                        mem.curr.fields,
                                        0,
                                    ));
                                }
                            }
                        }
                    }
                },
            }
        },
    }
}

/// Evaluating the rules of a state on a line preserves a well-formed
/// memory.
pub proof fn lemma_run_rules_wf(p: ProgramV, mem: MemV, rules: Seq<RuleV>, i: int, line: Seq<char>)
    requires
        program_wf(p),
        mem_wf(p.values, mem),
    ensures
        run_rules(p, mem, rules, i, line) matches Ok(mr) ==> mem_wf(p.values, mr.0),
    decreases rules.len() - i,
{
    if 0 <= i < rules.len() {
        let rule = rules[i];
        match crate::machine::rule_outcome(rule, line) {
            Err(_) => {},
            Ok(None) => {
                lemma_run_rules_wf(p, mem, rules, i + 1, line);
            },
            Ok(Some(caps)) => {
                lemma_merge_captures_wf(p, mem, rule.vars, caps);
                match merge_captures(p, mem, rule.vars, caps) {
                    Err(_) => {},
                    Ok(mem2) => {
                        lemma_apply_record_action_wf(p, rule.transition.record_action, mem2);
                        match apply_record_action(p, rule.transition.record_action, mem2) {
                            Err(_) => {},
                            Ok(mem3) => {
                                match rule.transition.line_action {
                                    LineActionV::Next(_) => {},
                                    LineActionV::Continue => {
                                        lemma_run_rules_wf(p, mem3, rules, i + 1, line);
                                    },
                                }
                            },
                        }
                    },
                }
            },
        }
    }
}

/// Feeding one line preserves a well-formed memory.
pub proof fn lemma_feed_one_wf(p: ProgramV, m: MachV, line: Seq<char>)
    requires
        program_wf(p),
        mem_wf(p.values, m.mem),
    ensures
        feed_one(p, m, line) matches Ok(m2) ==> mem_wf(p.values, m2.mem),
{
    match crate::machine::lookup_state(p, m.state) {
        None => {},
        Some(st) => {
            lemma_run_rules_wf(p, m.mem, st.rules, 0, line);
        },
    }
}

/// Feeding any lines preserves a well-formed memory.
pub proof fn lemma_run_lines_wf(p: ProgramV, m: MachV, lines: Seq<Seq<char>>, i: int)
    requires
        program_wf(p),
        mem_wf(p.values, m.mem),
    ensures
        run_lines(p, m, lines, i) matches Ok(m2) ==> mem_wf(p.values, m2.mem),
    decreases lines.len() - i,
{
    if 0 <= i < lines.len() {
        lemma_feed_one_wf(p, m, lines[i]);
        match feed_one(p, m, lines[i]) {
            Err(_) => {},
            Ok(m2) => {
                if !(m2.state == "EOF"@ || m2.state == "End"@) {
                    lemma_run_lines_wf(p, m2, lines, i + 1);
                }
            },
        }
    }
}

/// A whole parse preserves a well-formed memory.
pub proof fn lemma_parse_run_wf(p: ProgramV, m: MachV, text: Seq<char>)
    requires
        program_wf(p),
        mem_wf(p.values, m.mem),
    ensures
        parse_run(p, m, text) matches Ok(m2) ==> mem_wf(p.values, m2.mem),
{
    lemma_run_lines_wf(p, m, spec_lines(text), 0);
    match run_lines(p, m, spec_lines(text), 0) {
        Err(_) => {},
        Ok(m1) => {
            if m1.state != "End"@ {
                match crate::machine::lookup_state(p, "EOF"@) {
                    None => {},
                    Some(st) => {
                        lemma_run_rules_wf(p, m1.mem, st.rules, 0, Seq::empty());
                    },
                }
            }
        },
    }
}

/// One name of the required list is the name of a declared value that
/// is marked required.
pub proof fn lemma_mandatory_names_at(values: Seq<ValueDefV>, k: int)
    requires
        0 <= k < crate::compile::mandatory_of(values).len(),
    ensures
        exists|j: int|
            0 <= j < values.len() && crate::compile::mandatory_of(values)[k] == (
            #[trigger] values[j]).name && values[j].is_required,
    decreases values.len(),
{
    let front = crate::compile::mandatory_of(values.drop_last());
    if k < front.len() {
        lemma_mandatory_names_at(values.drop_last(), k);
        let w = choose|j: int|
            0 <= j < values.drop_last().len() && front[k] == (#[trigger] values.drop_last()[j]).name && values.drop_last()[j].is_required;
        assert(values[w] == values.drop_last()[w]);
        assert(crate::compile::mandatory_of(values)[k] == front[k]) by {
            if values.last().is_required {
                assert(crate::compile::mandatory_of(values) == front.push(values.last().name));
            }
        }
        assert(crate::compile::mandatory_of(values)[k] == values[w].name
            && values[w].is_required);
    } else {
        assert(values.last().is_required) by {
            if !values.last().is_required {
                assert(crate::compile::mandatory_of(values) == front);
            }
        }
        assert(crate::compile::mandatory_of(values)[k] == values.last().name);
        assert(values[values.len() - 1] == values.last());
        assert(crate::compile::mandatory_of(values)[k] == values[values.len() - 1].name
            && values[values.len() - 1].is_required);
    }
}

/// Every required value's name stands in the required list.
pub proof fn lemma_required_in_mandatory(values: Seq<ValueDefV>, j: int)
    requires
        0 <= j < values.len(),
        values[j].is_required,
    ensures
        exists|k: int|
            0 <= k < crate::compile::mandatory_of(values).len() && (
            #[trigger] crate::compile::mandatory_of(values)[k]) == values[j].name,
    decreases values.len(),
{
    if j == values.len() - 1 {
        let m = crate::compile::mandatory_of(values);
        assert(values.last() == values[j]);
        assert(m[m.len() - 1] == values[j].name);
    } else {
        lemma_required_in_mandatory(values.drop_last(), j);
        let front = crate::compile::mandatory_of(values.drop_last());
        let w = choose|k: int|
            0 <= k < front.len() && (#[trigger] front[k]) == values.drop_last()[j].name;
        assert(crate::compile::mandatory_of(values)[w] == values[j].name) by {
            if values.last().is_required {
                assert(crate::compile::mandatory_of(values) == front.push(values.last().name));
            }
        }
    }
}

/// Every emitted record binds every required value and has it set: a
/// required scalar is not the empty string, a required list counts as
/// set.
pub open spec fn required_bound(values: Seq<ValueDefV>, out: Seq<RecordV>) -> bool {
    forall|r: int, j: int|
        0 <= r < out.len() && 0 <= j < values.len() && (#[trigger] values[j]).is_required
            ==> crate::machine::mandatory_ok_at((#[trigger] out[r]).fields, values[j].name)
}

/// Back-filling never unsets a bound-and-set field: it writes only
/// fields that are absent or hold the empty string.
proof fn lemma_fillup_keeps_ok(records: Seq<RecordV>, name: Seq<char>, v: crate::record::ValueV)
    ensures
        apply_fillup(records, name, v) matches Ok(r2) ==> r2.len() == records.len() && (forall|
            r: int,
            n: Seq<char>,
        |
            0 <= r < r2.len() && #[trigger] crate::machine::mandatory_ok_at(records[r].fields, n)
                ==> #[trigger] crate::machine::mandatory_ok_at(r2[r].fields, n)),
    decreases records.len(),
{
    if records.len() > 0 {
        lemma_fillup_keeps_ok(records.drop_last(), name, v);
        match apply_fillup(records, name, v) {
            Err(_) => {},
            Ok(r2) => {
                match find_field(records.last().fields, name) {
                    Some(crate::record::ValueV::Single(st)) if st.len() > 0 => {},
                    Some(crate::record::ValueV::List(_)) => {},
                    _ => {
                        let front = apply_fillup(records.drop_last(), name, v)->Ok_0;
                        assert forall|r: int, n: Seq<char>|
                            0 <= r < r2.len() && #[trigger] crate::machine::mandatory_ok_at(
                                records[r].fields,
                                n,
                            ) implies #[trigger] crate::machine::mandatory_ok_at(
                            r2[r].fields,
                            n,
                        ) by {
                            if r < records.len() - 1 {
                                assert(records.drop_last()[r] == records[r]);
                                assert(r2[r] == front[r]);
                            } else {
                                assert(r2[r].fields == set_field(records.last().fields, name, v));
                                if n != name {
                                    crate::record::lemma_set_field_other(
                                        records.last().fields,
                                        name,
                                        v,
                                        n,
                                    );
                                } else {
                                    assert(!crate::machine::mandatory_ok_at(
                                        records[r].fields,
                                        name,
                                    ));
                                }
                            }
                        }
                    },
                }
            },
        }
    }
}

/// Merging the captures never unsets a bound-and-set field of an
/// emitted record.
proof fn lemma_merge_keeps_ok(
    values: Seq<ValueDefV>,
    out: Seq<RecordV>,
    curr: FieldsV,
    tmp: FieldsV,
    i: int,
)
    ensures
        merge_step(values, out, curr, tmp, i) matches Ok(oc) ==> oc.0.len() == out.len() && (
        forall|r: int, n: Seq<char>|
            0 <= r < oc.0.len() && #[trigger] crate::machine::mandatory_ok_at(out[r].fields, n)
                ==> #[trigger] crate::machine::mandatory_ok_at(oc.0[r].fields, n)),
    decreases tmp.len() - i,
{
    if 0 <= i < tmp.len() {
        let name = tmp[i].0;
        let v = tmp[i].1;
        match lookup_value(values, name) {
            None => {},
            Some(vd) => {
                if vd.is_fillup {
                    lemma_fillup_keeps_ok(out, name, v);
                }
                let stepped = if vd.is_fillup {
                    apply_fillup(out, name, v)
                } else {
                    Ok(out)
                };
                match stepped {
                    Err(_) => {},
                    Ok(out2) => {
                        lemma_merge_keeps_ok(values, out2, crate::record::append_field(
                            curr,
                            name,
                            v,
                        ), tmp, i + 1);
                        match merge_step(values, out2, crate::record::append_field(curr, name, v),
                            tmp, i + 1) {
                            Err(_) => {},
                            Ok(oc) => {
                                assert forall|r: int, n: Seq<char>|
                                    0 <= r < oc.0.len()
                                        && #[trigger] crate::machine::mandatory_ok_at(
                                        out[r].fields,
                                        n,
                                    ) implies #[trigger] crate::machine::mandatory_ok_at(
                                    oc.0[r].fields,
                                    n,
                                ) by {
                                    assert(crate::machine::mandatory_ok_at(out2[r].fields, n));
                                }
                            },
                        }
                    },
                }
            },
        }
    }
}

/// A record action keeps every emitted record's required values bound
/// and set: a new record is emitted only when they are.
pub proof fn lemma_record_action_bound(p: ProgramV, ra: RecordAction, mem: MemV)
    requires
        program_wf(p),
        mem_wf(p.values, mem),
        required_bound(p.values, mem.out),
    ensures
        apply_record_action(p, ra, mem) matches Ok(m2) ==> required_bound(p.values, m2.out),
{
    match ra {
        RecordAction::NoRecord => {},
        RecordAction::Clearall => {},
        RecordAction::Clear => {},
        RecordAction::Record => {
            match apply_record_action(p, ra, mem) {
                Err(_) => {},
                Ok(m2) => {
                    if mem.curr.fields.len() > 0 && crate::machine::mandatory_satisfied(
                        p,
                        mem.curr.fields,
                    ) {
                        lemma_add_missing_wf(p.values, mem.curr.fields, 0);
                        assert forall|r: int, j: int|
                            0 <= r < m2.out.len() && 0 <= j < p.values.len() && (
                            #[trigger] p.values[j]).is_required implies
                            crate::machine::mandatory_ok_at(
                            (#[trigger] m2.out[r]).fields,
                            p.values[j].name,
                        ) by {
                            if r < mem.out.len() {
                                assert(m2.out[r] == mem.out[r]);
                            } else {
                                lemma_required_in_mandatory(p.values, j);
                                let k = choose|k: int|
                                    0 <= k < crate::compile::mandatory_of(p.values).len() && (
                                    #[trigger] crate::compile::mandatory_of(p.values)[k])
                                        == p.values[j].name;
                                assert(crate::machine::mandatory_ok_at(
                                    mem.curr.fields,
                                    p.mandatory[k],
                                ));
                                assert(find_field(mem.curr.fields, p.values[j].name) is Some);
                                assert(find_field(m2.out[r].fields, p.values[j].name)
                                    == find_field(mem.curr.fields, p.values[j].name));
                            }
                        }
                    }
                },
            }
        },
    }
}

/// The rule walk keeps every emitted record's required values bound and
/// set.
pub proof fn lemma_run_rules_bound(
    p: ProgramV,
    mem: MemV,
    rules: Seq<RuleV>,
    i: int,
    line: Seq<char>,
)
    requires
        program_wf(p),
        mem_wf(p.values, mem),
        required_bound(p.values, mem.out),
    ensures
        run_rules(p, mem, rules, i, line) matches Ok(mr) ==> required_bound(p.values, mr.0.out),
    decreases rules.len() - i,
{
    if 0 <= i < rules.len() {
        let rule = rules[i];
        match crate::machine::rule_outcome(rule, line) {
            Err(_) => {},
            Ok(None) => {
                lemma_run_rules_bound(p, mem, rules, i + 1, line);
            },
            Ok(Some(caps)) => {
                lemma_merge_captures_wf(p, mem, rule.vars, caps);
                match merge_captures(p, mem, rule.vars, caps) {
                    Err(_) => {},
                    Ok(mem2) => {
                        assert(required_bound(p.values, mem2.out)) by {
                            match build_tmp(p.values, rule.vars, caps, 0, (
                                Seq::empty(),
                                Seq::empty(),
                            )) {
                                Err(_) => {},
                                Ok(bt) => {
                                    lemma_merge_keeps_ok(p.values, mem.out, mem.curr.fields, bt.0,
                                        0);
                                    match merge_step(p.values, mem.out, mem.curr.fields, bt.0, 0) {
                                        Err(_) => {},
                                        Ok(oc) => {
                                            assert(mem2.out == oc.0);
                                            assert forall|r: int, j: int|
                                                0 <= r < mem2.out.len() && 0 <= j
                                                    < p.values.len() && (
                                                #[trigger] p.values[j]).is_required implies
                                                crate::machine::mandatory_ok_at(
                                                (#[trigger] mem2.out[r]).fields,
                                                p.values[j].name,
                                            ) by {
                                                assert(crate::machine::mandatory_ok_at(
                                                    mem.out[r].fields,
                                                    p.values[j].name,
                                                ));
                                            }
                                        },
                                    }
                                },
                            }
                        }
                        lemma_apply_record_action_wf(p, rule.transition.record_action, mem2);
                        lemma_record_action_bound(p, rule.transition.record_action, mem2);
                        match apply_record_action(p, rule.transition.record_action, mem2) {
                            Err(_) => {},
                            Ok(mem3) => {
                                match rule.transition.line_action {
                                    LineActionV::Next(_) => {},
                                    LineActionV::Continue => {
                                        lemma_run_rules_bound(p, mem3, rules, i + 1, line);
                                    },
                                }
                            },
                        }
                    },
                }
            },
        }
    }
}

/// Feeding lines keeps every emitted record's required values bound and
/// set.
proof fn lemma_run_lines_bound(p: ProgramV, m: MachV, lines: Seq<Seq<char>>, i: int)
    requires
        program_wf(p),
        mem_wf(p.values, m.mem),
        required_bound(p.values, m.mem.out),
    ensures
        run_lines(p, m, lines, i) matches Ok(m2) ==> required_bound(p.values, m2.mem.out)
            && mem_wf(p.values, m2.mem),
    decreases lines.len() - i,
{
    if 0 <= i < lines.len() {
        match crate::machine::lookup_state(p, m.state) {
            None => {},
            Some(st) => {
                lemma_run_rules_wf(p, m.mem, st.rules, 0, lines[i]);
                lemma_run_rules_bound(p, m.mem, st.rules, 0, lines[i]);
            },
        }
        match feed_one(p, m, lines[i]) {
            Err(_) => {},
            Ok(m2) => {
                if !(m2.state == "EOF"@ || m2.state == "End"@) {
                    lemma_run_lines_bound(p, m2, lines, i + 1);
                }
            },
        }
    }
}

/// Every record a successful parse emits has every required value bound
/// and set, the spec's required-field guarantee: a scalar is not the
/// empty string, a list counts as set.
pub proof fn law_required_values_set(p: ProgramV, m: MachV, text: Seq<char>)
    requires
        program_wf(p),
        mem_wf(p.values, m.mem),
        required_bound(p.values, m.mem.out),
    ensures
        parse_run(p, m, text) matches Ok(m2) ==> required_bound(p.values, m2.mem.out),
{
    lemma_run_lines_bound(p, m, spec_lines(text), 0);
    match run_lines(p, m, spec_lines(text), 0) {
        Err(_) => {},
        Ok(m1) => {
            if m1.state != "End"@ {
                match crate::machine::lookup_state(p, "EOF"@) {
                    None => {},
                    Some(st) => {
                        lemma_run_rules_bound(p, m1.mem, st.rules, 0, Seq::empty());
                    },
                }
            }
        },
    }
}

/// Every record a successful parse emits is complete and keeps the
/// declared kinds: it binds every declared value exactly once, each with
/// its declared scalar or list kind, and every required value is bound.
pub proof fn law_emitted_records_sound(p: ProgramV, m: MachV, text: Seq<char>)
    requires
        program_wf(p),
        mem_wf(p.values, m.mem),
    ensures
        parse_run(p, m, text) matches Ok(m2) ==> (forall|r: int|
            0 <= r < m2.mem.out.len() ==> fields_wf(p.values, (#[trigger] m2.mem.out[r]).fields))
            && (forall|r: int, k: int|
            0 <= r < m2.mem.out.len() && 0 <= k < p.values.len() ==> find_field(
                (#[trigger] m2.mem.out[r]).fields,
                (#[trigger] p.values[k]).name,
            ) is Some) && (forall|r: int, k: int|
            0 <= r < m2.mem.out.len() && 0 <= k < p.mandatory.len() ==> find_field(
                (#[trigger] m2.mem.out[r]).fields,
                #[trigger] p.mandatory[k],
            ) is Some),
{
    lemma_parse_run_wf(p, m, text);
    match parse_run(p, m, text) {
        Err(_) => {},
        Ok(m2) => {
            assert forall|r: int, k: int|
                0 <= r < m2.mem.out.len() && 0 <= k < p.mandatory.len() implies find_field(
                (#[trigger] m2.mem.out[r]).fields,
                #[trigger] p.mandatory[k],
            ) is Some by {
                lemma_mandatory_names_at(p.values, k);
                let w = choose|j: int|
                    0 <= j < p.values.len() && crate::compile::mandatory_of(p.values)[k] == (
                    #[trigger] p.values[j]).name && p.values[j].is_required;
                assert(find_field(m2.mem.out[r].fields, p.values[w].name) is Some);
            }
        },
    }
}

/// Parsing is deterministic: two machines over the same program, reset
/// to `Start` with empty buffers, give the same outcome on the same
/// input.
pub proof fn law_parse_deterministic(p: ProgramV, a: MachV, b: MachV, text: Seq<char>)
    requires
        a.state == "Start"@,
        b.state == "Start"@,
        a.mem == (MemV { curr: empty_record(), filldown: empty_record(), out: Seq::empty() }),
        b.mem == (MemV { curr: empty_record(), filldown: empty_record(), out: Seq::empty() }),
    ensures
        parse_run(p, a, text) == parse_run(p, b, text),
{
    assert(a =~~= b);
}

/// Parsing a whole text equals feeding its lines one at a time and then
/// finishing: the streaming reading agrees with the whole-string one.
pub proof fn law_streaming_agrees(p: ProgramV, m: MachV, text: Seq<char>)
    ensures
        parse_run(p, m, text) == (match run_lines(p, m, spec_lines(text), 0) {
            Err(e) => Err(e),
            Ok(m1) => finish_run(p, m1),
        }),
{
}

/// Whether some rule from `i` on carries `ns` as a `Next` target.
pub open spec fn next_from_rules(rules: Seq<RuleV>, i: int, ns: NextStateV) -> bool {
    exists|j: int|
        i <= j < rules.len() && (#[trigger] rules[j]).transition.line_action == LineActionV::Next(
            Some(ns),
        )
}

/// The machine can only change state through a rule whose line action is
/// `Next`: a `Continue` rule never hands a target back, even when its
/// record action fired.
pub proof fn law_continue_keeps_state(
    p: ProgramV,
    mem: MemV,
    rules: Seq<RuleV>,
    i: int,
    line: Seq<char>,
)
    requires
        0 <= i,
    ensures
        run_rules(p, mem, rules, i, line) matches Ok(mr) ==> (mr.1 matches Some(ns)
            ==> next_from_rules(rules, i, ns)),
    decreases rules.len() - i,
{
    if i < rules.len() {
        let rule = rules[i];
        match crate::machine::rule_outcome(rule, line) {
            Err(_) => {
                assert(run_rules(p, mem, rules, i, line) is Err);
            },
            Ok(None) => {
                assert(run_rules(p, mem, rules, i, line) == run_rules(p, mem, rules, i + 1, line));
                law_continue_keeps_state(p, mem, rules, i + 1, line);
                widen_witness(p, mem, rules, i, line, run_rules(p, mem, rules, i + 1, line));
                assert(run_rules(p, mem, rules, i, line) matches Ok(mr) ==> (mr.1 matches Some(
                    ns,
                ) ==> next_from_rules(rules, i, ns)));
            },
            Ok(Some(caps)) => {
                match merge_captures(p, mem, rule.vars, caps) {
                    Err(_) => {
                        assert(run_rules(p, mem, rules, i, line) is Err);
                    },
                    Ok(mem2) => {
                        match apply_record_action(p, rule.transition.record_action, mem2) {
                            Err(_) => {
                                assert(run_rules(p, mem, rules, i, line) is Err);
                            },
                            Ok(mem3) => {
                                match rule.transition.line_action {
                                    LineActionV::Next(x) => {
                                        assert(run_rules(p, mem, rules, i, line) == Ok::<
                                            (MemV, Option<NextStateV>),
                                            crate::error::ErrorV,
                                        >((mem3, x)));
                                        if x is Some {
                                            assert(rules[i].transition.line_action
                                                == LineActionV::Next(x));
                                            assert(next_from_rules(rules, i, x->0));
                                        }
                                        assert(run_rules(p, mem, rules, i, line) matches Ok(mr) ==> (mr.1 matches Some(
                    ns,
                ) ==> next_from_rules(rules, i, ns)));
                                    },
                                    LineActionV::Continue => {
                                        assert(run_rules(p, mem, rules, i, line) == run_rules(
                                            p,
                                            mem3,
                                            rules,
                                            i + 1,
                                            line,
                                        ));
                                        law_continue_keeps_state(p, mem3, rules, i + 1, line);
                                        widen_witness(p, mem3, rules, i, line, run_rules(
                                            p,
                                            mem3,
                                            rules,
                                            i + 1,
                                            line,
                                        ));
                                        assert(run_rules(p, mem, rules, i, line) matches Ok(mr) ==> (mr.1 matches Some(
                    ns,
                ) ==> next_from_rules(rules, i, ns)));
                                    },
                                }
                            },
                        }
                    },
                }
            },
        }
    } else {
        assert(run_rules(p, mem, rules, i, line) == Ok::<
            (MemV, Option<NextStateV>),
            crate::error::ErrorV,
        >((mem, None)));
    }
}

/// A witness among the later rules is a witness among all of them.
proof fn widen_witness(
    p: ProgramV,
    mem: MemV,
    rules: Seq<RuleV>,
    i: int,
    line: Seq<char>,
    sub: Result<(MemV, Option<NextStateV>), crate::error::ErrorV>,
)
    requires
        sub matches Ok(mr) ==> (mr.1 matches Some(ns) ==> next_from_rules(rules, i + 1, ns)),
    ensures
        sub matches Ok(mr) ==> (mr.1 matches Some(ns) ==> next_from_rules(rules, i, ns)),
{
    match sub {
        Ok(mr) => {
            match mr.1 {
                Some(ns) => {
                    if next_from_rules(rules, i + 1, ns) {
                        let w = choose|j: int|
                            i + 1 <= j < rules.len() && (#[trigger] rules[j]).transition.line_action == LineActionV::Next(Some(ns));
                        assert(i <= w < rules.len() && rules[w].transition.line_action
                            == LineActionV::Next(Some(ns)));
                    }
                },
                None => {},
            }
        },
        Err(_) => {},
    }
}

/// `Clearall` discards both the current and the filldown buffer, and
/// nothing else.
pub proof fn law_clearall_discards(p: ProgramV, mem: MemV)
    ensures
        apply_record_action(p, RecordAction::Clearall, mem) == Ok::<MemV, crate::error::ErrorV>(
            MemV { curr: empty_record(), filldown: empty_record(), out: mem.out },
        ),
{
}

/// Whether every field name is already in lower case.
pub open spec fn fields_lowered(fields: FieldsV) -> bool {
    forall|j: int| 0 <= j < fields.len() ==> lower_chars((#[trigger] fields[j]).0) == fields[j].0
}

/// Lower-casing leaves unique, already-lowered fields unchanged.
proof fn lemma_lower_fields_fixed(fields: FieldsV)
    requires
        fields_unique(fields),
        fields_lowered(fields),
    ensures
        lower_fields(fields) == fields,
    decreases fields.len(),
{
    if fields.len() > 0 {
        assert(fields_unique(fields.drop_last()) && fields_lowered(fields.drop_last())) by {
            assert(forall|j: int|
                0 <= j < fields.drop_last().len() ==> #[trigger] fields.drop_last()[j]
                    == fields[j]);
        }
        lemma_lower_fields_fixed(fields.drop_last());
        lemma_field_index(fields.drop_last(), fields.last().0);
        assert(fields[fields.len() - 1] == fields.last());
        assert(lower_chars(fields.last().0) == fields.last().0);
        assert(set_field(fields.drop_last(), fields.last().0, fields.last().1) =~= fields);
    }
}

/// The result of lower-casing has unique, already-lowered names.
proof fn lemma_lower_fields_normal(fields: FieldsV)
    ensures
        fields_unique(lower_fields(fields)),
        fields_lowered(lower_fields(fields)),
    decreases fields.len(),
{
    if fields.len() > 0 {
        lemma_lower_fields_normal(fields.drop_last());
        let front = lower_fields(fields.drop_last());
        let name = lower_chars(fields.last().0);
        lemma_set_field_unique(front, name, fields.last().1);
        lemma_field_index(front, name);
        let out = set_field(front, name, fields.last().1);
        assert forall|j: int| 0 <= j < out.len() implies lower_chars((#[trigger] out[j]).0)
            == out[j].0 by {
            match field_index(front, name) {
                Some(k) => {
                    if j != k {
                        assert(out[j] == front[j]);
                    } else {
                        assert(out[j].0 == name);
                        lemma_lower_chars_idem_name(fields.last().0);
                    }
                },
                None => {
                    if j < front.len() {
                        assert(out[j] == front[j]);
                    } else {
                        assert(out[j].0 == name);
                        lemma_lower_chars_idem_name(fields.last().0);
                    }
                },
            }
        }
    }
}

/// Lower-casing a name twice equals doing it once.
proof fn lemma_lower_chars_idem_name(n: Seq<char>)
    ensures
        lower_chars(lower_chars(n)) == lower_chars(n),
{
    crate::text::lemma_lower_chars_idempotent(n);
}

/// Lower-casing the field names of records twice equals doing it once.
pub proof fn law_lowercase_idempotent(rs: Seq<RecordV>)
    ensures
        lower_records(lower_records(rs)) == lower_records(rs),
    decreases rs.len(),
{
    if rs.len() > 0 {
        law_lowercase_idempotent(rs.drop_last());
        crate::machine::lemma_lower_records(rs);
        let lr = lower_records(rs);
        assert(lr.drop_last() =~~= lower_records(rs.drop_last())) by {
            crate::machine::lemma_lower_records(rs.drop_last());
        }
        lemma_lower_fields_normal(rs.last().fields);
        lemma_lower_fields_fixed(lower_fields(rs.last().fields));
        assert(lower_record(lower_record(rs.last())) == lower_record(rs.last()));
        assert(lower_records(lr) =~~= lower_records(rs)) by {
            assert(lower_records(lr) == lower_records(lr.drop_last()).push(
                lower_record(lr.last()),
            ));
            assert(lr.last() == lower_record(rs.last()));
        }
    }
}

/// A template whose rules capture nothing and never fire `Record` emits
/// nothing, the synthetic end of input taken too: the machine's buffers
/// stay empty, so even the final flush has nothing to emit.
pub proof fn law_no_capture_no_record_emits_nothing(p: ProgramV, m: MachV, text: Seq<char>)
    requires
        forall|i: int, j: int|
            0 <= i < p.states.len() && 0 <= j < p.states[i].rules.len() ==> (#[trigger] p.states[i].rules[j]).vars.len() == 0 && p.states[i].rules[j].transition.record_action
                != RecordAction::Record,
        m.mem.curr.fields.len() == 0,
        m.mem.filldown.fields.len() == 0,
        m.mem.out.len() == 0,
    ensures
        parse_run(p, m, text) matches Ok(m2) ==> m2.mem.out.len() == 0,
{
    lemma_quiet_run_lines(p, m, spec_lines(text), 0);
    match run_lines(p, m, spec_lines(text), 0) {
        Err(_) => {},
        Ok(m1) => {
            if m1.state != "End"@ {
                match crate::machine::lookup_state(p, "EOF"@) {
                    None => {},
                    Some(st) => {
                        proof_eof_witness(p, st);
                        lemma_quiet_state_rules(p, st, m1.mem, 0, Seq::empty());
                    },
                }
            }
        },
    }
}

/// A state that `lookup_state` found stands among the program's states.
proof fn proof_eof_witness(p: ProgramV, st: crate::compile::StateV)
    requires
        crate::machine::lookup_state(p, "EOF"@) == Some(st),
    ensures
        exists|ii: int| 0 <= ii < p.states.len() && p.states[ii] == st,
{
    crate::machine::lemma_state_pos_from(p.states, "EOF"@, 0);
    match crate::machine::state_pos_from(p.states, "EOF"@, 0) {
        Some(k) => {
            assert(0 <= k < p.states.len() && p.states[k] == st);
        },
        None => {},
    }
}

/// Rules that capture nothing and never fire `Record` keep empty
/// buffers empty.
proof fn lemma_quiet_state_rules(
    p: ProgramV,
    st: crate::compile::StateV,
    mem: MemV,
    i: int,
    line: Seq<char>,
)
    requires
        0 <= i,
        forall|ii: int, j: int|
            0 <= ii < p.states.len() && 0 <= j < p.states[ii].rules.len() ==> (#[trigger] p.states[ii].rules[j]).vars.len() == 0 && p.states[ii].rules[j].transition.record_action
                != RecordAction::Record,
        exists|ii: int| 0 <= ii < p.states.len() && p.states[ii] == st,
        mem.curr.fields.len() == 0,
        mem.filldown.fields.len() == 0,
        mem.out.len() == 0,
    ensures
        run_rules(p, mem, st.rules, i, line) matches Ok(mr) ==> mr.0.curr.fields.len() == 0
            && mr.0.filldown.fields.len() == 0 && mr.0.out.len() == 0,
    decreases st.rules.len() - i,
{
    if i < st.rules.len() {
        let w = choose|ii: int| 0 <= ii < p.states.len() && p.states[ii] == st;
        assert(p.states[w].rules[i].vars.len() == 0);
        let rule = st.rules[i];
        match crate::machine::rule_outcome(rule, line) {
            Err(_) => {},
            Ok(None) => {
                lemma_quiet_state_rules(p, st, mem, i + 1, line);
            },
            Ok(Some(caps)) => {
                assert(build_tmp(p.values, rule.vars, caps, 0, (Seq::empty(), Seq::empty()))
                    == Ok::<(FieldsV, FieldsV), crate::error::ErrorV>(
                    (Seq::empty(), Seq::empty()),
                ));
                match merge_captures(p, mem, rule.vars, caps) {
                    Err(_) => {},
                    Ok(mem2) => {
                        assert(mem2.curr.fields.len() == 0 && mem2.filldown.fields.len() == 0
                            && mem2.out.len() == 0) by {
                            assert(merge_step(p.values, mem.out, mem.curr.fields, Seq::empty(), 0)
                                == Ok::<(Seq<RecordV>, FieldsV), crate::error::ErrorV>(
                                (mem.out, mem.curr.fields),
                            ));
                        }
                        match apply_record_action(p, rule.transition.record_action, mem2) {
                            Err(_) => {},
                            Ok(mem3) => {
                                assert(mem3.curr.fields.len() == 0 && mem3.filldown.fields.len()
                                    == 0 && mem3.out.len() == 0) by {
                                    match rule.transition.record_action {
                                        RecordAction::NoRecord => {},
                                        RecordAction::Record => {
                                            assert(false);
                                        },
                                        RecordAction::Clear => {},
                                        RecordAction::Clearall => {},
                                    }
                                }
                                match rule.transition.line_action {
                                    LineActionV::Next(_) => {},
                                    LineActionV::Continue => {
                                        lemma_quiet_state_rules(p, st, mem3, i + 1, line);
                                    },
                                }
                            },
                        }
                    },
                }
            },
        }
    }
}

/// Feeding lines to such a template keeps the buffers empty.
proof fn lemma_quiet_run_lines(p: ProgramV, m: MachV, lines: Seq<Seq<char>>, i: int)
    requires
        0 <= i,
        forall|ii: int, j: int|
            0 <= ii < p.states.len() && 0 <= j < p.states[ii].rules.len() ==> (#[trigger] p.states[ii].rules[j]).vars.len() == 0 && p.states[ii].rules[j].transition.record_action
                != RecordAction::Record,
        m.mem.curr.fields.len() == 0,
        m.mem.filldown.fields.len() == 0,
        m.mem.out.len() == 0,
    ensures
        run_lines(p, m, lines, i) matches Ok(m2) ==> m2.mem.curr.fields.len() == 0
            && m2.mem.filldown.fields.len() == 0 && m2.mem.out.len() == 0,
    decreases lines.len() - i,
{
    if i < lines.len() {
        match crate::machine::lookup_state(p, m.state) {
            None => {},
            Some(st) => {
                crate::machine::lemma_state_pos_from(p.states, m.state, 0);
                assert(exists|ii: int| 0 <= ii < p.states.len() && p.states[ii] == st) by {
                    match crate::machine::state_pos_from(p.states, m.state, 0) {
                        Some(k) => {
                            assert(0 <= k < p.states.len() && p.states[k] == st);
                        },
                        None => {},
                    }
                }
                lemma_quiet_state_rules(p, st, m.mem, 0, lines[i]);
            },
        }
        match feed_one(p, m, lines[i]) {
            Err(_) => {},
            Ok(m2) => {
                if !(m2.state == "EOF"@ || m2.state == "End"@) {
                    lemma_quiet_run_lines(p, m2, lines, i + 1);
                }
            },
        }
    }
}

} // verus!
