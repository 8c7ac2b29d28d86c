use vstd::prelude::*;
use vstd::string::StringExecFns;

verus! {

/// Spec image of a [`Value`]: a scalar character sequence or an ordered
/// sequence of character sequences.
#[verifier::ext_equal]
pub enum ValueV {
    Single(Seq<char>),
    List(Seq<Seq<char>>),
}

/// The contents of one field of a record: a value is either a scalar
/// string or an ordered list of strings.  The kind of a declared value is
/// fixed when a template is compiled.
#[derive(Debug, Clone)]
pub enum Value {
    Single(String),
    List(Vec<String>),
}

impl View for Value {
    type V = ValueV;

    open spec fn view(&self) -> ValueV {
        match self {
            Value::Single(s) => ValueV::Single(s@),
            Value::List(l) => ValueV::List(l.deep_view()),
        }
    }
}

impl PartialEq for Value {
    fn eq(&self, other: &Value) -> (r: bool) {
        match (self, other) {
            (Value::Single(a), Value::Single(b)) => {
                let r = (*a) == (*b);
                proof {
                    if r {
                        assert(self@ == other@);
                    } else {
                        assert(self@ != other@) by {
                            if self@ == other@ {
                                assert(ValueV::Single(a@) == ValueV::Single(b@));
                            }
                        }
                    }
                }
                r
            },
            (Value::List(a), Value::List(b)) => {
                if a.len() != b.len() {
                    proof {
                        assert(a.deep_view().len() == a@.len());
                        assert(b.deep_view().len() == b@.len());
                        assert(self@ != other@) by {
                            if self@ == other@ {
                                assert(a.deep_view() == b.deep_view());
                            }
                        }
                    }
                    return false;
                }
                let mut i: usize = 0;
                while i < a.len()
                    invariant
                        i <= a.len(),
                        a@.len() == b@.len(),
                        self == Value::List(*a) && other == Value::List(*b),
                        forall|j: int| 0 <= j < i ==> a.deep_view()[j] == b.deep_view()[j],
                    decreases a.len() - i,
                {
                    if !(a[i] == b[i]) {
                        proof {
                            assert(a.deep_view()[i as int] == a@[i as int]@);
                            assert(b.deep_view()[i as int] == b@[i as int]@);
                            assert(self@ != other@) by {
                                if self@ == other@ {
                                    assert(a.deep_view() == b.deep_view());
                                }
                            }
                        }
                        return false;
                    }
                    proof {
                        assert(a.deep_view()[i as int] == a@[i as int]@);
                        assert(b.deep_view()[i as int] == b@[i as int]@);
                    }
                    i = i + 1;
                }
                proof {
                    assert(a.deep_view() =~~= b.deep_view());
                    assert(self@ == other@);
                }
                true
            },
            (Value::Single(_), Value::List(_)) => {
                proof {
                    assert(self@ != other@);
                }
                false
            },
            (Value::List(_), Value::Single(_)) => {
                proof {
                    assert(self@ != other@);
                }
                false
            },
        }
    }
}

impl vstd::std_specs::cmp::PartialEqSpecImpl for Value {
    open spec fn obeys_eq_spec() -> bool {
        true
    }

    open spec fn eq_spec(&self, other: &Value) -> bool {
        self@ == other@
    }
}

/// One character of a string rendered inside quotes: quotes and
/// backslashes take a backslash in front, all else is kept.
pub open spec fn escape_char(c: char) -> Seq<char> {
    if c == '"' {
        "\\\""@
    } else if c == '\\' {
        "\\\\"@
    } else {
        seq![c]
    }
}

/// A string with quotes and backslashes escaped.
pub open spec fn escape_chars(s: Seq<char>) -> Seq<char>
    decreases s.len(),
{
    if s.len() == 0 {
        Seq::empty()
    } else {
        escape_chars(s.drop_last()) + escape_char(s.last())
    }
}

/// A string wrapped in double quotes, with its contents escaped.
pub open spec fn quoted(s: Seq<char>) -> Seq<char> {
    "\""@ + escape_chars(s) + "\""@
}

/// The items of a list, each quoted, joined by a comma and a space.
pub open spec fn quoted_join(items: Seq<Seq<char>>) -> Seq<char>
    decreases items.len(),
{
    if items.len() == 0 {
        Seq::empty()
    } else if items.len() == 1 {
        quoted(items[0])
    } else {
        quoted_join(items.drop_last()) + ", "@ + quoted(items.last())
    }
}

/// The rendering of a value: a scalar is its own text, a list is its
/// quoted items joined inside square brackets.
pub open spec fn value_text(v: ValueV) -> Seq<char> {
    match v {
        ValueV::Single(s) => s,
        ValueV::List(l) => "["@ + quoted_join(l) + "]"@,
    }
}

/// The rendering of a value with its kind written out, as a diagnostic
/// form: `Single("...")` or `List([...])`.
pub open spec fn value_diag(v: ValueV) -> Seq<char> {
    match v {
        ValueV::Single(s) => "Single("@ + quoted(s) + ")"@,
        ValueV::List(l) => "List(["@ + quoted_join(l) + "])"@,
    }
}

/// Appends the escaped form of `c` to `out`.
fn append_escaped(out: &mut String, c: char)
    ensures
        final(out)@ == old(out)@ + escape_char(c),
{
    if c == '"' {
        out.append("\\\"");
    } else if c == '\\' {
        out.append("\\\\");
    } else {
        out.push(c);
        proof {
            assert(out@ =~= old(out)@ + escape_char(c));
        }
    }
}

/// Appends `quoted(s@)` to `out`.
pub(crate) fn append_quoted(out: &mut String, s: &str)
    ensures
        final(out)@ == old(out)@ + quoted(s@),
{
    out.append("\"");
    let cs = crate::text::str_chars(s);
    let mut i: usize = 0;
    while i < cs.len()
        invariant
            i <= cs.len(),
            cs@ == s@,
            out@ == old(out)@ + "\""@ + escape_chars(s@.subrange(0, i as int)),
        decreases cs.len() - i,
    {
        proof {
            assert(s@.subrange(0, (i + 1) as int).drop_last() =~= s@.subrange(0, i as int));
            assert(s@.subrange(0, (i + 1) as int).last() == s@[i as int]);
        }
        append_escaped(out, cs[i]);
        i = i + 1;
    }
    proof {
        assert(s@.subrange(0, s@.len() as int) =~= s@);
    }
    out.append("\"");
}

/// Appends `quoted_join(items)` to `out`.
fn append_quoted_join(out: &mut String, items: &Vec<String>)
    ensures
        final(out)@ == old(out)@ + quoted_join(items.deep_view()),
{
    let mut i: usize = 0;
    while i < items.len()
        invariant
            i <= items.len(),
            out@ == old(out)@ + quoted_join(items.deep_view().subrange(0, i as int)),
        decreases items.len() - i,
    {
        if i > 0 {
            out.append(", ");
        }
        proof {
            assert(items.deep_view()[i as int] == items@[i as int]@);
            assert(items.deep_view().subrange(0, (i + 1) as int).drop_last() =~= items.deep_view()
                .subrange(0, i as int));
            assert(items.deep_view().subrange(0, (i + 1) as int).last() == items.deep_view()[
                i as int]);
        }
        append_quoted(out, items[i].as_str());
        i = i + 1;
    }
    proof {
        assert(items.deep_view().subrange(0, items.deep_view().len() as int) =~= items.deep_view());
    }
}

impl Value {
    /// The rendered text of the value: a scalar as it is, a list as its
    /// quoted items inside square brackets.
    pub fn to_string(&self) -> (r: String)
        ensures
            r@ == value_text(self@),
    {
        match self {
            Value::Single(s) => s.clone(),
            Value::List(l) => {
                let mut out: String = String::new();
                out.append("[");
                append_quoted_join(&mut out, l);
                out.append("]");
                out
            },
        }
    }

    /// The diagnostic rendering of the value, with its kind written out.
    pub fn to_diag_string(&self) -> (r: String)
        ensures
            r@ == value_diag(self@),
    {
        let mut out: String = String::new();
        match self {
            Value::Single(s) => {
                out.append("Single(");
                append_quoted(&mut out, s.as_str());
                out.append(")");
            },
            Value::List(l) => {
                out.append("List([");
                append_quoted_join(&mut out, l);
                out.append("])");
            },
        }
        out
    }

    /// Whether the value is of list kind.
    pub fn is_list(&self) -> (r: bool)
        ensures
            r == (self@ is List),
    {
        match self {
            Value::Single(_) => false,
            Value::List(_) => true,
        }
    }

    /// A copy of the value with the same contents.
    pub fn duplicate(&self) -> (r: Value)
        ensures
            r@ == self@,
    {
        match self {
            Value::Single(s) => Value::Single(s.clone()),
            Value::List(l) => {
                let mut items: Vec<String> = Vec::new();
                let mut i: usize = 0;
                while i < l.len()
                    invariant
                        i <= l.len(),
                        items@ == l@.subrange(0, i as int),
                    decreases l.len() - i,
                {
                    items.push(l[i].clone());
                    i = i + 1;
                    proof {
                        assert(items@ =~= l@.subrange(0, i as int));
                    }
                }
                proof {
                    assert(l@.subrange(0, l@.len() as int) =~= l@);
                    assert(items.deep_view() =~~= l.deep_view());
                }
                Value::List(items)
            },
        }
    }
}

/// The fields of a record at spec level: named values in insertion order.
pub type FieldsV = Seq<(Seq<char>, ValueV)>;

/// Spec image of a [`DataRecord`].
#[verifier::ext_equal]
pub struct RecordV {
    pub fields: FieldsV,
    pub record_key: Option<Seq<char>>,
}

/// The position of the first field named `name` at or after `i`, if any.
pub open spec fn field_index_from(fields: FieldsV, name: Seq<char>, i: int) -> Option<int>
    decreases fields.len() - i,
{
    if i < 0 || i >= fields.len() {
        None
    } else if fields[i].0 == name {
        Some(i)
    } else {
        field_index_from(fields, name, i + 1)
    }
}

/// The position of the first field named `name`, if any.
pub open spec fn field_index(fields: FieldsV, name: Seq<char>) -> Option<int> {
    field_index_from(fields, name, 0)
}

/// The value of the first field named `name`, if any.
pub open spec fn find_field(fields: FieldsV, name: Seq<char>) -> Option<ValueV> {
    match field_index(fields, name) {
        Some(i) => Some(fields[i].1),
        None => None,
    }
}

/// The fields with `name` bound to `v`: updated in place when present,
/// appended at the end when absent.
pub open spec fn set_field(fields: FieldsV, name: Seq<char>, v: ValueV) -> FieldsV {
    match field_index(fields, name) {
        Some(i) => fields.update(i, (name, v)),
        None => fields.push((name, v)),
    }
}

/// The fields with the first field named `name` removed, if present.
pub open spec fn remove_field(fields: FieldsV, name: Seq<char>) -> FieldsV {
    match field_index(fields, name) {
        Some(i) => fields.remove(i),
        None => fields,
    }
}

/// The names of the fields, in order.
pub open spec fn field_names(fields: FieldsV) -> Seq<Seq<char>> {
    fields.map_values(|p: (Seq<char>, ValueV)| p.0)
}

/// Whether no two fields share a name.
pub open spec fn fields_unique(fields: FieldsV) -> bool {
    forall|i: int, j: int| 0 <= i < j < fields.len() ==> fields[i].0 != fields[j].0
}

/// A found index is in range, names the field, and nothing earlier does.
pub proof fn lemma_field_index_from(fields: FieldsV, name: Seq<char>, i: int)
    requires
        0 <= i <= fields.len(),
    ensures
        match field_index_from(fields, name, i) {
            Some(k) => i <= k < fields.len() && fields[k].0 == name && forall|j: int|
                i <= j < k ==> fields[j].0 != name,
            None => forall|j: int| i <= j < fields.len() ==> fields[j].0 != name,
        },
    decreases fields.len() - i,
{
    if i < fields.len() && fields[i].0 != name {
        lemma_field_index_from(fields, name, i + 1);
    }
}

/// What `field_index` says about the whole field list.
pub proof fn lemma_field_index(fields: FieldsV, name: Seq<char>)
    ensures
        match field_index(fields, name) {
            Some(k) => 0 <= k < fields.len() && fields[k].0 == name && forall|j: int|
                0 <= j < k ==> fields[j].0 != name,
            None => forall|j: int| 0 <= j < fields.len() ==> fields[j].0 != name,
        },
{
    lemma_field_index_from(fields, name, 0);
}

/// Setting a field keeps names unique when they were unique.
pub proof fn lemma_set_field_unique(fields: FieldsV, name: Seq<char>, v: ValueV)
    requires
        fields_unique(fields),
    ensures
        fields_unique(set_field(fields, name, v)),
        find_field(set_field(fields, name, v), name) == Some(v),
{
    lemma_field_index(fields, name);
    let out = set_field(fields, name, v);
    match field_index(fields, name) {
        Some(i) => {
            assert(out[i].0 == name);
            lemma_field_index(out, name);
        },
        None => {
            assert(out[fields.len() as int].0 == name);
            lemma_field_index(out, name);
        },
    }
}

/// The spec image of executable fields: each pair viewed.
pub open spec fn fields_view_of(v: Seq<(String, Value)>) -> FieldsV
    decreases v.len(),
{
    if v.len() == 0 {
        Seq::empty()
    } else {
        fields_view_of(v.drop_last()).push((v.last().0@, v.last().1@))
    }
}

/// The viewed fields have the same length and viewed entries.
pub proof fn lemma_fields_view_of(v: Seq<(String, Value)>)
    ensures
        fields_view_of(v).len() == v.len(),
        forall|j: int| 0 <= j < v.len() ==> #[trigger] fields_view_of(v)[j] == (v[j].0@, v[j].1@),
    decreases v.len(),
{
    if v.len() > 0 {
        lemma_fields_view_of(v.drop_last());
    }
}

/// The spec image of a list of strings: each string viewed.
pub open spec fn strs_view_of(v: Seq<String>) -> Seq<Seq<char>>
    decreases v.len(),
{
    if v.len() == 0 {
        Seq::empty()
    } else {
        strs_view_of(v.drop_last()).push(v.last()@)
    }
}

/// The viewed strings have the same length and viewed entries.
pub proof fn lemma_strs_view_of(v: Seq<String>)
    ensures
        strs_view_of(v).len() == v.len(),
        forall|j: int| 0 <= j < v.len() ==> #[trigger] strs_view_of(v)[j] == v[j]@,
    decreases v.len(),
{
    if v.len() > 0 {
        lemma_strs_view_of(v.drop_last());
    }
}

/// The first occurrence of `n` is unaffected by an update at an index
/// that carries a different name unchanged.
proof fn lemma_index_from_update(fields: FieldsV, i: int, p: (Seq<char>, ValueV), n: Seq<char>, t: int)
    requires
        0 <= i < fields.len(),
        fields[i].0 == p.0,
        p.0 != n,
        0 <= t,
    ensures
        field_index_from(fields.update(i, p), n, t) == field_index_from(fields, n, t),
    decreases fields.len() - t,
{
    if t < fields.len() {
        assert(fields.update(i, p)[t].0 == fields[t].0);
        lemma_index_from_update(fields, i, p, n, t + 1);
    }
}

/// The first occurrence of `n` is unaffected by appending a field of a
/// different name.
proof fn lemma_index_from_push(fields: FieldsV, p: (Seq<char>, ValueV), n: Seq<char>, t: int)
    requires
        p.0 != n,
        0 <= t,
    ensures
        field_index_from(fields.push(p), n, t) == field_index_from(fields, n, t),
    decreases fields.len() + 1 - t,
{
    if t < fields.len() {
        assert(fields.push(p)[t].0 == fields[t].0);
        lemma_index_from_push(fields, p, n, t + 1);
    } else if t == fields.len() {
        assert(fields.push(p)[t].0 == p.0);
        assert(field_index_from(fields.push(p), n, t + 1) is None);
        assert(field_index_from(fields, n, t) is None);
    }
}

/// Binding one name leaves every other name's binding as it was; no
/// uniqueness is needed.
pub proof fn lemma_set_field_other(fields: FieldsV, name: Seq<char>, v: ValueV, n: Seq<char>)
    requires
        n != name,
    ensures
        find_field(set_field(fields, name, v), n) == find_field(fields, n),
{
    lemma_field_index(fields, name);
    match field_index(fields, name) {
        Some(i) => {
            lemma_index_from_update(fields, i, (name, v), n, 0);
            match field_index(fields, n) {
                Some(k) => {
                    lemma_field_index(fields, n);
                    assert(fields.update(i, (name, v))[k].1 == fields[k].1) by {
                        if k == i {
                            assert(fields[i].0 == name);
                        }
                    }
                },
                None => {},
            }
        },
        None => {
            lemma_index_from_push(fields, (name, v), n, 0);
            match field_index(fields, n) {
                Some(k) => {
                    lemma_field_index(fields, n);
                    assert(fields.push((name, v))[k].1 == fields[k].1);
                },
                None => {},
            }
        },
    }
}

/// A mapping from value names to their contents, with an optional
/// composite key derived from fields marked `key`.  Field order is the
/// order of first insertion; a name occurs at most once.
#[derive(Debug)]
pub struct DataRecord {
    pub fields: Vec<(String, Value)>,
    pub record_key: Option<String>,
}

impl View for DataRecord {
    type V = RecordV;

    open spec fn view(&self) -> RecordV {
        RecordV {
            fields: fields_view_of(self.fields@),
            record_key: match self.record_key {
                Some(k) => Some(k@),
                None => None,
            },
        }
    }
}

impl DataRecord {
    /// An empty record with no key.
    pub fn new() -> (r: DataRecord)
        ensures
            r@.fields == Seq::<(Seq<char>, ValueV)>::empty(),
            r@.record_key is None,
    {
        DataRecord { fields: Vec::new(), record_key: None }
    }

    /// The position of the first field named `key`, if any.
    fn position(&self, key: &str) -> (r: Option<usize>)
        ensures
            match r {
                Some(i) => i < self.fields.len() && field_index(self@.fields, key@) == Some(
                    i as int,
                ),
                None => field_index(self@.fields, key@) is None,
            },
    {
        proof {
            lemma_fields_view_of(self.fields@);
        }
        let mut i: usize = 0;
        while i < self.fields.len()
            invariant
                i <= self.fields.len(),
                self@.fields.len() == self.fields@.len(),
                forall|j: int| 0 <= j < self.fields@.len() ==> #[trigger] self@.fields[j] == (
                    self.fields@[j].0@,
                    self.fields@[j].1@,
                ),
                field_index(self@.fields, key@) == field_index_from(self@.fields, key@, i as int),
            decreases self.fields.len() - i,
        {
            if crate::text::str_eq(self.fields[i].0.as_str(), key) {
                return Some(i);
            }
            i = i + 1;
        }
        None
    }

    /// The value stored under `key`, if any.
    pub fn get(&self, key: &str) -> (r: Option<&Value>)
        ensures
            match r {
                Some(v) => find_field(self@.fields, key@) == Some(v@),
                None => find_field(self@.fields, key@) is None,
            },
    {
        proof {
            lemma_fields_view_of(self.fields@);
        }
        match self.position(key) {
            Some(i) => Some(&self.fields[i].1),
            None => None,
        }
    }

    /// Binds `name` to `value`, replacing any present binding in place and
    /// appending a new field otherwise.  The record key is not touched.
    pub fn set_value(&mut self, name: String, value: Value)
        ensures
            final(self)@.fields == set_field(old(self)@.fields, name@, value@),
            final(self)@.record_key == old(self)@.record_key,
    {
        proof {
            lemma_fields_view_of(self.fields@);
        }
        let ghost pair = (name@, value@);
        match self.position(name.as_str()) {
            Some(i) => {
                self.fields[i] = (name, value);
                proof {
                    lemma_fields_view_of(self.fields@);
                    assert(self@.fields =~~= set_field(old(self)@.fields, pair.0, pair.1));
                }
            },
            None => {
                self.fields.push((name, value));
                proof {
                    lemma_fields_view_of(self.fields@);
                    assert(self@.fields =~~= set_field(old(self)@.fields, pair.0, pair.1));
                }
            },
        }
    }

    /// Inserts a scalar string under `name` the way repeated captures
    /// accumulate: a fresh name is bound as a scalar, a present scalar
    /// turns into a two-element list, and a present list grows by one.
    pub fn insert(&mut self, name: String, value: String)
        ensures
            final(self)@.fields == (match find_field(old(self)@.fields, name@) {
                None => old(self)@.fields.push((name@, ValueV::Single(value@))),
                Some(ValueV::Single(o)) => set_field(
                    old(self)@.fields,
                    name@,
                    ValueV::List(seq![o, value@]),
                ),
                Some(ValueV::List(l)) => set_field(
                    old(self)@.fields,
                    name@,
                    ValueV::List(l.push(value@)),
                ),
            }),
            final(self)@.record_key == old(self)@.record_key,
    {
        proof {
            lemma_fields_view_of(self.fields@);
        }
        let ghost value0 = value@;
        match self.position(name.as_str()) {
            None => {
                self.fields.push((name, Value::Single(value)));
                proof {
                    lemma_fields_view_of(self.fields@);
                    assert(self@.fields =~~= old(self)@.fields.push(
                        (name@, ValueV::Single(value0)),
                    ));
                }
            },
            Some(i) => {
                let replacement = match &self.fields[i].1 {
                    Value::Single(o) => {
                        let mut items: Vec<String> = Vec::new();
                        items.push(o.clone());
                        items.push(value);
                        proof {
                            let o_seq = old(self)@.fields[i as int].1->Single_0;
                            assert(items.deep_view() =~~= seq![o_seq, value0]);
                        }
                        Value::List(items)
                    },
                    Value::List(old_list) => {
                        let mut items = old_list.clone();
                        proof {
                            assert(items@ =~= old_list@);
                            assert(items.deep_view() =~~= old_list.deep_view());
                        }
                        items.push(value);
                        proof {
                            assert(items.deep_view() =~~= old(self)@.fields[
                                i as int].1->List_0.push(value0));
                        }
                        Value::List(items)
                    },
                };
                self.fields[i] = (name, replacement);
                proof {
                    lemma_fields_view_of(self.fields@);
                    assert(self@.fields =~~= set_field(
                        old(self)@.fields,
                        name@,
                        self@.fields[i as int].1,
                    ));
                }
            },
        }
    }

    /// Merges `value` under `name` with the kind-directed semantics of the
    /// engine: scalars overwrite scalars, a scalar appends to a list, and
    /// a list extends a list.  A fresh name is bound as given.  Appending
    /// a list to a scalar is not meaningful and is left out.
    pub fn append_value(&mut self, name: String, value: Value)
        requires
            !(find_field(old(self)@.fields, name@) matches Some(ValueV::Single(_)) && value@
                is List),
        ensures
            final(self)@.fields == append_field(old(self)@.fields, name@, value@),
            final(self)@.record_key == old(self)@.record_key,
    {
        proof {
            lemma_fields_view_of(self.fields@);
        }
        let ghost value0 = value@;
        match self.position(name.as_str()) {
            None => {
                self.fields.push((name, value));
                proof {
                    lemma_fields_view_of(self.fields@);
                    assert(self@.fields =~~= append_field(old(self)@.fields, name@, value0));
                }
            },
            Some(i) => {
                let replacement = match &self.fields[i].1 {
                    Value::Single(_) => value,
                    Value::List(old_list) => {
                        let mut items = old_list.clone();
                        proof {
                            assert(items@ =~= old_list@);
                            assert(items.deep_view() =~~= old_list.deep_view());
                        }
                        match value {
                            Value::Single(v) => {
                                items.push(v);
                                proof {
                                    assert(items.deep_view() =~~= old(self)@.fields[
                                        i as int].1->List_0.push(value0->Single_0));
                                }
                            },
                            Value::List(vs) => {
                                let ghost base = old_list@;
                                let mut k: usize = 0;
                                while k < vs.len()
                                    invariant
                                        k <= vs.len(),
                                        items@ == base + vs@.subrange(0, k as int),
                                    decreases vs.len() - k,
                                {
                                    items.push(vs[k].clone());
                                    k = k + 1;
                                    proof {
                                        assert(items@ =~= base + vs@.subrange(0, k as int));
                                    }
                                }
                                proof {
                                    assert(vs@.subrange(0, vs@.len() as int) =~= vs@);
                                    assert(items@ == old_list@ + vs@);
                                    assert forall|j: int| 0 <= j < items@.len() implies
                                        items.deep_view()[j] == (old_list.deep_view()
                                        + vs.deep_view())[j] by {
                                        assert(items.deep_view()[j] == items@[j]@);
                                        if j < old_list@.len() {
                                            assert(old_list.deep_view()[j] == old_list@[j]@);
                                        } else {
                                            assert(vs.deep_view()[j - old_list@.len()] == vs@[j
                                                - old_list@.len()]@);
                                        }
                                    }
                                    assert(items.deep_view().len() == items@.len());
                                    assert(items.deep_view() =~~= old_list.deep_view()
                                        + vs.deep_view());
                                    assert(old_list.deep_view() == old(self)@.fields[
                                        i as int].1->List_0);
                                    assert(vs.deep_view() == value0->List_0);
                                }
                            },
                        }
                        Value::List(items)
                    },
                };
                self.fields[i] = (name, replacement);
                proof {
                    lemma_fields_view_of(self.fields@);
                    assert(self@.fields =~~= append_field(old(self)@.fields, name@, value0));
                }
            },
        }
    }

    /// Removes the binding of `key`, if present.  The record key is not
    /// touched.
    pub fn remove(&mut self, key: &str)
        ensures
            final(self)@.fields == remove_field(old(self)@.fields, key@),
            final(self)@.record_key == old(self)@.record_key,
    {
        proof {
            lemma_fields_view_of(self.fields@);
        }
        match self.position(key) {
            Some(i) => {
                self.fields.remove(i);
                proof {
                    lemma_fields_view_of(self.fields@);
                    assert(self@.fields =~~= remove_field(old(self)@.fields, key@));
                }
            },
            None => {},
        }
    }

    /// The field names, in field order.
    pub fn keys(&self) -> (r: Vec<String>)
        ensures
            strs_view_of(r@) == field_names(self@.fields),
    {
        proof {
            lemma_fields_view_of(self.fields@);
        }
        let mut out: Vec<String> = Vec::new();
        let mut i: usize = 0;
        while i < self.fields.len()
            invariant
                i <= self.fields.len(),
                out@.len() == i,
                forall|j: int| 0 <= j < i ==> #[trigger] out@[j] == self.fields@[j].0,
            decreases self.fields.len() - i,
        {
            out.push(self.fields[i].0.clone());
            i = i + 1;
        }
        proof {
            lemma_strs_view_of(out@);
            lemma_fields_view_of(self.fields@);
            assert forall|j: int| 0 <= j < out@.len() implies strs_view_of(out@)[j]
                == field_names(self@.fields)[j] by {
                assert(field_names(self@.fields)[j] == self@.fields[j].0);
            }
            assert(field_names(self@.fields).len() == self@.fields.len());
            assert(strs_view_of(out@) =~~= field_names(self@.fields));
        }
        out
    }

    /// The fields themselves, in order.
    pub fn iter(&self) -> (r: &Vec<(String, Value)>)
        ensures
            r == &self.fields,
    {
        &self.fields
    }

    /// Binds every field of `from` in this record, replacing present
    /// bindings; `from`'s key is not taken over.
    pub fn overwrite_from(&mut self, from: DataRecord)
        ensures
            final(self)@.fields == overwrite_fields(old(self)@.fields, from@.fields),
            final(self)@.record_key == old(self)@.record_key,
    {
        let ghost from0 = from@;
        let mut i: usize = 0;
        let n = from.fields.len();
        let src = from;
        proof {
            lemma_fields_view_of(src.fields@);
        }
        while i < n
            invariant
                i <= n,
                n == src.fields.len(),
                src@ == from0,
                from0.fields.len() == src.fields@.len(),
                forall|j: int| 0 <= j < src.fields@.len() ==> #[trigger] from0.fields[j] == (
                    src.fields@[j].0@,
                    src.fields@[j].1@,
                ),
                self@.fields == overwrite_fields(old(self)@.fields, from0.fields.subrange(
                    0,
                    i as int,
                )),
                self@.record_key == old(self)@.record_key,
            decreases n - i,
        {
            let (k, v) = {
                let p = &src.fields[i];
                (p.0.clone(), p.1.duplicate())
            };
            proof {
                assert(from0.fields.subrange(0, (i + 1) as int).drop_last() =~= from0.fields
                    .subrange(0, i as int));
                assert(from0.fields.subrange(0, (i + 1) as int).last() == from0.fields[i as int]);
            }
            self.set_value(k, v);
            i = i + 1;
        }
        proof {
            assert(from0.fields.subrange(0, from0.fields.len() as int) =~= from0.fields);
        }
    }

    /// A copy of the record with the same fields and key.
    pub fn duplicate(&self) -> (r: DataRecord)
        ensures
            r@ == self@,
    {
        proof {
            lemma_fields_view_of(self.fields@);
        }
        let mut fields: Vec<(String, Value)> = Vec::new();
        let mut i: usize = 0;
        while i < self.fields.len()
            invariant
                i <= self.fields.len(),
                fields@.len() == i,
                forall|j: int| 0 <= j < i ==> (#[trigger] fields@[j]).0@ == self.fields@[j].0@
                    && fields@[j].1@ == self.fields@[j].1@,
            decreases self.fields.len() - i,
        {
            let p = &self.fields[i];
            fields.push((p.0.clone(), p.1.duplicate()));
            i = i + 1;
        }
        let record_key = match &self.record_key {
            Some(k) => Some(k.clone()),
            None => None,
        };
        let r = DataRecord { fields, record_key };
        proof {
            lemma_fields_view_of(fields@);
            lemma_fields_view_of(self.fields@);
            assert(r@.fields =~~= self@.fields);
            assert(r@ =~~= self@);
        }
        r
    }
}

impl Clone for DataRecord {
    /// A clone carries the same fields and key.
    fn clone(&self) -> (r: DataRecord)
        ensures
            r@ == self@,
    {
        self.duplicate()
    }
}

impl Default for DataRecord {
    /// The default record is empty, with no key.
    fn default() -> (r: DataRecord)
        ensures
            r@.fields == Seq::<(Seq<char>, ValueV)>::empty(),
            r@.record_key is None,
    {
        DataRecord::new()
    }
}

/// One difference entry: the field name, a colon, and the diagnostic
/// rendering of its value.
pub open spec fn diff_entry(n: Seq<char>, v: ValueV) -> Seq<char> {
    n + ":"@ + value_diag(v)
}

/// The difference entries of one record against an optional
/// counterpart, from field `i` on: a field is listed when the
/// counterpart is missing, lacks the field, or binds it differently.
pub open spec fn diff_rec(fields: FieldsV, other: Option<FieldsV>, i: int) -> Seq<Seq<char>>
    decreases fields.len() - i,
{
    if i < 0 || i >= fields.len() {
        Seq::empty()
    } else {
        let inc = match other {
            None => true,
            Some(of) => find_field(of, fields[i].0) != Some(fields[i].1),
        };
        (if inc {
            seq![diff_entry(fields[i].0, fields[i].1)]
        } else {
            Seq::<Seq<char>>::empty()
        }) + diff_rec(fields, other, i + 1)
    }
}

/// The per-record difference lists of `a` against `b`, from record `i`
/// on; a record of `a` past the end of `b` lists all its fields.
pub open spec fn diff_all(a: Seq<RecordV>, b: Seq<RecordV>, i: int) -> Seq<Seq<Seq<char>>>
    decreases a.len() - i,
{
    if i < 0 || i >= a.len() {
        Seq::empty()
    } else {
        seq![
            diff_rec(
                a[i].fields,
                if i < b.len() {
                    Some(b[i].fields)
                } else {
                    None
                },
                0,
            ),
        ] + diff_all(a, b, i + 1)
    }
}

impl DataRecord {
    /// Compares two record lists position by position, both ways: for
    /// each record the fields that the counterpart at the same position
    /// misses or binds differently, rendered in diagnostic form.
    pub fn compare_sets(result: &Vec<DataRecord>, other: &Vec<DataRecord>) -> (r: (
        Vec<Vec<String>>,
        Vec<Vec<String>>,
    ))
        ensures
            r.0.deep_view() == diff_all(
                crate::machine::recs_view_of(result@),
                crate::machine::recs_view_of(other@),
                0,
            ),
            r.1.deep_view() == diff_all(
                crate::machine::recs_view_of(other@),
                crate::machine::recs_view_of(result@),
                0,
            ),
    {
        let only_in_result = diff_records(result, other);
        let only_in_other = diff_records(other, result);
        (only_in_result, only_in_other)
    }
}

/// The difference entries of one record pairing.
fn diff_one(rec: &DataRecord, other: Option<&DataRecord>) -> (r: Vec<String>)
    ensures
        r.deep_view() == diff_rec(
            rec@.fields,
            match other {
                Some(o) => Some(o@.fields),
                None => None,
            },
            0,
        ),
{
    let ghost rf = rec@.fields;
    let ghost of = match other {
        Some(o) => Some(o@.fields),
        None => None::<FieldsV>,
    };
    proof {
        lemma_fields_view_of(rec.fields@);
    }
    let mut vo: Vec<String> = Vec::new();
    let mut f: usize = 0;
    while f < rec.fields.len()
        invariant
            f <= rec.fields@.len(),
            rf == rec@.fields,
            rf.len() == rec.fields@.len(),
            forall|j: int| 0 <= j < rec.fields@.len() ==> #[trigger] rf[j] == (
                rec.fields@[j].0@,
                rec.fields@[j].1@,
            ),
            of == (match other {
                Some(o) => Some(o@.fields),
                None => None::<FieldsV>,
            }),
            diff_rec(rf, of, 0) == strs_view_of(vo@) + diff_rec(rf, of, f as int),
        decreases rec.fields@.len() - f,
    {
        let name = &rec.fields[f].0;
        let v = &rec.fields[f].1;
        let inc = match other {
            Some(o) => match o.get(name.as_str()) {
                Some(ov) => !((*ov) == (*v)),
                None => true,
            },
            None => true,
        };
        if inc {
            let mut e = name.clone();
            e.append(":");
            let d = v.to_diag_string();
            e.append(d.as_str());
            let ghost pre = vo@;
            vo.push(e);
            proof {
                assert(vo@.drop_last() =~= pre);
                crate::record::lemma_strs_view_of(vo@);
                crate::record::lemma_strs_view_of(pre);
                assert(strs_view_of(vo@) =~~= strs_view_of(pre).push(diff_entry(
                    rf[f as int].0,
                    rf[f as int].1,
                )));
                assert(strs_view_of(pre).push(diff_entry(rf[f as int].0, rf[f as int].1))
                    + diff_rec(rf, of, (f + 1) as int) =~~= strs_view_of(pre) + (seq![
                    diff_entry(rf[f as int].0, rf[f as int].1),
                ] + diff_rec(rf, of, (f + 1) as int)));
            }
        } else {
            proof {
                assert(strs_view_of(vo@) + (Seq::<Seq<char>>::empty() + diff_rec(
                    rf,
                    of,
                    (f + 1) as int,
                )) =~~= strs_view_of(vo@) + diff_rec(rf, of, (f + 1) as int));
            }
        }
        f = f + 1;
    }
    proof {
        assert(strs_view_of(vo@) + Seq::<Seq<char>>::empty() =~~= strs_view_of(vo@));
        assert(vo.deep_view() =~~= strs_view_of(vo@)) by {
            crate::record::lemma_strs_view_of(vo@);
            assert(forall|j: int| 0 <= j < vo@.len() ==> #[trigger] vo.deep_view()[j]
                == vo@[j]@);
        }
    }
    vo
}

/// The difference lists of every record of `a` against `b`.
fn diff_records(a: &Vec<DataRecord>, b: &Vec<DataRecord>) -> (r: Vec<Vec<String>>)
    ensures
        r.deep_view() == diff_all(
            crate::machine::recs_view_of(a@),
            crate::machine::recs_view_of(b@),
            0,
        ),
{
    let ghost av = crate::machine::recs_view_of(a@);
    let ghost bv = crate::machine::recs_view_of(b@);
    proof {
        crate::machine::lemma_recs_view_of(a@);
        crate::machine::lemma_recs_view_of(b@);
    }
    let mut out: Vec<Vec<String>> = Vec::new();
    let mut i: usize = 0;
    while i < a.len()
        invariant
            i <= a@.len(),
            av == crate::machine::recs_view_of(a@),
            bv == crate::machine::recs_view_of(b@),
            av.len() == a@.len(),
            forall|j: int| 0 <= j < a@.len() ==> #[trigger] av[j] == a@[j]@,
            bv.len() == b@.len(),
            forall|j: int| 0 <= j < b@.len() ==> #[trigger] bv[j] == b@[j]@,
            out@.len() == i,
            forall|j: int| 0 <= j < i ==> (#[trigger] out@[j]).deep_view() == diff_rec(
                av[j].fields,
                if j < bv.len() {
                    Some(bv[j].fields)
                } else {
                    None
                },
                0,
            ),
        decreases a@.len() - i,
    {
        let vo = if i < b.len() {
            diff_one(&a[i], Some(&b[i]))
        } else {
            diff_one(&a[i], None)
        };
        let ghost pre = out@;
        out.push(vo);
        i = i + 1;
        proof {
            assert forall|j: int| 0 <= j < i implies (#[trigger] out@[j]).deep_view() == diff_rec(
                av[j].fields,
                if j < bv.len() {
                    Some(bv[j].fields)
                } else {
                    None
                },
                0,
            ) by {
                if j < i - 1 {
                    assert(out@[j] == pre[j]);
                }
            }
        }
    }
    proof {
        assert(out.deep_view() =~~= diff_all(av, bv, 0)) by {
            assert(forall|j: int| 0 <= j < out@.len() ==> #[trigger] out.deep_view()[j] == out@[
                j].deep_view());
            lemma_diff_all_len(av, bv, 0);
            assert forall|j: int| 0 <= j < av.len() implies diff_all(av, bv, 0)[j] == diff_rec(
                av[j].fields,
                if j < bv.len() {
                    Some(bv[j].fields)
                } else {
                    None
                },
                0,
            ) by {
                lemma_diff_all_index(av, bv, 0, j);
            }
        }
    }
    out
}

/// The difference lists cover one entry per record of `a`.
proof fn lemma_diff_all_len(a: Seq<RecordV>, b: Seq<RecordV>, i: int)
    requires
        0 <= i <= a.len(),
    ensures
        diff_all(a, b, i).len() == a.len() - i,
    decreases a.len() - i,
{
    if i < a.len() {
        lemma_diff_all_len(a, b, i + 1);
    }
}

/// Each difference list belongs to its record.
proof fn lemma_diff_all_index(a: Seq<RecordV>, b: Seq<RecordV>, i: int, j: int)
    requires
        0 <= i <= a.len(),
        i <= j < a.len(),
    ensures
        diff_all(a, b, i).len() == a.len() - i,
        diff_all(a, b, i)[j - i] == diff_rec(
            a[j].fields,
            if j < b.len() {
                Some(b[j].fields)
            } else {
                None
            },
            0,
        ),
    decreases a.len() - i,
{
    lemma_diff_all_len(a, b, i);
    if i < a.len() && j > i {
        lemma_diff_all_index(a, b, i + 1, j);
    }
}

/// The kind-directed merge of one value into the fields: scalars
/// overwrite scalars, a scalar joins a list, a list extends a list, and a
/// fresh name is appended.  Merging a list into a scalar keeps the fields
/// as they are; executable code never does so.
pub open spec fn append_field(fields: FieldsV, name: Seq<char>, v: ValueV) -> FieldsV {
    match find_field(fields, name) {
        None => fields.push((name, v)),
        Some(ValueV::Single(_)) => match v {
            ValueV::Single(_) => set_field(fields, name, v),
            ValueV::List(_) => fields,
        },
        Some(ValueV::List(l)) => match v {
            ValueV::Single(nv) => set_field(fields, name, ValueV::List(l.push(nv))),
            ValueV::List(nl) => set_field(fields, name, ValueV::List(l + nl)),
        },
    }
}

/// Every field of `src` bound over `fields`, in `src` order.
pub open spec fn overwrite_fields(fields: FieldsV, src: FieldsV) -> FieldsV
    decreases src.len(),
{
    if src.len() == 0 {
        fields
    } else {
        set_field(overwrite_fields(fields, src.drop_last()), src.last().0, src.last().1)
    }
}

} // verus!
