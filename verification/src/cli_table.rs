use vstd::prelude::*;
use crate::error::{ErrorV, TextFsmError};
use crate::record::strs_view_of;
use crate::rx::{fancy_compiles, fancy_match_result};
use crate::text::chars_string;
use vstd::string::StringExecFns;

verus! {

/// What the CSV reader decodes a text into: its rows of fields, the
/// header row first, with comment lines dropped and fields trimmed; or a
/// decoding error with its description.  A function of the text alone.
pub uninterp spec fn csv_rows(text: Seq<char>) -> Result<Seq<Seq<Seq<char>>>, Seq<char>>;

/// Relies on `csv::ReaderBuilder` and `csv::StringRecord`: decodes a
/// comma-separated text with `#` comments and field trimming into its
/// rows, a function of the text alone.
#[verifier::external_body]
fn csv_parse(text: &str) -> (r: Result<Vec<Vec<String>>, String>)
    ensures
        match r {
            Ok(rows) => csv_rows(text@) == Ok::<Seq<Seq<Seq<char>>>, Seq<char>>(rows.deep_view()),
            Err(m) => csv_rows(text@) == Err::<Seq<Seq<Seq<char>>>, Seq<char>>(m@),
        },
{
    let mut rdr = csv::ReaderBuilder::new().comment(Some(b'#')).has_headers(false).delimiter(
        b',',
    ).trim(csv::Trim::All).from_reader(text.as_bytes());
    let mut rows: Vec<Vec<String>> = Vec::new();
    for rec in rdr.records() {
        match rec {
            Ok(record) => rows.push(record.iter().map(|f| f.to_string()).collect()),
            Err(e) => {
                return Err(format!("{}", e));
            },
        }
    }
    Ok(rows)
}

/// Spec image of a [`CliTableRow`].
#[verifier::ext_equal]
pub struct RowV {
    pub templates: Seq<Seq<char>>,
    pub hostname: Option<Seq<char>>,
    pub platform: Option<Seq<char>>,
    pub command: Seq<char>,
}

/// One entry of an index table: the template files it names, optional
/// hostname and platform, and the command pattern with its optional
/// `[[...]]` abbreviations.
#[derive(Debug, Clone, PartialEq)]
pub struct CliTableRow {
    pub templates: Vec<String>,
    pub hostname: Option<String>,
    pub platform: Option<String>,
    pub command: String,
}

impl CliTableRow {
    /// A copy of the entry with the same contents.
    pub fn duplicate(&self) -> (r: CliTableRow)
        ensures
            r@ == self@,
    {
        let mut templates: Vec<String> = Vec::new();
        let mut i: usize = 0;
        while i < self.templates.len()
            invariant
                i <= self.templates@.len(),
                templates@.len() == i,
                forall|j: int| 0 <= j < i ==> #[trigger] templates@[j] == self.templates@[j],
            decreases self.templates@.len() - i,
        {
            templates.push(self.templates[i].clone());
            i = i + 1;
        }
        let r = CliTableRow {
            templates,
            hostname: match &self.hostname {
                Some(h) => Some(h.clone()),
                None => None,
            },
            platform: match &self.platform {
                Some(p) => Some(p.clone()),
                None => None,
            },
            command: self.command.clone(),
        };
        proof {
            crate::record::lemma_strs_view_of(r.templates@);
            crate::record::lemma_strs_view_of(self.templates@);
            assert(r@ =~~= self@);
        }
        r
    }
}

impl View for CliTableRow {
    type V = RowV;

    open spec fn view(&self) -> RowV {
        RowV {
            templates: strs_view_of(self.templates@),
            hostname: match self.hostname {
                Some(h) => Some(h@),
                None => None,
            },
            platform: match self.platform {
                Some(p) => Some(p@),
                None => None,
            },
            command: self.command@,
        }
    }
}

/// The nested optional groups of one abbreviation tail: an opening
/// parenthesis and a character for each tail character, then a
/// `)?` for each.
pub open spec fn expand_opens(s: Seq<char>) -> Seq<char>
    decreases s.len(),
{
    if s.len() == 0 {
        Seq::empty()
    } else {
        expand_opens(s.drop_last()) + seq!['(', s.last()]
    }
}

/// `)?` repeated `n` times.
pub open spec fn expand_closers(n: int) -> Seq<char>
    decreases n,
{
    if n <= 0 {
        Seq::empty()
    } else {
        expand_closers(n - 1) + seq![')', '?']
    }
}

/// A tail expanded to the regex that accepts every left prefix of it,
/// the empty prefix too.
pub open spec fn expand_string_spec(s: Seq<char>) -> Seq<char> {
    if s.len() == 0 {
        Seq::empty()
    } else {
        expand_opens(s) + expand_closers(s.len() as int)
    }
}

/// The first position at or after `i` where `c0` is followed by `c1`.
pub open spec fn find_pair(s: Seq<char>, i: int, c0: char, c1: char) -> Option<int>
    decreases s.len() - i,
{
    if i < 0 || i + 2 > s.len() {
        None
    } else if s[i] == c0 && s[i + 1] == c1 {
        Some(i)
    } else {
        find_pair(s, i + 1, c0, c1)
    }
}

/// Where `find_pair` lands.
pub proof fn lemma_find_pair(s: Seq<char>, i: int, c0: char, c1: char)
    requires
        0 <= i,
    ensures
        match find_pair(s, i, c0, c1) {
            Some(k) => i <= k && k + 2 <= s.len() && s[k] == c0 && s[k + 1] == c1 && forall|j: int|
                i <= j < k ==> !(#[trigger] s[j] == c0 && s[j + 1] == c1),
            None => forall|j: int|
                i <= j && j + 2 <= s.len() ==> !(#[trigger] s[j] == c0 && s[j + 1] == c1),
        },
    decreases s.len() - i,
{
    if i + 2 <= s.len() && !(s[i] == c0 && s[i + 1] == c1) {
        lemma_find_pair(s, i + 1, c0, c1);
    }
}

/// A command with its `[[tail]]` abbreviations expanded from `i` on: the
/// text between `[[` and `]]` becomes its nested optional groups; a `[[`
/// with no closing `]]` stays literal.
pub open spec fn expand_brackets_spec(s: Seq<char>, i: int) -> Seq<char>
    decreases s.len() - i, 1int,
    via expand_brackets_decreases
{
    if i < 0 || i > s.len() {
        Seq::empty()
    } else {
        match find_pair(s, i, '[', '[') {
            None => s.subrange(i, s.len() as int),
            Some(st) => s.subrange(i, st) + (match find_pair(s, st + 2, ']', ']') {
                None => "[["@ + expand_brackets_spec(s, st + 2),
                Some(en) => expand_string_spec(s.subrange(st + 2, en)) + expand_brackets_spec(
                    s,
                    en + 2,
                ),
            }),
        }
    }
}

/// The recursion in `expand_brackets_spec` always advances.
#[via_fn]
proof fn expand_brackets_decreases(s: Seq<char>, i: int) {
    if 0 <= i <= s.len() {
        lemma_find_pair(s, i, '[', '[');
        match find_pair(s, i, '[', '[') {
            None => {},
            Some(st) => {
                lemma_find_pair(s, st + 2, ']', ']');
            },
        }
    }
}

/// Expands one abbreviation tail into its nested optional groups:
/// every left prefix of the tail, the empty one too, is accepted.
pub fn expand_string(input: &str) -> (r: String)
    ensures
        r@ == expand_string_spec(input@),
{
    let cs = crate::text::str_chars(input);
    if cs.len() == 0 {
        return String::new();
    }
    let mut out: Vec<char> = Vec::new();
    let mut i: usize = 0;
    while i < cs.len()
        invariant
            i <= cs@.len(),
            cs@ == input@,
            out@ == expand_opens(input@.subrange(0, i as int)),
        decreases cs@.len() - i,
    {
        proof {
            assert(input@.subrange(0, (i + 1) as int).drop_last() =~= input@.subrange(0, i as int));
            assert(input@.subrange(0, (i + 1) as int).last() == input@[i as int]);
        }
        out.push('(');
        out.push(cs[i]);
        i = i + 1;
        proof {
            assert(out@ =~= expand_opens(input@.subrange(0, i as int)));
        }
    }
    proof {
        assert(input@.subrange(0, input@.len() as int) =~= input@);
    }
    let mut k: usize = 0;
    while k < cs.len()
        invariant
            k <= cs@.len(),
            cs@ == input@,
            out@ == expand_opens(input@) + expand_closers(k as int),
        decreases cs@.len() - k,
    {
        out.push(')');
        out.push('?');
        k = k + 1;
        proof {
            assert(out@ =~= expand_opens(input@) + expand_closers(k as int));
        }
    }
    chars_string(out.as_slice())
}

/// The position of the first `c0` directly followed by `c1`, at or
/// after `i`.
fn find_pair_exec(s: &[char], i: usize, c0: char, c1: char) -> (r: Option<usize>)
    requires
        i <= s@.len(),
    ensures
        match r {
            Some(k) => find_pair(s@, i as int, c0, c1) == Some(k as int) && i <= k && k + 2
                <= s@.len(),
            None => find_pair(s@, i as int, c0, c1) is None,
        },
{
    if s.len() < 2 {
        proof {
            lemma_find_pair(s@, i as int, c0, c1);
        }
        return None;
    }
    let mut j: usize = i;
    while j < s.len() - 1 && !(s[j] == c0 && s[j + 1] == c1)
        invariant
            s@.len() >= 2,
            i <= j <= s@.len(),
            forall|k: int| i <= k < j ==> !(#[trigger] s@[k] == c0 && s@[k + 1] == c1),
        decreases s@.len() - j,
    {
        j = j + 1;
    }
    proof {
        lemma_find_pair(s@, i as int, c0, c1);
    }
    if j < s.len() - 1 {
        proof {
            assert(find_pair(s@, i as int, c0, c1) == Some(j as int)) by {
                lemma_find_pair(s@, i as int, c0, c1);
                match find_pair(s@, i as int, c0, c1) {
                    Some(k) => {
                        if k < j {
                            assert(!(s@[k] == c0 && s@[k + 1] == c1));
                        }
                        if k > j {
                            assert(!(s@[j as int] == c0 && s@[j as int + 1] == c1));
                        }
                    },
                    None => {
                        assert(!(s@[j as int] == c0 && s@[j as int + 1] == c1));
                    },
                }
            }
        }
        Some(j)
    } else {
        None
    }
}

/// Expands every `[[tail]]` abbreviation of a command into nested
/// optional groups; a `[[` with no closing `]]` stays literal.
pub fn expand_brackets(input: &str) -> (r: String)
    ensures
        r@ == expand_brackets_spec(input@, 0),
{
    let cs = crate::text::str_chars(input);
    let mut out: String = String::new();
    let mut i: usize = 0;
    while i <= cs.len()
        invariant_except_break
            i <= cs@.len(),
            cs@ == input@,
            expand_brackets_spec(input@, 0) == out@ + expand_brackets_spec(input@, i as int),
        ensures
            out@ == expand_brackets_spec(input@, 0),
        decreases cs@.len() + 1 - i,
    {
        match find_pair_exec(cs.as_slice(), i, '[', '[') {
            None => {
                let tail = chars_string(&cs.as_slice()[i..cs.len()]);
                proof {
                    assert(tail@ =~= input@.subrange(i as int, input@.len() as int));
                }
                out.append(tail.as_str());
                break ;
            },
            Some(st) => {
                let before = chars_string(&cs.as_slice()[i..st]);
                proof {
                    assert(before@ =~= input@.subrange(i as int, st as int));
                }
                out.append(before.as_str());
                match find_pair_exec(cs.as_slice(), st + 2, ']', ']') {
                    None => {
                        out.append("[[");
                        i = st + 2;
                        proof {
                            assert(expand_brackets_spec(input@, 0) == out@ + expand_brackets_spec(
                                input@,
                                i as int,
                            ));
                        }
                    },
                    Some(en) => {
                        let content = chars_string(&cs.as_slice()[st + 2..en]);
                        proof {
                            assert(content@ =~= input@.subrange((st + 2) as int, en as int));
                        }
                        let expanded = expand_string(content.as_str());
                        out.append(expanded.as_str());
                        i = en + 2;
                        proof {
                            assert(expand_brackets_spec(input@, 0) == out@ + expand_brackets_spec(
                                input@,
                                i as int,
                            ));
                        }
                    },
                }
            },
        }
    }
    out
}

/// The position of the first entry of `v` equal to `name`, at or after
/// `i`.
pub open spec fn name_index_from(v: Seq<Seq<char>>, name: Seq<char>, i: int) -> Option<int>
    decreases v.len() - i,
{
    if i < 0 || i >= v.len() {
        None
    } else if v[i] == name {
        Some(i)
    } else {
        name_index_from(v, name, i + 1)
    }
}

/// The first position at or after `i` that is past the end or holds a
/// colon.
pub open spec fn colon_end(s: Seq<char>, i: int) -> int
    decreases s.len() - i,
{
    if i < 0 || i >= s.len() {
        i
    } else if s[i] == ':' {
        i
    } else {
        colon_end(s, i + 1)
    }
}

/// Where `colon_end` lands.
pub proof fn lemma_colon_end(s: Seq<char>, i: int)
    requires
        0 <= i <= s.len(),
    ensures
        i <= colon_end(s, i) <= s.len(),
        forall|j: int| i <= j < colon_end(s, i) ==> s[j] != ':',
        colon_end(s, i) < s.len() ==> s[colon_end(s, i)] == ':',
    decreases s.len() - i,
{
    if i < s.len() && s[i] != ':' {
        lemma_colon_end(s, i + 1);
    }
}

/// The colon-separated pieces of `s` from `i` on; every piece is kept,
/// empty ones too.
pub open spec fn split_colon_from(s: Seq<char>, i: int) -> Seq<Seq<char>>
    decreases s.len() - i,
    via split_colon_decreases
{
    if i < 0 || i > s.len() {
        Seq::empty()
    } else {
        let j = colon_end(s, i);
        if j >= s.len() {
            seq![s.subrange(i, s.len() as int)]
        } else {
            seq![s.subrange(i, j)] + split_colon_from(s, j + 1)
        }
    }
}

/// The recursion in `split_colon_from` always advances.
#[via_fn]
proof fn split_colon_decreases(s: Seq<char>, i: int) {
    if 0 <= i <= s.len() {
        lemma_colon_end(s, i);
    }
}

/// The colon-separated pieces of a whole text.
pub open spec fn split_colon(s: Seq<char>) -> Seq<Seq<char>> {
    split_colon_from(s, 0)
}

/// Splits a string at colons, keeping empty pieces.
fn split_colon_exec(s: &[char]) -> (r: Vec<String>)
    ensures
        strs_view_of(r@) == split_colon(s@),
{
    let mut out: Vec<String> = Vec::new();
    let mut i: usize = 0;
    proof {
        crate::record::lemma_strs_view_of(out@);
        assert(strs_view_of(out@) + split_colon_from(s@, 0) =~~= split_colon_from(s@, 0));
    }
    while i <= s.len()
        invariant_except_break
            i <= s@.len() + 1,
            split_colon(s@) == strs_view_of(out@) + split_colon_from(s@, i as int),
        ensures
            strs_view_of(out@) == split_colon(s@),
        decreases s@.len() + 1 - i,
    {
        let ghost i0 = i as int;
        let mut j: usize = i;
        while j < s.len() && s[j] != ':'
            invariant
                i <= j <= s@.len(),
                forall|k: int| i <= k < j ==> s@[k] != ':',
            decreases s@.len() - j,
        {
            j = j + 1;
        }
        proof {
            lemma_colon_end(s@, i as int);
            assert(colon_end(s@, i as int) == j as int);
        }
        let ghost pre = out@;
        out.push(chars_string(&s[i..j]));
        proof {
            assert(out@.drop_last() =~= pre);
            crate::record::lemma_strs_view_of(out@);
            crate::record::lemma_strs_view_of(pre);
            assert(out@.last()@ =~= s@.subrange(i as int, j as int));
            assert(strs_view_of(out@) =~~= strs_view_of(pre).push(s@.subrange(i as int, j as int)));
        }
        if j >= s.len() {
            proof {
                assert(strs_view_of(out@) + Seq::<Seq<char>>::empty() =~~= strs_view_of(out@));
                assert(split_colon_from(s@, i as int) =~~= seq![s@.subrange(
                    i as int,
                    s@.len() as int,
                )]);
                assert(strs_view_of(pre) + split_colon_from(s@, i as int) =~~= strs_view_of(out@));
            }
            break ;
        }
        i = j + 1;
        proof {
            assert(split_colon_from(s@, i0) == seq![s@.subrange(i0, j as int)]
                + split_colon_from(s@, i as int));
            assert(strs_view_of(pre) + (seq![s@.subrange(i0, j as int)] + split_colon_from(
                s@,
                i as int,
            )) =~~= strs_view_of(out@) + split_colon_from(s@, i as int));
        }
    }
    out
}

/// The row of an index table made from one CSV row under its headers: a
/// missing cell reads as empty.
pub open spec fn make_row(headers: Seq<Seq<char>>, row: Seq<Seq<char>>) -> RowV {
    let tpos = name_index_from(headers, "Template"@, 0)->Some_0;
    let cpos = name_index_from(headers, "Command"@, 0)->Some_0;
    RowV {
        templates: split_colon(
            if tpos < row.len() {
                row[tpos]
            } else {
                Seq::empty()
            },
        ),
        hostname: match name_index_from(headers, "Hostname"@, 0) {
            Some(hp) => Some(
                if hp < row.len() {
                    row[hp]
                } else {
                    Seq::empty()
                },
            ),
            None => None,
        },
        platform: match name_index_from(headers, "Platform"@, 0) {
            Some(pp) => Some(
                if pp < row.len() {
                    row[pp]
                } else {
                    Seq::empty()
                },
            ),
            None => match name_index_from(headers, "Vendor"@, 0) {
                Some(pp) => Some(
                    if pp < row.len() {
                        row[pp]
                    } else {
                        Seq::empty()
                    },
                ),
                None => None,
            },
        },
        command: if cpos < row.len() {
            row[cpos]
        } else {
            Seq::empty()
        },
    }
}

/// The index rows made from the CSV rows after the header.
pub open spec fn index_rows_from(
    headers: Seq<Seq<char>>,
    rows: Seq<Seq<Seq<char>>>,
    i: int,
) -> Seq<RowV>
    decreases rows.len() - i,
{
    if i < 0 || i >= rows.len() {
        Seq::empty()
    } else {
        seq![make_row(headers, rows[i])] + index_rows_from(headers, rows, i + 1)
    }
}

/// The parse of a whole decoded index file: the first row is the header
/// and must name `Template` and `Command`; every further row becomes an
/// entry.
pub open spec fn parse_index_rows(rows: Seq<Seq<Seq<char>>>) -> Result<Seq<RowV>, ErrorV> {
    let headers = if rows.len() == 0 {
        Seq::<Seq<char>>::empty()
    } else {
        rows[0]
    };
    if name_index_from(headers, "Template"@, 0) is None {
        Err(ErrorV::ParseError("No 'Template' column in index file"@))
    } else if name_index_from(headers, "Command"@, 0) is None {
        Err(ErrorV::ParseError("No 'Command' column in index file"@))
    } else {
        Ok(index_rows_from(headers, rows, 1))
    }
}

/// The spec image of a row list.
pub open spec fn rows_view_of(v: Seq<CliTableRow>) -> Seq<RowV>
    decreases v.len(),
{
    if v.len() == 0 {
        Seq::empty()
    } else {
        rows_view_of(v.drop_last()).push(v.last()@)
    }
}

/// The viewed rows have the same length and viewed entries.
pub proof fn lemma_rows_view_of(v: Seq<CliTableRow>)
    ensures
        rows_view_of(v).len() == v.len(),
        forall|j: int| 0 <= j < v.len() ==> #[trigger] rows_view_of(v)[j] == v[j]@,
    decreases v.len(),
{
    if v.len() > 0 {
        lemma_rows_view_of(v.drop_last());
    }
}

/// An index file read into memory: where it came from and its rows.
#[derive(Debug, Clone)]
pub struct ParsedCliTable {
    pub fname: String,
    pub rows: Vec<CliTableRow>,
}

impl View for ParsedCliTable {
    type V = (Seq<char>, Seq<RowV>);

    open spec fn view(&self) -> (Seq<char>, Seq<RowV>) {
        (self.fname@, rows_view_of(self.rows@))
    }
}

/// The position of the first header equal to `name`.
fn find_header(headers: &Vec<String>, name: &str) -> (r: Option<usize>)
    ensures
        match r {
            Some(k) => k < headers.len() && name_index_from(strs_view_of(headers@), name@, 0)
                == Some(k as int),
            None => name_index_from(strs_view_of(headers@), name@, 0) is None,
        },
{
    proof {
        crate::record::lemma_strs_view_of(headers@);
    }
    let ghost hv = strs_view_of(headers@);
    let mut k: usize = 0;
    while k < headers.len()
        invariant
            k <= headers@.len(),
            hv == strs_view_of(headers@),
            hv.len() == headers@.len(),
            forall|j: int| 0 <= j < headers@.len() ==> #[trigger] hv[j] == headers@[j]@,
            name_index_from(hv, name@, 0) == name_index_from(hv, name@, k as int),
        decreases headers@.len() - k,
    {
        if crate::text::str_eq(headers[k].as_str(), name) {
            return Some(k);
        }
        k = k + 1;
    }
    None
}

impl ParsedCliTable {
    /// Reads an index table from the text of an index file: the first
    /// CSV row names the columns, `Template` and `Command` are required,
    /// and every further row becomes an entry.
    pub fn from_text(fname: &str, contents: &str) -> (r: Result<ParsedCliTable, TextFsmError>)
        ensures
            match r {
                Ok(t) => csv_rows(contents@) matches Ok(rows) && parse_index_rows(rows) == Ok::<
                    Seq<RowV>,
                    ErrorV,
                >(t@.1) && t@.0 == fname@,
                Err(e) => {
                    ||| (csv_rows(contents@) matches Err(m) && e@ == ErrorV::CsvError(m))
                    ||| (csv_rows(contents@) matches Ok(rows) && parse_index_rows(rows) == Err::<
                        Seq<RowV>,
                        ErrorV,
                    >(e@))
                },
            },
    {
        let all = match csv_parse(contents) {
            Ok(a) => a,
            Err(m) => {
                return Err(TextFsmError::CsvError(m));
            },
        };
        let ghost rowsv = all.deep_view();
        proof {
            assert(rowsv.len() == all@.len());
            assert(forall|j: int| 0 <= j < all@.len() ==> #[trigger] rowsv[j]
                == all@[j].deep_view());
        }
        let headers: Vec<String> = if all.len() == 0 {
            Vec::new()
        } else {
            let mut h: Vec<String> = Vec::new();
            let first = &all[0];
            let mut k: usize = 0;
            while k < first.len()
                invariant
                    k <= first@.len(),
                    h@.len() == k,
                    forall|j: int| 0 <= j < k ==> #[trigger] h@[j] == first@[j],
                decreases first@.len() - k,
            {
                h.push(first[k].clone());
                k = k + 1;
            }
            h
        };
        let ghost hv = if rowsv.len() == 0 {
            Seq::<Seq<char>>::empty()
        } else {
            rowsv[0]
        };
        proof {
            crate::record::lemma_strs_view_of(headers@);
            assert(strs_view_of(headers@) =~~= hv) by {
                if rowsv.len() > 0 {
                    assert(rowsv[0] == all@[0].deep_view());
                    assert(forall|j: int| 0 <= j < all@[0]@.len() ==> #[trigger] all@[
                        0].deep_view()[j] == all@[0]@[j]@);
                }
            }
        }
        if find_header(&headers, "Template").is_none() {
            return Err(
                TextFsmError::ParseError(String::from_str("No 'Template' column in index file")),
            );
        }
        if find_header(&headers, "Command").is_none() {
            return Err(
                TextFsmError::ParseError(String::from_str("No 'Command' column in index file")),
            );
        }
        let tpos = match find_header(&headers, "Template") {
            Some(k) => k,
            None => {
                proof {
                    assert(false);
                }
                0
            },
        };
        let cpos = match find_header(&headers, "Command") {
            Some(k) => k,
            None => {
                proof {
                    assert(false);
                }
                0
            },
        };
        let ppos = match find_header(&headers, "Platform") {
            Some(k) => Some(k),
            None => find_header(&headers, "Vendor"),
        };
        let hpos = find_header(&headers, "Hostname");
        let mut rows: Vec<CliTableRow> = Vec::new();
        let mut i: usize = 1;
        proof {
            lemma_rows_view_of(rows@);
            assert(rows_view_of(rows@) + index_rows_from(hv, rowsv, 1) =~~= index_rows_from(
                hv,
                rowsv,
                1,
            ));
        }
        while i < all.len()
            invariant
                1 <= i <= all@.len() || all@.len() == 0,
                i >= 1,
                rowsv == all.deep_view(),
                rowsv.len() == all@.len(),
                forall|j: int| 0 <= j < all@.len() ==> #[trigger] rowsv[j] == all@[j].deep_view(),
                hv == (if rowsv.len() == 0 {
                    Seq::<Seq<char>>::empty()
                } else {
                    rowsv[0]
                }),
                tpos as int == name_index_from(hv, "Template"@, 0)->Some_0,
                cpos as int == name_index_from(hv, "Command"@, 0)->Some_0,
                name_index_from(hv, "Template"@, 0) is Some,
                name_index_from(hv, "Command"@, 0) is Some,
                (match ppos {
                    Some(k) => (match name_index_from(hv, "Platform"@, 0) {
                        Some(q) => q == k as int,
                        None => name_index_from(hv, "Vendor"@, 0) == Some(k as int),
                    }),
                    None => name_index_from(hv, "Platform"@, 0) is None && name_index_from(
                        hv,
                        "Vendor"@,
                        0,
                    ) is None,
                }),
                (match hpos {
                    Some(k) => name_index_from(hv, "Hostname"@, 0) == Some(k as int),
                    None => name_index_from(hv, "Hostname"@, 0) is None,
                }),
                index_rows_from(hv, rowsv, 1) == rows_view_of(rows@) + index_rows_from(
                    hv,
                    rowsv,
                    i as int,
                ),
            decreases all@.len() - i,
        {
            let rec = &all[i];
            proof {
                assert(rowsv[i as int] == all@[i as int].deep_view());
                assert(forall|j: int| 0 <= j < rec@.len() ==> #[trigger] rec.deep_view()[j]
                    == rec@[j]@);
            }
            let templates_src: String = if tpos < rec.len() {
                rec[tpos].clone()
            } else {
                String::new()
            };
            let tchars = crate::text::str_chars(templates_src.as_str());
            let templates = split_colon_exec(tchars.as_slice());
            let platform: Option<String> = match ppos {
                Some(pp) => Some(
                    if pp < rec.len() {
                        rec[pp].clone()
                    } else {
                        String::new()
                    },
                ),
                None => None,
            };
            let hostname: Option<String> = match hpos {
                Some(hp) => Some(
                    if hp < rec.len() {
                        rec[hp].clone()
                    } else {
                        String::new()
                    },
                ),
                None => None,
            };
            let command: String = if cpos < rec.len() {
                rec[cpos].clone()
            } else {
                String::new()
            };
            let row = CliTableRow { templates, hostname, platform, command };
            proof {
                assert(row@ =~~= make_row(hv, rowsv[i as int]));
            }
            let ghost pre = rows@;
            rows.push(row);
            i = i + 1;
            proof {
                assert(rows@.drop_last() =~= pre);
                lemma_rows_view_of(rows@);
                lemma_rows_view_of(pre);
                assert(rows_view_of(rows@) =~~= rows_view_of(pre).push(make_row(
                    hv,
                    rowsv[(i - 1) as int],
                )));
                assert(rows_view_of(pre).push(make_row(hv, rowsv[(i - 1) as int]))
                    + index_rows_from(hv, rowsv, i as int) =~~= rows_view_of(pre) + (seq![
                    make_row(hv, rowsv[(i - 1) as int]),
                ] + index_rows_from(hv, rowsv, i as int)));
            }
        }
        proof {
            assert(rows_view_of(rows@) + Seq::<RowV>::empty() =~~= rows_view_of(rows@));
        }
        let t = ParsedCliTable { fname: String::from_str(fname), rows };
        Ok(t)
    }
}

/// Spec image of a [`CliTableRegexRule`].
#[verifier::ext_equal]
pub struct RegexRuleV {
    pub table_index: int,
    pub row_index: int,
    pub command_pattern: Seq<char>,
}

/// One compiled command matcher: which table and row it belongs to, and
/// the anchored, expanded pattern the backtracking engine runs.
#[derive(Debug, Clone)]
pub struct CliTableRegexRule {
    pub table_index: usize,
    pub row_index: usize,
    pub command_pattern: String,
}

impl View for CliTableRegexRule {
    type V = RegexRuleV;

    open spec fn view(&self) -> RegexRuleV {
        RegexRuleV {
            table_index: self.table_index as int,
            row_index: self.row_index as int,
            command_pattern: self.command_pattern@,
        }
    }
}

/// The spec image of a rule list.
pub open spec fn rrules_view_of(v: Seq<CliTableRegexRule>) -> Seq<RegexRuleV>
    decreases v.len(),
{
    if v.len() == 0 {
        Seq::empty()
    } else {
        rrules_view_of(v.drop_last()).push(v.last()@)
    }
}

/// The viewed rules have the same length and viewed entries.
pub proof fn lemma_rrules_view_of(v: Seq<CliTableRegexRule>)
    ensures
        rrules_view_of(v).len() == v.len(),
        forall|j: int| 0 <= j < v.len() ==> #[trigger] rrules_view_of(v)[j] == v[j]@,
    decreases v.len(),
{
    if v.len() > 0 {
        lemma_rrules_view_of(v.drop_last());
    }
}

/// The anchored regex of a row's command: its abbreviations expanded,
/// wrapped in `^` and `$`.
pub open spec fn anchored_command(command: Seq<char>) -> Seq<char> {
    "^"@ + expand_brackets_spec(command, 0) + "$"@
}

/// The platform bucket a row falls in: its platform, or `no-platform`.
pub open spec fn platform_of(row: RowV) -> Seq<char> {
    match row.platform {
        Some(p) => p,
        None => "no-platform"@,
    }
}

/// The directory part of a file name: what stands before the last slash,
/// the root slash kept, or nothing for an empty name.
pub open spec fn dir_of(fname: Seq<char>) -> Option<Seq<char>> {
    if fname.len() == 0 {
        None
    } else {
        match last_slash(fname, fname.len() as int) {
            None => Some(Seq::empty()),
            Some(k) => if k == 0 {
                Some(fname.subrange(0, 1))
            } else {
                Some(fname.subrange(0, k))
            },
        }
    }
}

/// The position of the last slash before `n`, if any.
pub open spec fn last_slash(s: Seq<char>, n: int) -> Option<int>
    decreases n,
{
    if n <= 0 || n > s.len() {
        None
    } else if s[n - 1] == '/' {
        Some(n - 1)
    } else {
        last_slash(s, n - 1)
    }
}

/// The first rule from `i` on whose row is bucketed under `platform`
/// and whose pattern matches the command; an engine that gives up or
/// a rule that names no table entry is passed over.
pub open spec fn lookup_spec(
    tables: Seq<(Seq<char>, Seq<RowV>)>,
    rules: Seq<RegexRuleV>,
    platform: Seq<char>,
    cmd: Seq<char>,
    i: int,
) -> Option<(Seq<char>, RowV)>
    decreases rules.len() - i,
{
    if i < 0 || i >= rules.len() {
        None
    } else {
        let rule = rules[i];
        if 0 <= rule.table_index < tables.len() && 0 <= rule.row_index < tables[
            rule.table_index].1.len() {
            let row = tables[rule.table_index].1[rule.row_index];
            if platform_of(row) == platform && fancy_match_result(rule.command_pattern, cmd)
                == Ok::<bool, ()>(true) {
                match dir_of(tables[rule.table_index].0) {
                    Some(d) => Some((d, row)),
                    None => lookup_spec(tables, rules, platform, cmd, i + 1),
                }
            } else {
                lookup_spec(tables, rules, platform, cmd, i + 1)
            }
        } else {
            lookup_spec(tables, rules, platform, cmd, i + 1)
        }
    }
}

/// The spec image of a table list.
pub open spec fn tables_view_of(v: Seq<ParsedCliTable>) -> Seq<(Seq<char>, Seq<RowV>)>
    decreases v.len(),
{
    if v.len() == 0 {
        Seq::empty()
    } else {
        tables_view_of(v.drop_last()).push(v.last()@)
    }
}

/// The viewed tables have the same length and viewed entries.
pub proof fn lemma_tables_view_of(v: Seq<ParsedCliTable>)
    ensures
        tables_view_of(v).len() == v.len(),
        forall|j: int| 0 <= j < v.len() ==> #[trigger] tables_view_of(v)[j] == v[j]@,
    decreases v.len(),
{
    if v.len() > 0 {
        lemma_tables_view_of(v.drop_last());
    }
}

/// A command-to-template index: the tables read from index files, and
/// one compiled matcher per row, in index order.  Every matcher's
/// pattern is accepted by the backtracking engine.
#[derive(Debug, Clone)]
pub struct CliTable {
    pub tables: Vec<ParsedCliTable>,
    pub regex_rules: Vec<CliTableRegexRule>,
}

impl View for CliTable {
    type V = (Seq<(Seq<char>, Seq<RowV>)>, Seq<RegexRuleV>);

    open spec fn view(&self) -> (Seq<(Seq<char>, Seq<RowV>)>, Seq<RegexRuleV>) {
        (tables_view_of(self.tables@), rrules_view_of(self.regex_rules@))
    }
}

/// Every matcher points into the tables and its pattern is accepted by
/// the backtracking engine.
pub open spec fn table_wf(t: (Seq<(Seq<char>, Seq<RowV>)>, Seq<RegexRuleV>)) -> bool {
    forall|j: int|
        0 <= j < t.1.len() ==> (0 <= (#[trigger] t.1[j]).table_index < t.0.len() && 0 <= t.1[
            j].row_index < t.0[t.1[j].table_index].1.len() && fancy_compiles(
            t.1[j].command_pattern,
        ))
}

impl CliTable {
    /// Reads an index from the text of one index file and compiles a
    /// matcher for every row: the command's abbreviations are expanded
    /// and the result anchored; a pattern the backtracking engine
    /// rejects fails the load.
    pub fn from_text(fname: &str, contents: &str) -> (r: Result<CliTable, TextFsmError>)
        ensures
            match r {
                Ok(t) => csv_rows(contents@) matches Ok(rows) && parse_index_rows(rows)
                    matches Ok(rws) && {
                    &&& t@.0.len() == 1
                    &&& t@.0[0].0 == fname@
                    &&& t@.0[0].1 == rws
                    &&& t@.1.len() == rws.len()
                    &&& (forall|j: int|
                        0 <= j < rws.len() ==> (#[trigger] t@.1[j]).table_index == 0 && t@.1[
                            j].row_index == j && t@.1[j].command_pattern == anchored_command(
                            rws[j].command,
                        ))
                    &&& table_wf(t@)
                },
                Err(e) => {
                    ||| (csv_rows(contents@) matches Err(m) && e@ == ErrorV::CsvError(m))
                    ||| (csv_rows(contents@) matches Ok(rows) && parse_index_rows(rows) == Err::<
                        Seq<RowV>,
                        ErrorV,
                    >(e@))
                    ||| (csv_rows(contents@) matches Ok(rows) && parse_index_rows(rows) is Ok
                        && e@ is ParseError)
                },
            },
    {
        let parsed = match ParsedCliTable::from_text(fname, contents) {
            Ok(t) => t,
            Err(e) => {
                return Err(e);
            },
        };
        let ghost rws = rows_view_of(parsed.rows@);
        proof {
            lemma_rows_view_of(parsed.rows@);
        }
        let mut regex_rules: Vec<CliTableRegexRule> = Vec::new();
        let mut i: usize = 0;
        while i < parsed.rows.len()
            invariant
                i <= parsed.rows@.len(),
                csv_rows(contents@) matches Ok(rows) && parse_index_rows(rows) == Ok::<
                    Seq<RowV>,
                    ErrorV,
                >(rws),
                rws == rows_view_of(parsed.rows@),
                rws.len() == parsed.rows@.len(),
                forall|j: int| 0 <= j < parsed.rows@.len() ==> #[trigger] rws[j]
                    == parsed.rows@[j]@,
                rrules_view_of(regex_rules@).len() == i,
                forall|j: int|
                    0 <= j < i ==> ((#[trigger] rrules_view_of(regex_rules@)[j]).table_index == 0
                        && rrules_view_of(regex_rules@)[j].row_index == j && rrules_view_of(
                        regex_rules@,
                    )[j].command_pattern == anchored_command(rws[j].command) && fancy_compiles(
                        rrules_view_of(regex_rules@)[j].command_pattern,
                    )),
            decreases parsed.rows@.len() - i,
        {
            let expanded = expand_brackets(parsed.rows[i].command.as_str());
            let mut anchored = String::from_str("^");
            anchored.append(expanded.as_str());
            anchored.append("$");
            proof {
                assert(anchored@ == anchored_command(rws[i as int].command));
            }
            match crate::rx::fancy_compile_check(anchored.as_str()) {
                crate::rx::FancyCompileOutcome::Accepted => {},
                _ => {
                    return Err(
                        TextFsmError::ParseError(
                            String::from_str("the backtracking engine rejected a command pattern"),
                        ),
                    );
                },
            }
            let ghost pre = regex_rules@;
            regex_rules.push(
                CliTableRegexRule { table_index: 0, row_index: i, command_pattern: anchored },
            );
            i = i + 1;
            proof {
                assert(regex_rules@.drop_last() =~= pre);
                lemma_rrules_view_of(regex_rules@);
                lemma_rrules_view_of(pre);
            }
        }
        let mut tables: Vec<ParsedCliTable> = Vec::new();
        tables.push(parsed);
        let t = CliTable { tables, regex_rules };
        proof {
            lemma_tables_view_of(t.tables@);
            assert(t@.0.len() == 1);
            assert(t@.0[0] == t.tables@[0]@);
            assert(table_wf(t@));
        }
        Ok(t)
    }

    /// The first entry whose platform bucket is `platform` and whose
    /// anchored command pattern matches `cmd`, with the directory of its
    /// index file.  An entry on which the backtracking engine gives up
    /// is passed over.
    pub fn get_template_for_command(&self, platform: &str, cmd: &str) -> (r: Option<
        (String, CliTableRow),
    >)
        requires
            table_wf(self@),
        ensures
            match r {
                Some(pair) => lookup_spec(self@.0, self@.1, platform@, cmd@, 0) == Some(
                    (pair.0@, pair.1@),
                ),
                None => lookup_spec(self@.0, self@.1, platform@, cmd@, 0) is None,
            },
    {
        proof {
            lemma_tables_view_of(self.tables@);
            lemma_rrules_view_of(self.regex_rules@);
        }
        let mut i: usize = 0;
        while i < self.regex_rules.len()
            invariant
                i <= self.regex_rules@.len(),
                table_wf(self@),
                self@.0.len() == self.tables@.len(),
                forall|j: int| 0 <= j < self.tables@.len() ==> #[trigger] self@.0[j]
                    == self.tables@[j]@,
                self@.1.len() == self.regex_rules@.len(),
                forall|j: int| 0 <= j < self.regex_rules@.len() ==> #[trigger] self@.1[j]
                    == self.regex_rules@[j]@,
                lookup_spec(self@.0, self@.1, platform@, cmd@, 0) == lookup_spec(
                    self@.0,
                    self@.1,
                    platform@,
                    cmd@,
                    i as int,
                ),
            decreases self.regex_rules@.len() - i,
        {
            let rule = &self.regex_rules[i];
            proof {
                assert(self@.1[i as int] == rule@);
                assert(0 <= rule@.table_index < self@.0.len());
                lemma_rows_view_of(self.tables@[rule.table_index as int].rows@);
            }
            let table = &self.tables[rule.table_index];
            let row = &table.rows[rule.row_index];
            proof {
                assert(self@.0[rule@.table_index].1[rule@.row_index] == row@);
            }
            let plat_match = match &row.platform {
                Some(pl) => crate::text::str_eq(pl.as_str(), platform),
                None => crate::text::str_eq("no-platform", platform),
            };
            if plat_match {
                match crate::rx::fancy_is_match(rule.command_pattern.as_str(), cmd) {
                    Ok(true) => {
                        match Self::get_directory(table.fname.as_str()) {
                            Some(d) => {
                                proof {
                                    assert(lookup_spec(self@.0, self@.1, platform@, cmd@, i as int)
                                        == Some((d@, row@)));
                                }
                                return Some((d, row.duplicate()));
                            },
                            None => {},
                        }
                    },
                    _ => {},
                }
            }
            i = i + 1;
        }
        None
    }

    /// The directory part of a file name: what stands before the last
    /// slash, the root slash kept; an empty name has none.
    pub fn get_directory(filename: &str) -> (r: Option<String>)
        ensures
            match r {
                Some(d) => dir_of(filename@) == Some(d@),
                None => dir_of(filename@) is None,
            },
    {
        let cs = crate::text::str_chars(filename);
        if cs.len() == 0 {
            return None;
        }
        let mut n: usize = cs.len();
        while n > 0 && cs[n - 1] != '/'
            invariant
                n <= cs@.len(),
                cs@ == filename@,
                last_slash(filename@, filename@.len() as int) == last_slash(filename@, n as int),
            decreases n,
        {
            n = n - 1;
        }
        if n == 0 {
            proof {
                assert(last_slash(filename@, 0) is None);
            }
            Some(String::new())
        } else if n == 1 {
            let d = chars_string(&cs.as_slice()[0..1]);
            proof {
                assert(d@ =~= filename@.subrange(0, 1));
            }
            Some(d)
        } else {
            let d = chars_string(&cs.as_slice()[0..n - 1]);
            proof {
                assert(d@ =~= filename@.subrange(0, (n - 1) as int));
            }
            Some(d)
        }
    }
}

} // verus!
