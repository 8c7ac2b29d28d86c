use vstd::prelude::*;
use crate::error::TextFsmError;
use crate::machine::recs_view_of;
use crate::record::{find_field, strs_view_of, value_text, DataRecord, FieldsV, RecordV};
use vstd::string::StringExecFns;

verus! {

/// The output shapes records can be rendered into.
#[derive(Debug, Clone, Copy, PartialEq, Eq, Structural)]
pub enum OutputFormat {
    /// JSON, produced by callers around the library.
    Json,
    /// YAML, produced by callers around the library.
    Yaml,
    /// Comma-separated values with the headers sorted.
    Csv,
    /// A plain text table.
    Text,
    /// An HTML table.
    Html,
    /// XML elements, one per record.
    Xml,
}

/// Lexicographic order on character sequences.
pub open spec fn lex_lt(a: Seq<char>, b: Seq<char>) -> bool
    decreases a.len(),
{
    if b.len() == 0 {
        false
    } else if a.len() == 0 {
        true
    } else if a[0] != b[0] {
        a[0] < b[0]
    } else {
        lex_lt(a.drop_first(), b.drop_first())
    }
}

/// Whether `a` comes strictly before `b` in lexicographic order.
pub fn str_lt(a: &str, b: &str) -> (r: bool)
    ensures
        r == lex_lt(a@, b@),
{
    let ac = crate::text::str_chars(a);
    let bc = crate::text::str_chars(b);
    let mut i: usize = 0;
    proof {
        assert(a@.skip(0) =~= a@);
        assert(b@.skip(0) =~= b@);
    }
    loop
        invariant
            i <= ac@.len(),
            i <= bc@.len(),
            ac@ == a@,
            bc@ == b@,
            lex_lt(a@, b@) == lex_lt(a@.skip(i as int), b@.skip(i as int)),
        decreases ac@.len() - i,
    {
        if i >= bc.len() {
            proof {
                assert(b@.skip(i as int).len() == 0);
            }
            return false;
        }
        if i >= ac.len() {
            proof {
                assert(a@.skip(i as int).len() == 0);
                assert(b@.skip(i as int).len() > 0);
            }
            return true;
        }
        if ac[i] != bc[i] {
            proof {
                assert(a@.skip(i as int)[0] == a@[i as int]);
                assert(b@.skip(i as int)[0] == b@[i as int]);
            }
            return ac[i] < bc[i];
        }
        proof {
            assert(a@.skip(i as int)[0] == a@[i as int]);
            assert(b@.skip(i as int)[0] == b@[i as int]);
            assert(a@.skip(i as int).drop_first() =~= a@.skip(i as int + 1));
            assert(b@.skip(i as int).drop_first() =~= b@.skip(i as int + 1));
        }
        i = i + 1;
    }
}

/// Whether `h` is strictly sorted in lexicographic order.
pub open spec fn sorted_headers(h: Seq<Seq<char>>) -> bool {
    forall|i: int, j: int| 0 <= i < j < h.len() ==> lex_lt(#[trigger] h[i], #[trigger] h[j])
}

/// Whether some record of `recs` binds the name `n`.
pub open spec fn some_record_has(recs: Seq<RecordV>, n: Seq<char>) -> bool {
    exists|r: int| 0 <= r < recs.len() && find_field((#[trigger] recs[r]).fields, n) is Some
}

/// The sorted set of field names over all records: every name some
/// record binds appears exactly once, in lexicographic order.
pub fn get_headers(records: &Vec<DataRecord>) -> (r: Vec<String>)
    ensures
        sorted_headers(strs_view_of(r@)),
        forall|n: Seq<char>|
            #[trigger] strs_view_of(r@).contains(n) <==> some_record_has(
                recs_view_of(records@),
                n,
            ),
{
    proof {
        crate::machine::lemma_recs_view_of(records@);
    }
    let ghost rv = recs_view_of(records@);
    let mut out: Vec<String> = Vec::new();
    let mut i: usize = 0;
    proof {
        crate::record::lemma_strs_view_of(out@);
    }
    while i < records.len()
        invariant
            i <= records@.len(),
            rv == recs_view_of(records@),
            rv.len() == records@.len(),
            forall|j: int| 0 <= j < records@.len() ==> #[trigger] rv[j] == records@[j]@,
            sorted_headers(strs_view_of(out@)),
            forall|n: Seq<char>|
                #[trigger] strs_view_of(out@).contains(n) ==> some_record_has(rv, n),
            forall|rr: int, ff: int|
                0 <= rr < i && 0 <= ff < rv[rr].fields.len() ==> strs_view_of(out@).contains(
                    (#[trigger] rv[rr].fields[ff]).0,
                ),
        decreases records@.len() - i,
    {
        let rec = &records[i];
        let ghost rf = rec@.fields;
        proof {
            crate::record::lemma_fields_view_of(rec.fields@);
        }
        let mut f: usize = 0;
        while f < rec.fields.len()
            invariant
                f <= rec.fields@.len(),
                i < records@.len(),
                rv == recs_view_of(records@),
                rv.len() == records@.len(),
                forall|j: int| 0 <= j < records@.len() ==> #[trigger] rv[j] == records@[j]@,
                rf == rv[i as int].fields,
                rf.len() == rec.fields@.len(),
                forall|j: int| 0 <= j < rec.fields@.len() ==> #[trigger] rf[j] == (
                    rec.fields@[j].0@,
                    rec.fields@[j].1@,
                ),
                sorted_headers(strs_view_of(out@)),
                forall|n: Seq<char>|
                    #[trigger] strs_view_of(out@).contains(n) ==> some_record_has(rv, n),
                forall|rr: int, ff: int|
                    0 <= rr < i && 0 <= ff < rv[rr].fields.len() ==> strs_view_of(out@).contains(
                        (#[trigger] rv[rr].fields[ff]).0,
                    ),
                forall|ff: int|
                    0 <= ff < f ==> strs_view_of(out@).contains(
                        (#[trigger] rf[ff]).0,
                    ),
            decreases rec.fields@.len() - f,
        {
            let name = &rec.fields[f].0;
            insert_sorted(&mut out, name);
            proof {
                assert(find_field(rf, name@) is Some) by {
                    crate::record::lemma_field_index(rf, name@);
                    if crate::record::field_index(rf, name@) is None {
                        assert(rf[f as int].0 != name@);
                    }
                }
                assert(some_record_has(rv, name@)) by {
                    assert(find_field(rv[i as int].fields, name@) is Some);
                }
            }
            f = f + 1;
        }
        i = i + 1;
    }
    proof {
        assert forall|n: Seq<char>|
            some_record_has(rv, n) implies #[trigger] strs_view_of(out@).contains(n) by {
            let w = choose|r: int| 0 <= r < rv.len() && find_field((#[trigger] rv[r]).fields, n)
                is Some;
            crate::record::lemma_field_index(rv[w].fields, n);
            match crate::record::field_index(rv[w].fields, n) {
                Some(k) => {
                    assert(rv[w].fields[k].0 == n);
                },
                None => {},
            }
        }
    }
    out
}

/// Puts `name` into the sorted list, keeping order and uniqueness; a
/// present name is left alone.
fn insert_sorted(out: &mut Vec<String>, name: &String)
    requires
        sorted_headers(strs_view_of(old(out)@)),
    ensures
        sorted_headers(strs_view_of(final(out)@)),
        strs_view_of(final(out)@).contains(name@),
        forall|n: Seq<char>|
            #[trigger] strs_view_of(final(out)@).contains(n) <==> (strs_view_of(
                old(out)@,
            ).contains(n) || n == name@),
{
    proof {
        crate::record::lemma_strs_view_of(out@);
    }
    let ghost hv0 = strs_view_of(out@);
    let mut k: usize = 0;
    while k < out.len() && str_lt(out[k].as_str(), name.as_str())
        invariant
            k <= out@.len(),
            hv0 == strs_view_of(out@),
            hv0.len() == out@.len(),
            forall|j: int| 0 <= j < out@.len() ==> #[trigger] hv0[j] == out@[j]@,
            sorted_headers(hv0),
            forall|j: int| 0 <= j < k ==> lex_lt(#[trigger] hv0[j], name@),
        decreases out@.len() - k,
    {
        k = k + 1;
    }
    if k < out.len() && crate::text::str_eq(out[k].as_str(), name.as_str()) {
        proof {
            assert(strs_view_of(out@).contains(name@)) by {
                assert(hv0[k as int] == name@);
            }
            assert forall|n: Seq<char>|
                #[trigger] strs_view_of(out@).contains(n) <==> (hv0.contains(n) || n
                    == name@) by {
                if n == name@ {
                    assert(hv0[k as int] == name@);
                }
            }
        }
        return ;
    }
    let ghost pre = out@;
    out.insert(k, name.clone());
    proof {
        crate::record::lemma_strs_view_of(out@);
        let hv = strs_view_of(out@);
        assert(hv.len() == pre.len() + 1);
        assert forall|j: int| 0 <= j < hv.len() implies #[trigger] hv[j] == (if j < k {
            hv0[j]
        } else if j == k {
            name@
        } else {
            hv0[j - 1]
        }) by {
            if j < k {
                assert(out@[j] == pre[j]);
            } else if j > k {
                assert(out@[j] == pre[j - 1]);
            }
        }
        assert(sorted_headers(hv)) by {
            assert forall|a: int, b: int| 0 <= a < b < hv.len() implies lex_lt(
                #[trigger] hv[a],
                #[trigger] hv[b],
            ) by {
                if a == k {
                    if k < pre.len() {
                        lemma_lex_total(name@, hv0[k as int]);
                        if b - 1 > k {
                            lemma_lex_trans(name@, hv0[k as int], hv0[b - 1]);
                        }
                    }
                } else if b == k {
                } else if a < k && b > k {
                    if b - 1 > k {
                        if k < pre.len() {
                            lemma_lex_total(name@, hv0[k as int]);
                            lemma_lex_trans(hv0[a], hv0[k as int], hv0[b - 1]);
                        }
                    }
                }
            }
        }
        assert(hv.contains(name@)) by {
            assert(hv[k as int] == name@);
        }
        assert forall|n: Seq<char>|
            #[trigger] hv.contains(n) <==> (hv0.contains(n) || n == name@) by {
            if hv.contains(n) {
                let w = choose|j: int| 0 <= j < hv.len() && hv[j] == n;
                if w < k {
                    assert(hv0[w] == n);
                } else if w > k {
                    assert(hv0[w - 1] == n);
                }
            }
            if hv0.contains(n) {
                let w = choose|j: int| 0 <= j < hv0.len() && hv0[j] == n;
                if w < k {
                    assert(hv[w] == n);
                } else {
                    assert(hv[w + 1] == n);
                }
            }
        }
    }
}

/// Lexicographic order is total: two different sequences compare one
/// way or the other.
proof fn lemma_lex_total(a: Seq<char>, b: Seq<char>)
    ensures
        a == b || lex_lt(a, b) || lex_lt(b, a),
    decreases a.len(),
{
    if a.len() > 0 && b.len() > 0 && a[0] == b[0] {
        lemma_lex_total(a.drop_first(), b.drop_first());
        if a.drop_first() == b.drop_first() {
            assert(a.drop_first().len() == a.len() - 1) by {
                assert(a.drop_first() =~= a.subrange(1, a.len() as int));
            }
            assert(b.drop_first().len() == b.len() - 1) by {
                assert(b.drop_first() =~= b.subrange(1, b.len() as int));
            }
            assert(a.len() == b.len());
            assert(a =~= b) by {
                assert(forall|j: int| 1 <= j < a.len() ==> #[trigger] a[j] == a.drop_first()[j
                    - 1]);
                assert(forall|j: int| 1 <= j < b.len() ==> #[trigger] b[j] == b.drop_first()[j
                    - 1]);
            }
        }
    }
}

/// Lexicographic order is transitive.
proof fn lemma_lex_trans(a: Seq<char>, b: Seq<char>, c: Seq<char>)
    requires
        lex_lt(a, b),
        lex_lt(b, c),
    ensures
        lex_lt(a, c),
    decreases a.len(),
{
    if a.len() > 0 && b.len() > 0 && c.len() > 0 && a[0] == b[0] && b[0] == c[0] {
        lemma_lex_trans(a.drop_first(), b.drop_first(), c.drop_first());
    }
}

/// One character escaped for markup: the five special characters become
/// entities, all else is kept.
pub open spec fn markup_escape_char(c: char) -> Seq<char> {
    if c == '&' {
        "&amp;"@
    } else if c == '<' {
        "&lt;"@
    } else if c == '>' {
        "&gt;"@
    } else if c == '"' {
        "&quot;"@
    } else if c == '\'' {
        "&apos;"@
    } else {
        seq![c]
    }
}

/// A text escaped for markup.
pub open spec fn markup_escape(s: Seq<char>) -> Seq<char>
    decreases s.len(),
{
    if s.len() == 0 {
        Seq::empty()
    } else {
        markup_escape(s.drop_last()) + markup_escape_char(s.last())
    }
}

/// Appends the markup-escaped text to `out`.
fn append_escaped_markup(out: &mut String, s: &str)
    ensures
        final(out)@ == old(out)@ + markup_escape(s@),
{
    let cs = crate::text::str_chars(s);
    let mut i: usize = 0;
    proof {
        assert(old(out)@ + markup_escape(s@.subrange(0, 0)) =~= old(out)@) by {
            assert(s@.subrange(0, 0) =~= Seq::<char>::empty());
        }
    }
    while i < cs.len()
        invariant
            i <= cs@.len(),
            cs@ == s@,
            out@ == old(out)@ + markup_escape(s@.subrange(0, i as int)),
        decreases cs@.len() - i,
    {
        proof {
            assert(s@.subrange(0, (i + 1) as int).drop_last() =~= s@.subrange(0, i as int));
            assert(s@.subrange(0, (i + 1) as int).last() == s@[i as int]);
        }
        let c = cs[i];
        if c == '&' {
            out.append("&amp;");
        } else if c == '<' {
            out.append("&lt;");
        } else if c == '>' {
            out.append("&gt;");
        } else if c == '"' {
            out.append("&quot;");
        } else if c == '\'' {
            out.append("&apos;");
        } else {
            out.push(c);
            proof {
                assert(out@ =~= old(out)@ + markup_escape(s@.subrange(0, (i + 1) as int)));
            }
        }
        i = i + 1;
    }
    proof {
        assert(s@.subrange(0, s@.len() as int) =~= s@);
    }
}

/// The rendered text of the field named `h`, or nothing when absent.
pub open spec fn cell_text(fields: FieldsV, h: Seq<char>) -> Seq<char> {
    match find_field(fields, h) {
        Some(v) => value_text(v),
        None => Seq::empty(),
    }
}

/// The header cells of an HTML table, from `i` on.
pub open spec fn html_header_cells(headers: Seq<Seq<char>>, i: int) -> Seq<char>
    decreases headers.len() - i,
{
    if i < 0 || i >= headers.len() {
        Seq::empty()
    } else {
        "<th>"@ + headers[i] + "</th>"@ + html_header_cells(headers, i + 1)
    }
}

/// The data cells of one HTML row, from header `i` on; values are
/// escaped.
pub open spec fn html_row_cells(headers: Seq<Seq<char>>, fields: FieldsV, i: int) -> Seq<char>
    decreases headers.len() - i,
{
    if i < 0 || i >= headers.len() {
        Seq::empty()
    } else {
        "<td>"@ + markup_escape(cell_text(fields, headers[i])) + "</td>"@ + html_row_cells(
            headers,
            fields,
            i + 1,
        )
    }
}

/// The HTML rows of the records from `r` on.
pub open spec fn html_rows(headers: Seq<Seq<char>>, recs: Seq<RecordV>, r: int) -> Seq<char>
    decreases recs.len() - r,
{
    if r < 0 || r >= recs.len() {
        Seq::empty()
    } else {
        "<tr>"@ + html_row_cells(headers, recs[r].fields, 0) + "</tr>\n"@ + html_rows(
            headers,
            recs,
            r + 1,
        )
    }
}

/// A whole HTML table over the sorted headers.
pub open spec fn html_of(headers: Seq<Seq<char>>, recs: Seq<RecordV>) -> Seq<char> {
    "<table>\n<thead>\n<tr>"@ + html_header_cells(headers, 0)
        + "</tr>\n</thead>\n<tbody>\n"@ + html_rows(headers, recs, 0)
        + "</tbody>\n</table>"@
}

/// Renders the records as an HTML table: one column per field name over
/// all records, sorted; missing values render empty; values are
/// escaped, header names are not.
pub fn export_html(records: &Vec<DataRecord>) -> (r: Result<String, TextFsmError>)
    ensures
        r matches Ok(s) && exists|h: Seq<Seq<char>>|
            {
                &&& sorted_headers(h)
                &&& (forall|n: Seq<char>| #[trigger]
                    h.contains(n) <==> some_record_has(recs_view_of(records@), n))
                &&& s@ == html_of(h, recs_view_of(records@))
            },
{
    let headers = get_headers(records);
    let ghost hv = strs_view_of(headers@);
    let ghost rv = recs_view_of(records@);
    proof {
        crate::record::lemma_strs_view_of(headers@);
        crate::machine::lemma_recs_view_of(records@);
    }
    let mut out = String::from_str("<table>\n<thead>\n<tr>");
    let mut i: usize = 0;
    while i < headers.len()
        invariant
            i <= headers@.len(),
            hv == strs_view_of(headers@),
            hv.len() == headers@.len(),
            forall|j: int| 0 <= j < headers@.len() ==> #[trigger] hv[j] == headers@[j]@,
            "<table>\n<thead>\n<tr>"@ + html_header_cells(hv, 0) == out@ + html_header_cells(
                hv,
                i as int,
            ),
        decreases headers@.len() - i,
    {
        out.append("<th>");
        out.append(headers[i].as_str());
        out.append("</th>");
        i = i + 1;
    }
    out.append("</tr>\n</thead>\n<tbody>\n");
    let ghost mid = "<table>\n<thead>\n<tr>"@ + html_header_cells(hv, 0)
        + "</tr>\n</thead>\n<tbody>\n"@;
    let mut rrr: usize = 0;
    while rrr < records.len()
        invariant
            rrr <= records@.len(),
            hv == strs_view_of(headers@),
            hv.len() == headers@.len(),
            forall|j: int| 0 <= j < headers@.len() ==> #[trigger] hv[j] == headers@[j]@,
            rv == recs_view_of(records@),
            rv.len() == records@.len(),
            forall|j: int| 0 <= j < records@.len() ==> #[trigger] rv[j] == records@[j]@,
            mid + html_rows(hv, rv, 0) == out@ + html_rows(hv, rv, rrr as int),
        decreases records@.len() - rrr,
    {
        out.append("<tr>");
        let rec = &records[rrr];
        let ghost rf = rv[rrr as int].fields;
        let ghost row_start = out@;
        let mut c: usize = 0;
        while c < headers.len()
            invariant
                c <= headers@.len(),
                rrr < records@.len(),
                hv == strs_view_of(headers@),
                hv.len() == headers@.len(),
                forall|j: int| 0 <= j < headers@.len() ==> #[trigger] hv[j] == headers@[j]@,
                rv == recs_view_of(records@),
                rv.len() == records@.len(),
                forall|j: int| 0 <= j < records@.len() ==> #[trigger] rv[j] == records@[j]@,
                rf == rv[rrr as int].fields,
                rec == &records[rrr as int],
                row_start + html_row_cells(hv, rf, 0) == out@ + html_row_cells(hv, rf, c as int),
            decreases headers@.len() - c,
        {
            out.append("<td>");
            match rec.get(headers[c].as_str()) {
                Some(v) => {
                    let t = v.to_string();
                    append_escaped_markup(&mut out, t.as_str());
                },
                None => {
                    proof {
                        assert(markup_escape(cell_text(rf, hv[c as int])) =~= Seq::<char>::empty());
                        assert(out@ + markup_escape(cell_text(rf, hv[c as int])) =~= out@);
                    }
                },
            }
            out.append("</td>");
            c = c + 1;
        }
        out.append("</tr>\n");
        rrr = rrr + 1;
    }
    out.append("</tbody>\n</table>");
    proof {
        assert(out@ == html_of(hv, rv));
    }
    Ok(out)
}

/// A header as an XML tag name: spaces become underscores.
pub open spec fn tag_of(s: Seq<char>) -> Seq<char>
    decreases s.len(),
{
    if s.len() == 0 {
        Seq::empty()
    } else {
        tag_of(s.drop_last()) + seq![
            if s.last() == ' ' {
                '_'
            } else {
                s.last()
            },
        ]
    }
}

/// The elements of one XML record, over the headers from `i` on; absent
/// fields are left out.
pub open spec fn xml_fields(headers: Seq<Seq<char>>, fields: FieldsV, i: int) -> Seq<char>
    decreases headers.len() - i,
{
    if i < 0 || i >= headers.len() {
        Seq::empty()
    } else {
        (match find_field(fields, headers[i]) {
            Some(v) => "    <"@ + tag_of(headers[i]) + ">"@ + markup_escape(value_text(v)) + "</"@
                + tag_of(headers[i]) + ">\n"@,
            None => Seq::<char>::empty(),
        }) + xml_fields(headers, fields, i + 1)
    }
}

/// The XML elements of the records from `r` on.
pub open spec fn xml_records(headers: Seq<Seq<char>>, recs: Seq<RecordV>, r: int) -> Seq<char>
    decreases recs.len() - r,
{
    if r < 0 || r >= recs.len() {
        Seq::empty()
    } else {
        "  <record>\n"@ + xml_fields(headers, recs[r].fields, 0) + "  </record>\n"@
            + xml_records(headers, recs, r + 1)
    }
}

/// A whole XML rendering over the sorted headers.
pub open spec fn xml_of(headers: Seq<Seq<char>>, recs: Seq<RecordV>) -> Seq<char> {
    "<results>\n"@ + xml_records(headers, recs, 0) + "</results>"@
}

/// Appends the tag form of a header to `out`.
fn append_tag(out: &mut String, h: &str)
    ensures
        final(out)@ == old(out)@ + tag_of(h@),
{
    let cs = crate::text::str_chars(h);
    let mut i: usize = 0;
    proof {
        assert(old(out)@ + tag_of(h@.subrange(0, 0)) =~= old(out)@) by {
            assert(h@.subrange(0, 0) =~= Seq::<char>::empty());
        }
    }
    while i < cs.len()
        invariant
            i <= cs@.len(),
            cs@ == h@,
            out@ == old(out)@ + tag_of(h@.subrange(0, i as int)),
        decreases cs@.len() - i,
    {
        proof {
            assert(h@.subrange(0, (i + 1) as int).drop_last() =~= h@.subrange(0, i as int));
            assert(h@.subrange(0, (i + 1) as int).last() == h@[i as int]);
        }
        if cs[i] == ' ' {
            out.push('_');
        } else {
            out.push(cs[i]);
        }
        proof {
            assert(out@ =~= old(out)@ + tag_of(h@.subrange(0, (i + 1) as int)));
        }
        i = i + 1;
    }
    proof {
        assert(h@.subrange(0, h@.len() as int) =~= h@);
    }
}

/// Renders the records as XML: one `record` element per record, one
/// element per present field, named by its header with spaces replaced,
/// with the value escaped.
pub fn export_xml(records: &Vec<DataRecord>) -> (r: Result<String, TextFsmError>)
    ensures
        r matches Ok(s) && exists|h: Seq<Seq<char>>|
            {
                &&& sorted_headers(h)
                &&& (forall|n: Seq<char>| #[trigger]
                    h.contains(n) <==> some_record_has(recs_view_of(records@), n))
                &&& s@ == xml_of(h, recs_view_of(records@))
            },
{
    let headers = get_headers(records);
    let ghost hv = strs_view_of(headers@);
    let ghost rv = recs_view_of(records@);
    proof {
        crate::record::lemma_strs_view_of(headers@);
        crate::machine::lemma_recs_view_of(records@);
    }
    let mut out = String::from_str("<results>\n");
    let mut rrr: usize = 0;
    while rrr < records.len()
        invariant
            rrr <= records@.len(),
            hv == strs_view_of(headers@),
            hv.len() == headers@.len(),
            forall|j: int| 0 <= j < headers@.len() ==> #[trigger] hv[j] == headers@[j]@,
            rv == recs_view_of(records@),
            rv.len() == records@.len(),
            forall|j: int| 0 <= j < records@.len() ==> #[trigger] rv[j] == records@[j]@,
            "<results>\n"@ + xml_records(hv, rv, 0) == out@ + xml_records(hv, rv, rrr as int),
        decreases records@.len() - rrr,
    {
        out.append("  <record>\n");
        let rec = &records[rrr];
        let ghost rf = rv[rrr as int].fields;
        let ghost row_start = out@;
        let mut c: usize = 0;
        while c < headers.len()
            invariant
                c <= headers@.len(),
                rrr < records@.len(),
                hv == strs_view_of(headers@),
                hv.len() == headers@.len(),
                forall|j: int| 0 <= j < headers@.len() ==> #[trigger] hv[j] == headers@[j]@,
                rv == recs_view_of(records@),
                rv.len() == records@.len(),
                forall|j: int| 0 <= j < records@.len() ==> #[trigger] rv[j] == records@[j]@,
                rf == rv[rrr as int].fields,
                rec == &records[rrr as int],
                row_start + xml_fields(hv, rf, 0) == out@ + xml_fields(hv, rf, c as int),
            decreases headers@.len() - c,
        {
            match rec.get(headers[c].as_str()) {
                Some(v) => {
                    out.append("    <");
                    append_tag(&mut out, headers[c].as_str());
                    out.append(">");
                    let t = v.to_string();
                    append_escaped_markup(&mut out, t.as_str());
                    out.append("</");
                    append_tag(&mut out, headers[c].as_str());
                    out.append(">\n");
                },
                None => {},
            }
            c = c + 1;
        }
        out.append("  </record>\n");
        rrr = rrr + 1;
    }
    out.append("</results>");
    proof {
        assert(out@ == xml_of(hv, rv));
    }
    Ok(out)
}

/// What the CSV writer produces for the given rows, or an error.  A
/// function of the rows alone.
pub uninterp spec fn csv_text(rows: Seq<Seq<Seq<char>>>) -> Result<Seq<char>, ()>;

/// Relies on `csv::Writer`: encodes the rows as comma-separated lines,
/// quoting fields as the format requires, a function of the rows alone.
#[verifier::external_body]
fn csv_encode(rows: &Vec<Vec<String>>) -> (r: Result<String, String>)
    ensures
        match r {
            Ok(s) => csv_text(rows.deep_view()) == Ok::<Seq<char>, ()>(s@),
            Err(_) => csv_text(rows.deep_view()) is Err,
        },
{
    let mut wtr = csv::Writer::from_writer(Vec::new());
    for row in rows {
        if let Err(e) = wtr.write_record(row) {
            return Err(format!("{}", e));
        }
    }
    match wtr.into_inner() {
        Ok(data) => String::from_utf8(data).map_err(|e| format!("{}", e)),
        Err(e) => Err(format!("{}", e)),
    }
}

/// The cells of one CSV row: the rendered value of each header, absent
/// ones empty.
pub open spec fn csv_cells(headers: Seq<Seq<char>>, fields: FieldsV, i: int) -> Seq<Seq<char>>
    decreases headers.len() - i,
{
    if i < 0 || i >= headers.len() {
        Seq::empty()
    } else {
        seq![cell_text(fields, headers[i])] + csv_cells(headers, fields, i + 1)
    }
}

/// The CSV rows of the records from `r` on.
pub open spec fn csv_data_rows(headers: Seq<Seq<char>>, recs: Seq<RecordV>, r: int) -> Seq<
    Seq<Seq<char>>,
>
    decreases recs.len() - r,
{
    if r < 0 || r >= recs.len() {
        Seq::empty()
    } else {
        seq![csv_cells(headers, recs[r].fields, 0)] + csv_data_rows(headers, recs, r + 1)
    }
}

/// Renders the records as CSV: the sorted headers first, then one row
/// per record with absent values empty.
pub fn export_csv(records: &Vec<DataRecord>) -> (r: Result<String, TextFsmError>)
    ensures
        exists|h: Seq<Seq<char>>|
            {
                &&& sorted_headers(h)
                &&& (forall|n: Seq<char>| #[trigger]
                    h.contains(n) <==> some_record_has(recs_view_of(records@), n))
                &&& (match csv_text(
                    seq![h] + csv_data_rows(h, recs_view_of(records@), 0),
                ) {
                    Ok(t) => r matches Ok(s) && s@ == t,
                    Err(_) => r matches Err(e) && e@ is InternalError,
                })
            },
{
    let headers = get_headers(records);
    let ghost hv = strs_view_of(headers@);
    let ghost rv = recs_view_of(records@);
    proof {
        crate::record::lemma_strs_view_of(headers@);
        crate::machine::lemma_recs_view_of(records@);
    }
    let mut rows: Vec<Vec<String>> = Vec::new();
    let mut hrow: Vec<String> = Vec::new();
    let mut i: usize = 0;
    while i < headers.len()
        invariant
            i <= headers@.len(),
            hv == strs_view_of(headers@),
            hv.len() == headers@.len(),
            forall|j: int| 0 <= j < headers@.len() ==> #[trigger] hv[j] == headers@[j]@,
            hrow@.len() == i,
            forall|j: int| 0 <= j < i ==> (#[trigger] hrow@[j])@ == hv[j],
        decreases headers@.len() - i,
    {
        let ghost pre = hrow@;
        hrow.push(headers[i].clone());
        i = i + 1;
        proof {
            assert forall|j: int| 0 <= j < i implies (#[trigger] hrow@[j])@ == hv[j] by {
                if j < i - 1 {
                    assert(hrow@[j] == pre[j]);
                }
            }
        }
    }
    proof {
        assert(hrow.deep_view() =~~= hv) by {
            assert(forall|j: int| 0 <= j < hrow@.len() ==> #[trigger] hrow.deep_view()[j]
                == hrow@[j]@);
        }
    }
    rows.push(hrow);
    let mut rrr: usize = 0;
    while rrr < records.len()
        invariant
            rrr <= records@.len(),
            hv == strs_view_of(headers@),
            hv.len() == headers@.len(),
            forall|j: int| 0 <= j < headers@.len() ==> #[trigger] hv[j] == headers@[j]@,
            rv == recs_view_of(records@),
            rv.len() == records@.len(),
            forall|j: int| 0 <= j < records@.len() ==> #[trigger] rv[j] == records@[j]@,
            rows@.len() == rrr + 1,
            rows@[0].deep_view() == hv,
            forall|j: int| 0 <= j < rrr ==> (#[trigger] rows@[j + 1]).deep_view() == csv_cells(
                hv,
                rv[j].fields,
                0,
            ),
        decreases records@.len() - rrr,
    {
        let rec = &records[rrr];
        let ghost rf = rv[rrr as int].fields;
        let mut row: Vec<String> = Vec::new();
        let mut c: usize = 0;
        while c < headers.len()
            invariant
                c <= headers@.len(),
                rrr < records@.len(),
                hv == strs_view_of(headers@),
                hv.len() == headers@.len(),
                forall|j: int| 0 <= j < headers@.len() ==> #[trigger] hv[j] == headers@[j]@,
                rv == recs_view_of(records@),
                rv.len() == records@.len(),
                forall|j: int| 0 <= j < records@.len() ==> #[trigger] rv[j] == records@[j]@,
                rf == rv[rrr as int].fields,
                rec == &records[rrr as int],
                row@.len() == c,
                forall|j: int| 0 <= j < c ==> (#[trigger] row@[j])@ == cell_text(rf, hv[j]),
            decreases headers@.len() - c,
        {
            let ghost prerow = row@;
            match rec.get(headers[c].as_str()) {
                Some(v) => {
                    row.push(v.to_string());
                },
                None => {
                    row.push(String::new());
                },
            }
            c = c + 1;
            proof {
                assert forall|j: int| 0 <= j < c implies (#[trigger] row@[j])@ == cell_text(
                    rf,
                    hv[j],
                ) by {
                    if j < c - 1 {
                        assert(row@[j] == prerow[j]);
                    }
                }
            }
        }
        let ghost prerows = rows@;
        rows.push(row);
        rrr = rrr + 1;
        proof {
            assert(rows@[rrr as int].deep_view() =~~= csv_cells(hv, rf, 0)) by {
                lemma_csv_cells_len(hv, rf, 0);
                assert(forall|j: int| 0 <= j < rows@[rrr as int]@.len() ==> #[trigger] rows@[
                    rrr as int].deep_view()[j] == rows@[rrr as int]@[j]@);
                assert forall|j: int| 0 <= j < hv.len() implies csv_cells(hv, rf, 0)[j]
                    == cell_text(rf, hv[j]) by {
                    lemma_csv_cells_index(hv, rf, 0, j);
                }
            }
            assert forall|j: int| 0 <= j < rrr implies (#[trigger] rows@[j + 1]).deep_view()
                == csv_cells(hv, rv[j].fields, 0) by {
                if j < rrr - 1 {
                    assert(rows@[j + 1] == prerows[j + 1]);
                }
            }
            assert(rows@[0] == prerows[0]);
        }
    }
    proof {
        assert(rows.deep_view() =~~= seq![hv] + csv_data_rows(hv, rv, 0)) by {
            assert(forall|j: int| 0 <= j < rows@.len() ==> #[trigger] rows.deep_view()[j]
                == rows@[j].deep_view());
            assert(csv_data_rows(hv, rv, 0).len() == rv.len()) by {
                lemma_csv_rows_len(hv, rv, 0);
            }
            assert forall|j: int| 0 <= j < rv.len() implies csv_data_rows(hv, rv, 0)[j]
                == csv_cells(hv, rv[j].fields, 0) by {
                lemma_csv_rows_index(hv, rv, 0, j);
            }
            assert forall|j: int| 0 <= j < rows@.len() implies #[trigger] rows.deep_view()[j]
                == (seq![hv] + csv_data_rows(hv, rv, 0))[j] by {
                assert(rows.deep_view()[j] == rows@[j].deep_view());
                if j == 0 {
                } else {
                    let jj = j - 1;
                    assert(rows@[jj + 1].deep_view() == csv_cells(hv, rv[jj].fields, 0));
                    assert((seq![hv] + csv_data_rows(hv, rv, 0))[j] == csv_data_rows(
                        hv,
                        rv,
                        0,
                    )[j - 1]);
                }
            }
            assert(rows.deep_view().len() == rows@.len());
        }
    }
    match csv_encode(&rows) {
        Ok(s) => Ok(s),
        Err(m) => Err(TextFsmError::InternalError(m)),
    }
}

/// The cells cover one entry per header.
proof fn lemma_csv_cells_len(headers: Seq<Seq<char>>, fields: FieldsV, i: int)
    requires
        0 <= i <= headers.len(),
    ensures
        csv_cells(headers, fields, i).len() == headers.len() - i,
    decreases headers.len() - i,
{
    if i < headers.len() {
        lemma_csv_cells_len(headers, fields, i + 1);
    }
}

/// Each cell is the rendered value of its header.
proof fn lemma_csv_cells_index(headers: Seq<Seq<char>>, fields: FieldsV, i: int, j: int)
    requires
        0 <= i <= headers.len(),
        i <= j < headers.len(),
    ensures
        csv_cells(headers, fields, i).len() == headers.len() - i,
        csv_cells(headers, fields, i)[j - i] == cell_text(fields, headers[j]),
    decreases headers.len() - i,
{
    lemma_csv_cells_len(headers, fields, i);
    if i < headers.len() && j > i {
        lemma_csv_cells_index(headers, fields, i + 1, j);
    }
}

/// The CSV rows cover one entry per record.
proof fn lemma_csv_rows_len(headers: Seq<Seq<char>>, recs: Seq<RecordV>, r: int)
    requires
        0 <= r <= recs.len(),
    ensures
        csv_data_rows(headers, recs, r).len() == recs.len() - r,
    decreases recs.len() - r,
{
    if r < recs.len() {
        lemma_csv_rows_len(headers, recs, r + 1);
    }
}

/// Each CSV row is the cells of its record.
proof fn lemma_csv_rows_index(headers: Seq<Seq<char>>, recs: Seq<RecordV>, r: int, j: int)
    requires
        0 <= r <= recs.len(),
        r <= j < recs.len(),
    ensures
        csv_data_rows(headers, recs, r).len() == recs.len() - r,
        csv_data_rows(headers, recs, r)[j - r] == csv_cells(headers, recs[j].fields, 0),
    decreases recs.len() - r,
{
    lemma_csv_rows_len(headers, recs, r);
    if r < recs.len() && j > r {
        lemma_csv_rows_index(headers, recs, r + 1, j);
    }
}

/// Whether `c` is whitespace in the sense of line trimming: space, tab,
/// newline or carriage return.
pub open spec fn is_rws(c: char) -> bool {
    c == ' ' || c == '\t' || c == '\n' || c == '\r'
}

/// The position before `n` after which only trim whitespace stands.
pub open spec fn rtrim_at(s: Seq<char>, n: int) -> int
    decreases n,
{
    if n <= 0 || n > s.len() {
        0
    } else if is_rws(s[n - 1]) {
        rtrim_at(s, n - 1)
    } else {
        n
    }
}

/// Where `rtrim_at` lands.
pub proof fn lemma_rtrim_at(s: Seq<char>, n: int)
    requires
        0 <= n <= s.len(),
    ensures
        0 <= rtrim_at(s, n) <= n,
        forall|j: int| rtrim_at(s, n) <= j < n ==> is_rws(s[j]),
        rtrim_at(s, n) > 0 ==> !is_rws(s[rtrim_at(s, n) - 1]),
    decreases n,
{
    if n > 0 && is_rws(s[n - 1]) {
        lemma_rtrim_at(s, n - 1);
    }
}

/// A text with its trailing whitespace dropped.
pub open spec fn rtrimmed(s: Seq<char>) -> Seq<char> {
    s.subrange(0, rtrim_at(s, s.len() as int))
}

/// The rendered length of the field named `h`, or nothing to count when
/// absent.
pub open spec fn cell_len(fields: FieldsV, h: Seq<char>) -> int {
    match find_field(fields, h) {
        Some(v) => value_text(v).len() as int,
        None => -1,
    }
}

/// The column width of header `h`: the longest of the header itself and
/// every present rendered value, folded from `r` on over `acc`.
pub open spec fn col_width_from(h: Seq<char>, recs: Seq<RecordV>, r: int, acc: int) -> int
    decreases recs.len() - r,
{
    if r < 0 || r >= recs.len() {
        acc
    } else {
        col_width_from(
            h,
            recs,
            r + 1,
            if cell_len(recs[r].fields, h) > acc {
                cell_len(recs[r].fields, h)
            } else {
                acc
            },
        )
    }
}

/// The column width of header `h` over all records.
pub open spec fn col_width(h: Seq<char>, recs: Seq<RecordV>) -> int {
    col_width_from(h, recs, 0, h.len() as int)
}

/// `n` spaces.
pub open spec fn spaces(n: int) -> Seq<char>
    decreases n,
{
    if n <= 0 {
        Seq::empty()
    } else {
        spaces(n - 1) + seq![' ']
    }
}

/// `n` dashes.
pub open spec fn dashes(n: int) -> Seq<char>
    decreases n,
{
    if n <= 0 {
        Seq::empty()
    } else {
        dashes(n - 1) + seq!['-']
    }
}

/// A cell padded to its column width, with the two separating spaces.
pub open spec fn padded(s: Seq<char>, w: int) -> Seq<char> {
    s + spaces(w - s.len()) + "  "@
}

/// The header cells of the text table, from `i` on.
pub open spec fn text_header_cells(headers: Seq<Seq<char>>, recs: Seq<RecordV>, i: int) -> Seq<
    char,
>
    decreases headers.len() - i,
{
    if i < 0 || i >= headers.len() {
        Seq::empty()
    } else {
        padded(headers[i], col_width(headers[i], recs)) + text_header_cells(headers, recs, i + 1)
    }
}

/// The separator cells of the text table, from `i` on.
pub open spec fn text_sep_cells(headers: Seq<Seq<char>>, recs: Seq<RecordV>, i: int) -> Seq<char>
    decreases headers.len() - i,
{
    if i < 0 || i >= headers.len() {
        Seq::empty()
    } else {
        padded(dashes(col_width(headers[i], recs)), col_width(headers[i], recs)) + text_sep_cells(
            headers,
            recs,
            i + 1,
        )
    }
}

/// The data cells of one text row, from `i` on; absent values render
/// empty.
pub open spec fn text_row_cells(
    headers: Seq<Seq<char>>,
    recs: Seq<RecordV>,
    fields: FieldsV,
    i: int,
) -> Seq<char>
    decreases headers.len() - i,
{
    if i < 0 || i >= headers.len() {
        Seq::empty()
    } else {
        padded(cell_text(fields, headers[i]), col_width(headers[i], recs)) + text_row_cells(
            headers,
            recs,
            fields,
            i + 1,
        )
    }
}

/// The text table rows folded over the accumulated output: after each
/// row the whole text is trimmed of trailing whitespace before the
/// newline, as the line writer leaves it.
pub open spec fn text_rows_fold(
    headers: Seq<Seq<char>>,
    recs: Seq<RecordV>,
    acc: Seq<char>,
    r: int,
) -> Seq<char>
    decreases recs.len() - r,
{
    if r < 0 || r >= recs.len() {
        acc
    } else {
        text_rows_fold(
            headers,
            recs,
            rtrimmed(acc + text_row_cells(headers, recs, recs[r].fields, 0)) + "\n"@,
            r + 1,
        )
    }
}

/// A whole text table over the sorted headers: the header line, a dash
/// line, then one line per record, each trimmed at its end.
pub open spec fn text_of(headers: Seq<Seq<char>>, recs: Seq<RecordV>) -> Seq<char> {
    if headers.len() == 0 {
        Seq::empty()
    } else {
        let a1 = rtrimmed(text_header_cells(headers, recs, 0)) + "\n"@;
        let a2 = rtrimmed(a1 + text_sep_cells(headers, recs, 0)) + "\n"@;
        text_rows_fold(headers, recs, a2, 0)
    }
}

/// Appends the characters of `s` to `out`.
fn push_chars(out: &mut Vec<char>, s: &str)
    ensures
        final(out)@ == old(out)@ + s@,
{
    let cs = crate::text::str_chars(s);
    let mut i: usize = 0;
    while i < cs.len()
        invariant
            i <= cs@.len(),
            cs@ == s@,
            out@ == old(out)@ + s@.subrange(0, i as int),
        decreases cs@.len() - i,
    {
        out.push(cs[i]);
        i = i + 1;
        proof {
            assert(out@ =~= old(out)@ + s@.subrange(0, i as int));
        }
    }
    proof {
        assert(s@.subrange(0, s@.len() as int) =~= s@);
    }
}

/// Appends a cell padded to width `w` and the two separating spaces.
fn push_padded(out: &mut Vec<char>, s: &str, w: usize)
    ensures
        final(out)@ == old(out)@ + padded(s@, w as int),
{
    push_chars(out, s);
    let n = s.unicode_len();
    let mut k: usize = n;
    while k < w
        invariant
            out@ == old(out)@ + s@ + spaces(k - s@.len()),
            s@.len() == n,
            n <= k,
            k <= w || k == n,
        decreases w - k,
    {
        out.push(' ');
        k = k + 1;
        proof {
            assert(out@ =~= old(out)@ + s@ + spaces(k - s@.len()));
        }
    }
    out.push(' ');
    out.push(' ');
    proof {
        assert(out@ =~= old(out)@ + padded(s@, w as int)) by {
            assert("  "@ =~= seq![' ', ' ']) by {
                reveal_strlit("  ");
            }
            if s@.len() >= w as int {
                assert(spaces(k - s@.len()) =~= Seq::<char>::empty());
                assert(spaces(w as int - s@.len()) =~= Seq::<char>::empty());
            } else {
                assert(k == w);
            }
        }
    }
}

/// Trims the trailing whitespace off the accumulated output.
fn rtrim(out: &mut Vec<char>)
    ensures
        final(out)@ == rtrimmed(old(out)@),
{
    let mut n: usize = out.len();
    while n > 0 && (out[n - 1] == ' ' || out[n - 1] == '\t' || out[n - 1] == '\n' || out[n - 1]
        == '\r')
        invariant
            n <= out@.len(),
            out@ == old(out)@,
            forall|j: int| n <= j < out@.len() ==> is_rws(out@[j]),
        decreases n,
    {
        n = n - 1;
    }
    proof {
        lemma_rtrim_at(out@, out@.len() as int);
        assert(rtrim_at(out@, out@.len() as int) == n as int);
    }
    out.truncate(n);
}

/// Renders the records as a plain text table: one column per field name
/// over all records, sorted, each as wide as its longest value; every
/// line is trimmed at its end.
pub fn export_text(records: &Vec<DataRecord>) -> (r: Result<String, TextFsmError>)
    ensures
        r matches Ok(s) && exists|h: Seq<Seq<char>>|
            {
                &&& sorted_headers(h)
                &&& (forall|n: Seq<char>| #[trigger]
                    h.contains(n) <==> some_record_has(recs_view_of(records@), n))
                &&& s@ == text_of(h, recs_view_of(records@))
            },
{
    let headers = get_headers(records);
    let ghost hv = strs_view_of(headers@);
    let ghost rv = recs_view_of(records@);
    proof {
        crate::record::lemma_strs_view_of(headers@);
        crate::machine::lemma_recs_view_of(records@);
    }
    if headers.len() == 0 {
        return Ok(String::new());
    }
    // the column widths
    let mut widths: Vec<usize> = Vec::new();
    let mut i: usize = 0;
    while i < headers.len()
        invariant
            i <= headers@.len(),
            hv == strs_view_of(headers@),
            hv.len() == headers@.len(),
            forall|j: int| 0 <= j < headers@.len() ==> #[trigger] hv[j] == headers@[j]@,
            rv == recs_view_of(records@),
            rv.len() == records@.len(),
            forall|j: int| 0 <= j < records@.len() ==> #[trigger] rv[j] == records@[j]@,
            widths@.len() == i,
            forall|j: int| 0 <= j < i ==> #[trigger] widths@[j] as int == col_width(hv[j], rv),
        decreases headers@.len() - i,
    {
        let mut w: usize = headers[i].as_str().unicode_len();
        let mut r2: usize = 0;
        while r2 < records.len()
            invariant
                r2 <= records@.len(),
                i < headers@.len(),
                hv == strs_view_of(headers@),
                hv.len() == headers@.len(),
                forall|j: int| 0 <= j < headers@.len() ==> #[trigger] hv[j] == headers@[j]@,
                rv == recs_view_of(records@),
                rv.len() == records@.len(),
                forall|j: int| 0 <= j < records@.len() ==> #[trigger] rv[j] == records@[j]@,
                col_width(hv[i as int], rv) == col_width_from(hv[i as int], rv, r2 as int,
                    w as int),
            decreases records@.len() - r2,
        {
            match records[r2].get(headers[i].as_str()) {
                Some(v) => {
                    let t = v.to_string();
                    let l = t.as_str().unicode_len();
                    if l > w {
                        w = l;
                    }
                },
                None => {},
            }
            r2 = r2 + 1;
        }
        widths.push(w);
        i = i + 1;
    }
    let mut out: Vec<char> = Vec::new();
    // the header line
    let mut c: usize = 0;
    while c < headers.len()
        invariant
            c <= headers@.len(),
            hv == strs_view_of(headers@),
            hv.len() == headers@.len(),
            forall|j: int| 0 <= j < headers@.len() ==> #[trigger] hv[j] == headers@[j]@,
            rv == recs_view_of(records@),
            widths@.len() == headers@.len(),
            forall|j: int| 0 <= j < headers@.len() ==> #[trigger] widths@[j] as int == col_width(
                hv[j],
                rv,
            ),
            text_header_cells(hv, rv, 0) == out@ + text_header_cells(hv, rv, c as int),
        decreases headers@.len() - c,
    {
        push_padded(&mut out, headers[c].as_str(), widths[c]);
        c = c + 1;
    }
    rtrim(&mut out);
    out.push('\n');
    let ghost a1 = rtrimmed(text_header_cells(hv, rv, 0)) + "\n"@;
    proof {
        assert(out@ =~= a1) by {
            assert("\n"@ =~= seq!['\n']) by {
                reveal_strlit("\n");
            }
        }
    }
    // the separator line
    let mut c: usize = 0;
    let ghost sep_start = out@;
    while c < headers.len()
        invariant
            c <= headers@.len(),
            hv == strs_view_of(headers@),
            hv.len() == headers@.len(),
            forall|j: int| 0 <= j < headers@.len() ==> #[trigger] hv[j] == headers@[j]@,
            rv == recs_view_of(records@),
            widths@.len() == headers@.len(),
            forall|j: int| 0 <= j < headers@.len() ==> #[trigger] widths@[j] as int == col_width(
                hv[j],
                rv,
            ),
            sep_start + text_sep_cells(hv, rv, 0) == out@ + text_sep_cells(hv, rv, c as int),
        decreases headers@.len() - c,
    {
        let w = widths[c];
        let ghost pre = out@;
        let mut d: usize = 0;
        while d < w
            invariant
                d <= w,
                out@ == pre + dashes(d as int),
            decreases w - d,
        {
            out.push('-');
            d = d + 1;
            proof {
                assert(out@ =~= pre + dashes(d as int));
            }
        }
        proof {
            lemma_dashes_len(w as int);
        }
        out.push(' ');
        out.push(' ');
        proof {
            assert(out@ =~= pre + padded(dashes(w as int), w as int)) by {
                assert(spaces(w - dashes(w as int).len()) =~= Seq::<char>::empty());
                assert("  "@ =~= seq![' ', ' ']) by {
                    reveal_strlit("  ");
                }
            }
        }
        c = c + 1;
    }
    rtrim(&mut out);
    out.push('\n');
    let ghost a2 = rtrimmed(a1 + text_sep_cells(hv, rv, 0)) + "\n"@;
    proof {
        assert(out@ =~= a2) by {
            assert("\n"@ =~= seq!['\n']) by {
                reveal_strlit("\n");
            }
        }
    }
    // the rows
    let mut rr: usize = 0;
    while rr < records.len()
        invariant
            rr <= records@.len(),
            hv == strs_view_of(headers@),
            hv.len() == headers@.len(),
            forall|j: int| 0 <= j < headers@.len() ==> #[trigger] hv[j] == headers@[j]@,
            rv == recs_view_of(records@),
            rv.len() == records@.len(),
            forall|j: int| 0 <= j < records@.len() ==> #[trigger] rv[j] == records@[j]@,
            widths@.len() == headers@.len(),
            forall|j: int| 0 <= j < headers@.len() ==> #[trigger] widths@[j] as int == col_width(
                hv[j],
                rv,
            ),
            text_rows_fold(hv, rv, a2, 0) == text_rows_fold(hv, rv, out@, rr as int),
        decreases records@.len() - rr,
    {
        let rec = &records[rr];
        let ghost rf = rv[rr as int].fields;
        let ghost row_start = out@;
        let mut c: usize = 0;
        while c < headers.len()
            invariant
                c <= headers@.len(),
                rr < records@.len(),
                hv == strs_view_of(headers@),
                hv.len() == headers@.len(),
                forall|j: int| 0 <= j < headers@.len() ==> #[trigger] hv[j] == headers@[j]@,
                rv == recs_view_of(records@),
                rv.len() == records@.len(),
                forall|j: int| 0 <= j < records@.len() ==> #[trigger] rv[j] == records@[j]@,
                rf == rv[rr as int].fields,
                rec == &records[rr as int],
                widths@.len() == headers@.len(),
                forall|j: int| 0 <= j < headers@.len() ==> #[trigger] widths@[j] as int
                    == col_width(hv[j], rv),
                row_start + text_row_cells(hv, rv, rf, 0) == out@ + text_row_cells(
                    hv,
                    rv,
                    rf,
                    c as int,
                ),
            decreases headers@.len() - c,
        {
            match rec.get(headers[c].as_str()) {
                Some(v) => {
                    let t = v.to_string();
                    push_padded(&mut out, t.as_str(), widths[c]);
                },
                None => {
                    let e = String::new();
                    push_padded(&mut out, e.as_str(), widths[c]);
                },
            }
            c = c + 1;
        }
        rtrim(&mut out);
        out.push('\n');
        rr = rr + 1;
        proof {
            assert(out@ =~= rtrimmed(row_start + text_row_cells(hv, rv, rf, 0)) + "\n"@) by {
                assert("\n"@ =~= seq!['\n']) by {
                    reveal_strlit("\n");
                }
            }
        }
    }
    proof {
        assert(out@ == text_of(hv, rv));
    }
    Ok(crate::text::chars_string(out.as_slice()))
}

/// `dashes(n)` has `n` characters.
proof fn lemma_dashes_len(n: int)
    ensures
        n >= 0 ==> dashes(n).len() == n,
        n < 0 ==> dashes(n).len() == 0,
    decreases n,
{
    if n > 0 {
        lemma_dashes_len(n - 1);
    }
}

} // verus!
