//! What the `validate` subcommand finds in a mapping file, and the report
//! it prints.
use vstd::prelude::*;
use crate::diff::mapping::DiffSummary;
use crate::mapping::merge::MergeReport;
use crate::mapping::types::{EndpointMapping, MappingFile, SchemaMapping, mapped_count, lemma_mapped_count_bound};
use crate::proxy::handler::first_space_split;
use crate::text::{owned, append_str, push_char, views};

verus! {

/// The decimal digits of a number.
pub open spec fn decimal_text(n: nat) -> Seq<char>
    decreases n,
{
    if n < 10 {
        seq![digit_char(n)]
    } else {
        decimal_text(n / 10).push(digit_char(n % 10))
    }
}

pub open spec fn digit_char(d: nat) -> char {
    if d == 0 { '0' } else if d == 1 { '1' } else if d == 2 { '2' } else if d == 3 { '3' } else if d == 4 { '4' }
    else if d == 5 { '5' } else if d == 6 { '6' } else if d == 7 { '7' } else if d == 8 { '8' } else { '9' }
}

fn digit(d: usize) -> (c: char)
    requires
        d < 10,
    ensures
        c == digit_char(d as nat),
{
    if d == 0 { '0' } else if d == 1 { '1' } else if d == 2 { '2' } else if d == 3 { '3' } else if d == 4 { '4' }
    else if d == 5 { '5' } else if d == 6 { '6' } else if d == 7 { '7' } else if d == 8 { '8' } else { '9' }
}

/// Appends the decimal digits of `n` (what `{}` prints for an integer).
pub fn push_decimal(s: &mut String, n: usize)
    ensures
        final(s)@ == old(s)@ + decimal_text(n as nat),
    decreases n,
{
    if n < 10 {
        push_char(s, digit(n));
    } else {
        push_decimal(s, n / 10);
        push_char(s, digit(n % 10));
        assert(decimal_text(n as nat) == decimal_text((n / 10) as nat).push(digit_char((n % 10) as nat)));
    }
}

/// Whether a mapping file names a schema map (`schema_by_name` finds one).
pub open spec fn has_schema(schemas: Seq<SchemaMapping>, name: Seq<char>) -> bool {
    exists|i: int| 0 <= i < schemas.len() && #[trigger] schemas[i].name@ == name
}

/// The warnings of one entry.
pub open spec fn entry_warnings(e: EndpointMapping) -> Seq<Seq<char>> {
    if e.target@.len() == 0 {
        seq![e.source@ + ": no target configured"@]
    } else if e.response.type_conflicts@.len() > 0 || e.request.type_conflicts@.len() > 0 {
        seq![e.source@ + ": has unresolved type conflicts, needs review"@]
    } else {
        Seq::empty()
    }
}

/// The errors of one entry's nested references, the first `n`.
pub open spec fn nested_errors(e: EndpointMapping, schemas: Seq<SchemaMapping>, n: int) -> Seq<Seq<char>>
    decreases n,
{
    if n <= 0 {
        Seq::empty()
    } else {
        let prev = nested_errors(e, schemas, n - 1);
        let name = e.response.nested@[n - 1].schema_map@;
        if has_schema(schemas, name) {
            prev
        } else {
            prev.push(e.source@ + ": response.nested references unknown schema '"@ + name + "'"@)
        }
    }
}

/// The errors of one entry: a target that is not `METHOD /path`, and
/// nested references to unknown schemas (an entry without a target has
/// none).
pub open spec fn entry_errors(e: EndpointMapping, schemas: Seq<SchemaMapping>) -> Seq<Seq<char>> {
    if e.target@.len() == 0 {
        Seq::empty()
    } else {
        let target_error = if first_space_split(e.target@) is None {
            seq![e.source@ + ": target '"@ + e.target@ + "' is not a valid 'METHOD /path'"@]
        } else {
            Seq::empty()
        };
        target_error + nested_errors(e, schemas, e.response.nested@.len() as int)
    }
}

/// All warnings of the first `n` entries, in order.
pub open spec fn warnings_upto(eps: Seq<EndpointMapping>, n: int) -> Seq<Seq<char>>
    decreases n,
{
    if n <= 0 {
        Seq::empty()
    } else {
        warnings_upto(eps, n - 1) + entry_warnings(eps[n - 1])
    }
}

/// All errors of the first `n` entries, in order.
pub open spec fn errors_upto(eps: Seq<EndpointMapping>, schemas: Seq<SchemaMapping>, n: int) -> Seq<Seq<char>>
    decreases n,
{
    if n <= 0 {
        Seq::empty()
    } else {
        errors_upto(eps, schemas, n - 1) + entry_errors(eps[n - 1], schemas)
    }
}

/// What `validate` finds.
pub struct ValidationReport {
    pub mapped: usize,
    pub total: usize,
    pub schemas: usize,
    pub warnings: Vec<String>,
    pub errors: Vec<String>,
}

fn has_schema_named(schemas: &Vec<SchemaMapping>, name: &String) -> (b: bool)
    ensures
        b == has_schema(schemas@, name@),
{
    let mut i: usize = 0;
    while i < schemas.len()
        invariant
            i <= schemas@.len(),
            forall|j: int| 0 <= j < i ==> #[trigger] schemas@[j].name@ != name@,
        decreases schemas@.len() - i,
    {
        if crate::text::str_eq(schemas[i].name.as_str(), name.as_str()) {
            return true;
        }
        i += 1;
    }
    false
}

fn message(source: &String, rest: &str) -> (r: String)
    ensures
        r@ == source@ + rest@,
{
    let mut m = owned(source.as_str());
    append_str(&mut m, rest);
    m
}

fn check_entry(e: &EndpointMapping, schemas: &Vec<SchemaMapping>, warnings: &mut Vec<String>, errors: &mut Vec<String>)
    ensures
        views(final(warnings)@) == views(old(warnings)@) + entry_warnings(*e),
        views(final(errors)@) == views(old(errors)@) + entry_errors(*e, schemas@),
{
    let ghost w0 = views(warnings@);
    let ghost e0 = views(errors@);
    if e.target.as_str().is_empty() {
        warnings.push(message(&e.source, ": no target configured"));
        assert(views(warnings@) =~= w0 + entry_warnings(*e));
        assert(views(errors@) =~= e0 + entry_errors(*e, schemas@));
        return;
    }
    assert(e.target@.len() > 0);
    match EndpointMapping::method_and_path(e.target.as_str()) {
        Some(_) => {
            proof {
                assert(e.target@.contains(' '));
                let j = choose|j: int| 0 <= j < e.target@.len() && e.target@[j] == ' ';
                lemma_has_space(e.target@, 0, j);
            }
        },
        None => {
            let mut m = message(&e.source, ": target '");
            append_str(&mut m, e.target.as_str());
            append_str(&mut m, "' is not a valid 'METHOD /path'");
            errors.push(m);
            proof {
                lemma_no_space_index(e.target@, 0);
            }
        },
    }
    let ghost e1 = views(errors@);
    assert(e1 == e0 + (if first_space_split(e.target@) is None {
            seq![e.source@ + ": target '"@ + e.target@ + "' is not a valid 'METHOD /path'"@]
        } else {
            Seq::<Seq<char>>::empty()
        }));
    if !e.response.type_conflicts.is_empty() || !e.request.type_conflicts.is_empty() {
        warnings.push(message(&e.source, ": has unresolved type conflicts, needs review"));
    }
    assert(views(warnings@) =~= w0 + entry_warnings(*e));
    let mut i: usize = 0;
    while i < e.response.nested.len()
        invariant
            i <= e.response.nested@.len(),
            views(errors@) == e1 + nested_errors(*e, schemas@, i as int),
        decreases e.response.nested@.len() - i,
    {
        let n = &e.response.nested[i];
        if !has_schema_named(schemas, &n.schema_map) {
            let ghost before = views(errors@);
            let mut m = message(&e.source, ": response.nested references unknown schema '");
            append_str(&mut m, n.schema_map.as_str());
            push_char(&mut m, '\'');
            proof {
                reveal_strlit("'");
                assert(seq!['\''] =~= "'"@);
            }
            assert(m@ =~= e.source@ + ": response.nested references unknown schema '"@ + n.schema_map@ + "'"@);
            errors.push(m);
            assert(views(errors@) =~= before.push(e.source@ + ": response.nested references unknown schema '"@ + n.schema_map@ + "'"@));
        }
        i += 1;
    }
    assert(views(errors@) =~= e0 + entry_errors(*e, schemas@));
}

proof fn lemma_has_space(s: Seq<char>, from: int, j: int)
    requires
        0 <= from <= j < s.len(),
        s[j] == ' ',
    ensures
        crate::proxy::pagination::index_of(s, ' ', from) is Some,
    decreases j - from,
{
    if s[from] != ' ' {
        lemma_has_space(s, from + 1, j);
    }
}

proof fn lemma_no_space_index(s: Seq<char>, from: int)
    requires
        !s.contains(' '),
        0 <= from,
    ensures
        crate::proxy::pagination::index_of(s, ' ', from) is None,
    decreases s.len() - from,
{
    if from < s.len() {
        assert(s[from] != ' ');
        lemma_no_space_index(s, from + 1);
    }
}

/// Check a mapping file for errors, warnings, and coverage stats.
pub fn validate_mapping(mf: &MappingFile) -> (r: ValidationReport)
    ensures
        r.mapped == mapped_count(mf.endpoints@),
        r.total == mf.endpoints@.len(),
        r.schemas == mf.schemas@.len(),
        views(r.warnings@) == warnings_upto(mf.endpoints@, mf.endpoints@.len() as int),
        views(r.errors@) == errors_upto(mf.endpoints@, mf.schemas@, mf.endpoints@.len() as int),
{
    let (mapped, total) = mf.coverage();
    let mut warnings: Vec<String> = Vec::new();
    let mut errors: Vec<String> = Vec::new();
    let mut i: usize = 0;
    assert(views(warnings@) =~= warnings_upto(mf.endpoints@, 0));
    assert(views(errors@) =~= errors_upto(mf.endpoints@, mf.schemas@, 0));
    while i < mf.endpoints.len()
        invariant
            i <= mf.endpoints@.len(),
            views(warnings@) == warnings_upto(mf.endpoints@, i as int),
            views(errors@) == errors_upto(mf.endpoints@, mf.schemas@, i as int),
        decreases mf.endpoints@.len() - i,
    {
        check_entry(&mf.endpoints[i], &mf.schemas, &mut warnings, &mut errors);
        i += 1;
    }
    ValidationReport { mapped, total, schemas: mf.schemas.len(), warnings, errors }
}

/// The percentage of entries mapped, rounded down (0 for an empty file).
pub open spec fn percent(mapped: nat, total: nat) -> nat {
    if total == 0 {
        0
    } else {
        (mapped * 100) / total
    }
}

pub open spec fn error_lines(es: Seq<Seq<char>>) -> Seq<Seq<char>> {
    es.map_values(|e: Seq<char>| "ERROR: "@ + e)
}

pub open spec fn warn_lines(ws: Seq<Seq<char>>) -> Seq<Seq<char>> {
    ws.map_values(|w: Seq<char>| "WARN:  "@ + w)
}

/// The lines `validate` prints for a report.
pub open spec fn report_text(r: ValidationReport) -> Seq<Seq<char>> {
    let head = seq![
        "Coverage: "@ + decimal_text(r.mapped as nat) + seq!['/'] + decimal_text(r.total as nat)
            + " endpoints mapped ("@ + decimal_text(percent(r.mapped as nat, r.total as nat)) + "%)"@,
        "Schemas defined: "@ + decimal_text(r.schemas as nat),
        Seq::<char>::empty(),
    ];
    if r.errors@.len() == 0 && r.warnings@.len() == 0 {
        head.push("No errors or warnings."@)
    } else {
        head + error_lines(views(r.errors@)) + warn_lines(views(r.warnings@))
    }
}

fn prefixed(lead: &str, s: &String) -> (r: String)
    ensures
        r@ == lead@ + s@,
{
    let mut r = owned(lead);
    append_str(&mut r, s.as_str());
    r
}

/// The lines `validate` prints.
pub fn report_lines(r: &ValidationReport) -> (lines: Vec<String>)
    requires
        r.mapped * 100 <= usize::MAX,
    ensures
        views(lines@) == report_text(*r),
{
    let pct: usize = if r.total == 0 { 0 } else { r.mapped * 100 / r.total };
    let mut cov = owned("Coverage: ");
    push_decimal(&mut cov, r.mapped);
    push_char(&mut cov, '/');
    push_decimal(&mut cov, r.total);
    append_str(&mut cov, " endpoints mapped (");
    push_decimal(&mut cov, pct);
    append_str(&mut cov, "%)");
    assert(cov@ =~= "Coverage: "@ + decimal_text(r.mapped as nat) + seq!['/'] + decimal_text(r.total as nat)
            + " endpoints mapped ("@ + decimal_text(percent(r.mapped as nat, r.total as nat)) + "%)"@);
    let mut sch = owned("Schemas defined: ");
    push_decimal(&mut sch, r.schemas);
    let mut lines: Vec<String> = Vec::new();
    lines.push(cov);
    lines.push(sch);
    lines.push(String::new());
    let ghost head = views(lines@);
    if r.errors.len() == 0 && r.warnings.len() == 0 {
        lines.push(owned("No errors or warnings."));
        assert(views(lines@) =~= report_text(*r));
        return lines;
    }
    let mut i: usize = 0;
    while i < r.errors.len()
        invariant
            i <= r.errors@.len(),
            views(lines@) == head + error_lines(views(r.errors@)).take(i as int),
        decreases r.errors@.len() - i,
    {
        assert(views(r.errors@)[i as int] == r.errors@[i as int]@);
        let ghost before = views(lines@);
        let line = prefixed("ERROR: ", &r.errors[i]);
        assert(line@ == error_lines(views(r.errors@))[i as int]);
        lines.push(line);
        assert(views(lines@) =~= before.push(line@));
        assert(error_lines(views(r.errors@)).take(i + 1) =~= error_lines(views(r.errors@)).take(i as int).push(line@));
        i += 1;
    }
    let ghost mid = views(lines@);
    assert(mid =~= head + error_lines(views(r.errors@)));
    let mut j: usize = 0;
    while j < r.warnings.len()
        invariant
            j <= r.warnings@.len(),
            views(lines@) == mid + warn_lines(views(r.warnings@)).take(j as int),
        decreases r.warnings@.len() - j,
    {
        assert(views(r.warnings@)[j as int] == r.warnings@[j as int]@);
        let ghost before = views(lines@);
        let line = prefixed("WARN:  ", &r.warnings[j]);
        assert(line@ == warn_lines(views(r.warnings@))[j as int]);
        lines.push(line);
        assert(views(lines@) =~= before.push(line@));
        assert(warn_lines(views(r.warnings@)).take(j + 1) =~= warn_lines(views(r.warnings@)).take(j as int).push(line@));
        j += 1;
    }
    assert(views(lines@) =~= report_text(*r));
    lines
}

/// The failure `validate` ends with when it found errors.
pub fn failure_message(r: &ValidationReport) -> (m: Option<String>)
    ensures
        r.errors@.len() == 0 ==> m is None,
        r.errors@.len() > 0 ==> (m matches Some(t) && t@ == decimal_text(r.errors@.len() as nat) + " error(s) found"@),
{
    if r.errors.len() == 0 {
        None
    } else {
        let mut m = String::new();
        push_decimal(&mut m, r.errors.len());
        append_str(&mut m, " error(s) found");
        Some(m)
    }
}

/// The line `init` prints once the mapping file is written.
pub open spec fn init_summary_text(s: DiffSummary) -> Seq<char> {
    "Mapped "@ + decimal_text(s.mapped as nat) + seq!['/'] + decimal_text(s.total_source_endpoints as nat)
        + " endpoints automatically. "@ + decimal_text(s.unmatched as nat) + " unmapped (no match), "@
        + decimal_text(s.method_mismatches as nat) + " unmapped (path matched but method differs)."@
}

/// The coverage line of `init`.
pub fn init_summary_line(s: &DiffSummary) -> (r: String)
    ensures
        r@ == init_summary_text(*s),
{
    let mut r = owned("Mapped ");
    push_decimal(&mut r, s.mapped);
    push_char(&mut r, '/');
    push_decimal(&mut r, s.total_source_endpoints);
    append_str(&mut r, " endpoints automatically. ");
    push_decimal(&mut r, s.unmatched);
    append_str(&mut r, " unmapped (no match), ");
    push_decimal(&mut r, s.method_mismatches);
    append_str(&mut r, " unmapped (path matched but method differs).");
    assert(r@ =~= init_summary_text(*s));
    r
}

/// The line `sync` prints once the merged file is written.
pub open spec fn sync_summary_text(path: Seq<char>, r: MergeReport) -> Seq<char> {
    "Synced "@ + path + ": "@ + decimal_text(r.added as nat) + " added, "@ + decimal_text(r.updated as nat)
        + " updated, "@ + decimal_text(r.kept_edited as nat) + " kept (edited), "@
        + decimal_text(r.removed_flagged as nat) + " flagged as removed."@
}

/// The summary line of `sync` for the mapping file at `path`.
pub fn sync_summary_line(path: &str, report: &MergeReport) -> (r: String)
    ensures
        r@ == sync_summary_text(path@, *report),
{
    let mut r = owned("Synced ");
    append_str(&mut r, path);
    append_str(&mut r, ": ");
    push_decimal(&mut r, report.added);
    append_str(&mut r, " added, ");
    push_decimal(&mut r, report.updated);
    append_str(&mut r, " updated, ");
    push_decimal(&mut r, report.kept_edited);
    append_str(&mut r, " kept (edited), ");
    push_decimal(&mut r, report.removed_flagged);
    append_str(&mut r, " flagged as removed.");
    assert(r@ =~= sync_summary_text(path@, *report));
    r
}

} // verus!
