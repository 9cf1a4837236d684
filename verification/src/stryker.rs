//! The mutation-testing-report schema, version 2.
//!
//! <http://stryker-mutator.io/report.schema.json>, the format StrykerJS,
//! Stryker.NET, Stryker4s and muttest all write. Emitting it rather than
//! inventing an Angelo shape buys the existing HTML viewer and dashboard, and
//! is the documented route into SonarQube.
//!
//! The schema also already agrees with us on arithmetic: it scores
//! `detected / valid`, where detected is killed plus timeout and valid excludes
//! errors and ignored mutants. So this module reports numbers and never computes
//! one.

use vstd::prelude::*;
use vstd::utf8::*;

use crate::db::Settled;
use crate::filing::{self, Entry, Folder};
use crate::lines::{self, Lines, Position};
use crate::mutate;
use crate::schemata::{self, SourceFile};
use crate::text;

verus! {

broadcast use {vstd::seq_lib::group_seq_properties, vstd::utf8::group_utf8_lib};

/// The bands a viewer tints its score badge with, high and low.
pub open spec fn bands(fail_under: Option<u32>) -> (u32, u32) {
    let low = match fail_under {
        Some(percent) => percent,
        None => 60,
    };
    (
        if low > 80 {
            low
        } else {
            80
        },
        low,
    )
}

/// The bands a viewer tints its score badge with. The schema requires them and
/// nothing else reads them, so `low` follows the project's own `fail_under`,
/// as a whole percentage, when it has one: that is the number this project
/// actually cares about.
pub fn thresholds(fail_under: Option<u32>) -> (pair: (u32, u32))
    ensures
        pair == bands(fail_under),
{
    let low: u32 = match fail_under {
        Some(percent) => percent,
        None => 60,
    };
    if low > 80 {
        (low, low)
    } else {
        (80, low)
    }
}

/// A digit in hexadecimal.
pub open spec fn hex_digit(n: int) -> char {
    if n < 10 {
        (48 + n) as u8 as char
    } else {
        (87 + n) as u8 as char
    }
}

/// How a character stands in a JSON string.
pub open spec fn json_char(c: char) -> Seq<char> {
    if c == '"' {
        seq!['\\', '"']
    } else if c == '\\' {
        seq!['\\', '\\']
    } else if c == '\n' {
        seq!['\\', 'n']
    } else if c == '\r' {
        seq!['\\', 'r']
    } else if c == '\t' {
        seq!['\\', 't']
    } else if c as u32 == 8 {
        seq!['\\', 'b']
    } else if c as u32 == 12 {
        seq!['\\', 'f']
    } else if (c as u32) < 0x20 {
        seq!['\\', 'u', '0', '0', hex_digit(c as u32 as int / 16), hex_digit(c as u32 as int % 16)]
    } else {
        seq![c]
    }
}

/// How a text stands in a JSON string.
pub open spec fn json_chars(s: Seq<char>) -> Seq<char>
    decreases s.len(),
{
    if s.len() == 0 {
        Seq::empty()
    } else {
        json_chars(s.drop_last()) + json_char(s.last())
    }
}

/// A JSON string, quotes included.
pub open spec fn json(s: Seq<char>) -> Seq<char> {
    seq!['"'] + json_chars(s) + seq!['"']
}

fn push_hex(out: &mut String, n: u32)
    requires
        n < 16,
    ensures
        final(out)@ == old(out)@.push(hex_digit(n as int)),
{
    if n < 10 {
        out.push((48 + n) as u8 as char);
    } else {
        out.push((87 + n) as u8 as char);
    }
}

/// A JSON string, quotes included.
///
/// Mutants carry raw Python, so every one of these cases turns up in a real
/// run: a replacement holding a quote, a source file holding a backslash, and a
/// `source` field holding the whole file's newlines.
pub fn quoted(s: &str) -> (out: String)
    ensures
        out@ == json(s@),
{
    let chars: Vec<char> = text::chars_of(s);
    let mut out: String = String::new();
    out.push('"');
    assert(out@ =~= seq!['"'] + json_chars(chars@.subrange(0, 0)));
    let mut at: usize = 0;
    while at < chars.len()
        invariant
            at <= chars@.len(),
            out@ == seq!['"'] + json_chars(chars@.subrange(0, at as int)),
        decreases chars@.len() - at,
    {
        let ghost before = out@;
        let c: char = chars[at];
        let code: u32 = c as u32;
        assert(chars@.subrange(0, at + 1).drop_last() =~= chars@.subrange(0, at as int));
        assert(chars@.subrange(0, at + 1).last() == c);
        if c == '"' {
            out.push('\\');
            out.push('"');
        } else if c == '\\' {
            out.push('\\');
            out.push('\\');
        } else if c == '\n' {
            out.push('\\');
            out.push('n');
        } else if c == '\r' {
            out.push('\\');
            out.push('r');
        } else if c == '\t' {
            out.push('\\');
            out.push('t');
        } else if code == 8 {
            out.push('\\');
            out.push('b');
        } else if code == 12 {
            out.push('\\');
            out.push('f');
        } else if code < 0x20 {
            // Anything else below a space has no short escape and has to go out
            // as six characters or the document is not JSON.
            out.push('\\');
            out.push('u');
            out.push('0');
            out.push('0');
            push_hex(&mut out, code / 16);
            push_hex(&mut out, code % 16);
        } else {
            out.push(c);
        }
        assert(out@ =~= before + json_char(c));
        at += 1;
    }
    assert(chars@.subrange(0, at as int) =~= s@);
    out.push('"');
    assert(out@ =~= json(s@));
    out
}

/// The value of a hexadecimal digit.
pub open spec fn hex_value(c: char) -> int {
    if c as u32 <= '9' as u32 {
        c as u32 - 48
    } else {
        c as u32 - 87
    }
}

/// What the inside of a JSON string says.
pub open spec fn read_json(s: Seq<char>) -> Seq<char>
    decreases s.len(),
{
    if s.len() == 0 {
        Seq::empty()
    } else if s[0] != '\\' || s.len() < 2 {
        seq![s[0]] + read_json(s.drop_first())
    } else if s[1] == 'u' && s.len() >= 6 {
        seq![(hex_value(s[4]) * 16 + hex_value(s[5])) as u8 as char] + read_json(
            s.subrange(6, s.len() as int),
        )
    } else {
        seq![
            if s[1] == 'n' {
                '\n'
            } else if s[1] == 'r' {
                '\r'
            } else if s[1] == 't' {
                '\t'
            } else if s[1] == 'b' {
                8u8 as char
            } else if s[1] == 'f' {
                12u8 as char
            } else {
                s[1]
            },
        ] + read_json(s.subrange(2, s.len() as int))
    }
}

proof fn lemma_json_front(c: char, rest: Seq<char>)
    ensures
        read_json(json_char(c) + rest) == seq![c] + read_json(rest),
{
    let out = json_char(c) + rest;
    let code = c as u32;
    if c == '"' || c == '\\' || c == '\n' || c == '\r' || c == '\t' || code == 8 || code == 12 {
        assert(out[0] == '\\');
        assert(out.subrange(2, out.len() as int) =~= rest);
    } else if code < 0x20 {
        assert(out[0] == '\\' && out[1] == 'u');
        assert(out.subrange(6, out.len() as int) =~= rest);
        assert(out[4] == hex_digit(code as int / 16) && out[5] == hex_digit(code as int % 16));
        assert(hex_value(out[4]) == code as int / 16);
        assert(hex_value(out[5]) == code as int % 16);
        assert(hex_value(out[4]) * 16 + hex_value(out[5]) == code as int);
    } else {
        assert(out[0] == c);
        assert(out.drop_first() =~= rest);
    }
}

proof fn lemma_json_concat(a: Seq<char>, b: Seq<char>)
    ensures
        json_chars(a + b) == json_chars(a) + json_chars(b),
    decreases b.len(),
{
    if b.len() == 0 {
        assert(a + b =~= a);
        assert(json_chars(a) + json_chars(b) =~= json_chars(a));
    } else {
        assert((a + b).drop_last() =~= a + b.drop_last());
        lemma_json_concat(a, b.drop_last());
        assert(json_chars(a + b) =~= json_chars(a) + json_chars(b));
    }
}

/// A JSON string, its first character apart from the rest.
pub proof fn lemma_json_from_front(s: Seq<char>)
    requires
        s.len() > 0,
    ensures
        json_chars(s) == json_char(s[0]) + json_chars(s.drop_first()),
{
    let rest = s.drop_first();
    assert(s =~= seq![s[0]] + rest);
    lemma_json_concat(seq![s[0]], rest);
    assert(seq![s[0]].drop_last() =~= Seq::<char>::empty());
    assert(json_chars(Seq::empty()) =~= Seq::<char>::empty());
    assert(json_chars(seq![s[0]]) =~= json_char(s[0]));
}

/// Reading a JSON string gives back the text that was written.
pub proof fn law_a_quoted_text_reads_back(s: Seq<char>)
    ensures
        read_json(json_chars(s)) == s,
    decreases s.len(),
{
    if s.len() == 0 {
        assert(read_json(json_chars(s)) =~= s);
    } else {
        let rest = s.drop_first();
        law_a_quoted_text_reads_back(rest);
        lemma_json_from_front(s);
        lemma_json_front(s[0], json_chars(rest));
        assert(seq![s[0]] + rest =~= s);
    }
}

/// Nothing in a JSON string is a control character, so a text of any lines stays
/// on one.
pub proof fn law_a_quoted_text_holds_no_control_character(s: Seq<char>)
    ensures
        forall|i: int| 0 <= i < json(s).len() ==> (#[trigger] json(s)[i]) as u32 >= 0x20,
    decreases s.len(),
{
    if s.len() > 0 {
        law_a_quoted_text_holds_no_control_character(s.drop_last());
        let before = json_chars(s.drop_last());
        let shorter = json(s.drop_last());
        assert forall|i: int| 0 <= i < json(s).len() implies (#[trigger] json(s)[i]) as u32
            >= 0x20 by {
            if 0 < i <= before.len() {
                assert(json(s)[i] == before[i - 1]);
                assert(shorter[i] == before[i - 1]);
            } else if before.len() < i < json(s).len() - 1 {
                assert(json(s)[i] == json_char(s.last())[i - 1 - before.len()]);
            }
        }
    }
}

/// A range of positions, as the schema writes it.
pub open spec fn located(start: (int, int), end: (int, int)) -> Seq<char> {
    "{ \"start\": { \"line\": "@ + text::signed(start.0) + ", \"column\": "@ + text::signed(start.1)
        + " }, \"end\": { \"line\": "@ + text::signed(end.0) + ", \"column\": "@ + text::signed(
        end.1,
    ) + " } }"@
}

/// A range of positions, as the schema writes it.
pub fn location(start: Position, end: Position) -> (out: String)
    ensures
        out@ == located(
            (start.line as int, start.column as int),
            (end.line as int, end.column as int),
        ),
{
    let mut out: String = text::owned("{ \"start\": { \"line\": ");
    out.append(&text::show_i64(start.line as i64));
    out.append(", \"column\": ");
    out.append(&text::show_i64(start.column as i64));
    out.append(" }, \"end\": { \"line\": ");
    out.append(&text::show_i64(end.line as i64));
    out.append(", \"column\": ");
    out.append(&text::show_i64(end.column as i64));
    out.append(" } }");
    out
}

/// A list of JSON strings.
pub open spec fn json_list(values: Seq<Seq<char>>) -> Seq<char> {
    "["@ + text::joined(values.map_values(|value: Seq<char>| json(value)), ", "@) + "]"@
}

fn strings(values: &[String]) -> (out: String)
    ensures
        out@ == json_list(text::texts(values@)),
{
    let mut list: Vec<String> = Vec::new();
    while list.len() < values.len()
        invariant
            list@.len() <= values@.len(),
            forall|k: int| 0 <= k < list@.len() ==> #[trigger] list@[k]@ == json(values@[k]@),
        decreases values@.len() - list@.len(),
    {
        list.push(quoted(values[list.len()].as_str()));
    }
    assert(text::texts(list@) =~= text::texts(values@).map_values(
        |value: Seq<char>| json(value),
    ));
    let mut out: String = text::owned("[");
    out.append(&text::join(&list, ", "));
    out.append("]");
    out
}

impl Entry {
    /// What the schema calls this mutant's status. One that was never run is
    /// pending, so a resumable run reports honestly instead of looking finished.
    pub open spec fn schema_status(self) -> Seq<char> {
        match self.status {
            Some(status) => status.schema_name_spec(self.executed),
            None => "Pending"@,
        }
    }

    /// Where this mutant starts, and where it ends.
    pub open spec fn places(self, source: Seq<char>) -> ((int, int), (int, int)) {
        (
            lines::place_of(source, self.mutant.byte_start),
            lines::place_of(source, self.mutant.byte_end),
        )
    }

    /// The fields of this mutant, as the schema names them.
    pub open spec fn fields(self, source: Seq<char>) -> Seq<Seq<char>> {
        let base = seq![
            "\"id\": "@ + json(text::signed(self.mutant.id)),
            "\"mutatorName\": "@ + json(
                mutate::family_of(self.mutant.original, self.mutant.replacement),
            ),
            "\"replacement\": "@ + json(self.mutant.replacement),
            "\"location\": "@ + located(
                self.places(source).0,
                self.places(source).1,
            ),
            "\"status\": "@ + json(self.schema_status()),
        ];
        let timed = match self.duration_ms {
            Some(duration) => base.push("\"duration\": "@ + text::signed(duration as int)),
            None => base,
        };
        if self.failed_tests.len() > 0 {
            timed.push("\"killedBy\": "@ + json_list(self.failed_tests))
        } else {
            timed
        }
    }

    /// This mutant as the schema writes it.
    pub open spec fn in_schema(self, source: Seq<char>) -> Seq<char> {
        "        { "@ + text::joined(self.fields(source), ", "@) + " }"@
    }
}

fn labelled(label: &str, value: &str) -> (field: String)
    ensures
        field@ == label@ + value@,
{
    let mut field: String = text::owned(label);
    field.append(value);
    field
}

/// One mutant, given the file's text and a cursor to walk it with. The mutant
/// gets its own place, whatever the cursor was asked before: a viewer shows it in
/// context by that place, and a condition sits inside the statement it decides
/// on, where both have mutants.
///
/// `end` is exclusive, so the two offsets go in as they are. Both are 1-based;
/// the schema sets `minimum: 1` on each, and a 0 is not off by one, it is
/// invalid.
pub fn render_mutant(entry: &Settled, source: &str, lines: &mut Lines) -> (out: String)
    ensures
        out@ == entry@.in_schema(source@),
        final(lines)@ == lines::fresh().advanced(
            encode_utf8(source@),
            entry.mutant.byte_end as nat,
        ),
{
    let start: Position = lines.locate(source, entry.mutant.byte_start);
    let end: Position = lines.locate(source, entry.mutant.byte_end);
    let status: &'static str = match entry.status {
        Some(status) => status.schema_name(entry.executed),
        None => "Pending",
    };
    let mut fields: Vec<String> = Vec::new();
    fields.push(labelled("\"id\": ", quoted(text::show_i64(entry.mutant.id).as_str()).as_str()));
    fields.push(labelled("\"mutatorName\": ", quoted(entry.mutant.mutator()).as_str()));
    fields.push(
        labelled("\"replacement\": ", quoted(entry.mutant.replacement.as_str()).as_str()),
    );
    fields.push(labelled("\"location\": ", location(start, end).as_str()));
    fields.push(labelled("\"status\": ", quoted(status).as_str()));
    match entry.duration_ms {
        Some(duration) => fields.push(
            labelled("\"duration\": ", text::show_i64(duration).as_str()),
        ),
        None => {},
    }
    assert(entry@.failed_tests.len() == entry.failed_tests@.len());
    if entry.failed_tests.len() > 0 {
        fields.push(labelled("\"killedBy\": ", strings(&entry.failed_tests).as_str()));
    }
    assert(text::texts(fields@) =~= entry@.fields(source@));
    let mut out: String = text::owned("        { ");
    out.append(&text::join(&fields, ", "));
    out.append(" }");
    out
}

/// The mutants of one file as the schema writes them.
pub open spec fn mutants_in_schema(list: Seq<Entry>, source: Seq<char>) -> Seq<Seq<char>> {
    list.map_values(|entry: Entry| entry.in_schema(source))
}

/// The text of a file among those that could be read. A file that has since
/// been deleted or renamed still has rows in the database, and losing the whole
/// report over one of them would be worse than reporting it with no source to
/// show.
pub open spec fn text_of(sources: Seq<(Seq<char>, Seq<char>)>, path: Seq<char>) -> Seq<char> {
    match schemata::generated_of(sources, path) {
        Some(source) => source,
        None => Seq::empty(),
    }
}

/// The text of a file among those that could be read.
pub fn find_text(sources: &[SourceFile], path: &str) -> (source: String)
    ensures
        source@ == text_of(schemata::files(sources@), path@),
{
    let ghost all = schemata::files(sources@);
    let mut upto: usize = sources.len();
    assert(all.subrange(0, upto as int) =~= all);
    while upto > 0
        invariant
            upto <= sources@.len(),
            all == schemata::files(sources@),
            schemata::generated_of(all, path@) == schemata::generated_of(
                all.subrange(0, upto as int),
                path@,
            ),
        decreases upto,
    {
        assert(all.subrange(0, upto as int).drop_last() =~= all.subrange(0, upto - 1));
        assert(all.subrange(0, upto as int).last() == all[upto - 1]);
        if text::same(sources[upto - 1].file.as_str(), path) {
            return sources[upto - 1].source.clone();
        }
        upto -= 1;
    }
    String::new()
}

/// One file as the schema writes it.
pub open spec fn file_in_schema(path: Seq<char>, list: Seq<Entry>, source: Seq<char>) -> Seq<char> {
    "    "@ + json(path) + ": {\n      \"language\": \"python\",\n      \"source\": "@ + json(source)
        + ",\n      \"mutants\": [\n"@ + text::joined(mutants_in_schema(list, source), ",\n"@)
        + "\n      ]\n    }"@
}

/// One file. The schema requires the whole original text of every mutated file:
/// the HTML viewer cannot show a mutant in context without it and a strict
/// validator demands it.
pub fn render_file(path: &str, mutants: &[&Settled], source: &str) -> (out: String)
    ensures
        out@ == file_in_schema(path@, filing::entries(mutants@), source@),
{
    let ghost all = filing::entries(mutants@);
    let mut lines: Lines = Lines::default();
    let mut list: Vec<String> = Vec::new();
    while list.len() < mutants.len()
        invariant
            list@.len() <= mutants@.len(),
            all == filing::entries(mutants@),
            forall|k: int| 0 <= k < list@.len() ==> #[trigger] list@[k]@ == all[k].in_schema(source@),
        decreases mutants@.len() - list@.len(),
    {
        assert(all[list@.len() as int] == mutants@[list@.len() as int]@);
        list.push(render_mutant(mutants[list.len()], source, &mut lines));
    }
    assert(text::texts(list@) =~= mutants_in_schema(all, source@));
    let mut out: String = text::owned("    ");
    out.append(&quoted(path));
    out.append(": {\n      \"language\": \"python\",\n      \"source\": ");
    out.append(&quoted(source));
    out.append(",\n      \"mutants\": [\n");
    out.append(&text::join(&list, ",\n"));
    out.append("\n      ]\n    }");
    out
}

/// The whole document. No `projectRoot` is written: the conversion into other
/// formats strips it off the front of every key with a literal string match, so
/// a root that does not match strips nothing and the paths resolve to no file.
/// Relative keys need no root.
pub open spec fn document(
    list: Seq<Entry>,
    fail_under: Option<u32>,
    sources: Seq<(Seq<char>, Seq<char>)>,
    version: Seq<char>,
) -> Seq<char> {
    let (high, low) = bands(fail_under);
    "{\n  \"schemaVersion\": \"2.0\",\n  \"thresholds\": { \"high\": "@ + text::decimal(high as nat)
        + ", \"low\": "@ + text::decimal(low as nat)
        + " },\n  \"framework\": { \"name\": \"Angelo\", \"version\": \""@ + version
        + "\" },\n  \"files\": {\n"@ + text::joined(
        filing::filed(list).map_values(
            |folder: (Seq<char>, Seq<Entry>)|
                file_in_schema(folder.0, folder.1, text_of(sources, folder.0)),
        ),
        ",\n"@,
    ) + "\n  }\n}\n"@
}

/// The report of a run. `sources` are the texts of the mutated files, by the
/// path a report names them with, and `fail_under` the threshold as a whole
/// percentage, when there is one.
pub fn render(
    settled: &[Settled],
    fail_under: Option<u32>,
    sources: &[SourceFile],
    version: &str,
) -> (out: String)
    ensures
        out@ == document(
            filing::settled_entries(settled@),
            fail_under,
            schemata::files(sources@),
            version@,
        ),
{
    let refs: Vec<&Settled> = filing::all_of(settled);
    let ghost all = filing::settled_entries(settled@);
    let ghost known = schemata::files(sources@);
    let list: Vec<Folder> = filing::by_file(&refs);
    let ghost filed = filing::filed(all);
    let ghost shown = filed.map_values(
        |folder: (Seq<char>, Seq<Entry>)|
            file_in_schema(folder.0, folder.1, text_of(known, folder.0)),
    );
    assert(filed.len() == list@.len());
    let mut files: Vec<String> = Vec::new();
    while files.len() < list.len()
        invariant
            files@.len() <= list@.len(),
            list@.len() == filed.len(),
            filed == filing::folders(list@),
            known == schemata::files(sources@),
            shown == filed.map_values(
                |folder: (Seq<char>, Seq<Entry>)|
                    file_in_schema(folder.0, folder.1, text_of(known, folder.0)),
            ),
            forall|k: int| 0 <= k < files@.len() ==> #[trigger] files@[k]@ == shown[k],
        decreases list@.len() - files@.len(),
    {
        let folder: &Folder = &list[files.len()];
        assert(filed[files@.len() as int] == (folder.path@, filing::entries(folder.entries@)));
        let source: String = find_text(sources, folder.path.as_str());
        files.push(render_file(folder.path.as_str(), &folder.entries, source.as_str()));
    }
    assert(text::texts(files@) =~= shown);
    let (high, low): (u32, u32) = thresholds(fail_under);
    let mut out: String = text::owned(
        "{\n  \"schemaVersion\": \"2.0\",\n  \"thresholds\": { \"high\": ",
    );
    out.append(&text::show(high as u64));
    out.append(", \"low\": ");
    out.append(&text::show(low as u64));
    out.append(" },\n  \"framework\": { \"name\": \"Angelo\", \"version\": \"");
    out.append(version);
    out.append("\" },\n  \"files\": {\n");
    out.append(&text::join(&files, ",\n"));
    out.append("\n  }\n}\n");
    out
}

/// The low band is the project's own threshold, or sixty without one, and the
/// high band is eighty unless the low one lies above it.
pub proof fn law_the_bands_follow_the_threshold(percent: u32)
    ensures
        bands(None) == (80u32, 60u32),
        bands(Some(percent)).1 == percent,
        percent <= 80 ==> bands(Some(percent)).0 == 80,
        percent > 80 ==> bands(Some(percent)).0 == percent,
{
}

/// A mutant's fields: its id, its family, what it put in, where it starts and
/// ends, and what became of it. The time and the tests that killed it are there
/// when they are known.
pub proof fn law_a_mutant_is_written_with_its_fields(entry: Entry, source: Seq<char>)
    ensures
        ({
            let fields = entry.fields(source);
            let start = lines::place_of(source, entry.mutant.byte_start);
            let end = lines::place_of(source, entry.mutant.byte_end);
            let timed = if entry.duration_ms.is_some() {
                1int
            } else {
                0
            };
            let killed = if entry.failed_tests.len() > 0 {
                1int
            } else {
                0
            };
            &&& fields.len() == 5 + timed + killed
            &&& fields[0] == "\"id\": "@ + json(text::signed(entry.mutant.id))
            &&& fields[1] == "\"mutatorName\": "@ + json(
                mutate::family_of(entry.mutant.original, entry.mutant.replacement),
            )
            &&& fields[2] == "\"replacement\": "@ + json(entry.mutant.replacement)
            &&& fields[3] == "\"location\": "@ + ("{ \"start\": { \"line\": "@ + text::signed(
                start.0,
            ) + ", \"column\": "@ + text::signed(start.1) + " }, \"end\": { \"line\": "@
                + text::signed(end.0) + ", \"column\": "@ + text::signed(end.1) + " } }"@)
            &&& fields[4] == "\"status\": "@ + json(
                match entry.status {
                    None => "Pending"@,
                    Some(mutate::Status::Killed) => "Killed"@,
                    Some(mutate::Status::Timeout) => "Timeout"@,
                    Some(mutate::Status::Error) => "RuntimeError"@,
                    Some(mutate::Status::Untestable) => "Ignored"@,
                    Some(mutate::Status::Survived) => if entry.executed {
                        "Survived"@
                    } else {
                        "NoCoverage"@
                    },
                },
            )
            &&& entry.duration_ms matches Some(duration) ==> fields[5] == "\"duration\": "@
                + text::signed(duration as int)
            &&& entry.failed_tests.len() > 0 ==> fields.last() == "\"killedBy\": "@ + json_list(
                entry.failed_tests,
            )
        }),
{
}

/// A list of JSON strings holds every one of them.
pub proof fn law_every_test_is_listed(values: Seq<Seq<char>>, k: int)
    requires
        0 <= k < values.len(),
    ensures
        text::occurs(json_list(values), json(values[k])),
{
    let list = values.map_values(|value: Seq<char>| json(value));
    text::law_every_piece_is_joined(list, ", "@, k);
    assert(list[k] == json(values[k]));
    text::lemma_occurs_within("["@, text::joined(list, ", "@), "]"@, list[k]);
}

/// The text of a file is the last one given for its path, and empty when none
/// is.
pub proof fn law_the_text_of_a_file_is_found_by_its_path(
    sources: Seq<(Seq<char>, Seq<char>)>,
    path: Seq<char>,
    k: int,
)
    ensures
        0 <= k < sources.len() && sources[k].0 == path && (forall|j: int|
            k < j < sources.len() ==> (#[trigger] sources[j]).0 != path) ==> text_of(sources, path)
            == sources[k].1,
        (forall|j: int| 0 <= j < sources.len() ==> (#[trigger] sources[j]).0 != path) ==> text_of(
            sources,
            path,
        ).len() == 0,
    decreases sources.len(),
{
    if sources.len() > 0 {
        let fewer = sources.drop_last();
        law_the_text_of_a_file_is_found_by_its_path(fewer, path, k);
        assert(sources[sources.len() - 1] == sources.last());
        assert forall|j: int| 0 <= j < fewer.len() implies #[trigger] fewer[j] == sources[j] by {}
        if 0 <= k < fewer.len() {
            assert(fewer[k] == sources[k]);
        }
    }
}

proof fn lemma_in_folder(list: Seq<Entry>, source: Seq<char>, path: Seq<char>, k: int)
    requires
        0 <= k < list.len(),
    ensures
        text::occurs(file_in_schema(path, list, source), list[k].in_schema(source)),
        text::occurs(file_in_schema(path, list, source), json(source)),
        text::occurs(file_in_schema(path, list, source), json(path)),
{
    let all = mutants_in_schema(list, source);
    let inner = text::joined(all, ",\n"@);
    text::law_every_piece_is_joined(all, ",\n"@, k);
    assert(all[k] == list[k].in_schema(source));
    let head = "    "@ + json(path) + ": {\n      \"language\": \"python\",\n      \"source\": "@
        + json(source) + ",\n      \"mutants\": [\n"@;
    let tail = "\n      ]\n    }"@;
    text::lemma_occurs_within(head, inner, tail, all[k]);
    lemma_in_front(
        "    "@,
        json(path),
        ": {\n      \"language\": \"python\",\n      \"source\": "@,
        json(source),
        ",\n      \"mutants\": [\n"@,
        inner,
        tail,
    );
}

proof fn lemma_in_front(
    a: Seq<char>,
    b: Seq<char>,
    c: Seq<char>,
    d: Seq<char>,
    e: Seq<char>,
    f: Seq<char>,
    g: Seq<char>,
)
    ensures
        text::occurs(a + b + c + d + e + f + g, b),
        text::occurs(a + b + c + d + e + f + g, d),
{
    let rest = c + d + e + f + g;
    assert(a + b + rest =~= a + b + c + d + e + f + g);
    text::lemma_occurs_between(a, b, rest);
    let head = a + b + c;
    let tail = e + f + g;
    assert(head + d + tail =~= a + b + c + d + e + f + g);
    text::lemma_occurs_between(head, d, tail);
}

/// A report holds every mutant of the run, whatever became of it, and the text
/// of the file it stands in.
pub proof fn law_every_mutant_is_in_the_report(
    list: Seq<Entry>,
    fail_under: Option<u32>,
    sources: Seq<(Seq<char>, Seq<char>)>,
    version: Seq<char>,
    entry: Entry,
)
    requires
        list.contains(entry),
    ensures
        ({
            let source = text_of(sources, entry.path());
            let out = document(list, fail_under, sources, version);
            &&& text::occurs(out, entry.in_schema(source))
            &&& text::occurs(out, json(source))
            &&& text::occurs(out, json(entry.path()))
        }),
{
    let path = entry.path();
    let source = text_of(sources, path);
    filing::law_every_mutant_is_filed_under_its_path(list, entry);
    let paths = filing::paths_of(list);
    let p = choose|p: int| 0 <= p < paths.len() && paths[p] == path;
    let mine = filing::entries_in(list, path);
    let k = choose|k: int| 0 <= k < mine.len() && mine[k] == entry;
    let shown = filing::filed(list).map_values(
        |folder: (Seq<char>, Seq<Entry>)|
            file_in_schema(folder.0, folder.1, text_of(sources, folder.0)),
    );
    assert(shown[p] == file_in_schema(path, mine, source));
    lemma_in_folder(mine, source, path, k);
    text::law_every_piece_is_joined(shown, ",\n"@, p);
    let inner = text::joined(shown, ",\n"@);
    let (high, low) = bands(fail_under);
    let head = "{\n  \"schemaVersion\": \"2.0\",\n  \"thresholds\": { \"high\": "@ + text::decimal(
        high as nat,
    ) + ", \"low\": "@ + text::decimal(low as nat)
        + " },\n  \"framework\": { \"name\": \"Angelo\", \"version\": \""@ + version
        + "\" },\n  \"files\": {\n"@;
    let tail = "\n  }\n}\n"@;
    assert(head + inner + tail == document(list, fail_under, sources, version));
    lemma_occurs_through(shown[p], inner, entry.in_schema(source));
    lemma_occurs_through(shown[p], inner, json(source));
    lemma_occurs_through(shown[p], inner, json(path));
    text::lemma_occurs_within(head, inner, tail, entry.in_schema(source));
    text::lemma_occurs_within(head, inner, tail, json(source));
    text::lemma_occurs_within(head, inner, tail, json(path));
}

/// What stands in a part of a text stands in the text.
proof fn lemma_occurs_through(part: Seq<char>, whole: Seq<char>, needle: Seq<char>)
    requires
        text::occurs(whole, part),
        text::occurs(part, needle),
    ensures
        text::occurs(whole, needle),
{
    let at = choose|at: int| text::occurs_at(whole, part, at);
    let before = whole.subrange(0, at);
    let after = whole.subrange(at + part.len(), whole.len() as int);
    assert(before + part + after =~= whole);
    text::lemma_occurs_within(before, part, after, needle);
}

/// The head of a report: the version of the schema, the two bands and the name
/// and version of the program.
pub proof fn law_a_report_names_its_schema_and_bands(
    list: Seq<Entry>,
    percent: u32,
    sources: Seq<(Seq<char>, Seq<char>)>,
    version: Seq<char>,
)
    requires
        percent <= 80,
    ensures
        text::begins(
            document(list, Some(percent), sources, version),
            "{\n  \"schemaVersion\": \"2.0\",\n  \"thresholds\": { \"high\": "@ + text::decimal(80)
                + ", \"low\": "@ + text::decimal(percent as nat)
                + " },\n  \"framework\": { \"name\": \"Angelo\", \"version\": \""@ + version,
        ),
{
    let head = "{\n  \"schemaVersion\": \"2.0\",\n  \"thresholds\": { \"high\": "@ + text::decimal(
        80,
    ) + ", \"low\": "@ + text::decimal(percent as nat)
        + " },\n  \"framework\": { \"name\": \"Angelo\", \"version\": \""@ + version;
    let out = document(list, Some(percent), sources, version);
    assert(out.subrange(0, head.len() as int) =~= head);
}

/// Quoting goes character by character: a quote, a backslash and the control
/// characters are escaped, and every other character stays.
pub proof fn law_quoting_goes_character_by_character(s: Seq<char>, c: char)
    ensures
        json(s.push(c)) == seq!['"'] + json_chars(s) + json_char(c) + seq!['"'],
        json_char('"') == seq!['\\', '"'],
        json_char('\\') == seq!['\\', '\\'],
        json_char(10u8 as char) == seq!['\\', 'n'],
        json_char(13u8 as char) == seq!['\\', 'r'],
        json_char(9u8 as char) == seq!['\\', 't'],
        json_char(8u8 as char) == seq!['\\', 'b'],
        json_char(12u8 as char) == seq!['\\', 'f'],
        json_char(31u8 as char) == seq!['\\', 'u', '0', '0', '1', 'f'],
        c as u32 >= 32 && c != '"' && c != '\\' ==> json_char(c) == seq![c],
{
    assert(s.push(c).drop_last() =~= s);
    assert(json(s.push(c)) =~= seq!['"'] + json_chars(s) + json_char(c) + seq!['"']);
}

} // verus!
