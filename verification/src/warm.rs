//! The protocol of the warm worker: a pytest process kept alive across mutants.
//!
//! Everything about it is best-effort: any timeout, crash, or unparseable reply
//! retires the worker and the run is repeated in a fresh subprocess. A reply is
//! read in full or not at all: what it names as failed comes back as it was
//! written, or the reply counts as unparseable.

use vstd::prelude::*;

use crate::json;
use crate::literals::{self, Read};
use crate::pytest::{Selection, SuiteResult};
use crate::runner::RunReport;
use crate::text;

verus! {

broadcast use vstd::seq_lib::group_seq_properties;

/// The file the worker is written to, in the copy it runs in.
pub const DRIVER_FILE: &'static str = "angelo-worker.py";

/// In front of every reply. pytest shares stdout with the protocol, so only
/// marked lines are replies.
pub const REPLY_PREFIX: &'static str = "##angelo##";

/// The worker itself: one request per line on stdin, one marked reply per line
/// on stdout. Where the platform can fork, every run happens in a child of its
/// own; elsewhere the project's modules are dropped and imported again.
pub const DRIVER: &'static str = r###"import json
import os
import select
import signal
import sys

import pytest

REPLY_PREFIX = "##angelo##"
ACTIVE_VAR = "ANGELO_MUTANTS"
FORKS = hasattr(os, "fork")


class Failures:
    def __init__(self):
        self.names = []

    def pytest_runtest_logreport(self, report):
        if report.failed and report.nodeid not in self.names:
            self.names.append(report.nodeid)

    def pytest_collectreport(self, report):
        if report.failed and report.nodeid not in self.names:
            self.names.append(report.nodeid)


def project_modules(root):
    for name, module in list(sys.modules.items()):
        path = getattr(module, "__file__", None)
        if path and os.path.abspath(path).startswith(root) and name != "__main__":
            yield name


def run(request):
    if request["mutants"]:
        os.environ[ACTIVE_VAR] = request["mutants"]
    else:
        os.environ.pop(ACTIVE_VAR, None)
    arguments = ["-q", "-p", "no:cacheprovider"]
    if request["stop_at_first_failure"]:
        arguments.append("-x")
    arguments.extend(request["tests"])
    failures = Failures()
    code = int(pytest.main(arguments, plugins=[failures]))
    return {"exit_code": code, "failed": failures.names}


def run_here(request, root):
    if request["purge"]:
        for name in list(project_modules(root)):
            del sys.modules[name]
    return run(request)


def run_in_child(request):
    reader, writer = os.pipe()
    child = os.fork()
    if child == 0:
        os.close(reader)
        try:
            answer = json.dumps(run(request)).encode()
        except BaseException:
            answer = json.dumps({"exit_code": 3, "failed": []}).encode()
        os.write(writer, answer)
        os._exit(0)
    os.close(writer)
    ready, _, _ = select.select([reader], [], [], request["timeout_ms"] / 1000)
    if not ready:
        os.kill(child, signal.SIGKILL)
        os.waitpid(child, 0)
        os.close(reader)
        return {"exit_code": 0, "failed": [], "timed_out": True, "forked": True}
    pieces = []
    while True:
        piece = os.read(reader, 65536)
        if not piece:
            break
        pieces.append(piece)
    os.close(reader)
    os.waitpid(child, 0)
    answer = json.loads(b"".join(pieces) or b'{"exit_code": 3, "failed": []}')
    answer["forked"] = True
    return answer


def main():
    root = os.path.abspath(os.getcwd())
    for line in sys.stdin:
        request = json.loads(line)
        answer = run_in_child(request) if FORKS else run_here(request, root)
        sys.stdout.write("\n" + REPLY_PREFIX + json.dumps(answer) + "\n")
        sys.stdout.flush()


main()
"###;

/// One run in the warm worker.
pub struct WarmRun {
    pub result: SuiteResult,
    pub failed_tests: Vec<String>,
    /// The worker ran this mutant in a child of its own, so nothing it did can
    /// reach the next one.
    pub forked: bool,
}

/// A run in the warm worker as plain values.
#[verifier::ext_equal]
pub struct Answer {
    pub result: SuiteResult,
    pub failed_tests: Seq<Seq<char>>,
    pub forked: bool,
}

impl View for WarmRun {
    type V = Answer;

    open spec fn view(&self) -> Answer {
        Answer {
            result: self.result,
            failed_tests: text::texts(self.failed_tests@),
            forked: self.forked,
        }
    }
}

/// What follows the first mention of a key.
pub open spec fn after(line: Seq<char>, key: Seq<char>) -> Option<Seq<char>> {
    match text::found(line, key, 0) {
        Some(at) => Some(line.subrange(at + key.len(), line.len() as int)),
        None => None,
    }
}

/// What follows the first mention of a key.
pub fn field(line: &str, key: &str) -> (rest: Option<String>)
    ensures
        rest.is_some() == after(line@, key@).is_some(),
        rest.is_some() ==> rest.unwrap()@ == after(line@, key@).unwrap(),
{
    let chars: Vec<char> = text::chars_of(line);
    let needle: Vec<char> = text::chars_of(key);
    proof {
        text::lemma_found(line@, key@, 0);
    }
    match text::find(&chars, &needle, 0) {
        Some(at) => {
            assert(text::found(line@, key@, 0) == Some(at as int));
            let total: usize = chars.len();
            let size: usize = needle.len();
            assert(at + size <= total);
            Some(text::part_of(&chars, at + size, total))
        },
        None => None,
    }
}

/// Whether a character can stand in a number of a reply.
pub open spec fn numeric(c: char) -> bool {
    ('0' <= c && c <= '9') || c == '-'
}

/// The numeric characters at the front of a text.
pub open spec fn leading(s: Seq<char>) -> Seq<char>
    decreases s.len(),
{
    if s.len() > 0 && numeric(s[0]) {
        seq![s[0]] + leading(s.drop_first())
    } else {
        Seq::empty()
    }
}

fn leading_of(chars: &[char]) -> (digits: Vec<char>)
    ensures
        digits@ == leading(chars@),
{
    let mut digits: Vec<char> = Vec::new();
    let mut at: usize = 0;
    assert(chars@.subrange(0, chars@.len() as int) =~= chars@);
    assert(digits@ + leading(chars@) =~= leading(chars@));
    while at < chars.len()
        invariant
            at <= chars@.len(),
            leading(chars@) == digits@ + leading(chars@.subrange(at as int, chars@.len() as int)),
        decreases chars@.len() - at,
    {
        let c: char = chars[at];
        let ghost rest = chars@.subrange(at as int, chars@.len() as int);
        assert(rest.drop_first() =~= chars@.subrange(at + 1, chars@.len() as int));
        if !(('0' <= c && c <= '9') || c == '-') {
            assert(leading(rest) =~= Seq::<char>::empty());
            assert(digits@ + leading(rest) =~= digits@);
            return digits;
        }
        let ghost before = digits@;
        digits.push(c);
        assert(before + leading(rest) =~= digits@ + leading(rest.drop_first()));
        at += 1;
    }
    assert(digits@ + leading(chars@.subrange(at as int, chars@.len() as int)) =~= digits@);
    digits
}

/// The exit code a reply names.
pub open spec fn code_in(line: Seq<char>) -> Option<i64> {
    match after(line, "\"exit_code\":"@) {
        Some(rest) => match literals::integer_value(leading(text::trimmed_start(rest)), 10) {
            Some(code) => if i64::MIN <= code <= i64::MAX {
                Some(code as i64)
            } else {
                None
            },
            None => None,
        },
        None => None,
    }
}

fn exit_code_in(line: &str) -> (code: Option<i64>)
    ensures
        code == code_in(line@),
{
    match field(line, "\"exit_code\":") {
        Some(rest) => {
            let trimmed: String = text::trim_start(rest.as_str());
            let chars: Vec<char> = text::chars_of(trimmed.as_str());
            let digits: Vec<char> = leading_of(&chars);
            match literals::read_integer(&digits, 10, 0x7fff_ffff_ffff_ffff) {
                Read::Integer { negative, size } => if !negative {
                    Some(size as i64)
                } else if size == 0x8000_0000_0000_0000 {
                    Some(i64::MIN)
                } else {
                    Some(-(size as i64))
                },
                _ => None,
            }
        },
        None => None,
    }
}

/// The failed tests a reply names, each as it was written, and none where it
/// names no list. None when the list cannot be read.
pub open spec fn failed_in(line: Seq<char>) -> Option<Seq<Seq<char>>> {
    let rest = match after(line, "\"failed\": ["@) {
        Some(rest) => Some(rest),
        None => after(line, "\"failed\":["@),
    };
    match rest {
        Some(rest) => json::list_in(rest),
        None => Some(Seq::empty()),
    }
}

fn failed_names(line: &str) -> (names: Option<Vec<String>>)
    ensures
        names.is_some() == failed_in(line@).is_some(),
        names matches Some(names) ==> Some(text::texts(names@)) == failed_in(line@),
{
    let rest: Option<String> = match field(line, "\"failed\": [") {
        Some(rest) => Some(rest),
        None => field(line, "\"failed\":["),
    };
    match rest {
        Some(rest) => json::read_list(rest.as_str()),
        None => {
            let names: Vec<String> = Vec::new();
            assert(text::texts(names@) =~= Seq::<Seq<char>>::empty());
            Some(names)
        },
    }
}

/// Whether a reply says that the run outlived its deadline.
pub open spec fn says_timed_out(line: Seq<char>) -> bool {
    text::occurs(line, "\"timed_out\": true"@) || text::occurs(line, "\"timed_out\":true"@)
}

/// What a reply says, or why it cannot be read: it names no exit code, or what
/// it names as failed is no list of strings.
pub open spec fn answer_in(line: Seq<char>) -> Result<Answer, Seq<char>> {
    let forked = text::occurs(line, "\"forked\""@);
    if says_timed_out(line) {
        Ok(Answer { result: SuiteResult::TimedOut, failed_tests: Seq::empty(), forked })
    } else {
        match code_in(line) {
            Some(code) => match failed_in(line) {
                Some(failed_tests) => Ok(
                    Answer { result: SuiteResult::Finished(code), failed_tests, forked },
                ),
                None => Err("unreadable failed tests in worker reply: "@ + line),
            },
            None => Err("no exit_code in worker reply: "@ + line),
        }
    }
}

/// Reads a reply. The fork path kills a child that outran its deadline and says
/// so, rather than going quiet and costing the whole worker.
///
/// No failed test is lost on the way: a list that cannot be read makes the whole
/// reply unreadable, which sends the run to a fresh subprocess.
pub fn parse_reply(line: &str) -> (run: Result<WarmRun, String>)
    ensures
        match answer_in(line@) {
            Ok(answer) => run matches Ok(run) && run@ == answer,
            Err(message) => run matches Err(why) && why@ == message,
        },
{
    let forked: bool = text::contains(line, "\"forked\"");
    if text::contains(line, "\"timed_out\": true") || text::contains(line, "\"timed_out\":true") {
        let run: WarmRun = WarmRun {
            result: SuiteResult::TimedOut,
            failed_tests: Vec::new(),
            forked,
        };
        assert(run@.failed_tests =~= Seq::<Seq<char>>::empty());
        return Ok(run);
    }
    match exit_code_in(line) {
        Some(code) => match failed_names(line) {
            Some(failed_tests) => Ok(
                WarmRun { result: SuiteResult::Finished(code), failed_tests, forked },
            ),
            None => {
                let mut why: String = text::owned("unreadable failed tests in worker reply: ");
                why.append(line);
                Err(why)
            },
        },
        None => {
            let mut why: String = text::owned("no exit_code in worker reply: ");
            why.append(line);
            Err(why)
        },
    }
}

/// Every failed test that a reply lists comes back as the worker wrote it, so a
/// warm run names what a fresh one would have named.
pub proof fn law_every_listed_test_comes_back(
    line: Seq<char>,
    code: i64,
    tests: Seq<Seq<char>>,
    rest: Seq<char>,
)
    requires
        !says_timed_out(line),
        code_in(line) == Some(code),
        after(line, "\"failed\": ["@) == Some(json::inside(tests) + seq![']'] + rest),
    ensures
        answer_in(line) matches Ok(answer) && answer.result == SuiteResult::Finished(code)
            && answer.failed_tests == tests,
{
    json::law_a_written_list_reads_back(tests, rest);
}

/// A reply as the worker writes it, with the exit code in these digits.
pub open spec fn reply_line(digits: Seq<char>, tests: Seq<Seq<char>>, forked: bool) -> Seq<char> {
    "{\"exit_code\": "@ + digits + ", \"failed\": ["@ + json::inside(tests) + if forked {
        "], \"forked\": true}"@
    } else {
        "]}"@
    }
}

/// No test id makes a reply look like one that timed out.
proof fn lemma_no_timeout(digits: Seq<char>, tests: Seq<Seq<char>>, forked: bool, at: int)
    requires
        forall|i: int| 0 <= i < digits.len() ==> numeric(#[trigger] digits[i]),
        0 <= at,
        at + 11 < reply_line(digits, tests, forked).len(),
        reply_line(digits, tests, forked)[at + 10] == '"',
    ensures
        reply_line(digits, tests, forked)[at + 9] != 't' || reply_line(digits, tests, forked)[at
            + 11] != ':',
{
    reveal_strlit("{\"exit_code\": ");
    reveal_strlit(", \"failed\": [");
    reveal_strlit("], \"forked\": true}");
    reveal_strlit("]}");
    let line = reply_line(digits, tests, forked);
    let first = "{\"exit_code\": "@;
    let second = ", \"failed\": ["@;
    let list = json::inside(tests);
    let tail = if forked {
        "], \"forked\": true}"@
    } else {
        "]}"@
    };
    let a = first.len();
    let b = a + digits.len();
    let c = b + second.len();
    let d = c + list.len();
    let quote = at + 10;
    assert(line.len() == d + tail.len());
    if quote < a {
        assert(line[quote] == first[quote]);
        assert(line[quote - 1] == first[quote - 1]);
    } else if quote < b {
        assert(line[quote] == digits[quote - a]);
    } else if quote < c {
        assert(line[quote] == second[quote - b]);
        if quote > b {
            assert(line[quote - 1] == second[quote - 1 - b]);
        }
    } else if quote < d {
        let k = quote - c;
        assert(line[quote] == list[k]);
        json::lemma_quotes_in_a_list(tests, k);
        if k == 0 {
            assert(line[quote - 1] == second[second.len() - 1]);
        } else {
            assert(line[quote - 1] == list[k - 1]);
        }
        if k == list.len() - 1 {
            assert(line[quote + 1] == tail[0]);
        } else {
            assert(line[quote + 1] == list[k + 1]);
        }
    } else {
        assert(line[quote] == tail[quote - d]);
        if quote > d {
            assert(line[quote - 1] == tail[quote - 1 - d]);
        }
    }
}

proof fn lemma_leading(digits: Seq<char>, rest: Seq<char>)
    requires
        forall|i: int| 0 <= i < digits.len() ==> numeric(#[trigger] digits[i]),
        rest.len() > 0,
        !numeric(rest[0]),
    ensures
        leading(digits + rest) == digits,
    decreases digits.len(),
{
    let s = digits + rest;
    if digits.len() == 0 {
        assert(s =~= rest);
        assert(leading(s) =~= digits);
    } else {
        assert(s[0] == digits[0]);
        assert(s.drop_first() =~= digits.drop_first() + rest);
        assert forall|i: int| 0 <= i < digits.drop_first().len() implies numeric(
            #[trigger] digits.drop_first()[i],
        ) by {
            assert(numeric(digits[i + 1]));
        }
        lemma_leading(digits.drop_first(), rest);
        assert(seq![digits[0]] + digits.drop_first() =~= digits);
    }
}

proof fn lemma_reply_is_no_timeout(digits: Seq<char>, tests: Seq<Seq<char>>, forked: bool)
    requires
        forall|i: int| 0 <= i < digits.len() ==> numeric(#[trigger] digits[i]),
    ensures
        !says_timed_out(reply_line(digits, tests, forked)),
{
    reveal_strlit("\"timed_out\": true");
    reveal_strlit("\"timed_out\":true");
    let line = reply_line(digits, tests, forked);
    let spaced = "\"timed_out\": true"@;
    let tight = "\"timed_out\":true"@;
    assert forall|at: int| !#[trigger] text::occurs_at(line, spaced, at) by {
        if text::occurs_at(line, spaced, at) {
            let here = line.subrange(at, at + spaced.len());
            assert(here[9] == 't' && here[10] == '"' && here[11] == ':');
            lemma_no_timeout(digits, tests, forked, at);
        }
    }
    assert forall|at: int| !#[trigger] text::occurs_at(line, tight, at) by {
        if text::occurs_at(line, tight, at) {
            let here = line.subrange(at, at + tight.len());
            assert(here[9] == 't' && here[10] == '"' && here[11] == ':');
            lemma_no_timeout(digits, tests, forked, at);
        }
    }
}

proof fn lemma_reply_code(digits: Seq<char>, code: i64, rest: Seq<char>)
    requires
        literals::integer_value(digits, 10) == Some(code as int),
        forall|i: int| 0 <= i < digits.len() ==> numeric(#[trigger] digits[i]),
        rest.len() > 0,
        rest[0] == ',',
    ensures
        code_in("{\"exit_code\": "@ + digits + rest) == Some(code),
{
    reveal_strlit("{\"exit_code\": ");
    reveal_strlit("\"exit_code\":");
    let line = "{\"exit_code\": "@ + digits + rest;
    let key = "\"exit_code\":"@;
    assert(line.subrange(1, 13) =~= key);
    assert(!text::occurs_at(line, key, 0)) by {
        if text::occurs_at(line, key, 0) {
            assert(line.subrange(0, 12)[0] == key[0]);
        }
    }
    assert(text::found(line, key, 1) == Some(1int));
    assert(text::found(line, key, 0) == Some(1int));
    let follow = digits + rest;
    let tail = line.subrange(13, line.len() as int);
    assert(tail =~= seq![' '] + follow);
    assert(tail.drop_first() =~= follow);
    assert(follow[0] == digits[0]);
    assert(numeric(digits[0]));
    assert(text::trimmed_start(follow) == follow);
    assert(tail[0] == ' ');
    assert(text::trimmed_start(tail) == follow);
    lemma_leading(digits, rest);
}

proof fn lemma_reply_list(digits: Seq<char>, rest: Seq<char>)
    requires
        forall|i: int| 0 <= i < digits.len() ==> numeric(#[trigger] digits[i]),
    ensures
        after("{\"exit_code\": "@ + digits + ", \"failed\": ["@ + rest, "\"failed\": ["@) == Some(
            rest,
        ),
{
    reveal_strlit("{\"exit_code\": ");
    reveal_strlit(", \"failed\": [");
    reveal_strlit("\"failed\": [");
    let first = "{\"exit_code\": "@;
    let second = ", \"failed\": ["@;
    let line = first + digits + second + rest;
    let key = "\"failed\": ["@;
    let a = first.len() as int;
    let b = a + digits.len();
    let place = b + 2;
    assert(line.subrange(place, place + key.len()) =~= key);
    text::lemma_found(line, key, 0);
    assert forall|j: int| 0 <= j < place implies !#[trigger] text::occurs_at(line, key, j) by {
        if text::occurs_at(line, key, j) {
            let here = line.subrange(j, j + key.len());
            assert(here[0] == '"' && here[1] == 'f');
            if j < a {
                assert(line[j] == first[j]);
                if j + 1 < a {
                    assert(line[j + 1] == first[j + 1]);
                }
            } else if j < b {
                assert(line[j] == digits[j - a]);
            } else {
                assert(line[j] == second[j - b]);
            }
        }
    }
    assert(text::occurs_at(line, key, place));
    assert(line.subrange(place + key.len(), line.len() as int) =~= rest);
}

/// A reply comes back as the worker wrote it: the exit code, and every failed
/// test, whatever its id holds. Brackets, commas, quotes and the words of the
/// protocol itself lose none and change none.
#[verifier::spinoff_prover]
#[verifier::rlimit(60)]
pub proof fn law_a_reply_reads_back(
    digits: Seq<char>,
    code: i64,
    tests: Seq<Seq<char>>,
    forked: bool,
)
    requires
        literals::integer_value(digits, 10) == Some(code as int),
        forall|i: int| 0 <= i < digits.len() ==> numeric(#[trigger] digits[i]),
    ensures
        answer_in(reply_line(digits, tests, forked)) matches Ok(answer) && answer.result
            == SuiteResult::Finished(code) && answer.failed_tests == tests && (forked
            ==> answer.forked),
{
    let line = reply_line(digits, tests, forked);
    let list = json::inside(tests);
    let tail = if forked {
        "], \"forked\": true}"@
    } else {
        "]}"@
    };
    reveal_strlit(", \"failed\": [");
    reveal_strlit("], \"forked\": true}");
    reveal_strlit("]}");
    lemma_reply_is_no_timeout(digits, tests, forked);
    let follow = ", \"failed\": ["@ + list + tail;
    assert(line =~= "{\"exit_code\": "@ + digits + follow);
    lemma_reply_code(digits, code, follow);
    lemma_reply_list(digits, list + tail);
    assert(line =~= "{\"exit_code\": "@ + digits + ", \"failed\": ["@ + (list + tail));
    assert(list + tail =~= list + seq![']'] + tail.drop_first());
    law_every_listed_test_comes_back(line, code, tests, tail.drop_first());
    if forked {
        reveal_strlit("\"forked\"");
        let spot = line.len() - tail.len() + 3;
        assert(line.subrange(spot, spot + 8) =~= "\"forked\""@);
        assert(text::occurs_at(line, "\"forked\""@, spot));
    }
}

/// The reply on a line of the worker's output, if it is one.
pub fn reply_in(line: &str) -> (reply: Option<String>)
    ensures
        reply.is_some() == text::begins(line@, REPLY_PREFIX@),
        reply.is_some() ==> reply.unwrap()@ == text::without_prefix(line@, REPLY_PREFIX@),
{
    text::strip_prefix(line, REPLY_PREFIX)
}

/// `true` or `false`.
pub open spec fn truth(yes: bool) -> Seq<char> {
    if yes {
        "true"@
    } else {
        "false"@
    }
}

/// The tests of a request, each in quotes.
pub open spec fn quoted_ids(test_ids: Seq<Seq<char>>) -> Seq<Seq<char>> {
    test_ids.map_values(|id: Seq<char>| "\""@ + text::with_char(id, '\\', '/') + "\""@)
}

/// What the worker is asked: which tests to run, whether to stop at the first
/// failure, which mutants the tree should switch on, whether the project has to
/// be imported again, and how long the run may take.
pub open spec fn asked(selection: crate::pytest::Chosen, timeout_ms: u64, active: Seq<char>) -> Seq<
    char,
> {
    "{\"tests\":["@ + text::joined(quoted_ids(selection.test_ids), ","@)
        + "],\"stop_at_first_failure\":"@ + truth(selection.stop_at_first_failure)
        + ",\"mutants\":\""@ + active + "\",\"purge\":"@ + truth(active.len() == 0)
        + ",\"timeout_ms\":"@ + text::decimal(timeout_ms as nat) + "}\n"@
}

fn truth_of(yes: bool) -> (word: &'static str)
    ensures
        word@ == truth(yes),
{
    if yes {
        "true"
    } else {
        "false"
    }
}

/// `active` names the mutants the tree's schemata should switch on, empty when
/// the mutants were spliced into the files instead. Splicing is what makes
/// importing again necessary, so it is also what decides `purge`.
pub fn request(selection: &Selection, timeout_ms: u64, active: &str) -> (line: String)
    ensures
        line@ == asked(selection@, timeout_ms, active@),
{
    let ghost ids = text::texts(selection.test_ids@);
    let mut quoted: Vec<String> = Vec::new();
    while quoted.len() < selection.test_ids.len()
        invariant
            quoted@.len() <= selection.test_ids@.len(),
            ids == text::texts(selection.test_ids@),
            forall|k: int|
                0 <= k < quoted@.len() ==> #[trigger] quoted@[k]@ == "\""@ + text::with_char(
                    ids[k],
                    '\\',
                    '/',
                ) + "\""@,
        decreases selection.test_ids@.len() - quoted@.len(),
    {
        let at: usize = quoted.len();
        assert(ids[at as int] == selection.test_ids@[at as int]@);
        let mut id: String = text::owned("\"");
        id.append(&text::replace_char(selection.test_ids[at].as_str(), '\\', '/'));
        id.append("\"");
        quoted.push(id);
    }
    assert(text::texts(quoted@) =~= quoted_ids(ids));
    let mut line: String = text::owned("{\"tests\":[");
    line.append(&text::join(&quoted, ","));
    line.append("],\"stop_at_first_failure\":");
    line.append(truth_of(selection.stop_at_first_failure));
    line.append(",\"mutants\":\"");
    line.append(active);
    line.append("\",\"purge\":");
    line.append(truth_of(active.is_empty()));
    line.append(",\"timeout_ms\":");
    line.append(&text::show(timeout_ms));
    line.append("}\n");
    line
}

/// How much a worker has been used.
pub struct Wear {
    pub runs: usize,
    pub recycle_after: usize,
    /// Set the first time a reply says so; a worker either forks or it does not.
    pub forks: bool,
}

impl Wear {
    /// A worker that has not run anything.
    pub fn new(recycle_after: usize) -> (wear: Wear)
        ensures
            wear.runs == 0 && wear.recycle_after == recycle_after && !wear.forks,
    {
        Wear { runs: 0, recycle_after, forks: false }
    }

    /// Recycling exists to bound the state a purging worker accumulates. A
    /// forking worker accumulates none — every mutant ran in a child that has
    /// since died — so restarting it would only repay the warm-up for nothing.
    pub fn is_exhausted(&self) -> (yes: bool)
        ensures
            yes == (!self.forks && self.runs >= self.recycle_after),
    {
        !self.forks && self.runs >= self.recycle_after
    }

    /// One more request went out.
    pub fn sent(&mut self)
        ensures
            final(self).runs == if old(self).runs < usize::MAX {
                (old(self).runs + 1) as usize
            } else {
                usize::MAX
            },
            final(self).recycle_after == old(self).recycle_after,
            final(self).forks == old(self).forks,
    {
        self.runs = self.runs.saturating_add(1);
    }

    /// A reply came back.
    pub fn answered(&mut self, run: &WarmRun)
        ensures
            final(self).forks == (old(self).forks || run.forked),
            final(self).runs == old(self).runs,
            final(self).recycle_after == old(self).recycle_after,
    {
        self.forks = self.forks || run.forked;
    }
}

/// What becomes of a warm run and of the worker that made it.
pub struct Aftermath {
    /// None sends the run to a fresh subprocess, which is always correct.
    pub report: Option<RunReport>,
    pub retire: bool,
}

/// A worker that never answered gives no guarantee about what it left behind,
/// so its timeout is a verdict and its end. A run that failed says nothing at
/// all, and the run is repeated.
pub fn aftermath(run: Result<WarmRun, String>) -> (after: Aftermath)
    ensures
        match run {
            Ok(run) => after.report matches Some(report) && report.result == run.result
                && report.failed_tests@ == (if run.result is TimedOut {
                Seq::empty()
            } else {
                run.failed_tests@
            }) && after.retire == (run.result is TimedOut && !run.forked),
            Err(_) => after.report.is_none() && after.retire,
        },
{
    match run {
        Ok(run) => {
            let timed_out: bool = matches!(run.result, SuiteResult::TimedOut);
            Aftermath {
                retire: timed_out && !run.forked,
                report: Some(
                    RunReport {
                        result: run.result,
                        failed_tests: if timed_out {
                            Vec::new()
                        } else {
                            run.failed_tests
                        },
                    },
                ),
            }
        },
        Err(_) => Aftermath { report: None, retire: true },
    }
}

/// Whether a warm worker can stand in for this command.
pub open spec fn is_hostable(command: Seq<Seq<char>>) -> bool {
    command.len() >= 3 && text::occurs(command[0], "python"@) && command[1] == "-m"@ && command[2]
        == "pytest"@
}

/// The worker replaces the pytest invocation, so only the interpreter carries
/// over from test_command. A command that is not `python -m pytest ...` cannot
/// be hosted and must keep using subprocesses.
pub fn hostable(test_command: &[String]) -> (yes: bool)
    ensures
        yes == is_hostable(text::texts(test_command@)),
{
    let ghost given = text::texts(test_command@);
    if test_command.len() < 3 {
        return false;
    }
    assert(given[0] == test_command@[0]@ && given[1] == test_command@[1]@ && given[2]
        == test_command@[2]@);
    text::contains(test_command[0].as_str(), "python") && text::same(
        test_command[1].as_str(),
        "-m",
    ) && text::same(test_command[2].as_str(), "pytest")
}

/// The interpreter of a command, when it has one.
pub fn python_of(test_command: &[String]) -> (python: Result<String, String>)
    ensures
        python is Ok <==> test_command@.len() > 0 && text::occurs(test_command@[0]@, "python"@),
        python matches Ok(python) ==> python@ == test_command@[0]@,
        python matches Err(why) ==> why@
            == "the warm worker needs a python interpreter as test_command[0]"@,
{
    if test_command.len() > 0 && text::contains(test_command[0].as_str(), "python") {
        Ok(test_command[0].clone())
    } else {
        Err(text::owned("the warm worker needs a python interpreter as test_command[0]"))
    }
}

/// Every command that can be hosted has an interpreter to host it with.
pub proof fn law_a_hostable_command_has_an_interpreter(command: Seq<Seq<char>>)
    requires
        is_hostable(command),
    ensures
        command.len() > 0 && text::occurs(command[0], "python"@),
{
}

/// A request names every test it asks for, in quotes and in order, with forward
/// slashes only. The project is imported again exactly when no mutant is
/// switched on.
pub proof fn law_a_request_says_what_to_run(
    selection: crate::pytest::Chosen,
    timeout_ms: u64,
    active: Seq<char>,
    k: int,
)
    requires
        0 <= k < selection.test_ids.len(),
    ensures
        ({
            let line = asked(selection, timeout_ms, active);
            let id = selection.test_ids[k].map_values(
                |c: char|
                    if c == '\\' {
                        '/'
                    } else {
                        c
                    },
            );
            &&& text::occurs(line, "\""@ + id + "\""@)
            &&& selection.stop_at_first_failure ==> text::occurs(
                line,
                "],\"stop_at_first_failure\":"@ + "true"@ + ",\"mutants\":\""@,
            )
            &&& !selection.stop_at_first_failure ==> text::occurs(
                line,
                "],\"stop_at_first_failure\":"@ + "false"@ + ",\"mutants\":\""@,
            )
            &&& text::occurs(line, ",\"mutants\":\""@ + active + "\",\"purge\":"@)
            &&& active.len() == 0 ==> text::occurs(
                line,
                "\",\"purge\":"@ + "true"@ + ",\"timeout_ms\":"@,
            )
            &&& active.len() > 0 ==> text::occurs(
                line,
                "\",\"purge\":"@ + "false"@ + ",\"timeout_ms\":"@,
            )
            &&& text::occurs(line, ",\"timeout_ms\":"@ + text::decimal(timeout_ms as nat) + "}\n"@)
        }),
{
    let quoted = quoted_ids(selection.test_ids);
    let list = text::joined(quoted, ","@);
    let id = selection.test_ids[k].map_values(
        |c: char|
            if c == '\\' {
                '/'
            } else {
                c
            },
    );
    assert(text::with_char(selection.test_ids[k], '\\', '/') =~= id);
    assert(quoted[k] == "\""@ + id + "\""@);
    text::law_every_piece_is_joined(quoted, ","@, k);
    lemma_request(
        "{\"tests\":["@,
        list,
        "],\"stop_at_first_failure\":"@,
        truth(selection.stop_at_first_failure),
        ",\"mutants\":\""@,
        active,
        "\",\"purge\":"@,
        truth(active.len() == 0),
        ",\"timeout_ms\":"@,
        text::decimal(timeout_ms as nat),
        "}\n"@,
        quoted[k],
    );
}

proof fn lemma_request(
    open: Seq<char>,
    list: Seq<char>,
    stop: Seq<char>,
    stops: Seq<char>,
    mutants: Seq<char>,
    active: Seq<char>,
    purge: Seq<char>,
    purges: Seq<char>,
    timeout: Seq<char>,
    limit: Seq<char>,
    close: Seq<char>,
    one: Seq<char>,
)
    requires
        text::occurs(list, one),
    ensures
        ({
            let line = open + list + stop + stops + mutants + active + purge + purges + timeout
                + limit + close;
            &&& text::occurs(line, one)
            &&& text::occurs(line, stop + stops + mutants)
            &&& text::occurs(line, mutants + active + purge)
            &&& text::occurs(line, purge + purges + timeout)
            &&& text::occurs(line, timeout + limit + close)
        }),
{
    let line = open + list + stop + stops + mutants + active + purge + purges + timeout + limit
        + close;
    let behind = stop + stops + mutants + active + purge + purges + timeout + limit + close;
    assert(open + list + behind =~= line);
    text::lemma_occurs_within(open, list, behind, one);
    let a = open + list;
    let b = active + purge + purges + timeout + limit + close;
    assert(a + (stop + stops + mutants) + b =~= line);
    text::lemma_occurs_between(a, stop + stops + mutants, b);
    let c = a + stop + stops;
    let d = purges + timeout + limit + close;
    assert(c + (mutants + active + purge) + d =~= line);
    text::lemma_occurs_between(c, mutants + active + purge, d);
    let e = c + mutants + active;
    let f = limit + close;
    assert(e + (purge + purges + timeout) + f =~= line);
    text::lemma_occurs_between(e, purge + purges + timeout, f);
    let g = e + purge + purges;
    assert(g + (timeout + limit + close) + Seq::<char>::empty() =~= line);
    text::lemma_occurs_between(g, timeout + limit + close, Seq::empty());
}

/// Only `... python ... -m pytest` can be hosted, whatever arguments follow.
pub proof fn law_hosting_looks_at_the_first_three_words(command: Seq<Seq<char>>)
    ensures
        is_hostable(command) <==> command.len() >= 3 && text::occurs(command[0], "python"@)
            && command.subrange(1, 3) == seq!["-m"@, "pytest"@],
{
    if command.len() >= 3 {
        assert(command.subrange(1, 3)[0] == command[1]);
        assert(command.subrange(1, 3)[1] == command[2]);
        if command[1] == "-m"@ && command[2] == "pytest"@ {
            assert(command.subrange(1, 3) =~= seq!["-m"@, "pytest"@]);
        }
    }
}

/// A worker that forks is never worn out, and any other one is after so many
/// runs.
pub proof fn law_only_a_worker_that_does_not_fork_wears_out(wear: Wear, worn: bool)
    requires
        call_ensures(Wear::is_exhausted, (&wear,), worn),
    ensures
        wear.forks ==> !worn,
        !wear.forks ==> (worn <==> wear.runs >= wear.recycle_after),
{
}

/// A worker that answered in time, or whose child alone ran out of it, goes on;
/// one that ran out of time itself is retired with its verdict; and one that
/// failed is retired without one.
pub proof fn law_a_worker_that_never_answered_is_retired(
    run: WarmRun,
    error: String,
    after: Aftermath,
)
    ensures
        call_ensures(aftermath, (Ok(run),), after) ==> {
            &&& after.report matches Some(report) && report.result == run.result
            &&& after.retire <==> run.result is TimedOut && !run.forked
            &&& !(run.result is TimedOut) ==> (after.report matches Some(report)
                && report.failed_tests@ == run.failed_tests@)
        },
        call_ensures(aftermath, (Err(error),), after) ==> after.report.is_none() && after.retire,
{
}

/// A reply that says so timed out, however it spaces the words, and names no
/// failed test. A reply says that its worker forks by naming the word.
pub proof fn law_a_reply_that_says_so_timed_out(before: Seq<char>, after: Seq<char>)
    ensures
        answer_in(before + "\"timed_out\": true"@ + after) matches Ok(answer)
            && answer.result is TimedOut && answer.failed_tests.len() == 0,
        answer_in(before + "\"timed_out\":true"@ + after) matches Ok(answer)
            && answer.result is TimedOut && answer.failed_tests.len() == 0,
{
    text::lemma_occurs_between(before, "\"timed_out\": true"@, after);
    text::lemma_occurs_between(before, "\"timed_out\":true"@, after);
}

/// A reply that names no exit code and no timeout cannot be read, and the reason
/// quotes it.
pub proof fn law_a_reply_without_a_code_is_refused(line: Seq<char>)
    requires
        !text::occurs(line, "\"exit_code\":"@),
        !text::occurs(line, "\"timed_out\": true"@),
        !text::occurs(line, "\"timed_out\":true"@),
    ensures
        answer_in(line) == Err::<Answer, Seq<char>>("no exit_code in worker reply: "@ + line),
{
    text::lemma_found(line, "\"exit_code\":"@, 0);
    if let Some(at) = text::found(line, "\"exit_code\":"@, 0) {
        assert(text::occurs_at(line, "\"exit_code\":"@, at));
    }
}

} // verus!
