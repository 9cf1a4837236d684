//! How much a run says about itself.
//!
//! The split this module exists to enforce: **results go to stdout, commentary
//! goes to stderr.** The report is the program's output and prints at any
//! verbosity. Everything else is commentary, and a level can silence it.

use vstd::prelude::*;

use crate::text;

verus! {

broadcast use vstd::seq_lib::group_seq_properties;

/// How much commentary a run prints. `error` still prints the whole report,
/// because the report is not commentary.
#[derive(Clone, Copy, Debug, PartialEq, Eq, Structural)]
pub enum Verbosity {
    Error,
    Warn,
    Info,
    Debug,
    Trace,
}

/// What settled the level.
#[derive(Debug, PartialEq, Eq)]
pub enum Chosen {
    /// `--verbosity`, which beats everything.
    Flag(Verbosity),
    /// `RUST_LOG`, kept as it was written because it can name per-module levels.
    RustLog(String),
    /// Nobody asked, so `CI` decides.
    Default(Verbosity),
}

/// What settles the level.
pub open spec fn settled_by(flag: Option<Verbosity>, rust_log: Option<String>, ci: bool) -> Chosen {
    match flag {
        Some(verbosity) => Chosen::Flag(verbosity),
        None => match rust_log {
            Some(spec) => if text::trimmed(spec@).len() > 0 {
                Chosen::RustLog(spec)
            } else {
                unasked(ci)
            },
            None => unasked(ci),
        },
    }
}

/// The level when nobody asked.
pub open spec fn unasked(ci: bool) -> Chosen {
    Chosen::Default(
        if ci {
            Verbosity::Warn
        } else {
            Verbosity::Info
        },
    )
}

/// Highest wins: the flag, then `RUST_LOG`, then whether this looks like CI.
///
/// `CI` replaces guessing from the platform. GitHub Actions sets it on Windows
/// and macOS runners too, so it is the signal that actually means nobody is
/// watching this scroll past.
pub fn precedence(flag: Option<Verbosity>, rust_log: Option<String>, ci: bool) -> (chosen: Chosen)
    ensures
        chosen == settled_by(flag, rust_log, ci),
{
    match flag {
        Some(verbosity) => return Chosen::Flag(verbosity),
        None => {},
    }
    match rust_log {
        Some(spec) => {
            let trimmed: String = text::trim(spec.as_str());
            if !trimmed.as_str().is_empty() {
                return Chosen::RustLog(spec);
            }
        },
        None => {},
    }
    Chosen::Default(
        if ci {
            Verbosity::Warn
        } else {
            Verbosity::Info
        },
    )
}

/// A flag decides whatever else is set, and `RUST_LOG` decides over `CI`.
pub proof fn law_the_flag_beats_everything(flag: Verbosity, spec: String, ci: bool)
    requires
        text::trimmed(spec@).len() > 0,
    ensures
        forall|rust_log: Option<String>| #[trigger]
            settled_by(Some(flag), rust_log, ci) == Chosen::Flag(flag),
        settled_by(None, Some(spec), ci) == Chosen::RustLog(spec),
{
}

/// A character in lower case, as far as it is a letter of ASCII.
pub open spec fn lower(c: char) -> char {
    if 'A' <= c && c <= 'Z' {
        (c as u32 + 32) as u8 as char
    } else {
        c
    }
}

/// A text in lower case, as far as its letters are of ASCII.
pub open spec fn lowered(s: Seq<char>) -> Seq<char> {
    s.map_values(|c: char| lower(c))
}

fn lower_case(s: &str) -> (out: String)
    ensures
        out@ == lowered(s@),
{
    let chars: Vec<char> = text::chars_of(s);
    let mut out: String = String::new();
    assert(out@ =~= lowered(chars@.subrange(0, 0)));
    let mut at: usize = 0;
    while at < chars.len()
        invariant
            at <= chars@.len(),
            out@ == lowered(chars@.subrange(0, at as int)),
        decreases chars@.len() - at,
    {
        let c: char = chars[at];
        let ghost before = out@;
        if 'A' <= c && c <= 'Z' {
            out.push((c as u32 + 32) as u8 as char);
        } else {
            out.push(c);
        }
        assert(out@ =~= before.push(lower(c)));
        assert(lowered(chars@.subrange(0, at + 1)) =~= before.push(lower(c)));
        at += 1;
    }
    assert(chars@.subrange(0, at as int) =~= s@);
    out
}

/// Whether a value of `CI` claims that this is one.
pub open spec fn claims_ci(value: Option<String>) -> bool {
    match value {
        Some(value) => {
            let said = lowered(text::trimmed(value@));
            said.len() > 0 && said != "false"@ && said != "0"@
        },
        None => false,
    }
}

/// `CI` counts when it is set to anything meaningful. `false` and `0` are how a
/// person turns it back off, and an empty value is not a claim either way.
pub fn looks_like_ci(value: Option<String>) -> (yes: bool)
    ensures
        yes == claims_ci(value),
{
    match value {
        Some(value) => {
            let trimmed: String = text::trim(value.as_str());
            let said: String = lower_case(trimmed.as_str());
            !said.as_str().is_empty() && !text::same(said.as_str(), "false") && !text::same(
                said.as_str(),
                "0",
            )
        },
        None => false,
    }
}

/// The time in an RFC 3339 stamp, or the stamp when there is none in it.
pub open spec fn time_in(stamp: Seq<char>) -> Seq<char> {
    match text::halves(stamp, 'T') {
        Some((_, rest)) => match text::halves(rest, 'Z') {
            Some((time, _)) => time,
            None => stamp,
        },
        None => stamp,
    }
}

/// The wall clock, without the date the reader already knows: what sits between
/// the `T` and the `Z`.
pub fn clock(stamp: &str) -> (time: String)
    ensures
        time@ == time_in(stamp@),
{
    match text::split_once(stamp, 'T') {
        Some((_, rest)) => match text::split_once(rest.as_str(), 'Z') {
            Some((time, _)) => time,
            None => text::owned(stamp),
        },
        None => text::owned(stamp),
    }
}

/// When nobody asked, a run in CI says less: warnings only. A `RUST_LOG` of
/// nothing but white space asks for nothing.
pub proof fn law_ci_is_quieter(rust_log: Option<String>)
    requires
        rust_log matches Some(spec) ==> text::is_blank(spec@),
    ensures
        settled_by(None, rust_log, true) == Chosen::Default(Verbosity::Warn),
        settled_by(None, rust_log, false) == Chosen::Default(Verbosity::Info),
{
    if let Some(spec) = rust_log {
        text::law_trimming_takes_white_space_only(spec@);
        let trimmed = text::trimmed(spec@);
        if trimmed.len() > 0 {
            let (from, to) = choose|from: int, to: int|
                0 <= from <= to <= spec@.len() && #[trigger] spec@.subrange(from, to) == trimmed
                    && text::is_blank(spec@.subrange(0, from)) && text::is_blank(
                    spec@.subrange(to, spec@.len() as int),
                );
            assert(trimmed[0] == spec@[from]);
            assert(text::is_space_spec(spec@[from]));
        }
    }
}

/// A character is lowered exactly when it is a capital of ASCII, by the distance
/// between the two alphabets.
pub proof fn law_only_capitals_are_lowered(s: Seq<char>)
    ensures
        lowered(s).len() == s.len(),
        forall|i: int|
            0 <= i < s.len() ==> {
                let c = #[trigger] lowered(s)[i];
                if 'A' <= s[i] <= 'Z' {
                    c as u32 == s[i] as u32 + 32
                } else {
                    c == s[i]
                }
            },
{
    assert forall|i: int| 0 <= i < s.len() implies {
        let c = #[trigger] lowered(s)[i];
        if 'A' <= s[i] <= 'Z' {
            c as u32 == s[i] as u32 + 32
        } else {
            c == s[i]
        }
    } by {
        let c = s[i];
        if 'A' <= c <= 'Z' {
            assert(65 <= c as u32 <= 90);
            assert(lowered(s)[i] == (c as u32 + 32) as u8 as char);
        }
    }
}

/// `CI` is claimed by every value but an absent one, an empty one, a zero and a
/// `false` in any case.
pub proof fn law_only_a_denial_is_no_claim(value: String)
    ensures
        !claims_ci(None),
        claims_ci(Some(value)) <==> {
            let said = lowered(text::trimmed(value@));
            said.len() > 0 && said != seq!['0'] && said != seq!['f', 'a', 'l', 's', 'e']
        },
{
    reveal_strlit("0");
    reveal_strlit("false");
    assert("0"@ =~= seq!['0']);
    assert("false"@ =~= seq!['f', 'a', 'l', 's', 'e']);
}

/// The clock is what stands between the `T` of a stamp and the `Z` behind it.
pub proof fn law_the_clock_stands_between_t_and_z(
    date: Seq<char>,
    time: Seq<char>,
    rest: Seq<char>,
)
    requires
        !date.contains('T'),
        !time.contains('Z'),
    ensures
        time_in(date + seq!['T'] + (time + seq!['Z'] + rest)) == time,
        time_in(date) == date,
{
    text::law_cutting_undoes_joining(date, 'T', time + seq!['Z'] + rest);
    text::law_cutting_undoes_joining(time, 'Z', rest);
    text::law_a_text_is_cut_at_its_first_separator(date, 'T');
}

} // verus!
