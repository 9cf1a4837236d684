use angelo::lines::{Lines, Position};
use angelo::literals::{bumped_number, float_text, string_variants, swapped, Sums};
use angelo::mutate::{default_arid, default_families, families, statuses, Mutant, Status};
use angelo::operators::{float_literals, OperatorError, Operators};

const MUTABLE_TOKENS: &[(&str, &[&str])] = &[
    ("Plus", &["-"]),
    ("Minus", &["+"]),
    ("Star", &["/"]),
    ("Slash", &["*"]),
    ("DoubleSlash", &["/"]),
    ("Percent", &["/"]),
    ("DoubleStar", &["*"]),
    ("Amper", &["|"]),
    ("Vbar", &["&"]),
    ("CircumFlex", &["&"]),
    ("LeftShift", &[">>"]),
    ("RightShift", &["<<"]),
    ("EqEqual", &["!="]),
    ("NotEqual", &["=="]),
    ("Less", &["<=", ">="]),
    ("LessEqual", &["<", ">"]),
    ("Greater", &[">=", "<="]),
    ("GreaterEqual", &[">", "<"]),
    ("And", &["or"]),
    ("Or", &["and"]),
    ("True", &["False"]),
    ("False", &["True"]),
    ("Break", &["return"]),
    ("Continue", &["break"]),
    ("Is", &["is not"]),
    ("PlusEqual", &["-="]),
    ("MinusEqual", &["+="]),
    ("StarEqual", &["/="]),
    ("SlashEqual", &["*="]),
    ("DoubleSlashEqual", &["/="]),
    ("PercentEqual", &["/="]),
    ("DoubleStarEqual", &["*="]),
    ("AmperEqual", &["|="]),
    ("VbarEqual", &["&="]),
    ("CircumflexEqual", &["&="]),
    ("LeftShiftEqual", &[">>="]),
    ("RightShiftEqual", &["<<="]),
];

fn owned(list: &[&str]) -> Vec<String> {
    list.iter().map(|name| name.to_string()).collect()
}

/// The numbers of a source that only floating point can make one bigger.
fn sums(source: &str) -> Sums {
    let pairs = float_literals(source)
        .unwrap()
        .into_iter()
        .filter_map(|number| {
            let value = number.parse::<f64>().ok()?;
            Some((number, (value + 1.0).to_string()))
        })
        .collect();
    Sums { pairs }
}

fn no_sums() -> Sums {
    Sums { pairs: Vec::new() }
}

fn everything() -> Operators {
    Operators::new(&owned(&families()), &[]).ok().unwrap()
}

fn enumerate_source(source: &str, file: &str) -> Vec<Mutant> {
    everything()
        .enumerate_source(source, file, &sums(source))
        .unwrap()
}

fn mutants(source: &str) -> Vec<Mutant> {
    enumerate_source(source, "x.py")
}

/// What a run with no config of its own would plant.
fn by_default(source: &str) -> Vec<Mutant> {
    Operators::new(&owned(&default_families()), &owned(&default_arid()))
        .ok()
        .unwrap()
        .enumerate_source(source, "x.py", &sums(source))
        .unwrap()
}

fn changes(source: &str) -> Vec<(String, String)> {
    mutants(source)
        .into_iter()
        .map(|m| (m.original, m.replacement))
        .collect()
}

fn pair(original: &str, replacement: &str) -> (String, String) {
    (original.to_string(), replacement.to_string())
}

fn on(original: &str) -> Mutant {
    Mutant {
        id: 0,
        file: String::new(),
        line: 1,
        byte_start: 0,
        byte_end: 0,
        original: original.to_string(),
        replacement: String::new(),
    }
}

#[test]
fn every_listed_token_produces_its_replacements() {
    for (kind, replacements) in MUTABLE_TOKENS {
        assert_eq!(swapped(kind), *replacements, "{kind:?}");
    }
    assert!(swapped("Name").is_empty());
}

#[test]
fn mutate_swaps_arithmetic_and_bumps_numbers() {
    let found = changes("a = 1 + 2 * 3\n");
    assert!(found.contains(&pair("+", "-")));
    assert!(found.contains(&pair("*", "/")));
    assert!(found.contains(&pair("1", "2")));
    assert!(found.contains(&pair("3", "4")));
}

#[test]
fn mutate_swaps_augmented_assignment_and_bitwise() {
    let found = changes("x //= 2\ny ^= 3\nz <<= 4\n");
    assert!(found.contains(&pair("//=", "/=")));
    assert!(found.contains(&pair("^=", "&=")));
    assert!(found.contains(&pair("<<=", ">>=")));
}

#[test]
fn mutate_bumps_numbers_in_any_base() {
    let none = no_sums();
    assert_eq!(bumped_number("41", &none), Some("42".to_string()));
    assert_eq!(bumped_number("1_000", &none), Some("1001".to_string()));
    assert_eq!(bumped_number("0x0f", &none), Some("16".to_string()));
    assert_eq!(bumped_number("0b101", &none), Some("6".to_string()));
    assert_eq!(bumped_number("0o17", &none), Some("16".to_string()));
    let clean = float_text("1.5").unwrap();
    let sum = (clean.parse::<f64>().unwrap() + 1.0).to_string();
    let table = Sums { pairs: vec![(clean, sum)] };
    assert_eq!(bumped_number("1.5", &table), Some("2.5".to_string()));
    assert!(changes("a = 1.5\n").contains(&pair("1.5", "2.5")));
}

#[test]
fn a_number_no_table_knows_is_left_alone() {
    assert_eq!(bumped_number("1.5", &no_sums()), None);
    assert_eq!(float_text("0x1f"), None);
    assert_eq!(float_text("1_0"), None);
    assert_eq!(float_text("1_0.5"), Some("10.5".to_string()));
}

#[test]
fn mutate_wraps_strings_and_flips_their_case() {
    let variants = string_variants("\"abc\"");
    assert!(variants.contains(&"\"XXabcXX\"".to_string()));
    assert!(variants.contains(&"\"ABC\"".to_string()));
    // A docstring is not a fault worth planting.
    assert!(string_variants("\"\"\"docs\"\"\"").is_empty());
    // No letters means no case variant, only the XX marker.
    assert_eq!(string_variants("\"123\"").len(), 1);
}

#[test]
fn case_variants_follow_what_upper_and_lower_case_really_are() {
    let variants = string_variants("'straße É'");
    assert!(variants.contains(&"'STRASSE É'".to_string()), "{variants:?}");
    assert!(variants.contains(&"'straße é'".to_string()), "{variants:?}");
}

#[test]
fn mutate_removes_unary_not_and_invert() {
    let found = changes("if not ready:\n    pass\n");
    assert!(found.contains(&pair("not", "")));
    assert!(changes("x = ~y\n").contains(&pair("~", "")));
}

#[test]
fn mutate_swaps_string_methods_only_on_attributes() {
    assert!(changes("s.lower()\n").contains(&pair("lower", "upper")));
    // A local variable that happens to be called `lower` is not a method.
    assert!(!changes("lower = 1\n").iter().any(|(o, _)| o == "lower"));
}

#[test]
fn mutate_leaves_the_in_of_a_for_loop_alone() {
    assert!(!changes("for x in items:\n    pass\n")
        .iter()
        .any(|(o, _)| o == "in"));
    // A real membership test is still fair game via `not`.
    assert!(changes("if x not in items:\n    pass\n")
        .iter()
        .any(|(o, _)| o == "not"));
}

#[test]
fn mutate_leaves_strings_inside_code_alone_but_mutates_the_literal() {
    let found = changes("s = 'a + b'\n");
    // The `+` is text, not an operator, so nothing may be planted on it.
    assert!(!found.iter().any(|(original, _)| original == "+"));
    assert!(found.iter().any(|(original, _)| original == "'a + b'"));
}

#[test]
fn mutate_splicing_writes_the_replacement_in_place() {
    let mut source = "x = 1 < 2\n".to_string();
    let mutant = mutants(&source)
        .into_iter()
        .find(|m| m.original == "<")
        .unwrap();
    mutant.splice_into(&mut source);
    assert_eq!(source, "x = 1 <= 2\n");
}

#[test]
fn mutate_line_numbers_start_at_one() {
    let found = mutants("a = 1\nb = 2 + 3\n");
    assert!(found.iter().all(|m| m.line >= 1));
    assert_eq!(found.iter().find(|m| m.original == "+").unwrap().line, 2);
}

#[test]
fn mutate_line_numbers_pick_up_where_the_last_answer_left_off() {
    let source = "a = 1\nb = 2\n\n\nc = 3\n";
    let mut lines = Lines::default();
    assert_eq!(lines.at(source, 0), 1);
    assert_eq!(lines.at(source, 4), 1);
    assert_eq!(lines.at(source, 4), 1);
    assert_eq!(lines.at(source, 6), 2);
    assert_eq!(lines.at(source, 14), 5);
    assert_eq!(lines.at(source, source.len()), 6);
}

#[test]
fn mutate_line_numbers_survive_multibyte_characters() {
    let found = mutants("s = 'héllo'\nn = 1 + 2\n");
    assert_eq!(found.iter().find(|m| m.original == "+").unwrap().line, 2);
}

#[test]
fn mutate_statuses_survive_a_round_trip() {
    for status in statuses() {
        assert_eq!(Status::parse(status.as_str()), Some(status));
    }
    assert_eq!(Status::parse("pending"), None);
    assert!(Status::Timeout.is_detected());
    assert!(!Status::Survived.is_detected());
    // A mutant nobody could fairly try is not a mutant nobody detected.
    assert!(!Status::Untestable.is_detected());
}

#[test]
fn mutate_coverage_file_uses_forward_slashes() {
    let found = enumerate_source("a = 1 + 2\n", "src\\pkg\\mod.py");
    assert_eq!(found[0].coverage_file(), "src/pkg/mod.py");
}

#[test]
fn every_leading_dot_is_left_out_of_a_report() {
    for path in ["././calc.py", ".\\./calc.py", "./.\\./calc.py"] {
        let found = enumerate_source("a = 1 + 2\n", path);
        assert_eq!(found[0].report_path(), "calc.py");
    }
    let parent = enumerate_source("a = 1 + 2\n", "./../calc.py");
    assert_eq!(parent[0].report_path(), "../calc.py");
}

#[test]
fn mutate_a_report_path_is_relative_and_forward_slashed() {
    let windows = enumerate_source("a = 1 + 2\n", ".\\src\\pkg\\mod.py");
    assert_eq!(windows[0].report_path(), "src/pkg/mod.py");
    let plain = enumerate_source("a = 1 + 2\n", "./calc.py");
    assert_eq!(plain[0].report_path(), "calc.py");
    let bare = enumerate_source("a = 1 + 2\n", "calc.py");
    assert_eq!(bare[0].report_path(), "calc.py");
}

#[test]
fn mutate_a_removal_reads_clearly_in_the_report() {
    let mutant = mutants("if not ready:\n    pass\n")
        .into_iter()
        .find(|m| m.original == "not")
        .unwrap();
    assert!(mutant.to_text().contains("<removed>"));
}

#[test]
fn a_long_original_is_abridged() {
    let mut mutant = on("return some_rather_long_expression(1)");
    mutant.file = "m.py".to_string();
    mutant.replacement = "pass".to_string();
    assert_eq!(mutant.to_text(), "m.py:1 return some_rather_long_… -> pass");
}

#[test]
fn mutate_positions_count_from_one_on_both_axes() {
    let source = "a = 1\nbb = 22\n";
    let mut lines = Lines::default();
    assert_eq!(lines.position(source, 0), Position { line: 1, column: 1 });
    assert_eq!(lines.position(source, 4), Position { line: 1, column: 5 });
    assert_eq!(lines.position(source, 6), Position { line: 2, column: 1 });
    assert_eq!(lines.position(source, 8), Position { line: 2, column: 3 });
}

#[test]
fn mutate_columns_count_characters_rather_than_bytes() {
    let source = "s = 'héllo' + x\n";
    let plus = source.find('+').expect("the operator");
    let mut lines = Lines::default();
    assert_eq!(
        lines.position(source, plus),
        Position { line: 1, column: 13 }
    );
}

#[test]
fn mutate_a_run_of_newlines_still_restarts_the_column() {
    let source = "a = 1\n\n\n    b = 2\n";
    let mut lines = Lines::default();
    assert_eq!(lines.position(source, 12), Position { line: 4, column: 5 });
}

#[test]
fn an_offset_behind_the_cursor_repeats_the_last_line() {
    let source = "a\nb\nc\n";
    let mut lines = Lines::default();
    assert_eq!(lines.at(source, 4), 3);
    assert_eq!(lines.at(source, 0), 3);
    assert_eq!(lines.at(source, 99), 3);
}

#[test]
fn mutate_the_schema_splits_survived_on_whether_anything_ran() {
    assert_eq!(Status::Survived.schema_name(true), "Survived");
    assert_eq!(Status::Survived.schema_name(false), "NoCoverage");
    assert_eq!(Status::Killed.schema_name(true), "Killed");
    assert_eq!(Status::Timeout.schema_name(true), "Timeout");
    assert_eq!(Status::Untestable.schema_name(false), "Ignored");
}

#[test]
fn mutate_an_errored_mutant_stays_visible_in_the_schema() {
    assert_eq!(Status::Error.schema_name(true), "RuntimeError");
}

#[test]
fn mutate_every_operator_has_a_family() {
    for (_, replacements) in MUTABLE_TOKENS {
        for replacement in *replacements {
            assert_ne!(
                on(replacement).mutator(),
                "MethodExpression",
                "{replacement:?} fell through to the catch-all"
            );
        }
    }
}

#[test]
fn mutate_families_name_what_the_mutant_actually_did() {
    let family = |source: &str, original: &str| {
        mutants(source)
            .into_iter()
            .find(|m| m.original == original)
            .unwrap_or_else(|| panic!("no mutant on {original:?}"))
            .mutator()
    };
    assert_eq!(family("a = 1 + 2\n", "+"), "ArithmeticOperator");
    assert_eq!(family("a = b << 2\n", "<<"), "BitwiseOperator");
    assert_eq!(family("a = b >= 2\n", ">="), "EqualityOperator");
    assert_eq!(family("a = b and c\n", "and"), "LogicalOperator");
    assert_eq!(family("a = True\n", "True"), "BooleanLiteral");
    assert_eq!(family("a = 1\n", "1"), "NumberLiteral");
    assert_eq!(family("a = 'hi'\n", "'hi'"), "StringLiteral");
    assert_eq!(family("if not a:\n    pass\n", "not"), "UnaryOperator");
    assert_eq!(family("a += 1\n", "+="), "AssignmentOperator");
    assert_eq!(family("a = b.lower()\n", "lower"), "MethodExpression");
    assert_eq!(family("a = b is c\n", "is"), "ConditionalExpression");
}

#[test]
fn an_ordering_operator_gets_the_boundary_and_the_negation() {
    let found = changes("if a < b:\n    pass\n");
    assert!(found.contains(&pair("<", "<=")), "{found:?}");
    assert!(found.contains(&pair("<", ">=")), "{found:?}");
    // Equality has no boundary neighbour, so it keeps its one swap.
    let equality = changes("if a == b:\n    pass\n");
    let swaps: Vec<&(String, String)> = equality.iter().filter(|(o, _)| o == "==").collect();
    assert_eq!(swaps.len(), 1, "{equality:?}");
}

#[test]
fn deletes_a_statement_by_replacing_it_with_pass() {
    let found = changes("def f(x):\n    x.append(1)\n    return x\n");
    assert!(found.contains(&pair("x.append(1)", "pass")), "{found:?}");
    assert!(found.contains(&pair("return x", "pass")), "{found:?}");
}

#[test]
fn deletes_a_whole_block_and_the_statements_inside_it() {
    let source = "def f(x):\n    if x:\n        return 1\n    return 2\n";
    let found = changes(source);
    assert!(
        found.contains(&pair("if x:\n        return 1", "pass")),
        "{found:?}"
    );
    assert!(found.contains(&pair("return 1", "pass")), "{found:?}");
}

#[test]
fn leaves_alone_the_statements_deletion_cannot_learn_from() {
    let source = "\
import os

def f():
    \"a docstring\"
    return
";
    let deletions: Vec<(String, String)> = changes(source)
        .into_iter()
        .filter(|(_, replacement)| replacement == "pass")
        .collect();
    assert!(deletions.is_empty(), "{deletions:?}");
}

#[test]
fn replaces_a_condition_with_a_constant() {
    let found = changes("if a and b:\n    pass\n");
    assert!(found.contains(&pair("a and b", "True")), "{found:?}");
    assert!(found.contains(&pair("a and b", "False")), "{found:?}");
    // An `elif` is a condition too, and the token stream cannot see it.
    let chained = changes("if a:\n    pass\nelif b:\n    pass\n");
    assert!(chained.contains(&pair("b", "False")), "{chained:?}");
}

#[test]
fn a_while_condition_never_becomes_true() {
    let found = changes("while ready:\n    pass\n");
    assert!(found.contains(&pair("ready", "False")), "{found:?}");
    assert!(!found.contains(&pair("ready", "True")), "{found:?}");
    // A condition that is already constant has nothing to learn. Its
    // literal is still swapped; what must not appear is a second mutant
    // rewriting the condition into the constant it already is.
    assert!(!mutants("while True:\n    break\n")
        .iter()
        .any(|m| m.mutator() == "ConditionalExpression"));
}

#[test]
fn arid_calls_and_dunder_repr_are_left_alone() {
    let source = "\
class Thing:
    def __repr__(self):
        return \"Thing(%d)\" % (1 + 1)

    def run(self, n):
        self.logger.info(\"n is %d\", n + 1)
        print(n * 2)
        return n - 1
";
    let lines: Vec<u32> = by_default(source).iter().map(|m| m.line).collect();
    // Only `run`'s own return is left, and it is mutated and deleted.
    assert_eq!(lines, vec![8, 8], "{lines:?}");
}

#[test]
fn the_note_reports_what_was_turned_away() {
    let mut operators = Operators::new(&owned(&default_families()), &owned(&default_arid()))
        .ok()
        .unwrap();
    let source = "print(1 + 1)\ns = 'x'\n";
    operators
        .enumerate_source(source, "x.py", &sums(source))
        .unwrap();
    let note = operators.note();
    assert!(note.contains("skipped by operators"), "{note}");
    assert!(note.contains("3 as arid"), "{note}");
    assert!(everything().note().is_empty());
}

#[test]
fn the_default_set_leaves_out_what_the_evidence_does_not_support() {
    let found = by_default("def f(n):\n    return not n + 1\n");
    let named: Vec<&str> = found.iter().map(|m| m.mutator()).collect();
    assert!(!named.contains(&"UnaryOperator"), "{named:?}");
    assert!(!named.contains(&"NumberLiteral"), "{named:?}");
    assert!(named.contains(&"ArithmeticOperator"), "{named:?}");
    assert!(named.contains(&"BlockStatement"), "{named:?}");
    // And everything is still reachable by asking for it.
    assert!(mutants("def f(n):\n    return not n + 1\n")
        .iter()
        .any(|m| m.mutator() == "UnaryOperator"));
}

#[test]
fn an_unknown_family_is_refused() {
    let wrong = vec!["ArithmeticOperator".to_string(), "Relational".to_string()];
    let error = Operators::new(&wrong, &[])
        .err()
        .expect("an unknown family stops the run")
        .to_text();
    assert!(error.contains("Relational"), "{error}");
    assert!(Operators::new(&[], &[]).is_err());
}

#[test]
fn an_empty_family_list_is_its_own_error() {
    assert!(matches!(
        Operators::new(&[], &[]).err(),
        Some(OperatorError::Empty)
    ));
    let odd = vec!["a\"b\n".to_string()];
    let message = Operators::new(&odd, &[]).err().unwrap().to_text();
    // The name is shown the way a string is written down, not raw.
    assert!(message.contains("\"a\\\"b\\n\""), "{message}");
}

#[test]
fn every_family_is_listed() {
    let source = "\
class Thing:
    def run(self, n, s, flag):
        n += 1
        n = n + 1 & 2 << 3
        if flag and n > 1 is None:
            return not True
        while flag:
            break
        return s.lower() + 'x' + str(1.5)
";
    for mutant in mutants(source) {
        assert!(
            families().contains(&mutant.mutator()),
            "{:?} -> {:?} is a {} that the list does not hold",
            mutant.original,
            mutant.replacement,
            mutant.mutator()
        );
    }
    for family in default_families() {
        assert!(families().contains(&family), "{family}");
    }
}

#[test]
fn a_deleted_statement_is_named_for_the_deletion() {
    let found = mutants("while x:\n    break\n");
    let deleted = found
        .iter()
        .find(|m| m.original == "break" && m.replacement == "pass")
        .expect("the deletion");
    assert_eq!(deleted.mutator(), "BlockStatement");
    let swapped = found
        .iter()
        .find(|m| m.original == "break" && m.replacement == "return")
        .expect("the swap");
    assert_eq!(swapped.mutator(), "StatementSwap");
}

#[test]
fn a_condition_is_named_apart_from_the_operators_inside_it() {
    let found = mutants("if a > b:\n    pass\n");
    let condition = found
        .iter()
        .find(|m| m.original == "a > b")
        .expect("the condition");
    assert_eq!(condition.mutator(), "ConditionalExpression");
    let operator = found.iter().find(|m| m.original == ">").expect("the >");
    assert_eq!(operator.mutator(), "EqualityOperator");
}

#[test]
fn mutate_a_prefixed_string_is_still_a_string() {
    assert_eq!(on("f'{x}'").mutator(), "StringLiteral");
    assert_eq!(on("rb\"raw\"").mutator(), "StringLiteral");
}

#[test]
fn mutants_come_in_byte_order_and_fit_their_source() {
    let source = "def f(a, b):\n    if a < b and not a:\n        return a + 1\n    return 'x'\n";
    let found = mutants(source);
    assert!(found.len() > 8);
    for pair in found.windows(2) {
        assert!(pair[0].byte_start <= pair[1].byte_start);
    }
    for mutant in &found {
        assert_eq!(
            &source[mutant.byte_start..mutant.byte_end],
            mutant.original
        );
        assert_ne!(mutant.original, mutant.replacement);
        let line = source[..mutant.byte_start].matches('\n').count() as u32 + 1;
        assert_eq!(mutant.line, line);
    }
}

#[test]
fn a_file_that_does_not_parse_gives_the_parser_message() {
    let error = everything()
        .enumerate_source("def f(:\n", "x.py", &no_sums())
        .err()
        .expect("a broken file");
    assert!(!error.is_empty());
    assert!(float_literals("def f(:\n").is_err());
}

#[test]
fn only_survivors_raise_a_rule() {
    assert_eq!(Status::Survived.sonar_rule(true), Some("MutantSurvived"));
    assert_eq!(Status::Survived.sonar_rule(false), Some("MutantNoCoverage"));
    assert_eq!(Status::Killed.sonar_rule(true), None);
}

/// The cursor only moves on: an offset behind it gets the last answer again, and
/// the next one ahead is counted as if nothing had been asked in between.
#[test]
fn an_offset_behind_the_cursor_repeats_the_last_answer() {
    let source = "ab = 1\ncd = 2\n";
    let mut lines = Lines::default();
    assert_eq!(lines.position(source, 9), Position { line: 2, column: 3 });
    assert_eq!(lines.position(source, 0), Position { line: 2, column: 3 });
    assert_eq!(lines.at(source, 0), 2);
    assert_eq!(lines.position(source, 9), Position { line: 2, column: 3 });
    assert_eq!(lines.position(source, 12), Position { line: 2, column: 6 });
    assert_eq!(lines.locate(source, 0), Position { line: 1, column: 1 });
    assert_eq!(lines.locate(source, 3), Position { line: 1, column: 4 });
}
