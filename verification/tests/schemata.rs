use angelo::literals::Sums;
use angelo::mutate::{families, Mutant};
use angelo::operators::{float_literals, Operators};
use angelo::schemata::{rewrite, Schemata, SourceFile, ACTIVE_VAR, RUNTIME};

fn enumerate(source: &str) -> Vec<Mutant> {
    let pairs = float_literals(source)
        .unwrap()
        .into_iter()
        .filter_map(|number| {
            let value = number.parse::<f64>().ok()?;
            Some((number, (value + 1.0).to_string()))
        })
        .collect();
    let names: Vec<String> = families().iter().map(|name| name.to_string()).collect();
    Operators::new(&names, &[])
        .ok()
        .unwrap()
        .enumerate_source(source, "m.py", &Sums { pairs })
        .unwrap()
}

/// Enumerate a source the way a real run does, then keep the one mutant
/// whose original token matches, so the tests read as behaviour rather than
/// as byte offsets.
fn mutant_for(source: &str, original: &str, replacement: &str, id: i64) -> Mutant {
    let mut found = enumerate(source);
    let at = found
        .iter()
        .position(|m| m.original == original && m.replacement == replacement)
        .unwrap_or_else(|| panic!("no {original} -> {replacement} mutant in {source}"));
    let mut mutant = found.swap_remove(at);
    mutant.id = id;
    mutant
}

fn generated(source: &str, mutants: &[&Mutant]) -> String {
    rewrite(source, mutants)
        .unwrap()
        .expect("nothing was hosted")
        .source
}

#[test]
fn a_function_becomes_an_original_a_mutant_and_a_wrapper() {
    let source = "def add(a, b):\n    return a + b\n";
    let mutant = mutant_for(source, "+", "-", 7);
    let out = generated(source, &[&mutant]);
    assert!(out.contains("def add__angelo_orig(a, b):\n    return a + b"));
    assert!(out.contains("def add__angelo_7(a, b):\n    return a - b"));
    assert!(out.contains("add__angelo_mutants = {7: add__angelo_7}"));
    assert!(out.contains("def add(*_angelo_args, _angelo_orig=add__angelo_orig"));
    assert!(out.starts_with("from _angelo_rt import _angelo_pick\n"));
}

#[test]
fn a_method_keeps_its_indentation_and_its_class() {
    let source = "class C:\n    def m(self, x):\n        return x * 2\n";
    let mutant = mutant_for(source, "*", "/", 3);
    let out = generated(source, &[&mutant]);
    assert!(out.contains("    def m__angelo_orig(self, x):\n        return x * 2"));
    assert!(out.contains("    def m__angelo_3(self, x):\n        return x / 2"));
    assert!(out.contains("    m__angelo_mutants = {3: m__angelo_3}"));
    assert!(out.contains("    def m(*_angelo_args,"));
}

#[test]
fn several_mutants_of_one_function_share_the_family() {
    let source = "def f(a, b):\n    return a + b * 2\n";
    let plus = mutant_for(source, "+", "-", 1);
    let star = mutant_for(source, "*", "/", 2);
    let out = generated(source, &[&plus, &star]);
    assert!(out.contains("return a - b * 2"));
    assert!(out.contains("return a + b / 2"));
    assert!(out.contains("f__angelo_mutants = {1: f__angelo_1, 2: f__angelo_2}"));
}

#[test]
fn an_async_function_stays_awaitable() {
    let source = "async def go(x):\n    return x + 1\n";
    let mutant = mutant_for(source, "+", "-", 4);
    let out = generated(source, &[&mutant]);
    assert!(out.contains("async def go__angelo_orig(x):"));
    assert!(out.contains("async def go(*_angelo_args,"));
    assert!(out.contains("return await _angelo_pick"));
}

#[test]
fn a_generator_still_yields() {
    let source = "def counter(n):\n    for i in range(n):\n        yield i + 1\n";
    let mutant = mutant_for(source, "+", "-", 5);
    let out = generated(source, &[&mutant]);
    assert!(out.contains("def counter(*_angelo_args,"));
    assert!(out.contains("return (yield from _angelo_pick"));
}

#[test]
fn decorators_move_onto_the_wrapper() {
    let source = "class C:\n    @property\n    def size(self):\n        return 1 + 1\n";
    let mutant = mutant_for(source, "+", "-", 9);
    let out = generated(source, &[&mutant]);
    // The copies must not be decorated, or @property wraps them too.
    assert!(out.contains("    def size__angelo_orig(self):"));
    assert!(!out.contains("@property\n    def size__angelo_orig"));
    assert!(out.contains("    @property\n    def size(*_angelo_args,"));
}

#[test]
fn a_decorator_naming_its_own_function_is_left_alone() {
    let source = "class C:\n    @size.setter\n    def size(self, v):\n        self.x = v + 1\n";
    let mutant = mutant_for(source, "+", "-", 2);
    assert!(rewrite(source, &[&mutant]).unwrap().is_none());
}

#[test]
fn module_level_mutants_are_not_hosted() {
    let source = "TIMEOUT = 30 + 1\n";
    let mutant = mutant_for(source, "+", "-", 1);
    assert!(rewrite(source, &[&mutant]).unwrap().is_none());
}

#[test]
fn a_mutant_inside_a_nested_function_travels_with_the_outer_one() {
    let source = "def outer():\n    def inner(x):\n        return x + 1\n    return inner\n";
    let mutant = mutant_for(source, "+", "-", 6);
    let out = generated(source, &[&mutant]);
    assert!(out.contains("def outer__angelo_6():"));
    assert!(out.contains("return x - 1"));
}

#[test]
fn a_nested_yield_does_not_make_the_outer_function_a_generator() {
    let source = "def outer(n):\n    def gen():\n        yield n + 1\n    return gen\n";
    let mutant = mutant_for(source, "+", "-", 1);
    let out = generated(source, &[&mutant]);
    assert!(out.contains("return _angelo_pick"));
    assert!(!out.contains("yield from"));
}

#[test]
fn the_runtime_import_goes_after_future_imports_and_the_docstring() {
    let source =
        "\"\"\"Docs.\"\"\"\n\nfrom __future__ import annotations\n\ndef f(a):\n    return a + 1\n";
    let mutant = mutant_for(source, "+", "-", 1);
    let out = generated(source, &[&mutant]);
    let future = out.find("from __future__").unwrap();
    let runtime = out.find("from _angelo_rt").unwrap();
    assert!(future < runtime, "future import must stay first:\n{out}");
    assert!(out.starts_with("\"\"\"Docs.\"\"\""));
}

#[test]
fn a_stale_mutant_sends_its_function_back_to_the_splice_path() {
    let source = "def f(a, b):\n    return a + b\n";
    let mut mutant = mutant_for(source, "+", "-", 1);
    mutant.original = "*".to_string();
    assert!(rewrite(source, &[&mutant]).unwrap().is_none());
}

#[test]
fn everything_generated_is_valid_python() {
    let source = "\"\"\"Docs.\"\"\"\n\
         from __future__ import annotations\n\
         \n\
         LIMIT = 10 + 1\n\
         \n\
         \n\
         def top(a, b=2 * 3):\n\
         \x20   return a + b\n\
         \n\
         \n\
         async def fetch(url):\n\
         \x20   return len(url) - 1\n\
         \n\
         \n\
         def stream(n):\n\
         \x20   for i in range(n):\n\
         \x20       yield i * 2\n\
         \n\
         \n\
         class Box:\n\
         \x20   size = 3 + 4\n\
         \n\
         \x20   @property\n\
         \x20   def area(self):\n\
         \x20       return self.size * 2\n\
         \n\
         \x20   @staticmethod\n\
         \x20   def scale(x):\n\
         \x20       return x // 2\n\
         \n\
         \x20   def build(self):\n\
         \x20       def inner(y):\n\
         \x20           return y + 1\n\
         \x20       return inner\n";

    let numbered: Vec<Mutant> = enumerate(source)
        .into_iter()
        .enumerate()
        .map(|(index, mut mutant)| {
            mutant.id = index as i64 + 1;
            mutant
        })
        .collect();
    let borrowed: Vec<&Mutant> = numbered.iter().collect();

    let out = generated(source, &borrowed);
    if let Err(error) = ruff_python_parser::parse_module(&out) {
        panic!("generated source does not parse: {error}\n\n{out}");
    }
    // Every shape has to be present, or this passes by generating nothing.
    assert!(out.contains("async def fetch(*_angelo_args,"));
    assert!(out.contains("return (yield from _angelo_pick"));
    assert!(out.contains("    @staticmethod\n    def scale(*_angelo_args,"));
    // Module-level and class-attribute mutants have no function to copy.
    assert!(out.contains("LIMIT = 10 + 1"));
    assert!(out.contains("    size = 3 + 4"));
}

#[test]
fn a_mutant_that_would_not_compile_is_left_to_the_splice_path() {
    let source = "def jsonify(*args, **kwargs):\n    return dict(*args) or 1 + 1\n";
    let star = mutant_for(source, "*", "/", 1);
    let plus = mutant_for(source, "+", "-", 2);

    let rewritten = rewrite(source, &[&star, &plus]).unwrap().unwrap();
    assert_eq!(rewritten.hosted, [[2]], "only the mutant that compiles");
    assert!(!rewritten.source.contains("/args"));
    ruff_python_parser::parse_module(&rewritten.source).expect("must still parse");
}

#[test]
fn a_mutant_in_the_signature_is_not_hosted() {
    let source = "def f(limit=10 + 1):\n    return limit\n";
    let mutant = mutant_for(source, "+", "-", 1);
    assert!(rewrite(source, &[&mutant]).unwrap().is_none());
}

#[test]
fn two_mutants_of_one_function_share_a_host() {
    let source = "def f(a, b):\n    x = a + b\n    return x * a\n";
    let plus = mutant_for(source, "+", "-", 1);
    let times = mutant_for(source, "*", "/", 2);

    let rewritten = rewrite(source, &[&plus, &times]).unwrap().unwrap();
    assert_eq!(
        rewritten.hosted,
        [[1, 2]],
        "one function, so one group, so one run each"
    );
}

#[test]
fn the_active_variable_lists_every_batch_member() {
    let source = "def f(a, b):\n    return a + b\n";
    let one = mutant_for(source, "+", "-", 3);
    let two = mutant_for(source, "+", "-", 8);
    assert_eq!(Schemata::active_value(&[&one, &two]), "3,8");
    assert_eq!(Schemata::active_value(&[]), "");
}

#[test]
fn mutants_of_two_functions_have_two_hosts() {
    let source = "def f(a):\n    return a + 1\n\n\ndef g(a):\n    return a * 2\n";
    let mut plus = mutant_for(source, "+", "-", 1);
    let mut times = mutant_for(source, "*", "/", 2);
    plus.file = "m.py".to_string();
    times.file = "m.py".to_string();
    let sources = [SourceFile {
        file: "m.py".to_string(),
        source: source.to_string(),
    }];
    let schemata = Schemata::build(&sources, &[plus.clone(), times.clone()]);
    assert_eq!(schemata.hosted_count(), 2);
    assert!(!schemata.is_empty());
    assert!(schemata.hosts(&plus));
    assert_ne!(schemata.host(&plus), schemata.host(&times));
    assert!(schemata.generated_for("m.py").unwrap().contains("f__angelo_1"));
    assert!(schemata.generated_for("other.py").is_none());
    assert_eq!(schemata.generated_count(), 1);
    assert_eq!(schemata.generated_at(0).0, "m.py");
}

#[test]
fn a_file_that_does_not_parse_hosts_nothing() {
    let sources = [SourceFile {
        file: "m.py".to_string(),
        source: "def f(:\n".to_string(),
    }];
    let mut mutant = mutant_for("x = 1 + 2\n", "+", "-", 1);
    mutant.file = "m.py".to_string();
    let schemata = Schemata::build(&sources, &[mutant]);
    assert!(schemata.is_empty());
    assert!(rewrite("def f(:\n", &[]).is_err());
}

#[test]
fn the_runtime_reads_the_active_variable() {
    assert!(RUNTIME.contains(&format!("\"{ACTIVE_VAR}\"")));
    assert!(RUNTIME.contains("def _angelo_pick("));
    ruff_python_parser::parse_module(RUNTIME).expect("the runtime is Python");
}

/// One function holds both, whichever class it stands in; module level, a class
/// attribute, a decorator and a signature host nothing.
#[test]
fn a_host_is_shared_within_one_function() {
    let source = "x = 1 - 2\n\n\nclass A:\n    y = 3 // 4\n\n    @p(5 % 6)\n    def f(self, a=7 ** 8):\n        def inner():\n            return a + 1\n        return inner() * 2\n\n    def g(self, a):\n        return a / 3\n";
    let mut pool = [
        mutant_for(source, "-", "+", 1),
        mutant_for(source, "//", "/", 2),
        mutant_for(source, "%", "/", 3),
        mutant_for(source, "**", "*", 4),
        mutant_for(source, "+", "-", 5),
        mutant_for(source, "*", "/", 6),
        mutant_for(source, "/", "*", 7),
    ];
    for mutant in pool.iter_mut() {
        mutant.file = "m.py".to_string();
    }
    let sources = [SourceFile {
        file: "m.py".to_string(),
        source: source.to_string(),
    }];
    let schemata = Schemata::build(&sources, &pool);
    for outside in &pool[..4] {
        assert_eq!(schemata.host(outside), None);
        assert!(!schemata.hosts(outside));
    }
    for inside in &pool[4..] {
        assert!(schemata.host(inside).is_some());
        assert!(schemata.hosts(inside));
    }
    assert_eq!(schemata.host(&pool[4]), schemata.host(&pool[5]));
    assert_ne!(schemata.host(&pool[5]), schemata.host(&pool[6]));
}
