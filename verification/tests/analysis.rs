use shuttle::analysis::{
    begin_check, check_bounded, check_definition, check_definition_in_worker, check_inputs,
    find_mode_downgrade, judge_tokens, locate_in, locate_output_key, mode_downgrade_diagnostic, scan_requires,
    scan_source, screen_definition, screen_source, screen_text, worker_diagnostics, Args, CallArgs, CallSite,
    CheckRequest, Diagnostic, Expr, FieldKey, Link, LexedToken, ParseFault, PlainCall, RequireScan,
    SourceRange, Span, LITERAL_REQUIRE_MESSAGE, MAX_SEED_MODULES,
};

const CLEAN: &str = r#"
--!strict
local function snap(meta: {
    name: string,
    version: string,
}): { name: string, version: string }
    return { name = meta.name, version = meta.version }
end

snap { name = "hello", version = "2.10" }
"#;

fn requires_of(source: &str) -> Result<RequireScan, String> {
    scan_source(source)
}

fn literal_requires(source: &str) -> Vec<String> {
    requires_of(source).unwrap().literals
}

/// Checks a definition and the given modules, with an analyzer that finds
/// nothing.
fn checked(source: &str, modules: &[(&str, &str)]) -> Vec<Diagnostic> {
    let resolve =
        |name: &str| modules.iter().find(|m| m.0 == name).map(|m| m.1.to_string());
    check_definition("test", source, &resolve, &|_: &CheckRequest| (Vec::new(), 0), Some("10"))
}

#[test]
fn hot_comment_nonstrict_is_rejected_with_named_diagnostic() {
    let diags = checked(&format!("--!nonstrict\n{CLEAN}"), &[]);
    assert_eq!(diags.len(), 1, "the downgrade must be rejected before analysis: {diags:?}");
    let d = &diags[0];
    assert!(
        d.message.contains("--!nonstrict") && d.message.contains("host-controlled"),
        "diagnostic must name the offending comment: {:?}",
        d.message
    );
    assert_eq!((d.begin_line, d.begin_col), (1, 1), "positioned at the comment");
}

#[test]
fn hot_comment_nocheck_is_rejected() {
    let diags = checked("--!nocheck\nreturn { default = snap {} }", &[]);
    assert_eq!(diags.len(), 1, "{diags:?}");
    assert!(diags[0].message.contains("--!nocheck"), "got: {:?}", diags[0].message);
}

#[test]
fn hot_comment_with_trailing_whitespace_is_still_rejected() {
    let diags = checked("--!nonstrict   \nreturn { v = 1 }", &[]);
    assert_eq!(diags.len(), 1, "{diags:?}");
}

#[test]
fn strict_hot_comment_stays_legal() {
    let diags = checked(&format!("--!strict\n{CLEAN}"), &[]);
    assert!(diags.is_empty(), "--!strict is an upgrade, must stay legal: {diags:?}");
}

#[test]
fn non_mode_hot_comments_stay_legal() {
    let src = "--!noundef\n--!format off\nreturn { default = snap { name = \"x\", version = \"1\" } }";
    let diags = checked(src, &[]);
    assert!(diags.is_empty(), "got: {diags:?}");
}

#[test]
fn mode_word_inside_string_literal_is_not_a_hot_comment() {
    let src = r#"local s = "--!nonstrict"
return { default = snap { name = s, version = "1" } }"#;
    let diags = checked(src, &[]);
    assert!(
        !diags.iter().any(|d| d.message.contains("downgrades")),
        "string literal must not false-positive: {diags:?}"
    );
}

#[test]
fn downgrade_rejection_wins_over_the_check_itself() {
    let src = "--!nonstrict\nreturn { default = snp { name = \"x\" } }";
    let diags = checked(src, &[]);
    assert_eq!(diags.len(), 1, "no analysis diagnostics may leak: {diags:?}");
    assert!(diags[0].message.contains("nonstrict"), "got: {:?}", diags[0].message);
}

#[test]
fn downgrading_word_needs_hot_comment_shape() {
    let src = "-- nonstrict mode is banned here\nreturn { default = snap { name = \"x\", version = \"1\" } }";
    assert!(checked(src, &[]).is_empty());
    let src = "--! nonstrict\nreturn { default = snap { name = \"x\", version = \"1\" } }";
    assert!(checked(src, &[]).is_empty());
    let src = "--!nonstrictx\nreturn { default = snap { name = \"x\", version = \"1\" } }";
    assert!(checked(src, &[]).is_empty());
}

#[test]
fn ast_requires_finds_constant_strings_in_all_positions() {
    let src = r#"
local a = require("base")
local b = require 'single'
local c = require([[long]])
local d = require("pkgs.lib.cli")
local t = { tpl = require("from-table"), plain = 1 }
local function f()
    if b == "x" then
        return require("from-function-body")
    end
    return nil
end
local e = myrequire(fn)
local g = requireNotWord("nope")
"#;
    let names = literal_requires(src);
    let expected = [
        "base",
        "single",
        "long",
        "pkgs.lib.cli",
        "from-table",
        "from-function-body",
    ];
    assert_eq!(names, expected, "every literal site, in visit order");
}

#[test]
fn ast_requires_ignores_comments_strings_and_non_calls() {
    let src = r#"
-- require("in-comment")
local s = "require(\"in-string\")"
local r = require
r("indirect-call-is-not-a-site")
"#;
    assert!(literal_requires(src).is_empty(), "got: {:?}", literal_requires(src));
}

#[test]
fn ast_requires_handles_escaped_quotes_whole() {
    let names = literal_requires(r#"local a = require("we\"ird")"#);
    assert_eq!(names, [r#"we\"ird"#]);
}

#[test]
fn ast_requires_marks_non_literal_argument_sites_with_spans() {
    let scan = requires_of("local x = require(variable)").unwrap();
    assert!(scan.literals.is_empty());
    let span = scan.non_literal_span.expect("variable require is a site");
    assert_eq!((span.begin_line, span.begin_col), (1, 11));
    assert_eq!((span.end_line, span.end_col), (1, 27));

    for src in [
        r#"return require("a" .. "b")"#,
        r#"return require()"#,
        r#"return require("a", "b")"#,
        r#"return require({ name = "t" })"#,
        r#"return require(someFn("a"))"#,
    ] {
        let scan = requires_of(src).unwrap();
        assert!(scan.non_literal_span.is_some(), "non-literal site must be named: {src}");
    }
}

#[test]
fn ast_requires_accepts_chained_require_loads() {
    let names = literal_requires(r#"local v = require("mod").field"#);
    assert_eq!(names, ["mod"]);
    let names = literal_requires(r#"local v = require("mod"):method()"#);
    assert_eq!(names, ["mod"]);
}

#[test]
fn literal_require_is_a_named_fail_closed_diagnostic() {
    let src = "local tpl = require(tpl_name)\nreturn { default = tpl }";
    let diags = checked(src, &[]);
    assert_eq!(diags.len(), 1, "{diags:?}");
    assert!(
        diags[0].message.starts_with("require argument must be a string literal"),
        "got: {:?}",
        diags[0].message
    );
    assert_eq!(
        (
            diags[0].begin_line,
            diags[0].begin_col,
            diags[0].end_line,
            diags[0].end_col
        ),
        (1, 13, 1, 29)
    );
}

#[test]
fn literal_require_gate_fires_before_analysis() {
    let src = "local tpl = require(\"a\" .. \"b\")\nreturn { default = snp {} }";
    let diags = checked(src, &[]);
    assert_eq!(diags.len(), 1, "{diags:?}");
    assert!(diags[0].message.contains("string literal"), "got: {:?}", diags[0].message);
}

#[test]
fn literal_require_in_a_required_module_fails_closed() {
    let entry = r#"
local tpl = require("shady")
return { default = tpl.output }
"#;
    let shady = r#"
local computed = "computed"
local m = { output = require(computed) }
return m
"#;
    let diags = checked(entry, &[("shady", shady)]);
    assert_eq!(diags.len(), 1, "{diags:?}");
    assert!(
        diags[0].message.starts_with("require argument must be a string literal"),
        "module-level computed requires fail closed too: {diags:?}"
    );
}

#[test]
fn unparseable_definition_is_a_named_rejection() {
    let diags = checked("return {", &[]);
    assert_eq!(diags.len(), 1, "{diags:?}");
    assert!(
        diags[0].message.starts_with("definition does not parse as Luau"),
        "got: {:?}",
        diags[0].message
    );
}

#[test]
fn zero_limit_times_out_fail_closed() {
    let partial = vec![Diagnostic {
        begin_line: 3,
        begin_col: 1,
        end_line: 3,
        end_col: 9,
        message: "half a result".to_string(),
    }];
    let diags = check_bounded(partial, 1, Some("0"));
    assert_eq!(
        diags.len(),
        1,
        "partial results must be replaced by one timeout diagnostic: {diags:?}"
    );
    assert!(
        diags[0].message.contains("analysis timed out after 0s"),
        "got: {:?}",
        diags[0].message
    );
}

#[test]
fn production_limit_does_not_fire_on_corpus_scale_sources() {
    let diags = check_bounded(checked(CLEAN, &[]), 0, Some("10"));
    assert!(diags.is_empty(), "10s must be generous, got: {diags:?}");
}

#[test]
fn locate_output_key_finds_direct_field_with_exact_position() {
    let src = "\nreturn {\n    good = snap { name = \"fine\" },\n    bad = \"nope\",\n}\n";
    let span = locate_output_key(src, "bad").expect("direct field must be found");
    assert_eq!((span.begin_line, span.begin_col), (4, 5));
    assert_eq!((span.end_line, span.end_col), (4, 7), "end col exclusive");
}

#[test]
fn locate_output_key_handles_bracketed_and_call_arg_forms() {
    let bracketed = "return { [\"srv\"] = snap {} }";
    let span = locate_output_key(bracketed, "srv").expect("bracketed string key");
    assert_eq!((span.begin_line, span.begin_col), (1, 11));

    let via_call = "\nreturn merge({\n    default = snap { name = \"m\" },\n}, {})";
    let span = locate_output_key(via_call, "default").expect("table behind call args");
    assert_eq!((span.begin_line, span.begin_col), (3, 5));
}

#[test]
fn locate_output_key_is_none_for_nested_missing_or_unparsed() {
    let nested = "return { wrapper = { default = snap {} } }";
    assert_eq!(locate_output_key(nested, "default"), None);
    assert_eq!(locate_output_key("return { good = snap {} }", "missing"), None);
    assert_eq!(locate_output_key("return {", "default"), None);
    let via_local = "local t = { default = snap {} } return t";
    assert_eq!(locate_output_key(via_local, "default"), None);
}

#[test]
fn locate_output_key_is_none_for_ambiguous_matches() {
    let duplicate = r#"return {
    default = snap { name = "a", version = "1" },
    default = snap { name = "b", version = "2" },
}"#;
    assert_eq!(locate_output_key(duplicate, "default"), None);
    let span = locate_output_key(duplicate, "default");
    assert!(span.is_none());
    assert!(locate_output_key(duplicate, "nonexistent").is_none());
    let unique = r#"return {
    srv = snap { name = "a", version = "1" },
    other = snap { name = "b", version = "2" },
}"#;
    let span = locate_output_key(unique, "srv").expect("unique match");
    assert_eq!((span.begin_line, span.begin_col), (2, 5));

    let two_values = "return { default = 1 }, { default = 2 }";
    assert_eq!(locate_output_key(two_values, "default"), None);
}

#[test]
fn locate_output_key_is_none_for_computed_keys() {
    let computed = "local k = \"default\"\nreturn { [k] = snap { name = \"x\", version = \"1\" } }";
    assert_eq!(locate_output_key(computed, "default"), None);
    let literal = "return { [\"default\"] = snap {} }";
    assert!(locate_output_key(literal, "default").is_some());
}

#[test]
fn locate_output_key_looks_through_parentheses_and_method_calls() {
    let src = "return (merge:with({ a = 1 }, \"x\"))";
    let span = locate_output_key(src, "a").expect("table behind a method call");
    assert_eq!((span.begin_line, span.begin_col), (1, 22));
    assert_eq!(locate_output_key("return { a\0 = 1 }", "a"), None);
    assert_eq!(locate_output_key("return { a = 1 }", "a\0"), None);
}

#[test]
fn locate_in_takes_the_only_field() {
    let range = SourceRange { begin_line: 2, begin_col: 3, end_line: 2, end_col: 6 };
    let keys = |n: usize| -> Vec<FieldKey> {
        (0..n)
            .map(|_| FieldKey::Name { name: "k".to_string(), range: Some(range) })
            .collect()
    };
    let table = |n: usize| Expr::Table(keys(n));
    let want = Span { begin_line: 2, begin_col: 3, end_line: 2, end_col: 5 };
    assert_eq!(locate_in(&vec![Expr::Other, Expr::Paren(Box::new(table(1)))], "k"), Some(want));
    let call = |args: Vec<Expr>| Expr::Call(vec![Link::Other, Link::Call(Args::Parens(args))]);
    assert_eq!(locate_in(&vec![call(vec![table(1), Expr::Other])], "k"), Some(want));
    assert_eq!(locate_in(&vec![call(vec![table(1), table(1)])], "k"), None);
    let method = Expr::Call(vec![Link::Method(Args::Table(keys(1))), Link::Call(Args::Other)]);
    assert_eq!(locate_in(&vec![method], "k"), Some(want));
    assert_eq!(locate_in(&vec![table(1)], "other"), None);
    let quoted = FieldKey::Computed { literal: Some("k".to_string()), range: Some(range) };
    assert_eq!(locate_in(&vec![Expr::Table(vec![quoted, FieldKey::Other])], "k"), Some(want));
    let computed = FieldKey::Computed { literal: None, range: Some(range) };
    assert_eq!(locate_in(&vec![Expr::Table(vec![computed])], "k"), None);
    let unplaced = FieldKey::Name { name: "k".to_string(), range: None };
    assert_eq!(locate_in(&vec![Expr::Table(vec![unplaced])], "k"), None);
}

#[test]
fn downgrades_are_placed_behind_long_strings_and_comments() {
    let src = "local s = [==[\n--!nonstrict ]]\n]==]\n  --!nocheck\n";
    let d = mode_downgrade_diagnostic(src).expect("the comment is live");
    assert_eq!((d.begin_line, d.begin_col, d.end_line, d.end_col), (4, 3, 4, 0));
    assert_eq!(
        d.message,
        "definition downgrades the analyzer gate with hot comment '--!nocheck': strictness is \
         host-controlled; remove the comment (--!strict is allowed)"
    );
    assert!(mode_downgrade_diagnostic("--[[\n--!nonstrict\n]]\nreturn 1").is_none());
    assert!(mode_downgrade_diagnostic("--[[x]] --!nonstrict").is_some());
    assert!(mode_downgrade_diagnostic("local q = 'it\\'s --!nonstrict'").is_none());
    assert!(mode_downgrade_diagnostic("local q = 'open\n--!nonstrict").is_some());
    assert_eq!(find_mode_downgrade(b"x --!nocheck"), Some((2, "nocheck")));
    assert_eq!(find_mode_downgrade(b"--!strict\n--!nocheck!"), None);
    assert_eq!(find_mode_downgrade(b"'\\"), None);
}

#[test]
fn nul_bytes_are_refused() {
    let d = screen_source("return \0").unwrap_err();
    assert_eq!(d.message, "definition source contains a NUL byte; not type-checkable");
    assert_eq!(d.span(), Span { begin_line: 1, begin_col: 1, end_line: 1, end_col: 0 });
    assert!(screen_source("return 1").is_ok());
}

#[test]
fn rejections_name_the_line_of_a_tokenizer_fault() {
    let fault = |line| {
        Err(Some(ParseFault { text: "bad token".to_string(), line }))
    };
    assert_eq!(
        screen_definition("x", &fault(Some(7))).unwrap_err().message,
        "definition does not parse as Luau: bad token (at line 7)"
    );
    assert_eq!(
        screen_definition("x", &fault(None)).unwrap_err().message,
        "definition does not parse as Luau: bad token"
    );
    assert_eq!(
        screen_definition("x", &Err(None)).unwrap_err().message,
        "definition does not parse as Luau: unknown parse failure"
    );
    assert!(screen_definition("x", &Ok(Vec::new())).is_ok());
    assert!(screen_definition("--!nocheck", &Err(None)).unwrap_err().message.contains("--!nocheck"));
}

#[test]
fn seeding_asks_for_each_module_once_and_within_its_budget() {
    let mut run = begin_check("return 1").unwrap();
    assert_eq!(run.next_source().as_deref(), Some("return 1"));
    let names: Vec<String> = (0..70).flat_map(|i| [format!("m{i}"), format!("m{i}")]).collect();
    let asked = run
        .scanned(Ok(RequireScan { literals: names, non_literal_span: None }))
        .unwrap();
    assert_eq!(asked.len(), MAX_SEED_MODULES);
    assert_eq!((asked[0].as_str(), asked[63].as_str()), ("m0", "m63"));
    assert_eq!(run.budget, 0);
    run.resolved("m0".to_string(), "return 2".to_string());
    assert_eq!(run.sources.get("m0").map(String::as_str), Some("return 2"));
    assert_eq!(run.next_source().as_deref(), Some("return 2"));
    assert_eq!(run.next_source(), None);
    let more = RequireScan { literals: vec!["m1".to_string(), "new".to_string()], non_literal_span: None };
    assert!(run.scanned(Ok(more)).unwrap().is_empty());
}

#[test]
fn modules_that_do_not_parse_are_refused() {
    let mut run = begin_check("return 1").unwrap();
    let d = run.scanned(Err("oops".to_string())).unwrap_err();
    assert_eq!(d.message, "required module does not parse as Luau: oops");
    let span = Span { begin_line: 4, begin_col: 5, end_line: 6, end_col: 7 };
    let d = run
        .scanned(Ok(RequireScan { literals: Vec::new(), non_literal_span: Some(span) }))
        .unwrap_err();
    assert_eq!(d.span(), span);
    assert_eq!(
        d.message,
        format!("{LITERAL_REQUIRE_MESSAGE}; computed requires cannot be resolved by the analyzer gate")
    );
}

#[test]
fn worker_failures_become_diagnostics() {
    assert!(worker_diagnostics(Ok(Vec::new())).is_empty());
    let d = worker_diagnostics(Err("killed".to_string()));
    assert_eq!(d.len(), 1);
    assert_eq!(d[0].message, "analyzer worker failed: killed");
    assert_eq!(check_bounded(Vec::new(), 2, None)[0].message, "analysis timed out");
}

#[test]
fn sites_that_are_no_requires_are_passed_over() {
    let site = |name: Option<&str>, args: Option<CallArgs>, end: Option<(usize, usize)>| CallSite {
        name: name.map(|n| (n.to_string(), (2, 3))),
        links: vec![args.map(|args| PlainCall { args, end })],
    };
    let text = |t: &str| Some(CallArgs::Text(t.to_string()));
    let scan = scan_requires(&vec![
        site(None, text("a"), None),
        site(Some("require"), None, None),
        CallSite { name: Some(("require".to_string(), (1, 1))), links: Vec::new() },
        site(Some("other"), Some(CallArgs::Other), None),
        site(Some("require"), text("b"), None),
    ]);
    assert_eq!(scan.literals, ["b"]);
    assert_eq!(scan.non_literal_span, None);
    let scan = scan_requires(&vec![
        site(Some("require"), Some(CallArgs::Other), None),
        site(Some("require"), Some(CallArgs::Parens(vec![None])), Some((5, 6))),
    ]);
    let span = Span { begin_line: 2, begin_col: 3, end_line: 2, end_col: 2 };
    assert_eq!(scan.non_literal_span, Some(span));
    let two = CallArgs::Parens(vec![Some("a".to_string()), None]);
    let scan = scan_requires(&vec![site(Some("require"), Some(two), Some((5, 6)))]);
    let span = Span { begin_line: 2, begin_col: 3, end_line: 5, end_col: 5 };
    assert_eq!((scan.literals.len(), scan.non_literal_span), (0, Some(span)));
}

#[test]
fn sources_give_their_requires_or_the_fault() {
    let scan = scan_source("local a = require(\"x\")\nreturn require [[y]]").unwrap();
    assert_eq!(scan.literals, ["x", "y"]);
    assert_eq!(scan.non_literal_span, None);
    assert!(scan_source("return {").is_err());
}

#[test]
fn modules_and_theirs_are_collected() {
    let modules = [("a", "return require(\"b\")"), ("b", "return require(\"gone\")")];
    let resolve =
        |name: &str| modules.iter().find(|m| m.0 == name).map(|m| m.1.to_string());
    let sources = check_inputs("return require(\"a\")", &resolve).unwrap();
    assert_eq!(sources.len(), 2);
    assert_eq!(sources.get("b").map(String::as_str), Some("return require(\"gone\")"));
    let d = check_inputs("return require(\"c\")", &|_: &str| Some("return (".to_string()))
        .unwrap_err();
    assert!(d.message.starts_with("required module does not parse as Luau: "), "{d:?}");
}

#[test]
fn both_ways_refuse_alike() {
    let refused = [
        "return \0",
        "--!nocheck\nreturn 1",
        "return {",
        "return require(x)",
        "return require(\"bad\")",
    ];
    let resolve = |name: &str| {
        if name == "bad" {
            Some("return require(1)".to_string())
        } else {
            None
        }
    };
    for source in refused {
        let here = check_definition(
            "l",
            source,
            &resolve,
            &|_: &CheckRequest| panic!("nothing is analyzed"),
            None,
        );
        let there = check_definition_in_worker("l", source, &resolve, &|_: &CheckRequest| {
            panic!("no worker is started")
        });
        assert_eq!((here.len(), there.len()), (1, 1), "{source}");
        assert_eq!(here[0].message, there[0].message);
        assert_eq!(here[0].span(), there[0].span());
    }
    let there = check_definition_in_worker("l", "return 1", &resolve, &|q: &CheckRequest| {
        assert_eq!((q.label.as_str(), q.entry.as_str()), ("l", "return 1"));
        Err("gone".to_string())
    });
    assert_eq!(there[0].message, "analyzer worker failed: gone");
}

#[test]
fn sources_with_broken_tokens_are_refused() {
    for source in ["local x: number $", "type T = { number $ }", "local x: M.$", "return {} $"] {
        let d = screen_source(source).unwrap_err();
        let found = d.message.strip_prefix("definition does not parse as Luau: ").unwrap();
        assert!(found.starts_with("error occurred while tokenizing: "), "{found}");
        assert!(found.ends_with("(at line 1)"), "{found}");
        assert_eq!(scan_source(source).unwrap_err(), found);
        assert_eq!(locate_output_key(source, "x"), None);
        assert_eq!(check_inputs(source, &|_: &str| None).unwrap_err().message, d.message);
    }
}

#[test]
fn a_source_that_ends_in_its_first_comment_is_refused() {
    let source = "#!x\n--[[ unclosed";
    assert_eq!(
        screen_source(source).unwrap_err().message,
        "definition does not parse as Luau: unknown parse failure"
    );
    assert_eq!(scan_source(source).unwrap_err(), "unknown parse failure");
    assert_eq!(locate_output_key(source, "x"), None);
    assert!(screen_source("#!x\nreturn {}").is_ok());
}

#[test]
fn mended_tokens_leave_the_parser_its_say() {
    let d = screen_source("return (\nlocal s = \"open").unwrap_err();
    assert!(d.message.starts_with("definition does not parse as Luau: "), "{d:?}");
    assert!(screen_source("return \"open").is_err());
}

#[test]
fn what_the_text_refuses_is_not_parsed() {
    let nul = "definition source contains a NUL byte; not type-checkable";
    assert_eq!(screen_source("local x: number $\0").unwrap_err().message, nul);
    let downgrade = screen_source("--!nocheck\nlocal x: number $").unwrap_err();
    let alone = mode_downgrade_diagnostic("--!nocheck\nlocal x: number $").unwrap();
    assert_eq!(downgrade.message, alone.message);
    assert_eq!(screen_text("--!nocheck\nreturn {").unwrap_err().message, alone.message);
    assert!(screen_text("return {").is_ok());
    assert_eq!(screen_text("\0").unwrap_err().message, nul);
}

#[test]
fn the_first_fault_of_the_tokens_counts() {
    let fault = |t: &str| ParseFault { text: t.to_string(), line: Some(1) };
    assert!(judge_tokens(&vec![LexedToken::Sound]).is_ok());
    assert!(judge_tokens(&vec![LexedToken::Mended(vec![fault("a")]), LexedToken::Sound]).is_ok());
    assert!(judge_tokens(&Vec::new()).unwrap_err().is_none());
    let tokens = vec![
        LexedToken::Sound,
        LexedToken::Mended(vec![fault("a"), fault("b")]),
        LexedToken::Broken(vec![fault("c")]),
    ];
    assert_eq!(judge_tokens(&tokens).unwrap_err().unwrap().text, "a");
    let tokens = vec![LexedToken::Broken(Vec::new()), LexedToken::Broken(vec![fault("c")])];
    assert_eq!(judge_tokens(&tokens).unwrap_err().unwrap().text, "c");
}
