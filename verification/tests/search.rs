use nix_doc::parse::{can_parse, parse, parse_strict, ParseError};
use nix_doc::tags::FileJob;
use nix_doc::pattern::Pattern;
use nix_doc::report::{format_result, indented, rule, Printer};
use nix_doc::search::{
    format_found, get_function_docs, is_ignored, is_oversized, is_searchable, search_ast,
    search_file, visit_lambda, SearchResult,
};
use nix_doc::syntax::NodeKind;

/// Shows the parameter of a function literal as the text in front of its
/// first colon.
fn render(source: &str, start: usize, end: usize) -> String {
    let text = &source[start..end];
    match text.find(':') {
        Some(colon) => format!("{}: ...", &text[..colon]),
        None => "...".to_string(),
    }
}

const REGRESSION_11: &str = r#"{
  /* Create a fixed width string with additional prefix to match
     required width.

     This function will fail if the input string is longer than the
     requested length.

     Type: fixedWidthString :: int -> string -> string

     Example:
       fixedWidthString 5 "0" (toString 15)
       => "00015"
  */
  fixedWidthString = width: filler: str:
    if width <= 0 then str else fixedWidthString (width - 1) filler (filler + str);

  /* Create an --{with,without}-<feat> string. */
  withFeature = with_: feat: "--${if with_ then "with" else "without"}-${feat}";
  withFeatureAs = with_: feat: value: withFeature with_ feat + optionalString with_ "=${value}";
}
"#;

#[test]
fn test_regression_11() {
    let out = r#"Create a fixed width string with additional prefix to match
required width.

This function will fail if the input string is longer than the
requested length.

Type: fixedWidthString :: int -> string -> string

Example:
  fixedWidthString 5 "0" (toString 15)
  => "00015""#;
    let ast = parse_strict(REGRESSION_11).unwrap();
    let results = search_ast(&Pattern::new("fixedWidthString").unwrap(), &ast, &render);
    assert_eq!(results.len(), 1);

    assert_eq!(results[0].doc, out);
}

#[test]
fn a_search_finds_documented_functions_by_name() {
    let source = "{\n  # adds one\n  addOne = x: x + 1;\n  /* takes two */\n  addTwo = x: x + 2;\n  # a number\n  one = 1;\n}\n";
    let found = search_file(source, &Pattern::new("add").unwrap(), &render).unwrap();
    let shown: Vec<_> = found
        .iter()
        .map(|(r, line)| {
            (r.identifier.as_str(), r.doc.as_str(), r.param_block.as_str(), r.defined_at_start, *line)
        })
        .collect();
    assert_eq!(
        shown,
        vec![("addOne", "adds one", "x: ...", 17, 3), ("addTwo", "takes two", "x: ...", 56, 5)]
    );
    let found = search_file(source, &Pattern::new("^addT").unwrap(), &render).unwrap();
    assert_eq!(found.len(), 1);
    assert_eq!(found[0].0.identifier, "addTwo");
    let found = search_file(source, &Pattern::new("one").unwrap(), &render).unwrap();
    assert!(found.is_empty());
}

#[test]
fn a_definition_without_a_comment_is_not_found() {
    let source = "{\n  plain = x: x;\n  # documented\n  other = y: y;\n}\n";
    let found = search_file(source, &Pattern::new(".").unwrap(), &render).unwrap();
    assert_eq!(found.len(), 1);
    assert_eq!(found[0].0.identifier, "other");
}

#[test]
fn a_comment_behind_another_definition_documents_nothing() {
    let source = "{\n  # about a\n  a = 1;\n  f = x: x;\n}\n";
    let found = search_file(source, &Pattern::new("f").unwrap(), &render).unwrap();
    assert!(found.is_empty());
}

#[test]
fn a_dotted_key_is_found_by_its_last_name() {
    let source = "{\n  # deep\n  a.b.c = x: x;\n}\n";
    let found = search_file(source, &Pattern::new("^c$").unwrap(), &render).unwrap();
    assert_eq!(found.len(), 1);
    assert_eq!(found[0].0.identifier, "c");
    assert_eq!(found[0].0.defined_at_start, 17);
    assert_eq!(found[0].1, 3);
}

#[test]
fn a_source_with_an_error_is_not_searched() {
    let broken = "{\n  # doc\n  f = x: x;\n";
    match search_file(broken, &Pattern::new("f").unwrap(), &render) {
        Err(ParseError::Syntax(message)) => assert!(!message.is_empty()),
        other => panic!("expected a syntax error, got {:?}", other.map(|found| found.len())),
    }
    assert!(matches!(parse_strict(broken), Err(ParseError::Syntax(_))));
    assert!(parse(broken).is_some());
}

#[test]
fn a_function_at_the_start_of_its_line_is_on_that_line() {
    let source = "{\n# doc\nf = x: x;\n}\n";
    let found = search_file(source, &Pattern::new("f").unwrap(), &render).unwrap();
    assert_eq!(found.len(), 1);
    assert_eq!((found[0].0.defined_at_start, found[0].1), (8, 3));
    let shown = get_function_docs("x: x", "top.nix", 1, 1, &render).unwrap();
    assert_eq!(shown, "   \n\u{1b}[38;5;15;1mfunc\u{1b}[0m = x: ...\n# top.nix:1");
}

#[test]
fn a_source_with_an_inherit_that_may_not_end_is_not_parsed() {
    for source in [
        "{ inherit a",
        "{ inherit a }",
        "{ inherit (x) a }",
        "{ inherit (x a; }",
        "{ inherit a or; }",
        "{ inherit a.; }",
        "{ inherit a.1; }",
        "{ inherit () a; }",
        "{ inherit (a.) b; }",
        "{ inherit (a ()) b; }",
        "{ inherit (a)) b; }",
        "{ inherit (f { }) b; }",
        "{ inherit (x: x) b; }",
        "{ inherit (a + b) c; }",
        "{ inherit \"a\"; }",
        "inherit",
    ] {
        assert!(!can_parse(source), "{}", source);
        assert!(parse(source).is_none(), "{}", source);
        assert!(matches!(parse_strict(source), Err(ParseError::UnknownInherit)), "{}", source);
        let found = search_file(source, &Pattern::new("a").unwrap(), &render);
        assert!(matches!(found, Err(ParseError::UnknownInherit)), "{}", source);
    }
}

#[test]
fn an_inherit_from_an_expression_is_parsed() {
    for source in [
        "{ inherit a; }",
        "{ inherit; }",
        "{ inherit (x) a b; }",
        "{ inherit /* c */ ( x . y ) # d\n a; }",
        "{ inherit (pkgs.lib) mkIf orElse; inherit or-like; }",
        "{ inherit (import ./x.nix) a; }",
        "{ inherit (f x) a; }",
        "{ inherit (f (g x).y 1 ./p <nixpkgs> 1.5) a; }",
        "{ inherit ((f) (((x)))) a b; }",
        "{ inherit a.b c.d.e; }",
        "{ inherit (a.or) b.or; }",
        "{ inherit (x) (a) 1 b.c; }",
        "{ a = \"inherit\"; } # inherit",
    ] {
        assert!(can_parse(source), "{}", source);
        assert!(parse(source).is_some(), "{}", source);
        assert!(parse_strict(source).is_ok(), "{}", source);
    }
    let tags = FileJob::run("{\n  inherit (import ./x.nix) a b;\n  inherit (f x) c.d;\n}\n", 0);
    let names: Vec<Vec<u8>> = tags.unwrap().into_iter().map(|tag| tag.name).collect();
    assert_eq!(names, vec![b"a".to_vec(), b"b".to_vec()]);
    let source = "{\n  inherit (import ./x.nix) a;\n  # doc\n  f = x: x;\n}\n";
    let found = search_file(source, &Pattern::new("f").unwrap(), &render).unwrap();
    assert_eq!(found.len(), 1);
    assert_eq!(get_function_docs(source, "f.nix", 4, 1, &render).is_some(), true);
}

#[test]
fn a_large_source_is_not_searched() {
    let source = format!("{{\n  # doc\n  f = x: x;\n}}\n{}", " ".repeat(200_000));
    let found = search_file(&source, &Pattern::new("f").unwrap(), &render).unwrap();
    assert!(found.is_empty());
    assert!(is_oversized(200_001));
    assert!(!is_oversized(200_000));
}

#[test]
fn a_pattern_that_is_no_expression_is_refused() {
    let error = Pattern::new("(").err().unwrap();
    assert_eq!(error.message, regex::Regex::new("(").unwrap_err().to_string());
    assert!(!error.message.is_empty());
    let pattern = Pattern::new("^a+$").unwrap();
    assert_eq!(pattern.as_str(), "^a+$");
    assert!(pattern.is_match("aaa"));
    assert!(!pattern.is_match("aab"));
}

#[test]
fn a_function_is_shown_with_its_documentation() {
    let source = "{\n  # line one\n  #   line two\n  addOne = x: x + 1;\n}\n";
    let shown = get_function_docs(source, "test.nix", 4, 11, &render).unwrap();
    assert_eq!(
        shown,
        "   line one\n   line two\n\u{1b}[38;5;15;1mfunc\u{1b}[0m = x: ...\n# test.nix:4"
    );
    assert_eq!(get_function_docs(source, "test.nix", 9, 1, &render), None);
    assert_eq!(get_function_docs(source, "test.nix", 5, 1, &render), None);
}

#[test]
fn a_function_without_documentation_is_shown_without() {
    let source = "{\n  f = x: x;\n}\n";
    let shown = get_function_docs(source, "f.nix", 2, 1, &render).unwrap();
    assert_eq!(shown, "   \n\u{1b}[38;5;15;1mfunc\u{1b}[0m = x: ...\n# f.nix:2");
}

#[test]
fn a_lambda_is_visited_by_its_index() {
    let source = "# top\nx: x";
    let tree = parse(source).unwrap();
    let lambda = (0..tree.len()).find(|&i| tree.element(i).kind == NodeKind::Lambda).unwrap();
    let result = visit_lambda("name".to_string(), 6, &tree, lambda, &render);
    assert_eq!(result.identifier, "name");
    assert_eq!(result.defined_at_start, 6);
    assert_eq!(result.param_block, "x: ...");
    assert_eq!(result.doc, "top");
}

#[test]
fn a_result_is_formatted_in_three_parts() {
    let result = SearchResult {
        identifier: "f".to_string(),
        doc: "a\n  b".to_string(),
        param_block: "{ x, y }: ...".to_string(),
        defined_at_start: 0,
    };
    assert_eq!(
        result.format("lib/f.nix", 1203),
        "   a\n     b\n\u{1b}[38;5;15;1mf\u{1b}[0m = { x, y }: ...\n# lib/f.nix:1203"
    );
    assert_eq!(format_result("", "g", "", "", 0), "   \n\u{1b}[38;5;15;1mg\u{1b}[0m = \n# :0");
}

#[test]
fn the_results_of_a_file_are_shown_with_its_name() {
    let source = "{\n  # one\n  a = x: x;\n\n  # two\n  b = y: y;\n}\n";
    let found = search_file(source, &Pattern::new(".").unwrap(), &render).unwrap();
    assert_eq!(
        format_found(&found, "dir/f.nix"),
        vec![
            "   one\n\u{1b}[38;5;15;1ma\u{1b}[0m = x: ...\n# dir/f.nix:3".to_string(),
            "   two\n\u{1b}[38;5;15;1mb\u{1b}[0m = y: ...\n# dir/f.nix:6".to_string(),
        ]
    );
    assert_eq!(format_found(&Vec::new(), "dir/f.nix"), Vec::<String>::new());
}

#[test]
fn every_line_is_indented() {
    assert_eq!(indented("a\nb", 3), "   a\n   b");
    assert_eq!(indented("", 2), "  ");
    assert_eq!(indented("a\n", 1), " a\n ");
    assert_eq!(indented("a\n\nb", 0), "a\n\nb");
}

#[test]
fn results_are_shown_with_a_rule_between_them() {
    let line = format!("\u{1b}[38;5;238m{}\u{1b}[0m", "\u{2500}".repeat(45));
    assert_eq!(rule(), line);
    let mut printer = Printer::new();
    assert_eq!(printer.show(vec![]), Vec::<String>::new());
    assert!(!printer.started);
    assert_eq!(
        printer.show(vec!["one".to_string(), "two".to_string()]),
        vec!["one".to_string(), line.clone(), "two".to_string()]
    );
    assert!(printer.started);
    assert_eq!(printer.show(vec!["three".to_string()]), vec![line, "three".to_string()]);
}

#[test]
fn hidden_entries_and_build_output_are_ignored() {
    assert!(is_ignored(Some(".git")));
    assert!(is_ignored(Some("target")));
    assert!(is_ignored(None));
    assert!(!is_ignored(Some(".")));
    assert!(!is_ignored(Some("lib")));
    assert!(!is_ignored(Some("targets")));
    assert!(!is_ignored(Some("")));
    assert!(is_ignored(Some("..")));
}

#[test]
fn source_files_end_in_nix() {
    assert!(is_searchable("default.nix"));
    assert!(is_searchable(".nix"));
    assert!(!is_searchable("nix"));
    assert!(!is_searchable("default.nix~"));
    assert!(!is_searchable("default.NIX"));
}
