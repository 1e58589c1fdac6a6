use nix_doc::index::{
    build_index, cardinality_limit, escape, in_index_order, make_addr, run_cardinality,
    write_header, write_tag,
};
use nix_doc::paths::{PathTable, RelativePaths};
use nix_doc::scan::{gather, is_listed_file, is_wanted, run_on_dir, scan_file, SourceFile};
use nix_doc::sort::sort_tags;
use nix_doc::tag::{order_bytes, tag_precedes, Kind, Order, Tag};
use nix_doc::tags::{get_source_line, FileJob};

fn tag(name: &str, path: usize, addr: &str, kind: Kind) -> Tag {
    Tag { name: name.as_bytes().to_vec(), path, addr: addr.as_bytes().to_vec(), kind }
}

fn file(path: &str, content: Option<&str>) -> SourceFile {
    SourceFile {
        path: path.to_string(),
        names: path.split('/').filter(|name| !name.is_empty()).skip(1).map(String::from).collect(),
        regular: true,
        content: content.map(String::from),
    }
}

fn shape(tags: &[Tag]) -> Vec<(String, usize, String, Kind)> {
    tags.iter()
        .map(|t| {
            (
                String::from_utf8(t.name.clone()).unwrap(),
                t.path,
                String::from_utf8(t.addr.clone()).unwrap(),
                t.kind,
            )
        })
        .collect()
}

const HEADER: &str = "!_TAG_FILE_FORMAT\t2\t/extended format/\n\
!_TAG_FILE_SORTED\t1\t/0=unsorted, 1=sorted, 2=foldcase/\n\
!_TAG_FILE_ENCODING\tutf-8\t//\n\
!_TAG_PROGRAM_NAME\tnix-doc tags\t//\n\
!_TAG_PROGRAM_URL\thttps://github.com/lf-/nix-doc\t//\n";

#[test]
fn a_dotted_key_is_tagged_by_its_last_name() {
    let tags = FileJob::run("{\n   a.b.c = a: 1;\n}\n", 0).unwrap();
    assert_eq!(
        shape(&tags),
        vec![("c".to_string(), 0, "   a.b.c = a: 1;".to_string(), Kind::Function)]
    );
}

#[test]
fn inherited_names_are_members_at_the_line_of_the_statement() {
    let tags = FileJob::run("{\n   inherit (n) grub hello;\n}\n", 3).unwrap();
    assert_eq!(
        shape(&tags),
        vec![
            ("grub".to_string(), 3, "   inherit (n) grub hello;".to_string(), Kind::Member),
            ("hello".to_string(), 3, "   inherit (n) grub hello;".to_string(), Kind::Member),
        ]
    );
}

#[test]
fn an_inherit_over_several_lines_is_addressed_at_its_first_line() {
    let tags = FileJob::run("{\n  inherit\n    ff;\n}\n", 0).unwrap();
    assert_eq!(shape(&tags), vec![("ff".to_string(), 0, "  inherit".to_string(), Kind::Member)]);
}

#[test]
fn the_tags_of_a_file_come_out_sorted() {
    let source = "{\n  b = 1;\n  a = x: x;\n  a = 2;\n  inherit c;\n}\n";
    let tags = FileJob::run(source, 0).unwrap();
    assert_eq!(
        shape(&tags),
        vec![
            ("a".to_string(), 0, "  a = x: x;".to_string(), Kind::Function),
            ("a".to_string(), 0, "  a = 2;".to_string(), Kind::Member),
            ("b".to_string(), 0, "  b = 1;".to_string(), Kind::Member),
            ("c".to_string(), 0, "  inherit c;".to_string(), Kind::Member),
        ]
    );
}

#[test]
fn nested_sets_are_tagged_too() {
    let source = "{\n   the-fn = a: b: {z = a; y = b;};\n}\n";
    let tags = FileJob::run(source, 0).unwrap();
    let line = "   the-fn = a: b: {z = a; y = b;};".to_string();
    assert_eq!(
        shape(&tags),
        vec![
            ("the-fn".to_string(), 0, line.clone(), Kind::Function),
            ("y".to_string(), 0, line.clone(), Kind::Member),
            ("z".to_string(), 0, line, Kind::Member),
        ]
    );
}

#[test]
fn a_definition_without_a_comment_is_tagged() {
    let tags = FileJob::run("{\n  plain = x: x;\n}\n", 0).unwrap();
    assert_eq!(
        shape(&tags),
        vec![("plain".to_string(), 0, "  plain = x: x;".to_string(), Kind::Function)]
    );
}

#[test]
fn the_source_line_is_the_line_of_the_offset() {
    let source = b"abc\ndef\nghi";
    assert_eq!(get_source_line(source, 0), b"abc".to_vec());
    assert_eq!(get_source_line(source, 3), b"abc".to_vec());
    assert_eq!(get_source_line(source, 4), b"def".to_vec());
    assert_eq!(get_source_line(source, 6), b"def".to_vec());
    assert_eq!(get_source_line(source, 11), b"ghi".to_vec());
    assert_eq!(get_source_line(b"\n\n", 1), b"".to_vec());
}

#[test]
fn names_sort_before_kinds_before_paths_before_lines() {
    let sorted = sort_tags(vec![
        tag("b", 0, "b = 1;", Kind::Member),
        tag("a", 1, "a = 1;", Kind::Member),
        tag("a", 0, "a = 2;", Kind::Member),
        tag("a", 0, "a = 1;", Kind::Member),
        tag("a", 9, "a = x: x;", Kind::Function),
    ]);
    assert_eq!(
        shape(&sorted),
        vec![
            ("a".to_string(), 9, "a = x: x;".to_string(), Kind::Function),
            ("a".to_string(), 0, "a = 1;".to_string(), Kind::Member),
            ("a".to_string(), 0, "a = 2;".to_string(), Kind::Member),
            ("a".to_string(), 1, "a = 1;".to_string(), Kind::Member),
            ("b".to_string(), 0, "b = 1;".to_string(), Kind::Member),
        ]
    );
}

#[test]
fn all_a_come_before_b() {
    let sorted = sort_tags(vec![
        tag("b", 0, "", Kind::Member),
        tag("a", 0, "", Kind::Member),
        tag("a", 0, "", Kind::Member),
    ]);
    let names: Vec<Vec<u8>> = sorted.into_iter().map(|t| t.name).collect();
    assert_eq!(names, vec![b"a".to_vec(), b"a".to_vec(), b"b".to_vec()]);
}

#[test]
fn sorting_keeps_every_tag() {
    let mut given = Vec::new();
    for i in 0..50usize {
        given.push(tag(&format!("n{}", (i * 37) % 11), i % 3, &format!("l{}", i % 7), Kind::Member));
    }
    let mut expected = shape(&given);
    expected.sort_by(|a, b| {
        a.0.as_bytes()
            .cmp(b.0.as_bytes())
            .then(a.1.cmp(&b.1))
            .then(a.2.as_bytes().cmp(b.2.as_bytes()))
    });
    assert_eq!(shape(&sort_tags(given)), expected);
}

#[test]
fn byte_strings_compare_as_in_a_dictionary() {
    assert_eq!(order_bytes(&b"".to_vec(), &b"".to_vec()), Order::Same);
    assert_eq!(order_bytes(&b"".to_vec(), &b"a".to_vec()), Order::Before);
    assert_eq!(order_bytes(&b"ab".to_vec(), &b"a".to_vec()), Order::After);
    assert_eq!(order_bytes(&b"ab".to_vec(), &b"b".to_vec()), Order::Before);
    assert_eq!(order_bytes(&b"abc".to_vec(), &b"abc".to_vec()), Order::Same);
    assert!(tag_precedes(&tag("a", 1, "x", Kind::Function), &tag("a", 0, "x", Kind::Member)));
    assert!(!tag_precedes(&tag("a", 0, "y", Kind::Member), &tag("a", 0, "x", Kind::Member)));
    assert!(tag_precedes(&tag("a", 0, "x", Kind::Member), &tag("a", 0, "x", Kind::Member)));
}

#[test]
fn a_name_that_occurs_twice_is_left_out() {
    let mut data = sort_tags(vec![
        tag("the-fn", 0, "one", Kind::Function),
        tag("x", 0, "x = {", Kind::Member),
        tag("the-fn", 1, "two", Kind::Member),
        tag("ff", 0, "inherit ff;", Kind::Member),
    ]);
    run_cardinality(1, &mut data);
    assert_eq!(
        shape(&data),
        vec![
            ("ff".to_string(), 0, "inherit ff;".to_string(), Kind::Member),
            ("x".to_string(), 0, "x = {".to_string(), Kind::Member),
        ]
    );
}

#[test]
fn the_limit_counts_names_not_tags() {
    let given = || {
        sort_tags(vec![
            tag("a", 0, "1", Kind::Member),
            tag("a", 0, "2", Kind::Member),
            tag("a", 0, "3", Kind::Member),
            tag("b", 0, "1", Kind::Member),
            tag("b", 0, "2", Kind::Member),
            tag("c", 0, "1", Kind::Member),
        ])
    };
    let mut data = given();
    run_cardinality(2, &mut data);
    assert_eq!(
        shape(&data).iter().map(|t| t.0.clone()).collect::<Vec<_>>(),
        vec!["b", "b", "c"]
    );
    let mut data = given();
    run_cardinality(0, &mut data);
    assert!(data.is_empty());
    let mut data = given();
    run_cardinality(3, &mut data);
    assert_eq!(data.len(), 6);
}

#[test]
fn a_negative_limit_is_no_limit() {
    assert_eq!(cardinality_limit(-1), None);
    assert_eq!(cardinality_limit(0), Some(0));
    assert_eq!(cardinality_limit(500), Some(500));
}

#[test]
fn the_magic_bytes_are_escaped() {
    assert_eq!(escape(b"a\\b/c$d^e"), b"a\\\\b\\/c\\$d\\^e".to_vec());
    assert_eq!(escape(b"plain"), b"plain".to_vec());
    assert_eq!(
        make_addr(b"   the-snd-fn = {b, /* doc */ c}: {};"),
        b"/^   the-snd-fn = {b, \\/* doc *\\/ c}: {};$/".to_vec()
    );
}

#[test]
fn a_tag_line_has_four_fields() {
    let mut out = Vec::new();
    write_tag(&mut out, &tag("c", 0, "   a.b.c = a: 1;", Kind::Function), "testdata/test.nix");
    write_tag(&mut out, &tag("c", 0, "   c = {", Kind::Member), "testdata/test.nix");
    assert_eq!(
        String::from_utf8(out).unwrap(),
        "c\ttestdata/test.nix\t/^   a.b.c = a: 1;$/;\"\tf\nc\ttestdata/test.nix\t/^   c = {$/;\"\tm\n"
    );
}

#[test]
fn the_header_names_the_format() {
    let mut out = Vec::new();
    write_header(&mut out);
    assert_eq!(String::from_utf8(out).unwrap(), HEADER);
}

#[test]
fn an_index_is_the_header_and_the_sorted_lines() {
    let mut table = PathTable::new();
    let first = table.intern("/src/lib/one.nix".to_string());
    let second = table.intern("/src/two.nix".to_string());
    let mut paths = RelativePaths::new(table, "/src".to_string());
    let tags = vec![
        tag("b", second, "b = 1;", Kind::Member),
        tag("a", first, "a = x: x;", Kind::Function),
        tag("a", second, "a = 1;", Kind::Member),
    ];
    let out = build_index(tags, None, &mut paths);
    let expected = format!(
        "{}a\tlib/one.nix\t/^a = x: x;$/;\"\tf\na\ttwo.nix\t/^a = 1;$/;\"\tm\nb\ttwo.nix\t/^b = 1;$/;\"\tm\n",
        HEADER
    );
    assert_eq!(String::from_utf8(out).unwrap(), expected);
}

#[test]
fn an_index_does_not_depend_on_the_order_of_arrival() {
    let make = |order: &[usize]| {
        let all = [
            ("b", 1, "b = 1;", Kind::Member),
            ("a", 0, "a = x: x;", Kind::Function),
            ("a", 1, "a = 1;", Kind::Member),
            ("c", 0, "inherit c;", Kind::Member),
            ("a", 0, "a = 1;", Kind::Member),
        ];
        let mut table = PathTable::new();
        table.intern("/w/x.nix".to_string());
        table.intern("/w/y.nix".to_string());
        let mut paths = RelativePaths::new(table, "/w".to_string());
        let tags = order.iter().map(|&i| tag(all[i].0, all[i].1, all[i].2, all[i].3)).collect();
        build_index(tags, Some(2), &mut paths)
    };
    let reference = make(&[0, 1, 2, 3, 4]);
    assert_eq!(make(&[4, 3, 2, 1, 0]), reference);
    assert_eq!(make(&[2, 0, 4, 1, 3]), reference);
    assert_eq!(
        String::from_utf8(reference).unwrap(),
        format!("{}b\ty.nix\t/^b = 1;$/;\"\tm\nc\tx.nix\t/^inherit c;$/;\"\tm\n", HEADER)
    );
}

#[test]
fn a_relative_path_is_worked_out_once_and_kept() {
    let mut table = PathTable::new();
    assert_eq!(table.intern("/a/b/c.nix".to_string()), 0);
    assert_eq!(table.intern("/a/d.nix".to_string()), 1);
    assert_eq!(table.len(), 2);
    assert_eq!(table.get(1), "/a/d.nix");
    let mut paths = RelativePaths::new(table, "/a/b".to_string());
    assert_eq!(paths.relative(0).cloned(), Some("c.nix".to_string()));
    assert_eq!(paths.relative(1).cloned(), Some("../d.nix".to_string()));
    assert_eq!(paths.relative(0).cloned(), Some("c.nix".to_string()));
    assert_eq!(paths.relative(7), None);
}

#[test]
fn a_path_that_cannot_be_made_relative_has_no_line() {
    let mut table = PathTable::new();
    let number = table.intern("relative/file.nix".to_string());
    let mut paths = RelativePaths::new(table, "/base".to_string());
    assert_eq!(paths.relative(number), None);
    let out = build_index(vec![tag("a", number, "a = 1;", Kind::Member)], None, &mut paths);
    assert_eq!(String::from_utf8(out).unwrap(), HEADER);
}

#[test]
fn only_regular_source_files_are_wanted() {
    assert!(is_wanted("lib/strings.nix", true));
    assert!(!is_wanted("lib/strings.nix", false));
    assert!(!is_wanted("lib/strings.txt", true));
}

#[test]
fn hidden_entries_build_output_and_other_files_add_nothing() {
    let source = Some("{ a = 1; }");
    let listed = |path: &str| is_listed_file(&file(path, source));
    assert!(listed("/w/lib/a.nix"));
    assert!(listed("/./lib/a.nix"));
    assert!(!listed("/w/.git/a.nix"));
    assert!(!listed("/w/lib/.a.nix"));
    assert!(!listed("/w/target/debug/a.nix"));
    assert!(!listed("/w/../a.nix"));
    assert!(!listed("/w/lib/a.txt"));
    let mut directory = file("/w/dir.nix", source);
    directory.regular = false;
    assert!(!is_listed_file(&directory));
    assert!(scan_file(&directory, 0).is_empty());

    let files = vec![
        file("/w/.hidden/a.nix", Some("{ hidden = 1; }")),
        file("/w/target/b.nix", Some("{ built = 1; }")),
        file("/w/c.txt", Some("{ text = 1; }")),
        file("/w/d.nix", Some("{ kept = 1; }")),
        directory,
    ];
    let out = run_on_dir(files, None, "/w".to_string());
    assert_eq!(
        String::from_utf8(out).unwrap(),
        format!("{}kept\td.nix\t/^{{ kept = 1; }}$/;\"\tm\n", HEADER)
    );
}

#[test]
fn batches_are_gathered_in_order() {
    let gathered = gather(vec![
        vec![tag("a", 0, "1", Kind::Member)],
        vec![],
        vec![tag("c", 0, "3", Kind::Member), tag("b", 0, "2", Kind::Member)],
    ]);
    assert_eq!(
        shape(&gathered).iter().map(|t| t.0.clone()).collect::<Vec<_>>(),
        vec!["a", "c", "b"]
    );
}

#[test]
fn files_that_cannot_be_read_add_nothing() {
    assert!(scan_file(&file("/w/gone.nix", None), 0).is_empty());
    let large = format!("{{ a = 1; }}{}", " ".repeat(200_000));
    assert!(scan_file(&file("/w/large.nix", Some(&large)), 0).is_empty());
    assert_eq!(scan_file(&file("/w/small.nix", Some("{ a = 1; }")), 0).len(), 1);
}

#[test]
fn a_directory_is_indexed_from_its_files() {
    let files = |order: [usize; 2]| {
        let all = [
            ("/w/one.nix", Some("{\n  f = x: x;\n  inherit g;\n}\n")),
            ("/w/sub/two.nix", Some("{\n  f = 1;\n  a.b = y: y;\n}\n")),
        ];
        let mut files = vec![file("/w/gone.nix", None)];
        for i in order {
            files.push(file(all[i].0, all[i].1));
        }
        files
    };
    let out = run_on_dir(files([0, 1]), None, "/w".to_string());
    assert_eq!(
        String::from_utf8(out).unwrap(),
        format!(
            "{}b\tsub/two.nix\t/^  a.b = y: y;$/;\"\tf\n\
f\tone.nix\t/^  f = x: x;$/;\"\tf\n\
f\tsub/two.nix\t/^  f = 1;$/;\"\tm\n\
g\tone.nix\t/^  inherit g;$/;\"\tm\n",
            HEADER
        )
    );
    let limited = run_on_dir(files([1, 0]), Some(1), "/w".to_string());
    assert_eq!(
        String::from_utf8(limited).unwrap(),
        format!(
            "{}b\tsub/two.nix\t/^  a.b = y: y;$/;\"\tf\ng\tone.nix\t/^  inherit g;$/;\"\tm\n",
            HEADER
        )
    );
}

#[test]
fn the_order_in_which_files_are_found_changes_no_index_without_ties() {
    let all = [
        ("/w/one.nix", "{\n  f = x: x;\n  inherit g;\n}\n"),
        ("/w/sub/two.nix", "{\n  f = 1;\n  a.b = y: y;\n}\n"),
        ("/w/three.nix", "{\n  h = 1;\n  c = { k = z: z; };\n}\n"),
    ];
    let index = |order: [usize; 3], max: Option<u32>| {
        let files = order.iter().map(|&i| file(all[i].0, Some(all[i].1))).collect();
        run_on_dir(files, max, "/w".to_string())
    };
    for max in [None, Some(1), Some(2)] {
        let first = index([0, 1, 2], max);
        for order in [[0, 2, 1], [1, 0, 2], [1, 2, 0], [2, 0, 1], [2, 1, 0]] {
            assert_eq!(index(order, max), first);
        }
    }
}

#[test]
fn of_two_files_with_one_name_and_kind_the_one_found_first_comes_first() {
    let one = ("/w/one.nix", "{\n  f = x: x;\n}\n");
    let two = ("/w/two.nix", "{\n  f = y: y;\n}\n");
    let index = |files: [(&str, &str); 2]| {
        let files = files.iter().map(|f| file(f.0, Some(f.1))).collect();
        String::from_utf8(run_on_dir(files, None, "/w".to_string())).unwrap()
    };
    let line_one = "f\tone.nix\t/^  f = x: x;$/;\"\tf\n";
    let line_two = "f\ttwo.nix\t/^  f = y: y;$/;\"\tf\n";
    assert_eq!(index([one, two]), format!("{}{}{}", HEADER, line_one, line_two));
    assert_eq!(index([two, one]), format!("{}{}{}", HEADER, line_two, line_one));
}

const TEST_NIX: &str = "{
   /* a doc */
   the-fn = a: b: {z = a; y = b;};

   the-snd-fn = {b, /* doc */ c}: {};

   x = {
    the-fn = a: a;
   };
   y = {
    the-fn = a: a;
   };
   c = {
    inherit the-fn;
   };
   a.b.c = a: 1;
   inherit ff;
   inherit (n) grub hello;
}
";

const TEST2_NIX: &str = "{\n  inherit the-fn;\n}\n";

const REGRESSION_11_NIX: &str = r#"{
  /* Create a fixed width string with additional prefix to match
     required width.
  */
  fixedWidthString = width: filler: str:
    if width <= 0 then str else fixedWidthString (width - 1) filler (filler + str);

  withFeature = with_: feat: "--${if with_ then "with" else "without"}-${feat}";
  withFeatureAs = with_: feat: value: withFeature with_ feat + optionalString with_ "=${value}";
}
"#;

fn check(max_cardinality: Option<u32>, expected: &str) {
    let files = vec![
        file("/cwd/testdata/test.nix", Some(TEST_NIX)),
        file("/cwd/testdata/test2.nix", Some(TEST2_NIX)),
        file("/cwd/testdata/regression-11.nix", Some(REGRESSION_11_NIX)),
    ];
    let out = run_on_dir(files, max_cardinality, "/cwd".to_string());
    let out_s = std::str::from_utf8(&out).unwrap();
    println!("{}", out_s);

    assert_eq!(out_s.trim(), expected);
}

#[test]
fn smoke() {
    check(
        None,
        "!_TAG_FILE_FORMAT\t2\t/extended format/
!_TAG_FILE_SORTED\t1\t/0=unsorted, 1=sorted, 2=foldcase/
!_TAG_FILE_ENCODING\tutf-8\t//
!_TAG_PROGRAM_NAME\tnix-doc tags\t//
!_TAG_PROGRAM_URL\thttps://github.com/lf-/nix-doc\t//
c\ttestdata/test.nix\t/^   a.b.c = a: 1;$/;\"\tf
c\ttestdata/test.nix\t/^   c = {$/;\"\tm
ff\ttestdata/test.nix\t/^   inherit ff;$/;\"\tm
fixedWidthString\ttestdata/regression-11.nix\t/^  fixedWidthString = width: filler: str:$/;\"\tf
grub\ttestdata/test.nix\t/^   inherit (n) grub hello;$/;\"\tm
hello\ttestdata/test.nix\t/^   inherit (n) grub hello;$/;\"\tm
the-fn\ttestdata/test.nix\t/^    the-fn = a: a;$/;\"\tf
the-fn\ttestdata/test.nix\t/^    the-fn = a: a;$/;\"\tf
the-fn\ttestdata/test.nix\t/^   the-fn = a: b: {z = a; y = b;};$/;\"\tf
the-fn\ttestdata/test.nix\t/^    inherit the-fn;$/;\"\tm
the-fn\ttestdata/test2.nix\t/^  inherit the-fn;$/;\"\tm
the-snd-fn\ttestdata/test.nix\t/^   the-snd-fn = {b, \\/* doc *\\/ c}: {};$/;\"\tf
withFeature\ttestdata/regression-11.nix\t/^  withFeature = with_: feat: \"--\\${if with_ then \"with\" else \"without\"}-\\${feat}\";$/;\"\tf
withFeatureAs\ttestdata/regression-11.nix\t/^  withFeatureAs = with_: feat: value: withFeature with_ feat + optionalString with_ \"=\\${value}\";$/;\"\tf
x\ttestdata/test.nix\t/^   x = {$/;\"\tm
y\ttestdata/test.nix\t/^   the-fn = a: b: {z = a; y = b;};$/;\"\tm
y\ttestdata/test.nix\t/^   y = {$/;\"\tm
z\ttestdata/test.nix\t/^   the-fn = a: b: {z = a; y = b;};$/;\"\tm",
    );
}

#[test]
fn smoke_cardinality() {
    check(
        Some(1),
        "!_TAG_FILE_FORMAT\t2\t/extended format/
!_TAG_FILE_SORTED\t1\t/0=unsorted, 1=sorted, 2=foldcase/
!_TAG_FILE_ENCODING\tutf-8\t//
!_TAG_PROGRAM_NAME\tnix-doc tags\t//
!_TAG_PROGRAM_URL\thttps://github.com/lf-/nix-doc\t//
ff\ttestdata/test.nix\t/^   inherit ff;$/;\"\tm
fixedWidthString\ttestdata/regression-11.nix\t/^  fixedWidthString = width: filler: str:$/;\"\tf
grub\ttestdata/test.nix\t/^   inherit (n) grub hello;$/;\"\tm
hello\ttestdata/test.nix\t/^   inherit (n) grub hello;$/;\"\tm
the-snd-fn\ttestdata/test.nix\t/^   the-snd-fn = {b, \\/* doc *\\/ c}: {};$/;\"\tf
withFeature\ttestdata/regression-11.nix\t/^  withFeature = with_: feat: \"--\\${if with_ then \"with\" else \"without\"}-\\${feat}\";$/;\"\tf
withFeatureAs\ttestdata/regression-11.nix\t/^  withFeatureAs = with_: feat: value: withFeature with_ feat + optionalString with_ \"=\\${value}\";$/;\"\tf
x\ttestdata/test.nix\t/^   x = {$/;\"\tm
z\ttestdata/test.nix\t/^   the-fn = a: b: {z = a; y = b;};$/;\"\tm",
    );
}

#[test]
fn the_limit_holds_for_a_list_in_any_order() {
    let mut data = vec![
        tag("b", 0, "1", Kind::Member),
        tag("a", 0, "1", Kind::Member),
        tag("c", 0, "1", Kind::Member),
        tag("a", 1, "2", Kind::Function),
        tag("b", 0, "2", Kind::Member),
        tag("a", 0, "3", Kind::Member),
    ];
    assert!(!in_index_order(&data));
    run_cardinality(2, &mut data);
    assert_eq!(
        shape(&data),
        vec![
            ("b".to_string(), 0, "1".to_string(), Kind::Member),
            ("c".to_string(), 0, "1".to_string(), Kind::Member),
            ("b".to_string(), 0, "2".to_string(), Kind::Member),
        ]
    );
    run_cardinality(1, &mut data);
    assert_eq!(shape(&data), vec![("c".to_string(), 0, "1".to_string(), Kind::Member)]);
    assert!(in_index_order(&data));
    assert!(in_index_order(&Vec::new()));
}

#[test]
fn a_tag_without_a_line_counts_towards_no_limit() {
    // Seen from an absolute directory, a file with a relative path has no
    // place; its `f` is no second `f`.
    let files = vec![
        file("/w/one.nix", Some("{\n  f = x: x;\n}\n")),
        file("x/two.nix", Some("{\n  f = y: y;\n  g = 1;\n}\n")),
    ];
    let out = run_on_dir(files, Some(1), "/w".to_string());
    assert_eq!(
        String::from_utf8(out).unwrap(),
        format!("{}f\tone.nix\t/^  f = x: x;$/;\"\tf\n", HEADER)
    );
}
