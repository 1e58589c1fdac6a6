//! Searching the definitions of a source file: every function that an
//! attribute set defines under a name that matches the pattern, and that has
//! a documentation in front of it, is a result.

use crate::entry::{
    entry_key, entry_value, ident_name, ident_of, key_ident, key_of, lemma_name_begins_ident,
    name_of, value_of,
};
use crate::locate::{documentation, find_comment};
use crate::parse::{
    is_parsed, parse, parse_strict, source_model, syntax_error, ParseError,
};
use crate::pattern::{pattern_matches, Pattern};
use crate::position::{find_line, line_of, locate_pos, position_of};
use crate::report::{format_result, formatted};
use crate::syntax::{
    element_ok, lemma_child_nodes_in_range, well_formed, NodeKind, SyntaxTree, TreeModel,
};
use crate::text::chars_of;
use vstd::prelude::*;
use vstd::string::StringSliceAdditionalSpecFns;
use vstd::utf8::decode_utf8;

verus! {

/// The size in bytes above which a file is not searched. Files that large
/// are generated, and hold no documented functions.
pub const MAX_FILE_SIZE: u64 = 200_000;

/// One documented function.
pub struct SearchResult {
    /// The name of the function.
    pub identifier: String,
    /// Its documentation, dedented.
    pub doc: String,
    /// Its parameters, in one line.
    pub param_block: String,
    /// The byte offset of the identifier that names it.
    pub defined_at_start: usize,
}

/// What the search finds of one function, before its parameters are
/// rendered.
pub struct Hit {
    pub name: Seq<char>,
    pub doc: Seq<char>,
    /// The byte offset of the identifier.
    pub start: usize,
    /// The byte range of the function literal.
    pub lambda_start: usize,
    pub lambda_end: usize,
}

/// `r` holds what the search found of `hit`.
pub open spec fn describes(r: SearchResult, hit: Hit) -> bool {
    r.identifier@ == hit.name && r.doc@ == hit.doc && r.defined_at_start == hit.start
}

/// What the child `entry` of an attribute set contributes to a search for
/// `pattern`: it must be an entry whose value is a function literal and
/// whose key ends in an identifier with a name that the pattern matches, and
/// the function must have a documentation.
pub open spec fn entry_hit(m: TreeModel, pattern: Seq<char>, entry: int) -> Option<Hit> {
    if m.elements[entry].kind != NodeKind::KeyValue {
        None
    } else {
        match (entry_value(m, entry), entry_key(m, entry)) {
            (Some(value), Some(key)) => if m.elements[value as int].kind == NodeKind::Lambda {
                match key_ident(m, key as int) {
                    Some(ident) => match ident_name(m, ident as int) {
                        Some(name) => match documentation(m, value as int) {
                            Some(doc) => if pattern_matches(pattern, name) {
                                Some(
                                    Hit {
                                        name,
                                        doc,
                                        start: m.elements[ident as int].start,
                                        lambda_start: m.elements[value as int].start,
                                        lambda_end: m.elements[value as int].end,
                                    },
                                )
                            } else {
                                None
                            },
                            None => None,
                        },
                        None => None,
                    },
                    None => None,
                }
            } else {
                None
            },
            _ => None,
        }
    }
}

/// What the children `nodes` of an attribute set contribute, in order.
pub open spec fn entries_hits(m: TreeModel, pattern: Seq<char>, nodes: Seq<usize>) -> Seq<Hit>
    decreases nodes.len(),
{
    if nodes.len() == 0 {
        Seq::empty()
    } else {
        let before = entries_hits(m, pattern, nodes.drop_last());
        match entry_hit(m, pattern, nodes.last() as int) {
            Some(hit) => before.push(hit),
            None => before,
        }
    }
}

/// Element `i` is an attribute set.
pub open spec fn is_attr_set(m: TreeModel, i: int) -> bool {
    !m.elements[i].token && m.elements[i].kind == NodeKind::AttrSet
}

/// What the attribute set `set` contributes.
pub open spec fn set_hits(m: TreeModel, pattern: Seq<char>, set: int) -> Seq<Hit> {
    entries_hits(m, pattern, m.child_nodes(set))
}

/// What the attribute sets among the first `n` elements contribute, in the
/// order of the tree.
pub open spec fn tree_hits(m: TreeModel, pattern: Seq<char>, n: int) -> Seq<Hit>
    decreases n,
{
    if n <= 0 {
        Seq::empty()
    } else {
        tree_hits(m, pattern, n - 1) + if is_attr_set(m, n - 1) {
            set_hits(m, pattern, n - 1)
        } else {
            Seq::empty()
        }
    }
}

/// `results` are the results for `hits`, one for one, each with the
/// parameters as `render` gives them for the function literal, which it is
/// handed as the source and the byte range of the literal in it.
pub open spec fn results_of<F: Fn(&str, usize, usize) -> String>(
    results: Seq<SearchResult>,
    hits: Seq<Hit>,
    source: &str,
    render: &F,
) -> bool {
    &&& results.len() == hits.len()
    &&& forall|k: int|
        0 <= k < results.len() ==> describes(#[trigger] results[k], hits[k]) && call_ensures(
            *render,
            (source, hits[k].lambda_start, hits[k].lambda_end),
            results[k].param_block,
        )
}

/// `render` takes every byte range of `source`.
pub open spec fn renders<F: Fn(&str, usize, usize) -> String>(render: &F, source: &str) -> bool {
    forall|start: usize, end: usize|
        start <= end <= source.spec_bytes().len() ==> call_requires(*render, (source, start, end))
}

/// Element `i` is the first function literal that starts at or after byte
/// `pos`.
pub open spec fn is_first_lambda_from(m: TreeModel, pos: int, i: int) -> bool {
    &&& 0 <= i < m.elements.len()
    &&& is_lambda_from(m, pos, i)
    &&& forall|j: int| 0 <= j < i ==> !is_lambda_from(m, pos, j)
}

/// The first function literal that starts at or after byte `pos`, if there
/// is one.
pub open spec fn first_lambda_from(m: TreeModel, pos: int) -> Option<int> {
    if exists|i: int| is_first_lambda_from(m, pos, i) {
        Some(choose|i: int| is_first_lambda_from(m, pos, i))
    } else {
        None
    }
}

/// There is one first function literal, if there is any.
pub proof fn lemma_first_lambda_from(m: TreeModel, pos: int, i: int)
    requires
        is_first_lambda_from(m, pos, i),
    ensures
        first_lambda_from(m, pos) == Some(i),
{
    let j = choose|j: int| is_first_lambda_from(m, pos, j);
    assert(is_first_lambda_from(m, pos, j));
    if j < i {
        assert(!is_lambda_from(m, pos, j));
    }
    if i < j {
        assert(!is_lambda_from(m, pos, i));
    }
}

/// The documentation of element `i`, or the empty text where it has none.
pub open spec fn doc_or_empty(m: TreeModel, i: int) -> Seq<char> {
    match documentation(m, i) {
        Some(doc) => doc,
        None => Seq::empty(),
    }
}

/// Element `i` is a function literal that starts at or after byte `pos`.
pub open spec fn is_lambda_from(m: TreeModel, pos: int, i: int) -> bool {
    !m.elements[i].token && m.elements[i].kind == NodeKind::Lambda && m.elements[i].start >= pos
}

/// `s` ends with `.nix`.
pub open spec fn has_nix_extension(s: Seq<char>) -> bool {
    &&& s.len() >= 4
    &&& s[s.len() - 4] == '.'
    &&& s[s.len() - 3] == 'n'
    &&& s[s.len() - 2] == 'i'
    &&& s[s.len() - 1] == 'x'
}

/// A directory entry with the name `name` is passed over: a hidden one,
/// whose name begins with a dot and is not just `.`, and the build
/// directory `target`.
pub open spec fn is_ignored_name(name: Seq<char>) -> bool {
    (name != seq!['.'] && name.len() > 0 && name[0] == '.') || name == seq![
        't',
        'a',
        'r',
        'g',
        'e',
        't',
    ]
}

/// Should the file with the path `fname` be searched? Source files are
/// those whose name ends in `.nix`.
pub fn is_searchable(fname: &str) -> (b: bool)
    ensures
        b == has_nix_extension(fname@),
{
    let chars = chars_of(fname);
    let n = chars.len();
    n >= 4 && chars[n - 4] == '.' && chars[n - 3] == 'n' && chars[n - 2] == 'i' && chars[n - 1]
        == 'x'
}

/// Is the directory entry to be passed over, with all below it? `name` is
/// its file name, or `None` where the name is no text.
pub fn is_ignored(name: Option<&str>) -> (b: bool)
    ensures
        b == match name {
            Some(s) => is_ignored_name(s@),
            None => true,
        },
{
    match name {
        Some(s) => {
            let chars = chars_of(s);
            let n = chars.len();
            let dot = n == 1 && chars[0] == '.';
            let hidden = n > 0 && chars[0] == '.';
            let target = n == 6 && chars[0] == 't' && chars[1] == 'a' && chars[2] == 'r'
                && chars[3] == 'g' && chars[4] == 'e' && chars[5] == 't';
            proof {
                if dot {
                    assert(s@ == seq!['.']);
                }
                if target {
                    assert(s@ == seq!['t', 'a', 'r', 'g', 'e', 't']);
                }
            }
            (!dot && hidden) || target
        },
        None => true,
    }
}

/// Is a file of `length` bytes too large to be searched?
pub fn is_oversized(length: u64) -> (b: bool)
    ensures
        b == (length > MAX_FILE_SIZE),
{
    length > MAX_FILE_SIZE
}

impl SearchResult {
    /// The result as it is shown, for a definition in the file `filename`
    /// on line `line`.
    pub fn format(&self, filename: &str, line: usize) -> (r: String)
        ensures
            r@ == formatted(
                self.doc@,
                self.identifier@,
                self.param_block@,
                filename@,
                line as nat,
            ),
    {
        format_result(
            self.doc.as_str(),
            self.identifier.as_str(),
            self.param_block.as_str(),
            filename,
            line,
        )
    }
}

/// The result for the function literal `lambda`, defined under `name` at
/// byte `defined_at_start`. A function without documentation has an empty
/// one.
pub fn visit_lambda<F: Fn(&str, usize, usize) -> String>(
    name: String,
    defined_at_start: usize,
    tree: &SyntaxTree,
    lambda: usize,
    render: &F,
) -> (r: SearchResult)
    requires
        lambda < tree@.elements.len(),
        renders(render, tree.source_ref()),
    ensures
        r.identifier == name,
        r.defined_at_start == defined_at_start,
        r.doc@ == doc_or_empty(tree@, lambda as int),
        call_ensures(
            *render,
            (
                tree.source_ref(),
                tree@.elements[lambda as int].start,
                tree@.elements[lambda as int].end,
            ),
            r.param_block,
        ),
{
    let e = tree.element(lambda);
    let param_block = render(tree.source(), e.start, e.end);
    let doc = match find_comment(tree, lambda) {
        Some(doc) => doc,
        None => String::new(),
    };
    SearchResult { identifier: name, doc, param_block, defined_at_start }
}

/// The results that the attribute set `set` contributes to a search for
/// `id_needle`.
pub fn visit_attrset<F: Fn(&str, usize, usize) -> String>(
    id_needle: &Pattern,
    tree: &SyntaxTree,
    set: usize,
    render: &F,
) -> (results: Vec<SearchResult>)
    requires
        set < tree@.elements.len(),
        renders(render, tree.source_ref()),
    ensures
        results_of(
            results@,
            set_hits(tree@, id_needle@, set as int),
            tree.source_ref(),
            render,
        ),
{
    let mut results: Vec<SearchResult> = Vec::new();
    let nodes = tree.child_nodes(set);
    let ghost m = tree@;
    let ghost hits = Seq::<Hit>::empty();
    let mut i: usize = 0;
    while i < nodes.len()
        invariant
            i <= nodes.len(),
            m == tree@,
            forall|k: int| 0 <= k < nodes.len() ==> (#[trigger] nodes[k]) < m.elements.len(),
            renders(render, tree.source_ref()),
            results_of(
                results@,
                entries_hits(m, id_needle@, nodes@.take(i as int)),
                tree.source_ref(),
                render,
            ),
        decreases nodes.len() - i,
    {
        let entry = nodes[i];
        proof {
            assert(nodes@.take(i + 1).drop_last() == nodes@.take(i as int));
            assert(nodes@.take(i + 1).last() == entry);
        }
        let ghost before = entries_hits(m, id_needle@, nodes@.take(i as int));
        i += 1;
        if tree.element(entry).kind != NodeKind::KeyValue {
            continue ;
        }
        let value = match value_of(tree, entry) {
            Some(value) => value,
            None => {
                continue ;
            },
        };
        if tree.element(value).kind != NodeKind::Lambda {
            continue ;
        }
        let key = match key_of(tree, entry) {
            Some(key) => key,
            None => {
                continue ;
            },
        };
        let ident = match ident_of(tree, key) {
            Some(ident) => ident,
            None => {
                continue ;
            },
        };
        let name = match name_of(tree, ident) {
            Some(name) => name,
            None => {
                continue ;
            },
        };
        if !id_needle.is_match(name) {
            continue ;
        }
        let start = tree.element(ident).start;
        let result = visit_lambda(name.to_owned(), start, tree, value, render);
        if !result.doc.as_str().is_empty() {
            let ghost old_results = results@;
            results.push(result);
            proof {
                let hit = entry_hit(m, id_needle@, entry as int).unwrap();
                let after = before.push(hit);
                assert forall|k: int| 0 <= k < results@.len() implies describes(
                    #[trigger] results@[k],
                    after[k],
                ) && call_ensures(
                    *render,
                    (tree.source_ref(), after[k].lambda_start, after[k].lambda_end),
                    results@[k].param_block,
                ) by {
                    if k < old_results.len() {
                        assert(results@[k] == old_results[k]);
                    }
                }
            }
        }
    }
    assert(nodes@.take(nodes.len() as int) == nodes@);
    results
}

/// The results of a search for `identifier` in the whole tree, in the
/// order of the source.
pub fn search_ast<F: Fn(&str, usize, usize) -> String>(
    identifier: &Pattern,
    tree: &SyntaxTree,
    render: &F,
) -> (results: Vec<SearchResult>)
    requires
        renders(render, tree.source_ref()),
    ensures
        results_of(
            results@,
            tree_hits(tree@, identifier@, tree@.elements.len() as int),
            tree.source_ref(),
            render,
        ),
{
    let mut results: Vec<SearchResult> = Vec::new();
    let n = tree.len();
    let ghost m = tree@;
    let mut i: usize = 0;
    while i < n
        invariant
            i <= n == m.elements.len(),
            m == tree@,
            renders(render, tree.source_ref()),
            results_of(results@, tree_hits(m, identifier@, i as int), tree.source_ref(), render),
        decreases n - i,
    {
        let e = tree.element(i);
        if !e.token && e.kind == NodeKind::AttrSet {
            let mut found = visit_attrset(identifier, tree, i, render);
            let ghost before = results@;
            let ghost added = found@;
            let ghost hits_before = tree_hits(m, identifier@, i as int);
            let ghost hits_added = set_hits(m, identifier@, i as int);
            results.append(&mut found);
            proof {
                let hits = hits_before + hits_added;
                assert forall|k: int| 0 <= k < results@.len() implies describes(
                    #[trigger] results@[k],
                    hits[k],
                ) && call_ensures(
                    *render,
                    (tree.source_ref(), hits[k].lambda_start, hits[k].lambda_end),
                    results@[k].param_block,
                ) by {
                    if k < before.len() {
                        assert(results@[k] == before[k]);
                    } else {
                        assert(results@[k] == added[k - before.len()]);
                    }
                }
            }
        } else {
            assert(tree_hits(m, identifier@, i as int) + Seq::<Hit>::empty() == tree_hits(
                m,
                identifier@,
                i as int,
            ));
        }
        i += 1;
    }
    results
}

/// `found` are the results for `hits` in `source`, one for one, each with
/// the number of the line that its identifier stands on.
pub open spec fn found_of<F: Fn(&str, usize, usize) -> String>(
    found: Seq<(SearchResult, usize)>,
    hits: Seq<Hit>,
    source: &str,
    render: &F,
) -> bool {
    &&& found.len() == hits.len()
    &&& forall|k: int|
        0 <= k < found.len() ==> describes((#[trigger] found[k]).0, hits[k]) && call_ensures(
            *render,
            (source, hits[k].lambda_start, hits[k].lambda_end),
            found[k].0.param_block,
        ) && found[k].1 == line_of(source.spec_bytes(), hits[k].start as int)
}

/// What a search for `pattern` finds in the tree `m`.
pub open spec fn all_hits(m: TreeModel, pattern: Seq<char>) -> Seq<Hit> {
    tree_hits(m, pattern, m.elements.len() as int)
}

/// The results of a search for `matching` in the source `content` of one
/// file, each with the line of its definition. A file that is too large
/// gives no results; one that is not handed to the parser, or that the
/// parser reports an error for, gives the error.
pub fn search_file<F: Fn(&str, usize, usize) -> String>(
    content: &str,
    matching: &Pattern,
    render: &F,
) -> (r: Result<Vec<(SearchResult, usize)>, ParseError>)
    requires
        renders(render, content),
    ensures
        content.spec_bytes().len() > MAX_FILE_SIZE ==> (r matches Ok(found) && found.len() == 0),
        content.spec_bytes().len() <= MAX_FILE_SIZE ==> match r {
            Ok(found) => {
                &&& is_parsed(content@)
                &&& syntax_error(content@) is None
                &&& source_model(content@) is Some
                &&& found_of(
                    found@,
                    all_hits(source_model(content@).unwrap(), matching@),
                    content,
                    render,
                )
            },
            Err(ParseError::Syntax(message)) => is_parsed(content@) && syntax_error(content@)
                == Some(message@),
            Err(ParseError::Malformed) => is_parsed(content@) && syntax_error(content@) is None
                && source_model(content@) is None,
            Err(ParseError::UnknownInherit) => !is_parsed(content@),
            Err(ParseError::TooLarge) => false,
        },
{
    let length = content.as_bytes().len();
    if length as u64 > MAX_FILE_SIZE {
        return Ok(Vec::new());
    }
    let tree = match parse_strict(content) {
        Ok(tree) => tree,
        Err(error) => {
            return Err(error);
        },
    };
    let mut results = search_ast(matching, &tree, render);
    let ghost hits = all_hits(tree@, matching@);
    let ghost wanted = results@;
    let n = results.len();
    // Take the results from the back, to hand each of them on without a copy.
    let mut reversed: Vec<(SearchResult, usize)> = Vec::new();
    while results.len() > 0
        invariant
            results.len() + reversed.len() == n == wanted.len(),
            tree@.source == content.spec_bytes(),
            content.spec_bytes().len() <= MAX_FILE_SIZE,
            hits == all_hits(tree@, matching@),
            wanted.len() == hits.len(),
            well_formed(tree@.elements, tree@.source.len()),
            forall|k: int| 0 <= k < results.len() ==> (#[trigger] results[k]) == wanted[k],
            forall|k: int| 0 <= k < n ==> (#[trigger] wanted[k]).defined_at_start == hits[k].start,
            forall|k: int|
                0 <= k < reversed.len() ==> (#[trigger] reversed[k]).0 == wanted[n - 1 - k]
                    && reversed[k].1 == line_of(content.spec_bytes(), hits[n - 1 - k].start as int),
        decreases results.len(),
    {
        let ghost k = results.len() - 1;
        let result = results.pop().unwrap();
        proof {
            lemma_hit_start(tree@, matching@, tree@.elements.len() as int, k);
        }
        let line = find_line(content, result.defined_at_start);
        reversed.push((result, line));
    }
    let mut found: Vec<(SearchResult, usize)> = Vec::new();
    while reversed.len() > 0
        invariant
            found.len() + reversed.len() == n == wanted.len(),
            forall|k: int|
                0 <= k < reversed.len() ==> (#[trigger] reversed[k]).0 == wanted[n - 1 - k]
                    && reversed[k].1 == line_of(content.spec_bytes(), hits[n - 1 - k].start as int),
            forall|k: int|
                0 <= k < found.len() ==> (#[trigger] found[k]).0 == wanted[k] && found[k].1
                    == line_of(content.spec_bytes(), hits[k].start as int),
        decreases reversed.len(),
    {
        let pair = reversed.pop().unwrap();
        found.push(pair);
    }
    proof {
        assert forall|k: int| 0 <= k < found@.len() implies describes(
            (#[trigger] found@[k]).0,
            hits[k],
        ) && call_ensures(
            *render,
            (content, hits[k].lambda_start, hits[k].lambda_end),
            found@[k].0.param_block,
        ) && found@[k].1 == line_of(content.spec_bytes(), hits[k].start as int) by {
            assert(found@[k].0 == wanted[k]);
        }
    }
    Ok(found)
}

/// `shown[k]` is the result `found[k]` as it is shown for the file
/// `filename`.
pub open spec fn shown_of(
    shown: Seq<String>,
    found: Seq<(SearchResult, usize)>,
    filename: Seq<char>,
) -> bool {
    &&& shown.len() == found.len()
    &&& forall|k: int|
        0 <= k < shown.len() ==> (#[trigger] shown[k])@ == formatted(
            found[k].0.doc@,
            found[k].0.identifier@,
            found[k].0.param_block@,
            filename,
            found[k].1 as nat,
        )
}

/// The results found in the file `filename`, each as it is shown.
pub fn format_found(found: &Vec<(SearchResult, usize)>, filename: &str) -> (shown: Vec<String>)
    ensures
        shown_of(shown@, found@, filename@),
{
    let mut shown: Vec<String> = Vec::new();
    let mut i: usize = 0;
    while i < found.len()
        invariant
            i <= found.len(),
            shown_of(shown@, found@.take(i as int), filename@),
        decreases found.len() - i,
    {
        let text = found[i].0.format(filename, found[i].1);
        let ghost before = shown@;
        shown.push(text);
        proof {
            assert forall|k: int| 0 <= k < shown@.len() implies (#[trigger] shown@[k])@
                == formatted(
                found@.take(i + 1)[k].0.doc@,
                found@.take(i + 1)[k].0.identifier@,
                found@.take(i + 1)[k].0.param_block@,
                filename@,
                found@.take(i + 1)[k].1 as nat,
            ) by {
                if k < i {
                    assert(shown@[k] == before[k]);
                    assert(found@.take(i + 1)[k] == found@.take(i as int)[k]);
                }
            }
        }
        i += 1;
    }
    assert(found@.take(found.len() as int) == found@);
    shown
}

/// The text `name` stands in `source` from byte `start` on.
pub open spec fn stands_at(source: Seq<u8>, name: Seq<char>, start: usize) -> bool {
    exists|end: int|
        start <= end <= source.len() && name == decode_utf8(
            #[trigger] source.subrange(start as int, end),
        )
}

/// Every hit starts where its name stands in the source.
pub proof fn lemma_hit_name(m: TreeModel, pattern: Seq<char>, n: int, k: int)
    requires
        well_formed(m.elements, m.source.len()),
        0 <= n <= m.elements.len() <= usize::MAX,
        0 <= k < tree_hits(m, pattern, n).len(),
    ensures
        stands_at(m.source, tree_hits(m, pattern, n)[k].name, tree_hits(m, pattern, n)[k].start),
    decreases n,
{
    let before = tree_hits(m, pattern, n - 1);
    if k < before.len() {
        lemma_hit_name(m, pattern, n - 1, k);
    } else {
        lemma_entries_hit_name(m, pattern, m.child_nodes(n - 1), k - before.len());
    }
}

/// Every hit of an attribute set starts where its name stands in the source.
proof fn lemma_entries_hit_name(m: TreeModel, pattern: Seq<char>, nodes: Seq<usize>, k: int)
    requires
        well_formed(m.elements, m.source.len()),
        m.elements.len() <= usize::MAX,
        0 <= k < entries_hits(m, pattern, nodes).len(),
    ensures
        stands_at(
            m.source,
            entries_hits(m, pattern, nodes)[k].name,
            entries_hits(m, pattern, nodes)[k].start,
        ),
    decreases nodes.len(),
{
    let before = entries_hits(m, pattern, nodes.drop_last());
    if k < before.len() {
        lemma_entries_hit_name(m, pattern, nodes.drop_last(), k);
    } else {
        let entry = nodes.last() as int;
        let key = entry_key(m, entry).unwrap();
        let ident = key_ident(m, key as int).unwrap();
        lemma_child_nodes_in_range(m, key as int);
        lemma_name_begins_ident(m, ident as int);
        let start = m.elements[ident as int].start;
        let end = m.elements[ident + 1].end as int;
        assert(element_ok(m.elements, m.source.len(), ident + 1));
        assert(entries_hits(m, pattern, nodes)[k].name == decode_utf8(
            m.source.subrange(start as int, end),
        ));
    }
}

/// Every hit starts inside the source.
pub proof fn lemma_hit_start(m: TreeModel, pattern: Seq<char>, n: int, k: int)
    requires
        well_formed(m.elements, m.source.len()),
        0 <= n <= m.elements.len(),
        0 <= k < tree_hits(m, pattern, n).len(),
    ensures
        tree_hits(m, pattern, n)[k].start <= m.source.len(),
    decreases n,
{
    let before = tree_hits(m, pattern, n - 1);
    if k < before.len() {
        lemma_hit_start(m, pattern, n - 1, k);
    } else {
        lemma_entries_hit_start(m, pattern, m.child_nodes(n - 1), k - before.len());
    }
}

/// Every hit of an attribute set starts inside the source.
proof fn lemma_entries_hit_start(m: TreeModel, pattern: Seq<char>, nodes: Seq<usize>, k: int)
    requires
        well_formed(m.elements, m.source.len()),
        0 <= k < entries_hits(m, pattern, nodes).len(),
    ensures
        entries_hits(m, pattern, nodes)[k].start <= m.source.len(),
    decreases nodes.len(),
{
    let before = entries_hits(m, pattern, nodes.drop_last());
    if k < before.len() {
        lemma_entries_hit_start(m, pattern, nodes.drop_last(), k);
    } else {
        let entry = nodes.last() as int;
        let key = entry_key(m, entry).unwrap();
        let ident = key_ident(m, key as int).unwrap();
        lemma_child_nodes_in_range(m, key as int);
        assert(element_ok(m.elements, m.source.len(), ident as int));
    }
}

/// `text` shows the function literal `lambda` of the source `content` as a
/// function named `func`, with the parameters as `render` gives them.
pub open spec fn shows_function<F: Fn(&str, usize, usize) -> String>(
    text: Seq<char>,
    render: &F,
    content: &str,
    m: TreeModel,
    lambda: int,
    filename: Seq<char>,
    line: nat,
) -> bool {
    exists|params: String| #[trigger]
        call_ensures(
            *render,
            (content, m.elements[lambda].start, m.elements[lambda].end),
            params,
        ) && text == formatted(
            doc_or_empty(m, lambda),
            seq!['f', 'u', 'n', 'c'],
            params@,
            filename,
            line,
        )
}

/// The documentation of the first function literal of `content` that
/// starts at or after line `line`, column `col`, as it is shown for the
/// file `filename`. `None` where the file has no such position, no tree, or
/// no such function.
pub fn get_function_docs<F: Fn(&str, usize, usize) -> String>(
    content: &str,
    filename: &str,
    line: usize,
    col: usize,
    render: &F,
) -> (r: Option<String>)
    requires
        renders(render, content),
    ensures
        match (position_of(content.spec_bytes(), line as int, col as int), source_model(content@)) {
            (Some(pos), Some(m)) => match first_lambda_from(m, pos) {
                Some(lambda) => r matches Some(text) && shows_function(
                    text@,
                    render,
                    content,
                    m,
                    lambda,
                    filename@,
                    line as nat,
                ),
                None => r is None,
            },
            _ => r is None,
        },
{
    let pos = match locate_pos(content, line, col) {
        Some(pos) => pos,
        None => {
            return None;
        },
    };
    let tree = match parse(content) {
        Some(tree) => tree,
        None => {
            return None;
        },
    };
    let n = tree.len();
    let mut i: usize = 0;
    let mut found = false;
    while i < n && !found
        invariant
            i <= n == tree@.elements.len(),
            forall|j: int| 0 <= j < i ==> !is_lambda_from(tree@, pos as int, j),
            found ==> i < n && is_lambda_from(tree@, pos as int, i as int),
        decreases n - i + (if found { 0int } else { 1int }),
    {
        let e = tree.element(i);
        if !e.token && e.kind == NodeKind::Lambda && e.start >= pos {
            found = true;
        } else {
            i += 1;
        }
    }
    if !found {
        assert(first_lambda_from(tree@, pos as int) is None);
        return None;
    }
    let mut name = String::new();
    name.push('f');
    name.push('u');
    name.push('n');
    name.push('c');
    let res = visit_lambda(name, pos, &tree, i, render);
    let text = res.format(filename, line);
    proof {
        assert(is_first_lambda_from(tree@, pos as int, i as int));
        lemma_first_lambda_from(tree@, pos as int, i as int);
        assert(res.identifier@ == seq!['f', 'u', 'n', 'c']);
        let m = tree@;
        let params = res.param_block;
        assert(call_ensures(
            *render,
            (content, m.elements[i as int].start, m.elements[i as int].end),
            params,
        ) && text@ == formatted(
            doc_or_empty(m, i as int),
            seq!['f', 'u', 'n', 'c'],
            params@,
            filename@,
            line as nat,
        ));
        assert(shows_function(text@, render, content, m, i as int, filename@, line as nat));
    }
    Some(text)
}

} // verus!
