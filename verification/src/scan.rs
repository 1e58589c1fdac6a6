//! The whole way from the entries of a directory to its tag index, for
//! files that were read already. Which of the entries are looked at is
//! decided here: regular files with the extension of a source file, not
//! too large, and neither hidden nor below a hidden or build directory.

use crate::index::{build_index, index_bytes, lemma_index_order_independent};
use crate::parse::source_model;
use crate::paths::{PathTable, RelativePaths};
use crate::search::{
    has_nix_extension, is_ignored, is_ignored_name, is_oversized, is_searchable, MAX_FILE_SIZE,
};
use crate::sort::{lemma_bag_empty, tag_bag};
use crate::tag::{tag_views, tags_sorted, Tag, TagModel};
use crate::tags::{file_tags, FileJob};
use vstd::prelude::*;
use vstd::utf8::encode_utf8;

verus! {

/// One entry that was found below a directory.
pub struct SourceFile {
    /// Its path.
    pub path: String,
    /// The names of the entries that lead to it: that of the directory that
    /// was asked for, those of the directories on the way down, and its
    /// own.
    pub names: Vec<String>,
    /// Whether it is a regular file.
    pub regular: bool,
    /// Its text, or `None` where it could not be read.
    pub content: Option<String>,
}

/// The entry is looked at: it is a regular file, its path has the
/// extension of a source file, and no entry on the way to it is passed
/// over.
pub open spec fn is_listed(file: SourceFile) -> bool {
    &&& file.regular
    &&& has_nix_extension(file.path@)
    &&& forall|k: int| 0 <= k < file.names@.len() ==> !is_ignored_name((#[trigger] file.names@[k])@)
}

/// The path of each file.
pub open spec fn file_paths(files: Seq<SourceFile>) -> Seq<Seq<char>> {
    Seq::new(files.len(), |i: int| files[i].path@)
}

/// The tags that the entry with the number `number` adds to an index:
/// those of its tree, if it is looked at, could be read, is not too large,
/// and has a tree.
pub open spec fn tags_of_file(file: SourceFile, number: usize) -> Seq<TagModel> {
    match file.content {
        Some(content) => if !is_listed(file) || encode_utf8(content@).len() > MAX_FILE_SIZE {
            Seq::empty()
        } else {
            match source_model(content@) {
                Some(m) => file_tags(m, number),
                None => Seq::empty(),
            }
        },
        None => Seq::empty(),
    }
}

/// The tags that the first `n` files add to an index, file after file.
pub open spec fn tags_of_files(files: Seq<SourceFile>, n: int) -> Seq<TagModel>
    decreases n,
{
    if n <= 0 {
        Seq::empty()
    } else {
        tags_of_files(files, n - 1) + tags_of_file(files[n - 1], (n - 1) as usize)
    }
}

/// The tags that `files` add to an index.
pub open spec fn found_tags(files: Seq<SourceFile>) -> Seq<TagModel> {
    tags_of_files(files, files.len() as int)
}

/// A file is looked at if it is a regular file with the extension of a
/// source file.
pub fn is_wanted(path: &str, regular_file: bool) -> (b: bool)
    ensures
        b == (regular_file && has_nix_extension(path@)),
{
    regular_file && is_searchable(path)
}

/// Tells whether the entry is looked at.
pub fn is_listed_file(file: &SourceFile) -> (b: bool)
    ensures
        b == is_listed(*file),
{
    if !is_wanted(file.path.as_str(), file.regular) {
        return false;
    }
    let mut k: usize = 0;
    while k < file.names.len()
        invariant
            k <= file.names.len(),
            forall|j: int| 0 <= j < k ==> !is_ignored_name((#[trigger] file.names@[j])@),
        decreases file.names.len() - k,
    {
        if is_ignored(Some(file.names[k].as_str())) {
            return false;
        }
        k += 1;
    }
    true
}

/// The tags of one entry, in the order of an index. An entry that is not
/// looked at, that could not be read, that is too large or that has no tree
/// has none.
pub fn scan_file(file: &SourceFile, number: usize) -> (tags: Vec<Tag>)
    ensures
        tags_sorted(tag_views(tags@)),
        tag_bag(tags@) == tags_of_file(*file, number).to_multiset(),
{
    let empty: Vec<Tag> = Vec::new();
    proof {
        lemma_bag_empty(empty@);
        assert(Seq::<TagModel>::empty().to_multiset() =~= tag_bag(empty@)) by {
            broadcast use vstd::seq_lib::group_to_multiset_ensures;
            broadcast use vstd::multiset::lemma_multiset_empty_len;

            assert(Seq::<TagModel>::empty().len() == 0);
        }
    }
    match &file.content {
        Some(content) => {
            let text = content.as_str();
            if !is_listed_file(file) || is_oversized(text.as_bytes().len() as u64) {
                return empty;
            }
            match FileJob::run(text, number) {
                Some(tags) => tags,
                None => empty,
            }
        },
        None => empty,
    }
}

/// All tags of `batches`, batch after batch.
pub fn gather(batches: Vec<Vec<Tag>>) -> (tags: Vec<Tag>)
    ensures
        tag_views(tags@) == batches@.map_values(|b: Vec<Tag>| tag_views(b@)).flatten(),
{
    let ghost wanted = batches@.map_values(|b: Vec<Tag>| tag_views(b@));
    let n = batches.len();
    let mut batches = batches;
    let mut reversed: Vec<Vec<Tag>> = Vec::new();
    while batches.len() > 0
        invariant
            batches.len() + reversed.len() == n == wanted.len(),
            forall|k: int|
                0 <= k < batches.len() ==> tag_views((#[trigger] batches[k])@) == wanted[k],
            forall|k: int|
                0 <= k < reversed.len() ==> tag_views((#[trigger] reversed[k])@) == wanted[n - 1
                    - k],
        decreases batches.len(),
    {
        let batch = batches.pop().unwrap();
        reversed.push(batch);
    }
    let mut tags: Vec<Tag> = Vec::new();
    let mut i: usize = 0;
    proof {
        assert(tag_views(tags@) =~= wanted.take(0).flatten());
    }
    while i < n
        invariant
            i + reversed.len() == n == wanted.len(),
            forall|k: int|
                0 <= k < reversed.len() ==> tag_views((#[trigger] reversed[k])@) == wanted[n - 1
                    - k],
            tag_views(tags@) == wanted.take(i as int).flatten(),
        decreases n - i,
    {
        let mut batch = reversed.pop().unwrap();
        let ghost before = tags@;
        let ghost added = batch@;
        tags.append(&mut batch);
        proof {
            assert(tag_views(before + added) =~= tag_views(before) + tag_views(added));
            assert(wanted.take(i + 1) == wanted.take(i as int).push(wanted[i as int]));
            wanted.take(i as int).lemma_flatten_push(wanted[i as int]);
        }
        i += 1;
    }
    assert(wanted.take(n as int) == wanted);
    tags
}

/// The tag index of `files`, which are the entries found below a
/// directory, in the order in which they were found. Only the entries that
/// are looked at add tags. A file is shown by its path relative to `base`.
/// `max_cardinality` is the greatest number of tags that a name may have;
/// `None` leaves every name in.
pub fn run_on_dir(files: Vec<SourceFile>, max_cardinality: Option<u32>, base: String) -> (out: Vec<
    u8,
>)
    ensures
        out@ == index_bytes(found_tags(files@), max_cardinality, file_paths(files@), base@),
{
    let mut table = PathTable::new();
    let mut tags: Vec<Tag> = Vec::new();
    let n = files.len();
    let mut i: usize = 0;
    proof {
        lemma_bag_empty(tags@);
        assert(tags_of_files(files@, 0).to_multiset() =~= tag_bag(tags@)) by {
            broadcast use vstd::seq_lib::group_to_multiset_ensures;
            broadcast use vstd::multiset::lemma_multiset_empty_len;

            assert(tags_of_files(files@, 0).len() == 0);
        }
        assert(table@ =~= file_paths(files@).take(0));
    }
    while i < n
        invariant
            i <= n == files.len(),
            table@ == file_paths(files@).take(i as int),
            tag_bag(tags@) == tags_of_files(files@, i as int).to_multiset(),
        decreases n - i,
    {
        let file = &files[i];
        let number = table.intern(file.path.clone());
        let mut found = scan_file(file, number);
        let ghost before = tags@;
        let ghost added = found@;
        tags.append(&mut found);
        proof {
            assert(tag_views(before + added) =~= tag_views(before) + tag_views(added));
            vstd::seq_lib::lemma_multiset_commutative(tag_views(before), tag_views(added));
            vstd::seq_lib::lemma_multiset_commutative(
                tags_of_files(files@, i as int),
                tags_of_file(files@[i as int], i),
            );
            assert(file_paths(files@).take(i + 1) =~= file_paths(files@).take(i as int).push(
                file.path@,
            ));
        }
        i += 1;
    }
    assert(file_paths(files@).take(n as int) == file_paths(files@));
    let mut paths = RelativePaths::new(table, base);
    proof {
        lemma_index_order_independent(
            tag_views(tags@),
            found_tags(files@),
            max_cardinality,
            file_paths(files@),
            base@,
        );
    }
    build_index(tags, max_cardinality, &mut paths)
}

} // verus!
