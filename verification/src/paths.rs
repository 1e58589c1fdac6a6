//! The files of a run. Each file that is found gets a number, by which the
//! tags name it; the path that an index shows for it, relative to a base
//! directory, is worked out when it is first asked for, and kept.

use vstd::prelude::*;

verus! {

/// The path that leads from the directory `base` to `path`, as
/// `pathdiff::diff_paths` makes it from the components of the two paths,
/// displayed as text. `None` where that function finds no such path.
pub uninterp spec fn relative_path(path: Seq<char>, base: Seq<char>) -> Option<Seq<char>>;

/// Calls `pathdiff::diff_paths` with `path` and `base`, and displays the
/// path that it returns. The function looks at the two paths alone, not at
/// any file.
#[verifier::external_body]
fn diff_paths(path: &str, base: &str) -> (r: Option<String>)
    ensures
        match r {
            Some(relative) => relative_path(path@, base@) == Some(relative@),
            None => relative_path(path@, base@) is None,
        },
{
    pathdiff::diff_paths(path, base).map(|relative| relative.display().to_string())
}

/// The paths of the files that were found, in the order in which they were
/// found. The number of a file is its place in that order.
pub struct PathTable {
    paths: Vec<String>,
}

/// The text of each path.
pub open spec fn path_views(paths: Seq<String>) -> Seq<Seq<char>> {
    Seq::new(paths.len(), |i: int| paths[i]@)
}

impl PathTable {
    /// The paths, in the order of their numbers.
    pub closed spec fn view(&self) -> Seq<Seq<char>> {
        path_views(self.paths@)
    }

    /// A table without paths.
    pub fn new() -> (table: PathTable)
        ensures
            table@ == Seq::<Seq<char>>::empty(),
    {
        let table = PathTable { paths: Vec::new() };
        assert(table@ =~= Seq::<Seq<char>>::empty());
        table
    }

    /// The number of paths.
    pub fn len(&self) -> (n: usize)
        ensures
            n == self@.len(),
    {
        self.paths.len()
    }

    /// Takes `path` into the table and returns its number: the next one
    /// that is free. The paths that are in the table keep their numbers.
    pub fn intern(&mut self, path: String) -> (number: usize)
        ensures
            number == old(self)@.len(),
            final(self)@ == old(self)@.push(path@),
    {
        let number = self.paths.len();
        self.paths.push(path);
        assert(self@ =~= old(self)@.push(path@));
        number
    }

    /// The path with the number `number`.
    pub fn get(&self, number: usize) -> (path: &str)
        requires
            number < self@.len(),
        ensures
            path@ == self@[number as int],
    {
        self.paths[number].as_str()
    }
}

/// The relative path of the file `number` of `paths`, seen from `base`. A
/// number that names no file has none.
pub open spec fn relative_of(paths: Seq<Seq<char>>, base: Seq<char>, number: usize) -> Option<
    Seq<char>,
> {
    if number < paths.len() {
        relative_path(paths[number as int], base)
    } else {
        None
    }
}

/// A table of paths together with the base directory that its files are
/// shown relative to, and the relative paths that were worked out so far.
pub struct RelativePaths {
    table: PathTable,
    base: String,
    known: Vec<Option<Option<String>>>,
}

impl RelativePaths {
    /// What is kept of a file is its relative path.
    pub closed spec fn wf(&self) -> bool {
        &&& self.known@.len() == self.table@.len()
        &&& forall|i: int|
            0 <= i < self.known@.len() ==> match #[trigger] self.known@[i] {
                Some(Some(relative)) => relative_path(self.table@[i], self.base@) == Some(
                    relative@,
                ),
                Some(None) => relative_path(self.table@[i], self.base@) is None,
                None => true,
            }
    }

    /// The paths of the table.
    pub closed spec fn paths(&self) -> Seq<Seq<char>> {
        self.table@
    }

    /// The base directory.
    pub closed spec fn base(&self) -> Seq<char> {
        self.base@
    }

    /// The relative paths of the files of `table`, seen from `base`, none
    /// of them worked out yet.
    pub fn new(table: PathTable, base: String) -> (r: RelativePaths)
        ensures
            r.wf(),
            r.paths() == table@,
            r.base() == base@,
    {
        let mut known: Vec<Option<Option<String>>> = Vec::new();
        let n = table.len();
        let mut i: usize = 0;
        while i < n
            invariant
                i <= n,
                known.len() == i,
                forall|k: int| 0 <= k < i ==> (#[trigger] known[k]) is None,
            decreases n - i,
        {
            known.push(None);
            i += 1;
        }
        RelativePaths { table, base, known }
    }

    /// The relative path of the file `number`. It is worked out at the
    /// first call for a file and looked up at the later ones.
    pub fn relative(&mut self, number: usize) -> (r: Option<&String>)
        requires
            old(self).wf(),
        ensures
            final(self).wf(),
            final(self).paths() == old(self).paths(),
            final(self).base() == old(self).base(),
            match r {
                Some(relative) => relative_of(old(self).paths(), old(self).base(), number)
                    == Some(relative@),
                None => relative_of(old(self).paths(), old(self).base(), number) is None,
            },
    {
        if number >= self.known.len() {
            return None;
        }
        if self.known[number].is_none() {
            let found = diff_paths(self.table.get(number), self.base.as_str());
            self.known.set(number, Some(found));
        }
        match &self.known[number] {
            Some(found) => found.as_ref(),
            None => None,
        }
    }
}

} // verus!
