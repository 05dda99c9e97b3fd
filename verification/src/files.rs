//! Files and their sizes, by path.

use vstd::prelude::*;

use crate::filter::IncludeFilter;
use crate::text::str_eq;
use crate::text::to_chars;

verus! {

// ---------------------------------------------------------------------------
// The order of paths
// ---------------------------------------------------------------------------

/// The order of texts: by their first difference, and a beginning comes first.
pub open spec fn precedes(a: Seq<char>, b: Seq<char>) -> bool
    decreases a.len(),
{
    if b.len() == 0 {
        false
    } else if a.len() == 0 {
        true
    } else if a[0] != b[0] {
        a[0] < b[0]
    } else {
        precedes(a.skip(1), b.skip(1))
    }
}

/// Nothing precedes itself.
pub proof fn lemma_precedes_irreflexive(a: Seq<char>)
    ensures
        !precedes(a, a),
    decreases a.len(),
{
    if a.len() > 0 {
        lemma_precedes_irreflexive(a.skip(1));
    }
}

/// The order is transitive.
pub proof fn lemma_precedes_transitive(a: Seq<char>, b: Seq<char>, c: Seq<char>)
    requires
        precedes(a, b),
        precedes(b, c),
    ensures
        precedes(a, c),
    decreases a.len(),
{
    if a.len() > 0 && a[0] == b[0] && b[0] == c[0] {
        lemma_precedes_transitive(a.skip(1), b.skip(1), c.skip(1));
    }
}

/// Of two different texts one precedes the other.
pub proof fn lemma_precedes_total(a: Seq<char>, b: Seq<char>)
    ensures
        a == b || precedes(a, b) || precedes(b, a),
    decreases a.len(),
{
    if a.len() > 0 && b.len() > 0 && a[0] == b[0] {
        lemma_precedes_total(a.skip(1), b.skip(1));
        if a.skip(1) == b.skip(1) {
            assert(a =~= seq![a[0]] + a.skip(1));
            assert(b =~= seq![b[0]] + b.skip(1));
        }
    } else if a.len() == 0 && b.len() == 0 {
        assert(a =~= b);
    }
}

/// Whether `a` precedes `b`.
pub fn is_before(a: &str, b: &str) -> (r: bool)
    ensures
        r == precedes(a@, b@),
{
    let x: Vec<char> = to_chars(a);
    let y: Vec<char> = to_chars(b);
    let mut i: usize = 0;
    assert(x@.skip(0) =~= x@);
    assert(y@.skip(0) =~= y@);
    loop
        invariant
            i <= x.len(),
            i <= y.len(),
            precedes(x@, y@) == precedes(x@.skip(i as int), y@.skip(i as int)),
            x@ == a@,
            y@ == b@,
        decreases x.len() - i,
    {
        if i == y.len() {
            return false;
        }
        if i == x.len() {
            return true;
        }
        if x[i] != y[i] {
            return x[i] < y[i];
        }
        assert(x@.skip(i as int).skip(1) =~= x@.skip(i + 1));
        assert(y@.skip(i as int).skip(1) =~= y@.skip(i + 1));
        i = i + 1;
    }
}

// ---------------------------------------------------------------------------
// Files by path
// ---------------------------------------------------------------------------

/// A file.
#[derive(Debug)]
pub struct SizedFile {
    pub path: String,
    pub size: u64,
}

/// The mathematical value of a `SizedFile`.
pub struct FileView {
    pub path: Seq<char>,
    pub size: u64,
}

impl View for SizedFile {
    type V = FileView;

    open spec fn view(&self) -> FileView {
        FileView { path: self.path@, size: self.size }
    }
}

/// Where the file with a path stands.
pub open spec fn file_index(s: Seq<FileView>, path: Seq<char>) -> Option<int>
    decreases s.len(),
{
    if s.len() == 0 {
        None
    } else if s.last().path == path {
        Some(s.len() - 1)
    } else {
        file_index(s.drop_last(), path)
    }
}

/// The size of the file with a path.
pub open spec fn size_in(s: Seq<FileView>, path: Seq<char>) -> Option<u64> {
    match file_index(s, path) {
        Some(i) => Some(s[i].size),
        None => None,
    }
}

/// The sizes of files, by path.
pub open spec fn sizes(s: Seq<FileView>) -> Map<Seq<char>, u64> {
    Map::new(|path: Seq<char>| size_in(s, path) is Some, |path: Seq<char>| size_in(s, path)->0)
}

/// Whether no two files have the same path.
pub open spec fn no_twins(s: Seq<FileView>) -> bool {
    forall|i: int, j: int| 0 <= i < j < s.len() ==> (#[trigger] s[i]).path != (#[trigger] s[j]).path
}

/// The files with one more, which takes the place of one with the same path.
pub open spec fn with_file(s: Seq<FileView>, path: Seq<char>, size: u64) -> Seq<FileView> {
    match file_index(s, path) {
        Some(i) => s.update(i, FileView { path, size }),
        None => s.push(FileView { path, size }),
    }
}

/// What `file_index` finds.
pub proof fn lemma_file_index(s: Seq<FileView>, path: Seq<char>)
    ensures
        match file_index(s, path) {
            Some(i) => 0 <= i < s.len() && s[i].path == path,
            None => forall|i: int| 0 <= i < s.len() ==> (#[trigger] s[i]).path != path,
        },
    decreases s.len(),
{
    if s.len() > 0 && s.last().path != path {
        lemma_file_index(s.drop_last(), path);
        if file_index(s.drop_last(), path) is None {
            assert forall|i: int| 0 <= i < s.len() implies (#[trigger] s[i]).path != path by {
                if i < s.len() - 1 {
                    assert(s.drop_last()[i] == s[i]);
                }
            }
        }
    }
}

/// Where there are no twins, every file is found.
pub proof fn lemma_file_found(s: Seq<FileView>, i: int)
    requires
        no_twins(s),
        0 <= i < s.len(),
    ensures
        file_index(s, s[i].path) == Some(i),
        size_in(s, s[i].path) == Some(s[i].size),
{
    lemma_file_index(s, s[i].path);
}

/// Adding a file makes no twins, and gives the path its size.
pub proof fn lemma_with_file(s: Seq<FileView>, path: Seq<char>, size: u64)
    requires
        no_twins(s),
    ensures
        no_twins(with_file(s, path, size)),
        sizes(with_file(s, path, size)) == sizes(s).insert(path, size),
{
    let t = with_file(s, path, size);
    lemma_file_index(s, path);
    assert(no_twins(t));
    assert forall|p: Seq<char>| #[trigger] size_in(t, p) == (if p == path {
        Some(size)
    } else {
        size_in(s, p)
    }) by {
        lemma_file_index(s, p);
        lemma_file_index(t, p);
        match file_index(s, path) {
            Some(i) => {
                if p == path {
                    lemma_file_found(t, i);
                } else {
                    match file_index(s, p) {
                        Some(k) => {
                            assert(t[k] == s[k]);
                            lemma_file_found(t, k);
                        },
                        None => {
                            match file_index(t, p) {
                                Some(k) => {
                                    assert(t[k] == if k == i { FileView { path, size } } else { s[k] });
                                },
                                None => {},
                            }
                        },
                    }
                }
            },
            None => {
                assert(t.drop_last() =~= s);
            },
        }
    }
    assert(sizes(t) =~= sizes(s).insert(path, size));
}

/// The values of files.
pub open spec fn file_views(v: Seq<SizedFile>) -> Seq<FileView> {
    Seq::new(v.len(), |i: int| v[i]@)
}

/// Files and their sizes. No two have the same path.
#[derive(Debug)]
pub struct FileSizes {
    files: Vec<SizedFile>,
}

impl View for FileSizes {
    type V = Seq<FileView>;

    /// The files, in the order in which their paths were first added.
    closed spec fn view(&self) -> Seq<FileView> {
        file_views(self.files@)
    }
}

impl FileSizes {
    /// No two files have the same path.
    pub open spec fn wf(&self) -> bool {
        no_twins(self@)
    }

    /// No files.
    pub fn new() -> (r: FileSizes)
        ensures
            r@ == Seq::<FileView>::empty(),
            r.wf(),
    {
        let r: FileSizes = FileSizes { files: Vec::new() };
        assert(r@ =~= Seq::<FileView>::empty());
        r
    }

    /// How many files there are.
    pub fn len(&self) -> (n: usize)
        ensures
            n == self@.len(),
    {
        self.files.len()
    }

    /// A file.
    pub fn file(&self, i: usize) -> (r: &SizedFile)
        requires
            i < self@.len(),
        ensures
            r@ == self@[i as int],
    {
        &self.files[i]
    }

    fn find(&self, path: &str) -> (r: Option<usize>)
        ensures
            match r {
                Some(i) => i < self@.len() && file_index(self@, path@) == Some(i as int),
                None => file_index(self@, path@) is None,
            },
    {
        let ghost all = self@;
        let mut n: usize = self.files.len();
        assert(all.take(n as int) =~= all);
        while n > 0
            invariant
                n <= self.files@.len(),
                all == file_views(self.files@),
                file_index(all, path@) == file_index(all.take(n as int), path@),
            decreases n,
        {
            assert(all.take(n as int).last() == self.files@[n - 1]@);
            assert(all.take(n as int).drop_last() =~= all.take(n - 1));
            if str_eq(self.files[n - 1].path.as_str(), path) {
                return Some(n - 1);
            }
            n = n - 1;
        }
        None
    }

    /// The size of the file with a path, if there is one.
    pub fn get(&self, path: &str) -> (r: Option<u64>)
        ensures
            r == size_in(self@, path@),
    {
        match self.find(path) {
            Some(i) => Some(self.files[i].size),
            None => None,
        }
    }

    /// Adds a file. It takes the place of one with the same path.
    pub fn insert(&mut self, path: &str, size: u64)
        ensures
            final(self)@ == with_file(old(self)@, path@, size),
            old(self).wf() ==> final(self).wf(),
    {
        let file: SizedFile = SizedFile { path: path.to_owned(), size };
        let ghost before = self@;
        match self.find(path) {
            Some(i) => {
                self.files.set(i, file);
            },
            None => {
                self.files.push(file);
            },
        }
        assert(self@ =~= with_file(before, path@, size));
        proof {
            if old(self).wf() {
                lemma_with_file(before, path@, size);
            }
        }
    }
}

impl Default for FileSizes {
    fn default() -> (r: FileSizes)
        ensures
            r@ == Seq::<FileView>::empty(),
    {
        FileSizes::new()
    }
}

// ---------------------------------------------------------------------------
// Which files count
// ---------------------------------------------------------------------------

/// The texts of string slices.
pub open spec fn strs(v: Seq<&str>) -> Seq<Seq<char>> {
    Seq::new(v.len(), |i: int| v[i]@)
}

/// Whether a name is one of several.
pub fn is_one_of(names: &[&str], name: &str) -> (r: bool)
    ensures
        r == strs(names@).contains(name@),
{
    let mut i: usize = 0;
    while i < names.len()
        invariant
            i <= names.len(),
            forall|j: int| 0 <= j < i ==> strs(names@)[j] != name@,
        decreases names.len() - i,
    {
        assert(strs(names@)[i as int] == names@[i as int]@);
        if str_eq(names[i], name) {
            return true;
        }
        i = i + 1;
    }
    false
}

/// The paths that an optional filter lets through.
pub open spec fn let_through(filter: Option<&IncludeFilter>) -> Option<Set<Seq<char>>> {
    match filter {
        Some(f) => Some(f@),
        None => None,
    }
}

/// Whether a path counts: without a filter every path does.
pub open spec fn counts(paths: Option<Set<Seq<char>>>, path: Seq<char>) -> bool {
    match paths {
        Some(s) => s.contains(path),
        None => true,
    }
}

/// Whether an optional filter lets a path through.
pub fn does_count(filter: Option<&IncludeFilter>, path: &str) -> (r: bool)
    ensures
        r == counts(let_through(filter), path@),
{
    match filter {
        Some(f) => f.is_match(path),
        None => true,
    }
}

} // verus!
