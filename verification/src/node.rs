//! The namespace tree: file nodes, directory nodes, and path resolution.
//!
//! A directory holds two independent name-keyed collections, one of files
//! and one of subdirectories; a file and a subdirectory may share a name at
//! one level.  Lookups walk the tree one path component at a time and return
//! owned copies, so callers never alias the tree.

use vstd::pervasive::VecAdditionalExecFns;
use vstd::prelude::*;

use crate::paths::is_root_path;
use crate::paths::leading_entry_spec;
use crate::paths::lemma_remaining_shorter;
use crate::paths::path_is_root;
use crate::paths::remaining_spec;
use crate::paths::str_eq;
use crate::paths::get_leading_entry;
use crate::paths::get_remaining;

verus! {

/// Mathematical model of a file: its name and its byte content.
pub ghost struct FileModel {
    pub name: Seq<char>,
    pub contents: Seq<u8>,
}

/// Mathematical model of a directory: its name and two maps keyed by child
/// name, one to file contents and one to subdirectory models.
pub ghost struct DirModel {
    pub name: Seq<char>,
    pub files: Map<Seq<char>, Seq<u8>>,
    pub dirs: Map<Seq<char>, DirModel>,
}

/// Mathematical model of a lookup result: a file or a directory.
pub ghost enum NodeModel {
    File(FileModel),
    Directory(DirModel),
}

/// A leaf of the namespace: a name and an in-memory byte payload.
pub struct MemFsFile {
    name: String,
    contents: Vec<u8>,
}

/// An inner node of the namespace: a name plus name-keyed files and
/// subdirectories.
pub struct MemFsDirectory {
    name: String,
    files: Vec<MemFsFile>,
    directories: Vec<MemFsDirectory>,
}

/// A resolved node: lookups return either a file or a directory, so callers
/// need no prior knowledge of what a path denotes.
pub enum Node {
    File(MemFsFile),
    Directory(MemFsDirectory),
}

impl View for MemFsFile {
    type V = FileModel;

    closed spec fn view(&self) -> FileModel {
        FileModel { name: self.name@, contents: self.contents@ }
    }
}

/// The name-to-contents map denoted by a run of file entries; a later entry
/// under the same name shadows an earlier one.
pub closed spec fn files_as_map(s: Seq<MemFsFile>) -> Map<Seq<char>, Seq<u8>>
    decreases s.len(),
{
    if s.len() == 0 {
        Map::empty()
    } else {
        files_as_map(s.drop_last()).insert(s.last()@.name, s.last()@.contents)
    }
}

/// The name-to-model map denoted by a run of directory entries; a later
/// entry under the same name shadows an earlier one.
pub closed spec fn dirs_as_map(s: Seq<MemFsDirectory>) -> Map<Seq<char>, DirModel>
    decreases s,
{
    if s.len() == 0 {
        Map::empty()
    } else {
        dirs_as_map(s.drop_last()).insert(s.last().as_model().name, s.last().as_model())
    }
}

impl MemFsDirectory {
    /// The directory's mathematical model.
    pub closed spec fn as_model(self) -> DirModel
        decreases self,
    {
        DirModel {
            name: self.name@,
            files: files_as_map(self.files@),
            dirs: dirs_as_map(self.directories@),
        }
    }

    /// Well-formedness: names are unique within each of the two collections
    /// at every level of the tree.  Every directory the builder hands out
    /// satisfies this, and every operation preserves it.
    pub closed spec fn wf(self) -> bool
        decreases self,
    {
        &&& (forall|i: int, j: int|
            0 <= i < j < self.files@.len() ==> self.files@[i]@.name != self.files@[j]@.name)
        &&& (forall|i: int, j: int|
            0 <= i < j < self.directories@.len() ==> self.directories@[i].as_model().name
                != self.directories@[j].as_model().name)
        &&& (forall|i: int| 0 <= i < self.directories@.len() ==> self.directories@[i].wf())
    }
}

impl View for MemFsDirectory {
    type V = DirModel;

    open spec fn view(&self) -> DirModel {
        self.as_model()
    }
}

impl View for Node {
    type V = NodeModel;

    open spec fn view(&self) -> NodeModel {
        match self {
            Node::File(f) => NodeModel::File(f@),
            Node::Directory(d) => NodeModel::Directory(d@),
        }
    }
}

/// The model of an optional resolved node.
pub open spec fn node_opt_model(r: Option<Node>) -> Option<NodeModel> {
    match r {
        Some(n) => Some(n@),
        None => None,
    }
}

/// Whatever directory a lookup hands out is itself well-formed.
pub open spec fn resolved_dir_wf(r: Option<Node>) -> bool {
    match r {
        Some(Node::Directory(d)) => d.wf(),
        _ => true,
    }
}

/// What resolving `path` against directory `d` yields.
///
/// The empty path and `"/"` denote `d` itself.  Otherwise the first
/// component is looked up among the files first, then among the
/// subdirectories (so a file and a subdirectory sharing a name resolve to
/// the file).  A path that continues past a file name resolves to nothing:
/// a file has no entries beneath it.  An unmatched component resolves to
/// nothing as well.
pub open spec fn resolve_spec(d: DirModel, path: Seq<char>) -> Option<NodeModel>
    decreases path.len(),
    via resolve_spec_via
{
    if is_root_path(path) {
        Some(NodeModel::Directory(d))
    } else {
        let entry = leading_entry_spec(path);
        let rest = remaining_spec(path);
        if d.files.contains_key(entry) {
            if rest.len() == 0 {
                Some(NodeModel::File(FileModel { name: entry, contents: d.files[entry] }))
            } else {
                None
            }
        } else if d.dirs.contains_key(entry) {
            resolve_spec(d.dirs[entry], rest)
        } else {
            None
        }
    }
}

#[via_fn]
proof fn resolve_spec_via(d: DirModel, path: Seq<char>) {
    if !is_root_path(path) {
        lemma_remaining_shorter(path);
    }
}

/// With unique names, every file entry is present in the map under its name
/// with its own contents, and every key of the map names some entry.
proof fn lemma_files_map_props(s: Seq<MemFsFile>)
    requires
        forall|i: int, j: int| 0 <= i < j < s.len() ==> s[i]@.name != s[j]@.name,
    ensures
        forall|i: int|
            0 <= i < s.len() ==> files_as_map(s).contains_key(#[trigger] s[i]@.name)
                && files_as_map(s)[s[i]@.name] == s[i]@.contents,
        forall|k: Seq<char>|
            files_as_map(s).contains_key(k) ==> exists|i: int|
                0 <= i < s.len() && #[trigger] s[i]@.name == k,
    decreases s.len(),
{
    if s.len() > 0 {
        let prefix = s.drop_last();
        lemma_files_map_props(prefix);
        assert forall|i: int|
            0 <= i < s.len() implies files_as_map(s).contains_key(#[trigger] s[i]@.name)
            && files_as_map(s)[s[i]@.name] == s[i]@.contents by {
            if i < s.len() - 1 {
                assert(prefix[i] == s[i]);
                assert(s[i]@.name != s[s.len() - 1]@.name);
            }
        }
        assert forall|k: Seq<char>| files_as_map(s).contains_key(k) implies exists|i: int|
            0 <= i < s.len() && #[trigger] s[i]@.name == k by {
            if k == s.last()@.name {
                assert(s[s.len() - 1]@.name == k);
            } else {
                assert(files_as_map(prefix).contains_key(k));
                let i = choose|i: int| 0 <= i < prefix.len() && #[trigger] prefix[i]@.name == k;
                assert(s[i]@.name == k);
            }
        }
    }
}

/// Appending a file entry inserts it into the denoted map.
proof fn lemma_files_map_push(s: Seq<MemFsFile>, f: MemFsFile)
    ensures
        files_as_map(s.push(f)) == files_as_map(s).insert(f@.name, f@.contents),
{
    assert(s.push(f).drop_last() =~= s);
    assert(s.push(f).last() == f);
}

/// Replacing the entry that already bears a name inserts the replacement
/// into the denoted map, provided names are unique.
proof fn lemma_files_map_update(s: Seq<MemFsFile>, i: int, f: MemFsFile)
    requires
        0 <= i < s.len(),
        s[i]@.name == f@.name,
        forall|p: int, q: int| 0 <= p < q < s.len() ==> s[p]@.name != s[q]@.name,
    ensures
        files_as_map(s.update(i, f)) == files_as_map(s).insert(f@.name, f@.contents),
    decreases s.len(),
{
    let t = s.update(i, f);
    if i == s.len() - 1 {
        assert(t.drop_last() =~= s.drop_last());
        assert(t.last() == f);
        assert(files_as_map(s).insert(f@.name, f@.contents) =~= files_as_map(
            s.drop_last(),
        ).insert(f@.name, f@.contents));
    } else {
        assert(t.drop_last() =~= s.drop_last().update(i, f));
        assert(t.last() == s.last());
        assert(s.drop_last()[i] == s[i]);
        lemma_files_map_update(s.drop_last(), i, f);
        assert(s.last()@.name != f@.name);
        assert(files_as_map(s.drop_last()).insert(f@.name, f@.contents).insert(
            s.last()@.name,
            s.last()@.contents,
        ) =~= files_as_map(s.drop_last()).insert(s.last()@.name, s.last()@.contents).insert(
            f@.name,
            f@.contents,
        ));
    }
}

/// Entry runs with equal models denote equal maps.
proof fn lemma_files_map_congruent(s1: Seq<MemFsFile>, s2: Seq<MemFsFile>)
    requires
        s1.len() == s2.len(),
        forall|i: int| 0 <= i < s1.len() ==> s1[i]@ == s2[i]@,
    ensures
        files_as_map(s1) == files_as_map(s2),
    decreases s1.len(),
{
    if s1.len() > 0 {
        assert(forall|i: int| 0 <= i < s1.len() - 1 ==> s1.drop_last()[i]@ == s2.drop_last()[i]@);
        lemma_files_map_congruent(s1.drop_last(), s2.drop_last());
        assert(s1.last()@ == s2.last()@);
    }
}

/// With unique names, every directory entry is present in the map under its
/// name with its own model, and every key of the map names some entry.
proof fn lemma_dirs_map_props(s: Seq<MemFsDirectory>)
    requires
        forall|i: int, j: int| 0 <= i < j < s.len() ==> s[i].as_model().name != s[j].as_model().name,
    ensures
        forall|i: int|
            0 <= i < s.len() ==> dirs_as_map(s).contains_key(#[trigger] s[i].as_model().name)
                && dirs_as_map(s)[s[i].as_model().name] == s[i].as_model(),
        forall|k: Seq<char>|
            dirs_as_map(s).contains_key(k) ==> exists|i: int|
                0 <= i < s.len() && #[trigger] s[i].as_model().name == k,
    decreases s.len(),
{
    if s.len() > 0 {
        let prefix = s.drop_last();
        lemma_dirs_map_props(prefix);
        assert forall|i: int|
            0 <= i < s.len() implies dirs_as_map(s).contains_key(#[trigger] s[i].as_model().name)
            && dirs_as_map(s)[s[i].as_model().name] == s[i].as_model() by {
            if i < s.len() - 1 {
                assert(prefix[i] == s[i]);
                assert(s[i].as_model().name != s[s.len() - 1].as_model().name);
            }
        }
        assert forall|k: Seq<char>| dirs_as_map(s).contains_key(k) implies exists|i: int|
            0 <= i < s.len() && #[trigger] s[i].as_model().name == k by {
            if k == s.last().as_model().name {
                assert(s[s.len() - 1].as_model().name == k);
            } else {
                assert(dirs_as_map(prefix).contains_key(k));
                let i = choose|i: int|
                    0 <= i < prefix.len() && #[trigger] prefix[i].as_model().name == k;
                assert(s[i].as_model().name == k);
            }
        }
    }
}

/// Appending a directory entry inserts it into the denoted map.
proof fn lemma_dirs_map_push(s: Seq<MemFsDirectory>, d: MemFsDirectory)
    ensures
        dirs_as_map(s.push(d)) == dirs_as_map(s).insert(d.as_model().name, d.as_model()),
{
    assert(s.push(d).drop_last() =~= s);
    assert(s.push(d).last() == d);
}

/// Replacing the entry that already bears a name inserts the replacement
/// into the denoted map, provided names are unique.
proof fn lemma_dirs_map_update(s: Seq<MemFsDirectory>, i: int, d: MemFsDirectory)
    requires
        0 <= i < s.len(),
        s[i].as_model().name == d.as_model().name,
        forall|p: int, q: int| 0 <= p < q < s.len() ==> s[p].as_model().name != s[q].as_model().name,
    ensures
        dirs_as_map(s.update(i, d)) == dirs_as_map(s).insert(d.as_model().name, d.as_model()),
    decreases s.len(),
{
    let t = s.update(i, d);
    if i == s.len() - 1 {
        assert(t.drop_last() =~= s.drop_last());
        assert(t.last() == d);
        assert(dirs_as_map(s).insert(d.as_model().name, d.as_model()) =~= dirs_as_map(
            s.drop_last(),
        ).insert(d.as_model().name, d.as_model()));
    } else {
        assert(t.drop_last() =~= s.drop_last().update(i, d));
        assert(t.last() == s.last());
        assert(s.drop_last()[i] == s[i]);
        lemma_dirs_map_update(s.drop_last(), i, d);
        assert(s.last().as_model().name != d.as_model().name);
        assert(dirs_as_map(s.drop_last()).insert(d.as_model().name, d.as_model()).insert(
            s.last().as_model().name,
            s.last().as_model(),
        ) =~= dirs_as_map(s.drop_last()).insert(s.last().as_model().name, s.last().as_model()).insert(
            d.as_model().name,
            d.as_model(),
        ));
    }
}

/// Entry runs with equal models denote equal maps.
proof fn lemma_dirs_map_congruent(s1: Seq<MemFsDirectory>, s2: Seq<MemFsDirectory>)
    requires
        s1.len() == s2.len(),
        forall|i: int| 0 <= i < s1.len() ==> s1[i].as_model() == s2[i].as_model(),
    ensures
        dirs_as_map(s1) == dirs_as_map(s2),
    decreases s1.len(),
{
    if s1.len() > 0 {
        assert(forall|i: int|
            0 <= i < s1.len() - 1 ==> s1.drop_last()[i].as_model() == s2.drop_last()[i].as_model());
        lemma_dirs_map_congruent(s1.drop_last(), s2.drop_last());
        assert(s1.last().as_model() == s2.last().as_model());
    }
}

impl MemFsFile {
    /// A file with the given name and content.
    pub fn new(name: &str, contents: Vec<u8>) -> (r: MemFsFile)
        ensures
            r@.name == name@,
            r@.contents == contents@,
    {
        MemFsFile { name: name.to_owned(), contents }
    }

    /// The file's name, as an owned copy.
    pub fn name(&self) -> (r: String)
        ensures
            r@ == self@.name,
    {
        self.name.clone()
    }

    /// The file's full content, as an owned copy.
    pub fn data(&self) -> (r: Vec<u8>)
        ensures
            r@ == self@.contents,
    {
        let r = self.contents.clone();
        proof {
            assert(r@ =~= self.contents@);
        }
        r
    }
}

impl Clone for MemFsFile {
    /// An independent copy with the same name and content.
    fn clone(&self) -> (r: Self)
        ensures
            r@ == self@,
    {
        let contents = self.contents.clone();
        proof {
            assert(contents@ =~= self.contents@);
        }
        MemFsFile { name: self.name.clone(), contents }
    }
}

impl MemFsDirectory {
    /// An empty directory with the given name.
    pub fn new(name: &str) -> (r: MemFsDirectory)
        ensures
            r.wf(),
            r@.name == name@,
            r@.files == Map::<Seq<char>, Seq<u8>>::empty(),
            r@.dirs == Map::<Seq<char>, DirModel>::empty(),
    {
        let r = MemFsDirectory { name: name.to_owned(), files: Vec::new(), directories: Vec::new() };
        proof {
            assert(r.files@.len() == 0);
            assert(r.directories@.len() == 0);
        }
        r
    }

    /// Insert a file, overwriting any file already bearing its name.
    pub fn add_file(&mut self, f: MemFsFile)
        requires
            old(self).wf(),
        ensures
            final(self).wf(),
            final(self)@.name == old(self)@.name,
            final(self)@.files == old(self)@.files.insert(f@.name, f@.contents),
            final(self)@.dirs == old(self)@.dirs,
    {
        let mut i: usize = 0;
        while i < self.files.len()
            invariant
                *self == *old(self),
                old(self).wf(),
                0 <= i <= self.files@.len(),
                forall|j: int| 0 <= j < i ==> self.files@[j]@.name != f@.name,
            decreases self.files@.len() - i,
        {
            if str_eq(self.files[i].name.as_str(), f.name.as_str()) {
                proof {
                    lemma_files_map_update(self.files@, i as int, f);
                }
                self.files.set(i, f);
                proof {
                    assert(forall|p: int|
                        0 <= p < self.files@.len() ==> self.files@[p]@.name == old(
                            self,
                        ).files@[p]@.name);
                }
                return;
            }
            i = i + 1;
        }
        proof {
            lemma_files_map_push(self.files@, f);
        }
        self.files.push(f);
    }

    /// Insert a subdirectory, overwriting any subdirectory already bearing
    /// its name.
    pub fn add_dir(&mut self, d: MemFsDirectory)
        requires
            old(self).wf(),
            d.wf(),
        ensures
            final(self).wf(),
            final(self)@.name == old(self)@.name,
            final(self)@.files == old(self)@.files,
            final(self)@.dirs == old(self)@.dirs.insert(d@.name, d@),
    {
        let mut i: usize = 0;
        while i < self.directories.len()
            invariant
                *self == *old(self),
                old(self).wf(),
                d.wf(),
                0 <= i <= self.directories@.len(),
                forall|j: int|
                    0 <= j < i ==> self.directories@[j].as_model().name != d.as_model().name,
            decreases self.directories@.len() - i,
        {
            if str_eq(self.directories[i].name.as_str(), d.name.as_str()) {
                proof {
                    lemma_dirs_map_update(self.directories@, i as int, d);
                }
                self.directories.set(i, d);
                proof {
                    assert(forall|p: int|
                        0 <= p < self.directories@.len() ==> self.directories@[p].as_model().name
                            == old(self).directories@[p].as_model().name);
                }
                return;
            }
            i = i + 1;
        }
        proof {
            lemma_dirs_map_push(self.directories@, d);
        }
        self.directories.push(d);
    }

    /// The file entry bearing `name`, if any.
    fn find_file(&self, name: &str) -> (r: Option<&MemFsFile>)
        requires
            self.wf(),
        ensures
            match r {
                Some(f) => self@.files.contains_key(name@) && f@.name == name@ && f@.contents
                    == self@.files[name@],
                None => !self@.files.contains_key(name@),
            },
    {
        let mut i: usize = 0;
        while i < self.files.len()
            invariant
                self.wf(),
                0 <= i <= self.files@.len(),
                forall|j: int| 0 <= j < i ==> self.files@[j]@.name != name@,
            decreases self.files@.len() - i,
        {
            if str_eq(self.files[i].name.as_str(), name) {
                proof {
                    lemma_files_map_props(self.files@);
                }
                return Some(&self.files[i]);
            }
            i = i + 1;
        }
        proof {
            lemma_files_map_props(self.files@);
            if self@.files.contains_key(name@) {
                let j = choose|j: int|
                    0 <= j < self.files@.len() && #[trigger] self.files@[j]@.name == name@;
                assert(self.files@[j]@.name != name@);
            }
        }
        None
    }

    /// The subdirectory entry bearing `name`, if any.
    fn find_dir(&self, name: &str) -> (r: Option<&MemFsDirectory>)
        requires
            self.wf(),
        ensures
            match r {
                Some(d) => self@.dirs.contains_key(name@) && d@ == self@.dirs[name@] && d.wf(),
                None => !self@.dirs.contains_key(name@),
            },
    {
        let mut i: usize = 0;
        while i < self.directories.len()
            invariant
                self.wf(),
                0 <= i <= self.directories@.len(),
                forall|j: int| 0 <= j < i ==> self.directories@[j].as_model().name != name@,
            decreases self.directories@.len() - i,
        {
            if str_eq(self.directories[i].name.as_str(), name) {
                proof {
                    lemma_dirs_map_props(self.directories@);
                    assert(self.directories@[i as int].as_model().name == name@);
                }
                return Some(&self.directories[i]);
            }
            i = i + 1;
        }
        proof {
            lemma_dirs_map_props(self.directories@);
            if self@.dirs.contains_key(name@) {
                let j = choose|j: int|
                    0 <= j < self.directories@.len() && #[trigger] self.directories@[j].as_model().name
                        == name@;
                assert(self.directories@[j].as_model().name != name@);
            }
        }
        None
    }

    /// Resolve a slash-delimited path against this directory.
    ///
    /// `""` and `"/"` resolve to this directory itself.  Otherwise the first
    /// component is looked up among the files first, then among the
    /// subdirectories; an unmatched component yields `None`.  A path that
    /// continues past a file name yields `None`: a file has no entries
    /// beneath it.
    pub fn search(&self, path: &str) -> (r: Option<Node>)
        requires
            self.wf(),
        ensures
            node_opt_model(r) == resolve_spec(self@, path@),
            resolved_dir_wf(r),
        decreases path@.len(),
    {
        if path_is_root(path) {
            Some(Node::Directory(self.clone()))
        } else {
            let entry = get_leading_entry(path);
            let rest = get_remaining(path);
            match self.find_file(entry) {
                Some(f) => {
                    if rest.unicode_len() == 0 {
                        Some(Node::File(f.clone()))
                    } else {
                        None
                    }
                },
                None => {
                    match self.find_dir(entry) {
                        Some(d) => {
                            proof {
                                lemma_remaining_shorter(path@);
                            }
                            d.search(rest)
                        },
                        None => None,
                    }
                },
            }
        }
    }

    /// The directory's name, as an owned copy.
    pub fn name(&self) -> (r: String)
        ensures
            r@ == self@.name,
    {
        self.name.clone()
    }

    /// Owned copies of the immediate file children, one per name, each
    /// carrying the contents the model maps its name to.
    pub fn files(&self) -> (r: Vec<MemFsFile>)
        requires
            self.wf(),
        ensures
            forall|i: int|
                0 <= i < r@.len() ==> self@.files.contains_key(#[trigger] r@[i]@.name)
                    && self@.files[r@[i]@.name] == r@[i]@.contents,
            forall|k: Seq<char>|
                self@.files.contains_key(k) ==> exists|i: int|
                    0 <= i < r@.len() && #[trigger] r@[i]@.name == k,
            forall|i: int, j: int| 0 <= i < j < r@.len() ==> r@[i]@.name != r@[j]@.name,
    {
        let mut r: Vec<MemFsFile> = Vec::new();
        let mut i: usize = 0;
        while i < self.files.len()
            invariant
                self.wf(),
                0 <= i <= self.files@.len(),
                r@.len() == i,
                forall|j: int| 0 <= j < i ==> r@[j]@ == self.files@[j]@,
            decreases self.files@.len() - i,
        {
            r.push(self.files[i].clone());
            i = i + 1;
        }
        proof {
            lemma_files_map_props(self.files@);
            assert forall|k: Seq<char>| self@.files.contains_key(k) implies exists|i: int|
                0 <= i < r@.len() && #[trigger] r@[i]@.name == k by {
                let j = choose|j: int|
                    0 <= j < self.files@.len() && #[trigger] self.files@[j]@.name == k;
                assert(r@[j]@.name == k);
            }
        }
        r
    }

    /// Owned copies of the immediate subdirectory children, one per name,
    /// each carrying the model its name maps to, and each well-formed.
    pub fn directories(&self) -> (r: Vec<MemFsDirectory>)
        requires
            self.wf(),
        ensures
            forall|i: int|
                0 <= i < r@.len() ==> self@.dirs.contains_key(#[trigger] r@[i]@.name)
                    && self@.dirs[r@[i]@.name] == r@[i]@ && r@[i].wf(),
            forall|k: Seq<char>|
                self@.dirs.contains_key(k) ==> exists|i: int|
                    0 <= i < r@.len() && #[trigger] r@[i]@.name == k,
            forall|i: int, j: int| 0 <= i < j < r@.len() ==> r@[i]@.name != r@[j]@.name,
    {
        let mut r: Vec<MemFsDirectory> = Vec::new();
        let mut i: usize = 0;
        while i < self.directories.len()
            invariant
                self.wf(),
                0 <= i <= self.directories@.len(),
                r@.len() == i,
                forall|j: int| 0 <= j < i ==> r@[j]@ == self.directories@[j]@ && r@[j].wf(),
            decreases self.directories@.len() - i,
        {
            r.push(self.directories[i].clone());
            i = i + 1;
        }
        proof {
            lemma_dirs_map_props(self.directories@);
            assert forall|k: Seq<char>| self@.dirs.contains_key(k) implies exists|i: int|
                0 <= i < r@.len() && #[trigger] r@[i]@.name == k by {
                assert(dirs_as_map(self.directories@).contains_key(k));
                let j = choose|j: int|
                    0 <= j < self.directories@.len() && #[trigger] self.directories@[j].as_model().name
                        == k;
                assert(r@[j]@ == self.directories@[j]@);
                assert(r@[j]@.name == k);
            }
        }
        r
    }
}

impl Clone for MemFsDirectory {
    /// An independent copy of the whole subtree, with the same model.
    fn clone(&self) -> (r: Self)
        ensures
            r@ == self@,
            self.wf() ==> r.wf(),
        decreases *self,
    {
        let name = self.name.clone();
        let mut files: Vec<MemFsFile> = Vec::new();
        let mut i: usize = 0;
        while i < self.files.len()
            invariant
                0 <= i <= self.files@.len(),
                files@.len() == i,
                forall|j: int| 0 <= j < i ==> files@[j]@ == self.files@[j]@,
            decreases self.files@.len() - i,
        {
            files.push(self.files[i].clone());
            i = i + 1;
        }
        let mut directories: Vec<MemFsDirectory> = Vec::new();
        let mut k: usize = 0;
        while k < self.directories.len()
            invariant
                0 <= k <= self.directories@.len(),
                directories@.len() == k,
                forall|j: int|
                    0 <= j < k ==> directories@[j]@ == self.directories@[j]@ && (
                    self.directories@[j].wf() ==> directories@[j].wf()),
            decreases self.directories@.len() - k,
        {
            directories.push(self.directories[k].clone());
            k = k + 1;
        }
        let r = MemFsDirectory { name, files, directories };
        proof {
            lemma_files_map_congruent(r.files@, self.files@);
            lemma_dirs_map_congruent(r.directories@, self.directories@);
        }
        r
    }
}

} // verus!
