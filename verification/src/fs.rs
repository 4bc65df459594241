//! The namespace facade: a root directory, fluent construction, and the
//! lookup surface handed to the external serving component.

use vstd::prelude::*;

use crate::node::DirModel;
use crate::node::MemFsDirectory;
use crate::node::MemFsFile;
use crate::node::Node;
use crate::node::NodeModel;
use crate::node::node_opt_model;
use crate::node::resolve_spec;
use crate::node::resolved_dir_wf;
use crate::paths::path_is_root;

verus! {

/// An in-memory namespace: a tree of directories and files owned by a root
/// directory whose name is the empty sentinel string.
pub struct MemFs {
    root: MemFsDirectory,
}

impl View for MemFs {
    type V = DirModel;

    closed spec fn view(&self) -> DirModel {
        self.root@
    }
}

/// How a directory lookup relates to what the path resolves to: the lookup
/// succeeds exactly when the path resolves to a directory, and then hands
/// out a well-formed copy of that directory.
pub open spec fn getdir_matches(res: Option<MemFsDirectory>, m: Option<NodeModel>) -> bool {
    match m {
        Some(NodeModel::Directory(d)) => match res {
            Some(rd) => rd@ == d && rd.wf(),
            None => false,
        },
        _ => match res {
            Some(rd) => false,
            None => true,
        },
    }
}

impl MemFs {
    /// Well-formedness of the whole namespace tree.
    pub closed spec fn wf(self) -> bool {
        self.root.wf()
    }

    /// An empty namespace whose root directory bears the empty sentinel
    /// name, which no path component ever matches.
    pub fn new() -> (r: MemFs)
        ensures
            r.wf(),
            r@.name == Seq::<char>::empty(),
            r@.files == Map::<Seq<char>, Seq<u8>>::empty(),
            r@.dirs == Map::<Seq<char>, DirModel>::empty(),
    {
        let root = MemFsDirectory::new("");
        proof {
            reveal_strlit("");
            assert(""@ =~= Seq::<char>::empty());
        }
        MemFs { root }
    }

    /// Add a file at the root, overwriting any file of the same name;
    /// consumes and returns the builder so calls can be chained.
    pub fn add_file(self, f: MemFsFile) -> (r: MemFs)
        requires
            self.wf(),
        ensures
            r.wf(),
            r@.name == self@.name,
            r@.files == self@.files.insert(f@.name, f@.contents),
            r@.dirs == self@.dirs,
    {
        let mut s = self;
        s.root.add_file(f);
        s
    }

    /// Add a subdirectory at the root, overwriting any subdirectory of the
    /// same name; consumes and returns the builder so calls can be chained.
    pub fn add_dir(self, d: MemFsDirectory) -> (r: MemFs)
        requires
            self.wf(),
            d.wf(),
        ensures
            r.wf(),
            r@.name == self@.name,
            r@.files == self@.files,
            r@.dirs == self@.dirs.insert(d@.name, d@),
    {
        let mut s = self;
        s.root.add_dir(d);
        s
    }

    /// Resolve a path to a file or a directory, or to nothing.
    ///
    /// `"/"` and `""` resolve to the root directory itself without walking.
    pub fn search(&self, path: &str) -> (r: Option<Node>)
        requires
            self.wf(),
        ensures
            node_opt_model(r) == resolve_spec(self@, path@),
            resolved_dir_wf(r),
    {
        if path_is_root(path) {
            Some(Node::Directory(self.root.clone()))
        } else {
            self.root.search(path)
        }
    }

    /// The directory a path denotes, or nothing when the path resolves to a
    /// file or to no entry at all.
    pub fn getdir(&self, path: &str) -> (r: Option<MemFsDirectory>)
        requires
            self.wf(),
        ensures
            getdir_matches(r, resolve_spec(self@, path@)),
    {
        if path_is_root(path) {
            Some(self.root.clone())
        } else {
            match self.root.search(path) {
                Some(Node::Directory(d)) => Some(d),
                _ => None,
            }
        }
    }
}

} // verus!
