//! Laws of the namespace, stated over the mathematical model and proved
//! once for every tree.

use vstd::prelude::*;

use crate::node::DirModel;
use crate::node::FileModel;
use crate::node::NodeModel;
use crate::node::resolve_spec;
use crate::paths::is_root_path;
use crate::paths::leading_entry_spec;
use crate::paths::lemma_no_slash;
use crate::paths::lemma_split_at_slash;
use crate::paths::remaining_spec;
use crate::paths::strip_slash;

verus! {

/// Law: every namespace resolves `"/"` and `""` to its own root directory,
/// whatever that directory's name is.
pub proof fn lemma_resolve_root(d: DirModel, path: Seq<char>)
    requires
        is_root_path(path),
    ensures
        resolve_spec(d, path) == Some(NodeModel::Directory(d)),
{
}

/// Law: a file held under a slash-free name resolves through the absolute
/// path naming it, to a file with that very name and contents.
pub proof fn lemma_resolve_file(d: DirModel, n: Seq<char>, c: Seq<u8>)
    requires
        n.len() > 0,
        forall|i: int| 0 <= i < n.len() ==> n[i] != '/',
        d.files.contains_key(n),
        d.files[n] == c,
    ensures
        resolve_spec(d, seq!['/'] + n) == Some(NodeModel::File(FileModel { name: n, contents: c })),
{
    let p = seq!['/'] + n;
    assert(!is_root_path(p)) by {
        if p == seq!['/'] {
            assert(p.len() == 1);
        }
    }
    assert(strip_slash(p) =~= n);
    lemma_no_slash(n);
    assert(leading_entry_spec(p) == n);
    assert(remaining_spec(p).len() == 0);
}

/// Law: a subdirectory held under a slash-free name that no file shares
/// resolves through the absolute path naming it, to that very directory.
pub proof fn lemma_resolve_subdir(d: DirModel, dn: Seq<char>)
    requires
        dn.len() > 0,
        forall|i: int| 0 <= i < dn.len() ==> dn[i] != '/',
        !d.files.contains_key(dn),
        d.dirs.contains_key(dn),
    ensures
        resolve_spec(d, seq!['/'] + dn) == Some(NodeModel::Directory(d.dirs[dn])),
{
    let p = seq!['/'] + dn;
    assert(!is_root_path(p)) by {
        if p == seq!['/'] {
            assert(p.len() == 1);
        }
    }
    assert(strip_slash(p) =~= dn);
    lemma_no_slash(dn);
    assert(leading_entry_spec(p) == dn);
    assert(remaining_spec(p).len() == 0);
    lemma_resolve_root(d.dirs[dn], remaining_spec(p));
}

/// Law: a file held in a subdirectory resolves through the two-component
/// absolute path naming the subdirectory and then the file, provided no
/// file at the outer level shares the subdirectory's name (a file match is
/// attempted first and would win).
pub proof fn lemma_resolve_in_subdir(d: DirModel, dn: Seq<char>, n: Seq<char>, c: Seq<u8>)
    requires
        dn.len() > 0,
        forall|i: int| 0 <= i < dn.len() ==> dn[i] != '/',
        n.len() > 0,
        forall|i: int| 0 <= i < n.len() ==> n[i] != '/',
        !d.files.contains_key(dn),
        d.dirs.contains_key(dn),
        d.dirs[dn].files.contains_key(n),
        d.dirs[dn].files[n] == c,
    ensures
        resolve_spec(d, seq!['/'] + dn + seq!['/'] + n) == Some(
            NodeModel::File(FileModel { name: n, contents: c }),
        ),
{
    let p = seq!['/'] + dn + seq!['/'] + n;
    let s = dn + seq!['/'] + n;
    assert(p.len() == 2 + dn.len() + n.len());
    assert(!is_root_path(p)) by {
        if p == seq!['/'] {
            assert(p.len() == 1);
        }
    }
    assert(p[0] == '/');
    assert(strip_slash(p) =~= s);
    assert forall|j: int| 0 <= j < dn.len() implies s[j] != '/' by {
        assert(s[j] == dn[j]);
    }
    assert(s[dn.len() as int] == '/');
    lemma_split_at_slash(s, dn.len() as int);
    assert(s.subrange(0, dn.len() as int) =~= dn);
    assert(s.subrange(dn.len() as int, s.len() as int) =~= seq!['/'] + n);
    assert(leading_entry_spec(p) == dn);
    assert(remaining_spec(p) == seq!['/'] + n);
    lemma_resolve_file(d.dirs[dn], n, c);
}

/// Law: a path whose first component matches neither a file nor a
/// subdirectory at its level resolves to nothing.  Resolution recurses on
/// the remaining path, so the law reaches an unmatched component at any
/// depth of the walk.
pub proof fn lemma_resolve_unmatched(d: DirModel, path: Seq<char>)
    requires
        !is_root_path(path),
        !d.files.contains_key(leading_entry_spec(path)),
        !d.dirs.contains_key(leading_entry_spec(path)),
    ensures
        resolve_spec(d, path) == None::<NodeModel>,
{
}

/// Law: of two files inserted under one name, the later one's contents are
/// the contents the map holds, so the ones every later lookup sees.
pub proof fn lemma_second_insert_wins(
    files: Map<Seq<char>, Seq<u8>>,
    n: Seq<char>,
    c1: Seq<u8>,
    c2: Seq<u8>,
)
    ensures
        files.insert(n, c1).insert(n, c2) == files.insert(n, c2),
{
    assert(files.insert(n, c1).insert(n, c2) =~= files.insert(n, c2));
}

/// Law: resolution is a pure function of the tree and the path, so two
/// lookups of one path against one tree agree.
pub proof fn lemma_lookup_repeatable(
    d: DirModel,
    path: Seq<char>,
    r1: Option<NodeModel>,
    r2: Option<NodeModel>,
)
    requires
        r1 == resolve_spec(d, path),
        r2 == resolve_spec(d, path),
    ensures
        r1 == r2,
{
}

} // verus!
