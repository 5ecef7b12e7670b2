//! Operations on an archive held in memory: lookup by path, removal of a set
//! of paths, and adding the nodes found by walking the filesystem.
use vstd::prelude::*;
use vstd::slice::*;
use vstd::utf8::*;

use crate::{entries, EntryView, FileSpec, FileType, Savn};

verus! {

/// Whether some entry has path `p`.
pub open spec fn has_path(es: Seq<EntryView>, p: Seq<char>) -> bool {
    exists|i: int| 0 <= i < es.len() && #[trigger] es[i].path == p
}

/// Entry `i` is the first one with path `p`.
pub open spec fn first_with_path(es: Seq<EntryView>, p: Seq<char>, i: int) -> bool {
    &&& 0 <= i < es.len()
    &&& es[i].path == p
    &&& forall|j: int| 0 <= j < i ==> #[trigger] es[j].path != p
}

/// Whether `p` is one of `paths`.
pub open spec fn listed(paths: Seq<String>, p: Seq<char>) -> bool {
    exists|k: int| 0 <= k < paths.len() && #[trigger] paths[k]@ == p
}

/// Whether an entry is kept when `paths` are removed.
pub open spec fn kept(paths: Seq<String>) -> spec_fn(FileSpec) -> bool {
    |e: FileSpec| !listed(paths, e.path@)
}

/// Compares two strings by their bytes.
fn same_path(a: &str, b: &str) -> (r: bool)
    ensures
        r == (a@ == b@),
{
    let x = a.as_bytes();
    let y = b.as_bytes();
    proof {
        encode_utf8_decode_utf8(a@);
        encode_utf8_decode_utf8(b@);
    }
    if x.len() != y.len() {
        return false;
    }
    let mut i: usize = 0;
    while i < x.len()
        invariant
            i <= x@.len(),
            x@.len() == y@.len(),
            x@ == encode_utf8(a@),
            y@ == encode_utf8(b@),
            forall|k: int| 0 <= k < i ==> x@[k] == y@[k],
        decreases x@.len() - i,
    {
        if x[i] != y[i] {
            return false;
        }
        i += 1;
    }
    assert(x@ =~= y@);
    true
}

/// The first entry whose path is exactly `file`, scanning from the start.
pub fn find_file<'a>(savn: &'a Savn, file: &str) -> (r: Option<&'a FileSpec>)
    ensures
        r is None <==> !has_path(entries(savn@), file@),
        r is Some ==> exists|i: int|
            first_with_path(entries(savn@), file@, i) && *r->0 == #[trigger] savn@[i],
{
    let ghost es = entries(savn@);
    let mut i: usize = 0;
    while i < savn.len()
        invariant
            i <= savn@.len(),
            es == entries(savn@),
            forall|j: int| 0 <= j < i ==> #[trigger] es[j].path != file@,
        decreases savn@.len() - i,
    {
        if same_path(savn[i].path.as_str(), file) {
            assert(first_with_path(es, file@, i as int));
            return Some(&savn[i]);
        }
        i += 1;
    }
    None
}

fn is_listed(paths: &[String], p: &str) -> (r: bool)
    ensures
        r == listed(paths@, p@),
{
    let mut k: usize = 0;
    while k < paths.len()
        invariant
            k <= paths@.len(),
            forall|j: int| 0 <= j < k ==> #[trigger] paths@[j]@ != p@,
        decreases paths@.len() - k,
    {
        if same_path(paths[k].as_str(), p) {
            return true;
        }
        k += 1;
    }
    false
}

/// Removes every entry whose path is one of `paths`; the others keep their
/// order, and paths that no entry has are ignored.
pub fn remove_files(savn: &mut Savn, paths: &[String])
    ensures
        final(savn)@ == old(savn)@.filter(kept(paths@)),
{
    let ghost s = old(savn)@;
    let ghost n = s.len();
    let mut rest: Savn = Vec::new();
    std::mem::swap(savn, &mut rest);
    let mut rev: Savn = Vec::new();
    while rest.len() > 0
        invariant
            n == s.len(),
            rest@ == s.take(n - rev@.len()),
            rev@.len() <= n,
            forall|j: int| 0 <= j < rev@.len() ==> #[trigger] rev@[j] == s[n - 1 - j],
        decreases rest@.len(),
    {
        let e = rest.pop().unwrap();
        rev.push(e);
        assert(rest@ =~= s.take(n - rev@.len()));
    }
    let mut out: Savn = Vec::new();
    while rev.len() > 0
        invariant
            n == s.len(),
            rev@.len() <= n,
            forall|j: int| 0 <= j < rev@.len() ==> #[trigger] rev@[j] == s[n - 1 - j],
            out@ == s.take(n - rev@.len()).filter(kept(paths@)),
        decreases rev@.len(),
    {
        let ghost k = n - rev@.len();
        let e = rev.pop().unwrap();
        assert(e == s[k]);
        assert(s.take(k + 1).drop_last() =~= s.take(k));
        reveal(Seq::filter);
        if !is_listed(paths, e.path.as_str()) {
            out.push(e);
        }
    }
    assert(s.take(n as int) =~= s);
    *savn = out;
}

/// `r` is `s` with some items left out: each item of `r` comes from `s`, at
/// positions that increase.
pub open spec fn is_subsequence<A>(r: Seq<A>, s: Seq<A>) -> bool {
    exists|f: spec_fn(int) -> int| #[trigger] increasing_map(f, r, s)
}

/// `f` sends each position of `r` to a position of `s` that holds the same
/// item, keeping their order.
pub open spec fn increasing_map<A>(f: spec_fn(int) -> int, r: Seq<A>, s: Seq<A>) -> bool {
    &&& forall|k: int| 0 <= k < r.len() ==> 0 <= #[trigger] f(k) < s.len() && r[k] == s[f(k)]
    &&& forall|k1: int, k2: int| 0 <= k1 < k2 < r.len() ==> #[trigger] f(k1) < #[trigger] f(k2)
}

proof fn lemma_filter_subsequence<A>(s: Seq<A>, pred: spec_fn(A) -> bool)
    ensures
        is_subsequence(s.filter(pred), s),
    decreases s.len(),
{
    reveal(Seq::filter);
    let r = s.filter(pred);
    if s.len() == 0 {
        let f = |k: int| k;
        assert(r.len() == 0);
        assert(increasing_map(f, r, s));
    } else {
        let init = s.drop_last();
        lemma_filter_subsequence(init, pred);
        let ri = init.filter(pred);
        let fi = choose|f: spec_fn(int) -> int| #[trigger] increasing_map(f, ri, init);
        let f = |k: int| if k < ri.len() { fi(k) } else { s.len() - 1 };
        assert forall|k: int| 0 <= k < r.len() implies 0 <= #[trigger] f(k) < s.len() && r[k] == s[f(k)] by {
            if k < ri.len() {
                assert(r[k] == ri[k]);
            }
        }
        assert forall|k1: int, k2: int| 0 <= k1 < k2 < r.len() implies #[trigger] f(k1) < #[trigger] f(k2) by {
            if k2 < ri.len() {
                assert(fi(k1) < fi(k2));
            } else {
                assert(0 <= fi(k1) < init.len());
            }
        }
        assert(increasing_map(f, r, s));
    }
}

/// After `paths` are removed, looking up a removed path finds nothing; every
/// entry whose path was not removed is still there; and the entries that
/// remain keep their old relative order.
pub proof fn lemma_remove_then_find(s: Seq<FileSpec>, paths: Seq<String>, p: Seq<char>)
    requires
        listed(paths, p),
    ensures
        !has_path(entries(s.filter(kept(paths))), p),
        forall|i: int|
            0 <= i < s.len() && !listed(paths, #[trigger] s[i].path@) ==> s.filter(
                kept(paths),
            ).contains(s[i]),
        is_subsequence(s.filter(kept(paths)), s),
{
    let r = s.filter(kept(paths));
    let es = entries(r);
    assert forall|i: int| 0 <= i < es.len() implies #[trigger] es[i].path != p by {
        s.lemma_filter_pred(kept(paths), i);
    }
    assert forall|i: int|
        0 <= i < s.len() && !listed(paths, #[trigger] s[i].path@) implies r.contains(s[i]) by {
        s.lemma_filter_contains_rev(kept(paths), s[i]);
    }
    lemma_filter_subsequence(s, kept(paths));
}

/// A node met while walking the filesystem, with the path it was reached by.
pub enum FsNode {
    /// A symbolic link, with the path it points to.
    Symlink { path: String, target: String },
    /// A file that is no link and no directory, with its bytes.
    File { path: String, contents: Vec<u8> },
    /// A directory; what it holds comes as nodes of its own.
    Dir { path: String },
}

/// The entry that a node stands for: none for a directory.
pub open spec fn node_entry(n: FsNode) -> Option<EntryView> {
    match n {
        FsNode::Symlink { path, target } => Some(
            EntryView {
                path: path@,
                file_type: FileType::SoftSymlink,
                contents: encode_utf8(target@),
            },
        ),
        FsNode::File { path, contents } => Some(
            EntryView { path: path@, file_type: FileType::RegularFile, contents: contents@ },
        ),
        FsNode::Dir { .. } => None,
    }
}

/// The entries that a walk gives, in the order its nodes were met.
pub open spec fn walk_entries(ns: Seq<FsNode>) -> Seq<EntryView>
    decreases ns.len(),
{
    if ns.len() == 0 {
        seq![]
    } else {
        match node_entry(ns.last()) {
            Some(e) => walk_entries(ns.drop_last()).push(e),
            None => walk_entries(ns.drop_last()),
        }
    }
}

/// Appends, in order, one entry for each link and file of a filesystem walk;
/// directories add nothing.
pub fn add_file(savn: &mut Savn, nodes: Vec<FsNode>)
    ensures
        entries(final(savn)@) == entries(old(savn)@) + walk_entries(nodes@),
{
    let ghost s0 = entries(old(savn)@);
    let ghost ns = nodes@;
    let mut nodes = nodes;
    let mut rev: Vec<FsNode> = Vec::new();
    let ghost n = ns.len();
    while nodes.len() > 0
        invariant
            n == ns.len(),
            nodes@ == ns.take(n - rev@.len()),
            rev@.len() <= n,
            forall|j: int| 0 <= j < rev@.len() ==> #[trigger] rev@[j] == ns[n - 1 - j],
        decreases nodes@.len(),
    {
        let e = nodes.pop().unwrap();
        rev.push(e);
        assert(nodes@ =~= ns.take(n - rev@.len()));
    }
    while rev.len() > 0
        invariant
            n == ns.len(),
            rev@.len() <= n,
            forall|j: int| 0 <= j < rev@.len() ==> #[trigger] rev@[j] == ns[n - 1 - j],
            entries(savn@) == s0 + walk_entries(ns.take(n - rev@.len())),
        decreases rev@.len(),
    {
        let ghost k = n - rev@.len();
        let node = rev.pop().unwrap();
        assert(node == ns[k]);
        assert(ns.take(k + 1).drop_last() =~= ns.take(k));
        let ghost before = entries(savn@);
        let ghost entry = node_entry(node);
        assert(ns.take(k + 1).last() == node);
        match node {
            FsNode::Symlink { path, target } => {
                let contents = slice_to_vec(target.as_str().as_bytes());
                savn.push(FileSpec { path, file_type: FileType::SoftSymlink, contents });
            },
            FsNode::File { path, contents } => {
                savn.push(FileSpec { path, file_type: FileType::RegularFile, contents });
            },
            FsNode::Dir { .. } => {},
        }
        assert(entry is Some ==> entries(savn@) =~= before.push(entry->0));
        assert(entry is None ==> entries(savn@) =~= before);
        assert(entries(savn@) =~= s0 + walk_entries(ns.take(k + 1)));
    }
    assert(ns.take(n as int) =~= ns);
}

} // verus!
