//! The aggregation tree: a directory hierarchy annotated with write taint
//! and per-directory file counts.

use vstd::prelude::*;

use crate::strutil::{split_at_char, split_str, strs_view, str_eq};
use crate::tracker::{FDInfo, FDInfoV, fds_view};

verus! {

broadcast use vstd::std_specs::vec::group_vec_axioms, vstd::seq::axiom_seq_index_decreases;

/// Permission classification of an opened file, derived from its open flags.
#[derive(Debug, PartialEq, Eq, Clone, Copy, Structural)]
pub enum Perms {
    Read,
    Write,
}

/// One node of the aggregation tree: a file with its permission, or a
/// nested directory.
#[derive(Debug, PartialEq)]
pub enum Node {
    Dir(Box<Directory>),
    File(Perms),
}

/// A directory: named children, a write-taint flag, and the number of files
/// anywhere beneath it.
#[derive(Debug, PartialEq)]
pub struct Directory {
    pub items: Vec<(String, Node)>,
    pub stain: Perms,
    pub contained_files: usize,
}

/// Ghost model of a tree node.
pub enum NodeV {
    Dir(DirV),
    File(Perms),
}

/// Ghost model of a directory.
pub struct DirV {
    pub entries: Seq<(Seq<char>, NodeV)>,
    pub stain: Perms,
    pub contained_files: nat,
}

/// The ghost model of a node.
pub open spec fn node_view(n: Node) -> NodeV
    decreases n,
{
    match n {
        Node::File(p) => NodeV::File(p),
        Node::Dir(d) => NodeV::Dir(dir_view_of(*d)),
    }
}

/// The ghost model of a directory.
pub open spec fn dir_view_of(d: Directory) -> DirV
    decreases d,
{
    DirV {
        entries: entries_view(d.items@),
        stain: d.stain,
        contained_files: d.contained_files as nat,
    }
}

/// The ghost models of a child list, in order.
pub open spec fn entries_view(s: Seq<(String, Node)>) -> Seq<(Seq<char>, NodeV)>
    decreases s,
{
    if s.len() == 0 {
        Seq::empty()
    } else {
        entries_view(s.drop_last()).push((s.last().0@, node_view(s.last().1)))
    }
}

impl View for Node {
    type V = NodeV;

    open spec fn view(&self) -> NodeV {
        node_view(*self)
    }
}

impl View for Directory {
    type V = DirV;

    open spec fn view(&self) -> DirV {
        dir_view_of(*self)
    }
}

/// `entries_view` keeps length and per-index contents.
pub proof fn lemma_entries_view_index(s: Seq<(String, Node)>)
    ensures
        entries_view(s).len() == s.len(),
        forall|i: int|
            0 <= i < s.len() ==> entries_view(s)[i] == (s[i].0@, node_view(s[i].1)),
    decreases s.len(),
{
    if s.len() > 0 {
        lemma_entries_view_index(s.drop_last());
    }
}

/// Index of the first child entry named `name`, or -1 if there is none.
pub open spec fn entry_index(es: Seq<(Seq<char>, NodeV)>, name: Seq<char>) -> int
    decreases es.len(),
{
    if es.len() == 0 {
        -1
    } else if es[0].0 == name {
        0
    } else {
        let r = entry_index(es.drop_first(), name);
        if r < 0 {
            -1
        } else {
            r + 1
        }
    }
}

/// `entry_index` returns -1 exactly when the name is absent, and otherwise
/// the least index carrying it.
pub proof fn lemma_entry_index(es: Seq<(Seq<char>, NodeV)>, name: Seq<char>)
    ensures
        entry_index(es, name) >= -1,
        entry_index(es, name) == -1 <==> (forall|i: int| 0 <= i < es.len() ==> es[i].0 != name),
        entry_index(es, name) >= 0 ==> {
            &&& entry_index(es, name) < es.len()
            &&& es[entry_index(es, name)].0 == name
            &&& forall|i: int| 0 <= i < entry_index(es, name) ==> es[i].0 != name
        },
    decreases es.len(),
{
    if es.len() > 0 && es[0].0 != name {
        lemma_entry_index(es.drop_first(), name);
        assert forall|i: int| 0 <= i < es.len() && es[i].0 == name implies entry_index(es, name)
            != -1 by {
            if i > 0 {
                assert(es.drop_first()[i - 1].0 == name);
            }
        }
        assert forall|i: int| 0 <= i < entry_index(es, name) implies es[i].0 != name by {
            if i > 0 {
                assert(es.drop_first()[i - 1] == es[i]);
            }
        }
    }
}

/// The child list with the entry `name` set to `n`: updated in place if the
/// name exists, appended otherwise.
pub open spec fn set_entry(es: Seq<(Seq<char>, NodeV)>, name: Seq<char>, n: NodeV) -> Seq<
    (Seq<char>, NodeV),
> {
    let j = entry_index(es, name);
    if j < 0 {
        es.push((name, n))
    } else {
        es.update(j, (name, n))
    }
}

/// A directory with no children, untainted and counting no files.
pub open spec fn empty_dir_v() -> DirV {
    DirV { entries: Seq::empty(), stain: Perms::Read, contained_files: 0 }
}

/// A file converted in place into a directory: its permission survives in a
/// synthetic "." entry.
pub open spec fn converted_dir(p: Perms) -> DirV {
    DirV { entries: seq![("."@, NodeV::File(p))], stain: Perms::Read, contained_files: 0 }
}

/// The directory to descend into under `name`: an existing directory child,
/// the conversion of an existing file child, or a fresh empty directory.
pub open spec fn child_dir_of(es: Seq<(Seq<char>, NodeV)>, name: Seq<char>) -> DirV {
    let j = entry_index(es, name);
    if j < 0 {
        empty_dir_v()
    } else {
        match es[j].1 {
            NodeV::Dir(d) => d,
            NodeV::File(p) => converted_dir(p),
        }
    }
}

/// Inserting one file, walking the path components from `d` downward: every
/// directory on the walk gets its file count raised by one and, for a file
/// opened for writing, its taint set; the leaf component becomes a file
/// child, overwriting any previous entry of that name.
pub open spec fn dir_insert(d: DirV, comps: Seq<Seq<char>>, perm: Perms) -> DirV
    decreases comps.len(),
{
    if comps.len() == 0 {
        d
    } else {
        let stain = if perm == Perms::Write {
            Perms::Write
        } else {
            d.stain
        };
        let count = d.contained_files + 1;
        if comps.len() == 1 {
            DirV {
                entries: set_entry(d.entries, comps[0], NodeV::File(perm)),
                stain,
                contained_files: count,
            }
        } else {
            let c = dir_insert(child_dir_of(d.entries, comps[0]), comps.skip(1), perm);
            DirV {
                entries: set_entry(d.entries, comps[0], NodeV::Dir(c)),
                stain,
                contained_files: count,
            }
        }
    }
}

/// The components of an absolute path, with the leading root anchor dropped.
pub open spec fn comps_of_path(path: Seq<char>) -> Seq<Seq<char>> {
    let parts = split_at_char(path, '/');
    if parts.len() > 0 && parts[0].len() == 0 {
        parts.drop_first()
    } else {
        parts
    }
}

/// Whether some token is the write-only or read-write flag constant.
pub open spec fn has_write_token(toks: Seq<Seq<char>>) -> bool {
    exists|i: int| 0 <= i < toks.len() && (toks[i] == "O_WRONLY"@ || toks[i] == "O_RDWR"@)
}

/// The permission an open-flags text grants: Write when some `|`-separated
/// token is the write-only or read-write constant, Read otherwise.
pub open spec fn perms_of_flags(flags: Seq<char>) -> Perms {
    if has_write_token(split_at_char(flags, '|')) {
        Perms::Write
    } else {
        Perms::Read
    }
}

/// What one closed descriptor contributes to the tree: regular files are
/// inserted, every other kind is skipped.
pub open spec fn tree_insert_one(d: DirV, f: FDInfoV) -> DirV {
    match f {
        FDInfoV::File { path, flags } => dir_insert(d, comps_of_path(path), perms_of_flags(flags)),
        _ => d,
    }
}

/// The tree built by folding `tree_insert_one` over the closed-descriptor
/// list, in order, starting from the bare root.
pub open spec fn tree_from(items: Seq<FDInfoV>) -> DirV
    decreases items.len(),
{
    if items.len() == 0 {
        empty_dir_v()
    } else {
        tree_insert_one(tree_from(items.drop_last()), items.last())
    }
}

/// Every file count in the directory, at any depth, is at most `b`.
pub open spec fn dir_counts_le(d: DirV, b: nat) -> bool
    decreases d,
{
    d.contained_files <= b && entries_counts_le(d.entries, b)
}

/// Every file count below the node is at most `b`.
pub open spec fn node_counts_le(n: NodeV, b: nat) -> bool
    decreases n,
{
    match n {
        NodeV::File(_) => true,
        NodeV::Dir(d) => dir_counts_le(d, b),
    }
}

/// Every file count below each entry is at most `b`.
pub open spec fn entries_counts_le(es: Seq<(Seq<char>, NodeV)>, b: nat) -> bool
    decreases es,
{
    if es.len() == 0 {
        true
    } else {
        entries_counts_le(es.drop_last(), b) && node_counts_le(es.last().1, b)
    }
}

/// `entries_counts_le` holds exactly when it holds of each entry.
pub proof fn lemma_entries_counts_le_index(es: Seq<(Seq<char>, NodeV)>, b: nat)
    ensures
        entries_counts_le(es, b) <==> (forall|i: int|
            0 <= i < es.len() ==> node_counts_le(#[trigger] es[i].1, b)),
    decreases es.len(),
{
    if es.len() > 0 {
        lemma_entries_counts_le_index(es.drop_last(), b);
        assert(forall|i: int| 0 <= i < es.len() - 1 ==> es.drop_last()[i] == es[i]);
        if forall|i: int| 0 <= i < es.len() ==> node_counts_le(#[trigger] es[i].1, b) {
            assert(node_counts_le(es.last().1, b));
        }
    }
}

/// A bound on every count still holds of any larger bound.
pub proof fn lemma_dir_counts_le_mono(d: DirV, a: nat, b: nat)
    requires
        a <= b,
        dir_counts_le(d, a),
    ensures
        dir_counts_le(d, b),
    decreases d,
{
    lemma_entries_counts_le_mono(d.entries, a, b);
}

proof fn lemma_entries_counts_le_mono(es: Seq<(Seq<char>, NodeV)>, a: nat, b: nat)
    requires
        a <= b,
        entries_counts_le(es, a),
    ensures
        entries_counts_le(es, b),
    decreases es,
{
    if es.len() > 0 {
        assert(entries_counts_le(es.drop_last(), a) && node_counts_le(es.last().1, a));
        lemma_entries_counts_le_mono(es.drop_last(), a, b);
        match es.last().1 {
            NodeV::Dir(d) => lemma_dir_counts_le_mono(d, a, b),
            NodeV::File(_) => {},
        }
        assert(node_counts_le(es.last().1, b));
    }
}

/// Inserting one file raises no count by more than one.
pub proof fn lemma_dir_insert_counts_le(d: DirV, comps: Seq<Seq<char>>, perm: Perms, b: nat)
    requires
        dir_counts_le(d, b),
    ensures
        dir_counts_le(dir_insert(d, comps, perm), b + 1),
    decreases comps.len(),
{
    lemma_entries_counts_le_index(d.entries, b);
    if comps.len() == 0 {
        lemma_dir_counts_le_mono(d, b, b + 1);
    } else if comps.len() == 1 {
        let es2 = set_entry(d.entries, comps[0], NodeV::File(perm));
        lemma_entry_index(d.entries, comps[0]);
        lemma_entries_counts_le_index(es2, b + 1);
        assert forall|i: int| 0 <= i < es2.len() implies node_counts_le(#[trigger] es2[i].1, b
            + 1) by {
            if entry_index(d.entries, comps[0]) != i || entry_index(d.entries, comps[0]) < 0 {
                if i < d.entries.len() {
                    assert(node_counts_le(d.entries[i].1, b));
                    match d.entries[i].1 {
                        NodeV::Dir(dd) => lemma_dir_counts_le_mono(dd, b, b + 1),
                        NodeV::File(_) => {},
                    }
                }
            }
        }
    } else {
        let c0 = child_dir_of(d.entries, comps[0]);
        lemma_entry_index(d.entries, comps[0]);
        assert(dir_counts_le(c0, b)) by {
            let j = entry_index(d.entries, comps[0]);
            if j >= 0 {
                assert(node_counts_le(d.entries[j].1, b));
            }
        }
        lemma_dir_insert_counts_le(c0, comps.skip(1), perm, b);
        let c1 = dir_insert(c0, comps.skip(1), perm);
        let es2 = set_entry(d.entries, comps[0], NodeV::Dir(c1));
        lemma_entries_counts_le_index(es2, b + 1);
        assert forall|i: int| 0 <= i < es2.len() implies node_counts_le(#[trigger] es2[i].1, b
            + 1) by {
            if entry_index(d.entries, comps[0]) != i || entry_index(d.entries, comps[0]) < 0 {
                if i < d.entries.len() {
                    assert(node_counts_le(d.entries[i].1, b));
                    match d.entries[i].1 {
                        NodeV::Dir(dd) => lemma_dir_counts_le_mono(dd, b, b + 1),
                        NodeV::File(_) => {},
                    }
                }
            }
        }
    }
}

/// No count in a built tree exceeds the number of descriptors folded in.
pub proof fn lemma_tree_from_counts_le(items: Seq<FDInfoV>)
    ensures
        dir_counts_le(tree_from(items), items.len()),
    decreases items.len(),
{
    if items.len() > 0 {
        lemma_tree_from_counts_le(items.drop_last());
        match items.last() {
            FDInfoV::File { path, flags } => {
                lemma_dir_insert_counts_le(
                    tree_from(items.drop_last()),
                    comps_of_path(path),
                    perms_of_flags(flags),
                    (items.len() - 1) as nat,
                );
            },
            _ => {
                lemma_dir_counts_le_mono(
                    tree_from(items.drop_last()),
                    (items.len() - 1) as nat,
                    items.len(),
                );
            },
        }
    }
}

/// Finds the first child entry named `name`.
fn find_entry(items: &Vec<(String, Node)>, name: &str) -> (r: Option<usize>)
    ensures
        ({
            let j = entry_index(entries_view(items@), name@);
            match r {
                Some(k) => 0 <= k < items@.len() && j == k,
                None => j == -1,
            }
        }),
{
    proof {
        lemma_entries_view_index(items@);
        lemma_entry_index(entries_view(items@), name@);
    }
    let mut k: usize = 0;
    while k < items.len()
        invariant
            k <= items@.len(),
            forall|i: int| 0 <= i < k ==> items@[i].0@ != name@,
        decreases items@.len() - k,
    {
        let pair = &items[k];
        if str_eq(pair.0.as_str(), name) {
            proof {
                lemma_entries_view_index(items@);
                lemma_entry_index(entries_view(items@), name@);
                assert(entries_view(items@)[k as int].0 == name@);
            }
            return Some(k);
        }
        k = k + 1;
    }
    proof {
        assert forall|i: int| 0 <= i < entries_view(items@).len() implies entries_view(
            items@,
        )[i].0 != name@ by {
            assert(entries_view(items@)[i].0 == items@[i].0@);
        }
    }
    None
}

impl Default for Perms {
    /// The default classification: a file is Read until its flags say more.
    fn default() -> (p: Perms)
        ensures
            p == Perms::Read,
    {
        Perms::Read
    }
}

impl Default for Directory {
    /// An empty, untainted directory containing no files.
    fn default() -> (d: Directory)
        ensures
            dir_view_of(d) == empty_dir_v(),
    {
        let d = Directory { items: Vec::new(), stain: Perms::Read, contained_files: 0 };
        proof {
            assert(entries_view(d.items@) =~= Seq::<(Seq<char>, NodeV)>::empty());
        }
        d
    }
}

impl Perms {
    /// Derives the permission from an open-flags text.
    pub fn from_flags(s: &str) -> (p: Perms)
        ensures
            p == perms_of_flags(s@),
    {
        let toks = split_str(s, '|');
        let ghost tv = split_at_char(s@, '|');
        let mut j: usize = 0;
        while j < toks.len()
            invariant
                tv == split_at_char(s@, '|'),
                strs_view(toks@) == tv,
                toks@.len() == tv.len(),
                j <= toks@.len(),
                forall|k: int| 0 <= k < j ==> !(tv[k] == "O_WRONLY"@ || tv[k] == "O_RDWR"@),
            decreases toks@.len() - j,
        {
            let t = &toks[j];
            if str_eq(t.as_str(), "O_WRONLY") || str_eq(t.as_str(), "O_RDWR") {
                proof {
                    assert(tv[j as int] == toks@[j as int]@);
                    let w = j as int;
                    assert(has_write_token(tv)) by {
                        assert(0 <= w < tv.len() && (tv[w] == "O_WRONLY"@ || tv[w] == "O_RDWR"@));
                    }
                }
                return Perms::Write;
            }
            proof {
                assert(tv[j as int] == toks@[j as int]@);
            }
            j = j + 1;
        }
        Perms::Read
    }
}

/// Walks `comps[i..]` downward from `dir`, bookkeeping every directory on
/// the way and inserting the leaf file, exactly as `dir_insert` states.
fn insert_rec(dir: &mut Directory, comps: &Vec<String>, i: usize, perm: Perms)
    requires
        i < comps@.len(),
        dir_counts_le(dir_view_of(*old(dir)), (usize::MAX - 1) as nat),
    ensures
        dir_view_of(*final(dir)) == dir_insert(
            dir_view_of(*old(dir)),
            strs_view(comps@).skip(i as int),
            perm,
        ),
    decreases comps@.len() - i,
{
    let ghost d0 = dir_view_of(*dir);
    let ghost cv = strs_view(comps@).skip(i as int);
    proof {
        assert(cv.len() == comps@.len() - i);
        assert(cv[0] == comps@[i as int]@);
        lemma_entries_view_index(dir.items@);
    }
    let name = &comps[i];
    let found = find_entry(&dir.items, name.as_str());
    if perm == Perms::Write {
        dir.stain = Perms::Write;
    }
    dir.contained_files = dir.contained_files + 1;
    if i == comps.len() - 1 {
        match found {
            Some(j) => {
                let (k, _prev) = dir.items.remove(j);
                dir.items.insert(j, (k, Node::File(perm)));
                proof {
                    lemma_entry_index(d0.entries, cv[0]);
                    lemma_entries_view_index(dir.items@);
                    assert(entries_view(dir.items@) =~= set_entry(
                        d0.entries,
                        cv[0],
                        NodeV::File(perm),
                    ));
                }
            },
            None => {
                dir.items.push((name.clone(), Node::File(perm)));
                proof {
                    lemma_entries_view_index(dir.items@);
                    assert(entries_view(dir.items@) =~= set_entry(
                        d0.entries,
                        cv[0],
                        NodeV::File(perm),
                    ));
                }
            },
        }
    } else {
        match found {
            Some(j) => {
                let (k, prev) = dir.items.remove(j);
                let mut child: Directory = match prev {
                    Node::Dir(b) => *b,
                    Node::File(p) => Directory {
                        items: vec![(".".to_owned(), Node::File(p))],
                        stain: Perms::Read,
                        contained_files: 0,
                    },
                };
                proof {
                    lemma_entry_index(d0.entries, cv[0]);
                    assert(d0.entries[j as int].1 == node_view(prev));
                    match node_view(prev) {
                        NodeV::Dir(_) => {},
                        NodeV::File(p) => {
                            assert(entries_view(child.items@) =~= converted_dir(p).entries);
                        },
                    }
                    assert(dir_view_of(child) == child_dir_of(d0.entries, cv[0]));
                    assert(dir_counts_le(dir_view_of(child), (usize::MAX - 1) as nat)) by {
                        lemma_entries_counts_le_index(d0.entries, (usize::MAX - 1) as nat);
                        assert(node_counts_le(d0.entries[j as int].1, (usize::MAX - 1) as nat));
                    }
                }
                insert_rec(&mut child, comps, i + 1, perm);
                dir.items.insert(j, (k, Node::Dir(Box::new(child))));
                proof {
                    assert(cv.skip(1) =~= strs_view(comps@).skip(i + 1));
                    lemma_entries_view_index(dir.items@);
                    assert(entries_view(dir.items@) =~= set_entry(
                        d0.entries,
                        cv[0],
                        NodeV::Dir(dir_insert(child_dir_of(d0.entries, cv[0]), cv.skip(1), perm)),
                    ));
                }
            },
            None => {
                let mut child = Directory {
                    items: Vec::new(),
                    stain: Perms::Read,
                    contained_files: 0,
                };
                proof {
                    lemma_entry_index(d0.entries, cv[0]);
                    assert(entries_view(child.items@) =~= Seq::<(Seq<char>, NodeV)>::empty());
                    assert(dir_view_of(child) == child_dir_of(d0.entries, cv[0]));
                }
                insert_rec(&mut child, comps, i + 1, perm);
                dir.items.push((name.clone(), Node::Dir(Box::new(child))));
                proof {
                    assert(cv.skip(1) =~= strs_view(comps@).skip(i + 1));
                    lemma_entries_view_index(dir.items@);
                    assert(entries_view(dir.items@) =~= set_entry(
                        d0.entries,
                        cv[0],
                        NodeV::Dir(dir_insert(child_dir_of(d0.entries, cv[0]), cv.skip(1), perm)),
                    ));
                }
            },
        }
    }
}

/// The aggregation tree: one root directory.
#[derive(Debug, PartialEq)]
pub struct FileTree {
    pub root: Directory,
}

impl View for FileTree {
    type V = DirV;

    open spec fn view(&self) -> DirV {
        dir_view_of(self.root)
    }
}

impl Default for FileTree {
    /// A tree holding only the bare root.
    fn default() -> (t: FileTree)
        ensures
            t@ == empty_dir_v(),
    {
        FileTree { root: Directory::default() }
    }
}

impl FileTree {
    /// Builds the tree from the closed-descriptor list: each regular file is
    /// inserted in order, everything else is skipped.
    pub fn new(items: Vec<FDInfo>) -> (t: FileTree)
        ensures
            t@ == tree_from(fds_view(items@)),
    {
        let ghost all = fds_view(items@);
        let mut t = FileTree::default();
        proof {
            assert(all.take(0) =~= Seq::<FDInfoV>::empty());
        }
        let mut rest = items;
        let total = rest.len();
        proof {
            assert(all.len() == total);
            assert(all.skip(0) =~= all);
        }
        while rest.len() > 0
            invariant
                all.len() == total,
                all.len() >= rest@.len(),
                fds_view(rest@) == all.skip(all.len() - rest@.len()),
                t@ == tree_from(all.take(all.len() - rest@.len())),
            decreases rest@.len(),
        {
            let ghost k = all.len() - rest@.len();
            let ghost rest0 = rest@;
            let fd = rest.remove(0);
            proof {
                assert(fds_view(rest0)[0] == fd@);
                assert(fd@ == all[k]);
                assert(fds_view(rest@) =~= fds_view(rest0).drop_first());
                assert(fds_view(rest@) =~= all.skip(k + 1));
                lemma_tree_from_counts_le(all.take(k));
                lemma_dir_counts_le_mono(t@, all.take(k).len(), (usize::MAX - 1) as nat);
            }
            t.insert(fd);
            proof {
                assert(all.take(k + 1).drop_last() =~= all.take(k));
                assert(all.take(k + 1).last() == all[k]);
                assert(t@ == tree_from(all.take(k + 1)));
            }
        }
        t
    }

    /// Inserts one closed descriptor: a regular file joins the tree, any
    /// other kind is skipped.
    fn insert(&mut self, file: FDInfo)
        requires
            dir_counts_le(old(self)@, (usize::MAX - 1) as nat),
        ensures
            final(self)@ == tree_insert_one(old(self)@, file@),
    {
        let ghost f0 = file@;
        let (path, flags) = match file {
            FDInfo::File { path, flags } => (path, flags),
            _ => {
                return ;
            },
        };
        let perm = Perms::from_flags(flags.as_str());
        let mut comps = split_str(path.as_str(), '/');
        proof {
            assert(strs_view(comps@) == split_at_char(path@, '/'));
        }
        let drop_anchor = comps.len() > 0 && comps[0].as_str().unicode_len() == 0;
        if drop_anchor {
            let _ = comps.remove(0);
            proof {
                assert(strs_view(comps@) =~= split_at_char(path@, '/').drop_first());
            }
        }
        proof {
            assert(strs_view(comps@) == comps_of_path(path@));
        }
        if comps.len() == 0 {
            return ;
        }
        proof {
            assert(strs_view(comps@).skip(0) =~= strs_view(comps@));
        }
        insert_rec(&mut self.root, &comps, 0, perm);
    }
}

/// A string of `n` spaces, for indented rendering.
pub fn spaces(n: usize) -> (r: String)
    ensures
        r@.len() == n,
        forall|i: int| 0 <= i < n ==> r@[i] == ' ',
{
    let mut r = String::new();
    let mut i: usize = 0;
    proof {
        reveal_strlit(" ");
    }
    while i < n
        invariant
            i <= n,
            r@.len() == i,
            forall|j: int| 0 <= j < i ==> r@[j] == ' ',
        decreases n - i,
    {
        r.append(" ");
        proof {
            reveal_strlit(" ");
        }
        i = i + 1;
    }
    r
}

} // verus!
