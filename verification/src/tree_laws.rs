//! Laws of the aggregation tree: construction is a pure fold, and over
//! conflict-free inputs every directory's file count and write taint agree
//! with the files actually beneath it.

use vstd::prelude::*;

use crate::file_tree::{DirV, NodeV, Perms, entry_index, lemma_entry_index, set_entry,
    empty_dir_v, child_dir_of, dir_insert, comps_of_path, perms_of_flags, tree_from};
use crate::tracker::FDInfoV;

verus! {

broadcast use vstd::seq::axiom_seq_index_decreases;

/// The number of files in the node's subtree: a file is one, a directory
/// holds the files of its children.
pub open spec fn node_files(n: NodeV) -> nat
    decreases n,
{
    match n {
        NodeV::File(_) => 1,
        NodeV::Dir(d) => entries_files(d.entries),
    }
}

/// The number of files below a child list.
pub open spec fn entries_files(es: Seq<(Seq<char>, NodeV)>) -> nat
    decreases es,
{
    if es.len() == 0 {
        0
    } else {
        entries_files(es.drop_last()) + node_files(es.last().1)
    }
}

/// Whether some file in the node's subtree has Write permission.
pub open spec fn node_has_write(n: NodeV) -> bool
    decreases n,
{
    match n {
        NodeV::File(p) => p == Perms::Write,
        NodeV::Dir(d) => entries_have_write(d.entries),
    }
}

/// Whether some file below a child list has Write permission.
pub open spec fn entries_have_write(es: Seq<(Seq<char>, NodeV)>) -> bool
    decreases es,
{
    es.len() > 0 && (entries_have_write(es.drop_last()) || node_has_write(es.last().1))
}

/// Child names are pairwise distinct.
pub open spec fn unique_names(es: Seq<(Seq<char>, NodeV)>) -> bool {
    forall|i: int, j: int| 0 <= i < j < es.len() ==> es[i].0 != es[j].0
}

/// A directory is well formed when its recorded file count is the number of
/// files actually beneath it, its taint is set exactly when some file
/// beneath it has Write permission, its child names are distinct, and all
/// child directories are well formed in turn.
pub open spec fn dir_wf(d: DirV) -> bool
    decreases d,
{
    &&& d.contained_files == entries_files(d.entries)
    &&& (d.stain == Perms::Write <==> entries_have_write(d.entries))
    &&& unique_names(d.entries)
    &&& entries_wf(d.entries)
}

/// All directories below the node are well formed.
pub open spec fn node_wf(n: NodeV) -> bool
    decreases n,
{
    match n {
        NodeV::File(_) => true,
        NodeV::Dir(d) => dir_wf(d),
    }
}

/// All directories below a child list are well formed.
pub open spec fn entries_wf(es: Seq<(Seq<char>, NodeV)>) -> bool
    decreases es,
{
    es.len() == 0 || (entries_wf(es.drop_last()) && node_wf(es.last().1))
}

/// `entries_wf` holds exactly when it holds of each entry.
proof fn lemma_entries_wf_index(es: Seq<(Seq<char>, NodeV)>)
    ensures
        entries_wf(es) <==> (forall|i: int| 0 <= i < es.len() ==> node_wf(#[trigger] es[i].1)),
    decreases es.len(),
{
    if es.len() > 0 {
        lemma_entries_wf_index(es.drop_last());
        assert(forall|i: int| 0 <= i < es.len() - 1 ==> es.drop_last()[i] == es[i]);
        if forall|i: int| 0 <= i < es.len() ==> node_wf(#[trigger] es[i].1) {
            assert(node_wf(es.last().1));
        }
    }
}

/// `entries_have_write` holds exactly when some entry holds a write.
proof fn lemma_entries_have_write_index(es: Seq<(Seq<char>, NodeV)>)
    ensures
        entries_have_write(es) <==> (exists|i: int|
            0 <= i < es.len() && node_has_write(#[trigger] es[i].1)),
    decreases es.len(),
{
    if es.len() > 0 {
        lemma_entries_have_write_index(es.drop_last());
        assert(forall|i: int| 0 <= i < es.len() - 1 ==> es.drop_last()[i] == es[i]);
        if entries_have_write(es) {
            if entries_have_write(es.drop_last()) {
                let i = choose|i: int|
                    0 <= i < es.drop_last().len() && node_has_write(es.drop_last()[i].1);
                assert(node_has_write(es[i].1));
            } else {
                assert(node_has_write(es[es.len() - 1].1));
            }
        }
        if exists|i: int| 0 <= i < es.len() && node_has_write(#[trigger] es[i].1) {
            let i = choose|i: int| 0 <= i < es.len() && node_has_write(#[trigger] es[i].1);
            if i < es.len() - 1 {
                assert(node_has_write(es.drop_last()[i].1));
            } else {
                assert(node_has_write(es.last().1));
            }
        }
    }
}

/// Appending an entry adds its files to the total.
proof fn lemma_entries_files_push(es: Seq<(Seq<char>, NodeV)>, e: (Seq<char>, NodeV))
    ensures
        entries_files(es.push(e)) == entries_files(es) + node_files(e.1),
{
    assert(es.push(e).drop_last() =~= es);
    assert(es.push(e).last() == e);
}

/// Replacing one entry swaps its file contribution for the new one's.
proof fn lemma_entries_files_update(es: Seq<(Seq<char>, NodeV)>, j: int, e: (Seq<char>, NodeV))
    requires
        0 <= j < es.len(),
    ensures
        entries_files(es.update(j, e)) + node_files(es[j].1) == entries_files(es) + node_files(
            e.1,
        ),
    decreases es.len(),
{
    if j == es.len() - 1 {
        assert(es.update(j, e).drop_last() =~= es.drop_last());
        assert(es.update(j, e).last() == e);
    } else {
        lemma_entries_files_update(es.drop_last(), j, e);
        assert(es.update(j, e).drop_last() =~= es.drop_last().update(j, e));
        assert(es.update(j, e).last() == es.last());
    }
}

/// Setting one name leaves every other name's entry untouched, at the same
/// first position.
proof fn lemma_set_entry_other(
    es: Seq<(Seq<char>, NodeV)>,
    name: Seq<char>,
    n: NodeV,
    other: Seq<char>,
)
    requires
        other != name,
    ensures
        ({
            let es2 = set_entry(es, name, n);
            &&& entry_index(es2, other) == entry_index(es, other)
            &&& (entry_index(es, other) >= 0 ==> es2[entry_index(es, other)]
                == es[entry_index(es, other)])
        }),
{
    lemma_entry_index(es, name);
    lemma_entry_index(es, other);
    let es2 = set_entry(es, name, n);
    lemma_entry_index(es2, other);
    let j = entry_index(es, name);
    let i0 = entry_index(es, other);
    if j >= 0 {
        assert(forall|i: int| 0 <= i < es.len() ==> es2[i].0 == es[i].0);
        if i0 == -1 {
            assert(forall|i: int| 0 <= i < es2.len() ==> es2[i].0 != other);
        } else {
            assert(es2[i0].0 == other);
            assert(forall|i: int| 0 <= i < i0 ==> es2[i].0 != other);
            assert(i0 != j);
        }
    } else {
        assert(forall|i: int| 0 <= i < es.len() ==> es2[i] == es[i]);
        assert(es2[es.len() as int].0 == name);
        if i0 == -1 {
            assert(forall|i: int| 0 <= i < es2.len() ==> es2[i].0 != other);
        } else {
            assert(es2[i0].0 == other);
            assert(forall|i: int| 0 <= i < i0 ==> es2[i].0 != other);
        }
    }
}

/// The path collides with nothing in the tree: its leaf name is absent from
/// its directory, and every intermediate component is either absent or an
/// existing directory (never a file).
pub open spec fn fresh_path(d: DirV, comps: Seq<Seq<char>>) -> bool
    decreases comps.len(),
{
    comps.len() >= 1 && {
        let j = entry_index(d.entries, comps[0]);
        if comps.len() == 1 {
            j < 0
        } else {
            if j < 0 {
                fresh_path(empty_dir_v(), comps.skip(1))
            } else {
                match d.entries[j].1 {
                    NodeV::Dir(c) => fresh_path(c, comps.skip(1)),
                    NodeV::File(_) => false,
                }
            }
        }
    }
}

/// Any non-empty path is fresh for the empty directory.
proof fn lemma_empty_fresh(comps: Seq<Seq<char>>)
    requires
        comps.len() >= 1,
    ensures
        fresh_path(empty_dir_v(), comps),
    decreases comps.len(),
{
    if comps.len() > 1 {
        lemma_empty_fresh(comps.skip(1));
    }
}

/// Inserting a fresh path keeps the tree well formed; it adds exactly one
/// file, and it adds a write exactly when the file is opened for writing.
pub proof fn lemma_insert_wf(d: DirV, comps: Seq<Seq<char>>, perm: Perms)
    requires
        dir_wf(d),
        fresh_path(d, comps),
    ensures
        ({
            let d2 = dir_insert(d, comps, perm);
            &&& dir_wf(d2)
            &&& entries_files(d2.entries) == entries_files(d.entries) + 1
            &&& (entries_have_write(d2.entries) <==> (entries_have_write(d.entries) || perm
                == Perms::Write))
        }),
    decreases comps.len(),
{
    let j = entry_index(d.entries, comps[0]);
    lemma_entry_index(d.entries, comps[0]);
    lemma_entries_wf_index(d.entries);
    lemma_entries_have_write_index(d.entries);
    let d2 = dir_insert(d, comps, perm);
    let es = d.entries;
    let es2 = d2.entries;
    if comps.len() == 1 {
        let e = (comps[0], NodeV::File(perm));
        assert(es2 == es.push(e));
        lemma_entries_files_push(es, e);
        assert(forall|i: int| 0 <= i < es.len() ==> es2[i] == es[i]);
        lemma_entries_wf_index(es2);
        lemma_entries_have_write_index(es2);
        assert forall|i: int, k: int| 0 <= i < k < es2.len() implies es2[i].0 != es2[k].0 by {
            if k == es2.len() - 1 {
                assert(es[i].0 != comps[0]);
            }
        }
        if entries_have_write(es2) {
            let i = choose|i: int| 0 <= i < es2.len() && node_has_write(#[trigger] es2[i].1);
            if i < es.len() {
                assert(node_has_write(es[i].1));
            }
        }
        if entries_have_write(es) {
            let i = choose|i: int| 0 <= i < es.len() && node_has_write(#[trigger] es[i].1);
            assert(node_has_write(es2[i].1));
        }
        if perm == Perms::Write {
            assert(node_has_write(es2[es2.len() - 1].1));
        }
    } else {
        let c0 = child_dir_of(es, comps[0]);
        assert(dir_wf(c0) && fresh_path(c0, comps.skip(1))) by {
            if j < 0 {
                assert(entries_files(empty_dir_v().entries) == 0);
                assert(!entries_have_write(empty_dir_v().entries));
            } else {
                assert(node_wf(es[j].1));
                assert(es[j].1 is Dir);
            }
        }
        lemma_insert_wf(c0, comps.skip(1), perm);
        let c2 = dir_insert(c0, comps.skip(1), perm);
        let e = (comps[0], NodeV::Dir(c2));
        lemma_entries_wf_index(es2);
        lemma_entries_have_write_index(es2);
        if j < 0 {
            assert(es2 == es.push(e));
            lemma_entries_files_push(es, e);
            assert(node_files(e.1) == entries_files(c2.entries));
            assert(entries_files(c0.entries) == 0);
            assert(forall|i: int| 0 <= i < es.len() ==> es2[i] == es[i]);
            assert forall|i: int, k: int| 0 <= i < k < es2.len() implies es2[i].0 != es2[k].0 by {
                if k == es2.len() - 1 {
                    assert(es[i].0 != comps[0]);
                }
            }
            assert(!entries_have_write(c0.entries));
            if entries_have_write(es2) {
                let i = choose|i: int| 0 <= i < es2.len() && node_has_write(#[trigger] es2[i].1);
                if i < es.len() {
                    assert(node_has_write(es[i].1));
                }
            }
            if entries_have_write(es) {
                let i = choose|i: int| 0 <= i < es.len() && node_has_write(#[trigger] es[i].1);
                assert(node_has_write(es2[i].1));
            }
            if perm == Perms::Write {
                assert(node_has_write(es2[es2.len() - 1].1));
            }
        } else {
            assert(es2 == es.update(j, e));
            lemma_entries_files_update(es, j, e);
            assert(node_files(es[j].1) == entries_files(c0.entries));
            assert(node_files(e.1) == entries_files(c2.entries));
            assert(forall|i: int| 0 <= i < es.len() && i != j ==> es2[i] == es[i]);
            assert(forall|i: int| 0 <= i < es.len() ==> es2[i].0 == es[i].0);
            assert(entries_have_write(c0.entries) == node_has_write(es[j].1));
            if entries_have_write(es2) {
                let i = choose|i: int| 0 <= i < es2.len() && node_has_write(#[trigger] es2[i].1);
                if i != j {
                    assert(node_has_write(es[i].1));
                } else {
                    assert(entries_have_write(c2.entries));
                }
            }
            if entries_have_write(es) {
                let i = choose|i: int| 0 <= i < es.len() && node_has_write(#[trigger] es[i].1);
                if i != j {
                    assert(node_has_write(es2[i].1));
                } else {
                    assert(node_has_write(es2[j].1));
                }
            }
            if perm == Perms::Write {
                assert(node_has_write(es2[j].1));
            }
        }
    }
}

/// `a` names an ancestor-or-self of what `b` names.
pub open spec fn is_path_prefix(a: Seq<Seq<char>>, b: Seq<Seq<char>>) -> bool {
    a.len() <= b.len() && a == b.take(a.len() as int)
}

/// Neither path is a prefix of the other: they lead to unrelated nodes.
pub open spec fn sep_paths(a: Seq<Seq<char>>, b: Seq<Seq<char>>) -> bool {
    !is_path_prefix(a, b) && !is_path_prefix(b, a)
}

/// Inserting a path unrelated to `q` cannot make `q` collide.
proof fn lemma_insert_preserves_fresh(
    d: DirV,
    p: Seq<Seq<char>>,
    perm: Perms,
    q: Seq<Seq<char>>,
)
    requires
        fresh_path(d, q),
        p.len() >= 1,
        sep_paths(p, q),
    ensures
        fresh_path(dir_insert(d, p, perm), q),
    decreases p.len(),
{
    let d2 = dir_insert(d, p, perm);
    let es = d.entries;
    let es2 = d2.entries;
    lemma_entry_index(es, p[0]);
    lemma_entry_index(es, q[0]);
    if p[0] != q[0] {
        let n = if p.len() == 1 {
            NodeV::File(perm)
        } else {
            NodeV::Dir(dir_insert(child_dir_of(es, p[0]), p.skip(1), perm))
        };
        assert(es2 == set_entry(es, p[0], n));
        lemma_set_entry_other(es, p[0], n, q[0]);
    } else {
        if p.len() == 1 {
            assert(p =~= q.take(1));
            assert(is_path_prefix(p, q));
        }
        if q.len() == 1 {
            assert(q =~= p.take(1));
            assert(is_path_prefix(q, p));
        }
        assert(p.len() >= 2 && q.len() >= 2);
        let c0 = child_dir_of(es, p[0]);
        assert(fresh_path(c0, q.skip(1))) by {
            let j = entry_index(es, q[0]);
            if j < 0 {
                assert(c0 == empty_dir_v());
            }
        }
        assert(sep_paths(p.skip(1), q.skip(1))) by {
            if is_path_prefix(p.skip(1), q.skip(1)) {
                assert(p =~= q.take(p.len() as int)) by {
                    assert(forall|i: int|
                        1 <= i < p.len() ==> p[i] == p.skip(1)[i - 1]);
                    assert(forall|i: int|
                        1 <= i < p.len() ==> q.skip(1).take(p.len() - 1)[i - 1] == q[i]);
                }
            }
            if is_path_prefix(q.skip(1), p.skip(1)) {
                assert(q =~= p.take(q.len() as int)) by {
                    assert(forall|i: int|
                        1 <= i < q.len() ==> q[i] == q.skip(1)[i - 1]);
                    assert(forall|i: int|
                        1 <= i < q.len() ==> p.skip(1).take(q.len() - 1)[i - 1] == p[i]);
                }
            }
        }
        lemma_insert_preserves_fresh(c0, p.skip(1), perm, q.skip(1));
        let c2 = dir_insert(c0, p.skip(1), perm);
        assert(es2 == set_entry(es, p[0], NodeV::Dir(c2)));
        lemma_entry_index(es2, q[0]);
        let j = entry_index(es, p[0]);
        if j >= 0 {
            assert(forall|i: int| 0 <= i < es.len() ==> es2[i].0 == es[i].0);
            assert(entry_index(es2, q[0]) == j) by {
                assert(es2[j].0 == q[0]);
                assert(forall|i: int| 0 <= i < j ==> es2[i].0 != q[0]);
            }
            assert(es2[j].1 == NodeV::Dir(c2));
        } else {
            let l = es.len() as int;
            assert(forall|i: int| 0 <= i < l ==> es2[i] == es[i]);
            assert(entry_index(es2, q[0]) == l) by {
                assert(es2[l].0 == q[0]);
                assert(forall|i: int| 0 <= i < l ==> es2[i].0 != q[0]);
            }
            assert(es2[l].1 == NodeV::Dir(c2));
        }
    }
}

/// The path a closed descriptor would insert: empty for anything that is not
/// a regular file, and for a file whose path yields no components.
pub open spec fn item_path(f: FDInfoV) -> Seq<Seq<char>> {
    match f {
        FDInfoV::File { path, .. } => comps_of_path(path),
        _ => Seq::empty(),
    }
}

/// `q` is unrelated to every path the items would insert.
pub open spec fn sep_from_all(items: Seq<FDInfoV>, q: Seq<Seq<char>>) -> bool {
    forall|i: int|
        0 <= i < items.len() ==> item_path(#[trigger] items[i]).len() == 0 || sep_paths(
            item_path(items[i]),
            q,
        )
}

/// A path unrelated to everything folded into the tree stays fresh.
proof fn lemma_tree_from_fresh(items: Seq<FDInfoV>, q: Seq<Seq<char>>)
    requires
        q.len() >= 1,
        sep_from_all(items, q),
    ensures
        fresh_path(tree_from(items), q),
    decreases items.len(),
{
    if items.len() == 0 {
        lemma_empty_fresh(q);
    } else {
        assert(forall|i: int|
            0 <= i < items.len() - 1 ==> items.drop_last()[i] == items[i]);
        lemma_tree_from_fresh(items.drop_last(), q);
        let last = items.last();
        assert(last == items[items.len() - 1]);
        if item_path(last).len() == 0 {
            match last {
                FDInfoV::File { path, flags } => {
                    assert(dir_insert(tree_from(items.drop_last()), comps_of_path(path),
                        perms_of_flags(flags)) == tree_from(items.drop_last()));
                },
                _ => {},
            }
        } else {
            match last {
                FDInfoV::File { path, flags } => {
                    lemma_insert_preserves_fresh(
                        tree_from(items.drop_last()),
                        comps_of_path(path),
                        perms_of_flags(flags),
                        q,
                    );
                },
                _ => {},
            }
        }
    }
}

/// The closed-descriptor list is free of path conflicts: no two inserted
/// paths are equal or related as ancestor and descendant.
pub open spec fn conflict_free(items: Seq<FDInfoV>) -> bool {
    forall|i: int, j: int|
        0 <= i < j < items.len() ==> item_path(#[trigger] items[i]).len() == 0 || item_path(
            #[trigger] items[j],
        ).len() == 0 || sep_paths(item_path(items[i]), item_path(items[j]))
}

/// Law: over a conflict-free closed-descriptor list, the built tree is well
/// formed — every directory's `contained_files` is the number of files in
/// its subtree, and its taint is Write exactly when some file beneath it has
/// Write permission.
pub proof fn lemma_tree_from_wf(items: Seq<FDInfoV>)
    requires
        conflict_free(items),
    ensures
        dir_wf(tree_from(items)),
    decreases items.len(),
{
    if items.len() == 0 {
        assert(entries_files(empty_dir_v().entries) == 0);
        assert(!entries_have_write(empty_dir_v().entries));
    } else {
        assert(forall|i: int|
            0 <= i < items.len() - 1 ==> items.drop_last()[i] == items[i]);
        assert(conflict_free(items.drop_last()));
        lemma_tree_from_wf(items.drop_last());
        let last = items.last();
        assert(last == items[items.len() - 1]);
        match last {
            FDInfoV::File { path, flags } => {
                let p = comps_of_path(path);
                if p.len() >= 1 {
                    assert(sep_from_all(items.drop_last(), p)) by {
                        assert forall|i: int|
                            0 <= i < items.drop_last().len() implies item_path(
                            #[trigger] items.drop_last()[i],
                        ).len() == 0 || sep_paths(item_path(items.drop_last()[i]), p) by {
                            assert(items.drop_last()[i] == items[i]);
                            assert(item_path(items[items.len() - 1]) == p);
                        }
                    }
                    lemma_tree_from_fresh(items.drop_last(), p);
                    lemma_insert_wf(tree_from(items.drop_last()), p, perms_of_flags(flags));
                }
            },
            _ => {},
        }
    }
}

/// Law: building the tree is a pure fold — replaying construction over the
/// same closed-descriptor list always yields the identical tree.
pub proof fn lemma_tree_from_deterministic(items: Seq<FDInfoV>, t1: DirV, t2: DirV)
    requires
        t1 == tree_from(items),
        t2 == tree_from(items),
    ensures
        t1 == t2,
{
}

} // verus!
