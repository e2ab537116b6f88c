use vstd::prelude::*;
use vstd::utf8::valid_utf8;
use crate::fs::{DirEntry, FileSystem, FsView, RemoveResult, is_dir_in, is_file_in, node_size,
    has_children_in, names_of_children, listing_of, fits_image};
use crate::text::{lex_lt, lemma_lex_irreflexive, lemma_lex_transitive, lemma_lex_total,
    lemma_lex_asymmetric, bytes_eq, bytes_lt, append_bytes, utf8_valid, copy_bytes};

verus! {

/// One node of the in-memory tree: a file's bytes or a directory.
pub enum FsEntry {
    File(Vec<u8>),
    Dir(Dir),
}

/// A directory: its entries, kept in strictly increasing name order.
pub struct Dir {
    pub entries: Vec<DirItem>,
}

/// A named entry of a directory.
pub struct DirItem {
    pub name: Vec<u8>,
    pub entry: FsEntry,
}

/// What the file system holds at a path: a file with its contents, or a directory.
pub enum Node {
    File(Seq<u8>),
    Dir,
}

pub open spec fn names_sorted(s: Seq<DirItem>) -> bool {
    forall|i: int, j: int|
        0 <= i < j < s.len() ==> lex_lt(#[trigger] s[i].name@, #[trigger] s[j].name@)
}

pub open spec fn has_child(d: Dir, n: Seq<u8>) -> bool {
    exists|i: int| 0 <= i < d.entries@.len() && #[trigger] d.entries@[i].name@ == n
}

pub open spec fn child_index(d: Dir, n: Seq<u8>) -> int {
    choose|i: int| 0 <= i < d.entries@.len() && #[trigger] d.entries@[i].name@ == n
}

/// The entry named `n` in `d`, if any.
pub open spec fn child(d: Dir, n: Seq<u8>) -> Option<FsEntry> {
    child_s(d.entries@, n)
}

/// Names sorted in every directory of the tree.
pub open spec fn dir_wf(d: Dir) -> bool
    decreases d,
{
    &&& names_sorted(d.entries@)
    &&& forall|i: int|
        #![trigger d.entries@[i]]
        0 <= i < d.entries@.len() ==> match d.entries@[i].entry {
            FsEntry::Dir(sub) => dir_wf(sub),
            FsEntry::File(_) => true,
        }
}

/// The directory reached from `d` by following the names of `p`.
pub open spec fn dir_at(d: Dir, p: Seq<Seq<u8>>) -> Option<Dir>
    decreases p.len(),
{
    if p.len() == 0 {
        Some(d)
    } else {
        match child(d, p[0]) {
            Some(FsEntry::Dir(sub)) => dir_at(sub, p.drop_first()),
            _ => None,
        }
    }
}

/// The entry named `n` among the entries `s`, if any.
pub open spec fn child_s(s: Seq<DirItem>, n: Seq<u8>) -> Option<FsEntry> {
    if exists|i: int| 0 <= i < s.len() && #[trigger] s[i].name@ == n {
        Some(s[choose|i: int| 0 <= i < s.len() && #[trigger] s[i].name@ == n].entry)
    } else {
        None
    }
}

/// What lies at path `p` below a directory with entries `s`; the empty path
/// names the directory itself.
pub open spec fn lookup_s(s: Seq<DirItem>, p: Seq<Seq<u8>>) -> Option<Node>
    decreases p.len(),
{
    if p.len() == 0 {
        Some(Node::Dir)
    } else {
        match child_s(s, p[0]) {
            None => None,
            Some(FsEntry::File(x)) => if p.len() == 1 {
                Some(Node::File(x@))
            } else {
                None
            },
            Some(FsEntry::Dir(sub)) => lookup_s(sub.entries@, p.drop_first()),
        }
    }
}

/// What lies at path `p` below `d`.
pub open spec fn lookup(d: Dir, p: Seq<Seq<u8>>) -> Option<Node> {
    lookup_s(d.entries@, p)
}

/// The names of a path, as byte strings.
pub open spec fn path_view(p: Seq<Vec<u8>>) -> Seq<Seq<u8>> {
    p.map_values(|v: Vec<u8>| v@)
}

/// The whole tree as a map from paths to nodes.
pub open spec fn tree_view(d: Dir) -> Map<Seq<Seq<u8>>, Node> {
    Map::new(|p: Seq<Seq<u8>>| lookup(d, p) is Some, |p: Seq<Seq<u8>>| lookup(d, p).unwrap())
}

pub proof fn lemma_child_at(d: Dir, k: int)
    requires
        names_sorted(d.entries@),
        0 <= k < d.entries@.len(),
    ensures
        child(d, d.entries@[k].name@) == Some(d.entries@[k].entry),
{
    let n = d.entries@[k].name@;
    assert(has_child(d, n));
    let i = child_index(d, n);
    if i < k {
        lemma_lex_irreflexive(n);
    } else if i > k {
        lemma_lex_irreflexive(n);
    }
}

proof fn lemma_wf_child(d: Dir, k: int)
    requires
        dir_wf(d),
        0 <= k < d.entries@.len(),
    ensures
        d.entries@[k].entry matches FsEntry::Dir(sub) ==> dir_wf(sub),
{
    assert(d.entries@[k] == d.entries@[k]);
}

proof fn lemma_dir_at_wf(d: Dir, p: Seq<Seq<u8>>)
    requires
        dir_wf(d),
        dir_at(d, p) is Some,
    ensures
        dir_wf(dir_at(d, p).unwrap()),
    decreases p.len(),
{
    if p.len() > 0 {
        let k = child_index(d, p[0]);
        lemma_wf_child(d, k);
        if let Some(FsEntry::Dir(sub)) = child(d, p[0]) {
            lemma_dir_at_wf(sub, p.drop_first());
        }
    }
}

/// Following `p` then `r` is following `p + r`.
pub proof fn lemma_lookup_compose(d: Dir, p: Seq<Seq<u8>>, r: Seq<Seq<u8>>)
    requires
        dir_at(d, p) is Some,
    ensures
        lookup(d, p + r) == lookup(dir_at(d, p).unwrap(), r),
    decreases p.len(),
{
    if p.len() > 0 {
        assert((p + r)[0] == p[0]);
        assert((p + r).drop_first() =~= p.drop_first() + r);
        if let Some(FsEntry::Dir(sub)) = child(d, p[0]) {
            lemma_lookup_compose(sub, p.drop_first(), r);
        }
    } else {
        assert(p + r =~= r);
    }
}

/// The tree has a directory at `p` exactly where `dir_at` finds one.
pub proof fn lemma_dir_at_lookup(d: Dir, p: Seq<Seq<u8>>)
    ensures
        (dir_at(d, p) is Some) == (lookup(d, p) == Some(Node::Dir)),
    decreases p.len(),
{
    if p.len() > 0 {
        if let Some(FsEntry::Dir(sub)) = child(d, p[0]) {
            lemma_dir_at_lookup(sub, p.drop_first());
        }
    }
}

/// A directory's entry replaced by one of the same name: only that name changes.
proof fn lemma_child_update(d: Dir, d2: Dir, k: int, item: DirItem)
    requires
        names_sorted(d.entries@),
        0 <= k < d.entries@.len(),
        item.name@ == d.entries@[k].name@,
        d2.entries@ == d.entries@.update(k, item),
    ensures
        names_sorted(d2.entries@),
        dir_wf(d) && (item.entry matches FsEntry::Dir(sub) ==> dir_wf(sub)) ==> dir_wf(d2),
        forall|m: Seq<u8>|
            #[trigger] child(d2, m) == if m == item.name@ {
                Some(item.entry)
            } else {
                child(d, m)
            },
{
    assert forall|i: int, j: int| 0 <= i < j < d2.entries@.len() implies lex_lt(
        #[trigger] d2.entries@[i].name@,
        #[trigger] d2.entries@[j].name@,
    ) by {
        assert(d.entries@[i].name@ == d2.entries@[i].name@);
        assert(d.entries@[j].name@ == d2.entries@[j].name@);
    }
    if dir_wf(d) && (item.entry matches FsEntry::Dir(sub) ==> dir_wf(sub)) {
        assert forall|i: int| #![trigger d2.entries@[i]] 0 <= i < d2.entries@.len() implies match d2.entries@[i].entry {
            FsEntry::Dir(sub) => dir_wf(sub),
            FsEntry::File(_) => true,
        } by {
            if i != k {
                assert(d2.entries@[i] == d.entries@[i]);
                lemma_wf_child(d, i);
            }
        }
    }
    lemma_child_at(d2, k);
    assert forall|m: Seq<u8>|
        #[trigger] child(d2, m) == if m == item.name@ {
            Some(item.entry)
        } else {
            child(d, m)
        } by {
        if m != item.name@ {
            if has_child(d, m) {
                let i = child_index(d, m);
                lemma_child_at(d, i);
                lemma_child_at(d2, i);
            } else {
                if has_child(d2, m) {
                    let i = child_index(d2, m);
                    assert(d.entries@[i].name@ == m);
                }
            }
        }
    }
}

/// A new entry inserted at its sorted place.
proof fn lemma_child_insert(d: Dir, d2: Dir, k: int, item: DirItem)
    requires
        names_sorted(d.entries@),
        0 <= k <= d.entries@.len(),
        forall|i: int| 0 <= i < k ==> lex_lt(#[trigger] d.entries@[i].name@, item.name@),
        k < d.entries@.len() ==> lex_lt(item.name@, d.entries@[k].name@),
        d2.entries@ == d.entries@.insert(k, item),
    ensures
        names_sorted(d2.entries@),
        dir_wf(d) && (item.entry matches FsEntry::Dir(sub) ==> dir_wf(sub)) ==> dir_wf(d2),
        !has_child(d, item.name@),
        forall|m: Seq<u8>|
            #[trigger] child(d2, m) == if m == item.name@ {
                Some(item.entry)
            } else {
                child(d, m)
            },
{
    let s = d.entries@;
    let s2 = d2.entries@;
    assert forall|i: int, j: int| 0 <= i < j < s2.len() implies lex_lt(
        #[trigger] s2[i].name@,
        #[trigger] s2[j].name@,
    ) by {
        if j < k {
            assert(s2[i] == s[i] && s2[j] == s[j]);
        } else if j == k {
            assert(s2[i] == s[i]);
        } else if i == k {
            assert(s2[j] == s[j - 1]);
            if j - 1 > k {
                lemma_lex_transitive(item.name@, s[k].name@, s[j - 1].name@);
            }
        } else if i < k {
            assert(s2[i] == s[i] && s2[j] == s[j - 1]);
            if k < s.len() {
                lemma_lex_transitive(s[i].name@, item.name@, s[k].name@);
                if j - 1 > k {
                    lemma_lex_transitive(s[i].name@, s[k].name@, s[j - 1].name@);
                }
            }
        } else {
            assert(s2[i] == s[i - 1] && s2[j] == s[j - 1]);
        }
    }
    if dir_wf(d) && (item.entry matches FsEntry::Dir(sub) ==> dir_wf(sub)) {
        assert forall|i: int| #![trigger s2[i]] 0 <= i < s2.len() implies match s2[i].entry {
            FsEntry::Dir(sub) => dir_wf(sub),
            FsEntry::File(_) => true,
        } by {
            if i < k {
                assert(s2[i] == s[i]);
                lemma_wf_child(d, i);
            } else if i > k {
                assert(s2[i] == s[i - 1]);
                lemma_wf_child(d, i - 1);
            }
        }
    }
    if has_child(d, item.name@) {
        let i = child_index(d, item.name@);
        if i < k {
            lemma_lex_irreflexive(item.name@);
        } else {
            if i > k {
                lemma_lex_transitive(item.name@, s[k].name@, s[i].name@);
            }
            lemma_lex_irreflexive(item.name@);
        }
    }
    lemma_child_at(d2, k);
    assert forall|m: Seq<u8>|
        #[trigger] child(d2, m) == if m == item.name@ {
            Some(item.entry)
        } else {
            child(d, m)
        } by {
        if m != item.name@ {
            if has_child(d, m) {
                let i = child_index(d, m);
                lemma_child_at(d, i);
                if i < k {
                    assert(s2[i] == s[i]);
                    lemma_child_at(d2, i);
                } else {
                    assert(s2[i + 1] == s[i]);
                    lemma_child_at(d2, i + 1);
                }
            } else {
                if has_child(d2, m) {
                    let i = child_index(d2, m);
                    if i < k {
                        assert(s2[i] == s[i]);
                    } else if i > k {
                        assert(s2[i] == s[i - 1]);
                    }
                }
            }
        }
    }
}

/// An entry removed.
proof fn lemma_child_remove(d: Dir, d2: Dir, k: int)
    requires
        names_sorted(d.entries@),
        0 <= k < d.entries@.len(),
        d2.entries@ == d.entries@.remove(k),
    ensures
        names_sorted(d2.entries@),
        dir_wf(d) ==> dir_wf(d2),
        forall|m: Seq<u8>|
            #[trigger] child(d2, m) == if m == d.entries@[k].name@ {
                None
            } else {
                child(d, m)
            },
{
    let s = d.entries@;
    let s2 = d2.entries@;
    let n = s[k].name@;
    assert forall|i: int, j: int| 0 <= i < j < s2.len() implies lex_lt(
        #[trigger] s2[i].name@,
        #[trigger] s2[j].name@,
    ) by {
        let i0 = if i < k { i } else { i + 1 };
        let j0 = if j < k { j } else { j + 1 };
        assert(s2[i] == s[i0] && s2[j] == s[j0]);
    }
    if dir_wf(d) {
        assert forall|i: int| #![trigger s2[i]] 0 <= i < s2.len() implies match s2[i].entry {
            FsEntry::Dir(sub) => dir_wf(sub),
            FsEntry::File(_) => true,
        } by {
            let i0 = if i < k { i } else { i + 1 };
            assert(s2[i] == s[i0]);
            lemma_wf_child(d, i0);
        }
    }
    assert forall|m: Seq<u8>|
        #[trigger] child(d2, m) == if m == n {
            None
        } else {
            child(d, m)
        } by {
        if has_child(d2, m) {
            let i = child_index(d2, m);
            let i0 = if i < k { i } else { i + 1 };
            assert(s2[i] == s[i0]);
            lemma_child_at(d, i0);
            lemma_child_at(d2, i);
            if m == n {
                lemma_child_at(d, k);
                lemma_lex_irreflexive(n);
                if i0 < k {
                    assert(lex_lt(s[i0].name@, s[k].name@));
                } else {
                    assert(lex_lt(s[k].name@, s[i0].name@));
                }
            }
        } else if m != n && has_child(d, m) {
            let i = child_index(d, m);
            let i2 = if i < k { i } else { i - 1 };
            assert(s2[i2] == s[i]);
        }
    }
}

/// Where `name` is, or would go, among the entries of `d`.
fn locate(d: &Dir, name: &[u8]) -> (r: (usize, bool))
    requires
        names_sorted(d.entries@),
    ensures
        r.0 <= d.entries@.len(),
        forall|i: int| 0 <= i < r.0 ==> lex_lt(#[trigger] d.entries@[i].name@, name@),
        r.1 ==> r.0 < d.entries@.len() && d.entries@[r.0 as int].name@ == name@,
        !r.1 ==> (r.0 < d.entries@.len() ==> lex_lt(name@, d.entries@[r.0 as int].name@)),
        r.1 == has_child(*d, name@),
{
    let mut k: usize = 0;
    while k < d.entries.len()
        invariant
            k <= d.entries@.len(),
            names_sorted(d.entries@),
            forall|i: int| 0 <= i < k ==> lex_lt(#[trigger] d.entries@[i].name@, name@),
        decreases d.entries@.len() - k,
    {
        let nk = d.entries[k].name.as_slice();
        if !bytes_lt(nk, name) {
            let eq = bytes_eq(nk, name);
            proof {
                if eq {
                    lemma_child_at(*d, k as int);
                } else {
                    lemma_lex_total(nk@, name@);
                    assert(!has_child(*d, name@)) by {
                        if has_child(*d, name@) {
                            let i = child_index(*d, name@);
                            lemma_lex_irreflexive(name@);
                            if i > k {
                                lemma_lex_transitive(name@, nk@, d.entries@[i].name@);
                            }
                        }
                    }
                }
            }
            return (k, eq);
        }
        k = k + 1;
    }
    proof {
        if has_child(*d, name@) {
            let i = child_index(*d, name@);
            lemma_lex_irreflexive(name@);
        }
    }
    (k, false)
}


/// A change to one name of a directory.
pub enum Op {
    Write(Vec<u8>),
    Create,
    Mkdir,
    Remove,
}

/// How a change to one name of a directory ended.
#[derive(PartialEq, Eq, Structural, Clone, Copy, Debug)]
pub enum ApplyResult {
    Done,
    Refused,
    Missing,
    NotEmpty,
}

pub open spec fn op_result(op: Op, t: Dir, n: Seq<u8>) -> ApplyResult {
    match op {
        Op::Write(_) => if child(t, n) matches Some(FsEntry::Dir(_)) {
            ApplyResult::Refused
        } else {
            ApplyResult::Done
        },
        Op::Create => if child(t, n) is Some {
            ApplyResult::Refused
        } else {
            ApplyResult::Done
        },
        Op::Mkdir => if child(t, n) is Some {
            ApplyResult::Refused
        } else {
            ApplyResult::Done
        },
        Op::Remove => match child(t, n) {
            None => ApplyResult::Missing,
            Some(FsEntry::Dir(sub)) => if sub.entries@.len() > 0 {
                ApplyResult::NotEmpty
            } else {
                ApplyResult::Done
            },
            Some(FsEntry::File(_)) => ApplyResult::Done,
        },
    }
}

/// What a successful change leaves at the changed name.
pub open spec fn op_node(op: Op) -> Option<Node> {
    match op {
        Op::Write(v) => Some(Node::File(v@)),
        Op::Create => Some(Node::File(Seq::empty())),
        Op::Mkdir => Some(Node::Dir),
        Op::Remove => None,
    }
}

/// What lies at relative path `r` of directory `t` after the change.
pub open spec fn rel_after(op: Op, t: Dir, n: Seq<u8>, r: Seq<Seq<u8>>) -> Option<Node> {
    if op_result(op, t, n) == ApplyResult::Done && r.len() > 0 && r[0] == n {
        if r.len() == 1 {
            op_node(op)
        } else {
            None
        }
    } else {
        lookup(t, r)
    }
}

proof fn lemma_empty_dir_wf(d: Dir)
    requires
        d.entries@.len() == 0,
    ensures
        dir_wf(d),
{
}

/// Lookups after a directory's entry for `n` became `e`.
proof fn lemma_lookup_after(d0: Dir, d2: Dir, n: Seq<u8>, e: Option<FsEntry>)
    requires
        forall|m: Seq<u8>| #[trigger] child(d2, m) == if m == n {
            e
        } else {
            child(d0, m)
        },
    ensures
        forall|r: Seq<Seq<u8>>| #[trigger]
            lookup(d2, r) == if r.len() > 0 && r[0] == n {
                match e {
                    None => None,
                    Some(FsEntry::File(x)) => if r.len() == 1 {
                        Some(Node::File(x@))
                    } else {
                        None
                    },
                    Some(FsEntry::Dir(sub)) => lookup(sub, r.drop_first()),
                }
            } else {
                lookup(d0, r)
            },
{
    assert forall|r: Seq<Seq<u8>>| #[trigger]
        lookup(d2, r) == if r.len() > 0 && r[0] == n {
            match e {
                None => None,
                Some(FsEntry::File(x)) => if r.len() == 1 {
                    Some(Node::File(x@))
                } else {
                    None
                },
                Some(FsEntry::Dir(sub)) => lookup(sub, r.drop_first()),
            }
        } else {
            lookup(d0, r)
        } by {
        if r.len() > 0 {
            assert(child(d2, r[0]) == if r[0] == n {
                e
            } else {
                child(d0, r[0])
            });
        }
    }
}

proof fn lemma_lookup_empty(d: Dir, r: Seq<Seq<u8>>)
    requires
        d.entries@.len() == 0,
    ensures
        lookup(d, r) == if r.len() == 0 {
            Some(Node::Dir)
        } else {
            None::<Node>
        },
{
}

fn apply_here(d: &mut Dir, name: &[u8], op: Op) -> (res: ApplyResult)
    requires
        dir_wf(*old(d)),
    ensures
        dir_wf(*final(d)),
        res == op_result(op, *old(d), name@),
        forall|r: Seq<Seq<u8>>| #[trigger]
            lookup(*final(d), r) == rel_after(op, *old(d), name@, r),
{
    let ghost d0 = *d;
    let ghost op0 = op;
    let (k, found) = locate(d, name);
    proof {
        if found {
            lemma_child_at(d0, k as int);
        }
    }
    let res = match op {
        Op::Write(data) => {
            if found {
                let is_dir = match &d.entries[k].entry {
                    FsEntry::Dir(_) => true,
                    FsEntry::File(_) => false,
                };
                if is_dir {
                    return ApplyResult::Refused;
                }
                let old_item = d.entries.remove(k);
                let item = DirItem { name: old_item.name, entry: FsEntry::File(data) };
                let ghost gi = item;
                d.entries.insert(k, item);
                proof {
                    assert(d.entries@ =~= d0.entries@.update(k as int, gi));
                    lemma_child_update(d0, *d, k as int, gi);
                    lemma_lookup_after(d0, *d, name@, Some(gi.entry));
                }
            } else {
                let item = DirItem { name: copy_bytes(name), entry: FsEntry::File(data) };
                let ghost gi = item;
                d.entries.insert(k, item);
                proof {
                    lemma_child_insert(d0, *d, k as int, gi);
                lemma_lookup_after(d0, *d, name@, Some(gi.entry));
                }
            }
            ApplyResult::Done
        },
        Op::Create => {
            if found {
                return ApplyResult::Refused;
            }
            let item = DirItem { name: copy_bytes(name), entry: FsEntry::File(Vec::new()) };
            let ghost gi = item;
            d.entries.insert(k, item);
            proof {
                lemma_child_insert(d0, *d, k as int, gi);
                lemma_lookup_after(d0, *d, name@, Some(gi.entry));
            }
            ApplyResult::Done
        },
        Op::Mkdir => {
            if found {
                return ApplyResult::Refused;
            }
            let sub = Dir { entries: Vec::new() };
            proof {
                lemma_empty_dir_wf(sub);
            }
            let item = DirItem { name: copy_bytes(name), entry: FsEntry::Dir(sub) };
            let ghost gi = item;
            d.entries.insert(k, item);
            proof {
                lemma_child_insert(d0, *d, k as int, gi);
                lemma_lookup_after(d0, *d, name@, Some(gi.entry));
            }
            ApplyResult::Done
        },
        Op::Remove => {
            if !found {
                return ApplyResult::Missing;
            }
            let not_empty = match &d.entries[k].entry {
                FsEntry::Dir(sub) => sub.entries.len() > 0,
                FsEntry::File(_) => false,
            };
            if not_empty {
                return ApplyResult::NotEmpty;
            }
            let _removed = d.entries.remove(k);
            proof {
                lemma_child_remove(d0, *d, k as int);
                lemma_lookup_after(d0, *d, name@, None);
            }
            ApplyResult::Done
        },
    };
    proof {
        assert forall|r: Seq<Seq<u8>>| #[trigger]
            lookup(*d, r) == rel_after(op0, d0, name@, r) by {
            if op0 is Mkdir && r.len() > 0 && r[0] == name@ {
                if let Some(FsEntry::Dir(sub)) = child(*d, name@) {
                    lemma_lookup_empty(sub, r.drop_first());
                }
            }
        }
    }
    res
}


proof fn lemma_path_step(path: Seq<Vec<u8>>, i: int)
    requires
        0 <= i < path.len(),
    ensures
        path_view(path).skip(i).len() > 0,
        path_view(path).skip(i)[0] == path[i]@,
        path_view(path).skip(i).drop_first() =~= path_view(path).skip(i + 1),
{
}

/// The directory at `path[i..]` below `d`.
fn dir_at_exec<'a>(d: &'a Dir, path: &[Vec<u8>], i: usize) -> (r: Option<&'a Dir>)
    requires
        dir_wf(*d),
        i <= path@.len(),
    ensures
        match r {
            Some(t) => dir_at(*d, path_view(path@).skip(i as int)) == Some(*t),
            None => dir_at(*d, path_view(path@).skip(i as int)) is None,
        },
    decreases path@.len() - i,
{
    if i == path.len() {
        assert(path_view(path@).skip(i as int).len() == 0);
        return Some(d);
    }
    proof {
        lemma_path_step(path@, i as int);
    }
    let (k, found) = locate(d, path[i].as_slice());
    if !found {
        return None;
    }
    proof {
        lemma_child_at(*d, k as int);
        lemma_wf_child(*d, k as int);
    }
    match &d.entries[k].entry {
        FsEntry::Dir(sub) => dir_at_exec(sub, path, i + 1),
        FsEntry::File(_) => None,
    }
}

fn apply_at(d: &mut Dir, path: &[Vec<u8>], i: usize, name: &[u8], op: Op) -> (res: Option<
    ApplyResult,
>)
    requires
        dir_wf(*old(d)),
        i <= path@.len(),
    ensures
        dir_wf(*final(d)),
        match dir_at(*old(d), path_view(path@).skip(i as int)) {
            None => res is None && forall|q: Seq<Seq<u8>>| #[trigger] lookup(*final(d), q) == lookup(*old(d), q),
            Some(t) => {
                &&& res == Some(op_result(op, t, name@))
                &&& forall|q: Seq<Seq<u8>>| #[trigger]
                    lookup(*final(d), q) == if path_view(path@).skip(i as int).is_prefix_of(q) {
                        rel_after(op, t, name@, q.skip(path_view(path@).skip(i as int).len() as int))
                    } else {
                        lookup(*old(d), q)
                    }
            },
        },
    decreases path@.len() - i,
{
    let ghost d0 = *d;
    let ghost p = path_view(path@).skip(i as int);
    if i == path.len() {
        assert(p.len() == 0);
        let ghost op0 = op;
        let r = apply_here(d, name, op);
        proof {
            assert forall|q: Seq<Seq<u8>>| #[trigger]
                lookup(*d, q) == if p.is_prefix_of(q) {
                    rel_after(op0, d0, name@, q.skip(p.len() as int))
                } else {
                    lookup(d0, q)
                } by {
                assert(q.skip(0) =~= q);
                assert(p.is_prefix_of(q));
            }
        }
        return Some(r);
    }
    proof {
        lemma_path_step(path@, i as int);
    }
    let (k, found) = locate(d, path[i].as_slice());
    if !found {
        return None;
    }
    proof {
        lemma_child_at(d0, k as int);
        lemma_wf_child(d0, k as int);
    }
    let item = d.entries.remove(k);
    let DirItem { name: iname, entry } = item;
    match entry {
        FsEntry::Dir(mut sub) => {
            let ghost sub0 = sub;
            let ghost op0 = op;
            let ghost t = dir_at(sub0, path_view(path@).skip(i + 1));
            let r = apply_at(&mut sub, path, i + 1, name, op);
            let new_item = DirItem { name: iname, entry: FsEntry::Dir(sub) };
            let ghost gi = new_item;
            d.entries.insert(k, new_item);
            proof {
                assert(d.entries@ =~= d0.entries@.update(k as int, gi));
                lemma_child_update(d0, *d, k as int, gi);
                lemma_lookup_after(d0, *d, path@[i as int]@, Some(gi.entry));
                let p1 = path_view(path@).skip(i + 1);
                assert(dir_at(d0, p) == dir_at(sub0, p1));
                if t is None {
                    assert forall|q: Seq<Seq<u8>>| #[trigger] lookup(*d, q) == lookup(d0, q) by {
                        if q.len() > 0 && q[0] == p[0] {
                            assert(lookup(sub, q.drop_first()) == lookup(sub0, q.drop_first()));
                        }
                    }
                }
                if let Some(tt) = t {
                    assert forall|q: Seq<Seq<u8>>| #[trigger]
                        lookup(*d, q) == if p.is_prefix_of(q) {
                            rel_after(op0, tt, name@, q.skip(p.len() as int))
                        } else {
                            lookup(d0, q)
                        } by {
                        if q.len() > 0 && q[0] == p[0] {
                            let q1 = q.drop_first();
                            assert(lookup(sub, q1) == if p1.is_prefix_of(q1) {
                                rel_after(op0, tt, name@, q1.skip(p1.len() as int))
                            } else {
                                lookup(sub0, q1)
                            });
                            if p.is_prefix_of(q) {
                                assert(p1 =~= q1.subrange(0, p1.len() as int));
                                assert(q.skip(p.len() as int) =~= q1.skip(p1.len() as int));
                            }
                            if p1.is_prefix_of(q1) {
                                assert(p =~= q.subrange(0, p.len() as int)) by {
                                    assert forall|j: int| 0 <= j < p.len() implies p[j] == q.subrange(0, p.len() as int)[j] by {
                                        if j > 0 {
                                            assert(p[j] == p1[j - 1]);
                                            assert(q[j] == q1[j - 1]);
                                        }
                                    }
                                }
                            }
                        } else if q.len() > 0 {
                            assert(!p.is_prefix_of(q)) by {
                                if p.is_prefix_of(q) {
                                    assert(q.subrange(0, p.len() as int)[0] == q[0]);
                                }
                            }
                        }
                    }
                }
            }
            r
        },
        FsEntry::File(v) => {
            let back = DirItem { name: iname, entry: FsEntry::File(v) };
            d.entries.insert(k, back);
            proof {
                assert(d.entries@ =~= d0.entries@);
                assert forall|q: Seq<Seq<u8>>| #[trigger] lookup(*d, q) == lookup(d0, q) by {
                    if q.len() > 0 {
                        assert(child(*d, q[0]) == child(d0, q[0]));
                    }
                }
            }
            None
        },
    }
}


proof fn lemma_view_dir(d: Dir, p: Seq<Seq<u8>>)
    ensures
        is_dir_in(tree_view(d), p) == (dir_at(d, p) is Some),
{
    lemma_dir_at_lookup(d, p);
}

proof fn lemma_view_child(d: Dir, p: Seq<Seq<u8>>, t: Dir, n: Seq<u8>)
    requires
        dir_at(d, p) == Some(t),
    ensures
        tree_view(d).contains_key(p.push(n)) == (child(t, n) is Some),
        child(t, n) matches Some(FsEntry::File(x)) ==> tree_view(d)[p.push(n)] == Node::File(x@),
        child(t, n) matches Some(FsEntry::Dir(_)) ==> tree_view(d)[p.push(n)] == Node::Dir,
{
    lemma_lookup_compose(d, p, seq![n]);
    assert(p + seq![n] =~= p.push(n));
    let one = seq![n];
    assert(one[0] == n);
    assert(one.drop_first().len() == 0);
    if let Some(FsEntry::Dir(sub)) = child(t, n) {
        assert(lookup(sub, one.drop_first()) == Some(Node::Dir));
    }
}

proof fn lemma_view_grandchild(d: Dir, p: Seq<Seq<u8>>, t: Dir, n: Seq<u8>, sub: Dir)
    requires
        dir_at(d, p) == Some(t),
        child(t, n) == Some(FsEntry::Dir(sub)),
    ensures
        has_children_in(tree_view(d), p.push(n)) == (sub.entries@.len() > 0),
{
    if sub.entries@.len() > 0 {
        let m = sub.entries@[0].name@;
        assert(has_child(sub, m));
        lemma_lookup_compose(d, p, seq![n, m]);
        assert(p + seq![n, m] =~= p.push(n).push(m));
        let two = seq![n, m];
        assert(two[0] == n);
        assert(two.drop_first() =~= seq![m]);
        let one = seq![m];
        assert(one[0] == m);
        assert(one.drop_first().len() == 0);
        if let Some(FsEntry::Dir(s2)) = child(sub, m) {
            assert(lookup(s2, one.drop_first()) == Some(Node::Dir));
        }
        assert(lookup(sub, one) is Some);
        assert(lookup(t, two) is Some);
        assert(tree_view(d).contains_key(p.push(n).push(m)));
    } else {
        assert forall|m: Seq<u8>| !#[trigger] tree_view(d).contains_key(p.push(n).push(m)) by {
            lemma_lookup_compose(d, p, seq![n, m]);
            assert(p + seq![n, m] =~= p.push(n).push(m));
            let two = seq![n, m];
            assert(two[0] == n);
            assert(two.drop_first() =~= seq![m]);
            let one = seq![m];
            assert(one[0] == m);
            assert(!has_child(sub, m));
            assert(lookup(sub, one) is None);
            assert(lookup(t, two) is None);
        }
    }
}

proof fn lemma_apply_done(d0: Dir, d2: Dir, p: Seq<Seq<u8>>, t: Dir, op: Op, n: Seq<u8>)
    requires
        dir_at(d0, p) == Some(t),
        op_result(op, t, n) == ApplyResult::Done,
        forall|q: Seq<Seq<u8>>| #[trigger]
            lookup(d2, q) == if p.is_prefix_of(q) {
                rel_after(op, t, n, q.skip(p.len() as int))
            } else {
                lookup(d0, q)
            },
    ensures
        tree_view(d2) == match op_node(op) {
            Some(nd) => tree_view(d0).insert(p.push(n), nd),
            None => tree_view(d0).remove(p.push(n)),
        },
{
    let target = p.push(n);
    assert(p.is_prefix_of(target)) by {
        assert(p =~= target.subrange(0, p.len() as int));
    }
    assert forall|q: Seq<Seq<u8>>| #[trigger]
        lookup(d2, q) == if q == target {
            op_node(op)
        } else {
            lookup(d0, q)
        } by {
        if p.is_prefix_of(q) {
            let r = q.skip(p.len() as int);
            assert(q =~= p + r);
            lemma_lookup_compose(d0, p, r);
            if r.len() > 0 && r[0] == n {
                if r.len() == 1 {
                    assert(q =~= target);
                } else {
                    assert(q.len() != target.len());
                    if let Some(FsEntry::Dir(sub)) = child(t, n) {
                        assert(!has_child(sub, r.drop_first()[0]));
                        assert(lookup(sub, r.drop_first()) is None);
                    }
                    assert(lookup(t, r) is None);
                }
            } else {
                if r.len() > 0 {
                    assert(q[p.len() as int] == r[0]);
                    assert(target[p.len() as int] == n);
                }
                assert(q != target);
            }
        }
    }
    let m = match op_node(op) {
        Some(nd) => tree_view(d0).insert(target, nd),
        None => tree_view(d0).remove(target),
    };
    assert(tree_view(d2) =~= m);
}

proof fn lemma_apply_same(d0: Dir, d2: Dir, p: Seq<Seq<u8>>, t: Dir, op: Op, n: Seq<u8>)
    requires
        dir_at(d0, p) == Some(t),
        op_result(op, t, n) != ApplyResult::Done,
        forall|q: Seq<Seq<u8>>| #[trigger]
            lookup(d2, q) == if p.is_prefix_of(q) {
                rel_after(op, t, n, q.skip(p.len() as int))
            } else {
                lookup(d0, q)
            },
    ensures
        tree_view(d2) == tree_view(d0),
{
    assert forall|q: Seq<Seq<u8>>| #[trigger] lookup(d2, q) == lookup(d0, q) by {
        if p.is_prefix_of(q) {
            let r = q.skip(p.len() as int);
            assert(q =~= p + r);
            lemma_lookup_compose(d0, p, r);
        }
    }
    assert(tree_view(d2) =~= tree_view(d0));
}

proof fn lemma_same_lookups(d0: Dir, d2: Dir)
    requires
        forall|q: Seq<Seq<u8>>| #[trigger] lookup(d2, q) == lookup(d0, q),
    ensures
        tree_view(d2) == tree_view(d0),
{
    assert(tree_view(d2) =~= tree_view(d0));
}

/// An in-memory file system: a tree of directories and files.
pub struct RamFs {
    root: Dir,
}

impl RamFs {
    pub fn new() -> (r: RamFs)
        ensures
            r.fs_wf(),
            r.fs_view() == map![Seq::<Seq<u8>>::empty() => Node::Dir],
    {
        let r = RamFs { root: Dir { entries: Vec::new() } };
        proof {
            lemma_empty_dir_wf(r.root);
            let m = map![Seq::<Seq<u8>>::empty() => Node::Dir];
            assert forall|q: Seq<Seq<u8>>| #[trigger] tree_view(r.root).contains_key(q) == m.contains_key(q)
                && (m.contains_key(q) ==> tree_view(r.root)[q] == m[q]) by {
                lemma_lookup_empty(r.root, q);
                if q.len() == 0 {
                    assert(q =~= Seq::<Seq<u8>>::empty());
                }
            }
            assert(tree_view(r.root) =~= map![Seq::<Seq<u8>>::empty() => Node::Dir]);
        }
        r
    }

    /// Takes over the contents of `other`.
    pub fn replace(&mut self, other: RamFs)
        requires
            other.fs_wf(),
        ensures
            final(self).fs_wf(),
            final(self).fs_view() == other.fs_view(),
    {
        self.root = other.root;
    }

    fn change(&mut self, path: &[Vec<u8>], name: &[u8], op: Op) -> (res: Option<ApplyResult>)
        requires
            old(self).fs_wf(),
        ensures
            final(self).fs_wf(),
            match dir_at(old(self).root, path_view(path@)) {
                None => res is None && final(self).fs_view() == old(self).fs_view(),
                Some(t) => {
                    &&& res == Some(op_result(op, t, name@))
                    &&& op_result(op, t, name@) == ApplyResult::Done ==> final(self).fs_view()
                        == match op_node(op) {
                        Some(nd) => old(self).fs_view().insert(path_view(path@).push(name@), nd),
                        None => old(self).fs_view().remove(path_view(path@).push(name@)),
                    }
                    &&& op_result(op, t, name@) != ApplyResult::Done ==> final(self).fs_view()
                        == old(self).fs_view()
                },
            },
    {
        let ghost d0 = self.root;
        let ghost op0 = op;
        let ghost p = path_view(path@);
        assert(p.skip(0) =~= p);
        let res = apply_at(&mut self.root, path, 0, name, op);
        proof {
            match dir_at(d0, p) {
                None => {
                    lemma_same_lookups(d0, self.root);
                },
                Some(t) => {
                    if op_result(op0, t, name@) == ApplyResult::Done {
                        lemma_apply_done(d0, self.root, p, t, op0, name@);
                    } else {
                        lemma_apply_same(d0, self.root, p, t, op0, name@);
                    }
                },
            }
        }
        res
    }
}

impl FileSystem for RamFs {
    closed spec fn fs_wf(&self) -> bool {
        dir_wf(self.root)
    }

    closed spec fn fs_view(&self) -> FsView {
        tree_view(self.root)
    }

    fn list(&self, path: &[Vec<u8>]) -> (r: Option<Vec<DirEntry>>) {
        let ghost p = path_view(path@);
        assert(p.skip(0) =~= p);
        proof {
            lemma_view_dir(self.root, p);
        }
        let t = match dir_at_exec(&self.root, path, 0) {
            None => return None,
            Some(t) => t,
        };
        proof {
            lemma_dir_at_wf(self.root, p);
        }
        let mut out: Vec<DirEntry> = Vec::new();
        let mut i: usize = 0;
        while i < t.entries.len()
            invariant
                i <= t.entries@.len(),
                out@.len() == i,
                forall|j: int|
                    #![trigger out@[j]]
                    0 <= j < i ==> {
                        &&& out@[j].name@ == t.entries@[j].name@
                        &&& out@[j].is_dir == (t.entries@[j].entry is Dir)
                        &&& out@[j].size == match t.entries@[j].entry {
                            FsEntry::File(x) => x@.len(),
                            FsEntry::Dir(_) => 0,
                        }
                    },
            decreases t.entries@.len() - i,
        {
            let it = &t.entries[i];
            let (is_dir, size) = match &it.entry {
                FsEntry::File(x) => (false, x.len()),
                FsEntry::Dir(_) => (true, 0),
            };
            out.push(DirEntry { name: copy_bytes(it.name.as_slice()), is_dir, size });
            i = i + 1;
        }
        proof {
            let v = tree_view(self.root);
            let es = out@;
            let ns = es.map_values(|e: DirEntry| e.name@);
            assert forall|j: int| 0 <= j < es.len() implies {
                &&& v.contains_key(p.push(ns[j]))
                &&& es[j].is_dir == (v[p.push(es[j].name@)] == Node::Dir)
                &&& es[j].size == node_size(v[p.push(es[j].name@)])
            } by {
                lemma_child_at(*t, j);
                lemma_view_child(self.root, p, *t, t.entries@[j].name@);
            }
            assert forall|m: Seq<u8>| #[trigger] v.contains_key(p.push(m)) implies ns.contains(m) by {
                lemma_view_child(self.root, p, *t, m);
                let j = child_index(*t, m);
                assert(ns[j] == m);
            }
            assert forall|a: int, b: int| 0 <= a < b < ns.len() implies lex_lt(
                #[trigger] ns[a],
                #[trigger] ns[b],
            ) by {
                assert(t.entries@[a].name@ == ns[a]);
                assert(t.entries@[b].name@ == ns[b]);
            }
        }
        Some(out)
    }

    fn read(&self, path: &[Vec<u8>], name: &[u8]) -> (r: Option<&[u8]>) {
        let ghost p = path_view(path@);
        assert(p.skip(0) =~= p);
        let t = match dir_at_exec(&self.root, path, 0) {
            None => {
                proof {
                    lemma_lookup_after_missing_dir(self.root, p, name@);
                }
                return None;
            },
            Some(t) => t,
        };
        proof {
            lemma_dir_at_wf(self.root, p);
            lemma_view_child(self.root, p, *t, name@);
        }
        let (k, found) = locate(t, name);
        if !found {
            return None;
        }
        proof {
            lemma_child_at(*t, k as int);
        }
        match &t.entries[k].entry {
            FsEntry::File(x) => Some(x.as_slice()),
            FsEntry::Dir(_) => None,
        }
    }

    fn write(&mut self, path: &[Vec<u8>], name: &[u8], data: &[u8]) -> (r: bool) {
        let ghost v0 = self.fs_view();
        let ghost p = path_view(path@);
        proof {
            lemma_view_dir(self.root, p);
            if let Some(t) = dir_at(self.root, p) {
                lemma_view_child(self.root, p, t, name@);
            } else {
                lemma_lookup_after_missing_dir(self.root, p, name@);
            }
        }
        let res = self.change(path, name, Op::Write(copy_bytes(data)));
        match res {
            Some(ApplyResult::Done) => true,
            _ => false,
        }
    }

    fn create(&mut self, path: &[Vec<u8>], name: &[u8]) -> (r: bool) {
        let ghost p = path_view(path@);
        proof {
            lemma_view_dir(self.root, p);
            if let Some(t) = dir_at(self.root, p) {
                lemma_view_child(self.root, p, t, name@);
            } else {
                lemma_lookup_after_missing_dir(self.root, p, name@);
            }
        }
        let res = self.change(path, name, Op::Create);
        match res {
            Some(ApplyResult::Done) => true,
            _ => false,
        }
    }

    fn remove(&mut self, path: &[Vec<u8>], name: &[u8]) -> (r: RemoveResult) {
        let ghost p = path_view(path@);
        proof {
            lemma_view_dir(self.root, p);
            if let Some(t) = dir_at(self.root, p) {
                lemma_view_child(self.root, p, t, name@);
                if let Some(FsEntry::Dir(sub)) = child(t, name@) {
                    lemma_view_grandchild(self.root, p, t, name@, sub);
                }
            } else {
                lemma_lookup_after_missing_dir(self.root, p, name@);
            }
        }
        let res = self.change(path, name, Op::Remove);
        match res {
            Some(ApplyResult::Done) => RemoveResult::Removed,
            Some(ApplyResult::NotEmpty) => RemoveResult::DirNotEmpty,
            _ => RemoveResult::NotFound,
        }
    }

    fn mkdir(&mut self, path: &[Vec<u8>], name: &[u8]) -> (r: bool) {
        let ghost p = path_view(path@);
        proof {
            lemma_view_dir(self.root, p);
            if let Some(t) = dir_at(self.root, p) {
                lemma_view_child(self.root, p, t, name@);
            } else {
                lemma_lookup_after_missing_dir(self.root, p, name@);
            }
        }
        let res = self.change(path, name, Op::Mkdir);
        match res {
            Some(ApplyResult::Done) => true,
            _ => false,
        }
    }

    fn entry_exists(&self, path: &[Vec<u8>], name: &[u8]) -> (r: bool) {
        let ghost p = path_view(path@);
        assert(p.skip(0) =~= p);
        match dir_at_exec(&self.root, path, 0) {
            None => {
                proof {
                    lemma_lookup_after_missing_dir(self.root, p, name@);
                }
                false
            },
            Some(t) => {
                proof {
                    lemma_dir_at_wf(self.root, p);
                    lemma_view_child(self.root, p, *t, name@);
                }
                let (_k, found) = locate(t, name);
                found
            },
        }
    }

    fn is_dir(&self, path: &[Vec<u8>], name: &[u8]) -> (r: bool) {
        let ghost p = path_view(path@);
        assert(p.skip(0) =~= p);
        match dir_at_exec(&self.root, path, 0) {
            None => {
                proof {
                    lemma_lookup_after_missing_dir(self.root, p, name@);
                }
                false
            },
            Some(t) => {
                proof {
                    lemma_dir_at_wf(self.root, p);
                    lemma_view_child(self.root, p, *t, name@);
                }
                let (k, found) = locate(t, name);
                if !found {
                    return false;
                }
                proof {
                    lemma_child_at(*t, k as int);
                }
                match &t.entries[k].entry {
                    FsEntry::Dir(_) => true,
                    FsEntry::File(_) => false,
                }
            },
        }
    }

    fn names(&self, path: &[Vec<u8>]) -> (r: Vec<Vec<u8>>) {
        let ghost p = path_view(path@);
        assert(p.skip(0) =~= p);
        proof {
            lemma_view_dir(self.root, p);
        }
        let t = match dir_at_exec(&self.root, path, 0) {
            None => return Vec::new(),
            Some(t) => t,
        };
        proof {
            lemma_dir_at_wf(self.root, p);
        }
        let mut out: Vec<Vec<u8>> = Vec::new();
        let mut i: usize = 0;
        while i < t.entries.len()
            invariant
                i <= t.entries@.len(),
                out@.len() == i,
                forall|j: int| #![trigger out@[j]] 0 <= j < i ==> out@[j]@ == t.entries@[j].name@,
            decreases t.entries@.len() - i,
        {
            out.push(copy_bytes(t.entries[i].name.as_slice()));
            i = i + 1;
        }
        proof {
            let v = tree_view(self.root);
            let ns = out@.map_values(|n: Vec<u8>| n@);
            assert forall|j: int| 0 <= j < ns.len() implies v.contains_key(p.push(#[trigger] ns[j])) by {
                lemma_child_at(*t, j);
                lemma_view_child(self.root, p, *t, t.entries@[j].name@);
            }
            assert forall|m: Seq<u8>| #[trigger] v.contains_key(p.push(m)) implies ns.contains(m) by {
                lemma_view_child(self.root, p, *t, m);
                let j = child_index(*t, m);
                assert(ns[j] == m);
            }
            assert forall|a: int, b: int| 0 <= a < b < ns.len() implies lex_lt(
                #[trigger] ns[a],
                #[trigger] ns[b],
            ) by {
                assert(t.entries@[a].name@ == ns[a]);
                assert(t.entries@[b].name@ == ns[b]);
            }
        }
        out
    }
}

/// Nothing lies below a path that is no directory.
proof fn lemma_lookup_after_missing_dir(d: Dir, p: Seq<Seq<u8>>, n: Seq<u8>)
    requires
        dir_at(d, p) is None,
    ensures
        !tree_view(d).contains_key(p.push(n)),
    decreases p.len(),
{
    assert(p.len() > 0);
    let q = p.push(n);
    assert(q[0] == p[0]);
    assert(q.drop_first() =~= p.drop_first().push(n));
    match child(d, p[0]) {
        Some(FsEntry::Dir(sub)) => {
            lemma_lookup_after_missing_dir(sub, p.drop_first(), n);
        },
        _ => {},
    }
}


/// Little-endian bytes of a 16-bit value.
pub open spec fn le16(x: nat) -> Seq<u8> {
    seq![(x % 256) as u8, ((x / 256) % 256) as u8]
}

/// Little-endian bytes of a 32-bit value.
pub open spec fn le32(x: nat) -> Seq<u8> {
    seq![
        (x % 256) as u8,
        ((x / 256) % 256) as u8,
        ((x / 65536) % 256) as u8,
        ((x / 16777216) % 256) as u8,
    ]
}

/// A name as stored: at most its first 255 bytes.
pub open spec fn stored_name(n: Seq<u8>) -> Seq<u8> {
    if n.len() <= 255 {
        n
    } else {
        n.take(255)
    }
}

/// The image of a directory: its entry count (mod 2^16), then each entry.
pub open spec fn ser_dir(d: Dir) -> Seq<u8>
    decreases d,
{
    le16(d.entries@.len() % 65536) + ser_items(d.entries@)
}

/// The image of a run of entries: for each, a kind byte (0 file, 1 directory),
/// the stored name's length and bytes, then a file's length (mod 2^32) and
/// bytes, or a directory's image.
pub open spec fn ser_items(s: Seq<DirItem>) -> Seq<u8>
    decreases s,
{
    if s.len() == 0 {
        Seq::empty()
    } else {
        let it = s[0];
        let nm = stored_name(it.name@);
        let head = match it.entry {
            FsEntry::File(x) => seq![0u8, nm.len() as u8] + nm + le32(x@.len() % 4294967296)
                + x@,
            FsEntry::Dir(sub) => seq![1u8, nm.len() as u8] + nm + ser_dir(sub),
        };
        head + ser_items(s.drop_first())
    }
}

fn serialize_dir(dir: &Dir, out: &mut Vec<u8>)
    ensures
        final(out)@ == old(out)@ + ser_dir(*dir),
    decreases dir,
{
    let ghost start = out@;
    let count = dir.entries.len() % 65536;
    out.push((count % 256) as u8);
    out.push((count / 256) as u8);
    let ghost s = dir.entries@;
    assert(out@ =~= start + le16(s.len() % 65536));
    assert(s.skip(0) =~= s);
    let mut i: usize = 0;
    while i < dir.entries.len()
        invariant
            i <= s.len(),
            s == dir.entries@,
            out@ + ser_items(s.skip(i as int)) == start + ser_dir(*dir),
        decreases s.len() - i,
    {
        let ghost before = out@;
        let it = &dir.entries[i];
        assert(s.skip(i as int)[0] == s[i as int]);
        assert(s.skip(i as int).drop_first() =~= s.skip(i + 1));
        let name = it.name.as_slice();
        let nlen: usize = if name.len() <= 255 { name.len() } else { 255 };
        let (nm, _) = name.split_at(nlen);
        assert(nm@ =~= stored_name(it.name@));
        match &it.entry {
            FsEntry::File(x) => {
                out.push(0u8);
                out.push(nlen as u8);
                append_bytes(out, nm);
                let l: u64 = (x.len() as u64) % 4294967296;
                out.push((l % 256) as u8);
                out.push(((l / 256) % 256) as u8);
                out.push(((l / 65536) % 256) as u8);
                out.push(((l / 16777216) % 256) as u8);
                append_bytes(out, x.as_slice());
                assert(out@ =~= before + (seq![0u8, nlen as u8] + nm@ + le32(x@.len() % 4294967296)
                    + x@));
            },
            FsEntry::Dir(sub) => {
                out.push(1u8);
                out.push(nlen as u8);
                append_bytes(out, nm);
                let ghost mid = out@;
                serialize_dir(sub, out);
                assert(out@ =~= before + (seq![1u8, nlen as u8] + nm@ + ser_dir(*sub)));
            },
        }
        i = i + 1;
    }
    assert(s.skip(i as int) =~= Seq::<DirItem>::empty());
    assert(out@ =~= start + ser_dir(*dir));
}

/// Every path of the view has at most `k` names.
pub open spec fn depth_within(v: FsView, k: nat) -> bool {
    forall|q: Seq<Seq<u8>>| #[trigger] v.contains_key(q) ==> q.len() <= k
}

/// The names of the children of `p` in the view, each once, in increasing order.
pub open spec fn child_names(v: FsView, p: Seq<Seq<u8>>) -> Seq<Seq<u8>> {
    choose|ns: Seq<Seq<u8>>| names_of_children(v, p, ns)
}

/// The image of the directory at `p` in the view, for a view whose paths
/// below `p` are at most `k` names longer: the number of children as a
/// little-endian `u16` (mod 2^16), then each child in name order.
pub open spec fn view_dir_image(v: FsView, p: Seq<Seq<u8>>, k: nat) -> Seq<u8>
    decreases k, 1nat, 0nat,
{
    let ns = child_names(v, p);
    le16(ns.len() % 65536) + view_items_image(v, p, ns, k)
}

/// The images of the children named `ns` of `p`: for each, a kind byte (0
/// file, 1 directory), the stored name's length and bytes, then a file's
/// length as a little-endian `u32` (mod 2^32) and its bytes, or the
/// directory's image.
pub open spec fn view_items_image(v: FsView, p: Seq<Seq<u8>>, ns: Seq<Seq<u8>>, k: nat) -> Seq<u8>
    decreases k, 0nat, ns.len(),
{
    if ns.len() == 0 {
        Seq::empty()
    } else {
        let n = ns[0];
        let nm = stored_name(n);
        let head = match v[p.push(n)] {
            Node::File(x) => seq![0u8, nm.len() as u8] + nm + le32(x.len() % 4294967296) + x,
            Node::Dir => if k == 0 {
                Seq::empty()
            } else {
                seq![1u8, nm.len() as u8] + nm + view_dir_image(v, p.push(n), (k - 1) as nat)
            },
        };
        head + view_items_image(v, p, ns.drop_first(), k)
    }
}

/// Two lists of the same names, each strictly increasing, are the same list.
proof fn lemma_sorted_names_unique(a: Seq<Seq<u8>>, b: Seq<Seq<u8>>)
    requires
        forall|i: int, j: int| 0 <= i < j < a.len() ==> lex_lt(#[trigger] a[i], #[trigger] a[j]),
        forall|i: int, j: int| 0 <= i < j < b.len() ==> lex_lt(#[trigger] b[i], #[trigger] b[j]),
        forall|m: Seq<u8>| a.contains(m) <==> b.contains(m),
    ensures
        a == b,
    decreases a.len() + b.len(),
{
    if a.len() == 0 {
        if b.len() > 0 {
            assert(b.contains(b[0]));
        }
        assert(a =~= b);
    } else if b.len() == 0 {
        assert(a.contains(a[0]));
    } else {
        assert(a.contains(a[0]));
        assert(b.contains(b[0]));
        let j = choose|j: int| 0 <= j < b.len() && b[j] == a[0];
        let i = choose|i: int| 0 <= i < a.len() && a[i] == b[0];
        if j > 0 {
            assert(lex_lt(b[0], b[j]));
            if i > 0 {
                assert(lex_lt(a[0], a[i]));
                lemma_lex_asymmetric(a[0], a[i]);
            } else {
                lemma_lex_irreflexive(a[0]);
            }
        }
        assert(a[0] == b[0]);
        let a1 = a.drop_first();
        let b1 = b.drop_first();
        assert forall|m: Seq<u8>| a1.contains(m) <==> b1.contains(m) by {
            if a1.contains(m) {
                let k = choose|k: int| 0 <= k < a1.len() && a1[k] == m;
                assert(a[k + 1] == m);
                assert(lex_lt(a[0], a[k + 1]));
                lemma_lex_irreflexive(m);
                assert(b.contains(m));
                let l = choose|l: int| 0 <= l < b.len() && b[l] == m;
                assert(l != 0);
                assert(b1[l - 1] == m);
            }
            if b1.contains(m) {
                let k = choose|k: int| 0 <= k < b1.len() && b1[k] == m;
                assert(b[k + 1] == m);
                assert(lex_lt(b[0], b[k + 1]));
                lemma_lex_irreflexive(m);
                assert(a.contains(m));
                let l = choose|l: int| 0 <= l < a.len() && a[l] == m;
                assert(l != 0);
                assert(a1[l - 1] == m);
            }
        }
        assert forall|i: int, j: int| 0 <= i < j < a1.len() implies lex_lt(#[trigger] a1[i], #[trigger] a1[j]) by {
            assert(a1[i] == a[i + 1] && a1[j] == a[j + 1]);
        }
        assert forall|i: int, j: int| 0 <= i < j < b1.len() implies lex_lt(#[trigger] b1[i], #[trigger] b1[j]) by {
            assert(b1[i] == b[i + 1] && b1[j] == b[j + 1]);
        }
        lemma_sorted_names_unique(a1, b1);
        assert(a.len() == b.len());
        assert forall|i: int| 0 <= i < a.len() implies a[i] == b[i] by {
            if i > 0 {
                assert(a[i] == a1[i - 1] && b[i] == b1[i - 1]);
            }
        }
        assert(a =~= b);
    }
}

/// The children's names that `names_of_children` speaks of are one list.
pub proof fn lemma_child_names(v: FsView, p: Seq<Seq<u8>>, ns: Seq<Seq<u8>>)
    requires
        names_of_children(v, p, ns),
    ensures
        child_names(v, p) == ns,
{
    let cs = child_names(v, p);
    assert(names_of_children(v, p, cs));
    assert forall|m: Seq<u8>| cs.contains(m) <==> ns.contains(m) by {
        if cs.contains(m) {
            let k = choose|k: int| 0 <= k < cs.len() && cs[k] == m;
            assert(v.contains_key(p.push(cs[k])));
        }
        if ns.contains(m) {
            let k = choose|k: int| 0 <= k < ns.len() && ns[k] == m;
            assert(v.contains_key(p.push(ns[k])));
        }
    }
    lemma_sorted_names_unique(cs, ns);
}

/// The image of a directory of the tree is the image its view gives.
proof fn lemma_view_dir_image(root: Dir, p: Seq<Seq<u8>>, t: Dir, k: nat)
    requires
        dir_wf(root),
        dir_at(root, p) == Some(t),
        depth_within(tree_view(root), p.len() + k),
    ensures
        ser_dir(t) == view_dir_image(tree_view(root), p, k),
    decreases t, t.entries@.len() + 1,
{
    let v = tree_view(root);
    lemma_dir_at_wf(root, p);
    lemma_names_of(root, p, t);
    let ns = t.entries@.map_values(|it: DirItem| it.name@);
    lemma_child_names(v, p, ns);
    assert(t.entries@.skip(0) =~= t.entries@);
    assert(ns.skip(0) =~= ns);
    lemma_view_items_image(root, p, t, k, 0);
}

proof fn lemma_view_items_image(root: Dir, p: Seq<Seq<u8>>, t: Dir, k: nat, i: int)
    requires
        dir_wf(root),
        dir_wf(t),
        dir_at(root, p) == Some(t),
        depth_within(tree_view(root), p.len() + k),
        0 <= i <= t.entries@.len(),
    ensures
        ser_items(t.entries@.skip(i)) == view_items_image(
            tree_view(root),
            p,
            t.entries@.map_values(|it: DirItem| it.name@).skip(i),
            k,
        ),
    decreases t, t.entries@.len() - i,
{
    let v = tree_view(root);
    let es = t.entries@.skip(i);
    let ns = t.entries@.map_values(|it: DirItem| it.name@).skip(i);
    if i < t.entries@.len() {
        assert(es[0] == t.entries@[i]);
        assert(ns[0] == t.entries@[i].name@);
        assert(es.drop_first() =~= t.entries@.skip(i + 1));
        assert(ns.drop_first() =~= t.entries@.map_values(|it: DirItem| it.name@).skip(i + 1));
        lemma_view_items_image(root, p, t, k, i + 1);
        let n = t.entries@[i].name@;
        lemma_child_at(t, i);
        lemma_view_child(root, p, t, n);
        assert(v.contains_key(p.push(n)));
        match t.entries@[i].entry {
            FsEntry::File(x) => {},
            FsEntry::Dir(sub) => {
                assert(p.push(n).len() <= p.len() + k);
                lemma_wf_child(t, i);
                lemma_dir_at_compose(root, p, seq![n]);
                assert(p + seq![n] =~= p.push(n));
                assert(seq![n][0] == n);
                assert(seq![n].drop_first() =~= Seq::<Seq<u8>>::empty());
                assert(child(t, n) == Some(FsEntry::Dir(sub)));
                assert(dir_at(sub, seq![n].drop_first()) == Some(sub));
                assert(dir_at(t, seq![n]) == Some(sub));
                assert(dir_at(root, p.push(n)) == Some(sub));
                assert(depth_within(v, p.push(n).len() + (k - 1) as nat));
                lemma_view_dir_image(root, p.push(n), sub, (k - 1) as nat);
            },
        }
    } else {
        assert(es.len() == 0 && ns.len() == 0);
    }
}

impl RamFs {
    /// The file system's byte image, as `ser_dir` lays it out.
    pub closed spec fn image(&self) -> Seq<u8> {
        ser_dir(self.root)
    }

    /// The file system's image, which `load_from` reads back.
    pub fn serialize(&self) -> (r: Vec<u8>)
        ensures
            r@ == self.image(),
            self.fs_wf() ==> forall|k: nat| #[trigger] depth_within(self.fs_view(), k) ==> r@ == view_dir_image(
                self.fs_view(),
                Seq::empty(),
                k,
            ),
    {
        let mut data: Vec<u8> = Vec::new();
        serialize_dir(&self.root, &mut data);
        assert(data@ =~= ser_dir(self.root));
        proof {
            if self.fs_wf() {
                assert forall|k: nat| #[trigger] depth_within(self.fs_view(), k) implies data@ == view_dir_image(
                    self.fs_view(),
                    Seq::empty(),
                    k,
                ) by {
                    assert(dir_at(self.root, Seq::empty()) == Some(self.root));
                    lemma_view_dir_image(self.root, Seq::empty(), self.root, k);
                }
            }
        }
        data
    }
}


/// A 16-bit little-endian value read at `pos`.
pub open spec fn rd16(data: Seq<u8>, pos: int) -> nat {
    data[pos] as nat + 256 * (data[pos + 1] as nat)
}

/// A 32-bit little-endian value read at `pos`.
pub open spec fn rd32(data: Seq<u8>, pos: int) -> nat {
    data[pos] as nat + 256 * (data[pos + 1] as nat) + 65536 * (data[pos + 2] as nat) + 16777216 * (
    data[pos + 3] as nat)
}

/// The view of a file alone: the file at the empty path.
pub open spec fn file_view(x: Seq<u8>) -> FsView {
    map![Seq::<Seq<u8>>::empty() => Node::File(x)]
}

/// The view of an empty directory.
pub open spec fn empty_dir_view() -> FsView {
    map![Seq::<Seq<u8>>::empty() => Node::Dir]
}

/// `acc` with whatever was named `n` replaced by the tree `sub`.
pub open spec fn put_node(acc: FsView, n: Seq<u8>, sub: FsView) -> FsView {
    Map::new(
        |q: Seq<Seq<u8>>|
            if q.len() > 0 && q[0] == n {
                sub.contains_key(q.drop_first())
            } else {
                acc.contains_key(q)
            },
        |q: Seq<Seq<u8>>|
            if q.len() > 0 && q[0] == n {
                sub[q.drop_first()]
            } else {
                acc[q]
            },
    )
}

/// Reading a directory image at `pos`: its view and where it ends. Names must
/// be UTF-8; a later entry of an already seen name replaces the earlier one.
pub open spec fn parse_dir(data: Seq<u8>, pos: int) -> Option<(FsView, int)>
    decreases data.len() - pos,
{
    if pos < 0 || pos + 2 > data.len() {
        None
    } else {
        parse_items(data, pos + 2, rd16(data, pos), empty_dir_view())
    }
}

/// Reading `k` more entries at `pos` into the directory view `acc`.
pub open spec fn parse_items(data: Seq<u8>, pos: int, k: nat, acc: FsView) -> Option<(FsView, int)>
    decreases data.len() - pos,
{
    if k == 0 {
        Some((acc, pos))
    } else if pos < 0 || pos + 2 > data.len() {
        None
    } else {
        let kind = data[pos];
        let nl = data[pos + 1] as int;
        let p1 = pos + 2;
        if p1 + nl > data.len() {
            None
        } else {
            let name = data.subrange(p1, p1 + nl);
            let p2 = p1 + nl;
            if !valid_utf8(name) {
                None
            } else if kind == 0 {
                if p2 + 4 > data.len() {
                    None
                } else {
                    let l = rd32(data, p2) as int;
                    let p3 = p2 + 4;
                    if p3 + l > data.len() {
                        None
                    } else {
                        parse_items(
                            data,
                            p3 + l,
                            (k - 1) as nat,
                            put_node(acc, name, file_view(data.subrange(p3, p3 + l))),
                        )
                    }
                }
            } else if kind == 1 {
                match parse_dir(data, p2) {
                    None => None,
                    Some((sub, p3)) => if p2 < p3 <= data.len() {
                        parse_items(data, p3, (k - 1) as nat, put_node(acc, name, sub))
                    } else {
                        None
                    },
                }
            } else {
                None
            }
        }
    }
}

proof fn lemma_parse_dir_end(data: Seq<u8>, pos: int)
    ensures
        parse_dir(data, pos) matches Some((_, e)) ==> pos + 2 <= e <= data.len(),
    decreases data.len() - pos, 1int,
{
    if pos >= 0 && pos + 2 <= data.len() {
        lemma_parse_items_end(data, pos + 2, rd16(data, pos), empty_dir_view());
    }
}

proof fn lemma_parse_items_end(data: Seq<u8>, pos: int, k: nat, acc: FsView)
    requires
        0 <= pos <= data.len(),
    ensures
        parse_items(data, pos, k, acc) matches Some((_, e)) ==> pos <= e <= data.len(),
    decreases data.len() - pos, 0int,
{
    if k > 0 && pos + 2 <= data.len() {
        let nl = data[pos + 1] as int;
        let p1 = pos + 2;
        if p1 + nl <= data.len() {
            let name = data.subrange(p1, p1 + nl);
            let p2 = p1 + nl;
            if valid_utf8(name) {
                if data[pos] == 0 {
                    if p2 + 4 <= data.len() {
                        let l = rd32(data, p2) as int;
                        let p3 = p2 + 4;
                        if p3 + l <= data.len() {
                            lemma_parse_items_end(
                                data,
                                p3 + l,
                                (k - 1) as nat,
                                put_node(acc, name, file_view(data.subrange(p3, p3 + l))),
                            );
                        }
                    }
                } else if data[pos] == 1 {
                    lemma_parse_dir_end(data, p2);
                    if let Some((sub, p3)) = parse_dir(data, p2) {
                        if p2 < p3 <= data.len() {
                            lemma_parse_items_end(data, p3, (k - 1) as nat, put_node(acc, name, sub));
                        }
                    }
                }
            }
        }
    }
}

/// The relative view of one entry.
pub open spec fn entry_view(e: FsEntry) -> FsView {
    match e {
        FsEntry::File(x) => file_view(x@),
        FsEntry::Dir(sub) => tree_view(sub),
    }
}

/// Puts `entry` under `name`, replacing an entry of that name.
fn dir_put(d: &mut Dir, name: Vec<u8>, entry: FsEntry)
    requires
        dir_wf(*old(d)),
        entry matches FsEntry::Dir(sub) ==> dir_wf(sub),
    ensures
        dir_wf(*final(d)),
        tree_view(*final(d)) == put_node(tree_view(*old(d)), name@, entry_view(entry)),
{
    let ghost d0 = *d;
    let ghost n = name@;
    let ghost e = entry;
    let (k, found) = locate(d, name.as_slice());
    let item = DirItem { name, entry };
    let ghost gi = item;
    if found {
        let _old_item = d.entries.remove(k);
        d.entries.insert(k, item);
        proof {
            assert(d.entries@ =~= d0.entries@.update(k as int, gi));
            lemma_child_update(d0, *d, k as int, gi);
        }
    } else {
        d.entries.insert(k, item);
        proof {
            lemma_child_insert(d0, *d, k as int, gi);
        }
    }
    proof {
        lemma_lookup_after(d0, *d, n, Some(e));
        let m = put_node(tree_view(d0), n, entry_view(e));
        assert forall|q: Seq<Seq<u8>>| #[trigger] tree_view(*d).contains_key(q) == m.contains_key(q)
            && (m.contains_key(q) ==> tree_view(*d)[q] == m[q]) by {
            assert(lookup(*d, q) == if q.len() > 0 && q[0] == n {
                match e {
                    FsEntry::File(x) => if q.len() == 1 {
                        Some(Node::File(x@))
                    } else {
                        None
                    },
                    FsEntry::Dir(sub) => lookup(sub, q.drop_first()),
                }
            } else {
                lookup(d0, q)
            });
            if q.len() > 0 && q[0] == n {
                if let FsEntry::File(x) = e {
                    if q.len() == 1 {
                        assert(q.drop_first() =~= Seq::<Seq<u8>>::empty());
                    } else {
                        assert(q.drop_first() != Seq::<Seq<u8>>::empty()) by {
                            assert(q.drop_first().len() > 0);
                        }
                    }
                }
            }
        }
        assert(tree_view(*d) =~= m);
    }
}

fn deserialize_dir(data: &[u8], pos: &mut usize) -> (r: Option<Dir>)
    ensures
        match parse_dir(data@, *old(pos) as int) {
            None => r is None,
            Some((m, e)) => r matches Some(d) && dir_wf(d) && tree_view(d) == m && *final(pos) == e,
        },
    decreases data@.len() - *old(pos),
{
    let ghost pos0 = *pos as int;
    if *pos > data.len() || data.len() - *pos < 2 {
        return None;
    }
    let count: usize = data[*pos] as usize + 256 * (data[*pos + 1] as usize);
    *pos = *pos + 2;
    let mut d = Dir { entries: Vec::new() };
    proof {
        lemma_empty_dir_wf(d);
        assert forall|q: Seq<Seq<u8>>| #[trigger] tree_view(d).contains_key(q)
            == empty_dir_view().contains_key(q) && (empty_dir_view().contains_key(q)
            ==> tree_view(d)[q] == empty_dir_view()[q]) by {
            lemma_lookup_empty(d, q);
            if q.len() == 0 {
                assert(q =~= Seq::<Seq<u8>>::empty());
            }
        }
        assert(tree_view(d) =~= empty_dir_view());
    }
    let mut k: usize = count;
    while k > 0
        invariant
            dir_wf(d),
            *pos <= data@.len(),
            pos0 == *old(pos) as int,
            pos0 + 2 <= *pos,
            parse_dir(data@, pos0) == parse_items(data@, *pos as int, k as nat, tree_view(d)),
        decreases k,
    {
        let ghost acc = tree_view(d);
        let ghost p0 = *pos as int;
        if data.len() - *pos < 2 {
            assert(parse_items(data@, p0, k as nat, acc) is None);
            return None;
        }
        let kind = data[*pos];
        let nl = data[*pos + 1] as usize;
        *pos = *pos + 2;
        if data.len() - *pos < nl {
            assert(parse_items(data@, p0, k as nat, acc) is None);
            return None;
        }
        let name_slice = &data[*pos..*pos + nl];
        assert(name_slice@ =~= data@.subrange(p0 + 2, p0 + 2 + nl));
        if !utf8_valid(name_slice) {
            return None;
        }
        let name = copy_bytes(name_slice);
        *pos = *pos + nl;
        if kind == 0 {
            if data.len() - *pos < 4 {
                return None;
            }
            let l: u64 = data[*pos] as u64 + 256 * (data[*pos + 1] as u64) + 65536 * (data[*pos
                + 2] as u64) + 16777216 * (data[*pos + 3] as u64);
            *pos = *pos + 4;
            if ((data.len() - *pos) as u64) < l {
                return None;
            }
            let lu = l as usize;
            let body = &data[*pos..*pos + lu];
            let file = copy_bytes(body);
            assert(file@ =~= data@.subrange(*pos as int, *pos + lu));
            *pos = *pos + lu;
            dir_put(&mut d, name, FsEntry::File(file));
        } else if kind == 1 {
            let ghost p2 = *pos as int;
            proof {
                lemma_parse_dir_end(data@, p2);
            }
            match deserialize_dir(data, pos) {
                None => return None,
                Some(sub) => {
                    dir_put(&mut d, name, FsEntry::Dir(sub));
                },
            }
        } else {
            return None;
        }
        k = k - 1;
    }
    Some(d)
}

impl RamFs {
    /// Reads back an image made by `serialize`.
    pub fn load_from(data: &[u8]) -> (r: Option<RamFs>)
        ensures
            match parse_dir(data@, 0) {
                None => r is None,
                Some((m, _)) => r matches Some(fs) && fs.fs_wf() && fs.fs_view() == m,
            },
    {
        let mut pos: usize = 0;
        match deserialize_dir(data, &mut pos) {
            None => None,
            Some(root) => Some(RamFs { root }),
        }
    }
}


/// Every directory of the tree has fewer than 2^16 entries, every name at most
/// 255 bytes of UTF-8, every file fewer than 2^32 bytes.
pub open spec fn dir_fits(d: Dir) -> bool
    decreases d,
{
    &&& d.entries@.len() < 65536
    &&& forall|i: int|
        #![trigger d.entries@[i]]
        0 <= i < d.entries@.len() ==> {
            &&& d.entries@[i].name@.len() <= 255
            &&& valid_utf8(d.entries@[i].name@)
            &&& match d.entries@[i].entry {
                FsEntry::File(x) => x@.len() < 4294967296,
                FsEntry::Dir(sub) => dir_fits(sub),
            }
        }
}

pub open spec fn seq_view(s: Seq<DirItem>) -> FsView {
    Map::new(|p: Seq<Seq<u8>>| lookup_s(s, p) is Some, |p: Seq<Seq<u8>>| lookup_s(s, p).unwrap())
}

proof fn lemma_le16(c: nat)
    requires
        c < 65536,
    ensures
        ((c % 256) as u8) as nat + 256 * (((c / 256) % 256) as u8) as nat == c,
{
}

proof fn lemma_le32(c: nat)
    requires
        c < 4294967296,
    ensures
        ((c % 256) as u8) as nat + 256 * (((c / 256) % 256) as u8) as nat + 65536 * (((c / 65536)
            % 256) as u8) as nat + 16777216 * (((c / 16777216) % 256) as u8) as nat == c,
{
}

proof fn lemma_child_s_at(s: Seq<DirItem>, k: int)
    requires
        names_sorted(s),
        0 <= k < s.len(),
    ensures
        child_s(s, s[k].name@) == Some(s[k].entry),
{
    let n = s[k].name@;
    assert(s[k].name@ == n);
    let i = choose|i: int| 0 <= i < s.len() && #[trigger] s[i].name@ == n;
    lemma_lex_irreflexive(n);
    if i < k {
        assert(lex_lt(s[i].name@, s[k].name@));
    } else if i > k {
        assert(lex_lt(s[k].name@, s[i].name@));
    }
}

/// Adding an entry of a greater name at the end of a run of entries.
proof fn lemma_seq_view_push(t: Seq<DirItem>, item: DirItem)
    requires
        names_sorted(t.push(item)),
    ensures
        seq_view(t.push(item)) == put_node(seq_view(t), item.name@, entry_view(item.entry)),
{
    let t2 = t.push(item);
    let n = item.name@;
    assert(names_sorted(t)) by {
        assert forall|i: int, j: int| 0 <= i < j < t.len() implies lex_lt(#[trigger] t[i].name@, #[trigger] t[j].name@) by {
            assert(t2[i] == t[i] && t2[j] == t[j]);
        }
    }
    assert forall|m: Seq<u8>| #[trigger] child_s(t2, m) == if m == n {
        Some(item.entry)
    } else {
        child_s(t, m)
    } by {
        if m == n {
            assert(t2[t.len() as int] == item);
            lemma_child_s_at(t2, t.len() as int);
        } else {
            if exists|i: int| 0 <= i < t.len() && #[trigger] t[i].name@ == m {
                let i = choose|i: int| 0 <= i < t.len() && #[trigger] t[i].name@ == m;
                assert(t2[i] == t[i]);
                lemma_child_s_at(t, i);
                lemma_child_s_at(t2, i);
            } else if exists|j: int| 0 <= j < t2.len() && #[trigger] t2[j].name@ == m {
                let j = choose|j: int| 0 <= j < t2.len() && #[trigger] t2[j].name@ == m;
                assert(j < t.len());
                assert(t2[j] == t[j]);
            }
        }
    }
    let m = put_node(seq_view(t), n, entry_view(item.entry));
    assert forall|q: Seq<Seq<u8>>| #[trigger] seq_view(t2).contains_key(q) == m.contains_key(q)
        && (m.contains_key(q) ==> seq_view(t2)[q] == m[q]) by {
        if q.len() > 0 {
            assert(child_s(t2, q[0]) == if q[0] == n {
                Some(item.entry)
            } else {
                child_s(t, q[0])
            });
            if q[0] == n {
                if let FsEntry::File(x) = item.entry {
                    if q.len() == 1 {
                        assert(q.drop_first() =~= Seq::<Seq<u8>>::empty());
                    } else {
                        assert(q.drop_first().len() > 0);
                    }
                }
            }
        }
    }
    assert(seq_view(t2) =~= m);
}


#[verifier::rlimit(60)]
#[verifier::spinoff_prover]
proof fn lemma_roundtrip_dir(d: Dir, pre: Seq<u8>, post: Seq<u8>)
    requires
        dir_wf(d),
        dir_fits(d),
    ensures
        parse_dir(pre + ser_dir(d) + post, pre.len() as int) == Some(
            (tree_view(d), (pre.len() + ser_dir(d).len()) as int),
        ),
    decreases d, d.entries@.len() + 1,
{
    let s = d.entries@;
    let data = pre + ser_dir(d) + post;
    let pos = pre.len() as int;
    lemma_le16(s.len());
    assert(data[pos] == le16(s.len() % 65536)[0]);
    assert(data[pos + 1] == le16(s.len() % 65536)[1]);
    assert(rd16(data, pos) == s.len());
    let x = pre + le16(s.len() % 65536);
    assert(s.skip(0) =~= s);
    assert(data =~= x + ser_items(s.skip(0)) + post);
    assert(seq_view(s.take(0)) =~= empty_dir_view()) by {
        assert(s.take(0) =~= Seq::<DirItem>::empty());
        assert forall|q: Seq<Seq<u8>>| #[trigger] seq_view(s.take(0)).contains_key(q)
            == empty_dir_view().contains_key(q) by {
            if q.len() == 0 {
                assert(q =~= Seq::<Seq<u8>>::empty());
            }
        }
    }
    lemma_roundtrip_items(d, 0, x, post);
}

proof fn lemma_step_file(data: Seq<u8>, pos: int, k: nat, acc: FsView, name: Seq<u8>, f: Seq<u8>)
    requires
        k > 0,
        0 <= pos,
        name.len() <= 255,
        valid_utf8(name),
        f.len() < 4294967296,
        pos + 2 + name.len() + 4 + f.len() <= data.len(),
        data.subrange(pos, pos + 2 + name.len() + 4 + f.len()) == seq![0u8, name.len() as u8] + name
            + le32(f.len() % 4294967296) + f,
    ensures
        parse_items(data, pos, k, acc) == parse_items(
            data,
            pos + 2 + name.len() + 4 + f.len(),
            (k - 1) as nat,
            put_node(acc, name, file_view(f)),
        ),
{
    let head = seq![0u8, name.len() as u8] + name + le32(f.len() % 4294967296) + f;
    let nl = name.len() as int;
    let p1 = pos + 2;
    let p2 = p1 + nl;
    assert(data[pos] == head[0]);
    assert(data[pos + 1] == head[1]);
    assert(data.subrange(p1, p2) =~= name) by {
        assert forall|j: int| 0 <= j < nl implies data.subrange(p1, p2)[j] == name[j] by {
            assert(data[p1 + j] == head[2 + j]);
        }
    }
    lemma_le32(f.len());
    assert(data[p2] == head[2 + nl]);
    assert(data[p2 + 1] == head[3 + nl]);
    assert(data[p2 + 2] == head[4 + nl]);
    assert(data[p2 + 3] == head[5 + nl]);
    assert(rd32(data, p2) == f.len());
    let p3 = p2 + 4;
    assert(data.subrange(p3, p3 + f.len()) =~= f) by {
        assert forall|j: int| 0 <= j < f.len() implies data.subrange(p3, p3 + f.len())[j] == f[j] by {
            assert(data[p3 + j] == head[6 + nl + j]);
        }
    }
}

proof fn lemma_step_dir(data: Seq<u8>, pos: int, k: nat, acc: FsView, name: Seq<u8>, sub: FsView, end: int)
    requires
        k > 0,
        0 <= pos,
        name.len() <= 255,
        valid_utf8(name),
        pos + 2 + name.len() <= data.len(),
        data.subrange(pos, pos + 2 + name.len()) == seq![1u8, name.len() as u8] + name,
        parse_dir(data, pos + 2 + name.len()) == Some((sub, end)),
        pos + 2 + name.len() < end <= data.len(),
    ensures
        parse_items(data, pos, k, acc) == parse_items(data, end, (k - 1) as nat, put_node(acc, name, sub)),
{
    let head = seq![1u8, name.len() as u8] + name;
    let nl = name.len() as int;
    let p1 = pos + 2;
    let p2 = p1 + nl;
    assert(data[pos] == head[0]);
    assert(data[pos + 1] == head[1]);
    assert(data.subrange(p1, p2) =~= name) by {
        assert forall|j: int| 0 <= j < nl implies data.subrange(p1, p2)[j] == name[j] by {
            assert(data[p1 + j] == head[2 + j]);
        }
    }
}

proof fn lemma_sorted_take(s: Seq<DirItem>, i: int)
    requires
        names_sorted(s),
        0 <= i <= s.len(),
    ensures
        names_sorted(s.take(i)),
{
    assert forall|a: int, b: int| 0 <= a < b < s.take(i).len() implies lex_lt(
        #[trigger] s.take(i)[a].name@,
        #[trigger] s.take(i)[b].name@,
    ) by {
        assert(s.take(i)[a] == s[a] && s.take(i)[b] == s[b]);
    }
}

#[verifier::rlimit(100)]
#[verifier::spinoff_prover]
proof fn lemma_roundtrip_items(d: Dir, i: int, x: Seq<u8>, post: Seq<u8>)
    requires
        dir_wf(d),
        dir_fits(d),
        0 <= i <= d.entries@.len(),
    ensures
        parse_items(
            x + ser_items(d.entries@.skip(i)) + post,
            x.len() as int,
            (d.entries@.len() - i) as nat,
            seq_view(d.entries@.take(i)),
        ) == Some((tree_view(d), (x.len() + ser_items(d.entries@.skip(i)).len()) as int)),
    decreases d, d.entries@.len() - i,
{
    let s = d.entries@;
    if i == s.len() {
        assert(s.take(i) =~= s);
        assert(seq_view(s) =~= tree_view(d));
        assert(s.skip(i) =~= Seq::<DirItem>::empty());
        assert(x + ser_items(s.skip(i)) + post =~= x + post);
    } else {
        let it = s[i];
        let rest = s.skip(i + 1);
        assert(s.skip(i)[0] == it);
        assert(s.skip(i).drop_first() =~= rest);
        let name = it.name@;
        assert(name.len() <= 255 && valid_utf8(name));
        assert(stored_name(name) == name);
        lemma_sorted_take(s, i + 1);
        assert(s.take(i).push(it) =~= s.take(i + 1));
        lemma_seq_view_push(s.take(i), it);
        let pos = x.len() as int;
        let k = (s.len() - i) as nat;
        let acc = seq_view(s.take(i));
        match it.entry {
            FsEntry::File(f) => {
                let head = seq![0u8, name.len() as u8] + name + le32(f@.len() % 4294967296) + f@;
                assert(ser_items(s.skip(i)) == head + ser_items(rest));
                let data = x + ser_items(s.skip(i)) + post;
                assert(data =~= (x + head) + ser_items(rest) + post);
                assert(data.subrange(pos, pos + head.len()) =~= head);
                lemma_step_file(data, pos, k, acc, name, f@);
                lemma_roundtrip_items(d, i + 1, x + head, post);
            },
            FsEntry::Dir(sub) => {
                let head = seq![1u8, name.len() as u8] + name + ser_dir(sub);
                assert(ser_items(s.skip(i)) == head + ser_items(rest));
                let data = x + ser_items(s.skip(i)) + post;
                let h1 = seq![1u8, name.len() as u8] + name;
                let pre2 = x + h1;
                let post2 = ser_items(rest) + post;
                assert(data =~= pre2 + ser_dir(sub) + post2);
                assert(data =~= (x + head) + ser_items(rest) + post);
                assert(data.subrange(pos, pos + h1.len()) =~= h1);
                assert(dir_wf(sub));
                assert(dir_fits(sub));
                lemma_roundtrip_dir(sub, pre2, post2);
                assert(ser_dir(sub).len() >= 2);
                lemma_step_dir(
                    data,
                    pos,
                    k,
                    acc,
                    name,
                    tree_view(sub),
                    (pre2.len() + ser_dir(sub).len()) as int,
                );
                lemma_roundtrip_items(d, i + 1, x + head, post);
            },
        }
    }
}


proof fn lemma_dir_at_compose(d: Dir, p: Seq<Seq<u8>>, r: Seq<Seq<u8>>)
    requires
        dir_at(d, p) is Some,
    ensures
        dir_at(d, p + r) == dir_at(dir_at(d, p).unwrap(), r),
    decreases p.len(),
{
    if p.len() > 0 {
        assert((p + r)[0] == p[0]);
        assert((p + r).drop_first() =~= p.drop_first() + r);
        if let Some(FsEntry::Dir(sub)) = child(d, p[0]) {
            lemma_dir_at_compose(sub, p.drop_first(), r);
        }
    } else {
        assert(p + r =~= r);
    }
}

proof fn lemma_names_of(root: Dir, p: Seq<Seq<u8>>, t: Dir)
    requires
        dir_at(root, p) == Some(t),
        dir_wf(t),
    ensures
        names_of_children(tree_view(root), p, t.entries@.map_values(|it: DirItem| it.name@)),
{
    let v = tree_view(root);
    let ns = t.entries@.map_values(|it: DirItem| it.name@);
    assert forall|j: int| 0 <= j < ns.len() implies v.contains_key(p.push(#[trigger] ns[j])) by {
        lemma_child_at(t, j);
        lemma_view_child(root, p, t, t.entries@[j].name@);
    }
    assert forall|m: Seq<u8>| #[trigger] v.contains_key(p.push(m)) implies ns.contains(m) by {
        lemma_view_child(root, p, t, m);
        let j = child_index(t, m);
        assert(ns[j] == m);
    }
    assert forall|a: int, b: int| 0 <= a < b < ns.len() implies lex_lt(#[trigger] ns[a], #[trigger] ns[b]) by {
        assert(t.entries@[a].name@ == ns[a]);
        assert(t.entries@[b].name@ == ns[b]);
    }
}

proof fn lemma_fits(root: Dir, p: Seq<Seq<u8>>, t: Dir)
    requires
        dir_wf(root),
        dir_at(root, p) == Some(t),
        fits_image(tree_view(root)),
    ensures
        dir_fits(t),
    decreases t,
{
    let v = tree_view(root);
    lemma_dir_at_wf(root, p);
    lemma_view_dir(root, p);
    lemma_names_of(root, p, t);
    let ns = t.entries@.map_values(|it: DirItem| it.name@);
    assert(names_of_children(v, p, ns));
    assert(ns.len() < 65536);
    assert forall|i: int|
        #![trigger t.entries@[i]]
        0 <= i < t.entries@.len() implies {
            &&& t.entries@[i].name@.len() <= 255
            &&& valid_utf8(t.entries@[i].name@)
            &&& match t.entries@[i].entry {
                FsEntry::File(x) => x@.len() < 4294967296,
                FsEntry::Dir(sub) => dir_fits(sub),
            }
        } by {
        let n = t.entries@[i].name@;
        lemma_child_at(t, i);
        lemma_view_child(root, p, t, n);
        assert(v.contains_key(p.push(n)));
        assert(p.push(n).last() == n);
        match t.entries@[i].entry {
            FsEntry::File(x) => {
                assert(v[p.push(n)] is File);
            },
            FsEntry::Dir(sub) => {
                lemma_dir_at_compose(root, p, seq![n]);
                assert(p + seq![n] =~= p.push(n));
                assert(seq![n][0] == n);
                assert(seq![n].drop_first() =~= Seq::<Seq<u8>>::empty());
                assert(child(t, n) == Some(FsEntry::Dir(sub)));
                assert(dir_at(sub, seq![n].drop_first()) == Some(sub));
                assert(dir_at(t, seq![n]) == Some(sub));
                assert(dir_at(root, p.push(n)) == Some(sub));
                lemma_fits(root, p.push(n), sub);
            },
        }
    }
}

/// A file system that fits its image reads back from it as the same file system:
/// `load_from(&fs.serialize())` gives back `fs`'s view.
pub proof fn law_image_round_trip(fs: &RamFs)
    requires
        fs.fs_wf(),
        fits_image(fs.fs_view()),
    ensures
        parse_dir(fs.image(), 0) == Some((fs.fs_view(), fs.image().len() as int)),
{
    let e = Seq::<u8>::empty();
    lemma_fits(fs.root, Seq::empty(), fs.root);
    lemma_roundtrip_dir(fs.root, e, e);
    assert(e + ser_dir(fs.root) + e =~= ser_dir(fs.root));
}

} // verus!

