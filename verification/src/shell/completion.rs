//! Tab completion: of command names for the first word, of names in the
//! working directory after it.
use vstd::prelude::*;
use crate::text::{last_index, rfind_byte, starts_with, starts_with_bytes, copy_bytes, views};
use crate::fs::{FileSystem, FsView, is_dir_in, names_of_children};
use crate::fs::ramfs::{RamFs, path_view};
use crate::shell::commands::{command_names, command_table};

verus! {

/// The names in `ns` that start with `p`, in order.
pub open spec fn prefixed(ns: Seq<Seq<u8>>, p: Seq<u8>) -> Seq<Seq<u8>>
    decreases ns.len(),
{
    if ns.len() == 0 {
        Seq::empty()
    } else {
        let r = prefixed(ns.drop_last(), p);
        if starts_with(ns.last(), p) {
            r.push(ns.last())
        } else {
            r
        }
    }
}

/// Every candidate starts with the word being completed, and comes from the names.
pub proof fn lemma_prefixed_starts(ns: Seq<Seq<u8>>, p: Seq<u8>)
    ensures
        forall|i: int| 0 <= i < prefixed(ns, p).len() ==> starts_with(#[trigger] prefixed(ns, p)[i], p),
        prefixed(ns, p).len() <= ns.len(),
    decreases ns.len(),
{
    if ns.len() > 0 {
        lemma_prefixed_starts(ns.drop_last(), p);
    }
}

/// The command names as bytes, in table order.
pub open spec fn command_name_bytes() -> Seq<Seq<u8>> {
    Seq::new(command_table().len(), |i: int| vstd::utf8::encode_utf8(command_table()[i].0))
}

/// Completion of `input`: where the word being completed starts, and the candidates.
/// After the last space they are the names in the working directory that start with
/// the word; with no space, the command names that start with the input.
pub open spec fn completion(input: Seq<u8>, cwd: Seq<Seq<u8>>, v: FsView, start: nat, ms: Seq<Seq<u8>>) -> bool {
    match last_index(input, 32) {
        Some(p) => {
            &&& start == p + 1
            &&& is_dir_in(v, cwd) ==> exists|ns: Seq<Seq<u8>>|
                names_of_children(v, cwd, ns) && ms == prefixed(ns, input.skip(p + 1))
            &&& !is_dir_in(v, cwd) ==> ms.len() == 0
        },
        None => start == 0 && ms == prefixed(command_name_bytes(), input),
    }
}

fn filter_prefixed(ns: &Vec<Vec<u8>>, p: &[u8]) -> (r: Vec<Vec<u8>>)
    ensures
        views(r@) == prefixed(views(ns@), p@),
{
    let ghost all = views(ns@);
    let mut out: Vec<Vec<u8>> = Vec::new();
    let mut i: usize = 0;
    while i < ns.len()
        invariant
            i <= ns@.len(),
            all == views(ns@),
            views(out@) == prefixed(all.take(i as int), p@),
        decreases ns@.len() - i,
    {
        proof {
            let t = all.take(i + 1);
            assert(t.drop_last() =~= all.take(i as int));
            assert(t.last() == ns@[i as int]@);
        }
        if starts_with_bytes(ns[i].as_slice(), p) {
            let ghost before = views(out@);
            out.push(copy_bytes(ns[i].as_slice()));
            assert(views(out@) =~= before.push(ns@[i as int]@));
        }
        i = i + 1;
    }
    assert(all.take(i as int) =~= all);
    out
}

pub fn tab_complete(input: &[u8], cwd: &Vec<Vec<u8>>, fs: &RamFs) -> (r: (usize, Vec<Vec<u8>>))
    requires
        fs.fs_wf(),
    ensures
        completion(input@, path_view(cwd@), fs.fs_view(), r.0 as nat, views(r.1@)),
        r.0 <= input@.len(),
{
    match rfind_byte(input, 32) {
        Some(space) => {
            let start = space + 1;
            let partial = &input[start..input.len()];
            let names = fs.names(cwd.as_slice());
            proof {
                assert(partial@ =~= input@.skip(start as int));
                assert(names@.map_values(|n: Vec<u8>| n@) =~= views(names@));
            }
            let ms = filter_prefixed(&names, partial);
            proof {
                if !is_dir_in(fs.fs_view(), path_view(cwd@)) {
                    assert(views(names@).len() == 0);
                    assert(views(names@) =~= Seq::<Seq<u8>>::empty());
                    assert(prefixed(views(names@), partial@) =~= Seq::<Seq<u8>>::empty());
                }
            }
            (start, ms)
        },
        None => {
            let t = command_names();
            let mut ns: Vec<Vec<u8>> = Vec::new();
            let mut i: usize = 0;
            while i < t.len()
                invariant
                    i <= t@.len(),
                    t@.len() == command_table().len(),
                    forall|k: int| 0 <= k < t@.len() ==> (#[trigger] t@[k]).name@ == command_table()[k].0,
                    views(ns@) == command_name_bytes().take(i as int),
                decreases t@.len() - i,
            {
                let ghost before = views(ns@);
                let nb = t[i].name.as_bytes();
                assert(nb@ == vstd::utf8::encode_utf8(command_table()[i as int].0));
                ns.push(copy_bytes(nb));
                assert(views(ns@) =~= before.push(command_name_bytes()[i as int]));
                assert(views(ns@) =~= command_name_bytes().take(i + 1));
                i = i + 1;
            }
            assert(command_name_bytes().take(i as int) =~= command_name_bytes());
            let ms = filter_prefixed(&ns, input);
            (0, ms)
        },
    }
}

/// `a` and `b` agree on their first `n` bytes.
pub open spec fn agree(a: Seq<u8>, b: Seq<u8>, n: int) -> bool {
    0 <= n <= a.len() && n <= b.len() && forall|i: int| 0 <= i < n ==> a[i] == b[i]
}

/// `n` is the length of the longest prefix that all of `ss` share.
pub open spec fn is_common_prefix_len(ss: Seq<Seq<u8>>, n: int) -> bool {
    &&& forall|k: int| 0 <= k < ss.len() ==> agree(ss[0], #[trigger] ss[k], n)
    &&& exists|k: int| 0 <= k < ss.len() && (n == (#[trigger] ss[k]).len() || n == ss[0].len() || ss[k][n] != ss[0][n])
}

/// The longest prefix that all of `strings` share; empty for no strings.
pub fn common_prefix(strings: &Vec<Vec<u8>>) -> (r: Vec<u8>)
    ensures
        strings@.len() == 0 ==> r@.len() == 0,
        strings@.len() > 0 ==> is_common_prefix_len(views(strings@), r@.len() as int) && r@ == strings@[0]@.take(
            r@.len() as int,
        ),
{
    if strings.len() == 0 {
        return Vec::new();
    }
    let ghost ss = views(strings@);
    let first = strings[0].as_slice();
    let mut len = first.len();
    let mut k: usize = 1;
    proof {
        assert(ss[0] == first@);
        assert(agree(ss[0], ss[0], len as int));
    }
    while k < strings.len()
        invariant
            1 <= k <= strings@.len(),
            ss == views(strings@),
            ss[0] == first@,
            len <= first@.len(),
            forall|j: int| 0 <= j < k ==> agree(ss[0], #[trigger] ss[j], len as int),
            exists|j: int| 0 <= j < k && (len == (#[trigger] ss[j]).len() || len == ss[0].len() || ss[j][len as int] != ss[0][len as int]),
        decreases strings@.len() - k,
    {
        let s = strings[k].as_slice();
        assert(ss[k as int] == s@);
        let mut i: usize = 0;
        while i < len && i < s.len() && first[i] == s[i]
            invariant
                i <= len <= first@.len(),
                i <= s@.len(),
                forall|m: int| 0 <= m < i ==> first@[m] == s@[m],
            decreases len - i,
        {
            i = i + 1;
        }
        proof {
            if i < len {
                assert(i == s@.len() || first@[i as int] != s@[i as int]);
                assert forall|j: int| 0 <= j <= k implies agree(ss[0], #[trigger] ss[j], i as int) by {
                    if j < k {
                        assert(agree(ss[0], ss[j], len as int));
                    }
                }
            } else {
                assert forall|j: int| 0 <= j <= k implies agree(ss[0], #[trigger] ss[j], i as int) by {
                    if j < k {
                        assert(agree(ss[0], ss[j], len as int));
                    }
                }
                let w = choose|j: int| 0 <= j < k && (len == (#[trigger] ss[j]).len() || len == ss[0].len() || ss[j][len as int] != ss[0][len as int]);
                assert(0 <= w < k + 1);
            }
        }
        len = i;
        k = k + 1;
    }
    let mut out: Vec<u8> = Vec::new();
    let mut i: usize = 0;
    while i < len
        invariant
            i <= len <= first@.len(),
            out@ == first@.take(i as int),
        decreases len - i,
    {
        out.push(first[i]);
        assert(out@ =~= first@.take(i + 1));
        i = i + 1;
    }
    out
}

} // verus!
