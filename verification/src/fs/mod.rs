pub mod fat;
pub mod ramfs;

use vstd::prelude::*;
use vstd::string::StringSliceAdditionalSpecFns;
use crate::text::lex_lt;
use vstd::utf8::valid_utf8;
use ramfs::Node;

verus! {

/// One entry of a directory listing.
pub struct DirEntry {
    pub name: Vec<u8>,
    pub is_dir: bool,
    pub size: usize,
}

/// How a removal ended.
#[derive(PartialEq, Eq, Structural, Clone, Copy, Debug)]
pub enum RemoveResult {
    Removed,
    NotFound,
    DirNotEmpty,
}

/// The file system as a map from paths (sequences of names) to what lies there.
/// The empty path is the root directory.
pub type FsView = Map<Seq<Seq<u8>>, Node>;

pub open spec fn is_dir_in(v: FsView, p: Seq<Seq<u8>>) -> bool {
    v.contains_key(p) && v[p] == Node::Dir
}

pub open spec fn is_file_in(v: FsView, p: Seq<Seq<u8>>) -> bool {
    v.contains_key(p) && v[p] is File
}

/// The size shown for a node: a file's length, 0 for a directory.
pub open spec fn node_size(n: Node) -> nat {
    match n {
        Node::File(x) => x.len(),
        Node::Dir => 0,
    }
}

/// A directory holds something below it.
pub open spec fn has_children_in(v: FsView, p: Seq<Seq<u8>>) -> bool {
    exists|m: Seq<u8>| #[trigger] v.contains_key(p.push(m))
}

/// `ns` is the names of the children of `p`, each once, in increasing order.
pub open spec fn names_of_children(v: FsView, p: Seq<Seq<u8>>, ns: Seq<Seq<u8>>) -> bool {
    &&& forall|i: int, j: int| 0 <= i < j < ns.len() ==> lex_lt(#[trigger] ns[i], #[trigger] ns[j])
    &&& forall|i: int| 0 <= i < ns.len() ==> v.contains_key(p.push(#[trigger] ns[i]))
    &&& forall|m: Seq<u8>| #[trigger] v.contains_key(p.push(m)) ==> ns.contains(m)
}

/// `es` lists the children of `p` in name order, with their kind and size.
pub open spec fn listing_of(v: FsView, p: Seq<Seq<u8>>, es: Seq<DirEntry>) -> bool {
    &&& names_of_children(v, p, es.map_values(|e: DirEntry| e.name@))
    &&& forall|i: int|
        #![trigger es[i]]
        0 <= i < es.len() ==> {
            &&& es[i].is_dir == (v[p.push(es[i].name@)] == Node::Dir)
            &&& es[i].size == node_size(v[p.push(es[i].name@)])
        }
}

/// The file system fits its byte image: names of at most 255 bytes of UTF-8,
/// files of fewer than 2^32 bytes, fewer than 2^16 entries in a directory.
pub open spec fn fits_image(v: FsView) -> bool {
    &&& forall|p: Seq<Seq<u8>>| #[trigger] v.contains_key(p) && p.len() > 0 ==> p.last().len() <= 255
        && valid_utf8(p.last())
    &&& forall|p: Seq<Seq<u8>>| #[trigger] v.contains_key(p) && v[p] is File ==> node_size(v[p])
        < 4294967296
    &&& forall|p: Seq<Seq<u8>>, ns: Seq<Seq<u8>>|
        is_dir_in(v, p) && #[trigger] names_of_children(v, p, ns) ==> ns.len() < 65536
}

/// The operations of a hierarchical file system, over paths given as names.
pub trait FileSystem {
    spec fn fs_wf(&self) -> bool;

    spec fn fs_view(&self) -> FsView;

    /// The entries of the directory at `path`, or `None` where there is none.
    fn list(&self, path: &[Vec<u8>]) -> (r: Option<Vec<DirEntry>>)
        requires
            self.fs_wf(),
        ensures
            r is Some == is_dir_in(self.fs_view(), ramfs::path_view(path@)),
            r matches Some(es) ==> listing_of(self.fs_view(), ramfs::path_view(path@), es@),
    ;

    /// The contents of the file `name` in the directory at `path`.
    fn read(&self, path: &[Vec<u8>], name: &[u8]) -> (r: Option<&[u8]>)
        requires
            self.fs_wf(),
        ensures
            r is Some == is_file_in(self.fs_view(), ramfs::path_view(path@).push(name@)),
            r matches Some(s) ==> self.fs_view()[ramfs::path_view(path@).push(name@)]
                == Node::File(s@),
    ;

    /// Writes a file, replacing any file of that name; refused where `path` is no
    /// directory or `name` is a directory.
    fn write(&mut self, path: &[Vec<u8>], name: &[u8], data: &[u8]) -> (r: bool)
        requires
            old(self).fs_wf(),
        ensures
            final(self).fs_wf(),
            r == (is_dir_in(old(self).fs_view(), ramfs::path_view(path@)) && !is_dir_in(
                old(self).fs_view(),
                ramfs::path_view(path@).push(name@),
            )),
            r ==> final(self).fs_view() == old(self).fs_view().insert(
                ramfs::path_view(path@).push(name@),
                Node::File(data@),
            ),
            !r ==> final(self).fs_view() == old(self).fs_view(),
    ;

    /// Creates an empty file; refused where `path` is no directory or `name` exists.
    fn create(&mut self, path: &[Vec<u8>], name: &[u8]) -> (r: bool)
        requires
            old(self).fs_wf(),
        ensures
            final(self).fs_wf(),
            r == (is_dir_in(old(self).fs_view(), ramfs::path_view(path@))
                && !old(self).fs_view().contains_key(ramfs::path_view(path@).push(name@))),
            r ==> final(self).fs_view() == old(self).fs_view().insert(
                ramfs::path_view(path@).push(name@),
                Node::File(Seq::empty()),
            ),
            !r ==> final(self).fs_view() == old(self).fs_view(),
    ;

    /// Removes a file or an empty directory.
    fn remove(&mut self, path: &[Vec<u8>], name: &[u8]) -> (r: RemoveResult)
        requires
            old(self).fs_wf(),
        ensures
            final(self).fs_wf(),
            (r == RemoveResult::NotFound) == !old(self).fs_view().contains_key(
                ramfs::path_view(path@).push(name@),
            ),
            (r == RemoveResult::DirNotEmpty) == (is_dir_in(
                old(self).fs_view(),
                ramfs::path_view(path@).push(name@),
            ) && has_children_in(old(self).fs_view(), ramfs::path_view(path@).push(name@))),
            r == RemoveResult::Removed ==> final(self).fs_view() == old(self).fs_view().remove(
                ramfs::path_view(path@).push(name@),
            ),
            r != RemoveResult::Removed ==> final(self).fs_view() == old(self).fs_view(),
    ;

    /// Creates an empty directory; refused where `path` is no directory or `name` exists.
    fn mkdir(&mut self, path: &[Vec<u8>], name: &[u8]) -> (r: bool)
        requires
            old(self).fs_wf(),
        ensures
            final(self).fs_wf(),
            r == (is_dir_in(old(self).fs_view(), ramfs::path_view(path@))
                && !old(self).fs_view().contains_key(ramfs::path_view(path@).push(name@))),
            r ==> final(self).fs_view() == old(self).fs_view().insert(
                ramfs::path_view(path@).push(name@),
                Node::Dir,
            ),
            !r ==> final(self).fs_view() == old(self).fs_view(),
    ;

    fn entry_exists(&self, path: &[Vec<u8>], name: &[u8]) -> (r: bool)
        requires
            self.fs_wf(),
        ensures
            r == self.fs_view().contains_key(ramfs::path_view(path@).push(name@)),
    ;

    fn is_dir(&self, path: &[Vec<u8>], name: &[u8]) -> (r: bool)
        requires
            self.fs_wf(),
        ensures
            r == is_dir_in(self.fs_view(), ramfs::path_view(path@).push(name@)),
    ;

    /// The names in the directory at `path`, in order; empty where there is none.
    fn names(&self, path: &[Vec<u8>]) -> (r: Vec<Vec<u8>>)
        requires
            self.fs_wf(),
        ensures
            is_dir_in(self.fs_view(), ramfs::path_view(path@)) ==> names_of_children(
                self.fs_view(),
                ramfs::path_view(path@),
                r@.map_values(|n: Vec<u8>| n@),
            ),
            !is_dir_in(self.fs_view(), ramfs::path_view(path@)) ==> r@.len() == 0,
    ;
}


/// After a write, reading the file gives the data written, and every other
/// path is as it was.
pub proof fn law_read_after_write(v: FsView, p: Seq<Seq<u8>>, name: Seq<u8>, data: Seq<u8>)
    ensures
        is_file_in(v.insert(p.push(name), Node::File(data)), p.push(name)),
        v.insert(p.push(name), Node::File(data))[p.push(name)] == Node::File(data),
        forall|q: Seq<Seq<u8>>| q != p.push(name) ==> (#[trigger] v.insert(p.push(name), Node::File(data)).contains_key(q))
            == v.contains_key(q),
{
}

/// Creating a file and removing it gives back the file system it started from.
pub proof fn law_create_then_remove(v: FsView, p: Seq<Seq<u8>>, name: Seq<u8>)
    requires
        !v.contains_key(p.push(name)),
    ensures
        v.insert(p.push(name), Node::File(Seq::empty())).remove(p.push(name)) == v,
{
    assert(v.insert(p.push(name), Node::File(Seq::empty())).remove(p.push(name)) =~= v);
}

/// A directory made with `mkdir` is a directory.
pub proof fn law_mkdir_is_dir(v: FsView, p: Seq<Seq<u8>>, name: Seq<u8>)
    ensures
        is_dir_in(v.insert(p.push(name), Node::Dir), p.push(name)),
{
}

/// The view after `write(p, n, d)`: the file is stored where `p` is a
/// directory and `p/n` is none.
pub open spec fn written(v: FsView, p: Seq<Seq<u8>>, n: Seq<u8>, d: Seq<u8>) -> FsView {
    if is_dir_in(v, p) && !is_dir_in(v, p.push(n)) {
        v.insert(p.push(n), Node::File(d))
    } else {
        v
    }
}

/// The view after `mkdir(p, n)`: the directory is made where `p` is a
/// directory and nothing is at `p/n`.
pub open spec fn made_dir(v: FsView, p: Seq<Seq<u8>>, n: Seq<u8>) -> FsView {
    if is_dir_in(v, p) && !v.contains_key(p.push(n)) {
        v.insert(p.push(n), Node::Dir)
    } else {
        v
    }
}

pub open spec fn readme_text() -> Seq<u8> {
    "Witaj w PolarOs v0.1.0!\nTo jest prosty system operacyjny napisany w Rust.\nUzyj 'help' aby zobaczyc dostepne komendy.".spec_bytes()
}

pub open spec fn version_text() -> Seq<u8> {
    "PolarOs v0.1.0\nArchitektura: x86_64\nJezyk: Rust".spec_bytes()
}

/// The view after the sample files are written into `v`.
pub open spec fn seeded(v: FsView) -> FsView {
    let e = Seq::<Seq<u8>>::empty();
    let v1 = written(v, e, "readme.txt".spec_bytes(), readme_text());
    let v2 = written(v1, e, "hello.txt".spec_bytes(), "Hello, World!".spec_bytes());
    let v3 = written(v2, e, "version.txt".spec_bytes(), version_text());
    let v4 = made_dir(v3, e, "docs".spec_bytes());
    written(v4, seq!["docs".spec_bytes()], "info.txt".spec_bytes(), "Katalog z dokumentacja systemu.".spec_bytes())
}

/// Writes the sample files the system starts with: three files in the root,
/// and `info.txt` in a new directory `docs`.
pub fn init(fs: &mut ramfs::RamFs)
    requires
        old(fs).fs_wf(),
    ensures
        final(fs).fs_wf(),
        final(fs).fs_view() == seeded(old(fs).fs_view()),
{
    let root: Vec<Vec<u8>> = Vec::new();
    proof {
        assert(ramfs::path_view(root@) =~= Seq::<Seq<u8>>::empty());
    }
    fs.write(&root, "readme.txt".as_bytes(), "Witaj w PolarOs v0.1.0!\nTo jest prosty system operacyjny napisany w Rust.\nUzyj 'help' aby zobaczyc dostepne komendy.".as_bytes());
    fs.write(&root, "hello.txt".as_bytes(), "Hello, World!".as_bytes());
    fs.write(&root, "version.txt".as_bytes(), "PolarOs v0.1.0\nArchitektura: x86_64\nJezyk: Rust".as_bytes());
    fs.mkdir(&root, "docs".as_bytes());
    let mut docs: Vec<Vec<u8>> = Vec::new();
    docs.push(crate::text::copy_bytes("docs".as_bytes()));
    proof {
        assert(ramfs::path_view(docs@) =~= seq!["docs".spec_bytes()]);
    }
    fs.write(&docs, "info.txt".as_bytes(), "Katalog z dokumentacja systemu.".as_bytes());
}

} // verus!
