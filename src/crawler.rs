//! The decisions of a depth-first crawl over a tree of directories. The
//! caller lists each directory that the crawler hands out and reports what
//! it found; the crawler keeps the directories still to visit and the files
//! found so far.

use vstd::prelude::*;

verus! {

/// Crawls a directory tree, depth first, with an explicit stack.
pub struct FileSystemCrawler {
    root: String,
    pending: Vec<String>,
    files: Vec<String>,
}

impl FileSystemCrawler {
    /// The directory the crawl starts from.
    pub closed spec fn root_view(&self) -> Seq<char> {
        self.root@
    }

    /// The directories still to list; the last is listed next.
    pub closed spec fn pending_view(&self) -> Seq<Seq<char>> {
        self.pending@.map_values(|s: String| s@)
    }

    /// The files found so far, in the order found.
    pub closed spec fn files_view(&self) -> Seq<Seq<char>> {
        self.files@.map_values(|s: String| s@)
    }

    /// Creates a crawl of the tree under `root`: the root is the one
    /// directory to list, and no file is found yet.
    pub fn new(root: &str) -> (r: FileSystemCrawler)
        ensures
            r.root_view() == root@,
            r.pending_view() == seq![root@],
            r.files_view() == Seq::<Seq<char>>::empty(),
    {
        let mut pending: Vec<String> = Vec::new();
        pending.push(root.to_owned());
        let r = FileSystemCrawler { root: root.to_owned(), pending, files: Vec::new() };
        assert(r.pending_view() =~= seq![root@]);
        assert(r.files_view() =~= Seq::<Seq<char>>::empty());
        r
    }

    /// The directory the crawl starts from.
    pub fn root(&self) -> (r: &str)
        ensures
            r@ == self.root_view(),
    {
        self.root.as_str()
    }

    /// Takes the next directory to list: the one added last. `None` when the
    /// crawl is done.
    pub fn next_dir(&mut self) -> (r: Option<String>)
        ensures
            final(self).root_view() == old(self).root_view(),
            final(self).files_view() == old(self).files_view(),
            old(self).pending_view().len() == 0 ==> r is None && final(self).pending_view()
                == old(self).pending_view(),
            old(self).pending_view().len() > 0 ==> r is Some && r->0@ == old(
                self,
            ).pending_view().last() && final(self).pending_view() == old(
                self,
            ).pending_view().drop_last(),
    {
        let r = self.pending.pop();
        assert(self.pending_view() =~= old(self).pending_view().subrange(
            0,
            self.pending@.len() as int,
        ));
        r
    }

    /// Records one entry of a listed directory: a directory is to be listed
    /// in turn, anything else is a file.
    pub fn visit(&mut self, path: String, is_dir: bool)
        ensures
            final(self).root_view() == old(self).root_view(),
            is_dir ==> final(self).pending_view() == old(self).pending_view().push(path@)
                && final(self).files_view() == old(self).files_view(),
            !is_dir ==> final(self).files_view() == old(self).files_view().push(path@)
                && final(self).pending_view() == old(self).pending_view(),
    {
        let ghost p = path@;
        if is_dir {
            self.pending.push(path);
            assert(self.pending_view() =~= old(self).pending_view().push(p));
        } else {
            self.files.push(path);
            assert(self.files_view() =~= old(self).files_view().push(p));
        }
    }

    /// The files found so far, in the order found.
    pub fn files(&self) -> (r: &Vec<String>)
        ensures
            r@.map_values(|s: String| s@) == self.files_view(),
    {
        &self.files
    }
}

} // verus!
