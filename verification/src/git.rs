//! Plain-value handles for what the version control system provides:
//! revision hashes and checkouts.
use vstd::prelude::*;

verus! {

/// A content-addressed identifier of a revision: the hash of a commit, or
/// that of a tree where results are cached by tree.
#[derive(Debug)]
pub struct CommitHash {
    hex: String,
}

impl View for CommitHash {
    type V = Seq<char>;

    closed spec fn view(&self) -> Seq<char> {
        self.hex@
    }
}

impl CommitHash {
    pub fn new(hex: String) -> (h: CommitHash)
        ensures
            h@ == hex@,
    {
        CommitHash { hex }
    }

    /// The text of the hash.
    pub fn as_str(&self) -> (s: &str)
        ensures
            s@ == self@,
    {
        self.hex.as_str()
    }

    /// Whether both hashes have the same text.
    pub fn same(&self, other: &CommitHash) -> (b: bool)
        ensures
            b == (self@ == other@),
    {
        self.hex == other.hex
    }
}

impl Clone for CommitHash {
    fn clone(&self) -> (h: CommitHash)
        ensures
            h@ == self@,
    {
        CommitHash { hex: self.hex.clone() }
    }
}

/// A handle for an ephemeral checkout: the directory it lives in. The
/// directory itself is created and removed by whoever hands out the handle.
#[derive(Debug)]
pub struct TempWorktree {
    path: String,
}

impl View for TempWorktree {
    type V = Seq<char>;

    closed spec fn view(&self) -> Seq<char> {
        self.path@
    }
}

impl TempWorktree {
    pub fn new(path: String) -> (w: TempWorktree)
        ensures
            w@ == path@,
    {
        TempWorktree { path }
    }

    /// The directory of the checkout.
    pub fn path(&self) -> (s: &str)
        ensures
            s@ == self@,
    {
        self.path.as_str()
    }
}

} // verus!
