use vstd::prelude::*;

verus! {

/// The set of file identities currently admitted for tailing.
///
/// `try_admit` atomically tests membership and inserts, so for any sequence
/// of admission attempts each identity is granted at most once. No operation
/// ever removes an identity: a file that disappears and reappears under the
/// same path is never re-admitted. That is a deliberate limitation of the
/// design, kept rather than silently fixed.
pub struct WatchedFileSet {
    paths: Vec<String>,
}

impl View for WatchedFileSet {
    type V = Set<Seq<char>>;

    /// The mathematical contents: the set of admitted identities.
    closed spec fn view(&self) -> Set<Seq<char>> {
        Set::new(
            |s: Seq<char>|
                exists|i: int| 0 <= i < self.paths@.len() && #[trigger] self.paths@[i]@ == s,
        )
    }
}

impl WatchedFileSet {
    /// An empty watch set: nothing has been admitted yet.
    pub fn new() -> (s: Self)
        ensures
            s@ == Set::<Seq<char>>::empty(),
    {
        let s = WatchedFileSet { paths: Vec::new() };
        proof {
            assert(s@ =~= Set::<Seq<char>>::empty());
        }
        s
    }

    /// Whether `path` has already been admitted.
    pub fn contains(&self, path: &String) -> (r: bool)
        ensures
            r == self@.contains(path@),
    {
        let n = self.paths.len();
        let mut i: usize = 0;
        while i < n
            invariant
                n == self.paths@.len(),
                i <= n,
                forall|k: int| 0 <= k < i ==> #[trigger] self.paths@[k]@ != path@,
            decreases n - i,
        {
            if self.paths[i] == *path {
                return true;
            }
            i = i + 1;
        }
        false
    }

    /// Atomic check-and-insert: returns true exactly when the caller has been
    /// granted exclusive responsibility for tailing `path`, which happens
    /// exactly when `path` was not yet a member. Afterwards `path` is a member
    /// either way.
    pub fn try_admit(&mut self, path: String) -> (admitted: bool)
        ensures
            admitted == !old(self)@.contains(path@),
            final(self)@ == old(self)@.insert(path@),
    {
        if self.contains(&path) {
            proof {
                assert(self@ =~= self@.insert(path@));
            }
            false
        } else {
            let ghost old_paths = self.paths@;
            self.paths.push(path);
            proof {
                assert forall|s: Seq<char>| self@.contains(s) <==> old(self)@.insert(path@).contains(
                    s,
                ) by {
                    if self@.contains(s) {
                        let i = choose|i: int|
                            0 <= i < self.paths@.len() && #[trigger] self.paths@[i]@ == s;
                        if i < old_paths.len() {
                            assert(old(self)@.contains(s));
                        }
                    }
                    if old(self)@.insert(path@).contains(s) {
                        if old(self)@.contains(s) {
                            let i = choose|i: int|
                                0 <= i < old_paths.len() && #[trigger] old_paths[i]@ == s;
                            assert(self.paths@[i]@ == s);
                        } else {
                            assert(self.paths@[old_paths.len() as int]@ == s);
                        }
                    }
                }
                assert(self@ =~= old(self)@.insert(path@));
            }
            true
        }
    }
}

} // verus!
