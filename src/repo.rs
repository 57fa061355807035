use vstd::prelude::*;

verus! {

/// A repository, known by the path of its working directory.
pub struct Repo {
    root: String,
}

impl View for Repo {
    type V = Seq<char>;

    /// The working directory's path.
    closed spec fn view(&self) -> Seq<char> {
        self.root@
    }
}

impl Repo {
    pub fn new(root: String) -> (r: Repo)
        ensures
            r@ == root@,
    {
        Repo { root }
    }

    pub fn get_root(&self) -> (r: &str)
        ensures
            r@ == self@,
    {
        self.root.as_str()
    }
}

} // verus!
