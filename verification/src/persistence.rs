use vstd::prelude::*;

verus! {

/// Where the state of the task queue is saved and read back: a file, by its path.
pub struct Persistence {
    file_path: String,
}

impl Persistence {
    /// The path of the file.
    pub closed spec fn path(&self) -> Seq<char> {
        self.file_path@
    }

    pub fn new(file_path: String) -> (r: Self)
        ensures
            r.path() == file_path@,
    {
        Persistence { file_path }
    }

    /// The path of the file.
    pub fn file_path(&self) -> (r: &str)
        ensures
            r@ == self.path(),
    {
        self.file_path.as_str()
    }
}

} // verus!
