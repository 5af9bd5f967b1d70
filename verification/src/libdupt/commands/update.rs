//! The `update` command: which repository lists to fetch again.
use vstd::prelude::*;
use super::Command;

verus! {

/// Fetches the package list of every repository again.
pub struct Update {
    pub confirm: bool,
}

impl Default for Update {
    /// An update that asks for confirmation.
    fn default() -> (r: Update)
        ensures
            r.confirm,
    {
        Update { confirm: true }
    }
}

impl Command for Update {
    /// Only the empty argument list is read.
    open spec fn reads(&self, args: Seq<String>) -> bool {
        args.len() == 0
    }

    /// `update` takes no arguments (with any argument it reads past the end of
    /// the list); it asks for confirmation.
    fn set_from_args(&mut self, args: &Vec<String>) -> (r: Result<(), &'static str>)
        ensures
            r == Ok::<(), &'static str>(()),
            final(self).confirm,
    {
        self.confirm = true;
        Ok(())
    }
}

/// A list to fetch: the file `name` of repository `repo`, saved as `output`.
pub struct Download {
    pub name: String,
    pub output: String,
    pub repo: String,
}

impl Update {
    /// What updating fetches: for each repository, its `list.conf`, saved as
    /// `<repository>.conf`, in the order of `repos`.
    pub fn downloads(repos: &Vec<(String, String)>) -> (r: Vec<Download>)
        ensures
            r@.len() == repos@.len(),
            forall|i: int|
                #![trigger r@[i]]
                0 <= i < r@.len() ==> {
                    &&& r@[i].name@ == "list.conf"@
                    &&& r@[i].output@ == repos@[i].0@ + ".conf"@
                    &&& r@[i].repo@ == repos@[i].0@
                },
    {
        let mut r: Vec<Download> = Vec::new();
        let mut i: usize = 0;
        while i < repos.len()
            invariant
                i <= repos@.len(),
                r@.len() == i,
                forall|j: int|
                    #![trigger r@[j]]
                    0 <= j < i ==> {
                        &&& r@[j].name@ == "list.conf"@
                        &&& r@[j].output@ == repos@[j].0@ + ".conf"@
                        &&& r@[j].repo@ == repos@[j].0@
                    },
            decreases repos@.len() - i,
        {
            let mut output = String::from_str(repos[i].0.as_str());
            output.append(".conf");
            let ghost old = r@;
            r.push(
                Download {
                    name: String::from_str("list.conf"),
                    output,
                    repo: String::from_str(repos[i].0.as_str()),
                },
            );
            assert forall|j: int| #![trigger r@[j]] 0 <= j < i + 1 implies {
                &&& r@[j].name@ == "list.conf"@
                &&& r@[j].output@ == repos@[j].0@ + ".conf"@
                &&& r@[j].repo@ == repos@[j].0@
            } by {
                if j < i {
                    assert(r@[j] == old[j]);
                }
            }
            i = i + 1;
        }
        r
    }
}

} // verus!
