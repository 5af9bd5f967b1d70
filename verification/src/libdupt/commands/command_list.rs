//! The commands that the second command line knows, by name.
use vstd::prelude::*;
use super::{is_default, AnyCommand};
use super::install::Install;
use super::pkginfo::PkgInfo;
use super::remove::Remove;
use super::run::Run;
use super::search::Search;

verus! {

/// The known commands, each under its name, in their defaults.
pub struct CommandList {
    pub list: Vec<(String, AnyCommand)>,
}

/// The names of the known commands, in order.
pub open spec fn command_names() -> Seq<Seq<char>> {
    seq!["install"@, "search"@, "run"@, "pkginfo"@, "remove"@]
}

impl CommandList {
    /// The names of the listed commands.
    pub open spec fn names(&self) -> Seq<Seq<char>> {
        self.list@.map_values(|e: (String, AnyCommand)| e.0@)
    }

    /// The list holds `install`, `search`, `run`, `pkginfo` and `remove`, in
    /// that order, each a command of its kind in its default.
    pub open spec fn well_formed(&self) -> bool {
        &&& self.names() == command_names()
        &&& self.list@[0].1 is Install
        &&& self.list@[1].1 is Search
        &&& self.list@[2].1 is Run
        &&& self.list@[3].1 is PkgInfo
        &&& self.list@[4].1 is Remove
        &&& forall|i: int| 0 <= i < self.list@.len() ==> is_default(#[trigger] self.list@[i].1)
    }

    /// Index of the first command named `name`, if any.
    pub fn position(&self, name: &str) -> (r: Option<usize>)
        ensures
            match r {
                Some(i) => i < self.list@.len() && self.names()[i as int] == name@ && forall|j: int|
                    0 <= j < i ==> self.names()[j] != name@,
                None => forall|j: int| 0 <= j < self.list@.len() ==> self.names()[j] != name@,
            },
    {
        let mut i: usize = 0;
        while i < self.list.len()
            invariant
                i <= self.list@.len(),
                forall|j: int| 0 <= j < i ==> self.names()[j] != name@,
            decreases self.list@.len() - i,
        {
            if crate::text::str_eq(self.list[i].0.as_str(), name) {
                return Some(i);
            }
            i = i + 1;
        }
        None
    }
}

impl Default for CommandList {
    /// The known commands in their defaults.
    fn default() -> (r: CommandList)
        ensures
            r.well_formed(),
    {
        let mut list: Vec<(String, AnyCommand)> = Vec::new();
        list.push((String::from_str("install"), AnyCommand::Install(Install::default())));
        list.push((String::from_str("search"), AnyCommand::Search(Search::default())));
        list.push((String::from_str("run"), AnyCommand::Run(Run::default())));
        list.push((String::from_str("pkginfo"), AnyCommand::PkgInfo(PkgInfo::default())));
        list.push((String::from_str("remove"), AnyCommand::Remove(Remove::default())));
        let r = CommandList { list };
        assert(r.names() =~= command_names());
        r
    }
}

} // verus!
