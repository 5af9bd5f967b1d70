//! The second generation of dupt: packages built inside a container from
//! archives listed by repositories, driven by named commands.
pub mod commands;
pub mod tools;

use vstd::prelude::*;
use crate::config::Config;
use self::commands::command_list::CommandList;
use self::commands::{configure, configured, is_default, Kind};
use self::commands::command_list::command_names;

verus! {

/// The kind of the known command named `p`, if any.
pub open spec fn listed_kind(p: Seq<char>) -> Option<Kind> {
    if p == "install"@ {
        Some(Kind::Install)
    } else if p == "search"@ {
        Some(Kind::Search)
    } else if p == "run"@ {
        Some(Kind::Run)
    } else if p == "pkginfo"@ {
        Some(Kind::PkgInfo)
    } else if p == "remove"@ {
        Some(Kind::Remove)
    } else {
        None
    }
}

/// The command that `config` asks for, set from its arguments and ready to
/// run: "Command not found" when the process names no known command, or the
/// error that its arguments give.
pub fn run(config: &Config) -> (r: Result<commands::AnyCommand, &'static str>)
    ensures
        match listed_kind(config.process@) {
            None => r == Err::<commands::AnyCommand, &'static str>("Command not found"),
            Some(k) => configured(k, config.arguments@, r),
        },
{
    let mut command_list = CommandList::default();
    assert(command_list.names().len() == 5);
    assert(command_list.list@.len() == 5);
    match command_list.position(config.process.as_str()) {
        None => {
            assert(command_list.names()[0] == "install"@);
            assert(command_list.names()[1] == "search"@);
            assert(command_list.names()[2] == "run"@);
            assert(command_list.names()[3] == "pkginfo"@);
            assert(command_list.names()[4] == "remove"@);
            Err("Command not found")
        },
        Some(i) => {
            let ghost old_list = command_list.list@;
            proof {
                assert(command_list.names()[i as int] == command_list.list@[i as int].0@);
                assert(command_list.names()[0] == "install"@);
                assert(command_list.names()[1] == "search"@);
                assert(command_list.names()[2] == "run"@);
                assert(command_list.names()[3] == "pkginfo"@);
                assert(command_list.names()[4] == "remove"@);
            }
            let (_, command) = command_list.list.remove(i);
            proof {
                assert(command == old_list[i as int].1);
                assert(is_default(command));
                if i == 0 {
                    assert(listed_kind(config.process@) == Some(Kind::Install));
                } else if i == 1 {
                    assert(listed_kind(config.process@) == Some(Kind::Search));
                } else if i == 2 {
                    assert(listed_kind(config.process@) == Some(Kind::Run));
                } else if i == 3 {
                    assert(listed_kind(config.process@) == Some(Kind::PkgInfo));
                } else {
                    assert(listed_kind(config.process@) == Some(Kind::Remove));
                }
                assert(listed_kind(config.process@) == Some(commands::kind(command)));
            }
            configure(command, &config.arguments)
        },
    }
}

} // verus!
