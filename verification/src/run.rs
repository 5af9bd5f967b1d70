//! The second command line: from the process named on it to the command to run.
use vstd::prelude::*;
use crate::config::Config;
use crate::libdupt::commands::{configure, configured, AnyCommand, Kind};
use crate::libdupt::commands::install::Install;
use crate::libdupt::commands::pkginfo::PkgInfo;
use crate::libdupt::commands::remove::Remove;
use crate::libdupt::commands::run::Run;
use crate::libdupt::commands::search::Search;
use crate::libdupt::commands::update::Update;
use crate::text::str_eq;

verus! {

/// The kind of command the process `p` names, if any.
pub open spec fn dispatched_kind(p: Seq<char>) -> Option<Kind> {
    if p == "install"@ {
        Some(Kind::Install)
    } else if p == "run"@ {
        Some(Kind::Run)
    } else if p == "remove"@ {
        Some(Kind::Remove)
    } else if p == "search"@ {
        Some(Kind::Search)
    } else if p == "pkginfo"@ {
        Some(Kind::PkgInfo)
    } else if p == "update"@ {
        Some(Kind::Update)
    } else {
        None
    }
}

/// The command that `config` names, built from its arguments: "invalid
/// command" when the process names none, or the error its arguments give.
/// `update` takes no arguments.
pub fn run(config: &Config) -> (r: Result<AnyCommand, &'static str>)
    requires
        dispatched_kind(config.process@) == Some(Kind::Update) ==> config.arguments@.len() == 0,
    ensures
        match dispatched_kind(config.process@) {
            None => r == Err::<AnyCommand, &'static str>("invalid command"),
            Some(k) => configured(k, config.arguments@, r),
        },
{
    let p = config.process.as_str();
    let args = &config.arguments;
    if str_eq(p, "install") {
        configure(AnyCommand::Install(Install::default()), args)
    } else if str_eq(p, "run") {
        configure(AnyCommand::Run(Run::default()), args)
    } else if str_eq(p, "remove") {
        configure(AnyCommand::Remove(Remove::default()), args)
    } else if str_eq(p, "search") {
        configure(AnyCommand::Search(Search::default()), args)
    } else if str_eq(p, "pkginfo") {
        configure(AnyCommand::PkgInfo(PkgInfo::default()), args)
    } else if str_eq(p, "update") {
        configure(AnyCommand::Update(Update::default()), args)
    } else {
        Err("invalid command")
    }
}

/// The two command lines agree: each command that the command list knows is
/// dispatched by name to a command of the same kind, and set from its
/// arguments in the same way.
pub proof fn law_command_lines_agree(p: Seq<char>, args: Seq<String>, r: Result<AnyCommand, &'static str>)
    requires
        crate::libdupt::listed_kind(p) is Some,
    ensures
        dispatched_kind(p) == crate::libdupt::listed_kind(p),
        configured(dispatched_kind(p).unwrap(), args, r) == configured(
            crate::libdupt::listed_kind(p).unwrap(),
            args,
            r,
        ),
{
    reveal_strlit("install");
    reveal_strlit("run");
    reveal_strlit("remove");
    reveal_strlit("search");
    reveal_strlit("pkginfo");
    reveal_strlit("update");
    assert("search"@.len() == 6);
    assert("run"@.len() == 3);
    assert("install"@.len() == 7);
    assert("remove"@.len() == 6);
    assert("pkginfo"@.len() == 7);
    assert("remove"@[0] != "search"@[0]);
    assert("pkginfo"@[0] != "install"@[0]);
}

} // verus!
