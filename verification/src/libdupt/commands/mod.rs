//! The commands of the command line and what each reads from its arguments.
pub mod command_list;
pub mod install;
pub mod search;
pub mod pkginfo;
pub mod remove;
pub mod run;
pub mod update;

use vstd::prelude::*;
use self::install::Install;
use self::pkginfo::PkgInfo;
use self::remove::Remove;
use self::run::Run;
use self::search::Search;
use self::update::Update;

verus! {

/// A command that takes its settings from the words after its name.
pub trait Command {
    /// The argument lists the command reads without failing.
    spec fn reads(&self, args: Seq<String>) -> bool;

    /// Takes the settings of the command from `args`; an error says why they
    /// do not suffice.
    fn set_from_args(&mut self, args: &Vec<String>) -> (r: Result<(), &'static str>)
        requires
            old(self).reads(args@),
    ;
}


/// One of the commands, with its settings.
pub enum AnyCommand {
    Install(Install),
    Search(Search),
    Run(Run),
    PkgInfo(PkgInfo),
    Remove(Remove),
    Update(Update),
}

/// The kinds of commands.
pub enum Kind {
    Install,
    Search,
    Run,
    PkgInfo,
    Remove,
    Update,
}

/// The kind of command `c`.
pub open spec fn kind(c: AnyCommand) -> Kind {
    match c {
        AnyCommand::Install(_) => Kind::Install,
        AnyCommand::Search(_) => Kind::Search,
        AnyCommand::Run(_) => Kind::Run,
        AnyCommand::PkgInfo(_) => Kind::PkgInfo,
        AnyCommand::Remove(_) => Kind::Remove,
        AnyCommand::Update(_) => Kind::Update,
    }
}

/// What `install` reads from `args` when it starts from its default: the
/// names and whether to confirm, or nothing when the arguments do not suffice.
pub open spec fn install_config(args: Seq<String>) -> Option<(Seq<String>, bool)> {
    if args.len() == 0 {
        None
    } else {
        let confirm = args.last()@ != "-y"@;
        if args.len() == 1 && !confirm {
            None
        } else {
            Some((if confirm { args } else { args.drop_last() }, confirm))
        }
    }
}

/// What `remove` reads from `args` when it starts from its default.
pub open spec fn remove_config(args: Seq<String>) -> Option<(Seq<String>, bool)> {
    if args.len() == 0 {
        None
    } else {
        Some((args, args.last()@ != "-y"@))
    }
}

/// The first argument, if any.
pub open spec fn first_arg(args: Seq<String>) -> Option<Seq<char>> {
    if args.len() == 0 {
        None
    } else {
        Some(args[0]@)
    }
}

/// `c` is the default of its kind.
pub open spec fn is_default(c: AnyCommand) -> bool {
    match c {
        AnyCommand::Install(x) => x.names@.len() == 1 && x.names@[0]@ == "help"@ && x.confirm,
        AnyCommand::Search(x) => x.name@ == "help"@,
        AnyCommand::Run(x) => x.name@ == "help"@,
        AnyCommand::PkgInfo(x) => x.name@ == "help"@,
        AnyCommand::Remove(x) => x.names@.len() == 1 && x.names@[0]@ == "help"@ && x.confirm,
        AnyCommand::Update(x) => x.confirm,
    }
}

/// `r` is a command of kind `k` set from its default by the arguments
/// `args`, or the error that setting it gives.
pub open spec fn configured(k: Kind, args: Seq<String>, r: Result<AnyCommand, &'static str>) -> bool {
    match k {
        Kind::Install => match install_config(args) {
            None => r == Err::<AnyCommand, &'static str>("Not enough arguments"),
            Some((names, confirm)) => r matches Ok(AnyCommand::Install(x)) && x.names@ == names
                && x.confirm == confirm,
        },
        Kind::Search => match first_arg(args) {
            None => r == Err::<AnyCommand, &'static str>("not enough arguments"),
            Some(n) => r matches Ok(AnyCommand::Search(x)) && x.name@ == n,
        },
        Kind::Run => match first_arg(args) {
            None => r == Err::<AnyCommand, &'static str>("not enought arguments"),
            Some(n) => r matches Ok(AnyCommand::Run(x)) && x.name@ == n,
        },
        Kind::PkgInfo => match first_arg(args) {
            None => r == Err::<AnyCommand, &'static str>("not enough arguments"),
            Some(n) => r matches Ok(AnyCommand::PkgInfo(x)) && x.name@ == n,
        },
        Kind::Remove => match remove_config(args) {
            None => r == Err::<AnyCommand, &'static str>("not enough arguments"),
            Some((names, confirm)) => r matches Ok(AnyCommand::Remove(x)) && x.names@ == names
                && x.confirm == confirm,
        },
        Kind::Update => r matches Ok(AnyCommand::Update(x)) && x.confirm,
    }
}

/// The argument lists that a command of kind `k` reads.
pub open spec fn reads_args(k: Kind, args: Seq<String>) -> bool {
    k is Update ==> args.len() == 0
}

/// Sets the default command `c` from `args`, as its own `set_from_args` does.
pub fn configure(c: AnyCommand, args: &Vec<String>) -> (r: Result<AnyCommand, &'static str>)
    requires
        is_default(c),
        reads_args(kind(c), args@),
    ensures
        configured(kind(c), args@, r),
{
    match c {
        AnyCommand::Install(mut x) => match x.set_from_args(args) {
            Ok(()) => Ok(AnyCommand::Install(x)),
            Err(e) => Err(e),
        },
        AnyCommand::Search(mut x) => match x.set_from_args(args) {
            Ok(()) => Ok(AnyCommand::Search(x)),
            Err(e) => Err(e),
        },
        AnyCommand::Run(mut x) => match x.set_from_args(args) {
            Ok(()) => Ok(AnyCommand::Run(x)),
            Err(e) => Err(e),
        },
        AnyCommand::PkgInfo(mut x) => match x.set_from_args(args) {
            Ok(()) => Ok(AnyCommand::PkgInfo(x)),
            Err(e) => Err(e),
        },
        AnyCommand::Remove(mut x) => match x.set_from_args(args) {
            Ok(()) => Ok(AnyCommand::Remove(x)),
            Err(e) => Err(e),
        },
        AnyCommand::Update(mut x) => match x.set_from_args(args) {
            Ok(()) => Ok(AnyCommand::Update(x)),
            Err(e) => Err(e),
        },
    }
}

/// Where a list of steps goes after one of them.
pub enum StepNext {
    /// Carry out step `i` next.
    Run(usize),
    /// Every step is done.
    Done,
    /// The steps stop with this error.
    Fail(String),
}

/// Where a list of `n` steps goes after step `i` went as `outcome`: on to the
/// next step, to the end after the last one, or to a stop at the first error.
pub fn next_step(i: usize, n: usize, outcome: Result<(), String>) -> (r: StepNext)
    requires
        i < n,
    ensures
        match outcome {
            Err(e) => r == StepNext::Fail(e),
            Ok(()) => if i + 1 < n {
                r == StepNext::Run((i + 1) as usize)
            } else {
                r == StepNext::Done
            },
        },
{
    match outcome {
        Err(e) => StepNext::Fail(e),
        Ok(()) => if i + 1 < n {
            StepNext::Run(i + 1)
        } else {
            StepNext::Done
        },
    }
}

} // verus!
