//! The host shell's built-in commands: which names are built in, and which command a name
//! runs.
use vstd::prelude::*;
use vstd::string::*;
use crate::text::str_eq;

verus! {

/// The built-in commands of the host shell.
#[derive(Clone, Copy, PartialEq, Eq, Structural, Debug)]
pub enum ShBuiltin {
    Help, Ls, Cat, Echo, Rm, Rmdir, Mkdir, Touch, Cp, Mv, Clear, Pwd, Whoami, Date, Uname, Cd, Mount, Umount,
    Hostname,
}

/// The command a name stands for, if it is built in.
pub open spec fn builtin_named(name: Seq<char>) -> Option<ShBuiltin> {
    if name == "help"@ { Some(ShBuiltin::Help) }
    else if name == "ls"@ { Some(ShBuiltin::Ls) }
    else if name == "cat"@ { Some(ShBuiltin::Cat) }
    else if name == "echo"@ { Some(ShBuiltin::Echo) }
    else if name == "rm"@ { Some(ShBuiltin::Rm) }
    else if name == "rmdir"@ { Some(ShBuiltin::Rmdir) }
    else if name == "mkdir"@ { Some(ShBuiltin::Mkdir) }
    else if name == "touch"@ { Some(ShBuiltin::Touch) }
    else if name == "cp"@ { Some(ShBuiltin::Cp) }
    else if name == "mv"@ { Some(ShBuiltin::Mv) }
    else if name == "clear"@ { Some(ShBuiltin::Clear) }
    else if name == "pwd"@ { Some(ShBuiltin::Pwd) }
    else if name == "whoami"@ { Some(ShBuiltin::Whoami) }
    else if name == "date"@ { Some(ShBuiltin::Date) }
    else if name == "uname"@ { Some(ShBuiltin::Uname) }
    else if name == "cd"@ { Some(ShBuiltin::Cd) }
    else if name == "mount"@ { Some(ShBuiltin::Mount) }
    else if name == "umount"@ { Some(ShBuiltin::Umount) }
    else if name == "hostname"@ { Some(ShBuiltin::Hostname) }
    else { None }
}

/// The table of built-in commands.
pub struct Builtins {
    pub count: usize,
}

impl Builtins {
    /// The table of the nineteen built-in commands.
    pub fn new() -> (r: Builtins)
        ensures
            r.count == 19,
    {
        Builtins { count: 19 }
    }

    /// Whether `name` is a built-in command.
    pub fn is_builtin(&self, name: &str) -> (r: bool)
        ensures
            r == (builtin_named(name@) is Some),
    {
        self.lookup(name).is_some()
    }

    /// The built-in command `name` runs, if any (see `builtin_named`).
    pub fn lookup(&self, name: &str) -> (r: Option<ShBuiltin>)
        ensures
            r == builtin_named(name@),
    {
        if str_eq(name, "help") { Some(ShBuiltin::Help) }
        else if str_eq(name, "ls") { Some(ShBuiltin::Ls) }
        else if str_eq(name, "cat") { Some(ShBuiltin::Cat) }
        else if str_eq(name, "echo") { Some(ShBuiltin::Echo) }
        else if str_eq(name, "rm") { Some(ShBuiltin::Rm) }
        else if str_eq(name, "rmdir") { Some(ShBuiltin::Rmdir) }
        else if str_eq(name, "mkdir") { Some(ShBuiltin::Mkdir) }
        else if str_eq(name, "touch") { Some(ShBuiltin::Touch) }
        else if str_eq(name, "cp") { Some(ShBuiltin::Cp) }
        else if str_eq(name, "mv") { Some(ShBuiltin::Mv) }
        else if str_eq(name, "clear") { Some(ShBuiltin::Clear) }
        else if str_eq(name, "pwd") { Some(ShBuiltin::Pwd) }
        else if str_eq(name, "whoami") { Some(ShBuiltin::Whoami) }
        else if str_eq(name, "date") { Some(ShBuiltin::Date) }
        else if str_eq(name, "uname") { Some(ShBuiltin::Uname) }
        else if str_eq(name, "cd") { Some(ShBuiltin::Cd) }
        else if str_eq(name, "mount") { Some(ShBuiltin::Mount) }
        else if str_eq(name, "umount") { Some(ShBuiltin::Umount) }
        else if str_eq(name, "hostname") { Some(ShBuiltin::Hostname) }
        else { None }
    }

    /// The built-in command to run for `name`, if it is one; the caller runs it with the
    /// arguments.
    pub fn exec(&self, name: &str) -> (r: Option<ShBuiltin>)
        ensures
            r == builtin_named(name@),
    {
        self.lookup(name)
    }
}

} // verus!
