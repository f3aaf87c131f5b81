//! The text that a shell function evaluates: a change of directory, or the
//! definition of that shell function itself.

use vstd::prelude::*;

verus! {

/// Shell families whose syntax differs for defining a function and for
/// evaluating generated text.
#[derive(PartialEq, Eq, Structural, Clone, Copy, Debug)]
pub enum Dialect {
    Fish,
    /// bash, zsh and any shell not known otherwise.
    Posix,
}

pub open spec fn dialect_of(name: Seq<char>) -> Dialect {
    if name == seq!['f', 'i', 's', 'h'] {
        Dialect::Fish
    } else {
        Dialect::Posix
    }
}

/// The line that makes the calling shell change to `path`.
pub open spec fn navigate_line(path: Seq<char>) -> Seq<char> {
    "cd "@ + path
}

/// The shell function named `exe_name` that runs `exe_path` and evaluates
/// what it prints, written for the shell called `shell_name`.
pub open spec fn init_script(shell_name: Seq<char>, exe_name: Seq<char>, exe_path: Seq<char>) -> Seq<char> {
    match dialect_of(shell_name) {
        Dialect::Fish => "function "@ + exe_name + "\n  command "@ + exe_path
            + " --shell fish $argv | source\nend"@,
        Dialect::Posix => "function "@ + exe_name + " {\n  eval \"$(command "@ + exe_path
            + " --shell "@ + shell_name + " \"$@\")\"\n}"@,
    }
}

/// The shell that output is shaped for, by name (`bash`, `fish`, `zsh`, ...).
pub struct Shell {
    name: String,
}

impl Shell {
    pub closed spec fn name(&self) -> Seq<char> {
        self.name@
    }

    pub fn new(name: &str) -> (r: Self)
        ensures
            r.name() == name@,
    {
        Shell { name: name.to_owned() }
    }

    /// The dialect of this shell; unknown names fall back to `Posix`.
    pub fn dialect(&self) -> (r: Dialect)
        ensures
            r == dialect_of(self.name()),
    {
        let n = self.name.as_str();
        if n.unicode_len() == 4 && n.get_char(0) == 'f' && n.get_char(1) == 'i' && n.get_char(2) == 's'
            && n.get_char(3) == 'h' {
            assert(n@ =~= seq!['f', 'i', 's', 'h']);
            Dialect::Fish
        } else {
            Dialect::Posix
        }
    }

    /// The definition of the shell function `exe_name`, to be sourced at
    /// shell start-up, that runs `exe_path` and evaluates its output.
    pub fn init(&self, exe_name: &str, exe_path: &str) -> (r: String)
        ensures
            r@ == init_script(self.name(), exe_name@, exe_path@),
    {
        let mut out = String::new();
        out.append("function ");
        out.append(exe_name);
        match self.dialect() {
            Dialect::Fish => {
                out.append("\n  command ");
                out.append(exe_path);
                out.append(" --shell fish $argv | source\nend");
            },
            Dialect::Posix => {
                out.append(" {\n  eval \"$(command ");
                out.append(exe_path);
                out.append(" --shell ");
                out.append(self.name.as_str());
                out.append(" \"$@\")\"\n}");
            },
        }
        assert(out@ =~= init_script(self.name(), exe_name@, exe_path@));
        out
    }

    /// The line that the calling shell evaluates to change to `path`; the
    /// same `cd` line serves every dialect.
    pub fn invoke(&self, path: &str) -> (r: String)
        ensures
            r@ == navigate_line(path@),
    {
        let mut out = String::new();
        out.append("cd ");
        out.append(path);
        assert(out@ =~= navigate_line(path@));
        out
    }
}

} // verus!
