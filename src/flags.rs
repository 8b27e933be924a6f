//! Command-line flags and how each argument changes them.

use vstd::prelude::*;

verus! {

/// The switches that govern a run.
#[derive(Clone, Copy, Debug, PartialEq, Eq)]
pub struct Flags {
    /// Snapshot every source before moving.
    pub backup: bool,
    /// Only report what would be done.
    pub dryrun: bool,
    /// Pass helper traffic through the escape codec.
    pub encode: bool,
    /// Run the helper once per source.
    pub individual: bool,
    /// Copy instead of move.
    pub mcp: bool,
    /// Records end with NUL instead of a newline.
    pub nul: bool,
    /// Report each filesystem action.
    pub verbose: bool,
}

impl Default for Flags {
    fn default() -> (r: Self)
        ensures
            r == (Flags {
                backup: true,
                dryrun: false,
                encode: false,
                individual: false,
                mcp: false,
                nul: false,
                verbose: false,
            }),
    {
        Flags {
            backup: true,
            dryrun: false,
            encode: false,
            individual: false,
            mcp: false,
            nul: false,
            verbose: false,
        }
    }
}

/// One command-line argument, as the argument parser hands it over.
pub enum Arg {
    /// A short flag, such as `-v`.
    Short(char),
    /// A long flag, such as `--verbose`, without its dashes.
    Long(String),
    /// A free-standing value: the helper command starts here.
    Value,
}

/// What an argument did.
#[derive(Clone, Copy, Debug, PartialEq, Eq)]
pub enum ArgOutcome {
    /// A flag was set.
    Flag,
    /// The helper command starts at this argument.
    Command,
    /// The argument is not accepted.
    Unexpected,
}

/// Which flag a short or long argument names: `0` nul, `d` dryrun, `e`
/// encode, `i` individual, `n` no-backup, `v` verbose.
pub open spec fn flag_letter(arg: Arg) -> Option<char> {
    match arg {
        Arg::Short(c) => if c == '0' || c == 'd' || c == 'e' || c == 'i' || c == 'n' || c == 'v' {
            Some(c)
        } else {
            None
        },
        Arg::Long(s) => if s@ == seq!['n', 'u', 'l'] {
            Some('0')
        } else if s@ == seq!['d', 'r', 'y', '-', 'r', 'u', 'n'] || s@ == seq![
            'd',
            'r',
            'y',
            'r',
            'u',
            'n',
        ] {
            Some('d')
        } else if s@ == seq!['e', 'n', 'c', 'o', 'd', 'e'] {
            Some('e')
        } else if s@ == seq!['i', 'n', 'd', 'i', 'v', 'i', 'd', 'u', 'a', 'l'] {
            Some('i')
        } else if s@ == seq!['n', 'o', '-', 'b', 'a', 'c', 'k', 'u', 'p'] {
            Some('n')
        } else if s@ == seq!['v', 'e', 'r', 'b', 'o', 's', 'e'] {
            Some('v')
        } else {
            None
        },
        Arg::Value => None,
    }
}

/// The flags after the flag named by `c`.
pub open spec fn with_flag(f: Flags, c: char) -> Flags {
    if c == '0' {
        Flags { nul: true, ..f }
    } else if c == 'd' {
        Flags { dryrun: true, ..f }
    } else if c == 'e' {
        Flags { encode: true, ..f }
    } else if c == 'i' {
        Flags { individual: true, ..f }
    } else if c == 'n' {
        Flags { backup: false, ..f }
    } else {
        Flags { verbose: true, ..f }
    }
}

/// Whether two strings hold the same characters.
fn same_text(a: &str, b: &str) -> (r: bool)
    ensures
        r == (a@ == b@),
{
    let n = a.unicode_len();
    if n != b.unicode_len() {
        return false;
    }
    let mut i: usize = 0;
    while i < n
        invariant
            n == a@.len(),
            n == b@.len(),
            i <= n,
            forall|j: int| 0 <= j < i ==> a@[j] == b@[j],
        decreases n - i,
    {
        if a.get_char(i) != b.get_char(i) {
            return false;
        }
        i = i + 1;
    }
    assert(a@ =~= b@);
    true
}

/// Which flag a long argument names.
fn long_flag(s: &String) -> (r: Option<char>)
    ensures
        r == flag_letter(Arg::Long(*s)),
{
    proof {
        reveal_strlit("nul");
        reveal_strlit("dry-run");
        reveal_strlit("dryrun");
        reveal_strlit("encode");
        reveal_strlit("individual");
        reveal_strlit("no-backup");
        reveal_strlit("verbose");
        assert("nul"@ =~= seq!['n', 'u', 'l']);
        assert("dry-run"@ =~= seq!['d', 'r', 'y', '-', 'r', 'u', 'n']);
        assert("dryrun"@ =~= seq!['d', 'r', 'y', 'r', 'u', 'n']);
        assert("encode"@ =~= seq!['e', 'n', 'c', 'o', 'd', 'e']);
        assert("individual"@ =~= seq!['i', 'n', 'd', 'i', 'v', 'i', 'd', 'u', 'a', 'l']);
        assert("no-backup"@ =~= seq!['n', 'o', '-', 'b', 'a', 'c', 'k', 'u', 'p']);
        assert("verbose"@ =~= seq!['v', 'e', 'r', 'b', 'o', 's', 'e']);
    }
    let t = s.as_str();
    if same_text(t, "nul") {
        Some('0')
    } else if same_text(t, "dry-run") || same_text(t, "dryrun") {
        Some('d')
    } else if same_text(t, "encode") {
        Some('e')
    } else if same_text(t, "individual") {
        Some('i')
    } else if same_text(t, "no-backup") {
        Some('n')
    } else if same_text(t, "verbose") {
        Some('v')
    } else {
        None
    }
}

impl Flags {
    /// The flags a run starts with when the program is invoked as `name`:
    /// invoked under the copy variant's name `mcp_name`, it copies and takes
    /// no backup.
    pub fn for_program(name: &str, mcp_name: &str) -> (r: Flags)
        ensures
            r == (if name@ == mcp_name@ {
                Flags { mcp: true, backup: false, ..Flags::default_flags() }
            } else {
                Flags::default_flags()
            }),
    {
        let mut f = Flags::default();
        if same_text(name, mcp_name) {
            f.mcp = true;
            f.backup = false;
        }
        f
    }

    pub open spec fn default_flags() -> Flags {
        Flags {
            backup: true,
            dryrun: false,
            encode: false,
            individual: false,
            mcp: false,
            nul: false,
            verbose: false,
        }
    }

    /// Take one argument.  A value starts the helper command.  `-n` is not
    /// accepted by the copy variant, nor is any unknown flag.
    pub fn apply(&mut self, arg: &Arg) -> (r: ArgOutcome)
        ensures
            *arg matches Arg::Value ==> r == ArgOutcome::Command && *final(self) == *old(self),
            !(*arg matches Arg::Value) ==> match flag_letter(*arg) {
                Some(c) => if c == 'n' && old(self).mcp {
                    r == ArgOutcome::Unexpected && *final(self) == *old(self)
                } else {
                    r == ArgOutcome::Flag && *final(self) == with_flag(*old(self), c)
                },
                None => r == ArgOutcome::Unexpected && *final(self) == *old(self),
            },
    {
        let letter = match arg {
            Arg::Value => {
                return ArgOutcome::Command;
            },
            Arg::Short(c) => {
                let c = *c;
                if c == '0' || c == 'd' || c == 'e' || c == 'i' || c == 'n' || c == 'v' {
                    Some(c)
                } else {
                    None
                }
            },
            Arg::Long(s) => long_flag(s),
        };
        match letter {
            None => ArgOutcome::Unexpected,
            Some(c) => {
                if c == '0' {
                    self.nul = true;
                } else if c == 'd' {
                    self.dryrun = true;
                } else if c == 'e' {
                    self.encode = true;
                } else if c == 'i' {
                    self.individual = true;
                } else if c == 'n' {
                    if self.mcp {
                        return ArgOutcome::Unexpected;
                    }
                    self.backup = false;
                } else {
                    self.verbose = true;
                }
                ArgOutcome::Flag
            },
        }
    }
}

/// The usage line of the program invoked as `prog`.
pub open spec fn usage_text(prog: Seq<char>, mcp: bool) -> Seq<char> {
    "Usage: "@ + prog + (if mcp {
        " [-0deiv]"@
    } else {
        " [-0deinv]"@
    }) + " command [argument ...]"@
}

/// The usage line of the program invoked as `prog`; the copy variant has no
/// `-n`.
pub fn usage_line(prog: &str, mcp: bool) -> (r: String)
    ensures
        r@ == usage_text(prog@, mcp),
{
    let mut r = String::new();
    r.append("Usage: ");
    r.append(prog);
    if mcp {
        r.append(" [-0deiv]");
    } else {
        r.append(" [-0deinv]");
    }
    r.append(" command [argument ...]");
    proof {
        assert(r@ =~= usage_text(prog@, mcp));
    }
    r
}

} // verus!
