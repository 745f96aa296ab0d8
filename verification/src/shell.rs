//! The shells and language runtimes that a tab can start, and their names.
use crate::drivers::{
    self, dispatcher_terminator, interactive, keyboard_keys, shim_choice, InvocationError, ShellInvocation,
};
use crate::platform::Platform;
use crate::text::{str_equal, trim, trimmed};
use vstd::prelude::*;

verus! {

broadcast use vstd::string::group_string_axioms;

/// A shell or runtime that FuncTerm can start and route commands to.
#[derive(Debug, Clone, Copy, PartialEq, Eq, Structural)]
pub enum ShellChoice {
    PowerShell,
    Bash,
    NuShell,
    Zsh,
    Cmd,
    Bun,
    Python,
}

/// A name that is not the canonical name of any shell.
#[derive(Debug)]
pub struct UnknownShell {
    /// The name that was given.
    pub value: String,
}

impl UnknownShell {
    /// The message the name is refused with, which lists the canonical names.
    pub fn message(&self) -> (r: String)
        ensures
            r@ == "unsupported shell `"@ + self.value@
                + "`; supported shells are powershell, bash, nu, zsh, cmd, bun, python"@,
    {
        let mut message = String::from_str("unsupported shell `");
        message.append(self.value.as_str());
        message.append("`; supported shells are powershell, bash, nu, zsh, cmd, bun, python");
        message
    }
}

/// The canonical name of each shell, the only spelling a starting shell is given in.
pub open spec fn canonical_name_of(choice: ShellChoice) -> Seq<char> {
    match choice {
        ShellChoice::PowerShell => "powershell"@,
        ShellChoice::Bash => "bash"@,
        ShellChoice::NuShell => "nu"@,
        ShellChoice::Zsh => "zsh"@,
        ShellChoice::Cmd => "cmd"@,
        ShellChoice::Bun => "bun"@,
        ShellChoice::Python => "python"@,
    }
}

/// The environment variable through which a session finds the real executable of each
/// shell behind its shim.
pub open spec fn shim_env_name_of(choice: ShellChoice) -> Seq<char> {
    match choice {
        ShellChoice::PowerShell => "FUNCTERM_REAL_POWERSHELL"@,
        ShellChoice::Bash => "FUNCTERM_REAL_BASH"@,
        ShellChoice::NuShell => "FUNCTERM_REAL_NUSHELL"@,
        ShellChoice::Zsh => "FUNCTERM_REAL_ZSH"@,
        ShellChoice::Cmd => "FUNCTERM_REAL_CMD"@,
        ShellChoice::Bun => "FUNCTERM_REAL_BUN"@,
        ShellChoice::Python => "FUNCTERM_REAL_PYTHON"@,
    }
}

/// Every shell, in declaration order.
pub open spec fn all_choices() -> Seq<ShellChoice> {
    seq![
        ShellChoice::PowerShell,
        ShellChoice::Bash,
        ShellChoice::NuShell,
        ShellChoice::Zsh,
        ShellChoice::Cmd,
        ShellChoice::Bun,
        ShellChoice::Python,
    ]
}

/// The shell whose canonical name is `name`, if any.
pub open spec fn choice_named(name: Seq<char>) -> Option<ShellChoice> {
    if name == canonical_name_of(ShellChoice::PowerShell) {
        Some(ShellChoice::PowerShell)
    } else if name == canonical_name_of(ShellChoice::Bash) {
        Some(ShellChoice::Bash)
    } else if name == canonical_name_of(ShellChoice::NuShell) {
        Some(ShellChoice::NuShell)
    } else if name == canonical_name_of(ShellChoice::Zsh) {
        Some(ShellChoice::Zsh)
    } else if name == canonical_name_of(ShellChoice::Cmd) {
        Some(ShellChoice::Cmd)
    } else if name == canonical_name_of(ShellChoice::Bun) {
        Some(ShellChoice::Bun)
    } else if name == canonical_name_of(ShellChoice::Python) {
        Some(ShellChoice::Python)
    } else {
        None
    }
}

impl ShellChoice {
    /// The canonical name of the shell.
    pub fn canonical_name(self) -> (r: &'static str)
        ensures
            r@ == canonical_name_of(self),
    {
        match self {
            ShellChoice::PowerShell => "powershell",
            ShellChoice::Bash => "bash",
            ShellChoice::NuShell => "nu",
            ShellChoice::Zsh => "zsh",
            ShellChoice::Cmd => "cmd",
            ShellChoice::Bun => "bun",
            ShellChoice::Python => "python",
        }
    }

    /// The environment variable that names the real executable behind the shell's shim.
    pub fn shim_env_name(self) -> (r: &'static str)
        ensures
            r@ == shim_env_name_of(self),
    {
        match self {
            ShellChoice::PowerShell => "FUNCTERM_REAL_POWERSHELL",
            ShellChoice::Bash => "FUNCTERM_REAL_BASH",
            ShellChoice::NuShell => "FUNCTERM_REAL_NUSHELL",
            ShellChoice::Zsh => "FUNCTERM_REAL_ZSH",
            ShellChoice::Cmd => "FUNCTERM_REAL_CMD",
            ShellChoice::Bun => "FUNCTERM_REAL_BUN",
            ShellChoice::Python => "FUNCTERM_REAL_PYTHON",
        }
    }

    /// Every shell, in declaration order.
    pub fn all() -> (r: Vec<ShellChoice>)
        ensures
            r@ == all_choices(),
    {
        let r = vec![
            ShellChoice::PowerShell,
            ShellChoice::Bash,
            ShellChoice::NuShell,
            ShellChoice::Zsh,
            ShellChoice::Cmd,
            ShellChoice::Bun,
            ShellChoice::Python,
        ];
        assert(r@ =~= all_choices());
        r
    }

    /// The shell with the canonical name `value`; executable names and other spellings
    /// are refused.
    pub fn from_canonical_name(value: &str) -> (r: Result<ShellChoice, UnknownShell>)
        ensures
            match choice_named(value@) {
                Some(choice) => r matches Ok(c) && c == choice,
                None => r matches Err(e) && e.value@ == value@,
            },
    {
        let mut i: usize = 0;
        let all = ShellChoice::all();
        while i < all.len()
            invariant
                all@ == all_choices(),
                0 <= i <= all@.len(),
                forall|k: int| 0 <= k < i ==> canonical_name_of(#[trigger] all@[k]) != value@,
            decreases all@.len() - i,
        {
            let choice = all[i];
            if str_equal(choice.canonical_name(), value) {
                proof {
                    reveal_strlit("powershell");
                    reveal_strlit("bash");
                    reveal_strlit("nu");
                    reveal_strlit("zsh");
                    reveal_strlit("cmd");
                    reveal_strlit("bun");
                    reveal_strlit("python");
                }
                return Ok(choice);
            }
            i = i + 1;
        }
        proof {
            assert(canonical_name_of(all@[0]) != value@);
            assert(canonical_name_of(all@[1]) != value@);
            assert(canonical_name_of(all@[2]) != value@);
            assert(canonical_name_of(all@[3]) != value@);
            assert(canonical_name_of(all@[4]) != value@);
            assert(canonical_name_of(all@[5]) != value@);
            assert(canonical_name_of(all@[6]) != value@);
        }
        Err(UnknownShell { value: value.to_owned() })
    }

    /// The line that runs a prepared command in this shell on `platform`.
    pub fn invocation(self, platform: Platform) -> (r: Result<Option<ShellInvocation>, InvocationError>)
        ensures
            r matches Ok(found) && match dispatcher_terminator(self, platform) {
                Some(terminator) => found matches Some(invocation) && invocation.line_text() == "f"@
                    && invocation.ending() == terminator,
                None => found is None,
            },
    {
        drivers::invocation(self, platform)
    }

    /// Keyboard input as this shell is to receive it.
    pub fn keyboard_bytes(self, bytes: &[u8]) -> (r: Vec<u8>)
        ensures
            r@ == keyboard_keys(self, bytes@),
    {
        drivers::keyboard_bytes(self, bytes)
    }

    /// The shell that a shim executable named `value` stands for.
    pub fn from_shim_name(value: &str) -> (r: Option<Self>)
        ensures
            r == shim_choice(value@),
    {
        drivers::from_shim_name(value)
    }

    /// Whether `arguments` (as encoded bytes) only ask this shell for an interactive
    /// session.
    pub fn interactive_arguments(self, arguments: &Vec<Vec<u8>>) -> (r: bool)
        ensures
            r == interactive(self, arguments@.map_values(|argument: Vec<u8>| argument@)),
    {
        drivers::interactive_arguments(self, arguments)
    }

    /// The shell recorded in an active-shell state file: its text, trimmed of
    /// surrounding white space, must be a canonical name.
    pub fn from_active_shell_text(text: &str) -> (r: Result<ShellChoice, UnknownShell>)
        ensures
            match choice_named(trimmed(text@)) {
                Some(choice) => r matches Ok(c) && c == choice,
                None => r matches Err(e) && e.value@ == trimmed(text@),
            },
    {
        ShellChoice::from_canonical_name(trim(text))
    }
}

/// Law: every shell parses back from its canonical name, and no two shells share one.
pub proof fn canonical_names_round_trip(choice: ShellChoice)
    ensures
        choice_named(canonical_name_of(choice)) == Some(choice),
{
    reveal_strlit("powershell");
    reveal_strlit("bash");
    reveal_strlit("nu");
    reveal_strlit("zsh");
    reveal_strlit("cmd");
    reveal_strlit("bun");
    reveal_strlit("python");
    assert("powershell"@.len() == 10);
    assert("bash"@.len() == 4);
    assert("nu"@.len() == 2);
    assert("zsh"@.len() == 3 && "zsh"@[0] == 'z');
    assert("cmd"@.len() == 3 && "cmd"@[0] == 'c');
    assert("bun"@.len() == 3 && "bun"@[0] == 'b');
    assert("python"@.len() == 6);
}


/// Law: the text an active-shell file holds, the canonical name of a shell, is read
/// back as that shell, also when a line break follows it.
pub proof fn active_shell_text_round_trips(choice: ShellChoice)
    ensures
        choice_named(trimmed(canonical_name_of(choice))) == Some(choice),
        choice_named(trimmed(canonical_name_of(choice).push('\n'))) == Some(choice),
{
    canonical_names_round_trip(choice);
    reveal_strlit("powershell");
    reveal_strlit("bash");
    reveal_strlit("nu");
    reveal_strlit("zsh");
    reveal_strlit("cmd");
    reveal_strlit("bun");
    reveal_strlit("python");
    let name = canonical_name_of(choice);
    assert(name.len() >= 2);
    assert(!crate::text::is_white_space(name[0]));
    assert(!crate::text::is_white_space(name.last()));
    assert(trimmed(name) == name);
    let line = name.push('\n');
    assert(line[0] == name[0]);
    assert(line.drop_last() =~= name);
    assert(trimmed(line) == trimmed(line.drop_last()));
}

} // verus!
