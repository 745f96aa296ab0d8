//! Per-shell behaviour: the line that runs a prepared command, how keyboard input is
//! converted, and which executable names a shim answers to.
use crate::environment::names_match;
use crate::platform::Platform;
use crate::shell::{all_choices, ShellChoice};
use vstd::prelude::*;
use vstd::slice::{slice_subrange, slice_to_vec};
use vstd::string::StringSliceAdditionalSpecFns;
use vstd::utf8::*;

verus! {

broadcast use vstd::string::group_string_axioms;

/// Carriage return, the Enter key.
pub const CR: u8 = 0x0d;

/// Line feed.
pub const LF: u8 = 0x0a;

/// How an invocation line is ended when typed into a shell.
#[derive(Debug, Clone, Copy, PartialEq, Eq, Structural)]
pub enum InvocationTerminator {
    /// `\r`, one Enter key press.
    CarriageReturn,
    /// `\n`.
    LineFeed,
    /// `\r\n`.
    CarriageReturnLineFeed,
}

/// The bytes that end an invocation line.
pub open spec fn terminator_bytes(terminator: InvocationTerminator) -> Seq<u8> {
    match terminator {
        InvocationTerminator::CarriageReturn => seq![CR],
        InvocationTerminator::LineFeed => seq![LF],
        InvocationTerminator::CarriageReturnLineFeed => seq![CR, LF],
    }
}

/// Why an invocation line was refused.
#[derive(Debug, Clone, Copy, PartialEq, Eq, Structural)]
pub enum InvocationError {
    /// The line holds a line break, which would end it early.
    LineBreak,
}

/// Whether a line of text holds a carriage return or a line feed.
pub open spec fn has_line_break(line: Seq<char>) -> bool {
    line.contains('\n') || line.contains('\r')
}

/// One line typed into a shell to run the prepared command, with its line ending.
#[derive(Debug)]
pub struct ShellInvocation {
    line: String,
    terminator: InvocationTerminator,
}

impl ShellInvocation {
    /// The line, without its ending.
    pub closed spec fn line_text(&self) -> Seq<char> {
        self.line@
    }

    /// The ending of the line.
    pub closed spec fn ending(&self) -> InvocationTerminator {
        self.terminator
    }

    /// An invocation typing `line`; refused when the line itself holds a line break.
    pub fn new(line: String, terminator: InvocationTerminator) -> (r: Result<Self, InvocationError>)
        ensures
            has_line_break(line@) ==> r == Err::<Self, InvocationError>(InvocationError::LineBreak),
            !has_line_break(line@) ==> (r matches Ok(invocation) && invocation.line_text()
                == line@ && invocation.ending() == terminator),
    {
        let ghost text = line@;
        for c in it: line.chars()
            invariant
                it.seq() == text,
                text == line@,
                forall|k: int| 0 <= k < it.index() ==> text[k] != '\n' && text[k] != '\r',
        {
            if c == '\n' || c == '\r' {
                proof {
                    let k = it.index() as int;
                    assert(text.take(k + 1).last() == c);
                    assert(text[k] == c);
                    assert(has_line_break(text));
                }
                return Err(InvocationError::LineBreak);
            }
        }
        Ok(Self { line, terminator })
    }

    /// The bytes typed into the shell: the UTF-8 line, then its ending.
    pub fn into_bytes(self) -> (r: Vec<u8>)
        ensures
            r@ == encode_utf8(self.line_text()) + terminator_bytes(self.ending()),
    {
        let mut bytes = slice_to_vec(self.line.as_str().as_bytes());
        match self.terminator {
            InvocationTerminator::CarriageReturn => {
                bytes.push(CR);
            },
            InvocationTerminator::LineFeed => {
                bytes.push(LF);
            },
            InvocationTerminator::CarriageReturnLineFeed => {
                bytes.push(CR);
                bytes.push(LF);
            },
        }
        assert(bytes@ =~= encode_utf8(self.line_text()) + terminator_bytes(self.ending()));
        bytes
    }
}

/// How the dispatcher line `f` is ended for each shell, or `None` for runtimes that
/// are not driven through a dispatcher function.
pub open spec fn dispatcher_terminator(choice: ShellChoice, platform: Platform) -> Option<
    InvocationTerminator,
> {
    match choice {
        ShellChoice::PowerShell => Some(InvocationTerminator::CarriageReturn),
        ShellChoice::Cmd => Some(InvocationTerminator::CarriageReturnLineFeed),
        ShellChoice::NuShell => Some(
            if platform == Platform::Windows {
                InvocationTerminator::CarriageReturnLineFeed
            } else {
                InvocationTerminator::LineFeed
            },
        ),
        ShellChoice::Bash | ShellChoice::Zsh => Some(InvocationTerminator::LineFeed),
        ShellChoice::Bun | ShellChoice::Python => None,
    }
}

/// The line that runs a prepared command in `choice`: the dispatcher function `f`,
/// ended as the shell reads an Enter key on `platform`.
pub fn invocation(choice: ShellChoice, platform: Platform) -> (r: Result<
    Option<ShellInvocation>,
    InvocationError,
>)
    ensures
        r matches Ok(found) && match dispatcher_terminator(choice, platform) {
            Some(terminator) => found matches Some(invocation) && invocation.line_text() == "f"@
                && invocation.ending() == terminator,
            None => found is None,
        },
        choice == ShellChoice::PowerShell ==> (r matches Ok(Some(invocation))
            && invocation.ending() == InvocationTerminator::CarriageReturn),
{
    let terminator = match choice {
        ShellChoice::PowerShell => InvocationTerminator::CarriageReturn,
        ShellChoice::Cmd => InvocationTerminator::CarriageReturnLineFeed,
        ShellChoice::NuShell => match platform {
            Platform::Windows => InvocationTerminator::CarriageReturnLineFeed,
            Platform::Unix => InvocationTerminator::LineFeed,
        },
        ShellChoice::Bash | ShellChoice::Zsh => InvocationTerminator::LineFeed,
        ShellChoice::Bun | ShellChoice::Python => return Ok(None),
    };
    proof {
        reveal_strlit("f");
    }
    let line = String::from_str("f");
    assert(!has_line_break(line@)) by {
        assert(line@.len() == 1 && line@[0] == 'f');
    }
    let invocation = ShellInvocation::new(line, terminator)?;
    Ok(Some(invocation))
}

/// Law: the dispatcher line is typed with one carriage return into PowerShell on every
/// platform, with `\r\n` into cmd, with a line feed into bash and zsh, and with the
/// platform's own line ending into Nushell; Bun and Python get no dispatcher line.
pub proof fn dispatcher_line_endings(platform: Platform)
    ensures
        dispatcher_terminator(ShellChoice::PowerShell, platform) == Some(
            InvocationTerminator::CarriageReturn,
        ),
        terminator_bytes(InvocationTerminator::CarriageReturn) == seq![0x0du8],
        dispatcher_terminator(ShellChoice::Cmd, platform) == Some(
            InvocationTerminator::CarriageReturnLineFeed,
        ),
        dispatcher_terminator(ShellChoice::Bash, platform) == Some(InvocationTerminator::LineFeed),
        dispatcher_terminator(ShellChoice::Zsh, platform) == Some(InvocationTerminator::LineFeed),
        dispatcher_terminator(ShellChoice::NuShell, Platform::Windows) == Some(
            InvocationTerminator::CarriageReturnLineFeed,
        ),
        dispatcher_terminator(ShellChoice::NuShell, Platform::Unix) == Some(
            InvocationTerminator::LineFeed,
        ),
        dispatcher_terminator(ShellChoice::Bun, platform) is None,
        dispatcher_terminator(ShellChoice::Python, platform) is None,
{
}

/// PowerShell keyboard input: every line break (`\r\n`, `\n` or `\r`) becomes one
/// carriage return, the single Enter key that PSReadLine expects.
pub open spec fn powershell_keys(bytes: Seq<u8>) -> Seq<u8>
    decreases bytes.len(),
{
    if bytes.len() == 0 {
        seq![]
    } else {
        let before = powershell_keys(bytes.drop_last());
        let last = bytes.last();
        if last == LF {
            if bytes.len() >= 2 && bytes[bytes.len() - 2] == CR {
                before
            } else {
                before.push(CR)
            }
        } else {
            before.push(last)
        }
    }
}

/// What keyboard input is written to a session of `choice`.
pub open spec fn keyboard_keys(choice: ShellChoice, bytes: Seq<u8>) -> Seq<u8> {
    if choice == ShellChoice::PowerShell {
        powershell_keys(bytes)
    } else {
        bytes
    }
}

/// Converts keyboard input for `choice`: PowerShell gets one carriage return per
/// line break, every other shell the bytes unchanged.
pub fn keyboard_bytes(choice: ShellChoice, bytes: &[u8]) -> (r: Vec<u8>)
    ensures
        r@ == keyboard_keys(choice, bytes@),
{
    if choice != ShellChoice::PowerShell {
        return slice_to_vec(bytes);
    }
    let mut keys: Vec<u8> = Vec::new();
    let mut i: usize = 0;
    while i < bytes.len()
        invariant
            0 <= i <= bytes@.len(),
            keys@ == powershell_keys(bytes@.take(i as int)),
        decreases bytes@.len() - i,
    {
        proof {
            assert(bytes@.take(i + 1).drop_last() =~= bytes@.take(i as int));
            assert(bytes@.take(i + 1).last() == bytes@[i as int]);
            if i >= 1 {
                assert(bytes@.take(i + 1)[i - 1] == bytes@[i - 1]);
            }
        }
        let byte = bytes[i];
        if byte == LF {
            if !(i >= 1 && bytes[i - 1] == CR) {
                keys.push(CR);
            }
        } else {
            keys.push(byte);
        }
        i = i + 1;
    }
    assert(bytes@.take(i as int) =~= bytes@);
    keys
}

/// The executable names, without `.exe`, that a shim of each shell is installed as.
pub open spec fn alias_table() -> Seq<(ShellChoice, Seq<char>)> {
    seq![
        (ShellChoice::PowerShell, "powershell"@),
        (ShellChoice::PowerShell, "pwsh"@),
        (ShellChoice::Bash, "bash"@),
        (ShellChoice::NuShell, "nu"@),
        (ShellChoice::NuShell, "nushell"@),
        (ShellChoice::Zsh, "zsh"@),
        (ShellChoice::Cmd, "cmd"@),
        (ShellChoice::Bun, "bun"@),
        (ShellChoice::Python, "python"@),
        (ShellChoice::Python, "python3"@),
        (ShellChoice::Python, "pypy3"@),
    ]
}

/// The shell of the first table entry whose name is `stem`.
pub open spec fn lookup_alias(table: Seq<(ShellChoice, Seq<char>)>, stem: Seq<char>) -> Option<
    ShellChoice,
>
    decreases table.len(),
{
    if table.len() == 0 {
        None
    } else if table[0].1 == stem {
        Some(table[0].0)
    } else {
        lookup_alias(table.drop_first(), stem)
    }
}

/// An executable name without a trailing `.exe`.
pub open spec fn shim_stem(name: Seq<char>) -> Seq<char> {
    if name.len() >= 4 && name.subrange(name.len() - 4, name.len() as int) == ".exe"@ {
        name.subrange(0, name.len() - 4)
    } else {
        name
    }
}

/// The shell a shim was invoked as, from the name of its executable.
pub open spec fn shim_choice(name: Seq<char>) -> Option<ShellChoice> {
    lookup_alias(alias_table(), shim_stem(name))
}

/// The names, in table order, that a shim of `choice` is installed under.
pub open spec fn aliases_of(table: Seq<(ShellChoice, Seq<char>)>, choice: ShellChoice) -> Seq<
    Seq<char>,
>
    decreases table.len(),
{
    if table.len() == 0 {
        seq![]
    } else {
        let rest = aliases_of(table.drop_first(), choice);
        if table[0].0 == choice {
            seq![table[0].1] + rest
        } else {
            rest
        }
    }
}

/// The file name of a shim installed under `alias`: with `.exe` on Windows.
pub open spec fn shim_file_name(alias: Seq<char>, platform: Platform) -> Seq<char> {
    if platform == Platform::Windows {
        alias + ".exe"@
    } else {
        alias
    }
}

/// The file names of a shell's shims on `platform`, in table order.
pub open spec fn shim_names(choice: ShellChoice, platform: Platform) -> Seq<Seq<char>> {
    aliases_of(alias_table(), choice).map_values(|alias: Seq<char>| shim_file_name(alias, platform))
}

/// The entries of the alias table.
fn aliases() -> (r: Vec<(ShellChoice, &'static str)>)
    ensures
        r@.map_values(|entry: (ShellChoice, &str)| (entry.0, entry.1@)) == alias_table(),
{
    let r = vec![
        (ShellChoice::PowerShell, "powershell"),
        (ShellChoice::PowerShell, "pwsh"),
        (ShellChoice::Bash, "bash"),
        (ShellChoice::NuShell, "nu"),
        (ShellChoice::NuShell, "nushell"),
        (ShellChoice::Zsh, "zsh"),
        (ShellChoice::Cmd, "cmd"),
        (ShellChoice::Bun, "bun"),
        (ShellChoice::Python, "python"),
        (ShellChoice::Python, "python3"),
        (ShellChoice::Python, "pypy3"),
    ];
    assert(r@.map_values(|entry: (ShellChoice, &str)| (entry.0, entry.1@)) =~= alias_table());
    r
}

/// The shell that a shim executable named `value` stands for, if any.
pub fn from_shim_name(value: &str) -> (r: Option<ShellChoice>)
    ensures
        r == shim_choice(value@),
{
    let n = value.unicode_len();
    let mut stem = value;
    if n >= 4 && crate::text::str_equal(value.substring_char(n - 4, n), ".exe") {
        stem = value.substring_char(0, n - 4);
    }
    assert(stem@ == shim_stem(value@));
    let table = aliases();
    let ghost view = table@.map_values(|entry: (ShellChoice, &str)| (entry.0, entry.1@));
    let mut i: usize = 0;
    assert(view.skip(0) =~= view);
    while i < table.len()
        invariant
            view == table@.map_values(|entry: (ShellChoice, &str)| (entry.0, entry.1@)),
            view == alias_table(),
            stem@ == shim_stem(value@),
            0 <= i <= table@.len(),
            lookup_alias(view, stem@) == lookup_alias(view.skip(i as int), stem@),
        decreases table@.len() - i,
    {
        let (choice, alias) = table[i];
        assert(view.skip(i as int)[0] == (choice, alias@));
        if crate::text::str_equal(alias, stem) {
            assert(lookup_alias(view.skip(i as int), stem@) == Some(choice));
            return Some(choice);
        }
        assert(view.skip(i as int).drop_first() =~= view.skip(i + 1));
        i = i + 1;
    }
    None
}

/// The file names that the shims of `choice` are installed under on `platform`.
pub fn shim_executable_names(choice: ShellChoice, platform: Platform) -> (r: Vec<String>)
    ensures
        r@.map_values(|name: String| name@) == shim_names(choice, platform),
{
    let table = aliases();
    let ghost view = table@.map_values(|entry: (ShellChoice, &str)| (entry.0, entry.1@));
    let mut names: Vec<String> = Vec::new();
    let mut i: usize = table.len();
    assert(view.skip(i as int) =~= Seq::<(ShellChoice, Seq<char>)>::empty());
    assert(names@.map_values(|name: String| name@) =~= aliases_of(view.skip(i as int), choice).map_values(
        |alias: Seq<char>| shim_file_name(alias, platform),
    ));
    while i > 0
        invariant
            view == table@.map_values(|entry: (ShellChoice, &str)| (entry.0, entry.1@)),
            view == alias_table(),
            0 <= i <= table@.len(),
            names@.map_values(|name: String| name@) == aliases_of(view.skip(i as int), choice).map_values(
                |alias: Seq<char>| shim_file_name(alias, platform),
            ),
        decreases i,
    {
        i = i - 1;
        let (owner, alias) = table[i];
        assert(view.skip(i as int)[0] == (owner, alias@));
        assert(view.skip(i as int).drop_first() =~= view.skip(i + 1));
        if owner == choice {
            let mut name = String::from_str(alias);
            if platform == Platform::Windows {
                name.append(".exe");
            }
            assert(name@ == shim_file_name(alias@, platform));
            let ghost before = names@;
            names.insert(0, name);
            assert(names@ == seq![name] + before);
            let ghost rest = aliases_of(view.skip(i + 1), choice);
            assert(aliases_of(view.skip(i as int), choice) == seq![alias@] + rest);
            let ghost lhs = names@.map_values(|name: String| name@);
            let ghost rhs = (seq![alias@] + rest).map_values(
                |alias: Seq<char>| shim_file_name(alias, platform),
            );
            let ghost old_l = before.map_values(|name: String| name@);
            let ghost old_r = rest.map_values(|alias: Seq<char>| shim_file_name(alias, platform));
            assert(old_l == old_r);
            assert(old_l.len() == before.len() && old_r.len() == rest.len());
            assert forall|k: int| 0 <= k < lhs.len() implies lhs[k] == rhs[k] by {
                if k == 0 {
                    assert(lhs[0] == name@);
                    assert(rhs[0] == shim_file_name(alias@, platform));
                } else {
                    assert(lhs[k] == before[k - 1]@);
                    assert(old_l[k - 1] == before[k - 1]@);
                    assert(rhs[k] == shim_file_name(rest[k - 1], platform));
                    assert(old_r[k - 1] == shim_file_name(rest[k - 1], platform));
                }
            }
            assert(lhs =~= rhs);
            assert(names@.map_values(|name: String| name@) =~= aliases_of(view.skip(i as int), choice).map_values(
                |alias: Seq<char>| shim_file_name(alias, platform),
            ));
        }
    }
    assert(view.skip(0) =~= view);
    names
}


proof fn lemma_aliases_of_entries(table: Seq<(ShellChoice, Seq<char>)>, choice: ShellChoice)
    ensures
        forall|m: int|
            0 <= m < aliases_of(table, choice).len() ==> exists|j: int|
                0 <= j < table.len() && table[j].0 == choice && table[j].1 == #[trigger] aliases_of(
                    table,
                    choice,
                )[m],
    decreases table.len(),
{
    if table.len() > 0 {
        let tail = table.drop_first();
        lemma_aliases_of_entries(tail, choice);
        let rest = aliases_of(tail, choice);
        assert forall|m: int| 0 <= m < aliases_of(table, choice).len() implies exists|j: int|
            0 <= j < table.len() && table[j].0 == choice && table[j].1 == #[trigger] aliases_of(
                table,
                choice,
            )[m] by {
            if table[0].0 == choice && m == 0 {
                assert(aliases_of(table, choice)[0] == table[0].1);
            } else {
                let m2 = if table[0].0 == choice {
                    m - 1
                } else {
                    m
                };
                assert(aliases_of(table, choice)[m] == rest[m2]);
                let j = choose|j: int|
                    0 <= j < tail.len() && tail[j].0 == choice && tail[j].1 == #[trigger] rest[m2];
                assert(table[j + 1] == tail[j]);
            }
        }
    }
}

proof fn lemma_alias_entry(k: int)
    requires
        0 <= k < alias_table().len(),
    ensures
        lookup_alias(alias_table(), alias_table()[k].1) == Some(alias_table()[k].0),
        forall|platform: Platform|
            shim_stem(#[trigger] shim_file_name(alias_table()[k].1, platform)) == alias_table()[k].1,
{
    reveal_strlit("powershell");
    reveal_strlit("pwsh");
    reveal_strlit("bash");
    reveal_strlit("nu");
    reveal_strlit("nushell");
    reveal_strlit("zsh");
    reveal_strlit("cmd");
    reveal_strlit("bun");
    reveal_strlit("python");
    reveal_strlit("python3");
    reveal_strlit("pypy3");
    reveal_strlit(".exe");
    reveal_with_fuel(lookup_alias, 12);
    let t = alias_table();
    let a = t[k].1;
    assert(".exe"@.len() == 4 && ".exe"@[0] == '.');
    assert forall|j: int| 0 <= j < a.len() implies #[trigger] a[j] != '.' by {
        if k == 0 { assert(a[j] == "powershell"@[j]); }
        else if k == 1 { assert(a[j] == "pwsh"@[j]); }
        else if k == 2 { assert(a[j] == "bash"@[j]); }
        else if k == 3 { assert(a[j] == "nu"@[j]); }
        else if k == 4 { assert(a[j] == "nushell"@[j]); }
        else if k == 5 { assert(a[j] == "zsh"@[j]); }
        else if k == 6 { assert(a[j] == "cmd"@[j]); }
        else if k == 7 { assert(a[j] == "bun"@[j]); }
        else if k == 8 { assert(a[j] == "python"@[j]); }
        else if k == 9 { assert(a[j] == "python3"@[j]); }
        else { assert(a[j] == "pypy3"@[j]); }
    }
    assert forall|platform: Platform| shim_stem(#[trigger] shim_file_name(a, platform)) == a by {
        let name = shim_file_name(a, platform);
        if platform == Platform::Windows {
            assert(name.subrange(name.len() - 4, name.len() as int) =~= ".exe"@);
            assert(name.subrange(0, name.len() - 4) =~= a);
        } else if a.len() >= 4 {
            assert(a.subrange(a.len() - 4, a.len() as int)[0] != ".exe"@[0]);
        }
    }
    assert("powershell"@.len() == 10);
    assert("pwsh"@.len() == 4 && "pwsh"@[1] == 'w');
    assert("bash"@.len() == 4 && "bash"@[0] == 'b');
    assert("nu"@.len() == 2);
    assert("nushell"@.len() == 7 && "nushell"@[0] == 'n');
    assert("zsh"@.len() == 3 && "zsh"@[0] == 'z');
    assert("cmd"@.len() == 3 && "cmd"@[0] == 'c');
    assert("bun"@.len() == 3 && "bun"@[0] == 'b');
    assert("python"@.len() == 6);
    assert("python3"@.len() == 7 && "python3"@[0] == 'p');
    assert("pypy3"@.len() == 5 && "pypy3"@[0] == 'p');
}

/// Law: every file name a shim of `choice` is installed under on `platform` routes back
/// to `choice`.
pub proof fn shim_names_route_back(choice: ShellChoice, platform: Platform)
    ensures
        forall|k: int|
            0 <= k < shim_names(choice, platform).len() ==> shim_choice(
                #[trigger] shim_names(choice, platform)[k],
            ) == Some(choice),
{
    let aliases = aliases_of(alias_table(), choice);
    lemma_aliases_of_entries(alias_table(), choice);
    assert forall|k: int| 0 <= k < shim_names(choice, platform).len() implies shim_choice(
        #[trigger] shim_names(choice, platform)[k],
    ) == Some(choice) by {
        assert(shim_names(choice, platform)[k] == shim_file_name(aliases[k], platform));
        let j = choose|j: int|
            0 <= j < alias_table().len() && alias_table()[j].0 == choice && alias_table()[j].1
                == #[trigger] aliases[k];
        lemma_alias_entry(j);
    }
}


/// Law: PowerShell keyboard input never holds a line feed, and input without a line
/// feed reaches PowerShell unchanged.
pub proof fn powershell_keys_never_send_line_feeds(bytes: Seq<u8>)
    ensures
        !powershell_keys(bytes).contains(LF),
        !bytes.contains(LF) ==> powershell_keys(bytes) == bytes,
    decreases bytes.len(),
{
    if bytes.len() > 0 {
        let rest = bytes.drop_last();
        powershell_keys_never_send_line_feeds(rest);
        let before = powershell_keys(rest);
        let last = bytes.last();
        assert forall|k: int| 0 <= k < powershell_keys(bytes).len() implies powershell_keys(bytes)[k]
            != LF by {
            if k < before.len() {
                assert(powershell_keys(bytes)[k] == before[k]);
            }
        }
        if !bytes.contains(LF) {
            assert forall|k: int| 0 <= k < rest.len() implies rest[k] != LF by {
                assert(rest[k] == bytes[k]);
            }
            assert(last != LF);
            assert(before.push(last) =~= bytes);
        }
    }
}

/// Law: PowerShell keys of joined input are the keys of each part, except where the
/// first part ends with a carriage return and the second starts with the line feed
/// that completes that `\r\n`.
pub proof fn powershell_keys_concatenate(first: Seq<u8>, second: Seq<u8>)
    requires
        !(first.len() > 0 && first.last() == 0x0du8 && second.len() > 0 && second[0] == 0x0au8),
    ensures
        powershell_keys(first + second) == powershell_keys(first) + powershell_keys(second),
    decreases second.len(),
{
    let joined = first + second;
    if second.len() == 0 {
        assert(joined =~= first);
        assert(powershell_keys(first) + powershell_keys(second) =~= powershell_keys(first));
    } else {
        let rest = second.drop_last();
        powershell_keys_concatenate(first, rest);
        assert(joined.drop_last() =~= first + rest);
        assert(joined.last() == second.last());
        if second.len() >= 2 {
            assert(joined[joined.len() - 2] == second[second.len() - 2]);
        } else if first.len() > 0 {
            assert(joined[joined.len() - 2] == first.last());
        }
        assert(powershell_keys(rest) == powershell_keys(second.drop_last()));
        if second.last() == LF {
            if second.len() >= 2 && second[second.len() - 2] == CR {
                assert(powershell_keys(joined) =~= powershell_keys(first) + powershell_keys(
                    second,
                ));
            } else {
                assert(powershell_keys(joined) =~= powershell_keys(first) + powershell_keys(
                    second,
                ));
            }
        } else {
            assert(powershell_keys(joined) =~= powershell_keys(first) + powershell_keys(second));
        }
    }
}

/// Law: each line break on its own (`\n`, `\r\n` or `\r`) is typed into PowerShell as
/// one carriage return, and every other byte as itself.
pub proof fn powershell_line_breaks_are_one_enter(byte: u8)
    ensures
        powershell_keys(seq![0x0au8]) == seq![0x0du8],
        powershell_keys(seq![0x0du8, 0x0au8]) == seq![0x0du8],
        powershell_keys(seq![0x0du8]) == seq![0x0du8],
        byte != 0x0au8 ==> powershell_keys(seq![byte]) == seq![byte],
{
    assert(seq![0x0au8].drop_last() =~= Seq::<u8>::empty());
    assert(seq![0x0du8].drop_last() =~= Seq::<u8>::empty());
    assert(seq![byte].drop_last() =~= Seq::<u8>::empty());
    assert(seq![0x0du8, 0x0au8].drop_last() =~= seq![0x0du8]);
    assert(powershell_keys(Seq::<u8>::empty()).push(0x0du8) =~= seq![0x0du8]);
    assert(powershell_keys(Seq::<u8>::empty()).push(byte) =~= seq![byte]);
    assert(powershell_keys(seq![0x0du8]) == seq![0x0du8]);
    let pair = seq![0x0du8, 0x0au8];
    assert(pair.len() == 2 && pair[0] == 0x0du8 && pair.last() == 0x0au8);
    assert(powershell_keys(pair) == powershell_keys(pair.drop_last()));
}

/// Law: every shell but PowerShell receives keyboard input byte for byte.
pub proof fn other_shells_receive_keys_unchanged(choice: ShellChoice, bytes: Seq<u8>)
    requires
        choice != ShellChoice::PowerShell,
    ensures
        keyboard_keys(choice, bytes) == bytes,
{
}

/// Law: two typed lines joined by a line feed reach PowerShell as the first line, one
/// carriage return, and the second line.
pub proof fn powershell_lines_are_entered_one_by_one(first: Seq<u8>, second: Seq<u8>)
    requires
        !first.contains(0x0du8) && !first.contains(0x0au8),
        !second.contains(0x0du8) && !second.contains(0x0au8),
    ensures
        powershell_keys(first + seq![0x0au8] + second) == first + seq![0x0du8] + second,
{
    powershell_keys_never_send_line_feeds(first);
    powershell_keys_never_send_line_feeds(second);
    powershell_line_breaks_are_one_enter(0);
    if first.len() > 0 {
        assert(first.contains(first.last()));
    }
    powershell_keys_concatenate(first, seq![0x0au8]);
    powershell_keys_concatenate(first + seq![0x0au8], second);
}

/// The arguments with which each shell still starts as an interactive session that
/// FuncTerm can manage.
pub open spec fn session_flags(choice: ShellChoice) -> Seq<Seq<char>> {
    match choice {
        ShellChoice::PowerShell => seq!["-NoLogo"@, "-NoProfile"@],
        ShellChoice::Bash | ShellChoice::Zsh => seq!["-i"@],
        ShellChoice::NuShell => seq!["--no-history"@],
        ShellChoice::Cmd => seq!["/D"@, "/Q"@],
        ShellChoice::Bun => seq![],
        ShellChoice::Python => seq!["-i"@, "-u"@, "-q"@],
    }
}

/// Whether `argument` (as encoded bytes) is one of `flags`.
pub open spec fn is_flag(flags: Seq<Seq<char>>, argument: Seq<u8>) -> bool {
    exists|k: int| 0 <= k < flags.len() && encode_utf8(#[trigger] flags[k]) == argument
}

/// Whether a shell invoked with `arguments` only asks for an interactive session: Bun
/// exactly with `repl`; every other shell when each argument is one of its session
/// flags (so no command, script, module or standard-input source is named).
pub open spec fn interactive(choice: ShellChoice, arguments: Seq<Seq<u8>>) -> bool {
    if choice == ShellChoice::Bun {
        arguments.len() == 1 && arguments[0] == encode_utf8("repl"@)
    } else {
        forall|i: int| 0 <= i < arguments.len() ==> is_flag(session_flags(choice), #[trigger] arguments[i])
    }
}

/// Law: a shim invocation asks for an interactive session exactly when its arguments
/// are PowerShell's `-NoLogo` and `-NoProfile`, bash's and zsh's `-i`, Nushell's
/// `--no-history`, cmd's `/D` and `/Q`, Python's `-i`, `-u` and `-q`, or Bun's single
/// `repl`; any other argument runs the real program.
pub proof fn session_flags_are_listed(arguments: Seq<Seq<u8>>)
    ensures
        interactive(ShellChoice::PowerShell, arguments) <==> (forall|i: int|
            0 <= i < arguments.len() ==> #[trigger] arguments[i] == encode_utf8("-NoLogo"@)
                || arguments[i] == encode_utf8("-NoProfile"@)),
        interactive(ShellChoice::Bash, arguments) <==> (forall|i: int|
            0 <= i < arguments.len() ==> #[trigger] arguments[i] == encode_utf8("-i"@)),
        interactive(ShellChoice::Zsh, arguments) <==> (forall|i: int|
            0 <= i < arguments.len() ==> #[trigger] arguments[i] == encode_utf8("-i"@)),
        interactive(ShellChoice::NuShell, arguments) <==> (forall|i: int|
            0 <= i < arguments.len() ==> #[trigger] arguments[i] == encode_utf8("--no-history"@)),
        interactive(ShellChoice::Cmd, arguments) <==> (forall|i: int|
            0 <= i < arguments.len() ==> #[trigger] arguments[i] == encode_utf8("/D"@)
                || arguments[i] == encode_utf8("/Q"@)),
        interactive(ShellChoice::Python, arguments) <==> (forall|i: int|
            0 <= i < arguments.len() ==> #[trigger] arguments[i] == encode_utf8("-i"@)
                || arguments[i] == encode_utf8("-u"@) || arguments[i] == encode_utf8("-q"@)),
        interactive(ShellChoice::Bun, arguments) <==> arguments == seq![encode_utf8("repl"@)],
{
    assert forall|x: Seq<u8>|
        is_flag(session_flags(ShellChoice::PowerShell), x) <==> (x == encode_utf8("-NoLogo"@) || x
            == encode_utf8("-NoProfile"@)) by {
        let f = session_flags(ShellChoice::PowerShell);
        assert(f.len() == 2 && f[0] == "-NoLogo"@ && f[1] == "-NoProfile"@);
    }
    assert forall|x: Seq<u8>|
        is_flag(session_flags(ShellChoice::Bash), x) <==> x == encode_utf8("-i"@) by {
        let f = session_flags(ShellChoice::Bash);
        assert(f.len() == 1 && f[0] == "-i"@);
    }
    assert forall|x: Seq<u8>|
        is_flag(session_flags(ShellChoice::Zsh), x) <==> x == encode_utf8("-i"@) by {
        let f = session_flags(ShellChoice::Zsh);
        assert(f.len() == 1 && f[0] == "-i"@);
    }
    assert forall|x: Seq<u8>|
        is_flag(session_flags(ShellChoice::NuShell), x) <==> x == encode_utf8("--no-history"@) by {
        let f = session_flags(ShellChoice::NuShell);
        assert(f.len() == 1 && f[0] == "--no-history"@);
    }
    assert forall|x: Seq<u8>|
        is_flag(session_flags(ShellChoice::Cmd), x) <==> (x == encode_utf8("/D"@) || x
            == encode_utf8("/Q"@)) by {
        let f = session_flags(ShellChoice::Cmd);
        assert(f.len() == 2 && f[0] == "/D"@ && f[1] == "/Q"@);
    }
    assert forall|x: Seq<u8>|
        is_flag(session_flags(ShellChoice::Python), x) <==> (x == encode_utf8("-i"@) || x
            == encode_utf8("-u"@) || x == encode_utf8("-q"@)) by {
        let f = session_flags(ShellChoice::Python);
        assert(f.len() == 3 && f[0] == "-i"@ && f[1] == "-u"@ && f[2] == "-q"@);
    }
    if interactive(ShellChoice::Bun, arguments) {
        assert(arguments =~= seq![encode_utf8("repl"@)]);
    }
}

fn session_flag_list(choice: ShellChoice) -> (r: Vec<&'static str>)
    ensures
        r@.map_values(|flag: &str| flag@) == session_flags(choice),
{
    let r = match choice {
        ShellChoice::PowerShell => vec!["-NoLogo", "-NoProfile"],
        ShellChoice::Bash | ShellChoice::Zsh => vec!["-i"],
        ShellChoice::NuShell => vec!["--no-history"],
        ShellChoice::Cmd => vec!["/D", "/Q"],
        ShellChoice::Bun => Vec::new(),
        ShellChoice::Python => vec!["-i", "-u", "-q"],
    };
    assert(r@.map_values(|flag: &str| flag@) =~= session_flags(choice));
    r
}

fn is_session_flag(flags: &Vec<&'static str>, argument: &[u8]) -> (r: bool)
    ensures
        r == is_flag(flags@.map_values(|flag: &str| flag@), argument@),
{
    let ghost view = flags@.map_values(|flag: &str| flag@);
    let mut k: usize = 0;
    while k < flags.len()
        invariant
            view == flags@.map_values(|flag: &str| flag@),
            0 <= k <= flags@.len(),
            forall|j: int| 0 <= j < k ==> encode_utf8(#[trigger] view[j]) != argument@,
        decreases flags@.len() - k,
    {
        assert(view[k as int] == flags@[k as int]@);
        if crate::text::bytes_equal(flags[k].as_bytes(), argument) {
            return true;
        }
        k = k + 1;
    }
    false
}

/// Whether `arguments` (as encoded bytes) only ask `choice` for an interactive session.
pub fn interactive_arguments(choice: ShellChoice, arguments: &Vec<Vec<u8>>) -> (r: bool)
    ensures
        r == interactive(choice, arguments@.map_values(|argument: Vec<u8>| argument@)),
{
    let ghost args = arguments@.map_values(|argument: Vec<u8>| argument@);
    if choice == ShellChoice::Bun {
        if arguments.len() != 1 {
            return false;
        }
        assert(args[0] == arguments@[0]@);
        return crate::text::bytes_equal(arguments[0].as_slice(), "repl".as_bytes());
    }
    let flags = session_flag_list(choice);
    let mut i: usize = 0;
    while i < arguments.len()
        invariant
            args == arguments@.map_values(|argument: Vec<u8>| argument@),
            flags@.map_values(|flag: &str| flag@) == session_flags(choice),
            choice != ShellChoice::Bun,
            0 <= i <= arguments@.len(),
            forall|j: int| 0 <= j < i ==> is_flag(session_flags(choice), #[trigger] args[j]),
        decreases arguments@.len() - i,
    {
        assert(args[i as int] == arguments@[i as int]@);
        if !is_session_flag(&flags, arguments[i].as_slice()) {
            assert(!is_flag(session_flags(choice), args[i as int]));
            assert(!interactive(choice, args));
            return false;
        }
        i = i + 1;
    }
    true
}

} // verus!
