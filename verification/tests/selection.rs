use functerm::shell::ShellChoice;

fn assert_rejected_starting_shell(value: &str) {
    if let Ok(choice) = ShellChoice::from_canonical_name(value) {
        panic!("{value} should not parse as starting shell, got {choice:?}");
    }
}

#[test]
fn canonical_shell_names_parse_to_supported_choices() {
    assert_eq!(
        ShellChoice::all()
            .iter()
            .map(|choice| choice.canonical_name())
            .collect::<Vec<_>>(),
        ["powershell", "bash", "nu", "zsh", "cmd", "bun", "python"]
    );
    for choice in ShellChoice::all() {
        assert_eq!(
            ShellChoice::from_canonical_name(choice.canonical_name()).unwrap(),
            choice
        );
    }
}

#[test]
fn starting_shell_does_not_accept_executable_aliases() {
    assert_rejected_starting_shell("pwsh");
    assert_rejected_starting_shell("powershell.exe");
    assert_rejected_starting_shell("bash.exe");
    assert_rejected_starting_shell("nushell");
    assert_rejected_starting_shell("cmd.exe");
    assert_rejected_starting_shell("bun.exe");
}

#[test]
fn unknown_shell_keeps_the_given_name() {
    let error = ShellChoice::from_canonical_name("Bash").unwrap_err();
    assert_eq!(error.value, "Bash");
    assert!(ShellChoice::from_canonical_name("").is_err());
}

#[test]
fn active_shell_text_is_trimmed_before_parsing() {
    assert_eq!(
        ShellChoice::from_active_shell_text("zsh\n").unwrap(),
        ShellChoice::Zsh
    );
    assert_eq!(
        ShellChoice::from_active_shell_text(" \t python \r\n").unwrap(),
        ShellChoice::Python
    );
    assert_eq!(
        ShellChoice::from_active_shell_text("\u{3000}cmd\u{a0}").unwrap(),
        ShellChoice::Cmd
    );
    let error = ShellChoice::from_active_shell_text("  fish \n").unwrap_err();
    assert_eq!(error.value, "fish");
    assert!(ShellChoice::from_active_shell_text("   ").is_err());
}

#[test]
fn shim_variables_name_each_real_executable() {
    assert_eq!(
        ShellChoice::all()
            .iter()
            .map(|choice| choice.shim_env_name())
            .collect::<Vec<_>>(),
        [
            "FUNCTERM_REAL_POWERSHELL",
            "FUNCTERM_REAL_BASH",
            "FUNCTERM_REAL_NUSHELL",
            "FUNCTERM_REAL_ZSH",
            "FUNCTERM_REAL_CMD",
            "FUNCTERM_REAL_BUN",
            "FUNCTERM_REAL_PYTHON",
        ]
    );
}

#[test]
fn unknown_shell_message_lists_the_canonical_names() {
    let error = ShellChoice::from_canonical_name("fish").unwrap_err();
    assert_eq!(
        error.message(),
        "unsupported shell `fish`; supported shells are powershell, bash, nu, zsh, cmd, bun, python"
    );
}

#[test]
fn written_active_shell_text_reads_back() {
    for choice in ShellChoice::all() {
        assert_eq!(ShellChoice::from_active_shell_text(choice.canonical_name()).unwrap(), choice);
        let line = format!("{}\n", choice.canonical_name());
        assert_eq!(ShellChoice::from_active_shell_text(&line).unwrap(), choice);
    }
}
