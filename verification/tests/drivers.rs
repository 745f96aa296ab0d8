use functerm::drivers::{invocation, keyboard_bytes, InvocationError, InvocationTerminator, ShellInvocation};
use functerm::platform::Platform;
use functerm::shell::ShellChoice;

fn dispatcher_bytes(choice: ShellChoice, platform: Platform) -> Vec<u8> {
    invocation(choice, platform).unwrap().unwrap().into_bytes()
}

#[test]
fn invocation_rejects_embedded_line_breaks() {
    for line in ["command\nnext", "command\rnext"] {
        let result = ShellInvocation::new(line.to_owned(), InvocationTerminator::CarriageReturn);
        assert!(
            result.is_err(),
            "invocation line with a line break should be rejected"
        );
    }
}

#[test]
fn invocation_line_errors_name_the_line_break() {
    let error = ShellInvocation::new("a\n".to_owned(), InvocationTerminator::LineFeed).unwrap_err();
    assert_eq!(error, InvocationError::LineBreak);
    let bytes = ShellInvocation::new("é".to_owned(), InvocationTerminator::CarriageReturnLineFeed)
        .unwrap()
        .into_bytes();
    assert_eq!(bytes, "é\r\n".as_bytes());
}

#[test]
fn invocation_uses_windows_line_ending() {
    for platform in [Platform::Unix, Platform::Windows] {
        assert_eq!(dispatcher_bytes(ShellChoice::Cmd, platform), b"f\r\n");
    }
}

#[test]
fn invocation_uses_platform_line_ending() {
    assert_eq!(dispatcher_bytes(ShellChoice::NuShell, Platform::Windows), b"f\r\n");
    assert_eq!(dispatcher_bytes(ShellChoice::NuShell, Platform::Unix), b"f\n");
}

#[test]
fn invocation_uses_line_feed() {
    for choice in [ShellChoice::Bash, ShellChoice::Zsh] {
        let bytes = dispatcher_bytes(choice, Platform::Unix);
        assert_eq!(bytes, b"f\n");
    }
}

#[test]
fn invocation_is_short_dispatcher() {
    let invocation = ShellChoice::PowerShell.invocation(Platform::Windows).unwrap().unwrap();
    let bytes = invocation.into_bytes();
    assert_eq!(bytes, b"f\r");
}

#[test]
fn runtimes_have_no_dispatcher_line() {
    assert!(invocation(ShellChoice::Bun, Platform::Unix).unwrap().is_none());
    assert!(invocation(ShellChoice::Python, Platform::Windows).unwrap().is_none());
}

#[test]
fn keyboard_input_encodes_each_line_break_as_one_enter() {
    assert_eq!(
        keyboard_bytes(ShellChoice::PowerShell, b"exit\n").as_slice(),
        b"exit\r".as_slice()
    );
    assert_eq!(
        keyboard_bytes(ShellChoice::PowerShell, b"exit\r\n").as_slice(),
        b"exit\r".as_slice()
    );
}

#[test]
fn powershell_keys_handle_every_line_break_shape() {
    assert_eq!(
        ShellChoice::PowerShell.keyboard_bytes(b"\n\r\r\n\n\r"),
        b"\r\r\r\r\r"
    );
    assert_eq!(ShellChoice::PowerShell.keyboard_bytes(b""), b"");
    assert_eq!(ShellChoice::Bash.keyboard_bytes(b"exit\r\n"), b"exit\r\n");
    assert_eq!(ShellChoice::Cmd.keyboard_bytes(b"a\nb"), b"a\nb");
}

#[test]
fn executable_aliases_only_parse_for_shim_invocation() {
    assert_eq!(
        ShellChoice::from_shim_name("powershell.exe"),
        Some(ShellChoice::PowerShell)
    );
    assert_eq!(
        ShellChoice::from_shim_name("pwsh"),
        Some(ShellChoice::PowerShell)
    );
    assert_eq!(
        ShellChoice::from_shim_name("bash.exe"),
        Some(ShellChoice::Bash)
    );
    assert_eq!(
        ShellChoice::from_shim_name("nushell.exe"),
        Some(ShellChoice::NuShell)
    );
    assert_eq!(
        ShellChoice::from_shim_name("cmd.exe"),
        Some(ShellChoice::Cmd)
    );
    assert_eq!(
        ShellChoice::from_shim_name("bun.exe"),
        Some(ShellChoice::Bun)
    );
}

#[test]
fn shim_names_cover_canonical_names_and_refuse_others() {
    for choice in ShellChoice::all() {
        assert_eq!(ShellChoice::from_shim_name(choice.canonical_name()), Some(choice));
    }
    assert_eq!(ShellChoice::from_shim_name("python3"), Some(ShellChoice::Python));
    assert_eq!(ShellChoice::from_shim_name("fish"), None);
    assert_eq!(ShellChoice::from_shim_name(".exe"), None);
    assert_eq!(ShellChoice::from_shim_name("bash.exe.exe"), None);
}

#[test]
fn every_shim_executable_name_routes_back_to_its_shell() {
    for platform in [Platform::Unix, Platform::Windows] {
        for choice in ShellChoice::all() {
            let names = functerm::drivers::shim_executable_names(choice, platform);
            assert!(!names.is_empty());
            for name in names {
                assert_eq!(ShellChoice::from_shim_name(&name), Some(choice), "{name}");
            }
        }
    }
    assert_eq!(
        functerm::drivers::shim_executable_names(ShellChoice::PowerShell, Platform::Windows),
        ["powershell.exe", "pwsh.exe"]
    );
    assert_eq!(
        functerm::drivers::shim_executable_names(ShellChoice::Python, Platform::Unix),
        ["python", "python3", "pypy3"]
    );
}
