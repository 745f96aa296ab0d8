use functerm::daemon::{recoverable_accept_error, AcceptErrorKind};
use functerm::platform::Platform;
use functerm::request::{keyboard_input, KeyboardInput, ManualWriteError};
use functerm::routing::LaunchRoute;
use functerm::shell::ShellChoice;

#[test]
fn interrupted_accept_error_is_recoverable() {
    assert!(recoverable_accept_error(AcceptErrorKind::Interrupted, None, Platform::Unix));
}

#[test]
fn permission_accept_error_is_fatal() {
    assert!(!recoverable_accept_error(AcceptErrorKind::Other, Some(13), Platform::Unix));
}

#[test]
fn abandoned_named_pipe_accept_error_is_recoverable() {
    assert!(recoverable_accept_error(AcceptErrorKind::Other, Some(995), Platform::Windows));
}

#[test]
fn broken_connections_are_recoverable_and_other_codes_fatal() {
    for kind in [
        AcceptErrorKind::ConnectionAborted,
        AcceptErrorKind::ConnectionReset,
        AcceptErrorKind::BrokenPipe,
    ] {
        assert!(recoverable_accept_error(kind, None, Platform::Windows));
        assert!(recoverable_accept_error(kind, Some(5), Platform::Unix));
    }
    for code in [109, 232, 233] {
        assert!(recoverable_accept_error(AcceptErrorKind::Other, Some(code), Platform::Windows));
        assert!(!recoverable_accept_error(AcceptErrorKind::Other, Some(code), Platform::Unix));
    }
    assert!(!recoverable_accept_error(AcceptErrorKind::Other, Some(5), Platform::Windows));
    assert!(!recoverable_accept_error(AcceptErrorKind::Other, Some(-995), Platform::Windows));
    assert!(!recoverable_accept_error(AcceptErrorKind::Other, None, Platform::Windows));
}

#[test]
fn manual_write_accepts_text() {
    let input = keyboard_input(Some("echo 你好\n".to_owned()), None).unwrap();
    assert_eq!(input, KeyboardInput::Text("echo 你好\n".to_owned()));
}

#[test]
fn manual_write_accepts_bytes() {
    let input = keyboard_input(None, Some(vec![3, 10])).unwrap();
    assert_eq!(input, KeyboardInput::Bytes(vec![3, 10]));
}

#[test]
fn manual_write_rejects_text_and_bytes_together() {
    let error = keyboard_input(Some("x".to_owned()), Some(vec![120])).unwrap_err();
    assert_eq!(error, ManualWriteError::TextAndBytes);
    assert_eq!(error.message(), "text and bytes cannot be provided together");
}

#[test]
fn manual_write_rejects_missing_input() {
    let error = keyboard_input(None, None).unwrap_err();
    assert_eq!(error, ManualWriteError::MissingInput);
    assert_eq!(error.message(), "either text or bytes must be provided");
}

fn bytes(arguments: &[&str]) -> Vec<Vec<u8>> {
    arguments.iter().map(|argument| argument.as_bytes().to_vec()).collect()
}

fn session_arguments(choice: ShellChoice) -> Vec<Vec<u8>> {
    let arguments = match choice {
        ShellChoice::PowerShell => vec!["-NoLogo", "-NoProfile"],
        ShellChoice::Bash | ShellChoice::Zsh => vec!["-i"],
        ShellChoice::NuShell => vec!["--no-history"],
        ShellChoice::Cmd => vec!["/D", "/Q"],
        ShellChoice::Bun => vec!["repl"],
        ShellChoice::Python => vec!["-i", "-u", "-q"],
    };
    bytes(&arguments)
}

#[test]
fn redirected_input_is_never_claimed_by_a_managed_session() {
    for choice in ShellChoice::all() {
        for arguments in [Vec::new(), session_arguments(choice)] {
            assert_eq!(
                LaunchRoute::classify(choice, &arguments, false),
                LaunchRoute::NativeProcess,
                "{choice:?} with {arguments:?} must retain redirected stdin"
            );
        }
    }
}

#[test]
fn terminal_input_allows_supported_session_arguments() {
    for choice in ShellChoice::all() {
        assert_eq!(
            LaunchRoute::classify(choice, &session_arguments(choice), true),
            LaunchRoute::ManagedSession,
            "{choice:?} should support terminal sessions"
        );
        let expected = if choice == ShellChoice::Bun {
            LaunchRoute::NativeProcess
        } else {
            LaunchRoute::ManagedSession
        };
        assert_eq!(
            LaunchRoute::classify(choice, &Vec::new(), true),
            expected,
            "{choice:?} without arguments"
        );
    }
}

#[test]
fn program_arguments_remain_native_even_with_terminal_input() {
    for choice in ShellChoice::all() {
        let arguments = match choice {
            ShellChoice::PowerShell => vec!["-Command", "exit 7"],
            ShellChoice::Bash | ShellChoice::Zsh => vec!["-c", "exit 7"],
            ShellChoice::NuShell => vec!["--commands", "exit 7"],
            ShellChoice::Cmd => vec!["/C", "exit 7"],
            ShellChoice::Bun => vec!["run", "script.js"],
            ShellChoice::Python => vec!["-c", "raise SystemExit(7)"],
        };
        let native = bytes(&arguments);
        for terminal_input in [true, false] {
            assert_eq!(
                LaunchRoute::classify(choice, &native, terminal_input),
                LaunchRoute::NativeProcess,
                "{choice:?} program arguments must be preserved"
            );
        }
    }
}

#[test]
fn python_stdin_script_module_and_file_arguments_are_not_repl_launches() {
    for arguments in [
        vec!["-"],
        vec!["-u", "-"],
        vec!["script.py"],
        vec!["-m", "module"],
        vec!["-i", "script.py"],
        vec!["-i", "-c", "print('code')"],
    ] {
        let native = bytes(&arguments);
        assert_eq!(
            LaunchRoute::classify(ShellChoice::Python, &native, true),
            LaunchRoute::NativeProcess,
            "Python arguments must be preserved: {native:?}"
        );
    }
}
