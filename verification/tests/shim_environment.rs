use functerm::environment::EnvironmentSnapshot;
use functerm::platform::Platform;
use functerm::shell::ShellChoice;
use functerm::shims::{found_executables, is_managed_name, path_entries, protected_environment_names, shim_environment};

fn binding(name: &str, value: &str) -> (Vec<u8>, Vec<u8>) {
    (name.as_bytes().to_vec(), value.as_bytes().to_vec())
}

#[test]
fn protected_names_keep_their_order() {
    assert_eq!(
        protected_environment_names(),
        [
            "PATH",
            "FUNCTERM_SHIM_DIR",
            "FUNCTERM_SESSION_ROOT",
            "FUNCTERM_ACTIVE_SHELL_FILE",
            "FUNCTERM_HELPER_EXECUTABLE",
            "FUNCTERM_CURRENT_SHELL",
            "FUNCTERM_REAL_POWERSHELL",
            "FUNCTERM_REAL_BASH",
            "FUNCTERM_REAL_NUSHELL",
            "FUNCTERM_REAL_ZSH",
            "FUNCTERM_REAL_CMD",
            "FUNCTERM_REAL_BUN",
            "FUNCTERM_REAL_PYTHON",
        ]
    );
}

#[test]
fn managed_names_follow_platform_case_rules() {
    assert!(is_managed_name(b"PATH", Platform::Unix));
    assert!(!is_managed_name(b"Path", Platform::Unix));
    assert!(is_managed_name(b"Path", Platform::Windows));
    assert!(is_managed_name(b"FUNCTERM_COMMAND_ID", Platform::Unix));
    assert!(is_managed_name(b"funcTerm_command_directory", Platform::Windows));
    assert!(!is_managed_name(b"HOME", Platform::Windows));
}

#[test]
fn path_puts_shim_first_and_drops_inherited_shim() {
    let entries = vec![
        b"/old/shims".to_vec(),
        b"/usr/bin".to_vec(),
        b"/OLD/SHIMS".to_vec(),
        b"/bin".to_vec(),
    ];
    assert_eq!(
        path_entries(b"/new/shims", Some(entries.clone()), Some(b"/old/shims"), Platform::Unix),
        vec![
            b"/new/shims".to_vec(),
            b"/usr/bin".to_vec(),
            b"/OLD/SHIMS".to_vec(),
            b"/bin".to_vec()
        ]
    );
    assert_eq!(
        path_entries(b"/new/shims", Some(entries.clone()), Some(b"/old/shims"), Platform::Windows),
        vec![b"/new/shims".to_vec(), b"/usr/bin".to_vec(), b"/bin".to_vec()]
    );
    assert_eq!(
        path_entries(b"/new/shims", Some(entries.clone()), None, Platform::Unix).len(),
        5
    );
    assert_eq!(
        path_entries(b"/new/shims", None, Some(b"/old/shims"), Platform::Unix),
        vec![b"/new/shims".to_vec()]
    );
}

#[test]
fn session_environment_replaces_every_managed_variable() {
    let inherited = EnvironmentSnapshot::from_variables(vec![
        binding("HOME", "/home/user"),
        binding("PATH", "/usr/bin"),
        binding("FUNCTERM_REAL_BASH", "/stale/bash"),
        binding("FUNCTERM_COMMAND_ID", "stale"),
        binding("LANG", "C.UTF-8"),
    ]);
    let executables = vec![None, Some(b"/bin/bash".to_vec()), None];
    let env = shim_environment(
        b"/s/shims:/usr/bin",
        b"/s/shims",
        b"/s",
        b"/s/state/active-shell.txt",
        b"/opt/functerm",
        ShellChoice::Zsh,
        &executables,
        &inherited,
        Platform::Unix,
    );
    assert_eq!(
        env,
        vec![
            binding("HOME", "/home/user"),
            binding("LANG", "C.UTF-8"),
            binding("PATH", "/s/shims:/usr/bin"),
            binding("FUNCTERM_SHIM_DIR", "/s/shims"),
            binding("FUNCTERM_SESSION_ROOT", "/s"),
            binding("FUNCTERM_ACTIVE_SHELL_FILE", "/s/state/active-shell.txt"),
            binding("FUNCTERM_HELPER_EXECUTABLE", "/opt/functerm"),
            binding("FUNCTERM_CURRENT_SHELL", "zsh"),
            binding("FUNCTERM_REAL_BASH", "/bin/bash"),
        ]
    );
}

#[test]
fn environment_does_not_create_shim_directory() {
    let shim_dir = std::path::Path::new("/definitely-missing-functerm-root/shims");
    let inherited = EnvironmentSnapshot::from_variables(vec![binding("HOME", "/home/user")]);
    let env = shim_environment(
        b"/usr/bin",
        shim_dir.as_os_str().as_encoded_bytes(),
        b"/session",
        b"/session/state/active-shell.txt",
        b"/opt/functerm",
        ShellChoice::PowerShell,
        &Vec::new(),
        &inherited,
        Platform::Unix,
    );
    assert!(!shim_dir.exists());
    assert!(env.iter().any(|item| item.0 == b"FUNCTERM_SHIM_DIR"));
}

#[test]
fn found_executables_follow_shell_order_once_each() {
    let discovered = vec![
        Some(b"/bin/pwsh".to_vec()),
        None,
        Some(b"/bin/nu".to_vec()),
        None,
        None,
        None,
        Some(b"/bin/python3".to_vec()),
        Some(b"/ignored".to_vec()),
    ];
    assert_eq!(
        found_executables(&discovered),
        vec![
            (ShellChoice::PowerShell, b"/bin/pwsh".to_vec()),
            (ShellChoice::NuShell, b"/bin/nu".to_vec()),
            (ShellChoice::Python, b"/bin/python3".to_vec()),
        ]
    );
    assert_eq!(found_executables(&Vec::new()), Vec::new());
}

#[test]
fn managed_names_appear_once_in_session_environment() {
    let inherited = EnvironmentSnapshot::from_variables(vec![
        binding("Path", "/x"),
        binding("FUNCTERM_SHIM_DIR", "/old"),
        binding("funcTerm_real_cmd", "/old/cmd"),
    ]);
    let discovered = vec![Some(b"pwsh".to_vec()); 7];
    let env = shim_environment(
        b"/s/shims",
        b"/s/shims",
        b"/s",
        b"/s/state/active-shell.txt",
        b"/opt/functerm",
        ShellChoice::Cmd,
        &discovered,
        &inherited,
        Platform::Windows,
    );
    assert_eq!(env.len(), 13);
    for (i, (name, _)) in env.iter().enumerate() {
        assert!(is_managed_name(name, Platform::Windows));
        assert!(env.iter().skip(i + 1).all(|(other, _)| other != name));
    }
}

#[test]
fn rebuilt_path_under_the_same_shim_is_unchanged() {
    let entries = vec![b"/usr/bin".to_vec(), b"/s/shims".to_vec(), b"/bin".to_vec()];
    let once = path_entries(b"/s/shims", Some(entries), Some(b"/s/shims"), Platform::Unix);
    let twice = path_entries(b"/s/shims", Some(once.clone()), Some(b"/s/shims"), Platform::Unix);
    assert_eq!(once, vec![b"/s/shims".to_vec(), b"/usr/bin".to_vec(), b"/bin".to_vec()]);
    assert_eq!(twice, once);
}
