//! The environment that a session's shells start with: the shim directory first on
//! `PATH`, and the variables that FuncTerm manages set by FuncTerm alone.
use crate::environment::{
    bindings_view, environment_name_equals, names_match, Binding, EnvironmentSnapshot,
};
use crate::platform::Platform;
use crate::shell::{
    all_choices, canonical_name_of, canonical_names_round_trip, choice_named, shim_env_name_of,
    ShellChoice,
};
use vstd::prelude::*;
use vstd::slice::slice_to_vec;
use vstd::string::StringSliceAdditionalSpecFns;
use vstd::utf8::{decode_utf8, encode_utf8, encode_utf8_decode_utf8, encode_utf8_valid_utf8, valid_utf8};

verus! {

broadcast use vstd::string::group_string_axioms;

/// The variable holding the path of the file that records the active shell.
pub const ACTIVE_SHELL_FILE_ENV: &'static str = "FUNCTERM_ACTIVE_SHELL_FILE";

/// The variable holding the canonical name of the session's current shell.
pub const CURRENT_SHELL_ENV: &'static str = "FUNCTERM_CURRENT_SHELL";

/// The variable holding the session's root directory.
pub const SESSION_ROOT_ENV: &'static str = "FUNCTERM_SESSION_ROOT";

/// The variable holding the session's shim directory.
pub const SHIM_DIR_ENV: &'static str = "FUNCTERM_SHIM_DIR";

/// The variable holding the path of the FuncTerm helper executable.
pub const HELPER_EXECUTABLE_ENV: &'static str = "FUNCTERM_HELPER_EXECUTABLE";

/// The variable holding the identifier of the command being run.
pub const COMMAND_ID_ENV: &'static str = "FUNCTERM_COMMAND_ID";

/// The variable holding the record directory of the command being run.
pub const COMMAND_DIRECTORY_ENV: &'static str = "FUNCTERM_COMMAND_DIRECTORY";

/// The UTF-8 bytes of a name.
pub open spec fn name_bytes(name: Seq<char>) -> Seq<u8> {
    encode_utf8(name)
}

/// The names that a session protects from being inherited or overwritten, in order.
pub open spec fn protected_names() -> Seq<Seq<char>> {
    seq![
        "PATH"@,
        SHIM_DIR_ENV@,
        SESSION_ROOT_ENV@,
        ACTIVE_SHELL_FILE_ENV@,
        HELPER_EXECUTABLE_ENV@,
        CURRENT_SHELL_ENV@,
        "FUNCTERM_REAL_POWERSHELL"@,
        "FUNCTERM_REAL_BASH"@,
        "FUNCTERM_REAL_NUSHELL"@,
        "FUNCTERM_REAL_ZSH"@,
        "FUNCTERM_REAL_CMD"@,
        "FUNCTERM_REAL_BUN"@,
        "FUNCTERM_REAL_PYTHON"@,
    ]
}

/// Every name that FuncTerm manages: the protected names and the per-command names.
pub open spec fn managed_names() -> Seq<Seq<char>> {
    protected_names() + seq![COMMAND_ID_ENV@, COMMAND_DIRECTORY_ENV@]
}

/// Whether a variable name is one that FuncTerm manages, compared as on `platform`.
pub open spec fn is_managed(name: Seq<u8>, platform: Platform) -> bool {
    exists|k: int|
        0 <= k < managed_names().len() && names_match(
            name,
            name_bytes(#[trigger] managed_names()[k]),
            platform,
        )
}

/// The bindings whose names FuncTerm does not manage, in their order.
pub open spec fn unmanaged(variables: Seq<Binding>, platform: Platform) -> Seq<Binding>
    decreases variables.len(),
{
    if variables.len() == 0 {
        seq![]
    } else {
        let last = variables.last();
        unmanaged(variables.drop_last(), platform) + if is_managed(last.0, platform) {
            Seq::<Binding>::empty()
        } else {
            seq![last]
        }
    }
}

/// The bindings a session sets itself: its `PATH`, its directories, the helper
/// executable, its current shell, and the real executable of each shell found.
pub open spec fn managed_bindings(
    path: Seq<u8>,
    shim_dir: Seq<u8>,
    session_root: Seq<u8>,
    active_shell_file: Seq<u8>,
    helper_executable: Seq<u8>,
    current_shell: ShellChoice,
    executables: Seq<(ShellChoice, Seq<u8>)>,
) -> Seq<Binding> {
    seq![
        (name_bytes("PATH"@), path),
        (name_bytes(SHIM_DIR_ENV@), shim_dir),
        (name_bytes(SESSION_ROOT_ENV@), session_root),
        (name_bytes(ACTIVE_SHELL_FILE_ENV@), active_shell_file),
        (name_bytes(HELPER_EXECUTABLE_ENV@), helper_executable),
        (name_bytes(CURRENT_SHELL_ENV@), name_bytes(canonical_name_of(current_shell))),
    ] + executables.map_values(
        |found: (ShellChoice, Seq<u8>)| (name_bytes(shim_env_name_of(found.0)), found.1),
    )
}

/// The plain view of a list of found shell executables.
pub open spec fn executables_view(executables: Seq<(ShellChoice, Vec<u8>)>) -> Seq<
    (ShellChoice, Seq<u8>),
> {
    executables.map_values(|found: (ShellChoice, Vec<u8>)| (found.0, found.1@))
}

/// The `PATH` entries that remain when an inherited shim directory is dropped.
pub open spec fn kept_entries(entries: Seq<Seq<u8>>, shim: Option<Seq<u8>>, platform: Platform) -> Seq<
    Seq<u8>,
>
    decreases entries.len(),
{
    if entries.len() == 0 {
        seq![]
    } else {
        let last = entries.last();
        kept_entries(entries.drop_last(), shim, platform) + if shim matches Some(old) && names_match(
            last,
            old,
            platform,
        ) {
            Seq::<Seq<u8>>::empty()
        } else {
            seq![last]
        }
    }
}

/// The plain view of a list of byte vectors.
pub open spec fn entries_view(entries: Seq<Vec<u8>>) -> Seq<Seq<u8>> {
    entries.map_values(|entry: Vec<u8>| entry@)
}

/// The protected names, in order.
pub fn protected_environment_names() -> (r: Vec<&'static str>)
    ensures
        r@.map_values(|name: &str| name@) == protected_names(),
{
    let r = vec![
        "PATH",
        SHIM_DIR_ENV,
        SESSION_ROOT_ENV,
        ACTIVE_SHELL_FILE_ENV,
        HELPER_EXECUTABLE_ENV,
        CURRENT_SHELL_ENV,
        "FUNCTERM_REAL_POWERSHELL",
        "FUNCTERM_REAL_BASH",
        "FUNCTERM_REAL_NUSHELL",
        "FUNCTERM_REAL_ZSH",
        "FUNCTERM_REAL_CMD",
        "FUNCTERM_REAL_BUN",
        "FUNCTERM_REAL_PYTHON",
    ];
    assert(r@.map_values(|name: &str| name@) =~= protected_names());
    r
}

/// Whether FuncTerm manages the variable `name`, compared as on `platform`.
pub fn is_managed_name(name: &[u8], platform: Platform) -> (r: bool)
    ensures
        r == is_managed(name@, platform),
{
    let mut names = protected_environment_names();
    names.push(COMMAND_ID_ENV);
    names.push(COMMAND_DIRECTORY_ENV);
    assert(names@.map_values(|name: &str| name@) =~= managed_names());
    let mut i: usize = 0;
    while i < names.len()
        invariant
            names@.map_values(|name: &str| name@) == managed_names(),
            0 <= i <= names@.len(),
            forall|k: int|
                0 <= k < i ==> !names_match(name@, name_bytes(#[trigger] managed_names()[k]), platform),
        decreases names@.len() - i,
    {
        let expected = names[i];
        assert(managed_names()[i as int] == expected@);
        if environment_name_equals(name, expected.as_bytes(), platform) {
            return true;
        }
        i = i + 1;
    }
    false
}

/// Whether a `PATH` entry is the given directory, compared as on `platform`.
pub fn path_equals(actual: &[u8], expected: &[u8], platform: Platform) -> (r: bool)
    ensures
        r == names_match(actual@, expected@, platform),
{
    environment_name_equals(actual, expected, platform)
}

/// The `PATH` entries for a session: the shim directory first, then the inherited
/// entries in order, leaving out any that name the inherited shim directory.
pub fn path_entries(
    shim_dir: &[u8],
    inherited_path: Option<Vec<Vec<u8>>>,
    inherited_shim: Option<&[u8]>,
    platform: Platform,
) -> (r: Vec<Vec<u8>>)
    ensures
        entries_view(r@) == seq![shim_dir@] + match inherited_path {
            Some(entries) => kept_entries(
                entries_view(entries@),
                match inherited_shim {
                    Some(old) => Some(old@),
                    None => None,
                },
                platform,
            ),
            None => Seq::<Seq<u8>>::empty(),
        },
{
    let mut parts: Vec<Vec<u8>> = Vec::new();
    parts.push(slice_to_vec(shim_dir));
    let ghost shim = match inherited_shim {
        Some(old) => Some(old@),
        None => None,
    };
    assert(entries_view(parts@) =~= seq![shim_dir@]);
    if let Some(entries) = inherited_path {
        let ghost all = entries_view(entries@);
        let mut i: usize = 0;
        while i < entries.len()
            invariant
                all == entries_view(entries@),
                shim == match inherited_shim {
                    Some(old) => Some(old@),
                    None => None,
                },
                0 <= i <= entries@.len(),
                entries_view(parts@) == seq![shim_dir@] + kept_entries(
                    all.take(i as int),
                    shim,
                    platform,
                ),
            decreases entries@.len() - i,
        {
            let entry = &entries[i];
            let drop = match inherited_shim {
                Some(old) => path_equals(entry.as_slice(), old, platform),
                None => false,
            };
            let ghost before = parts@;
            proof {
                match inherited_shim {
                    Some(old) => {
                        assert(shim == Some(old@));
                        assert(drop == names_match(entry@, old@, platform));
                    },
                    None => {
                        assert(shim is None);
                        assert(!drop);
                    },
                }
                assert(drop == (shim matches Some(o) && names_match(entry@, o, platform)));
                assert(all.take(i + 1).drop_last() =~= all.take(i as int));
                assert(all.take(i + 1).last() == entry@);
            }
            if !drop {
                parts.push(slice_to_vec(entry.as_slice()));
                assert(entries_view(parts@) =~= entries_view(before).push(entry@));
                assert(kept_entries(all.take(i + 1), shim, platform) =~= kept_entries(
                    all.take(i as int),
                    shim,
                    platform,
                ).push(entry@));
            } else {
                assert(kept_entries(all.take(i + 1), shim, platform) =~= kept_entries(
                    all.take(i as int),
                    shim,
                    platform,
                ));
            }
            assert(entries_view(parts@) =~= seq![shim_dir@] + kept_entries(
                all.take(i + 1),
                shim,
                platform,
            ));
            i = i + 1;
        }
        assert(all.take(i as int) =~= all);
    }
    parts
}

/// The plain view of a list of optional paths.
pub open spec fn options_view(discovered: Seq<Option<Vec<u8>>>) -> Seq<Option<Seq<u8>>> {
    discovered.map_values(
        |found: Option<Vec<u8>>|
            match found {
                Some(path) => Some(path@),
                None => None,
            },
    )
}

/// The shells among the first `n` of `ShellChoice::all()` whose executable was found,
/// in that order, each with its executable.
pub open spec fn found_upto(discovered: Seq<Option<Seq<u8>>>, n: int) -> Seq<
    (ShellChoice, Seq<u8>),
>
    decreases n,
{
    if n <= 0 {
        seq![]
    } else {
        let before = found_upto(discovered, n - 1);
        let k = n - 1;
        if k < all_choices().len() && k < discovered.len() && discovered[k] is Some {
            before.push((all_choices()[k], discovered[k]->0))
        } else {
            before
        }
    }
}

/// Every shell whose executable was found, in `ShellChoice::all()` order, each once.
pub open spec fn found_list(discovered: Seq<Option<Seq<u8>>>) -> Seq<(ShellChoice, Seq<u8>)> {
    found_upto(discovered, all_choices().len() as int)
}

/// The found executables: for each shell in `ShellChoice::all()` order whose entry in
/// `discovered` holds a path, the shell and that path. Entries past the last shell
/// are not read.
pub fn found_executables(discovered: &Vec<Option<Vec<u8>>>) -> (r: Vec<(ShellChoice, Vec<u8>)>)
    ensures
        executables_view(r@) == found_list(options_view(discovered@)),
{
    let shells = ShellChoice::all();
    let ghost d = options_view(discovered@);
    let mut found: Vec<(ShellChoice, Vec<u8>)> = Vec::new();
    let mut k: usize = 0;
    assert(executables_view(found@) =~= found_upto(d, 0));
    while k < shells.len()
        invariant
            shells@ == all_choices(),
            d == options_view(discovered@),
            0 <= k <= shells@.len(),
            executables_view(found@) == found_upto(d, k as int),
        decreases shells@.len() - k,
    {
        let ghost before = found@;
        if k < discovered.len() {
            match &discovered[k] {
                Some(path) => {
                    assert(d[k as int] == Some(path@));
                    found.push((shells[k], slice_to_vec(path.as_slice())));
                    assert(executables_view(found@) =~= executables_view(before).push(
                        (shells@[k as int], path@),
                    ));
                },
                None => {
                    assert(d[k as int] is None);
                },
            }
        }
        assert(executables_view(found@) =~= found_upto(d, k + 1));
        k = k + 1;
    }
    found
}

/// The environment a session's shells start with: the inherited variables that
/// FuncTerm does not manage, in order, followed by the managed bindings.
/// `discovered` holds, for each shell in `ShellChoice::all()` order, the path of its
/// real executable when one was found.
pub fn shim_environment(
    path: &[u8],
    shim_dir: &[u8],
    session_root: &[u8],
    active_shell_file: &[u8],
    helper_executable: &[u8],
    current_shell: ShellChoice,
    discovered: &Vec<Option<Vec<u8>>>,
    inherited: &EnvironmentSnapshot,
    platform: Platform,
) -> (r: Vec<(Vec<u8>, Vec<u8>)>)
    ensures
        bindings_view(r@) == unmanaged(inherited@, platform) + managed_bindings(
            path@,
            shim_dir@,
            session_root@,
            active_shell_file@,
            helper_executable@,
            current_shell,
            found_list(options_view(discovered@)),
        ),
{
    let executables = found_executables(discovered);
    let variables = inherited.variables();
    let ghost all = bindings_view(variables@);
    let mut env: Vec<(Vec<u8>, Vec<u8>)> = Vec::new();
    assert(bindings_view(env@) =~= unmanaged(all.take(0), platform));
    let mut i: usize = 0;
    while i < variables.len()
        invariant
            all == bindings_view(variables@),
            0 <= i <= variables@.len(),
            bindings_view(env@) == unmanaged(all.take(i as int), platform),
        decreases variables@.len() - i,
    {
        let pair = &variables[i];
        let ghost before = env@;
        proof {
            assert(all.take(i + 1).drop_last() =~= all.take(i as int));
            assert(all.take(i + 1).last() == (pair.0@, pair.1@));
        }
        if !is_managed_name(pair.0.as_slice(), platform) {
            env.push((slice_to_vec(pair.0.as_slice()), slice_to_vec(pair.1.as_slice())));
            assert(bindings_view(env@) =~= bindings_view(before).push((pair.0@, pair.1@)));
        }
        assert(bindings_view(env@) =~= unmanaged(all.take(i + 1), platform));
        i = i + 1;
    }
    assert(all.take(i as int) =~= all);
    let ghost kept = env@;
    env.push((slice_to_vec("PATH".as_bytes()), slice_to_vec(path)));
    env.push((slice_to_vec(SHIM_DIR_ENV.as_bytes()), slice_to_vec(shim_dir)));
    env.push((slice_to_vec(SESSION_ROOT_ENV.as_bytes()), slice_to_vec(session_root)));
    env.push((slice_to_vec(ACTIVE_SHELL_FILE_ENV.as_bytes()), slice_to_vec(active_shell_file)));
    env.push((slice_to_vec(HELPER_EXECUTABLE_ENV.as_bytes()), slice_to_vec(helper_executable)));
    env.push(
        (
            slice_to_vec(CURRENT_SHELL_ENV.as_bytes()),
            slice_to_vec(current_shell.canonical_name().as_bytes()),
        ),
    );
    let ghost found = executables_view(executables@);
    let ghost g = |f: (ShellChoice, Seq<u8>)| (name_bytes(shim_env_name_of(f.0)), f.1);
    let mut shells: Vec<(Vec<u8>, Vec<u8>)> = Vec::new();
    let mut j: usize = 0;
    assert(bindings_view(shells@) =~= found.take(0).map_values(g));
    while j < executables.len()
        invariant
            found == executables_view(executables@),
            g == (|f: (ShellChoice, Seq<u8>)| (name_bytes(shim_env_name_of(f.0)), f.1)),
            0 <= j <= executables@.len(),
            bindings_view(shells@) == found.take(j as int).map_values(g),
        decreases executables@.len() - j,
    {
        let shell = executables[j].0;
        let exe = slice_to_vec(executables[j].1.as_slice());
        let name = slice_to_vec(shell.shim_env_name().as_bytes());
        let ghost before = shells@;
        proof {
            assert(found[j as int] == (shell, exe@));
            assert(found.take(j + 1) =~= found.take(j as int).push(found[j as int]));
            assert(found.take(j + 1).map_values(g) =~= found.take(j as int).map_values(g).push(
                g(found[j as int]),
            ));
        }
        shells.push((name, exe));
        assert(bindings_view(shells@) =~= bindings_view(before).push((name@, exe@)));
        j = j + 1;
    }
    assert(found.take(j as int) =~= found);
    let ghost fixed = env@;
    let ghost tail = shells@;
    env.append(&mut shells);
    assert(env@ =~= fixed + tail);
    assert(bindings_view(env@) =~= bindings_view(fixed) + bindings_view(tail));
    assert(bindings_view(env@) =~= unmanaged(inherited@, platform) + managed_bindings(
        path@,
        shim_dir@,
        session_root@,
        active_shell_file@,
        helper_executable@,
        current_shell,
        found,
    ));
    env
}


/// Law: no binding kept from the inherited environment has a managed name, and every
/// inherited binding without one is kept.
pub proof fn inherited_managed_names_never_survive(variables: Seq<Binding>, platform: Platform)
    ensures
        forall|i: int|
            0 <= i < unmanaged(variables, platform).len() ==> !is_managed(
                (#[trigger] unmanaged(variables, platform)[i]).0,
                platform,
            ),
        forall|i: int|
            0 <= i < variables.len() && !is_managed((#[trigger] variables[i]).0, platform)
                ==> unmanaged(variables, platform).contains(variables[i]),
    decreases variables.len(),
{
    if variables.len() > 0 {
        let rest = variables.drop_last();
        let last = variables.last();
        inherited_managed_names_never_survive(rest, platform);
        let kept = unmanaged(rest, platform);
        let tail = if is_managed(last.0, platform) {
            Seq::<Binding>::empty()
        } else {
            seq![last]
        };
        assert(unmanaged(variables, platform) == kept + tail);
        assert forall|i: int| 0 <= i < (kept + tail).len() implies !is_managed(
            (#[trigger] (kept + tail)[i]).0,
            platform,
        ) by {
            if i < kept.len() {
                assert((kept + tail)[i] == kept[i]);
            } else {
                assert((kept + tail)[i] == last);
            }
        }
        assert forall|i: int|
            0 <= i < variables.len() && !is_managed(
                (#[trigger] variables[i]).0,
                platform,
            ) implies (kept + tail).contains(variables[i]) by {
            if i < rest.len() {
                assert(rest[i] == variables[i]);
                assert(kept.contains(rest[i]));
                let k = choose|k: int| 0 <= k < kept.len() && kept[k] == rest[i];
                assert((kept + tail)[k] == variables[i]);
            } else {
                assert(variables[i] == last);
                assert((kept + tail)[kept.len() as int] == last);
            }
        }
    }
}

/// Law: a `PATH` built for a session never keeps an entry naming the inherited shim
/// directory.
pub proof fn inherited_shim_directory_is_dropped(
    entries: Seq<Seq<u8>>,
    old: Seq<u8>,
    platform: Platform,
)
    ensures
        forall|i: int|
            0 <= i < kept_entries(entries, Some(old), platform).len() ==> !names_match(
                #[trigger] kept_entries(entries, Some(old), platform)[i],
                old,
                platform,
            ),
    decreases entries.len(),
{
    if entries.len() > 0 {
        inherited_shim_directory_is_dropped(entries.drop_last(), old, platform);
        let kept = kept_entries(entries.drop_last(), Some(old), platform);
        let last = entries.last();
        let tail = if names_match(last, old, platform) {
            Seq::<Seq<u8>>::empty()
        } else {
            seq![last]
        };
        assert(kept_entries(entries, Some(old), platform) == kept + tail);
        assert forall|i: int| 0 <= i < (kept + tail).len() implies !names_match(
            #[trigger] (kept + tail)[i],
            old,
            platform,
        ) by {
            if i < kept.len() {
                assert((kept + tail)[i] == kept[i]);
            } else {
                assert((kept + tail)[i] == last);
            }
        }
    }
}


/// The position of a shell in `ShellChoice::all()`.
pub open spec fn shell_index(choice: ShellChoice) -> int {
    match choice {
        ShellChoice::PowerShell => 0,
        ShellChoice::Bash => 1,
        ShellChoice::NuShell => 2,
        ShellChoice::Zsh => 3,
        ShellChoice::Cmd => 4,
        ShellChoice::Bun => 5,
        ShellChoice::Python => 6,
    }
}

/// Whether `entry` is a shell among the first `n` of `ShellChoice::all()` whose
/// executable was found, with that executable.
spec fn found_among(discovered: Seq<Option<Seq<u8>>>, entry: (ShellChoice, Seq<u8>), n: int) -> bool {
    exists|k: int|
        0 <= k < n && k < discovered.len() && discovered[k] is Some && entry == (
            all_choices()[k],
            discovered[k]->0,
        )
}

proof fn lemma_found_upto_shape(discovered: Seq<Option<Seq<u8>>>, n: int)
    requires
        0 <= n <= all_choices().len(),
    ensures
        forall|p: int|
            0 <= p < found_upto(discovered, n).len() ==> 0 <= shell_index(
                (#[trigger] found_upto(discovered, n)[p]).0,
            ) < n,
        forall|p: int, q: int|
            0 <= p < q < found_upto(discovered, n).len() ==> shell_index(
                (#[trigger] found_upto(discovered, n)[p]).0,
            ) < shell_index((#[trigger] found_upto(discovered, n)[q]).0),
        forall|k: int|
            0 <= k < n && k < discovered.len() && discovered[k] is Some ==> found_upto(
                discovered,
                n,
            ).contains((#[trigger] all_choices()[k], discovered[k]->0)),
        forall|p: int|
            0 <= p < found_upto(discovered, n).len() ==> found_among(
                discovered,
                #[trigger] found_upto(discovered, n)[p],
                n,
            ),
    decreases n,
{
    if n > 0 {
        lemma_found_upto_shape(discovered, n - 1);
        let before = found_upto(discovered, n - 1);
        let k = n - 1;
        let all = all_choices();
        assert(shell_index(all[0]) == 0 && shell_index(all[1]) == 1 && shell_index(all[2]) == 2
            && shell_index(all[3]) == 3 && shell_index(all[4]) == 4 && shell_index(all[5]) == 5
            && shell_index(all[6]) == 6);
        let now = found_upto(discovered, n);
        if k < discovered.len() && discovered[k] is Some {
            assert(now == before.push((all[k], discovered[k]->0)));
            assert forall|p: int| 0 <= p < now.len() implies 0 <= shell_index(
                (#[trigger] now[p]).0,
            ) < n by {
                if p < before.len() {
                    assert(now[p] == before[p]);
                }
            }
            assert forall|p: int, q: int| 0 <= p < q < now.len() implies shell_index(
                (#[trigger] now[p]).0,
            ) < shell_index((#[trigger] now[q]).0) by {
                assert(now[p] == before[p]);
                if q < before.len() {
                    assert(now[q] == before[q]);
                }
            }
            assert forall|j: int|
                0 <= j < n && j < discovered.len() && discovered[j] is Some implies now.contains(
                (#[trigger] all[j], discovered[j]->0),
            ) by {
                if j < k {
                    let p = choose|p: int|
                        0 <= p < before.len() && before[p] == (all[j], discovered[j]->0);
                    assert(now[p] == before[p]);
                } else {
                    assert(now[before.len() as int] == (all[j], discovered[j]->0));
                }
            }
            assert forall|p: int| 0 <= p < now.len() implies found_among(
                discovered,
                #[trigger] now[p],
                n,
            ) by {
                if p < before.len() {
                    assert(now[p] == before[p]);
                    assert(found_among(discovered, before[p], n - 1));
                    let j = choose|j: int|
                        0 <= j < n - 1 && j < discovered.len() && discovered[j] is Some
                            && before[p] == (all[j], discovered[j]->0);
                    assert(0 <= j < n && j < discovered.len() && discovered[j] is Some && now[p]
                        == (all[j], discovered[j]->0));
                } else {
                    assert(now[p] == (all[k], discovered[k]->0));
                }
            }
        } else {
            assert(now == before);
            assert forall|p: int| 0 <= p < now.len() implies found_among(
                discovered,
                #[trigger] now[p],
                n,
            ) by {
                assert(found_among(discovered, before[p], n - 1));
                let j = choose|j: int|
                    0 <= j < n - 1 && j < discovered.len() && discovered[j] is Some && before[p]
                        == (all[j], discovered[j]->0);
                assert(0 <= j < n && j < discovered.len() && discovered[j] is Some && now[p]
                    == (all[j], discovered[j]->0));
            }
        }
    }
}

proof fn lemma_name_bytes_injective(a: Seq<char>, b: Seq<char>)
    requires
        name_bytes(a) == name_bytes(b),
    ensures
        a == b,
{
    encode_utf8_decode_utf8(a);
    encode_utf8_decode_utf8(b);
}

/// The fixed managed names that a session sets, in order.
pub open spec fn fixed_names() -> Seq<Seq<char>> {
    seq![
        "PATH"@,
        SHIM_DIR_ENV@,
        SESSION_ROOT_ENV@,
        ACTIVE_SHELL_FILE_ENV@,
        HELPER_EXECUTABLE_ENV@,
        CURRENT_SHELL_ENV@,
    ]
}

proof fn lemma_managed_literals()
    ensures
        forall|i: int, j: int|
            0 <= i < j < fixed_names().len() ==> #[trigger] fixed_names()[i]
                != #[trigger] fixed_names()[j],
        forall|i: int, c: ShellChoice|
            0 <= i < fixed_names().len() ==> #[trigger] fixed_names()[i]
                != #[trigger] shim_env_name_of(c),
        forall|a: ShellChoice, b: ShellChoice|
            a != b ==> #[trigger] shim_env_name_of(a) != #[trigger] shim_env_name_of(b),
{
    reveal_strlit("PATH");
    reveal_strlit("FUNCTERM_SHIM_DIR");
    reveal_strlit("FUNCTERM_SESSION_ROOT");
    reveal_strlit("FUNCTERM_ACTIVE_SHELL_FILE");
    reveal_strlit("FUNCTERM_HELPER_EXECUTABLE");
    reveal_strlit("FUNCTERM_CURRENT_SHELL");
    reveal_strlit("FUNCTERM_REAL_POWERSHELL");
    reveal_strlit("FUNCTERM_REAL_BASH");
    reveal_strlit("FUNCTERM_REAL_NUSHELL");
    reveal_strlit("FUNCTERM_REAL_ZSH");
    reveal_strlit("FUNCTERM_REAL_CMD");
    reveal_strlit("FUNCTERM_REAL_BUN");
    reveal_strlit("FUNCTERM_REAL_PYTHON");
    assert("PATH"@.len() == 4);
    assert("FUNCTERM_SHIM_DIR"@.len() == 17 && "FUNCTERM_SHIM_DIR"@[9] == 'S');
    assert("FUNCTERM_SESSION_ROOT"@.len() == 21 && "FUNCTERM_SESSION_ROOT"@[9] == 'S');
    assert("FUNCTERM_ACTIVE_SHELL_FILE"@.len() == 26 && "FUNCTERM_ACTIVE_SHELL_FILE"@[9] == 'A');
    assert("FUNCTERM_HELPER_EXECUTABLE"@.len() == 26 && "FUNCTERM_HELPER_EXECUTABLE"@[9] == 'H');
    assert("FUNCTERM_CURRENT_SHELL"@.len() == 22);
    assert("FUNCTERM_REAL_POWERSHELL"@.len() == 24);
    assert("FUNCTERM_REAL_BASH"@.len() == 18);
    assert("FUNCTERM_REAL_NUSHELL"@.len() == 21 && "FUNCTERM_REAL_NUSHELL"@[9] == 'R');
    assert("FUNCTERM_REAL_ZSH"@.len() == 17 && "FUNCTERM_REAL_ZSH"@[9] == 'R'
        && "FUNCTERM_REAL_ZSH"@[14] == 'Z');
    assert("FUNCTERM_REAL_CMD"@.len() == 17 && "FUNCTERM_REAL_CMD"@[9] == 'R'
        && "FUNCTERM_REAL_CMD"@[14] == 'C');
    assert("FUNCTERM_REAL_BUN"@.len() == 17 && "FUNCTERM_REAL_BUN"@[9] == 'R'
        && "FUNCTERM_REAL_BUN"@[14] == 'B');
    assert("FUNCTERM_REAL_PYTHON"@.len() == 20);
}

/// Law: in the environment a session starts with, no name that FuncTerm manages
/// appears twice, and every shell whose executable was found has its
/// `FUNCTERM_REAL_*` binding, with that executable.
pub proof fn managed_names_appear_once(
    inherited: Seq<Binding>,
    path: Seq<u8>,
    shim_dir: Seq<u8>,
    session_root: Seq<u8>,
    active_shell_file: Seq<u8>,
    helper_executable: Seq<u8>,
    current_shell: ShellChoice,
    discovered: Seq<Option<Seq<u8>>>,
    platform: Platform,
)
    ensures
        ({
            let env = unmanaged(inherited, platform) + managed_bindings(
                path,
                shim_dir,
                session_root,
                active_shell_file,
                helper_executable,
                current_shell,
                found_list(discovered),
            );
            forall|i: int, j: int|
                0 <= i < j < env.len() && is_managed(env[i].0, platform) ==> #[trigger] env[i].0
                    != #[trigger] env[j].0
        }),
        forall|k: int|
            0 <= k < all_choices().len() && k < discovered.len() && discovered[k] is Some
                ==> managed_bindings(
                path,
                shim_dir,
                session_root,
                active_shell_file,
                helper_executable,
                current_shell,
                found_list(discovered),
            ).contains((name_bytes(shim_env_name_of(#[trigger] all_choices()[k])), discovered[k]->0)),
{
    let kept = unmanaged(inherited, platform);
    let found = found_list(discovered);
    let managed = managed_bindings(
        path,
        shim_dir,
        session_root,
        active_shell_file,
        helper_executable,
        current_shell,
        found,
    );
    let env = kept + managed;
    inherited_managed_names_never_survive(inherited, platform);
    lemma_found_upto_shape(discovered, all_choices().len() as int);
    lemma_managed_literals();
    let fixed = fixed_names();
    assert forall|i: int| 0 <= i < managed.len() implies #[trigger] managed[i].0 == (if i < 6 {
        name_bytes(fixed[i])
    } else {
        name_bytes(shim_env_name_of(found[i - 6].0))
    }) by {}
    assert forall|i: int, j: int|
        0 <= i < j < env.len() && is_managed(env[i].0, platform) implies #[trigger] env[i].0
        != #[trigger] env[j].0 by {
        assert(i >= kept.len()) by {
            if i < kept.len() {
                assert(env[i] == kept[i]);
            }
        }
        let a = i - kept.len();
        let b = j - kept.len();
        assert(env[i] == managed[a] && env[j] == managed[b]);
        if managed[a].0 == managed[b].0 {
            let x = if a < 6 {
                fixed[a]
            } else {
                shim_env_name_of(found[a - 6].0)
            };
            let y = if b < 6 {
                fixed[b]
            } else {
                shim_env_name_of(found[b - 6].0)
            };
            lemma_name_bytes_injective(x, y);
            if a >= 6 {
                assert(shell_index(found[a - 6].0) < shell_index(found[b - 6].0));
            }
        }
    }
    assert forall|k: int|
        0 <= k < all_choices().len() && k < discovered.len() && discovered[k] is Some implies managed.contains(
        (name_bytes(shim_env_name_of(#[trigger] all_choices()[k])), discovered[k]->0),
    ) by {
        let p = choose|p: int| 0 <= p < found.len() && found[p] == (all_choices()[k], discovered[k]->0);
        assert(managed[p + 6] == (name_bytes(shim_env_name_of(all_choices()[k])), discovered[k]->0));
    }
}

/// Law: the environment a session starts with binds `FUNCTERM_CURRENT_SHELL` to text
/// that names the session's current shell, read back as that same shell.
pub proof fn current_shell_is_recorded(
    inherited: Seq<Binding>,
    path: Seq<u8>,
    shim_dir: Seq<u8>,
    session_root: Seq<u8>,
    active_shell_file: Seq<u8>,
    helper_executable: Seq<u8>,
    current_shell: ShellChoice,
    discovered: Seq<Option<Seq<u8>>>,
    platform: Platform,
)
    ensures
        ({
            let env = unmanaged(inherited, platform) + managed_bindings(
                path,
                shim_dir,
                session_root,
                active_shell_file,
                helper_executable,
                current_shell,
                found_list(discovered),
            );
            exists|k: int|
                0 <= k < env.len() && #[trigger] env[k].0 == encode_utf8("FUNCTERM_CURRENT_SHELL"@)
                    && valid_utf8(env[k].1) && choice_named(decode_utf8(env[k].1)) == Some(
                    current_shell,
                )
        }),
{
    let kept = unmanaged(inherited, platform);
    let managed = managed_bindings(
        path,
        shim_dir,
        session_root,
        active_shell_file,
        helper_executable,
        current_shell,
        found_list(discovered),
    );
    let env = kept + managed;
    let k: int = kept.len() as int + 5;
    assert(env[k] == managed[5]);
    let value = encode_utf8(canonical_name_of(current_shell));
    assert(managed[5] == (encode_utf8("FUNCTERM_CURRENT_SHELL"@), value));
    encode_utf8_valid_utf8(canonical_name_of(current_shell));
    encode_utf8_decode_utf8(canonical_name_of(current_shell));
    canonical_names_round_trip(current_shell);
    assert(env[k].0 == encode_utf8("FUNCTERM_CURRENT_SHELL"@) && valid_utf8(env[k].1)
        && choice_named(decode_utf8(env[k].1)) == Some(current_shell));
}

/// Law: a `FUNCTERM_REAL_*` binding in the environment a session starts with is never
/// inherited: it names a shell whose executable was found, and holds that executable.
pub proof fn only_found_shells_are_recorded(
    inherited: Seq<Binding>,
    path: Seq<u8>,
    shim_dir: Seq<u8>,
    session_root: Seq<u8>,
    active_shell_file: Seq<u8>,
    helper_executable: Seq<u8>,
    current_shell: ShellChoice,
    discovered: Seq<Option<Seq<u8>>>,
    platform: Platform,
)
    ensures
        ({
            let env = unmanaged(inherited, platform) + managed_bindings(
                path,
                shim_dir,
                session_root,
                active_shell_file,
                helper_executable,
                current_shell,
                found_list(discovered),
            );
            forall|i: int, c: ShellChoice|
                0 <= i < env.len() && #[trigger] env[i].0 == encode_utf8(
                    #[trigger] shim_env_name_of(c),
                ) ==> exists|k: int|
                    0 <= k < all_choices().len() && k < discovered.len() && all_choices()[k] == c
                        && discovered[k] == Some(env[i].1)
        }),
{
    let kept = unmanaged(inherited, platform);
    let found = found_list(discovered);
    let managed = managed_bindings(
        path,
        shim_dir,
        session_root,
        active_shell_file,
        helper_executable,
        current_shell,
        found,
    );
    let env = kept + managed;
    inherited_managed_names_never_survive(inherited, platform);
    lemma_found_upto_shape(discovered, all_choices().len() as int);
    lemma_managed_literals();
    let fixed = fixed_names();
    assert forall|i: int, c: ShellChoice|
        0 <= i < env.len() && #[trigger] env[i].0 == encode_utf8(
            #[trigger] shim_env_name_of(c),
        ) implies exists|k: int|
        0 <= k < all_choices().len() && k < discovered.len() && all_choices()[k] == c
            && discovered[k] == Some(env[i].1) by {
        if i < kept.len() {
            assert(env[i] == kept[i]);
            let m = 6 + shell_index(c);
            assert(managed_names()[m] == shim_env_name_of(c));
            assert(names_match(env[i].0, name_bytes(managed_names()[m]), platform));
            assert(is_managed(kept[i].0, platform));
        } else {
            let a = i - kept.len();
            assert(env[i] == managed[a]);
            if a < 6 {
                assert(managed[a].0 == name_bytes(fixed[a]));
                lemma_name_bytes_injective(fixed[a], shim_env_name_of(c));
            } else {
                let p = a - 6;
                assert(managed[a] == (name_bytes(shim_env_name_of(found[p].0)), found[p].1));
                lemma_name_bytes_injective(shim_env_name_of(found[p].0), shim_env_name_of(c));
                assert(found[p].0 == c);
                assert(found_among(discovered, found[p], all_choices().len() as int));
                let k = choose|k: int|
                    0 <= k < all_choices().len() && k < discovered.len() && discovered[k] is Some
                        && found[p] == (all_choices()[k], discovered[k]->0);
                assert(discovered[k] == Some(env[i].1));
            }
        }
    }
}

/// Law: the environment a session starts with holds its `PATH`, its shim directory,
/// its root directory, the file that records its active shell and the helper
/// executable, each under its own name and with the value given.
pub proof fn session_locations_are_recorded(
    inherited: Seq<Binding>,
    path: Seq<u8>,
    shim_dir: Seq<u8>,
    session_root: Seq<u8>,
    active_shell_file: Seq<u8>,
    helper_executable: Seq<u8>,
    current_shell: ShellChoice,
    discovered: Seq<Option<Seq<u8>>>,
    platform: Platform,
)
    ensures
        ({
            let env = unmanaged(inherited, platform) + managed_bindings(
                path,
                shim_dir,
                session_root,
                active_shell_file,
                helper_executable,
                current_shell,
                found_list(discovered),
            );
            &&& env.contains((encode_utf8("PATH"@), path))
            &&& env.contains((encode_utf8("FUNCTERM_SHIM_DIR"@), shim_dir))
            &&& env.contains((encode_utf8("FUNCTERM_SESSION_ROOT"@), session_root))
            &&& env.contains((encode_utf8("FUNCTERM_ACTIVE_SHELL_FILE"@), active_shell_file))
            &&& env.contains((encode_utf8("FUNCTERM_HELPER_EXECUTABLE"@), helper_executable))
        }),
{
    let kept = unmanaged(inherited, platform);
    let managed = managed_bindings(
        path,
        shim_dir,
        session_root,
        active_shell_file,
        helper_executable,
        current_shell,
        found_list(discovered),
    );
    let env = kept + managed;
    let n: int = kept.len() as int;
    assert(env[n] == managed[0] && env[n + 1] == managed[1] && env[n + 2] == managed[2]);
    assert(env[n + 3] == managed[3] && env[n + 4] == managed[4]);
    assert(env[n] == (encode_utf8("PATH"@), path));
    assert(env[n + 1] == (encode_utf8("FUNCTERM_SHIM_DIR"@), shim_dir));
    assert(env[n + 2] == (encode_utf8("FUNCTERM_SESSION_ROOT"@), session_root));
    assert(env[n + 3] == (encode_utf8("FUNCTERM_ACTIVE_SHELL_FILE"@), active_shell_file));
    assert(env[n + 4] == (encode_utf8("FUNCTERM_HELPER_EXECUTABLE"@), helper_executable));
}

proof fn lemma_kept_entries_concat(
    a: Seq<Seq<u8>>,
    b: Seq<Seq<u8>>,
    shim: Option<Seq<u8>>,
    platform: Platform,
)
    ensures
        kept_entries(a + b, shim, platform) == kept_entries(a, shim, platform) + kept_entries(
            b,
            shim,
            platform,
        ),
    decreases b.len(),
{
    if b.len() == 0 {
        assert(a + b =~= a);
        assert(kept_entries(a, shim, platform) + kept_entries(b, shim, platform) =~= kept_entries(
            a,
            shim,
            platform,
        ));
    } else {
        lemma_kept_entries_concat(a, b.drop_last(), shim, platform);
        assert((a + b).drop_last() =~= a + b.drop_last());
        assert((a + b).last() == b.last());
        assert(kept_entries(a + b, shim, platform) =~= kept_entries(a, shim, platform)
            + kept_entries(b, shim, platform));
    }
}

proof fn lemma_kept_entries_without_match(entries: Seq<Seq<u8>>, old: Seq<u8>, platform: Platform)
    requires
        forall|i: int| 0 <= i < entries.len() ==> !names_match(#[trigger] entries[i], old, platform),
    ensures
        kept_entries(entries, Some(old), platform) == entries,
    decreases entries.len(),
{
    if entries.len() > 0 {
        let rest = entries.drop_last();
        assert forall|i: int| 0 <= i < rest.len() implies !names_match(#[trigger] rest[i], old, platform) by {
            assert(rest[i] == entries[i]);
        }
        lemma_kept_entries_without_match(rest, old, platform);
        assert(!names_match(entries.last(), old, platform));
        assert(rest.push(entries.last()) =~= entries);
    }
}

/// Law: building `PATH` again from a session's `PATH`, under the shim directory that
/// session uses and inherits, gives the same entries.
pub proof fn rebuilt_path_is_unchanged(shim_dir: Seq<u8>, entries: Seq<Seq<u8>>, platform: Platform)
    ensures
        ({
            let once = seq![shim_dir] + kept_entries(entries, Some(shim_dir), platform);
            seq![shim_dir] + kept_entries(once, Some(shim_dir), platform) == once
        }),
{
    let kept = kept_entries(entries, Some(shim_dir), platform);
    let once = seq![shim_dir] + kept;
    lemma_kept_entries_concat(seq![shim_dir], kept, Some(shim_dir), platform);
    assert(names_match(shim_dir, shim_dir, platform));
    let single = seq![shim_dir];
    assert(single.drop_last() =~= Seq::<Seq<u8>>::empty());
    assert(kept_entries(Seq::<Seq<u8>>::empty(), Some(shim_dir), platform) == Seq::<Seq<u8>>::empty());
    assert(kept_entries(single, Some(shim_dir), platform) =~= Seq::<Seq<u8>>::empty());
    inherited_shim_directory_is_dropped(entries, shim_dir, platform);
    lemma_kept_entries_without_match(kept, shim_dir, platform);
    assert(kept_entries(once, Some(shim_dir), platform) =~= kept);
}

} // verus!
