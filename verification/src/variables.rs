//! The protected environment names as they are written into the generated shell
//! wrappers: lists for PowerShell, Nushell and the shims, and the capture and restore
//! blocks of the `cmd.exe` and POSIX wrappers.
use crate::shims::{protected_environment_names, protected_names};
use vstd::prelude::*;

verus! {

broadcast use vstd::string::group_string_axioms;

/// `name` written through a template: the template's literal pieces with the name in
/// each gap between two consecutive pieces.
pub open spec fn render_name(name: Seq<char>, pieces: Seq<Seq<char>>) -> Seq<char>
    decreases pieces.len(),
{
    if pieces.len() == 0 {
        seq![]
    } else if pieces.len() == 1 {
        pieces[0]
    } else {
        render_name(name, pieces.drop_last()) + name + pieces.last()
    }
}

/// Every name written through the template, joined by `separator`.
pub open spec fn join_rendered(
    names: Seq<Seq<char>>,
    pieces: Seq<Seq<char>>,
    separator: Seq<char>,
) -> Seq<char>
    decreases names.len(),
{
    if names.len() == 0 {
        seq![]
    } else if names.len() == 1 {
        render_name(names[0], pieces)
    } else {
        join_rendered(names.drop_last(), pieces, separator) + separator + render_name(
            names.last(),
            pieces,
        )
    }
}

/// The character views of a list of strings.
pub open spec fn str_views(strings: Seq<&str>) -> Seq<Seq<char>> {
    strings.map_values(|s: &str| s@)
}

/// Writes one name through a template of literal pieces.
fn render(out: &mut String, name: &str, pieces: &Vec<&str>)
    requires
        pieces@.len() >= 1,
    ensures
        final(out)@ == old(out)@ + render_name(name@, str_views(pieces@)),
{
    out.append(pieces[0]);
    let mut i: usize = 1;
    assert(str_views(pieces@).take(1).drop_last() =~= Seq::<Seq<char>>::empty());
    assert(render_name(name@, str_views(pieces@).take(1)) == pieces@[0]@);
    while i < pieces.len()
        invariant
            1 <= i <= pieces@.len(),
            out@ == old(out)@ + render_name(name@, str_views(pieces@).take(i as int)),
        decreases pieces@.len() - i,
    {
        let ghost before = out@;
        out.append(name);
        out.append(pieces[i]);
        proof {
            let views = str_views(pieces@);
            assert(views.take(i + 1).drop_last() =~= views.take(i as int));
            assert(views.take(i + 1).last() == pieces@[i as int]@);
        }
        assert(out@ =~= old(out)@ + render_name(name@, str_views(pieces@).take(i + 1)));
        i = i + 1;
    }
    assert(str_views(pieces@).take(i as int) =~= str_views(pieces@));
}

/// Writes every name through the template, joined by `separator`.
pub fn render_names(names: &Vec<&str>, pieces: &Vec<&str>, separator: &str) -> (r: String)
    requires
        pieces@.len() >= 1,
    ensures
        r@ == join_rendered(str_views(names@), str_views(pieces@), separator@),
{
    let mut out = String::new();
    let mut i: usize = 0;
    while i < names.len()
        invariant
            pieces@.len() >= 1,
            0 <= i <= names@.len(),
            out@ == join_rendered(str_views(names@).take(i as int), str_views(pieces@), separator@),
        decreases names@.len() - i,
    {
        let ghost before = out@;
        proof {
            let views = str_views(names@);
            assert(views.take(i + 1).drop_last() =~= views.take(i as int));
            assert(views.take(i + 1).last() == names@[i as int]@);
            if i == 0 {
                assert(views.take(1)[0] == names@[0]@);
            }
        }
        if i > 0 {
            out.append(separator);
        }
        render(&mut out, names[i], pieces);
        assert(out@ =~= join_rendered(str_views(names@).take(i + 1), str_views(pieces@), separator@));
        i = i + 1;
    }
    assert(str_views(names@).take(i as int) =~= str_views(names@));
    out
}

/// The protected names separated by spaces, as a Nushell list body.
pub fn nushell_protected_environment_names() -> (r: String)
    ensures
        r@ == join_rendered(protected_names(), seq![""@, ""@], " "@),
{
    let names = protected_environment_names();
    let pieces = vec!["", ""];
    assert(str_views(names@) =~= protected_names());
    assert(str_views(pieces@) =~= seq![""@, ""@]);
    render_names(&names, &pieces, " ")
}

/// The protected names as single-quoted PowerShell strings separated by `, `.
pub fn powershell_protected_environment_names() -> (r: String)
    ensures
        r@ == join_rendered(protected_names(), seq!["'"@, "'"@], ", "@),
{
    let names = protected_environment_names();
    let pieces = vec!["'", "'"];
    assert(str_views(names@) =~= protected_names());
    assert(str_views(pieces@) =~= seq!["'"@, "'"@]);
    render_names(&names, &pieces, ", ")
}

/// The protected names as double-quoted strings separated by `, `.
pub fn quoted_protected_environment_names() -> (r: String)
    ensures
        r@ == join_rendered(protected_names(), seq!["\""@, "\""@], ", "@),
{
    let names = protected_environment_names();
    let pieces = vec!["\"", "\""];
    assert(str_views(names@) =~= protected_names());
    assert(str_views(pieces@) =~= seq!["\""@, "\""@]);
    render_names(&names, &pieces, ", ")
}

/// The `cmd.exe` block that clears every protected name and then restores the saved
/// protected bindings from the session's file.
pub fn cmd_environment_restore() -> (r: String)
    ensures
        r@ == join_rendered(protected_names(), seq!["set \""@, "=\""@], "\n"@)
            + "\nfor /f \"usebackq delims=\" %%e in (\"%~dp0@VAR_protected_environment_file@.txt\") do set \"%%e\""@,
{
    let names = protected_environment_names();
    let pieces = vec!["set \"", "=\""];
    assert(str_views(names@) =~= protected_names());
    assert(str_views(pieces@) =~= seq!["set \""@, "=\""@]);
    let mut script = render_names(&names, &pieces, "\n");
    script.append(
        "\nfor /f \"usebackq delims=\" %%e in (\"%~dp0@VAR_protected_environment_file@.txt\") do set \"%%e\"",
    );
    script
}

/// The `cmd.exe` command that saves the protected bindings found in the environment
/// captured before the user's command.
pub fn cmd_environment_capture() -> (r: String)
    ensures
        r@ == "findstr.exe /b /l "@ + join_rendered(
            protected_names(),
            seq!["/c:\""@, "=\""@],
            " "@,
        )
            + " \"%~dp0@VAR_environment_before_file@.txt\" > \"%~dp0@VAR_protected_environment_file@.txt\""@,
{
    let names = protected_environment_names();
    let pieces = vec!["/c:\"", "=\""];
    assert(str_views(names@) =~= protected_names());
    assert(str_views(pieces@) =~= seq!["/c:\""@, "=\""@]);
    let patterns = render_names(&names, &pieces, " ");
    let mut command = String::from_str("findstr.exe /b /l ");
    command.append(patterns.as_str());
    command.append(
        " \"%~dp0@VAR_environment_before_file@.txt\" > \"%~dp0@VAR_protected_environment_file@.txt\"",
    );
    command
}

/// The POSIX function lines that save the complete environment and each protected
/// binding in locals.
pub fn posix_environment_snapshot() -> (r: String)
    ensures
        r@ == "    local @VAR_complete_environment@=\"$(export -p | sed 's/^declare -x /export /')\"\n"@
            + join_rendered(
            protected_names(),
            seq!["    local @VAR_protected_"@, "@=\"${"@, "-}\""@],
            "\n"@,
        ),
{
    let names = protected_environment_names();
    let pieces = vec!["    local @VAR_protected_", "@=\"${", "-}\""];
    assert(str_views(names@) =~= protected_names());
    assert(str_views(pieces@) =~= seq!["    local @VAR_protected_"@, "@=\"${"@, "-}\""@]);
    let saved = render_names(&names, &pieces, "\n");
    let mut lines = String::from_str(
        "    local @VAR_complete_environment@=\"$(export -p | sed 's/^declare -x /export /')\"\n",
    );
    lines.append(saved.as_str());
    lines
}

/// The POSIX function lines that bring back the complete environment when the user's
/// command emptied it, and then re-export each protected binding.
pub fn posix_environment_restore() -> (r: String)
    ensures
        r@ == "    if [ -z \"${PATH+x}\" ] && [ -z \"${PWD+x}\" ]; then\n        eval \"$@VAR_complete_environment@\"\n    fi\n"@
            + join_rendered(
            protected_names(),
            seq!["    export "@, "=\"$@VAR_protected_"@, "@\""@],
            "\n"@,
        ),
{
    let names = protected_environment_names();
    let pieces = vec!["    export ", "=\"$@VAR_protected_", "@\""];
    assert(str_views(names@) =~= protected_names());
    assert(str_views(pieces@) =~= seq!["    export "@, "=\"$@VAR_protected_"@, "@\""@]);
    let exported = render_names(&names, &pieces, "\n");
    let mut lines = String::from_str(
        "    if [ -z \"${PATH+x}\" ] && [ -z \"${PWD+x}\" ]; then\n        eval \"$@VAR_complete_environment@\"\n    fi\n",
    );
    lines.append(exported.as_str());
    lines
}

} // verus!
