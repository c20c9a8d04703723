//! Where the tool keeps its files.

use vstd::prelude::*;
use vstd::utf8::*;

verus! {

/// A path of the file system.
#[verifier::external_type_specification]
#[verifier::external_body]
pub struct ExPathBuf(std::path::PathBuf);

/// The components of a path from the first to the last, each by its bytes as
/// `OsStr::as_encoded_bytes` gives them.
pub uninterp spec fn path_components(path: std::path::PathBuf) -> Seq<Seq<u8>>;

/// Whether `name` is a plain file name: letters, digits, dashes and dots, with a letter
/// among them.
pub open spec fn plain_name(name: Seq<char>) -> bool {
    &&& exists|i: int| 0 <= i < name.len() && 'a' <= (#[trigger] name[i]) <= 'z'
    &&& forall|i: int|
        0 <= i < name.len() ==> {
            ||| 'a' <= (#[trigger] name[i]) <= 'z'
            ||| '0' <= name[i] <= '9'
            ||| name[i] == '-'
            ||| name[i] == '.'
        }
}

/// Why the place of a file is not known.
#[derive(Debug, Clone, Copy, PartialEq, Eq, Structural)]
pub enum PathError {
    /// There is no home directory.
    NoHomeDirectory,
}

impl PathError {
    /// The message that tells a user what is wrong.
    pub fn message(self) -> (r: String)
        ensures
            r@ == "Could not determine home directory"@,
    {
        "Could not determine home directory".to_owned()
    }
}

/// `dirs::home_dir` tells the home directory of the current user, if it can be found.
/// Which one it is depends on the environment.
#[verifier::external_body]
fn home_dir() -> Option<std::path::PathBuf> {
    dirs::home_dir()
}

/// `Path::join` appends a plain file name to a path, as its last component. This is said of
/// Unix: on Windows a name that is joined to the start of a network prefix, such as
/// `\\host`, becomes a part of that prefix.
#[verifier::external_body]
fn path_join(path: &std::path::PathBuf, name: &str) -> (r: std::path::PathBuf)
    requires
        plain_name(name@),
    ensures
        path_components(r) == path_components(*path).push(encode_utf8(name@)),
{
    path.join(name)
}

/// The components of the data directory of the tool, for a user with this home directory.
pub open spec fn cli_dir(home: Seq<Seq<u8>>) -> Seq<Seq<u8>> {
    home.push(encode_utf8(".gemini"@)).push(encode_utf8("antigravity-cli"@))
}

/// The components of the log directory of the tool, for a user with this home directory.
pub open spec fn log_dir(home: Seq<Seq<u8>>) -> Seq<Seq<u8>> {
    cli_dir(home).push(encode_utf8("log"@))
}

/// The data directory of the tool, for a user with this home directory.
pub fn antigravity_cli_dir(
    home: Option<std::path::PathBuf>,
) -> (r: Result<std::path::PathBuf, PathError>)
    ensures
        match home {
            Some(home) => r matches Ok(dir) && path_components(dir) == cli_dir(
                path_components(home),
            ),
            None => r == Err::<std::path::PathBuf, PathError>(PathError::NoHomeDirectory),
        },
{
    proof {
        reveal_strlit(".gemini");
        reveal_strlit("antigravity-cli");
        assert((".gemini"@)[1] == 'g');
        assert(("antigravity-cli"@)[0] == 'a');
    }
    match home {
        Some(home) => Ok(path_join(&path_join(&home, ".gemini"), "antigravity-cli")),
        None => Err(PathError::NoHomeDirectory),
    }
}

/// The directory where the tool keeps its logs, for a user with this home directory.
pub fn antigravity_cli_log_dir(
    home: Option<std::path::PathBuf>,
) -> (r: Result<std::path::PathBuf, PathError>)
    ensures
        match home {
            Some(home) => r matches Ok(dir) && path_components(dir) == log_dir(
                path_components(home),
            ),
            None => r == Err::<std::path::PathBuf, PathError>(PathError::NoHomeDirectory),
        },
{
    proof {
        reveal_strlit("log");
        assert(("log"@)[0] == 'l');
    }
    match antigravity_cli_dir(home) {
        Ok(dir) => Ok(path_join(&dir, "log")),
        Err(error) => Err(error),
    }
}

/// `~/.gemini/antigravity-cli`, the data directory of the tool for the current user.
pub fn get_antigravity_cli_dir() -> (r: Result<std::path::PathBuf, PathError>)
    ensures
        match r {
            Ok(dir) => exists|home: Seq<Seq<u8>>| path_components(dir) == #[trigger] cli_dir(home),
            Err(error) => error is NoHomeDirectory,
        },
{
    antigravity_cli_dir(home_dir())
}

/// `~/.gemini/antigravity-cli/log`, where the tool keeps its logs for the current user.
pub fn get_log_dir() -> (r: Result<std::path::PathBuf, PathError>)
    ensures
        match r {
            Ok(dir) => exists|home: Seq<Seq<u8>>| path_components(dir) == #[trigger] log_dir(home),
            Err(error) => error is NoHomeDirectory,
        },
{
    antigravity_cli_log_dir(home_dir())
}

/// The log directory lies in the data directory.
pub proof fn logs_are_in_the_data_directory(home: Seq<Seq<u8>>)
    ensures
        log_dir(home).drop_last() == cli_dir(home),
        log_dir(home).last() == encode_utf8("log"@),
{
    assert(log_dir(home).drop_last() =~= cli_dir(home));
}

/// Both directories lie below the home: nothing of its path changes, and these names follow.
pub proof fn directories_lie_below_the_home(home: Seq<Seq<u8>>)
    ensures
        cli_dir(home) == home + seq![encode_utf8(".gemini"@), encode_utf8("antigravity-cli"@)],
        log_dir(home) == home + seq![
            encode_utf8(".gemini"@),
            encode_utf8("antigravity-cli"@),
            encode_utf8("log"@),
        ],
{
    assert(cli_dir(home) =~= home + seq![
        encode_utf8(".gemini"@),
        encode_utf8("antigravity-cli"@),
    ]);
    assert(log_dir(home) =~= home + seq![
        encode_utf8(".gemini"@),
        encode_utf8("antigravity-cli"@),
        encode_utf8("log"@),
    ]);
}

} // verus!
