//! What the command line asks for.

use vstd::prelude::*;

verus! {

/// The options of the command line: the login name and the path of the OAuth
/// token (server mode), and the channels to join.
pub struct MainArgs {
    pub name: String,
    pub oauth_path: String,
    pub join_channels: Vec<String>,
    /// Run the relay (with a login name and a token), or else tell a running
    /// relay to join `join_channels`.
    pub is_server: bool,
}

/// Why the command line cannot be used.
#[derive(Debug, PartialEq, Eq)]
pub enum ArgsError {
    /// No option at all: print the usage.
    NoArguments,
    /// Neither both of `--name` and `--oauth`, nor any `--join`.
    MissingServerArgs,
}

impl MainArgs {
    /// Decides the mode from the options (an option not given is empty):
    /// nothing given is refused with `NoArguments`; a name and a token run the
    /// relay; otherwise channels to join make a client, and without them the
    /// command line is refused with `MissingServerArgs`.
    pub fn from_options(name: String, oauth_path: String, join_channels: Vec<String>) -> (res: Result<MainArgs, ArgsError>)
        ensures
            (name@.len() == 0 && oauth_path@.len() == 0 && join_channels@.len() == 0) ==> res
                == Err::<MainArgs, ArgsError>(ArgsError::NoArguments),
            (name@.len() != 0 && oauth_path@.len() != 0) ==> (res matches Ok(a) && a.is_server),
            (name@.len() == 0 || oauth_path@.len() == 0) && join_channels@.len() == 0 && !(name@.len()
                == 0 && oauth_path@.len() == 0) ==> res == Err::<MainArgs, ArgsError>(
                ArgsError::MissingServerArgs,
            ),
            (name@.len() == 0 || oauth_path@.len() == 0) && join_channels@.len() != 0 ==> (res matches Ok(a)
                && !a.is_server),
            res matches Ok(a) ==> a.name == name && a.oauth_path == oauth_path && a.join_channels
                == join_channels,
    {
        let no_name = name.as_str().is_empty();
        let no_oauth = oauth_path.as_str().is_empty();
        let no_join = join_channels.len() == 0;
        if no_name && no_oauth && no_join {
            Err(ArgsError::NoArguments)
        } else if !no_name && !no_oauth {
            Ok(MainArgs { name, oauth_path, join_channels, is_server: true })
        } else if no_join {
            Err(ArgsError::MissingServerArgs)
        } else {
            Ok(MainArgs { name, oauth_path, join_channels, is_server: false })
        }
    }
}

} // verus!
