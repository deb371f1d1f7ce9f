use vstd::prelude::*;

verus! {

/// Name of the database file inside the configuration directory.
pub open spec fn db_file_name() -> Seq<char> {
    seq!['d', 'o', 'o', 'd', '.', 'd', 'b']
}

/// `dir` joined with the database file name, with one separator.
pub open spec fn db_path_of(dir: Seq<char>) -> Seq<char> {
    if dir.len() == 0 || dir.last() == '/' {
        dir + db_file_name()
    } else {
        dir + seq!['/'] + db_file_name()
    }
}

/// The database path inside the configuration directory `config_dir`.
pub fn get_db_path(config_dir: &str) -> (p: String)
    ensures
        p@ == db_path_of(config_dir@),
{
    proof {
        reveal_strlit("dood.db");
        reveal_strlit("/");
    }
    let mut p = String::from_str(config_dir);
    let len = config_dir.unicode_len();
    if len > 0 && config_dir.get_char(len - 1) != '/' {
        p.append("/");
    }
    p.append("dood.db");
    assert(p@ =~= db_path_of(config_dir@));
    p
}

/// `s` itself if it has at most `max_len` characters; otherwise its first
/// `max_len - 3` characters followed by `...`.
pub open spec fn truncated(s: Seq<char>, max_len: nat) -> Seq<char> {
    if s.len() <= max_len {
        s
    } else {
        s.take(max_len - 3) + seq!['.', '.', '.']
    }
}

pub fn truncate(s: &str, max_len: usize) -> (r: String)
    requires
        max_len >= 3,
    ensures
        r@ == truncated(s@, max_len as nat),
{
    proof {
        reveal_strlit("...");
    }
    let len = s.unicode_len();
    if len <= max_len {
        String::from_str(s)
    } else {
        let mut r = String::from_str(s.substring_char(0, max_len - 3));
        r.append("...");
        assert(r@ =~= truncated(s@, max_len as nat));
        r
    }
}

/// A line typed in interactive chat.
#[derive(Clone, Copy, PartialEq, Eq, Debug, Structural)]
pub enum ChatCommand {
    /// Nothing typed.
    Empty,
    /// `/quit` or `/exit`.
    Quit,
    /// `/fetch`.
    Fetch,
    /// Anything else is sent as a message.
    Send,
}

pub open spec fn chat_command_of(line: Seq<char>) -> ChatCommand {
    if line.len() == 0 {
        ChatCommand::Empty
    } else if line == seq!['/', 'q', 'u', 'i', 't'] || line == seq!['/', 'e', 'x', 'i', 't'] {
        ChatCommand::Quit
    } else if line == seq!['/', 'f', 'e', 't', 'c', 'h'] {
        ChatCommand::Fetch
    } else {
        ChatCommand::Send
    }
}

fn chars_equal(a: &str, b: &str) -> (r: bool)
    ensures
        r == (a@ == b@),
{
    let n = a.unicode_len();
    if n != b.unicode_len() {
        return false;
    }
    let mut i: usize = 0;
    while i < n
        invariant
            n == a@.len() && n == b@.len(),
            i <= n,
            forall|k: int| 0 <= k < i ==> a@[k] == b@[k],
        decreases n - i,
    {
        if a.get_char(i) != b.get_char(i) {
            return false;
        }
        i = i + 1;
    }
    assert(a@ =~= b@);
    true
}

/// Classifies a trimmed line of interactive chat.
pub fn chat_command(line: &str) -> (c: ChatCommand)
    ensures
        c == chat_command_of(line@),
{
    proof {
        reveal_strlit("/quit");
        reveal_strlit("/exit");
        reveal_strlit("/fetch");
        assert("/quit"@ =~= seq!['/', 'q', 'u', 'i', 't']);
        assert("/exit"@ =~= seq!['/', 'e', 'x', 'i', 't']);
        assert("/fetch"@ =~= seq!['/', 'f', 'e', 't', 'c', 'h']);
    }
    if line.unicode_len() == 0 {
        ChatCommand::Empty
    } else if chars_equal(line, "/quit") || chars_equal(line, "/exit") {
        ChatCommand::Quit
    } else if chars_equal(line, "/fetch") {
        ChatCommand::Fetch
    } else {
        ChatCommand::Send
    }
}

/// Why a command cannot run yet.
#[derive(Clone, Copy, PartialEq, Eq, Debug, Structural)]
pub enum CliError {
    NotLoggedIn,
    ServerNotConfigured,
}

/// Commands that act for an account need a login.
pub fn ensure_logged_in(logged_in: bool) -> (r: Result<(), CliError>)
    ensures
        r == (if logged_in {
            Ok::<(), CliError>(())
        } else {
            Err(CliError::NotLoggedIn)
        }),
{
    if logged_in {
        Ok(())
    } else {
        Err(CliError::NotLoggedIn)
    }
}

/// Registration needs a relay address.
pub fn ensure_server_configured(configured: bool) -> (r: Result<(), CliError>)
    ensures
        r == (if configured {
            Ok::<(), CliError>(())
        } else {
            Err(CliError::ServerNotConfigured)
        }),
{
    if configured {
        Ok(())
    } else {
        Err(CliError::ServerNotConfigured)
    }
}

} // verus!
