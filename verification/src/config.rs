//! Run-time options: which config file to read, where the per-subscription
//! logs live, and how to open an item.

use vstd::prelude::*;
use vstd::string::StringExecFns;

use crate::error::Error;
use crate::parser::{parse_command, spec_words};

verus! {

/// The options one run works under. The caller resolves platform defaults;
/// the fields here hold only what was given explicitly.
#[derive(Debug)]
pub struct Args {
    only_fetch: bool,
    feed_root: Option<String>,
    config: Option<String>,
    open_command: Option<Vec<String>>,
}

impl Args {
    pub closed spec fn spec_only_fetch(self) -> bool {
        self.only_fetch
    }

    pub closed spec fn spec_feed_root(self) -> Option<Seq<char>> {
        match self.feed_root {
            Some(p) => Some(p@),
            None => None,
        }
    }

    pub closed spec fn spec_config(self) -> Option<Seq<char>> {
        match self.config {
            Some(p) => Some(p@),
            None => None,
        }
    }

    pub closed spec fn spec_command(self) -> Option<Seq<Seq<char>>> {
        match self.open_command {
            Some(c) => Some(crate::feed::strs_view(c@)),
            None => None,
        }
    }

    /// Assemble the run's options. An open command is parsed into argv words
    /// here; a command with no word in it fails the whole call.
    pub fn new(
        only_fetch: bool,
        feed_root: Option<&str>,
        config: Option<&str>,
        command: Option<&str>,
    ) -> (r: Result<Args, Error>)
        ensures
            match r {
                Ok(a) => {
                    &&& a.spec_only_fetch() == only_fetch
                    &&& a.spec_feed_root() == (match feed_root {
                        Some(s) => Some(s@),
                        None => None::<Seq<char>>,
                    })
                    &&& a.spec_config() == (match config {
                        Some(s) => Some(s@),
                        None => None::<Seq<char>>,
                    })
                    &&& (match command {
                        None => a.spec_command() is None,
                        Some(c) => spec_words(c@).len() > 0 && a.spec_command() == Some(
                            spec_words(c@),
                        ),
                    })
                },
                Err(e) => {
                    &&& command matches Some(c) && spec_words(c@).len() == 0
                    &&& e.msg_view() == "Error parsing command: expected "@ + "a command"@
                },
            },
    {
        let open_command = match command {
            Some(c) => match parse_command(c) {
                Ok(words) => Some(words),
                Err(pe) => {
                    let mut msg = String::from_str("Error parsing command: expected ");
                    match &pe {
                        crate::error::ParseError::Expected { msg: m, .. } => {
                            msg.append(m.as_str());
                        },
                    }
                    return Err(Error::Msg(msg));
                },
            },
            None => None,
        };
        Ok(
            Args {
                only_fetch,
                feed_root: match feed_root {
                    Some(s) => Some(s.to_owned()),
                    None => None,
                },
                config: match config {
                    Some(s) => Some(s.to_owned()),
                    None => None,
                },
                open_command,
            },
        )
    }

    /// The config file named on the command line, if one was.
    pub fn config_path(&self) -> (r: Option<&String>)
        ensures
            match r {
                Some(p) => self.spec_config() == Some(p@),
                None => self.spec_config() is None,
            },
    {
        match &self.config {
            Some(p) => Some(p),
            None => None,
        }
    }

    /// Fetch only, without presenting anything?
    pub fn only_fetch(&self) -> (r: bool)
        ensures
            r == self.spec_only_fetch(),
    {
        self.only_fetch
    }

    /// The log directory named on the command line, if one was.
    pub fn feed_root(&self) -> (r: Option<&String>)
        ensures
            match r {
                Some(p) => self.spec_feed_root() == Some(p@),
                None => self.spec_feed_root() is None,
            },
    {
        match &self.feed_root {
            Some(p) => Some(p),
            None => None,
        }
    }

    /// The override argv for opening an item, if one was given.
    pub fn open_command(&self) -> (r: Option<&Vec<String>>)
        ensures
            match r {
                Some(c) => self.spec_command() == Some(crate::feed::strs_view(c@)),
                None => self.spec_command() is None,
            },
    {
        match &self.open_command {
            Some(c) => Some(c),
            None => None,
        }
    }
}

/// Is this argv word the `@URL` placeholder, up to ASCII case?
pub open spec fn is_url_marker(s: Seq<char>) -> bool {
    s.len() == "@URL"@.len() && forall|i: int|
        0 <= i < s.len() ==> crate::chars::char_eq_nc(s[i], "@URL"@[i])
}

/// The words joined by single spaces, as the error message prints a command.
pub open spec fn spec_join_spaces(ws: Seq<Seq<char>>) -> Seq<char>
    decreases ws.len(),
{
    if ws.len() == 0 {
        Seq::empty()
    } else if ws.len() == 1 {
        ws[0]
    } else {
        spec_join_spaces(ws.drop_last()) + " "@ + ws.last()
    }
}

/// What opening an item with a command runs: every `@URL` word replaced by
/// the item's URL; with no `@URL` word the URL goes last; a command whose
/// first word is `@URL` is refused, since it names no program.
pub open spec fn spec_prepare_command(cmd: Seq<Seq<char>>, url: Seq<char>) -> Result<
    Seq<Seq<char>>,
    Seq<char>,
> {
    if cmd.len() > 0 && is_url_marker(cmd[0]) {
        Err(
            "@URL can't be the first part of the command (in `"@ + spec_join_spaces(cmd)
                + "`)"@,
        )
    } else if exists|i: int| 0 <= i < cmd.len() && is_url_marker(#[trigger] cmd[i]) {
        Ok(
            cmd.map_values(
                |w: Seq<char>|
                    if is_url_marker(w) {
                        url
                    } else {
                        w
                    },
            ),
        )
    } else {
        Ok(cmd.push(url))
    }
}

fn is_marker(s: &str) -> (r: bool)
    ensures
        r == is_url_marker(s@),
{
    let marker = "@URL";
    let n = s.unicode_len();
    let m = marker.unicode_len();
    if n != m {
        return false;
    }
    let mut i: usize = 0;
    while i < n
        invariant
            0 <= i <= n,
            n == s@.len(),
            n == "@URL"@.len(),
            marker@ == "@URL"@,
            forall|j: int| 0 <= j < i ==> crate::chars::char_eq_nc(s@[j], "@URL"@[j]),
        decreases n - i,
    {
        if !crate::chars::chars_eq_no_case(s.get_char(i), marker.get_char(i)) {
            return false;
        }
        i = i + 1;
    }
    true
}

/// Build the argv that opens `url`: each `@URL` word of the command is
/// replaced by the URL; with none present, the URL is appended. A command
/// that starts with `@URL` is refused with the message the error carries.
pub fn prepare_open_command(command: &Vec<String>, url: &str) -> (r: Result<Vec<String>, Error>)
    ensures
        match r {
            Ok(v) => spec_prepare_command(crate::feed::strs_view(command@), url@) == Ok::<
                Seq<Seq<char>>,
                Seq<char>,
            >(crate::feed::strs_view(v@)),
            Err(e) => spec_prepare_command(crate::feed::strs_view(command@), url@) == Err::<
                Seq<Seq<char>>,
                Seq<char>,
            >(e.msg_view()),
        },
{
    let ghost cmd = crate::feed::strs_view(command@);
    if command.len() > 0 && is_marker(&command[0]) {
        proof {
            assert(cmd[0] == command@[0]@);
        }
        let mut msg = String::from_str("@URL can't be the first part of the command (in `");
        let mut i: usize = 0;
        while i < command.len()
            invariant
                0 <= i <= cmd.len(),
                cmd == crate::feed::strs_view(command@),
                cmd.len() == command@.len(),
                msg@ == "@URL can't be the first part of the command (in `"@ + spec_join_spaces(
                    cmd.take(i as int),
                ),
            decreases cmd.len() - i,
        {
            if i > 0 {
                msg.append(" ");
            }
            msg.append(command[i].as_str());
            proof {
                assert(cmd.take(i + 1).drop_last() =~= cmd.take(i as int));
                assert(cmd.take(i + 1).last() == command@[i as int]@);
                if i == 0 {
                    assert(spec_join_spaces(cmd.take(1)) == cmd.take(1)[0]);
                }
                assert(msg@ =~= "@URL can't be the first part of the command (in `"@
                    + spec_join_spaces(cmd.take(i + 1)));
            }
            i = i + 1;
        }
        msg.append("`)");
        proof {
            assert(cmd.take(cmd.len() as int) =~= cmd);
            assert(msg@ =~= "@URL can't be the first part of the command (in `"@
                + spec_join_spaces(cmd) + "`)"@);
        }
        return Err(Error::Msg(msg));
    }
    let mut found = false;
    let mut i: usize = 0;
    while i < command.len()
        invariant
            0 <= i <= cmd.len(),
            cmd == crate::feed::strs_view(command@),
            cmd.len() == command@.len(),
            found == exists|j: int| 0 <= j < i && is_url_marker(#[trigger] cmd[j]),
        decreases cmd.len() - i,
    {
        if is_marker(&command[i]) {
            proof {
                assert(is_url_marker(cmd[i as int]));
            }
            found = true;
        }
        i = i + 1;
    }
    if found {
        let mut out: Vec<String> = Vec::new();
        let mut i: usize = 0;
        while i < command.len()
            invariant
                0 <= i <= cmd.len(),
                cmd == crate::feed::strs_view(command@),
                cmd.len() == command@.len(),
                out@.len() == i,
                forall|j: int|
                    0 <= j < i ==> (#[trigger] out@[j])@ == if is_url_marker(cmd[j]) {
                        url@
                    } else {
                        cmd[j]
                    },
            decreases cmd.len() - i,
        {
            if is_marker(&command[i]) {
                out.push(url.to_owned());
            } else {
                out.push(command[i].clone());
            }
            i = i + 1;
        }
        proof {
            assert(crate::feed::strs_view(out@) =~= cmd.map_values(
                |w: Seq<char>|
                    if is_url_marker(w) {
                        url@
                    } else {
                        w
                    },
            ));
        }
        Ok(out)
    } else {
        let mut out = crate::feed::clone_strings(command);
        out.push(url.to_owned());
        proof {
            assert(crate::feed::strs_view(out@) =~= cmd.push(url@));
        }
        Ok(out)
    }
}

/// The path of a subscription's log file under a root directory: the
/// subscription's name with a `.feed` suffix.
pub fn feed_path(root: &str, name: &str) -> (r: String)
    ensures
        r@ == root@ + "/"@ + name@ + ".feed"@,
{
    let mut r = String::from_str(root);
    r.append("/");
    r.append(name);
    r.append(".feed");
    r
}

} // verus!
