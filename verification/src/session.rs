//! The state of a connection to one router that the logic reads, apart from
//! its network streams: where it goes, under which name, with which
//! credentials and certificates, and whether it is up; the login exchange;
//! and how a command's reply becomes metrics or an error.

use vstd::prelude::*;
use crate::config::Queries;
use crate::metrics::Metrics;
use crate::response::empty_reply;
use crate::response::empty_reply_message;
use crate::response::error_reply;
use crate::response::error_reply_message;
use crate::response::head_cut_inside_char;
use crate::response::reply_lines;
use crate::response::reply_records;
use crate::response::response_decoder;
use crate::text::chars_of;
use crate::text::extend_str;
use crate::text::same_chars;
use crate::text::contains;
use crate::text::has_infix;
use crate::text::split_chars;
use crate::text::views;
use crate::text::string_of;

verus! {

/// `std::io::Error`, carried through opaque: nothing is claimed of it.
#[verifier::external_type_specification]
#[verifier::external_body]
pub struct ExIoError(std::io::Error);

/// Why a command did not give metrics.
pub enum ConnectionError {
    /// The router answered with an error, or nothing.
    ResponceError(String),
    /// The connection failed.
    IoError(std::io::Error),
}

/// The settings and state of the connection to one router.
pub struct Session {
    pub address: String,
    pub instance_name: String,
    /// Kept to log in again after a reconnection.
    pub username: Option<String>,
    pub password: Option<String>,
    /// Where the client certificate is, if one is used.
    pub cert: Option<String>,
    pub ca_cert: Option<String>,
    pub secured: bool,
    pub connected: bool,
}

impl Session {
    /// The state after an attempt to connect to `address`: without
    /// credentials yet; a plain connection that came up keeps no
    /// certificates, any other keeps those given.
    pub fn opened(
        address: String,
        instance_name: String,
        use_ssl: bool,
        cert: Option<String>,
        ca_cert: Option<String>,
        connected: bool,
    ) -> (res: Session)
        ensures
            res.address@ == address@,
            res.instance_name@ == instance_name@,
            res.username is None,
            res.password is None,
            res.secured == use_ssl,
            res.connected == connected,
            connected && !use_ssl ==> res.cert is None && res.ca_cert is None,
            !(connected && !use_ssl) ==> res.cert == cert && res.ca_cert == ca_cert,
    {
        if connected && !use_ssl {
            Session {
                address,
                instance_name,
                username: None,
                password: None,
                cert: None,
                ca_cert: None,
                secured: false,
                connected: true,
            }
        } else {
            Session {
                address,
                instance_name,
                username: None,
                password: None,
                cert,
                ca_cert,
                secured: use_ssl,
                connected,
            }
        }
    }

    /// Whether the connection is up.
    pub fn is_connected(&self) -> (res: bool)
        ensures
            res == self.connected,
    {
        self.connected
    }

    /// Records the credentials: each one replaces the one kept when there is
    /// none or when `overwrite` is set.
    pub fn set_credentials(&mut self, username: &str, pwd: &str, overwrite: bool)
        ensures
            final(self).address == old(self).address,
            final(self).instance_name == old(self).instance_name,
            final(self).cert == old(self).cert,
            final(self).ca_cert == old(self).ca_cert,
            final(self).secured == old(self).secured,
            final(self).connected == old(self).connected,
            final(self).username is Some,
            final(self).password is Some,
            (old(self).username is None || overwrite) ==> final(self).username->0@ == username@,
            !(old(self).username is None || overwrite) ==> final(self).username == old(self).username,
            (old(self).password is None || overwrite) ==> final(self).password->0@ == pwd@,
            !(old(self).password is None || overwrite) ==> final(self).password == old(self).password,
    {
        if self.username.is_none() || overwrite {
            self.username = Some(username.to_owned());
        }
        if self.password.is_none() || overwrite {
            self.password = Some(pwd.to_owned());
        }
    }

    /// The words of the login sentence: `/login`, `=name=<username>`,
    /// `=password=<password>`.
    pub fn login_words(&self) -> (res: Vec<String>)
        requires
            self.username is Some,
            self.password is Some,
        ensures
            res@.len() == 3,
            res@[0]@ == "/login"@,
            res@[1]@ == "=name="@ + self.username->0@,
            res@[2]@ == "=password="@ + self.password->0@,
    {
        let mut words: Vec<String> = Vec::new();
        let first = chars_of("/login");
        words.push(string_of(first.as_slice()));
        let mut name = chars_of("=name=");
        extend_str(&mut name, self.username.as_ref().unwrap().as_str());
        words.push(string_of(name.as_slice()));
        let mut pass = chars_of("=password=");
        extend_str(&mut pass, self.password.as_ref().unwrap().as_str());
        words.push(string_of(pass.as_slice()));
        words
    }

    /// The router and its address, as `name (address)`.
    pub fn describe(&self) -> (res: String)
        ensures
            res@ == self.instance_name@ + " ("@ + self.address@ + ")"@,
    {
        let mut t = chars_of(self.instance_name.as_str());
        extend_str(&mut t, " (");
        extend_str(&mut t, self.address.as_str());
        extend_str(&mut t, ")");
        string_of(t.as_slice())
    }

    /// The metrics of a command's decoded reply (see
    /// [`response_decoder`]), its refusal becoming a reply error.
    pub fn decode_command_reply(&self, output: &str, query: &Queries, verbose: bool) -> (res: Result<
        Metrics,
        ConnectionError,
    >)
        requires
            !head_cut_inside_char(output@, verbose),
        ensures
            match res {
                Ok(m) => !empty_reply(output@, verbose) && !error_reply(output@, verbose) && m@
                    == seq![(query.name@, reply_records(output@, *query, self.instance_name@))],
                Err(ConnectionError::ResponceError(e)) => if empty_reply(output@, verbose) {
                    e@ == empty_reply_message(self.address@, query.command@)
                } else {
                    error_reply(output@, verbose) && e@ == error_reply_message(
                        reply_lines(output@)[0],
                        self.address@,
                        query.command@,
                    )
                },
                Err(ConnectionError::IoError(_)) => false,
            },
    {
        match response_decoder(
            output,
            query,
            self.address.as_str(),
            self.instance_name.as_str(),
            verbose,
        ) {
            Ok(m) => Ok(m),
            Err(msg) => Err(ConnectionError::ResponceError(msg)),
        }
    }
}

/// The reply holds a `!trap` or `!fatal` sentence: a line of its text is
/// one of these reply words.
pub open spec fn refused(reply: Seq<char>) -> bool {
    exists|i: int|
        0 <= i < reply_lines(reply).len() && (#[trigger] reply_lines(reply)[i] == "!trap"@
            || reply_lines(reply)[i] == "!fatal"@)
}

/// A login succeeds when its reply holds `!done` and no `!trap` or `!fatal`
/// sentence (RouterOS closes a refusal with `!done` too); otherwise the reply
/// is the error.
pub fn login_outcome(response: String) -> (res: Result<(), String>)
    ensures
        res is Ok <==> has_infix(response@, "!done"@) && !refused(response@),
        res is Err ==> (res matches Err(e) && e@ == response@),
{
    let r = chars_of(response.as_str());
    let done = chars_of("!done");
    if !contains(r.as_slice(), done.as_slice()) {
        return Err(response);
    }
    let nl = chars_of("\n");
    let trap = chars_of("!trap");
    let fatal = chars_of("!fatal");
    proof {
        reveal_strlit("\n");
        assert(nl@ =~= seq!['\n']);
    }
    let lines = split_chars(r.as_slice(), nl.as_slice());
    assert(views(lines@) == reply_lines(response@));
    let mut k: usize = 0;
    while k < lines.len()
        invariant
            k <= lines.len(),
            views(lines@) == reply_lines(response@),
            trap@ == "!trap"@,
            fatal@ == "!fatal"@,
            forall|j: int|
                0 <= j < k ==> !(reply_lines(response@)[j] == "!trap"@ || reply_lines(response@)[j]
                    == "!fatal"@),
        decreases lines.len() - k,
    {
        assert(reply_lines(response@)[k as int] == lines@[k as int]@);
        if same_chars(lines[k].as_slice(), trap.as_slice()) || same_chars(
            lines[k].as_slice(),
            fatal.as_slice(),
        ) {
            assert(reply_lines(response@)[k as int] == "!trap"@ || reply_lines(response@)[k as int]
                == "!fatal"@);
            assert(refused(response@));
            return Err(response);
        }
        assert(lines@[k as int]@ != trap@ && lines@[k as int]@ != fatal@);
        k = k + 1;
    }
    Ok(())
}

/// The outcome of connecting to the routers of `credentials.json`: no router
/// up is an error; otherwise whether only some (`true`) or all came up.
pub fn connection_verdict(connected: usize, total: usize) -> (res: Result<bool, String>)
    ensures
        connected == 0 ==> (res matches Err(e) && e@ == "Connected to 0 instances!"@),
        connected != 0 ==> res == Ok::<bool, String>(connected < total),
{
    if connected == 0 {
        let t = chars_of("Connected to 0 instances!");
        Err(string_of(t.as_slice()))
    } else {
        Ok(connected < total)
    }
}

/// What becomes of a router of `credentials.json` once it has been tried.
#[derive(Debug, PartialEq, Eq, Structural, Clone, Copy)]
pub enum Admission {
    /// Not connected: kept, with its credentials, to wait for a reconnection.
    Waiting,
    /// Connected and logged in: kept.
    Ready,
    /// Connected but the login failed: left out.
    Dropped,
}

/// The fate of a router after the attempt to connect and, when it connected,
/// to log in (`logged_in` counts only then).
pub fn admission(connected: bool, logged_in: bool) -> (res: Admission)
    ensures
        !connected ==> res == Admission::Waiting,
        connected && logged_in ==> res == Admission::Ready,
        connected && !logged_in ==> res == Admission::Dropped,
{
    if !connected {
        Admission::Waiting
    } else if logged_in {
        Admission::Ready
    } else {
        Admission::Dropped
    }
}

/// What the interactive console does with a line that was typed.
#[derive(Debug, PartialEq, Eq, Structural, Clone, Copy)]
pub enum ConsoleStep {
    /// `.`: end the session.
    Stop,
    /// `?`: show the help.
    Help,
    /// An empty line: send the collected lines as a sentence.
    Send,
    /// Anything else: collect the line as the next word.
    Collect,
}

/// What the interactive console does with the (trimmed) line `line`.
pub fn console_step(line: &str) -> (res: ConsoleStep)
    ensures
        res == if line@ == "."@ {
            ConsoleStep::Stop
        } else if line@ == "?"@ {
            ConsoleStep::Help
        } else if line@.len() == 0 {
            ConsoleStep::Send
        } else {
            ConsoleStep::Collect
        },
{
    let l = chars_of(line);
    let dot = chars_of(".");
    let question = chars_of("?");
    if same_chars(l.as_slice(), dot.as_slice()) {
        ConsoleStep::Stop
    } else if same_chars(l.as_slice(), question.as_slice()) {
        ConsoleStep::Help
    } else if l.len() == 0 {
        ConsoleStep::Send
    } else {
        ConsoleStep::Collect
    }
}

} // verus!
