use vstd::prelude::*;

use crate::cidr::{is_control, valid_cidr_prefix};
use crate::aspath::{extract_as_paths, extracted_path, path_views, strictly_sorted};
use crate::config::{opt_chars, LookingGlassConfig};
use crate::report::QueryResult;
use crate::text::{
    chars_of, contains_chars, ends_with, ends_with_chars, has_substring, lemma_replace_all_keeps,
    lossy_text, lowercase,
    replace_all, replace_chars, string_from_chars, string_push, to_lowercase,
    trim_end, trim_end_chars, utf8_lossy,
};

verus! {

/// Telnet read polling interval in milliseconds, between reads that brought nothing.
pub const TELNET_POLL_MS: u64 = 10;

/// A Telnet option negotiation verb.
pub enum TelnetAction {
    Will,
    Wont,
    Do,
    Dont,
}

/// The answer to an option negotiation: every option the server asks for or offers
/// is refused; other verbs get no answer.
pub fn negotiation_reply(action: &TelnetAction) -> (reply: Option<TelnetAction>)
    ensures
        match action {
            TelnetAction::Do => reply matches Some(TelnetAction::Wont),
            TelnetAction::Will => reply matches Some(TelnetAction::Dont),
            _ => reply is None,
        },
{
    match action {
        TelnetAction::Do => Some(TelnetAction::Wont),
        TelnetAction::Will => Some(TelnetAction::Dont),
        _ => None,
    }
}

/// Where a Telnet session stands.
pub enum Phase {
    /// Waiting for the login prompt, to send the user name.
    Username,
    /// Waiting for the password prompt, to send the password.
    Password,
    /// Waiting for the first router prompt.
    Prompt,
    /// Pagination was disabled; waiting for the prompt again.
    Pager,
    /// The BGP query was sent; waiting for its output up to the prompt.
    Query,
    /// The session is over.
    Done,
}

/// What the connection brought since the last step.
pub enum SessionEvent {
    /// Data received from the server.
    Data(Vec<u8>),
    /// Nothing to use: no data, a read timeout, or a handled negotiation.
    Idle,
    /// The current phase ran out of time before this read.
    Expired,
    /// The read failed, with this message.
    ReadFailed(String),
}

/// What to do next.
pub enum SessionStep {
    /// Read again at once.
    Poll,
    /// Wait `TELNET_POLL_MS` milliseconds, then read again.
    Sleep,
    /// Write this text; the next phase starts, with its own time limit.
    Send(String),
    /// The session is over with this result.
    Finish(QueryResult),
}

/// The meaning of a step, over plain values.
pub enum Reaction {
    Poll,
    Sleep,
    Send(Seq<char>),
    /// Finish with this error.
    Fail(Seq<char>),
    /// Finish with the AS paths extracted from this query output.
    Report(Seq<char>),
}

/// A text line sent to the server.
pub open spec fn line(s: Seq<char>) -> Seq<char> {
    s.push('\n')
}

/// The message of a read that did not reach the prompt in time.
pub open spec fn timeout_text(prompt: Seq<char>) -> Seq<char> {
    "Timeout reading from Telnet. Expected suffix: '"@ + prompt + "'"@
}

/// The received text ends, but for trailing whitespace and case, with a login prompt.
pub open spec fn login_prompt_seen(text: Seq<char>) -> bool {
    ends_with(lowercase(trim_end(text)), "username:"@) || ends_with(
        lowercase(trim_end(text)),
        "login:"@,
    )
}

/// The received text ends, but for trailing whitespace and case, with a password prompt.
pub open spec fn password_prompt_seen(text: Seq<char>) -> bool {
    ends_with(lowercase(trim_end(text)), "password:"@)
}

/// A Telnet conversation with a Cisco/IOS-like Looking Glass: log in when asked,
/// wait for the prompt, disable paging, send the BGP query, and collect its output.
pub struct TelnetSession {
    /// The Looking Glass's name, for the result.
    pub name: String,
    /// The user name to send at the login prompt, if the server asks for one.
    pub username: Option<String>,
    /// The password to send at the password prompt, if any.
    pub password: Option<String>,
    /// The router prompt that ends each answer.
    pub prompt: String,
    /// The command that disables paging, if any.
    pub pager: Option<String>,
    /// The query line, with the prefix in place.
    pub command: String,
    /// The ASN whose announcements are looked for.
    pub target: u32,
    /// Where the conversation stands.
    pub phase: Phase,
    /// What the current phase has received so far.
    pub buffer: Vec<u8>,
}

/// The router prompt: the configured suffix, or `>` by default.
pub open spec fn prompt_of(lg: LookingGlassConfig) -> Seq<char> {
    match opt_chars(lg.prompt_suffix) {
        Some(p) => p,
        None => ">"@,
    }
}

/// The user name sent at the login prompt: the configured one, else `rviews` for
/// Route Views, else none (no login).
pub open spec fn login_name(lg: LookingGlassConfig) -> Option<Seq<char>> {
    match opt_chars(lg.username) {
        Some(u) => Some(u),
        None => if lg.is_route_views {
            Some("rviews"@)
        } else {
            None
        },
    }
}

/// The query line: the command template with the prefix in place of `{prefix}`.
pub open spec fn query_line(lg: LookingGlassConfig, prefix: Seq<char>) -> Seq<char> {
    line(replace_all(lg.spec_cmd_template(), "{prefix}"@, prefix))
}

/// A validated prefix cannot smuggle anything but itself into the query: when the
/// command template holds no control character, the query sent to the router holds
/// none either, except the line break that ends it.
pub proof fn lemma_query_is_one_line(lg: LookingGlassConfig, prefix: Seq<char>)
    requires
        valid_cidr_prefix(prefix),
        forall|i: int|
            0 <= i < lg.spec_cmd_template().len() ==> !is_control(#[trigger] lg.spec_cmd_template()[i]),
    ensures
        query_line(lg, prefix).last() == '\n',
        forall|i: int|
            0 <= i < query_line(lg, prefix).len() - 1 ==> !is_control(#[trigger] query_line(lg, prefix)[i]),
{
    let ok = |c: char| !is_control(c);
    let t = lg.spec_cmd_template();
    assert forall|i: int| 0 <= i < t.len() implies ok(#[trigger] t[i]) by {}
    assert forall|i: int| 0 <= i < prefix.len() implies ok(#[trigger] prefix[i]) by {
        assert(!is_control(prefix[i]));
    }
    lemma_replace_all_keeps(t, "{prefix}"@, prefix, ok);
    let r = replace_all(t, "{prefix}"@, prefix);
    assert forall|i: int| 0 <= i < query_line(lg, prefix).len() - 1 implies !is_control(
        #[trigger] query_line(lg, prefix)[i],
    ) by {
        assert(query_line(lg, prefix)[i] == r[i]);
        assert(ok(r[i]));
    }
}

fn clone_opt(o: &Option<String>) -> (res: Option<String>)
    ensures
        opt_chars(res) == opt_chars(*o),
{
    match o {
        Some(s) => Some(s.clone()),
        None => None,
    }
}

fn text_line(s: &str) -> (res: String)
    ensures
        res@ == line(s@),
{
    let mut res = s.to_owned();
    string_push(&mut res, '\n');
    res
}

impl TelnetSession {
    /// A phase that sends a credential has one to send.
    pub open spec fn wf(&self) -> bool {
        &&& (self.phase is Username ==> self.username.is_some())
        &&& (self.phase is Password ==> self.password.is_some())
    }

    /// The phase after the user name was sent.
    pub open spec fn after_login(&self) -> Phase {
        if self.password.is_some() {
            Phase::Password
        } else {
            Phase::Prompt
        }
    }

    /// The next phase, the buffer it starts with, and the reaction, for an event.
    pub open spec fn transition(&self, ev: SessionEvent) -> (Phase, Seq<u8>, Reaction) {
        let empty = Seq::<u8>::empty();
        match self.phase {
            Phase::Username => match ev {
                SessionEvent::Data(d) => {
                    let b = self.buffer@ + d@;
                    if login_prompt_seen(utf8_lossy(b)) {
                        (self.after_login(), empty, Reaction::Send(line(self.username.unwrap()@)))
                    } else {
                        (Phase::Username, b, Reaction::Poll)
                    }
                },
                SessionEvent::Idle => (Phase::Username, self.buffer@, Reaction::Sleep),
                SessionEvent::Expired => (
                    Phase::Done,
                    self.buffer@,
                    Reaction::Fail("Failed to reach login prompt"@),
                ),
                SessionEvent::ReadFailed(e) => (Phase::Done, self.buffer@, Reaction::Fail(e@)),
            },
            Phase::Password => match ev {
                SessionEvent::Data(d) => {
                    let b = self.buffer@ + d@;
                    if password_prompt_seen(utf8_lossy(b)) {
                        (Phase::Prompt, empty, Reaction::Send(line(self.password.unwrap()@)))
                    } else {
                        (Phase::Password, b, Reaction::Poll)
                    }
                },
                SessionEvent::Idle => (Phase::Password, self.buffer@, Reaction::Sleep),
                SessionEvent::Expired => (
                    Phase::Done,
                    self.buffer@,
                    Reaction::Fail("Failed to reach password prompt"@),
                ),
                SessionEvent::ReadFailed(e) => (Phase::Done, self.buffer@, Reaction::Fail(e@)),
            },
            Phase::Prompt => match ev {
                SessionEvent::Data(d) => {
                    let b = self.buffer@ + d@;
                    if has_substring(utf8_lossy(b), self.prompt@) {
                        match self.pager {
                            Some(p) => (Phase::Pager, empty, Reaction::Send(line(p@))),
                            None => (Phase::Query, empty, Reaction::Send(self.command@)),
                        }
                    } else {
                        (Phase::Prompt, b, Reaction::Poll)
                    }
                },
                SessionEvent::Idle => (Phase::Prompt, self.buffer@, Reaction::Sleep),
                SessionEvent::Expired => (
                    Phase::Done,
                    self.buffer@,
                    Reaction::Fail("Failed to reach prompt: "@ + timeout_text(self.prompt@)),
                ),
                SessionEvent::ReadFailed(e) => (
                    Phase::Done,
                    self.buffer@,
                    Reaction::Fail("Failed to reach prompt: "@ + e@),
                ),
            },
            Phase::Pager => match ev {
                SessionEvent::Data(d) => {
                    let b = self.buffer@ + d@;
                    if has_substring(utf8_lossy(b), self.prompt@) {
                        (Phase::Query, empty, Reaction::Send(self.command@))
                    } else {
                        (Phase::Pager, b, Reaction::Poll)
                    }
                },
                SessionEvent::Idle => (Phase::Pager, self.buffer@, Reaction::Sleep),
                _ => (Phase::Query, empty, Reaction::Send(self.command@)),
            },
            Phase::Query => match ev {
                SessionEvent::Data(d) => {
                    let b = self.buffer@ + d@;
                    if has_substring(utf8_lossy(b), self.prompt@) {
                        (Phase::Done, empty, Reaction::Report(utf8_lossy(b)))
                    } else {
                        (Phase::Query, b, Reaction::Poll)
                    }
                },
                SessionEvent::Idle => (Phase::Query, self.buffer@, Reaction::Sleep),
                SessionEvent::Expired => (
                    Phase::Done,
                    self.buffer@,
                    Reaction::Fail("Query read timeout/error: "@ + timeout_text(self.prompt@)),
                ),
                SessionEvent::ReadFailed(e) => (
                    Phase::Done,
                    self.buffer@,
                    Reaction::Fail("Query read timeout/error: "@ + e@),
                ),
            },
            Phase::Done => (Phase::Done, self.buffer@, Reaction::Sleep),
        }
    }

    /// Starts a session for a Looking Glass; `prefix` must already be a validated
    /// CIDR prefix, as it is written into the query command.
    pub fn new(lg: &LookingGlassConfig, prefix: &str, target: u32) -> (s: TelnetSession)
        ensures
            s.wf(),
            s.name@ == lg.name@,
            opt_chars(s.username) == login_name(*lg),
            opt_chars(s.password) == opt_chars(lg.password),
            s.prompt@ == prompt_of(*lg),
            opt_chars(s.pager) == lg.spec_pager_cmd(),
            s.command@ == query_line(*lg, prefix@),
            s.target == target,
            s.buffer@.len() == 0,
            s.phase == (if login_name(*lg).is_some() {
                Phase::Username
            } else if lg.password.is_some() {
                Phase::Password
            } else {
                Phase::Prompt
            }),
    {
        let prompt = match &lg.prompt_suffix {
            Some(p) => p.clone(),
            None => ">".to_owned(),
        };
        let template = chars_of(lg.resolve_cmd_template().as_str());
        let pat = chars_of("{prefix}");
        let rep = chars_of(prefix);
        proof {
            reveal_strlit("{prefix}");
        }
        assert(pat@.len() > 0);
        let replaced = string_from_chars(&replace_chars(&template, &pat, &rep));
        let command = text_line(replaced.as_str());
        let username = match &lg.username {
            Some(u) => Some(u.clone()),
            None => if lg.is_route_views {
                Some("rviews".to_owned())
            } else {
                None
            },
        };
        let phase = if username.is_some() {
            Phase::Username
        } else if lg.password.is_some() {
            Phase::Password
        } else {
            Phase::Prompt
        };
        TelnetSession {
            name: lg.name.clone(),
            username,
            password: clone_opt(&lg.password),
            prompt,
            pager: lg.resolve_pager_cmd(),
            command,
            target,
            phase,
            buffer: Vec::new(),
        }
    }

    /// Whether the current phase has run out of time after `elapsed_nanos`
    /// nanoseconds: the login prompts get 15 s, the first prompt 10 s, the prompt
    /// after disabling paging 3 s and the query output 15 s.
    pub fn expired(&self, elapsed_nanos: u64) -> (res: bool)
        ensures
            res == match self.phase {
                Phase::Username | Phase::Password => elapsed_nanos >= 15_000_000_000,
                Phase::Prompt => elapsed_nanos > 10_000_000_000,
                Phase::Pager => elapsed_nanos > 3_000_000_000,
                Phase::Query => elapsed_nanos > 15_000_000_000,
                Phase::Done => true,
            },
    {
        match self.phase {
            Phase::Username | Phase::Password => elapsed_nanos >= 15_000_000_000,
            Phase::Prompt => elapsed_nanos > 10_000_000_000,
            Phase::Pager => elapsed_nanos > 3_000_000_000,
            Phase::Query => elapsed_nanos > 15_000_000_000,
            Phase::Done => true,
        }
    }

    fn received_text(&self) -> (text: String)
        ensures
            text@ == utf8_lossy(self.buffer@),
    {
        lossy_text(self.buffer.as_slice())
    }

    fn prompt_in(&self, text: &String) -> (res: bool)
        ensures
            res == has_substring(text@, self.prompt@),
    {
        let t = chars_of(text.as_str());
        let p = chars_of(self.prompt.as_str());
        contains_chars(&t, &p)
    }

    fn failure(&self, error: String) -> (res: SessionStep)
        ensures
            res matches SessionStep::Finish(q) && q.lg_name@ == self.name@ && q.as_paths@.len() == 0
                && opt_chars(q.error) == Some(error@),
    {
        SessionStep::Finish(QueryResult::failure(self.name.clone(), error))
    }

    fn timeout_message(&self, lead: &str) -> (res: String)
        ensures
            res@ == lead@ + timeout_text(self.prompt@),
    {
        let mut m = lead.to_owned();
        m.append("Timeout reading from Telnet. Expected suffix: '");
        m.append(self.prompt.as_str());
        m.append("'");
        m
    }

    fn prefixed(lead: &str, e: &String) -> (res: String)
        ensures
            res@ == lead@ + e@,
    {
        let mut m = lead.to_owned();
        m.append(e.as_str());
        m
    }

    /// Advances the session by one event.
    pub fn step(&mut self, ev: SessionEvent) -> (step: SessionStep)
        requires
            old(self).wf(),
            !(old(self).phase is Done),
        ensures
            final(self).wf(),
            final(self).name == old(self).name,
            final(self).username == old(self).username,
            final(self).password == old(self).password,
            final(self).prompt == old(self).prompt,
            final(self).pager == old(self).pager,
            final(self).command == old(self).command,
            final(self).target == old(self).target,
            ({
                let (ph, buf, r) = old(self).transition(ev);
                &&& final(self).phase == ph
                &&& final(self).buffer@ == buf
                &&& match r {
                    Reaction::Poll => step is Poll,
                    Reaction::Sleep => step is Sleep,
                    Reaction::Send(t) => step matches SessionStep::Send(s) && s@ == t,
                    Reaction::Fail(e) => step matches SessionStep::Finish(q) && q.lg_name@
                        == old(self).name@ && q.as_paths@.len() == 0 && opt_chars(q.error) == Some(
                        e,
                    ),
                    Reaction::Report(text) => step matches SessionStep::Finish(q) && q.lg_name@
                        == old(self).name@ && q.error is None && strictly_sorted(
                        path_views(q.as_paths@),
                    ) && forall|p: Seq<u32>|
                        path_views(q.as_paths@).contains(p) <==> extracted_path(
                            text,
                            old(self).target,
                            p,
                        ),
                }
            }),
    {
        match ev {
            SessionEvent::Idle => SessionStep::Sleep,
            SessionEvent::Expired => {
                match self.phase {
                    Phase::Username => {
                        self.phase = Phase::Done;
                        self.failure("Failed to reach login prompt".to_owned())
                    },
                    Phase::Password => {
                        self.phase = Phase::Done;
                        self.failure("Failed to reach password prompt".to_owned())
                    },
                    Phase::Prompt => {
                        self.phase = Phase::Done;
                        let m = self.timeout_message("Failed to reach prompt: ");
                        self.failure(m)
                    },
                    Phase::Pager => {
                        self.phase = Phase::Query;
                        self.buffer = Vec::new();
                        SessionStep::Send(self.command.clone())
                    },
                    _ => {
                        self.phase = Phase::Done;
                        let m = self.timeout_message("Query read timeout/error: ");
                        self.failure(m)
                    },
                }
            },
            SessionEvent::ReadFailed(e) => {
                match self.phase {
                    Phase::Username | Phase::Password => {
                        self.phase = Phase::Done;
                        self.failure(e)
                    },
                    Phase::Prompt => {
                        self.phase = Phase::Done;
                        let m = Self::prefixed("Failed to reach prompt: ", &e);
                        self.failure(m)
                    },
                    Phase::Pager => {
                        self.phase = Phase::Query;
                        self.buffer = Vec::new();
                        SessionStep::Send(self.command.clone())
                    },
                    _ => {
                        self.phase = Phase::Done;
                        let m = Self::prefixed("Query read timeout/error: ", &e);
                        self.failure(m)
                    },
                }
            },
            SessionEvent::Data(d) => {
                let mut d = d;
                self.buffer.append(&mut d);
                let text = self.received_text();
                match self.phase {
                    Phase::Username => {
                        let chars = chars_of(text.as_str());
                        let trimmed = string_from_chars(&trim_end_chars(&chars));
                        let lower = chars_of(to_lowercase(trimmed.as_str()).as_str());
                        let seen = ends_with_chars(&lower, &chars_of("username:")) || ends_with_chars(
                            &lower,
                            &chars_of("login:"),
                        );
                        if seen {
                            let user = match &self.username {
                                Some(u) => text_line(u.as_str()),
                                None => String::new(),
                            };
                            self.phase = if self.password.is_some() {
                                Phase::Password
                            } else {
                                Phase::Prompt
                            };
                            self.buffer = Vec::new();
                            SessionStep::Send(user)
                        } else {
                            SessionStep::Poll
                        }
                    },
                    Phase::Password => {
                        let chars = chars_of(text.as_str());
                        let trimmed = string_from_chars(&trim_end_chars(&chars));
                        let lower = chars_of(to_lowercase(trimmed.as_str()).as_str());
                        if ends_with_chars(&lower, &chars_of("password:")) {
                            let pass = match &self.password {
                                Some(p) => text_line(p.as_str()),
                                None => String::new(),
                            };
                            self.phase = Phase::Prompt;
                            self.buffer = Vec::new();
                            SessionStep::Send(pass)
                        } else {
                            SessionStep::Poll
                        }
                    },
                    Phase::Prompt => {
                        if self.prompt_in(&text) {
                            self.buffer = Vec::new();
                            match &self.pager {
                                Some(p) => {
                                    let l = text_line(p.as_str());
                                    self.phase = Phase::Pager;
                                    SessionStep::Send(l)
                                },
                                None => {
                                    self.phase = Phase::Query;
                                    SessionStep::Send(self.command.clone())
                                },
                            }
                        } else {
                            SessionStep::Poll
                        }
                    },
                    Phase::Pager => {
                        if self.prompt_in(&text) {
                            self.buffer = Vec::new();
                            self.phase = Phase::Query;
                            SessionStep::Send(self.command.clone())
                        } else {
                            SessionStep::Poll
                        }
                    },
                    _ => {
                        if self.prompt_in(&text) {
                            self.buffer = Vec::new();
                            self.phase = Phase::Done;
                            let paths = extract_as_paths(text.as_str(), self.target);
                            SessionStep::Finish(
                                QueryResult { lg_name: self.name.clone(), as_paths: paths, error: None },
                            )
                        } else {
                            SessionStep::Poll
                        }
                    },
                }
            },
        }
    }
}

/// An event that brings no data never finishes a running session, in any phase: the
/// phase and the text received so far stay as they were, and the session waits before
/// reading again.
pub proof fn lemma_idle_keeps_waiting(s: TelnetSession)
    requires
        !(s.phase is Done),
    ensures
        s.transition(SessionEvent::Idle) == (s.phase, s.buffer@, Reaction::Sleep),
{
}

/// While the query output is awaited, the session finishes only when the text received
/// so far together with the new data contains the prompt, and then reports exactly that
/// text; or on a timeout or a read error. Otherwise it stays in the query phase and
/// keeps what it received.
pub proof fn lemma_query_finishes_only_at_prompt(s: TelnetSession, ev: SessionEvent)
    requires
        s.phase is Query,
    ensures
        (s.transition(ev).0 is Done) <==> (ev is Expired || ev is ReadFailed || (
        ev matches SessionEvent::Data(d) && has_substring(utf8_lossy(s.buffer@ + d@), s.prompt@))),
        s.transition(ev).2 matches Reaction::Report(text) ==> (ev matches SessionEvent::Data(d)
            && text == utf8_lossy(s.buffer@ + d@)),
        !(s.transition(ev).0 is Done) ==> (s.transition(ev).0 is Query && match ev {
            SessionEvent::Data(d) => s.transition(ev).1 == s.buffer@ + d@,
            _ => s.transition(ev).1 == s.buffer@,
        }),
{
}

} // verus!
