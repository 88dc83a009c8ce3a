//! The Twitch chat bot that answers a chat command with a link to the
//! build of the ship in the current match: the decisions between reading
//! chat, parsing the live replay, waiting and replying.

use vstd::prelude::*;

use crate::text::{replace_text, replaced, same_text};

verus! {

/// How often the live replay is parsed for one command.
pub const MAX_PARSE_ATTEMPTS: u8 = 3;

/// Milliseconds waited after a parse that gave no link, before the next.
pub const PARSE_RETRY_DELAY: u64 = 5000;

/// What the bot answers to, and with what.
#[derive(Debug, Clone)]
pub struct BuildBotSettings {
    /// The chat message that asks for the build.
    pub command: String,
    /// The reply; "{url}" in it stands for the link.
    pub template: String,
    /// The reply when no link could be made.
    pub error: String,
}

/// The reply carrying a link: the template with every "{url}" replaced.
pub open spec fn filled_template(template: Seq<char>, url: Seq<char>) -> Seq<char> {
    replaced(template, "{url}"@, url)
}

/// Fills the reply template with a link.
pub fn fill_template(template: &str, url: &str) -> (r: String)
    ensures
        r@ == filled_template(template@, url@),
{
    proof {
        reveal_strlit("{url}");
    }
    replace_text(template, "{url}", url)
}

/// What happened since the last action.
#[derive(Debug)]
pub enum BuildBotEvent {
    /// A chat message arrived.
    Message(String),
    /// The flag that a new match was loaded was read and cleared; it was
    /// set when this holds `true`.
    NewMatchFlag(bool),
    /// The live replay was parsed; the link to the build, if one was made.
    Parsed(Option<String>),
    /// The wait is over.
    Slept,
}

/// What the bot asks of the application next.
#[derive(Debug)]
pub enum BuildBotAction {
    /// Wait for the next chat message.
    Nothing,
    /// Read and clear the flag that a new match was loaded.
    ConsumeNewMatchFlag,
    /// Parse the live replay and make the link to the build.
    ParseReplay,
    /// Wait this many milliseconds.
    Sleep(u64),
    /// Send this message to the chat.
    Say(String),
}

/// The action sends exactly this message.
pub open spec fn says(a: BuildBotAction, message: Seq<char>) -> bool {
    match a {
        BuildBotAction::Say(m) => m@ == message,
        _ => false,
    }
}

/// Where the bot stands.
#[derive(Debug)]
pub enum BuildBot {
    /// Reading chat, with the link made last, if any.
    Idle { cached: Option<String> },
    /// The command was seen; waiting for the new-match flag.
    Checking { cached: Option<String> },
    /// Waiting for parse number `attempt` (from 0).
    Parsing { attempt: u8 },
    /// Waiting after parse number `attempt` gave no link.
    Waiting { attempt: u8 },
}

impl BuildBot {
    /// The state is one the bot can be in.
    pub open spec fn wf(&self) -> bool {
        match *self {
            BuildBot::Parsing { attempt } => attempt < MAX_PARSE_ATTEMPTS,
            BuildBot::Waiting { attempt } => attempt + 1 < MAX_PARSE_ATTEMPTS,
            _ => true,
        }
    }

    /// The event answers the action the state waits on.
    pub open spec fn expects(&self, event: BuildBotEvent) -> bool {
        match *self {
            BuildBot::Idle { .. } => event is Message,
            BuildBot::Checking { .. } => event is NewMatchFlag,
            BuildBot::Parsing { .. } => event is Parsed,
            BuildBot::Waiting { .. } => event is Slept,
        }
    }

    /// A bot that has made no link yet.
    pub fn new() -> (r: BuildBot)
        ensures
            r == (BuildBot::Idle { cached: None }),
    {
        BuildBot::Idle { cached: None }
    }

    /// Takes the next event. A message other than the command is ignored.
    /// For the command, the link made last is sent again unless a new match
    /// was loaded since; otherwise the live replay is parsed three times,
    /// waiting after each parse but the last that gives no link, and the
    /// last parse decides the reply: the filled template, or the error
    /// message.
    pub fn step(self, settings: &BuildBotSettings, event: BuildBotEvent) -> (r: (BuildBot, BuildBotAction))
        requires
            self.wf(),
            self.expects(event),
        ensures
            r.0.wf(),
            match (self, event) {
                (BuildBot::Idle { cached }, BuildBotEvent::Message(text)) => if text@ == settings.command@ {
                    r.0 == (BuildBot::Checking { cached }) && r.1 is ConsumeNewMatchFlag
                } else {
                    r.0 == (BuildBot::Idle { cached }) && r.1 is Nothing
                },
                (BuildBot::Checking { cached }, BuildBotEvent::NewMatchFlag(new_match)) => match cached {
                    Some(url) => if new_match {
                        r.0 == (BuildBot::Parsing { attempt: 0 }) && r.1 is ParseReplay
                    } else {
                        r.0 == (BuildBot::Idle { cached: Some(url) }) && says(r.1, filled_template(settings.template@, url@))
                    },
                    None => r.0 == (BuildBot::Parsing { attempt: 0 }) && r.1 is ParseReplay,
                },
                (BuildBot::Parsing { attempt }, BuildBotEvent::Parsed(link)) => if attempt + 1 == MAX_PARSE_ATTEMPTS {
                    r.0 == (BuildBot::Idle { cached: link }) && match link {
                        Some(url) => says(r.1, filled_template(settings.template@, url@)),
                        None => says(r.1, settings.error@),
                    }
                } else if link is None {
                    r.0 == (BuildBot::Waiting { attempt }) && r.1 == BuildBotAction::Sleep(PARSE_RETRY_DELAY)
                } else {
                    r.0 == (BuildBot::Parsing { attempt: (attempt + 1) as u8 }) && r.1 is ParseReplay
                },
                (BuildBot::Waiting { attempt }, _) => r.0 == (BuildBot::Parsing { attempt: (attempt + 1) as u8 })
                    && r.1 is ParseReplay,
                _ => false,
            },
    {
        match self {
            BuildBot::Idle { cached } => match event {
                BuildBotEvent::Message(text) => {
                    if same_text(text.as_str(), settings.command.as_str()) {
                        (BuildBot::Checking { cached }, BuildBotAction::ConsumeNewMatchFlag)
                    } else {
                        (BuildBot::Idle { cached }, BuildBotAction::Nothing)
                    }
                },
                _ => (BuildBot::Idle { cached }, BuildBotAction::Nothing),
            },
            BuildBot::Checking { cached } => match event {
                BuildBotEvent::NewMatchFlag(new_match) => match cached {
                    Some(url) => {
                        if new_match {
                            (BuildBot::Parsing { attempt: 0 }, BuildBotAction::ParseReplay)
                        } else {
                            let reply = fill_template(settings.template.as_str(), url.as_str());
                            (BuildBot::Idle { cached: Some(url) }, BuildBotAction::Say(reply))
                        }
                    },
                    None => (BuildBot::Parsing { attempt: 0 }, BuildBotAction::ParseReplay),
                },
                _ => (BuildBot::Checking { cached }, BuildBotAction::Nothing),
            },
            BuildBot::Parsing { attempt } => match event {
                BuildBotEvent::Parsed(link) => {
                    if attempt + 1 == MAX_PARSE_ATTEMPTS {
                        let reply = match &link {
                            Some(url) => fill_template(settings.template.as_str(), url.as_str()),
                            None => settings.error.clone(),
                        };
                        (BuildBot::Idle { cached: link }, BuildBotAction::Say(reply))
                    } else if link.is_none() {
                        (BuildBot::Waiting { attempt }, BuildBotAction::Sleep(PARSE_RETRY_DELAY))
                    } else {
                        (BuildBot::Parsing { attempt: attempt + 1 }, BuildBotAction::ParseReplay)
                    }
                },
                _ => (BuildBot::Parsing { attempt }, BuildBotAction::Nothing),
            },
            BuildBot::Waiting { attempt } => (BuildBot::Parsing { attempt: attempt + 1 }, BuildBotAction::ParseReplay),
        }
    }
}

} // verus!
