//! Per-guild configuration keys and the purposes a log channel can serve.

use vstd::prelude::*;

verus! {

/// Every configurable value, one key per setting.
#[derive(Debug, Clone, Copy, PartialEq, Eq, Structural)]
pub enum ConfigKey {
    GreetMessage,
    GreetChannel,
    GreetRole,
    GreetDefaultRole,
    GreetWelcomeMessage,
    GreetWelcomeChannel,
    PromoteNewChatChannel,
    PromoteJuniorChatChannel,
    PromoteJuniorRole,
    PromoteFullRole,
    PromoteNewChatMinMessages,
    PromoteJuniorChatMinMessages,
    PromoteJuniorMinAge,
    LoggingGeneral,
    LoggingEditsAndDeletes,
    LoggingJoiningAndLeaving,
    LoggingErrors,
    LoggingVoiceActivity,
}

impl ConfigKey {
    /// What each key configures.
    pub closed spec fn spec_description(self) -> Seq<char> {
        match self {
            ConfigKey::GreetMessage => "Message template bot posts to new members. Use {tag}, {name} and {discriminator} to refer to the new member"@,
            ConfigKey::GreetChannel => "Channel to post the greeting in"@,
            ConfigKey::GreetRole => "Role given by a mod as part of the add member process"@,
            ConfigKey::GreetDefaultRole => "Role given automatically when a member joins the server"@,
            ConfigKey::GreetWelcomeMessage => "Message to post in welcome channel after new member has been approved by a mod"@,
            ConfigKey::GreetWelcomeChannel => "Channel to post welcome in"@,
            ConfigKey::PromoteNewChatChannel => "Channel new members must post their introduction in"@,
            ConfigKey::PromoteJuniorChatChannel => "Channel juniors have to be active in"@,
            ConfigKey::PromoteJuniorRole => "Role given once an introduction has been done"@,
            ConfigKey::PromoteFullRole => "Role given after a certain time has passed and number of messages are posted"@,
            ConfigKey::PromoteNewChatMinMessages => "How many messages new members have to post in into channel"@,
            ConfigKey::PromoteJuniorChatMinMessages => "How many messages juniors have to post to show they are active"@,
            ConfigKey::PromoteJuniorMinAge => "How long (in days) juniors have to stick around to be promoted"@,
            ConfigKey::LoggingGeneral => "Channel to log general bot messages in"@,
            ConfigKey::LoggingEditsAndDeletes => "Channel to log message edits and deletes in"@,
            ConfigKey::LoggingJoiningAndLeaving => "Channel to log join and leave events in"@,
            ConfigKey::LoggingErrors => "Channel to log bot errors in"@,
            ConfigKey::LoggingVoiceActivity => "Channel to log member voice activity in"@,
        }
    }

    /// The keys that assign log channels.
    pub fn logging_keys() -> (r: Vec<ConfigKey>)
        ensures
            r@ == seq![
                ConfigKey::LoggingGeneral,
                ConfigKey::LoggingEditsAndDeletes,
                ConfigKey::LoggingJoiningAndLeaving,
                ConfigKey::LoggingErrors,
                ConfigKey::LoggingVoiceActivity,
            ],
    {
        let mut r: Vec<ConfigKey> = Vec::new();
        r.push(ConfigKey::LoggingGeneral);
        r.push(ConfigKey::LoggingEditsAndDeletes);
        r.push(ConfigKey::LoggingJoiningAndLeaving);
        r.push(ConfigKey::LoggingErrors);
        r.push(ConfigKey::LoggingVoiceActivity);
        proof {
            assert(r@ =~= seq![
                ConfigKey::LoggingGeneral,
                ConfigKey::LoggingEditsAndDeletes,
                ConfigKey::LoggingJoiningAndLeaving,
                ConfigKey::LoggingErrors,
                ConfigKey::LoggingVoiceActivity,
            ]);
        }
        r
    }

    /// What each key configures, for help text.
    pub fn description(&self) -> (r: &'static str)
        ensures
            r@ == self.spec_description(),
    {
        match self {
            ConfigKey::GreetMessage => "Message template bot posts to new members. Use {tag}, {name} and {discriminator} to refer to the new member",
            ConfigKey::GreetChannel => "Channel to post the greeting in",
            ConfigKey::GreetRole => "Role given by a mod as part of the add member process",
            ConfigKey::GreetDefaultRole => "Role given automatically when a member joins the server",
            ConfigKey::GreetWelcomeMessage => "Message to post in welcome channel after new member has been approved by a mod",
            ConfigKey::GreetWelcomeChannel => "Channel to post welcome in",
            ConfigKey::PromoteNewChatChannel => "Channel new members must post their introduction in",
            ConfigKey::PromoteJuniorChatChannel => "Channel juniors have to be active in",
            ConfigKey::PromoteJuniorRole => "Role given once an introduction has been done",
            ConfigKey::PromoteFullRole => "Role given after a certain time has passed and number of messages are posted",
            ConfigKey::PromoteNewChatMinMessages => "How many messages new members have to post in into channel",
            ConfigKey::PromoteJuniorChatMinMessages => "How many messages juniors have to post to show they are active",
            ConfigKey::PromoteJuniorMinAge => "How long (in days) juniors have to stick around to be promoted",
            ConfigKey::LoggingGeneral => "Channel to log general bot messages in",
            ConfigKey::LoggingEditsAndDeletes => "Channel to log message edits and deletes in",
            ConfigKey::LoggingJoiningAndLeaving => "Channel to log join and leave events in",
            ConfigKey::LoggingErrors => "Channel to log bot errors in",
            ConfigKey::LoggingVoiceActivity => "Channel to log member voice activity in",
        }
    }
}

/// The purposes a log channel can be configured for.
#[derive(Debug, Clone, Copy, PartialEq, Eq, Structural)]
pub enum LogChannel {
    General,
    Error,
    EditsAndDeletes,
    JoiningAndLeaving,
    VoiceActivity,
}

impl LogChannel {
    /// The configuration key that assigns this purpose's channel.
    pub fn config_key(self) -> (r: ConfigKey)
        ensures
            r == (match self {
                LogChannel::General => ConfigKey::LoggingGeneral,
                LogChannel::Error => ConfigKey::LoggingErrors,
                LogChannel::EditsAndDeletes => ConfigKey::LoggingEditsAndDeletes,
                LogChannel::JoiningAndLeaving => ConfigKey::LoggingJoiningAndLeaving,
                LogChannel::VoiceActivity => ConfigKey::LoggingVoiceActivity,
            }),
    {
        match self {
            LogChannel::General => ConfigKey::LoggingGeneral,
            LogChannel::Error => ConfigKey::LoggingErrors,
            LogChannel::EditsAndDeletes => ConfigKey::LoggingEditsAndDeletes,
            LogChannel::JoiningAndLeaving => ConfigKey::LoggingJoiningAndLeaving,
            LogChannel::VoiceActivity => ConfigKey::LoggingVoiceActivity,
        }
    }
}

} // verus!
