//! Colours and icons for the bot's message embeds.

use vstd::prelude::*;

verus! {

pub const GAGBOT_ICON: &'static str =
    "https://cdn.discordapp.com/emojis/708352151558029322.png";

pub const GAGBOT_ICON_ERROR: &'static str =
    "https://cdn.discordapp.com/emojis/708352247804854285.png";

pub const GAGBOT_COLOR_NORMAL: i32 = 0xEBC634;

pub const GAGBOT_COLOR_ERROR: i32 = 0xFF0000;

pub const GAGBOT_COLOR_SUCCESS: i32 = 0x00FF00;

pub const GAGBOT_COLOR_LOG_EDIT: i32 = 0x30649c;

pub const GAGBOT_COLOR_LOG_DELETE: i32 = 0x9c3730;

pub const GAGBOT_COLOR_LOG_JOIN: i32 = 0x009900;

pub const GAGBOT_COLOR_LOG_LEAVE: i32 = 0x990044;

/// The look of an embed: which colour and icon it carries.
#[derive(Debug, Clone, Copy, PartialEq, Eq, Structural)]
pub enum EmbedFlavour {
    Normal,
    Error,
    Success,
    LogEdit,
    LogDelete,
    LogJoin,
    LogLeave,
}

impl EmbedFlavour {
    /// The thumbnail shown beside an embed of this flavour.
    pub fn thumbnail_url(self) -> (r: &'static str)
        ensures
            self is Error ==> r@ == GAGBOT_ICON_ERROR@,
            !(self is Error) ==> r@ == GAGBOT_ICON@,
    {
        match self {
            EmbedFlavour::Error => GAGBOT_ICON_ERROR,
            _ => GAGBOT_ICON,
        }
    }

    /// The embed colour of this flavour.
    pub fn color(self) -> (r: i32)
        ensures
            r == (match self {
                EmbedFlavour::Normal => GAGBOT_COLOR_NORMAL,
                EmbedFlavour::Error => GAGBOT_COLOR_ERROR,
                EmbedFlavour::Success => GAGBOT_COLOR_SUCCESS,
                EmbedFlavour::LogEdit => GAGBOT_COLOR_LOG_EDIT,
                EmbedFlavour::LogDelete => GAGBOT_COLOR_LOG_DELETE,
                EmbedFlavour::LogJoin => GAGBOT_COLOR_LOG_JOIN,
                EmbedFlavour::LogLeave => GAGBOT_COLOR_LOG_LEAVE,
            }),
    {
        match self {
            EmbedFlavour::Normal => GAGBOT_COLOR_NORMAL,
            EmbedFlavour::Error => GAGBOT_COLOR_ERROR,
            EmbedFlavour::Success => GAGBOT_COLOR_SUCCESS,
            EmbedFlavour::LogEdit => GAGBOT_COLOR_LOG_EDIT,
            EmbedFlavour::LogDelete => GAGBOT_COLOR_LOG_DELETE,
            EmbedFlavour::LogJoin => GAGBOT_COLOR_LOG_JOIN,
            EmbedFlavour::LogLeave => GAGBOT_COLOR_LOG_LEAVE,
        }
    }
}

} // verus!
