//! The verified core of a Twitch chat relay: framing of byte streams into
//! lines, translation of IRC lines into JSON records, the channel list that
//! the relay keeps joined, and the decisions of the network loops.

pub mod lines;
pub mod text;
pub mod json_doc;
pub mod irc;
pub mod channels;
pub mod commands;
pub mod session;
pub mod cli;
pub mod irc_laws;
