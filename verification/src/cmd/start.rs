//! The options of the command that starts a match.

use vstd::prelude::*;

use crate::text::str_equals;

verus! {

/// The value of one option of a command.
pub enum OptionValue<'a> {
    Text(&'a str),
    Integer(i64),
    Boolean(bool),
    Other,
}

/// The options of the start command once read.
pub struct StartOptions<'a> {
    /// The player names, separated by commas.
    pub players: &'a str,
    /// How many teams, from 1 to 4.
    pub teams: u8,
    /// Whether to balance uneven teams by class.
    pub auto_balance: bool,
}

/// Why the start command's options were refused.
#[derive(Clone, Copy, PartialEq, Eq, Structural, Debug)]
pub enum StartError {
    /// No player list or no team count.
    MissingOptions,
    /// A team count outside 1 to 4.
    InvalidTeamSize,
}

impl StartError {
    /// The answer to send.
    pub fn message(&self) -> (text: &'static str)
        ensures
            *self == StartError::MissingOptions ==> text@ == "missing or invalid options"@,
            *self == StartError::InvalidTeamSize ==> text@ == "invalid team size"@,
    {
        match self {
            StartError::MissingOptions => "missing or invalid options",
            StartError::InvalidTeamSize => "invalid team size",
        }
    }
}

/// The last player list among the options.
pub open spec fn last_players<'a>(options: Seq<(&str, OptionValue<'a>)>) -> Option<&'a str>
    decreases options.len(),
{
    if options.len() == 0 {
        Option::None
    } else {
        match options.last() {
            (name, OptionValue::Text(s)) if name@ == "players"@ => Option::Some(s),
            _ => last_players(options.drop_last()),
        }
    }
}

/// The last team count among the options.
pub open spec fn last_teams(options: Seq<(&str, OptionValue)>) -> Option<i64>
    decreases options.len(),
{
    if options.len() == 0 {
        Option::None
    } else {
        match options.last() {
            (name, OptionValue::Integer(i)) if name@ == "teams"@ => Option::Some(i),
            _ => last_teams(options.drop_last()),
        }
    }
}

/// The last "no auto balance" switch among the options, off by default.
pub open spec fn last_no_auto_balance(options: Seq<(&str, OptionValue)>) -> bool
    decreases options.len(),
{
    if options.len() == 0 {
        false
    } else {
        match options.last() {
            (name, OptionValue::Boolean(b)) if name@ == "noautobalance"@ => b,
            _ => last_no_auto_balance(options.drop_last()),
        }
    }
}

/// Reads the options of the start command: the last value of each option
/// counts; both a player list and a team count from 1 to 4 are needed, and
/// auto balance is on unless switched off.
pub fn read_options<'a>(options: &Vec<(&str, OptionValue<'a>)>) -> (read: Result<StartOptions<'a>, StartError>)
    ensures
        match (last_players(options@), last_teams(options@)) {
            (Option::Some(players), Option::Some(teams)) => if 1 <= teams <= 4 {
                read matches Ok(o) && o.players == players && o.teams == teams && o.auto_balance
                    == !last_no_auto_balance(options@)
            } else {
                read == Err::<StartOptions<'a>, StartError>(StartError::InvalidTeamSize)
            },
            _ => read == Err::<StartOptions<'a>, StartError>(StartError::MissingOptions),
        },
{
    let mut players: Option<&'a str> = None;
    let mut teams: Option<i64> = None;
    let mut no_auto_balance = false;
    let mut i: usize = 0;
    assert(options@.take(0) =~= Seq::<(&str, OptionValue<'a>)>::empty());
    while i < options.len()
        invariant
            i <= options@.len(),
            players == last_players(options@.take(i as int)),
            teams == last_teams(options@.take(i as int)),
            no_auto_balance == last_no_auto_balance(options@.take(i as int)),
        decreases options@.len() - i,
    {
        let (name, value) = &options[i];
        assert(options@.take(i + 1).drop_last() =~= options@.take(i as int));
        assert(options@.take(i + 1).last() == options@[i as int]);
        match value {
            OptionValue::Text(s) => {
                if str_equals(name, "players") {
                    players = Some(*s);
                }
            },
            OptionValue::Integer(n) => {
                if str_equals(name, "teams") {
                    teams = Some(*n);
                }
            },
            OptionValue::Boolean(b) => {
                if str_equals(name, "noautobalance") {
                    no_auto_balance = *b;
                }
            },
            OptionValue::Other => {},
        }
        i = i + 1;
    }
    assert(options@.take(options@.len() as int) =~= options@);
    match (players, teams) {
        (Some(players), Some(teams)) => {
            if 1 <= teams && teams <= 4 {
                Ok(StartOptions { players, teams: teams as u8, auto_balance: !no_auto_balance })
            } else {
                Err(StartError::InvalidTeamSize)
            }
        },
        _ => Err(StartError::MissingOptions),
    }
}

} // verus!
