use finals_loadouts::cmd::start::{read_options, OptionValue, StartError};
use finals_loadouts::cmd::{parse_command, sync_commands, unknown_command_message, Command};

#[test]
fn options_are_read() {
    let opts = vec![("players", OptionValue::Text("a,b")), ("teams", OptionValue::Integer(2))];
    let read = read_options(&opts).unwrap();
    assert_eq!(read.players, "a,b");
    assert_eq!(read.teams, 2);
    assert!(read.auto_balance);

    let opts = vec![
        ("noautobalance", OptionValue::Boolean(true)),
        ("players", OptionValue::Text("x")),
        ("teams", OptionValue::Integer(4)),
        ("players", OptionValue::Text("y")),
    ];
    let read = read_options(&opts).unwrap();
    assert_eq!(read.players, "y");
    assert!(!read.auto_balance);
}

#[test]
fn missing_options_are_refused() {
    let opts = vec![("players", OptionValue::Text("a"))];
    assert!(matches!(read_options(&opts), Err(StartError::MissingOptions)));
    let opts = vec![("players", OptionValue::Integer(3)), ("teams", OptionValue::Integer(3))];
    assert!(matches!(read_options(&opts), Err(StartError::MissingOptions)));
    assert_eq!(StartError::MissingOptions.message(), "missing or invalid options");
}

#[test]
fn team_size_is_checked() {
    for bad in [0i64, 5, -1] {
        let opts = vec![("players", OptionValue::Text("a")), ("teams", OptionValue::Integer(bad))];
        assert!(matches!(read_options(&opts), Err(StartError::InvalidTeamSize)));
    }
    assert_eq!(StartError::InvalidTeamSize.message(), "invalid team size");
}

#[test]
fn commands_are_known_by_name() {
    assert_eq!(parse_command("start"), Some(Command::Start));
    assert_eq!(parse_command("stop"), None);
    assert_eq!(unknown_command_message(), "???");
}

#[test]
fn commands_are_synced() {
    let sync = sync_commands(&vec!["old", "start", "older"]);
    assert_eq!(sync.delete, vec![0, 2]);
    assert!(sync.create.is_empty());
    let sync = sync_commands(&vec![]);
    assert!(sync.delete.is_empty());
    assert_eq!(sync.create, vec!["start"]);
}

#[test]
fn syncing_twice_changes_nothing() {
    let registered = vec!["old", "start", "older", "start"];
    let sync = sync_commands(&registered);
    assert_eq!(sync.delete, vec![0, 2]);
    let mut after: Vec<&str> =
        registered.iter().enumerate().filter(|(i, _)| !sync.delete.contains(i)).map(|(_, n)| *n).collect();
    after.extend(sync.create.iter().copied());
    let again = sync_commands(&after);
    assert!(again.delete.is_empty());
    assert!(again.create.is_empty());

    let fresh = sync_commands(&vec!["old"]);
    assert_eq!(fresh.create, vec!["start"]);
    let again = sync_commands(&fresh.create.clone());
    assert!(again.delete.is_empty() && again.create.is_empty());
}
