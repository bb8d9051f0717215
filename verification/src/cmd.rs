//! The commands the bot answers, and keeping the registered ones in line.

use vstd::prelude::*;

use crate::text::str_equals;

pub mod start;

verus! {

/// A command of the bot.
#[derive(Clone, Copy, PartialEq, Eq, Structural, Debug)]
pub enum Command {
    /// Starts a private match: teams and loadouts.
    Start,
}

/// The answer to a command the bot does not know.
pub fn unknown_command_message() -> (text: &'static str)
    ensures
        text@ == "???"@,
{
    "???"
}

/// The command called `name`, if the bot has one.
pub fn parse_command(name: &str) -> (command: Option<Command>)
    ensures
        command == (if name@ == "start"@ {
            Option::Some(Command::Start)
        } else {
            Option::None
        }),
{
    if str_equals(name, "start") {
        Some(Command::Start)
    } else {
        None
    }
}

/// What to change in the registered commands: which to delete (by index,
/// in order), and which of the bot's commands to create.
pub struct CommandSync {
    pub delete: Vec<usize>,
    pub create: Vec<&'static str>,
}

/// The names of the registered commands.
pub open spec fn command_names(registered: Seq<&str>) -> Seq<Seq<char>> {
    registered.map_values(|name: &str| name@)
}

/// The indices of the registered commands that are not the bot's, in order.
pub open spec fn deletions(names: Seq<Seq<char>>) -> Seq<int>
    decreases names.len(),
{
    if names.len() == 0 {
        Seq::empty()
    } else if names.last() != "start"@ {
        deletions(names.drop_last()).push(names.len() - 1)
    } else {
        deletions(names.drop_last())
    }
}

/// The bot's command when it is not registered yet.
pub open spec fn creations(names: Seq<Seq<char>>) -> Seq<Seq<char>> {
    if names.contains("start"@) {
        Seq::empty()
    } else {
        seq!["start"@]
    }
}

/// The registered commands that are kept: the bot's.
pub open spec fn kept(names: Seq<Seq<char>>) -> Seq<Seq<char>>
    decreases names.len(),
{
    if names.len() == 0 {
        Seq::empty()
    } else if names.last() == "start"@ {
        kept(names.drop_last()).push(names.last())
    } else {
        kept(names.drop_last())
    }
}

/// The registered commands after deleting and creating what
/// `sync_commands` says.
pub open spec fn after_sync(names: Seq<Seq<char>>) -> Seq<Seq<char>> {
    kept(names) + creations(names)
}

proof fn lemma_kept(names: Seq<Seq<char>>)
    ensures
        forall|k: int| 0 <= k < kept(names).len() ==> #[trigger] kept(names)[k] == "start"@,
        names.contains("start"@) ==> kept(names).len() >= 1,
    decreases names.len(),
{
    if names.len() > 0 {
        lemma_kept(names.drop_last());
        if names.contains("start"@) && names.last() != "start"@ {
            let k = choose|k: int| 0 <= k < names.len() && names[k] == "start"@;
            assert(names.drop_last()[k] == "start"@);
        }
    }
}

proof fn lemma_all_start(names: Seq<Seq<char>>)
    requires
        forall|k: int| 0 <= k < names.len() ==> #[trigger] names[k] == "start"@,
    ensures
        deletions(names) == Seq::<int>::empty(),
    decreases names.len(),
{
    if names.len() > 0 {
        lemma_all_start(names.drop_last());
        assert(names.last() == names[names.len() - 1]);
    }
}

/// Syncing deletes exactly the registered commands that are not the bot's:
/// each index it deletes holds another command, every other command's index
/// is deleted, and the indices come in increasing order, each once; whether
/// the bot's command is registered makes no difference to this.
pub proof fn lemma_deletes_every_other_command(names: Seq<Seq<char>>)
    ensures
        forall|j: int|
            0 <= j < deletions(names).len() ==> 0 <= #[trigger] deletions(names)[j] < names.len() && names[deletions(
                names,
            )[j]] != "start"@,
        forall|k: int| 0 <= k < names.len() && #[trigger] names[k] != "start"@ ==> deletions(names).contains(k),
        forall|i: int, j: int|
            0 <= i < j < deletions(names).len() ==> #[trigger] deletions(names)[i] < #[trigger] deletions(names)[j],
    decreases names.len(),
{
    if names.len() > 0 {
        let d = names.drop_last();
        lemma_deletes_every_other_command(d);
        assert forall|k: int| 0 <= k < names.len() && #[trigger] names[k] != "start"@ implies deletions(names).contains(k) by {
            if k < names.len() - 1 {
                assert(d[k] == names[k]);
                let j = choose|j: int| 0 <= j < deletions(d).len() && deletions(d)[j] == k;
                assert(deletions(names)[j] == k);
            } else {
                assert(names.last() == names[k]);
                assert(deletions(names)[deletions(names).len() - 1] == k);
            }
        }
        assert forall|j: int| 0 <= j < deletions(names).len() implies 0 <= #[trigger] deletions(names)[j] < names.len()
            && names[deletions(names)[j]] != "start"@ by {
            if j < deletions(d).len() {
                assert(deletions(names)[j] == deletions(d)[j]);
                assert(d[deletions(d)[j]] == names[deletions(d)[j]]);
            } else {
                assert(names.last() == names[names.len() - 1]);
            }
        }
    }
}

/// Syncing settles: afterwards the bot's command, and only it, is
/// registered, so syncing again deletes nothing and creates nothing.
pub proof fn lemma_sync_settles(names: Seq<Seq<char>>)
    ensures
        after_sync(names).len() >= 1,
        forall|k: int| 0 <= k < after_sync(names).len() ==> #[trigger] after_sync(names)[k] == "start"@,
        deletions(after_sync(names)) == Seq::<int>::empty(),
        creations(after_sync(names)) == Seq::<Seq<char>>::empty(),
{
    lemma_kept(names);
    let a = after_sync(names);
    assert forall|k: int| 0 <= k < a.len() implies #[trigger] a[k] == "start"@ by {
        if k >= kept(names).len() {
            assert(a[k] == creations(names)[k - kept(names).len()]);
        }
    }
    lemma_all_start(a);
    assert(a[0] == "start"@);
    assert(a.contains("start"@));
}

/// Keeps the registered commands in line with the bot's: every registered
/// command that is not the bot's is deleted, and the bot's command is
/// created unless it is registered already.
pub fn sync_commands(registered: &Vec<&str>) -> (sync: CommandSync)
    ensures
        sync.delete@.map_values(|i: usize| i as int) == deletions(command_names(registered@)),
        sync.create@.map_values(|name: &str| name@) == creations(command_names(registered@)),
{
    proof {
        reveal_strlit("start");
    }
    let ghost names = command_names(registered@);
    let mut delete: Vec<usize> = Vec::new();
    let mut found = false;
    let mut i: usize = 0;
    assert(names.take(0) =~= Seq::<Seq<char>>::empty());
    assert(delete@.map_values(|i: usize| i as int) =~= Seq::<int>::empty());
    while i < registered.len()
        invariant
            names == command_names(registered@),
            i <= registered@.len(),
            delete@.map_values(|i: usize| i as int) == deletions(names.take(i as int)),
            found == names.take(i as int).contains("start"@),
        decreases registered@.len() - i,
    {
        let ghost t = names.take(i + 1);
        assert(t.drop_last() =~= names.take(i as int));
        assert(t.last() == registered@[i as int]@);
        assert(t.len() - 1 == i);
        if str_equals(registered[i], "start") {
            found = true;
            assert(t.contains("start"@)) by {
                assert(t[i as int] == "start"@);
            }
        } else {
            let ghost before = delete@;
            delete.push(i);
            assert(delete@.map_values(|i: usize| i as int) =~= before.map_values(|i: usize| i as int).push(i as int));
            assert(t.contains("start"@) == names.take(i as int).contains("start"@)) by {
                if t.contains("start"@) {
                    let k = choose|k: int| 0 <= k < t.len() && t[k] == "start"@;
                    assert(k != i);
                    assert(names.take(i as int)[k] == t[k]);
                }
                if names.take(i as int).contains("start"@) {
                    let k = choose|k: int| 0 <= k < i && names.take(i as int)[k] == "start"@;
                    assert(t[k] == "start"@);
                }
            }
        }
        i = i + 1;
    }
    assert(names.take(registered@.len() as int) =~= names);
    let mut create: Vec<&'static str> = Vec::new();
    if !found {
        create.push("start");
    }
    assert(create@.map_values(|name: &str| name@) =~= creations(names));
    CommandSync { delete, create }
}

} // verus!
