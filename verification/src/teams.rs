//! Splitting a list of players into teams, each player with a random loadout.

use rand::rngs::ThreadRng;
use vstd::prelude::*;
use vstd::string::StringSliceAdditionalSpecFns;

use crate::data::Dataset;
use crate::loadout::{
    draws_valid, gadget_class, gadget_images_distinct, is_pickable, lemma_no_duplicate_gadgets, loadout_gadgets_distinct,
    loadout_of, pickable, Loadout,
};
use crate::random::shuffle;
use crate::text::{comma_pieces, is_truncatable, split_commas, trim, trim_str, truncatable, truncate_bytes, truncated_bytes, lemma_comma_pieces_nonempty};
use crate::{Gamemode, LoadoutBias};

verus! {

broadcast use vstd::seq_lib::group_to_multiset_ensures;

/// The most players a match holds.
pub const MAX_PLAYERS: usize = 16;

/// The longest player name, in bytes.
pub const MAX_NAME_BYTES: usize = 30;

/// How many players a comma separated list names: its pieces, at most 16.
pub open spec fn player_count(players: Seq<char>) -> int {
    let n = comma_pieces(players).len() as int;
    if n < 16 {
        n
    } else {
        16
    }
}

/// The name a piece of the list gives: trimmed, then cut to 30 bytes.
pub open spec fn player_name(piece: Seq<char>) -> Seq<u8> {
    truncated_bytes(trim(piece), 30)
}

/// No counted name is cut inside a character.
pub open spec fn names_truncatable(players: Seq<char>) -> bool {
    forall|i: int|
        0 <= i < player_count(players) ==> #[trigger] truncatable(
            trim(comma_pieces(players)[i]),
            30,
        )
}

/// The bias of the player at `index` once shuffled: with auto balance, the
/// players of the larger teams get no heavy, and where teams differ in size
/// the others get only heavy.
pub open spec fn bias_at(index: int, large_teams: int, large_team_players: int, auto_balance: bool) -> LoadoutBias {
    if auto_balance && index < large_teams * large_team_players {
        LoadoutBias::NoHeavy
    } else if auto_balance && large_teams != 0 {
        LoadoutBias::OnlyHeavy
    } else {
        LoadoutBias::Fair
    }
}

/// `p` is a permutation of `0..n`.
pub open spec fn is_permutation(p: Seq<int>, n: int) -> bool {
    &&& p.len() == n
    &&& forall|i: int| 0 <= i < n ==> 0 <= #[trigger] p[i] < n
    &&& forall|i: int, j: int| 0 <= i < n && 0 <= j < n && i != j ==> p[i] != p[j]
}

/// The first `count` loadouts carry the names of the list, in the order `p`
/// gives.
pub open spec fn names_in_order(loadouts: Seq<Loadout>, players: Seq<char>, count: int, p: Seq<int>) -> bool {
    &&& is_permutation(p, count)
    &&& forall|k: int|
        0 <= k < count ==> (#[trigger] loadouts[k]).name.spec_bytes() == player_name(
            comma_pieces(players)[p[k]],
        )
}

/// `loadout` is one that `Loadout::pick` can return for its own name.
pub open spec fn picked_by(loadout: Loadout, dataset: Dataset, bias: LoadoutBias, mode: Gamemode) -> bool {
    exists|class: int, special: int, weapon: int, g0: int, g1: int, g2: int|
        {
            &&& draws_valid(dataset, bias, mode, class, special, weapon, g0, g1, g2)
            &&& loadout == loadout_of(loadout.name, dataset, mode, class, special, weapon, g0, g1, g2)
        }
}

/// A loadout that `Loadout::pick` can return never holds two gadgets with the
/// same picture, when no class of the dataset has two such gadgets.
pub proof fn lemma_picked_no_duplicate_gadgets(loadout: Loadout, dataset: Dataset, bias: LoadoutBias, mode: Gamemode)
    requires
        picked_by(loadout, dataset, bias, mode),
        forall|m: Gamemode, c: int| 0 <= c < 3 ==> #[trigger] gadget_images_distinct(dataset.classes(m)@[c]),
    ensures
        loadout_gadgets_distinct(loadout),
{
    let (class, special, weapon, g0, g1, g2) = choose|class: int, special: int, weapon: int, g0: int, g1: int, g2: int|
        {
            &&& draws_valid(dataset, bias, mode, class, special, weapon, g0, g1, g2)
            &&& loadout == loadout_of(loadout.name, dataset, mode, class, special, weapon, g0, g1, g2)
        };
    assert(gadget_images_distinct(gadget_class(dataset, mode, class))) by {
        assert(gadget_images_distinct(dataset.classes(mode)@[class]));
        assert(gadget_images_distinct(dataset.classes(Gamemode::Any)@[class]));
    }
    lemma_no_duplicate_gadgets(loadout.name, dataset, bias, mode, class, special, weapon, g0, g1, g2);
}

/// The sizes of the teams, as fields of `Teams`.
pub struct TeamsView<'a> {
    pub large_team_players: int,
    pub large_teams: int,
    pub normal_team_players: int,
    pub normal_teams: int,
    pub players: int,
    pub loadouts: Seq<Loadout<'a>>,
}

/// How `players` players fall into `teams` teams: the first
/// `players % teams` teams get one player more.
pub open spec fn team_sizes_ok(v: TeamsView, teams: int) -> bool {
    &&& v.normal_team_players == v.players / teams
    &&& v.large_team_players == v.normal_team_players + 1
    &&& v.large_teams == v.players % teams
    &&& v.normal_teams == teams - v.players % teams
}

/// Where the `k`-th team starts among the shuffled players.
pub open spec fn team_start(v: TeamsView, k: int) -> int {
    if k < v.large_teams {
        k * v.large_team_players
    } else {
        v.large_teams * v.large_team_players + (k - v.large_teams) * v.normal_team_players
    }
}

/// How many players the `k`-th team has.
pub open spec fn team_size(v: TeamsView, k: int) -> int {
    if k < v.large_teams {
        v.large_team_players
    } else {
        v.normal_team_players
    }
}

/// How many teams `Teams::iter` gives.
pub open spec fn team_count(v: TeamsView) -> int {
    v.large_teams + v.normal_teams
}

/// The sizes cover the shuffled players exactly (teams of normal size may be
/// empty when there are fewer players than teams).
pub open spec fn teams_consistent(v: TeamsView) -> bool {
    &&& 0 <= v.players <= 16
    &&& v.loadouts.len() == 16
    &&& v.normal_team_players >= 0
    &&& v.large_team_players == v.normal_team_players + 1
    &&& 0 <= v.large_teams
    &&& 0 <= v.normal_teams
    &&& v.large_teams * v.large_team_players + v.normal_teams * v.normal_team_players == v.players
}

/// The teams of `Teams::iter` follow one another without gap or overlap and
/// together hold exactly the players: the first starts at 0, each starts
/// where the one before ends, and the last ends at the number of players.
pub proof fn lemma_teams_partition_players(v: TeamsView)
    requires
        teams_consistent(v),
    ensures
        team_start(v, 0) == 0,
        forall|k: int|
            0 <= k < team_count(v) ==> #[trigger] team_start(v, k + 1) == team_start(v, k) + team_size(v, k),
        team_start(v, team_count(v)) == v.players,
{
    let lp = v.large_team_players;
    let np = v.normal_team_players;
    let lt = v.large_teams;
    let n = v.normal_teams;
    assert forall|k: int| 0 <= k < team_count(v) implies #[trigger] team_start(v, k + 1) == team_start(v, k)
        + team_size(v, k) by {
        if k + 1 < lt {
            assert((k + 1) * lp == k * lp + lp) by (nonlinear_arith);
        } else if k + 1 == lt {
            assert((k + 1) * lp == k * lp + lp) by (nonlinear_arith);
            assert((k + 1 - lt) * np == 0) by (nonlinear_arith)
                requires
                    k + 1 == lt,
            ;
        } else {
            assert((k + 1 - lt) * np == (k - lt) * np + np) by (nonlinear_arith);
        }
    }
    if lt == 0 {
        assert(lt * lp == 0) by (nonlinear_arith)
            requires
                lt == 0,
        ;
    }
    assert(team_start(v, team_count(v)) == lt * lp + n * np);
}

/// Auto balance by team: where the teams differ in size, every player of a
/// larger team is picked without heavy and every player of a smaller team
/// with heavy only; where all teams have one size, or without auto balance,
/// every player is picked fairly.
pub proof fn lemma_balance_by_team(v: TeamsView, t: int, k: int, auto_balance: bool)
    requires
        teams_consistent(v),
        0 <= t < team_count(v),
        team_start(v, t) <= k < team_start(v, t) + team_size(v, t),
    ensures
        bias_at(k, v.large_teams, v.large_team_players, auto_balance) == if !auto_balance || v.large_teams == 0 {
            LoadoutBias::Fair
        } else if team_size(v, t) == v.large_team_players {
            LoadoutBias::NoHeavy
        } else {
            LoadoutBias::OnlyHeavy
        },
{
    let lp = v.large_team_players;
    let lt = v.large_teams;
    let np = v.normal_team_players;
    if t < lt {
        assert(t * lp + lp <= lt * lp) by (nonlinear_arith)
            requires
                t + 1 <= lt,
                lp >= 0,
        ;
    } else {
        assert((t - lt) * np >= 0) by (nonlinear_arith)
            requires
                t >= lt,
                np >= 0,
        ;
    }
}

/// The players of a match, split into teams; each has a loadout.
pub struct Teams<'a> {
    large_team_players: u8,
    large_teams: u8,
    normal_team_players: u8,
    normal_teams: u8,
    players: u8,
    loadouts: Vec<Loadout<'a>>,
}

impl<'a> View for Teams<'a> {
    type V = TeamsView<'a>;

    closed spec fn view(&self) -> TeamsView<'a> {
        TeamsView {
            large_team_players: self.large_team_players as int,
            large_teams: self.large_teams as int,
            normal_team_players: self.normal_team_players as int,
            normal_teams: self.normal_teams as int,
            players: self.players as int,
            loadouts: self.loadouts@,
        }
    }
}

/// Division with remainder of `players` over `teams` accounts for every player
/// and every team: `normal * (teams - large) + (normal + 1) * large == players`.
pub proof fn lemma_team_sizes(players: int, teams: int)
    requires
        0 <= players,
        1 <= teams,
    ensures
        (players / teams) * (teams - players % teams) + (players / teams + 1) * (players % teams)
            == players,
        (teams - players % teams) + players % teams == teams,
        0 <= players % teams < teams,
        (players % teams) * (players / teams + 1) <= players,
{
    let q = players / teams;
    let r = players % teams;
    assert(players == q * teams + r) by (nonlinear_arith)
        requires
            q == players / teams,
            r == players % teams,
            1 <= teams,
    ;
    assert(0 <= q) by (nonlinear_arith)
        requires
            q == players / teams,
            1 <= teams,
            0 <= players,
    ;
    assert(q * (teams - r) + (q + 1) * r == q * teams + r) by (nonlinear_arith);
    assert(r * (q + 1) <= q * teams + r) by (nonlinear_arith)
        requires
            0 <= r < teams,
            0 <= q,
    ;
}

/// What `Teams::pick` needs: at least one team, names that can be cut to
/// their length limit, and a dataset to draw every player's loadout from.
pub open spec fn pick_allowed_spec(players: Seq<char>, dataset: Dataset, teams: int, auto_balance: bool, mode: Gamemode) -> bool {
    &&& teams >= 1
    &&& names_truncatable(players)
    &&& forall|i: int|
        0 <= i < 16 ==> #[trigger] pickable(
            dataset,
            bias_at(i, player_count(players) % teams, player_count(players) / teams + 1, auto_balance),
            mode,
        )
}

/// What `Teams::pick` promises of the teams `v` it returns.
pub open spec fn picked_teams(
    v: TeamsView,
    players: Seq<char>,
    dataset: Dataset,
    teams: int,
    auto_balance: bool,
    mode: Gamemode,
) -> bool {
    &&& v.players == player_count(players)
    &&& team_sizes_ok(v, teams)
    &&& team_count(v) == teams
    &&& v.loadouts.len() == 16
    &&& exists|p: Seq<int>| #[trigger] names_in_order(v.loadouts, players, v.players, p)
    &&& forall|k: int| v.players <= k < 16 ==> (#[trigger] v.loadouts[k]).name@ == "?"@
    &&& forall|k: int|
        0 <= k < 16 ==> #[trigger] picked_by(
            v.loadouts[k],
            dataset,
            bias_at(k, v.large_teams, v.large_team_players, auto_balance),
            mode,
        )
}

impl<'a> Teams<'a> {
    /// `Teams::pick` where its needs are met, else nothing.
    pub fn pick_checked(
        rng: &mut ThreadRng,
        players: &'a str,
        dataset: &Dataset,
        teams: u8,
        auto_balance: bool,
        mode: Gamemode,
    ) -> (result: Option<Self>)
        ensures
            result is None <==> !pick_allowed_spec(players@, *dataset, teams as int, auto_balance, mode),
            result matches Some(t) ==> picked_teams(t@, players@, *dataset, teams as int, auto_balance, mode),
    {
        if Self::pick_allowed(players, dataset, teams, auto_balance, mode) {
            Some(Self::pick(rng, players, dataset, teams, auto_balance, mode))
        } else {
            None
        }
    }

    /// Whether `Teams::pick` can be called with these arguments.
    pub fn pick_allowed(players: &str, dataset: &Dataset, teams: u8, auto_balance: bool, mode: Gamemode) -> (ok: bool)
        ensures
            ok == pick_allowed_spec(players@, *dataset, teams as int, auto_balance, mode),
    {
        if teams == 0 {
            return false;
        }
        let pieces = split_commas(players);
        proof {
            lemma_comma_pieces_nonempty(players@);
        }
        let count: usize = if pieces.len() < MAX_PLAYERS {
            pieces.len()
        } else {
            MAX_PLAYERS
        };
        let mut i: usize = 0;
        while i < count
            invariant
                count == player_count(players@),
                pieces@.len() == comma_pieces(players@).len(),
                forall|j: int| 0 <= j < pieces@.len() ==> (#[trigger] pieces@[j])@ == comma_pieces(players@)[j],
                i <= count,
                forall|j: int| 0 <= j < i ==> #[trigger] truncatable(trim(comma_pieces(players@)[j]), 30),
            decreases count - i,
        {
            if !is_truncatable(trim_str(pieces[i]), MAX_NAME_BYTES) {
                return false;
            }
            i = i + 1;
        }
        let players_n = count as u8;
        let large_teams = players_n % teams;
        let large_team_players = players_n / teams + 1;
        assert(players_n / teams <= players_n) by (nonlinear_arith)
            requires
                teams >= 1,
        ;
        let mut k: u8 = 0;
        while k < 16
            invariant
                k <= 16,
                teams >= 1,
                large_teams == player_count(players@) % (teams as int),
                large_team_players == player_count(players@) / (teams as int) + 1,
                large_team_players <= 17,
                forall|j: int|
                    0 <= j < k ==> #[trigger] pickable(
                        *dataset,
                        bias_at(j, large_teams as int, large_team_players as int, auto_balance),
                        mode,
                    ),
            decreases 16 - k,
        {
            assert((large_teams as u32) * (large_team_players as u32) <= 255 * 17) by (nonlinear_arith)
                requires
                    large_teams <= 255,
                    large_team_players <= 17,
            ;
            let few = (k as u32) < (large_teams as u32) * (large_team_players as u32);
            let bias = if auto_balance && few {
                LoadoutBias::NoHeavy
            } else if auto_balance && large_teams != 0 {
                LoadoutBias::OnlyHeavy
            } else {
                LoadoutBias::Fair
            };
            assert(bias == bias_at(k as int, large_teams as int, large_team_players as int, auto_balance));
            if !is_pickable(dataset, bias, mode) {
                return false;
            }
            k = k + 1;
        }
        true
    }

    /// Type invariant: the sizes fit the shuffled players.
    #[verifier::type_invariant]
    closed spec fn wf(self) -> bool {
        &&& self.players <= 16
        &&& self.loadouts@.len() == 16
        &&& self.large_team_players == self.normal_team_players + 1
        &&& self.large_teams * self.large_team_players + self.normal_teams * self.normal_team_players
            == self.players
    }

    /// Splits `players` (names separated by commas; the first 16 count) into
    /// `teams` teams in a random order and picks a loadout for every player
    /// (the 16 slots are all filled; the unused ones are named "?").
    pub fn pick(
        rng: &mut ThreadRng,
        players: &'a str,
        dataset: &Dataset,
        teams: u8,
        auto_balance: bool,
        mode: Gamemode,
    ) -> (result: Self)
        requires
            teams >= 1,
            names_truncatable(players@),
            forall|i: int|
                0 <= i < 16 ==> #[trigger] pickable(
                    *dataset,
                    bias_at(
                        i,
                        player_count(players@) % (teams as int),
                        player_count(players@) / (teams as int) + 1,
                        auto_balance,
                    ),
                    mode,
                ),
        ensures
            result@.players == player_count(players@),
            team_sizes_ok(result@, teams as int),
            team_count(result@) == teams,
            result@.loadouts.len() == 16,
            exists|p: Seq<int>| #[trigger] names_in_order(result@.loadouts, players@, result@.players, p),
            forall|k: int|
                result@.players <= k < 16 ==> (#[trigger] result@.loadouts[k]).name@ == "?"@,
            forall|k: int|
                0 <= k < 16 ==> #[trigger] picked_by(
                    result@.loadouts[k],
                    *dataset,
                    bias_at(k, result@.large_teams, result@.large_team_players, auto_balance),
                    mode,
                ),
    {
        let pieces = split_commas(players);
        proof {
            lemma_comma_pieces_nonempty(players@);
        }
        let count: usize = if pieces.len() < MAX_PLAYERS {
            pieces.len()
        } else {
            MAX_PLAYERS
        };
        let mut order: Vec<usize> = Vec::new();
        let mut i: usize = 0;
        while i < count
            invariant
                i <= count,
                order@ == Seq::new(i as nat, |j: int| j as usize),
            decreases count - i,
        {
            order.push(i);
            i = i + 1;
            assert(order@ =~= Seq::new(i as nat, |j: int| j as usize));
        }
        let ghost range = order@;
        proof {
            assert(range.no_duplicates());
            range.lemma_multiset_has_no_duplicates();
        }
        shuffle(rng, &mut order);
        proof {
            order@.lemma_multiset_has_no_duplicates_conv();
            assert forall|k: int| 0 <= k < count implies #[trigger] order@[k] < count by {
                assert(order@.to_multiset().count(order@[k]) > 0);
                assert(range.contains(order@[k]));
            }
        }
        let ghost perm = Seq::new(count as nat, |k: int| order@[k] as int);
        let mut names: Vec<&'a str> = Vec::new();
        let mut k: usize = 0;
        while k < MAX_PLAYERS
            invariant
                count <= 16,
                count == player_count(players@),
                pieces@.len() == comma_pieces(players@).len(),
                forall|j: int| 0 <= j < pieces@.len() ==> (#[trigger] pieces@[j])@ == comma_pieces(players@)[j],
                names_truncatable(players@),
                order@.len() == count,
                forall|j: int| 0 <= j < count ==> #[trigger] order@[j] < count,
                perm == Seq::new(count as nat, |j: int| order@[j] as int),
                k <= 16,
                names@.len() == k,
                forall|j: int|
                    0 <= j < k && j < count ==> (#[trigger] names@[j]).spec_bytes() == player_name(
                        comma_pieces(players@)[perm[j]],
                    ),
                forall|j: int| count <= j < k ==> (#[trigger] names@[j])@ == "?"@,
            decreases 16 - k,
        {
            if k < count {
                let p = order[k];
                assert(truncatable(trim(comma_pieces(players@)[p as int]), 30));
                let name = truncate_bytes(trim_str(pieces[p]), MAX_NAME_BYTES);
                names.push(name);
            } else {
                names.push("?");
            }
            k = k + 1;
        }
        let players_n = count as u8;
        let normal_team_players = players_n / teams;
        let large_team_players = normal_team_players + 1;
        let large_teams = players_n % teams;
        let normal_teams = teams - large_teams;
        proof {
            lemma_team_sizes(players_n as int, teams as int);
        }
        assert(normal_team_players * normal_teams + large_team_players * large_teams == players_n);
        assert(normal_teams + large_teams == teams);
        assert(large_teams * large_team_players == large_team_players * large_teams) by (nonlinear_arith);
        assert(normal_teams * normal_team_players == normal_team_players * normal_teams) by (nonlinear_arith);
        let mut loadouts: Vec<Loadout<'a>> = Vec::new();
        let mut i: u8 = 0;
        while i < 16
            invariant
                i <= 16,
                names@.len() == 16,
                forall|j: int|
                    0 <= j < count ==> (#[trigger] names@[j]).spec_bytes() == player_name(
                        comma_pieces(players@)[perm[j]],
                    ),
                forall|j: int| count <= j < 16 ==> (#[trigger] names@[j])@ == "?"@,
                large_teams * large_team_players <= 16,
                forall|j: int|
                    0 <= j < 16 ==> #[trigger] pickable(
                        *dataset,
                        bias_at(j, large_teams as int, large_team_players as int, auto_balance),
                        mode,
                    ),
                loadouts@.len() == i,
                forall|j: int| 0 <= j < i ==> (#[trigger] loadouts@[j]).name == names@[j],
                forall|j: int|
                    0 <= j < i ==> #[trigger] picked_by(
                        loadouts@[j],
                        *dataset,
                        bias_at(j, large_teams as int, large_team_players as int, auto_balance),
                        mode,
                    ),
            decreases 16 - i,
        {
            let bias = if auto_balance && i < large_teams * large_team_players {
                LoadoutBias::NoHeavy
            } else if auto_balance && large_teams != 0 {
                LoadoutBias::OnlyHeavy
            } else {
                LoadoutBias::Fair
            };
            assert(bias == bias_at(i as int, large_teams as int, large_team_players as int, auto_balance));
            assert(pickable(*dataset, bias_at(i as int, large_teams as int, large_team_players as int, auto_balance), mode));
            let loadout = Loadout::pick(rng, names[i as usize], dataset, bias, mode);
            loadouts.push(loadout);
            i = i + 1;
        }
        let result = Teams {
            large_team_players,
            large_teams,
            normal_team_players,
            normal_teams,
            players: players_n,
            loadouts,
        };
        proof {
            assert(order@.no_duplicates());
            assert(perm.len() == count);
            assert(forall|i: int| 0 <= i < count ==> 0 <= #[trigger] perm[i] < count);
            assert(forall|i: int, j: int| 0 <= i < count && 0 <= j < count && i != j ==> perm[i] != perm[j]);
            assert(is_permutation(perm, count as int));
            assert forall|k: int|
                0 <= k < result@.players implies (#[trigger] result@.loadouts[k]).name.spec_bytes()
                    == player_name(comma_pieces(players@)[perm[k]]) by {
                assert(result@.loadouts[k].name == names@[k]);
            }
            assert(names_in_order(result@.loadouts, players@, result@.players, perm));
        }
        result
    }

    /// The teams, each as the slice of its players' loadouts: first the
    /// larger teams, then those of normal size; with fewer players than
    /// teams, the teams of normal size are empty.
    pub fn iter(&self) -> (teams: Vec<&[Loadout<'a>]>)
        ensures
            teams_consistent(self@),
            teams@.len() == team_count(self@),
            forall|k: int|
                0 <= k < teams@.len() ==> (#[trigger] teams@[k])@ == self@.loadouts.subrange(
                    team_start(self@, k),
                    team_start(self@, k) + team_size(self@, k),
                ),
    {
        proof {
            use_type_invariant(self);
        }
        let large_team_players = self.large_team_players as usize;
        let normal_team_players = self.normal_team_players as usize;
        let large_teams = self.large_teams as usize;
        let players = self.players as usize;
        let unfair_fair_split = large_teams * large_team_players;
        let all = self.loadouts.as_slice();
        let mut teams: Vec<&[Loadout<'a>]> = Vec::new();
        let mut k: usize = 0;
        while k < large_teams
            invariant
                all@ == self@.loadouts,
                all@.len() == 16,
                large_teams == self@.large_teams,
                large_team_players == self@.large_team_players,
                large_teams * large_team_players <= 16,
                k <= large_teams,
                teams@.len() == k,
                forall|j: int|
                    0 <= j < k ==> (#[trigger] teams@[j])@ == self@.loadouts.subrange(
                        team_start(self@, j),
                        team_start(self@, j) + team_size(self@, j),
                    ),
            decreases large_teams - k,
        {
            assert(k * large_team_players + large_team_players <= large_teams * large_team_players)
                by (nonlinear_arith)
                requires
                    k < large_teams,
            ;
            let start = k * large_team_players;
            teams.push(&all[start..start + large_team_players]);
            k = k + 1;
        }
        let normal_teams = self.normal_teams as usize;
        assert(normal_teams * normal_team_players == self.normal_teams * self.normal_team_players);
        let mut j: usize = 0;
        while j < normal_teams
            invariant
                all@ == self@.loadouts,
                all@.len() == 16,
                large_teams == self@.large_teams,
                large_team_players == self@.large_team_players,
                normal_team_players == self@.normal_team_players,
                normal_teams == self@.normal_teams,
                unfair_fair_split == large_teams * large_team_players,
                unfair_fair_split + normal_teams * normal_team_players <= 16,
                j <= normal_teams,
                teams@.len() == large_teams + j,
                forall|i: int|
                    0 <= i < teams@.len() ==> (#[trigger] teams@[i])@ == self@.loadouts.subrange(
                        team_start(self@, i),
                        team_start(self@, i) + team_size(self@, i),
                    ),
            decreases normal_teams - j,
        {
            assert(j * normal_team_players + normal_team_players <= normal_teams * normal_team_players)
                by (nonlinear_arith)
                requires
                    j < normal_teams,
                    normal_team_players >= 0,
            ;
            let start = unfair_fair_split + j * normal_team_players;
            teams.push(&all[start..start + normal_team_players]);
            j = j + 1;
        }
        teams
    }
}

} // verus!
