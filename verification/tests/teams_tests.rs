use finals_loadouts::data::{build_dataset_with_new_resources, ClassDesc, Dataset, EntryDesc, LoadedImage};
use finals_loadouts::teams::Teams;
use finals_loadouts::text::{char_is_whitespace, is_truncatable, split_commas, trim_str, truncate_bytes};
use finals_loadouts::Gamemode;
use vello_cpu::Pixmap;

fn entry(kind: Gamemode) -> EntryDesc {
    EntryDesc { hr_img_url: "https://example.invalid/x.png", kind, loaded: LoadedImage::Image(Pixmap::new(1, 1)) }
}

fn small_dataset() -> Dataset {
    let mut classes = vec![(
        "All",
        ClassDesc {
            weapons: vec![("sword", entry(Gamemode::Melee)), ("rifle", entry(Gamemode::Auto))],
            gadgets: vec![
                ("mine", entry(Gamemode::Any)),
                ("flash", entry(Gamemode::Any)),
                ("smoke", entry(Gamemode::Any)),
            ],
            specializations: vec![("cloak", entry(Gamemode::Any))],
        },
    )];
    build_dataset_with_new_resources(&mut classes).0
}

fn team_names<'a>(teams: &'a Teams<'a>) -> Vec<Vec<&'a str>> {
    teams.iter().into_iter().map(|t| t.iter().map(|l| l.name).collect()).collect()
}

#[test]
fn seven_players_in_three_teams() {
    let dataset = small_dataset();
    let players = "player 1,player 2,player 3,player 4,player 5,player 6,player 7";
    assert!(Teams::pick_allowed(players, &dataset, 3, true, Gamemode::Melee));
    let teams = Teams::pick(&mut rand::rng(), players, &dataset, 3, true, Gamemode::Melee);
    let names = team_names(&teams);
    assert_eq!(names.iter().map(|t| t.len()).collect::<Vec<_>>(), vec![3, 2, 2]);
    let mut all: Vec<&str> = names.concat();
    all.sort();
    assert_eq!(all, vec!["player 1", "player 2", "player 3", "player 4", "player 5", "player 6", "player 7"]);
    for team in teams.iter() {
        for loadout in team {
            assert_eq!(loadout.weapon.name, "sword");
        }
    }
}

#[test]
fn even_teams_and_single_team() {
    let dataset = small_dataset();
    let teams = Teams::pick(&mut rand::rng(), "a,b,c,d", &dataset, 2, true, Gamemode::Any);
    assert_eq!(team_names(&teams).iter().map(|t| t.len()).collect::<Vec<_>>(), vec![2, 2]);
    let one = Teams::pick(&mut rand::rng(), "a,b,c", &dataset, 1, false, Gamemode::Auto);
    let names = team_names(&one);
    assert_eq!(names.len(), 1);
    assert_eq!(names[0].len(), 3);
}

#[test]
fn names_are_trimmed_and_cut() {
    let dataset = small_dataset();
    let long = "abcdefghijklmnopqrstuvwxyz0123456789";
    let players = format!("  alice , {long}");
    let players: &'static str = Box::leak(players.into_boxed_str());
    let teams = Teams::pick(&mut rand::rng(), players, &dataset, 1, false, Gamemode::Any);
    let mut names = team_names(&teams).concat();
    names.sort();
    assert_eq!(names, vec!["abcdefghijklmnopqrstuvwxyz0123", "alice"]);
}

#[test]
fn at_most_sixteen_players() {
    let dataset = small_dataset();
    let players = "1,2,3,4,5,6,7,8,9,10,11,12,13,14,15,16,17,18";
    let teams = Teams::pick(&mut rand::rng(), players, &dataset, 4, true, Gamemode::Any);
    let names = team_names(&teams);
    assert_eq!(names.iter().map(|t| t.len()).collect::<Vec<_>>(), vec![4, 4, 4, 4]);
    assert!(names.concat().iter().all(|n| *n != "17" && *n != "18"));
}

#[test]
fn uneven_teams_get_auto_balance() {
    let dataset = {
        let mut classes = vec![
            (
                "Light,Medium",
                ClassDesc {
                    weapons: vec![("light gun", entry(Gamemode::Any))],
                    gadgets: vec![("a", entry(Gamemode::Any)), ("b", entry(Gamemode::Any)), ("c", entry(Gamemode::Any))],
                    specializations: vec![("s", entry(Gamemode::Any))],
                },
            ),
            (
                "Heavy",
                ClassDesc {
                    weapons: vec![("heavy gun", entry(Gamemode::Any))],
                    gadgets: vec![("d", entry(Gamemode::Any)), ("e", entry(Gamemode::Any)), ("f", entry(Gamemode::Any))],
                    specializations: vec![("t", entry(Gamemode::Any))],
                },
            ),
        ];
        build_dataset_with_new_resources(&mut classes).0
    };
    let teams = Teams::pick(&mut rand::rng(), "a,b,c", &dataset, 2, true, Gamemode::Any);
    let split = teams.iter();
    assert_eq!(split.len(), 2);
    assert!(split[0].iter().all(|l| l.weapon.name == "light gun"));
    assert!(split[1].iter().all(|l| l.weapon.name == "heavy gun"));
}

#[test]
fn players_are_shuffled() {
    let dataset = small_dataset();
    let mut rng = rand::rng();
    let mut firsts = std::collections::HashSet::new();
    for _ in 0..200 {
        let teams = Teams::pick(&mut rng, "a,b,c,d", &dataset, 1, false, Gamemode::Any);
        firsts.insert(teams.iter()[0][0].name);
    }
    assert!(firsts.len() > 1);
}

#[test]
fn pick_not_allowed_without_teams_or_items() {
    let dataset = small_dataset();
    assert!(!Teams::pick_allowed("a,b", &dataset, 0, true, Gamemode::Any));
    assert!(!Teams::pick_allowed("a,b", &Dataset::empty(), 1, true, Gamemode::Any));
    let cut_in_char = "aaaaaaaaaaaaaaaaaaaaaaaaaaaaaé";
    assert!(!Teams::pick_allowed(cut_in_char, &dataset, 1, true, Gamemode::Any));
}

#[test]
fn split_commas_keeps_empty_pieces() {
    assert_eq!(split_commas("a,,b"), vec!["a", "", "b"]);
    assert_eq!(split_commas(""), vec![""]);
    assert_eq!(split_commas("x,"), vec!["x", ""]);
}

#[test]
fn trim_removes_outer_white_space() {
    assert_eq!(trim_str("  a b \t\n"), "a b");
    assert_eq!(trim_str("   "), "");
    assert_eq!(trim_str("\u{3000}x\u{a0}"), "x");
}

#[test]
fn truncate_cuts_bytes() {
    assert_eq!(truncate_bytes("hello", 3), "hel");
    assert_eq!(truncate_bytes("hi", 30), "hi");
    assert!(is_truncatable("héllo", 3));
    assert!(!is_truncatable("héllo", 2));
    assert!(is_truncatable("hé", 30));
}

#[test]
fn pick_checked_refuses_what_pick_cannot_do() {
    let dataset = small_dataset();
    let mut rng = rand::rng();
    assert!(Teams::pick_checked(&mut rng, "a,b", &dataset, 0, true, Gamemode::Any).is_none());
    assert!(Teams::pick_checked(&mut rng, "a,b", &Dataset::empty(), 2, true, Gamemode::Any).is_none());
    let teams = Teams::pick_checked(&mut rng, "a,b", &dataset, 2, true, Gamemode::Any).unwrap();
    assert_eq!(teams.iter().len(), 2);
    let few = Teams::pick_checked(&mut rng, "a,b", &dataset, 3, true, Gamemode::Any).unwrap();
    assert_eq!(team_names(&few).iter().map(|t| t.len()).collect::<Vec<_>>(), vec![1, 1, 0]);
}

#[test]
fn fewer_players_than_teams_gives_empty_teams() {
    let dataset = small_dataset();
    let teams = Teams::pick(&mut rand::rng(), "a", &dataset, 4, true, Gamemode::Any);
    let names = team_names(&teams);
    assert_eq!(names.iter().map(|t| t.len()).collect::<Vec<_>>(), vec![1, 0, 0, 0]);
    assert_eq!(names[0], vec!["a"]);
}

#[test]
fn white_space_matches_std() {
    for u in 0..=0x10ffffu32 {
        if let Some(c) = char::from_u32(u) {
            assert_eq!(char_is_whitespace(c), c.is_whitespace(), "{u:#x}");
        }
    }
}
