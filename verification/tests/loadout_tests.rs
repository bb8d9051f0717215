use finals_loadouts::data::{build_dataset_with_new_resources, ClassDesc, Dataset, EntryDesc, Item, LoadedImage};
use finals_loadouts::loadout::{class_bounds, draw_ranges, gadget_indices, is_pickable, Loadout};
use finals_loadouts::{Gamemode, LoadoutBias};
use vello_cpu::Pixmap;

fn entry(kind: Gamemode) -> EntryDesc {
    EntryDesc { hr_img_url: "https://example.invalid/item.png", kind, loaded: LoadedImage::Image(Pixmap::new(1, 1)) }
}

fn weapons(prefix: &'static [&'static str; 5]) -> Vec<(&'static str, EntryDesc)> {
    vec![
        (prefix[0], entry(Gamemode::Melee)),
        (prefix[1], entry(Gamemode::Shotgun)),
        (prefix[2], entry(Gamemode::Auto)),
        (prefix[3], entry(Gamemode::Semi)),
        (prefix[4], entry(Gamemode::Bombs)),
    ]
}

fn sample_dataset() -> Dataset {
    let mut classes = vec![
        (
            "Light",
            ClassDesc {
                weapons: weapons(&["light sword", "light shotgun", "light smg", "light pistol", "light bomb"]),
                gadgets: vec![
                    ("light gadget 1", entry(Gamemode::Any)),
                    ("light gadget 2", entry(Gamemode::Any)),
                    ("light gadget 3", entry(Gamemode::Any)),
                    ("light gadget 4", entry(Gamemode::Any)),
                ],
                specializations: vec![("light special", entry(Gamemode::Any))],
            },
        ),
        (
            "Medium",
            ClassDesc {
                weapons: weapons(&["medium sword", "medium shotgun", "medium rifle", "medium pistol", "medium launcher"]),
                gadgets: vec![
                    ("medium gadget 1", entry(Gamemode::Bombs)),
                    ("medium gadget 2", entry(Gamemode::Bombs)),
                    ("medium gadget 3", entry(Gamemode::Bombs)),
                    ("medium gadget 4", entry(Gamemode::Any)),
                ],
                specializations: vec![
                    ("medium special 1", entry(Gamemode::Any)),
                    ("medium special 2", entry(Gamemode::Any)),
                ],
            },
        ),
        (
            "Heavy",
            ClassDesc {
                weapons: weapons(&["heavy hammer", "heavy shotgun", "heavy lmg", "heavy revolver", "heavy rpg"]),
                gadgets: vec![
                    ("heavy gadget 1", entry(Gamemode::Bombs)),
                    ("heavy gadget 2", entry(Gamemode::Bombs)),
                    ("heavy gadget 3", entry(Gamemode::Bombs)),
                    ("heavy gadget 4", entry(Gamemode::Any)),
                    ("heavy gadget 5", entry(Gamemode::Any)),
                ],
                specializations: vec![("heavy special", entry(Gamemode::Any))],
            },
        ),
    ];
    let (dataset, _resources) = build_dataset_with_new_resources(&mut classes);
    dataset
}

const MODES: [Gamemode; 6] =
    [Gamemode::Any, Gamemode::Melee, Gamemode::Shotgun, Gamemode::Auto, Gamemode::Semi, Gamemode::Bombs];
const BIASES: [LoadoutBias; 3] = [LoadoutBias::Fair, LoadoutBias::NoHeavy, LoadoutBias::OnlyHeavy];

#[test]
fn no_dupes() {
    let dataset = sample_dataset();

    let mut rng = rand::rng();
    for mode in [
        Gamemode::Any,
        Gamemode::Melee,
        Gamemode::Shotgun,
        Gamemode::Auto,
        Gamemode::Semi,
        Gamemode::Bombs,
    ] {
        for bias in [LoadoutBias::Fair, LoadoutBias::NoHeavy, LoadoutBias::OnlyHeavy] {
            for _ in 0..100000 {
                let loadout = Loadout::pick(&mut rng, "player", &dataset, bias, mode);
                assert_ne!(loadout.gadgets[0].image, loadout.gadgets[1].image);
                assert_ne!(loadout.gadgets[0].image, loadout.gadgets[2].image);
                assert_ne!(loadout.gadgets[1].image, loadout.gadgets[2].image);
            }
        }
    }
}

#[test]
fn gadget_indices_exact_values() {
    assert_eq!(gadget_indices(5, 0, 0, 0), (0, 1, 2));
    assert_eq!(gadget_indices(5, 4, 3, 2), (4, 3, 2));
    assert_eq!(gadget_indices(5, 2, 2, 0), (2, 3, 0));
    assert_eq!(gadget_indices(5, 1, 0, 1), (1, 0, 3));
    assert_eq!(gadget_indices(3, 2, 1, 0), (2, 1, 0));
}

#[test]
fn gadget_indices_cover_every_triple_once() {
    for n in 3..8usize {
        let mut seen = std::collections::HashSet::new();
        for g0 in 0..n {
            for g1 in 0..n - 1 {
                for g2 in 0..n - 2 {
                    let (a, b, c) = gadget_indices(n, g0, g1, g2);
                    assert!(a < n && b < n && c < n);
                    assert!(a != b && a != c && b != c);
                    assert!(seen.insert((a, b, c)));
                }
            }
        }
        assert_eq!(seen.len(), n * (n - 1) * (n - 2));
    }
}

#[test]
fn class_bounds_per_bias_and_mode() {
    assert_eq!(class_bounds(LoadoutBias::Fair, Gamemode::Any), (0, 2));
    assert_eq!(class_bounds(LoadoutBias::NoHeavy, Gamemode::Melee), (0, 1));
    assert_eq!(class_bounds(LoadoutBias::OnlyHeavy, Gamemode::Auto), (2, 2));
    assert_eq!(class_bounds(LoadoutBias::Fair, Gamemode::Bombs), (1, 2));
    assert_eq!(class_bounds(LoadoutBias::NoHeavy, Gamemode::Bombs), (1, 1));
    assert_eq!(class_bounds(LoadoutBias::OnlyHeavy, Gamemode::Bombs), (2, 2));
}

#[test]
fn from_draws_selects_the_drawn_items() {
    let dataset = sample_dataset();
    let loadout = Loadout::from_draws("ann", &dataset, LoadoutBias::Fair, Gamemode::Melee, 2, 0, 0, 4, 3, 2);
    assert_eq!(loadout.name, "ann");
    assert_eq!(loadout.special.name, "heavy special");
    assert_eq!(loadout.weapon.name, "heavy hammer");
    let heavy = &dataset.class(Gamemode::Any)[2];
    assert_eq!(loadout.gadgets[0].name, heavy.gadgets[4].name);
    assert_eq!(loadout.gadgets[1].name, heavy.gadgets[3].name);
    assert_eq!(loadout.gadgets[2].name, heavy.gadgets[2].name);

    let bombs = Loadout::from_draws("bo", &dataset, LoadoutBias::Fair, Gamemode::Bombs, 1, 1, 0, 0, 0, 0);
    assert_eq!(bombs.special.name, "medium special 2");
    assert_eq!(bombs.weapon.name, "medium launcher");
    assert_eq!(bombs.gadgets[0].name, "medium gadget 1");
    assert_eq!(bombs.gadgets[1].name, "medium gadget 2");
    assert_eq!(bombs.gadgets[2].name, "medium gadget 3");
}

#[test]
fn pick_respects_bias_and_mode() {
    let dataset = sample_dataset();
    let mut rng = rand::rng();
    for _ in 0..2000 {
        let heavy = Loadout::pick(&mut rng, "p", &dataset, LoadoutBias::OnlyHeavy, Gamemode::Shotgun);
        assert_eq!(heavy.weapon.name, "heavy shotgun");
        let bombs = Loadout::pick(&mut rng, "p", &dataset, LoadoutBias::Fair, Gamemode::Bombs);
        assert!(bombs.weapon.name == "medium launcher" || bombs.weapon.name == "heavy rpg");
        assert!(bombs.gadgets.iter().all(|g| g.name.ends_with(" 1") || g.name.ends_with(" 2") || g.name.ends_with(" 3")));
        let no_heavy = Loadout::pick(&mut rng, "p", &dataset, LoadoutBias::NoHeavy, Gamemode::Auto);
        assert!(no_heavy.weapon.name == "light smg" || no_heavy.weapon.name == "medium rifle");
    }
}

#[test]
fn pick_reaches_every_class() {
    let dataset = sample_dataset();
    let mut rng = rand::rng();
    let mut seen = std::collections::HashSet::new();
    for _ in 0..3000 {
        let l = Loadout::pick(&mut rng, "p", &dataset, LoadoutBias::Fair, Gamemode::Semi);
        seen.insert(l.weapon.name);
    }
    assert_eq!(seen.len(), 3);
}

#[test]
fn pickable_needs_items() {
    let dataset = sample_dataset();
    for mode in MODES {
        for bias in BIASES {
            assert!(is_pickable(&dataset, bias, mode));
        }
    }
    let empty = Dataset::empty();
    assert!(!is_pickable(&empty, LoadoutBias::Fair, Gamemode::Any));
}

#[test]
fn null_loadout_and_item() {
    let item = Item::null();
    assert_eq!(item.image, 0);
    assert_eq!(item.name, "");
    let loadout = Loadout::null();
    assert_eq!(loadout.name, "");
    assert_eq!(loadout.special.image, 0);
    assert_eq!(loadout.weapon.name, "");
    assert!(loadout.gadgets.iter().all(|g| g.image == 0 && g.name.is_empty()));
}

#[test]
fn gamemode_default_is_any() {
    assert_eq!(Gamemode::default(), Gamemode::Any);
}

#[test]
fn draw_ranges_cover_whole_pools() {
    let dataset = sample_dataset();
    assert_eq!(draw_ranges(&dataset, Gamemode::Any, 2), (0, 4, 4, 3, 2));
    assert_eq!(draw_ranges(&dataset, Gamemode::Bombs, 1), (1, 0, 2, 1, 0));
    assert_eq!(draw_ranges(&dataset, Gamemode::Melee, 0), (0, 0, 3, 2, 1));
}

#[test]
fn summary_lists_the_items() {
    let dataset = sample_dataset();
    let loadout = Loadout::from_draws("ann", &dataset, LoadoutBias::Fair, Gamemode::Bombs, 1, 1, 0, 0, 0, 0);
    assert_eq!(
        finals_loadouts::loadout::summary(&loadout),
        "medium special 2, medium launcher, medium gadget 1, medium gadget 2, medium gadget 3"
    );
}
