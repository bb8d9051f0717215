use finals_loadouts::data::{
    build_dataset_with_new_resources, cache_file_name, catalogue_keys_unique, classes_named_once, load_entry_image,
    build_any_class, build_class, build_dataset, class_names_valid, empty_classes, new_resources, Class, ClassDesc,
    ClassKind, Dataset, EntryDesc, Item, LoadedImage,
};
use finals_loadouts::Gamemode;
use vello_cpu::{ImageId, Pixmap};

fn entry(kind: Gamemode) -> EntryDesc {
    EntryDesc { hr_img_url: "https://example.invalid/y.png", kind, loaded: LoadedImage::Image(Pixmap::new(2, 2)) }
}

fn desc() -> ClassDesc {
    ClassDesc {
        weapons: vec![("sword", entry(Gamemode::Melee)), ("rifle", entry(Gamemode::Auto))],
        gadgets: vec![("mine", entry(Gamemode::Any))],
        specializations: vec![("cloak", entry(Gamemode::Any))],
    }
}

fn id_of(e: &EntryDesc) -> Option<u32> {
    match e.loaded {
        LoadedImage::Id(id) => Some(id),
        _ => None,
    }
}

#[test]
fn class_kind_ids() {
    assert_eq!(ClassKind::Light.id(), 0);
    assert_eq!(ClassKind::Medium.id(), 1);
    assert_eq!(ClassKind::Heavy.id(), 2);
}

#[test]
fn class_and_class_mut_select_the_mode() {
    let mut dataset = Dataset::empty();
    dataset.class_mut(Gamemode::Shotgun)[1].weapons.push(Item { image: 9, name: "pump" });
    assert_eq!(dataset.class(Gamemode::Shotgun)[1].weapons.len(), 1);
    assert_eq!(dataset.class(Gamemode::Shotgun)[1].weapons[0].image, 9);
    assert!(dataset.class(Gamemode::Any)[1].weapons.is_empty());
    assert!(dataset.class(Gamemode::Shotgun)[0].weapons.is_empty());
}

#[test]
fn build_class_registers_once_and_filters() {
    let mut resources = new_resources();
    let mut contents = desc();
    let mut class = Class::default();
    build_class(&mut class, &mut contents, &mut resources, None);
    assert_eq!(class.weapons.iter().map(|i| (i.image, i.name)).collect::<Vec<_>>(), vec![(0, "sword"), (1, "rifle")]);
    assert_eq!(class.gadgets[0].image, 2);
    assert_eq!(class.specials[0].image, 3);
    assert_eq!(id_of(&contents.weapons[1].1), Some(1));

    let mut melee = Class::default();
    build_class(&mut melee, &mut contents, &mut resources, Some(Gamemode::Melee));
    assert_eq!(melee.weapons.iter().map(|i| (i.image, i.name)).collect::<Vec<_>>(), vec![(0, "sword")]);
    assert!(melee.gadgets.is_empty());
    assert!(melee.specials.is_empty());

    let mut fresh = Class::default();
    let mut other = desc();
    build_class(&mut fresh, &mut other, &mut resources, None);
    assert_eq!(fresh.weapons[0].image, 4);
}

#[test]
fn build_class_registers_only_passing_entries() {
    let mut resources = new_resources();
    let mut contents = desc();
    let mut auto = Class::default();
    build_class(&mut auto, &mut contents, &mut resources, Some(Gamemode::Auto));
    assert_eq!(auto.weapons.iter().map(|i| (i.image, i.name)).collect::<Vec<_>>(), vec![(0, "rifle")]);
    assert_eq!(id_of(&contents.weapons[0].1), None);
    assert_eq!(id_of(&contents.weapons[1].1), Some(0));
}

#[test]
fn build_any_class_fills_every_named_class() {
    let mut resources = new_resources();
    let mut contents = desc();
    let mut classes = empty_classes();
    build_any_class("Light,Heavy", &mut contents, &mut resources, &mut classes, None);
    assert_eq!(classes[0].weapons.len(), 2);
    assert!(classes[1].weapons.is_empty());
    assert_eq!(classes[2].weapons.len(), 2);
    assert_eq!(classes[0].weapons[0].image, classes[2].weapons[0].image);

    let mut all = empty_classes();
    let mut contents2 = desc();
    build_any_class("All", &mut contents2, &mut resources, &mut all, Some(Gamemode::Melee));
    for c in &all {
        assert_eq!(c.weapons.iter().map(|i| i.name).collect::<Vec<_>>(), vec!["sword"]);
    }
}

#[test]
fn class_names_are_checked() {
    assert!(class_names_valid("Light"));
    assert!(class_names_valid("Light,Medium,Heavy"));
    assert!(class_names_valid("All"));
    assert!(!class_names_valid("light"));
    assert!(!class_names_valid("Light, Heavy"));
    assert!(!class_names_valid(""));
}

#[test]
fn build_dataset_sorts_items_by_mode() {
    let mut resources = new_resources();
    let mut classes = vec![("Medium", desc()), ("All", ClassDesc {
        weapons: vec![("bomb", entry(Gamemode::Bombs))],
        gadgets: vec![],
        specializations: vec![],
    })];
    let dataset = build_dataset(&mut classes, &mut resources);
    let any = &dataset.class(Gamemode::Any);
    assert!(any[0].weapons.iter().map(|i| i.name).eq(["bomb"]));
    assert!(any[1].weapons.iter().map(|i| i.name).eq(["sword", "rifle", "bomb"]));
    assert!(any[1].weapons.iter().map(|i| i.image).eq([0, 1, 4]));
    assert!(dataset.class(Gamemode::Melee)[1].weapons.iter().map(|i| i.name).eq(["sword"]));
    assert!(dataset.class(Gamemode::Melee)[0].weapons.is_empty());
    assert!(dataset.class(Gamemode::Bombs)[2].weapons.iter().map(|i| i.name).eq(["bomb"]));
    assert!(dataset.class(Gamemode::Semi)[1].weapons.is_empty());
    assert_eq!(dataset.class(Gamemode::Semi)[1].gadgets.len(), 0);
    assert_eq!(dataset.class(Gamemode::Any)[1].gadgets[0].image, 2);
}

#[test]
fn built_classes_never_share_a_gadget_picture() {
    let mut classes = vec![
        ("Light,Medium", ClassDesc {
            weapons: vec![("w", entry(Gamemode::Any))],
            gadgets: vec![("a", entry(Gamemode::Any)), ("b", entry(Gamemode::Bombs)), ("c", entry(Gamemode::Any))],
            specializations: vec![("s", entry(Gamemode::Any))],
        }),
        ("Heavy,Light", ClassDesc {
            weapons: vec![("v", entry(Gamemode::Any))],
            gadgets: vec![("d", entry(Gamemode::Bombs)), ("e", entry(Gamemode::Any))],
            specializations: vec![],
        }),
    ];
    let (dataset, _resources) = finals_loadouts::data::build_dataset_with_new_resources(&mut classes);
    for mode in [Gamemode::Any, Gamemode::Melee, Gamemode::Shotgun, Gamemode::Auto, Gamemode::Semi, Gamemode::Bombs] {
        for class in dataset.class(mode).iter() {
            let images: Vec<u32> = class.gadgets.iter().map(|g| g.image).collect();
            assert!(images.windows(2).all(|w| w[0] < w[1]));
        }
    }
    assert!(dataset.class(Gamemode::Any)[0].gadgets.iter().map(|g| g.name).eq(["a", "b", "c", "d", "e"]));
    assert!(dataset.class(Gamemode::Bombs)[0].gadgets.iter().map(|g| g.name).eq(["b", "d"]));
}

#[test]
fn png_bytes_load_as_pictures() {
    let png = Pixmap::new(3, 2).into_png().unwrap();
    match load_entry_image(&png) {
        Some(LoadedImage::Image(p)) => assert_eq!((p.width(), p.height()), (3, 2)),
        _ => panic!("a PNG file loads as a picture"),
    }
    assert!(load_entry_image(b"not a png").is_none());
    assert!(load_entry_image(&png[..png.len() / 2]).is_none());
}

#[test]
fn cache_names_are_the_last_url_piece() {
    assert_eq!(cache_file_name("https://example.invalid/a/b/item.png"), "item.png");
    assert_eq!(cache_file_name("item.png"), "item.png");
    assert_eq!(cache_file_name("https://example.invalid/dir/"), "");
    assert_eq!(cache_file_name(""), "");
}

#[test]
fn registry_holds_exactly_the_built_pictures() {
    let mut classes = vec![("Light", desc()), ("Heavy", desc())];
    let (_dataset, resources) = build_dataset_with_new_resources(&mut classes);
    for id in 0..8 {
        assert!(resources.resolve_image(ImageId::new(id)).is_some());
    }
    assert!(resources.resolve_image(ImageId::new(8)).is_none());
    let ids: Vec<Option<u32>> = classes.iter().flat_map(|(_, d)| d.weapons.iter().chain(&d.gadgets).chain(&d.specializations).map(|e| id_of(&e.1))).collect();
    assert_eq!(ids, (0..8).map(Some).collect::<Vec<_>>());
}

#[test]
fn catalogue_keys_must_be_unique() {
    assert!(catalogue_keys_unique(&vec![("Light", desc()), ("Heavy", desc())]));
    assert!(!catalogue_keys_unique(&vec![("Light", desc()), ("Light", desc())]));
    let mut twice = desc();
    twice.gadgets.push(("mine", entry(Gamemode::Any)));
    assert!(!catalogue_keys_unique(&vec![("Light", twice)]));
}

fn sized(kind: Gamemode, w: u16, h: u16) -> EntryDesc {
    EntryDesc { hr_img_url: "https://example.invalid/z.png", kind, loaded: LoadedImage::Image(Pixmap::new(w, h)) }
}

fn size_under(resources: &vello_cpu::Resources, id: u32) -> (u16, u16) {
    let p = resources.resolve_image(ImageId::new(id)).unwrap();
    (p.width(), p.height())
}

#[test]
fn each_id_shows_its_entrys_picture() {
    let mut classes = vec![
        ("Light", ClassDesc {
            weapons: vec![("a", sized(Gamemode::Melee, 1, 5)), ("b", sized(Gamemode::Auto, 2, 5))],
            gadgets: vec![("c", sized(Gamemode::Any, 3, 5))],
            specializations: vec![("d", sized(Gamemode::Any, 4, 5))],
        }),
        ("Medium,Heavy", ClassDesc {
            weapons: vec![("e", sized(Gamemode::Bombs, 5, 6))],
            gadgets: vec![("f", sized(Gamemode::Semi, 6, 6))],
            specializations: vec![],
        }),
    ];
    let (dataset, resources) = build_dataset_with_new_resources(&mut classes);
    let widths = [("a", 1), ("b", 2), ("c", 3), ("d", 4), ("e", 5), ("f", 6)];
    for (_, d) in &classes {
        for (name, e) in d.weapons.iter().chain(&d.gadgets).chain(&d.specializations) {
            let id = id_of(e).unwrap();
            let w = widths.iter().find(|(n, _)| n == name).unwrap().1;
            assert_eq!(size_under(&resources, id).0, w);
        }
    }
    for mode in [Gamemode::Any, Gamemode::Melee, Gamemode::Shotgun, Gamemode::Auto, Gamemode::Semi, Gamemode::Bombs] {
        for class in dataset.class(mode).iter() {
            for item in class.weapons.iter().chain(&class.gadgets).chain(&class.specials) {
                let w = widths.iter().find(|(n, _)| *n == item.name).unwrap().1;
                assert_eq!(size_under(&resources, item.image).0, w);
            }
        }
    }
    assert_eq!(size_under(&resources, 4), (5, 6));
}

#[test]
fn building_a_class_registers_the_entrys_own_picture() {
    let mut resources = new_resources();
    let mut contents = ClassDesc {
        weapons: vec![("x", sized(Gamemode::Any, 7, 1))],
        gadgets: vec![("y", sized(Gamemode::Any, 8, 2))],
        specializations: vec![("z", sized(Gamemode::Any, 9, 3))],
    };
    let mut class = Class::default();
    build_class(&mut class, &mut contents, &mut resources, None);
    assert_eq!(size_under(&resources, class.weapons[0].image), (7, 1));
    assert_eq!(size_under(&resources, class.gadgets[0].image), (8, 2));
    assert_eq!(size_under(&resources, class.specials[0].image), (9, 3));
    let mut again = Class::default();
    build_class(&mut again, &mut contents, &mut resources, None);
    assert_eq!(again.gadgets[0].image, class.gadgets[0].image);
    assert!(resources.resolve_image(ImageId::new(3)).is_none());
}

#[test]
fn classes_must_be_named_once_per_key() {
    assert!(classes_named_once(&vec![("Light,Medium", desc()), ("Heavy", desc()), ("All", desc())]));
    assert!(!classes_named_once(&vec![("Light,Light", desc())]));
    assert!(!classes_named_once(&vec![("Heavy", desc()), ("All,Medium", desc())]));
    assert!(classes_named_once(&vec![]));
}
