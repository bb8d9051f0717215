use finals_loadouts::data::Item;
use finals_loadouts::loadout::Loadout;
use finals_loadouts::renderer::{
    calculate_height, calculate_height_team, calculate_width, render_plan, team_color, DrawOp, Element, W,
};

fn item(image: u32, name: &'static str) -> Item {
    Item { image, name }
}

fn loadout(name: &str, base: u32) -> Loadout<'_> {
    Loadout {
        name,
        special: item(base, "special"),
        weapon: item(base + 1, "weapon"),
        gadgets: [item(base + 2, "g0"), item(base + 3, "g1"), item(base + 4, "g2")],
    }
}

#[test]
fn element_sizes() {
    assert_eq!(Element::Padding(7).size(), 7);
    assert_eq!(Element::Separator.size(), 2);
    assert_eq!(Element::LoadoutName.size(), 48);
    assert_eq!(Element::LoadoutLabels.size(), 16);
    assert_eq!(Element::Teams.size(), 0);
    assert_eq!(Element::Players.size(), 0);
    assert_eq!(Element::IconGadget(1).size(), 128);
    assert_eq!(Element::Loadout.size(), 128);
    assert_eq!(Element::Separator.color(), (0x40, 0x50, 0x5d));
}

#[test]
fn widths_and_heights() {
    assert_eq!(calculate_width(), 744);
    assert_eq!(W, 744);
    assert_eq!(calculate_height_team(0), 20);
    assert_eq!(calculate_height_team(2), 464);
    assert_eq!(calculate_height(3, 7), 1614);
    assert_eq!(calculate_height(1, 0), 20);
    assert_eq!(calculate_height(65537, 1), 242);
}

#[test]
fn team_colors_cycle() {
    assert_eq!(team_color(0), (0x0d, 0x9c, 0xd5));
    assert_eq!(team_color(1), (0xfa, 0x32, 0xa9));
    assert_eq!(team_color(2), (0xec, 0x57, 0x18));
    assert_eq!(team_color(3), (0x9b, 0x43, 0xec));
    assert_eq!(team_color(4), team_color(0));
}

#[test]
fn plan_of_one_player() {
    let players = [loadout("ann", 10)];
    let (h, ops) = render_plan(&players, 1);
    assert_eq!(h, 242);
    assert!(matches!(ops[0], DrawOp::Rect { x: 0, y: 0, w: 744, h: 242, color: (0x0d, 0x9c, 0xd5) }));
    assert!(matches!(ops[1], DrawOp::Text { x: 20, y: 20, size: 48, text: "ann" }));
    assert!(matches!(ops[2], DrawOp::Image { image: 10, x: 20, y: 78, w: 128, h: 128 }));
    assert!(matches!(ops[3], DrawOp::Rect { x: 158, y: 78, w: 2, h: 128, .. }));
    assert!(matches!(ops[4], DrawOp::Image { image: 11, x: 170, y: 78, w: 128, h: 128 }));
    assert!(matches!(ops[6], DrawOp::Image { image: 12, x: 320, y: 78, .. }));
    assert!(matches!(ops[7], DrawOp::Image { image: 13, x: 458, y: 78, .. }));
    assert!(matches!(ops[8], DrawOp::Image { image: 14, x: 596, y: 78, .. }));
    assert!(matches!(ops[9], DrawOp::Rect { x: 20, y: 206, w: 128, h: 16, .. }));
    assert!(matches!(ops[10], DrawOp::Text { x: 20, y: 206, size: 16, text: "special" }));
    assert_eq!(ops.len(), 1 + 1 + 7 + 12);
}

#[test]
fn plan_of_three_teams() {
    let players: Vec<Loadout> = ["a", "b", "c", "d"].iter().enumerate().map(|(i, n)| loadout(n, i as u32 * 5)).collect();
    let (h, ops) = render_plan(&players, 3);
    assert_eq!(h, calculate_height(3, 4));
    let rects: Vec<(u32, u32)> = ops
        .iter()
        .filter_map(|op| match op {
            DrawOp::Rect { x: 0, y, w: 744, h, .. } => Some((*y, *h)),
            _ => None,
        })
        .collect();
    assert_eq!(rects, vec![(0, 464), (464, 242), (706, 242)]);
    let names: Vec<(&str, u32)> = ops
        .iter()
        .filter_map(|op| match op {
            DrawOp::Text { size: 48, text, y, .. } => Some((*text, *y)),
            _ => None,
        })
        .collect();
    assert_eq!(names, vec![("a", 20), ("b", 242), ("c", 484), ("d", 726)]);
}
