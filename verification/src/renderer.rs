//! The layout of the picture of a match: which rectangles, icons and texts go
//! where. Drawing them is left to the caller.

use vstd::prelude::*;

use crate::data::Item;
use crate::loadout::Loadout;

verus! {

/// The side of an item icon, in pixels.
pub const ICON_SIZE: u16 = 128;

/// The width of the picture: the width of one loadout row.
pub const W: u16 = 744;

/// One element of a layout: a gap, a separator, or a place for content.
#[derive(Clone, Copy, PartialEq, Eq, Structural, Debug)]
pub enum Element {
    Padding(u16),
    Separator,
    /// only for the main split
    Teams,
    /// only for the player splits
    Players,
    /// only for team splits
    LoadoutName,
    /// only for team splits
    Loadout,
    /// only for team splits
    LoadoutLabels,
    /// only for loadout splits
    IconSpecial,
    /// only for loadout splits
    IconWeapon,
    /// only for loadout splits
    IconGadget(u8),
}

/// An RGB color with 8 bits per channel.
pub type Rgb = (u8, u8, u8);

/// The color of separators and label backgrounds.
pub open spec fn separator_color() -> Rgb {
    (0x40u8, 0x50u8, 0x5du8)
}

impl Element {
    /// The extent of the element along its layout, in pixels.
    pub open spec fn spec_size(self) -> int {
        match self {
            Element::Padding(p) => p as int,
            Element::Separator => 2,
            Element::LoadoutName => 48,
            Element::LoadoutLabels => 16,
            Element::Teams | Element::Players => 0,
            _ => ICON_SIZE as int,
        }
    }

    pub fn size(self) -> (size: u16)
        ensures
            size == self.spec_size(),
    {
        match self {
            Element::Padding(p) => p,
            Element::Separator => 2,
            Element::LoadoutName => 48,
            Element::LoadoutLabels => 16,
            Element::Teams | Element::Players => 0,
            _ => ICON_SIZE,
        }
    }

    /// The color of a separator; only separators have one.
    pub fn color(self) -> (color: Rgb)
        requires
            self == Element::Separator,
        ensures
            color == separator_color(),
    {
        (0x40, 0x50, 0x5d)
    }
}

/// The colors of the teams, by team number modulo 4.
pub open spec fn team_color_spec(i: int) -> Rgb {
    let k = i % 4;
    if k == 0 {
        (0x0du8, 0x9cu8, 0xd5u8)
    } else if k == 1 {
        (0xfau8, 0x32u8, 0xa9u8)
    } else if k == 2 {
        (0xecu8, 0x57u8, 0x18u8)
    } else {
        (0x9bu8, 0x43u8, 0xecu8)
    }
}

/// The color of team `i`.
pub fn team_color(i: usize) -> (color: Rgb)
    ensures
        color == team_color_spec(i as int),
{
    let k = i % 4;
    if k == 0 {
        (0x0d, 0x9c, 0xd5)
    } else if k == 1 {
        (0xfa, 0x32, 0xa9)
    } else if k == 2 {
        (0xec, 0x57, 0x18)
    } else {
        (0x9b, 0x43, 0xec)
    }
}

/// A loadout row, left to right.
pub open spec fn layout_loadout() -> Seq<Element> {
    seq![
        Element::Padding(20),
        Element::IconSpecial,
        Element::Padding(10),
        Element::Separator,
        Element::Padding(10),
        Element::IconWeapon,
        Element::Padding(10),
        Element::Separator,
        Element::Padding(10),
        Element::IconGadget(0),
        Element::Padding(10),
        Element::IconGadget(1),
        Element::Padding(10),
        Element::IconGadget(2),
        Element::Padding(20),
    ]
}

/// The whole picture, top to bottom.
pub open spec fn layout_main() -> Seq<Element> {
    seq![Element::Teams]
}

/// One team, top to bottom.
pub open spec fn layout_team() -> Seq<Element> {
    seq![Element::Padding(10), Element::Players, Element::Padding(10)]
}

/// One player, top to bottom.
pub open spec fn layout_player() -> Seq<Element> {
    seq![
        Element::Padding(10),
        Element::LoadoutName,
        Element::Padding(10),
        Element::Loadout,
        Element::LoadoutLabels,
        Element::Padding(10),
    ]
}

pub fn layout_loadout_elements() -> (v: Vec<Element>)
    ensures
        v@ == layout_loadout(),
{
    let v = vec![
        Element::Padding(20),
        Element::IconSpecial,
        Element::Padding(10),
        Element::Separator,
        Element::Padding(10),
        Element::IconWeapon,
        Element::Padding(10),
        Element::Separator,
        Element::Padding(10),
        Element::IconGadget(0),
        Element::Padding(10),
        Element::IconGadget(1),
        Element::Padding(10),
        Element::IconGadget(2),
        Element::Padding(20),
    ];
    assert(v@ =~= layout_loadout());
    v
}

pub fn layout_main_elements() -> (v: Vec<Element>)
    ensures
        v@ == layout_main(),
{
    let v = vec![Element::Teams];
    assert(v@ =~= layout_main());
    v
}

pub fn layout_team_elements() -> (v: Vec<Element>)
    ensures
        v@ == layout_team(),
{
    let v = vec![Element::Padding(10), Element::Players, Element::Padding(10)];
    assert(v@ =~= layout_team());
    v
}

pub fn layout_player_elements() -> (v: Vec<Element>)
    ensures
        v@ == layout_player(),
{
    let v = vec![
        Element::Padding(10),
        Element::LoadoutName,
        Element::Padding(10),
        Element::Loadout,
        Element::LoadoutLabels,
        Element::Padding(10),
    ];
    assert(v@ =~= layout_player());
    v
}

/// The total extent of a layout.
pub open spec fn sum_sizes(elems: Seq<Element>) -> int
    decreases elems.len(),
{
    if elems.len() == 0 {
        0
    } else {
        sum_sizes(elems.drop_last()) + elems.last().spec_size()
    }
}

/// The extents of the four layouts.
pub proof fn lemma_layout_sizes()
    ensures
        sum_sizes(layout_loadout()) == 744,
        sum_sizes(layout_main()) == 0,
        sum_sizes(layout_team()) == 20,
        sum_sizes(layout_player()) == 222,
{
    reveal_with_fuel(sum_sizes, 16);
    assert(layout_main().drop_last() =~= Seq::<Element>::empty());
    assert(layout_team().drop_last().drop_last().drop_last() =~= Seq::<Element>::empty());
    let p = layout_player();
    assert(p.drop_last().drop_last().drop_last().drop_last().drop_last().drop_last() =~= Seq::<Element>::empty());
    let l = layout_loadout();
    assert(l.drop_last().drop_last().drop_last().drop_last().drop_last().drop_last().drop_last().drop_last()
        .drop_last().drop_last().drop_last().drop_last().drop_last().drop_last().drop_last() =~= Seq::<Element>::empty());
}

/// Sums the sizes of the elements of `elems`.
fn sum_of_sizes(elems: &Vec<Element>) -> (sum: u32)
    requires
        sum_sizes(elems@) <= u32::MAX,
    ensures
        sum == sum_sizes(elems@),
{
    let mut sum: u32 = 0;
    let mut i: usize = 0;
    while i < elems.len()
        invariant
            i <= elems@.len(),
            sum == sum_sizes(elems@.take(i as int)),
            sum_sizes(elems@) <= u32::MAX,
        decreases elems@.len() - i,
    {
        proof {
            lemma_sum_sizes_step(elems@, i as int);
        }
        sum = sum + elems[i].size() as u32;
        i = i + 1;
    }
    assert(elems@.take(i as int) =~= elems@);
    sum
}

/// Adding the next element of a layout adds its size.
pub proof fn lemma_sum_sizes_step(elems: Seq<Element>, i: int)
    requires
        0 <= i < elems.len(),
    ensures
        sum_sizes(elems.take(i + 1)) == sum_sizes(elems.take(i)) + elems[i].spec_size(),
        0 <= elems[i].spec_size(),
        0 <= sum_sizes(elems.take(i)),
        sum_sizes(elems.take(i + 1)) <= sum_sizes(elems),
{
    assert(elems.take(i + 1).drop_last() =~= elems.take(i));
    assert(elems.take(i + 1).last() == elems[i]);
    lemma_sum_sizes_prefix(elems, i + 1);
    lemma_sum_sizes_prefix(elems, i);
}

/// A prefix of a layout is no larger than the layout.
pub proof fn lemma_sum_sizes_prefix(elems: Seq<Element>, n: int)
    requires
        0 <= n <= elems.len(),
    ensures
        0 <= sum_sizes(elems.take(n)) <= sum_sizes(elems),
    decreases elems.len(),
{
    if elems.len() > 0 {
        if n == elems.len() {
            assert(elems.take(n) =~= elems);
            lemma_sum_sizes_prefix(elems.drop_last(), n - 1);
            assert(elems.drop_last().take(n - 1) =~= elems.drop_last());
        } else {
            lemma_sum_sizes_prefix(elems.drop_last(), n);
            assert(elems.drop_last().take(n) =~= elems.take(n));
        }
    } else {
        assert(elems.take(n) =~= elems);
    }
}

/// The width of a loadout row.
pub fn calculate_width() -> (width: u16)
    ensures
        width == sum_sizes(layout_loadout()),
        width == W,
{
    proof {
        lemma_layout_sizes();
    }
    let elems = layout_loadout_elements();
    let sum = sum_of_sizes(&elems);
    sum as u16
}

/// The height of a team of `players` players (the count is taken modulo
/// 2^16, as a `u16`).
pub open spec fn team_height(players: int) -> int {
    20 + 222 * (players % 65536)
}

/// The height of the picture of `teams` teams with `players` players in all
/// (both counts taken modulo 2^16, as `u16`s).
pub open spec fn picture_height(teams: int, players: int) -> int {
    20 * (teams % 65536) + 222 * (players % 65536)
}

/// Truncates to 16 bits.
fn to_u16(n: usize) -> (t: u16)
    ensures
        t == n % 65536,
{
    assert((n as u16) == n % 65536) by (bit_vector);
    n as u16
}

/// The height of a team with `players` players.
pub fn calculate_height_team(players: usize) -> (height: u16)
    requires
        team_height(players as int) <= u16::MAX,
    ensures
        height == team_height(players as int),
{
    proof {
        lemma_layout_sizes();
    }
    let p = to_u16(players);
    let team = layout_team_elements();
    let player = layout_player_elements();
    let mut sum: u16 = 0;
    let mut i: usize = 0;
    while i < team.len()
        invariant
            team@ == layout_team(),
            i <= team@.len(),
            sum == sum_sizes(team@.take(i as int)),
        decreases team@.len() - i,
    {
        proof {
            lemma_layout_sizes();
            lemma_sum_sizes_step(team@, i as int);
        }
        sum = sum + team[i].size();
        i = i + 1;
    }
    assert(team@.take(3) =~= team@);
    let mut j: usize = 0;
    while j < player.len()
        invariant
            player@ == layout_player(),
            j <= player@.len(),
            sum == 20 + sum_sizes(player@.take(j as int)) * p,
            20 + 222 * p <= u16::MAX,
        decreases player@.len() - j,
    {
        proof {
            lemma_layout_sizes();
            lemma_sum_sizes_step(player@, j as int);
            let a = sum_sizes(player@.take(j as int));
            let s = player@[j as int].spec_size();
            assert(a + s <= 222);
            assert((a + s) * p <= 222 * p) by (nonlinear_arith)
                requires
                    a + s <= 222,
                    p >= 0,
            ;
            assert((a + s) * p == a * p + s * p) by (nonlinear_arith);
            assert(0 <= s * p) by (nonlinear_arith)
                requires
                    s >= 0,
                    p >= 0,
            ;
        }
        sum = sum + player[j].size() * p;
        j = j + 1;
    }
    assert(player@.take(6) =~= player@);
    sum
}

/// The height of the picture of `teams` teams with `players` players in all.
pub fn calculate_height(teams: usize, players: usize) -> (height: u16)
    requires
        picture_height(teams as int, players as int) <= u16::MAX,
    ensures
        height == picture_height(teams as int, players as int),
{
    proof {
        lemma_layout_sizes();
    }
    let t = to_u16(teams);
    let p = to_u16(players);
    let main = layout_main_elements();
    let team = layout_team_elements();
    let player = layout_player_elements();
    let mut sum: u16 = 0;
    let mut i: usize = 0;
    while i < main.len()
        invariant
            main@ == layout_main(),
            i <= main@.len(),
            sum == sum_sizes(main@.take(i as int)),
        decreases main@.len() - i,
    {
        proof {
            lemma_layout_sizes();
            lemma_sum_sizes_step(main@, i as int);
        }
        sum = sum + main[i].size();
        i = i + 1;
    }
    assert(main@.take(1) =~= main@);
    let mut k: usize = 0;
    while k < team.len()
        invariant
            team@ == layout_team(),
            k <= team@.len(),
            sum == sum_sizes(team@.take(k as int)) * t,
            20 * t + 222 * p <= u16::MAX,
        decreases team@.len() - k,
    {
        proof {
            lemma_layout_sizes();
            lemma_sum_sizes_step(team@, k as int);
            let a = sum_sizes(team@.take(k as int));
            let s = team@[k as int].spec_size();
            assert((a + s) * t <= 20 * t) by (nonlinear_arith)
                requires
                    a + s <= 20,
                    t >= 0,
            ;
            assert((a + s) * t == a * t + s * t) by (nonlinear_arith);
            assert(0 <= s * t) by (nonlinear_arith)
                requires
                    s >= 0,
                    t >= 0,
            ;
        }
        sum = sum + team[k].size() * t;
        k = k + 1;
    }
    assert(team@.take(3) =~= team@);
    let mut j: usize = 0;
    while j < player.len()
        invariant
            player@ == layout_player(),
            j <= player@.len(),
            sum == 20 * t + sum_sizes(player@.take(j as int)) * p,
            20 * t + 222 * p <= u16::MAX,
            t >= 0,
        decreases player@.len() - j,
    {
        proof {
            lemma_layout_sizes();
            lemma_sum_sizes_step(player@, j as int);
            let a = sum_sizes(player@.take(j as int));
            let s = player@[j as int].spec_size();
            assert((a + s) * p <= 222 * p) by (nonlinear_arith)
                requires
                    a + s <= 222,
                    p >= 0,
            ;
            assert((a + s) * p == a * p + s * p) by (nonlinear_arith);
            assert(0 <= s * p) by (nonlinear_arith)
                requires
                    s >= 0,
                    p >= 0,
            ;
        }
        sum = sum + player[j].size() * p;
        j = j + 1;
    }
    assert(player@.take(6) =~= player@);
    sum
}


/// One thing to draw, in pixels from the top left corner of the picture.
#[derive(Clone, Copy, Debug)]
pub enum DrawOp<'a> {
    /// A filled rectangle.
    Rect { x: u32, y: u32, w: u32, h: u32, color: Rgb },
    /// A registered image scaled to the rectangle.
    Image { image: u32, x: u32, y: u32, w: u32, h: u32 },
    /// White text of `size` pixels whose top line is at `y`.
    Text { x: u32, y: u32, size: u32, text: &'a str },
}

/// Where the next element goes.
#[derive(Clone, Copy, Debug)]
pub struct Cursor {
    pub x: u32,
    pub y: u32,
}

/// What an element of a loadout row draws at `(x, y)`: a separator bar or an
/// item icon, as wide as the element and as high as an icon.
pub open spec fn icon_ops<'a>(e: Element, x: int, y: int, l: Loadout<'a>) -> Seq<DrawOp<'a>> {
    let w = e.spec_size() as u32;
    let h = ICON_SIZE as u32;
    match e {
        Element::Separator => seq![DrawOp::Rect { x: x as u32, y: y as u32, w, h, color: separator_color() }],
        Element::IconSpecial => seq![DrawOp::Image { image: l.special.image, x: x as u32, y: y as u32, w, h }],
        Element::IconWeapon => seq![DrawOp::Image { image: l.weapon.image, x: x as u32, y: y as u32, w, h }],
        Element::IconGadget(i) => seq![
            DrawOp::Image { image: l.gadgets@[i as int].image, x: x as u32, y: y as u32, w, h },
        ],
        _ => Seq::empty(),
    }
}

/// What an element of the label row draws at `(x, y)`: a separator bar, or a
/// bar with the item's name on it, 16 pixels high.
pub open spec fn label_ops<'a>(e: Element, x: int, y: int, l: Loadout<'a>) -> Seq<DrawOp<'a>> {
    let w = e.spec_size() as u32;
    let bar = DrawOp::Rect { x: x as u32, y: y as u32, w, h: 16, color: separator_color() };
    match e {
        Element::Separator => seq![bar],
        Element::IconSpecial => seq![bar, DrawOp::Text { x: x as u32, y: y as u32, size: 16, text: l.special.name }],
        Element::IconWeapon => seq![bar, DrawOp::Text { x: x as u32, y: y as u32, size: 16, text: l.weapon.name }],
        Element::IconGadget(i) => seq![
            bar,
            DrawOp::Text { x: x as u32, y: y as u32, size: 16, text: l.gadgets@[i as int].name },
        ],
        _ => Seq::empty(),
    }
}

/// The elements of a row, left to right from `x`: the icons, or with
/// `labels` the name bars under them.
pub open spec fn row_ops<'a>(elems: Seq<Element>, x: int, y: int, l: Loadout<'a>, labels: bool) -> Seq<DrawOp<'a>>
    decreases elems.len(),
{
    if elems.len() == 0 {
        Seq::empty()
    } else {
        let first = if labels {
            label_ops(elems[0], x, y, l)
        } else {
            icon_ops(elems[0], x, y, l)
        };
        first + row_ops(elems.drop_first(), x + elems[0].spec_size(), y, l, labels)
    }
}

/// What an element of a player's block draws at `(x, y)`.
pub open spec fn player_elem_ops<'a>(e: Element, x: int, y: int, l: Loadout<'a>) -> Seq<DrawOp<'a>> {
    match e {
        Element::LoadoutName => seq![DrawOp::Text { x: (x + 20) as u32, y: y as u32, size: 48, text: l.name }],
        Element::Loadout => row_ops(layout_loadout(), x, y, l, false),
        Element::LoadoutLabels => row_ops(layout_loadout(), x, y, l, true),
        _ => Seq::empty(),
    }
}

/// The elements of a player's block, top to bottom from `y`.
pub open spec fn player_ops_from<'a>(elems: Seq<Element>, x: int, y: int, l: Loadout<'a>) -> Seq<DrawOp<'a>>
    decreases elems.len(),
{
    if elems.len() == 0 {
        Seq::empty()
    } else {
        player_elem_ops(elems[0], x, y, l) + player_ops_from(elems.drop_first(), x, y + elems[0].spec_size(), l)
    }
}

/// The height of a player's block.
pub open spec fn player_extent() -> int {
    222
}

/// The blocks of the players `ls`, one below the other from `y`.
pub open spec fn players_ops<'a>(ls: Seq<Loadout<'a>>, x: int, y: int) -> Seq<DrawOp<'a>>
    decreases ls.len(),
{
    if ls.len() == 0 {
        Seq::empty()
    } else {
        player_ops_from(layout_player(), x, y, ls[0]) + players_ops(ls.drop_first(), x, y + player_extent())
    }
}

/// How far an element of a team's block moves down: its size, and the
/// players' blocks for the players element.
pub open spec fn team_elem_extent(e: Element, players: int) -> int {
    e.spec_size() + if e == Element::Players {
        player_extent() * players
    } else {
        0
    }
}

/// The elements of a team's block, top to bottom from `y`.
pub open spec fn team_ops_from<'a>(elems: Seq<Element>, x: int, y: int, ls: Seq<Loadout<'a>>) -> Seq<DrawOp<'a>>
    decreases elems.len(),
{
    if elems.len() == 0 {
        Seq::empty()
    } else {
        let first = if elems[0] == Element::Players {
            players_ops(ls, x, y)
        } else {
            Seq::empty()
        };
        first + team_ops_from(elems.drop_first(), x, y + team_elem_extent(elems[0], ls.len() as int), ls)
    }
}

/// The height of a team's block with `players` players.
pub open spec fn team_extent(players: int) -> int {
    20 + player_extent() * players
}

/// A team's block at `y`: its background in the team's color across the whole
/// width, then its players.
pub open spec fn team_ops<'a>(x: int, y: int, ls: Seq<Loadout<'a>>, i: int) -> Seq<DrawOp<'a>> {
    seq![
        DrawOp::Rect {
            x: 0,
            y: y as u32,
            w: W as u32,
            h: team_extent(ls.len() as int) as u32,
            color: team_color_spec(i),
        },
    ] + team_ops_from(layout_team(), x, y, ls)
}

/// The sizes of `teams` teams over `players` players: the first
/// `players % teams` have one player more.
pub open spec fn team_sizes(players: int, teams: int) -> Seq<int> {
    Seq::new(
        teams as nat,
        |k: int|
            if k < players % teams {
                players / teams + 1
            } else {
                players / teams
            },
    )
}

/// The teams' blocks one below the other from `y`, team `i` first, the
/// players taken in order.
pub open spec fn teams_ops<'a>(ls: Seq<Loadout<'a>>, sizes: Seq<int>, i: int, x: int, y: int) -> Seq<DrawOp<'a>>
    decreases sizes.len(),
{
    if sizes.len() == 0 {
        Seq::empty()
    } else {
        team_ops(x, y, ls.take(sizes[0]), i) + teams_ops(
            ls.skip(sizes[0]),
            sizes.drop_first(),
            i + 1,
            x,
            y + team_extent(sizes[0]),
        )
    }
}

/// The height of the teams' blocks.
pub open spec fn teams_extent(sizes: Seq<int>) -> int
    decreases sizes.len(),
{
    if sizes.len() == 0 {
        0
    } else {
        team_extent(sizes[0]) + teams_extent(sizes.drop_first())
    }
}

/// Everything drawn for the players `ls` in `teams` teams, from the top left.
pub open spec fn picture_ops<'a>(ls: Seq<Loadout<'a>>, teams: int) -> Seq<DrawOp<'a>> {
    teams_ops(ls, team_sizes(ls.len() as int, teams), 0, 0, 0)
}

/// The gadget elements of the loadout row name the three gadgets.
pub proof fn lemma_layout_loadout_gadgets()
    ensures
        forall|i: int|
            0 <= i < layout_loadout().len() ==> (#[trigger] layout_loadout()[i] matches Element::IconGadget(g)
                ==> g < 3),
        forall|i: int| 0 <= i < layout_loadout().len() ==> 0 <= (#[trigger] layout_loadout()[i]).spec_size() <= 128,
{
}

/// The items of a loadout: specialization, weapon and the three gadgets.
pub open spec fn loadout_items(l: Loadout) -> Seq<Item> {
    seq![l.special, l.weapon, l.gadgets@[0], l.gadgets@[1], l.gadgets@[2]]
}

/// An icon `op` is labelled in `labels`: at the icon's x, at height `y`, a
/// 16 pixel text names an item of `l` whose image is the icon's image.
pub open spec fn labelled_below<'a>(op: DrawOp<'a>, labels: Seq<DrawOp<'a>>, y: int, l: Loadout<'a>) -> bool {
    match op {
        DrawOp::Image { image, x, .. } => exists|b: int, k: int|
            0 <= b < labels.len() && 0 <= k < 5 && #[trigger] labels[b] == (DrawOp::Text {
                x,
                y: y as u32,
                size: 16,
                text: loadout_items(l)[k].name,
            }) && #[trigger] loadout_items(l)[k].image == image,
        _ => true,
    }
}

/// Every icon of a row is labelled in the label row drawn from the same x:
/// the text at the icon's x names the very item whose image the icon shows.
pub proof fn lemma_labels_name_icons<'a>(elems: Seq<Element>, x: int, y: int, y2: int, l: Loadout<'a>)
    requires
        forall|i: int| 0 <= i < elems.len() ==> (#[trigger] elems[i] matches Element::IconGadget(g) ==> g < 3),
    ensures
        forall|a: int|
            0 <= a < row_ops(elems, x, y, l, false).len() ==> #[trigger] labelled_below(
                row_ops(elems, x, y, l, false)[a],
                row_ops(elems, x, y2, l, true),
                y2,
                l,
            ),
    decreases elems.len(),
{
    if elems.len() > 0 {
        let e0 = elems[0];
        let rest = elems.drop_first();
        let x1 = x + e0.spec_size();
        assert forall|i: int| 0 <= i < rest.len() implies (#[trigger] rest[i] matches Element::IconGadget(g) ==> g < 3) by {
            assert(rest[i] == elems[i + 1]);
        }
        lemma_labels_name_icons(rest, x1, y, y2, l);
        let icons = row_ops(elems, x, y, l, false);
        let labels = row_ops(elems, x, y2, l, true);
        let fi = icon_ops(e0, x, y, l);
        let fl = label_ops(e0, x, y2, l);
        let ri = row_ops(rest, x1, y, l, false);
        let rl = row_ops(rest, x1, y2, l, true);
        assert(icons == fi + ri);
        assert(labels == fl + rl);
        assert forall|a: int| 0 <= a < icons.len() implies #[trigger] labelled_below(icons[a], labels, y2, l) by {
            if a < fi.len() {
                assert(icons[a] == fi[a]);
                match e0 {
                    Element::IconSpecial => {
                        assert(labels[1] == fl[1]);
                        assert(loadout_items(l)[0] == l.special);
                    },
                    Element::IconWeapon => {
                        assert(labels[1] == fl[1]);
                        assert(loadout_items(l)[1] == l.weapon);
                    },
                    Element::IconGadget(g) => {
                        assert(labels[1] == fl[1]);
                        assert(loadout_items(l)[2 + g] == l.gadgets@[g as int]);
                    },
                    _ => {},
                }
            } else {
                let a2 = a - fi.len();
                assert(icons[a] == ri[a2]);
                assert(labelled_below(ri[a2], rl, y2, l));
                match ri[a2] {
                    DrawOp::Image { image, x: ix, .. } => {
                        let (b2, k) = choose|b2: int, k: int|
                            0 <= b2 < rl.len() && 0 <= k < 5 && #[trigger] rl[b2] == (DrawOp::Text {
                                x: ix,
                                y: y2 as u32,
                                size: 16,
                                text: loadout_items(l)[k].name,
                            }) && #[trigger] loadout_items(l)[k].image == image;
                        assert(labels[fl.len() + b2] == rl[b2]);
                    },
                    _ => {},
                }
            }
        }
    }
}

/// In a player's block, every icon of the loadout row is labelled by the
/// label row under it with the name of the item it shows.
pub proof fn lemma_player_labels<'a>(x: int, y: int, y2: int, l: Loadout<'a>)
    ensures
        forall|a: int|
            0 <= a < player_elem_ops(Element::Loadout, x, y, l).len() ==> #[trigger] labelled_below(
                player_elem_ops(Element::Loadout, x, y, l)[a],
                player_elem_ops(Element::LoadoutLabels, x, y2, l),
                y2,
                l,
            ),
{
    lemma_layout_loadout_gadgets();
    lemma_labels_name_icons(layout_loadout(), x, y, y2, l);
}

/// Draws one loadout row of icons at the cursor, which moves right by the
/// row's width.
fn draw_loadout<'a>(cursor: &mut Cursor, loadout: &Loadout<'a>, ops: &mut Vec<DrawOp<'a>>)
    requires
        old(cursor).x + 744 <= u32::MAX,
    ensures
        final(ops)@ == old(ops)@ + row_ops(layout_loadout(), old(cursor).x as int, old(cursor).y as int, *loadout, false),
        final(cursor).x == old(cursor).x + 744,
        final(cursor).y == old(cursor).y,
{
    draw_row(cursor, loadout, ops, false)
}

/// Draws the row of item names under the icons at the cursor, which moves
/// right by the row's width.
fn draw_loadout_labels<'a>(cursor: &mut Cursor, loadout: &Loadout<'a>, ops: &mut Vec<DrawOp<'a>>)
    requires
        old(cursor).x + 744 <= u32::MAX,
    ensures
        final(ops)@ == old(ops)@ + row_ops(layout_loadout(), old(cursor).x as int, old(cursor).y as int, *loadout, true),
        final(cursor).x == old(cursor).x + 744,
        final(cursor).y == old(cursor).y,
{
    draw_row(cursor, loadout, ops, true)
}

/// Draws a loadout row, the icons or their labels, at the cursor, which
/// moves right by the row's width.
fn draw_row<'a>(cursor: &mut Cursor, loadout: &Loadout<'a>, ops: &mut Vec<DrawOp<'a>>, labels: bool)
    requires
        old(cursor).x + 744 <= u32::MAX,
    ensures
        final(ops)@ == old(ops)@ + row_ops(layout_loadout(), old(cursor).x as int, old(cursor).y as int, *loadout, labels),
        final(cursor).x == old(cursor).x + 744,
        final(cursor).y == old(cursor).y,
{
    proof {
        lemma_layout_sizes();
        lemma_layout_loadout_gadgets();
    }
    let elems = layout_loadout_elements();
    let ghost x0 = cursor.x as int;
    let ghost y0 = cursor.y as int;
    let ghost ops0 = ops@;
    assert(elems@.skip(0) =~= elems@);
    let mut i: usize = 0;
    while i < elems.len()
        invariant
            elems@ == layout_loadout(),
            sum_sizes(layout_loadout()) == 744,
            forall|k: int|
                0 <= k < layout_loadout().len() ==> (#[trigger] layout_loadout()[k] matches Element::IconGadget(g)
                    ==> g < 3),
            i <= elems@.len(),
            x0 + 744 <= u32::MAX,
            cursor.y == y0,
            cursor.x == x0 + sum_sizes(elems@.take(i as int)),
            ops0 + row_ops(elems@, x0, y0, *loadout, labels) == ops@ + row_ops(
                elems@.skip(i as int),
                cursor.x as int,
                y0,
                *loadout,
                labels,
            ),
        decreases elems@.len() - i,
    {
        proof {
            lemma_sum_sizes_step(elems@, i as int);
        }
        let elem = elems[i];
        let width = elem.size();
        let ghost rest = elems@.skip(i as int);
        assert(rest.drop_first() =~= elems@.skip(i + 1));
        assert(rest[0] == elem);
        let ghost before = ops@;
        if labels {
            match elem {
                Element::Separator => {
                    ops.push(DrawOp::Rect { x: cursor.x, y: cursor.y, w: width as u32, h: 16, color: elem.color() });
                },
                Element::IconSpecial => {
                    ops.push(DrawOp::Rect { x: cursor.x, y: cursor.y, w: width as u32, h: 16, color: Element::Separator.color() });
                    ops.push(DrawOp::Text { x: cursor.x, y: cursor.y, size: 16, text: loadout.special.name });
                },
                Element::IconWeapon => {
                    ops.push(DrawOp::Rect { x: cursor.x, y: cursor.y, w: width as u32, h: 16, color: Element::Separator.color() });
                    ops.push(DrawOp::Text { x: cursor.x, y: cursor.y, size: 16, text: loadout.weapon.name });
                },
                Element::IconGadget(g) => {
                    ops.push(DrawOp::Rect { x: cursor.x, y: cursor.y, w: width as u32, h: 16, color: Element::Separator.color() });
                    ops.push(DrawOp::Text { x: cursor.x, y: cursor.y, size: 16, text: loadout.gadgets[g as usize].name });
                },
                _ => {},
            }
        } else {
            let height = ICON_SIZE as u32;
            match elem {
                Element::Separator => {
                    ops.push(DrawOp::Rect { x: cursor.x, y: cursor.y, w: width as u32, h: height, color: elem.color() });
                },
                Element::IconSpecial => {
                    ops.push(DrawOp::Image { image: loadout.special.image, x: cursor.x, y: cursor.y, w: width as u32, h: height });
                },
                Element::IconWeapon => {
                    ops.push(DrawOp::Image { image: loadout.weapon.image, x: cursor.x, y: cursor.y, w: width as u32, h: height });
                },
                Element::IconGadget(g) => {
                    ops.push(DrawOp::Image { image: loadout.gadgets[g as usize].image, x: cursor.x, y: cursor.y, w: width as u32, h: height });
                },
                _ => {},
            }
        }
        let ghost drawn = if labels {
            label_ops(elem, cursor.x as int, y0, *loadout)
        } else {
            icon_ops(elem, cursor.x as int, y0, *loadout)
        };
        assert(ops@ =~= before + drawn);
        assert(before + row_ops(rest, cursor.x as int, y0, *loadout, labels) =~= ops@ + row_ops(
            elems@.skip(i + 1),
            cursor.x + width,
            y0,
            *loadout,
            labels,
        ));
        cursor.x = cursor.x + width as u32;
        i = i + 1;
    }
    assert(elems@.take(15) =~= elems@);
    assert(elems@.skip(15) =~= Seq::<Element>::empty());
    assert(ops@ + row_ops(elems@.skip(15), cursor.x as int, y0, *loadout, labels) =~= ops@);
}

/// Draws one player's block at the cursor: the name, the icons and their
/// labels. The cursor moves down by the block's height.
fn draw_player<'a>(cursor: &mut Cursor, loadout: &Loadout<'a>, ops: &mut Vec<DrawOp<'a>>)
    requires
        old(cursor).x + 764 <= u32::MAX,
        old(cursor).y + player_extent() <= u32::MAX,
    ensures
        final(ops)@ == old(ops)@ + player_ops_from(layout_player(), old(cursor).x as int, old(cursor).y as int, *loadout),
        final(cursor).x == old(cursor).x,
        final(cursor).y == old(cursor).y + player_extent(),
{
    proof {
        lemma_layout_sizes();
    }
    let elems = layout_player_elements();
    let x = cursor.x;
    let ghost y0 = cursor.y as int;
    let ghost ops0 = ops@;
    assert(elems@.skip(0) =~= elems@);
    let mut i: usize = 0;
    while i < elems.len()
        invariant
            elems@ == layout_player(),
            sum_sizes(layout_player()) == 222,
            i <= elems@.len(),
            x + 764 <= u32::MAX,
            y0 + 222 <= u32::MAX,
            cursor.x == x,
            cursor.y == y0 + sum_sizes(elems@.take(i as int)),
            ops0 + player_ops_from(elems@, x as int, y0, *loadout) == ops@ + player_ops_from(
                elems@.skip(i as int),
                x as int,
                cursor.y as int,
                *loadout,
            ),
        decreases elems@.len() - i,
    {
        proof {
            lemma_sum_sizes_step(elems@, i as int);
        }
        let elem = elems[i];
        let height = elem.size();
        let ghost rest = elems@.skip(i as int);
        assert(rest.drop_first() =~= elems@.skip(i + 1));
        assert(rest[0] == elem);
        let ghost before = ops@;
        let ghost y = cursor.y as int;
        match elem {
            Element::LoadoutName => {
                cursor.x = cursor.x + 20;
                ops.push(DrawOp::Text { x: cursor.x, y: cursor.y, size: 48, text: loadout.name });
                cursor.x = x;
            },
            Element::Loadout => {
                draw_loadout(cursor, loadout, ops);
                cursor.x = x;
            },
            Element::LoadoutLabels => {
                draw_loadout_labels(cursor, loadout, ops);
                cursor.x = x;
            },
            _ => {},
        }
        assert(ops@ =~= before + player_elem_ops(elem, x as int, y, *loadout));
        assert(before + player_ops_from(rest, x as int, y, *loadout) =~= ops@ + player_ops_from(
            elems@.skip(i + 1),
            x as int,
            y + height,
            *loadout,
        ));
        cursor.y = cursor.y + height as u32;
        i = i + 1;
    }
    assert(elems@.take(6) =~= elems@);
    assert(elems@.skip(6) =~= Seq::<Element>::empty());
    assert(ops@ + player_ops_from(elems@.skip(6), x as int, cursor.y as int, *loadout) =~= ops@);
}

/// How far the first elements of a team's block move down.
pub open spec fn team_elems_extent(elems: Seq<Element>, players: int) -> int
    decreases elems.len(),
{
    if elems.len() == 0 {
        0
    } else {
        team_elems_extent(elems.drop_last(), players) + team_elem_extent(elems.last(), players)
    }
}

/// A team's block is as high as `team_extent` says.
pub proof fn lemma_team_layout_extent(players: int)
    requires
        players >= 0,
    ensures
        team_elems_extent(layout_team().take(0), players) == 0,
        team_elems_extent(layout_team().take(1), players) == 10,
        team_elems_extent(layout_team().take(2), players) == 10 + player_extent() * players,
        team_elems_extent(layout_team().take(3), players) == team_extent(players),
        layout_team()[0] == Element::Padding(10),
        layout_team()[1] == Element::Players,
        layout_team()[2] == Element::Padding(10),
{
    let t = layout_team();
    assert(t.take(0) =~= Seq::<Element>::empty());
    assert(t.take(1).drop_last() =~= t.take(0));
    assert(t.take(1).last() == Element::Padding(10));
    assert(team_elem_extent(Element::Padding(10), players) == 10);
    assert(team_elems_extent(t.take(0), players) == 0);
    assert(team_elems_extent(t.take(1), players) == team_elems_extent(t.take(1).drop_last(), players) + team_elem_extent(t.take(1).last(), players));
    assert(team_elems_extent(t.take(1), players) == 10);
    assert(t.take(2).drop_last() =~= t.take(1));
    assert(t.take(2).last() == Element::Players);
    assert(t.take(3).last() == Element::Padding(10));
    assert(team_elems_extent(t.take(2), players) == 10 + player_extent() * players);
    assert(team_elems_extent(t.take(3), players) == team_elems_extent(t.take(3).drop_last(), players) + team_elem_extent(t.take(3).last(), players));
    assert(t.take(3).drop_last() =~= t.take(2));
}

/// Draws one team's block at the cursor: the background, then every player.
/// The cursor moves down by the block's height.
fn draw_team<'a>(cursor: &mut Cursor, loadouts: &[Loadout<'a>], i: usize, ops: &mut Vec<DrawOp<'a>>)
    requires
        old(cursor).x + 764 <= u32::MAX,
        team_extent(loadouts@.len() as int) <= u16::MAX,
        old(cursor).y + team_extent(loadouts@.len() as int) <= u32::MAX,
    ensures
        final(ops)@ == old(ops)@ + team_ops(old(cursor).x as int, old(cursor).y as int, loadouts@, i as int),
        final(cursor).x == old(cursor).x,
        final(cursor).y == old(cursor).y + team_extent(loadouts@.len() as int),
{
    let n = loadouts.len();
    let ghost ls = loadouts@;
    let ghost x0 = cursor.x as int;
    let ghost y0 = cursor.y as int;
    let ghost ops0 = ops@;
    let team_height = calculate_height_team(n);
    ops.push(DrawOp::Rect { x: 0, y: cursor.y, w: W as u32, h: team_height as u32, color: team_color(i) });
    let ghost ops1 = ops@;
    proof {
        lemma_team_layout_extent(n as int);
    }
    let elems = layout_team_elements();
    assert(elems@.skip(0) =~= elems@);
    let mut k: usize = 0;
    while k < elems.len()
        invariant
            elems@ == layout_team(),
            ls == loadouts@,
            n == ls.len(),
            k <= elems@.len(),
            x0 + 764 <= u32::MAX,
            y0 + team_extent(n as int) <= u32::MAX,
            cursor.x == x0,
            team_elems_extent(layout_team().take(0), n as int) == 0,
            team_elems_extent(layout_team().take(1), n as int) == 10,
            team_elems_extent(layout_team().take(2), n as int) == 10 + player_extent() * n,
            team_elems_extent(layout_team().take(3), n as int) == team_extent(n as int),
            layout_team()[0] == Element::Padding(10),
            layout_team()[1] == Element::Players,
            layout_team()[2] == Element::Padding(10),
            cursor.y == y0 + team_elems_extent(elems@.take(k as int), n as int),
            ops1 + team_ops_from(elems@, x0, y0, ls) == ops@ + team_ops_from(
                elems@.skip(k as int),
                x0,
                cursor.y as int,
                ls,
            ),
        decreases elems@.len() - k,
    {
        let elem = elems[k];
        let height = elem.size();
        let ghost rest = elems@.skip(k as int);
        assert(rest.drop_first() =~= elems@.skip(k + 1));
        assert(rest[0] == elem);
        let ghost before = ops@;
        let ghost y = cursor.y as int;
        if let Element::Players = elem {
            assert(k == 1);
            assert(ls.skip(0) =~= ls);
            let mut j: usize = 0;
            while j < n
                invariant
                    ls == loadouts@,
                    n == ls.len(),
                    j <= n,
                    x0 + 764 <= u32::MAX,
                    cursor.x == x0,
                    cursor.y == y + player_extent() * j,
                    y + player_extent() * n <= u32::MAX,
                    before + players_ops(ls, x0, y) == ops@ + players_ops(ls.skip(j as int), x0, cursor.y as int),
                decreases n - j,
            {
                assert(ls.skip(j as int).drop_first() =~= ls.skip(j + 1));
                assert(player_extent() * j + player_extent() <= player_extent() * n) by (nonlinear_arith)
                    requires
                        j < n,
                ;
                let ghost before_player = ops@;
                draw_player(cursor, &loadouts[j], ops);
                assert(before_player + players_ops(ls.skip(j as int), x0, cursor.y - player_extent()) =~= ops@
                    + players_ops(ls.skip(j + 1), x0, cursor.y as int));
                j = j + 1;
            }
            assert(ls.skip(n as int) =~= Seq::<Loadout>::empty());
            assert(ops@ + players_ops(ls.skip(n as int), x0, cursor.y as int) =~= ops@);
        }
        assert(team_elems_extent(elems@.take(k + 1), n as int) == team_elems_extent(elems@.take(k as int), n as int)
            + team_elem_extent(elem, n as int)) by {
            assert(elems@.take(k + 1).drop_last() =~= elems@.take(k as int));
        }
        assert(before + team_ops_from(rest, x0, y, ls) =~= ops@ + team_ops_from(
            elems@.skip(k + 1),
            x0,
            y + team_elem_extent(elem, n as int),
            ls,
        ));
        cursor.y = cursor.y + height as u32;
        k = k + 1;
    }
    assert(elems@.take(3) =~= elems@);
    assert(elems@.skip(3) =~= Seq::<Element>::empty());
    assert(ops@ + team_ops_from(elems@.skip(3), x0, cursor.y as int, ls) =~= ops@);
    assert(ops@ =~= ops0 + team_ops(x0, y0, ls, i as int));
}

/// The number of players over all the given team sizes.
pub open spec fn size_total(sizes: Seq<int>) -> int
    decreases sizes.len(),
{
    if sizes.len() == 0 {
        0
    } else {
        sizes[0] + size_total(sizes.drop_first())
    }
}

/// The teams' blocks are 20 pixels per team plus a player's block per player.
pub proof fn lemma_teams_extent(sizes: Seq<int>)
    ensures
        teams_extent(sizes) == 20 * sizes.len() + player_extent() * size_total(sizes),
    decreases sizes.len(),
{
    if sizes.len() > 0 {
        lemma_teams_extent(sizes.drop_first());
    }
}

/// The players left for the teams from the `k`-th on.
pub proof fn lemma_team_sizes_rest(players: int, teams: int, k: int)
    requires
        0 <= players,
        1 <= teams,
        0 <= k <= teams,
    ensures
        size_total(team_sizes(players, teams).skip(k)) == if k < players % teams {
            (players % teams - k) * (players / teams + 1) + (teams - players % teams) * (players / teams)
        } else {
            (teams - k) * (players / teams)
        },
    decreases teams - k,
{
    let sizes = team_sizes(players, teams);
    let q = players / teams;
    let r = players % teams;
    if k == teams {
        assert(sizes.skip(k) =~= Seq::<int>::empty());
    } else {
        lemma_team_sizes_rest(players, teams, k + 1);
        assert(sizes.skip(k).drop_first() =~= sizes.skip(k + 1));
        if k < r {
            if k + 1 < r {
                assert((r - k) * (q + 1) == (q + 1) + (r - (k + 1)) * (q + 1)) by (nonlinear_arith);
            } else {
                assert((r - k) * (q + 1) == (q + 1)) by (nonlinear_arith)
                    requires
                        k + 1 == r,
                ;
            }
        } else {
            assert((teams - k) * q == q + (teams - (k + 1)) * q) by (nonlinear_arith);
        }
    }
}

/// All teams together hold every player, and the teams' blocks are exactly as
/// high as `calculate_height` says when the counts fit in 16 bits.
pub proof fn lemma_picture_extent(players: int, teams: int)
    requires
        0 <= players < 65536,
        1 <= teams < 65536,
    ensures
        size_total(team_sizes(players, teams)) == players,
        teams_extent(team_sizes(players, teams)) == picture_height(teams, players),
        teams_extent(team_sizes(players, teams)) == 20 * teams + player_extent() * players,
{
    lemma_team_sizes_rest(players, teams, 0);
    crate::teams::lemma_team_sizes(players, teams);
    let sizes = team_sizes(players, teams);
    assert(sizes.skip(0) =~= sizes);
    let q = players / teams;
    let r = players % teams;
    assert(q * (teams - r) + (q + 1) * r == players);
    if 0 < r {
        assert(size_total(sizes) == (r - 0) * (q + 1) + (teams - r) * q);
        assert((r - 0) * (q + 1) == (q + 1) * r) by (nonlinear_arith);
        assert((teams - r) * q == q * (teams - r)) by (nonlinear_arith);
    } else {
        assert(size_total(sizes) == (teams - 0) * q);
        assert(r == 0);
        assert((teams - 0) * q == q * (teams - r)) by (nonlinear_arith)
            requires
                r == 0,
        ;
        assert((q + 1) * r == 0) by (nonlinear_arith)
            requires
                r == 0,
        ;
    }
    assert(size_total(sizes) == players);
    assert(teams % 65536 == teams);
    assert(players % 65536 == players);
    lemma_teams_extent(team_sizes(players, teams));
}

/// Draws the teams' blocks one below the other at the cursor, the larger
/// teams first, taking the players in order.
fn draw_main<'a>(cursor: &mut Cursor, loadouts: &[Loadout<'a>], teams: usize, ops: &mut Vec<DrawOp<'a>>)
    requires
        teams >= 1,
        old(cursor).x + 764 <= u32::MAX,
        20 * teams + player_extent() * loadouts@.len() <= u16::MAX,
        old(cursor).y + 20 * teams + player_extent() * loadouts@.len() <= u32::MAX,
    ensures
        final(ops)@ == old(ops)@ + teams_ops(
            loadouts@,
            team_sizes(loadouts@.len() as int, teams as int),
            0,
            old(cursor).x as int,
            old(cursor).y as int,
        ),
        final(cursor).x == old(cursor).x,
        final(cursor).y == old(cursor).y + 20 * teams + player_extent() * loadouts@.len(),
{
    let players = loadouts.len();
    let normal_team_players = players / teams;
    let large_team_players = normal_team_players + 1;
    let large_teams = players % teams;
    let normal_teams = teams - large_teams;
    let ghost ls = loadouts@;
    let ghost sizes = team_sizes(players as int, teams as int);
    let ghost x0 = cursor.x as int;
    let ghost y0 = cursor.y as int;
    let ghost ops0 = ops@;
    let ghost total = 20 * teams + player_extent() * players;
    proof {
        lemma_picture_extent(players as int, teams as int);
        lemma_teams_extent(sizes);
    }
    let elems = layout_main_elements();
    let mut k: usize = 0;
    while k < elems.len()
        invariant
            elems@ == layout_main(),
            k <= 1,
            ls == loadouts@,
            players == ls.len(),
            sizes == team_sizes(players as int, teams as int),
            teams >= 1,
            normal_team_players == players / teams,
            large_team_players == normal_team_players + 1,
            large_teams == players % teams,
            normal_teams == teams - large_teams,
            teams_extent(sizes) == total,
            size_total(sizes) == players,
            total == 20 * teams + player_extent() * players,
            total <= u16::MAX,
            y0 + total <= u32::MAX,
            x0 + 764 <= u32::MAX,
            cursor.x == x0,
            k == 0 ==> ops@ == ops0 && cursor.y == y0,
            k == 1 ==> ops@ == ops0 + teams_ops(ls, sizes, 0, x0, y0) && cursor.y == y0 + total,
        decreases elems@.len() - k,
    {
        let elem = elems[k];
        let height = elem.size();
        if let Element::Teams = elem {
            let mut rest = loadouts;
            let mut i: usize = 0;
            assert(sizes.skip(0) =~= sizes);
            assert(ops0 + teams_ops(ls, sizes, 0, x0, y0) =~= ops@ + teams_ops(ls, sizes.skip(0), 0, x0, y0));
            while i < teams
                invariant
                    ls == loadouts@,
                    sizes == team_sizes(players as int, teams as int),
                    teams >= 1,
                    normal_team_players == players / teams,
                    large_team_players == normal_team_players + 1,
                    large_teams == players % teams,
                    large_teams < teams,
                    normal_teams == teams - large_teams,
                    i <= teams,
                    x0 + 764 <= u32::MAX,
                    cursor.x == x0,
                    total <= u16::MAX,
                    y0 + total <= u32::MAX,
                    forall|j: int| 0 <= j < sizes.len() ==> 0 <= #[trigger] sizes[j],
                    cursor.y + teams_extent(sizes.skip(i as int)) == y0 + total,
                    cursor.y >= y0,
                    teams_extent(sizes.skip(i as int)) == 20 * (teams - i) + player_extent() * size_total(sizes.skip(i as int)),
                    rest@.len() == size_total(sizes.skip(i as int)),
                    ops0 + teams_ops(ls, sizes, 0, x0, y0) == ops@ + teams_ops(
                        rest@,
                        sizes.skip(i as int),
                        i as int,
                        x0,
                        cursor.y as int,
                    ),
                decreases teams - i,
            {
                let size = if i < large_teams {
                    large_team_players
                } else {
                    normal_team_players
                };
                let ghost tail = sizes.skip(i as int);
                assert(tail[0] == size);
                assert(tail.drop_first() =~= sizes.skip(i + 1));
                proof {
                    lemma_teams_extent(sizes.skip(i + 1));
                    assert(size_total(sizes.skip(i + 1)) >= 0) by {
                        lemma_size_total_nonneg(sizes.skip(i + 1));
                    }
                }
                assert(teams_extent(tail) == team_extent(size as int) + teams_extent(sizes.skip(i + 1)));
                assert(team_extent(size as int) <= total);
                let (team, others) = rest.split_at(size);
                assert(team@ =~= rest@.take(size as int));
                let ghost before = ops@;
                let ghost y = cursor.y as int;
                draw_team(cursor, team, i, ops);
                assert(before + teams_ops(rest@, tail, i as int, x0, y) =~= ops@ + teams_ops(
                    others@,
                    sizes.skip(i + 1),
                    i + 1,
                    x0,
                    cursor.y as int,
                ));
                rest = others;
                i = i + 1;
            }
            assert(sizes.skip(teams as int) =~= Seq::<int>::empty());
            assert(ops@ + teams_ops(rest@, sizes.skip(teams as int), teams as int, x0, cursor.y as int) =~= ops@);
        }
        cursor.y = cursor.y + height as u32;
        k = k + 1;
    }
}

/// Adding non-negative team sizes gives a non-negative total.
pub proof fn lemma_size_total_nonneg(sizes: Seq<int>)
    requires
        forall|j: int| 0 <= j < sizes.len() ==> 0 <= #[trigger] sizes[j],
    ensures
        size_total(sizes) >= 0,
    decreases sizes.len(),
{
    if sizes.len() > 0 {
        assert(forall|j: int| 0 <= j < sizes.drop_first().len() ==> sizes.drop_first()[j] == sizes[j + 1]);
        lemma_size_total_nonneg(sizes.drop_first());
    }
}

/// The height of the picture of the players `loadouts` in `teams` teams, and
/// everything to draw on it, from the top left corner.
pub fn render_plan<'a>(loadouts: &[Loadout<'a>], teams: usize) -> (plan: (u16, Vec<DrawOp<'a>>))
    requires
        teams >= 1,
        20 * teams + player_extent() * loadouts@.len() <= u16::MAX,
    ensures
        plan.0 == picture_height(teams as int, loadouts@.len() as int),
        plan.1@ == picture_ops(loadouts@, teams as int),
{
    let h = calculate_height(teams, loadouts.len());
    let mut cursor = Cursor { x: 0, y: 0 };
    let mut ops: Vec<DrawOp<'a>> = Vec::new();
    draw_main(&mut cursor, loadouts, teams, &mut ops);
    proof {
        lemma_picture_extent(loadouts@.len() as int, teams as int);
    }
    assert(cursor.y == h);
    assert(ops@ =~= picture_ops(loadouts@, teams as int));
    (h, ops)
}

} // verus!
