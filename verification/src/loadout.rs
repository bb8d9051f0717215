//! One player's random loadout: a class, a specialization, a weapon and three
//! different gadgets.

use rand::rngs::ThreadRng;
use vstd::prelude::*;

use crate::data::{Class, Dataset, Item};
use crate::random::random_in;
use crate::{Gamemode, LoadoutBias};

verus! {

/// The three gadget indices that the draws `g0 < n`, `g1 < n - 1`,
/// `g2 < n - 2` select: the second and third draws skip the indices taken
/// before them, so the three come out different without a retry.
pub open spec fn gadget_triple(g0: int, g1: int, g2: int) -> (int, int, int) {
    let h1 = if g1 >= g0 { g1 + 1 } else { g1 };
    let lo = if g0 <= h1 { g0 } else { h1 };
    let hi = if g0 <= h1 { h1 } else { g0 };
    let a = if g2 >= lo { g2 + 1 } else { g2 };
    let h2 = if a >= hi { a + 1 } else { a };
    (g0, h1, h2)
}

/// The draws are in their ranges for `n` gadgets.
pub open spec fn gadget_draws_valid(n: int, g0: int, g1: int, g2: int) -> bool {
    &&& 0 <= g0 < n
    &&& 0 <= g1 < n - 1
    &&& 0 <= g2 < n - 2
}

/// Three different indices below `n`.
pub open spec fn distinct_indices(n: int, t: (int, int, int)) -> bool {
    &&& 0 <= t.0 < n
    &&& 0 <= t.1 < n
    &&& 0 <= t.2 < n
    &&& t.0 != t.1
    &&& t.0 != t.2
    &&& t.1 != t.2
}

/// The draws that select the indices `t`: the inverse of `gadget_triple`.
pub open spec fn gadget_draws_of(t: (int, int, int)) -> (int, int, int) {
    let g1 = if t.1 > t.0 { t.1 - 1 } else { t.1 };
    let below = (if t.0 < t.2 { 1int } else { 0int }) + (if t.1 < t.2 { 1int } else { 0int });
    (t.0, g1, t.2 - below)
}

/// Draws in range select three different gadget indices below `n`.
pub proof fn lemma_gadget_triple_distinct(n: int, g0: int, g1: int, g2: int)
    requires
        gadget_draws_valid(n, g0, g1, g2),
    ensures
        distinct_indices(n, gadget_triple(g0, g1, g2)),
{
}

/// Different draws select different index triples.
pub proof fn lemma_gadget_triple_injective(
    n: int,
    g0: int,
    g1: int,
    g2: int,
    f0: int,
    f1: int,
    f2: int,
)
    requires
        gadget_draws_valid(n, g0, g1, g2),
        gadget_draws_valid(n, f0, f1, f2),
        gadget_triple(g0, g1, g2) == gadget_triple(f0, f1, f2),
    ensures
        g0 == f0 && g1 == f1 && g2 == f2,
{
}

/// Every triple of different indices below `n` is selected by exactly the
/// draws `gadget_draws_of` gives, and those are in range: with uniform draws,
/// every ordered triple of different gadgets is equally likely.
pub proof fn lemma_gadget_triple_onto(n: int, t: (int, int, int))
    requires
        distinct_indices(n, t),
    ensures
        gadget_draws_valid(n, gadget_draws_of(t).0, gadget_draws_of(t).1, gadget_draws_of(t).2),
        gadget_triple(gadget_draws_of(t).0, gadget_draws_of(t).1, gadget_draws_of(t).2) == t,
{
}

/// Computes `gadget_triple` of the draws.
pub fn gadget_indices(n: usize, g0: usize, g1: usize, g2: usize) -> (t: (usize, usize, usize))
    requires
        gadget_draws_valid(n as int, g0 as int, g1 as int, g2 as int),
    ensures
        (t.0 as int, t.1 as int, t.2 as int) == gadget_triple(g0 as int, g1 as int, g2 as int),
        distinct_indices(n as int, (t.0 as int, t.1 as int, t.2 as int)),
{
    let mut gadget_1 = g1;
    let mut gadget_2 = g2;
    if gadget_1 >= g0 {
        gadget_1 += 1;
    }
    let lo = if g0 <= gadget_1 { g0 } else { gadget_1 };
    let hi = if g0 <= gadget_1 { gadget_1 } else { g0 };
    if gadget_2 >= lo {
        gadget_2 += 1;
    }
    if gadget_2 >= hi {
        gadget_2 += 1;
    }
    (g0, gadget_1, gadget_2)
}

/// The range of class indices `(low, high)` that a bias and a mode allow:
/// light has no explosives, so the bombs mode never gives light.
pub open spec fn class_bounds_spec(bias: LoadoutBias, mode: Gamemode) -> (int, int) {
    let (low, high) = match bias {
        LoadoutBias::Fair => (0int, 2int),
        LoadoutBias::NoHeavy => (0int, 1int),
        LoadoutBias::OnlyHeavy => (2int, 2int),
    };
    if mode == Gamemode::Bombs && low == 0 {
        (1int, high)
    } else {
        (low, high)
    }
}

/// Computes `class_bounds_spec`.
pub fn class_bounds(bias: LoadoutBias, mode: Gamemode) -> (bounds: (usize, usize))
    ensures
        (bounds.0 as int, bounds.1 as int) == class_bounds_spec(bias, mode),
        bounds.0 <= bounds.1 <= 2,
{
    let mut class_low: usize = 0;
    let mut class_high: usize = 2;
    match bias {
        LoadoutBias::NoHeavy => {
            class_high = 1;
        },
        LoadoutBias::OnlyHeavy => {
            class_low = 2;
            class_high = 2;
        },
        _ => {},
    }
    if mode == Gamemode::Bombs && class_low == 0 {
        class_low = 1;
    }
    (class_low, class_high)
}

/// The class whose gadgets a loadout of class `c` in `mode` draws from: the
/// mode's own class in bombs mode, else the unrestricted one.
pub open spec fn gadget_class(dataset: Dataset, mode: Gamemode, c: int) -> Class {
    if mode == Gamemode::Bombs {
        dataset.classes(mode)@[c]
    } else {
        dataset.classes(Gamemode::Any)@[c]
    }
}

/// Class `c` has something to draw from in `mode`: a specialization, a
/// weapon, and at least three gadgets.
pub open spec fn class_pickable(dataset: Dataset, mode: Gamemode, c: int) -> bool {
    &&& dataset.classes(Gamemode::Any)@[c].specials@.len() > 0
    &&& dataset.classes(mode)@[c].weapons@.len() > 0
    &&& gadget_class(dataset, mode, c).gadgets@.len() >= 3
}

/// Every class that the bias and mode allow can be drawn from.
pub open spec fn pickable(dataset: Dataset, bias: LoadoutBias, mode: Gamemode) -> bool {
    forall|c: int|
        class_bounds_spec(bias, mode).0 <= c <= class_bounds_spec(bias, mode).1
            ==> #[trigger] class_pickable(dataset, mode, c)
}

/// One player's loadout.
#[derive(Clone, Copy)]
pub struct Loadout<'a> {
    pub name: &'a str,
    pub special: Item,
    pub weapon: Item,
    pub gadgets: [Item; 3],
}

/// The draws of one loadout are in range: a class that bias and mode allow,
/// and indices into its specializations, weapons and gadgets.
pub open spec fn draws_valid(
    dataset: Dataset,
    bias: LoadoutBias,
    mode: Gamemode,
    class: int,
    special: int,
    weapon: int,
    g0: int,
    g1: int,
    g2: int,
) -> bool {
    &&& class_bounds_spec(bias, mode).0 <= class <= class_bounds_spec(bias, mode).1
    &&& 0 <= special < dataset.classes(Gamemode::Any)@[class].specials@.len()
    &&& 0 <= weapon < dataset.classes(mode)@[class].weapons@.len()
    &&& gadget_draws_valid(gadget_class(dataset, mode, class).gadgets@.len() as int, g0, g1, g2)
}

/// The loadout that the draws give.
pub open spec fn loadout_of<'a>(
    name: &'a str,
    dataset: Dataset,
    mode: Gamemode,
    class: int,
    special: int,
    weapon: int,
    g0: int,
    g1: int,
    g2: int,
) -> Loadout<'a> {
    let gadgets = gadget_class(dataset, mode, class).gadgets@;
    let t = gadget_triple(g0, g1, g2);
    Loadout {
        name,
        special: dataset.classes(Gamemode::Any)@[class].specials@[special],
        weapon: dataset.classes(mode)@[class].weapons@[weapon],
        gadgets: [gadgets[t.0], gadgets[t.1], gadgets[t.2]],
    }
}

/// The largest value of each draw for class `class` in `mode`, each draw
/// going from 0: the specialization, the weapon, then the three gadget draws
/// over all gadgets, all but one, and all but two.
pub open spec fn draw_ranges_spec(dataset: Dataset, mode: Gamemode, class: int) -> (int, int, int, int, int) {
    let n = gadget_class(dataset, mode, class).gadgets@.len() as int;
    (
        dataset.classes(Gamemode::Any)@[class].specials@.len() - 1,
        dataset.classes(mode)@[class].weapons@.len() - 1,
        n - 1,
        n - 2,
        n - 3,
    )
}

/// Computes `draw_ranges_spec` for a class that can be drawn from; the draws
/// of `Loadout::pick` are uniform over exactly these ranges.
pub fn draw_ranges(dataset: &Dataset, mode: Gamemode, class: usize) -> (ranges: (usize, usize, usize, usize, usize))
    requires
        class < 3,
        class_pickable(*dataset, mode, class as int),
    ensures
        (ranges.0 as int, ranges.1 as int, ranges.2 as int, ranges.3 as int, ranges.4 as int) == draw_ranges_spec(
            *dataset,
            mode,
            class as int,
        ),
{
    let n_special = dataset.class(Gamemode::Any)[class].specials.len();
    let n_weapon = dataset.class(mode)[class].weapons.len();
    let n_gadget = if mode == Gamemode::Bombs {
        dataset.class(mode)[class].gadgets.len()
    } else {
        dataset.class(Gamemode::Any)[class].gadgets.len()
    };
    (n_special - 1, n_weapon - 1, n_gadget - 1, n_gadget - 2, n_gadget - 3)
}

impl<'a> Loadout<'a> {
    /// The placeholder loadout: an empty name and null items.
    pub fn null() -> (loadout: Self)
        ensures
            loadout.name@.len() == 0,
            loadout.special.image == 0 && loadout.special.name@.len() == 0,
            loadout.weapon.image == 0 && loadout.weapon.name@.len() == 0,
            forall|i: int|
                0 <= i < 3 ==> (#[trigger] loadout.gadgets@[i]).image == 0
                    && loadout.gadgets@[i].name@.len() == 0,
    {
        let name = "";
        proof {
            reveal_strlit("");
        }
        Loadout {
            name,
            special: Item::null(),
            weapon: Item::null(),
            gadgets: [Item::null(), Item::null(), Item::null()],
        }
    }

    /// The loadout that the given draws select.
    pub fn from_draws(
        name: &'a str,
        dataset: &Dataset,
        bias: LoadoutBias,
        mode: Gamemode,
        class: usize,
        special: usize,
        weapon: usize,
        g0: usize,
        g1: usize,
        g2: usize,
    ) -> (loadout: Self)
        requires
            draws_valid(
                *dataset,
                bias,
                mode,
                class as int,
                special as int,
                weapon as int,
                g0 as int,
                g1 as int,
                g2 as int,
            ),
        ensures
            loadout == loadout_of(
                name,
                *dataset,
                mode,
                class as int,
                special as int,
                weapon as int,
                g0 as int,
                g1 as int,
                g2 as int,
            ),
    {
        let class_special = &dataset.class(Gamemode::Any)[class];
        let class_weapon = &dataset.class(mode)[class];
        let class_gadget = if mode == Gamemode::Bombs {
            class_weapon
        } else {
            class_special
        };
        let special = class_special.specials[special];
        let weapon = class_weapon.weapons[weapon];
        let (i0, i1, i2) = gadget_indices(class_gadget.gadgets.len(), g0, g1, g2);
        let gadgets = [class_gadget.gadgets[i0], class_gadget.gadgets[i1], class_gadget.gadgets[i2]];
        Loadout { name, special, weapon, gadgets }
    }

    /// A random loadout for the player `name`: a class drawn uniformly over
    /// `class_bounds`, then a specialization, a weapon and three different
    /// gadgets of that class, each drawn uniformly from 0 to the bound that
    /// `draw_ranges` gives.
    pub fn pick(
        rng: &mut ThreadRng,
        name: &'a str,
        dataset: &Dataset,
        bias: LoadoutBias,
        mode: Gamemode,
    ) -> (loadout: Self)
        requires
            pickable(*dataset, bias, mode),
        ensures
            exists|class: int, special: int, weapon: int, g0: int, g1: int, g2: int|
                {
                    &&& draws_valid(*dataset, bias, mode, class, special, weapon, g0, g1, g2)
                    &&& loadout == loadout_of(
                        name,
                        *dataset,
                        mode,
                        class,
                        special,
                        weapon,
                        g0,
                        g1,
                        g2,
                    )
                },
    {
        let (class_low, class_high) = class_bounds(bias, mode);
        let class = random_in(rng, class_low, class_high);
        assert(class_pickable(*dataset, mode, class as int));
        let ranges = draw_ranges(dataset, mode, class);
        let special = random_in(rng, 0, ranges.0);
        let weapon = random_in(rng, 0, ranges.1);
        let g0 = random_in(rng, 0, ranges.2);
        let g1 = random_in(rng, 0, ranges.3);
        let g2 = random_in(rng, 0, ranges.4);
        let loadout = Self::from_draws(name, dataset, bias, mode, class, special, weapon, g0, g1, g2);
        assert(draws_valid(
            *dataset,
            bias,
            mode,
            class as int,
            special as int,
            weapon as int,
            g0 as int,
            g1 as int,
            g2 as int,
        ));
        loadout
    }
}

/// The gadgets of a class have pairwise different images.
pub open spec fn gadget_images_distinct(class: Class) -> bool {
    forall|i: int, j: int|
        0 <= i < class.gadgets@.len() && 0 <= j < class.gadgets@.len() && i != j ==> class.gadgets@[i].image
            != class.gadgets@[j].image
}

/// The three gadgets of a loadout have pairwise different images.
pub open spec fn loadout_gadgets_distinct(loadout: Loadout) -> bool {
    &&& loadout.gadgets@[0].image != loadout.gadgets@[1].image
    &&& loadout.gadgets@[0].image != loadout.gadgets@[2].image
    &&& loadout.gadgets@[1].image != loadout.gadgets@[2].image
}

/// A loadout never holds the same gadget twice: when the class it draws its
/// gadgets from has no two gadgets with the same image, its three gadgets
/// have three different images.
pub proof fn lemma_no_duplicate_gadgets<'a>(
    name: &'a str,
    dataset: Dataset,
    bias: LoadoutBias,
    mode: Gamemode,
    class: int,
    special: int,
    weapon: int,
    g0: int,
    g1: int,
    g2: int,
)
    requires
        draws_valid(dataset, bias, mode, class, special, weapon, g0, g1, g2),
        gadget_images_distinct(gadget_class(dataset, mode, class)),
    ensures
        loadout_gadgets_distinct(loadout_of(name, dataset, mode, class, special, weapon, g0, g1, g2)),
{
    let n = gadget_class(dataset, mode, class).gadgets@.len() as int;
    lemma_gadget_triple_distinct(n, g0, g1, g2);
}

/// A picked loadout of a bombs match is never of the light class, and an
/// only-heavy one always is heavy: the class range the draws may use.
pub proof fn lemma_class_bounds(bias: LoadoutBias, mode: Gamemode)
    ensures
        mode == Gamemode::Bombs ==> class_bounds_spec(bias, mode).0 >= 1,
        bias == LoadoutBias::OnlyHeavy ==> class_bounds_spec(bias, mode) == (2int, 2int),
        bias == LoadoutBias::NoHeavy ==> class_bounds_spec(bias, mode).1 == 1,
        class_bounds_spec(bias, mode).0 <= class_bounds_spec(bias, mode).1,
{
}

/// The classes a loadout may be of (0 light, 1 medium, 2 heavy): heavy unless
/// the bias rules heavy out, medium unless the bias asks for heavy only, and
/// light unless the bias asks for heavy only or the match is a bombs match;
/// every other mode allows light.
pub proof fn lemma_allowed_classes(bias: LoadoutBias, mode: Gamemode, c: int)
    requires
        0 <= c < 3,
    ensures
        (class_bounds_spec(bias, mode).0 <= c <= class_bounds_spec(bias, mode).1) <==> {
            ||| c == 2 && bias != LoadoutBias::NoHeavy
            ||| c == 1 && bias != LoadoutBias::OnlyHeavy
            ||| c == 0 && bias != LoadoutBias::OnlyHeavy && mode != Gamemode::Bombs
        },
{
}

/// Whether every class that `bias` and `mode` allow can be drawn from.
pub fn is_pickable(dataset: &Dataset, bias: LoadoutBias, mode: Gamemode) -> (ok: bool)
    ensures
        ok == pickable(*dataset, bias, mode),
{
    let (low, high) = class_bounds(bias, mode);
    let mut c = low;
    while c <= high
        invariant
            low <= c <= high + 1,
            high <= 2,
            (low as int, high as int) == class_bounds_spec(bias, mode),
            forall|k: int| low <= k < c ==> #[trigger] class_pickable(*dataset, mode, k),
        decreases high + 1 - c,
    {
        let gadgets = if mode == Gamemode::Bombs {
            dataset.class(mode)[c].gadgets.len()
        } else {
            dataset.class(Gamemode::Any)[c].gadgets.len()
        };
        if dataset.class(Gamemode::Any)[c].specials.len() == 0 || dataset.class(mode)[c].weapons.len() == 0
            || gadgets < 3 {
            assert(!class_pickable(*dataset, mode, c as int));
            return false;
        }
        c = c + 1;
    }
    true
}

/// The items of a loadout as one line: specialization, weapon and the three
/// gadgets, separated by ", ".
pub open spec fn summary_spec(loadout: Loadout) -> Seq<char> {
    loadout.special.name@ + ", "@ + loadout.weapon.name@ + ", "@ + loadout.gadgets@[0].name@ + ", "@
        + loadout.gadgets@[1].name@ + ", "@ + loadout.gadgets@[2].name@
}

/// The items of a loadout as one line (see `summary_spec`).
pub fn summary(loadout: &Loadout) -> (line: String)
    ensures
        line@ == summary_spec(*loadout),
{
    let mut line = String::from_str(loadout.special.name);
    line.append(", ");
    line.append(loadout.weapon.name);
    line.append(", ");
    line.append(loadout.gadgets[0].name);
    line.append(", ");
    line.append(loadout.gadgets[1].name);
    line.append(", ");
    line.append(loadout.gadgets[2].name);
    line
}

} // verus!
