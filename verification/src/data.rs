//! The recipe data model: one way to produce an item at a facility, with its
//! craft time and input materials, plus optional market metadata carried
//! through unchanged.
//!
//! Item names are matched case-insensitively; the catalog handed to the
//! engine is keyed by lowercased output-item name. Material maps and the
//! catalog itself are association vectors with unique keys, which the
//! specifications view as sequences of pairs.

use crate::rat::{rat_wf, rat_zero, Rat};
use vstd::prelude::*;

verus! {

/// What `str::to_lowercase` returns for a given character sequence; the
/// catalog keys and every lookup go through this one name.
pub uninterp spec fn lower_of(s: Seq<char>) -> Seq<char>;

/// Relies on str::to_lowercase: the result is a function of the characters
/// alone, named by [`lower_of`].
#[verifier::external_body]
pub(crate) fn to_lower(s: &str) -> (r: String)
    ensures
        r@ == lower_of(s@),
{
    s.to_lowercase()
}

/// The input materials of a recipe: item name to quantity consumed per
/// craft, keys unique.
pub type Materials = Vec<(String, Rat)>;

/// Market metadata attached to a recipe; opaque to the engine.
#[derive(Clone, Debug)]
pub struct MarketData {
    pub last_update_attempt: i64,
    pub last_updated: i64,
    pub price: Option<Rat>,
    pub quantity: Option<Rat>,
    pub total_trade_count: Option<Rat>,
    pub name: Option<String>,
}

/// One way to produce an item.
#[derive(Clone, Debug)]
pub struct Recipe {
    pub output_item: String,
    pub output_item_count: Rat,
    pub min_output_item_count: Option<Rat>,
    pub max_output_item_count: Option<Rat>,
    pub facility: String,
    pub time: Rat,
    pub materials: Materials,
    pub image: Option<String>,
    pub market_data: Option<MarketData>,
}

/// Mathematical view of [`MarketData`].
pub ghost struct MarketDataV {
    pub last_update_attempt: int,
    pub last_updated: int,
    pub price: Option<Rat>,
    pub quantity: Option<Rat>,
    pub total_trade_count: Option<Rat>,
    pub name: Option<Seq<char>>,
}

/// Mathematical view of [`Recipe`].
pub ghost struct RecipeV {
    pub output_item: Seq<char>,
    pub output_item_count: Rat,
    pub min_output_item_count: Option<Rat>,
    pub max_output_item_count: Option<Rat>,
    pub facility: Seq<char>,
    pub time: Rat,
    pub materials: Seq<(Seq<char>, Rat)>,
    pub image: Option<Seq<char>>,
    pub market_data: Option<MarketDataV>,
}

/// The rationals a recipe's arithmetic reads are well formed.
pub open spec fn recipe_rats_wf(r: RecipeV) -> bool {
    rat_wf(r.output_item_count) && rat_wf(r.time) && (forall|j: int|
        0 <= j < r.materials.len() ==> rat_wf(#[trigger] r.materials[j].1))
}

/// View of an optional string as an optional character sequence.
pub open spec fn opt_str_view(o: Option<String>) -> Option<Seq<char>> {
    match o {
        Some(s) => Some(s@),
        None => None,
    }
}

/// View of a materials vector as a sequence of (name, quantity) pairs.
pub open spec fn mats_view(m: Seq<(String, Rat)>) -> Seq<(Seq<char>, Rat)> {
    m.map_values(|p: (String, Rat)| (p.0@, p.1))
}

impl View for MarketData {
    type V = MarketDataV;

    open spec fn view(&self) -> MarketDataV {
        MarketDataV {
            last_update_attempt: self.last_update_attempt as int,
            last_updated: self.last_updated as int,
            price: self.price,
            quantity: self.quantity,
            total_trade_count: self.total_trade_count,
            name: opt_str_view(self.name),
        }
    }
}

/// View of optional market metadata.
pub open spec fn opt_md_view(o: Option<MarketData>) -> Option<MarketDataV> {
    match o {
        Some(m) => Some(m@),
        None => None,
    }
}

impl View for Recipe {
    type V = RecipeV;

    open spec fn view(&self) -> RecipeV {
        RecipeV {
            output_item: self.output_item@,
            output_item_count: self.output_item_count,
            min_output_item_count: self.min_output_item_count,
            max_output_item_count: self.max_output_item_count,
            facility: self.facility@,
            time: self.time,
            materials: mats_view(self.materials@),
            image: opt_str_view(self.image),
            market_data: opt_md_view(self.market_data),
        }
    }
}

impl Recipe {
    /// An empty recipe: no output, no facility, no time, no materials.
    pub fn new() -> (r: Recipe)
        ensures
            r@.output_item == Seq::<char>::empty(),
            r@.output_item_count == rat_zero(),
            r@.min_output_item_count is None,
            r@.max_output_item_count is None,
            r@.facility == Seq::<char>::empty(),
            r@.time == rat_zero(),
            r@.materials == Seq::<(Seq<char>, Rat)>::empty(),
            r@.image is None,
            r@.market_data is None,
    {
        let r = Recipe {
            output_item: String::new(),
            output_item_count: Rat::zero(),
            min_output_item_count: None,
            max_output_item_count: None,
            facility: String::new(),
            time: Rat::zero(),
            materials: Vec::new(),
            image: None,
            market_data: None,
        };
        proof {
            assert(mats_view(r.materials@) =~= Seq::<(Seq<char>, Rat)>::empty());
        }
        r
    }

    /// An exact copy, with the same view.
    pub fn duplicate(&self) -> (r: Recipe)
        ensures
            r@ == self@,
    {
        let materials = dup_mats(&self.materials);
        let r = Recipe {
            output_item: self.output_item.clone(),
            output_item_count: self.output_item_count,
            min_output_item_count: self.min_output_item_count,
            max_output_item_count: self.max_output_item_count,
            facility: self.facility.clone(),
            time: self.time,
            materials,
            image: dup_opt_string(&self.image),
            market_data: dup_opt_md(&self.market_data),
        };
        r
    }
}

/// An exact copy of a materials vector, with the same view.
pub fn dup_mats(m: &Materials) -> (r: Materials)
    ensures
        mats_view(r@) == mats_view(m@),
        r@.len() == m@.len(),
        forall|i: int| 0 <= i < m@.len() ==> r@[i].0@ == m@[i].0@ && r@[i].1 == m@[i].1,
{
    let mut r: Materials = Vec::new();
    let mut i: usize = 0;
    while i < m.len()
        invariant
            i <= m@.len(),
            r@.len() == i,
            forall|j: int| 0 <= j < i ==> r@[j].0@ == m@[j].0@ && r@[j].1 == m@[j].1,
        decreases m@.len() - i,
    {
        let (k, v) = &m[i];
        r.push((k.clone(), *v));
        i = i + 1;
    }
    proof {
        assert(mats_view(r@) =~= mats_view(m@));
    }
    r
}

/// An exact copy of an optional string, with the same view.
pub(crate) fn dup_opt_string(o: &Option<String>) -> (r: Option<String>)
    ensures
        opt_str_view(r) == opt_str_view(*o),
{
    match o {
        Some(s) => Some(s.clone()),
        None => None,
    }
}

/// An exact copy of optional market metadata, with the same view.
fn dup_opt_md(o: &Option<MarketData>) -> (r: Option<MarketData>)
    ensures
        opt_md_view(r) == opt_md_view(*o),
{
    match o {
        Some(m) => Some(
            MarketData {
                last_update_attempt: m.last_update_attempt,
                last_updated: m.last_updated,
                price: m.price,
                quantity: m.quantity,
                total_trade_count: m.total_trade_count,
                name: dup_opt_string(&m.name),
            },
        ),
        None => None,
    }
}

} // verus!
