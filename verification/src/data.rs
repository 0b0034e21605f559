//! The data model: a watched item, the whole application state, and the
//! mathematical views and invariants the contracts are stated over.

use vstd::prelude::*;

verus! {

/// Mathematical view of a single watched item.
#[verifier::ext_equal]
pub ghost struct ItemModel {
    pub id: int,
    pub name: Seq<char>,
    pub url: Seq<char>,
    pub current_price: Seq<char>,
    pub last_updated: Seq<char>,
}

/// Mathematical view of the whole application state.
#[verifier::ext_equal]
pub ghost struct AppModel {
    pub items: Seq<ItemModel>,
    pub next_id: int,
}

/// A single watched item: a user-tracked (name, url) pair with a cached
/// display price and a formatted timestamp of the last update.
pub struct WatchedItemData {
    pub id: i32,
    pub name: String,
    pub url: String,
    pub current_price: String,
    pub last_updated: String,
}

/// The whole application state: the item list (insertion order is display
/// order) plus the id counter handed to the next added item.
pub struct AppData {
    pub items: Vec<WatchedItemData>,
    pub next_id: i32,
}

impl View for WatchedItemData {
    type V = ItemModel;

    open spec fn view(&self) -> ItemModel {
        ItemModel {
            id: self.id as int,
            name: self.name@,
            url: self.url@,
            current_price: self.current_price@,
            last_updated: self.last_updated@,
        }
    }
}

impl View for AppData {
    type V = AppModel;

    open spec fn view(&self) -> AppModel {
        AppModel { items: self.items@.map_values(|it: WatchedItemData| it@), next_id: self.next_id as int }
    }
}

impl Clone for WatchedItemData {
    /// Cloning keeps every field.
    fn clone(&self) -> (r: Self)
        ensures
            r@ == self@,
    {
        WatchedItemData {
            id: self.id,
            name: self.name.clone(),
            url: self.url.clone(),
            current_price: self.current_price.clone(),
            last_updated: self.last_updated.clone(),
        }
    }
}

/// Every id fits in the machine integer the items carry.
pub open spec fn ids_in_range(m: AppModel) -> bool {
    &&& i32::MIN <= m.next_id <= i32::MAX
    &&& forall|k: int| 0 <= k < m.items.len() ==> i32::MIN <= #[trigger] m.items[k].id <= i32::MAX
}

/// `next_id` is strictly greater than every id already present.
pub open spec fn ids_below_next(m: AppModel) -> bool {
    forall|k: int| 0 <= k < m.items.len() ==> #[trigger] m.items[k].id < m.next_id
}

/// No two items carry the same id.
pub open spec fn ids_unique(items: Seq<ItemModel>) -> bool {
    forall|j: int, k: int|
        0 <= j < k < items.len() ==> #[trigger] items[j].id != #[trigger] items[k].id
}

/// The state invariant: ids are unique within the list, and `next_id` is
/// strictly greater than every id already present.
pub open spec fn wf_model(m: AppModel) -> bool {
    &&& ids_in_range(m)
    &&& ids_below_next(m)
    &&& ids_unique(m.items)
}

/// The state a fresh install starts from: no items, counter at zero.
pub open spec fn empty_model() -> AppModel {
    AppModel { items: Seq::empty(), next_id: 0 }
}

impl AppData {
    /// The invariant restated on the executable type.
    pub open spec fn wf(&self) -> bool {
        wf_model(self@)
    }

    /// The empty state: no items, `next_id` zero.
    pub fn empty() -> (r: AppData)
        ensures
            r@ == empty_model(),
            r.wf(),
    {
        let r = AppData { items: Vec::new(), next_id: 0 };
        proof {
            assert(r@.items =~= empty_model().items);
            assert(r@ =~= empty_model());
        }
        r
    }
}

} // verus!
