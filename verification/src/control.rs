//! The state controller: add, remove, refresh and list, each stated and
//! proved against the model in `data`.

use vstd::prelude::*;
use crate::data::{AppData, AppModel, ItemModel, WatchedItemData, ids_below_next, ids_unique};
use crate::clock::now_timestamp;

verus! {

/// The placeholder price a freshly added item carries until a real fetch
/// exists.
pub open spec fn fetching_price() -> Seq<char> {
    "Fetching..."@
}

/// The placeholder price a refreshed item carries; the real fetch is stubbed.
pub open spec fn updated_price() -> Seq<char> {
    "Updated"@
}

/// What adding an item does to the model: append an item carrying the current
/// counter as its id, and advance the counter.
pub open spec fn model_add(m: AppModel, name: Seq<char>, url: Seq<char>, now: Seq<char>) -> AppModel {
    AppModel {
        items: m.items.push(
            ItemModel {
                id: m.next_id,
                name: name,
                url: url,
                current_price: fetching_price(),
                last_updated: now,
            },
        ),
        next_id: m.next_id + 1,
    }
}

/// What removing an id does to the model: drop every item carrying it, keep
/// the order of the rest.
pub open spec fn model_remove_items(items: Seq<ItemModel>, id: int) -> Seq<ItemModel>
    decreases items.len(),
{
    if items.len() == 0 {
        items
    } else {
        let front = model_remove_items(items.drop_last(), id);
        if items.last().id == id {
            front
        } else {
            front.push(items.last())
        }
    }
}

pub open spec fn model_remove(m: AppModel, id: int) -> AppModel {
    AppModel { items: model_remove_items(m.items, id), next_id: m.next_id }
}

/// What refreshing an item does to it: a new price placeholder and timestamp;
/// id, name and url stay untouched.
pub open spec fn refreshed_item(it: ItemModel, now: Seq<char>) -> ItemModel {
    ItemModel {
        id: it.id,
        name: it.name,
        url: it.url,
        current_price: updated_price(),
        last_updated: now,
    }
}

impl AppData {
    /// Add an item under the current counter value, with the caller supplying
    /// the timestamp string.
    pub fn add_with_time(&mut self, name: String, url: String, now: String)
        requires
            old(self).wf(),
            old(self)@.next_id < i32::MAX,
        ensures
            final(self)@ == model_add(old(self)@, name@, url@, now@),
            final(self).wf(),
    {
        let ghost m0 = self@;
        let item = WatchedItemData {
            id: self.next_id,
            name: name,
            url: url,
            current_price: fetching_price_text(),
            last_updated: now,
        };
        let ghost item_model = item@;
        self.items.push(item);
        self.next_id = self.next_id + 1;
        proof {
            assert(self@.items =~= m0.items.push(item_model));
            assert(self@ =~= model_add(m0, item_model.name, item_model.url, item_model.last_updated));
            assert forall|j: int, k: int| 0 <= j < k < self@.items.len() implies #[trigger] self@
                .items[j].id != #[trigger] self@.items[k].id by {
                if k == self@.items.len() - 1 {
                    assert(self@.items[j] == m0.items[j]);
                }
            }
        }
    }

    /// Add an item, timestamped with the host clock. Everything but the
    /// content of `last_updated` is pinned down.
    pub fn add(&mut self, name: String, url: String)
        requires
            old(self).wf(),
            old(self)@.next_id < i32::MAX,
        ensures
            exists|now: Seq<char>| final(self)@ == model_add(old(self)@, name@, url@, now),
            final(self).wf(),
    {
        let now = now_timestamp();
        let ghost now_view = now@;
        self.add_with_time(name, url, now);
        proof {
            assert(self@ == model_add(old(self)@, name@, url@, now_view));
        }
    }

    /// Remove every item carrying `id` (under the invariant there is at most
    /// one); an absent id leaves the state exactly as it was.
    pub fn remove(&mut self, id: i32)
        requires
            old(self).wf(),
        ensures
            final(self)@ == model_remove(old(self)@, id as int),
            final(self).wf(),
            (forall|k: int|
                0 <= k < old(self)@.items.len() ==> #[trigger] old(self)@.items[k].id
                    != id as int) ==> final(self)@ == old(self)@,
    {
        let ghost m0 = self@;
        let mut kept: Vec<WatchedItemData> = Vec::new();
        let n = self.items.len();
        let mut i: usize = 0;
        while i < n
            invariant
                n == self.items.len(),
                i <= n,
                self@ == m0,
                kept@.map_values(|it: WatchedItemData| it@) == model_remove_items(
                    m0.items.take(i as int),
                    id as int,
                ),
            decreases n - i,
        {
            let ghost prefix = m0.items.take(i as int);
            let ghost prefix1 = m0.items.take(i as int + 1);
            proof {
                assert(prefix1.drop_last() =~= prefix);
                assert(prefix1.last() == m0.items[i as int]);
            }
            if self.items[i].id != id {
                let it = self.items[i].clone();
                kept.push(it);
            }
            proof {
                assert(kept@.map_values(|it: WatchedItemData| it@) =~= model_remove_items(
                    prefix1,
                    id as int,
                ));
            }
            i = i + 1;
        }
        proof {
            assert(m0.items.take(n as int) =~= m0.items);
        }
        self.items = kept;
        proof {
            lemma_model_remove_items_wf(m0.items, id as int, m0.next_id);
            if forall|k: int|
                0 <= k < m0.items.len() ==> #[trigger] m0.items[k].id != id as int {
                lemma_model_remove_items_absent(m0.items, id as int);
            }
        }
    }

    /// Refresh the item carrying `id`, with the caller supplying the
    /// timestamp: only its price placeholder and timestamp change; every other
    /// item, and the counter, stay untouched. An absent id changes nothing.
    pub fn refresh_with_time(&mut self, id: i32, now: String)
        requires
            old(self).wf(),
        ensures
            final(self)@.next_id == old(self)@.next_id,
            final(self)@.items.len() == old(self)@.items.len(),
            forall|k: int|
                0 <= k < old(self)@.items.len() && #[trigger] old(self)@.items[k].id != id as int
                    ==> final(self)@.items[k] == old(self)@.items[k],
            forall|k: int|
                0 <= k < old(self)@.items.len() && #[trigger] old(self)@.items[k].id == id as int
                    ==> final(self)@.items[k] == refreshed_item(old(self)@.items[k], now@),
            final(self).wf(),
    {
        let ghost m0 = self@;
        let mut out: Vec<WatchedItemData> = Vec::new();
        let n = self.items.len();
        let mut i: usize = 0;
        while i < n
            invariant
                n == self.items.len(),
                i <= n,
                self@ == m0,
                out@.len() == i as int,
                forall|k: int|
                    0 <= k < i as int && #[trigger] m0.items[k].id != id as int ==> out@[k]@
                        == m0.items[k],
                forall|k: int|
                    0 <= k < i as int && #[trigger] m0.items[k].id == id as int ==> out@[k]@
                        == refreshed_item(m0.items[k], now@),
            decreases n - i,
        {
            if self.items[i].id == id {
                let it = WatchedItemData {
                    id: self.items[i].id,
                    name: self.items[i].name.clone(),
                    url: self.items[i].url.clone(),
                    current_price: updated_price_text(),
                    last_updated: now.clone(),
                };
                out.push(it);
            } else {
                let it = self.items[i].clone();
                out.push(it);
            }
            i = i + 1;
        }
        self.items = out;
        proof {
            assert forall|k: int| 0 <= k < self@.items.len() implies #[trigger] self@.items[k].id
                == m0.items[k].id by {
                if m0.items[k].id == id as int {
                    assert(self@.items[k] == refreshed_item(m0.items[k], now@));
                }
            }
        }
    }

    /// Refresh the item carrying `id`, timestamped with the host clock.
    pub fn refresh(&mut self, id: i32)
        requires
            old(self).wf(),
        ensures
            final(self)@.next_id == old(self)@.next_id,
            final(self)@.items.len() == old(self)@.items.len(),
            forall|k: int|
                0 <= k < old(self)@.items.len() && #[trigger] old(self)@.items[k].id != id as int
                    ==> final(self)@.items[k] == old(self)@.items[k],
            forall|k: int|
                0 <= k < old(self)@.items.len() && #[trigger] old(self)@.items[k].id == id as int
                    ==> {
                    &&& final(self)@.items[k].id == old(self)@.items[k].id
                    &&& final(self)@.items[k].name == old(self)@.items[k].name
                    &&& final(self)@.items[k].url == old(self)@.items[k].url
                    &&& final(self)@.items[k].current_price == updated_price()
                },
            final(self).wf(),
    {
        let now = now_timestamp();
        self.refresh_with_time(id, now);
    }

    /// A freshly materialized snapshot of the list, in display order, for a
    /// caller that renders it. The state itself is untouched.
    pub fn list(&self) -> (r: Vec<WatchedItemData>)
        ensures
            r@.map_values(|it: WatchedItemData| it@) == self@.items,
    {
        let mut r: Vec<WatchedItemData> = Vec::new();
        let n = self.items.len();
        let mut i: usize = 0;
        while i < n
            invariant
                n == self.items.len(),
                i <= n,
                r@.len() == i as int,
                forall|k: int| 0 <= k < i as int ==> #[trigger] r@[k]@ == self@.items[k],
            decreases n - i,
        {
            let it = self.items[i].clone();
            r.push(it);
            i = i + 1;
        }
        proof {
            assert(r@.map_values(|it: WatchedItemData| it@) =~= self@.items);
        }
        r
    }
}

/// The placeholder price text for a fresh item, as an executable string.
pub fn fetching_price_text() -> (r: String)
    ensures
        r@ == fetching_price(),
{
    let r = String::from_str("Fetching...");
    proof {
        assert(r@ == fetching_price());
    }
    r
}

/// The placeholder price text for a refreshed item, as an executable string.
pub fn updated_price_text() -> (r: String)
    ensures
        r@ == updated_price(),
{
    let r = String::from_str("Updated");
    proof {
        assert(r@ == updated_price());
    }
    r
}

/// Removing an id keeps the invariant: what stays is a subsequence, so ids
/// stay unique and below the counter.
proof fn lemma_model_remove_items_wf(items: Seq<ItemModel>, id: int, next_id: int)
    requires
        forall|k: int| 0 <= k < items.len() ==> #[trigger] items[k].id < next_id,
        forall|k: int| 0 <= k < items.len() ==> i32::MIN <= #[trigger] items[k].id <= i32::MAX,
        forall|j: int, k: int|
            0 <= j < k < items.len() ==> #[trigger] items[j].id != #[trigger] items[k].id,
    ensures
        model_remove_items(items, id).len() <= items.len(),
        forall|k: int|
            0 <= k < model_remove_items(items, id).len() ==> exists|j: int|
                0 <= j < items.len() && #[trigger] model_remove_items(items, id)[k] == items[j],
        forall|k: int|
            0 <= k < model_remove_items(items, id).len()
                ==> #[trigger] model_remove_items(items, id)[k].id < next_id
                && i32::MIN <= model_remove_items(items, id)[k].id <= i32::MAX,
        forall|j: int, k: int|
            0 <= j < k < model_remove_items(items, id).len()
                ==> #[trigger] model_remove_items(items, id)[j].id
                != #[trigger] model_remove_items(items, id)[k].id,
    decreases items.len(),
{
    if items.len() > 0 {
        let front = items.drop_last();
        lemma_model_remove_items_wf(front, id, next_id);
        let out = model_remove_items(items, id);
        let fout = model_remove_items(front, id);
        assert forall|k: int| 0 <= k < out.len() implies exists|j: int|
            0 <= j < items.len() && #[trigger] out[k] == items[j] by {
            if items.last().id != id && k == out.len() - 1 {
                assert(out[k] == items[items.len() - 1]);
            } else {
                assert(out[k] == fout[k]);
                let j0 = choose|j: int| 0 <= j < front.len() && fout[k] == front[j];
                assert(out[k] == items[j0]);
            }
        }
        assert forall|j: int, k: int| 0 <= j < k < out.len() implies #[trigger] out[j].id
            != #[trigger] out[k].id by {
            if items.last().id != id && k == out.len() - 1 {
                let j0 = choose|j2: int| 0 <= j2 < front.len() && fout[j] == front[j2];
                assert(out[j] == front[j0]);
                assert(out[k] == items[items.len() - 1]);
            }
        }
    }
}

/// One add operation, as a caller would request it: a name, a url and the
/// timestamp the clock handed back.
#[verifier::ext_equal]
pub ghost struct AddRequest {
    pub name: Seq<char>,
    pub url: Seq<char>,
    pub now: Seq<char>,
}

/// A whole sequence of add operations applied in order.
pub open spec fn model_add_all(m: AppModel, reqs: Seq<AddRequest>) -> AppModel
    decreases reqs.len(),
{
    if reqs.len() == 0 {
        m
    } else {
        model_add_all(model_add(m, reqs[0].name, reqs[0].url, reqs[0].now), reqs.drop_first())
    }
}

/// Law: whatever sequence of add operations is applied to a well-formed
/// state, the items it appends carry consecutive, hence strictly increasing,
/// ids; the items already present are untouched; and every id in the
/// resulting list is unique.
pub proof fn lemma_adds_yield_increasing_unique_ids(m: AppModel, reqs: Seq<AddRequest>)
    requires
        ids_below_next(m),
        ids_unique(m.items),
    ensures
        model_add_all(m, reqs).next_id == m.next_id + reqs.len(),
        model_add_all(m, reqs).items.len() == m.items.len() + reqs.len(),
        forall|k: int|
            0 <= k < m.items.len() ==> #[trigger] model_add_all(m, reqs).items[k] == m.items[k],
        forall|k: int|
            m.items.len() <= k < model_add_all(m, reqs).items.len()
                ==> #[trigger] model_add_all(m, reqs).items[k].id == m.next_id + (k
                - m.items.len()),
        forall|j: int, k: int|
            m.items.len() <= j < k < model_add_all(m, reqs).items.len()
                ==> #[trigger] model_add_all(m, reqs).items[j].id
                < #[trigger] model_add_all(m, reqs).items[k].id,
        ids_below_next(model_add_all(m, reqs)),
        ids_unique(model_add_all(m, reqs).items),
    decreases reqs.len(),
{
    if reqs.len() > 0 {
        let m1 = model_add(m, reqs[0].name, reqs[0].url, reqs[0].now);
        assert(m1.items.len() == m.items.len() + 1);
        assert(m1.items[m.items.len() as int].id == m.next_id);
        assert forall|j: int, k: int| 0 <= j < k < m1.items.len() implies #[trigger] m1.items[j].id
            != #[trigger] m1.items[k].id by {
            if k < m.items.len() {
                assert(m1.items[j] == m.items[j]);
                assert(m1.items[k] == m.items[k]);
            } else {
                assert(m1.items[j] == m.items[j]);
                assert(m.items[j].id < m.next_id);
            }
        }
        lemma_adds_yield_increasing_unique_ids(m1, reqs.drop_first());
        let r = model_add_all(m, reqs);
        assert(r == model_add_all(m1, reqs.drop_first()));
        assert forall|k: int|
            m.items.len() <= k < r.items.len() implies #[trigger] r.items[k].id == m.next_id + (k
            - m.items.len()) by {
            if k < m1.items.len() {
                assert(r.items[k] == m1.items[k]);
            }
        }
    }
}

/// Removing an id that no item carries changes nothing.
proof fn lemma_model_remove_items_absent(items: Seq<ItemModel>, id: int)
    requires
        forall|k: int| 0 <= k < items.len() ==> #[trigger] items[k].id != id,
    ensures
        model_remove_items(items, id) == items,
    decreases items.len(),
{
    if items.len() > 0 {
        lemma_model_remove_items_absent(items.drop_last(), id);
        assert(model_remove_items(items, id) =~= items.drop_last().push(items.last()));
        assert(items.drop_last().push(items.last()) =~= items);
    }
}

} // verus!
