//! The persistence layer's logic: turning state into persisted text and
//! persisted text back into state, falling back to the empty default on
//! anything malformed. Reading and writing the file itself is the host's
//! business; these functions see only the text.

use vstd::prelude::*;
use crate::codec::{decode_app_data, encode_app_data, spec_decode, spec_encode, lemma_decode_encode};
use crate::data::{AppData, AppModel, empty_model, ids_below_next, ids_in_range, ids_unique, wf_model};
use crate::text::{chars_to_string, str_to_chars};

verus! {

/// Decide whether a decoded state satisfies the invariant: ids unique, each
/// strictly below the counter.
fn check_wf(d: &AppData) -> (r: bool)
    ensures
        r == wf_model(d@),
{
    proof {
        assert(ids_in_range(d@)) by {
            assert(forall|k: int|
                0 <= k < d@.items.len() ==> i32::MIN <= #[trigger] d@.items[k].id <= i32::MAX);
        }
    }
    let n = d.items.len();
    let mut i: usize = 0;
    while i < n
        invariant
            i <= n,
            n == d.items.len(),
            forall|k: int| 0 <= k < i as int ==> #[trigger] d@.items[k].id < d@.next_id,
        decreases n - i,
    {
        if d.items[i].id >= d.next_id {
            proof {
                assert(d@.items[i as int].id >= d@.next_id);
                assert(!ids_below_next(d@));
            }
            return false;
        }
        i = i + 1;
    }
    proof {
        assert(ids_below_next(d@));
    }
    let mut a: usize = 0;
    while a < n
        invariant
            a <= n,
            n == d.items.len(),
            forall|j: int, k: int|
                0 <= j < k < n as int && j < a as int ==> #[trigger] d@.items[j].id
                    != #[trigger] d@.items[k].id,
            ids_below_next(d@),
        decreases n - a,
    {
        let mut b: usize = a + 1;
        while b < n
            invariant
                a < b <= n,
                a < n,
                n == d.items.len(),
                forall|j: int, k: int|
                    0 <= j < k < n as int && j < a as int ==> #[trigger] d@.items[j].id
                        != #[trigger] d@.items[k].id,
                forall|k: int|
                    (a as int) < k < b as int ==> #[trigger] d@.items[a as int].id
                        != d@.items[k].id,
                ids_below_next(d@),
            decreases n - b,
        {
            if d.items[a].id == d.items[b].id {
                proof {
                    assert(d@.items[a as int].id == d@.items[b as int].id);
                    assert((a as int) < (b as int) && (b as int) < d@.items.len());
                    assert(!ids_unique(d@.items));
                }
                return false;
            }
            b = b + 1;
        }
        a = a + 1;
    }
    proof {
        assert(ids_unique(d@.items));
    }
    true
}

/// The state a persisted text stands for: the decoded state where the text is
/// well formed, the empty default anywhere else — a missing or unreadable
/// file, malformed text, or text that breaks the id invariant. Never an
/// error.
///
/// Discarding a decodable state whose ids are duplicated or not below the
/// counter is a deliberate reading of "valid" in the data model: only states
/// satisfying the invariant load, which is what entitles every operation to
/// assume it. A plain deserializer would have accepted such a hand-crafted
/// file as stored.
pub fn load_app_data(content: Option<&str>) -> (r: AppData)
    ensures
        r.wf(),
        content is None ==> r@ == empty_model(),
        content matches Some(s) ==> match spec_decode(s@) {
            Some(m) => r@ == (if wf_model(m) {
                m
            } else {
                empty_model()
            }),
            None => r@ == empty_model(),
        },
{
    match content {
        None => AppData::empty(),
        Some(s) => {
            let cs = str_to_chars(s);
            match decode_app_data(&cs) {
                None => AppData::empty(),
                Some(d) => {
                    if check_wf(&d) {
                        d
                    } else {
                        AppData::empty()
                    }
                },
            }
        },
    }
}

/// The persisted text of a state.
pub fn save_app_data(d: &AppData) -> (r: String)
    ensures
        r@ == spec_encode(d@),
{
    let cs = encode_app_data(d);
    chars_to_string(&cs)
}

/// Law: saving and loading round-trips. A well-formed state decodes back
/// identically from its own persisted text, so a load after a save yields the
/// same item list and the same counter.
pub proof fn lemma_save_load_round_trip(m: AppModel)
    requires
        wf_model(m),
    ensures
        spec_decode(spec_encode(m)) == Some(m),
{
    lemma_decode_encode(m);
}

} // verus!
