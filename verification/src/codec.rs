//! The persisted text format: a pretty-printed JSON object holding the item
//! list and the id counter. The encoder and decoder are both specified at the
//! model level, and decoding is proved to invert encoding.

use vstd::prelude::*;
use crate::data::{AppData, AppModel, ItemModel, WatchedItemData, ids_in_range};
use crate::json::{
    all_ws, escape_str, expect_tok, int_chars, is_digit, is_ws, parse_i32, parse_string, skip_ws,
    lemma_expect_tok_round, lemma_parse_i32_round, lemma_parse_string_round, lemma_seq_add_assoc,
    lemma_skip_ws_all_ws, chars_eq, expect_at, parse_i32_at, parse_string_at, skip_ws_at,
    push_escaped, push_i32_chars,
};
use crate::text::{chars_to_string, push_str_chars, str_to_chars};

verus! {

// ---------------------------------------------------------------------------
// The encoder, at the model level
// ---------------------------------------------------------------------------
/// One integer member, on its own indented line; the key is written as a
/// quoted string.
pub open spec fn fld_i32(key: Seq<char>, v: int) -> Seq<char> {
    "\n      "@ + "\""@ + escape_str(key) + "\""@ + ":"@ + " "@ + int_chars(v)
}

/// One string member, on its own indented line.
pub open spec fn fld_str(key: Seq<char>, t: Seq<char>) -> Seq<char> {
    "\n      "@ + "\""@ + escape_str(key) + "\""@ + ":"@ + " "@ + "\""@ + escape_str(t) + "\""@
}

/// One item as persisted text.
pub open spec fn encode_item(it: ItemModel) -> Seq<char> {
    "{"@ + fld_i32("id"@, it.id) + ","@ + fld_str("name"@, it.name) + ","@ + fld_str(
        "url"@,
        it.url,
    ) + ","@ + fld_str("current_price"@, it.current_price) + ","@ + fld_str(
        "last_updated"@,
        it.last_updated,
    ) + "\n    "@ + "}"@
}

/// A non-empty item list, one item per line.
pub open spec fn encode_items_body(items: Seq<ItemModel>) -> Seq<char>
    decreases items.len(),
{
    if items.len() == 0 {
        Seq::empty()
    } else if items.len() == 1 {
        encode_item(items[0])
    } else {
        encode_item(items[0]) + ","@ + "\n    "@ + encode_items_body(items.drop_first())
    }
}

/// The item list with its closing bracket; an empty list closes at once.
pub open spec fn encode_items(items: Seq<ItemModel>) -> Seq<char> {
    if items.len() == 0 {
        "]"@
    } else {
        "\n    "@ + encode_items_body(items) + "\n  "@ + "]"@
    }
}

/// The whole persisted document.
pub open spec fn spec_encode(m: AppModel) -> Seq<char> {
    "{"@ + "\n  "@ + "\""@ + escape_str("items"@) + "\""@ + ":"@ + " "@ + "["@ + encode_items(
        m.items,
    ) + ","@ + "\n  "@ + "\""@ + escape_str("next_id"@) + "\""@ + ":"@ + " "@ + int_chars(
        m.next_id,
    ) + "\n"@ + "}"@
}

// ---------------------------------------------------------------------------
// The decoder, at the model level
// ---------------------------------------------------------------------------
/// An item object being read: each member seen so far, by name.
pub ghost struct PartialItem {
    pub id: Option<int>,
    pub name: Option<Seq<char>>,
    pub url: Option<Seq<char>>,
    pub current_price: Option<Seq<char>>,
    pub last_updated: Option<Seq<char>>,
}

pub open spec fn empty_partial_item() -> PartialItem {
    PartialItem { id: None, name: None, url: None, current_price: None, last_updated: None }
}

/// One parsed item member folded into the record: a repeated or unknown
/// member name is malformed.
pub open spec fn item_member(p: PartialItem, key: Seq<char>, s: Seq<char>) -> Option<
    (PartialItem, Seq<char>),
> {
    if key == "id"@ {
        if p.id is Some {
            None
        } else {
            match parse_i32(s) {
                None => None,
                Some((v, s2)) => Some(
                    (
                        PartialItem {
                            id: Some(v),
                            name: p.name,
                            url: p.url,
                            current_price: p.current_price,
                            last_updated: p.last_updated,
                        },
                        s2,
                    ),
                ),
            }
        }
    } else if key == "name"@ {
        if p.name is Some {
            None
        } else {
            match parse_string(s) {
                None => None,
                Some((t, s2)) => Some(
                    (
                        PartialItem {
                            id: p.id,
                            name: Some(t),
                            url: p.url,
                            current_price: p.current_price,
                            last_updated: p.last_updated,
                        },
                        s2,
                    ),
                ),
            }
        }
    } else if key == "url"@ {
        if p.url is Some {
            None
        } else {
            match parse_string(s) {
                None => None,
                Some((t, s2)) => Some(
                    (
                        PartialItem {
                            id: p.id,
                            name: p.name,
                            url: Some(t),
                            current_price: p.current_price,
                            last_updated: p.last_updated,
                        },
                        s2,
                    ),
                ),
            }
        }
    } else if key == "current_price"@ {
        if p.current_price is Some {
            None
        } else {
            match parse_string(s) {
                None => None,
                Some((t, s2)) => Some(
                    (
                        PartialItem {
                            id: p.id,
                            name: p.name,
                            url: p.url,
                            current_price: Some(t),
                            last_updated: p.last_updated,
                        },
                        s2,
                    ),
                ),
            }
        }
    } else if key == "last_updated"@ {
        if p.last_updated is Some {
            None
        } else {
            match parse_string(s) {
                None => None,
                Some((t, s2)) => Some(
                    (
                        PartialItem {
                            id: p.id,
                            name: p.name,
                            url: p.url,
                            current_price: p.current_price,
                            last_updated: Some(t),
                        },
                        s2,
                    ),
                ),
            }
        }
    } else {
        None
    }
}

/// The members of an item object, in any order, up to the closing brace; all
/// five must be present exactly once.
pub open spec fn parse_item_members(s: Seq<char>, p: PartialItem) -> Option<
    (ItemModel, Seq<char>),
>
    decreases s.len(),
{
    match parse_string(s) {
        None => None,
        Some((key, s1)) => match expect_tok(s1, ":"@) {
            None => None,
            Some(s2) => match item_member(p, key, s2) {
                None => None,
                Some((p2, s3)) => {
                    let s4 = skip_ws(s3);
                    if s4.len() == 0 {
                        None
                    } else if s4[0] == ',' {
                        if s4.drop_first().len() < s.len() {
                            parse_item_members(s4.drop_first(), p2)
                        } else {
                            None
                        }
                    } else if s4[0] == '}' {
                        if p2.id is Some && p2.name is Some && p2.url is Some
                            && p2.current_price is Some && p2.last_updated is Some {
                            Some(
                                (
                                    ItemModel {
                                        id: p2.id->0,
                                        name: p2.name->0,
                                        url: p2.url->0,
                                        current_price: p2.current_price->0,
                                        last_updated: p2.last_updated->0,
                                    },
                                    s4.drop_first(),
                                ),
                            )
                        } else {
                            None
                        }
                    } else {
                        None
                    }
                },
            },
        },
    }
}

/// One item object: a brace, then its five members in any order.
pub open spec fn parse_item(s: Seq<char>) -> Option<(ItemModel, Seq<char>)> {
    match expect_tok(s, "{"@) {
        None => None,
        Some(s1) => parse_item_members(s1, empty_partial_item()),
    }
}

/// The items between `[` and `]`, comma separated, folded onto `acc`.
pub open spec fn parse_items(s: Seq<char>, acc: Seq<ItemModel>) -> Option<
    (Seq<ItemModel>, Seq<char>),
>
    decreases s.len(),
{
    let s1 = skip_ws(s);
    if s1.len() == 0 {
        None
    } else if s1[0] == ']' {
        Some((acc, s1.drop_first()))
    } else {
        match parse_item(s) {
            None => None,
            Some((it, s2)) => {
                let s3 = skip_ws(s2);
                if s3.len() == 0 {
                    None
                } else if s3[0] == ',' {
                    if s3.drop_first().len() < s.len() {
                        parse_items(s3.drop_first(), acc.push(it))
                    } else {
                        None
                    }
                } else if s3[0] == ']' {
                    Some((acc.push(it), s3.drop_first()))
                } else {
                    None
                }
            },
        }
    }
}

/// One parsed top-level member folded in: a repeated or unknown member name
/// is malformed.
pub open spec fn top_member(
    items_o: Option<Seq<ItemModel>>,
    nid_o: Option<int>,
    key: Seq<char>,
    s: Seq<char>,
) -> Option<(Option<Seq<ItemModel>>, Option<int>, Seq<char>)> {
    if key == "items"@ {
        if items_o is Some {
            None
        } else {
            match expect_tok(s, "["@) {
                None => None,
                Some(s2) => match parse_items(s2, Seq::empty()) {
                    None => None,
                    Some((its, s3)) => Some((Some(its), nid_o, s3)),
                },
            }
        }
    } else if key == "next_id"@ {
        if nid_o is Some {
            None
        } else {
            match parse_i32(s) {
                None => None,
                Some((v, s3)) => Some((items_o, Some(v), s3)),
            }
        }
    } else {
        None
    }
}

/// The members of the top-level object, in any order, up to its closing
/// brace; both must be present exactly once.
pub open spec fn parse_top_members(
    s: Seq<char>,
    items_o: Option<Seq<ItemModel>>,
    nid_o: Option<int>,
) -> Option<(AppModel, Seq<char>)>
    decreases s.len(),
{
    match parse_string(s) {
        None => None,
        Some((key, s1)) => match expect_tok(s1, ":"@) {
            None => None,
            Some(s2) => match top_member(items_o, nid_o, key, s2) {
                None => None,
                Some((io2, no2, s3)) => {
                    let s4 = skip_ws(s3);
                    if s4.len() == 0 {
                        None
                    } else if s4[0] == ',' {
                        if s4.drop_first().len() < s.len() {
                            parse_top_members(s4.drop_first(), io2, no2)
                        } else {
                            None
                        }
                    } else if s4[0] == '}' {
                        if io2 is Some && no2 is Some {
                            Some((AppModel { items: io2->0, next_id: no2->0 }, s4.drop_first()))
                        } else {
                            None
                        }
                    } else {
                        None
                    }
                },
            },
        },
    }
}

/// The whole persisted document: a brace, its two members in any order, the
/// closing brace; anything after it but whitespace is malformed.
pub open spec fn spec_decode(s: Seq<char>) -> Option<AppModel> {
    match expect_tok(s, "{"@) {
        None => None,
        Some(s1) => match parse_top_members(s1, None, None) {
            None => None,
            Some((m, s2)) => if skip_ws(s2).len() == 0 {
                Some(m)
            } else {
                None
            },
        },
    }
}

// ---------------------------------------------------------------------------
// The item text, continuation style: each suffix of one item's text is a
// named function of the item and of what follows the item, so that the
// round-trip proof can walk it token by token.
// ---------------------------------------------------------------------------
spec fn t_end(rest: Seq<char>) -> Seq<char> {
    "\n    "@ + "}"@ + rest
}

spec fn t_lu(it: ItemModel, rest: Seq<char>) -> Seq<char> {
    fld_str("last_updated"@, it.last_updated) + t_end(rest)
}

spec fn t_comma_lu(it: ItemModel, rest: Seq<char>) -> Seq<char> {
    ","@ + t_lu(it, rest)
}

spec fn t_price(it: ItemModel, rest: Seq<char>) -> Seq<char> {
    fld_str("current_price"@, it.current_price) + t_comma_lu(it, rest)
}

spec fn t_comma_price(it: ItemModel, rest: Seq<char>) -> Seq<char> {
    ","@ + t_price(it, rest)
}

spec fn t_url(it: ItemModel, rest: Seq<char>) -> Seq<char> {
    fld_str("url"@, it.url) + t_comma_price(it, rest)
}

spec fn t_comma_url(it: ItemModel, rest: Seq<char>) -> Seq<char> {
    ","@ + t_url(it, rest)
}

spec fn t_name(it: ItemModel, rest: Seq<char>) -> Seq<char> {
    fld_str("name"@, it.name) + t_comma_url(it, rest)
}

spec fn t_comma_name(it: ItemModel, rest: Seq<char>) -> Seq<char> {
    ","@ + t_name(it, rest)
}

spec fn t_id(it: ItemModel, rest: Seq<char>) -> Seq<char> {
    fld_i32("id"@, it.id) + t_comma_name(it, rest)
}

spec fn item_text(it: ItemModel, rest: Seq<char>) -> Seq<char> {
    "{"@ + t_id(it, rest)
}

/// Reveal every fixed token of the format at once.
proof fn reveal_format_tokens()
    ensures
        "{"@.len() == 1 && "{"@[0] == '{',
        "}"@.len() == 1 && "}"@[0] == '}',
        "["@.len() == 1 && "["@[0] == '[',
        "]"@.len() == 1 && "]"@[0] == ']',
        ","@.len() == 1 && ","@[0] == ',',
        ":"@.len() == 1 && ":"@[0] == ':',
        " "@.len() == 1 && " "@[0] == ' ',
        "\n"@.len() == 1 && "\n"@[0] == '\n',
        "\""@.len() == 1 && "\""@[0] == '"',
        all_ws("\n  "@),
        all_ws("\n    "@),
        all_ws("\n      "@),
        all_ws("\n"@),
        all_ws(" "@),
        "id"@.len() == 2,
        "name"@.len() == 4,
        "url"@.len() == 3,
        "current_price"@.len() == 13,
        "last_updated"@.len() == 12,
        "items"@.len() == 5,
        "next_id"@.len() == 7,
{
    reveal_strlit("{");
    reveal_strlit("}");
    reveal_strlit("[");
    reveal_strlit("]");
    reveal_strlit(",");
    reveal_strlit(":");
    reveal_strlit(" ");
    reveal_strlit("\n");
    reveal_strlit("\"");
    reveal_strlit("\n  ");
    reveal_strlit("\n    ");
    reveal_strlit("\n      ");
    reveal_strlit("id");
    reveal_strlit("name");
    reveal_strlit("url");
    reveal_strlit("current_price");
    reveal_strlit("last_updated");
    reveal_strlit("items");
    reveal_strlit("next_id");
    assert forall|k: int| 0 <= k < "\n  "@.len() implies is_ws(#[trigger] "\n  "@[k]) by {
        assert("\n  "@[0] == '\n' && "\n  "@[1] == ' ' && "\n  "@[2] == ' ');
    }
    assert forall|k: int| 0 <= k < "\n    "@.len() implies is_ws(#[trigger] "\n    "@[k]) by {
        assert("\n    "@[0] == '\n');
        assert(forall|m: int| 1 <= m < 5 ==> "\n    "@[m] == ' ');
    }
    assert forall|k: int| 0 <= k < "\n      "@.len() implies is_ws(#[trigger] "\n      "@[k]) by {
        assert("\n      "@[0] == '\n');
        assert(forall|m: int| 1 <= m < 7 ==> "\n      "@[m] == ' ');
    }
}

/// The flat encoding of one item is its continuation-style text.
#[verifier::rlimit(100)]
proof fn lemma_encode_item_text(it: ItemModel, rest: Seq<char>)
    ensures
        encode_item(it) + rest == item_text(it, rest),
{
    assert(encode_item(it) + rest =~= item_text(it, rest));
}

/// An item's text is longer than what follows it.
proof fn lemma_item_text_len(it: ItemModel, rest: Seq<char>)
    ensures
        item_text(it, rest).len() > rest.len(),
{
    reveal_format_tokens();
    assert(t_end(rest).len() >= rest.len());
    assert(t_lu(it, rest).len() >= t_end(rest).len());
    assert(t_comma_lu(it, rest).len() >= t_lu(it, rest).len());
    assert(t_price(it, rest).len() >= t_comma_lu(it, rest).len());
    assert(t_comma_price(it, rest).len() >= t_price(it, rest).len());
    assert(t_url(it, rest).len() >= t_comma_price(it, rest).len());
    assert(t_comma_url(it, rest).len() >= t_url(it, rest).len());
    assert(t_name(it, rest).len() >= t_comma_url(it, rest).len());
    assert(t_comma_name(it, rest).len() >= t_name(it, rest).len());
    assert(t_id(it, rest).len() >= t_comma_name(it, rest).len());
    assert(item_text(it, rest).len() > t_id(it, rest).len());
}

// ---------------------------------------------------------------------------
// Decoding inverts encoding
// ---------------------------------------------------------------------------
proof fn lemma_member_i32(v: int, w: Seq<char>, key: Seq<char>, rest: Seq<char>)
    requires
        all_ws(w),
        rest.len() == 0 || !is_digit(rest[0]),
        i32::MIN <= v <= i32::MAX,
    ensures
        parse_string(w + "\""@ + escape_str(key) + "\""@ + ":"@ + " "@ + int_chars(v) + rest)
            == Some((key, ":"@ + (" "@ + (int_chars(v) + rest)))),
        expect_tok(":"@ + (" "@ + (int_chars(v) + rest)), ":"@) == Some(
            " "@ + (int_chars(v) + rest),
        ),
        parse_i32(" "@ + (int_chars(v) + rest)) == Some((v, rest)),
{
    reveal_strlit(":");
    reveal_strlit(" ");
    let r1 = ":"@ + (" "@ + (int_chars(v) + rest));
    assert(w + "\""@ + escape_str(key) + "\""@ + ":"@ + " "@ + int_chars(v) + rest =~= w + "\""@
        + escape_str(key) + "\""@ + r1);
    lemma_parse_string_round(key, w, r1);
    assert(Seq::<char>::empty() + ":"@ + (" "@ + (int_chars(v) + rest)) =~= r1);
    assert(!is_ws(":"@[0]));
    lemma_expect_tok_round(Seq::empty(), ":"@, " "@ + (int_chars(v) + rest));
    assert(" "@ + (int_chars(v) + rest) =~= " "@ + int_chars(v) + rest);
    assert(all_ws(" "@));
    lemma_parse_i32_round(v, " "@, rest);
}

proof fn lemma_member_str(t: Seq<char>, w: Seq<char>, key: Seq<char>, rest: Seq<char>)
    requires
        all_ws(w),
    ensures
        parse_string(
            w + "\""@ + escape_str(key) + "\""@ + ":"@ + " "@ + "\""@ + escape_str(t) + "\""@
                + rest,
        ) == Some((key, ":"@ + (" "@ + "\""@ + escape_str(t) + "\""@ + rest))),
        expect_tok(":"@ + (" "@ + "\""@ + escape_str(t) + "\""@ + rest), ":"@) == Some(
            " "@ + "\""@ + escape_str(t) + "\""@ + rest,
        ),
        parse_string(" "@ + "\""@ + escape_str(t) + "\""@ + rest) == Some((t, rest)),
{
    reveal_strlit(":");
    reveal_strlit(" ");
    let r2 = " "@ + "\""@ + escape_str(t) + "\""@ + rest;
    let r1 = ":"@ + r2;
    assert(w + "\""@ + escape_str(key) + "\""@ + ":"@ + " "@ + "\""@ + escape_str(t) + "\""@
        + rest =~= w + "\""@ + escape_str(key) + "\""@ + r1);
    lemma_parse_string_round(key, w, r1);
    assert(Seq::<char>::empty() + ":"@ + r2 =~= r1);
    assert(!is_ws(":"@[0]));
    lemma_expect_tok_round(Seq::empty(), ":"@, r2);
    assert(all_ws(" "@));
    lemma_parse_string_round(t, " "@, rest);
}

#[verifier::rlimit(100)]
proof fn lemma_parse_item_round(it: ItemModel, w: Seq<char>, rest: Seq<char>)
    requires
        all_ws(w),
        i32::MIN <= it.id <= i32::MAX,
    ensures
        parse_item(w + item_text(it, rest)) == Some((it, rest)),
{
    reveal_format_tokens();
    let s = w + item_text(it, rest);
    lemma_seq_add_assoc(w, "{"@, t_id(it, rest));
    lemma_expect_tok_round(w, "{"@, t_id(it, rest));
    assert(expect_tok(s, "{"@) == Some(t_id(it, rest)));
    let p0 = empty_partial_item();
    let p1 = PartialItem {
        id: Some(it.id),
        name: None,
        url: None,
        current_price: None,
        last_updated: None,
    };
    let p2 = PartialItem {
        id: Some(it.id),
        name: Some(it.name),
        url: None,
        current_price: None,
        last_updated: None,
    };
    let p3 = PartialItem {
        id: Some(it.id),
        name: Some(it.name),
        url: Some(it.url),
        current_price: None,
        last_updated: None,
    };
    let p4 = PartialItem {
        id: Some(it.id),
        name: Some(it.name),
        url: Some(it.url),
        current_price: Some(it.current_price),
        last_updated: None,
    };
    assert(t_comma_name(it, rest)[0] == ',');
    assert(!is_digit(','));
    lemma_member_i32(it.id, "\n      "@, "id"@, t_comma_name(it, rest));
    assert(skip_ws(t_comma_name(it, rest)) == t_comma_name(it, rest));
    assert(t_comma_name(it, rest).drop_first() =~= t_name(it, rest));
    assert(t_id(it, rest).len() > t_name(it, rest).len());
    assert(parse_string(
        "\n      "@ + "\""@ + escape_str("id"@) + "\""@ + ":"@ + " "@ + int_chars(it.id)
            + t_comma_name(it, rest),
    ) == Some(("id"@, ":"@ + (" "@ + (int_chars(it.id) + t_comma_name(it, rest))))));
    assert(fld_i32("id"@, it.id) == "\n      "@ + "\""@ + escape_str("id"@) + "\""@ + ":"@ + " "@
        + int_chars(it.id));
    assert(t_id(it, rest) == fld_i32("id"@, it.id) + t_comma_name(it, rest));
    assert(t_id(it, rest) == "\n      "@ + "\""@ + escape_str("id"@) + "\""@ + ":"@ + " "@
        + int_chars(it.id) + t_comma_name(it, rest));
    assert(parse_string(t_id(it, rest)) == Some(
        ("id"@, ":"@ + (" "@ + (int_chars(it.id) + t_comma_name(it, rest)))),
    ));
    assert(item_member(p0, "id"@, " "@ + (int_chars(it.id) + t_comma_name(it, rest))) == Some(
        (p1, t_comma_name(it, rest)),
    ));
    assert(parse_item_members(t_id(it, rest), p0) == parse_item_members(t_name(it, rest), p1));
    lemma_member_str(it.name, "\n      "@, "name"@, t_comma_url(it, rest));
    assert(t_comma_url(it, rest)[0] == ',');
    assert(skip_ws(t_comma_url(it, rest)) == t_comma_url(it, rest));
    assert(t_comma_url(it, rest).drop_first() =~= t_url(it, rest));
    assert(t_name(it, rest).len() > t_url(it, rest).len());
    assert(parse_item_members(t_name(it, rest), p1) == parse_item_members(t_url(it, rest), p2));
    lemma_member_str(it.url, "\n      "@, "url"@, t_comma_price(it, rest));
    assert(t_comma_price(it, rest)[0] == ',');
    assert(skip_ws(t_comma_price(it, rest)) == t_comma_price(it, rest));
    assert(t_comma_price(it, rest).drop_first() =~= t_price(it, rest));
    assert(t_url(it, rest).len() > t_price(it, rest).len());
    assert(parse_item_members(t_url(it, rest), p2) == parse_item_members(t_price(it, rest), p3));
    lemma_member_str(it.current_price, "\n      "@, "current_price"@, t_comma_lu(it, rest));
    assert(t_comma_lu(it, rest)[0] == ',');
    assert(skip_ws(t_comma_lu(it, rest)) == t_comma_lu(it, rest));
    assert(t_comma_lu(it, rest).drop_first() =~= t_lu(it, rest));
    assert(t_price(it, rest).len() > t_lu(it, rest).len());
    assert(parse_item_members(t_price(it, rest), p3) == parse_item_members(t_lu(it, rest), p4));
    lemma_member_str(it.last_updated, "\n      "@, "last_updated"@, t_end(rest));
    assert(t_end(rest) =~= "\n    "@ + ("}"@ + rest));
    lemma_skip_ws_all_ws("\n    "@, "}"@ + rest);
    assert(("}"@ + rest)[0] == '}');
    assert(skip_ws("}"@ + rest) == "}"@ + rest);
    assert(skip_ws(t_end(rest)) == "}"@ + rest);
    assert(("}"@ + rest).drop_first() =~= rest);
    assert(ItemModel {
        id: it.id,
        name: it.name,
        url: it.url,
        current_price: it.current_price,
        last_updated: it.last_updated,
    } =~= it);
    assert(parse_item_members(t_lu(it, rest), p4) == Some((it, rest)));
}

/// Ids of every item fit the id type.
pub open spec fn items_ids_in_range(items: Seq<ItemModel>) -> bool {
    forall|k: int| 0 <= k < items.len() ==> i32::MIN <= #[trigger] items[k].id <= i32::MAX
}

/// A non-empty item list with its closing bracket, continuation style.
spec fn items_text(items: Seq<ItemModel>, rest: Seq<char>) -> Seq<char>
    decreases items.len(),
{
    if items.len() <= 1 {
        item_text(items[0], "\n  "@ + ("]"@ + rest))
    } else {
        item_text(items[0], ","@ + ("\n    "@ + items_text(items.drop_first(), rest)))
    }
}

/// The flat encoding of a non-empty list, bracket included, is its
/// continuation-style text.
proof fn lemma_encode_items_text(items: Seq<ItemModel>, rest: Seq<char>)
    requires
        items.len() > 0,
    ensures
        encode_items_body(items) + ("\n  "@ + ("]"@ + rest)) == items_text(items, rest),
    decreases items.len(),
{
    if items.len() == 1 {
        lemma_encode_item_text(items[0], "\n  "@ + ("]"@ + rest));
    } else {
        let tailc = "\n  "@ + ("]"@ + rest);
        let body1 = encode_items_body(items.drop_first());
        lemma_seq_add_assoc(encode_item(items[0]) + ","@ + "\n    "@, body1, tailc);
        lemma_seq_add_assoc(encode_item(items[0]) + ","@, "\n    "@, body1 + tailc);
        lemma_seq_add_assoc(encode_item(items[0]), ","@, "\n    "@ + (body1 + tailc));
        lemma_encode_items_text(items.drop_first(), rest);
        lemma_encode_item_text(items[0], ","@ + ("\n    "@ + items_text(items.drop_first(), rest)));
    }
}

proof fn lemma_parse_items_round(
    items: Seq<ItemModel>,
    w: Seq<char>,
    rest: Seq<char>,
    acc: Seq<ItemModel>,
)
    requires
        items.len() > 0,
        all_ws(w),
        items_ids_in_range(items),
    ensures
        parse_items(w + items_text(items, rest), acc) == Some((acc + items, rest)),
    decreases items.len(),
{
    reveal_format_tokens();
    let s = w + items_text(items, rest);
    let x = items_text(items, rest);
    lemma_skip_ws_all_ws(w, x);
    assert(x[0] == '{');
    assert(!is_ws(x[0]));
    assert(skip_ws(x) == x);
    assert(x[0] != ']');
    if items.len() == 1 {
        let after = "\n  "@ + ("]"@ + rest);
        lemma_parse_item_round(items[0], w, after);
        assert(parse_item(s) == Some((items[0], after)));
        lemma_skip_ws_all_ws("\n  "@, "]"@ + rest);
        assert(("]"@ + rest)[0] == ']');
        assert(skip_ws("]"@ + rest) == "]"@ + rest);
        assert(skip_ws(after) == "]"@ + rest);
        assert(("]"@ + rest).drop_first() =~= rest);
        assert(acc.push(items[0]) =~= acc + items);
    } else {
        let after = ","@ + ("\n    "@ + items_text(items.drop_first(), rest));
        lemma_parse_item_round(items[0], w, after);
        assert(parse_item(s) == Some((items[0], after)));
        assert(after[0] == ',');
        assert(!is_ws(after[0]));
        assert(skip_ws(after) == after);
        let nxt = "\n    "@ + items_text(items.drop_first(), rest);
        assert(after.drop_first() =~= nxt);
        lemma_item_text_len(items[0], after);
        assert(s.len() > nxt.len());
        assert(items_ids_in_range(items.drop_first()));
        lemma_parse_items_round(items.drop_first(), "\n    "@, rest, acc.push(items[0]));
        assert(acc.push(items[0]) + items.drop_first() =~= acc + items);
    }
}

/// The encoded item list, with whatever follows its closing bracket, parses
/// back to the list.
#[verifier::rlimit(100)]
proof fn lemma_parse_items_of_encoding(items: Seq<ItemModel>, r5: Seq<char>)
    requires
        items_ids_in_range(items),
    ensures
        parse_items(encode_items(items) + r5, Seq::empty()) == Some((items, r5)),
{
    reveal_format_tokens();
    let enc = encode_items(items);
    if items.len() == 0 {
        assert(enc == "]"@);
        assert((enc + r5)[0] == ']');
        assert(skip_ws(enc + r5) == enc + r5);
        assert((enc + r5).drop_first() =~= r5);
        assert(parse_items(enc + r5, Seq::empty()) == Some((Seq::<ItemModel>::empty(), r5)));
        assert(Seq::<ItemModel>::empty() =~= items);
    } else {
        let body = encode_items_body(items);
        assert(enc == "\n    "@ + body + "\n  "@ + "]"@);
        lemma_seq_add_assoc("\n    "@ + body + "\n  "@, "]"@, r5);
        lemma_seq_add_assoc("\n    "@ + body, "\n  "@, "]"@ + r5);
        lemma_seq_add_assoc("\n    "@, body, "\n  "@ + ("]"@ + r5));
        assert(enc + r5 == "\n    "@ + (body + ("\n  "@ + ("]"@ + r5))));
        lemma_encode_items_text(items, r5);
        assert(enc + r5 == "\n    "@ + items_text(items, r5));
        lemma_parse_items_round(items, "\n    "@, r5, Seq::empty());
        assert(Seq::<ItemModel>::empty() + items =~= items);
    }
}

/// Law: decoding inverts encoding. Any state whose ids fit the id type comes
/// back identical from its own persisted text.
#[verifier::rlimit(100)]
pub proof fn lemma_decode_encode(m: AppModel)
    requires
        ids_in_range(m),
    ensures
        spec_decode(spec_encode(m)) == Some(m),
{
    reveal_format_tokens();
    let s = spec_encode(m);
    let rend = "\n"@ + ("}"@ + Seq::<char>::empty());
    let m_nid = "\n  "@ + "\""@ + escape_str("next_id"@) + "\""@ + ":"@ + " "@ + int_chars(
        m.next_id,
    ) + rend;
    let r5 = ","@ + m_nid;
    let enc = encode_items(m.items);
    let ra = ":"@ + (" "@ + ("["@ + (enc + r5)));
    let r1 = "\n  "@ + "\""@ + escape_str("items"@) + "\""@ + ra;
    assert(s =~= "{"@ + r1);
    assert(Seq::<char>::empty() + "{"@ + r1 =~= "{"@ + r1);
    lemma_expect_tok_round(Seq::empty(), "{"@, r1);
    assert(expect_tok(s, "{"@) == Some(r1));
    lemma_parse_string_round("items"@, "\n  "@, ra);
    assert(Seq::<char>::empty() + ":"@ + (" "@ + ("["@ + (enc + r5))) =~= ra);
    lemma_expect_tok_round(Seq::empty(), ":"@, " "@ + ("["@ + (enc + r5)));
    lemma_seq_add_assoc(" "@, "["@, enc + r5);
    assert(all_ws(" "@));
    lemma_expect_tok_round(" "@, "["@, enc + r5);
    lemma_parse_items_of_encoding(m.items, r5);
    assert(parse_items(enc + r5, Seq::empty()) == Some((m.items, r5)));
    assert(top_member(None, None, "items"@, " "@ + ("["@ + (enc + r5))) == Some(
        (Some(m.items), None::<int>, r5),
    ));
    assert(r5[0] == ',');
    assert(skip_ws(r5) == r5);
    assert(r5.drop_first() =~= m_nid);
    assert(r1.len() > m_nid.len());
    assert(parse_top_members(r1, None, None) == parse_top_members(m_nid, Some(m.items), None));
    assert(rend[0] == '\n');
    assert(!is_digit('\n'));
    lemma_member_i32(m.next_id, "\n  "@, "next_id"@, rend);
    lemma_skip_ws_all_ws("\n"@, "}"@ + Seq::<char>::empty());
    assert(("}"@ + Seq::<char>::empty())[0] == '}');
    assert(skip_ws("}"@ + Seq::<char>::empty()) == "}"@ + Seq::<char>::empty());
    assert(skip_ws(rend) == "}"@ + Seq::<char>::empty());
    assert(("}"@ + Seq::<char>::empty()).drop_first() =~= Seq::<char>::empty());
    assert(skip_ws(Seq::<char>::empty()).len() == 0);
    assert(AppModel { items: m.items, next_id: m.next_id } =~= m);
    assert(parse_top_members(m_nid, Some(m.items), None) == Some(
        (m, Seq::<char>::empty()),
    ));
}

// ---------------------------------------------------------------------------
// Executable encoder
// ---------------------------------------------------------------------------
/// Append one string member's text.
fn push_fld_str(out: &mut Vec<char>, key: &str, val: &String)
    ensures
        final(out)@ == old(out)@ + fld_str(key@, val@),
{
    push_str_chars(out, "\n      ");
    push_str_chars(out, "\"");
    let kc = str_to_chars(key);
    push_escaped(out, &kc);
    push_str_chars(out, "\"");
    push_str_chars(out, ":");
    push_str_chars(out, " ");
    push_str_chars(out, "\"");
    let cs = str_to_chars(val.as_str());
    push_escaped(out, &cs);
    push_str_chars(out, "\"");
    proof {
        assert(out@ =~= old(out)@ + fld_str(key@, val@));
    }
}

/// Append one item's persisted text.
#[verifier::rlimit(100)]
fn encode_item_into(out: &mut Vec<char>, it: &WatchedItemData)
    ensures
        final(out)@ == old(out)@ + encode_item(it@),
{
    push_str_chars(out, "{");
    push_str_chars(out, "\n      ");
    push_str_chars(out, "\"");
    let kc = str_to_chars("id");
    push_escaped(out, &kc);
    push_str_chars(out, "\"");
    push_str_chars(out, ":");
    push_str_chars(out, " ");
    push_i32_chars(out, it.id);
    proof {
        assert(out@ =~= old(out)@ + "{"@ + fld_i32("id"@, it@.id));
    }
    push_str_chars(out, ",");
    push_fld_str(out, "name", &it.name);
    push_str_chars(out, ",");
    push_fld_str(out, "url", &it.url);
    push_str_chars(out, ",");
    push_fld_str(out, "current_price", &it.current_price);
    push_str_chars(out, ",");
    push_fld_str(out, "last_updated", &it.last_updated);
    push_str_chars(out, "\n    ");
    push_str_chars(out, "}");
    proof {
        assert(out@ =~= old(out)@ + encode_item(it@));
    }
}

#[verifier::rlimit(100)]
proof fn lemma_encode_items_body_push(items: Seq<ItemModel>, x: ItemModel)
    requires
        items.len() > 0,
    ensures
        encode_items_body(items.push(x)) == encode_items_body(items) + ","@ + "\n    "@
            + encode_item(x),
    decreases items.len(),
{
    if items.len() == 1 {
        assert(items.push(x)[0] == items[0]);
        assert(items.push(x).drop_first() =~= seq![x]);
        assert(encode_items_body(seq![x]) == encode_item(x));
        assert(encode_items_body(items.push(x)) == encode_item(items[0]) + ","@ + "\n    "@
            + encode_item(x));
    } else {
        assert(items.push(x)[0] == items[0]);
        assert(items.push(x).drop_first() =~= items.drop_first().push(x));
        lemma_encode_items_body_push(items.drop_first(), x);
        lemma_seq_add_assoc(
            encode_item(items[0]) + ","@ + "\n    "@,
            encode_items_body(items.drop_first()),
            ","@ + "\n    "@ + encode_item(x),
        );
        assert(encode_items_body(items) + ","@ + "\n    "@ + encode_item(x) =~= encode_items_body(
            items,
        ) + (","@ + "\n    "@ + encode_item(x)));
        assert(encode_items_body(items.push(x)) =~= encode_items_body(items) + (","@ + "\n    "@
            + encode_item(x)));
    }
}

/// The whole state as persisted text, character by character.
pub fn encode_app_data(d: &AppData) -> (r: Vec<char>)
    ensures
        r@ == spec_encode(d@),
{
    let mut out: Vec<char> = Vec::new();
    push_str_chars(&mut out, "{");
    push_str_chars(&mut out, "\n  ");
    push_str_chars(&mut out, "\"");
    let key_items = str_to_chars("items");
    push_escaped(&mut out, &key_items);
    push_str_chars(&mut out, "\"");
    push_str_chars(&mut out, ":");
    push_str_chars(&mut out, " ");
    push_str_chars(&mut out, "[");
    let ghost head = "{"@ + "\n  "@ + "\""@ + escape_str("items"@) + "\""@ + ":"@ + " "@ + "["@;
    proof {
        assert(out@ =~= head);
    }
    let n = d.items.len();
    if n == 0 {
        push_str_chars(&mut out, "]");
        proof {
            assert(out@ =~= head + encode_items(d@.items));
        }
    } else {
        push_str_chars(&mut out, "\n    ");
        encode_item_into(&mut out, &d.items[0]);
        proof {
            assert(d.items[0]@ == d@.items[0]);
            assert(encode_items_body(d@.items.take(1)) == encode_item(d@.items[0])) by {
                assert(d@.items.take(1).len() == 1);
                assert(d@.items.take(1)[0] == d@.items[0]);
            }
            assert(out@ =~= head + "\n    "@ + encode_items_body(d@.items.take(1)));
        }
        let mut i: usize = 1;
        while i < n
            invariant
                1 <= i <= n,
                n == d.items.len(),
                out@ == head + "\n    "@ + encode_items_body(d@.items.take(i as int)),
            decreases n - i,
        {
            push_str_chars(&mut out, ",");
            push_str_chars(&mut out, "\n    ");
            encode_item_into(&mut out, &d.items[i]);
            proof {
                assert(d@.items.take(i as int + 1) =~= d@.items.take(i as int).push(
                    d@.items[i as int],
                ));
                lemma_encode_items_body_push(d@.items.take(i as int), d@.items[i as int]);
                assert(out@ =~= head + "\n    "@ + encode_items_body(d@.items.take(i as int + 1)));
            }
            i = i + 1;
        }
        push_str_chars(&mut out, "\n  ");
        push_str_chars(&mut out, "]");
        proof {
            assert(d@.items.take(n as int) =~= d@.items);
            assert(out@ =~= head + encode_items(d@.items));
        }
    }
    push_str_chars(&mut out, ",");
    push_str_chars(&mut out, "\n  ");
    push_str_chars(&mut out, "\"");
    let key_nid = str_to_chars("next_id");
    push_escaped(&mut out, &key_nid);
    push_str_chars(&mut out, "\"");
    push_str_chars(&mut out, ":");
    push_str_chars(&mut out, " ");
    push_i32_chars(&mut out, d.next_id);
    push_str_chars(&mut out, "\n");
    push_str_chars(&mut out, "}");
    proof {
        assert(out@ =~= spec_encode(d@));
    }
    out
}

// ---------------------------------------------------------------------------
// Executable decoder
// ---------------------------------------------------------------------------
/// The model-level content of an id slot.
pub open spec fn slot_int(o: Option<i32>) -> Option<int> {
    match o {
        Some(x) => Some(x as int),
        None => None,
    }
}

/// The model-level content of a string slot.
pub open spec fn slot_str(o: Option<String>) -> Option<Seq<char>> {
    match o {
        Some(s) => Some(s@),
        None => None,
    }
}

/// The model-level content of an item-list slot.
pub open spec fn slot_items(o: Option<Vec<WatchedItemData>>) -> Option<Seq<ItemModel>> {
    match o {
        Some(v) => Some(v@.map_values(|it: WatchedItemData| it@)),
        None => None,
    }
}

#[verifier::rlimit(100)]
fn parse_item_at(v: &Vec<char>, i: usize) -> (r: Option<(WatchedItemData, usize)>)
    requires
        i <= v.len(),
    ensures
        match parse_item(v@.skip(i as int)) {
            Some(p) => r is Some && ({
                let q = r->0;
                &&& q.0@ == p.0
                &&& i <= q.1 <= v.len()
                &&& v@.skip(q.1 as int) == p.1
            }),
            None => r is None,
        },
{
    let tok_lbrace = str_to_chars("{");
    let tok_colon = str_to_chars(":");
    let key_id = str_to_chars("id");
    let key_name = str_to_chars("name");
    let key_url = str_to_chars("url");
    let key_price = str_to_chars("current_price");
    let key_lu = str_to_chars("last_updated");
    let j0 = match expect_at(v, i, &tok_lbrace) {
        None => {
            return None;
        },
        Some(j) => j,
    };
    let mut sid: Option<i32> = None;
    let mut sname: Option<String> = None;
    let mut surl: Option<String> = None;
    let mut sprice: Option<String> = None;
    let mut slu: Option<String> = None;
    let mut cur = j0;
    loop
        invariant
            i <= cur <= v.len(),
            tok_colon@ == ":"@,
            key_id@ == "id"@,
            key_name@ == "name"@,
            key_url@ == "url"@,
            key_price@ == "current_price"@,
            key_lu@ == "last_updated"@,
            parse_item(v@.skip(i as int)) == parse_item_members(
                v@.skip(cur as int),
                (PartialItem {
                    id: slot_int(sid),
                    name: slot_str(sname),
                    url: slot_str(surl),
                    current_price: slot_str(sprice),
                    last_updated: slot_str(slu),
                }),
            ),
        decreases v.len() - cur,
    {
        let ghost pcur = PartialItem {
            id: slot_int(sid),
            name: slot_str(sname),
            url: slot_str(surl),
            current_price: slot_str(sprice),
            last_updated: slot_str(slu),
        };
        let (key, j1) = match parse_string_at(v, cur) {
            None => {
                return None;
            },
            Some(p) => p,
        };
        let j2 = match expect_at(v, j1, &tok_colon) {
            None => {
                proof {
                    assert(parse_item_members(v@.skip(cur as int), pcur) is None);
                }
                return None;
            },
            Some(j) => j,
        };
        proof {
            assert(parse_string(v@.skip(cur as int)) == Some((key@, v@.skip(j1 as int))));
            assert(expect_tok(v@.skip(j1 as int), ":"@) == Some(v@.skip(j2 as int)));
        }
        let j3: usize = if chars_eq(&key, &key_id) {
            if sid.is_some() {
                return None;
            }
            match parse_i32_at(v, j2) {
                None => {
                    return None;
                },
                Some((x, j)) => {
                    sid = Some(x);
                    j
                },
            }
        } else if chars_eq(&key, &key_name) {
            if sname.is_some() {
                return None;
            }
            match parse_string_at(v, j2) {
                None => {
                    return None;
                },
                Some((cs, j)) => {
                    let t = chars_to_string(&cs);
                    sname = Some(t);
                    j
                },
            }
        } else if chars_eq(&key, &key_url) {
            if surl.is_some() {
                return None;
            }
            match parse_string_at(v, j2) {
                None => {
                    return None;
                },
                Some((cs, j)) => {
                    let t = chars_to_string(&cs);
                    surl = Some(t);
                    j
                },
            }
        } else if chars_eq(&key, &key_price) {
            if sprice.is_some() {
                return None;
            }
            match parse_string_at(v, j2) {
                None => {
                    return None;
                },
                Some((cs, j)) => {
                    let t = chars_to_string(&cs);
                    sprice = Some(t);
                    j
                },
            }
        } else if chars_eq(&key, &key_lu) {
            if slu.is_some() {
                return None;
            }
            match parse_string_at(v, j2) {
                None => {
                    return None;
                },
                Some((cs, j)) => {
                    let t = chars_to_string(&cs);
                    slu = Some(t);
                    j
                },
            }
        } else {
            return None;
        };
        let ghost pnew = PartialItem {
            id: slot_int(sid),
            name: slot_str(sname),
            url: slot_str(surl),
            current_price: slot_str(sprice),
            last_updated: slot_str(slu),
        };
        proof {
            assert(item_member(pcur, key@, v@.skip(j2 as int)) == Some(
                (pnew, v@.skip(j3 as int)),
            ));
        }
        let j4 = skip_ws_at(v, j3);
        if j4 == v.len() {
            proof {
                assert(skip_ws(v@.skip(j3 as int)) =~= Seq::<char>::empty());
            }
            return None;
        }
        proof {
            assert(v@.skip(j4 as int)[0] == v@[j4 as int]);
        }
        if v[j4] == ',' {
            proof {
                assert(v@.skip(j4 as int).drop_first() =~= v@.skip(j4 as int + 1));
                assert(v@.skip(j4 as int + 1).len() < v@.skip(cur as int).len());
            }
            cur = j4 + 1;
        } else if v[j4] == '}' {
            proof {
                assert(v@.skip(j4 as int).drop_first() =~= v@.skip(j4 as int + 1));
            }
            match (sid, sname, surl, sprice, slu) {
                (Some(a), Some(b), Some(c), Some(dd), Some(e)) => {
                    let item = WatchedItemData {
                        id: a,
                        name: b,
                        url: c,
                        current_price: dd,
                        last_updated: e,
                    };
                    return Some((item, j4 + 1));
                },
                _ => {
                    return None;
                },
            }
        } else {
            return None;
        }
    }
}

fn parse_items_at(v: &Vec<char>, i: usize) -> (r: Option<(Vec<WatchedItemData>, usize)>)
    requires
        i <= v.len(),
    ensures
        match parse_items(v@.skip(i as int), Seq::empty()) {
            Some(p) => r is Some && ({
                let q = r->0;
                &&& q.0@.map_values(|it: WatchedItemData| it@) == p.0
                &&& i <= q.1 <= v.len()
                &&& v@.skip(q.1 as int) == p.1
            }),
            None => r is None,
        },
{
    let mut items: Vec<WatchedItemData> = Vec::new();
    let mut cur = i;
    proof {
        assert(items@.map_values(|it: WatchedItemData| it@) =~= Seq::<ItemModel>::empty());
    }
    loop
        invariant
            i <= cur <= v.len(),
            parse_items(v@.skip(i as int), Seq::empty()) == parse_items(
                v@.skip(cur as int),
                items@.map_values(|it: WatchedItemData| it@),
            ),
        decreases v.len() - cur,
    {
        let ghost acc_m = items@.map_values(|it: WatchedItemData| it@);
        let j1 = skip_ws_at(v, cur);
        if j1 == v.len() {
            proof {
                assert(v@.skip(j1 as int) =~= Seq::<char>::empty());
            }
            return None;
        }
        proof {
            assert(v@.skip(j1 as int)[0] == v@[j1 as int]);
        }
        if v[j1] == ']' {
            proof {
                assert(v@.skip(j1 as int).drop_first() =~= v@.skip(j1 as int + 1));
            }
            return Some((items, j1 + 1));
        }
        match parse_item_at(v, cur) {
            None => {
                return None;
            },
            Some((item, j2)) => {
                let j3 = skip_ws_at(v, j2);
                if j3 == v.len() {
                    proof {
                        assert(v@.skip(j3 as int) =~= Seq::<char>::empty());
                    }
                    return None;
                }
                proof {
                    assert(v@.skip(j3 as int)[0] == v@[j3 as int]);
                }
                if v[j3] == ',' {
                    proof {
                        assert(v@.skip(j3 as int).drop_first() =~= v@.skip(j3 as int + 1));
                        assert(v@.skip(j3 as int + 1).len() < v@.skip(cur as int).len());
                    }
                    items.push(item);
                    proof {
                        assert(items@.map_values(|it: WatchedItemData| it@) =~= acc_m.push(item@));
                    }
                    cur = j3 + 1;
                } else if v[j3] == ']' {
                    proof {
                        assert(v@.skip(j3 as int).drop_first() =~= v@.skip(j3 as int + 1));
                    }
                    items.push(item);
                    proof {
                        assert(items@.map_values(|it: WatchedItemData| it@) =~= acc_m.push(item@));
                    }
                    return Some((items, j3 + 1));
                } else {
                    return None;
                }
            },
        }
    }
}

/// Parse a whole persisted document; `None` on any malformation.
#[verifier::rlimit(100)]
pub fn decode_app_data(v: &Vec<char>) -> (r: Option<AppData>)
    ensures
        match spec_decode(v@) {
            Some(m) => r is Some && r->0@ == m,
            None => r is None,
        },
{
    let tok_lbrace = str_to_chars("{");
    let tok_lbrack = str_to_chars("[");
    let tok_colon = str_to_chars(":");
    let key_items = str_to_chars("items");
    let key_nid = str_to_chars("next_id");
    proof {
        assert(v@.skip(0) =~= v@);
    }
    let j0 = match expect_at(v, 0, &tok_lbrace) {
        None => {
            return None;
        },
        Some(j) => j,
    };
    let mut sitems: Option<Vec<WatchedItemData>> = None;
    let mut snid: Option<i32> = None;
    let mut cur = j0;
    loop
        invariant
            cur <= v.len(),
            tok_colon@ == ":"@,
            tok_lbrack@ == "["@,
            key_items@ == "items"@,
            key_nid@ == "next_id"@,
            match parse_top_members(v@.skip(cur as int), slot_items(sitems), slot_int(snid)) {
                Some(p) => spec_decode(v@) == (if skip_ws(p.1).len() == 0 {
                    Some(p.0)
                } else {
                    None::<AppModel>
                }),
                None => spec_decode(v@) is None,
            },
        decreases v.len() - cur,
    {
        let ghost io = slot_items(sitems);
        let ghost no = slot_int(snid);
        let (key, j1) = match parse_string_at(v, cur) {
            None => {
                return None;
            },
            Some(p) => p,
        };
        let j2 = match expect_at(v, j1, &tok_colon) {
            None => {
                proof {
                    assert(parse_top_members(v@.skip(cur as int), io, no) is None);
                }
                return None;
            },
            Some(j) => j,
        };
        proof {
            assert(parse_string(v@.skip(cur as int)) == Some((key@, v@.skip(j1 as int))));
            assert(expect_tok(v@.skip(j1 as int), ":"@) == Some(v@.skip(j2 as int)));
        }
        let j3: usize = if chars_eq(&key, &key_items) {
            if sitems.is_some() {
                return None;
            }
            let j2b = match expect_at(v, j2, &tok_lbrack) {
                None => {
                    return None;
                },
                Some(j) => j,
            };
            match parse_items_at(v, j2b) {
                None => {
                    return None;
                },
                Some((its, j)) => {
                    sitems = Some(its);
                    j
                },
            }
        } else if chars_eq(&key, &key_nid) {
            if snid.is_some() {
                return None;
            }
            match parse_i32_at(v, j2) {
                None => {
                    return None;
                },
                Some((x, j)) => {
                    snid = Some(x);
                    j
                },
            }
        } else {
            return None;
        };
        proof {
            assert(top_member(io, no, key@, v@.skip(j2 as int)) == Some(
                (slot_items(sitems), slot_int(snid), v@.skip(j3 as int)),
            ));
        }
        let j4 = skip_ws_at(v, j3);
        if j4 == v.len() {
            proof {
                assert(skip_ws(v@.skip(j3 as int)) =~= Seq::<char>::empty());
            }
            return None;
        }
        proof {
            assert(v@.skip(j4 as int)[0] == v@[j4 as int]);
        }
        if v[j4] == ',' {
            proof {
                assert(v@.skip(j4 as int).drop_first() =~= v@.skip(j4 as int + 1));
                assert(v@.skip(j4 as int + 1).len() < v@.skip(cur as int).len());
            }
            cur = j4 + 1;
        } else if v[j4] == '}' {
            proof {
                assert(v@.skip(j4 as int).drop_first() =~= v@.skip(j4 as int + 1));
            }
            match (sitems, snid) {
                (Some(its), Some(nv)) => {
                    let j5 = skip_ws_at(v, j4 + 1);
                    if j5 == v.len() {
                        proof {
                            assert(skip_ws(v@.skip(j4 as int + 1)).len() == 0);
                        }
                        let d = AppData { items: its, next_id: nv };
                        proof {
                            assert(d@ =~= spec_decode(v@)->0);
                        }
                        return Some(d);
                    } else {
                        proof {
                            assert(skip_ws(v@.skip(j4 as int + 1)).len() == v.len() - j5);
                        }
                        return None;
                    }
                },
                _ => {
                    return None;
                },
            }
        } else {
            return None;
        }
    }
}

} // verus!
