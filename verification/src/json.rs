//! JSON documents, read and written through `serde_json`.
//!
//! A value is held as its compact text. Arrays and objects are taken apart one level
//! at a time: into the texts of their items, or the names and texts of their members.
use crate::bytes::put_slice;
use crate::order::{keys_ascend, text_before, MemberView};
use crate::text::{decimal_bytes, signed_decimal_bytes};
use vstd::prelude::*;
use vstd::string::*;

verus! {

/// The compact JSON text of a string, as `serde_json` writes it.
pub uninterp spec fn json_quoted(s: Seq<char>) -> Seq<u8>;

/// What `serde_json` reads as a value of any kind: its compact text, or an error text.
pub uninterp spec fn json_value(data: Seq<u8>) -> Result<Seq<u8>, Seq<char>>;

/// What `serde_json` reads as an array: the compact texts of its items, or an error text.
pub uninterp spec fn json_items(data: Seq<u8>) -> Result<Seq<Seq<u8>>, Seq<char>>;

/// What `serde_json` reads as an object: its members by ascending name, each with the
/// compact text of its value, or an error text.
pub uninterp spec fn json_members(data: Seq<u8>) -> Result<Seq<MemberView>, Seq<char>>;

/// What `serde_json` reads as an object of objects: the outer members by ascending name,
/// each with its own members by ascending name, or an error text.
pub uninterp spec fn json_tables(data: Seq<u8>) -> Result<Seq<TableView>, Seq<char>>;

/// What `serde_json` reads as a string, or an error text.
pub uninterp spec fn json_string(data: Seq<u8>) -> Result<Seq<char>, Seq<char>>;

/// What `serde_json` reads as an unsigned number, or an error text.
pub uninterp spec fn json_number(data: Seq<u8>) -> Result<u64, Seq<char>>;

/// A name with the members of the object that it names.
pub type TableView = (Seq<char>, Seq<MemberView>);

/// Texts with commas between them.
pub open spec fn comma_joined(parts: Seq<Seq<u8>>) -> Seq<u8>
    decreases parts.len(),
{
    if parts.len() == 0 {
        Seq::empty()
    } else if parts.len() == 1 {
        parts[0]
    } else {
        comma_joined(parts.drop_last()) + seq![44u8] + parts.last()
    }
}

/// The text of an array with these item texts.
pub open spec fn array_text(items: Seq<Seq<u8>>) -> Seq<u8> {
    seq![91u8] + comma_joined(items) + seq![93u8]
}

/// The text of a member of an object.
pub open spec fn member_text(m: MemberView) -> Seq<u8> {
    json_quoted(m.0) + seq![58u8] + m.1
}

/// The text of an object with these members.
pub open spec fn object_text(members: Seq<MemberView>) -> Seq<u8> {
    seq![123u8] + comma_joined(members.map_values(|m: MemberView| member_text(m))) + seq![125u8]
}

/// The text of an object whose values are objects.
pub open spec fn tables_text(tables: Seq<TableView>) -> Seq<u8> {
    object_text(tables.map_values(|t: TableView| (t.0, object_text(t.1))))
}

/// Whether the outer names ascend.
pub open spec fn tables_ascend(ts: Seq<TableView>) -> bool {
    forall|i: int, j: int|
        0 <= i < j < ts.len() ==> text_before((#[trigger] ts[i]).0, (#[trigger] ts[j]).0)
}

/// Whether no name occurs twice.
pub open spec fn keys_distinct(ms: Seq<MemberView>) -> bool {
    forall|i: int, j: int| 0 <= i < j < ms.len() ==> (#[trigger] ms[i]).0 != (#[trigger] ms[j]).0
}

/// Whether the inner objects name no member twice and hold plain values.
pub open spec fn plain_tables(ts: Seq<TableView>) -> bool {
    forall|i: int|
        0 <= i < ts.len() ==> keys_distinct((#[trigger] ts[i]).1) && plain_members(
            ts[i].1,
            (plain_depth() - 1) as nat,
        )
}

/// Whether `r` holds the same tables as `ts`, the members in any order.
pub open spec fn same_tables(r: Seq<TableView>, ts: Seq<TableView>) -> bool {
    r.len() == ts.len() && forall|i: int|
        0 <= i < ts.len() ==> (#[trigger] r[i]).0 == ts[i].0 && r[i].1.to_multiset()
            == ts[i].1.to_multiset()
}

/// The views of tables.
pub open spec fn table_views(v: Seq<(String, Vec<(String, Vec<u8>)>)>) -> Seq<TableView> {
    v.map_values(|t: (String, Vec<(String, Vec<u8>)>)| (t.0@, member_views(t.1@)))
}

/// How deep a value may be nested that stands in an array or an object: with the one around
/// it, it is as deep as can be read.
pub open spec fn plain_depth() -> nat {
    126
}

/// Whether a text is the compact form of a value that holds no fraction and is nested
/// no deeper than `depth`: such a text is read as it was written.
pub open spec fn plain(t: Seq<u8>, depth: nat) -> bool
    decreases depth,
{
    ||| t == "null".spec_bytes()
    ||| t == "true".spec_bytes()
    ||| t == "false".spec_bytes()
    ||| exists|s: Seq<char>| t == #[trigger] json_quoted(s)
    ||| exists|n: u64| t == #[trigger] decimal_bytes(n as nat)
    ||| exists|n: i64| t == #[trigger] signed_decimal_bytes(n as int)
    ||| depth > 0 && exists|items: Seq<Seq<u8>>|
        t == #[trigger] array_text(items) && forall|i: int|
            0 <= i < items.len() ==> plain(#[trigger] items[i], (depth - 1) as nat)
    ||| depth > 0 && exists|ms: Seq<MemberView>|
        t == #[trigger] object_text(ms) && keys_ascend(ms) && forall|i: int|
            0 <= i < ms.len() ==> plain((#[trigger] ms[i]).1, (depth - 1) as nat)
}

/// Whether all texts are plain.
pub open spec fn all_plain(items: Seq<Seq<u8>>) -> bool {
    forall|i: int| 0 <= i < items.len() ==> plain(#[trigger] items[i], plain_depth())
}

/// Whether the values of all members are plain, and nested no deeper than `depth`.
pub open spec fn plain_members(ms: Seq<MemberView>, depth: nat) -> bool {
    forall|i: int| 0 <= i < ms.len() ==> plain((#[trigger] ms[i]).1, depth)
}

/// The views of byte vectors.
pub open spec fn texts(v: Seq<Vec<u8>>) -> Seq<Seq<u8>> {
    v.map_values(|t: Vec<u8>| t@)
}

/// The views of members.
pub open spec fn member_views(v: Seq<(String, Vec<u8>)>) -> Seq<MemberView> {
    v.map_values(|m: (String, Vec<u8>)| (m.0@, m.1@))
}

/// Calls `to_string` on a `serde_json::Value::String`. The contract gives the text its
/// name.
#[verifier::external_body]
pub(crate) fn quoted(s: &str) -> (r: Vec<u8>)
    ensures
        r@ == json_quoted(s@),
{
    serde_json::Value::String(s.to_owned()).to_string().into_bytes()
}

/// Calls `serde_json::from_slice` for a value of any kind and writes it compactly. The
/// contract names the outcome, and says that a plain text is read as it stands.
#[verifier::external_body]
pub(crate) fn parse_value(data: &[u8]) -> (r: Result<Vec<u8>, String>)
    ensures
        match r {
            Ok(v) => json_value(data@) == Ok::<Seq<u8>, Seq<char>>(v@),
            Err(e) => json_value(data@) == Err::<Seq<u8>, Seq<char>>(e@),
        },
        plain(data@, plain_depth()) ==> r is Ok && r->Ok_0@ == data@,
{
    match serde_json::from_slice::<serde_json::Value>(data) {
        Ok(v) => Ok(v.to_string().into_bytes()),
        Err(e) => Err(e.to_string()),
    }
}

/// Calls `serde_json::from_slice` for an array of values and writes each item compactly.
/// The contract names the outcome, and says that an array of plain items is read as it
/// was written.
#[verifier::external_body]
pub(crate) fn parse_items(data: &[u8]) -> (r: Result<Vec<Vec<u8>>, String>)
    ensures
        match r {
            Ok(v) => json_items(data@) == Ok::<Seq<Seq<u8>>, Seq<char>>(texts(v@)),
            Err(e) => json_items(data@) == Err::<Seq<Seq<u8>>, Seq<char>>(e@),
        },
        forall|items: Seq<Seq<u8>>|
            data@ == #[trigger] array_text(items) && all_plain(items) ==> r is Ok && texts(
                r->Ok_0@,
            ) == items,
{
    match serde_json::from_slice::<Vec<serde_json::Value>>(data) {
        Ok(items) => Ok(items.iter().map(|v| v.to_string().into_bytes()).collect()),
        Err(e) => Err(e.to_string()),
    }
}

/// Calls `serde_json::from_slice` for a map from names to values and writes each value
/// compactly. The contract names the outcome, and says that the names ascend and that an
/// object of plain values is read as it was written.
#[verifier::external_body]
pub(crate) fn parse_members(data: &[u8]) -> (r: Result<Vec<(String, Vec<u8>)>, String>)
    ensures
        match r {
            Ok(v) => json_members(data@) == Ok::<Seq<MemberView>, Seq<char>>(member_views(v@))
                && keys_ascend(member_views(v@)),
            Err(e) => json_members(data@) == Err::<Seq<MemberView>, Seq<char>>(e@),
        },
        forall|ms: Seq<MemberView>|
            data@ == #[trigger] object_text(ms) && keys_ascend(ms) && plain_members(
                ms,
                plain_depth(),
            ) ==> r is Ok
                && member_views(r->Ok_0@) == ms,
{
    match serde_json::from_slice::<std::collections::BTreeMap<String, serde_json::Value>>(data) {
        Ok(ms) => Ok(ms.into_iter().map(|(k, v)| (k, v.to_string().into_bytes())).collect()),
        Err(e) => Err(e.to_string()),
    }
}

/// Calls `serde_json::from_slice` for a map from names to maps, and writes each inner value
/// compactly. The contract names the outcome, and says that the outer names ascend and
/// that objects of plain values are read as they were written, up to the order of the
/// inner members.
#[verifier::external_body]
pub(crate) fn parse_tables(data: &[u8]) -> (r: Result<
    Vec<(String, Vec<(String, Vec<u8>)>)>,
    String,
>)
    ensures
        match r {
            Ok(v) => json_tables(data@) == Ok::<Seq<TableView>, Seq<char>>(table_views(v@))
                && tables_ascend(table_views(v@)),
            Err(e) => json_tables(data@) == Err::<Seq<TableView>, Seq<char>>(e@),
        },
        forall|ts: Seq<TableView>|
            data@ == #[trigger] tables_text(ts) && tables_ascend(ts) && plain_tables(ts) ==> r is Ok
                && same_tables(table_views(r->Ok_0@), ts),
{
    let parsed = serde_json::from_slice::<
        std::collections::BTreeMap<String, std::collections::BTreeMap<String, serde_json::Value>>,
    >(data);
    match parsed {
        Ok(ts) => Ok(
            ts.into_iter().map(
                |(k, t)|
                    (k, t.into_iter().map(|(n, v)| (n, v.to_string().into_bytes())).collect()),
            ).collect(),
        ),
        Err(e) => Err(e.to_string()),
    }
}

/// Calls `serde_json::from_slice` for a string. The contract names the outcome, and says
/// that a written string is read as it was.
#[verifier::external_body]
pub(crate) fn parse_string(data: &[u8]) -> (r: Result<String, String>)
    ensures
        match r {
            Ok(v) => json_string(data@) == Ok::<Seq<char>, Seq<char>>(v@),
            Err(e) => json_string(data@) == Err::<Seq<char>, Seq<char>>(e@),
        },
        forall|s: Seq<char>| data@ == #[trigger] json_quoted(s) ==> r is Ok && r->Ok_0@ == s,
{
    match serde_json::from_slice::<String>(data) {
        Ok(v) => Ok(v),
        Err(e) => Err(e.to_string()),
    }
}

/// Calls `serde_json::from_slice` for an unsigned number. The contract names the outcome,
/// and says that a numeral is read as its number.
#[verifier::external_body]
pub(crate) fn parse_number(data: &[u8]) -> (r: Result<u64, String>)
    ensures
        match r {
            Ok(v) => json_number(data@) == Ok::<u64, Seq<char>>(v),
            Err(e) => json_number(data@) == Err::<u64, Seq<char>>(e@),
        },
        forall|n: u64| data@ == #[trigger] decimal_bytes(n as nat) ==> r is Ok && r->Ok_0 == n,
{
    match serde_json::from_slice::<u64>(data) {
        Ok(v) => Ok(v),
        Err(e) => Err(e.to_string()),
    }
}

/// Writes an array.
pub fn write_array(items: &Vec<Vec<u8>>) -> (r: Vec<u8>)
    ensures
        r@ == array_text(texts(items@)),
{
    let mut out: Vec<u8> = Vec::new();
    out.push(91);
    let mut i: usize = 0;
    let ghost all = texts(items@);
    assert(all.take(0) =~= Seq::empty());
    assert(out@ =~= seq![91u8] + comma_joined(all.take(0)));
    while i < items.len()
        invariant
            i <= items@.len(),
            all == texts(items@),
            out@ == seq![91u8] + comma_joined(all.take(i as int)),
        decreases items@.len() - i,
    {
        let ghost before = out@;
        if i > 0 {
            out.push(44);
        }
        put_slice(&mut out, items[i].as_slice());
        proof {
            let t = all.take(i + 1);
            assert(t.drop_last() =~= all.take(i as int));
            assert(t.last() == items@[i as int]@);
            if i == 0 {
                assert(t[0] == items@[0]@);
                assert(before =~= seq![91u8]);
            }
            assert(out@ =~= seq![91u8] + comma_joined(t));
        }
        i += 1;
    }
    assert(all.take(i as int) =~= all);
    out.push(93);
    out
}

/// Writes an object.
pub fn write_object(members: &Vec<(String, Vec<u8>)>) -> (r: Vec<u8>)
    ensures
        r@ == object_text(member_views(members@)),
{
    let mut out: Vec<u8> = Vec::new();
    out.push(123);
    let mut i: usize = 0;
    let ghost all = member_views(members@).map_values(|m: MemberView| member_text(m));
    assert(all.take(0) =~= Seq::empty());
    assert(out@ =~= seq![123u8] + comma_joined(all.take(0)));
    while i < members.len()
        invariant
            i <= members@.len(),
            all == member_views(members@).map_values(|m: MemberView| member_text(m)),
            out@ == seq![123u8] + comma_joined(all.take(i as int)),
        decreases members@.len() - i,
    {
        let ghost before = out@;
        if i > 0 {
            out.push(44);
        }
        let name = quoted(members[i].0.as_str());
        put_slice(&mut out, name.as_slice());
        out.push(58);
        put_slice(&mut out, members[i].1.as_slice());
        proof {
            let t = all.take(i + 1);
            assert(t.drop_last() =~= all.take(i as int));
            assert(t.last() == member_text((members@[i as int].0@, members@[i as int].1@)));
            if i == 0 {
                assert(before =~= seq![123u8]);
            }
            assert(out@ =~= seq![123u8] + comma_joined(t));
        }
        i += 1;
    }
    assert(all.take(i as int) =~= all);
    out.push(125);
    out
}

/// The text of an array: its items in order with commas between them, in square brackets.
pub proof fn arrays_are_written_in_brackets(items: Seq<Seq<u8>>, item: Seq<u8>, next: Seq<u8>)
    ensures
        array_text(Seq::empty()) == seq![91u8, 93u8],
        array_text(seq![item]) == seq![91u8] + item + seq![93u8],
        array_text(items.push(item).push(next)) == array_text(items.push(item)).drop_last() + seq![
            44u8,
        ] + next + seq![93u8],
{
    let none = Seq::<Seq<u8>>::empty();
    assert(array_text(none) =~= seq![91u8, 93u8]);
    assert(array_text(seq![item]) =~= seq![91u8] + item + seq![93u8]);
    let shorter = items.push(item);
    let longer = shorter.push(next);
    assert(longer.drop_last() =~= shorter);
    assert(array_text(longer) =~= array_text(shorter).drop_last() + seq![44u8] + next + seq![93u8]);
}

/// The text of an object: its members in order with commas between them, each name before
/// its value behind a colon, in curly brackets.
pub proof fn objects_are_written_in_brackets(ms: Seq<MemberView>, m: MemberView, next: MemberView)
    ensures
        object_text(Seq::empty()) == seq![123u8, 125u8],
        object_text(seq![m]) == seq![123u8] + json_quoted(m.0) + seq![58u8] + m.1 + seq![125u8],
        object_text(ms.push(m).push(next)) == object_text(ms.push(m)).drop_last() + seq![44u8]
            + json_quoted(next.0) + seq![58u8] + next.1 + seq![125u8],
{
    let f = |m: MemberView| member_text(m);
    let none = Seq::<MemberView>::empty();
    assert(none.map_values(f) =~= Seq::<Seq<u8>>::empty());
    assert(object_text(none) =~= seq![123u8, 125u8]);
    assert(seq![m].map_values(f) =~= seq![member_text(m)]);
    assert(object_text(seq![m]) =~= seq![123u8] + json_quoted(m.0) + seq![58u8] + m.1 + seq![
        125u8,
    ]);
    let shorter = ms.push(m);
    let longer = shorter.push(next);
    assert(longer.map_values(f).drop_last() =~= shorter.map_values(f));
    assert(longer.map_values(f).last() == member_text(next));
    assert(object_text(longer) =~= object_text(shorter).drop_last() + seq![44u8] + json_quoted(
        next.0,
    ) + seq![58u8] + next.1 + seq![125u8]);
}

} // verus!
