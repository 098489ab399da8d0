//! Tree states: files by path, in the order of their paths.
use crate::error::{ErrorView, StoreError};
use crate::json::{json_items, json_members, json_number, json_quoted, json_string, json_tables, keys_distinct, member_views, object_text, parse_items, parse_members, parse_number, parse_string, parse_tables, plain, plain_depth, plain_members, plain_tables, quoted, same_tables, table_views, tables_ascend, tables_text, texts, write_object, TableView};
use crate::order::{ascend, sorts_before, text_before, text_order_total, text_order_transitive, MemberView};
use crate::text::{decimal_bytes, push_decimal_bytes, same_text};
use crate::types::{EntryView, TreeChange, TreeChangeView, TreeEntry, TreeOp, TreeOpView};
use vstd::prelude::*;
use vstd::string::*;
use vstd::utf8::encode_utf8;

verus! {

/// A file at its path.
pub type FileView = (Seq<char>, EntryView);

/// A tree as a mathematical value: its files, with strictly ascending paths.
pub type TreeView = Seq<FileView>;

/// Whether the paths of a tree strictly ascend.
pub open spec fn tree_sorted(t: TreeView) -> bool {
    forall|i: int, j: int|
        0 <= i < j < t.len() ==> text_before((#[trigger] t[i]).0, (#[trigger] t[j]).0)
}

/// The entry at a path.
pub open spec fn tree_lookup(t: TreeView, path: Seq<char>) -> Option<EntryView>
    decreases t.len(),
{
    if t.len() == 0 {
        None
    } else if t.last().0 == path {
        Some(t.last().1)
    } else {
        tree_lookup(t.drop_last(), path)
    }
}

/// How many of the paths sort before `path`.
pub open spec fn tree_rank(t: TreeView, path: Seq<char>) -> nat
    decreases t.len(),
{
    if t.len() == 0 {
        0
    } else if text_before(t.last().0, path) {
        t.len()
    } else {
        tree_rank(t.drop_last(), path)
    }
}

/// The tree with a file set at a path.
pub open spec fn tree_set(t: TreeView, path: Seq<char>, entry: EntryView) -> TreeView {
    let k = tree_rank(t, path) as int;
    if k < t.len() && t[k].0 == path {
        t.update(k, (path, entry))
    } else {
        t.insert(k, (path, entry))
    }
}

/// The tree without the file at a path.
pub open spec fn tree_remove(t: TreeView, path: Seq<char>) -> TreeView {
    let k = tree_rank(t, path) as int;
    if k < t.len() && t[k].0 == path {
        t.remove(k)
    } else {
        t
    }
}

/// The tree after an operation.
pub open spec fn tree_step(t: TreeView, op: TreeOpView) -> TreeView {
    match op {
        TreeOpView::SetEntry { path, entry } => tree_set(t, path, entry),
        TreeOpView::Remove { path } => tree_remove(t, path),
    }
}

/// The tree after operations, in order.
pub open spec fn tree_steps(t: TreeView, ops: Seq<TreeOpView>) -> TreeView
    decreases ops.len(),
{
    if ops.len() == 0 {
        t
    } else {
        tree_step(tree_steps(t, ops.drop_last()), ops.last())
    }
}

/// The rank splits a sorted tree: what stands before it sorts before the path, what
/// stands behind does not.
pub proof fn lemma_rank(t: TreeView, path: Seq<char>)
    requires
        tree_sorted(t),
    ensures
        tree_rank(t, path) <= t.len(),
        forall|i: int| 0 <= i < tree_rank(t, path) ==> text_before((#[trigger] t[i]).0, path),
        forall|i: int| tree_rank(t, path) <= i < t.len() ==> !text_before((#[trigger] t[i]).0, path),
        forall|i: int|
            tree_rank(t, path) < i < t.len() ==> text_before(path, (#[trigger] t[i]).0),
    decreases t.len(),
{
    if t.len() > 0 {
        if text_before(t.last().0, path) {
            assert forall|i: int| 0 <= i < t.len() implies text_before((#[trigger] t[i]).0, path) by {
                if i < t.len() - 1 {
                    text_order_transitive(t[i].0, t.last().0, path);
                }
            }
        } else {
            let init = t.drop_last();
            assert forall|i: int, j: int| 0 <= i < j < init.len() implies text_before(
                (#[trigger] init[i]).0,
                (#[trigger] init[j]).0,
            ) by {
                assert(t[i] == init[i] && t[j] == init[j]);
            }
            lemma_rank(init, path);
            let k = tree_rank(t, path);
            assert forall|i: int| 0 <= i < k implies text_before((#[trigger] t[i]).0, path) by {
                assert(init[i] == t[i]);
            }
            assert forall|i: int| k <= i < t.len() implies !text_before((#[trigger] t[i]).0, path) by {
                if i < init.len() {
                    assert(init[i] == t[i]);
                }
            }
            assert forall|i: int| k < i < t.len() implies text_before(path, (#[trigger] t[i]).0) by {
                assert(!text_before(t[k as int].0, path));
                assert(text_before(t[k as int].0, t[i].0));
                text_order_total(t[k as int].0, path);
                if t[k as int].0 != path {
                    text_order_transitive(path, t[k as int].0, t[i].0);
                }
            }
        }
    }
}

/// A sorted tree holds an entry at a path just where the file of that path stands.
pub proof fn lemma_lookup(t: TreeView, path: Seq<char>)
    requires
        tree_sorted(t),
    ensures
        ({
            let k = tree_rank(t, path) as int;
            tree_lookup(t, path) == (if k < t.len() && t[k].0 == path {
                Some(t[k].1)
            } else {
                None
            })
        }),
        forall|i: int| 0 <= i < t.len() && (#[trigger] t[i]).0 == path ==> i == tree_rank(t, path),
    decreases t.len(),
{
    lemma_rank(t, path);
    text_order_total(path, path);
    if t.len() > 0 {
        let init = t.drop_last();
        assert forall|i: int, j: int| 0 <= i < j < init.len() implies text_before(
            (#[trigger] init[i]).0,
            (#[trigger] init[j]).0,
        ) by {
            assert(t[i] == init[i] && t[j] == init[j]);
        }
        lemma_lookup(init, path);
        lemma_rank(init, path);
        let k = tree_rank(t, path) as int;
        if t.last().0 == path {
            if k < t.len() - 1 {
                assert(t[k] == init[k]);
                assert(text_before(t[k].0, t[t.len() - 1].0));
                assert(!text_before(t[k].0, path));
            }
        } else if text_before(t.last().0, path) {
            assert(tree_rank(t, path) == t.len());
            if tree_rank(init, path) < init.len() {
                let m = tree_rank(init, path) as int;
                assert(init[m] == t[m]);
                assert(text_before(t[m].0, path));
            }
        } else {
            assert(tree_rank(t, path) == tree_rank(init, path));
            if k < init.len() {
                assert(init[k] == t[k]);
            }
        }
    }
}

/// Setting a file keeps a tree sorted, and changes what is found at that path alone.
pub proof fn tree_set_meaning(t: TreeView, path: Seq<char>, entry: EntryView, q: Seq<char>)
    requires
        tree_sorted(t),
    ensures
        tree_sorted(tree_set(t, path, entry)),
        tree_lookup(tree_set(t, path, entry), q) == (if q == path {
            Some(entry)
        } else {
            tree_lookup(t, q)
        }),
{
    let r = tree_set(t, path, entry);
    let k = tree_rank(t, path) as int;
    lemma_rank(t, path);
    if k < t.len() {
        text_order_total(t[k].0, path);
    }
    assert forall|i: int, j: int| 0 <= i < j < r.len() implies text_before(
        (#[trigger] r[i]).0,
        (#[trigger] r[j]).0,
    ) by {
        if k < t.len() && t[k].0 == path {
            assert(i != k ==> r[i] == t[i]);
            assert(j != k ==> r[j] == t[j]);
            assert(text_before(t[i].0, t[j].0));
        } else {
            let a = if i < k { i } else { i - 1 };
            let b = if j < k { j } else { j - 1 };
            if i != k && j != k {
                assert(r[i] == t[a] && r[j] == t[b]);
                assert(text_before(t[a].0, t[b].0));
            } else if i == k {
                assert(r[j] == t[b]);
                if b == k {
                    assert(!text_before(t[k].0, path));
                } else {
                    assert(text_before(path, t[b].0));
                }
            } else {
                assert(r[i] == t[i]);
            }
        }
    }
    lemma_found(r, q);
    lemma_found(t, q);
    if q == path {
        assert(r[k] == (path, entry));
        lemma_entry(r, k);
    } else {
        if tree_lookup(t, q) is Some {
            let i = choose|i: int| 0 <= i < t.len() && t[i].0 == q && t[i].1 == tree_lookup(t, q)->0;
            if k < t.len() && t[k].0 == path {
                assert(r[i] == t[i]);
                lemma_entry(r, i);
            } else {
                let a = if i < k { i } else { i + 1 };
                assert(r[a] == t[i]);
                lemma_entry(r, a);
            }
        }
        if tree_lookup(r, q) is Some {
            let i = choose|i: int| 0 <= i < r.len() && r[i].0 == q && r[i].1 == tree_lookup(r, q)->0;
            assert(r[k].0 == path);
            if k < t.len() && t[k].0 == path {
                assert(r[i] == t[i]);
                lemma_entry(t, i);
            } else {
                let a = if i < k { i } else { i - 1 };
                assert(t[a] == r[i]);
                lemma_entry(t, a);
            }
        }
    }
}

proof fn lemma_entry(t: TreeView, i: int)
    requires
        tree_sorted(t),
        0 <= i < t.len(),
    ensures
        tree_lookup(t, t[i].0) == Some(t[i].1),
{
    lemma_lookup(t, t[i].0);
}

proof fn lemma_found(t: TreeView, q: Seq<char>)
    requires
        tree_sorted(t),
    ensures
        tree_lookup(t, q) is Some ==> exists|i: int|
            0 <= i < t.len() && (#[trigger] t[i]).0 == q && t[i].1 == tree_lookup(t, q)->0,
{
    lemma_lookup(t, q);
    lemma_rank(t, q);
    if tree_lookup(t, q) is Some {
        let k = tree_rank(t, q) as int;
        assert(t[k].0 == q && t[k].1 == tree_lookup(t, q)->0);
    }
}

/// Removing a file keeps a tree sorted, and empties that path alone.
pub proof fn tree_remove_meaning(t: TreeView, path: Seq<char>, q: Seq<char>)
    requires
        tree_sorted(t),
    ensures
        tree_sorted(tree_remove(t, path)),
        tree_lookup(tree_remove(t, path), q) == (if q == path {
            None
        } else {
            tree_lookup(t, q)
        }),
{
    let r = tree_remove(t, path);
    let k = tree_rank(t, path) as int;
    lemma_rank(t, path);
    lemma_lookup(t, path);
    if k < t.len() && t[k].0 == path {
        assert forall|i: int, j: int| 0 <= i < j < r.len() implies text_before(
            (#[trigger] r[i]).0,
            (#[trigger] r[j]).0,
        ) by {
            let a = if i < k { i } else { i + 1 };
            let b = if j < k { j } else { j + 1 };
            assert(r[i] == t[a] && r[j] == t[b]);
        }
        lemma_found(r, q);
        lemma_found(t, q);
        if tree_lookup(r, q) is Some {
            let i = choose|i: int| 0 <= i < r.len() && r[i].0 == q && r[i].1 == tree_lookup(r, q)->0;
            let a = if i < k { i } else { i + 1 };
            assert(t[a] == r[i]);
            lemma_entry(t, a);
            if q == path {
                assert(a == k);
            }
        }
        if q != path && tree_lookup(t, q) is Some {
            let i = choose|i: int| 0 <= i < t.len() && t[i].0 == q && t[i].1 == tree_lookup(t, q)->0;
            let a = if i < k { i } else { i - 1 };
            assert(r[a] == t[i]);
            lemma_entry(r, a);
        }
    }
}

/// Two sorted trees with the same entry at every path are the same tree.
pub proof fn tree_extensional(a: TreeView, b: TreeView)
    requires
        tree_sorted(a),
        tree_sorted(b),
        forall|q: Seq<char>| #[trigger] tree_lookup(a, q) == tree_lookup(b, q),
    ensures
        a == b,
    decreases a.len() + b.len(),
{
    if a.len() == 0 {
        if b.len() > 0 {
            lemma_entry(b, 0);
            assert(tree_lookup(a, b[0].0) is None);
        }
        assert(a =~= b);
    } else if b.len() == 0 {
        lemma_entry(a, 0);
        assert(tree_lookup(b, a[0].0) is None);
    } else {
        let x = a.last();
        let y = b.last();
        let n = a.len() - 1;
        let m = b.len() - 1;
        lemma_entry(a, n);
        lemma_entry(b, m);
        assert(tree_lookup(a, x.0) == tree_lookup(b, x.0));
        assert(tree_lookup(a, y.0) == tree_lookup(b, y.0));
        lemma_found(b, x.0);
        lemma_found(a, y.0);
        text_order_total(x.0, y.0);
        let i = choose|i: int| 0 <= i < b.len() && b[i].0 == x.0 && b[i].1 == tree_lookup(b, x.0)->0;
        let j = choose|j: int| 0 <= j < a.len() && a[j].0 == y.0 && a[j].1 == tree_lookup(a, y.0)->0;
        if i < m {
            assert(text_before(b[i].0, b[m].0));
            assert(text_before(x.0, y.0));
            if j < n {
                assert(text_before(a[j].0, a[n].0));
            }
        }
        assert(x == y);
        let p = a.drop_last();
        let q = b.drop_last();
        lemma_init_sorted(a);
        lemma_init_sorted(b);
        assert forall|s: Seq<char>| #[trigger] tree_lookup(p, s) == tree_lookup(q, s) by {
            assert(tree_lookup(a, s) == tree_lookup(b, s));
            if s == x.0 {
                lemma_found(p, s);
                lemma_found(q, s);
                if tree_lookup(p, s) is Some {
                    let k = choose|k: int| 0 <= k < p.len() && p[k].0 == s && p[k].1 == tree_lookup(p, s)->0;
                    assert(text_before(a[k].0, a[n].0));
                    text_order_total(s, s);
                }
                if tree_lookup(q, s) is Some {
                    let k = choose|k: int| 0 <= k < q.len() && q[k].0 == s && q[k].1 == tree_lookup(q, s)->0;
                    assert(text_before(b[k].0, b[m].0));
                    text_order_total(s, s);
                }
            }
        }
        tree_extensional(p, q);
        assert(a =~= p.push(x));
        assert(b =~= q.push(y));
    }
}

proof fn lemma_init_sorted(t: TreeView)
    requires
        tree_sorted(t),
        t.len() > 0,
    ensures
        tree_sorted(t.drop_last()),
{
    let init = t.drop_last();
    assert forall|i: int, j: int| 0 <= i < j < init.len() implies text_before(
        (#[trigger] init[i]).0,
        (#[trigger] init[j]).0,
    ) by {
        assert(t[i] == init[i] && t[j] == init[j]);
    }
}

/// Operations keep a tree sorted.
pub proof fn tree_steps_sorted(t: TreeView, ops: Seq<TreeOpView>)
    requires
        tree_sorted(t),
    ensures
        tree_sorted(tree_steps(t, ops)),
    decreases ops.len(),
{
    if ops.len() > 0 {
        tree_steps_sorted(t, ops.drop_last());
        let before = tree_steps(t, ops.drop_last());
        match ops.last() {
            TreeOpView::SetEntry { path, entry } => tree_set_meaning(before, path, entry, path),
            TreeOpView::Remove { path } => tree_remove_meaning(before, path, path),
        }
    }
}

/// The members of a file's entry.
pub open spec fn entry_members(e: EntryView) -> Seq<MemberView> {
    seq![
        ("blob_hash"@, json_quoted(e.blob_hash)),
        ("size"@, decimal_bytes(e.size as nat)),
        ("mode"@, decimal_bytes(e.mode as nat)),
    ]
}

/// The JSON text of a tree: an object from paths to entries.
pub open spec fn tree_text(t: TreeView) -> Seq<u8> {
    tables_text(t.map_values(|f: FileView| (f.0, entry_members(f.1))))
}

/// The value of the named member.
pub open spec fn member_named(ms: Seq<MemberView>, name: Seq<char>) -> Option<Seq<u8>>
    decreases ms.len(),
{
    if ms.len() == 0 {
        None
    } else if ms.last().0 == name {
        Some(ms.last().1)
    } else {
        member_named(ms.drop_last(), name)
    }
}

/// The error for text that does not read as what it should be.
pub open spec fn unreadable(text: Seq<char>) -> ErrorView {
    ErrorView::Deserialization(text)
}

/// The string that the named member holds.
pub open spec fn string_member(ms: Seq<MemberView>, name: Seq<char>) -> Result<Seq<char>, ErrorView> {
    match member_named(ms, name) {
        None => Err(unreadable("missing field "@ + name)),
        Some(t) => match json_string(t) {
            Ok(s) => Ok(s),
            Err(e) => Err(unreadable(e)),
        },
    }
}

/// The number that the named member holds.
pub open spec fn number_member(ms: Seq<MemberView>, name: Seq<char>) -> Result<u64, ErrorView> {
    match member_named(ms, name) {
        None => Err(unreadable("missing field "@ + name)),
        Some(t) => match json_number(t) {
            Ok(s) => Ok(s),
            Err(e) => Err(unreadable(e)),
        },
    }
}

/// The entry that members describe.
pub open spec fn entry_of(ms: Seq<MemberView>) -> Result<EntryView, ErrorView> {
    match (string_member(ms, "blob_hash"@), number_member(ms, "size"@), number_member(
        ms,
        "mode"@,
    )) {
        (Err(e), _, _) => Err(e),
        (_, Err(e), _) => Err(e),
        (_, _, Err(e)) => Err(e),
        (Ok(blob_hash), Ok(size), Ok(mode)) => if mode > u32::MAX {
            Err(unreadable("mode out of range"@))
        } else {
            Ok(EntryView { blob_hash, size, mode: mode as u32 })
        },
    }
}

/// The files that tables describe, up to the first that is none.
pub open spec fn files_of(ts: Seq<TableView>) -> Result<TreeView, ErrorView>
    decreases ts.len(),
{
    if ts.len() == 0 {
        Ok(Seq::empty())
    } else {
        match files_of(ts.drop_last()) {
            Err(e) => Err(e),
            Ok(t) => match entry_of(ts.last().1) {
                Err(e) => Err(e),
                Ok(entry) => Ok(t.push((ts.last().0, entry))),
            },
        }
    }
}

/// The fields of an entry that is written as a list: hash, size and mode.
pub open spec fn list_members(items: Seq<Seq<u8>>) -> Seq<MemberView> {
    seq![("blob_hash"@, items[0]), ("size"@, items[1]), ("mode"@, items[2])]
}

/// The entry that a JSON text describes: its fields by name, or a list of them.
pub open spec fn entry_in(text: Seq<u8>) -> Result<EntryView, ErrorView> {
    match (json_members(text), json_items(text)) {
        (Ok(ms), _) => entry_of(ms),
        (Err(_), Ok(items)) if items.len() == 3 => entry_of(list_members(items)),
        (Err(e), _) => Err(unreadable(e)),
    }
}

/// The files that the texts of entries describe, up to the first that is none.
pub open spec fn files_in(ms: Seq<MemberView>) -> Result<TreeView, ErrorView>
    decreases ms.len(),
{
    if ms.len() == 0 {
        Ok(Seq::empty())
    } else {
        match files_in(ms.drop_last()) {
            Err(e) => Err(e),
            Ok(t) => match entry_in(ms.last().1) {
                Err(e) => Err(e),
                Ok(entry) => Ok(t.push((ms.last().0, entry))),
            },
        }
    }
}

/// The tree that a JSON text describes.
pub open spec fn tree_of(data: Seq<u8>) -> Result<TreeView, ErrorView> {
    match (json_tables(data), json_members(data)) {
        (Ok(ts), _) => files_of(ts),
        (Err(_), Ok(ms)) => files_in(ms),
        (Err(_), Err(e)) => Err(unreadable(e)),
    }
}

/// A tree state: a sorted map of path to entry.
#[derive(Debug)]
pub struct TreeState {
    entries: Vec<(String, TreeEntry)>,
}

impl View for TreeState {
    type V = TreeView;

    closed spec fn view(&self) -> TreeView {
        self.entries@.map_values(|f: (String, TreeEntry)| (f.0@, f.1@))
    }
}

fn find_member<'a>(ms: &'a Vec<(String, Vec<u8>)>, name: &str) -> (r: Option<&'a Vec<u8>>)
    ensures
        match r {
            Some(v) => member_named(member_views(ms@), name@) == Some(v@),
            None => member_named(member_views(ms@), name@) is None,
        },
{
    let ghost all = member_views(ms@);
    let mut i: usize = ms.len();
    assert(all.take(i as int) =~= all);
    while i > 0
        invariant
            i <= ms@.len(),
            all == member_views(ms@),
            member_named(all, name@) == member_named(all.take(i as int), name@),
        decreases i,
    {
        let ghost t = all.take(i as int);
        assert(t.drop_last() =~= all.take(i - 1));
        assert(t.last() == (ms@[i - 1].0@, ms@[i - 1].1@));
        if same_text(ms[i - 1].0.as_str(), name) {
            return Some(&ms[i - 1].1);
        }
        i -= 1;
    }
    None
}

fn missing_field(name: &str) -> (e: StoreError)
    ensures
        e@ == unreadable("missing field "@ + name@),
{
    StoreError::Deserialization(crate::text::joined("missing field ", name))
}

fn read_string(ms: &Vec<(String, Vec<u8>)>, name: &str) -> (r: Result<String, StoreError>)
    ensures
        match r {
            Ok(s) => string_member(member_views(ms@), name@) == Ok::<Seq<char>, ErrorView>(s@),
            Err(e) => string_member(member_views(ms@), name@) == Err::<Seq<char>, ErrorView>(e@),
        },
        forall|s: Seq<char>|
            member_named(member_views(ms@), name@) == Some(#[trigger] json_quoted(s)) ==> r is Ok
                && r->Ok_0@ == s,
{
    match find_member(ms, name) {
        None => Err(missing_field(name)),
        Some(t) => match parse_string(t.as_slice()) {
            Ok(s) => Ok(s),
            Err(e) => Err(StoreError::Deserialization(e)),
        },
    }
}

fn read_number(ms: &Vec<(String, Vec<u8>)>, name: &str) -> (r: Result<u64, StoreError>)
    ensures
        match r {
            Ok(n) => number_member(member_views(ms@), name@) == Ok::<u64, ErrorView>(n),
            Err(e) => number_member(member_views(ms@), name@) == Err::<u64, ErrorView>(e@),
        },
        forall|n: u64|
            member_named(member_views(ms@), name@) == Some(#[trigger] decimal_bytes(n as nat)) ==> r
                is Ok && r->Ok_0 == n,
{
    match find_member(ms, name) {
        None => Err(missing_field(name)),
        Some(t) => match parse_number(t.as_slice()) {
            Ok(n) => Ok(n),
            Err(e) => Err(StoreError::Deserialization(e)),
        },
    }
}

proof fn lemma_names_differ()
    ensures
        "blob_hash"@ != "size"@,
        "blob_hash"@ != "mode"@,
        "size"@ != "mode"@,
{
    reveal_strlit("blob_hash");
    reveal_strlit("size");
    reveal_strlit("mode");
    assert("blob_hash"@.len() == 9);
    assert("size"@.len() == 4);
    assert("mode"@.len() == 4);
    assert("size"@[0] != "mode"@[0]);
}

/// Members with distinct names are found whatever their order.
proof fn lemma_member_found(ms: Seq<MemberView>, m: MemberView)
    requires
        ms.contains(m),
        forall|i: int| 0 <= i < ms.len() && (#[trigger] ms[i]).0 == m.0 ==> ms[i] == m,
    ensures
        member_named(ms, m.0) == Some(m.1),
    decreases ms.len(),
{
    let k = choose|k: int| 0 <= k < ms.len() && ms[k] == m;
    if ms.last().0 == m.0 {
        assert(ms[ms.len() - 1] == m);
    } else {
        let init = ms.drop_last();
        assert(init[k] == m);
        assert forall|i: int| 0 <= i < init.len() && (#[trigger] init[i]).0 == m.0 implies init[i]
            == m by {
            assert(ms[i] == init[i]);
        }
        lemma_member_found(init, m);
    }
}

proof fn lemma_entry_members_found(ms: Seq<MemberView>, e: EntryView)
    requires
        ms.to_multiset() == entry_members(e).to_multiset(),
    ensures
        member_named(ms, "blob_hash"@) == Some(json_quoted(e.blob_hash)),
        member_named(ms, "size"@) == Some(decimal_bytes(e.size as nat)),
        member_named(ms, "mode"@) == Some(decimal_bytes(e.mode as nat)),
{
    let es = entry_members(e);
    lemma_names_differ();
    es.to_multiset_ensures();
    ms.to_multiset_ensures();
    assert forall|m: MemberView| #[trigger] ms.contains(m) <==> es.contains(m) by {
        assert(ms.contains(m) <==> ms.to_multiset().count(m) > 0);
        assert(es.contains(m) <==> es.to_multiset().count(m) > 0);
    }
    assert forall|i: int| 0 <= i < ms.len() implies #[trigger] ms[i] == es[0] || ms[i] == es[1]
        || ms[i] == es[2] by {
        assert(ms.contains(ms[i]));
        assert(es.contains(ms[i]));
    }
    assert(es.contains(es[0]) && es.contains(es[1]) && es.contains(es[2]));
    lemma_member_found(ms, es[0]);
    lemma_member_found(ms, es[1]);
    lemma_member_found(ms, es[2]);
}

fn read_entry(ms: &Vec<(String, Vec<u8>)>) -> (r: Result<TreeEntry, StoreError>)
    ensures
        match r {
            Ok(e) => entry_of(member_views(ms@)) == Ok::<EntryView, ErrorView>(e@),
            Err(e) => entry_of(member_views(ms@)) == Err::<EntryView, ErrorView>(e@),
        },
        forall|e: EntryView|
            member_views(ms@).to_multiset() == (#[trigger] entry_members(e)).to_multiset() ==> r
                is Ok && r->Ok_0@ == e,
{
    proof {
        assert forall|e: EntryView|
            member_views(ms@).to_multiset() == (#[trigger] entry_members(e)).to_multiset() implies
            member_named(member_views(ms@), "blob_hash"@) == Some(json_quoted(e.blob_hash))
            && member_named(member_views(ms@), "size"@) == Some(decimal_bytes(e.size as nat))
            && member_named(member_views(ms@), "mode"@) == Some(
            decimal_bytes((e.mode as u64) as nat),
        ) by {
            lemma_entry_members_found(member_views(ms@), e);
        }
    }
    let blob_hash = match read_string(ms, "blob_hash") {
        Ok(s) => s,
        Err(e) => return Err(e),
    };
    let size: u64 = match read_number(ms, "size") {
        Ok(n) => n,
        Err(e) => return Err(e),
    };
    let mode: u64 = match read_number(ms, "mode") {
        Ok(n) => n,
        Err(e) => return Err(e),
    };
    if mode > u32::MAX as u64 {
        return Err(StoreError::Deserialization("mode out of range".to_owned()));
    }
    Ok(TreeEntry { blob_hash, size, mode: mode as u32 })
}

fn read_entry_text(text: &[u8]) -> (r: Result<TreeEntry, StoreError>)
    ensures
        match r {
            Ok(e) => entry_in(text@) == Ok::<EntryView, ErrorView>(e@),
            Err(e) => entry_in(text@) == Err::<EntryView, ErrorView>(e@),
        },
{
    let failure = match parse_members(text) {
        Ok(ms) => return read_entry(&ms),
        Err(e) => e,
    };
    match parse_items(text) {
        Ok(items) if items.len() == 3 => {
            let mut ms: Vec<(String, Vec<u8>)> = Vec::new();
            ms.push(("blob_hash".to_owned(), items[0].clone()));
            ms.push(("size".to_owned(), items[1].clone()));
            ms.push(("mode".to_owned(), items[2].clone()));
            assert(member_views(ms@) =~= list_members(texts(items@)));
            read_entry(&ms)
        },
        _ => Err(StoreError::Deserialization(failure)),
    }
}

fn write_entry(e: &TreeEntry) -> (r: Vec<u8>)
    ensures
        r@ == object_text(entry_members(e@)),
{
    let mut size: Vec<u8> = Vec::new();
    push_decimal_bytes(&mut size, e.size);
    let mut mode: Vec<u8> = Vec::new();
    push_decimal_bytes(&mut mode, e.mode as u64);
    let mut ms: Vec<(String, Vec<u8>)> = Vec::new();
    ms.push(("blob_hash".to_owned(), quoted(e.blob_hash.as_str())));
    ms.push(("size".to_owned(), size));
    ms.push(("mode".to_owned(), mode));
    assert(size@ =~= decimal_bytes(e.size as nat));
    assert(mode@ =~= decimal_bytes(e.mode as nat));
    assert(member_views(ms@) =~= entry_members(e@));
    write_object(&ms)
}

impl TreeState {
    /// The empty tree.
    pub fn new() -> (t: Self)
        ensures
            t@ == TreeView::empty(),
            tree_sorted(t@),
    {
        let t = TreeState { entries: Vec::new() };
        assert(t@ =~= TreeView::empty());
        t
    }

    /// Number of files.
    pub fn len(&self) -> (n: usize)
        ensures
            n == self@.len(),
    {
        self.entries.len()
    }

    fn rank(&self, path: &str) -> (k: usize)
        requires
            tree_sorted(self@),
        ensures
            k == tree_rank(self@, path@),
            k <= self@.len(),
    {
        let ghost t = self@;
        proof {
            lemma_rank(t, path@);
        }
        let mut low: usize = 0;
        let mut high: usize = self.entries.len();
        while low < high
            invariant
                t == self@,
                low <= tree_rank(t, path@) <= high <= t.len(),
                forall|i: int| 0 <= i < tree_rank(t, path@) ==> text_before((#[trigger] t[i]).0, path@),
                forall|i: int|
                    tree_rank(t, path@) <= i < t.len() ==> !text_before((#[trigger] t[i]).0, path@),
            decreases high - low,
        {
            let mid: usize = low + (high - low) / 2;
            assert(t[mid as int].0 == self.entries@[mid as int].0@);
            if sorts_before(self.entries[mid].0.as_str(), path) {
                low = mid + 1;
            } else {
                high = mid;
            }
        }
        low
    }

    /// The entry at a path.
    pub fn get(&self, path: &str) -> (r: Option<&TreeEntry>)
        requires
            tree_sorted(self@),
        ensures
            match r {
                Some(e) => tree_lookup(self@, path@) == Some(e@),
                None => tree_lookup(self@, path@) is None,
            },
    {
        let k: usize = self.rank(path);
        proof {
            lemma_lookup(self@, path@);
        }
        if k < self.entries.len() {
            assert(self@[k as int] == (self.entries@[k as int].0@, self.entries@[k as int].1@));
            if same_text(self.entries[k].0.as_str(), path) {
                return Some(&self.entries[k].1);
            }
        }
        None
    }

    /// Sets the file at a path.
    pub fn set(&mut self, path: String, entry: TreeEntry)
        requires
            tree_sorted(old(self)@),
        ensures
            tree_sorted(final(self)@),
            final(self)@ == tree_set(old(self)@, path@, entry@),
    {
        let k: usize = self.rank(path.as_str());
        let ghost before = self@;
        let ghost item = (path@, entry@);
        proof {
            tree_set_meaning(before, path@, entry@, path@);
        }
        if k < self.entries.len() {
            assert(before[k as int] == (self.entries@[k as int].0@, self.entries@[k as int].1@));
            if same_text(self.entries[k].0.as_str(), path.as_str()) {
                self.entries.set(k, (path, entry));
                assert(self@ =~= before.update(k as int, item));
                return ;
            }
        }
        self.entries.insert(k, (path, entry));
        assert(self@ =~= before.insert(k as int, item));
    }

    /// Removes the file at a path.
    pub fn remove(&mut self, path: &str)
        requires
            tree_sorted(old(self)@),
        ensures
            tree_sorted(final(self)@),
            final(self)@ == tree_remove(old(self)@, path@),
    {
        let k: usize = self.rank(path);
        let ghost before = self@;
        proof {
            tree_remove_meaning(before, path@, path@);
        }
        if k < self.entries.len() {
            assert(before[k as int] == (self.entries@[k as int].0@, self.entries@[k as int].1@));
            if same_text(self.entries[k].0.as_str(), path) {
                self.entries.remove(k);
                assert(self@ =~= before.remove(k as int));
            }
        }
    }

    /// Applies an operation.
    pub fn step(&mut self, op: TreeOp)
        requires
            tree_sorted(old(self)@),
        ensures
            tree_sorted(final(self)@),
            final(self)@ == tree_step(old(self)@, op@),
    {
        match op {
            TreeOp::SetEntry { path, entry } => self.set(path, entry),
            TreeOp::Remove { path } => self.remove(path.as_str()),
        }
    }

    /// Applies operations in order.
    pub fn steps(&mut self, ops: &Vec<TreeOp>)
        requires
            tree_sorted(old(self)@),
        ensures
            tree_sorted(final(self)@),
            final(self)@ == tree_steps(old(self)@, crate::types::views(ops@)),
    {
        let ghost before = self@;
        let ghost all = crate::types::views(ops@);
        let mut i: usize = 0;
        assert(all.take(0) =~= Seq::empty());
        while i < ops.len()
            invariant
                i <= ops@.len(),
                all == crate::types::views(ops@),
                tree_sorted(self@),
                self@ == tree_steps(before, all.take(i as int)),
            decreases ops@.len() - i,
        {
            self.step(ops[i].clone());
            proof {
                assert(all.take(i + 1).drop_last() =~= all.take(i as int));
                assert(all.take(i + 1).last() == ops@[i as int]@);
            }
            i += 1;
        }
        assert(all.take(i as int) =~= all);
    }

    /// The files in the order of their paths.
    pub fn into_files(self) -> (r: Vec<(String, TreeEntry)>)
        ensures
            r@.map_values(|f: (String, TreeEntry)| (f.0@, f.1@)) == self@,
    {
        self.entries
    }

    /// The tree that a JSON text describes where not every entry names its fields.
    fn from_members(data: &[u8]) -> (r: Result<Self, StoreError>)
        requires
            json_tables(data@) is Err,
        ensures
            match r {
                Ok(t) => tree_of(data@) == Ok::<TreeView, ErrorView>(t@) && tree_sorted(t@),
                Err(e) => tree_of(data@) == Err::<TreeView, ErrorView>(e@),
            },
    {
        let members = match parse_members(data) {
            Ok(v) => v,
            Err(e) => return Err(StoreError::Deserialization(e)),
        };
        let ghost all = member_views(members@);
        let mut entries: Vec<(String, TreeEntry)> = Vec::new();
        let mut i: usize = 0;
        let ghost mut built: TreeView = Seq::empty();
        assert(all.take(0) =~= Seq::empty());
        while i < members.len()
            invariant
                i <= members@.len(),
                all == member_views(members@),
                json_tables(data@) is Err,
                json_members(data@) == Ok::<Seq<MemberView>, Seq<char>>(all),
                built == entries@.map_values(|f: (String, TreeEntry)| (f.0@, f.1@)),
                built.len() == i,
                files_in(all.take(i as int)) == Ok::<TreeView, ErrorView>(built),
                forall|j: int| 0 <= j < i ==> (#[trigger] built[j]).0 == all[j].0,
            decreases members@.len() - i,
        {
            proof {
                let t = all.take(i + 1);
                assert(t.drop_last() =~= all.take(i as int));
                assert(t.last() == all[i as int]);
                assert(all[i as int] == (members@[i as int].0@, members@[i as int].1@));
                lemma_files_in_stop(all, i + 1);
            }
            let entry = match read_entry_text(members[i].1.as_slice()) {
                Ok(e) => e,
                Err(e) => return Err(e),
            };
            let path = members[i].0.clone();
            proof {
                built = built.push((path@, entry@));
            }
            entries.push((path, entry));
            assert(built =~= entries@.map_values(|f: (String, TreeEntry)| (f.0@, f.1@)));
            i += 1;
        }
        assert(all.take(i as int) =~= all);
        proof {
            assert forall|a: int, b: int| 0 <= a < b < built.len() implies text_before(
                (#[trigger] built[a]).0,
                (#[trigger] built[b]).0,
            ) by {
                assert(text_before(all[a].0, all[b].0));
            }
        }
        Ok(TreeState { entries })
    }

    /// The tree that a JSON text describes. A text written from a tree reads as that tree.
    pub fn from_json(data: &[u8]) -> (r: Result<Self, StoreError>)
        ensures
            match r {
                Ok(t) => tree_of(data@) == Ok::<TreeView, ErrorView>(t@) && tree_sorted(t@),
                Err(e) => tree_of(data@) == Err::<TreeView, ErrorView>(e@),
            },
            forall|t: TreeView|
                data@ == #[trigger] tree_text(t) && tree_sorted(t) ==> r is Ok && r->Ok_0@ == t,
    {
        proof {
            assert forall|t: TreeView| data@ == #[trigger] tree_text(t) && tree_sorted(t) implies {
                let ts = t.map_values(|f: FileView| (f.0, entry_members(f.1)));
                data@ == tables_text(ts) && tables_ascend(ts) && plain_tables(ts)
            } by {
                lemma_tree_tables_plain(t);
            }
        }
        let tables = match parse_tables(data) {
            Ok(v) => v,
            Err(_) => return TreeState::from_members(data),
        };
        let ghost all = table_views(tables@);
        let mut entries: Vec<(String, TreeEntry)> = Vec::new();
        let mut i: usize = 0;
        let ghost mut built: TreeView = Seq::empty();
        assert(all.take(0) =~= Seq::empty());
        while i < tables.len()
            invariant
                i <= tables@.len(),
                all == table_views(tables@),
                json_tables(data@) == Ok::<Seq<TableView>, Seq<char>>(all),
                built == entries@.map_values(|f: (String, TreeEntry)| (f.0@, f.1@)),
                built.len() == i,
                files_of(all.take(i as int)) == Ok::<TreeView, ErrorView>(built),
                forall|j: int| 0 <= j < i ==> (#[trigger] built[j]).0 == all[j].0,
                forall|j: int, e: EntryView|
                    #![trigger built[j], entry_members(e)]
                    0 <= j < i && all[j].1.to_multiset() == entry_members(e).to_multiset()
                        ==> built[j].1 == e,
                forall|t: TreeView|
                    data@ == #[trigger] tree_text(t) && tree_sorted(t) ==> same_tables(
                        all,
                        t.map_values(|f: FileView| (f.0, entry_members(f.1))),
                    ),
            decreases tables@.len() - i,
        {
            proof {
                let t = all.take(i + 1);
                assert(t.drop_last() =~= all.take(i as int));
                assert(t.last() == all[i as int]);
                lemma_files_stop(all, i + 1);
            }
            let entry = match read_entry(&tables[i].1) {
                Ok(e) => e,
                Err(e) => {
                    proof {
                        assert forall|t: TreeView| data@ == #[trigger] tree_text(t) && tree_sorted(
                            t,
                        ) implies false by {
                            let ts = t.map_values(|f: FileView| (f.0, entry_members(f.1)));
                            assert(same_tables(all, ts));
                            assert(all[i as int].1.to_multiset() == entry_members(
                                t[i as int].1,
                            ).to_multiset()) by {
                                assert(all[i as int].0 == ts[i as int].0);
                            }
                        }
                    }
                    return Err(e);
                },
            };
            let path = tables[i].0.clone();
            let ghost before = built;
            proof {
                built = built.push((path@, entry@));
            }
            entries.push((path, entry));
            assert(built =~= entries@.map_values(|f: (String, TreeEntry)| (f.0@, f.1@)));
            i += 1;
        }
        assert(all.take(i as int) =~= all);
        proof {
            assert forall|t: TreeView| data@ == #[trigger] tree_text(t) && tree_sorted(t) implies built
                == t by {
                let ts = t.map_values(|f: FileView| (f.0, entry_members(f.1)));
                assert(same_tables(all, ts));
                assert forall|j: int| 0 <= j < t.len() implies built[j] == t[j] by {
                    assert(all[j].0 == ts[j].0);
                    assert(all[j].1.to_multiset() == entry_members(t[j].1).to_multiset());
                    assert(built[j].0 == all[j].0);
                }
                assert(built =~= t);
            }
            assert forall|a: int, b: int| 0 <= a < b < built.len() implies text_before(
                (#[trigger] built[a]).0,
                (#[trigger] built[b]).0,
            ) by {
                assert(text_before(all[a].0, all[b].0));
            }
        }
        Ok(TreeState { entries })
    }

    /// The JSON text of the tree.
    pub fn to_json(&self) -> (r: Vec<u8>)
        ensures
            r@ == tree_text(self@),
    {
        let mut ms: Vec<(String, Vec<u8>)> = Vec::new();
        let ghost tables = self@.map_values(|f: FileView| (f.0, entry_members(f.1)));
        let ghost want = tables.map_values(|t: TableView| (t.0, object_text(t.1)));
        let mut i: usize = 0;
        while i < self.entries.len()
            invariant
                i <= self.entries@.len(),
                self@.len() == self.entries@.len(),
                tables == self@.map_values(|f: FileView| (f.0, entry_members(f.1))),
                want == tables.map_values(|t: TableView| (t.0, object_text(t.1))),
                member_views(ms@) == want.take(i as int),
            decreases self.entries@.len() - i,
        {
            let text = write_entry(&self.entries[i].1);
            let ghost before = member_views(ms@);
            ms.push((self.entries[i].0.clone(), text));
            assert(member_views(ms@) =~= before.push((self.entries@[i as int].0@, text@)));
            assert(member_views(ms@) =~= want.take(i + 1));
            i += 1;
        }
        assert(want.take(i as int) =~= want);
        write_object(&ms)
    }
}

proof fn lemma_files_in_stop(ms: Seq<MemberView>, n: int)
    requires
        0 <= n <= ms.len(),
    ensures
        files_in(ms.take(n)) is Err ==> files_in(ms) == files_in(ms.take(n)),
    decreases ms.len() - n,
{
    if n < ms.len() {
        lemma_files_in_stop(ms, n + 1);
        assert(ms.take(n + 1).drop_last() =~= ms.take(n));
    } else {
        assert(ms.take(n) =~= ms);
    }
}

proof fn lemma_files_stop(ts: Seq<TableView>, n: int)
    requires
        0 <= n <= ts.len(),
    ensures
        files_of(ts.take(n)) is Err ==> files_of(ts) == files_of(ts.take(n)),
    decreases ts.len() - n,
{
    if n < ts.len() {
        lemma_files_stop(ts, n + 1);
        assert(ts.take(n + 1).drop_last() =~= ts.take(n));
    } else {
        assert(ts.take(n) =~= ts);
    }
}

proof fn lemma_tree_tables_plain(t: TreeView)
    requires
        tree_sorted(t),
    ensures
        ({
            let ts = t.map_values(|f: FileView| (f.0, entry_members(f.1)));
            tables_ascend(ts) && plain_tables(ts)
        }),
{
    let ts = t.map_values(|f: FileView| (f.0, entry_members(f.1)));
    lemma_names_differ();
    assert forall|i: int, j: int| 0 <= i < j < ts.len() implies text_before(
        (#[trigger] ts[i]).0,
        (#[trigger] ts[j]).0,
    ) by {
        assert(text_before(t[i].0, t[j].0));
    }
    assert forall|i: int| 0 <= i < ts.len() implies keys_distinct((#[trigger] ts[i]).1)
        && plain_members(ts[i].1, (plain_depth() - 1) as nat) by {
        let e = t[i].1;
        let ms = ts[i].1;
        assert(ms == entry_members(e));
        assert forall|k: int| 0 <= k < ms.len() implies plain(
            (#[trigger] ms[k]).1,
            (plain_depth() - 1) as nat,
        ) by {
            if k == 0 {
                assert(ms[k].1 == json_quoted(e.blob_hash));
            } else if k == 1 {
                assert(ms[k].1 == decimal_bytes(e.size as nat));
            } else {
                let n = e.mode as u64;
                assert(ms[k].1 == decimal_bytes(n as nat));
            }
        }
    }
}

/// Whether the bytes from `i` to `j` are a component of a path: slashes stand around it
/// and none within.
pub open spec fn component_at(b: Seq<u8>, i: int, j: int) -> bool {
    &&& 0 <= i <= j <= b.len()
    &&& i == 0 || b[i - 1] == 47
    &&& j == b.len() || b[j] == 47
    &&& forall|k: int| i <= k < j ==> b[k] != 47
}

/// Whether a component of the path is `.` or `..`.
pub open spec fn has_dot_component(b: Seq<u8>) -> bool {
    exists|i: int, j: int| #[trigger]
        component_at(b, i, j) && (b.subrange(i, j) == seq![46u8] || b.subrange(i, j) == seq![
            46u8,
            46u8,
        ])
}

/// Whether a path names a file in a tree: it is not empty, relative, without a null byte,
/// and has no `.` or `..` component.
pub open spec fn valid_tree_path(path: Seq<char>) -> bool {
    let b = encode_utf8(path);
    &&& b.len() > 0
    &&& b[0] != 47
    &&& !b.contains(0u8)
    &&& !has_dot_component(b)
}

/// The error for a path that names no file in a tree.
pub open spec fn invalid_path(path: Seq<char>) -> ErrorView {
    ErrorView::InvalidOperation("Invalid tree path: '"@ + path + "'"@)
}

fn dots_at(b: &[u8], i: usize) -> (r: bool)
    requires
        i < b@.len(),
        i == 0 || b@[i - 1] == 47,
    ensures
        r == exists|j: int| #[trigger]
            component_at(b@, i as int, j) && (b@.subrange(i as int, j) == seq![46u8]
                || b@.subrange(i as int, j) == seq![46u8, 46u8]),
{
    let n: usize = b.len();
    let one: bool = b[i] == 46 && (i + 1 == n || b[i + 1] == 47);
    let two: bool = i + 1 < n && b[i] == 46 && b[i + 1] == 46 && (i + 2 == n || b[i + 2] == 47);
    proof {
        let x = i as int;
        if one {
            assert(component_at(b@, x, x + 1));
            assert(b@.subrange(x, x + 1) =~= seq![46u8]);
        }
        if two {
            assert(component_at(b@, x, x + 2));
            assert(b@.subrange(x, x + 2) =~= seq![46u8, 46u8]);
        }
        assert forall|j: int| #[trigger]
            component_at(b@, x, j) && (b@.subrange(x, j) == seq![46u8] || b@.subrange(x, j)
                == seq![46u8, 46u8]) implies one || two by {
            let w = b@.subrange(x, j);
            let dot: Seq<u8> = seq![46u8];
            let dots: Seq<u8> = seq![46u8, 46u8];
            assert(dot.len() == 1 && dot[0] == 46);
            assert(dots.len() == 2 && dots[0] == 46 && dots[1] == 46);
            assert(w.len() == j - x);
            if w == dot {
                assert(b@[x] == w[0]);
            } else {
                assert(w == dots);
                assert(b@[x] == w[0]);
                assert(b@[x + 1] == w[1]);
            }
        }
    }
    one || two
}

/// Checks a tree path.
pub fn validate_tree_path(path: &str) -> (r: Result<(), StoreError>)
    ensures
        match r {
            Ok(_) => valid_tree_path(path@),
            Err(e) => !valid_tree_path(path@) && e@ == invalid_path(path@),
        },
{
    let b = path.as_bytes();
    let mut bad: bool = b.len() == 0 || b[0] == 47;
    let mut i: usize = 0;
    while i < b.len()
        invariant
            i <= b@.len(),
            b@ == encode_utf8(path@),
            bad ==> !valid_tree_path(path@),
            !bad ==> b@.len() > 0 && b@[0] != 47,
            !bad ==> forall|k: int| 0 <= k < i ==> b@[k] != 0,
            !bad ==> forall|k: int, j: int| #[trigger]
                component_at(b@, k, j) && k < i ==> b@.subrange(k, j) != seq![46u8]
                    && b@.subrange(k, j) != seq![46u8, 46u8],
        decreases b@.len() - i,
    {
        if b[i] == 0 {
            assert(b@.contains(0u8));
            bad = true;
        }
        if i == 0 || b[i - 1] == 47 {
            if dots_at(b, i) {
                assert(has_dot_component(b@));
                bad = true;
            }
        }
        i += 1;
    }
    if bad {
        let mut text = crate::text::joined("Invalid tree path: '", path);
        text.append("'");
        return Err(StoreError::InvalidOperation(text));
    }
    proof {
        assert forall|k: int, j: int| #[trigger] component_at(b@, k, j) implies b@.subrange(k, j)
            != seq![46u8] && b@.subrange(k, j) != seq![46u8, 46u8] by {
            if k == b@.len() {
                assert(b@.subrange(k, j).len() == 0);
            }
        }
    }
    Ok(())
}

/// Whether a path starts with a prefix.
pub open spec fn starts_with(path: Seq<char>, prefix: Seq<char>) -> bool {
    encode_utf8(prefix).is_prefix_of(encode_utf8(path))
}

/// The files whose paths start with a prefix, in order.
pub open spec fn with_prefix(t: TreeView, prefix: Seq<char>) -> TreeView
    decreases t.len(),
{
    if t.len() == 0 {
        Seq::empty()
    } else if starts_with(t.last().0, prefix) {
        with_prefix(t.drop_last(), prefix).push(t.last())
    } else {
        with_prefix(t.drop_last(), prefix)
    }
}

fn text_starts_with(path: &str, prefix: &str) -> (r: bool)
    ensures
        r == starts_with(path@, prefix@),
{
    let b = path.as_bytes();
    let p = prefix.as_bytes();
    if p.len() > b.len() {
        return false;
    }
    let mut i: usize = 0;
    while i < p.len()
        invariant
            i <= p@.len() <= b@.len(),
            b@ == encode_utf8(path@),
            p@ == encode_utf8(prefix@),
            forall|k: int| 0 <= k < i ==> b@[k] == p@[k],
        decreases p@.len() - i,
    {
        if b[i] != p[i] {
            assert(b@.subrange(0, p@.len() as int)[i as int] != p@[i as int]);
            return false;
        }
        i += 1;
    }
    assert(p@ =~= b@.subrange(0, p@.len() as int));
    true
}

/// What a listing of files holds.
pub open spec fn listed(files: Seq<(String, TreeEntry)>) -> TreeView {
    files.map_values(|f: (String, TreeEntry)| (f.0@, f.1@))
}

/// Lists the files of a tree, or those whose paths start with a prefix.
pub fn list_files(tree: TreeState, prefix: Option<&str>) -> (r: Vec<(String, TreeEntry)>)
    ensures
        listed(r@) == (match prefix {
            Some(p) => with_prefix(tree@, p@),
            None => tree@,
        }),
{
    let files = tree.into_files();
    match prefix {
        None => files,
        Some(p) => {
            let ghost all = listed(files@);
            let mut out: Vec<(String, TreeEntry)> = Vec::new();
            let mut i: usize = 0;
            assert(all.take(0) =~= Seq::empty());
            assert(listed(out@) =~= Seq::empty());
            while i < files.len()
                invariant
                    i <= files@.len(),
                    all == listed(files@),
                    listed(out@) == with_prefix(all.take(i as int), p@),
                decreases files@.len() - i,
            {
                let ghost before = listed(out@);
                proof {
                    assert(all.take(i + 1).drop_last() =~= all.take(i as int));
                    assert(all.take(i + 1).last() == (files@[i as int].0@, files@[i as int].1@));
                }
                if text_starts_with(files[i].0.as_str(), p) {
                    let item = (files[i].0.clone(), files[i].1.clone());
                    out.push(item);
                    assert(listed(out@) =~= before.push((item.0@, item.1@)));
                }
                i += 1;
            }
            assert(all.take(i as int) =~= all);
            out
        },
    }
}

/// A listing by prefix is in the order of the paths.
pub proof fn listing_is_sorted(t: TreeView, prefix: Seq<char>)
    requires
        tree_sorted(t),
    ensures
        tree_sorted(with_prefix(t, prefix)),
    decreases t.len(),
{
    if t.len() > 0 {
        let init = t.drop_last();
        let w = with_prefix(init, prefix);
        assert forall|i: int, j: int| 0 <= i < j < init.len() implies text_before(
            (#[trigger] init[i]).0,
            (#[trigger] init[j]).0,
        ) by {
            assert(init[i] == t[i] && init[j] == t[j]);
        }
        listing_is_sorted(init, prefix);
        let p = w.push(t.last());
        assert forall|i: int, j: int| 0 <= i < j < p.len() implies text_before(
            (#[trigger] p[i]).0,
            (#[trigger] p[j]).0,
        ) by {
            if j == w.len() {
                assert(w.contains(w[i]));
                listing_is_complete(init, prefix, w[i]);
                let k = choose|k: int| 0 <= k < init.len() && init[k] == w[i];
                assert(t[k] == w[i]);
                assert(text_before(t[k].0, t[t.len() - 1].0));
            } else {
                assert(p[i] == w[i] && p[j] == w[j]);
            }
        }
    }
}

/// A listing by prefix holds just the files that start with it.
pub proof fn listing_is_complete(t: TreeView, prefix: Seq<char>, f: FileView)
    ensures
        with_prefix(t, prefix).contains(f) <==> t.contains(f) && starts_with(f.0, prefix),
    decreases t.len(),
{
    if t.len() > 0 {
        let init = t.drop_last();
        listing_is_complete(init, prefix, f);
        let w = with_prefix(init, prefix);
        assert(t =~= init.push(t.last()));
        assert(t.contains(f) <==> init.contains(f) || f == t.last()) by {
            if t.contains(f) && f != t.last() {
                let k = choose|k: int| 0 <= k < t.len() && t[k] == f;
                assert(init[k] == f);
            }
            if init.contains(f) {
                let k = choose|k: int| 0 <= k < init.len() && init[k] == f;
                assert(t[k] == f);
            }
            assert(t[t.len() - 1] == t.last());
        }
        let p = w.push(t.last());
        assert(p.contains(f) <==> w.contains(f) || f == t.last()) by {
            if p.contains(f) && f != t.last() {
                let k = choose|k: int| 0 <= k < p.len() && p[k] == f;
                assert(w[k] == f);
            }
            if w.contains(f) {
                let k = choose|k: int| 0 <= k < w.len() && w[k] == f;
                assert(p[k] == f);
            }
            assert(p[p.len() - 1] == t.last());
        }
    }
}

/// A path is listed with an entry just where a lookup gives that entry.
pub proof fn listing_agrees_with_lookup(t: TreeView, path: Seq<char>, entry: EntryView)
    requires
        tree_sorted(t),
    ensures
        t.contains((path, entry)) <==> tree_lookup(t, path) == Some(entry),
{
    lemma_found(t, path);
    if t.contains((path, entry)) {
        let k = choose|k: int| 0 <= k < t.len() && t[k] == (path, entry);
        lemma_entry(t, k);
    }
}

impl TreeChangeView {
    /// The path that changed.
    pub open spec fn path(self) -> Seq<char> {
        match self {
            TreeChangeView::Added { path, .. } => path,
            TreeChangeView::Modified { path, .. } => path,
            TreeChangeView::Removed { path, .. } => path,
        }
    }
}

/// The change at a path between two trees.
pub open spec fn change_at(a: TreeView, b: TreeView, path: Seq<char>) -> Option<TreeChangeView> {
    match (tree_lookup(a, path), tree_lookup(b, path)) {
        (None, None) => None,
        (None, Some(entry)) => Some(TreeChangeView::Added { path, entry }),
        (Some(entry), None) => Some(TreeChangeView::Removed { path, entry }),
        (Some(x), Some(y)) => if x == y {
            None
        } else {
            Some(TreeChangeView::Modified { path, old_entry: x, new_entry: y })
        },
    }
}

/// Whether `changes` is the difference between two trees: the change at every path that
/// changed, in the order of the paths.
pub open spec fn is_diff(a: TreeView, b: TreeView, changes: Seq<TreeChangeView>) -> bool {
    &&& forall|i: int, j: int|
        0 <= i < j < changes.len() ==> text_before(
            (#[trigger] changes[i]).path(),
            (#[trigger] changes[j]).path(),
        )
    &&& forall|i: int|
        0 <= i < changes.len() ==> change_at(a, b, (#[trigger] changes[i]).path()) == Some(
            changes[i],
        )
    &&& forall|path: Seq<char>|
        #![trigger change_at(a, b, path)]
        change_at(a, b, path) is Some ==> exists|i: int|
            0 <= i < changes.len() && #[trigger] changes[i] == change_at(a, b, path)->0
}

/// Whether the change at a file's path is among `changes`, if there is one.
spec fn settled(a: TreeView, b: TreeView, changes: Seq<TreeChangeView>, path: Seq<char>) -> bool {
    change_at(a, b, path) is Some ==> exists|i: int|
        0 <= i < changes.len() && #[trigger] changes[i] == change_at(a, b, path)->0
}

proof fn lemma_settled_push(
    a: TreeView,
    b: TreeView,
    changes: Seq<TreeChangeView>,
    c: TreeChangeView,
    path: Seq<char>,
)
    ensures
        settled(a, b, changes, path) ==> settled(a, b, changes.push(c), path),
        change_at(a, b, path) == Some(c) ==> settled(a, b, changes.push(c), path),
{
    let more = changes.push(c);
    if settled(a, b, changes, path) && change_at(a, b, path) is Some {
        let i = choose|i: int| 0 <= i < changes.len() && changes[i] == change_at(a, b, path)->0;
        assert(more[i] == changes[i]);
    }
    assert(more[changes.len() as int] == c);
}

/// What the merge of two trees has done when it stands at `i` and `j`.
spec fn merged(a: TreeView, b: TreeView, i: int, j: int, changes: Seq<TreeChangeView>) -> bool {
    &&& 0 <= i <= a.len()
    &&& 0 <= j <= b.len()
    &&& forall|x: int, y: int|
        #![trigger a[x], b[y]]
        0 <= x < i && j <= y < b.len() ==> text_before(a[x].0, b[y].0)
    &&& forall|x: int, y: int|
        #![trigger a[x], b[y]]
        i <= x < a.len() && 0 <= y < j ==> text_before(b[y].0, a[x].0)
    &&& forall|k: int, l: int|
        0 <= k < l < changes.len() ==> text_before(
            (#[trigger] changes[k]).path(),
            (#[trigger] changes[l]).path(),
        )
    &&& forall|k: int|
        0 <= k < changes.len() ==> change_at(a, b, (#[trigger] changes[k]).path()) == Some(
            changes[k],
        )
    &&& forall|k: int, x: int|
        #![trigger changes[k], a[x]]
        0 <= k < changes.len() && i <= x < a.len() ==> text_before(changes[k].path(), a[x].0)
    &&& forall|k: int, y: int|
        #![trigger changes[k], b[y]]
        0 <= k < changes.len() && j <= y < b.len() ==> text_before(changes[k].path(), b[y].0)
    &&& forall|x: int| 0 <= x < i ==> settled(a, b, changes, (#[trigger] a[x]).0)
    &&& forall|y: int| 0 <= y < j ==> settled(a, b, changes, (#[trigger] b[y]).0)
}

/// One step of the merge: the file with the smaller path, or the two of one path.
proof fn lemma_merge_step(
    a: TreeView,
    b: TreeView,
    i: int,
    j: int,
    changes: Seq<TreeChangeView>,
    from_a: bool,
    from_b: bool,
)
    requires
        tree_sorted(a),
        tree_sorted(b),
        merged(a, b, i, j, changes),
        from_a || from_b,
        from_a ==> i < a.len(),
        from_b ==> j < b.len(),
        from_a && from_b ==> a[i].0 == b[j].0,
        from_a && !from_b && j < b.len() ==> text_before(a[i].0, b[j].0),
        from_b && !from_a && i < a.len() ==> text_before(b[j].0, a[i].0),
    ensures
        ({
            let p = if from_a { a[i].0 } else { b[j].0 };
            let i2 = if from_a { i + 1 } else { i };
            let j2 = if from_b { j + 1 } else { j };
            let c = change_at(a, b, p);
            &&& tree_lookup(a, p) == (if from_a { Some(a[i].1) } else { None })
            &&& tree_lookup(b, p) == (if from_b { Some(b[j].1) } else { None })
            &&& c is Some ==> merged(a, b, i2, j2, changes.push(c->0))
            &&& c is None ==> merged(a, b, i2, j2, changes)
        }),
{
    let p = if from_a { a[i].0 } else { b[j].0 };
    let i2 = if from_a { i + 1 } else { i };
    let j2 = if from_b { j + 1 } else { j };
    if from_a {
        lemma_entry(a, i);
    }
    if from_b {
        lemma_entry(b, j);
    }
    text_order_total(p, p);
    lemma_found(a, p);
    lemma_found(b, p);
    if !from_a && tree_lookup(a, p) is Some {
        let x = choose|x: int| 0 <= x < a.len() && a[x].0 == p && a[x].1 == tree_lookup(a, p)->0;
        if x < i {
            assert(text_before(a[x].0, b[j].0));
        } else {
            if x > i {
                assert(text_before(a[i].0, a[x].0));
                text_order_total(a[i].0, p);
            }
        }
    }
    if !from_b && tree_lookup(b, p) is Some {
        let y = choose|y: int| 0 <= y < b.len() && b[y].0 == p && b[y].1 == tree_lookup(b, p)->0;
        if y < j {
            assert(text_before(b[y].0, a[i].0));
        } else {
            if y > j {
                assert(text_before(b[j].0, b[y].0));
                text_order_total(b[j].0, p);
            }
        }
    }
    let c = change_at(a, b, p);
    let more = if c is Some { changes.push(c->0) } else { changes };
    // Everything still ahead sorts behind `p`.
    assert forall|x: int| i2 <= x < a.len() implies text_before(p, (#[trigger] a[x]).0) by {
        if from_a {
            assert(text_before(a[i].0, a[x].0));
        } else if x > i {
            assert(text_before(a[i].0, a[x].0));
            text_order_transitive(p, a[i].0, a[x].0);
        }
    }
    assert forall|y: int| j2 <= y < b.len() implies text_before(p, (#[trigger] b[y]).0) by {
        if from_b {
            assert(text_before(b[j].0, b[y].0));
        } else if y > j {
            assert(text_before(b[j].0, b[y].0));
            text_order_transitive(p, b[j].0, b[y].0);
        }
    }
    assert forall|x: int, y: int|
        #![trigger a[x], b[y]]
        0 <= x < i2 && j2 <= y < b.len() implies text_before(a[x].0, b[y].0) by {
        if x < i {
            assert(text_before(a[x].0, b[y].0));
        }
    }
    assert forall|x: int, y: int|
        #![trigger a[x], b[y]]
        i2 <= x < a.len() && 0 <= y < j2 implies text_before(b[y].0, a[x].0) by {
        if y < j {
            assert(text_before(b[y].0, a[x].0));
        }
    }
    if c is Some {
        assert(c->0.path() == p);
        assert forall|k: int, l: int| 0 <= k < l < more.len() implies text_before(
            (#[trigger] more[k]).path(),
            (#[trigger] more[l]).path(),
        ) by {
            if l == changes.len() {
                assert(more[k] == changes[k]);
                if from_a {
                    assert(text_before(changes[k].path(), a[i].0));
                } else {
                    assert(text_before(changes[k].path(), b[j].0));
                }
            } else {
                assert(more[k] == changes[k] && more[l] == changes[l]);
            }
        }
        assert forall|k: int| 0 <= k < more.len() implies change_at(
            a,
            b,
            (#[trigger] more[k]).path(),
        ) == Some(more[k]) by {
            if k < changes.len() {
                assert(more[k] == changes[k]);
            }
        }
    }
    assert forall|k: int, x: int|
        #![trigger more[k], a[x]]
        0 <= k < more.len() && i2 <= x < a.len() implies text_before(more[k].path(), a[x].0) by {
        if k < changes.len() {
            assert(more[k] == changes[k]);
            assert(text_before(changes[k].path(), a[x].0));
        }
    }
    assert forall|k: int, y: int|
        #![trigger more[k], b[y]]
        0 <= k < more.len() && j2 <= y < b.len() implies text_before(more[k].path(), b[y].0) by {
        if k < changes.len() {
            assert(more[k] == changes[k]);
            assert(text_before(changes[k].path(), b[y].0));
        }
    }
    assert forall|x: int| 0 <= x < i2 implies settled(a, b, more, (#[trigger] a[x]).0) by {
        if c is Some {
            lemma_settled_push(a, b, changes, c->0, a[x].0);
        }
        if x < i {
            assert(settled(a, b, changes, a[x].0));
        }
    }
    assert forall|y: int| 0 <= y < j2 implies settled(a, b, more, (#[trigger] b[y]).0) by {
        if c is Some {
            lemma_settled_push(a, b, changes, c->0, b[y].0);
        }
        if y < j {
            assert(settled(a, b, changes, b[y].0));
        }
    }
}

proof fn lemma_merge_done(a: TreeView, b: TreeView, changes: Seq<TreeChangeView>)
    requires
        tree_sorted(a),
        tree_sorted(b),
        merged(a, b, a.len() as int, b.len() as int, changes),
    ensures
        is_diff(a, b, changes),
{
    assert forall|path: Seq<char>|
        #![trigger change_at(a, b, path)]
        change_at(a, b, path) is Some implies exists|i: int|
        0 <= i < changes.len() && #[trigger] changes[i] == change_at(a, b, path)->0 by {
        lemma_found(a, path);
        lemma_found(b, path);
        if tree_lookup(a, path) is Some {
            let x = choose|x: int|
                0 <= x < a.len() && a[x].0 == path && a[x].1 == tree_lookup(a, path)->0;
            assert(settled(a, b, changes, a[x].0));
        } else {
            let y = choose|y: int|
                0 <= y < b.len() && b[y].0 == path && b[y].1 == tree_lookup(b, path)->0;
            assert(settled(a, b, changes, b[y].0));
        }
    }
}

/// The difference between two trees, by a merge of their files.
pub fn diff_trees(from: &TreeState, to: &TreeState) -> (r: Vec<TreeChange>)
    requires
        tree_sorted(from@),
        tree_sorted(to@),
    ensures
        is_diff(from@, to@, crate::types::views(r@)),
{
    let ghost a = from@;
    let ghost b = to@;
    let mut changes: Vec<TreeChange> = Vec::new();
    let mut i: usize = 0;
    let mut j: usize = 0;
    let ghost mut cs: Seq<TreeChangeView> = Seq::empty();
    assert(crate::types::views(changes@) =~= cs);
    while i < from.entries.len() || j < to.entries.len()
        invariant
            a == from@,
            b == to@,
            tree_sorted(a),
            tree_sorted(b),
            a.len() == from.entries@.len(),
            b.len() == to.entries@.len(),
            i <= a.len(),
            j <= b.len(),
            cs == crate::types::views(changes@),
            merged(a, b, i as int, j as int, cs),
        decreases (a.len() - i) + (b.len() - j),
    {
        let more_a: bool = i < from.entries.len();
        let more_b: bool = j < to.entries.len();
        assert(more_a ==> a[i as int] == (from.entries@[i as int].0@, from.entries@[i as int].1@));
        assert(more_b ==> b[j as int] == (to.entries@[j as int].0@, to.entries@[j as int].1@));
        let first_a: bool = more_a && (!more_b || sorts_before(
            from.entries[i].0.as_str(),
            to.entries[j].0.as_str(),
        ));
        let first_b: bool = more_b && !first_a && (!more_a || sorts_before(
            to.entries[j].0.as_str(),
            from.entries[i].0.as_str(),
        ));
        let take_a: bool = !first_b;
        let take_b: bool = !first_a;
        proof {
            if more_a && more_b {
                text_order_total(a[i as int].0, b[j as int].0);
            }
            lemma_merge_step(a, b, i as int, j as int, cs, take_a, take_b);
        }
        if first_a {
            let path = from.entries[i].0.clone();
            let entry = from.entries[i].1.clone();
            changes.push(TreeChange::Removed { path, entry });
        } else if first_b {
            let path = to.entries[j].0.clone();
            let entry = to.entries[j].1.clone();
            changes.push(TreeChange::Added { path, entry });
        } else if !from.entries[i].1.same(&to.entries[j].1) {
            let path = from.entries[i].0.clone();
            let old_entry = from.entries[i].1.clone();
            let new_entry = to.entries[j].1.clone();
            changes.push(TreeChange::Modified { path, old_entry, new_entry });
        }
        proof {
            let before = cs;
            let p = if take_a {
                a[i as int].0
            } else {
                b[j as int].0
            };
            if change_at(a, b, p) is Some {
                cs = cs.push(change_at(a, b, p)->0);
            }
            assert(cs =~= crate::types::views(changes@));
        }
        if take_a {
            i += 1;
        }
        if take_b {
            j += 1;
        }
    }
    proof {
        lemma_merge_done(a, b, cs);
    }
    changes
}

/// Two trees differ nowhere just where they are the same tree.
pub proof fn no_diff_means_equal(a: TreeView, b: TreeView, changes: Seq<TreeChangeView>)
    requires
        tree_sorted(a),
        tree_sorted(b),
        is_diff(a, b, changes),
    ensures
        changes.len() == 0 <==> a == b,
{
    if changes.len() == 0 {
        assert forall|q: Seq<char>| #[trigger] tree_lookup(a, q) == tree_lookup(b, q) by {
            assert(change_at(a, b, q) is None);
        }
        tree_extensional(a, b);
    } else if a == b {
        assert(change_at(a, b, changes[0].path()) == Some(changes[0]));
    }
}

} // verus!
