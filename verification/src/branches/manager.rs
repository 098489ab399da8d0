//! Branch manager implementation.
use crate::error::{error_text, invalid_operation, ErrorView, StoreError};
use crate::text::{decimal, decimal_string, joined, same_text};
use crate::types::{views, Branch, BranchId, BranchView, Sequence, Timestamp};
use vstd::prelude::*;
use vstd::string::*;
use vstd::utf8::encode_utf8;

verus! {

/// Name of the main branch.
pub const MAIN_BRANCH: &'static str = "main";

/// Options for branch garbage collection.
#[derive(Debug)]
pub struct BranchGcOptions {
    /// Delete orphaned branches (branches whose parent was deleted).
    pub delete_orphaned: bool,
    /// Delete empty branches (branches with no commits).
    pub delete_empty: bool,
    /// Delete stale branches older than this Unix timestamp.
    pub delete_stale_older_than: Option<u64>,
    /// Only delete branches matching these patterns.
    pub name_patterns: Option<Vec<String>>,
    /// Force deletion even if branch has children.
    pub force: bool,
    /// Re-parent children to this branch when deleting.
    pub reparent_to: Option<String>,
}

impl Default for BranchGcOptions {
    fn default() -> (o: Self)
        ensures
            !o.delete_orphaned,
            !o.delete_empty,
            o.delete_stale_older_than is None,
            o.name_patterns is None,
            !o.force,
            o.reparent_to is None,
    {
        BranchGcOptions {
            delete_orphaned: false,
            delete_empty: false,
            delete_stale_older_than: None,
            name_patterns: None,
            force: false,
            reparent_to: None,
        }
    }
}

/// Result of branch garbage collection.
#[derive(Debug)]
pub struct BranchGcResult {
    /// Branches that were deleted.
    pub deleted: Vec<String>,
    /// Branches that were skipped (couldn't be deleted).
    pub skipped: Vec<String>,
    /// Number of branches that were re-parented.
    pub reparented: usize,
    /// Errors encountered during GC.
    pub errors: Vec<(String, String)>,
}

/// The result of garbage collection as a mathematical value.
pub struct GcView {
    pub deleted: Seq<Seq<char>>,
    pub skipped: Seq<Seq<char>>,
    pub reparented: usize,
    pub errors: Seq<(Seq<char>, Seq<char>)>,
}

impl View for BranchGcResult {
    type V = GcView;

    open spec fn view(&self) -> GcView {
        GcView {
            deleted: views(self.deleted@),
            skipped: views(self.skipped@),
            reparented: self.reparented,
            errors: self.errors@.map_values(|e: (String, String)| (e.0@, e.1@)),
        }
    }
}

impl Default for BranchGcResult {
    fn default() -> (r: Self)
        ensures
            r@ == no_gc(),
    {
        let r = BranchGcResult {
            deleted: Vec::new(),
            skipped: Vec::new(),
            reparented: 0,
            errors: Vec::new(),
        };
        assert(r@.deleted =~= Seq::empty());
        assert(r@.skipped =~= Seq::empty());
        assert(r@.errors =~= Seq::empty());
        r
    }
}

/// The result of a garbage collection that found nothing.
pub open spec fn no_gc() -> GcView {
    GcView {
        deleted: Seq::empty(),
        skipped: Seq::empty(),
        reparented: 0,
        errors: Seq::empty(),
    }
}

/// Branches, oldest first, with the next id, the current branch, and the time at which the
/// last one was made since they were loaded, which is the epoch before there is one.
pub struct BranchesView {
    pub branches: Seq<BranchView>,
    pub next_id: u64,
    pub current: BranchId,
    pub last: Timestamp,
}

/// The branch of a name.
pub open spec fn by_name(bs: Seq<BranchView>, name: Seq<char>) -> Option<BranchView>
    decreases bs.len(),
{
    if bs.len() == 0 {
        None
    } else if bs.last().name == name {
        Some(bs.last())
    } else {
        by_name(bs.drop_last(), name)
    }
}

/// The branch of an id.
pub open spec fn by_id(bs: Seq<BranchView>, id: BranchId) -> Option<BranchView>
    decreases bs.len(),
{
    if bs.len() == 0 {
        None
    } else if bs.last().id == id {
        Some(bs.last())
    } else {
        by_id(bs.drop_last(), id)
    }
}

impl BranchesView {
    /// Ids ascend, stay below the next id, and no name occurs twice.
    pub open spec fn wf(self) -> bool {
        let bs = self.branches;
        &&& forall|i: int, j: int|
            0 <= i < j < bs.len() ==> (#[trigger] bs[i]).id.0 < (#[trigger] bs[j]).id.0
        &&& forall|i: int| 0 <= i < bs.len() ==> (#[trigger] bs[i]).id.0 < self.next_id
        &&& forall|i: int, j: int|
            0 <= i < j < bs.len() ==> (#[trigger] bs[i]).name != (#[trigger] bs[j]).name
    }

    /// The current branch, if it is there.
    pub open spec fn current_branch(self) -> Option<BranchView> {
        by_id(self.branches, self.current)
    }
}

/// The current branch has the id that is current.
pub proof fn lemma_current(v: BranchesView)
    ensures
        v.current_branch() matches Some(b) ==> b.id == v.current,
{
    lemma_found(v.branches, Seq::empty(), v.current);
}

/// A branch that is found by a name or an id is found by its own name and id, and its id was
/// handed out.
pub proof fn lemma_named(v: BranchesView, b: BranchView, name: Seq<char>, id: BranchId)
    requires
        v.wf(),
        by_id(v.branches, id) == Some(b) || by_name(v.branches, name) == Some(b),
    ensures
        by_name(v.branches, b.name) == Some(b),
        by_id(v.branches, b.id) == Some(b),
        b.id.0 < v.next_id,
{
    lemma_found(v.branches, name, id);
    let i = choose|i: int| 0 <= i < v.branches.len() && #[trigger] v.branches[i] == b;
    lemma_branch_at(v, i);
}

pub proof fn lemma_found(bs: Seq<BranchView>, name: Seq<char>, id: BranchId)
    ensures
        by_name(bs, name) matches Some(b) ==> b.name == name && exists|i: int|
            0 <= i < bs.len() && #[trigger] bs[i] == b,
        by_name(bs, name) is None ==> forall|i: int|
            0 <= i < bs.len() ==> (#[trigger] bs[i]).name != name,
        by_id(bs, id) matches Some(b) ==> b.id == id && exists|i: int|
            0 <= i < bs.len() && #[trigger] bs[i] == b,
        by_id(bs, id) is None ==> forall|i: int| 0 <= i < bs.len() ==> (#[trigger] bs[i]).id != id,
    decreases bs.len(),
{
    if bs.len() > 0 {
        let init = bs.drop_last();
        lemma_found(init, name, id);
        assert(bs[bs.len() - 1] == bs.last());
        if bs.last().name != name {
            if let Some(b) = by_name(init, name) {
                let i = choose|i: int| 0 <= i < init.len() && init[i] == b;
                assert(bs[i] == b);
            } else {
                assert forall|i: int| 0 <= i < bs.len() implies (#[trigger] bs[i]).name != name by {
                    if i < init.len() {
                        assert(init[i] == bs[i]);
                    }
                }
            }
        }
        if bs.last().id != id {
            if let Some(b) = by_id(init, id) {
                let i = choose|i: int| 0 <= i < init.len() && init[i] == b;
                assert(bs[i] == b);
            } else {
                assert forall|i: int| 0 <= i < bs.len() implies (#[trigger] bs[i]).id != id by {
                    if i < init.len() {
                        assert(init[i] == bs[i]);
                    }
                }
            }
        }
    }
}

/// In well-formed branches the lookup by name and by id of a branch gives that branch.
pub proof fn lemma_branch_at(v: BranchesView, i: int)
    requires
        v.wf(),
        0 <= i < v.branches.len(),
    ensures
        by_name(v.branches, v.branches[i].name) == Some(v.branches[i]),
        by_id(v.branches, v.branches[i].id) == Some(v.branches[i]),
{
    lemma_found(v.branches, v.branches[i].name, v.branches[i].id);
    let b = by_name(v.branches, v.branches[i].name)->0;
    let k = choose|k: int| 0 <= k < v.branches.len() && v.branches[k] == b;
    assert(k == i);
    let c = by_id(v.branches, v.branches[i].id)->0;
    let m = choose|m: int| 0 <= m < v.branches.len() && v.branches[m] == c;
    assert(m == i);
}

/// The debug form of a branch id.
pub open spec fn branch_id_text(id: BranchId) -> Seq<char> {
    "BranchId("@ + decimal(id.0 as nat) + ")"@
}

fn branch_id_string(id: BranchId) -> (s: String)
    ensures
        s@ == branch_id_text(id),
{
    let mut s = joined("BranchId(", decimal_string(id.0).as_str());
    s.append(")");
    s
}

/// The error of a store whose current branch is gone.
pub open spec fn current_missing(id: BranchId) -> ErrorView {
    ErrorView::Corruption("Current branch "@ + branch_id_text(id) + " not found in index"@)
}

/// Why a branch cannot be created under a name from a parent.
pub open spec fn create_error(v: BranchesView, name: Seq<char>, from: Seq<char>) -> Option<
    ErrorView,
> {
    if by_name(v.branches, name) is Some {
        Some(ErrorView::BranchExists(name))
    } else if by_name(v.branches, from) is None {
        Some(ErrorView::BranchNotFound(from))
    } else {
        None
    }
}

/// A new branch.
pub open spec fn new_branch(
    v: BranchesView,
    name: Seq<char>,
    parent: BranchId,
    at: Sequence,
    created: Timestamp,
) -> BranchView {
    BranchView {
        id: BranchId(v.next_id),
        name,
        head: at,
        parent: Some(parent),
        branch_point: Some(at),
        created,
    }
}

/// The branches with a new one.
pub open spec fn with_branch(v: BranchesView, b: BranchView) -> BranchesView {
    BranchesView {
        branches: v.branches.push(b),
        next_id: (v.next_id + 1) as u64,
        last: b.created,
        ..v
    }
}

/// The branches with one whose head moved.
pub open spec fn with_head(bs: Seq<BranchView>, id: BranchId, head: Sequence) -> Seq<BranchView> {
    bs.map_values(
        |b: BranchView|
            if b.id == id {
                BranchView { head, ..b }
            } else {
                b
            },
    )
}

/// The branches without the one of a name.
pub open spec fn without_name(bs: Seq<BranchView>, name: Seq<char>) -> Seq<BranchView>
    decreases bs.len(),
{
    if bs.len() == 0 {
        bs
    } else if bs.last().name == name {
        without_name(bs.drop_last(), name)
    } else {
        without_name(bs.drop_last(), name).push(bs.last())
    }
}

/// Why a branch cannot be deleted.
pub open spec fn delete_error(v: BranchesView, name: Seq<char>) -> Option<ErrorView> {
    if name == "main"@ {
        Some(ErrorView::BranchNotFound("Cannot delete main branch"@))
    } else {
        match by_name(v.branches, name) {
            None => Some(ErrorView::BranchNotFound(name)),
            Some(b) => if b.id == v.current {
                Some(ErrorView::BranchNotFound("Cannot delete current branch"@))
            } else {
                None
            },
        }
    }
}

/// The branches with the children of one given to another parent, if there is one: else
/// they keep the parent they had.
pub open spec fn reparented(bs: Seq<BranchView>, id: BranchId, to: Option<BranchId>) -> Seq<
    BranchView,
> {
    bs.map_values(
        |b: BranchView|
            if b.parent == Some(id) && to is Some {
                BranchView { parent: to, ..b }
            } else {
                b
            },
    )
}

/// How many branches have a parent.
pub open spec fn child_count(bs: Seq<BranchView>, id: BranchId) -> nat
    decreases bs.len(),
{
    if bs.len() == 0 {
        0
    } else {
        child_count(bs.drop_last(), id) + (if bs.last().parent == Some(id) {
            1nat
        } else {
            0nat
        })
    }
}

/// Why a branch cannot be deleted with its children given to another parent.
pub open spec fn reparent_error(v: BranchesView, name: Seq<char>, to: Option<Seq<char>>) -> Option<
    ErrorView,
> {
    match delete_error(v, name) {
        Some(e) => Some(e),
        None => match to {
            Some(parent) => if by_name(v.branches, parent) is None {
                Some(ErrorView::BranchNotFound(parent))
            } else {
                None
            },
            None => None,
        },
    }
}

/// The branches after one was deleted and its children given to another parent.
pub open spec fn deleted_reparented(
    v: BranchesView,
    name: Seq<char>,
    to: Option<Seq<char>>,
) -> BranchesView {
    let id = by_name(v.branches, name)->0.id;
    let parent = match to {
        Some(p) => Some(by_name(v.branches, p)->0.id),
        None => None,
    };
    BranchesView {
        branches: without_name(reparented(v.branches, id, parent), name),
        ..v
    }
}

/// Which branches a search is for.
pub enum Search {
    /// Those whose parent was deleted.
    Orphaned,
    /// Those created before a time and not updated.
    Stale(u64),
    /// Those without commits beyond their branch point.
    Empty,
    /// Those of a parent.
    ChildrenOf(BranchId),
}

/// Whether a branch is searched for.
pub open spec fn is_found(v: BranchesView, which: Search, b: BranchView) -> bool {
    match which {
        Search::Orphaned => b.parent matches Some(p) && by_id(v.branches, p) is None,
        Search::Stale(older_than) => b.name != "main"@ && b.created.0 < older_than
            && b.branch_point == Some(b.head),
        Search::Empty => b.name != "main"@ && b.branch_point == Some(b.head),
        Search::ChildrenOf(id) => b.parent == Some(id),
    }
}

/// The branches that are searched for, among some.
pub open spec fn found_among(v: BranchesView, which: Search, bs: Seq<BranchView>) -> Seq<BranchView>
    decreases bs.len(),
{
    if bs.len() == 0 {
        bs
    } else if is_found(v, which, bs.last()) {
        found_among(v, which, bs.drop_last()).push(bs.last())
    } else {
        found_among(v, which, bs.drop_last())
    }
}

/// A search gives just the branches that are searched for.
pub proof fn search_is_complete(v: BranchesView, which: Search, bs: Seq<BranchView>, b: BranchView)
    ensures
        found_among(v, which, bs).contains(b) <==> bs.contains(b) && is_found(v, which, b),
    decreases bs.len(),
{
    if bs.len() > 0 {
        let init = bs.drop_last();
        search_is_complete(v, which, init, b);
        let f = found_among(v, which, init);
        let g = f.push(bs.last());
        if bs.contains(b) && b != bs.last() {
            let k = choose|k: int| 0 <= k < bs.len() && bs[k] == b;
            assert(init[k] == b);
        }
        if init.contains(b) {
            let k = choose|k: int| 0 <= k < init.len() && init[k] == b;
            assert(bs[k] == b);
        }
        if f.contains(b) {
            let k = choose|k: int| 0 <= k < f.len() && f[k] == b;
            assert(g[k] == b);
        }
        if g.contains(b) && b != bs.last() {
            let k = choose|k: int| 0 <= k < g.len() && g[k] == b;
            assert(f[k] == b);
        }
        assert(bs[bs.len() - 1] == bs.last());
        assert(g[g.len() - 1] == bs.last());
    }
}

/// Whether a branch can be deleted.
pub open spec fn deletable(v: BranchesView, name: Seq<char>, force: bool) -> bool {
    delete_error(v, name) is None && (force || child_count(
        v.branches,
        by_name(v.branches, name)->0.id,
    ) == 0)
}

/// A branch and its ancestors, from child to root, as far as `fuel` goes.
pub open spec fn ancestry(bs: Seq<BranchView>, id: Option<BranchId>, fuel: nat) -> Option<
    Seq<BranchView>,
>
    decreases fuel,
{
    match id {
        None => Some(Seq::empty()),
        Some(i) => match by_id(bs, i) {
            None => Some(Seq::empty()),
            Some(b) => if fuel == 0 {
                None
            } else {
                match ancestry(bs, b.parent, (fuel - 1) as nat) {
                    None => None,
                    Some(rest) => Some(seq![b] + rest),
                }
            },
        },
    }
}

/// Whether the text `part` occurs in the text `whole`.
pub open spec fn occurs_in(part: Seq<char>, whole: Seq<char>) -> bool {
    let p = encode_utf8(part);
    let w = encode_utf8(whole);
    exists|i: int| 0 <= i && i + p.len() <= w.len() && #[trigger] w.subrange(i, i + p.len()) == p
}

/// Whether one of the patterns occurs in a name.
pub open spec fn matches_any(patterns: Seq<Seq<char>>, name: Seq<char>) -> bool {
    exists|i: int| 0 <= i < patterns.len() && occurs_in(#[trigger] patterns[i], name)
}

/// Names with those of branches added, none twice.
pub open spec fn add_names(names: Seq<Seq<char>>, bs: Seq<BranchView>) -> Seq<Seq<char>>
    decreases bs.len(),
{
    if bs.len() == 0 {
        names
    } else {
        let before = add_names(names, bs.drop_last());
        if before.contains(bs.last().name) {
            before
        } else {
            before.push(bs.last().name)
        }
    }
}

/// The names that match a pattern.
pub open spec fn matching(names: Seq<Seq<char>>, patterns: Option<Seq<Seq<char>>>) -> Seq<Seq<char>>
    decreases names.len(),
{
    match patterns {
        None => names,
        Some(ps) => if names.len() == 0 {
            names
        } else {
            let before = matching(names.drop_last(), patterns);
            if matches_any(ps, names.last()) {
                before.push(names.last())
            } else {
                before
            }
        },
    }
}

/// What garbage collection goes by.
pub struct GcOptionsView {
    pub delete_orphaned: bool,
    pub delete_empty: bool,
    pub delete_stale_older_than: Option<u64>,
    pub name_patterns: Option<Seq<Seq<char>>>,
    pub force: bool,
    pub reparent_to: Option<Seq<char>>,
}

impl View for BranchGcOptions {
    type V = GcOptionsView;

    open spec fn view(&self) -> GcOptionsView {
        GcOptionsView {
            delete_orphaned: self.delete_orphaned,
            delete_empty: self.delete_empty,
            delete_stale_older_than: self.delete_stale_older_than,
            name_patterns: match self.name_patterns {
                Some(ps) => Some(views(ps@)),
                None => None,
            },
            force: self.force,
            reparent_to: match self.reparent_to {
                Some(s) => Some(s@),
                None => None,
            },
        }
    }
}

/// The branches that garbage collection looks at.
pub open spec fn gc_candidates(v: BranchesView, o: GcOptionsView) -> Seq<Seq<char>> {
    let none = Seq::<Seq<char>>::empty();
    let a = if o.delete_orphaned {
        add_names(none, found_among(v, Search::Orphaned, v.branches))
    } else {
        none
    };
    let b = if o.delete_empty {
        add_names(a, found_among(v, Search::Empty, v.branches))
    } else {
        a
    };
    let c = match o.delete_stale_older_than {
        Some(t) => add_names(b, found_among(v, Search::Stale(t), v.branches)),
        None => b,
    };
    matching(c, o.name_patterns)
}

/// What garbage collection makes of candidates, one after the other.
pub open spec fn gc_run(v: BranchesView, names: Seq<Seq<char>>, o: GcOptionsView) -> (
    BranchesView,
    GcView,
)
    decreases names.len(),
{
    if names.len() == 0 {
        (v, no_gc())
    } else {
        let (w, r) = gc_run(v, names.drop_last(), o);
        let name = names.last();
        if !deletable(w, name, o.force) {
            (w, GcView { skipped: r.skipped.push(name), ..r })
        } else {
            match reparent_error(w, name, o.reparent_to) {
                Some(e) => (w, GcView { errors: r.errors.push((name, error_text(e))), ..r }),
                None => {
                    let n = child_count(w.branches, by_name(w.branches, name)->0.id);
                    (
                        deleted_reparented(w, name, o.reparent_to),
                        GcView {
                            deleted: r.deleted.push(name),
                            reparented: if r.reparented + n <= usize::MAX {
                                (r.reparented + n) as usize
                            } else {
                                usize::MAX
                            },
                            ..r
                        },
                    )
                },
            }
        }
    }
}

/// Branch index as it is stored.
#[derive(Debug)]
pub struct BranchIndex {
    /// All branches.
    pub branches: Vec<Branch>,
    /// Next branch ID to assign.
    pub next_id: u64,
}

/// Manages branches with copy-on-write semantics.
pub struct BranchManager {
    index: BranchIndex,
    current: BranchId,
    last: Timestamp,
}

impl View for BranchManager {
    type V = BranchesView;

    closed spec fn view(&self) -> BranchesView {
        BranchesView {
            branches: views(self.index.branches@),
            next_id: self.index.next_id,
            current: self.current,
            last: self.last,
        }
    }
}

/// The error for a stored index that lists a branch twice, or one that has no number yet.
pub open spec fn bad_index() -> ErrorView {
    ErrorView::Corruption("Branch index is inconsistent"@)
}

/// Branches with one more, behind those whose ids are not larger.
pub open spec fn placed(bs: Seq<BranchView>, b: BranchView) -> Seq<BranchView>
    decreases bs.len(),
{
    if bs.len() > 0 && bs.last().id.0 > b.id.0 {
        placed(bs.drop_last(), b).push(bs.last())
    } else {
        bs.push(b)
    }
}

/// Branches in the order of their ids.
pub open spec fn ordered(bs: Seq<BranchView>) -> Seq<BranchView>
    decreases bs.len(),
{
    if bs.len() == 0 {
        bs
    } else {
        placed(ordered(bs.drop_last()), bs.last())
    }
}

/// Branches that are in the order of their ids stay as they are.
pub proof fn ordered_branches_stay(bs: Seq<BranchView>)
    requires
        forall|i: int, j: int|
            0 <= i < j < bs.len() ==> (#[trigger] bs[i]).id.0 < (#[trigger] bs[j]).id.0,
    ensures
        ordered(bs) == bs,
    decreases bs.len(),
{
    if bs.len() > 0 {
        let init = bs.drop_last();
        ordered_branches_stay(init);
        assert(init.push(bs.last()) =~= bs);
    }
}

/// Ordering branches keeps each of them, and sorts them by id.
pub proof fn ordering_sorts_branches(bs: Seq<BranchView>)
    ensures
        ordered(bs).to_multiset() == bs.to_multiset(),
        forall|i: int, j: int|
            0 <= i < j < ordered(bs).len() ==> (#[trigger] ordered(bs)[i]).id.0 <= (
            #[trigger] ordered(bs)[j]).id.0,
    decreases bs.len(),
{
    if bs.len() > 0 {
        ordering_sorts_branches(bs.drop_last());
        lemma_placed_sorts(ordered(bs.drop_last()), bs.last());
        vstd::seq_lib::to_multiset_build(bs.drop_last(), bs.last());
        assert(bs.drop_last().push(bs.last()) =~= bs);
    }
}

proof fn lemma_placed_sorts(bs: Seq<BranchView>, b: BranchView)
    requires
        forall|i: int, j: int|
            0 <= i < j < bs.len() ==> (#[trigger] bs[i]).id.0 <= (#[trigger] bs[j]).id.0,
    ensures
        placed(bs, b).to_multiset() == bs.to_multiset().insert(b),
        forall|i: int, j: int|
            0 <= i < j < placed(bs, b).len() ==> (#[trigger] placed(bs, b)[i]).id.0 <= (
            #[trigger] placed(bs, b)[j]).id.0,
        forall|i: int|
            0 <= i < placed(bs, b).len() ==> (#[trigger] placed(bs, b)[i]) == b || bs.contains(
                placed(bs, b)[i],
            ),
    decreases bs.len(),
{
    if bs.len() > 0 && bs.last().id.0 > b.id.0 {
        let init = bs.drop_last();
        lemma_placed_sorts(init, b);
        vstd::seq_lib::to_multiset_build(init, bs.last());
        vstd::seq_lib::to_multiset_build(placed(init, b), bs.last());
        assert(init.push(bs.last()) =~= bs);
        assert(placed(bs, b).to_multiset() =~= bs.to_multiset().insert(b));
        assert forall|i: int| 0 <= i < placed(bs, b).len() implies (#[trigger] placed(bs, b)[i])
            == b || bs.contains(placed(bs, b)[i]) by {
            if i < placed(init, b).len() {
                assert(placed(bs, b)[i] == placed(init, b)[i]);
                if placed(init, b)[i] != b {
                    let k = choose|k: int| 0 <= k < init.len() && init[k] == placed(init, b)[i];
                    assert(bs[k] == placed(bs, b)[i]);
                }
            } else {
                assert(bs[bs.len() - 1] == placed(bs, b)[i]);
            }
        }
        assert forall|i: int, j: int| 0 <= i < j < placed(bs, b).len() implies (
        #[trigger] placed(bs, b)[i]).id.0 <= (#[trigger] placed(bs, b)[j]).id.0 by {
            assert(placed(bs, b)[i] == placed(init, b)[i]);
            if j < placed(init, b).len() {
                assert(placed(bs, b)[j] == placed(init, b)[j]);
            } else if placed(init, b)[i] != b {
                let k = choose|k: int| 0 <= k < init.len() && init[k] == placed(init, b)[i];
                assert(bs[k].id.0 <= bs[bs.len() - 1].id.0);
            }
        }
    } else {
        vstd::seq_lib::to_multiset_build(bs, b);
        assert forall|i: int| 0 <= i < placed(bs, b).len() implies (#[trigger] placed(bs, b)[i])
            == b || bs.contains(placed(bs, b)[i]) by {
            if i < bs.len() {
                assert(bs[i] == placed(bs, b)[i]);
            }
        }
        assert forall|i: int, j: int| 0 <= i < j < placed(bs, b).len() implies (
        #[trigger] placed(bs, b)[i]).id.0 <= (#[trigger] placed(bs, b)[j]).id.0 by {
            assert(placed(bs, b)[i] == bs[i]);
            if j < bs.len() {
                assert(placed(bs, b)[j] == bs[j]);
            } else {
                assert(bs[i].id.0 <= bs.last().id.0);
            }
        }
    }
}

proof fn lemma_placed(bs: Seq<BranchView>, b: BranchView, at: int)
    requires
        0 <= at <= bs.len(),
        at > 0 ==> bs[at - 1].id.0 <= b.id.0,
        forall|i: int| at <= i < bs.len() ==> (#[trigger] bs[i]).id.0 > b.id.0,
    ensures
        placed(bs, b) == bs.insert(at, b),
    decreases bs.len(),
{
    if at < bs.len() {
        lemma_placed(bs.drop_last(), b, at);
        assert(bs.drop_last().insert(at, b).push(bs.last()) =~= bs.insert(at, b));
    } else {
        assert(bs.push(b) =~= bs.insert(at, b));
    }
}

/// Whether a branch has no commits beyond its branch point.
fn is_unused(b: &Branch) -> (r: bool)
    ensures
        r == (b@.branch_point == Some(b@.head)),
{
    match b.branch_point {
        Some(p) => p.0 == b.head.0,
        None => false,
    }
}

/// Puts branches into the order of their ids.
fn in_order(list: &Vec<Branch>) -> (r: Vec<Branch>)
    ensures
        views(r@) == ordered(views(list@)),
{
    let ghost all = views(list@);
    let mut out: Vec<Branch> = Vec::new();
    let mut i: usize = 0;
    assert(views(out@) =~= ordered(all.take(0)));
    while i < list.len()
        invariant
            i <= list@.len(),
            all == views(list@),
            views(out@) == ordered(all.take(i as int)),
        decreases list@.len() - i,
    {
        let b = list[i].clone();
        let ghost before = views(out@);
        let mut at: usize = out.len();
        while at > 0 && out[at - 1].id.0 > b.id.0
            invariant
                at <= out@.len(),
                before == views(out@),
                forall|k: int| at <= k < before.len() ==> (#[trigger] before[k]).id.0 > b@.id.0,
            decreases at,
        {
            at -= 1;
            assert(before[at as int] == out@[at as int]@);
        }
        proof {
            if at > 0 {
                assert(before[at - 1] == out@[at - 1]@);
            }
            lemma_placed(before, b@, at as int);
            assert(all.take(i + 1).drop_last() =~= all.take(i as int));
            assert(all.take(i + 1).last() == list@[i as int]@);
        }
        let ghost item = b@;
        let ghost olds = out@;
        out.insert(at, b);
        assert(views(out@) =~= views(olds).insert(at as int, item));
        i += 1;
    }
    assert(all.take(i as int) =~= all);
    out
}

impl BranchManager {
    /// Create a new branch manager with a main branch.
    pub fn new() -> (m: Self)
        ensures
            m@.wf(),
            m@.branches.len() == 1,
            m@.branches[0] == (BranchView {
                id: BranchId(1),
                name: "main"@,
                head: Sequence(0),
                parent: None,
                branch_point: None,
                created: m@.branches[0].created,
            }),
            m@.next_id == 2,
            m@.current == BranchId(1),
            m@.last == m@.branches[0].created,
    {
        let created = Timestamp::now();
        let main = Branch {
            id: BranchId(1),
            name: MAIN_BRANCH.to_owned(),
            head: Sequence(0),
            parent: None,
            branch_point: None,
            created,
        };
        let mut branches: Vec<Branch> = Vec::new();
        branches.push(main);
        BranchManager {
            index: BranchIndex { branches, next_id: 2 },
            current: BranchId(1),
            last: created,
        }
    }

    /// A branch manager with the branches of an index, in whatever order it lists them.
    pub fn load(index: BranchIndex, current: BranchId) -> (r: Result<Self, StoreError>)
        ensures
            ({
                let v = BranchesView {
                    branches: ordered(views(index.branches@)),
                    next_id: index.next_id,
                    current,
                    last: Timestamp(0),
                };
                match r {
                    Ok(m) => v.wf() && m@ == v,
                    Err(e) => !v.wf() && e@ == bad_index(),
                }
            }),
    {
        let branches = in_order(&index.branches);
        let ghost v = BranchesView {
            branches: views(branches@),
            next_id: index.next_id,
            current,
            last: Timestamp(0),
        };
        let n: usize = branches.len();
        let mut i: usize = 0;
        while i < n
            invariant
                i <= n == branches@.len(),
                v.branches == views(branches@),
                v.branches == ordered(views(index.branches@)),
                v.next_id == index.next_id,
                forall|a: int, b: int|
                    0 <= a < b < i ==> (#[trigger] v.branches[a]).id.0 < (
                    #[trigger] v.branches[b]).id.0,
                forall|a: int| 0 <= a < i ==> (#[trigger] v.branches[a]).id.0 < v.next_id,
                forall|a: int, b: int|
                    0 <= a < b < i ==> (#[trigger] v.branches[a]).name != (
                    #[trigger] v.branches[b]).name,
            decreases n - i,
        {
            assert(v.branches[i as int] == branches@[i as int]@);
            if branches[i].id.0 >= index.next_id {
                return Err(StoreError::Corruption("Branch index is inconsistent".to_owned()));
            }
            let mut j: usize = 0;
            while j < i
                invariant
                    j <= i < n == branches@.len(),
                    v.branches == views(branches@),
                    v.branches == ordered(views(index.branches@)),
                    forall|a: int|
                        0 <= a < j ==> (#[trigger] v.branches[a]).id.0 < v.branches[i as int].id.0
                            && v.branches[a].name != v.branches[i as int].name,
                decreases i - j,
            {
                assert(v.branches[i as int] == branches@[i as int]@);
                assert(v.branches[j as int] == branches@[j as int]@);
                if branches[j].id.0 >= branches[i].id.0 || same_text(
                    branches[j].name.as_str(),
                    branches[i].name.as_str(),
                ) {
                    return Err(StoreError::Corruption("Branch index is inconsistent".to_owned()));
                }
                j += 1;
            }
            i += 1;
        }
        Ok(
            BranchManager {
                index: BranchIndex { branches, next_id: index.next_id },
                current,
                last: Timestamp(0),
            },
        )
    }

    /// The index, to be saved.
    pub fn branch_index(&self) -> (r: &BranchIndex)
        ensures
            views(r.branches@) == self@.branches,
            r.next_id == self@.next_id,
    {
        &self.index
    }

    /// The id of the current branch.
    pub fn current_id(&self) -> (id: BranchId)
        ensures
            id == self@.current,
    {
        self.current
    }

    fn find_name(&self, name: &str) -> (r: Option<usize>)
        ensures
            match r {
                Some(i) => i < self.index.branches@.len() && by_name(self@.branches, name@) == Some(
                    self.index.branches@[i as int]@,
                ),
                None => by_name(self@.branches, name@) is None,
            },
    {
        let ghost all = self@.branches;
        let mut i: usize = self.index.branches.len();
        assert(all.take(i as int) =~= all);
        while i > 0
            invariant
                i <= self.index.branches@.len(),
                all == views(self.index.branches@),
                by_name(all, name@) == by_name(all.take(i as int), name@),
            decreases i,
        {
            assert(all.take(i as int).drop_last() =~= all.take(i - 1));
            assert(all.take(i as int).last() == self.index.branches@[i - 1]@);
            if same_text(self.index.branches[i - 1].name.as_str(), name) {
                return Some(i - 1);
            }
            i -= 1;
        }
        None
    }

    fn find_id(&self, id: BranchId) -> (r: Option<usize>)
        ensures
            match r {
                Some(i) => i < self.index.branches@.len() && by_id(self@.branches, id) == Some(
                    self.index.branches@[i as int]@,
                ) && self.index.branches@[i as int].id == id,
                None => by_id(self@.branches, id) is None,
            },
    {
        let ghost all = self@.branches;
        let mut i: usize = self.index.branches.len();
        assert(all.take(i as int) =~= all);
        while i > 0
            invariant
                i <= self.index.branches@.len(),
                all == views(self.index.branches@),
                by_id(all, id) == by_id(all.take(i as int), id),
            decreases i,
        {
            assert(all.take(i as int).drop_last() =~= all.take(i - 1));
            assert(all.take(i as int).last() == self.index.branches@[i - 1]@);
            if self.index.branches[i - 1].id.0 == id.0 {
                return Some(i - 1);
            }
            i -= 1;
        }
        None
    }

    fn add_branch(&mut self, name: &str, parent: BranchId, at: Sequence) -> (b: Branch)
        requires
            old(self)@.wf(),
            old(self)@.next_id < u64::MAX,
            by_name(old(self)@.branches, name@) is None,
        ensures
            final(self)@.wf(),
            b@ == new_branch(old(self)@, name@, parent, at, b.created),
            b.created.0 >= old(self)@.last.0,
            final(self)@ == with_branch(old(self)@, b@),
    {
        let ghost before = self@;
        let created = Timestamp::now_after(self.last);
        proof {
            lemma_found(before.branches, name@, BranchId(0));
        }
        let branch = Branch {
            id: BranchId(self.index.next_id),
            name: name.to_owned(),
            head: at,
            parent: Some(parent),
            branch_point: Some(at),
            created,
        };
        self.last = created;
        let copy = branch.clone();
        self.index.next_id = self.index.next_id + 1;
        self.index.branches.push(branch);
        proof {
            assert(self@.branches =~= before.branches.push(copy@));
            let after = self@.branches;
            assert forall|i: int, j: int| 0 <= i < j < after.len() implies (#[trigger] after[i]).id.0
                < (#[trigger] after[j]).id.0 && after[i].name != after[j].name by {
                assert(after[i] == before.branches[i]);
                if j < before.branches.len() {
                    assert(after[j] == before.branches[j]);
                }
            }
            assert forall|i: int| 0 <= i < after.len() implies (#[trigger] after[i]).id.0
                < self@.next_id by {
                if i < before.branches.len() {
                    assert(after[i] == before.branches[i]);
                }
            }
        }
        copy
    }

    /// Create a new branch from the current head of another branch, of main where none is
    /// given.
    pub fn create_branch(&mut self, name: &str, from: Option<&str>) -> (r: Result<
        Branch,
        StoreError,
    >)
        requires
            old(self)@.wf(),
            old(self)@.next_id < u64::MAX,
        ensures
            final(self)@.wf(),
            ({
                let parent = match from {
                    Some(f) => f@,
                    None => "main"@,
                };
                let error = if name@.len() == 0 {
                    Some(ErrorView::InvalidOperation("Branch name cannot be empty"@))
                } else {
                    create_error(old(self)@, name@, parent)
                };
                match r {
                    Ok(b) => {
                        let p = by_name(old(self)@.branches, parent)->0;
                        &&& error is None
                        &&& b@ == new_branch(old(self)@, name@, p.id, p.head, b.created)
                        &&& b.created.0 >= old(self)@.last.0
                        &&& final(self)@ == with_branch(old(self)@, b@)
                    },
                    Err(e) => error == Some(e@) && final(self)@ == old(self)@,
                }
            }),
    {
        if name.is_empty() {
            return Err(invalid_operation("Branch name cannot be empty"));
        }
        if self.find_name(name).is_some() {
            return Err(StoreError::BranchExists(name.to_owned()));
        }
        let parent_name: &str = match from {
            Some(f) => f,
            None => MAIN_BRANCH,
        };
        match self.find_name(parent_name) {
            None => Err(StoreError::BranchNotFound(parent_name.to_owned())),
            Some(i) => {
                let parent = self.index.branches[i].id;
                let head = self.index.branches[i].head;
                Ok(self.add_branch(name, parent, head))
            },
        }
    }

    /// Create a branch from a specific sequence number.
    pub fn create_branch_at(&mut self, name: &str, from: &str, at: Sequence) -> (r: Result<
        Branch,
        StoreError,
    >)
        requires
            old(self)@.wf(),
            old(self)@.next_id < u64::MAX,
        ensures
            final(self)@.wf(),
            ({
                let p = by_name(old(self)@.branches, from@);
                let error = match create_error(old(self)@, name@, from@) {
                    Some(e) => Some(e),
                    None => if at.0 > p->0.head.0 {
                        Some(ErrorView::InvalidSequence(at, p->0.head))
                    } else {
                        None
                    },
                };
                match r {
                    Ok(b) => {
                        &&& error is None
                        &&& b@ == new_branch(old(self)@, name@, p->0.id, at, b.created)
                        &&& b.created.0 >= old(self)@.last.0
                        &&& final(self)@ == with_branch(old(self)@, b@)
                    },
                    Err(e) => error == Some(e@) && final(self)@ == old(self)@,
                }
            }),
    {
        if self.find_name(name).is_some() {
            return Err(StoreError::BranchExists(name.to_owned()));
        }
        match self.find_name(from) {
            None => Err(StoreError::BranchNotFound(from.to_owned())),
            Some(i) => {
                let parent = self.index.branches[i].id;
                let head = self.index.branches[i].head;
                if at.0 > head.0 {
                    return Err(StoreError::InvalidSequence(at, head));
                }
                Ok(self.add_branch(name, parent, at))
            },
        }
    }

    /// Get a branch by name.
    pub fn get_branch(&self, name: &str) -> (r: Option<Branch>)
        ensures
            match r {
                Some(b) => by_name(self@.branches, name@) == Some(b@),
                None => by_name(self@.branches, name@) is None,
            },
    {
        match self.find_name(name) {
            Some(i) => Some(self.index.branches[i].clone()),
            None => None,
        }
    }

    /// Get a branch by ID.
    pub fn get_branch_by_id(&self, id: BranchId) -> (r: Option<Branch>)
        ensures
            match r {
                Some(b) => by_id(self@.branches, id) == Some(b@),
                None => by_id(self@.branches, id) is None,
            },
    {
        match self.find_id(id) {
            Some(i) => Some(self.index.branches[i].clone()),
            None => None,
        }
    }

    /// Get the current branch.
    pub fn current_branch(&self) -> (r: Result<Branch, StoreError>)
        ensures
            match r {
                Ok(b) => self@.current_branch() == Some(b@) && b.id == self@.current,
                Err(e) => self@.current_branch() is None && e@ == current_missing(self@.current),
            },
    {
        match self.find_id(self.current) {
            Some(i) => Ok(self.index.branches[i].clone()),
            None => {
                let mut text = joined("Current branch ", branch_id_string(self.current).as_str());
                text.append(" not found in index");
                Err(StoreError::Corruption(text))
            },
        }
    }

    /// Switch to a different branch.
    pub fn switch_branch(&mut self, name: &str) -> (r: Result<Branch, StoreError>)
        requires
            old(self)@.wf(),
        ensures
            final(self)@.wf(),
            match r {
                Ok(b) => by_name(old(self)@.branches, name@) == Some(b@) && final(self)@ == (
                BranchesView { current: b.id, ..old(self)@ }) && final(self)@.current_branch()
                    == Some(b@),
                Err(e) => by_name(old(self)@.branches, name@) is None && e@
                    == ErrorView::BranchNotFound(name@) && final(self)@ == old(self)@,
            },
    {
        match self.find_name(name) {
            None => Err(StoreError::BranchNotFound(name.to_owned())),
            Some(i) => {
                proof {
                    lemma_branch_at(self@, i as int);
                    assert(self@.branches[i as int] == self.index.branches@[i as int]@);
                }
                let branch = self.index.branches[i].clone();
                self.current = branch.id;
                Ok(branch)
            },
        }
    }

    /// Update the head of a branch.
    pub fn update_head(&mut self, branch_id: BranchId, new_head: Sequence) -> (r: Result<
        (),
        StoreError,
    >)
        requires
            old(self)@.wf(),
        ensures
            final(self)@.wf(),
            match r {
                Ok(_) => by_id(old(self)@.branches, branch_id) is Some && final(self)@ == (
                BranchesView {
                    branches: with_head(old(self)@.branches, branch_id, new_head),
                    ..old(self)@
                }),
                Err(e) => by_id(old(self)@.branches, branch_id) is None && e@
                    == ErrorView::BranchNotFound(branch_id_text(branch_id)) && final(self)@ == old(self)@,
            },
    {
        match self.find_id(branch_id) {
            None => Err(StoreError::BranchNotFound(branch_id_string(branch_id))),
            Some(i) => {
                let ghost before = self@;
                let mut branch = self.index.branches[i].clone();
                branch.head = new_head;
                let ghost moved = branch@;
                assert(before.branches[i as int] == self.index.branches@[i as int]@);
                self.index.branches.set(i, branch);
                proof {
                    let after = self@.branches;
                    assert(after =~= before.branches.update(i as int, moved));
                    assert forall|k: int| 0 <= k < after.len() implies after[k] == with_head(
                        before.branches,
                        branch_id,
                        new_head,
                    )[k] by {
                        if k < i {
                            assert(before.branches[k].id.0 < before.branches[i as int].id.0);
                        } else if k > i {
                            assert(before.branches[i as int].id.0 < before.branches[k].id.0);
                        }
                    }
                    assert(after =~= with_head(before.branches, branch_id, new_head));
                    lemma_with_head_wf(before, branch_id, new_head);
                }
                Ok(())
            },
        }
    }

    /// Get all branches, oldest first.
    pub fn list_branches(&self) -> (r: Vec<Branch>)
        ensures
            views(r@) == self@.branches,
    {
        let mut out: Vec<Branch> = Vec::new();
        let mut i: usize = 0;
        while i < self.index.branches.len()
            invariant
                i <= self.index.branches@.len(),
                out@.len() == i,
                forall|j: int| 0 <= j < i ==> (#[trigger] out@[j])@ == self.index.branches@[j]@,
            decreases self.index.branches@.len() - i,
        {
            out.push(self.index.branches[i].clone());
            i += 1;
        }
        assert(views(out@) =~= self@.branches);
        out
    }

    /// Get branch count.
    pub fn branch_count(&self) -> (n: usize)
        ensures
            n == self@.branches.len(),
    {
        self.index.branches.len()
    }

    fn remove_name(&mut self, name: &str)
        requires
            old(self)@.wf(),
        ensures
            final(self)@.wf(),
            final(self)@ == (BranchesView {
                branches: without_name(old(self)@.branches, name@),
                ..old(self)@
            }),
    {
        let ghost before = self@;
        match self.find_name(name) {
            None => {
                proof {
                    lemma_found(before.branches, name@, BranchId(0));
                    lemma_without_absent(before.branches, name@);
                }
            },
            Some(i) => {
                proof {
                    assert(before.branches[i as int] == self.index.branches@[i as int]@);
                    lemma_found(before.branches, name@, BranchId(0));
                    lemma_without_removes(before, name@, i as int);
                }
                self.index.branches.remove(i);
                assert(self@.branches =~= before.branches.remove(i as int));
            },
        }
        proof {
            lemma_without_wf(before, name@);
        }
    }

    /// Delete a branch (cannot delete main or current branch).
    pub fn delete_branch(&mut self, name: &str) -> (r: Result<(), StoreError>)
        requires
            old(self)@.wf(),
        ensures
            final(self)@.wf(),
            match delete_error(old(self)@, name@) {
                Some(e) => r matches Err(x) && x@ == e && final(self)@ == old(self)@,
                None => r is Ok && final(self)@ == (BranchesView {
                    branches: without_name(old(self)@.branches, name@),
                    ..old(self)@
                }),
            },
    {
        if same_text(name, MAIN_BRANCH) {
            return Err(StoreError::BranchNotFound("Cannot delete main branch".to_owned()));
        }
        let i: usize = match self.find_name(name) {
            None => return Err(StoreError::BranchNotFound(name.to_owned())),
            Some(i) => i,
        };
        if self.index.branches[i].id.0 == self.current.0 {
            return Err(StoreError::BranchNotFound("Cannot delete current branch".to_owned()));
        }
        self.remove_name(name);
        Ok(())
    }

    /// Get branch ancestry (from child to root). Where branches were made ancestors of
    /// themselves there is none.
    pub fn get_ancestry(&self, name: &str) -> (r: Result<Vec<Branch>, StoreError>)
        requires
            by_name(self@.branches, name@) matches Some(b) ==> ancestry(
                self@.branches,
                Some(b.id),
                self@.branches.len(),
            ) is Some,
            self@.wf(),
        ensures
            match r {
                Ok(bs) => by_name(self@.branches, name@) matches Some(b) && ancestry(
                    self@.branches,
                    Some(b.id),
                    self@.branches.len(),
                ) == Some(views(bs@)),
                Err(e) => by_name(self@.branches, name@) is None && e@ == ErrorView::BranchNotFound(
                    name@,
                ),
            },
    {
        let start = match self.find_name(name) {
            None => return Err(StoreError::BranchNotFound(name.to_owned())),
            Some(i) => self.index.branches[i].id,
        };
        let ghost bs = self@.branches;
        let ghost all = ancestry(bs, Some(start), bs.len());
        let mut out: Vec<Branch> = Vec::new();
        let mut cur: Option<BranchId> = Some(start);
        let mut fuel: usize = self.index.branches.len();
        assert(views(out@) =~= Seq::empty());
        assert(views(out@) + all->0 =~= all->0);
        loop
            invariant
                bs == self@.branches,
                all is Some,
                all == ancestry(bs, Some(start), bs.len()),
                ancestry(bs, cur, fuel as nat) is Some,
                all->0 == views(out@) + ancestry(bs, cur, fuel as nat)->0,
                by_name(bs, name@) matches Some(b) && b.id == start,
            decreases fuel,
        {
            let id = match cur {
                None => {
                    assert(views(out@) + Seq::<BranchView>::empty() =~= views(out@));
                    return Ok(out);
                },
                Some(id) => id,
            };
            match self.find_id(id) {
                None => {
                    assert(views(out@) + Seq::<BranchView>::empty() =~= views(out@));
                    return Ok(out);
                },
                Some(i) => {
                    let branch = self.index.branches[i].clone();
                    let ghost before = views(out@);
                    let ghost rest = ancestry(bs, branch.parent, (fuel - 1) as nat)->0;
                    cur = branch.parent;
                    out.push(branch);
                    fuel -= 1;
                    assert(views(out@) =~= before.push(branch@));
                    assert(before + (seq![branch@] + rest) =~= views(out@) + rest);
                },
            }
        }
    }

    /// Check if a sequence is visible from a branch: it is not beyond the head.
    pub fn is_visible(&self, branch_name: &str, seq: Sequence) -> (r: Result<bool, StoreError>)
        ensures
            match by_name(self@.branches, branch_name@) {
                Some(b) => r matches Ok(x) && x == (seq.0 <= b.head.0),
                None => r matches Err(e) && e@ == ErrorView::BranchNotFound(branch_name@),
            },
    {
        match self.find_name(branch_name) {
            None => Err(StoreError::BranchNotFound(branch_name.to_owned())),
            Some(i) => Ok(seq.0 <= self.index.branches[i].head.0),
        }
    }

    fn is_one(&self, which: &Search, b: &Branch) -> (r: bool)
        ensures
            r == is_found(self@, *which, b@),
    {
        match which {
            Search::Orphaned => match b.parent {
                Some(p) => self.find_id(p).is_none(),
                None => false,
            },
            Search::Stale(older_than) => {
                let created_before: bool = b.created.0 < 0 || (b.created.0 as u64) < *older_than;
                !same_text(b.name.as_str(), MAIN_BRANCH) && created_before && is_unused(b)
            },
            Search::Empty => !same_text(b.name.as_str(), MAIN_BRANCH) && is_unused(b),
            Search::ChildrenOf(id) => match b.parent {
                Some(p) => p.0 == id.0,
                None => false,
            },
        }
    }

    fn search(&self, which: Search) -> (r: Vec<Branch>)
        ensures
            views(r@) == found_among(self@, which, self@.branches),
    {
        let ghost all = self@.branches;
        let mut out: Vec<Branch> = Vec::new();
        let mut i: usize = 0;
        assert(all.take(0) =~= Seq::empty());
        assert(views(out@) =~= Seq::empty());
        while i < self.index.branches.len()
            invariant
                i <= self.index.branches@.len(),
                all == self@.branches,
                all == views(self.index.branches@),
                views(out@) == found_among(self@, which, all.take(i as int)),
            decreases self.index.branches@.len() - i,
        {
            let ghost before = views(out@);
            assert(all.take(i + 1).drop_last() =~= all.take(i as int));
            assert(all.take(i + 1).last() == self.index.branches@[i as int]@);
            if self.is_one(&which, &self.index.branches[i]) {
                let b = self.index.branches[i].clone();
                out.push(b);
                assert(views(out@) =~= before.push(b@));
            }
            i += 1;
        }
        assert(all.take(i as int) =~= all);
        out
    }

    /// Find orphaned branches (branches whose parent was deleted).
    pub fn get_orphaned_branches(&self) -> (r: Vec<Branch>)
        ensures
            views(r@) == found_among(self@, Search::Orphaned, self@.branches),
    {
        self.search(Search::Orphaned)
    }

    /// Find stale branches: those, except main, that were created before a time and have not
    /// been updated.
    pub fn get_stale_branches(&self, older_than: u64) -> (r: Vec<Branch>)
        ensures
            views(r@) == found_among(self@, Search::Stale(older_than), self@.branches),
    {
        self.search(Search::Stale(older_than))
    }

    /// Find empty branches (branches with no commits beyond branch point).
    pub fn get_empty_branches(&self) -> (r: Vec<Branch>)
        ensures
            views(r@) == found_among(self@, Search::Empty, self@.branches),
    {
        self.search(Search::Empty)
    }

    /// Find branches that are children of a given branch.
    pub fn get_child_branches(&self, parent_id: BranchId) -> (r: Vec<Branch>)
        ensures
            views(r@) == found_among(self@, Search::ChildrenOf(parent_id), self@.branches),
    {
        self.search(Search::ChildrenOf(parent_id))
    }

    fn count_children(&self, id: BranchId) -> (n: usize)
        ensures
            n == child_count(self@.branches, id),
    {
        let ghost all = self@.branches;
        let mut n: usize = 0;
        let mut i: usize = 0;
        assert(all.take(0) =~= Seq::empty());
        while i < self.index.branches.len()
            invariant
                i <= self.index.branches@.len(),
                n <= i,
                all == views(self.index.branches@),
                n == child_count(all.take(i as int), id),
            decreases self.index.branches@.len() - i,
        {
            assert(all.take(i + 1).drop_last() =~= all.take(i as int));
            assert(all.take(i + 1).last() == self.index.branches@[i as int]@);
            if self.is_one(&Search::ChildrenOf(id), &self.index.branches[i]) {
                n += 1;
            }
            i += 1;
        }
        assert(all.take(i as int) =~= all);
        n
    }

    /// Check if a branch can be safely deleted: it is neither main nor current, and has no
    /// children unless forced.
    pub fn can_delete(&self, name: &str, force: bool) -> (r: bool)
        ensures
            r == deletable(self@, name@, force),
    {
        if same_text(name, MAIN_BRANCH) {
            return false;
        }
        let i: usize = match self.find_name(name) {
            None => return false,
            Some(i) => i,
        };
        let id = self.index.branches[i].id;
        if id.0 == self.current.0 {
            return false;
        }
        force || self.count_children(id) == 0
    }

    fn reparent(&mut self, id: BranchId, to: Option<BranchId>)
        requires
            old(self)@.wf(),
        ensures
            final(self)@.wf(),
            final(self)@ == (BranchesView {
                branches: reparented(old(self)@.branches, id, to),
                ..old(self)@
            }),
    {
        let ghost before = self@;
        let n: usize = self.index.branches.len();
        let mut i: usize = 0;
        while i < n
            invariant
                i <= n == self.index.branches@.len(),
                before.branches.len() == n,
                self.index.next_id == before.next_id,
                self.current == before.current,
                self.last == before.last,
                forall|k: int|
                    0 <= k < i ==> (#[trigger] self.index.branches@[k])@ == reparented(
                        before.branches,
                        id,
                        to,
                    )[k],
                forall|k: int|
                    i <= k < n ==> (#[trigger] self.index.branches@[k])@ == before.branches[k],
            decreases n - i,
        {
            let mine: bool = match self.index.branches[i].parent {
                Some(p) => p.0 == id.0,
                None => false,
            };
            if mine && to.is_some() {
                let mut b = self.index.branches[i].clone();
                b.parent = to;
                self.index.branches.set(i, b);
            }
            i += 1;
        }
        proof {
            assert(self@.branches =~= reparented(before.branches, id, to));
            let after = self@.branches;
            assert forall|a: int, b: int| 0 <= a < b < after.len() implies (#[trigger] after[a]).id.0
                < (#[trigger] after[b]).id.0 && after[a].name != after[b].name by {
                assert(before.branches[a].id.0 < before.branches[b].id.0);
                assert(before.branches[a].name != before.branches[b].name);
            }
            assert forall|a: int| 0 <= a < after.len() implies (#[trigger] after[a]).id.0
                < self@.next_id by {
                assert(before.branches[a].id.0 < before.next_id);
            }
        }
    }

    /// Delete a branch and give its children to another parent; without one they become
    /// orphaned. Returns the number of children.
    pub fn delete_branch_with_reparent(&mut self, name: &str, reparent_to: Option<&str>) -> (r:
        Result<usize, StoreError>)
        requires
            old(self)@.wf(),
        ensures
            final(self)@.wf(),
            ({
                let to = match reparent_to {
                    Some(p) => Some(p@),
                    None => None,
                };
                match reparent_error(old(self)@, name@, to) {
                    Some(e) => r matches Err(x) && x@ == e && final(self)@ == old(self)@,
                    None => r matches Ok(n) && n == child_count(
                        old(self)@.branches,
                        by_name(old(self)@.branches, name@)->0.id,
                    ) && final(self)@ == deleted_reparented(old(self)@, name@, to),
                }
            }),
    {
        if same_text(name, MAIN_BRANCH) {
            return Err(StoreError::BranchNotFound("Cannot delete main branch".to_owned()));
        }
        let i: usize = match self.find_name(name) {
            None => return Err(StoreError::BranchNotFound(name.to_owned())),
            Some(i) => i,
        };
        let id = self.index.branches[i].id;
        if id.0 == self.current.0 {
            return Err(StoreError::BranchNotFound("Cannot delete current branch".to_owned()));
        }
        let parent: Option<BranchId> = match reparent_to {
            None => None,
            Some(p) => match self.find_name(p) {
                None => return Err(StoreError::BranchNotFound(p.to_owned())),
                Some(k) => Some(self.index.branches[k].id),
            },
        };
        let n: usize = self.count_children(id);
        self.reparent(id, parent);
        self.remove_name(name);
        Ok(n)
    }

    fn candidates(&self, options: &BranchGcOptions) -> (r: Vec<String>)
        ensures
            views(r@) == gc_candidates(self@, options@),
    {
        let mut names: Vec<String> = Vec::new();
        assert(views(names@) =~= Seq::empty());
        if options.delete_orphaned {
            names = merge_names(names, self.get_orphaned_branches());
        }
        if options.delete_empty {
            names = merge_names(names, self.get_empty_branches());
        }
        if let Some(older_than) = options.delete_stale_older_than {
            names = merge_names(names, self.get_stale_branches(older_than));
        }
        match &options.name_patterns {
            None => names,
            Some(patterns) => keep_matching(names, patterns),
        }
    }

    /// Garbage collect branches based on criteria.
    pub fn gc(&mut self, options: BranchGcOptions) -> (r: BranchGcResult)
        requires
            old(self)@.wf(),
        ensures
            final(self)@.wf(),
            (final(self)@, r@) == gc_run(
                old(self)@,
                gc_candidates(old(self)@, options@),
                options@,
            ),
    {
        let ghost start = self@;
        let names = self.candidates(&options);
        let ghost all = views(names@);
        let mut result = BranchGcResult::default();
        let mut i: usize = 0;
        assert(all.take(0) =~= Seq::empty());
        while i < names.len()
            invariant
                i <= names@.len(),
                all == views(names@),
                self@.wf(),
                (self@, result@) == gc_run(start, all.take(i as int), options@),
            decreases names@.len() - i,
        {
            let ghost before = result@;
            proof {
                assert(all.take(i + 1).drop_last() =~= all.take(i as int));
                assert(all.take(i + 1).last() == names@[i as int]@);
            }
            let name: &String = &names[i];
            if self.can_delete(name.as_str(), options.force) {
                let to: Option<&str> = match &options.reparent_to {
                    Some(s) => Some(s.as_str()),
                    None => None,
                };
                match self.delete_branch_with_reparent(name.as_str(), to) {
                    Ok(n) => {
                        result.deleted.push(name.clone());
                        result.reparented = result.reparented.saturating_add(n);
                        assert(result@.deleted =~= before.deleted.push(name@));
                    },
                    Err(e) => {
                        let text = e.message();
                        result.errors.push((name.clone(), text));
                        assert(result@.errors =~= before.errors.push((name@, text@)));
                    },
                }
            } else {
                result.skipped.push(name.clone());
                assert(result@.skipped =~= before.skipped.push(name@));
            }
            i += 1;
        }
        assert(all.take(i as int) =~= all);
        result
    }
}

proof fn lemma_with_head_wf(v: BranchesView, id: BranchId, head: Sequence)
    requires
        v.wf(),
    ensures
        (BranchesView { branches: with_head(v.branches, id, head), ..v }).wf(),
{
    let bs = with_head(v.branches, id, head);
    assert forall|a: int, b: int| 0 <= a < b < bs.len() implies (#[trigger] bs[a]).id.0 < (
    #[trigger] bs[b]).id.0 && bs[a].name != bs[b].name by {
        assert(v.branches[a].id.0 < v.branches[b].id.0);
        assert(v.branches[a].name != v.branches[b].name);
    }
    assert forall|a: int| 0 <= a < bs.len() implies (#[trigger] bs[a]).id.0 < v.next_id by {
        assert(v.branches[a].id.0 < v.next_id);
    }
}

proof fn lemma_without_absent(bs: Seq<BranchView>, name: Seq<char>)
    requires
        forall|i: int| 0 <= i < bs.len() ==> (#[trigger] bs[i]).name != name,
    ensures
        without_name(bs, name) == bs,
    decreases bs.len(),
{
    if bs.len() > 0 {
        let init = bs.drop_last();
        assert forall|i: int| 0 <= i < init.len() implies (#[trigger] init[i]).name != name by {
            assert(bs[i] == init[i]);
        }
        assert(bs[bs.len() - 1].name != name);
        lemma_without_absent(init, name);
        assert(init.push(bs.last()) =~= bs);
    }
}

proof fn lemma_without_removes(v: BranchesView, name: Seq<char>, i: int)
    requires
        v.wf(),
        0 <= i < v.branches.len(),
        v.branches[i].name == name,
    ensures
        without_name(v.branches, name) == v.branches.remove(i),
    decreases v.branches.len(),
{
    let bs = v.branches;
    let init = bs.drop_last();
    let w = BranchesView { branches: init, ..v };
    assert(w.wf()) by {
        assert forall|a: int, b: int| 0 <= a < b < init.len() implies (#[trigger] init[a]).id.0 < (
        #[trigger] init[b]).id.0 && init[a].name != init[b].name by {
            assert(bs[a] == init[a] && bs[b] == init[b]);
        }
        assert forall|a: int| 0 <= a < init.len() implies (#[trigger] init[a]).id.0 < v.next_id by {
            assert(bs[a] == init[a]);
        }
    }
    if i == bs.len() - 1 {
        assert forall|k: int| 0 <= k < init.len() implies (#[trigger] init[k]).name != name by {
            assert(bs[k] == init[k]);
            assert(bs[k].name != bs[i].name);
        }
        lemma_without_absent(init, name);
        assert(bs.remove(i) =~= init);
    } else {
        assert(bs[bs.len() - 1].name != bs[i].name);
        assert(init[i] == bs[i]);
        lemma_without_removes(w, name, i);
        assert(bs.remove(i) =~= init.remove(i).push(bs.last()));
    }
}

proof fn lemma_without_wf(v: BranchesView, name: Seq<char>)
    requires
        v.wf(),
    ensures
        (BranchesView { branches: without_name(v.branches, name), ..v }).wf(),
{
    lemma_found(v.branches, name, BranchId(0));
    if let Some(b) = by_name(v.branches, name) {
        let i = choose|i: int| 0 <= i < v.branches.len() && v.branches[i] == b;
        lemma_without_removes(v, name, i);
        let r = v.branches.remove(i);
        assert forall|x: int, y: int| 0 <= x < y < r.len() implies (#[trigger] r[x]).id.0 < (
        #[trigger] r[y]).id.0 && r[x].name != r[y].name by {
            let p = if x < i { x } else { x + 1 };
            let q = if y < i { y } else { y + 1 };
            assert(r[x] == v.branches[p] && r[y] == v.branches[q]);
        }
        assert forall|x: int| 0 <= x < r.len() implies (#[trigger] r[x]).id.0 < v.next_id by {
            let p = if x < i { x } else { x + 1 };
            assert(r[x] == v.branches[p]);
        }
    } else {
        lemma_without_absent(v.branches, name);
    }
}

fn has_name(names: &Vec<String>, name: &str) -> (r: bool)
    ensures
        r == views(names@).contains(name@),
{
    let ghost all = views(names@);
    let mut i: usize = 0;
    while i < names.len()
        invariant
            i <= names@.len(),
            all == views(names@),
            forall|j: int| 0 <= j < i ==> (#[trigger] all[j]) != name@,
        decreases names@.len() - i,
    {
        assert(all[i as int] == names@[i as int]@);
        if same_text(names[i].as_str(), name) {
            return true;
        }
        i += 1;
    }
    false
}

fn merge_names(names: Vec<String>, branches: Vec<Branch>) -> (r: Vec<String>)
    ensures
        views(r@) == add_names(views(names@), views(branches@)),
{
    let ghost start = views(names@);
    let ghost all = views(branches@);
    let mut out = names;
    let mut i: usize = 0;
    assert(all.take(0) =~= Seq::empty());
    while i < branches.len()
        invariant
            i <= branches@.len(),
            all == views(branches@),
            views(out@) == add_names(start, all.take(i as int)),
        decreases branches@.len() - i,
    {
        let ghost before = views(out@);
        assert(all.take(i + 1).drop_last() =~= all.take(i as int));
        assert(all.take(i + 1).last() == branches@[i as int]@);
        if !has_name(&out, branches[i].name.as_str()) {
            let name = branches[i].name.clone();
            out.push(name);
            assert(views(out@) =~= before.push(name@));
        }
        i += 1;
    }
    assert(all.take(i as int) =~= all);
    out
}

fn part_occurs(part: &str, whole: &str) -> (r: bool)
    ensures
        r == occurs_in(part@, whole@),
{
    let p = part.as_bytes();
    let w = whole.as_bytes();
    if p.len() > w.len() {
        return false;
    }
    let last: usize = w.len() - p.len();
    let mut i: usize = 0;
    loop
        invariant
            p@ == encode_utf8(part@),
            w@ == encode_utf8(whole@),
            last + p@.len() == w@.len(),
            i <= last,
            forall|k: int| 0 <= k < i ==> #[trigger] w@.subrange(k, k + p@.len()) != p@,
        decreases last - i,
    {
        assert(w.len() == w@.len());
        let piece = vstd::slice::slice_subrange(w, i, i + p.len());
        if crate::bytes::same_bytes(piece, p) {
            assert(w@.subrange(i as int, i + p@.len()) == p@);
            return true;
        }
        if i == last {
            assert forall|k: int| 0 <= k && k + p@.len() <= w@.len() implies #[trigger] w@.subrange(
                k,
                k + p@.len(),
            ) != p@ by {}
            return false;
        }
        i += 1;
    }
}

fn any_occurs(patterns: &Vec<String>, name: &str) -> (r: bool)
    ensures
        r == matches_any(views(patterns@), name@),
{
    let ghost all = views(patterns@);
    let mut i: usize = 0;
    while i < patterns.len()
        invariant
            i <= patterns@.len(),
            all == views(patterns@),
            forall|j: int| 0 <= j < i ==> !occurs_in(#[trigger] all[j], name@),
        decreases patterns@.len() - i,
    {
        assert(all[i as int] == patterns@[i as int]@);
        if part_occurs(patterns[i].as_str(), name) {
            return true;
        }
        i += 1;
    }
    false
}

fn keep_matching(names: Vec<String>, patterns: &Vec<String>) -> (r: Vec<String>)
    ensures
        views(r@) == matching(views(names@), Some(views(patterns@))),
{
    let ghost all = views(names@);
    let mut out: Vec<String> = Vec::new();
    let mut i: usize = 0;
    assert(all.take(0) =~= Seq::empty());
    assert(views(out@) =~= Seq::empty());
    while i < names.len()
        invariant
            i <= names@.len(),
            all == views(names@),
            views(out@) == matching(all.take(i as int), Some(views(patterns@))),
        decreases names@.len() - i,
    {
        let ghost before = views(out@);
        assert(all.take(i + 1).drop_last() =~= all.take(i as int));
        assert(all.take(i + 1).last() == names@[i as int]@);
        if any_occurs(patterns, names[i].as_str()) {
            let name = names[i].clone();
            out.push(name);
            assert(views(out@) =~= before.push(name@));
        }
        i += 1;
    }
    assert(all.take(i as int) =~= all);
    out
}

} // verus!
