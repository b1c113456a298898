//! The tree store: the authoritative hierarchical collection of groups and
//! entries, addressed by identity, with recycle-bin semantics.
//!
//! The store is a flat arena: groups refer to their parent and entries to
//! their owning group by identifier.  Well-formedness pins the shape down:
//! the root group sits first and is the only group without a parent, every
//! other group's parent appears earlier in the arena, identifiers are
//! unique, and at most one group — directly under the root, at the second
//! slot — is the recycle bin.

use vstd::prelude::*;
use vstd::string::StrSliceExecFns;
use vstd::string::StringExecFns;

use crate::entry::{check_custom_fields, valid_custom_fields, Entry, EntryView};
use crate::error::VaultError;
use crate::group::{Group, GroupView};
use crate::trusted::fresh_id;

verus! {

/// The views of a sequence of groups.
pub open spec fn groups_view(s: Seq<Group>) -> Seq<GroupView> {
    s.map_values(|g: Group| g@)
}

/// The views of a sequence of entries.
pub open spec fn entries_view(s: Seq<Entry>) -> Seq<EntryView> {
    s.map_values(|e: Entry| e@)
}

/// The mathematical value of a [`Tree`].
#[verifier::ext_equal]
pub struct TreeView {
    pub groups: Seq<GroupView>,
    pub entries: Seq<EntryView>,
}

// ---------------------------------------------------------------------------
// Identity resolution over group and entry sequences.
// ---------------------------------------------------------------------------

/// Some group in `gs` carries the identifier `id`.
pub open spec fn has_group(gs: Seq<GroupView>, id: Seq<char>) -> bool {
    exists|i: int| 0 <= i < gs.len() && (#[trigger] gs[i].id) == id
}

/// The index of the group carrying `id`; meaningful under
/// [`unique_group_ids`] when [`has_group`] holds.
pub open spec fn group_index(gs: Seq<GroupView>, id: Seq<char>) -> int {
    choose|i: int| 0 <= i < gs.len() && (#[trigger] gs[i].id) == id
}

/// The group of `gs` carrying `id`.
pub open spec fn group_by_id(gs: Seq<GroupView>, id: Seq<char>) -> GroupView {
    gs[group_index(gs, id)]
}

/// Some entry in `es` carries the identifier `id`.
pub open spec fn has_entry(es: Seq<EntryView>, id: Seq<char>) -> bool {
    exists|i: int| 0 <= i < es.len() && (#[trigger] es[i].id) == id
}

/// The index of the entry carrying `id`.
pub open spec fn entry_index(es: Seq<EntryView>, id: Seq<char>) -> int {
    choose|i: int| 0 <= i < es.len() && (#[trigger] es[i].id) == id
}

/// The entry of `es` carrying `id`.
pub open spec fn entry_by_id(es: Seq<EntryView>, id: Seq<char>) -> EntryView {
    es[entry_index(es, id)]
}

/// Some group of `gs` is the recycle bin.
pub open spec fn has_bin(gs: Seq<GroupView>) -> bool {
    exists|i: int| 0 <= i < gs.len() && (#[trigger] gs[i].is_recycle_bin)
}

/// The index of the recycle bin; meaningful when [`has_bin`] holds.
pub open spec fn bin_index(gs: Seq<GroupView>) -> int {
    choose|i: int| 0 <= i < gs.len() && (#[trigger] gs[i].is_recycle_bin)
}

/// The identifier of the recycle bin.
pub open spec fn bin_id(gs: Seq<GroupView>) -> Seq<char> {
    gs[bin_index(gs)].id
}

// ---------------------------------------------------------------------------
// Well-formedness.
// ---------------------------------------------------------------------------

/// No two groups share an identifier.
pub open spec fn unique_group_ids(gs: Seq<GroupView>) -> bool {
    forall|i: int, j: int|
        0 <= i < gs.len() && 0 <= j < gs.len() && (#[trigger] gs[i].id) == (#[trigger] gs[j].id)
            ==> i == j
}

/// No two entries share an identifier.
pub open spec fn unique_entry_ids(es: Seq<EntryView>) -> bool {
    forall|i: int, j: int|
        0 <= i < es.len() && 0 <= j < es.len() && (#[trigger] es[i].id) == (#[trigger] es[j].id)
            ==> i == j
}

/// The parent of the group at position `i` appears strictly earlier in the
/// arena.
pub open spec fn parent_present(gs: Seq<GroupView>, i: int) -> bool {
    exists|j: int| 0 <= j < i && (#[trigger] gs[j].id) == gs[i].parent_id->0
}

/// The shape invariant of the group arena.
pub open spec fn wf_groups(gs: Seq<GroupView>) -> bool {
    &&& gs.len() >= 1
    &&& gs[0].parent_id is None
    &&& !gs[0].is_recycle_bin
    &&& forall|i: int| 1 <= i < gs.len() ==> (#[trigger] gs[i].parent_id) is Some
    &&& forall|i: int| 1 <= i < gs.len() ==> #[trigger] parent_present(gs, i)
    &&& unique_group_ids(gs)
    &&& forall|i: int|
        0 <= i < gs.len() && (#[trigger] gs[i].is_recycle_bin) ==> i == 1 && gs[i].parent_id
            == Option::Some(gs[0].id)
}

/// The invariant of a whole tree: a well-formed arena, and every entry
/// owned by a live group under a unique identifier.
pub open spec fn wf_tree(t: TreeView) -> bool {
    &&& wf_groups(t.groups)
    &&& forall|k: int|
        0 <= k < t.entries.len() ==> has_group(t.groups, (#[trigger] t.entries[k]).group_id)
    &&& unique_entry_ids(t.entries)
}

// ---------------------------------------------------------------------------
// Ancestry.
// ---------------------------------------------------------------------------

/// The group `id` is `anc` or descends from `anc`, following at most
/// `fuel` parent links.
pub open spec fn reaches(gs: Seq<GroupView>, id: Seq<char>, anc: Seq<char>, fuel: nat) -> bool
    decreases fuel,
{
    if fuel == 0 {
        false
    } else if !has_group(gs, id) {
        false
    } else if id == anc {
        true
    } else {
        match group_by_id(gs, id).parent_id {
            Option::Some(p) => reaches(gs, p, anc, (fuel - 1) as nat),
            Option::None => false,
        }
    }
}

/// The group `id` is `anc` or descends from `anc`.  In a well-formed arena
/// every parent chain ends within `gs.len()` steps, so this fuel decides
/// the question.
pub open spec fn reach(gs: Seq<GroupView>, id: Seq<char>, anc: Seq<char>) -> bool {
    reaches(gs, id, anc, (gs.len() + 1) as nat)
}

/// The entry `eid` lives in the recycle bin's subtree.
pub open spec fn entry_recycled(t: TreeView, eid: Seq<char>) -> bool {
    &&& has_entry(t.entries, eid)
    &&& has_bin(t.groups)
    &&& reach(t.groups, entry_by_id(t.entries, eid).group_id, bin_id(t.groups))
}

/// The group `gid` lives strictly inside the recycle bin's subtree.
pub open spec fn group_recycled(t: TreeView, gid: Seq<char>) -> bool {
    &&& has_group(t.groups, gid)
    &&& has_bin(t.groups)
    &&& gid != bin_id(t.groups)
    &&& reach(t.groups, gid, bin_id(t.groups))
}

// ---------------------------------------------------------------------------
// Basic facts about identity resolution.
// ---------------------------------------------------------------------------

/// The chosen group index is a real witness.
pub proof fn lemma_group_index(gs: Seq<GroupView>, id: Seq<char>)
    requires
        has_group(gs, id),
    ensures
        0 <= group_index(gs, id) < gs.len(),
        gs[group_index(gs, id)].id == id,
{
}

/// Under unique identifiers, any index carrying `id` is the chosen one.
pub proof fn lemma_group_index_unique(gs: Seq<GroupView>, id: Seq<char>, i: int)
    requires
        unique_group_ids(gs),
        0 <= i < gs.len(),
        gs[i].id == id,
    ensures
        has_group(gs, id),
        group_index(gs, id) == i,
{
    assert(has_group(gs, id));
    lemma_group_index(gs, id);
}

/// The chosen entry index is a real witness.
pub proof fn lemma_entry_index(es: Seq<EntryView>, id: Seq<char>)
    requires
        has_entry(es, id),
    ensures
        0 <= entry_index(es, id) < es.len(),
        es[entry_index(es, id)].id == id,
{
}

/// Under unique identifiers, any index carrying `id` is the chosen one.
pub proof fn lemma_entry_index_unique(es: Seq<EntryView>, id: Seq<char>, i: int)
    requires
        unique_entry_ids(es),
        0 <= i < es.len(),
        es[i].id == id,
    ensures
        has_entry(es, id),
        entry_index(es, id) == i,
{
    assert(has_entry(es, id));
    lemma_entry_index(es, id);
}

/// The chosen bin index is a real witness.
pub proof fn lemma_bin_index(gs: Seq<GroupView>)
    requires
        has_bin(gs),
    ensures
        0 <= bin_index(gs) < gs.len(),
        gs[bin_index(gs)].is_recycle_bin,
{
}

/// In a well-formed arena the recycle bin, if present, sits at position 1,
/// and any position flying the flag is the chosen one.
pub proof fn lemma_bin_index_unique(gs: Seq<GroupView>, i: int)
    requires
        wf_groups(gs),
        0 <= i < gs.len(),
        gs[i].is_recycle_bin,
    ensures
        has_bin(gs),
        bin_index(gs) == 1,
        i == 1,
        bin_id(gs) == gs[1].id,
{
    assert(has_bin(gs));
    lemma_bin_index(gs);
}

/// In a well-formed arena every named parent is a live group at a strictly
/// smaller index.
pub proof fn lemma_parent_index(gs: Seq<GroupView>, i: int)
    requires
        wf_groups(gs),
        1 <= i < gs.len(),
    ensures
        gs[i].parent_id is Some,
        has_group(gs, gs[i].parent_id->0),
        0 <= group_index(gs, gs[i].parent_id->0) < i,
{
    assert(parent_present(gs, i));
    let j = choose|j: int| 0 <= j < i && (#[trigger] gs[j].id) == gs[i].parent_id->0;
    lemma_group_index_unique(gs, gs[i].parent_id->0, j);
}

/// In a well-formed arena every named parent is a live group.
pub proof fn lemma_wf_parents_exist(gs: Seq<GroupView>)
    requires
        wf_groups(gs),
    ensures
        forall|i: int|
            0 <= i < gs.len() && (#[trigger] gs[i].parent_id) is Some ==> has_group(
                gs,
                gs[i].parent_id->0,
            ),
{
    assert forall|i: int|
        0 <= i < gs.len() && (#[trigger] gs[i].parent_id) is Some implies has_group(
        gs,
        gs[i].parent_id->0,
    ) by {
        if i >= 1 {
            lemma_parent_index(gs, i);
        }
    }
}

// ---------------------------------------------------------------------------
// Facts about ancestry.
// ---------------------------------------------------------------------------

/// Beyond the group's own arena index, extra fuel cannot change whether an
/// ancestor is reached: parent links strictly descend the arena.
pub proof fn lemma_reaches_saturates(gs: Seq<GroupView>, id: Seq<char>, anc: Seq<char>, fuel: nat)
    requires
        wf_groups(gs),
        has_group(gs, id),
        fuel > group_index(gs, id),
    ensures
        reaches(gs, id, anc, fuel) == reaches(gs, id, anc, (group_index(gs, id) + 1) as nat),
    decreases group_index(gs, id),
{
    let i = group_index(gs, id);
    lemma_group_index(gs, id);
    if id != anc && i >= 1 {
        match gs[i].parent_id {
            Option::Some(p) => {
                lemma_parent_index(gs, i);
                lemma_reaches_saturates(gs, p, anc, (fuel - 1) as nat);
                lemma_reaches_saturates(gs, p, anc, i as nat);
            },
            Option::None => {
                assert(false);
            },
        }
    }
}

/// Any two fuels beyond the group's arena index give the same answer.
pub proof fn lemma_reaches_any_fuel(
    gs: Seq<GroupView>,
    id: Seq<char>,
    anc: Seq<char>,
    f1: nat,
    f2: nat,
)
    requires
        wf_groups(gs),
        has_group(gs, id),
        f1 > group_index(gs, id),
        f2 > group_index(gs, id),
    ensures
        reaches(gs, id, anc, f1) == reaches(gs, id, anc, f2),
{
    lemma_reaches_saturates(gs, id, anc, f1);
    lemma_reaches_saturates(gs, id, anc, f2);
}

/// A live group always reaches itself.
pub proof fn lemma_reach_self(gs: Seq<GroupView>, id: Seq<char>)
    requires
        has_group(gs, id),
    ensures
        reach(gs, id, id),
{
}

/// One step of ancestry: for a live group other than the anchor, reaching
/// the anchor means having a parent that reaches it.
pub proof fn lemma_reach_step(gs: Seq<GroupView>, id: Seq<char>, anc: Seq<char>)
    requires
        wf_groups(gs),
        has_group(gs, id),
        id != anc,
    ensures
        reach(gs, id, anc) == match group_by_id(gs, id).parent_id {
            Option::Some(p) => reach(gs, p, anc),
            Option::None => false,
        },
{
    let i = group_index(gs, id);
    lemma_group_index(gs, id);
    match gs[i].parent_id {
        Option::Some(p) => {
            if i >= 1 {
                lemma_parent_index(gs, i);
                lemma_reaches_any_fuel(gs, p, anc, gs.len() as nat, (gs.len() + 1) as nat);
            } else {
                assert(gs[0].parent_id is None);
            }
        },
        Option::None => {},
    }
}

/// Ancestry is insensitive to additions elsewhere in the arena: as long as
/// every group of `gs1` appears in `gs2` with the same record, and parent
/// links of `gs1` stay inside `gs1`, chains agree.
pub proof fn lemma_reaches_congruent(
    gs1: Seq<GroupView>,
    gs2: Seq<GroupView>,
    id: Seq<char>,
    anc: Seq<char>,
    fuel: nat,
)
    requires
        forall|x: Seq<char>| #[trigger]
            has_group(gs1, x) ==> has_group(gs2, x) && group_by_id(gs2, x) == group_by_id(gs1, x),
        forall|i: int|
            0 <= i < gs1.len() && (#[trigger] gs1[i].parent_id) is Some ==> has_group(
                gs1,
                gs1[i].parent_id->0,
            ),
        has_group(gs1, id),
    ensures
        reaches(gs2, id, anc, fuel) == reaches(gs1, id, anc, fuel),
    decreases fuel,
{
    if fuel > 0 && id != anc {
        lemma_group_index(gs1, id);
        let i = group_index(gs1, id);
        match gs1[i].parent_id {
            Option::Some(p) => {
                assert(group_by_id(gs1, id) == gs1[i]);
                lemma_reaches_congruent(gs1, gs2, p, anc, (fuel - 1) as nat);
            },
            Option::None => {},
        }
    }
}

/// Appending a group with a fresh identifier leaves every existing
/// identity resolution unchanged.
pub proof fn lemma_push_group(gs: Seq<GroupView>, g: GroupView)
    requires
        unique_group_ids(gs),
        !has_group(gs, g.id),
    ensures
        unique_group_ids(gs.push(g)),
        forall|x: Seq<char>| #[trigger]
            has_group(gs, x) ==> has_group(gs.push(g), x) && group_by_id(gs.push(g), x)
                == group_by_id(gs, x),
        has_group(gs.push(g), g.id),
        group_by_id(gs.push(g), g.id) == g,
        group_index(gs.push(g), g.id) == gs.len(),
        forall|x: Seq<char>| #[trigger]
            has_group(gs.push(g), x) ==> has_group(gs, x) || x == g.id,
{
    let gs2 = gs.push(g);
    assert forall|i: int, j: int|
        0 <= i < gs2.len() && 0 <= j < gs2.len() && (#[trigger] gs2[i].id) == (
        #[trigger] gs2[j].id) implies i == j by {
        if i < gs.len() && j < gs.len() {
            assert(gs[i].id == gs[j].id);
        } else if i < gs.len() && j == gs.len() {
            assert(has_group(gs, gs[i].id));
        } else if j < gs.len() && i == gs.len() {
            assert(has_group(gs, gs[j].id));
        }
    }
    assert forall|x: Seq<char>| #[trigger] has_group(gs, x) implies has_group(gs2, x)
        && group_by_id(gs2, x) == group_by_id(gs, x) by {
        lemma_group_index(gs, x);
        let i = group_index(gs, x);
        assert(gs2[i].id == x);
        lemma_group_index_unique(gs2, x, i);
    }
    lemma_group_index_unique(gs2, g.id, gs.len() as int);
    assert forall|x: Seq<char>| #[trigger] has_group(gs2, x) implies has_group(gs, x) || x == g.id
        by {
        let i = choose|i: int| 0 <= i < gs2.len() && (#[trigger] gs2[i].id) == x;
        if i < gs.len() {
            assert(gs[i].id == x);
        }
    }
}

/// Inserting a group with a fresh identifier leaves every existing
/// identity resolution unchanged.
pub proof fn lemma_insert_group(gs: Seq<GroupView>, at: int, g: GroupView)
    requires
        unique_group_ids(gs),
        !has_group(gs, g.id),
        0 <= at <= gs.len(),
    ensures
        unique_group_ids(gs.insert(at, g)),
        forall|x: Seq<char>| #[trigger]
            has_group(gs, x) ==> has_group(gs.insert(at, g), x) && group_by_id(gs.insert(at, g), x)
                == group_by_id(gs, x),
        has_group(gs.insert(at, g), g.id),
        group_by_id(gs.insert(at, g), g.id) == g,
        group_index(gs.insert(at, g), g.id) == at,
        forall|x: Seq<char>| #[trigger]
            has_group(gs.insert(at, g), x) ==> has_group(gs, x) || x == g.id,
{
    let gs2 = gs.insert(at, g);
    assert(gs2.len() == gs.len() + 1);
    assert(forall|j: int| 0 <= j < at ==> gs2[j] == gs[j]);
    assert(gs2[at] == g);
    assert(forall|j: int| at < j < gs2.len() ==> gs2[j] == gs[j - 1]);
    assert forall|i: int, j: int|
        0 <= i < gs2.len() && 0 <= j < gs2.len() && (#[trigger] gs2[i].id) == (
        #[trigger] gs2[j].id) implies i == j by {
        let oi: int = if i < at {
            i
        } else {
            i - 1
        };
        let oj: int = if j < at {
            j
        } else {
            j - 1
        };
        if i != at && j != at {
            assert(gs[oi].id == gs[oj].id);
        } else if i == at && j != at {
            assert(has_group(gs, gs[oj].id));
        } else if j == at && i != at {
            assert(has_group(gs, gs[oi].id));
        }
    }
    assert forall|x: Seq<char>| #[trigger] has_group(gs, x) implies has_group(gs2, x)
        && group_by_id(gs2, x) == group_by_id(gs, x) by {
        lemma_group_index(gs, x);
        let i = group_index(gs, x);
        let ni: int = if i < at {
            i
        } else {
            i + 1
        };
        assert(gs2[ni].id == x);
        lemma_group_index_unique(gs2, x, ni);
    }
    lemma_group_index_unique(gs2, g.id, at);
    assert forall|x: Seq<char>| #[trigger] has_group(gs2, x) implies has_group(gs, x) || x == g.id
        by {
        let i = choose|i: int| 0 <= i < gs2.len() && (#[trigger] gs2[i].id) == x;
        if i != at {
            let oi: int = if i < at {
                i
            } else {
                i - 1
            };
            assert(gs[oi].id == x);
        }
    }
}

// ---------------------------------------------------------------------------
// Pruning a subtree: filtering by an identifier-level predicate.
// ---------------------------------------------------------------------------

/// The groups whose identifier satisfies `keep`, in order.
pub open spec fn keep_groups(gs: Seq<GroupView>, keep: spec_fn(Seq<char>) -> bool) -> Seq<
    GroupView,
> {
    gs.filter(|g: GroupView| keep(g.id))
}

/// The entries whose owning group's identifier satisfies `keep`, in order.
pub open spec fn keep_entries(es: Seq<EntryView>, keep: spec_fn(Seq<char>) -> bool) -> Seq<
    EntryView,
> {
    es.filter(|e: EntryView| keep(e.group_id))
}

/// The predicate `keep` spares the root and is closed under parents: a
/// kept group's parent is kept too.
pub open spec fn keep_closed(gs: Seq<GroupView>, keep: spec_fn(Seq<char>) -> bool) -> bool {
    &&& keep(gs[0].id)
    &&& forall|i: int| 1 <= i < gs.len() && #[trigger] keep(gs[i].id) ==> keep(gs[i].parent_id->0)
}

/// Filtering a well-formed arena by a parent-closed predicate yields a
/// well-formed arena in which every kept group resolves as before.
pub proof fn lemma_keep_groups(gs: Seq<GroupView>, keep: spec_fn(Seq<char>) -> bool)
    requires
        wf_groups(gs),
        keep_closed(gs, keep),
    ensures
        wf_groups(keep_groups(gs, keep)),
        keep_groups(gs, keep)[0] == gs[0],
        keep_groups(gs, keep).len() <= gs.len(),
        forall|x: Seq<char>| #[trigger]
            has_group(keep_groups(gs, keep), x) <==> has_group(gs, x) && keep(x),
        forall|x: Seq<char>|
            has_group(gs, x) && #[trigger] keep(x) ==> group_by_id(keep_groups(gs, keep), x)
                == group_by_id(gs, x),
        forall|i: int|
            0 <= i < keep_groups(gs, keep).len() ==> keep((#[trigger] keep_groups(gs, keep)[i]).id),
    decreases gs.len(),
{
    reveal(Seq::filter);
    let kept = keep_groups(gs, keep);
    let n = gs.len() as int;
    if n == 1 {
        assert(gs.drop_last() =~= Seq::<GroupView>::empty());
        assert(Seq::<GroupView>::empty().filter(|g: GroupView| keep(g.id))
            =~= Seq::<GroupView>::empty());
        assert(gs.last() == gs[0]);
        assert(keep(gs.last().id));
        assert(kept =~= seq![gs[0]]);
        assert forall|x: Seq<char>| #[trigger] has_group(kept, x) implies has_group(gs, x) && keep(
            x,
        ) by {
            let i = choose|i: int| 0 <= i < kept.len() && (#[trigger] kept[i].id) == x;
            assert(kept[i] == gs[0]);
        }
        assert forall|x: Seq<char>|
            has_group(gs, x) && #[trigger] keep(x) implies has_group(kept, x) && group_by_id(
            kept,
            x,
        ) == group_by_id(gs, x) by {
            lemma_group_index(gs, x);
            assert(gs[group_index(gs, x)] == gs[0]);
            assert(kept[0].id == x);
            lemma_group_index_unique(kept, x, 0);
            lemma_group_index_unique(gs, x, 0);
        }
        assert forall|i: int| 0 <= i < kept.len() implies keep((#[trigger] kept[i]).id) by {
            assert(kept[i] == gs[0]);
        }
    } else {
        let init = gs.drop_last();
        let last = gs.last();
        let lastpos = n - 1;
        assert(forall|j: int| 0 <= j < n - 1 ==> init[j] == gs[j]);
        // the prefix is itself a well-formed arena under a closed predicate
        assert(wf_groups(init)) by {
            assert forall|i: int| 1 <= i < init.len() implies #[trigger] parent_present(init, i)
                by {
                assert(parent_present(gs, i));
                let j = choose|j: int| 0 <= j < i && (#[trigger] gs[j].id) == gs[i].parent_id->0;
                assert(init[j].id == init[i].parent_id->0);
            }
        }
        assert(keep_closed(init, keep));
        lemma_keep_groups(init, keep);
        let ki = keep_groups(init, keep);
        if keep(last.id) {
            assert(kept == ki.push(last));
            // the newcomer's identifier is fresh among the kept prefix
            assert(!has_group(ki, last.id)) by {
                if has_group(ki, last.id) {
                    assert(has_group(init, last.id));
                    let j = choose|j: int|
                        0 <= j < init.len() && (#[trigger] init[j].id) == last.id;
                    assert(gs[j].id == gs[lastpos].id);
                }
            }
            lemma_push_group(ki, last);
            let m = kept.len() as int;
            assert(m == ki.len() + 1);
            assert(forall|j: int| 0 <= j < m - 1 ==> kept[j] == ki[j]);
            assert(kept[m - 1] == last);
            // membership in both directions
            assert forall|x: Seq<char>| #[trigger] has_group(kept, x) implies has_group(gs, x)
                && keep(x) by {
                if x == last.id {
                    lemma_group_index_unique(gs, x, lastpos);
                } else {
                    assert(has_group(ki, x));
                    assert(has_group(init, x));
                    let j = choose|j: int|
                        0 <= j < init.len() && (#[trigger] init[j].id) == x;
                    assert(gs[j].id == x);
                }
            }
            assert forall|x: Seq<char>|
                has_group(gs, x) && #[trigger] keep(x) implies has_group(kept, x) && group_by_id(
                kept,
                x,
            ) == group_by_id(gs, x) by {
                lemma_group_index(gs, x);
                let j = group_index(gs, x);
                if j == lastpos {
                    assert(x == last.id);
                    lemma_group_index_unique(kept, x, m - 1);
                } else {
                    assert(init[j].id == x);
                    lemma_group_index_unique(init, x, j);
                    assert(group_by_id(init, x) == group_by_id(gs, x));
                    assert(has_group(ki, x));
                    assert(group_by_id(ki, x) == group_by_id(init, x));
                    lemma_group_index(ki, x);
                    let j2 = group_index(ki, x);
                    assert(kept[j2].id == x);
                    lemma_group_index_unique(kept, x, j2);
                }
            }
            // well-formedness of the extended arena
            assert(kept[0] == gs[0]);
            assert forall|i: int| 1 <= i < m implies (#[trigger] kept[i].parent_id) is Some by {
                if i < m - 1 {
                    assert(kept[i] == ki[i]);
                }
            }
            assert forall|i: int| 1 <= i < m implies #[trigger] parent_present(kept, i) by {
                if i < m - 1 {
                    assert(parent_present(ki, i));
                    let j = choose|j: int|
                        0 <= j < i && (#[trigger] ki[j].id) == ki[i].parent_id->0;
                    assert(kept[j].id == kept[i].parent_id->0);
                } else {
                    // the newcomer's parent was kept in the prefix
                    let p = last.parent_id->0;
                    assert(keep(gs[lastpos].id));
                    assert(keep(p));
                    assert(parent_present(gs, lastpos));
                    let j = choose|j: int|
                        0 <= j < lastpos && (#[trigger] gs[j].id) == gs[lastpos].parent_id->0;
                    assert(init[j].id == p);
                    assert(has_group(init, p));
                    assert(has_group(ki, p));
                    lemma_group_index(ki, p);
                    let jp = group_index(ki, p);
                    assert(kept[jp].id == p);
                    assert(jp < i);
                    assert(parent_present(kept, i));
                }
            }
            assert forall|i: int|
                0 <= i < m && (#[trigger] kept[i].is_recycle_bin) implies i == 1
                && kept[i].parent_id == Option::Some(kept[0].id) by {
                if i < m - 1 {
                    assert(ki[i].is_recycle_bin);
                } else {
                    // the newcomer flies the flag, so it sat at arena slot 1
                    assert(gs[lastpos].is_recycle_bin);
                    assert(lastpos == 1);
                    assert(init.len() == 1);
                    assert(ki.len() == 1);
                    assert(kept[i].parent_id == Option::Some(gs[0].id));
                }
            }
            assert(wf_groups(kept));
            assert forall|i: int| 0 <= i < m implies keep((#[trigger] kept[i]).id) by {
                if i < m - 1 {
                    assert(kept[i] == ki[i]);
                }
            }
        } else {
            assert(kept == ki);
            assert forall|x: Seq<char>| #[trigger] has_group(kept, x) implies has_group(gs, x)
                && keep(x) by {
                assert(has_group(init, x));
                let j = choose|j: int| 0 <= j < init.len() && (#[trigger] init[j].id) == x;
                assert(gs[j].id == x);
            }
            assert forall|x: Seq<char>|
                has_group(gs, x) && #[trigger] keep(x) implies has_group(kept, x) && group_by_id(
                kept,
                x,
            ) == group_by_id(gs, x) by {
                lemma_group_index(gs, x);
                let j = group_index(gs, x);
                if j == lastpos {
                    assert(x == last.id);
                    assert(false);
                } else {
                    assert(init[j].id == x);
                    lemma_group_index_unique(init, x, j);
                }
            }
        }
    }
}

/// Filtering preserves ancestry for every kept group.
pub proof fn lemma_keep_groups_reach(
    gs: Seq<GroupView>,
    keep: spec_fn(Seq<char>) -> bool,
    x: Seq<char>,
    anc: Seq<char>,
)
    requires
        wf_groups(gs),
        keep_closed(gs, keep),
        has_group(gs, x),
        keep(x),
    ensures
        reach(keep_groups(gs, keep), x, anc) == reach(gs, x, anc),
{
    lemma_keep_groups(gs, keep);
    let kept = keep_groups(gs, keep);
    lemma_wf_parents_exist(kept);
    lemma_reaches_congruent(kept, gs, x, anc, (gs.len() + 1) as nat);
    lemma_group_index(kept, x);
    lemma_reaches_any_fuel(kept, x, anc, (kept.len() + 1) as nat, (gs.len() + 1) as nat);
}

/// How the recycle bin fares under filtering.
pub proof fn lemma_keep_groups_bin(gs: Seq<GroupView>, keep: spec_fn(Seq<char>) -> bool)
    requires
        wf_groups(gs),
        keep_closed(gs, keep),
    ensures
        has_bin(gs) && keep(bin_id(gs)) ==> has_bin(keep_groups(gs, keep)) && bin_id(
            keep_groups(gs, keep),
        ) == bin_id(gs),
        !(has_bin(gs) && keep(bin_id(gs))) ==> !has_bin(keep_groups(gs, keep)),
{
    lemma_keep_groups(gs, keep);
    let kept = keep_groups(gs, keep);
    if has_bin(gs) && keep(bin_id(gs)) {
        lemma_bin_index(gs);
        let b = bin_index(gs);
        lemma_bin_index_unique(gs, b);
        let bid = bin_id(gs);
        lemma_group_index_unique(gs, bid, b);
        assert(group_by_id(gs, bid).is_recycle_bin);
        assert(has_group(kept, bid));
        assert(group_by_id(kept, bid).is_recycle_bin);
        lemma_group_index(kept, bid);
        let kb = group_index(kept, bid);
        assert(kept[kb].is_recycle_bin);
        lemma_bin_index_unique(kept, kb);
        assert(bin_id(kept) == kept[kb].id);
    } else {
        if has_bin(kept) {
            lemma_bin_index(kept);
            let kb = bin_index(kept);
            let xid = kept[kb].id;
            lemma_group_index_unique(kept, xid, kb);
            assert(has_group(kept, xid));
            assert(has_group(gs, xid) && keep(xid));
            assert(group_by_id(kept, xid) == group_by_id(gs, xid));
            assert(group_by_id(gs, xid).is_recycle_bin);
            lemma_group_index(gs, xid);
            lemma_bin_index_unique(gs, group_index(gs, xid));
            assert(bin_id(gs) == xid);
            assert(false);
        }
    }
}

/// Filtering a uniquely-identified entry sequence keeps identifiers unique
/// and characterizes membership.
pub proof fn lemma_keep_entries(es: Seq<EntryView>, keep: spec_fn(Seq<char>) -> bool)
    requires
        unique_entry_ids(es),
    ensures
        unique_entry_ids(keep_entries(es, keep)),
        forall|i: int|
            0 <= i < keep_entries(es, keep).len() ==> exists|j: int|
                0 <= j < es.len() && (#[trigger] keep_entries(es, keep)[i]) == es[j],
        forall|i: int|
            0 <= i < keep_entries(es, keep).len() ==> keep(
                (#[trigger] keep_entries(es, keep)[i]).group_id,
            ),
        forall|x: Seq<char>| #[trigger]
            has_entry(keep_entries(es, keep), x) ==> has_entry(es, x),
        forall|x: Seq<char>|
            has_entry(es, x) && #[trigger] keep(entry_by_id(es, x).group_id) ==> has_entry(
                keep_entries(es, keep),
                x,
            ) && entry_by_id(keep_entries(es, keep), x) == entry_by_id(es, x),
        forall|x: Seq<char>|
            has_entry(es, x) && !(#[trigger] keep(entry_by_id(es, x).group_id)) ==> !has_entry(
                keep_entries(es, keep),
                x,
            ),
    decreases es.len(),
{
    reveal(Seq::filter);
    let kes = keep_entries(es, keep);
    if es.len() == 0 {
        assert(kes =~= Seq::<EntryView>::empty());
    } else {
        let init = es.drop_last();
        let last = es.last();
        let n = es.len() as int;
        assert(forall|j: int| 0 <= j < n - 1 ==> init[j] == es[j]);
        lemma_keep_entries(init, keep);
        let ki = keep_entries(init, keep);
        let kept_last = keep(last.group_id);
        if kept_last {
            assert(kes == ki.push(last));
        } else {
            assert(kes == ki);
        }
        let m = kes.len() as int;
        // every filtered element comes from the original sequence
        assert forall|i: int| 0 <= i < m implies exists|j: int|
            0 <= j < es.len() && (#[trigger] kes[i]) == es[j] by {
            if kept_last && i == m - 1 {
                assert(kes[i] == es[n - 1]);
            } else {
                assert(kes[i] == ki[i]);
                let j = choose|j: int| 0 <= j < init.len() && (#[trigger] ki[i]) == init[j];
                assert(kes[i] == es[j]);
            }
        }
        // unique identifiers among the kept entries
        assert forall|i: int, j: int|
            0 <= i < m && 0 <= j < m && (#[trigger] kes[i].id) == (#[trigger] kes[j].id) implies i
            == j by {
            let oi = choose|oi: int| 0 <= oi < es.len() && (#[trigger] kes[i]) == es[oi];
            let oj = choose|oj: int| 0 <= oj < es.len() && (#[trigger] kes[j]) == es[oj];
            if i != j {
                if kept_last && i == m - 1 {
                    assert(!has_entry(ki, last.id));
                    assert(kes[j] == ki[j]);
                    assert(has_entry(ki, kes[j].id));
                } else if kept_last && j == m - 1 {
                    assert(!has_entry(ki, last.id));
                    assert(kes[i] == ki[i]);
                    assert(has_entry(ki, kes[i].id));
                } else {
                    assert(ki[i].id == ki[j].id);
                }
            }
        }
        assert(unique_entry_ids(kes));
        // every kept entry satisfies the predicate
        assert forall|i: int| 0 <= i < m implies keep((#[trigger] kes[i]).group_id) by {
            if !(kept_last && i == m - 1) {
                assert(kes[i] == ki[i]);
            }
        }
        // membership, forward
        assert forall|x: Seq<char>| #[trigger] has_entry(kes, x) implies has_entry(es, x) by {
            let i = choose|i: int| 0 <= i < kes.len() && (#[trigger] kes[i].id) == x;
            let j = choose|j: int| 0 <= j < es.len() && (#[trigger] kes[i]) == es[j];
            assert(es[j].id == x);
        }
        // membership and resolution for entries whose group is kept
        assert forall|x: Seq<char>|
            has_entry(es, x) && #[trigger] keep(entry_by_id(es, x).group_id) implies has_entry(
            kes,
            x,
        ) && entry_by_id(kes, x) == entry_by_id(es, x) by {
            lemma_entry_index(es, x);
            let j = entry_index(es, x);
            if j == n - 1 {
                assert(kept_last);
                assert(kes[m - 1].id == x);
                lemma_entry_index_unique(kes, x, m - 1);
            } else {
                assert(init[j].id == x);
                lemma_entry_index_unique(init, x, j);
                assert(entry_by_id(init, x) == es[j]);
                assert(has_entry(ki, x) && entry_by_id(ki, x) == entry_by_id(init, x));
                lemma_entry_index(ki, x);
                let j2 = entry_index(ki, x);
                assert(kes[j2].id == x);
                lemma_entry_index_unique(kes, x, j2);
            }
        }
        // absence for entries whose group is dropped
        assert forall|x: Seq<char>|
            has_entry(es, x) && !(#[trigger] keep(entry_by_id(es, x).group_id)) implies !has_entry(
            kes,
            x,
        ) by {
            lemma_entry_index(es, x);
            let j = entry_index(es, x);
            if has_entry(kes, x) {
                let i = choose|i: int| 0 <= i < kes.len() && (#[trigger] kes[i].id) == x;
                let oj = choose|oj: int| 0 <= oj < es.len() && (#[trigger] kes[i]) == es[oj];
                assert(es[oj].id == x);
                lemma_entry_index_unique(es, x, oj);
                assert(oj == j);
                if kept_last && i == m - 1 {
                    assert(keep(es[n - 1].group_id));
                    assert(j == n - 1);
                } else {
                    assert(kes[i] == ki[i]);
                    assert(has_entry(ki, x));
                    if j == n - 1 {
                        assert(!has_entry(init, x)) by {
                            if has_entry(init, x) {
                                let q = choose|q: int|
                                    0 <= q < init.len() && (#[trigger] init[q].id) == x;
                                assert(es[q].id == es[n - 1].id);
                            }
                        }
                    } else {
                        lemma_entry_index_unique(init, x, j);
                    }
                }
            }
        }
    }
}

/// Two arenas with the same identifiers, parent links and recycle-bin
/// flags at every position are equally well-formed.
pub proof fn lemma_wf_same_skeleton(gs1: Seq<GroupView>, gs2: Seq<GroupView>)
    requires
        wf_groups(gs1),
        gs2.len() == gs1.len(),
        forall|i: int|
            0 <= i < gs1.len() ==> (#[trigger] gs2[i]).id == gs1[i].id && gs2[i].parent_id
                == gs1[i].parent_id && gs2[i].is_recycle_bin == gs1[i].is_recycle_bin,
    ensures
        wf_groups(gs2),
        forall|x: Seq<char>| #[trigger] has_group(gs2, x) == has_group(gs1, x),
{
    assert forall|i: int| 1 <= i < gs2.len() implies #[trigger] parent_present(gs2, i) by {
        assert(parent_present(gs1, i));
        let j = choose|j: int| 0 <= j < i && (#[trigger] gs1[j].id) == gs1[i].parent_id->0;
        assert(gs2[j].id == gs2[i].parent_id->0);
    }
    assert forall|x: Seq<char>| #[trigger] has_group(gs2, x) == has_group(gs1, x) by {
        if has_group(gs1, x) {
            let i = choose|i: int| 0 <= i < gs1.len() && (#[trigger] gs1[i].id) == x;
            assert(gs2[i].id == x);
        }
        if has_group(gs2, x) {
            let i = choose|i: int| 0 <= i < gs2.len() && (#[trigger] gs2[i].id) == x;
            assert(gs1[i].id == x);
        }
    }
}

// ---------------------------------------------------------------------------
// The store itself.
// ---------------------------------------------------------------------------

/// The hierarchical store: a flat arena of groups and entries linked by
/// identifiers.
pub struct Tree {
    groups: Vec<Group>,
    entries: Vec<Entry>,
}

impl View for Tree {
    type V = TreeView;

    closed spec fn view(&self) -> TreeView {
        TreeView { groups: groups_view(self.groups@), entries: entries_view(self.entries@) }
    }
}

/// Find the position of the group carrying `id`.
fn find_group_pos(groups: &Vec<Group>, id: &String) -> (r: Option<usize>)
    ensures
        match r {
            Option::Some(i) => i < groups@.len() && groups@[i as int]@.id == id@,
            Option::None => !has_group(groups_view(groups@), id@),
        },
{
    let mut i: usize = 0;
    while i < groups.len()
        invariant
            i <= groups@.len(),
            forall|j: int| 0 <= j < i ==> (#[trigger] groups@[j])@.id != id@,
        decreases groups@.len() - i,
    {
        if groups[i].id == *id {
            return Option::Some(i);
        }
        i = i + 1;
    }
    proof {
        let gs = groups_view(groups@);
        if has_group(gs, id@) {
            let j = choose|j: int| 0 <= j < gs.len() && (#[trigger] gs[j].id) == id@;
            assert(groups@[j]@.id == id@);
        }
    }
    Option::None
}

/// Find the position of the entry carrying `id`.
fn find_entry_pos(entries: &Vec<Entry>, id: &String) -> (r: Option<usize>)
    ensures
        match r {
            Option::Some(i) => i < entries@.len() && entries@[i as int]@.id == id@,
            Option::None => !has_entry(entries_view(entries@), id@),
        },
{
    let mut i: usize = 0;
    while i < entries.len()
        invariant
            i <= entries@.len(),
            forall|j: int| 0 <= j < i ==> (#[trigger] entries@[j])@.id != id@,
        decreases entries@.len() - i,
    {
        if entries[i].id == *id {
            return Option::Some(i);
        }
        i = i + 1;
    }
    proof {
        let es = entries_view(entries@);
        if has_entry(es, id@) {
            let j = choose|j: int| 0 <= j < es.len() && (#[trigger] es[j].id) == id@;
            assert(entries@[j]@.id == id@);
        }
    }
    Option::None
}

/// Find the position of the recycle bin.
fn find_bin_pos(groups: &Vec<Group>) -> (r: Option<usize>)
    ensures
        match r {
            Option::Some(i) => i < groups@.len() && groups@[i as int]@.is_recycle_bin,
            Option::None => !has_bin(groups_view(groups@)),
        },
{
    let mut i: usize = 0;
    while i < groups.len()
        invariant
            i <= groups@.len(),
            forall|j: int| 0 <= j < i ==> !(#[trigger] groups@[j])@.is_recycle_bin,
        decreases groups@.len() - i,
    {
        if groups[i].is_recycle_bin {
            return Option::Some(i);
        }
        i = i + 1;
    }
    proof {
        let gs = groups_view(groups@);
        if has_bin(gs) {
            let j = choose|j: int| 0 <= j < gs.len() && (#[trigger] gs[j].is_recycle_bin);
            assert(groups@[j]@.is_recycle_bin);
        }
    }
    Option::None
}

/// Walk parent links upward from `start`, deciding whether `anchor` is an
/// ancestor-or-self.
fn reach_walk(groups: &Vec<Group>, start: &String, anchor: &String) -> (r: bool)
    requires
        unique_group_ids(groups_view(groups@)),
    ensures
        r == reach(groups_view(groups@), start@, anchor@),
{
    let ghost gs = groups_view(groups@);
    let mut cur: String = start.clone();
    let mut fuel: u128 = groups.len() as u128 + 1;
    loop
        invariant
            unique_group_ids(gs),
            gs == groups_view(groups@),
            reach(gs, start@, anchor@) == reaches(gs, cur@, anchor@, fuel as nat),
        decreases fuel,
    {
        if fuel == 0 {
            return false;
        }
        match find_group_pos(groups, &cur) {
            Option::None => {
                return false;
            },
            Option::Some(i) => {
                proof {
                    lemma_group_index_unique(gs, cur@, i as int);
                }
                if cur == *anchor {
                    return true;
                }
                match &groups[i].parent_id {
                    Option::None => {
                        return false;
                    },
                    Option::Some(p) => {
                        cur = p.clone();
                        fuel = fuel - 1;
                    },
                }
            },
        }
    }
}

/// A group identifier not used by any group of the arena: a fresh random
/// identifier when it is free, otherwise one extended until it is longer
/// than every identifier in use.
fn unused_group_id(groups: &Vec<Group>) -> (r: String)
    ensures
        !has_group(groups_view(groups@), r@),
{
    let id = fresh_id();
    match find_group_pos(groups, &id) {
        Option::None => id,
        Option::Some(_) => {
            let ghost gs = groups_view(groups@);
            let mut maxl: u128 = 0;
            let mut i: usize = 0;
            while i < groups.len()
                invariant
                    i <= groups@.len(),
                    maxl <= usize::MAX as u128,
                    forall|j: int| 0 <= j < i ==> (#[trigger] groups@[j])@.id.len() <= maxl,
                decreases groups@.len() - i,
            {
                let l = groups[i].id.as_str().unicode_len();
                if (l as u128) > maxl {
                    maxl = l as u128;
                }
                i = i + 1;
            }
            let mut id = id;
            let mut len: u128 = id.as_str().unicode_len() as u128;
            proof {
                reveal_strlit("0");
            }
            while len <= maxl
                invariant
                    maxl <= usize::MAX as u128,
                    len == id@.len(),
                    "0"@.len() == 1,
                decreases maxl + 1 - len,
            {
                id.append("0");
                len = len + 1;
            }
            proof {
                assert forall|j: int| 0 <= j < gs.len() implies (#[trigger] gs[j].id) != id@ by {
                    assert(groups@[j]@.id.len() <= maxl);
                }
            }
            id
        },
    }
}

/// The identifier-level predicate of a prune: drop everything that
/// reaches `aid`, sparing the anchor itself when asked to.
pub open spec fn prune_keep(gs: Seq<GroupView>, aid: Seq<char>, spare: bool) -> spec_fn(
    Seq<char>,
) -> bool {
    |x: Seq<char>| !reach(gs, x, aid) || (spare && x == aid)
}

/// A prune predicate spares the root and is closed under parents.
pub proof fn lemma_prune_keep_closed(gs: Seq<GroupView>, aid: Seq<char>, spare: bool)
    requires
        wf_groups(gs),
        has_group(gs, aid),
        aid != gs[0].id,
        spare ==> has_bin(gs) && aid == bin_id(gs),
    ensures
        keep_closed(gs, prune_keep(gs, aid, spare)),
{
    let keep = prune_keep(gs, aid, spare);
    lemma_group_index_unique(gs, gs[0].id, 0);
    lemma_reach_step(gs, gs[0].id, aid);
    assert(!reach(gs, gs[0].id, aid));
    assert(keep(gs[0].id));
    assert forall|i: int| 1 <= i < gs.len() && #[trigger] keep(gs[i].id) implies keep(
        gs[i].parent_id->0,
    ) by {
        let x = gs[i].id;
        lemma_group_index_unique(gs, x, i);
        lemma_parent_index(gs, i);
        let p = gs[i].parent_id->0;
        if spare && x == aid {
            // the anchor is the bin, whose parent is the root
            lemma_bin_index(gs);
            lemma_bin_index_unique(gs, bin_index(gs));
            assert(gs[1].id == x);
            assert(i == 1);
            assert(p == gs[0].id);
        } else {
            if x == aid {
                lemma_reach_self(gs, x);
                assert(false);
            }
            assert(!reach(gs, x, aid));
            lemma_reach_step(gs, x, aid);
            assert(group_by_id(gs, x) == gs[i]);
            assert(!reach(gs, p, aid));
        }
    }
}

/// Filtering by an everywhere-true predicate changes nothing.
pub proof fn lemma_filter_all<A>(s: Seq<A>, p: spec_fn(A) -> bool)
    requires
        forall|i: int| 0 <= i < s.len() ==> p(#[trigger] s[i]),
    ensures
        s.filter(p) == s,
    decreases s.len(),
{
    reveal(Seq::filter);
    if s.len() > 0 {
        lemma_filter_all(s.drop_last(), p);
        assert(p(s.last()));
        assert(s.filter(p) =~= s);
    } else {
        assert(s.filter(p) =~= s);
    }
}

/// What a recycle bin freshly attached under the root of `gs` looks like.
pub open spec fn fresh_bin_of(gs: Seq<GroupView>, b: GroupView) -> bool {
    &&& b.is_recycle_bin
    &&& b.parent_id == Option::Some(gs[0].id)
    &&& b.name == "Recycle Bin"@
    &&& b.icon_id == 43
    &&& b.notes == Seq::<char>::empty()
    &&& !b.is_expanded
    &&& !has_group(gs, b.id)
}

impl Tree {
    /// The whole-tree invariant.
    pub open spec fn wf(&self) -> bool {
        wf_tree(self@)
    }

    /// Find the recycle bin, creating one directly under the root when it
    /// is absent, and hand its identifier back.
    fn ensure_bin(&mut self) -> (bid: String)
        requires
            old(self).wf(),
        ensures
            final(self).wf(),
            final(self)@.entries == old(self)@.entries,
            has_bin(final(self)@.groups),
            bid@ == bin_id(final(self)@.groups),
            has_bin(old(self)@.groups) ==> final(self)@.groups == old(self)@.groups,
            !has_bin(old(self)@.groups) ==> exists|b: GroupView|
                fresh_bin_of(old(self)@.groups, b) && final(self)@.groups == old(
                    self,
                )@.groups.insert(1, b),
    {
        match find_bin_pos(&self.groups) {
            Option::Some(i) => {
                proof {
                    lemma_bin_index_unique(self@.groups, i as int);
                }
                self.groups[i].id.clone()
            },
            Option::None => {
                let nid = unused_group_id(&self.groups);
                let mut b = Group::new_recycle_bin();
                b.id = nid;
                b.parent_id = Option::Some(self.groups[0].id.clone());
                let ghost gs0 = self@.groups;
                let ghost bv = b@;
                let bid = b.id.clone();
                self.groups.insert(1, b);
                proof {
                    let gs2 = self@.groups;
                    assert(gs2 =~= gs0.insert(1, bv));
                    assert(fresh_bin_of(gs0, bv));
                    lemma_insert_group(gs0, 1, bv);
                    assert(forall|j: int| 2 <= j < gs2.len() ==> gs2[j] == gs0[j - 1]);
                    assert(gs2[0] == gs0[0]);
                    assert(gs2[1] == bv);
                    assert forall|i: int| 1 <= i < gs2.len() implies #[trigger] parent_present(
                        gs2,
                        i,
                    ) by {
                        if i == 1 {
                            assert(gs2[0].id == gs2[1].parent_id->0);
                        } else {
                            assert(parent_present(gs0, i - 1));
                            let j = choose|j: int|
                                0 <= j < i - 1 && (#[trigger] gs0[j].id) == gs0[i
                                    - 1].parent_id->0;
                            let j2: int = if j == 0 {
                                0
                            } else {
                                j + 1
                            };
                            assert(gs2[j2].id == gs2[i].parent_id->0);
                        }
                    }
                    assert forall|i: int|
                        0 <= i < gs2.len() && (#[trigger] gs2[i].is_recycle_bin) implies i == 1
                        && gs2[i].parent_id == Option::Some(gs2[0].id) by {
                        if i == 0 {
                            assert(!gs0[0].is_recycle_bin);
                        } else if i >= 2 {
                            assert(gs2[i] == gs0[i - 1]);
                            assert(has_bin(gs0));
                        }
                    }
                    assert(wf_groups(gs2));
                    lemma_bin_index_unique(gs2, 1);
                    assert(self@.entries =~= old(self)@.entries);
                    assert forall|k: int| 0 <= k < self@.entries.len() implies has_group(
                        gs2,
                        (#[trigger] self@.entries[k]).group_id,
                    ) by {
                        assert(has_group(gs0, old(self)@.entries[k].group_id));
                    }
                }
                bid
            },
        }
    }

    /// Soft-delete: move the entry carrying `id` into the recycle bin,
    /// creating the bin when absent.  The entry itself is kept whole; only
    /// its owning group changes.
    pub fn delete_entry(&mut self, id: &String) -> (r: Result<(), VaultError>)
        requires
            old(self).wf(),
        ensures
            final(self).wf(),
            match r {
                Result::Ok(_) => soft_deleted_entry(old(self)@, final(self)@, id@),
                Result::Err(err) => {
                    &&& !has_entry(old(self)@.entries, id@)
                    &&& final(self)@ == old(self)@
                    &&& err matches VaultError::EntryNotFound(s) && s@ == id@
                },
            },
    {
        match find_entry_pos(&self.entries, id) {
            Option::None => {
                assert(final(self)@ =~= old(self)@);
                Result::Err(VaultError::EntryNotFound(id.clone()))
            },
            Option::Some(k) => {
                proof {
                    lemma_entry_index_unique(old(self)@.entries, id@, k as int);
                }
                let bid = self.ensure_bin();
                let ghost gs2 = self@.groups;
                let mut e = self.entries.remove(k);
                e.group_id = bid;
                let ghost nv = e@;
                self.entries.insert(k, e);
                proof {
                    let es0 = old(self)@.entries;
                    let es2 = final(self)@.entries;
                    assert(es2 =~= es0.update(k as int, nv));
                    // the arena only ever gained the bin
                    if !has_bin(old(self)@.groups) {
                        let b = choose|b: GroupView|
                            fresh_bin_of(old(self)@.groups, b) && gs2 == old(
                                self,
                            )@.groups.insert(1, b);
                        lemma_insert_group(old(self)@.groups, 1, b);
                    }
                    lemma_bin_index(gs2);
                    assert(gs2[bin_index(gs2)].id == bin_id(gs2));
                    assert(has_group(gs2, bin_id(gs2)));
                    assert forall|a: int, b: int|
                        0 <= a < es2.len() && 0 <= b < es2.len() && (#[trigger] es2[a].id) == (
                        #[trigger] es2[b].id) implies a == b by {
                        assert(es2[a].id == es0[a].id);
                        assert(es2[b].id == es0[b].id);
                    }
                    assert forall|a: int| 0 <= a < es2.len() implies has_group(
                        gs2,
                        (#[trigger] es2[a]).group_id,
                    ) by {
                        if a != k as int {
                            assert(es2[a] == es0[a]);
                            assert(has_group(old(self)@.groups, es0[a].group_id));
                        }
                    }
                    assert(wf_tree(final(self)@));
                    lemma_entry_index_unique(es2, id@, k as int);
                    lemma_reach_self(gs2, bin_id(gs2));
                    assert(entry_recycled(final(self)@, id@));
                }
                Result::Ok(())
            },
        }
    }
}

impl Tree {

    /// Create a tree holding a single root group named "Root" and no
    /// entries.
    pub fn new() -> (t: Tree)
        ensures
            t.wf(),
            t@.entries == Seq::<EntryView>::empty(),
            t@.groups.len() == 1,
            t@.groups[0].name == "Root"@,
            t@.groups[0].parent_id is None,
            !t@.groups[0].is_recycle_bin,
            t@.groups[0].id.len() == 36,
    {
        let root = Group::new("Root".to_owned(), Option::None);
        let mut groups: Vec<Group> = Vec::new();
        groups.push(root);
        let t = Tree { groups, entries: Vec::new() };
        proof {
            assert(t@.entries =~= Seq::<EntryView>::empty());
            assert(t@.groups.len() == 1);
        }
        t
    }

    /// Create a tree around a caller-supplied root group — the shape the
    /// codec layer hands over after decoding a container.  The stored
    /// root has no parent and is never the recycle bin.
    pub fn with_root(root: Group) -> (t: Tree)
        ensures
            t.wf(),
            t@.entries == Seq::<EntryView>::empty(),
            t@.groups.len() == 1,
            t@.groups[0] == (GroupView {
                parent_id: Option::None,
                is_recycle_bin: false,
                ..root@
            }),
    {
        let stored = Group { parent_id: Option::None, is_recycle_bin: false, ..root };
        let mut groups: Vec<Group> = Vec::new();
        groups.push(stored);
        let t = Tree { groups, entries: Vec::new() };
        proof {
            assert(t@.entries =~= Seq::<EntryView>::empty());
            assert(t@.groups.len() == 1);
        }
        t
    }

    /// Attach a caller-supplied group as the recycle bin, directly under
    /// the root — the codec layer uses this to carry a decoded
    /// container's own bin over.  Refused when a bin already exists or
    /// the identifier is taken.
    pub fn attach_recycle_bin(&mut self, group: Group) -> (r: Result<String, VaultError>)
        requires
            old(self).wf(),
        ensures
            final(self).wf(),
            match r {
                Result::Ok(rid) => {
                    &&& !has_bin(old(self)@.groups)
                    &&& !has_group(old(self)@.groups, group@.id)
                    &&& rid@ == group@.id
                    &&& final(self)@.entries == old(self)@.entries
                    &&& final(self)@.groups == old(self)@.groups.insert(
                        1,
                        GroupView {
                            parent_id: Option::Some(old(self)@.groups[0].id),
                            is_recycle_bin: true,
                            ..group@
                        },
                    )
                    &&& has_bin(final(self)@.groups)
                    &&& bin_id(final(self)@.groups) == group@.id
                },
                Result::Err(err) => {
                    &&& final(self)@ == old(self)@
                    &&& err matches VaultError::InvalidOperation(_)
                    &&& (has_bin(old(self)@.groups) || has_group(old(self)@.groups, group@.id))
                },
            },
    {
        match find_bin_pos(&self.groups) {
            Option::Some(i) => {
                proof {
                    lemma_bin_index_unique(self@.groups, i as int);
                }
                assert(final(self)@ =~= old(self)@);
                Result::Err(
                    VaultError::InvalidOperation("a recycle bin already exists".to_owned()),
                )
            },
            Option::None => {
                match find_group_pos(&self.groups, &group.id) {
                    Option::Some(j) => {
                        proof {
                            assert(self@.groups[j as int].id == group@.id);
                            assert(has_group(old(self)@.groups, group@.id));
                        }
                        assert(final(self)@ =~= old(self)@);
                        Result::Err(
                            VaultError::InvalidOperation(
                                "the identifier is already in use".to_owned(),
                            ),
                        )
                    },
                    Option::None => {
                        let rid = group.id.clone();
                        let b = Group {
                            parent_id: Option::Some(self.groups[0].id.clone()),
                            is_recycle_bin: true,
                            ..group
                        };
                        let ghost gs0 = self@.groups;
                        let ghost bv = b@;
                        self.groups.insert(1, b);
                        proof {
                            let gs2 = self@.groups;
                            assert(gs2 =~= gs0.insert(1, bv));
                            lemma_insert_group(gs0, 1, bv);
                            assert(forall|q: int| 2 <= q < gs2.len() ==> gs2[q] == gs0[q - 1]);
                            assert(gs2[0] == gs0[0]);
                            assert(gs2[1] == bv);
                            assert forall|q: int| 1 <= q < gs2.len() implies #[trigger] parent_present(
                                gs2,
                                q,
                            ) by {
                                if q == 1 {
                                    assert(gs2[0].id == gs2[1].parent_id->0);
                                } else {
                                    assert(parent_present(gs0, q - 1));
                                    let j = choose|j: int|
                                        0 <= j < q - 1 && (#[trigger] gs0[j].id) == gs0[q
                                            - 1].parent_id->0;
                                    let j2: int = if j == 0 {
                                        0
                                    } else {
                                        j + 1
                                    };
                                    assert(gs2[j2].id == gs2[q].parent_id->0);
                                }
                            }
                            assert forall|q: int|
                                0 <= q < gs2.len() && (#[trigger] gs2[q].is_recycle_bin) implies q
                                == 1 && gs2[q].parent_id == Option::Some(gs2[0].id) by {
                                if q == 0 {
                                    assert(!gs0[0].is_recycle_bin);
                                } else if q >= 2 {
                                    assert(gs2[q] == gs0[q - 1]);
                                    assert(has_bin(gs0));
                                }
                            }
                            assert(wf_groups(gs2));
                            lemma_bin_index_unique(gs2, 1);
                            assert(self@.entries =~= old(self)@.entries);
                            assert forall|k: int| 0 <= k < self@.entries.len() implies has_group(
                                gs2,
                                (#[trigger] self@.entries[k]).group_id,
                            ) by {
                                assert(has_group(gs0, old(self)@.entries[k].group_id));
                            }
                        }
                        Result::Ok(rid)
                    },
                }
            },
        }
    }

    /// The identifier of the root group.
    pub fn root_id(&self) -> (r: String)
        requires
            self.wf(),
        ensures
            r@ == self@.groups[0].id,
    {
        self.groups[0].id.clone()
    }

    /// Every group, root first, as an ordered snapshot.
    pub fn get_groups(&self) -> (r: Vec<Group>)
        ensures
            groups_view(r@) == self@.groups,
    {
        let mut r: Vec<Group> = Vec::new();
        let mut i: usize = 0;
        while i < self.groups.len()
            invariant
                i <= self.groups@.len(),
                r@.len() == i,
                forall|j: int| 0 <= j < i ==> (#[trigger] r@[j])@ == self.groups@[j]@,
            decreases self.groups@.len() - i,
        {
            r.push(self.groups[i].clone());
            i = i + 1;
        }
        assert(groups_view(r@) =~= self@.groups);
        r
    }

    /// Every entry, in arena order, as a snapshot; entries in the recycle
    /// bin come too.
    pub fn get_entries(&self) -> (r: Vec<Entry>)
        ensures
            entries_view(r@) == self@.entries,
    {
        let mut r: Vec<Entry> = Vec::new();
        let mut i: usize = 0;
        while i < self.entries.len()
            invariant
                i <= self.entries@.len(),
                r@.len() == i,
                forall|j: int| 0 <= j < i ==> (#[trigger] r@[j])@ == self.entries@[j]@,
            decreases self.entries@.len() - i,
        {
            r.push(self.entries[i].clone());
            i = i + 1;
        }
        assert(entries_view(r@) =~= self@.entries);
        r
    }

    /// The entry carrying `id`, or `EntryNotFound`.
    pub fn get_entry(&self, id: &String) -> (r: Result<Entry, VaultError>)
        requires
            self.wf(),
        ensures
            match r {
                Result::Ok(e) => has_entry(self@.entries, id@) && e@ == entry_by_id(
                    self@.entries,
                    id@,
                ),
                Result::Err(err) => !has_entry(self@.entries, id@) && (err matches
                    VaultError::EntryNotFound(s) && s@ == id@),
            },
    {
        match find_entry_pos(&self.entries, id) {
            Option::Some(i) => {
                proof {
                    lemma_entry_index_unique(self@.entries, id@, i as int);
                }
                Result::Ok(self.entries[i].clone())
            },
            Option::None => Result::Err(VaultError::EntryNotFound(id.clone())),
        }
    }

    /// Append `entry` under the group it names.  The caller supplies the
    /// identifier and vouches that it is new; the store resolves the
    /// owning group, failing with `GroupNotFound` when it is absent, and
    /// rejects a custom-field list with a reserved or duplicate key with
    /// `InvalidEntry`.
    pub fn add_entry(&mut self, entry: Entry) -> (r: Result<String, VaultError>)
        requires
            old(self).wf(),
            !has_entry(old(self)@.entries, entry@.id),
        ensures
            final(self).wf(),
            match r {
                Result::Ok(rid) => {
                    &&& valid_custom_fields(entry@.custom_fields)
                    &&& has_group(old(self)@.groups, entry@.group_id)
                    &&& final(self)@.groups == old(self)@.groups
                    &&& final(self)@.entries == old(self)@.entries.push(entry@)
                    &&& rid@ == entry@.id
                },
                Result::Err(err) => {
                    &&& final(self)@ == old(self)@
                    &&& match err {
                        VaultError::InvalidEntry(_) => !valid_custom_fields(
                            entry@.custom_fields,
                        ),
                        VaultError::GroupNotFound(s) => s@ == entry@.group_id
                            && valid_custom_fields(entry@.custom_fields) && !has_group(
                            old(self)@.groups,
                            entry@.group_id,
                        ),
                        _ => false,
                    }
                },
            },
    {
        if !check_custom_fields(&entry.custom_fields) {
            let mut entry = entry;
            entry.wipe_secrets();
            assert(final(self)@ =~= old(self)@);
            return Result::Err(
                VaultError::InvalidEntry("a custom field uses a reserved or duplicate key".to_owned()),
            );
        }
        match find_group_pos(&self.groups, &entry.group_id) {
            Option::None => {
                let mut entry = entry;
                let gid = entry.group_id.clone();
                entry.wipe_secrets();
                assert(final(self)@ =~= old(self)@);
                Result::Err(VaultError::GroupNotFound(gid))
            },
            Option::Some(i) => {
                proof {
                    assert(old(self)@.groups[i as int].id == entry@.group_id);
                    assert(has_group(old(self)@.groups, entry@.group_id));
                }
                let rid = entry.id.clone();
                self.entries.push(entry);
                proof {
                    assert(final(self)@.entries =~= old(self)@.entries.push(entry@));
                    assert(final(self)@.groups =~= old(self)@.groups);
                    assert forall|k: int| 0 <= k < final(self)@.entries.len() implies has_group(
                        final(self)@.groups,
                        (#[trigger] final(self)@.entries[k]).group_id,
                    ) by {}
                    let es2 = final(self)@.entries;
                    assert forall|k: int, l: int|
                        0 <= k < es2.len() && 0 <= l < es2.len() && (#[trigger] es2[k].id) == (
                        #[trigger] es2[l].id) implies k == l by {
                        let es0 = old(self)@.entries;
                        if k < es0.len() && l == es0.len() {
                            assert(has_entry(es0, es0[k].id));
                        } else if l < es0.len() && k == es0.len() {
                            assert(has_entry(es0, es0[l].id));
                        }
                    }
                }
                Result::Ok(rid)
            },
        }
    }

    /// Append `group` under the parent it names, or under the root when it
    /// names none.  The stored record always points at its live parent and
    /// never flies the recycle-bin flag; the caller vouches that the
    /// identifier is new.
    pub fn add_group(&mut self, group: Group) -> (r: Result<String, VaultError>)
        requires
            old(self).wf(),
            !has_group(old(self)@.groups, group@.id),
        ensures
            final(self).wf(),
            match r {
                Result::Ok(rid) => {
                    &&& (group@.parent_id matches Option::Some(p) ==> has_group(
                        old(self)@.groups,
                        p,
                    ))
                    &&& final(self)@.entries == old(self)@.entries
                    &&& final(self)@.groups == old(self)@.groups.push(
                        GroupView {
                            parent_id: Option::Some(
                                match group@.parent_id {
                                    Option::Some(p) => p,
                                    Option::None => old(self)@.groups[0].id,
                                },
                            ),
                            is_recycle_bin: false,
                            ..group@
                        },
                    )
                    &&& rid@ == group@.id
                },
                Result::Err(err) => {
                    &&& group@.parent_id matches Option::Some(p) && !has_group(
                        old(self)@.groups,
                        p,
                    )
                    &&& final(self)@ == old(self)@
                    &&& err matches VaultError::GroupNotFound(s) && group@.parent_id
                        == Option::Some(s@)
                },
            },
    {
        let parent: String = match &group.parent_id {
            Option::Some(p) => {
                match find_group_pos(&self.groups, p) {
                    Option::None => {
                        return Result::Err(VaultError::GroupNotFound(p.clone()));
                    },
                    Option::Some(j) => {
                        proof {
                            assert(self@.groups[j as int].id == p@);
                            assert(has_group(self@.groups, p@));
                        }
                        p.clone()
                    },
                }
            },
            Option::None => {
                proof {
                    assert(has_group(self@.groups, self@.groups[0].id));
                }
                self.groups[0].id.clone()
            },
        };
        assert(has_group(old(self)@.groups, parent@));
        let rid = group.id.clone();
        let stored = Group {
            parent_id: Option::Some(parent),
            is_recycle_bin: false,
            ..group
        };
        let ghost gs0 = self@.groups;
        let ghost sv = stored@;
        self.groups.push(stored);
        proof {
            assert(final(self)@.groups =~= gs0.push(sv));
            lemma_push_group(gs0, sv);
            let gs2 = final(self)@.groups;
            assert(has_group(gs0, sv.parent_id->0));
            lemma_group_index(gs0, sv.parent_id->0);
            assert forall|i: int| 1 <= i < gs2.len() implies #[trigger] parent_present(gs2, i) by {
                if i < gs0.len() {
                    assert(parent_present(gs0, i));
                    let j = choose|j: int|
                        0 <= j < i && (#[trigger] gs0[j].id) == gs0[i].parent_id->0;
                    assert(gs2[j].id == gs2[i].parent_id->0);
                } else {
                    let j = group_index(gs0, sv.parent_id->0);
                    assert(gs2[j].id == gs2[i].parent_id->0);
                }
            }
            assert(wf_groups(gs2));
            assert(final(self)@.entries =~= old(self)@.entries);
            assert forall|k: int| 0 <= k < final(self)@.entries.len() implies has_group(
                gs2,
                (#[trigger] final(self)@.entries[k]).group_id,
            ) by {
                assert(has_group(gs0, old(self)@.entries[k].group_id));
            }
        }
        Result::Ok(rid)
    }

    /// Replace the mutable fields of the entry carrying `id` with those of
    /// `entry`.  The identifier and the owning group are kept: group
    /// membership never changes through an update.  A payload whose
    /// custom-field list uses a reserved or duplicate key is rejected
    /// with `InvalidEntry`.
    pub fn update_entry(&mut self, id: &String, entry: Entry) -> (r: Result<(), VaultError>)
        requires
            old(self).wf(),
        ensures
            final(self).wf(),
            match r {
                Result::Ok(_) => {
                    &&& valid_custom_fields(entry@.custom_fields)
                    &&& has_entry(old(self)@.entries, id@)
                    &&& final(self)@.groups == old(self)@.groups
                    &&& final(self)@.entries == old(self)@.entries.update(
                        entry_index(old(self)@.entries, id@),
                        EntryView {
                            id: entry_by_id(old(self)@.entries, id@).id,
                            group_id: entry_by_id(old(self)@.entries, id@).group_id,
                            ..entry@
                        },
                    )
                },
                Result::Err(err) => {
                    &&& final(self)@ == old(self)@
                    &&& match err {
                        VaultError::InvalidEntry(_) => !valid_custom_fields(
                            entry@.custom_fields,
                        ),
                        VaultError::EntryNotFound(s) => s@ == id@ && valid_custom_fields(
                            entry@.custom_fields,
                        ) && !has_entry(old(self)@.entries, id@),
                        _ => false,
                    }
                },
            },
    {
        if !check_custom_fields(&entry.custom_fields) {
            let mut entry = entry;
            entry.wipe_secrets();
            assert(final(self)@ =~= old(self)@);
            return Result::Err(
                VaultError::InvalidEntry("a custom field uses a reserved or duplicate key".to_owned()),
            );
        }
        match find_entry_pos(&self.entries, id) {
            Option::None => {
                let mut entry = entry;
                entry.wipe_secrets();
                assert(final(self)@ =~= old(self)@);
                Result::Err(VaultError::EntryNotFound(id.clone()))
            },
            Option::Some(k) => {
                proof {
                    lemma_entry_index_unique(old(self)@.entries, id@, k as int);
                }
                let mut old_e = self.entries.remove(k);
                old_e.wipe_secrets();
                let new_e = Entry { id: old_e.id, group_id: old_e.group_id, ..entry };
                let ghost nv = new_e@;
                self.entries.insert(k, new_e);
                proof {
                    let es0 = old(self)@.entries;
                    let es2 = final(self)@.entries;
                    assert(es2 =~= es0.update(k as int, nv));
                    assert forall|a: int, b: int|
                        0 <= a < es2.len() && 0 <= b < es2.len() && (#[trigger] es2[a].id) == (
                        #[trigger] es2[b].id) implies a == b by {
                        assert(es2[a].id == es0[a].id);
                        assert(es2[b].id == es0[b].id);
                    }
                    assert forall|a: int| 0 <= a < es2.len() implies has_group(
                        final(self)@.groups,
                        (#[trigger] es2[a]).group_id,
                    ) by {
                        assert(es2[a].group_id == es0[a].group_id);
                    }
                }
                Result::Ok(())
            },
        }
    }

    /// Replace the name and the notes of the group carrying `id`; every
    /// other field, the shape of the tree included, stays.
    pub fn update_group(&mut self, id: &String, group: Group) -> (r: Result<(), VaultError>)
        requires
            old(self).wf(),
        ensures
            final(self).wf(),
            match r {
                Result::Ok(_) => {
                    &&& has_group(old(self)@.groups, id@)
                    &&& final(self)@.entries == old(self)@.entries
                    &&& final(self)@.groups == old(self)@.groups.update(
                        group_index(old(self)@.groups, id@),
                        GroupView {
                            name: group@.name,
                            notes: group@.notes,
                            ..group_by_id(old(self)@.groups, id@)
                        },
                    )
                },
                Result::Err(err) => {
                    &&& !has_group(old(self)@.groups, id@)
                    &&& final(self)@ == old(self)@
                    &&& err matches VaultError::GroupNotFound(s) && s@ == id@
                },
            },
    {
        match find_group_pos(&self.groups, id) {
            Option::None => {
                assert(final(self)@ =~= old(self)@);
                Result::Err(VaultError::GroupNotFound(id.clone()))
            },
            Option::Some(k) => {
                proof {
                    lemma_group_index_unique(old(self)@.groups, id@, k as int);
                }
                let old_g = self.groups.remove(k);
                let new_g = Group { name: group.name, notes: group.notes, ..old_g };
                let ghost nv = new_g@;
                self.groups.insert(k, new_g);
                proof {
                    let gs0 = old(self)@.groups;
                    let gs2 = final(self)@.groups;
                    assert(gs2 =~= gs0.update(k as int, nv));
                    lemma_wf_same_skeleton(gs0, gs2);
                    assert(final(self)@.entries =~= old(self)@.entries);
                    assert forall|a: int| 0 <= a < final(self)@.entries.len() implies has_group(
                        gs2,
                        (#[trigger] final(self)@.entries[a]).group_id,
                    ) by {
                        assert(has_group(gs0, old(self)@.entries[a].group_id));
                    }
                }
                Result::Ok(())
            },
        }
    }
}

/// How a successful soft-delete of an entry transforms the tree: the bin
/// exists afterwards (freshly attached when it was absent), and exactly
/// the named entry moved into it.
pub open spec fn soft_deleted_entry(t0: TreeView, t2: TreeView, id: Seq<char>) -> bool {
    &&& has_entry(t0.entries, id)
    &&& has_bin(t2.groups)
    &&& (has_bin(t0.groups) ==> t2.groups == t0.groups)
    &&& (!has_bin(t0.groups) ==> exists|b: GroupView|
        fresh_bin_of(t0.groups, b) && t2.groups == t0.groups.insert(1, b))
    &&& t2.entries == t0.entries.update(
        entry_index(t0.entries, id),
        EntryView { group_id: bin_id(t2.groups), ..entry_by_id(t0.entries, id) },
    )
    &&& entry_recycled(t2, id)
}

/// How a successful soft-delete of a group transforms the tree: the named
/// group is re-parented under the bin with everything else in place, or,
/// when the named group is the bin itself, its whole subtree is dropped.
pub open spec fn soft_deleted_group(t0: TreeView, t2: TreeView, id: Seq<char>) -> bool {
    &&& has_group(t0.groups, id)
    &&& id != t0.groups[0].id
    &&& if has_bin(t0.groups) && id == bin_id(t0.groups) {
        &&& t2.groups == keep_groups(t0.groups, prune_keep(t0.groups, id, false))
        &&& t2.entries == keep_entries(t0.entries, prune_keep(t0.groups, id, false))
        &&& !has_bin(t2.groups)
    } else {
        &&& t2.entries == t0.entries
        &&& has_bin(t2.groups)
        &&& group_recycled(t2, id)
        &&& exists|gmid: Seq<GroupView>|
            {
                &&& (has_bin(t0.groups) ==> gmid == t0.groups)
                &&& (!has_bin(t0.groups) ==> exists|b: GroupView|
                    fresh_bin_of(t0.groups, b) && gmid == t0.groups.insert(1, b))
                &&& t2.groups == gmid.update(
                    group_index(gmid, id),
                    GroupView {
                        parent_id: Option::Some(bin_id(gmid)),
                        ..group_by_id(gmid, id)
                    },
                )
            }
    }
}

/// How a successful permanent delete of an entry transforms the tree: the
/// entry, which sat in the bin, is gone and nothing else moved.
pub open spec fn purged_entry(t0: TreeView, t2: TreeView, id: Seq<char>) -> bool {
    &&& entry_recycled(t0, id)
    &&& t2.groups == t0.groups
    &&& t2.entries == t0.entries.remove(entry_index(t0.entries, id))
}

/// How a successful permanent delete of a group transforms the tree: the
/// group, which sat strictly inside the bin, is gone with its subtree.
pub open spec fn purged_group(t0: TreeView, t2: TreeView, id: Seq<char>) -> bool {
    &&& group_recycled(t0, id)
    &&& t2.groups == keep_groups(t0.groups, prune_keep(t0.groups, id, false))
    &&& t2.entries == keep_entries(t0.entries, prune_keep(t0.groups, id, false))
    &&& !has_group(t2.groups, id)
}

impl Clone for Tree {
    /// A deep copy with the same mathematical value.
    fn clone(&self) -> (r: Self)
        ensures
            r@ == self@,
    {
        let r = Tree { groups: self.get_groups(), entries: self.get_entries() };
        proof {
            assert(r@ =~= self@);
        }
        r
    }
}

/// What a tree looks like after its recycle bin has been emptied: the bin
/// keeps its place, everything below it and every entry inside it goes.
pub open spec fn emptied_view(t: TreeView) -> TreeView {
    if !has_bin(t.groups) {
        t
    } else {
        TreeView {
            groups: keep_groups(t.groups, prune_keep(t.groups, bin_id(t.groups), true)),
            entries: keep_entries(t.entries, prune_keep(t.groups, bin_id(t.groups), false)),
        }
    }
}

impl Tree {
    /// Remove the whole subtree anchored at `anchor` — every group
    /// reaching it and every entry owned by such a group — wiping the
    /// secrets of dropped entries.  With `spare_anchor` the anchor group
    /// itself stays; that variant empties the recycle bin in place.
    fn prune(&mut self, anchor: &String, spare_anchor: bool)
        requires
            old(self).wf(),
            has_group(old(self)@.groups, anchor@),
            anchor@ != old(self)@.groups[0].id,
            spare_anchor ==> has_bin(old(self)@.groups) && anchor@ == bin_id(old(self)@.groups),
        ensures
            final(self).wf(),
            final(self)@.groups == keep_groups(
                old(self)@.groups,
                prune_keep(old(self)@.groups, anchor@, spare_anchor),
            ),
            final(self)@.entries == keep_entries(
                old(self)@.entries,
                prune_keep(old(self)@.groups, anchor@, false),
            ),
    {
        let ghost gs0 = self@.groups;
        let ghost es0 = self@.entries;
        let ghost kg = prune_keep(gs0, anchor@, spare_anchor);
        let ghost ke = prune_keep(gs0, anchor@, false);
        // entries first, while the arena still shows the old shape
        let mut rest: Vec<Entry> = Vec::new();
        core::mem::swap(&mut self.entries, &mut rest);
        let ghost n = es0.len() as int;
        proof {
            assert(entries_view(rest@) =~= es0.subrange(n - rest@.len(), n));
            assert(es0.take(n - rest@.len()) =~= Seq::<EntryView>::empty());
            reveal(Seq::filter);
            assert(entries_view(self.entries@) =~= keep_entries(es0.take(n - rest@.len()), ke));
        }
        while rest.len() > 0
            invariant
                self@.groups == gs0,
                wf_groups(gs0),
                n == es0.len(),
                ke == prune_keep(gs0, anchor@, false),
                rest@.len() <= n,
                entries_view(rest@) == es0.subrange(n - rest@.len(), n),
                entries_view(self.entries@) == keep_entries(es0.take(n - rest@.len()), ke),
            decreases rest@.len(),
        {
            let ghost done = n - rest@.len();
            let ghost rest0 = rest@;
            let e = rest.remove(0);
            proof {
                assert(e == rest0[0]);
                assert(entries_view(rest0)[0] == rest0[0]@);
                assert(es0.subrange(done, n)[0] == es0[done]);
                assert(e@ == es0[done]);
                assert(rest@ == rest0.remove(0));
                assert(rest@.len() == rest0.len() - 1);
                assert forall|j: int| 0 <= j < rest@.len() implies (#[trigger] entries_view(
                    rest@,
                )[j]) == es0.subrange(done + 1, n)[j] by {
                    assert(rest@[j] == rest0[j + 1]);
                    assert(entries_view(rest0)[j + 1] == rest0[j + 1]@);
                    assert(es0.subrange(done, n)[j + 1] == es0[done + 1 + j]);
                    assert(es0.subrange(done + 1, n)[j] == es0[done + 1 + j]);
                }
                assert(entries_view(rest@) =~= es0.subrange(done + 1, n));
                assert(done + 1 == n - rest@.len());
            }
            let r = reach_walk(&self.groups, &e.group_id, anchor);
            proof {
                reveal(Seq::filter);
                assert(es0.take(done + 1).drop_last() =~= es0.take(done));
                assert(es0.take(done + 1).last() == es0[done]);
                assert((!r) == ke(es0[done].group_id));
            }
            if !r {
                self.entries.push(e);
            } else {
                let mut e = e;
                e.wipe_secrets();
            }
            proof {
                assert(entries_view(self.entries@) =~= keep_entries(es0.take(n - rest@.len()), ke));
            }
        }
        proof {
            assert(es0.take(n) =~= es0);
        }
        // now the groups
        let mut kept: Vec<Group> = Vec::new();
        let mut i: usize = 0;
        proof {
            assert(gs0.take(0) =~= Seq::<GroupView>::empty());
            reveal(Seq::filter);
            assert(groups_view(kept@) =~= keep_groups(gs0.take(0), kg));
        }
        while i < self.groups.len()
            invariant
                self@.groups == gs0,
                wf_groups(gs0),
                kg == prune_keep(gs0, anchor@, spare_anchor),
                i <= gs0.len(),
                groups_view(kept@) == keep_groups(gs0.take(i as int), kg),
            decreases self.groups@.len() - i,
        {
            let gid = self.groups[i].id.clone();
            let r = reach_walk(&self.groups, &gid, anchor);
            let keep_it = !r || (spare_anchor && gid == *anchor);
            proof {
                reveal(Seq::filter);
                assert(gs0.take(i + 1).drop_last() =~= gs0.take(i as int));
                assert(gs0.take(i + 1).last() == gs0[i as int]);
                assert(keep_it == kg(gs0[i as int].id));
            }
            if keep_it {
                kept.push(self.groups[i].clone());
            }
            i = i + 1;
            proof {
                assert(groups_view(kept@) =~= keep_groups(gs0.take(i as int), kg));
            }
        }
        self.groups = kept;
        proof {
            assert(gs0.take(gs0.len() as int) =~= gs0);
            assert(final(self)@.groups == keep_groups(gs0, kg));
            assert(final(self)@.entries == keep_entries(es0, ke));
            lemma_prune_keep_closed(gs0, anchor@, spare_anchor);
            lemma_keep_groups(gs0, kg);
            lemma_keep_entries(es0, ke);
            let gs2 = final(self)@.groups;
            let es2 = final(self)@.entries;
            assert forall|k: int| 0 <= k < es2.len() implies has_group(
                gs2,
                (#[trigger] es2[k]).group_id,
            ) by {
                let j = choose|j: int| 0 <= j < es0.len() && (#[trigger] es2[k]) == es0[j];
                assert(has_group(gs0, es0[j].group_id));
                assert(ke(es2[k].group_id));
                assert(kg(es2[k].group_id));
            }
            assert(wf_tree(final(self)@));
        }
    }

    /// Soft-delete: re-parent the group carrying `id`, with its whole
    /// subtree, under the recycle bin, creating the bin when absent.
    /// Deleting the root is rejected; deleting the recycle bin itself
    /// discards it and everything in it.
    pub fn delete_group(&mut self, id: &String) -> (r: Result<(), VaultError>)
        requires
            old(self).wf(),
        ensures
            final(self).wf(),
            match r {
                Result::Ok(_) => soft_deleted_group(old(self)@, final(self)@, id@),
                Result::Err(err) => {
                    &&& final(self)@ == old(self)@
                    &&& match err {
                        VaultError::InvalidOperation(_) => id@ == old(self)@.groups[0].id,
                        VaultError::GroupNotFound(s) => s@ == id@ && !has_group(
                            old(self)@.groups,
                            id@,
                        ) && id@ != old(self)@.groups[0].id,
                        _ => false,
                    }
                },
            },
    {
        if *id == self.groups[0].id {
            assert(final(self)@ =~= old(self)@);
            return Result::Err(VaultError::InvalidOperation("cannot delete the root group".to_owned()));
        }
        match find_group_pos(&self.groups, id) {
            Option::None => {
                assert(final(self)@ =~= old(self)@);
                Result::Err(VaultError::GroupNotFound(id.clone()))
            },
            Option::Some(j) => {
                proof {
                    lemma_group_index_unique(old(self)@.groups, id@, j as int);
                }
                if self.groups[j].is_recycle_bin {
                    proof {
                        lemma_bin_index_unique(old(self)@.groups, j as int);
                    }
                    self.prune(id, false);
                    proof {
                        lemma_prune_keep_closed(old(self)@.groups, id@, false);
                        lemma_keep_groups_bin(
                            old(self)@.groups,
                            prune_keep(old(self)@.groups, id@, false),
                        );
                        lemma_reach_self(old(self)@.groups, id@);
                    }
                    Result::Ok(())
                } else {
                    let ghost gs0 = old(self)@.groups;
                    let bid = self.ensure_bin();
                    let ghost gmid = self@.groups;
                    proof {
                        if !has_bin(gs0) {
                            let b = choose|b: GroupView|
                                fresh_bin_of(gs0, b) && gmid == gs0.insert(1, b);
                            lemma_insert_group(gs0, 1, b);
                        }
                        assert(has_group(gmid, id@));
                        assert(group_by_id(gmid, id@) == group_by_id(gs0, id@));
                        assert(group_by_id(gs0, id@) == gs0[j as int]);
                        assert(!group_by_id(gmid, id@).is_recycle_bin);
                    }
                    match find_group_pos(&self.groups, id) {
                        Option::None => {
                            proof {
                                assert(false);
                            }
                            Result::Err(VaultError::GroupNotFound(id.clone()))
                        },
                        Option::Some(j2) => {
                            proof {
                                lemma_group_index_unique(gmid, id@, j2 as int);
                                lemma_bin_index(gmid);
                                lemma_bin_index_unique(gmid, bin_index(gmid));
                                // the target is neither the root nor the bin
                                assert(gmid[0].id == gs0[0].id);
                                assert(j2 as int != 0);
                                assert(!gmid[j2 as int].is_recycle_bin);
                                assert(j2 as int != 1);
                            }
                            let old_g = self.groups.remove(j2);
                            let new_g = Group { parent_id: Option::Some(bid), ..old_g };
                            let ghost nv = new_g@;
                            self.groups.insert(j2, new_g);
                            proof {
                                let gs2 = final(self)@.groups;
                                assert(gs2 =~= gmid.update(j2 as int, nv));
                                assert(nv.id == gmid[j2 as int].id);
                                assert(nv.parent_id == Option::Some(bin_id(gmid)));
                                assert(bin_id(gmid) == gmid[1].id);
                                // well-formedness of the re-parented arena
                                assert forall|i: int, l: int|
                                    0 <= i < gs2.len() && 0 <= l < gs2.len() && (
                                #[trigger] gs2[i].id) == (#[trigger] gs2[l].id) implies i == l by {
                                    assert(gs2[i].id == gmid[i].id);
                                    assert(gs2[l].id == gmid[l].id);
                                }
                                assert forall|i: int| 1 <= i < gs2.len() implies (
                                #[trigger] gs2[i].parent_id) is Some by {
                                    if i != j2 as int {
                                        assert(gs2[i] == gmid[i]);
                                    }
                                }
                                assert forall|i: int| 1 <= i < gs2.len() implies
                                    #[trigger] parent_present(gs2, i) by {
                                    if i == j2 as int {
                                        assert(gs2[1].id == gmid[1].id);
                                        assert(gs2[i].parent_id->0 == gmid[1].id);
                                        assert(0 <= 1 < i && gs2[1].id == gs2[i].parent_id->0);
                                    } else {
                                        assert(parent_present(gmid, i));
                                        let q = choose|q: int|
                                            0 <= q < i && (#[trigger] gmid[q].id) == gmid[i].parent_id->0;
                                        assert(gs2[q].id == gs2[i].parent_id->0);
                                    }
                                }
                                assert forall|i: int|
                                    0 <= i < gs2.len() && (#[trigger] gs2[i].is_recycle_bin) implies
                                    i == 1 && gs2[i].parent_id == Option::Some(gs2[0].id) by {
                                    if i != j2 as int {
                                        assert(gs2[i] == gmid[i]);
                                    }
                                }
                                assert(wf_groups(gs2));
                                // entries unchanged, their groups still live
                                assert(final(self)@.entries =~= old(self)@.entries);
                                assert forall|k: int| 0 <= k < final(self)@.entries.len() implies
                                    has_group(
                                    gs2,
                                    (#[trigger] final(self)@.entries[k]).group_id,
                                ) by {
                                    assert(has_group(gs0, old(self)@.entries[k].group_id));
                                    lemma_group_index(gmid, old(self)@.entries[k].group_id);
                                    let q = group_index(gmid, old(self)@.entries[k].group_id);
                                    assert(gs2[q].id == gmid[q].id);
                                }
                                assert(wf_tree(final(self)@));
                                // the deleted group now sits in the bin
                                assert(has_bin(gs2)) by {
                                    assert(gs2[1].is_recycle_bin);
                                }
                                lemma_bin_index_unique(gs2, 1);
                                assert(bin_id(gs2) == gmid[1].id);
                                lemma_group_index_unique(gs2, id@, j2 as int);
                                assert(id@ != bin_id(gs2));
                                lemma_reach_step(gs2, id@, bin_id(gs2));
                                lemma_group_index_unique(gs2, bin_id(gs2), 1);
                                lemma_reach_self(gs2, bin_id(gs2));
                                assert(reach(gs2, id@, bin_id(gs2)));
                                assert(group_recycled(final(self)@, id@));
                            }
                            Result::Ok(())
                        },
                    }
                }
            },
        }
    }

    /// Permanently remove the entry carrying `id`, which must already sit
    /// in the recycle bin; its secrets are wiped as it goes.
    pub fn permanently_delete_entry(&mut self, id: &String) -> (r: Result<(), VaultError>)
        requires
            old(self).wf(),
        ensures
            final(self).wf(),
            match r {
                Result::Ok(_) => purged_entry(old(self)@, final(self)@, id@),
                Result::Err(err) => {
                    &&& !entry_recycled(old(self)@, id@)
                    &&& final(self)@ == old(self)@
                    &&& err matches VaultError::EntryNotFound(s) && s@ == id@
                },
            },
    {
        match find_entry_pos(&self.entries, id) {
            Option::None => {
                assert(final(self)@ =~= old(self)@);
                Result::Err(VaultError::EntryNotFound(id.clone()))
            },
            Option::Some(k) => {
                proof {
                    lemma_entry_index_unique(old(self)@.entries, id@, k as int);
                }
                match find_bin_pos(&self.groups) {
                    Option::None => {
                        assert(final(self)@ =~= old(self)@);
                        Result::Err(VaultError::EntryNotFound(id.clone()))
                    },
                    Option::Some(b) => {
                        proof {
                            lemma_bin_index_unique(old(self)@.groups, b as int);
                        }
                        let bid = self.groups[b].id.clone();
                        let inside = reach_walk(&self.groups, &self.entries[k].group_id, &bid);
                        if !inside {
                            assert(final(self)@ =~= old(self)@);
                            Result::Err(VaultError::EntryNotFound(id.clone()))
                        } else {
                            let mut e = self.entries.remove(k);
                            e.wipe_secrets();
                            proof {
                                let es0 = old(self)@.entries;
                                let es2 = final(self)@.entries;
                                assert(es2 =~= es0.remove(k as int));
                                assert forall|a: int, c: int|
                                    0 <= a < es2.len() && 0 <= c < es2.len() && (
                                #[trigger] es2[a].id) == (#[trigger] es2[c].id) implies a == c by {
                                    let oa: int = if a < k as int { a } else { a + 1 };
                                    let oc: int = if c < k as int { c } else { c + 1 };
                                    assert(es0[oa].id == es0[oc].id);
                                }
                                assert forall|a: int| 0 <= a < es2.len() implies has_group(
                                    final(self)@.groups,
                                    (#[trigger] es2[a]).group_id,
                                ) by {
                                    let oa: int = if a < k as int { a } else { a + 1 };
                                    assert(es2[a] == es0[oa]);
                                    assert(has_group(old(self)@.groups, es0[oa].group_id));
                                }
                                assert(wf_tree(final(self)@));
                            }
                            Result::Ok(())
                        }
                    },
                }
            },
        }
    }

    /// Permanently remove the group carrying `id` with its whole subtree.
    /// The group must already sit strictly inside the recycle bin; removed
    /// entries have their secrets wiped.
    pub fn permanently_delete_group(&mut self, id: &String) -> (r: Result<(), VaultError>)
        requires
            old(self).wf(),
        ensures
            final(self).wf(),
            match r {
                Result::Ok(_) => purged_group(old(self)@, final(self)@, id@),
                Result::Err(err) => {
                    &&& final(self)@ == old(self)@
                    &&& match err {
                        VaultError::InvalidOperation(_) => id@ == old(self)@.groups[0].id,
                        VaultError::GroupNotFound(s) => s@ == id@ && !group_recycled(
                            old(self)@,
                            id@,
                        ) && id@ != old(self)@.groups[0].id,
                        _ => false,
                    }
                },
            },
    {
        if *id == self.groups[0].id {
            assert(final(self)@ =~= old(self)@);
            return Result::Err(VaultError::InvalidOperation("cannot delete the root group".to_owned()));
        }
        match find_group_pos(&self.groups, id) {
            Option::None => {
                assert(final(self)@ =~= old(self)@);
                Result::Err(VaultError::GroupNotFound(id.clone()))
            },
            Option::Some(j) => {
                proof {
                    lemma_group_index_unique(old(self)@.groups, id@, j as int);
                }
                match find_bin_pos(&self.groups) {
                    Option::None => {
                        assert(final(self)@ =~= old(self)@);
                        Result::Err(VaultError::GroupNotFound(id.clone()))
                    },
                    Option::Some(b) => {
                        proof {
                            lemma_bin_index_unique(old(self)@.groups, b as int);
                        }
                        if self.groups[j].is_recycle_bin {
                            proof {
                                lemma_bin_index_unique(old(self)@.groups, j as int);
                            }
                            assert(final(self)@ =~= old(self)@);
                            return Result::Err(VaultError::GroupNotFound(id.clone()));
                        }
                        let bid = self.groups[b].id.clone();
                        let inside = reach_walk(&self.groups, id, &bid);
                        if !inside {
                            assert(final(self)@ =~= old(self)@);
                            Result::Err(VaultError::GroupNotFound(id.clone()))
                        } else {
                            proof {
                                // the target is not the bin, hence not the root's child slot
                                assert(id@ != bin_id(old(self)@.groups)) by {
                                    if id@ == bin_id(old(self)@.groups) {
                                        lemma_group_index_unique(
                                            old(self)@.groups,
                                            id@,
                                            j as int,
                                        );
                                        assert(old(self)@.groups[1].id == id@);
                                        assert(j as int == 1);
                                        assert(old(self)@.groups[j as int].is_recycle_bin);
                                    }
                                }
                            }
                            self.prune(id, false);
                            proof {
                                lemma_prune_keep_closed(old(self)@.groups, id@, false);
                                lemma_keep_groups(
                                    old(self)@.groups,
                                    prune_keep(old(self)@.groups, id@, false),
                                );
                                lemma_reach_self(old(self)@.groups, id@);
                            }
                            Result::Ok(())
                        }
                    },
                }
            },
        }
    }

    /// Blank every entry's sensitive material in place: passwords,
    /// one-time-password seeds and protected custom values are
    /// overwritten with zeros.  The shape of the tree and every
    /// non-secret field stay.
    pub fn wipe_all_secrets(&mut self)
        ensures
            final(self)@.groups == old(self)@.groups,
            final(self)@.entries == old(self)@.entries.map_values(
                |e: EntryView| crate::entry::wiped_view(e),
            ),
    {
        let n = self.entries.len();
        let mut i: usize = 0;
        while i < n
            invariant
                n == self.entries@.len(),
                i <= n,
                self@.groups == old(self)@.groups,
                n == old(self).entries@.len(),
                forall|j: int|
                    0 <= j < i ==> (#[trigger] self.entries@[j])@ == crate::entry::wiped_view(
                        old(self).entries@[j]@,
                    ),
                forall|j: int| i <= j < n ==> (#[trigger] self.entries@[j]) == old(
                    self,
                ).entries@[j],
            decreases n - i,
        {
            let e = &mut self.entries[i];
            e.wipe_secrets();
            i = i + 1;
        }
        proof {
            assert(final(self)@.entries =~= old(self)@.entries.map_values(
                |e: EntryView| crate::entry::wiped_view(e),
            ));
        }
    }

    /// Empty the recycle bin: drop every group below it and every entry
    /// inside it, wiping their secrets.  Without a bin this is a no-op,
    /// and emptying twice in a row changes nothing the second time.
    pub fn empty_recycle_bin(&mut self)
        requires
            old(self).wf(),
        ensures
            final(self).wf(),
            final(self)@ == emptied_view(old(self)@),
    {
        match find_bin_pos(&self.groups) {
            Option::None => {
                assert(final(self)@ =~= old(self)@);
            },
            Option::Some(b) => {
                proof {
                    lemma_bin_index_unique(old(self)@.groups, b as int);
                }
                let bid = self.groups[b].id.clone();
                proof {
                    // the bin is not the root
                    assert(old(self)@.groups[1].id == bid@);
                    if bid@ == old(self)@.groups[0].id {
                        assert(old(self)@.groups[0].id == old(self)@.groups[1].id);
                    }
                    lemma_group_index_unique(old(self)@.groups, bid@, 1);
                }
                self.prune(&bid, true);
                proof {
                    assert(final(self)@ =~= emptied_view(old(self)@));
                }
            },
        }
    }
}

/// An entry just added is fetched back whole.  When `add_entry` accepted
/// `e` and turned `t0` into `t2` — its success contract: the entries are
/// the old ones with `e` appended, the caller-supplied identifier kept —
/// then `get_entry(e.id)` on `t2` succeeds and returns `e` with every
/// supplied field value unchanged; in particular a freshly created
/// entry keeps its three equal creation timestamps, and no timestamp
/// was mutated on the way in.
pub proof fn lemma_added_entry_readable(t0: TreeView, t2: TreeView, e: EntryView)
    requires
        wf_tree(t0),
        !has_entry(t0.entries, e.id),
        t2.entries == t0.entries.push(e),
    ensures
        has_entry(t2.entries, e.id),
        entry_by_id(t2.entries, e.id) == e,
{
    let es2 = t2.entries;
    let n = t0.entries.len() as int;
    assert(es2[n] == e);
    assert(has_entry(es2, e.id));
    let k = entry_index(es2, e.id);
    lemma_entry_index(es2, e.id);
    if k != n {
        assert(es2[k] == t0.entries[k]);
        assert(has_entry(t0.entries, e.id));
    }
}


/// A soft-deleted group sits under the recycle bin.  After a successful
/// delete of a group other than the bin itself, the group is still
/// listed, its name kept, its parent now the bin; the bin flies its flag
/// and hangs under the root; and a bin created by the delete is named
/// "Recycle Bin".
pub proof fn lemma_soft_deleted_group_under_bin(t0: TreeView, t2: TreeView, id: Seq<char>)
    requires
        wf_tree(t0),
        wf_tree(t2),
        soft_deleted_group(t0, t2, id),
        !(has_bin(t0.groups) && id == bin_id(t0.groups)),
    ensures
        has_group(t2.groups, id),
        has_bin(t2.groups),
        group_by_id(t2.groups, id).parent_id == Option::Some(bin_id(t2.groups)),
        group_by_id(t2.groups, id).name == group_by_id(t0.groups, id).name,
        group_by_id(t2.groups, bin_id(t2.groups)).is_recycle_bin,
        group_by_id(t2.groups, bin_id(t2.groups)).parent_id == Option::Some(t2.groups[0].id),
        !has_bin(t0.groups) ==> group_by_id(t2.groups, bin_id(t2.groups)).name == "Recycle Bin"@,
{
    let gs0 = t0.groups;
    let gmid = choose|gmid: Seq<GroupView>|
        {
            &&& (has_bin(t0.groups) ==> gmid == t0.groups)
            &&& (!has_bin(t0.groups) ==> exists|b: GroupView|
                fresh_bin_of(t0.groups, b) && gmid == t0.groups.insert(1, b))
            &&& t2.groups == gmid.update(
                group_index(gmid, id),
                GroupView { parent_id: Option::Some(bin_id(gmid)), ..group_by_id(gmid, id) },
            )
        };
    // the middle arena: the old one, or the old one with a fresh bin at slot 1
    let fresh = !has_bin(gs0);
    if fresh {
        let b = choose|b: GroupView| fresh_bin_of(gs0, b) && gmid == gs0.insert(1, b);
        lemma_insert_group(gs0, 1, b);
        assert(gmid[0] == gs0[0]);
        assert(gmid[1] == b);
        assert(forall|j: int| 2 <= j < gmid.len() ==> gmid[j] == gs0[j - 1]);
        // the only flagged slot of the middle arena is the fresh bin at 1
        assert forall|j: int| 0 <= j < gmid.len() && (#[trigger] gmid[j].is_recycle_bin) implies j
            == 1 by {
            if j == 0 {
                assert(!gs0[0].is_recycle_bin);
            } else if j >= 2 {
                assert(gmid[j] == gs0[j - 1]);
                assert(has_bin(gs0));
            }
        }
        assert(has_bin(gmid)) by {
            assert(gmid[1].is_recycle_bin);
        }
        assert(bin_index(gmid) == 1) by {
            lemma_bin_index(gmid);
        }
        assert(bin_id(gmid) == b.id);
        assert(group_by_id(gmid, id) == group_by_id(gs0, id));
        assert(id != b.id) by {
            if id == b.id {
                assert(has_group(gs0, b.id));
            }
        }
        assert(gmid[1].parent_id == Option::Some(gmid[0].id));
        assert(gmid[1].name == "Recycle Bin"@);
    } else {
        assert(gmid == gs0);
        lemma_bin_index(gmid);
        lemma_bin_index_unique(gmid, bin_index(gmid));
        assert(bin_index(gmid) == 1);
        assert(gmid[1].parent_id == Option::Some(gmid[0].id));
        assert(id != bin_id(gmid));
    }
    // the deleted group's slot in the middle arena
    assert(has_group(gmid, id));
    lemma_group_index(gmid, id);
    let k = group_index(gmid, id);
    assert(gmid[k].id == id);
    // uniqueness of the middle arena's identifiers pins the slot down
    assert(unique_group_ids(gmid)) by {
        if fresh {
            let b2 = choose|b2: GroupView| fresh_bin_of(gs0, b2) && gmid == gs0.insert(1, b2);
            lemma_insert_group(gs0, 1, b2);
        }
    }
    assert(group_by_id(gmid, id) == gmid[k]);
    // the deleted group is neither the root nor the bin
    assert(gmid[0] == gs0[0]);
    assert(k != 0) by {
        if k == 0 {
            assert(gs0[0].id == id);
            assert(has_group(gs0, id));
            lemma_group_index_unique(gs0, id, 0);
            assert(id == t0.groups[0].id);
        }
    }
    assert(k != 1 || !gmid[k].is_recycle_bin) by {
        if gmid[k].is_recycle_bin {
            lemma_bin_index(gmid);
            assert(gmid[bin_index(gmid)].id == bin_id(gmid));
        }
    }
    assert(!gmid[k].is_recycle_bin) by {
        if gmid[k].is_recycle_bin {
            if fresh {
                assert(k == 1);
                assert(gmid[1].id == bin_id(gmid));
            } else {
                lemma_bin_index_unique(gmid, k);
                assert(gmid[k].id == bin_id(gmid));
            }
        }
    }
    assert(k != 1) by {
        if k == 1 {
            assert(gmid[1].is_recycle_bin);
        }
    }
    // the final arena: one parent link changed at slot k
    let nv = GroupView { parent_id: Option::Some(bin_id(gmid)), ..group_by_id(gmid, id) };
    let gs2 = t2.groups;
    assert(gs2 == gmid.update(k, nv));
    assert(gs2.len() == gmid.len());
    assert(gs2[k] == nv);
    assert(forall|j: int| 0 <= j < gs2.len() && j != k ==> gs2[j] == gmid[j]);
    assert(nv.id == id);
    assert(has_group(gs2, id));
    lemma_group_index_unique(gs2, id, k);
    assert(group_by_id(gs2, id) == nv);
    // the bin keeps its slot, flag, parent and name
    assert(gs2[1] == gmid[1]);
    assert(gs2[1].is_recycle_bin);
    assert forall|j: int| 0 <= j < gs2.len() && (#[trigger] gs2[j].is_recycle_bin) implies j == 1
        by {
        if j != k {
            assert(gmid[j].is_recycle_bin);
            if fresh {
            } else {
                lemma_bin_index_unique(gmid, j);
            }
        } else {
            assert(nv.is_recycle_bin == gmid[k].is_recycle_bin);
        }
    }
    assert(has_bin(gs2)) by {
        assert(gs2[1].is_recycle_bin);
    }
    assert(bin_index(gs2) == 1) by {
        lemma_bin_index(gs2);
    }
    assert(bin_id(gs2) == gmid[1].id);
    assert(bin_id(gs2) == bin_id(gmid));
    lemma_group_index_unique(gs2, bin_id(gs2), 1);
    assert(group_by_id(gs2, bin_id(gs2)) == gmid[1]);
    assert(gs2[0] == gmid[0]);
}

/// The soft/hard delete lifecycle of an entry.  After a soft delete the
/// entry can still be fetched and sits in the recycle bin; a hard delete
/// is only accepted on an entry sitting there, and afterwards the entry
/// is gone and no fetch finds it.
pub proof fn lemma_delete_lifecycle(t0: TreeView, t1: TreeView, t2: TreeView, id: Seq<char>)
    requires
        wf_tree(t0),
        wf_tree(t1),
        soft_deleted_entry(t0, t1, id),
        purged_entry(t1, t2, id),
    ensures
        has_entry(t1.entries, id),
        entry_recycled(t1, id),
        !has_entry(t2.entries, id),
{
    lemma_entry_index(t1.entries, id);
    let k = entry_index(t1.entries, id);
    let es1 = t1.entries;
    let es2 = t2.entries;
    assert(es2 == es1.remove(k));
    es1.remove_ensures(k);
    assert(es2.len() == es1.len() - 1);
    if has_entry(es2, id) {
        let j = choose|j: int| 0 <= j < es2.len() && (#[trigger] es2[j].id) == id;
        let oj: int = if j < k {
            j
        } else {
            j + 1
        };
        assert(es2[j] == es1[oj]);
        assert(es1[oj].id == id && es1[k].id == id);
        assert(oj == k);
        assert(false);
    }
}

/// Emptying the recycle bin is idempotent: once emptied, emptying again
/// leaves the tree exactly as it is.
pub proof fn lemma_emptied_view_idempotent(t: TreeView)
    requires
        wf_tree(t),
    ensures
        emptied_view(emptied_view(t)) == emptied_view(t),
{
    if has_bin(t.groups) {
        let gs = t.groups;
        let es = t.entries;
        let bid = bin_id(gs);
        lemma_bin_index(gs);
        lemma_bin_index_unique(gs, bin_index(gs));
        assert(gs[1].id == bid);
        lemma_group_index_unique(gs, bid, 1);
        assert(bid != gs[0].id) by {
            if bid == gs[0].id {
                assert(gs[0].id == gs[1].id);
            }
        }
        let kg = prune_keep(gs, bid, true);
        let ke = prune_keep(gs, bid, false);
        lemma_prune_keep_closed(gs, bid, true);
        lemma_keep_groups(gs, kg);
        lemma_keep_entries(es, ke);
        lemma_keep_groups_bin(gs, kg);
        let t1 = emptied_view(t);
        assert(kg(bid));
        assert(has_bin(t1.groups) && bin_id(t1.groups) == bid);
        let kg1 = prune_keep(t1.groups, bid, true);
        let ke1 = prune_keep(t1.groups, bid, false);
        // every surviving group survives again
        assert forall|i: int| 0 <= i < t1.groups.len() implies kg1(#[trigger] t1.groups[i].id) by {
            let x = t1.groups[i].id;
            assert(kg(x));
            lemma_group_index_unique(t1.groups, x, i);
            assert(has_group(t1.groups, x));
            assert(has_group(gs, x));
            if x != bid {
                assert(!reach(gs, x, bid));
                lemma_keep_groups_reach(gs, kg, x, bid);
                assert(!reach(t1.groups, x, bid));
            }
        }
        // every surviving entry survives again
        assert forall|k: int| 0 <= k < t1.entries.len() implies ke1(
            #[trigger] t1.entries[k].group_id,
        ) by {
            let x = t1.entries[k].group_id;
            assert(ke(x));
            assert(!reach(gs, x, bid));
            assert(kg(x));
            let j = choose|j: int| 0 <= j < es.len() && (#[trigger] t1.entries[k]) == es[j];
            assert(has_group(gs, x));
            lemma_keep_groups_reach(gs, kg, x, bid);
            assert(!reach(t1.groups, x, bid));
        }
        let t2 = emptied_view(t1);
        assert(t2.groups == t1.groups) by {
            lemma_filter_all(t1.groups, |g: GroupView| kg1(g.id));
            assert(t2.groups == keep_groups(t1.groups, kg1));
        }
        assert(t2.entries == t1.entries) by {
            lemma_filter_all(t1.entries, |e: EntryView| ke1(e.group_id));
            assert(t2.entries == keep_entries(t1.entries, ke1));
        }
        assert(t2 =~= t1);
    }
}

} // verus!
