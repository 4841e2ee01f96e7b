use crate::item::PickerItem;
use crate::layout::{forest_rows, is_expanded, node_rows, row_matches, shows_children, toggle_of, Row, Toggle};
use vstd::prelude::*;

verus! {

/// A node whose identity has no entry in the expansion mapping renders as its
/// own line alone, with a toggle that is not in the expanded state, whether or
/// not it has children.
pub proof fn lemma_absent_entry_collapsed<Id>(item: PickerItem<Id>, expanded: Map<Id, bool>, depth: nat)
    requires
        !expanded.contains_key(item.id),
    ensures
        node_rows(item, expanded, depth) == seq![(item, depth)],
        toggle_of(item, expanded) != Toggle::Expanded,
{
    assert(node_rows(item, expanded, depth) =~= seq![(item, depth)]);
}

/// A node without children renders as its own line alone, with an inert
/// placeholder for a toggle, whatever its entry in the expansion mapping.
pub proof fn lemma_leaf_renders_alone<Id>(item: PickerItem<Id>, expanded: Map<Id, bool>, depth: nat)
    requires
        item.children@.len() == 0,
    ensures
        node_rows(item, expanded, depth) == seq![(item, depth)],
        toggle_of(item, expanded) == Toggle::Placeholder,
{
    assert(node_rows(item, expanded, depth) =~= seq![(item, depth)]);
}

/// A rendered line emits a select event only when its node is selectable and a
/// select callback is supplied; its toggle emits a toggle event exactly when
/// the node has children.
pub proof fn lemma_row_events<Id>(
    row: Row<Id>,
    entry: (PickerItem<Id>, nat),
    expanded: Map<Id, bool>,
    can_select: bool,
)
    requires
        row_matches(row, entry, expanded, can_select),
    ensures
        row.selectable <==> (entry.0.selectable && can_select),
        row.toggle != Toggle::Placeholder <==> entry.0.children@.len() > 0,
{
}

/// The first line a node renders is its own, at the depth it is rendered at.
pub proof fn lemma_node_rows_head<Id>(item: PickerItem<Id>, expanded: Map<Id, bool>, depth: nat)
    ensures
        node_rows(item, expanded, depth).len() >= 1,
        node_rows(item, expanded, depth)[0] == (item, depth),
{
}

/// Each of a sequence of siblings rendered at `depth` has a line of its own at `depth`;
/// so every root of a picker sits at depth 0.
pub proof fn lemma_siblings_at_depth<Id>(items: Seq<PickerItem<Id>>, expanded: Map<Id, bool>, depth: nat)
    ensures
        forall|i: int| 0 <= i < items.len() ==> #[trigger] forest_rows(items, expanded, depth).contains((items[i], depth)),
    decreases items.len(),
{
    if items.len() > 0 {
        let rest = items.drop_last();
        lemma_siblings_at_depth(rest, expanded, depth);
        lemma_node_rows_head(items.last(), expanded, depth);
        let f = forest_rows(rest, expanded, depth);
        let g = node_rows(items.last(), expanded, depth);
        assert(forest_rows(items, expanded, depth) == f + g);
        assert forall|i: int| 0 <= i < items.len() implies #[trigger] forest_rows(items, expanded, depth).contains((items[i], depth)) by {
            if i < items.len() - 1 {
                assert(rest[i] == items[i]);
                assert(f.contains((rest[i], depth)));
                let j = choose|j: int| 0 <= j < f.len() && f[j] == (rest[i], depth);
                assert((f + g)[j] == (items[i], depth));
            } else {
                assert((f + g)[f.len() as int] == (items[i], depth));
            }
        }
    }
}

/// When a node shows its children, each child has a line one level deeper than the node's.
pub proof fn lemma_children_one_level_deeper<Id>(item: PickerItem<Id>, expanded: Map<Id, bool>, depth: nat)
    requires
        shows_children(item, expanded),
    ensures
        forall|k: int|
            0 <= k < item.children@.len() ==> #[trigger] node_rows(item, expanded, depth).contains(
                (item.children@[k], depth + 1),
            ),
{
    lemma_siblings_at_depth(item.children@, expanded, depth + 1);
    let f = forest_rows(item.children@, expanded, depth + 1);
    assert(node_rows(item, expanded, depth) == seq![(item, depth)] + f);
    assert forall|k: int| 0 <= k < item.children@.len() implies #[trigger] node_rows(item, expanded, depth).contains(
        (item.children@[k], depth + 1),
    ) by {
        assert(f.contains((item.children@[k], depth + 1)));
        let j = choose|j: int| 0 <= j < f.len() && f[j] == (item.children@[k], depth + 1);
        assert((seq![(item, depth)] + f)[j + 1] == (item.children@[k], depth + 1));
    }
}

/// Every node of a subtree in pre-order: the node, then its children's subtrees in turn.
pub open spec fn subtree_nodes<Id>(item: PickerItem<Id>) -> Seq<PickerItem<Id>>
    decreases item,
{
    seq![item] + forest_nodes(item.children@)
}

/// Every node of a sequence of sibling subtrees, in pre-order.
pub open spec fn forest_nodes<Id>(items: Seq<PickerItem<Id>>) -> Seq<PickerItem<Id>>
    decreases items,
{
    if items.len() == 0 {
        Seq::empty()
    } else {
        forest_nodes(items.drop_last()) + subtree_nodes(items.last())
    }
}

/// The identities of a sequence of nodes.
pub open spec fn ids_of<Id>(nodes: Seq<PickerItem<Id>>) -> Seq<Id> {
    nodes.map_values(|n: PickerItem<Id>| n.id)
}

/// Identities are unique across a tree: no two nodes share one.
pub open spec fn unique_ids<Id>(items: Seq<PickerItem<Id>>) -> bool {
    ids_of(forest_nodes(items)).no_duplicates()
}

/// The expansion mapping after the host handles a toggle event for `id`.
pub open spec fn toggled<Id>(expanded: Map<Id, bool>, id: Id) -> Map<Id, bool> {
    expanded.insert(id, !is_expanded(expanded, id))
}

/// Keeps the lines whose node's identity is not among `ids`.
pub open spec fn outside_of<Id>(ids: Seq<Id>) -> spec_fn((PickerItem<Id>, nat)) -> bool {
    |e: (PickerItem<Id>, nat)| !ids.contains(e.0.id)
}

proof fn lemma_ids_of_add<Id>(a: Seq<PickerItem<Id>>, b: Seq<PickerItem<Id>>)
    ensures
        ids_of(a + b) == ids_of(a) + ids_of(b),
{
    assert(ids_of(a + b) =~= ids_of(a) + ids_of(b));
}

proof fn lemma_ids_of_contains<Id>(nodes: Seq<PickerItem<Id>>, n: PickerItem<Id>)
    requires
        nodes.contains(n),
    ensures
        ids_of(nodes).contains(n.id),
{
    let i = choose|i: int| 0 <= i < nodes.len() && nodes[i] == n;
    assert(ids_of(nodes)[i] == n.id);
}

proof fn lemma_no_dup_split<A>(a: Seq<A>, b: Seq<A>)
    requires
        (a + b).no_duplicates(),
    ensures
        a.no_duplicates(),
        b.no_duplicates(),
        forall|v: A| a.contains(v) ==> !b.contains(v),
{
    let s = a + b;
    assert forall|i: int, j: int| 0 <= i < b.len() && 0 <= j < b.len() && i != j implies b[i] != b[j] by {
        assert(s[a.len() + i] == b[i] && s[a.len() + j] == b[j]);
    }
    assert forall|i: int, j: int| 0 <= i < a.len() && 0 <= j < a.len() && i != j implies a[i] != a[j] by {
        assert(s[i] == a[i] && s[j] == a[j]);
    }
    assert forall|v: A| a.contains(v) implies !b.contains(v) by {
        let i = choose|i: int| 0 <= i < a.len() && a[i] == v;
        if b.contains(v) {
            let j = choose|j: int| 0 <= j < b.len() && b[j] == v;
            assert(s[i] == s[a.len() + j]);
        }
    }
}

proof fn lemma_filter_rejects_all<A>(s: Seq<A>, pred: spec_fn(A) -> bool)
    requires
        forall|j: int| 0 <= j < s.len() ==> !pred(s[j]),
    ensures
        s.filter(pred) == Seq::<A>::empty(),
    decreases s.len(),
{
    reveal(Seq::filter);
    if s.len() > 0 {
        lemma_filter_rejects_all(s.drop_last(), pred);
    }
    assert(s.filter(pred) =~= Seq::<A>::empty());
}

/// Each line a node renders shows a node of its subtree.
proof fn lemma_node_rows_within<Id>(item: PickerItem<Id>, expanded: Map<Id, bool>, depth: nat)
    ensures
        forall|j: int|
            0 <= j < node_rows(item, expanded, depth).len() ==> subtree_nodes(item).contains(
                #[trigger] node_rows(item, expanded, depth)[j].0,
            ),
    decreases item,
{
    let r = node_rows(item, expanded, depth);
    let f = forest_rows(item.children@, expanded, depth + 1);
    let sub = subtree_nodes(item);
    assert(sub[0] == item);
    if shows_children(item, expanded) {
        lemma_forest_rows_within(item.children@, expanded, depth + 1);
        assert forall|j: int| 0 <= j < r.len() implies sub.contains(#[trigger] r[j].0) by {
            if j > 0 {
                assert(r[j] == f[j - 1]);
                let n = forest_nodes(item.children@);
                assert(n.contains(f[j - 1].0));
                let i = choose|i: int| 0 <= i < n.len() && n[i] == f[j - 1].0;
                assert(sub[i + 1] == n[i]);
            }
        }
    }
}

/// Each line a sequence of siblings renders shows a node of their subtrees.
proof fn lemma_forest_rows_within<Id>(items: Seq<PickerItem<Id>>, expanded: Map<Id, bool>, depth: nat)
    ensures
        forall|j: int|
            0 <= j < forest_rows(items, expanded, depth).len() ==> forest_nodes(items).contains(
                #[trigger] forest_rows(items, expanded, depth)[j].0,
            ),
    decreases items,
{
    if items.len() > 0 {
        let rest = items.drop_last();
        lemma_forest_rows_within(rest, expanded, depth);
        lemma_node_rows_within(items.last(), expanded, depth);
        let f = forest_rows(rest, expanded, depth);
        let g = node_rows(items.last(), expanded, depth);
        let a = forest_nodes(rest);
        let b = subtree_nodes(items.last());
        assert forall|j: int| 0 <= j < f.len() + g.len() implies (a + b).contains(#[trigger] (f + g)[j].0) by {
            if j < f.len() {
                assert(a.contains(f[j].0));
                let i = choose|i: int| 0 <= i < a.len() && a[i] == f[j].0;
                assert((a + b)[i] == a[i]);
            } else {
                assert(b.contains(g[j - f.len()].0));
                let i = choose|i: int| 0 <= i < b.len() && b[i] == g[j - f.len()].0;
                assert((a + b)[a.len() + i] == b[i]);
            }
        }
    }
}

/// What a node renders depends only on the expansion entries of its subtree's identities.
proof fn lemma_node_rows_local<Id>(item: PickerItem<Id>, e1: Map<Id, bool>, e2: Map<Id, bool>, depth: nat)
    requires
        forall|k: Id| ids_of(subtree_nodes(item)).contains(k) ==> is_expanded(e1, k) == is_expanded(e2, k),
    ensures
        node_rows(item, e1, depth) == node_rows(item, e2, depth),
    decreases item,
{
    let ids = ids_of(subtree_nodes(item));
    lemma_ids_of_add(seq![item], forest_nodes(item.children@));
    assert(ids[0] == item.id);
    assert forall|k: Id| ids_of(forest_nodes(item.children@)).contains(k) implies is_expanded(e1, k) == is_expanded(e2, k) by {
        let c = ids_of(forest_nodes(item.children@));
        let i = choose|i: int| 0 <= i < c.len() && c[i] == k;
        assert(ids[i + 1] == k);
    }
    lemma_forest_rows_local(item.children@, e1, e2, depth + 1);
}

/// What siblings render depends only on the expansion entries of their subtrees' identities.
proof fn lemma_forest_rows_local<Id>(items: Seq<PickerItem<Id>>, e1: Map<Id, bool>, e2: Map<Id, bool>, depth: nat)
    requires
        forall|k: Id| ids_of(forest_nodes(items)).contains(k) ==> is_expanded(e1, k) == is_expanded(e2, k),
    ensures
        forest_rows(items, e1, depth) == forest_rows(items, e2, depth),
    decreases items,
{
    if items.len() > 0 {
        let a = ids_of(forest_nodes(items.drop_last()));
        let b = ids_of(subtree_nodes(items.last()));
        lemma_ids_of_add(forest_nodes(items.drop_last()), subtree_nodes(items.last()));
        assert forall|k: Id| a.contains(k) implies is_expanded(e1, k) == is_expanded(e2, k) by {
            let i = choose|i: int| 0 <= i < a.len() && a[i] == k;
            assert((a + b)[i] == k);
        }
        assert forall|k: Id| b.contains(k) implies is_expanded(e1, k) == is_expanded(e2, k) by {
            let i = choose|i: int| 0 <= i < b.len() && b[i] == k;
            assert((a + b)[a.len() + i] == k);
        }
        lemma_forest_rows_local(items.drop_last(), e1, e2, depth);
        lemma_node_rows_local(items.last(), e1, e2, depth);
    }
}

/// A node of a subtree is the root or a node below one of its children.
proof fn lemma_subtree_member<Id>(item: PickerItem<Id>, x: PickerItem<Id>)
    requires
        subtree_nodes(item).contains(x),
        x != item,
    ensures
        forest_nodes(item.children@).contains(x),
{
    let sub = subtree_nodes(item);
    let i = choose|i: int| 0 <= i < sub.len() && sub[i] == x;
    assert(sub[0] == item);
    assert(forest_nodes(item.children@)[i - 1] == x);
}

/// A subtree lies inside the pre-order of any tree that holds its root.
proof fn lemma_subtree_in_node<Id>(item: PickerItem<Id>, x: PickerItem<Id>) -> (r: (Seq<PickerItem<Id>>, Seq<PickerItem<Id>>))
    requires
        subtree_nodes(item).contains(x),
    ensures
        subtree_nodes(item) == r.0 + subtree_nodes(x) + r.1,
    decreases item,
{
    if x == item {
        assert(subtree_nodes(item) =~= Seq::<PickerItem<Id>>::empty() + subtree_nodes(x) + Seq::<PickerItem<Id>>::empty());
        (Seq::empty(), Seq::empty())
    } else {
        lemma_subtree_member(item, x);
        let (a, b) = lemma_subtree_in_forest(item.children@, x);
        assert(subtree_nodes(item) =~= (seq![item] + a) + subtree_nodes(x) + b);
        (seq![item] + a, b)
    }
}

/// A subtree lies inside the pre-order of any sequence of siblings that holds its root.
proof fn lemma_subtree_in_forest<Id>(items: Seq<PickerItem<Id>>, x: PickerItem<Id>) -> (r: (Seq<PickerItem<Id>>, Seq<PickerItem<Id>>))
    requires
        forest_nodes(items).contains(x),
    ensures
        forest_nodes(items) == r.0 + subtree_nodes(x) + r.1,
    decreases items,
{
    let rest = items.drop_last();
    let a = forest_nodes(rest);
    let b = subtree_nodes(items.last());
    let i = choose|i: int| 0 <= i < (a + b).len() && (a + b)[i] == x;
    if i < a.len() {
        assert(a[i] == x);
        let (p, q) = lemma_subtree_in_forest(rest, x);
        assert(a + b =~= p + subtree_nodes(x) + (q + b));
        (p, q + b)
    } else {
        assert(b[i - a.len()] == x);
        let (p, q) = lemma_subtree_in_node(items.last(), x);
        assert(a + b =~= (a + p) + subtree_nodes(x) + q);
        (a + p, q)
    }
}

/// Identities are unique within the subtree of any node of a tree with unique identities.
proof fn lemma_subtree_unique<Id>(items: Seq<PickerItem<Id>>, x: PickerItem<Id>)
    requires
        unique_ids(items),
        forest_nodes(items).contains(x),
    ensures
        ids_of(subtree_nodes(x)).no_duplicates(),
        !ids_of(forest_nodes(x.children@)).contains(x.id),
{
    let (a, b) = lemma_subtree_in_forest(items, x);
    lemma_ids_of_add(a + subtree_nodes(x), b);
    lemma_ids_of_add(a, subtree_nodes(x));
    lemma_no_dup_split(ids_of(a + subtree_nodes(x)), ids_of(b));
    lemma_no_dup_split(ids_of(a), ids_of(subtree_nodes(x)));
    lemma_ids_of_add(seq![x], forest_nodes(x.children@));
    assert(ids_of(seq![x]) =~= seq![x.id]);
    lemma_no_dup_split(seq![x.id], ids_of(forest_nodes(x.children@)));
    assert(seq![x.id][0] == x.id);
}

/// The identities below `x` lie among the identities of any subtree or sibling
/// sequence that holds `x`.
proof fn lemma_descendant_ids_within<Id>(nodes: Seq<PickerItem<Id>>, x: PickerItem<Id>, around: (Seq<PickerItem<Id>>, Seq<PickerItem<Id>>))
    requires
        nodes == around.0 + subtree_nodes(x) + around.1,
    ensures
        forall|k: Id| ids_of(forest_nodes(x.children@)).contains(k) ==> ids_of(nodes).contains(k),
{
    assert forall|k: Id| ids_of(forest_nodes(x.children@)).contains(k) implies ids_of(nodes).contains(k) by {
        let c = forest_nodes(x.children@);
        let i = choose|i: int| 0 <= i < ids_of(c).len() && ids_of(c)[i] == k;
        assert(subtree_nodes(x)[i + 1] == c[i]);
        assert(nodes[around.0.len() + i + 1] == c[i]);
        lemma_ids_of_contains(nodes, c[i]);
    }
}

/// Below a node that does not show its children, no descendant of it has a line
/// in the rendering of a subtree that holds it or shares no identity with it.
proof fn lemma_node_hides_below<Id>(item: PickerItem<Id>, expanded: Map<Id, bool>, x: PickerItem<Id>, depth: nat)
    requires
        ids_of(subtree_nodes(item)).no_duplicates(),
        !is_expanded(expanded, x.id),
        !ids_of(forest_nodes(x.children@)).contains(x.id),
        subtree_nodes(item).contains(x) || forall|k: Id|
            ids_of(forest_nodes(x.children@)).contains(k) ==> !ids_of(subtree_nodes(item)).contains(k),
    ensures
        forall|j: int|
            0 <= j < node_rows(item, expanded, depth).len() ==> !ids_of(forest_nodes(x.children@)).contains(
                #[trigger] node_rows(item, expanded, depth)[j].0.id,
            ),
    decreases item,
{
    let r = node_rows(item, expanded, depth);
    let d = ids_of(forest_nodes(x.children@));
    let kids = forest_nodes(item.children@);
    if item == x {
        assert(r =~= seq![(item, depth)]);
    } else if subtree_nodes(item).contains(x) {
        lemma_subtree_member(item, x);
        let w = lemma_subtree_in_forest(item.children@, x);
        lemma_descendant_ids_within(kids, x, w);
        lemma_ids_of_add(seq![item], kids);
        assert(ids_of(seq![item]) =~= seq![item.id]);
        lemma_no_dup_split(seq![item.id], ids_of(kids));
        assert(seq![item.id][0] == item.id);
        assert(seq![item.id].contains(item.id));
        assert(!ids_of(kids).contains(item.id));
        assert(!d.contains(item.id));
        if shows_children(item, expanded) {
            lemma_forest_hides_below(item.children@, expanded, x, depth + 1);
            let f = forest_rows(item.children@, expanded, depth + 1);
            assert forall|j: int| 0 <= j < r.len() implies !d.contains(#[trigger] r[j].0.id) by {
                if j > 0 {
                    assert(r[j] == f[j - 1]);
                }
            }
        } else {
            assert(r =~= seq![(item, depth)]);
        }
    } else {
        lemma_node_rows_within(item, expanded, depth);
        assert forall|j: int| 0 <= j < r.len() implies !d.contains(#[trigger] r[j].0.id) by {
            lemma_ids_of_contains(subtree_nodes(item), r[j].0);
        }
    }
}

/// Below a node that does not show its children, no descendant of it has a line
/// in the rendering of siblings that hold it or share no identity with it.
proof fn lemma_forest_hides_below<Id>(items: Seq<PickerItem<Id>>, expanded: Map<Id, bool>, x: PickerItem<Id>, depth: nat)
    requires
        unique_ids(items),
        !is_expanded(expanded, x.id),
        !ids_of(forest_nodes(x.children@)).contains(x.id),
        forest_nodes(items).contains(x) || forall|k: Id|
            ids_of(forest_nodes(x.children@)).contains(k) ==> !ids_of(forest_nodes(items)).contains(k),
    ensures
        forall|j: int|
            0 <= j < forest_rows(items, expanded, depth).len() ==> !ids_of(forest_nodes(x.children@)).contains(
                #[trigger] forest_rows(items, expanded, depth)[j].0.id,
            ),
    decreases items,
{
    if items.len() > 0 {
        let d = ids_of(forest_nodes(x.children@));
        let rest = items.drop_last();
        let last = items.last();
        let a = forest_nodes(rest);
        let b = subtree_nodes(last);
        lemma_ids_of_add(a, b);
        lemma_no_dup_split(ids_of(a), ids_of(b));
        assert forall|k: Id| ids_of(a).contains(k) implies ids_of(a + b).contains(k) by {
            let i = choose|i: int| 0 <= i < ids_of(a).len() && ids_of(a)[i] == k;
            assert(ids_of(a + b)[i] == k);
        }
        assert forall|k: Id| ids_of(b).contains(k) implies ids_of(a + b).contains(k) by {
            let i = choose|i: int| 0 <= i < ids_of(b).len() && ids_of(b)[i] == k;
            assert(ids_of(a + b)[ids_of(a).len() + i] == k);
        }
        if a.contains(x) {
            let w = lemma_subtree_in_forest(rest, x);
            lemma_descendant_ids_within(a, x, w);
        } else if b.contains(x) {
            let w = lemma_subtree_in_node(last, x);
            lemma_descendant_ids_within(b, x, w);
        } else if forest_nodes(items).contains(x) {
            assert(forest_nodes(items) == a + b);
            let i = choose|i: int| 0 <= i < (a + b).len() && (a + b)[i] == x;
            if i < a.len() {
                assert(a[i] == x);
            } else {
                assert(b[i - a.len()] == x);
            }
        }
        lemma_forest_hides_below(rest, expanded, x, depth);
        lemma_node_hides_below(last, expanded, x, depth);
        let f = forest_rows(rest, expanded, depth);
        let g = node_rows(last, expanded, depth);
        assert forall|j: int| 0 <= j < (f + g).len() implies !d.contains(#[trigger] (f + g)[j].0.id) by {
            if j >= f.len() {
                assert((f + g)[j] == g[j - f.len()]);
            }
        }
    }
}

/// In a tree with unique identities, a node whose identity has no entry in the
/// expansion mapping hides all its descendants: none of them has a line.
pub proof fn lemma_absent_entry_hides_descendants<Id>(items: Seq<PickerItem<Id>>, expanded: Map<Id, bool>, x: PickerItem<Id>)
    requires
        unique_ids(items),
        forest_nodes(items).contains(x),
        !expanded.contains_key(x.id),
    ensures
        forall|j: int|
            0 <= j < forest_rows(items, expanded, 0).len() ==> !ids_of(forest_nodes(x.children@)).contains(
                #[trigger] forest_rows(items, expanded, 0)[j].0.id,
            ),
{
    lemma_subtree_unique(items, x);
    lemma_forest_hides_below(items, expanded, x, 0);
}

/// Toggling `x` leaves every line of a node's rendering that is not below `x` as it was.
proof fn lemma_node_toggle_local<Id>(item: PickerItem<Id>, expanded: Map<Id, bool>, x: PickerItem<Id>, depth: nat)
    requires
        ids_of(subtree_nodes(item)).no_duplicates(),
        !ids_of(forest_nodes(x.children@)).contains(x.id),
        subtree_nodes(item).contains(x) || !ids_of(subtree_nodes(item)).contains(x.id),
    ensures
        node_rows(item, toggled(expanded, x.id), depth).filter(outside_of(ids_of(forest_nodes(x.children@))))
            == node_rows(item, expanded, depth).filter(outside_of(ids_of(forest_nodes(x.children@)))),
    decreases item,
{
    let k = x.id;
    let e2 = toggled(expanded, k);
    let p = outside_of(ids_of(forest_nodes(x.children@)));
    let head = seq![(item, depth)];
    let kids = forest_nodes(item.children@);
    lemma_ids_of_add(seq![item], kids);
    assert(ids_of(seq![item]) =~= seq![item.id]);
    assert(ids_of(subtree_nodes(item))[0] == item.id);
    if !ids_of(subtree_nodes(item)).contains(k) {
        assert forall|j: Id| ids_of(subtree_nodes(item)).contains(j) implies is_expanded(e2, j) == is_expanded(expanded, j) by {}
        lemma_node_rows_local(item, e2, expanded, depth);
    } else if item == x {
        let m2 = if shows_children(item, e2) { forest_rows(item.children@, e2, depth + 1) } else { Seq::empty() };
        let m1 = if shows_children(item, expanded) { forest_rows(item.children@, expanded, depth + 1) } else { Seq::empty() };
        lemma_forest_rows_within(item.children@, e2, depth + 1);
        lemma_forest_rows_within(item.children@, expanded, depth + 1);
        assert forall|j: int| 0 <= j < m2.len() implies !p(m2[j]) by {
            lemma_ids_of_contains(kids, m2[j].0);
        }
        assert forall|j: int| 0 <= j < m1.len() implies !p(m1[j]) by {
            lemma_ids_of_contains(kids, m1[j].0);
        }
        lemma_filter_rejects_all(m2, p);
        lemma_filter_rejects_all(m1, p);
        Seq::filter_distributes_over_add(head, m2, p);
        Seq::filter_distributes_over_add(head, m1, p);
    } else {
        lemma_subtree_member(item, x);
        lemma_ids_of_contains(kids, x);
        lemma_no_dup_split(seq![item.id], ids_of(kids));
        assert(seq![item.id][0] == item.id);
        assert(item.id != k);
        assert(is_expanded(e2, item.id) == is_expanded(expanded, item.id));
        lemma_forest_toggle_local(item.children@, expanded, x, depth + 1);
        let f2 = forest_rows(item.children@, e2, depth + 1);
        let f1 = forest_rows(item.children@, expanded, depth + 1);
        if shows_children(item, expanded) {
            Seq::filter_distributes_over_add(head, f2, p);
            Seq::filter_distributes_over_add(head, f1, p);
        }
    }
}

/// Toggling `x` leaves every line of siblings' rendering that is not below `x` as it was.
proof fn lemma_forest_toggle_local<Id>(items: Seq<PickerItem<Id>>, expanded: Map<Id, bool>, x: PickerItem<Id>, depth: nat)
    requires
        unique_ids(items),
        !ids_of(forest_nodes(x.children@)).contains(x.id),
        forest_nodes(items).contains(x) || !ids_of(forest_nodes(items)).contains(x.id),
    ensures
        forest_rows(items, toggled(expanded, x.id), depth).filter(outside_of(ids_of(forest_nodes(x.children@))))
            == forest_rows(items, expanded, depth).filter(outside_of(ids_of(forest_nodes(x.children@)))),
    decreases items,
{
    let k = x.id;
    let e2 = toggled(expanded, k);
    let p = outside_of(ids_of(forest_nodes(x.children@)));
    if items.len() > 0 {
        let rest = items.drop_last();
        let last = items.last();
        let a = forest_nodes(rest);
        let b = subtree_nodes(last);
        lemma_ids_of_add(a, b);
        lemma_no_dup_split(ids_of(a), ids_of(b));
        if a.contains(x) {
            lemma_ids_of_contains(a, x);
        } else if b.contains(x) {
            lemma_ids_of_contains(b, x);
        } else {
            assert forall|j: int| 0 <= j < (a + b).len() implies (a + b)[j] != x by {
                if j < a.len() {
                    assert((a + b)[j] == a[j]);
                } else {
                    assert((a + b)[j] == b[j - a.len()]);
                }
            }
            if ids_of(a).contains(k) {
                let i = choose|i: int| 0 <= i < ids_of(a).len() && ids_of(a)[i] == k;
                assert(ids_of(a + b)[i] == k);
            }
            if ids_of(b).contains(k) {
                let i = choose|i: int| 0 <= i < ids_of(b).len() && ids_of(b)[i] == k;
                assert(ids_of(a + b)[ids_of(a).len() + i] == k);
            }
        }
        lemma_forest_toggle_local(rest, expanded, x, depth);
        lemma_node_toggle_local(last, expanded, x, depth);
        Seq::filter_distributes_over_add(forest_rows(rest, e2, depth), node_rows(last, e2, depth), p);
        Seq::filter_distributes_over_add(forest_rows(rest, expanded, depth), node_rows(last, expanded, depth), p);
    }
}

/// Toggling a node of a tree with unique identities changes no line but those
/// of the nodes below it: once those are set aside, the lines left (the node's
/// own, its siblings', its ancestors' and every other node's) are the same, in
/// the same order and at the same depths.
pub proof fn lemma_toggle_is_local<Id>(items: Seq<PickerItem<Id>>, expanded: Map<Id, bool>, x: PickerItem<Id>)
    requires
        unique_ids(items),
        forest_nodes(items).contains(x),
    ensures
        forest_rows(items, toggled(expanded, x.id), 0).filter(outside_of(ids_of(forest_nodes(x.children@))))
            == forest_rows(items, expanded, 0).filter(outside_of(ids_of(forest_nodes(x.children@)))),
        outside_of(ids_of(forest_nodes(x.children@)))((x, 0)),
{
    lemma_subtree_unique(items, x);
    lemma_forest_toggle_local(items, expanded, x, 0);
}

/// Toggling a node with children of a tree with unique identities flips whether
/// its children's lines follow its own, and when they do they are the lines
/// they would be under the mapping before the toggle.
pub proof fn lemma_toggle_flips_subtree<Id>(items: Seq<PickerItem<Id>>, expanded: Map<Id, bool>, x: PickerItem<Id>, depth: nat)
    requires
        unique_ids(items),
        forest_nodes(items).contains(x),
        x.children@.len() > 0,
    ensures
        shows_children(x, toggled(expanded, x.id)) == !shows_children(x, expanded),
        node_rows(x, toggled(expanded, x.id), depth) == seq![(x, depth)] + if shows_children(x, expanded) {
            Seq::empty()
        } else {
            forest_rows(x.children@, expanded, depth + 1)
        },
{
    lemma_subtree_unique(items, x);
    let e2 = toggled(expanded, x.id);
    assert forall|j: Id| ids_of(forest_nodes(x.children@)).contains(j) implies is_expanded(e2, j) == is_expanded(expanded, j) by {}
    lemma_forest_rows_local(x.children@, e2, expanded, depth + 1);
}

} // verus!
