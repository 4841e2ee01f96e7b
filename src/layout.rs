use crate::item::PickerItem;
use std::collections::HashMap;
use std::hash::Hash;
use vstd::prelude::*;
use vstd::std_specs::hash::obeys_key_model;

verus! {

broadcast use vstd::std_specs::hash::group_hash_axioms;

/// The control at the head of a row.
#[derive(Debug, Clone, Copy, PartialEq, Eq, Structural)]
pub enum Toggle {
    /// The node has children and shows them; pressing the control emits a toggle event.
    Expanded,
    /// The node has children and hides them; pressing the control emits a toggle event.
    Collapsed,
    /// The node has no children: an inert, transparent spacer of the same footprint.
    Placeholder,
}

impl Toggle {
    /// Whether pressing the control emits a toggle event.
    pub fn is_pressable(&self) -> (r: bool)
        ensures
            r == !(*self is Placeholder),
    {
        match self {
            Toggle::Placeholder => false,
            _ => true,
        }
    }

    /// The glyph the control draws: a down-pointing triangle when expanded, a
    /// right-pointing one otherwise (a placeholder draws it transparent).
    pub fn glyph(&self) -> (r: &'static str)
        ensures
            *self is Expanded ==> r@ == "\u{25BC}"@,
            !(*self is Expanded) ==> r@ == "\u{25B6}"@,
    {
        proof {
            reveal_strlit("\u{25BC}");
            reveal_strlit("\u{25B6}");
        }
        match self {
            Toggle::Expanded => "\u{25BC}",
            _ => "\u{25B6}",
        }
    }
}

/// One rendered line of the picker: the node it shows, its nesting depth (the
/// indentation is `depth` times the indent size), its toggle control, and
/// whether the line is wrapped in a control that emits a select event.
#[derive(Debug)]
pub struct Row<'a, Id> {
    pub item: &'a PickerItem<Id>,
    pub depth: usize,
    pub toggle: Toggle,
    pub selectable: bool,
}

/// Whether the expansion mapping marks `id` as expanded; an absent entry means collapsed.
pub open spec fn is_expanded<Id>(expanded: Map<Id, bool>, id: Id) -> bool {
    expanded.contains_key(id) && expanded[id]
}

/// Whether a node's children are rendered below it.
pub open spec fn shows_children<Id>(item: PickerItem<Id>, expanded: Map<Id, bool>) -> bool {
    item.children@.len() > 0 && is_expanded(expanded, item.id)
}

/// The toggle control a node gets.
pub open spec fn toggle_of<Id>(item: PickerItem<Id>, expanded: Map<Id, bool>) -> Toggle {
    if item.children@.len() == 0 {
        Toggle::Placeholder
    } else if is_expanded(expanded, item.id) {
        Toggle::Expanded
    } else {
        Toggle::Collapsed
    }
}

/// The lines a node renders, top to bottom, as (node, depth) pairs: the node
/// itself, then, when it shows its children, each child's lines one level deeper.
pub open spec fn node_rows<Id>(item: PickerItem<Id>, expanded: Map<Id, bool>, depth: nat) -> Seq<
    (PickerItem<Id>, nat),
>
    decreases item,
{
    seq![(item, depth)] + if shows_children(item, expanded) {
        forest_rows(item.children@, expanded, depth + 1)
    } else {
        Seq::empty()
    }
}

/// The lines a sequence of sibling nodes renders, each node's lines in turn.
pub open spec fn forest_rows<Id>(items: Seq<PickerItem<Id>>, expanded: Map<Id, bool>, depth: nat) -> Seq<
    (PickerItem<Id>, nat),
>
    decreases items,
{
    if items.len() == 0 {
        Seq::empty()
    } else {
        forest_rows(items.drop_last(), expanded, depth) + node_rows(items.last(), expanded, depth)
    }
}

/// A rendered line agrees with the (node, depth) pair it stands for.
pub open spec fn row_matches<Id>(
    row: Row<Id>,
    entry: (PickerItem<Id>, nat),
    expanded: Map<Id, bool>,
    can_select: bool,
) -> bool {
    &&& *row.item == entry.0
    &&& row.depth == entry.1
    &&& row.toggle == toggle_of(entry.0, expanded)
    &&& row.selectable == (entry.0.selectable && can_select)
}

/// `rows`, from position `start` on, are exactly the lines `expected`.
pub open spec fn rows_from<Id>(
    rows: Seq<Row<Id>>,
    start: int,
    expected: Seq<(PickerItem<Id>, nat)>,
    expanded: Map<Id, bool>,
    can_select: bool,
) -> bool {
    &&& rows.len() == start + expected.len()
    &&& forall|j: int|
        0 <= j < expected.len() ==> #[trigger] row_matches(rows[start + j], expected[j], expanded, can_select)
}

/// Appends to `rows` the lines of `item` at `depth`.
fn push_node_rows<'a, Id: Eq + Hash>(
    item: &'a PickerItem<Id>,
    expanded: &HashMap<Id, bool>,
    can_select: bool,
    depth: usize,
    rows: &mut Vec<Row<'a, Id>>,
)
    requires
        obeys_key_model::<Id>(),
        // every ancestor's line is already in `rows`, so `depth + 1` cannot overflow
        depth <= old(rows)@.len(),
    ensures
        forall|i: int| 0 <= i < old(rows)@.len() ==> final(rows)@[i] == old(rows)@[i],
        rows_from(final(rows)@, old(rows)@.len() as int, node_rows(*item, expanded@, depth as nat), expanded@, can_select),
    decreases item,
{
    let ghost start: int = rows@.len() as int;
    let is_expanded = match expanded.get(&item.id) {
        Some(b) => *b,
        None => false,
    };
    let has_children = item.children.len() > 0;
    let toggle = if !has_children {
        Toggle::Placeholder
    } else if is_expanded {
        Toggle::Expanded
    } else {
        Toggle::Collapsed
    };
    rows.push(Row { item, depth, toggle, selectable: item.selectable && can_select });
    let ghost exp = expanded@;
    let ghost d = depth as nat;
    if has_children && is_expanded {
        let n = item.children.len();
        let mut i: usize = 0;
        while i < n
            invariant
                n == item.children@.len(),
                i <= n,
                obeys_key_model::<Id>(),
                shows_children(*item, exp),
                exp == expanded@,
                start == old(rows)@.len(),
                start < rows@.len(),
                depth < rows@.len(),
                forall|k: int| 0 <= k < start ==> rows@[k] == old(rows)@[k],
                row_matches(rows@[start as int], (*item, d), exp, can_select),
                rows_from(rows@, start + 1, forest_rows(item.children@.take(i as int), exp, (depth + 1) as nat), exp, can_select),
            decreases n - i,
        {
            let ghost before = rows@;
            let len = rows.len();
            assert(depth < len);
            assert(decreases_to!(item => item.children@[i as int]));
            push_node_rows(&item.children[i], expanded, can_select, depth + 1, rows);
            proof {
                let s = item.children@.take(i as int + 1);
                assert(s.drop_last() =~= item.children@.take(i as int));
                assert(s.last() == item.children@[i as int]);
                let f = forest_rows(item.children@.take(i as int), exp, (depth + 1) as nat);
                let g = node_rows(item.children@[i as int], exp, (depth + 1) as nat);
                assert(before.len() == old(rows)@.len() + 1 + f.len());
                assert(rows_from(rows@, before.len() as int, g, exp, can_select));
                assert(forest_rows(s, exp, (depth + 1) as nat) == f + g);
                assert forall|j: int| 0 <= j < f.len() + g.len() implies #[trigger] row_matches(
                    rows@[start + 1 + j],
                    (f + g)[j],
                    exp,
                    can_select,
                ) by {
                    if j < f.len() {
                        assert(row_matches(before[start + 1 + j], f[j], exp, can_select));
                    } else {
                        let k = j - f.len();
                        assert(rows_from(rows@, before.len() as int, g, exp, can_select));
                        assert(row_matches(rows@[before.len() + k], g[k], exp, can_select));
                    }
                }
            }
            i = i + 1;
        }
        proof {
            assert(item.children@.take(n as int) =~= item.children@);
        }
    }
    proof {
        let e = node_rows(*item, exp, d);
        assert forall|j: int| 0 <= j < e.len() implies #[trigger] row_matches(
            rows@[start + j],
            e[j],
            exp,
            can_select,
        ) by {
            if j > 0 {
                assert(row_matches(rows@[start + 1 + (j - 1)], e[j], exp, can_select));
            }
        }
    }
}

/// The lines a picker over `items` shows: each root at depth 0, and below each
/// node whose entry in `expanded` is true and that has children, those children
/// one level deeper. `can_select` says whether a select callback is supplied.
/// Identities must compare and hash consistently.
pub fn visible_rows<'a, Id: Eq + Hash>(
    items: &'a [PickerItem<Id>],
    expanded: &HashMap<Id, bool>,
    can_select: bool,
) -> (rows: Vec<Row<'a, Id>>)
    requires
        obeys_key_model::<Id>(),
    ensures
        rows_from(rows@, 0, forest_rows(items@, expanded@, 0), expanded@, can_select),
{
    let mut rows: Vec<Row<'a, Id>> = Vec::new();
    let n = items.len();
    let mut i: usize = 0;
    while i < n
        invariant
            n == items@.len(),
            i <= n,
            obeys_key_model::<Id>(),
            rows_from(rows@, 0, forest_rows(items@.take(i as int), expanded@, 0), expanded@, can_select),
        decreases n - i,
    {
        let ghost before = rows@;
        push_node_rows(&items[i], expanded, can_select, 0, &mut rows);
        proof {
            let s = items@.take(i as int + 1);
            assert(s.drop_last() =~= items@.take(i as int));
            let f = forest_rows(items@.take(i as int), expanded@, 0);
            let g = node_rows(items@[i as int], expanded@, 0);
            assert(forest_rows(s, expanded@, 0) == f + g);
            assert forall|j: int| 0 <= j < f.len() + g.len() implies #[trigger] row_matches(
                rows@[0 + j],
                (f + g)[j],
                expanded@,
                can_select,
            ) by {
                if j < f.len() {
                    assert(row_matches(before[0 + j], f[j], expanded@, can_select));
                } else {
                    let k = j - f.len();
                    assert(rows_from(rows@, before.len() as int, g, expanded@, can_select));
                    assert(row_matches(rows@[before.len() + k], g[k], expanded@, can_select));
                }
            }
        }
        i = i + 1;
    }
    proof {
        assert(items@.take(n as int) =~= items@);
    }
    rows
}

} // verus!
