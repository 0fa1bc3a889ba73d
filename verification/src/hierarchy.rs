//! The hierarchy as a mathematical value: entries nested by name, what
//! placing a page does to them, and what holds of the result.

use vstd::prelude::*;

verus! {

/// What a node of the hierarchy stands for: a name, the page it links to
/// (if it is a page and not only a folder), and what is nested below it.
pub struct Entry {
    pub id: Option<u32>,
    pub name: Seq<char>,
    pub children: Seq<Entry>,
}

/// Index of the first entry of `forest` named `name`; `forest.len()` when
/// no entry has that name.
pub open spec fn position(forest: Seq<Entry>, name: Seq<char>) -> int
    decreases forest.len(),
{
    if forest.len() == 0 || forest[0].name == name {
        0
    } else {
        1 + position(forest.drop_first(), name)
    }
}

/// The forest after a page `id` was placed at `path`, one name per level.
///
/// The last name of the path claims the first sibling of that name, or is
/// added behind the siblings. Every earlier name descends into the first
/// sibling of that name, or adds a folder without a page behind them.
pub open spec fn insert(forest: Seq<Entry>, path: Seq<Seq<char>>, id: u32) -> Seq<Entry>
    decreases path.len(),
{
    if path.len() == 0 {
        forest
    } else {
        let i = position(forest, path[0]);
        let rest = path.subrange(1, path.len() as int);
        if path.len() == 1 {
            if i < forest.len() {
                forest.update(i, Entry { id: Some(id), ..forest[i] })
            } else {
                forest.push(Entry { id: Some(id), name: path[0], children: Seq::empty() })
            }
        } else {
            if i < forest.len() {
                forest.update(i, Entry { children: insert(forest[i].children, rest, id), ..forest[i] })
            } else {
                forest.push(
                    Entry { id: None, name: path[0], children: insert(Seq::empty(), rest, id) },
                )
            }
        }
    }
}

/// `i` is where `position` finds `name`: no earlier entry has the name, and
/// the entry at `i`, if there is one, has it.
pub proof fn lemma_position(forest: Seq<Entry>, name: Seq<char>, i: int)
    requires
        0 <= i <= forest.len(),
        forall|j: int| 0 <= j < i ==> forest[j].name != name,
        i < forest.len() ==> forest[i].name == name,
    ensures
        position(forest, name) == i,
    decreases forest.len(),
{
    if i > 0 {
        let tail = forest.drop_first();
        assert forall|j: int| 0 <= j < i - 1 implies tail[j].name != name by {
            assert(tail[j] == forest[j + 1]);
        }
        lemma_position(tail, name, i - 1);
    }
}

/// What `position` finds is the first entry of the name: it lies within
/// the forest or just behind it, no entry before it has the name, and the
/// entry at it, if there is one, has it.
pub proof fn lemma_position_is_first(forest: Seq<Entry>, name: Seq<char>)
    ensures
        0 <= position(forest, name) <= forest.len(),
        forall|j: int| 0 <= j < position(forest, name) ==> (#[trigger] forest[j]).name != name,
        position(forest, name) < forest.len() ==> forest[position(forest, name)].name == name,
    decreases forest.len(),
{
    if forest.len() == 0 || forest[0].name == name {
    } else {
        let tail = forest.drop_first();
        lemma_position_is_first(tail, name);
        let p = position(forest, name);
        assert forall|j: int| 0 <= j < p implies (#[trigger] forest[j]).name != name by {
            if j > 0 {
                assert(forest[j] == tail[j - 1]);
            }
        }
        if p < forest.len() {
            assert(forest[p] == tail[p - 1]);
        }
    }
}

/// No two siblings share a name, at any level of the forest.
pub open spec fn unique_names(forest: Seq<Entry>) -> bool
    decreases forest,
{
    &&& forall|i: int, j: int|
        0 <= i < j < forest.len() ==> (#[trigger] forest[i]).name != (#[trigger] forest[j]).name
    &&& forall|i: int|
        0 <= i < forest.len() ==> unique_names((#[trigger] forest[i]).children)
}

/// Placing a page keeps sibling names unique: a name that is there is
/// reused, never added a second time.
pub proof fn lemma_insert_keeps_names_unique(forest: Seq<Entry>, path: Seq<Seq<char>>, id: u32)
    requires
        unique_names(forest),
    ensures
        unique_names(insert(forest, path, id)),
    decreases path.len(),
{
    if path.len() > 0 {
        let i = position(forest, path[0]);
        let rest = path.subrange(1, path.len() as int);
        let after = insert(forest, path, id);
        lemma_position_is_first(forest, path[0]);
        if i < forest.len() {
            if path.len() > 1 {
                lemma_insert_keeps_names_unique(forest[i].children, rest, id);
            }
            assert forall|a: int, b: int| 0 <= a < b < after.len() implies (#[trigger] after[a]).name
                != (#[trigger] after[b]).name by {
                assert(after[a].name == forest[a].name);
                assert(after[b].name == forest[b].name);
            }
            assert forall|a: int| 0 <= a < after.len() implies unique_names(
                (#[trigger] after[a]).children,
            ) by {
                if a != i {
                    assert(after[a] == forest[a]);
                }
            }
        } else {
            if path.len() > 1 {
                lemma_insert_keeps_names_unique(Seq::empty(), rest, id);
            }
            assert forall|a: int, b: int| 0 <= a < b < after.len() implies (#[trigger] after[a]).name
                != (#[trigger] after[b]).name by {
                assert(after[a] == forest[a]);
                if b < forest.len() {
                    assert(after[b] == forest[b]);
                }
            }
            assert forall|a: int| 0 <= a < after.len() implies unique_names(
                (#[trigger] after[a]).children,
            ) by {
                if a < forest.len() {
                    assert(after[a] == forest[a]);
                }
            }
        }
    }
}

/// Every entry of `before` is still in `after`: at the same place among
/// its siblings, under the same name, and with all that was below it.
pub open spec fn grown_from(after: Seq<Entry>, before: Seq<Entry>) -> bool
    decreases before,
{
    &&& before.len() <= after.len()
    &&& forall|i: int|
        0 <= i < before.len() ==> (#[trigger] after[i]).name == before[i].name && grown_from(
            after[i].children,
            before[i].children,
        )
}

/// A forest holds all of its own entries.
pub proof fn lemma_grown_from_itself(forest: Seq<Entry>)
    ensures
        grown_from(forest, forest),
    decreases forest,
{
    assert forall|i: int| 0 <= i < forest.len() implies grown_from(
        (#[trigger] forest[i]).children,
        forest[i].children,
    ) by {
        lemma_grown_from_itself(forest[i].children);
    }
}

/// Placing a page moves and removes nothing: siblings keep the order in
/// which they first occurred, and a new name comes last.
pub proof fn lemma_insert_keeps_order(forest: Seq<Entry>, path: Seq<Seq<char>>, id: u32)
    ensures
        grown_from(insert(forest, path, id), forest),
        insert(forest, path, id).len() <= forest.len() + 1,
    decreases path.len(),
{
    let after = insert(forest, path, id);
    if path.len() == 0 {
        lemma_grown_from_itself(forest);
    } else {
        let i = position(forest, path[0]);
        let rest = path.subrange(1, path.len() as int);
        lemma_position_is_first(forest, path[0]);
        assert forall|k: int| 0 <= k < forest.len() implies (#[trigger] after[k]).name
            == forest[k].name && grown_from(after[k].children, forest[k].children) by {
            if k == i && path.len() > 1 {
                lemma_insert_keeps_order(forest[i].children, rest, id);
            } else {
                lemma_grown_from_itself(forest[k].children);
            }
        }
    }
}

/// The page at `path`: the id of the entry that the names of the path
/// lead to, each read as the first sibling of that name. `None` where the
/// path leads nowhere or ends at a folder that is no page.
pub open spec fn id_at(forest: Seq<Entry>, path: Seq<Seq<char>>) -> Option<u32>
    decreases path.len(),
{
    if path.len() == 0 {
        None
    } else {
        let i = position(forest, path[0]);
        if !(0 <= i < forest.len()) {
            None
        } else if path.len() == 1 {
            forest[i].id
        } else {
            id_at(forest[i].children, path.subrange(1, path.len() as int))
        }
    }
}

/// Where the first name of `path` is found once a page was placed at
/// `path`: where it was found before, or at the new last entry.
proof fn lemma_position_after_insert(forest: Seq<Entry>, path: Seq<Seq<char>>, id: u32)
    requires
        path.len() > 0,
    ensures
        position(insert(forest, path, id), path[0]) == position(forest, path[0]),
        position(forest, path[0]) < insert(forest, path, id).len(),
{
    let i = position(forest, path[0]);
    let after = insert(forest, path, id);
    lemma_position_is_first(forest, path[0]);
    assert forall|j: int| 0 <= j < i implies after[j].name != path[0] by {
        assert(after[j] == forest[j]);
    }
    lemma_position(after, path[0], i);
}

/// Where another name is found once a page was placed at `path`: where
/// it was found before, or behind the new forest if it was not found.
proof fn lemma_position_of_other_name(
    forest: Seq<Entry>,
    path: Seq<Seq<char>>,
    id: u32,
    name: Seq<char>,
)
    requires
        path.len() > 0,
        name != path[0],
    ensures
        position(forest, name) < forest.len() ==> position(insert(forest, path, id), name)
            == position(forest, name) && insert(forest, path, id)[position(forest, name)]
            == forest[position(forest, name)],
        position(forest, name) >= forest.len() ==> position(insert(forest, path, id), name)
            == insert(forest, path, id).len(),
{
    let i = position(forest, path[0]);
    let k = position(forest, name);
    let after = insert(forest, path, id);
    lemma_position_is_first(forest, path[0]);
    lemma_position_is_first(forest, name);
    if k < forest.len() {
        assert forall|j: int| 0 <= j < k implies after[j].name != name by {
            assert(after[j].name == forest[j].name);
        }
        lemma_position(after, name, k);
    } else {
        assert forall|j: int| 0 <= j < after.len() implies after[j].name != name by {
            if j < forest.len() {
                assert(after[j].name == forest[j].name);
            }
        }
        lemma_position(after, name, after.len() as int);
    }
}

/// A page is found where it was placed.
pub proof fn lemma_insert_sets_id(forest: Seq<Entry>, path: Seq<Seq<char>>, id: u32)
    requires
        path.len() > 0,
    ensures
        id_at(insert(forest, path, id), path) == Some(id),
    decreases path.len(),
{
    let i = position(forest, path[0]);
    let rest = path.subrange(1, path.len() as int);
    lemma_position_is_first(forest, path[0]);
    lemma_position_after_insert(forest, path, id);
    if path.len() > 1 {
        if i < forest.len() {
            lemma_insert_sets_id(forest[i].children, rest, id);
        } else {
            lemma_insert_sets_id(Seq::empty(), rest, id);
        }
    }
}

/// Placing a page at one path changes the page at no other path.
pub proof fn lemma_insert_keeps_other_ids(
    forest: Seq<Entry>,
    path: Seq<Seq<char>>,
    id: u32,
    other: Seq<Seq<char>>,
)
    requires
        other != path,
    ensures
        id_at(insert(forest, path, id), other) == id_at(forest, other),
    decreases path.len(),
{
    if path.len() > 0 && other.len() > 0 {
        let i = position(forest, path[0]);
        let rest = path.subrange(1, path.len() as int);
        let other_rest = other.subrange(1, other.len() as int);
        lemma_position_is_first(forest, path[0]);
        if other[0] == path[0] {
            lemma_position_after_insert(forest, path, id);
            if path.len() == 1 && other.len() == 1 {
                assert(other =~= path);
            }
            if path.len() > 1 && other.len() > 1 {
                if other_rest == rest {
                    assert(other =~= path) by {
                        assert(other.len() == other_rest.len() + 1);
                        assert(path.len() == rest.len() + 1);
                        assert forall|k: int| 0 <= k < other.len() implies other[k] == path[k] by {
                            if k > 0 {
                                assert(other[k] == other_rest[k - 1]);
                                assert(path[k] == rest[k - 1]);
                            }
                        }
                    }
                }
                if i < forest.len() {
                    lemma_insert_keeps_other_ids(forest[i].children, rest, id, other_rest);
                } else {
                    lemma_insert_keeps_other_ids(Seq::empty(), rest, id, other_rest);
                }
            }
        } else {
            lemma_position_of_other_name(forest, path, id, other[0]);
        }
    }
}

/// One if `found` is the page `id`, zero otherwise.
pub open spec fn hit(found: Option<u32>, id: u32) -> nat {
    if found == Some(id) {
        1
    } else {
        0
    }
}

/// How many entries of the forest, at any level, are the page `id`.
pub open spec fn count_id(forest: Seq<Entry>, id: u32) -> nat
    decreases forest,
{
    if forest.len() == 0 {
        0
    } else {
        count_id(forest.drop_last(), id) + entry_count(forest.last(), id)
    }
}

/// How many entries are the page `id` among `e` and all below it.
pub open spec fn entry_count(e: Entry, id: u32) -> nat
    decreases e,
{
    hit(e.id, id) + count_id(e.children, id)
}

/// An entry added behind a forest adds its own count.
proof fn lemma_count_push(forest: Seq<Entry>, e: Entry, id: u32)
    ensures
        count_id(forest.push(e), id) == count_id(forest, id) + entry_count(e, id),
{
    assert(forest.push(e).drop_last() =~= forest);
}

/// An entry put in place of another exchanges their counts.
proof fn lemma_count_update(forest: Seq<Entry>, i: int, e: Entry, id: u32)
    requires
        0 <= i < forest.len(),
    ensures
        count_id(forest.update(i, e), id) + entry_count(forest[i], id) == count_id(forest, id)
            + entry_count(e, id),
    decreases forest.len(),
{
    let after = forest.update(i, e);
    if i == forest.len() - 1 {
        assert(after.drop_last() =~= forest.drop_last());
    } else {
        assert(after.drop_last() =~= forest.drop_last().update(i, e));
        lemma_count_update(forest.drop_last(), i, e, id);
    }
}

/// Placing a page adds one entry for its id and takes away the one of the
/// page that was at the path before, if there was one. All other entries
/// stay what they were.
pub proof fn lemma_insert_counts(forest: Seq<Entry>, path: Seq<Seq<char>>, id: u32, counted: u32)
    requires
        path.len() > 0,
    ensures
        count_id(insert(forest, path, id), counted) + hit(id_at(forest, path), counted)
            == count_id(forest, counted) + hit(Some(id), counted),
    decreases path.len(),
{
    let i = position(forest, path[0]);
    let rest = path.subrange(1, path.len() as int);
    lemma_position_is_first(forest, path[0]);
    if i < forest.len() {
        if path.len() == 1 {
            lemma_count_update(forest, i, Entry { id: Some(id), ..forest[i] }, counted);
        } else {
            lemma_insert_counts(forest[i].children, rest, id, counted);
            lemma_count_update(
                forest,
                i,
                Entry { children: insert(forest[i].children, rest, id), ..forest[i] },
                counted,
            );
        }
    } else {
        if path.len() == 1 {
            lemma_count_push(
                forest,
                Entry { id: Some(id), name: path[0], children: Seq::empty() },
                counted,
            );
        } else {
            lemma_insert_counts(Seq::empty(), rest, id, counted);
            lemma_count_push(
                forest,
                Entry { id: None, name: path[0], children: insert(Seq::empty(), rest, id) },
                counted,
            );
        }
    }
}

} // verus!
