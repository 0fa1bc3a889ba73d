//! The table of contents: page names nested by their `/`-separated
//! components, and the text that lists them.

use vstd::prelude::*;
use vstd::slice::slice_subrange;
use vstd::string::*;
use crate::api::PageInfo;
use crate::convert::page_file;
use crate::hierarchy::{
    count_id, entry_count, hit, id_at, insert, lemma_insert_counts, lemma_insert_keeps_names_unique,
    lemma_insert_keeps_other_ids, lemma_insert_sets_id, lemma_position, position, unique_names,
    Entry,
};
use crate::text::{
    append_decimal, lemma_split_is_injective, lemma_split_joins, split, split_at_char,
    views,
};

verus! {

/// A node of the hierarchy. `name` is one component of a page name; `id`
/// is present when a page has exactly the path that leads to this node.
pub struct Node {
    pub id: Option<u32>,
    pub name: String,
    pub children: Vec<Node>,
}

impl Node {
    /// The entry that this node stands for.
    pub open spec fn model(&self) -> Entry
        decreases self,
    {
        Entry { id: self.id, name: self.name@, children: forest_model(self.children@) }
    }
}

/// The entries that a list of sibling nodes stands for.
pub open spec fn forest_model(nodes: Seq<Node>) -> Seq<Entry>
    decreases nodes,
{
    Seq::new(
        nodes.len(),
        |i: int|
            if 0 <= i < nodes.len() {
                nodes[i].model()
            } else {
                arbitrary()
            },
    )
}

/// Index of the first node named `name`, or `tree.len()` when there is none.
fn find_node(tree: &Vec<Node>, name: &String) -> (i: usize)
    ensures
        i == position(forest_model(tree@), name@),
        i <= tree.len(),
{
    let mut i: usize = 0;
    while i < tree.len()
        invariant
            i <= tree.len(),
            forall|j: int| 0 <= j < i ==> tree@[j].name@ != name@,
        ensures
            i < tree.len() ==> tree@[i as int].name@ == name@,
        decreases tree.len() - i,
    {
        if tree[i].name == *name {
            break;
        }
        i += 1;
    }
    proof {
        lemma_position(forest_model(tree@), name@, i as int);
    }
    i
}

/// Places `page` in `tree` at the path that `components` spell out.
///
/// Nothing happens on an empty path. Otherwise the nodes along the path
/// are reused where they exist and added, behind their siblings, where
/// they do not; the node at the end of the path takes the page's id.
pub fn build_tree(tree: &mut Vec<Node>, page: &PageInfo, components: &[&str])
    ensures
        forest_model(final(tree)@) == insert(
            forest_model(old(tree)@),
            views(components@),
            page.id,
        ),
        unique_names(forest_model(old(tree)@)) ==> unique_names(forest_model(final(tree)@)),
    decreases components.len(),
{
    proof {
        if unique_names(forest_model(tree@)) {
            lemma_insert_keeps_names_unique(forest_model(tree@), views(components@), page.id);
        }
    }
    if components.len() == 0 {
        return ;
    }
    let ghost before = forest_model(tree@);
    let ghost path = views(components@);
    let name = String::from_str(components[0]);
    let i = find_node(tree, &name);
    assert(path[0] == name@);
    if components.len() == 1 {
        if i < tree.len() {
            tree[i].id = Some(page.id);
            assert(forest_model(tree@) =~= before.update(
                i as int,
                Entry { id: Some(page.id), ..before[i as int] },
            ));
        } else {
            assert(forest_model(Seq::<Node>::empty()) =~= Seq::<Entry>::empty());
            tree.push(Node { id: Some(page.id), name, children: Vec::new() });
            assert(forest_model(tree@) =~= before.push(
                Entry { id: Some(page.id), name: path[0], children: Seq::empty() },
            ));
        }
    } else {
        let rest = slice_subrange(components, 1, components.len());
        assert(views(rest@) =~= path.subrange(1, path.len() as int));
        if i < tree.len() {
            build_tree(&mut tree[i].children, page, rest);
            assert(forest_model(tree@) =~= before.update(
                i as int,
                Entry {
                    children: insert(before[i as int].children, views(rest@), page.id),
                    ..before[i as int]
                },
            ));
        } else {
            let mut nodes: Vec<Node> = Vec::new();
            build_tree(&mut nodes, page, rest);
            assert(forest_model(Seq::<Node>::empty()) =~= Seq::<Entry>::empty());
            tree.push(Node { id: None, name, children: nodes });
            assert(forest_model(tree@) =~= before.push(
                Entry {
                    id: None,
                    name: path[0],
                    children: insert(Seq::empty(), views(rest@), page.id),
                },
            ));
        }
    }
}

/// The forest that a list of pages gives: each page placed in turn, in the
/// order of the list, at the path that its name spells with `/`.
pub open spec fn forest_of(pages: Seq<PageInfo>) -> Seq<Entry>
    decreases pages.len(),
{
    if pages.len() == 0 {
        Seq::empty()
    } else {
        insert(forest_of(pages.drop_last()), split(pages.last().name@, '/'), pages.last().id)
    }
}

/// The id of the last page of the list whose name is `name`, if any page
/// has that name.
pub open spec fn page_named(pages: Seq<PageInfo>, name: Seq<char>) -> Option<u32>
    decreases pages.len(),
{
    if pages.len() == 0 {
        None
    } else if pages.last().name@ == name {
        Some(pages.last().id)
    } else {
        page_named(pages.drop_last(), name)
    }
}

/// How many pages of the list have the id `id`.
pub open spec fn occurrences(pages: Seq<PageInfo>, id: u32) -> nat
    decreases pages.len(),
{
    if pages.len() == 0 {
        0
    } else {
        occurrences(pages.drop_last(), id) + hit(Some(pages.last().id), id)
    }
}

/// No two pages of the list have the same name.
pub open spec fn distinct_names(pages: Seq<PageInfo>) -> bool {
    forall|i: int, j: int|
        0 <= i < j < pages.len() ==> (#[trigger] pages[i]).name@ != (#[trigger] pages[j]).name@
}

/// No two pages of the list have the same id.
pub open spec fn distinct_ids(pages: Seq<PageInfo>) -> bool {
    forall|i: int, j: int|
        0 <= i < j < pages.len() ==> (#[trigger] pages[i]).id != (#[trigger] pages[j]).id
}

/// In the forest of any list of pages no two siblings share a name.
pub proof fn lemma_forest_has_unique_names(pages: Seq<PageInfo>)
    ensures
        unique_names(forest_of(pages)),
    decreases pages.len(),
{
    if pages.len() > 0 {
        lemma_forest_has_unique_names(pages.drop_last());
        lemma_insert_keeps_names_unique(
            forest_of(pages.drop_last()),
            split(pages.last().name@, '/'),
            pages.last().id,
        );
    }
}

/// Where pages share a name the last of them wins: the path that a name
/// spells leads to the id of the last page of that name, and to no page
/// if no page has the name.
pub proof fn lemma_last_page_wins(pages: Seq<PageInfo>, name: Seq<char>)
    ensures
        id_at(forest_of(pages), split(name, '/')) == page_named(pages, name),
    decreases pages.len(),
{
    let path = split(name, '/');
    lemma_split_joins(name, '/');
    if pages.len() > 0 {
        let before = forest_of(pages.drop_last());
        let last = pages.last();
        let placed = split(last.name@, '/');
        lemma_split_joins(last.name@, '/');
        if last.name@ == name {
            lemma_insert_sets_id(before, placed, last.id);
        } else {
            if placed == path {
                lemma_split_is_injective(last.name@, name, '/');
            }
            lemma_insert_keeps_other_ids(before, placed, last.id, path);
            lemma_last_page_wins(pages.drop_last(), name);
        }
    }
}

/// A name that no page has is the name of no page.
proof fn lemma_unused_name(pages: Seq<PageInfo>, name: Seq<char>)
    requires
        forall|i: int| 0 <= i < pages.len() ==> (#[trigger] pages[i]).name@ != name,
    ensures
        page_named(pages, name) is None,
    decreases pages.len(),
{
    if pages.len() > 0 {
        let prev = pages.drop_last();
        assert(pages.last() == pages[pages.len() - 1]);
        assert forall|i: int| 0 <= i < prev.len() implies (#[trigger] prev[i]).name@ != name by {
            assert(prev[i] == pages[i]);
        }
        lemma_unused_name(prev, name);
    }
}

/// Where all names differ, the forest holds each id as often as the list
/// of pages does: no page is lost and none is listed twice.
pub proof fn lemma_forest_counts_pages(pages: Seq<PageInfo>, id: u32)
    requires
        distinct_names(pages),
    ensures
        count_id(forest_of(pages), id) == occurrences(pages, id),
    decreases pages.len(),
{
    if pages.len() > 0 {
        let prev = pages.drop_last();
        let last = pages.last();
        assert(last == pages[pages.len() - 1]);
        assert forall|i: int, j: int| 0 <= i < j < prev.len() implies (#[trigger] prev[i]).name@
            != (#[trigger] prev[j]).name@ by {
            assert(prev[i] == pages[i]);
            assert(prev[j] == pages[j]);
        }
        assert forall|i: int| 0 <= i < prev.len() implies (#[trigger] prev[i]).name@
            != last.name@ by {
            assert(prev[i] == pages[i]);
        }
        lemma_forest_counts_pages(prev, id);
        lemma_unused_name(prev, last.name@);
        lemma_last_page_wins(prev, last.name@);
        lemma_split_joins(last.name@, '/');
        lemma_insert_counts(forest_of(prev), split(last.name@, '/'), last.id, id);
    }
}

/// An id that no page has occurs in no list position.
proof fn lemma_unused_id(pages: Seq<PageInfo>, id: u32)
    requires
        forall|i: int| 0 <= i < pages.len() ==> (#[trigger] pages[i]).id != id,
    ensures
        occurrences(pages, id) == 0,
    decreases pages.len(),
{
    if pages.len() > 0 {
        let prev = pages.drop_last();
        assert(pages.last() == pages[pages.len() - 1]);
        assert forall|i: int| 0 <= i < prev.len() implies (#[trigger] prev[i]).id != id by {
            assert(prev[i] == pages[i]);
        }
        lemma_unused_id(prev, id);
    }
}

/// Where all ids differ, the page at index `at` is the only one of its id.
proof fn lemma_single_occurrence(pages: Seq<PageInfo>, at: int)
    requires
        distinct_ids(pages),
        0 <= at < pages.len(),
    ensures
        occurrences(pages, pages[at].id) == 1,
    decreases pages.len(),
{
    let prev = pages.drop_last();
    assert(pages.last() == pages[pages.len() - 1]);
    if at == pages.len() - 1 {
        assert forall|i: int| 0 <= i < prev.len() implies (#[trigger] prev[i]).id
            != pages[at].id by {
            assert(prev[i] == pages[i]);
        }
        lemma_unused_id(prev, pages[at].id);
    } else {
        assert forall|i: int, j: int| 0 <= i < j < prev.len() implies (#[trigger] prev[i]).id
            != (#[trigger] prev[j]).id by {
            assert(prev[i] == pages[i]);
            assert(prev[j] == pages[j]);
        }
        assert(prev[at] == pages[at]);
        lemma_single_occurrence(prev, at);
    }
}

/// Where all names and all ids differ, every page is in the forest exactly
/// once, and an id that no page has is in it nowhere.
pub proof fn lemma_every_page_once(pages: Seq<PageInfo>, id: u32)
    requires
        distinct_names(pages),
        distinct_ids(pages),
    ensures
        (exists|i: int| 0 <= i < pages.len() && (#[trigger] pages[i]).id == id) ==> count_id(
            forest_of(pages),
            id,
        ) == 1,
        (forall|i: int| 0 <= i < pages.len() ==> (#[trigger] pages[i]).id != id) ==> count_id(
            forest_of(pages),
            id,
        ) == 0,
{
    lemma_forest_counts_pages(pages, id);
    if exists|i: int| 0 <= i < pages.len() && (#[trigger] pages[i]).id == id {
        let at = choose|i: int| 0 <= i < pages.len() && (#[trigger] pages[i]).id == id;
        lemma_single_occurrence(pages, at);
    } else {
        lemma_unused_id(pages, id);
    }
}

/// The hierarchy of `pages`.
pub fn build_forest(pages: &Vec<PageInfo>) -> (tree: Vec<Node>)
    ensures
        forest_model(tree@) == forest_of(pages@),
        unique_names(forest_model(tree@)),
{
    proof {
        lemma_forest_has_unique_names(pages@);
    }
    let mut tree: Vec<Node> = Vec::new();
    assert(forest_model(tree@) =~= Seq::<Entry>::empty());
    let mut i: usize = 0;
    while i < pages.len()
        invariant
            i <= pages.len(),
            forest_model(tree@) == forest_of(pages@.take(i as int)),
        decreases pages.len() - i,
    {
        let page = &pages[i];
        let components = split_at_char(page.name.as_str(), '/');
        build_tree(&mut tree, page, components.as_slice());
        proof {
            assert(pages@.take(i + 1).drop_last() =~= pages@.take(i as int));
        }
        i += 1;
    }
    assert(pages@.take(i as int) =~= pages@);
    tree
}

/// Two spaces for each level of nesting.
pub open spec fn indent(level: nat) -> Seq<char>
    decreases level,
{
    if level == 0 {
        Seq::empty()
    } else {
        indent((level - 1) as nat) + "  "@
    }
}

/// Where the line of an entry links to: the page's file, or nowhere for
/// a folder that is no page.
pub open spec fn link_target(id: Option<u32>) -> Seq<char> {
    match id {
        Some(id) => page_file(id),
        None => Seq::empty(),
    }
}

/// The line of one entry behind the margin of its level.
pub open spec fn entry_line(e: Entry, margin: Seq<char>) -> Seq<char> {
    margin + "- ["@ + e.name + "]("@ + link_target(e.id) + ")\n"@
}

/// The lines of an entry and of all below it: its own line first, then
/// its children in their order, two spaces further in.
pub open spec fn entry_text(e: Entry, margin: Seq<char>) -> Seq<char>
    decreases e,
{
    entry_line(e, margin) + forest_text(e.children, margin + "  "@)
}

/// The lines of the entries of a forest, in their order.
pub open spec fn forest_text(forest: Seq<Entry>, margin: Seq<char>) -> Seq<char>
    decreases forest,
{
    if forest.len() == 0 {
        Seq::empty()
    } else {
        forest_text(forest.drop_last(), margin) + entry_text(forest.last(), margin)
    }
}

/// The whole table of contents: the heading, an empty line, and the
/// lines of the forest from the left edge.
pub open spec fn summary_text(forest: Seq<Entry>) -> Seq<char> {
    "# SUMMARY\n\n"@ + forest_text(forest, Seq::empty())
}

/// One line of the table of contents: how deep it is nested, the name it
/// shows and the page it links to.
pub struct Row {
    pub depth: nat,
    pub name: Seq<char>,
    pub id: Option<u32>,
}

/// The lines of a forest from top to bottom: every entry once, before
/// what is nested in it, and siblings in their order.
pub open spec fn rows(forest: Seq<Entry>, depth: nat) -> Seq<Row>
    decreases forest,
{
    if forest.len() == 0 {
        Seq::empty()
    } else {
        rows(forest.drop_last(), depth) + entry_rows(forest.last(), depth)
    }
}

/// The line of an entry, then the lines of what is nested in it, one
/// level deeper.
pub open spec fn entry_rows(e: Entry, depth: nat) -> Seq<Row>
    decreases e,
{
    seq![Row { depth, name: e.name, id: e.id }] + rows(e.children, depth + 1)
}

/// The text of one line.
pub open spec fn row_text(row: Row) -> Seq<char> {
    indent(row.depth) + "- ["@ + row.name + "]("@ + link_target(row.id) + ")\n"@
}

/// The texts of the lines, one behind the other.
pub open spec fn rows_text(lines: Seq<Row>) -> Seq<char>
    decreases lines.len(),
{
    if lines.len() == 0 {
        Seq::empty()
    } else {
        rows_text(lines.drop_last()) + row_text(lines.last())
    }
}

/// How many of the lines link to the page `id`.
pub open spec fn links_to(lines: Seq<Row>, id: u32) -> nat
    decreases lines.len(),
{
    if lines.len() == 0 {
        0
    } else {
        links_to(lines.drop_last(), id) + hit(lines.last().id, id)
    }
}

/// The text and the links of two runs of lines add up.
proof fn lemma_rows_concat(a: Seq<Row>, b: Seq<Row>, id: u32)
    ensures
        rows_text(a + b) == rows_text(a) + rows_text(b),
        links_to(a + b, id) == links_to(a, id) + links_to(b, id),
    decreases b.len(),
{
    if b.len() == 0 {
        assert(a + b =~= a);
        assert(rows_text(a) + rows_text(b) =~= rows_text(a));
    } else {
        assert((a + b).drop_last() =~= a + b.drop_last());
        assert((a + b).last() == b.last());
        lemma_rows_concat(a, b.drop_last(), id);
        assert(rows_text(a + b) =~= rows_text(a) + rows_text(b));
    }
}

/// The table of contents has one line for each entry of the forest, in
/// the order of `rows`, indented by two spaces for each level; and as
/// many of them link to a page as the forest has entries for it.
pub proof fn lemma_text_follows_rows(forest: Seq<Entry>, depth: nat, id: u32)
    ensures
        forest_text(forest, indent(depth)) == rows_text(rows(forest, depth)),
        links_to(rows(forest, depth), id) == count_id(forest, id),
    decreases forest,
{
    if forest.len() > 0 {
        lemma_text_follows_rows(forest.drop_last(), depth, id);
        lemma_entry_text_follows_rows(forest.last(), depth, id);
        lemma_rows_concat(rows(forest.drop_last(), depth), entry_rows(forest.last(), depth), id);
    }
}

/// The same for one entry and what is nested in it.
pub proof fn lemma_entry_text_follows_rows(e: Entry, depth: nat, id: u32)
    ensures
        entry_text(e, indent(depth)) == rows_text(entry_rows(e, depth)),
        links_to(entry_rows(e, depth), id) == entry_count(e, id),
    decreases e,
{
    let first = seq![Row { depth, name: e.name, id: e.id }];
    lemma_text_follows_rows(e.children, depth + 1, id);
    lemma_rows_concat(first, rows(e.children, depth + 1), id);
    assert(first.drop_last() =~= Seq::<Row>::empty());
    assert(rows_text(first.drop_last()) =~= Seq::<char>::empty());
    assert(links_to(first.drop_last(), id) == 0);
    assert(rows_text(first) =~= row_text(first.last()));
    assert(indent(depth + 1) == indent(depth) + "  "@) by {
        assert((depth + 1 - 1) as nat == depth);
    }
    assert(links_to(first, id) == hit(e.id, id));
}

/// Where all names and all ids differ, exactly one line of the table of
/// contents links to each page, and no line links to anything else.
pub proof fn lemma_every_page_has_one_line(pages: Seq<PageInfo>, id: u32)
    requires
        distinct_names(pages),
        distinct_ids(pages),
    ensures
        summary_text(forest_of(pages)) == "# SUMMARY\n\n"@ + rows_text(rows(forest_of(pages), 0)),
        (exists|i: int| 0 <= i < pages.len() && (#[trigger] pages[i]).id == id) ==> links_to(
            rows(forest_of(pages), 0),
            id,
        ) == 1,
        (forall|i: int| 0 <= i < pages.len() ==> (#[trigger] pages[i]).id != id) ==> links_to(
            rows(forest_of(pages), 0),
            id,
        ) == 0,
{
    lemma_every_page_once(pages, id);
    lemma_text_follows_rows(forest_of(pages), 0, id);
}

/// The table of contents is determined by the ids and the names of the
/// pages in their order: two lists that agree in these give the same
/// forest and the same text.
pub proof fn lemma_summary_is_determined(a: Seq<PageInfo>, b: Seq<PageInfo>)
    requires
        a.len() == b.len(),
        forall|i: int|
            0 <= i < a.len() ==> (#[trigger] a[i]).id == b[i].id && a[i].name@ == b[i].name@,
    ensures
        forest_of(a) == forest_of(b),
        summary_text(forest_of(a)) == summary_text(forest_of(b)),
    decreases a.len(),
{
    if a.len() > 0 {
        let a_before = a.drop_last();
        let b_before = b.drop_last();
        assert(a.last() == a[a.len() - 1]);
        assert(b.last() == b[b.len() - 1]);
        assert forall|i: int| 0 <= i < a_before.len() implies (#[trigger] a_before[i]).id
            == b_before[i].id && a_before[i].name@ == b_before[i].name@ by {
            assert(a_before[i] == a[i]);
            assert(b_before[i] == b[i]);
        }
        lemma_summary_is_determined(a_before, b_before);
    }
}

/// Writes the lines of `nodes` behind what `out` holds.
fn render_nodes(out: &mut String, nodes: &Vec<Node>, margin: &str)
    ensures
        final(out)@ == old(out)@ + forest_text(forest_model(nodes@), margin@),
    decreases nodes,
{
    let ghost forest = forest_model(nodes@);
    let mut i: usize = 0;
    assert(forest.take(0) =~= Seq::<Entry>::empty());
    assert(out@ + Seq::<char>::empty() =~= out@);
    while i < nodes.len()
        invariant
            i <= nodes.len(),
            forest == forest_model(nodes@),
            out@ == old(out)@ + forest_text(forest.take(i as int), margin@),
        decreases nodes.len() - i,
    {
        let ghost so_far = out@;
        render_into(out, &nodes[i], margin);
        proof {
            let done = forest.take(i + 1);
            assert(done.drop_last() =~= forest.take(i as int));
            assert(done.last() == nodes@[i as int].model());
            assert(old(out)@ + forest_text(done, margin@) =~= so_far + entry_text(
                done.last(),
                margin@,
            ));
        }
        i += 1;
    }
    assert(forest.take(i as int) =~= forest);
}

/// Writes the lines of `node` and of all below it behind what `out` holds.
fn render_into(out: &mut String, node: &Node, margin: &str)
    ensures
        final(out)@ == old(out)@ + entry_text(node.model(), margin@),
    decreases node,
{
    out.append(margin);
    out.append("- [");
    out.append(node.name.as_str());
    out.append("](");
    match node.id {
        Some(id) => {
            append_decimal(out, id as u64);
            out.append(".md");
        },
        None => {},
    }
    out.append(")\n");
    assert(out@ =~= old(out)@ + entry_line(node.model(), margin@));
    let mut deeper = String::from_str(margin);
    deeper.append("  ");
    let ghost line_done = out@;
    render_nodes(out, &node.children, deeper.as_str());
    assert(out@ =~= old(out)@ + entry_text(node.model(), margin@));
}

/// The lines of `node` and of all below it, `level` levels in.
pub fn render_node(node: &Node, level: usize) -> (text: String)
    ensures
        text@ == entry_text(node.model(), indent(level as nat)),
{
    let mut margin = String::new();
    let mut i: usize = 0;
    while i < level
        invariant
            i <= level,
            margin@ == indent(i as nat),
        decreases level - i,
    {
        margin.append("  ");
        i += 1;
    }
    let mut text = String::new();
    render_into(&mut text, node, margin.as_str());
    assert(Seq::<char>::empty() + entry_text(node.model(), margin@) =~= entry_text(
        node.model(),
        margin@,
    ));
    text
}

/// The table of contents of a forest.
pub fn render(tree: &Vec<Node>) -> (text: String)
    ensures
        text@ == summary_text(forest_model(tree@)),
{
    let mut text = String::new();
    text.append("# SUMMARY\n\n");
    let margin = String::new();
    render_nodes(&mut text, tree, margin.as_str());
    assert(text@ =~= summary_text(forest_model(tree@)));
    text
}

/// The table of contents of a list of pages.
pub fn build_summary(pages: &Vec<PageInfo>) -> (text: String)
    ensures
        text@ == summary_text(forest_of(pages@)),
{
    let tree = build_forest(pages);
    render(&tree)
}

} // verus!
