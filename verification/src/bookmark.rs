//! The logic of the bookmark service: building the tree of a sync document
//! from its stored nodes, flattening an uploaded tree for storage, handing
//! out external ids, and checking edits.
use vstd::prelude::*;
use crate::auth::{AuthUser, may_write};
use crate::domain::{BookmarkNode, BookmarkTreeNode, TreeV, trees_v};
use crate::error::{AppError, AppResult, ErrorV, validation};
use crate::split::chars_eq;
use crate::text::{ascii_lower, byte_len, chars_of, to_ascii_lower, trim, trimmed, utf8_len};
use crate::xbel::ParsedDocument;
use crate::xbel_read::{doc_result, parse_xbel, spec_parse_xbel};
use crate::num::{i64_text, parse_i64};
use crate::text::{int_decimal, push_i64, str_eq, strs_v};
use crate::xbel::{ParsedNode, XNode, nodes_v};

verus! {

/// The index of the first entry of `gs` under key `k`.
pub open spec fn key_index<K, V>(gs: Seq<(K, V)>, k: K) -> Option<int>
    decreases gs.len(),
{
    if gs.len() == 0 {
        None
    } else if gs[0].0 == k {
        Some(0)
    } else {
        match key_index(gs.drop_first(), k) {
            Some(j) => Some(j + 1),
            None => None,
        }
    }
}

pub proof fn lemma_key_index<K, V>(gs: Seq<(K, V)>, k: K, j: int)
    requires
        0 <= j <= gs.len(),
        forall|i: int| 0 <= i < j ==> gs[i].0 != k,
    ensures
        j < gs.len() && gs[j].0 == k ==> key_index(gs, k) == Some(j),
        j == gs.len() ==> key_index(gs, k) is None,
    decreases j,
{
    if j > 0 {
        lemma_key_index(gs.drop_first(), k, j - 1);
    } else if gs.len() > 0 && !(gs[0].0 == k) {
    }
}

/// Stored nodes grouped under their parent (`None` for the top level), the
/// groups in order of first appearance and the nodes of a group in order.
/// A list of pairs stands where a map from parent to children could: its key
/// is an `Option<i64>`, for which vstd's `HashMap` specification gives no key
/// model, and each group is looked up and taken out once, which `key_index`
/// states exactly.
pub type Groups = Seq<(Option<i64>, Seq<BookmarkNode>)>;

/// Tag names grouped under their node, in order.
pub type TagGroups = Seq<(i64, Seq<Seq<char>>)>;

/// `gs` with `x` added at the end of the group under `k`.
pub open spec fn add_to_group<K, X>(gs: Seq<(K, Seq<X>)>, k: K, x: X) -> Seq<(K, Seq<X>)> {
    match key_index(gs, k) {
        Some(j) => gs.update(j, (k, gs[j].1.push(x))),
        None => gs.push((k, seq![x])),
    }
}

pub open spec fn group_by_parent(ns: Seq<BookmarkNode>) -> Groups
    decreases ns.len(),
{
    if ns.len() == 0 {
        Seq::empty()
    } else {
        add_to_group(group_by_parent(ns.drop_last()), ns.last().parent_id, ns.last())
    }
}

pub open spec fn group_tags(rows: Seq<(i64, Seq<char>)>) -> TagGroups
    decreases rows.len(),
{
    if rows.len() == 0 {
        Seq::empty()
    } else {
        add_to_group(group_tags(rows.drop_last()), rows.last().0, rows.last().1)
    }
}

/// The tags of node `id`, taken out of `ts`: a node whose tags were taken
/// before gets none.
pub open spec fn take_tags(ts: TagGroups, id: i64) -> (Seq<Seq<char>>, TagGroups) {
    match key_index(ts, id) {
        Some(j) => (ts[j].1, ts.remove(j)),
        None => (Seq::empty(), ts),
    }
}

/// The trees under parent `p`, taking its group out of `gs`, with what is
/// left of the groups and tags. A group is taken at most once, so a node is
/// never placed twice and a cycle of parents is never entered; `fuel` bounds
/// the depth and is never exhausted when it is at least `gs.len()`.
pub open spec fn descend(p: Option<i64>, gs: Groups, ts: TagGroups, fuel: nat) -> (Seq<TreeV>, Groups, TagGroups)
    decreases fuel, 0nat,
{
    if fuel == 0 {
        (Seq::empty(), gs, ts)
    } else {
        match key_index(gs, p) {
            None => (Seq::empty(), gs, ts),
            Some(i) => visit(gs[i].1, gs.remove(i), ts, (fuel - 1) as nat),
        }
    }
}

/// The trees of the nodes `kids`, in order, each with its tags and its
/// subtree.
pub open spec fn visit(kids: Seq<BookmarkNode>, gs: Groups, ts: TagGroups, fuel: nat) -> (Seq<TreeV>, Groups, TagGroups)
    decreases fuel, kids.len(),
{
    if kids.len() == 0 {
        (Seq::empty(), gs, ts)
    } else {
        let k = kids[0];
        let (tags, ts1) = take_tags(ts, k.id);
        let (sub, gs1, ts2) = descend(Some(k.id), gs, ts1, fuel);
        let (rest, gs2, ts3) = visit(kids.drop_first(), gs1, ts2, fuel);
        (seq![TreeV { node: k, tags, children: sub }] + rest, gs2, ts3)
    }
}

/// The forest of a document's stored nodes: the top-level nodes in order,
/// each with the names of its tags and its children in order. Nodes whose
/// parent chain does not reach the top level are left out.
pub open spec fn bookmark_forest(ns: Seq<BookmarkNode>, rows: Seq<(i64, Seq<char>)>) -> Seq<TreeV> {
    let gs = group_by_parent(ns);
    descend(None, gs, group_tags(rows), gs.len()).0
}

/// More fuel than there are groups changes nothing, and the groups only
/// shrink.
pub proof fn lemma_descend_fuel(p: Option<i64>, gs: Groups, ts: TagGroups, f1: nat, f2: nat)
    requires
        f1 >= gs.len(),
        f2 >= gs.len(),
    ensures
        descend(p, gs, ts, f1) == descend(p, gs, ts, f2),
        descend(p, gs, ts, f1).1.len() <= gs.len(),
    decreases f1, 0nat,
{
    if f1 > 0 && f2 > 0 {
        match key_index(gs, p) {
            None => {},
            Some(i) => {
                lemma_key_index_bound(gs, p);
                lemma_visit_fuel(gs[i].1, gs.remove(i), ts, (f1 - 1) as nat, (f2 - 1) as nat);
            },
        }
    } else {
        lemma_key_index_bound(gs, p);
    }
}

pub proof fn lemma_visit_fuel(kids: Seq<BookmarkNode>, gs: Groups, ts: TagGroups, f1: nat, f2: nat)
    requires
        f1 >= gs.len(),
        f2 >= gs.len(),
    ensures
        visit(kids, gs, ts, f1) == visit(kids, gs, ts, f2),
        visit(kids, gs, ts, f1).1.len() <= gs.len(),
    decreases f1, kids.len(),
{
    if kids.len() > 0 {
        let k = kids[0];
        let (tags, ts1) = take_tags(ts, k.id);
        lemma_descend_fuel(Some(k.id), gs, ts1, f1, f2);
        let (sub, gs1, ts2) = descend(Some(k.id), gs, ts1, f1);
        lemma_visit_fuel(kids.drop_first(), gs1, ts2, f1, f2);
    }
}

pub proof fn lemma_key_index_bound<K, V>(gs: Seq<(K, V)>, k: K)
    ensures
        key_index(gs, k) matches Some(j) ==> 0 <= j < gs.len() && gs[j].0 == k,
    decreases gs.len(),
{
    if gs.len() > 0 && !(gs[0].0 == k) {
        lemma_key_index_bound(gs.drop_first(), k);
    }
}

pub open spec fn groups_v(g: Seq<(Option<i64>, Vec<BookmarkNode>)>) -> Groups {
    Seq::new(g.len(), |i: int| (g[i].0, g[i].1@))
}

pub open spec fn tags_v(t: Seq<(i64, Vec<String>)>) -> TagGroups {
    Seq::new(t.len(), |i: int| (t[i].0, strs_v(t[i].1@)))
}

/// The index of the group under `p`.
fn find_group(gs: &Vec<(Option<i64>, Vec<BookmarkNode>)>, p: Option<i64>) -> (r: Option<usize>)
    ensures
        match r {
            Some(i) => i < gs@.len() && key_index(groups_v(gs@), p) == Some(i as int),
            None => key_index(groups_v(gs@), p) is None,
        },
{
    let mut i: usize = 0;
    while i < gs.len()
        invariant
            i <= gs@.len(),
            forall|j: int| 0 <= j < i ==> groups_v(gs@)[j].0 != p,
        decreases gs.len() - i,
    {
        if gs[i].0 == p {
            proof {
                lemma_key_index(groups_v(gs@), p, i as int);
            }
            return Some(i);
        }
        i = i + 1;
    }
    proof {
        lemma_key_index(groups_v(gs@), p, i as int);
    }
    None
}

/// The index of the tags of node `id`.
fn find_tags(ts: &Vec<(i64, Vec<String>)>, id: i64) -> (r: Option<usize>)
    ensures
        match r {
            Some(i) => i < ts@.len() && key_index(tags_v(ts@), id) == Some(i as int),
            None => key_index(tags_v(ts@), id) is None,
        },
{
    let mut i: usize = 0;
    while i < ts.len()
        invariant
            i <= ts@.len(),
            forall|j: int| 0 <= j < i ==> tags_v(ts@)[j].0 != id,
        decreases ts.len() - i,
    {
        if ts[i].0 == id {
            proof {
                lemma_key_index(tags_v(ts@), id, i as int);
            }
            return Some(i);
        }
        i = i + 1;
    }
    proof {
        lemma_key_index(tags_v(ts@), id, i as int);
    }
    None
}

fn take_tags_of(ts: &mut Vec<(i64, Vec<String>)>, id: i64) -> (r: Vec<String>)
    ensures
        (strs_v(r@), tags_v(final(ts)@)) == take_tags(tags_v(old(ts)@), id),
{
    match find_tags(ts, id) {
        Some(j) => {
            let (_, names) = ts.remove(j);
            assert(tags_v(ts@) =~= tags_v(old(ts)@).remove(j as int));
            names
        },
        None => Vec::new(),
    }
}

/// The trees under `p`, taking the groups they use out of `gs` and the tags
/// they use out of `ts`.
fn descend_exec(
    p: Option<i64>,
    gs: &mut Vec<(Option<i64>, Vec<BookmarkNode>)>,
    ts: &mut Vec<(i64, Vec<String>)>,
) -> (r: Vec<BookmarkTreeNode>)
    ensures
        (trees_v(r@), groups_v(final(gs)@), tags_v(final(ts)@))
            == descend(p, groups_v(old(gs)@), tags_v(old(ts)@), old(gs)@.len()),
        final(gs)@.len() <= old(gs)@.len(),
    decreases old(gs)@.len(),
{
    let i = match find_group(gs, p) {
        None => {
            let v: Vec<BookmarkTreeNode> = Vec::new();
            assert(trees_v(v@) =~= Seq::<TreeV>::empty());
            return v;
        },
        Some(i) => i,
    };
    let ghost g0 = groups_v(gs@);
    let ghost t0 = tags_v(ts@);
    let (_, kids) = gs.remove(i);
    let ghost fuel: nat = (old(gs)@.len() - 1) as nat;
    let ghost all = kids@;
    assert(groups_v(gs@) =~= g0.remove(i as int));
    let mut kids = kids;
    let mut out: Vec<BookmarkTreeNode> = Vec::new();
    assert(trees_v(out@) + visit(kids@, groups_v(gs@), tags_v(ts@), fuel).0 =~= visit(kids@, groups_v(gs@), tags_v(ts@), fuel).0);
    while kids.len() > 0
        invariant
            gs@.len() <= fuel,
            fuel < old(gs)@.len(),
            visit(all, g0.remove(i as int), t0, fuel) == ({
                let v = visit(kids@, groups_v(gs@), tags_v(ts@), fuel);
                (trees_v(out@) + v.0, v.1, v.2)
            }),
        decreases kids.len(),
    {
        let ghost before_kids = kids@;
        let ghost before_out = trees_v(out@);
        let ghost gb = groups_v(gs@);
        let ghost tb = tags_v(ts@);
        let kid = kids.remove(0);
        assert(kids@ =~= before_kids.drop_first());
        let id = kid.id;
        let tags = take_tags_of(ts, id);
        let ghost t1 = tags_v(ts@);
        let ghost g1len = gs@.len();
        let sub = descend_exec(Some(id), gs, ts);
        proof {
            lemma_descend_fuel(Some(id), gb, t1, g1len as nat, fuel);
        }
        let node = BookmarkTreeNode { node: kid, tags, children: sub };
        assert(node.tv().children =~= trees_v(node.children@));
        out.push(node);
        assert(trees_v(out@) =~= before_out.push(node.tv()));
        assert(before_out + seq![node.tv()] =~= before_out.push(node.tv()));
        proof {
            let v = visit(kids@, groups_v(gs@), tags_v(ts@), fuel);
            assert(before_out + (seq![node.tv()] + v.0) =~= trees_v(out@) + v.0);
        }
    }
    assert(trees_v(out@) + Seq::<TreeV>::empty() =~= trees_v(out@));
    out
}

/// Adds `node` to the group of its parent.
fn add_node(gs: &mut Vec<(Option<i64>, Vec<BookmarkNode>)>, node: BookmarkNode)
    ensures
        groups_v(final(gs)@) == add_to_group(groups_v(old(gs)@), node.parent_id, node),
{
    let key = node.parent_id;
    match find_group(gs, key) {
        Some(j) => {
            proof {
                lemma_key_index_bound(groups_v(gs@), key);
            }
            let ghost g0 = gs@;
            let (k, mut v) = gs.remove(j);
            let ghost v0 = v@;
            v.push(node);
            gs.insert(j, (k, v));
            assert(gs@ =~= g0.update(j as int, (k, v)));
            assert(groups_v(gs@) =~= groups_v(g0).update(j as int, (key, groups_v(g0)[j as int].1.push(node))));
        },
        None => {
            let v = vec![node];
            assert(v@ =~= seq![node]);
            gs.push((key, v));
            assert(groups_v(gs@) =~= groups_v(old(gs)@).push((key, seq![node])));
        },
    }
}

/// Adds the tag `name` to the tags of node `id`.
fn add_tag(ts: &mut Vec<(i64, Vec<String>)>, id: i64, name: String)
    ensures
        tags_v(final(ts)@) == add_to_group(tags_v(old(ts)@), id, name@),
{
    match find_tags(ts, id) {
        Some(j) => {
            proof {
                lemma_key_index_bound(tags_v(ts@), id);
            }
            let ghost t0 = ts@;
            let (k, mut v) = ts.remove(j);
            let ghost before = strs_v(v@);
            v.push(name);
            assert(strs_v(v@) =~= before.push(name@));
            ts.insert(j, (k, v));
            assert(ts@ =~= t0.update(j as int, (k, v)));
            assert(tags_v(ts@) =~= tags_v(t0).update(j as int, (id, tags_v(t0)[j as int].1.push(name@))));
        },
        None => {
            let v = vec![name];
            assert(strs_v(v@) =~= seq![name@]);
            ts.push((id, v));
            assert(tags_v(ts@) =~= tags_v(old(ts)@).push((id, seq![name@])));
        },
    }
}

pub open spec fn tag_rows_v(rows: Seq<(i64, String)>) -> Seq<(i64, Seq<char>)> {
    Seq::new(rows.len(), |i: int| (rows[i].0, rows[i].1@))
}

/// The tree of a document from its stored nodes, in stored order, and the
/// `(node id, tag name)` rows of their tags, in the order the tags are shown.
pub fn build_tree(nodes: Vec<BookmarkNode>, tag_rows: Vec<(i64, String)>) -> (r: Vec<BookmarkTreeNode>)
    ensures
        trees_v(r@) == bookmark_forest(nodes@, tag_rows_v(tag_rows@)),
{
    let ghost all = nodes@;
    let mut nodes = nodes;
    let mut gs: Vec<(Option<i64>, Vec<BookmarkNode>)> = Vec::new();
    assert(groups_v(gs@) =~= group_by_parent(all.take(0)));
    while nodes.len() > 0
        invariant
            all.len() >= nodes@.len(),
            nodes@ == all.skip(all.len() - nodes@.len()),
            groups_v(gs@) == group_by_parent(all.take(all.len() - nodes@.len())),
        decreases nodes.len(),
    {
        let ghost k = all.len() - nodes@.len();
        let node = nodes.remove(0);
        assert(node == all[k]);
        add_node(&mut gs, node);
        assert(all.take(k + 1).drop_last() =~= all.take(k));
        assert(nodes@ =~= all.skip(k + 1));
    }
    assert(all.take(all.len() as int) =~= all);
    let ghost rows = tag_rows_v(tag_rows@);
    let mut tag_rows = tag_rows;
    let mut ts: Vec<(i64, Vec<String>)> = Vec::new();
    assert(tags_v(ts@) =~= group_tags(rows.take(0)));
    while tag_rows.len() > 0
        invariant
            rows.len() >= tag_rows@.len(),
            tag_rows_v(tag_rows@) == rows.skip(rows.len() - tag_rows@.len()),
            tags_v(ts@) == group_tags(rows.take(rows.len() - tag_rows@.len())),
        decreases tag_rows.len(),
    {
        let ghost k = rows.len() - tag_rows@.len();
        let ghost before = tag_rows_v(tag_rows@);
        let ghost raw = tag_rows@;
        let (id, name) = tag_rows.remove(0);
        assert(before[0] == rows[k]);
        assert(tag_rows_v(tag_rows@) =~= before.drop_first());
        assert(rows.skip(k).drop_first() =~= rows.skip(k + 1));
        add_tag(&mut ts, id, name);
        assert(rows.take(k + 1).drop_last() =~= rows.take(k));
        assert(tag_rows_v(tag_rows@) =~= rows.skip(k + 1));
    }
    assert(rows.take(rows.len() as int) =~= rows);
    descend_exec(None, &mut gs, &mut ts)
}

/// A node of an uploaded tree, listed with the index of its parent in the
/// list and its position among its siblings; its children are listed after
/// it.
#[derive(Debug)]
pub struct FlatNode {
    pub parent_index: Option<usize>,
    pub position: i64,
    pub node: ParsedNode,
}

/// The value of a `FlatNode`.
pub struct FlatV {
    pub parent_index: Option<usize>,
    pub position: i64,
    pub node: XNode,
}

pub open spec fn flat_v(f: FlatNode) -> FlatV {
    FlatV { parent_index: f.parent_index, position: f.position, node: f.node.xv() }
}

pub open spec fn flats_v(v: Seq<FlatNode>) -> Seq<FlatV> {
    Seq::new(v.len(), |i: int| flat_v(v[i]))
}

/// `n` without its children.
pub open spec fn bare(n: XNode) -> XNode {
    XNode {
        external_id: n.external_id,
        kind: n.kind,
        title: n.title,
        url: n.url,
        description: n.description,
        children: Seq::empty(),
    }
}

/// The nodes `ns` in document order, each before its descendants, when the
/// list so far holds `base` entries, `ns` are children of the entry at
/// `parent` and the first of them is at position `pos`.
pub open spec fn flat_list(ns: Seq<XNode>, parent: Option<usize>, base: int, pos: int) -> Seq<FlatV>
    decreases ns,
{
    if ns.len() == 0 {
        Seq::empty()
    } else {
        let head = FlatV { parent_index: parent, position: pos as i64, node: bare(ns[0]) };
        let sub = flat_list(ns[0].children, Some(base as usize), base + 1, 0);
        seq![head] + sub + flat_list(ns.drop_first(), parent, base + 1 + sub.len(), pos + 1)
    }
}

/// Appends the nodes `nodes`, children of the entry at `parent_index`, and
/// their descendants to `out`, in document order.
pub fn flatten_nodes(nodes: Vec<ParsedNode>, parent_index: Option<usize>, out: &mut Vec<FlatNode>)
    requires
        old(out)@.len() + nodes_count(nodes_v(nodes@)) <= usize::MAX,
    ensures
        flats_v(final(out)@) == flats_v(old(out)@)
            + flat_list(nodes_v(nodes@), parent_index, old(out)@.len() as int, 0),
    decreases nodes,
{
    let ghost orig = nodes;
    let n0 = nodes.len();
    let mut rest = nodes;
    let mut pos: usize = 0;
    assert(rest@.skip(0) =~= rest@);
    while rest.len() > 0
        invariant
            orig == nodes,
            n0 == orig@.len(),
            pos + rest@.len() == n0,
            rest@ == orig@.skip(pos as int),
            out@.len() + nodes_count(nodes_v(rest@)) <= usize::MAX,
            flats_v(out@) + flat_list(nodes_v(rest@), parent_index, out@.len() as int, pos as int)
                == flats_v(old(out)@) + flat_list(nodes_v(orig@), parent_index, old(out)@.len() as int, 0),
        decreases rest.len(),
    {
        let ghost rv = nodes_v(rest@);
        let node = rest.remove(0);
        assert(node == orig@[pos as int]);
        assert(nodes_v(rest@) =~= rv.drop_first());
        let ParsedNode { external_id, node_type, title, url, description, children } = node;
        let ghost cv = nodes_v(children@);
        assert(rv[0].children =~= cv);
        proof {
            lemma_nodes_count_unfold(rv);
        }
        let index = out.len();
        let ghost before = flats_v(out@);
        let bare_node = ParsedNode { external_id, node_type, title, url, description, children: Vec::new() };
        out.push(FlatNode { parent_index, position: pos as i64, node: bare_node });
        assert(flats_v(out@) =~= before.push(FlatV { parent_index, position: pos as i64, node: bare(rv[0]) })) by {
            assert(bare_node.xv().children =~= Seq::<XNode>::empty());
        }
        proof {
            vstd::std_specs::vec::axiom_vec_index_decreases(orig, pos as int);
            assert(decreases_to!(nodes => children));
        }
        flatten_nodes(children, Some(index), out);
        pos = pos + 1;
        proof {
            let sub = flat_list(cv, Some(index), index + 1, 0);
            lemma_flat_list_len(cv, Some(index), index + 1, 0);
            assert(flats_v(out@).len() == out@.len());
            assert(out@.len() == index + 1 + nodes_count(cv));
            assert(before.push(FlatV { parent_index, position: (pos - 1) as i64, node: bare(rv[0]) }) =~= before + seq![FlatV { parent_index, position: (pos - 1) as i64, node: bare(rv[0]) }]);
            assert(rest@ =~= orig@.skip(pos as int));
        }
    }
    assert(flat_list(nodes_v(rest@), parent_index, out@.len() as int, pos as int) =~= Seq::<FlatV>::empty());
    assert(flats_v(out@) + Seq::<FlatV>::empty() =~= flats_v(out@));
}

/// The number of nodes in the forest `ns`.
pub open spec fn nodes_count(ns: Seq<XNode>) -> nat
    decreases ns,
{
    if ns.len() == 0 {
        0
    } else {
        1 + nodes_count(ns[0].children) + nodes_count(ns.drop_first())
    }
}

proof fn lemma_nodes_count_unfold(ns: Seq<XNode>)
    requires
        ns.len() > 0,
    ensures
        nodes_count(ns) == 1 + nodes_count(ns[0].children) + nodes_count(ns.drop_first()),
{
}

pub proof fn lemma_flat_list_len(ns: Seq<XNode>, parent: Option<usize>, base: int, pos: int)
    ensures
        flat_list(ns, parent, base, pos).len() == nodes_count(ns),
    decreases ns,
{
    if ns.len() > 0 {
        lemma_flat_list_len(ns[0].children, Some(base as usize), base + 1, 0);
        let sub = flat_list(ns[0].children, Some(base as usize), base + 1, 0);
        lemma_flat_list_len(ns.drop_first(), parent, base + 1 + sub.len(), pos + 1);
    }
}

/// `n + 1`, stopping at `i64::MAX`.
pub open spec fn sat_inc(n: i64) -> i64 {
    if n == i64::MAX { n } else { (n + 1) as i64 }
}

pub open spec fn max_i64(a: i64, b: i64) -> i64 {
    if a >= b { a } else { b }
}

/// The first number from `next` on whose decimal form is not among `used`;
/// `None` when every one up to `i64::MAX` is taken.
pub open spec fn free_id(next: i64, used: Seq<Seq<char>>) -> Option<i64>
    decreases i64::MAX - next,
{
    if !used.contains(int_decimal(next as int)) {
        Some(next)
    } else if next == i64::MAX {
        None
    } else {
        free_id((next + 1) as i64, used)
    }
}

/// `Some((pre + ids, next))` for `Some((ids, next))`.
pub open spec fn glue(pre: Seq<Seq<char>>, o: Option<(Seq<Seq<char>>, i64)>) -> Option<(Seq<Seq<char>>, i64)> {
    match o {
        Some((r, n)) => Some((pre + r, n)),
        None => None,
    }
}

/// The external ids given to nodes whose own ids are `ext`, in order, when
/// the ids `used` are taken and `next` is the next number to hand out, with
/// the next number afterwards. A node keeps its own id when it is not empty
/// and not taken; a numeric one moves `next` past it. Any other node gets the
/// first free number from `next` on. `None` when no number is free, where
/// the allocation never ends.
pub open spec fn assign_ids(ext: Seq<Option<Seq<char>>>, used: Seq<Seq<char>>, next: i64) -> Option<(Seq<Seq<char>>, i64)>
    decreases ext.len(),
{
    if ext.len() == 0 {
        Some((Seq::empty(), next))
    } else {
        let keep = match ext[0] {
            Some(x) => x.len() > 0 && !used.contains(x),
            None => false,
        };
        if keep {
            let x = ext[0]->Some_0;
            let next1 = match i64_text(x) {
                Some(n) => max_i64(next, sat_inc(n)),
                None => next,
            };
            glue(seq![x], assign_ids(ext.drop_first(), used.push(x), next1))
        } else {
            match free_id(next, used) {
                None => None,
                Some(k) => glue(
                    seq![int_decimal(k as int)],
                    assign_ids(ext.drop_first(), used.push(int_decimal(k as int)), sat_inc(k)),
                ),
            }
        }
    }
}

pub proof fn lemma_assign_ids_len(ext: Seq<Option<Seq<char>>>, used: Seq<Seq<char>>, next: i64)
    ensures
        assign_ids(ext, used, next) matches Some((r, _)) ==> r.len() == ext.len(),
    decreases ext.len(),
{
    if ext.len() > 0 {
        let keep = match ext[0] {
            Some(x) => x.len() > 0 && !used.contains(x),
            None => false,
        };
        if keep {
            let x = ext[0]->Some_0;
            let next1 = match i64_text(x) {
                Some(n) => max_i64(next, sat_inc(n)),
                None => next,
            };
            lemma_assign_ids_len(ext.drop_first(), used.push(x), next1);
        } else {
            match free_id(next, used) {
                None => {},
                Some(k) => lemma_assign_ids_len(ext.drop_first(), used.push(int_decimal(k as int)), sat_inc(k)),
            }
        }
    }
}


pub proof fn lemma_free_id_fresh(next: i64, used: Seq<Seq<char>>)
    ensures
        free_id(next, used) matches Some(k) ==> !used.contains(int_decimal(k as int)) && k >= next,
    decreases i64::MAX - next,
{
    if used.contains(int_decimal(next as int)) && next < i64::MAX {
        lemma_free_id_fresh((next + 1) as i64, used);
    }
}

/// Every external id that an upload's nodes end up with is new: none is
/// among `used`, and no two are the same.
pub proof fn lemma_assigned_ids_distinct(ext: Seq<Option<Seq<char>>>, used: Seq<Seq<char>>, next: i64)
    ensures
        assign_ids(ext, used, next) matches Some((r, _)) ==> (forall|i: int| 0 <= i < r.len() ==> !used.contains(#[trigger] r[i]))
            && (forall|i: int, j: int| 0 <= i < j < r.len() ==> r[i] != r[j]),
    decreases ext.len(),
{
    if ext.len() > 0 {
        let keep = match ext[0] {
            Some(x) => x.len() > 0 && !used.contains(x),
            None => false,
        };
        let (h, used1, next1) = if keep {
            let x = ext[0]->Some_0;
            (x, used.push(x), match i64_text(x) {
                Some(n) => max_i64(next, sat_inc(n)),
                None => next,
            })
        } else {
            lemma_free_id_fresh(next, used);
            let k = free_id(next, used)->Some_0;
            (int_decimal(k as int), used.push(int_decimal(k as int)), sat_inc(k))
        };
        if keep || free_id(next, used) is Some {
            lemma_assigned_ids_distinct(ext.drop_first(), used1, next1);
            match assign_ids(ext.drop_first(), used1, next1) {
                Some((t, _)) => {
                    let r = seq![h] + t;
                    assert(assign_ids(ext, used, next) == Some((r, assign_ids(ext.drop_first(), used1, next1)->Some_0.1)));
                    assert forall|i: int| 0 <= i < r.len() implies !used.contains(#[trigger] r[i]) by {
                        if i > 0 {
                            assert(r[i] == t[i - 1]);
                            assert(!used1.contains(t[i - 1]));
                            if used.contains(r[i]) {
                                let w = choose|w: int| 0 <= w < used.len() && used[w] == r[i];
                                assert(used1[w] == r[i]);
                            }
                        }
                    }
                    assert forall|i: int, j: int| 0 <= i < j < r.len() implies r[i] != r[j] by {
                        assert(r[j] == t[j - 1]);
                        if i == 0 {
                            assert(used1[used.len() as int] == h);
                            assert(!used1.contains(t[j - 1]));
                        } else {
                            assert(r[i] == t[i - 1]);
                        }
                    }
                },
                None => {},
            }
        }
    }
}

/// Whether a node's own id `e` is there, not empty, and not among `taken`.
pub open spec fn own_id_free(e: Option<Seq<char>>, taken: Seq<Seq<char>>) -> bool {
    match e {
        Some(x) => x.len() > 0 && !taken.contains(x),
        None => false,
    }
}

/// A node keeps its own external id whenever that id is not empty and not
/// taken, by the ids `used` before the upload or by an earlier node's.
pub proof fn lemma_assigned_keeps_own(ext: Seq<Option<Seq<char>>>, used: Seq<Seq<char>>, next: i64)
    ensures
        assign_ids(ext, used, next) matches Some((r, _)) ==> forall|i: int| 0 <= i < ext.len()
            && #[trigger] own_id_free(ext[i], used + r.take(i)) ==> ext[i] == Some(r[i]),
    decreases ext.len(),
{
    if ext.len() > 0 {
        let keep = match ext[0] {
            Some(x) => x.len() > 0 && !used.contains(x),
            None => false,
        };
        let (h, used1, next1) = if keep {
            let x = ext[0]->Some_0;
            (x, used.push(x), match i64_text(x) {
                Some(n) => max_i64(next, sat_inc(n)),
                None => next,
            })
        } else {
            let k = free_id(next, used)->Some_0;
            (int_decimal(k as int), used.push(int_decimal(k as int)), sat_inc(k))
        };
        if keep || free_id(next, used) is Some {
            lemma_assign_ids_len(ext.drop_first(), used1, next1);
            lemma_assigned_keeps_own(ext.drop_first(), used1, next1);
            match assign_ids(ext.drop_first(), used1, next1) {
                Some((t, _)) => {
                    let r = seq![h] + t;
                    assert(assign_ids(ext, used, next) == Some((r, assign_ids(ext.drop_first(), used1, next1)->Some_0.1)));
                    assert forall|i: int| 0 <= i < ext.len()
                        && #[trigger] own_id_free(ext[i], used + r.take(i)) implies ext[i] == Some(r[i]) by {
                        if i == 0 {
                            assert(r.take(0) =~= Seq::<Seq<char>>::empty());
                            assert(used + r.take(0) =~= used);
                        } else {
                            assert(ext.drop_first()[i - 1] == ext[i]);
                            assert(used1 + t.take(i - 1) =~= used + r.take(i));
                            assert(r[i] == t[i - 1]);
                            assert(own_id_free(ext.drop_first()[i - 1], used1 + t.take(i - 1)));
                        }
                    }
                },
                None => {},
            }
        }
    }
}

/// Whether one of `used` holds the characters of `s`.
fn is_used(used: &Vec<String>, s: &str) -> (b: bool)
    ensures
        b == strs_v(used@).contains(s@),
{
    let mut i: usize = 0;
    while i < used.len()
        invariant
            i <= used@.len(),
            forall|j: int| 0 <= j < i ==> strs_v(used@)[j] != s@,
        decreases used.len() - i,
    {
        if str_eq(used[i].as_str(), s) {
            assert(strs_v(used@)[i as int] == s@);
            return true;
        }
        i = i + 1;
    }
    proof {
        if strs_v(used@).contains(s@) {
            let k = choose|k: int| 0 <= k < strs_v(used@).len() && strs_v(used@)[k] == s@;
            assert(strs_v(used@)[k] != s@);
        }
    }
    false
}

fn decimal_string(n: i64) -> (s: String)
    ensures
        s@ == int_decimal(n as int),
{
    let mut s = String::new();
    push_i64(&mut s, n);
    s
}

/// The first free number from `next` on.
fn first_free_id(next: i64, used: &Vec<String>) -> (r: Option<i64>)
    ensures
        r == free_id(next, strs_v(used@)),
{
    let mut k = next;
    loop
        invariant
            next <= k,
            free_id(next, strs_v(used@)) == free_id(k, strs_v(used@)),
        decreases i64::MAX - k,
    {
        let id = decimal_string(k);
        if !is_used(used, id.as_str()) {
            return Some(k);
        }
        if k == i64::MAX {
            return None;
        }
        k = k + 1;
    }
}

/// Hands out the first free number from `*next` on as an external id,
/// records it in `used` and moves `*next` past it. The ids in use are a list
/// rather than a set: they are strings, and vstd's set specification proves
/// nothing about membership for `String` keys.
pub fn allocate_external_id(next: &mut i64, used: &mut Vec<String>) -> (id: String)
    requires
        free_id(*old(next), strs_v(old(used)@)) is Some,
    ensures
        ({
            let k = free_id(*old(next), strs_v(old(used)@))->Some_0;
            &&& id@ == int_decimal(k as int)
            &&& *final(next) == sat_inc(k)
            &&& strs_v(final(used)@) == strs_v(old(used)@).push(id@)
        }),
{
    let ghost start = *next;
    loop
        invariant
            *old(used) == *used,
            free_id(start, strs_v(used@)) == free_id(*next, strs_v(used@)),
            free_id(*next, strs_v(used@)) is Some,
            start == *old(next),
        decreases i64::MAX - *next,
    {
        let k = *next;
        let id = decimal_string(k);
        *next = if k == i64::MAX { k } else { k + 1 };
        if !is_used(used, id.as_str()) {
            let ghost before = strs_v(used@);
            used.push(id.clone());
            assert(strs_v(used@) =~= before.push(id@));
            return id;
        }
    }
}

/// The node `f` with external id `id`.
pub open spec fn with_id(f: FlatV, id: Seq<char>) -> FlatV {
    FlatV {
        parent_index: f.parent_index,
        position: f.position,
        node: XNode {
            external_id: Some(id),
            kind: f.node.kind,
            title: f.node.title,
            url: f.node.url,
            description: f.node.description,
            children: f.node.children,
        },
    }
}

pub open spec fn ext_ids(fs: Seq<FlatV>) -> Seq<Option<Seq<char>>> {
    Seq::new(fs.len(), |i: int| fs[i].node.external_id)
}

/// Gives every node of an uploaded tree its external id, starting the
/// numbering at the document's next external id (at least 1), and returns the
/// document's next external id afterwards; `None`, with the nodes left as
/// they are, where no number up to `i64::MAX` is free for a node that needs
/// one.
pub fn assign_external_ids(flat: &mut Vec<FlatNode>, next_external_id: i64) -> (r: Option<i64>)
    ensures
        match assign_ids(ext_ids(flats_v(old(flat)@)), Seq::empty(), max_i64(next_external_id, 1)) {
            None => r is None && final(flat)@ == old(flat)@,
            Some((ids, n)) => r == Some(n) && flats_v(final(flat)@)
                == Seq::new(old(flat)@.len(), |i: int| with_id(flats_v(old(flat)@)[i], ids[i])),
        },
{
    let ghost ext = ext_ids(flats_v(flat@));
    let start = if next_external_id >= 1 { next_external_id } else { 1 };
    let mut next = start;
    let mut ids: Vec<String> = Vec::new();
    let mut i: usize = 0;
    assert(ext.skip(0) =~= ext);
    assert(strs_v(ids@) =~= Seq::<Seq<char>>::empty());
    while i < flat.len()
        invariant
            i <= flat@.len(),
            ext == ext_ids(flats_v(flat@)),
            *flat == *old(flat),
            strs_v(ids@).len() == i,
            start == max_i64(next_external_id, 1),
            assign_ids(ext, Seq::empty(), start) == glue(strs_v(ids@), assign_ids(ext.skip(i as int), strs_v(ids@), next)),
        decreases flat.len() - i,
    {
        let ghost used0 = strs_v(ids@);
        let ghost next0 = next;
        assert(ext.skip(i as int)[0] == ext[i as int]);
        assert(ext.skip(i as int).drop_first() =~= ext.skip(i + 1));
        assert(ext[i as int] == crate::xbel::opt_view(flat@[i as int].node.external_id));
        let ghost spec_keep = match ext[i as int] {
            Some(x) => x.len() > 0 && !used0.contains(x),
            None => false,
        };
        let keep = match &flat[i].node.external_id {
            Some(x) => {
                if !x.as_str().is_empty() && !is_used(&ids, x.as_str()) {
                    assert(ext[i as int] == Some(x@));
                    match parse_i64(x.as_str()) {
                        Some(n) => {
                            let m = if n == i64::MAX { n } else { n + 1 };
                            if m > next {
                                next = m;
                            }
                        },
                        None => {},
                    }
                    ids.push(x.clone());
                    true
                } else {
                    false
                }
            },
            None => false,
        };
        assert(keep == spec_keep);
        if !keep {
            match first_free_id(next, &ids) {
                None => {
                    assert(assign_ids(ext.skip(i as int), used0, next0) is None);
                    return None;
                },
                Some(_) => {
                    let id = allocate_external_id(&mut next, &mut ids);
                },
            }
        }
        proof {
            assert(strs_v(ids@) =~= used0.push(strs_v(ids@).last()));
            let tail = assign_ids(ext.skip(i + 1), strs_v(ids@), next);
            assert(glue(used0, glue(seq![strs_v(ids@).last()], tail)) == glue(strs_v(ids@), tail)) by {
                assert(used0 + seq![strs_v(ids@).last()] =~= strs_v(ids@));
                match tail {
                    Some((rr, nn)) => {
                        assert(used0 + (seq![strs_v(ids@).last()] + rr) =~= strs_v(ids@) + rr);
                    },
                    None => {},
                }
            }
        }
        i = i + 1;
    }
    proof {
        assert(ext.skip(i as int) =~= Seq::<Option<Seq<char>>>::empty());
        assert(strs_v(ids@) + Seq::<Seq<char>>::empty() =~= strs_v(ids@));
    }
    let ghost old_flat = flats_v(flat@);
    let ghost idsv = strs_v(ids@);
    let mut rest: Vec<FlatNode> = Vec::new();
    std::mem::swap(&mut rest, flat);
    let mut out: Vec<FlatNode> = Vec::new();
    let mut ids = ids;
    while rest.len() > 0
        invariant
            rest@.len() == ids@.len(),
            out@.len() + rest@.len() == old_flat.len(),
            idsv.len() == old_flat.len(),
            flats_v(rest@) == old_flat.skip(out@.len() as int),
            strs_v(ids@) == idsv.skip(out@.len() as int),
            forall|j: int| 0 <= j < out@.len() ==> flats_v(out@)[j] == with_id(old_flat[j], idsv[j]),
        decreases rest.len(),
    {
        let ghost k = out@.len();
        let ghost rv = flats_v(rest@);
        let ghost iv = strs_v(ids@);
        let ghost r0 = rest@;
        let ghost i0 = ids@;
        let f = rest.remove(0);
        let id = ids.remove(0);
        assert(rv[0] == flat_v(r0[0]));
        assert(old_flat.skip(k as int)[0] == old_flat[k as int]);
        assert(flat_v(f) == old_flat[k as int]);
        assert(iv[0] == i0[0]@);
        assert(idsv.skip(k as int)[0] == idsv[k as int]);
        assert(id@ == idsv[k as int]);
        assert(flats_v(rest@) =~= rv.drop_first());
        assert(strs_v(ids@) =~= iv.drop_first());
        let FlatNode { parent_index, position, node } = f;
        let ParsedNode { external_id, node_type, title, url, description, children } = node;
        let node = ParsedNode { external_id: Some(id), node_type, title, url, description, children };
        let ghost prev = flats_v(out@);
        out.push(FlatNode { parent_index, position, node });
        assert(flats_v(out@) =~= prev.push(flats_v(out@)[k as int]));
        proof {
            assert(flats_v(out@)[k as int] == with_id(old_flat[k as int], idsv[k as int])) by {
                assert(flats_v(out@)[k as int].node.children =~= old_flat[k as int].node.children);
            }
        }
    }
    *flat = out;
    proof {
        assert(flats_v(flat@) =~= Seq::new(old_flat.len(), |j: int| with_id(old_flat[j], idsv[j])));
    }
    Some(next)
}

/// The service that keeps sync documents and their nodes.
pub struct BookmarkService;

/// The document that a client syncs when it names none.
pub const DEFAULT_DOCUMENT_PATH: &'static str = "bookmarks.xbel";

/// A new node.
#[derive(Debug)]
pub struct CreateNodeInput {
    pub document_id: i64,
    pub parent_id: Option<i64>,
    pub node_type: String,
    pub title: String,
    pub url: Option<String>,
    pub description: String,
    pub tags: Vec<String>,
}

/// Changes to a node: a field left out stays as it is; `Some(None)` clears
/// the parent (to the top level) or the URL.
#[derive(Debug)]
pub struct UpdateNodeInput {
    pub parent_id: Option<Option<i64>>,
    pub title: Option<String>,
    pub url: Option<Option<String>>,
    pub description: Option<String>,
    pub tags: Option<Vec<String>>,
}

/// A new order of the children of `parent_id`.
#[derive(Debug)]
pub struct ReorderNodesInput {
    pub parent_id: Option<i64>,
    pub node_ids: Vec<i64>,
}

pub open spec fn opt_chars(o: Option<&str>) -> Seq<char> {
    match o {
        Some(s) => s@,
        None => Seq::empty(),
    }
}

/// Why a node with this type, title and URL is refused, if it is.
pub open spec fn node_input_error(node_type: Seq<char>, title: Seq<char>, url: Seq<char>) -> Option<Seq<char>> {
    if !(node_type == "folder"@ || node_type == "bookmark"@ || node_type == "separator"@) {
        Some("invalid node_type"@)
    } else if utf8_len(title) > 200 {
        Some("title is too long"@)
    } else if node_type == "bookmark"@ && (trim(url).len() == 0 || utf8_len(trim(url)) > 8000) {
        Some("bookmark URL is invalid"@)
    } else {
        None
    }
}

/// `Ok(())` when `err` is `None`, else the validation error it names.
pub open spec fn check(r: AppResult<()>, err: Option<Seq<char>>) -> bool {
    match err {
        None => r is Ok,
        Some(m) => r matches Err(e) && e@ == ErrorV::Validation(m),
    }
}

/// Checks a node's type (folder, bookmark or separator), its title (at most
/// 200 bytes) and, for a bookmark, its trimmed URL (not empty, at most 8000
/// bytes).
pub fn validate_node_input(node_type: &str, title: &str, url: Option<&str>) -> (r: AppResult<()>)
    ensures
        check(r, node_input_error(node_type@, title@, opt_chars(url))),
{
    if !(str_eq(node_type, "folder") || str_eq(node_type, "bookmark") || str_eq(node_type, "separator")) {
        return Err(validation("invalid node_type"));
    }
    if byte_len(title) > 200 {
        return Err(validation("title is too long"));
    }
    if str_eq(node_type, "bookmark") {
        let u = match url {
            Some(u) => trimmed(u),
            None => trimmed(""),
        };
        proof {
            reveal_strlit("");
        }
        if u.as_str().is_empty() || byte_len(u.as_str()) > 8000 {
            return Err(validation("bookmark URL is invalid"));
        }
    }
    Ok(())
}

/// `str::ends_with`.
pub open spec fn ends_with(s: Seq<char>, p: Seq<char>) -> bool {
    p.len() <= s.len() && s.skip(s.len() - p.len()) == p
}

/// The characters of `s` with ASCII capitals made small.
pub open spec fn lower_ascii(s: Seq<char>) -> Seq<char> {
    Seq::new(s.len(), |i: int| ascii_lower(s[i]))
}

/// A sync document's path: not empty, at most 1024 bytes, ending in `.xbel`
/// in any case.
pub open spec fn document_path_ok(path: Seq<char>) -> bool {
    path.len() > 0 && utf8_len(path) <= 1024 && ends_with(lower_ascii(path), ".xbel"@)
}

fn ends_with_exec(s: &Vec<char>, p: &Vec<char>) -> (b: bool)
    ensures
        b == ends_with(s@, p@),
{
    if p.len() > s.len() {
        return false;
    }
    let off = s.len() - p.len();
    let n = s.len();
    let mut i: usize = 0;
    while i < p.len()
        invariant
            n == s@.len(),
            off + p@.len() == s@.len(),
            i <= p@.len(),
            forall|j: int| 0 <= j < i ==> s@[off + j] == p@[j],
        decreases p.len() - i,
    {
        if s[off + i] != p[i] {
            assert(s@.skip(off as int)[i as int] != p@[i as int]);
            return false;
        }
        i = i + 1;
    }
    assert(s@.skip(off as int) =~= p@);
    true
}

/// Checks the path of a sync document.
pub fn check_document_path(path: &str) -> (r: AppResult<()>)
    ensures
        check(r, if document_path_ok(path@) { None } else { Some("sync document path must end in .xbel"@) }),
{
    if path.is_empty() || byte_len(path) > 1024 || !is_xbel_name(path) {
        return Err(validation("sync document path must end in .xbel"));
    }
    Ok(())
}

/// `str::trim_end_matches` with a non-empty pattern: `s` without every
/// trailing repetition of `p`.
pub open spec fn strip_suffixes(s: Seq<char>, p: Seq<char>) -> Seq<char>
    decreases s.len(),
{
    if p.len() > 0 && ends_with(s, p) {
        strip_suffixes(s.take(s.len() - p.len()), p)
    } else {
        s
    }
}

/// `path` without every trailing repetition of `suffix`, as
/// `str::trim_end_matches` gives it.
pub fn trim_suffixes(path: &str, suffix: &str) -> (t: String)
    requires
        suffix@.len() > 0,
    ensures
        t@ == strip_suffixes(path@, suffix@),
{
    let cs = chars_of(path);
    let sx = chars_of(suffix);
    let k = sx.len();
    let mut end = cs.len();
    assert(cs@.take(cs@.len() as int) =~= cs@);
    loop
        invariant
            end <= cs@.len(),
            sx@ == suffix@,
            k == sx@.len(),
            k > 0,
            strip_suffixes(path@, suffix@) == strip_suffixes(cs@.take(end as int), suffix@),
            cs@ == path@,
        ensures
            end <= cs@.len(),
            strip_suffixes(path@, suffix@) == cs@.take(end as int),
        decreases end,
    {
        if end < k {
            assert(!ends_with(cs@.take(end as int), suffix@));
            break;
        }
        let head = crate::text::slice_chars(&cs, 0, end);
        assert(cs@.subrange(0, end as int) =~= cs@.take(end as int));
        if !ends_with_exec(&head, &sx) {
            break;
        }
        assert(cs@.take(end as int).take(end - k) =~= cs@.take(end - k));
        end = end - k;
    }
    assert(cs@.subrange(0, end as int) =~= cs@.take(end as int));
    crate::text::string_of(&cs, 0, end)
}

/// The title a new sync document gets from its path: the path without its
/// trailing `.xbel`s.
pub fn default_document_title(path: &str) -> (t: String)
    ensures
        t@ == strip_suffixes(path@, ".xbel"@),
{
    proof {
        reveal_strlit(".xbel");
    }
    trim_suffixes(path, ".xbel")
}

/// Whether `path` ends in `.xbel`, in any case.
pub fn is_xbel_name(path: &str) -> (b: bool)
    ensures
        b == ends_with(lower_ascii(path@), ".xbel"@),
{
    let cs = chars_of(path);
    let mut lower: Vec<char> = Vec::new();
    let mut i: usize = 0;
    while i < cs.len()
        invariant
            i <= cs@.len(),
            lower@ == lower_ascii(cs@).take(i as int),
        decreases cs.len() - i,
    {
        lower.push(to_ascii_lower(cs[i]));
        i = i + 1;
        assert(lower@ =~= lower_ascii(cs@).take(i as int));
    }
    assert(lower_ascii(cs@).take(cs@.len() as int) =~= lower_ascii(cs@));
    let suffix = chars_of(".xbel");
    ends_with_exec(&lower, &suffix)
}

/// Whether `a` and `b` hold the same ids, as sets.
pub open spec fn same_ids(a: Seq<i64>, b: Seq<i64>) -> bool {
    forall|x: i64| a.contains(x) <==> b.contains(x)
}

fn contains_id(v: &Vec<i64>, x: i64) -> (b: bool)
    ensures
        b == v@.contains(x),
{
    let mut i: usize = 0;
    while i < v.len()
        invariant
            i <= v@.len(),
            forall|j: int| 0 <= j < i ==> v@[j] != x,
        decreases v.len() - i,
    {
        if v[i] == x {
            return true;
        }
        i = i + 1;
    }
    false
}

fn all_in(a: &Vec<i64>, b: &Vec<i64>) -> (r: bool)
    ensures
        r == (forall|x: i64| a@.contains(x) ==> b@.contains(x)),
{
    let mut i: usize = 0;
    while i < a.len()
        invariant
            i <= a@.len(),
            forall|j: int| 0 <= j < i ==> b@.contains(#[trigger] a@[j]),
        decreases a.len() - i,
    {
        if !contains_id(b, a[i]) {
            assert(a@.contains(a@[i as int]));
            return false;
        }
        i = i + 1;
    }
    true
}


/// An accepted new order is a permutation of a folder's children: where
/// the children (distinct, as stored ids are) and the new order have as many
/// ids and the same ones, the new order holds every child exactly once.
pub proof fn lemma_reorder_is_permutation(actual: Seq<i64>, node_ids: Seq<i64>)
    requires
        actual.no_duplicates(),
        actual.len() == node_ids.len(),
        same_ids(actual, node_ids),
    ensures
        node_ids.no_duplicates(),
        forall|x: i64| actual.contains(x) <==> node_ids.contains(x),
{
    assert(actual.to_set() =~= node_ids.to_set()) by {
        assert forall|x: i64| actual.to_set().contains(x) <==> node_ids.to_set().contains(x) by {
            assert(actual.contains(x) <==> node_ids.contains(x));
        }
    }
    actual.unique_seq_to_set();
    node_ids.lemma_no_dup_set_cardinality();
}

/// Checks a new order of a folder's children against the children it has:
/// as many ids, and the same ones.
pub fn check_reorder(actual: &Vec<i64>, node_ids: &Vec<i64>) -> (r: AppResult<()>)
    ensures
        check(r, if actual@.len() == node_ids@.len() && same_ids(actual@, node_ids@) {
            None
        } else {
            Some("node_ids must contain every sibling exactly once"@)
        }),
{
    if actual.len() != node_ids.len() || !all_in(actual, node_ids) || !all_in(node_ids, actual) {
        return Err(validation("node_ids must contain every sibling exactly once"));
    }
    Ok(())
}

/// `std::str::from_utf8`: the text of `bytes` when they are valid UTF-8.
#[verifier::external_body]
fn utf8_text(bytes: &[u8]) -> (r: Option<String>)
    ensures
        match r {
            Some(s) => vstd::utf8::valid_utf8(bytes@) && s@ == vstd::utf8::decode_utf8(bytes@),
            None => !vstd::utf8::valid_utf8(bytes@),
        },
{
    std::str::from_utf8(bytes).ok().map(|s| s.to_owned())
}

/// What an uploaded XBEL file parses to, for a user who may write: the file
/// must be UTF-8.
pub fn parse_upload(user: &AuthUser, content: &[u8]) -> (r: AppResult<ParsedDocument>)
    ensures
        !may_write(*user) ==> (r matches Err(e) && e == AppError::Forbidden),
        may_write(*user) && !vstd::utf8::valid_utf8(content@) ==>
            (r matches Err(e) && e@ == ErrorV::Validation("XBEL must be UTF-8"@)),
        may_write(*user) && vstd::utf8::valid_utf8(content@) ==>
            doc_result(r) == spec_parse_xbel(vstd::utf8::decode_utf8(content@)),
{
    match user.require_write() {
        Ok(()) => {},
        Err(e) => return Err(e),
    }
    let text = match utf8_text(content) {
        Some(t) => t,
        None => return Err(validation("XBEL must be UTF-8")),
    };
    parse_xbel(text.as_str())
}


/// The number of nodes in `nodes` and their subtrees; `None` when it does
/// not fit in a `usize`.
fn count_nodes(nodes: &Vec<ParsedNode>) -> (r: Option<usize>)
    ensures
        match r {
            Some(n) => n == nodes_count(nodes_v(nodes@)),
            None => nodes_count(nodes_v(nodes@)) > usize::MAX,
        },
    decreases nodes,
{
    let ghost all = nodes_v(nodes@);
    let mut total: usize = 0;
    let mut i: usize = 0;
    assert(all.skip(0) =~= all);
    while i < nodes.len()
        invariant
            i <= nodes@.len(),
            all == nodes_v(nodes@),
            nodes_count(all) == total + nodes_count(all.skip(i as int)),
        decreases nodes.len() - i,
    {
        let ghost rest = all.skip(i as int);
        proof {
            lemma_nodes_count_unfold(rest);
            assert(rest.drop_first() =~= all.skip(i + 1));
            assert(rest[0] == nodes@[i as int].xv());
            assert(nodes@[i as int].xv().children =~= nodes_v(nodes@[i as int].children@));
            vstd::std_specs::vec::axiom_vec_index_decreases(*nodes, i as int);
        }
        let sub = match count_nodes(&nodes[i].children) {
            Some(c) => c,
            None => {
                return None;
            },
        };
        if total > usize::MAX - 1 || total + 1 > usize::MAX - sub {
            return None;
        }
        total = total + 1 + sub;
        i = i + 1;
    }
    assert(all.skip(i as int) =~= Seq::<XNode>::empty());
    Some(total)
}

impl BookmarkService {
    /// The XBEL of a document titled `title`, whose next external id is
    /// `next_external_id`, from its stored nodes in stored order: the tree
    /// that `build_tree` makes of them, written out.
    pub fn serialize_xbel(title: &str, next_external_id: i64, nodes: Vec<BookmarkNode>) -> (xml: String)
        ensures
            exists|roots: Seq<BookmarkTreeNode>| trees_v(roots) == bookmark_forest(nodes@, Seq::empty())
                && xml@ == crate::xbel_write::document_xml(title@, next_external_id, roots),
    {
        let roots = build_tree(nodes, Vec::new());
        assert(tag_rows_v(Seq::<(i64, String)>::empty()) =~= Seq::<(i64, Seq<char>)>::empty());
        crate::xbel_write::render_xbel(title, next_external_id, &roots)
    }

    /// An upload to the sync document at `path` read for a replacement, with
    /// the checks in the order that a replacement makes them: the user may
    /// write, the file is UTF-8, it parses as XBEL, and only then is the path
    /// that of a sync document.
    pub fn read_upload(user: &AuthUser, path: &str, content: &[u8]) -> (r: AppResult<ParsedDocument>)
        ensures
            !may_write(*user) ==> (r matches Err(e) && e == AppError::Forbidden),
            may_write(*user) && !vstd::utf8::valid_utf8(content@) ==>
                (r matches Err(e) && e@ == ErrorV::Validation("XBEL must be UTF-8"@)),
            may_write(*user) && vstd::utf8::valid_utf8(content@) ==> match spec_parse_xbel(vstd::utf8::decode_utf8(content@)) {
                Err(e) => r matches Err(x) && x@ == e,
                Ok(d) => if document_path_ok(path@) {
                    r matches Ok(p) && p.xv() == d
                } else {
                    r matches Err(x) && x@ == ErrorV::Validation("sync document path must end in .xbel"@)
                },
            },
    {
        let doc = match parse_upload(user, content) {
            Ok(d) => d,
            Err(e) => {
                return Err(e);
            },
        };
        match check_document_path(path) {
            Ok(()) => Ok(doc),
            Err(e) => Err(e),
        }
    }

    /// What replacing a document by the parsed upload `doc` stores: the
    /// file's title, its nodes in document order (each with the index of its
    /// parent and its position among its siblings) with the external ids
    /// they keep or get, and the document's next external id after them,
    /// from `next_external_id` on.
    pub fn plan_upload(doc: ParsedDocument, next_external_id: i64) -> (r: AppResult<(String, Vec<FlatNode>, i64)>)
        ensures
            ({
                let d = doc.xv();
                let flat = flat_list(d.nodes, None, 0, 0);
                if nodes_count(d.nodes) > usize::MAX {
                    r matches Err(x) && x@ == ErrorV::Validation("XBEL contains too many nodes"@)
                } else {
                    match assign_ids(ext_ids(flat), Seq::empty(), max_i64(next_external_id, 1)) {
                        None => r matches Err(x) && x@ == ErrorV::Validation("XBEL contains too many nodes"@),
                        Some((ids, n)) => r matches Ok((title, nodes, next)) && title@ == d.title && next == n
                            && flats_v(nodes@) == Seq::new(flat.len(), |i: int| with_id(flat[i], ids[i])),
                    }
                }
            }),
    {
        let ghost dv = doc.xv();
        let count = match count_nodes(&doc.nodes) {
            Some(c) => c,
            None => {
                return Err(validation("XBEL contains too many nodes"));
            },
        };
        let mut flat: Vec<FlatNode> = Vec::new();
        let ParsedDocument { title, nodes } = doc;
        flatten_nodes(nodes, None, &mut flat);
        assert(flats_v(flat@) =~= flat_list(dv.nodes, None, 0, 0));
        match assign_external_ids(&mut flat, next_external_id) {
            Some(next) => Ok((title, flat, next)),
            None => Err(validation("XBEL contains too many nodes")),
        }
    }

    /// What replacing a document from an uploaded XBEL file stores: the
    /// upload read as `parse_upload` reads it, then planned as
    /// `plan_upload` plans it.
    pub fn plan_replace(user: &AuthUser, content: &[u8], next_external_id: i64) -> (r: AppResult<(String, Vec<FlatNode>, i64)>)
        ensures
            !may_write(*user) ==> (r matches Err(e) && e == AppError::Forbidden),
            may_write(*user) && !vstd::utf8::valid_utf8(content@) ==>
                (r matches Err(e) && e@ == ErrorV::Validation("XBEL must be UTF-8"@)),
            may_write(*user) && vstd::utf8::valid_utf8(content@) ==> match spec_parse_xbel(vstd::utf8::decode_utf8(content@)) {
                Err(e) => r matches Err(x) && x@ == e,
                Ok(d) => {
                    let flat = flat_list(d.nodes, None, 0, 0);
                    if nodes_count(d.nodes) > usize::MAX {
                        r matches Err(x) && x@ == ErrorV::Validation("XBEL contains too many nodes"@)
                    } else {
                        match assign_ids(ext_ids(flat), Seq::empty(), max_i64(next_external_id, 1)) {
                            None => r matches Err(x) && x@ == ErrorV::Validation("XBEL contains too many nodes"@),
                            Some((ids, n)) => r matches Ok((title, nodes, next)) && title@ == d.title && next == n
                                && flats_v(nodes@) == Seq::new(flat.len(), |i: int| with_id(flat[i], ids[i])),
                        }
                    }
                },
            },
    {
        let doc = match parse_upload(user, content) {
            Ok(d) => d,
            Err(e) => {
                return Err(e);
            },
        };
        Self::plan_upload(doc, next_external_id)
    }
}

/// The parent a node gets from an edit.
pub open spec fn target_parent_of(req_parent: Option<Option<i64>>, current: Option<i64>) -> Option<i64> {
    match req_parent {
        Some(p) => p,
        None => current,
    }
}

impl UpdateNodeInput {
    /// The parent that the edited node will have.
    pub fn target_parent(&self, current: Option<i64>) -> (p: Option<i64>)
        ensures
            p == target_parent_of(self.parent_id, current),
    {
        match self.parent_id {
            Some(p) => p,
            None => current,
        }
    }
}

/// The fields of an edited node, before they are stored trimmed.
#[derive(Debug)]
pub struct NodeEdit {
    pub parent_id: Option<i64>,
    pub title: String,
    pub url: Option<String>,
    pub description: String,
}

pub open spec fn opt_str_v(o: Option<String>) -> Option<Seq<char>> {
    match o {
        Some(s) => Some(s@),
        None => None,
    }
}

/// The edit of node `id` (now `existing`) by `req`: a move under itself or
/// under one of its descendants (`descendant`, as the store says of the new
/// parent) is refused; fields left out keep their values; the result must
/// still be a valid node of its type.
pub fn resolve_update(id: i64, existing: &BookmarkNode, req: UpdateNodeInput, descendant: bool) -> (r: AppResult<NodeEdit>)
    ensures
        ({
            let parent = target_parent_of(req.parent_id, existing.parent_id);
            let title = match req.title { Some(t) => t@, None => existing.title@ };
            let url = match req.url { Some(u) => opt_str_v(u), None => opt_str_v(existing.url) };
            let description = match req.description { Some(d) => d@, None => existing.description@ };
            let err = node_input_error(existing.node_type@, title, match url { Some(u) => u, None => Seq::empty() });
            if parent == Some(id) || descendant {
                r matches Err(e) && e == AppError::CircularRef
            } else if err is Some {
                r matches Err(e) && e@ == ErrorV::Validation(err->Some_0)
            } else {
                r matches Ok(ed) && ed.parent_id == parent && ed.title@ == title && opt_str_v(ed.url) == url
                    && ed.description@ == description
            }
        }),
{
    let parent = req.target_parent(existing.parent_id);
    if parent == Some(id) || descendant {
        return Err(AppError::CircularRef);
    }
    let title = match req.title {
        Some(t) => t,
        None => existing.title.clone(),
    };
    let url = match req.url {
        Some(u) => u,
        None => match &existing.url {
            Some(u) => Some(u.clone()),
            None => None,
        },
    };
    let description = match req.description {
        Some(d) => d,
        None => existing.description.clone(),
    };
    let checked = match &url {
        Some(u) => validate_node_input(existing.node_type.as_str(), title.as_str(), Some(u.as_str())),
        None => validate_node_input(existing.node_type.as_str(), title.as_str(), None),
    };
    match checked {
        Ok(()) => Ok(NodeEdit { parent_id: parent, title, url, description }),
        Err(e) => Err(e),
    }
}

} // verus!
