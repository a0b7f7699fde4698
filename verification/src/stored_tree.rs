//! Storing an uploaded tree and reading it back: the rows that a layout of
//! the tree becomes, read in `(position, id)` order, build the same tree.
use vstd::prelude::*;
use crate::bookmark::{FlatV, Groups, add_to_group, bare, bookmark_forest, descend, flat_list, group_by_parent,
    group_tags, key_index, lemma_flat_list_len, lemma_key_index, nodes_count, take_tags, visit};
use crate::domain::TreeV;
use crate::domain::BookmarkNode;
use crate::xbel::{NodeKind, XDoc, XNode, opt_view};
use crate::xbel_read::{document_evs, forest_count, forest_depth, forest_urls_ok, lemma_written_document_reads_back,
    leaf, node_count, node_depth, node_urls_ok, read_events, read_forest, read_node, written};
use crate::error::ErrorV;
use crate::text::utf8_len;

verus! {

/// The entry indices of the top-level nodes of `ns` in a layout that puts
/// the first of them at `start`.
pub open spec fn tops(ns: Seq<XNode>, start: int) -> Seq<int>
    decreases ns.len(),
{
    if ns.len() == 0 {
        Seq::empty()
    } else {
        seq![start] + tops(ns.drop_first(), start + 1 + nodes_count(ns[0].children))
    }
}

proof fn lemma_tops_len(ns: Seq<XNode>, start: int)
    ensures
        tops(ns, start).len() == ns.len(),
    decreases ns.len(),
{
    if ns.len() > 0 {
        lemma_tops_len(ns.drop_first(), start + 1 + nodes_count(ns[0].children));
    }
}

proof fn lemma_count_len(ns: Seq<XNode>)
    ensures
        nodes_count(ns) >= ns.len(),
    decreases ns.len(),
{
    if ns.len() > 0 {
        lemma_count_len(ns.drop_first());
    }
}

/// The shape of a layout `flat_list(ns, parent, base, pos)`: every entry's
/// parent is `parent` or an earlier entry of the layout; the entries whose
/// parent is `parent` are exactly the top-level nodes, in order, at their
/// positions from `pos` on.
pub proof fn lemma_layout_shape(ns: Seq<XNode>, parent: Option<usize>, base: int, pos: int)
    requires
        base >= 0,
        base + nodes_count(ns) <= usize::MAX,
        base + nodes_count(ns) <= i64::MAX,
        pos >= 0,
        pos + nodes_count(ns) <= i64::MAX,
        parent matches Some(p) ==> p < base,
    ensures
        ({
            let seg = flat_list(ns, parent, base, pos);
            let t = tops(ns, base);
            &&& seg.len() == nodes_count(ns)
            &&& t.len() == ns.len()
            &&& forall|i: int| 0 <= i < seg.len() ==> (#[trigger] seg[i]).parent_index == parent
                || (seg[i].parent_index matches Some(q) && base <= q < base + i)
            &&& forall|x: int| 0 <= x < t.len() ==> base <= #[trigger] t[x] < base + seg.len()
                && seg[t[x] - base].parent_index == parent && seg[t[x] - base].position == pos + x
                && seg[t[x] - base].node == bare(ns[x])
            &&& forall|x: int, y: int| 0 <= x < y < t.len() ==> t[x] < t[y]
            &&& forall|i: int| 0 <= i < seg.len() && (#[trigger] seg[i]).parent_index == parent
                ==> exists|x: int| 0 <= x < t.len() && t[x] == base + i
        }),
    decreases ns,
{
    lemma_count_len(ns);
    lemma_flat_list_len(ns, parent, base, pos);
    if ns.len() > 0 {
        let seg = flat_list(ns, parent, base, pos);
        let head = FlatV { parent_index: parent, position: pos as i64, node: bare(ns[0]) };
        let sub = flat_list(ns[0].children, Some(base as usize), base + 1, 0);
        let b2 = base + 1 + sub.len();
        let rest = flat_list(ns.drop_first(), parent, b2, pos + 1);
        lemma_flat_list_len(ns[0].children, Some(base as usize), base + 1, 0);
        lemma_flat_list_len(ns.drop_first(), parent, b2, pos + 1);
        assert(nodes_count(ns) == 1 + nodes_count(ns[0].children) + nodes_count(ns.drop_first()));
        lemma_layout_shape(ns[0].children, Some(base as usize), base + 1, 0);
        lemma_layout_shape(ns.drop_first(), parent, b2, pos + 1);
        assert(seg == seq![head] + sub + rest);
        let t = tops(ns, base);
        let tr = tops(ns.drop_first(), b2);
        lemma_tops_len(ns.drop_first(), b2);
        assert(t == seq![base] + tr);
        assert forall|i: int| 0 <= i < seg.len() implies (#[trigger] seg[i]).parent_index == parent
            || (seg[i].parent_index matches Some(q) && base <= q < base + i) by {
            if i == 0 {
            } else if i < 1 + sub.len() {
                assert(seg[i] == sub[i - 1]);
            } else {
                assert(seg[i] == rest[i - 1 - sub.len()]);
            }
        }
        assert forall|x: int| 0 <= x < t.len() implies base <= #[trigger] t[x] < base + seg.len()
            && seg[t[x] - base].parent_index == parent && seg[t[x] - base].position == pos + x
            && seg[t[x] - base].node == bare(ns[x]) by {
            if x > 0 {
                assert(t[x] == tr[x - 1]);
                assert(seg[t[x] - base] == rest[tr[x - 1] - b2]);
                assert(ns.drop_first()[x - 1] == ns[x]);
            }
        }
        assert forall|i: int| 0 <= i < seg.len() && (#[trigger] seg[i]).parent_index == parent
            implies exists|x: int| 0 <= x < t.len() && t[x] == base + i by {
            if i == 0 {
                assert(t[0] == base + i);
            } else if i < 1 + sub.len() {
                assert(seg[i] == sub[i - 1]);
                assert(false);
            } else {
                assert(seg[i] == rest[i - 1 - sub.len()]);
                let x = choose|x: int| 0 <= x < tr.len() && tr[x] == b2 + (i - 1 - sub.len());
                assert(t[x + 1] == base + i);
            }
        }
    }
}


/// Whether `c` lists, in order, exactly the entries of `fs` whose parent is
/// `p`, the one at `c[x]` having position `x`.
pub open spec fn children_of(fs: Seq<FlatV>, p: Option<usize>, c: Seq<int>) -> bool {
    &&& forall|x: int| 0 <= x < c.len() ==> 0 <= #[trigger] c[x] < fs.len() && fs[c[x]].parent_index == p
        && fs[c[x]].position == x
    &&& forall|x: int, y: int| 0 <= x < y < c.len() ==> c[x] < c[y]
    &&& forall|k: int| 0 <= k < fs.len() && (#[trigger] fs[k]).parent_index == p
        ==> exists|x: int| 0 <= x < c.len() && c[x] == k
}

/// Whether the layout `flat_list(ns, parent, base, pos)` stands in `fs` at
/// `base`, and no entry outside it has a parent inside it.
pub open spec fn embedded(fs: Seq<FlatV>, ns: Seq<XNode>, parent: Option<usize>, base: int, pos: int) -> bool {
    let n = nodes_count(ns);
    &&& 0 <= base
    &&& base + n <= fs.len()
    &&& fs.subrange(base, base + n) == flat_list(ns, parent, base, pos)
    &&& forall|k: int| 0 <= k < fs.len() && !(base <= k < base + n)
        ==> !((#[trigger] fs[k]).parent_index matches Some(q) && base <= q < base + n)
}

/// In an embedded layout, the children of its first node are the top-level
/// nodes of that node's own layout, and the layouts of those children and
/// of the following siblings are embedded too.
pub proof fn lemma_first_children(fs: Seq<FlatV>, ns: Seq<XNode>, parent: Option<usize>, base: int, pos: int)
    requires
        ns.len() > 0,
        embedded(fs, ns, parent, base, pos),
        fs.len() <= usize::MAX,
        fs.len() <= i64::MAX,
        pos >= 0,
        pos + nodes_count(ns) <= i64::MAX,
        parent matches Some(p) ==> p < base,
    ensures
        children_of(fs, Some(base as usize), tops(ns[0].children, base + 1)),
        embedded(fs, ns[0].children, Some(base as usize), base + 1, 0),
        embedded(fs, ns.drop_first(), parent, base + 1 + nodes_count(ns[0].children), pos + 1),
        fs[base] == (FlatV { parent_index: parent, position: pos as i64, node: bare(ns[0]) }),
{
    let n = nodes_count(ns);
    let seg = flat_list(ns, parent, base, pos);
    let head = FlatV { parent_index: parent, position: pos as i64, node: bare(ns[0]) };
    let sub = flat_list(ns[0].children, Some(base as usize), base + 1, 0);
    let s = nodes_count(ns[0].children);
    let b2 = base + 1 + s;
    let rest = flat_list(ns.drop_first(), parent, b2, pos + 1);
    lemma_layout_shape(ns, parent, base, pos);
    lemma_layout_shape(ns[0].children, Some(base as usize), base + 1, 0);
    lemma_layout_shape(ns.drop_first(), parent, b2, pos + 1);
    assert(n == 1 + s + nodes_count(ns.drop_first()));
    assert(seg == seq![head] + sub + rest);
    assert(sub.len() == s);
    assert forall|i: int| 0 <= i < seg.len() implies fs[base + i] == #[trigger] seg[i] by {
        assert(fs.subrange(base, base + n)[i] == fs[base + i]);
    }
    assert(fs[base] == seg[0]);
    let c = tops(ns[0].children, base + 1);
    assert forall|x: int| 0 <= x < c.len() implies 0 <= #[trigger] c[x] < fs.len()
        && fs[c[x]].parent_index == Some(base as usize) && fs[c[x]].position == x by {
        assert(fs[c[x]] == seg[c[x] - base]);
        assert(seg[c[x] - base] == sub[c[x] - base - 1]);
    }
    assert forall|k: int| 0 <= k < fs.len() && (#[trigger] fs[k]).parent_index == Some(base as usize)
        implies exists|x: int| 0 <= x < c.len() && c[x] == k by {
        if base <= k < base + n {
            assert(fs[k] == seg[k - base]);
            if k == base {
                assert(false);
            } else if k < b2 {
                assert(seg[k - base] == sub[k - base - 1]);
                assert(sub[k - base - 1].parent_index == Some(base as usize));
            } else {
                assert(seg[k - base] == rest[k - b2]);
                assert(false);
            }
        } else {
            assert(false);
        }
    }
    assert(fs.subrange(base + 1, base + 1 + s) =~= sub) by {
        assert forall|i: int| 0 <= i < s implies fs.subrange(base + 1, base + 1 + s)[i] == sub[i] by {
            assert(seg[1 + i] == sub[i]);
        }
    }
    assert forall|k: int| 0 <= k < fs.len() && !(base + 1 <= k < base + 1 + s)
        implies !((#[trigger] fs[k]).parent_index matches Some(q) && base + 1 <= q < base + 1 + s) by {
        if base <= k < base + n {
            assert(fs[k] == seg[k - base]);
            if k >= b2 {
                assert(seg[k - base] == rest[k - b2]);
            }
        }
    }
    let r = nodes_count(ns.drop_first());
    assert(fs.subrange(b2, b2 + r) =~= rest) by {
        assert forall|i: int| 0 <= i < r implies fs.subrange(b2, b2 + r)[i] == rest[i] by {
            assert(seg[1 + s + i] == rest[i]);
        }
    }
    assert forall|k: int| 0 <= k < fs.len() && !(b2 <= k < b2 + r)
        implies !((#[trigger] fs[k]).parent_index matches Some(q) && b2 <= q < b2 + r) by {
        if base <= k < base + n {
            assert(fs[k] == seg[k - base]);
            if 1 <= k - base < 1 + s {
                assert(seg[k - base] == sub[k - base - 1]);
            }
        }
    }
}


/// The stored parent of an entry whose parent is the entry at index `p`.
pub open spec fn pkey(p: Option<usize>, ids: Seq<i64>) -> Option<i64> {
    match p {
        Some(j) => Some(ids[j as int]),
        None => None,
    }
}

/// Whether `r` is the row stored for the layout entry `f` at index `k`,
/// the entries being stored under the row ids `ids`.
pub open spec fn row_of(r: BookmarkNode, f: FlatV, ids: Seq<i64>, k: int) -> bool {
    &&& r.id == ids[k]
    &&& r.parent_id == pkey(f.parent_index, ids)
    &&& r.position == f.position
    &&& r.node_type@ == f.node.kind.name()
    &&& Some(r.external_id@) == f.node.external_id
    &&& r.title@ == f.node.title
    &&& opt_view(r.url) == f.node.url
    &&& r.description@ == f.node.description
}

/// Whether `rows` are the entries of the layout `fs` stored under the
/// distinct ids `ids`, one row each, listed in `(position, id)` order.
#[verifier::opaque]
pub open spec fn stored_rows(rows: Seq<BookmarkNode>, fs: Seq<FlatV>, ids: Seq<i64>) -> bool {
    &&& rows.len() == fs.len()
    &&& ids.len() == fs.len()
    &&& forall|i: int, j: int| 0 <= i < j < ids.len() ==> ids[i] != ids[j]
    &&& forall|i: int| 0 <= i < rows.len() ==> exists|k: int| 0 <= k < fs.len() && row_of(#[trigger] rows[i], fs[k], ids, k)
    &&& forall|k: int| 0 <= k < fs.len() ==> exists|i: int| 0 <= i < rows.len() && row_of(rows[i], #[trigger] fs[k], ids, k)
    &&& forall|i: int, j: int| 0 <= i < j < rows.len() ==> (#[trigger] rows[i]).position < (#[trigger] rows[j]).position
        || (rows[i].position == rows[j].position && rows[i].id < rows[j].id)
}

/// The indices of the rows under parent `key`, in order.
pub open spec fn under_idx(rows: Seq<BookmarkNode>, key: Option<i64>) -> Seq<int>
    decreases rows.len(),
{
    if rows.len() == 0 {
        Seq::empty()
    } else if rows.last().parent_id == key {
        under_idx(rows.drop_last(), key).push(rows.len() - 1)
    } else {
        under_idx(rows.drop_last(), key)
    }
}

proof fn lemma_under_idx(rows: Seq<BookmarkNode>, key: Option<i64>)
    ensures
        forall|y: int| 0 <= y < under_idx(rows, key).len() ==> 0 <= #[trigger] under_idx(rows, key)[y] < rows.len()
            && rows[under_idx(rows, key)[y]].parent_id == key,
        forall|y: int, z: int| 0 <= y < z < under_idx(rows, key).len() ==> under_idx(rows, key)[y] < under_idx(rows, key)[z],
        forall|i: int| 0 <= i < rows.len() && (#[trigger] rows[i]).parent_id == key
            ==> exists|y: int| 0 <= y < under_idx(rows, key).len() && under_idx(rows, key)[y] == i,
    decreases rows.len(),
{
    if rows.len() > 0 {
        let d = rows.drop_last();
        lemma_under_idx(d, key);
        let u0 = under_idx(d, key);
        let u = under_idx(rows, key);
        assert forall|y: int| 0 <= y < u.len() implies 0 <= #[trigger] u[y] < rows.len()
            && rows[u[y]].parent_id == key by {
            if y < u0.len() {
                assert(u[y] == u0[y]);
                assert(rows[u0[y]] == d[u0[y]]);
            }
        }
        assert forall|i: int| 0 <= i < rows.len() && (#[trigger] rows[i]).parent_id == key
            implies exists|y: int| 0 <= y < u.len() && u[y] == i by {
            if i < rows.len() - 1 {
                assert(d[i] == rows[i]);
                let y = choose|y: int| 0 <= y < u0.len() && u0[y] == i;
                assert(u[y] == i);
            } else {
                assert(u[u.len() - 1] == i);
            }
        }
    }
}

/// Whether some element of `f` is `v`.
pub open spec fn attained(f: Seq<int>, v: int) -> bool {
    exists|a: int| 0 <= a < f.len() && #[trigger] f[a] == v
}

proof fn lemma_increasing_ge(f: Seq<int>, y: int)
    requires
        0 <= y < f.len(),
        forall|a: int| 0 <= a < f.len() ==> 0 <= #[trigger] f[a],
        forall|a: int, b: int| 0 <= a < b < f.len() ==> f[a] < f[b],
    ensures
        f[y] >= y,
    decreases y,
{
    if y > 0 {
        lemma_increasing_ge(f, y - 1);
    }
}

/// A strictly increasing sequence onto `0..m` is `0, 1, ..., m - 1`.
proof fn lemma_increasing_onto(f: Seq<int>, m: int)
    requires
        m >= 0,
        forall|a: int| 0 <= a < f.len() ==> 0 <= #[trigger] f[a] < m,
        forall|a: int, b: int| 0 <= a < b < f.len() ==> f[a] < f[b],
        forall|v: int| 0 <= v < m ==> #[trigger] attained(f, v),
    ensures
        f.len() == m,
        forall|a: int| 0 <= a < f.len() ==> #[trigger] f[a] == a,
{
    assert forall|a: int| 0 <= a < f.len() implies #[trigger] f[a] == a by {
        lemma_onto_at(f, m, a);
    }
    if f.len() > m {
        assert(0 <= f[0] < m);
        assert(f[m] == m);
        assert(false);
    }
    if f.len() < m {
        assert(attained(f, m - 1));
        let a = choose|a: int| 0 <= a < f.len() && #[trigger] f[a] == m - 1;
        assert(f[a] == a);
    }
}

proof fn lemma_onto_at(f: Seq<int>, m: int, y: int)
    requires
        0 <= y < f.len(),
        forall|a: int| 0 <= a < f.len() ==> 0 <= #[trigger] f[a] < m,
        forall|a: int, b: int| 0 <= a < b < f.len() ==> f[a] < f[b],
        forall|v: int| 0 <= v < m ==> #[trigger] attained(f, v),
    ensures
        f[y] == y,
    decreases y,
{
    lemma_increasing_ge(f, y);
    assert(attained(f, y));
    let z = choose|a: int| 0 <= a < f.len() && #[trigger] f[a] == y;
    if z < y {
        lemma_onto_at(f, m, z);
    } else if z > y {
    }
}

/// A row under the stored parent of `p` is stored from a child of `p`.
proof fn lemma_row_under(rows: Seq<BookmarkNode>, fs: Seq<FlatV>, ids: Seq<i64>, p: Option<usize>, c: Seq<int>, i: int)
    requires
        stored_rows(rows, fs, ids),
        children_of(fs, p, c),
        p matches Some(j) ==> j < fs.len(),
        forall|k: int| 0 <= k < fs.len() ==> ((#[trigger] fs[k]).parent_index matches Some(j) ==> j < fs.len()),
        0 <= i < rows.len(),
        rows[i].parent_id == pkey(p, ids),
    ensures
        exists|x: int| 0 <= x < c.len() && row_of(rows[i], fs[c[x]], ids, c[x]),
{
    reveal(stored_rows);
    let k = choose|k: int| 0 <= k < fs.len() && row_of(rows[i], fs[k], ids, k);
    assert(fs[k].parent_index == p) by {
        match (fs[k].parent_index, p) {
            (Some(j), Some(b)) => {
                if j != b {
                    if (j as int) < (b as int) {
                        assert(ids[j as int] != ids[b as int]);
                    } else {
                        assert(ids[b as int] != ids[j as int]);
                    }
                }
            },
            _ => {},
        }
    }
    let x = choose|x: int| 0 <= x < c.len() && c[x] == k;
    assert(row_of(rows[i], fs[c[x]], ids, c[x]));
}

proof fn lemma_rows_ordered(rows: Seq<BookmarkNode>, fs: Seq<FlatV>, ids: Seq<i64>, i: int, j: int)
    requires
        stored_rows(rows, fs, ids),
        0 <= i < j < rows.len(),
    ensures
        rows[i].position < rows[j].position || (rows[i].position == rows[j].position && rows[i].id < rows[j].id),
{
    reveal(stored_rows);
}

proof fn lemma_row_stored(rows: Seq<BookmarkNode>, fs: Seq<FlatV>, ids: Seq<i64>, k: int)
    requires
        stored_rows(rows, fs, ids),
        0 <= k < fs.len(),
    ensures
        exists|i: int| 0 <= i < rows.len() && row_of(rows[i], fs[k], ids, k),
{
    reveal(stored_rows);
    let f = fs[k];
    assert(exists|i: int| 0 <= i < rows.len() && row_of(rows[i], f, ids, k));
}

/// The rows under the stored parent of `p` are the rows of `p`'s children,
/// in order.
pub proof fn lemma_under_children(rows: Seq<BookmarkNode>, fs: Seq<FlatV>, ids: Seq<i64>, p: Option<usize>, c: Seq<int>)
    requires
        stored_rows(rows, fs, ids),
        children_of(fs, p, c),
        p matches Some(j) ==> j < fs.len(),
        forall|k: int| 0 <= k < fs.len() ==> ((#[trigger] fs[k]).parent_index matches Some(j) ==> j < fs.len()),
    ensures
        under_idx(rows, pkey(p, ids)).len() == c.len(),
        forall|x: int| 0 <= x < c.len() ==> row_of(rows[#[trigger] under_idx(rows, pkey(p, ids))[x]], fs[c[x]], ids, c[x]),
{
    let key = pkey(p, ids);
    let u = under_idx(rows, key);
    lemma_under_idx(rows, key);
    let f = Seq::new(u.len(), |y: int| rows[u[y]].position as int);
    assert forall|a: int| 0 <= a < f.len() implies 0 <= #[trigger] f[a] < c.len() by {
        lemma_row_under(rows, fs, ids, p, c, u[a]);
    }
    assert forall|a: int, b: int| 0 <= a < b < f.len() implies f[a] < f[b] by {
        lemma_row_under(rows, fs, ids, p, c, u[a]);
        lemma_row_under(rows, fs, ids, p, c, u[b]);
        let xa = choose|x: int| 0 <= x < c.len() && row_of(rows[u[a]], fs[c[x]], ids, c[x]);
        let xb = choose|x: int| 0 <= x < c.len() && row_of(rows[u[b]], fs[c[x]], ids, c[x]);
        assert(u[a] < u[b]);
        lemma_rows_ordered(rows, fs, ids, u[a], u[b]);
    }
    assert forall|v: int| 0 <= v < c.len() implies #[trigger] attained(f, v) by {
        lemma_row_stored(rows, fs, ids, c[v]);
        let i = choose|i: int| 0 <= i < rows.len() && row_of(rows[i], fs[c[v]], ids, c[v]);
        assert(rows[i].parent_id == key);
        let a = choose|a: int| 0 <= a < u.len() && u[a] == i;
        assert(f[a] == v);
    }
    lemma_increasing_onto(f, c.len() as int);
    assert forall|x: int| 0 <= x < c.len() implies row_of(rows[#[trigger] u[x]], fs[c[x]], ids, c[x]) by {
        lemma_row_under(rows, fs, ids, p, c, u[x]);
        let x2 = choose|x2: int| 0 <= x2 < c.len() && row_of(rows[u[x]], fs[c[x2]], ids, c[x2]);
        assert(f[x] == x);
    }
}


/// The rows under parent `key`, in order.
pub open spec fn under_rows(rows: Seq<BookmarkNode>, key: Option<i64>) -> Seq<BookmarkNode>
    decreases rows.len(),
{
    if rows.len() == 0 {
        Seq::empty()
    } else if rows.last().parent_id == key {
        under_rows(rows.drop_last(), key).push(rows.last())
    } else {
        under_rows(rows.drop_last(), key)
    }
}

proof fn lemma_under_rows(rows: Seq<BookmarkNode>, key: Option<i64>)
    ensures
        under_rows(rows, key).len() == under_idx(rows, key).len(),
        forall|y: int| 0 <= y < under_rows(rows, key).len()
            ==> #[trigger] under_rows(rows, key)[y] == rows[under_idx(rows, key)[y]],
    decreases rows.len(),
{
    if rows.len() > 0 {
        let d = rows.drop_last();
        lemma_under_rows(d, key);
        lemma_under_idx(d, key);
        assert forall|y: int| 0 <= y < under_rows(rows, key).len()
            implies #[trigger] under_rows(rows, key)[y] == rows[under_idx(rows, key)[y]] by {
            if y < under_rows(d, key).len() {
                assert(d[under_idx(d, key)[y]] == rows[under_idx(d, key)[y]]);
            }
        }
    }
}

/// Whether the keys of `gs` are distinct.
pub open spec fn keys_distinct<K, V>(gs: Seq<(K, V)>) -> bool {
    forall|a: int, b: int| 0 <= a < b < gs.len() ==> gs[a].0 != gs[b].0
}

proof fn lemma_key_at<K, V>(gs: Seq<(K, V)>, k: K)
    requires
        keys_distinct(gs),
    ensures
        forall|g: int| 0 <= g < gs.len() && gs[g].0 == k ==> key_index(gs, k) == Some(g),
        (forall|g: int| 0 <= g < gs.len() ==> gs[g].0 != k) ==> key_index(gs, k) is None,
        key_index(gs, k) matches Some(g) ==> 0 <= g < gs.len() && gs[g].0 == k,
{
    assert forall|g: int| 0 <= g < gs.len() && gs[g].0 == k implies key_index(gs, k) == Some(g) by {
        lemma_key_index(gs, k, g);
    }
    if forall|g: int| 0 <= g < gs.len() ==> gs[g].0 != k {
        lemma_key_index(gs, k, gs.len() as int);
    }
    lemma_key_index_range(gs, k);
}

proof fn lemma_key_index_range<K, V>(gs: Seq<(K, V)>, k: K)
    ensures
        key_index(gs, k) matches Some(g) ==> 0 <= g < gs.len() && gs[g].0 == k,
    decreases gs.len(),
{
    if gs.len() > 0 && !(gs[0].0 == k) {
        lemma_key_index_range(gs.drop_first(), k);
    }
}

/// Whether `gs` holds the rows under `key` as `group_by_parent` groups them.
pub open spec fn group_ok(gs: Groups, rows: Seq<BookmarkNode>, key: Option<i64>) -> bool {
    match key_index(gs, key) {
        Some(g) => gs[g].1 == under_rows(rows, key) && under_rows(rows, key).len() > 0,
        None => under_rows(rows, key).len() == 0,
    }
}

/// `group_by_parent` groups every key's rows, in order, under distinct keys.
proof fn lemma_groups(rows: Seq<BookmarkNode>)
    ensures
        keys_distinct(group_by_parent(rows)),
        forall|key: Option<i64>| #[trigger] group_ok(group_by_parent(rows), rows, key),
    decreases rows.len(),
{
    if rows.len() > 0 {
        let d = rows.drop_last();
        let r = rows.last();
        let p = r.parent_id;
        lemma_groups(d);
        let g0 = group_by_parent(d);
        let g1 = group_by_parent(rows);
        lemma_key_at(g0, p);
        match key_index(g0, p) {
            Some(j) => {
                assert(g1 == g0.update(j, (p, g0[j].1.push(r))));
                assert(keys_distinct(g1));
                assert forall|key: Option<i64>| #[trigger] group_ok(g1, rows, key) by {
                    lemma_key_at(g0, key);
                    lemma_key_at(g1, key);
                    assert(group_ok(g0, d, key));
                    if key == p {
                        assert(g1[j].0 == key);
                    } else {
                        match key_index(g0, key) {
                            Some(g) => {
                                assert(g1[g].0 == key);
                            },
                            None => {
                                assert forall|g: int| 0 <= g < g1.len() implies g1[g].0 != key by {
                                    assert(g1[g].0 == g0[g].0);
                                }
                            },
                        }
                    }
                }
            },
            None => {
                assert(g1 == g0.push((p, seq![r])));
                assert(keys_distinct(g1));
                assert forall|key: Option<i64>| #[trigger] group_ok(g1, rows, key) by {
                    lemma_key_at(g0, key);
                    lemma_key_at(g1, key);
                    assert(group_ok(g0, d, key));
                    assert(group_ok(g0, d, p));
                    if key == p {
                        assert(g1[g0.len() as int].0 == key);
                        assert(under_rows(d, p) =~= Seq::<BookmarkNode>::empty());
                        assert(under_rows(rows, p) =~= seq![r]);
                    } else {
                        match key_index(g0, key) {
                            Some(g) => {
                                assert(g1[g] == g0[g]);
                            },
                            None => {
                                assert forall|g: int| 0 <= g < g1.len() implies g1[g].0 != key by {
                                    if g < g0.len() {
                                        assert(g1[g] == g0[g]);
                                    }
                                }
                            },
                        }
                    }
                }
            },
        }
    }
}

/// Taking a group out keeps every other key's group.
proof fn lemma_remove_group(gs: Groups, rows: Seq<BookmarkNode>, g: int, key: Option<i64>)
    requires
        keys_distinct(gs),
        0 <= g < gs.len(),
        gs[g].0 != key,
        group_ok(gs, rows, key),
    ensures
        keys_distinct(gs.remove(g)),
        group_ok(gs.remove(g), rows, key),
{
    let hs = gs.remove(g);
    assert forall|a: int, b: int| 0 <= a < b < hs.len() implies hs[a].0 != hs[b].0 by {
        let a0 = if a < g { a } else { a + 1 };
        let b0 = if b < g { b } else { b + 1 };
        assert(hs[a] == gs[a0]);
        assert(hs[b] == gs[b0]);
    }
    lemma_key_at(gs, key);
    lemma_key_at(hs, key);
    match key_index(gs, key) {
        Some(h) => {
            let h2 = if h < g { h } else { h - 1 };
            assert(hs[h2] == gs[h]);
        },
        None => {
            assert forall|a: int| 0 <= a < hs.len() implies hs[a].0 != key by {
                let a0 = if a < g { a } else { a + 1 };
                assert(hs[a] == gs[a0]);
            }
        },
    }
}


/// Whether the tree read from the store, `t`, is the uploaded node `x`:
/// the same kind, external id, title, URL and description, no tags, and the
/// same children in the same order.
pub open spec fn tree_is(t: TreeV, x: XNode) -> bool
    decreases x, 0nat,
{
    &&& t.node.node_type@ == x.kind.name()
    &&& Some(t.node.external_id@) == x.external_id
    &&& t.node.title@ == x.title
    &&& opt_view(t.node.url) == x.url
    &&& t.node.description@ == x.description
    &&& t.tags.len() == 0
    &&& forest_is(t.children, x.children)
}

/// Whether the trees `ts` are the nodes `xs`, one for one, in order.
pub open spec fn forest_is(ts: Seq<TreeV>, xs: Seq<XNode>) -> bool
    decreases xs, xs.len(),
{
    if xs.len() == 0 {
        ts.len() == 0
    } else {
        ts.len() > 0 && tree_is(ts[0], xs[0]) && forest_is(ts.drop_first(), xs.drop_first())
    }
}

/// Whether `kids` are the rows of the top-level nodes of the layout of `ns`
/// that starts at `base`.
pub open spec fn kid_rows(kids: Seq<BookmarkNode>, fs: Seq<FlatV>, ids: Seq<i64>, ns: Seq<XNode>, base: int) -> bool {
    &&& kids.len() == ns.len()
    &&& forall|x: int| 0 <= x < kids.len() ==> row_of(#[trigger] kids[x], fs[tops(ns, base)[x]], ids, tops(ns, base)[x])
}

/// Reading the stored rows back, node by node: `visit` of the rows of the
/// top-level nodes of an embedded layout builds those nodes with their
/// subtrees, taking out only the groups of the layout's own entries.
proof fn lemma_visit_layout(
    rows: Seq<BookmarkNode>,
    fs: Seq<FlatV>,
    ids: Seq<i64>,
    ns: Seq<XNode>,
    parent: Option<usize>,
    base: int,
    pos: int,
    kids: Seq<BookmarkNode>,
    gs: Groups,
    fuel: nat,
)
    requires
        stored_rows(rows, fs, ids),
        forall|a: int, b: int| 0 <= a < b < ids.len() ==> ids[a] != ids[b],
        ids.len() == fs.len(),
        fs.len() <= usize::MAX,
        fs.len() <= i64::MAX,
        forall|k: int| 0 <= k < fs.len() ==> ((#[trigger] fs[k]).parent_index matches Some(j) ==> j < k),
        embedded(fs, ns, parent, base, pos),
        pos >= 0,
        pos + nodes_count(ns) <= i64::MAX,
        parent matches Some(p) ==> p < base,
        kid_rows(kids, fs, ids, ns, base),
        keys_distinct(gs),
        forall|j: int| base <= j < fs.len() ==> #[trigger] group_ok(gs, rows, Some(ids[j])),
        fuel >= gs.len(),
    ensures
        ({
            let (trees, gs2, ts2) = visit(kids, gs, Seq::empty(), fuel);
            &&& forest_is(trees, ns)
            &&& ts2 == Seq::<(i64, Seq<Seq<char>>)>::empty()
            &&& keys_distinct(gs2)
            &&& gs2.len() <= gs.len()
            &&& forall|j: int| base + nodes_count(ns) <= j < fs.len() ==> #[trigger] group_ok(gs2, rows, Some(ids[j]))
        }),
    decreases nodes_count(ns), 1nat,
{
    if ns.len() == 0 {
        assert(kids.len() == 0);
    } else {
        let k = kids[0];
        let t = tops(ns, base);
        let s = nodes_count(ns[0].children);
        let b2 = base + 1 + s;
        let tr = tops(ns.drop_first(), b2);
        lemma_tops_len(ns.drop_first(), b2);
        assert(t == seq![base] + tr);
        assert(t[0] == base);
        assert(row_of(kids[0], fs[t[0]], ids, t[0]));
        lemma_first_children(fs, ns, parent, base, pos);
        assert(nodes_count(ns) == 1 + s + nodes_count(ns.drop_first()));
        let empty_tags = Seq::<(i64, Seq<Seq<char>>)>::empty();
        assert(take_tags(empty_tags, k.id) == (Seq::<Seq<char>>::empty(), empty_tags));
        lemma_first_subtree(rows, fs, ids, ns, parent, base, pos, gs, fuel);
        let d = descend(Some(k.id), gs, empty_tags, fuel);
        let sub = d.0;
        let gs1 = d.1;
        let kr = kids.drop_first();
        assert(kid_rows(kr, fs, ids, ns.drop_first(), b2)) by {
            assert forall|x: int| 0 <= x < kr.len() implies row_of(#[trigger] kr[x], fs[tr[x]], ids, tr[x]) by {
                assert(tr[x] == t[x + 1]);
                assert(kr[x] == kids[x + 1]);
            }
        }
        lemma_visit_layout(rows, fs, ids, ns.drop_first(), parent, b2, pos + 1, kr, gs1, fuel);
        let v = visit(kids, gs, empty_tags, fuel);
        let rest = visit(kr, gs1, d.2, fuel);
        assert(v.0 == seq![TreeV { node: k, tags: Seq::empty(), children: sub }] + rest.0);
        assert(v.0.drop_first() =~= rest.0);
        assert(fs[base].node == bare(ns[0]));
        assert(tree_is(v.0[0], ns[0]));
        assert(forest_is(v.0, ns));
    }
}

/// The subtree of the first node of an embedded layout, read back from the
/// groups: the group under its row id, if any, is taken out and visited.
proof fn lemma_first_subtree(
    rows: Seq<BookmarkNode>,
    fs: Seq<FlatV>,
    ids: Seq<i64>,
    ns: Seq<XNode>,
    parent: Option<usize>,
    base: int,
    pos: int,
    gs: Groups,
    fuel: nat,
)
    requires
        ns.len() > 0,
        stored_rows(rows, fs, ids),
        forall|a: int, b: int| 0 <= a < b < ids.len() ==> ids[a] != ids[b],
        ids.len() == fs.len(),
        fs.len() <= usize::MAX,
        fs.len() <= i64::MAX,
        forall|k: int| 0 <= k < fs.len() ==> ((#[trigger] fs[k]).parent_index matches Some(j) ==> j < k),
        embedded(fs, ns, parent, base, pos),
        pos >= 0,
        pos + nodes_count(ns) <= i64::MAX,
        parent matches Some(p) ==> p < base,
        keys_distinct(gs),
        forall|j: int| base <= j < fs.len() ==> #[trigger] group_ok(gs, rows, Some(ids[j])),
        fuel >= gs.len(),
    ensures
        ({
            let d = descend(Some(ids[base]), gs, Seq::empty(), fuel);
            &&& forest_is(d.0, ns[0].children)
            &&& d.2 == Seq::<(i64, Seq<Seq<char>>)>::empty()
            &&& keys_distinct(d.1)
            &&& d.1.len() <= gs.len()
            &&& forall|j: int| base + 1 + nodes_count(ns[0].children) <= j < fs.len()
                ==> #[trigger] group_ok(d.1, rows, Some(ids[j]))
        }),
    decreases nodes_count(ns), 0nat,
{
    lemma_first_children(fs, ns, parent, base, pos);
    assert(nodes_count(ns) == 1 + nodes_count(ns[0].children) + nodes_count(ns.drop_first()));
    let key = Some(ids[base]);
    let c = tops(ns[0].children, base + 1);
    assert forall|k: int| 0 <= k < fs.len() implies ((#[trigger] fs[k]).parent_index matches Some(j) ==> j < fs.len()) by {}
    lemma_under_children(rows, fs, ids, Some(base as usize), c);
    lemma_under_rows(rows, key);
    lemma_layout_shape(ns[0].children, Some(base as usize), base + 1, 0);
    let empty_tags = Seq::<(i64, Seq<Seq<char>>)>::empty();
    let d = descend(key, gs, empty_tags, fuel);
    assert(group_ok(gs, rows, key));
    lemma_key_at(gs, key);
    if fuel == 0 || key_index(gs, key) is None {
        if fuel == 0 {
            assert(gs.len() == 0);
        }
        assert(under_rows(rows, key).len() == 0);
        assert(ns[0].children.len() == 0);
    } else {
        let g = key_index(gs, key)->Some_0;
        let kids2 = gs[g].1;
        let hs = gs.remove(g);
        assert forall|j: int| base + 1 <= j < fs.len() implies #[trigger] group_ok(hs, rows, Some(ids[j])) by {
            assert(group_ok(gs, rows, Some(ids[j])));
            assert(ids[base] != ids[j]);
            lemma_remove_group(gs, rows, g, Some(ids[j]));
        }
        assert(keys_distinct(hs)) by {
            assert forall|a: int, b: int| 0 <= a < b < hs.len() implies hs[a].0 != hs[b].0 by {
                let a0 = if a < g { a } else { a + 1 };
                let b0 = if b < g { b } else { b + 1 };
                assert(hs[a] == gs[a0]);
                assert(hs[b] == gs[b0]);
            }
        }
        assert(kid_rows(kids2, fs, ids, ns[0].children, base + 1)) by {
            assert forall|x: int| 0 <= x < kids2.len() implies row_of(#[trigger] kids2[x], fs[c[x]], ids, c[x]) by {
                assert(kids2[x] == rows[under_idx(rows, key)[x]]);
            }
        }
        lemma_visit_layout(rows, fs, ids, ns[0].children, Some(base as usize), base + 1, 0, kids2, hs, (fuel - 1) as nat);
        assert(d == visit(kids2, hs, empty_tags, (fuel - 1) as nat));
    }
}


/// An uploaded tree, stored and read back, is the same tree. Lay `nodes` out
/// in document order with each entry's parent and position
/// (`flat_list`, as `BookmarkService::plan_upload` does), store each entry as
/// a row under its own distinct row id, with the row id of its parent entry
/// as its parent; then, whatever order of the rows `(position, id)` order
/// leaves, `bookmark_forest` (what `build_tree` builds) gives back `nodes`:
/// every folder, bookmark and separator with its kind, external id, title,
/// URL, description and children, in sibling order.
pub proof fn lemma_stored_layout_reads_back(nodes: Seq<XNode>, rows: Seq<BookmarkNode>, ids: Seq<i64>)
    requires
        nodes_count(nodes) <= usize::MAX,
        nodes_count(nodes) <= i64::MAX,
        stored_rows(rows, flat_list(nodes, None, 0, 0), ids),
    ensures
        forest_is(bookmark_forest(rows, Seq::empty()), nodes),
{
    let fs = flat_list(nodes, None, 0, 0);
    let n = nodes_count(nodes);
    lemma_layout_shape(nodes, None, 0, 0);
    assert(fs.len() == n);
    assert(ids.len() == fs.len() && forall|a: int, b: int| 0 <= a < b < ids.len() ==> ids[a] != ids[b]) by {
        reveal(stored_rows);
    }
    assert(fs.subrange(0, n as int) =~= fs);
    assert(embedded(fs, nodes, None, 0, 0));
    assert forall|k: int| 0 <= k < fs.len() implies ((#[trigger] fs[k]).parent_index matches Some(j) ==> j < k) by {}
    let c = tops(nodes, 0);
    assert(children_of(fs, None, c)) by {
        assert forall|x: int| 0 <= x < c.len() implies 0 <= #[trigger] c[x] < fs.len() && fs[c[x]].parent_index == None::<usize>
            && fs[c[x]].position == x by {}
    }
    assert forall|k: int| 0 <= k < fs.len() implies ((#[trigger] fs[k]).parent_index matches Some(j) ==> j < fs.len()) by {}
    lemma_under_children(rows, fs, ids, None, c);
    lemma_under_rows(rows, None);
    let gs = group_by_parent(rows);
    lemma_groups(rows);
    let empty_tags = Seq::<(i64, Seq<Seq<char>>)>::empty();
    assert(group_tags(Seq::<(i64, Seq<char>)>::empty()) == empty_tags);
    assert(group_ok(gs, rows, None));
    lemma_key_at(gs, None);
    let d = descend(None, gs, empty_tags, gs.len());
    assert(bookmark_forest(rows, Seq::empty()) == d.0);
    if gs.len() == 0 || key_index(gs, None) is None {
        if gs.len() == 0 {
            assert(key_index(gs, None) is None);
        }
        assert(under_rows(rows, None).len() == 0);
        assert(nodes.len() == 0);
    } else {
        let g = key_index(gs, None)->Some_0;
        let kids = gs[g].1;
        let hs = gs.remove(g);
        assert forall|j: int| 0 <= j < fs.len() implies #[trigger] group_ok(hs, rows, Some(ids[j])) by {
            assert(group_ok(gs, rows, Some(ids[j])));
            lemma_remove_group(gs, rows, g, Some(ids[j]));
        }
        assert(keys_distinct(hs)) by {
            assert forall|a: int, b: int| 0 <= a < b < hs.len() implies hs[a].0 != hs[b].0 by {
                let a0 = if a < g { a } else { a + 1 };
                let b0 = if b < g { b } else { b + 1 };
                assert(hs[a] == gs[a0]);
                assert(hs[b] == gs[b0]);
            }
        }
        assert(kid_rows(kids, fs, ids, nodes, 0)) by {
            assert forall|x: int| 0 <= x < kids.len() implies row_of(#[trigger] kids[x], fs[c[x]], ids, c[x]) by {
                assert(kids[x] == rows[under_idx(rows, None)[x]]);
            }
        }
        lemma_visit_layout(rows, fs, ids, nodes, None, 0, 0, kids, hs, (gs.len() - 1) as nat);
        assert(d == visit(kids, hs, empty_tags, (gs.len() - 1) as nat));
    }
}


/// Whether `x` has the shape that reading an XBEL file gives a node, with
/// its external id set: a folder has no URL; a bookmark has a URL of 1 to
/// 8000 bytes and no children; a separator has no title, description, URL
/// or children.
pub open spec fn shape_node(x: XNode) -> bool
    decreases x, 0nat,
{
    &&& x.external_id is Some
    &&& match x.kind {
        NodeKind::Folder => x.url is None && shape_forest(x.children, x.children.len() as int),
        NodeKind::Bookmark => (x.url matches Some(u) && 0 < utf8_len(u) <= 8000) && x.children.len() == 0,
        NodeKind::Separator => x.url is None && x.title.len() == 0 && x.description.len() == 0
            && x.children.len() == 0,
    }
}

pub open spec fn shape_forest(xs: Seq<XNode>, i: int) -> bool
    decreases xs, i,
{
    if i <= 0 || i > xs.len() { true } else { shape_forest(xs, i - 1) && shape_node(xs[i - 1]) }
}

/// The folder nesting of `x`: 1 for a leaf, one more than its deepest child
/// for a folder.
pub open spec fn xdepth(x: XNode) -> nat
    decreases x, 0nat,
{
    if x.kind == NodeKind::Folder { 1 + xdepth_forest(x.children, x.children.len() as int) } else { 1 }
}

pub open spec fn xdepth_forest(xs: Seq<XNode>, i: int) -> nat
    decreases xs, i,
{
    if i <= 0 || i > xs.len() {
        0
    } else {
        let a = xdepth_forest(xs, i - 1);
        let b = xdepth(xs[i - 1]);
        if a >= b { a } else { b }
    }
}

proof fn lemma_forest_is_pointwise(ts: Seq<TreeV>, xs: Seq<XNode>)
    requires
        forest_is(ts, xs),
    ensures
        ts.len() == xs.len(),
        forall|j: int| 0 <= j < xs.len() ==> tree_is(#[trigger] ts[j], xs[j]),
    decreases xs.len(),
{
    if xs.len() > 0 {
        lemma_forest_is_pointwise(ts.drop_first(), xs.drop_first());
        assert forall|j: int| 0 <= j < xs.len() implies tree_is(#[trigger] ts[j], xs[j]) by {
            if j > 0 {
                assert(ts[j] == ts.drop_first()[j - 1]);
                assert(xs[j] == xs.drop_first()[j - 1]);
            }
        }
    }
}

proof fn lemma_nodes_count_concat(a: Seq<XNode>, b: Seq<XNode>)
    ensures
        nodes_count(a + b) == nodes_count(a) + nodes_count(b),
    decreases a.len(),
{
    if a.len() == 0 {
        assert(a + b =~= b);
    } else {
        assert((a + b)[0] == a[0]);
        assert((a + b).drop_first() =~= a.drop_first() + b);
        lemma_nodes_count_concat(a.drop_first(), b);
    }
}

/// A stored tree that is an uploaded node of the reading shape reads back,
/// once written, as that node.
proof fn lemma_node_rel(t: TreeV, x: XNode)
    requires
        tree_is(t, x),
        shape_node(x),
    ensures
        written(t),
        read_node(t) == x,
        node_count(t) == 1 + nodes_count(x.children),
        node_depth(t) == xdepth(x),
        node_urls_ok(t),
    decreases x, 0nat,
{
    reveal_strlit("folder");
    reveal_strlit("bookmark");
    reveal_strlit("separator");
    assert("folder"@ != "bookmark"@) by { assert("folder"@.len() != "bookmark"@.len()); }
    assert("folder"@ != "separator"@) by { assert("folder"@.len() != "separator"@.len()); }
    assert("bookmark"@ != "separator"@) by { assert("bookmark"@.len() != "separator"@.len()); }
    lemma_forest_is_pointwise(t.children, x.children);
    match x.kind {
        NodeKind::Folder => {
            lemma_forest_rel(t.children, x.children, x.children.len() as int);
            assert(x.children.take(x.children.len() as int) =~= x.children);
        },
        NodeKind::Bookmark => {
            assert(t.children.len() == 0);
            assert(nodes_count(x.children) == 0);
            assert(read_forest(t.children, 0) =~= Seq::<XNode>::empty());
            assert(x.children =~= Seq::<XNode>::empty());
        },
        NodeKind::Separator => {
            assert(nodes_count(x.children) == 0);
            assert(x.children =~= Seq::<XNode>::empty());
            assert(x.title =~= Seq::<char>::empty());
            assert(x.description =~= Seq::<char>::empty());
        },
    }
}

proof fn lemma_forest_rel(ts: Seq<TreeV>, xs: Seq<XNode>, i: int)
    requires
        ts.len() == xs.len(),
        forall|j: int| 0 <= j < xs.len() ==> tree_is(#[trigger] ts[j], xs[j]),
        0 <= i <= xs.len(),
        shape_forest(xs, i),
    ensures
        read_forest(ts, i) == xs.take(i),
        forest_count(ts, i) == nodes_count(xs.take(i)),
        forest_depth(ts, i) == xdepth_forest(xs, i),
        forest_urls_ok(ts, i),
    decreases xs, i,
{
    if i == 0 {
        assert(xs.take(0) =~= Seq::<XNode>::empty());
    } else {
        lemma_forest_rel(ts, xs, i - 1);
        assert(tree_is(ts[i - 1], xs[i - 1]));
        lemma_node_rel(ts[i - 1], xs[i - 1]);
        assert(xs.take(i) =~= xs.take(i - 1) + seq![xs[i - 1]]);
        lemma_nodes_count_concat(xs.take(i - 1), seq![xs[i - 1]]);
        let one = seq![xs[i - 1]];
        assert(one.drop_first() =~= Seq::<XNode>::empty());
        assert(one[0] == xs[i - 1]);
        assert(nodes_count(Seq::<XNode>::empty()) == 0);
        assert(nodes_count(one) == 1 + nodes_count(one[0].children) + nodes_count(one.drop_first()));
        assert(nodes_count(one) == 1 + nodes_count(xs[i - 1].children));
        assert(read_forest(ts, i) == read_forest(ts, i - 1).push(read_node(ts[i - 1])));
        assert(xs.take(i - 1).push(xs[i - 1]) =~= xs.take(i));
    }
}

/// An upload round trip keeps the tree. An uploaded tree in the shape that
/// reading XBEL gives, with its external ids set and within the reading
/// limits, is laid out and stored as `lemma_stored_layout_reads_back`
/// describes; the forest that the store gives back (`bookmark_forest`,
/// what `build_tree` builds and `serialize_xbel` writes) makes a document
/// whose events read back as the same title and the same tree, with every
/// node's kind, external id, title, URL, description and sibling order.
pub proof fn lemma_upload_round_trip(title: Seq<char>, nodes: Seq<XNode>, rows: Seq<BookmarkNode>, ids: Seq<i64>)
    requires
        nodes_count(nodes) <= 100000,
        xdepth_forest(nodes, nodes.len() as int) <= 128,
        shape_forest(nodes, nodes.len() as int),
        stored_rows(rows, flat_list(nodes, None, 0, 0), ids),
    ensures
        read_events(document_evs(title, bookmark_forest(rows, Seq::empty())))
            == Ok::<XDoc, ErrorV>(XDoc { title, nodes }),
{
    let f = bookmark_forest(rows, Seq::empty());
    lemma_stored_layout_reads_back(nodes, rows, ids);
    lemma_forest_is_pointwise(f, nodes);
    lemma_forest_rel(f, nodes, nodes.len() as int);
    assert(nodes.take(nodes.len() as int) =~= nodes);
    lemma_written_document_reads_back(title, f);
}

} // verus!
