//! Collections of links: their tree, names and edits.
use vstd::prelude::*;
use crate::domain::{Collection, CollectionNode};
use crate::error::{AppError, AppResult, ErrorV, validation};
use crate::split::{lex_lt, str_lt};
use crate::text::{byte_len, trim, trimmed, utf8_len};
use crate::xbel::opt_view;

verus! {

/// A new collection.
#[derive(Debug)]
pub struct CreateCollectionInput {
    pub name: String,
    pub parent_id: Option<i64>,
    pub description: Option<String>,
    pub color: Option<String>,
}

/// Changes to a collection: a field left out stays as it is; `Some(None)`
/// moves it to the top level or clears its color.
#[derive(Debug)]
pub struct UpdateCollectionInput {
    pub name: Option<String>,
    pub parent_id: Option<Option<i64>>,
    pub description: Option<String>,
    pub color: Option<Option<String>>,
}

/// The service that keeps a workspace's collections.
pub struct CollectionService;

/// The value of a `CollectionNode`.
pub struct CNodeV {
    pub id: i64,
    pub name: Seq<char>,
    pub parent_id: Option<i64>,
    pub description: Seq<char>,
    pub color: Option<Seq<char>>,
    pub children: Seq<CNodeV>,
}

impl CollectionNode {
    pub open spec fn cv(&self) -> CNodeV
        decreases self,
    {
        CNodeV {
            id: self.id,
            name: self.name@,
            parent_id: self.parent_id,
            description: self.description@,
            color: opt_view(self.color),
            children: Seq::new(self.children@.len(), |i: int| {
                if 0 <= i < self.children@.len() {
                    proof {
                        vstd::std_specs::vec::axiom_vec_index_decreases(self.children, i);
                    }
                    self.children@[i].cv()
                } else {
                    arbitrary()
                }
            }),
        }
    }
}

pub open spec fn cnodes_v(v: Seq<CollectionNode>) -> Seq<CNodeV> {
    Seq::new(v.len(), |i: int| v[i].cv())
}

/// The collections of `cols` under parent `p`, in order. The children are
/// found by filtering the list rather than through a map from parent to
/// children: the parent key is an `Option<i64>`, for which vstd's `HashMap`
/// specification gives no key model.
pub open spec fn kids(cols: Seq<Collection>, p: Option<i64>) -> Seq<Collection>
    decreases cols.len(),
{
    if cols.len() == 0 {
        Seq::empty()
    } else if cols.last().parent_id == p {
        kids(cols.drop_last(), p).push(cols.last())
    } else {
        kids(cols.drop_last(), p)
    }
}

/// The tree of collection `c`, with its sub-collections in order; `None`
/// when it is deeper than `fuel`, which for a cycle of parents it always is.
pub open spec fn cnode(cols: Seq<Collection>, c: Collection, fuel: nat) -> Option<CNodeV>
    decreases fuel, 0nat,
{
    if fuel == 0 {
        None
    } else {
        match cnode_list(cols, kids(cols, Some(c.id)), (fuel - 1) as nat) {
            Some(ch) => Some(CNodeV {
                id: c.id,
                name: c.name@,
                parent_id: c.parent_id,
                description: c.description@,
                color: opt_view(c.color),
                children: ch,
            }),
            None => None,
        }
    }
}

/// The trees of the collections `ks`, in order.
pub open spec fn cnode_list(cols: Seq<Collection>, ks: Seq<Collection>, fuel: nat) -> Option<Seq<CNodeV>>
    decreases fuel, ks.len(),
{
    if ks.len() == 0 {
        Some(Seq::empty())
    } else {
        match (cnode(cols, ks[0], fuel), cnode_list(cols, ks.drop_first(), fuel)) {
            (Some(a), Some(r)) => Some(seq![a] + r),
            _ => None,
        }
    }
}

pub proof fn lemma_cnode_fuel(cols: Seq<Collection>, c: Collection, f: nat, g: nat)
    requires
        cnode(cols, c, f) is Some,
        f <= g,
    ensures
        cnode(cols, c, g) == cnode(cols, c, f),
    decreases f, 0nat,
{
    lemma_cnode_list_fuel(cols, kids(cols, Some(c.id)), (f - 1) as nat, (g - 1) as nat);
}

pub proof fn lemma_cnode_list_fuel(cols: Seq<Collection>, ks: Seq<Collection>, f: nat, g: nat)
    requires
        cnode_list(cols, ks, f) is Some,
        f <= g,
    ensures
        cnode_list(cols, ks, g) == cnode_list(cols, ks, f),
    decreases f, ks.len(),
{
    if ks.len() > 0 {
        lemma_cnode_fuel(cols, ks[0], f, g);
        lemma_cnode_list_fuel(cols, ks.drop_first(), f, g);
    }
}

/// Whether `rank` orders the collections below their parents: a parent in
/// the list ranks above each of its sub-collections, and no rank reaches
/// the number of collections. A list whose parent links form no cycle has
/// such a rank: the height of each collection's subtree.
pub open spec fn ranked(cols: Seq<Collection>, rank: spec_fn(i64) -> nat) -> bool {
    forall|i: int| 0 <= i < cols.len() ==> {
        &&& rank(#[trigger] cols[i].id) < cols.len()
        &&& (cols[i].parent_id matches Some(p) ==> rank(cols[i].id) < rank(p))
    }
}

pub proof fn lemma_kids_in(cols: Seq<Collection>, p: Option<i64>)
    ensures
        forall|j: int| 0 <= j < kids(cols, p).len() ==> exists|i: int| 0 <= i < cols.len()
            && #[trigger] kids(cols, p)[j] == cols[i] && cols[i].parent_id == p,
    decreases cols.len(),
{
    if cols.len() > 0 {
        lemma_kids_in(cols.drop_last(), p);
        assert forall|j: int| 0 <= j < kids(cols, p).len() implies exists|i: int| 0 <= i < cols.len()
            && #[trigger] kids(cols, p)[j] == cols[i] && cols[i].parent_id == p by {
            let k = kids(cols.drop_last(), p);
            if j < k.len() {
                let i = choose|i: int| 0 <= i < cols.drop_last().len()
                    && #[trigger] k[j] == cols.drop_last()[i] && cols.drop_last()[i].parent_id == p;
                assert(kids(cols, p)[j] == cols[i]);
            } else {
                assert(kids(cols, p)[j] == cols[cols.len() - 1]);
            }
        }
    }
}

proof fn lemma_cnode_ranked(cols: Seq<Collection>, rank: spec_fn(i64) -> nat, c: Collection, f: nat)
    requires
        ranked(cols, rank),
        rank(c.id) < f,
    ensures
        cnode(cols, c, f) is Some,
    decreases f, 0nat,
{
    let ks = kids(cols, Some(c.id));
    lemma_kids_in(cols, Some(c.id));
    assert forall|j: int| 0 <= j < ks.len() implies rank(#[trigger] ks[j].id) < (f - 1) as nat by {
        let i = choose|i: int| 0 <= i < cols.len() && #[trigger] ks[j] == cols[i] && cols[i].parent_id == Some(c.id);
        assert(rank(cols[i].id) < cols.len());
    }
    lemma_cnode_list_ranked(cols, rank, ks, (f - 1) as nat);
}

proof fn lemma_cnode_list_ranked(cols: Seq<Collection>, rank: spec_fn(i64) -> nat, ks: Seq<Collection>, f: nat)
    requires
        ranked(cols, rank),
        forall|j: int| 0 <= j < ks.len() ==> rank(#[trigger] ks[j].id) < f,
    ensures
        cnode_list(cols, ks, f) is Some,
    decreases f, ks.len(),
{
    if ks.len() > 0 {
        lemma_cnode_ranked(cols, rank, ks[0], f);
        assert forall|j: int| 0 <= j < ks.drop_first().len() implies rank(#[trigger] ks.drop_first()[j].id) < f by {
            assert(ks.drop_first()[j] == ks[j + 1]);
        }
        lemma_cnode_list_ranked(cols, rank, ks.drop_first(), f);
    }
}

/// Collections whose parent links form no cycle, as a rank shows, make a
/// tree: `build_tree`'s `requires` holds of them, with one more step of
/// fuel than there are collections.
pub proof fn lemma_ranked_forest(cols: Seq<Collection>, rank: spec_fn(i64) -> nat)
    requires
        ranked(cols, rank),
    ensures
        collection_forest(cols, cols.len() + 1) is Some,
{
    let ks = kids(cols, None);
    lemma_kids_in(cols, None);
    assert forall|j: int| 0 <= j < ks.len() implies rank(#[trigger] ks[j].id) < cols.len() + 1 by {
        let i = choose|i: int| 0 <= i < cols.len() && #[trigger] ks[j] == cols[i] && cols[i].parent_id == None::<i64>;
        assert(rank(cols[i].id) < cols.len());
    }
    lemma_cnode_list_ranked(cols, rank, ks, cols.len() + 1);
}

/// `sorted` with `x` put after every node whose name is not greater than its
/// own.
pub open spec fn insert_by_name(sorted: Seq<CNodeV>, x: CNodeV) -> Seq<CNodeV>
    decreases sorted.len(),
{
    if sorted.len() == 0 {
        seq![x]
    } else if lex_lt(x.name, sorted.last().name) {
        insert_by_name(sorted.drop_last(), x).push(sorted.last())
    } else {
        sorted.push(x)
    }
}

/// `s` sorted by name, keeping the order of equal names (a stable sort).
pub open spec fn sort_by_name(s: Seq<CNodeV>) -> Seq<CNodeV>
    decreases s.len(),
{
    if s.len() == 0 {
        Seq::empty()
    } else {
        insert_by_name(sort_by_name(s.drop_last()), s.last())
    }
}

/// The forest of a workspace's collections: the top-level ones sorted by
/// name, each with its sub-collections in stored order.
pub open spec fn collection_forest(cols: Seq<Collection>, fuel: nat) -> Option<Seq<CNodeV>> {
    match cnode_list(cols, kids(cols, None), fuel) {
        Some(ns) => Some(sort_by_name(ns)),
        None => None,
    }
}

pub(crate) fn kids_of(cols: &Vec<Collection>, p: Option<i64>) -> (r: Vec<usize>)
    ensures
        r@.len() == kids(cols@, p).len(),
        forall|i: int| 0 <= i < r@.len() ==> #[trigger] r@[i] < cols@.len(),
        forall|i: int| 0 <= i < r@.len() ==> cols@[r@[i] as int] == #[trigger] kids(cols@, p)[i],
{
    let mut r: Vec<usize> = Vec::new();
    let mut i: usize = 0;
    while i < cols.len()
        invariant
            i <= cols@.len(),
            r@.len() == kids(cols@.take(i as int), p).len(),
            forall|k: int| 0 <= k < r@.len() ==> #[trigger] r@[k] < i,
            forall|k: int| 0 <= k < r@.len() ==> cols@[r@[k] as int] == #[trigger] kids(cols@.take(i as int), p)[k],
        decreases cols.len() - i,
    {
        let ghost t0 = cols@.take(i as int);
        let ghost t1 = cols@.take(i + 1);
        assert(t1.drop_last() =~= t0);
        assert(t1.last() == cols@[i as int]);
        let ghost k0 = kids(t0, p);
        let ghost r0 = r@;
        if cols[i].parent_id == p {
            r.push(i);
            assert(kids(t1, p) == k0.push(cols@[i as int]));
        } else {
            assert(kids(t1, p) == k0);
        }
        assert forall|k: int| 0 <= k < r@.len() implies cols@[r@[k] as int] == #[trigger] kids(t1, p)[k] by {
            if k < r0.len() {
                assert(r@[k] == r0[k]);
                assert(kids(t1, p)[k] == k0[k]);
            }
        }
        i = i + 1;
    }
    assert(cols@.take(cols@.len() as int) =~= cols@);
    assert forall|k: int| 0 <= k < r@.len() implies cols@[r@[k] as int] == #[trigger] kids(cols@, p)[k] by {
        assert(kids(cols@.take(cols@.len() as int), p)[k] == kids(cols@, p)[k]);
    }
    r
}

fn clone_opt(o: &Option<String>) -> (r: Option<String>)
    ensures
        opt_view(r) == opt_view(*o),
{
    match o {
        Some(s) => Some(s.clone()),
        None => None,
    }
}

fn build_node(cols: &Vec<Collection>, c: &Collection, Ghost(fuel): Ghost<nat>) -> (r: CollectionNode)
    requires
        cnode(cols@, *c, fuel) is Some,
    ensures
        Some(r.cv()) == cnode(cols@, *c, fuel),
    decreases fuel,
{
    let ks = kids_of(cols, Some(c.id));
    let ghost kv = kids(cols@, Some(c.id));
    let ghost f1: nat = (fuel - 1) as nat;
    let mut children: Vec<CollectionNode> = Vec::new();
    let mut i: usize = 0;
    assert(kv.skip(0) =~= kv);
    assert(cnodes_v(children@) =~= Seq::<CNodeV>::empty());
    assert(forall|r: Seq<CNodeV>| Seq::<CNodeV>::empty() + r =~= r);
    while i < ks.len()
        invariant
            i <= ks@.len(),
            fuel > 0,
            f1 == fuel - 1,
            kv == kids(cols@, Some(c.id)),
            ks@.len() == kv.len(),
            forall|k: int| 0 <= k < ks@.len() ==> #[trigger] ks@[k] < cols@.len(),
            forall|k: int| 0 <= k < ks@.len() ==> cols@[ks@[k] as int] == #[trigger] kv[k],
            cnode_list(cols@, kv, f1) is Some,
            cnode_list(cols@, kv, f1) == match cnode_list(cols@, kv.skip(i as int), f1) {
                Some(r) => Some(cnodes_v(children@) + r),
                None => None::<Seq<CNodeV>>,
            },
        decreases ks.len() - i,
    {
        let ghost rest = kv.skip(i as int);
        assert(rest[0] == kv[i as int]);
        assert(rest.drop_first() =~= kv.skip(i + 1));
        let child = build_node(cols, &cols[ks[i]], Ghost(f1));
        let ghost before = cnodes_v(children@);
        children.push(child);
        assert(cnodes_v(children@) =~= before.push(child.cv()));
        proof {
            match cnode_list(cols@, kv.skip(i + 1), f1) {
                Some(r) => {
                    assert(before + (seq![child.cv()] + r) =~= cnodes_v(children@) + r);
                },
                None => {},
            }
        }
        i = i + 1;
    }
    assert(kv.skip(i as int) =~= Seq::<Collection>::empty());
    assert(cnodes_v(children@) + Seq::<CNodeV>::empty() =~= cnodes_v(children@));
    let node = CollectionNode {
        id: c.id,
        name: c.name.clone(),
        parent_id: c.parent_id,
        description: c.description.clone(),
        color: clone_opt(&c.color),
        children,
    };
    assert(node.cv().children =~= cnodes_v(node.children@));
    node
}

/// Puts `x` into the name-sorted `v` after every node whose name is not
/// greater.
fn insert_node(v: &mut Vec<CollectionNode>, x: CollectionNode)
    ensures
        cnodes_v(final(v)@) == insert_by_name(cnodes_v(old(v)@), x.cv()),
{
    let ghost ov = cnodes_v(v@);
    let mut k = v.len();
    assert(ov.take(k as int) =~= ov);
    while k > 0 && str_lt(x.name.as_str(), v[k - 1].name.as_str())
        invariant
            k <= v@.len(),
            ov == cnodes_v(v@),
            insert_by_name(ov, x.cv()) == insert_by_name(ov.take(k as int), x.cv()) + ov.skip(k as int),
        decreases k,
    {
        let ghost t = ov.take(k as int);
        assert(t.last() == ov[k - 1]);
        assert(t.drop_last() =~= ov.take(k - 1));
        assert(seq![ov[k - 1]] + ov.skip(k as int) =~= ov.skip(k - 1));
        assert(insert_by_name(ov.take(k - 1), x.cv()).push(ov[k - 1]) + ov.skip(k as int)
            =~= insert_by_name(ov.take(k - 1), x.cv()) + ov.skip(k - 1));
        k = k - 1;
    }
    let ghost xv = x.cv();
    v.insert(k, x);
    proof {
        let t = ov.take(k as int);
        assert(insert_by_name(t, xv) =~= t.push(xv)) by {
            if t.len() > 0 {
                assert(t.last() == ov[k - 1]);
            }
        }
        assert(cnodes_v(v@) =~= t.push(xv) + ov.skip(k as int));
    }
}

/// The tree of a workspace's collections, from the list of them.
pub fn build_tree(cols: &Vec<Collection>) -> (r: Vec<CollectionNode>)
    requires
        exists|f: nat| #[trigger] collection_forest(cols@, f) is Some,
    ensures
        forall|f: nat| #[trigger] collection_forest(cols@, f) is Some ==> collection_forest(cols@, f) == Some(cnodes_v(r@)),
{
    let ghost fuel = choose|f: nat| #[trigger] collection_forest(cols@, f) is Some;
    let ks = kids_of(cols, None);
    let ghost kv = kids(cols@, None);
    let mut built: Vec<CollectionNode> = Vec::new();
    let mut i: usize = 0;
    assert(kv.skip(0) =~= kv);
    assert(cnodes_v(built@) =~= Seq::<CNodeV>::empty());
    assert(forall|r: Seq<CNodeV>| Seq::<CNodeV>::empty() + r =~= r);
    while i < ks.len()
        invariant
            i <= ks@.len(),
            kv == kids(cols@, None),
            ks@.len() == kv.len(),
            forall|k: int| 0 <= k < ks@.len() ==> #[trigger] ks@[k] < cols@.len(),
            forall|k: int| 0 <= k < ks@.len() ==> cols@[ks@[k] as int] == #[trigger] kv[k],
            cnode_list(cols@, kv, fuel) is Some,
            cnode_list(cols@, kv, fuel) == match cnode_list(cols@, kv.skip(i as int), fuel) {
                Some(r) => Some(cnodes_v(built@) + r),
                None => None::<Seq<CNodeV>>,
            },
        decreases ks.len() - i,
    {
        let ghost rest = kv.skip(i as int);
        assert(rest[0] == kv[i as int]);
        assert(rest.drop_first() =~= kv.skip(i + 1));
        let node = build_node(cols, &cols[ks[i]], Ghost(fuel));
        let ghost before = cnodes_v(built@);
        built.push(node);
        assert(cnodes_v(built@) =~= before.push(node.cv()));
        proof {
            match cnode_list(cols@, kv.skip(i + 1), fuel) {
                Some(r) => {
                    assert(before + (seq![node.cv()] + r) =~= cnodes_v(built@) + r);
                },
                None => {},
            }
        }
        i = i + 1;
    }
    assert(kv.skip(i as int) =~= Seq::<Collection>::empty());
    assert(cnodes_v(built@) + Seq::<CNodeV>::empty() =~= cnodes_v(built@));
    let ghost all = cnodes_v(built@);
    let mut sorted: Vec<CollectionNode> = Vec::new();
    let n = built.len();
    let mut rest = built;
    let mut j: usize = 0;
    assert(cnodes_v(sorted@) =~= sort_by_name(all.take(0)));
    while rest.len() > 0
        invariant
            all.len() == j + rest@.len(),
            n == all.len(),
            cnodes_v(rest@) == all.skip(j as int),
            cnodes_v(sorted@) == sort_by_name(all.take(j as int)),
        decreases rest.len(),
    {
        let ghost rv = cnodes_v(rest@);
        let ghost raw = rest@;
        let x = rest.remove(0);
        assert(x.cv() == rv[0]);
        assert(cnodes_v(rest@) =~= rv.drop_first());
        assert(all.take(j + 1).drop_last() =~= all.take(j as int));
        assert(all.take(j + 1).last() == all.skip(j as int)[0]);
        insert_node(&mut sorted, x);
        j = j + 1;
        assert(rv.drop_first() =~= all.skip(j as int));
    }
    assert(all.take(j as int) =~= all);
    proof {
        assert forall|f: nat| #[trigger] collection_forest(cols@, f) is Some implies collection_forest(cols@, f) == Some(cnodes_v(sorted@)) by {
            if f >= fuel {
                lemma_cnode_list_fuel(cols@, kv, fuel, f);
            } else {
                lemma_cnode_list_fuel(cols@, kv, f, fuel);
            }
        }
    }
    sorted
}


/// The ids of the rows whose parent is `p`, in order.
pub open spec fn child_ids(rows: Seq<(i64, Option<i64>)>, p: i64) -> Seq<i64>
    decreases rows.len(),
{
    if rows.len() == 0 {
        Seq::empty()
    } else if rows.last().1 == Some(p) {
        child_ids(rows.drop_last(), p).push(rows.last().0)
    } else {
        child_ids(rows.drop_last(), p)
    }
}

/// The search for descendants from the ids on `stack`: each step takes the
/// last id off it, lists that collection's children and puts them on it.
/// The ids listed, in order; `None` where it takes more than `fuel` steps,
/// which for a cycle of parents below the start it always does.
pub open spec fn dfs_ids(rows: Seq<(i64, Option<i64>)>, stack: Seq<i64>, fuel: nat) -> Option<Seq<i64>>
    decreases fuel,
{
    if stack.len() == 0 {
        Some(Seq::empty())
    } else if fuel == 0 {
        None
    } else {
        let ch = child_ids(rows, stack.last());
        match dfs_ids(rows, stack.drop_last() + ch, (fuel - 1) as nat) {
            Some(r) => Some(ch + r),
            None => None,
        }
    }
}

/// The same search, stopping with `true` as soon as it lists `a`.
pub open spec fn dfs_finds(rows: Seq<(i64, Option<i64>)>, stack: Seq<i64>, a: i64, fuel: nat) -> Option<bool>
    decreases fuel,
{
    if stack.len() == 0 {
        Some(false)
    } else if fuel == 0 {
        None
    } else {
        let ch = child_ids(rows, stack.last());
        if ch.contains(a) {
            Some(true)
        } else {
            dfs_finds(rows, stack.drop_last() + ch, a, (fuel - 1) as nat)
        }
    }
}

pub proof fn lemma_dfs_ids_fuel(rows: Seq<(i64, Option<i64>)>, stack: Seq<i64>, f: nat, g: nat)
    requires
        dfs_ids(rows, stack, f) is Some,
        f <= g,
    ensures
        dfs_ids(rows, stack, g) == dfs_ids(rows, stack, f),
    decreases f,
{
    if stack.len() > 0 {
        let ch = child_ids(rows, stack.last());
        lemma_dfs_ids_fuel(rows, stack.drop_last() + ch, (f - 1) as nat, (g - 1) as nat);
    }
}

pub proof fn lemma_dfs_finds_fuel(rows: Seq<(i64, Option<i64>)>, stack: Seq<i64>, a: i64, f: nat, g: nat)
    requires
        dfs_finds(rows, stack, a, f) is Some,
        f <= g,
    ensures
        dfs_finds(rows, stack, a, g) == dfs_finds(rows, stack, a, f),
    decreases f,
{
    if stack.len() > 0 && !child_ids(rows, stack.last()).contains(a) {
        let ch = child_ids(rows, stack.last());
        lemma_dfs_finds_fuel(rows, stack.drop_last() + ch, a, (f - 1) as nat, (g - 1) as nat);
    }
}

/// A collection is found below the start exactly when it is among the
/// descendants that the full search lists.
pub proof fn lemma_finds_iff_listed(rows: Seq<(i64, Option<i64>)>, stack: Seq<i64>, a: i64, fuel: nat)
    requires
        dfs_ids(rows, stack, fuel) is Some,
    ensures
        dfs_finds(rows, stack, a, fuel) == Some(dfs_ids(rows, stack, fuel)->Some_0.contains(a)),
    decreases fuel,
{
    if stack.len() > 0 {
        let ch = child_ids(rows, stack.last());
        let next = stack.drop_last() + ch;
        lemma_finds_iff_listed(rows, next, a, (fuel - 1) as nat);
        let r = dfs_ids(rows, next, (fuel - 1) as nat)->Some_0;
        if ch.contains(a) {
            let k = choose|k: int| 0 <= k < ch.len() && ch[k] == a;
            assert((ch + r)[k] == a);
        } else {
            assert((ch + r).contains(a) == r.contains(a)) by {
                if (ch + r).contains(a) {
                    let k = choose|k: int| 0 <= k < (ch + r).len() && (ch + r)[k] == a;
                    assert(k >= ch.len());
                    assert(r[k - ch.len()] == a);
                }
                if r.contains(a) {
                    let k = choose|k: int| 0 <= k < r.len() && r[k] == a;
                    assert((ch + r)[k + ch.len()] == a);
                }
            }
        }
    }
}

/// Whether `rank` orders the rows below their parents: a parent ranks above
/// each row under it, and no row's rank reaches the number of rows.
pub open spec fn ranked_rows(rows: Seq<(i64, Option<i64>)>, rank: spec_fn(i64) -> nat) -> bool {
    forall|i: int| 0 <= i < rows.len() ==> {
        &&& rank(#[trigger] rows[i].0) < rows.len()
        &&& (rows[i].1 matches Some(p) ==> rank(rows[i].0) < rank(p))
    }
}

/// The steps a search from `x` takes, counting its subtree to depth `d`.
pub open spec fn visits(rows: Seq<(i64, Option<i64>)>, x: i64, d: nat) -> nat
    decreases d, 0nat,
{
    if d == 0 { 1 } else { 1 + visits_list(rows, child_ids(rows, x), (d - 1) as nat) }
}

pub open spec fn visits_list(rows: Seq<(i64, Option<i64>)>, xs: Seq<i64>, d: nat) -> nat
    decreases d, xs.len(),
{
    if xs.len() == 0 { 0 } else { visits_list(rows, xs.drop_last(), d) + visits(rows, xs.last(), d) }
}

/// The steps a search from the ids `xs` takes, each to the depth of its rank.
pub open spec fn search_weight(rows: Seq<(i64, Option<i64>)>, rank: spec_fn(i64) -> nat, xs: Seq<i64>) -> nat
    decreases xs.len(),
{
    if xs.len() == 0 { 0 } else { search_weight(rows, rank, xs.drop_last()) + visits(rows, xs.last(), rank(xs.last())) }
}

proof fn lemma_child_ids_in(rows: Seq<(i64, Option<i64>)>, p: i64)
    ensures
        forall|j: int| 0 <= j < child_ids(rows, p).len() ==> exists|i: int| 0 <= i < rows.len()
            && rows[i].0 == #[trigger] child_ids(rows, p)[j] && rows[i].1 == Some(p),
    decreases rows.len(),
{
    if rows.len() > 0 {
        lemma_child_ids_in(rows.drop_last(), p);
        assert forall|j: int| 0 <= j < child_ids(rows, p).len() implies exists|i: int| 0 <= i < rows.len()
            && rows[i].0 == #[trigger] child_ids(rows, p)[j] && rows[i].1 == Some(p) by {
            let k = child_ids(rows.drop_last(), p);
            if j < k.len() {
                let i = choose|i: int| 0 <= i < rows.drop_last().len()
                    && rows.drop_last()[i].0 == #[trigger] k[j] && rows.drop_last()[i].1 == Some(p);
                assert(rows[i] == rows.drop_last()[i]);
            } else {
                assert(child_ids(rows, p)[j] == rows[rows.len() - 1].0);
            }
        }
    }
}

/// The children of `x` rank below it.
proof fn lemma_children_rank(rows: Seq<(i64, Option<i64>)>, rank: spec_fn(i64) -> nat, x: i64)
    requires
        ranked_rows(rows, rank),
    ensures
        forall|j: int| 0 <= j < child_ids(rows, x).len() ==> rank(#[trigger] child_ids(rows, x)[j]) < rank(x),
{
    lemma_child_ids_in(rows, x);
    assert forall|j: int| 0 <= j < child_ids(rows, x).len() implies rank(#[trigger] child_ids(rows, x)[j]) < rank(x) by {
        let i = choose|i: int| 0 <= i < rows.len() && rows[i].0 == #[trigger] child_ids(rows, x)[j] && rows[i].1 == Some(x);
        assert(rank(rows[i].0) < rows.len());
    }
}

proof fn lemma_visits_stable(rows: Seq<(i64, Option<i64>)>, rank: spec_fn(i64) -> nat, x: i64, d: nat)
    requires
        ranked_rows(rows, rank),
        rank(x) <= d,
    ensures
        visits(rows, x, d) == visits(rows, x, rank(x)),
        visits(rows, x, d) == 1 + search_weight(rows, rank, child_ids(rows, x)),
    decreases d, 0nat,
{
    let ch = child_ids(rows, x);
    lemma_children_rank(rows, rank, x);
    if rank(x) == 0 {
        assert(ch.len() == 0) by {
            if ch.len() > 0 {
                assert(rank(ch[0]) < rank(x));
            }
        }
        assert(search_weight(rows, rank, ch) == 0);
        if d > 0 {
            assert(visits_list(rows, ch, (d - 1) as nat) == 0);
        }
    } else {
        lemma_visits_list_weight(rows, rank, ch, (d - 1) as nat);
        lemma_visits_list_weight(rows, rank, ch, (rank(x) - 1) as nat);
    }
}

proof fn lemma_visits_list_weight(rows: Seq<(i64, Option<i64>)>, rank: spec_fn(i64) -> nat, xs: Seq<i64>, d: nat)
    requires
        ranked_rows(rows, rank),
        forall|j: int| 0 <= j < xs.len() ==> rank(#[trigger] xs[j]) <= d,
    ensures
        visits_list(rows, xs, d) == search_weight(rows, rank, xs),
    decreases d, xs.len() + 1,
{
    if xs.len() > 0 {
        assert(rank(xs[xs.len() - 1]) <= d);
        lemma_visits_stable(rows, rank, xs.last(), d);
        assert forall|j: int| 0 <= j < xs.drop_last().len() implies rank(#[trigger] xs.drop_last()[j]) <= d by {
            assert(xs.drop_last()[j] == xs[j]);
        }
        lemma_visits_list_weight(rows, rank, xs.drop_last(), d);
    }
}

proof fn lemma_weight_concat(rows: Seq<(i64, Option<i64>)>, rank: spec_fn(i64) -> nat, a: Seq<i64>, b: Seq<i64>)
    ensures
        search_weight(rows, rank, a + b) == search_weight(rows, rank, a) + search_weight(rows, rank, b),
    decreases b.len(),
{
    if b.len() == 0 {
        assert(a + b =~= a);
    } else {
        assert((a + b).drop_last() =~= a + b.drop_last());
        assert((a + b).last() == b.last());
        lemma_weight_concat(rows, rank, a, b.drop_last());
    }
}

proof fn lemma_dfs_ranked(rows: Seq<(i64, Option<i64>)>, rank: spec_fn(i64) -> nat, stack: Seq<i64>, f: nat)
    requires
        ranked_rows(rows, rank),
        search_weight(rows, rank, stack) <= f,
    ensures
        dfs_ids(rows, stack, f) is Some,
    decreases f,
{
    if stack.len() > 0 {
        let x = stack.last();
        let ch = child_ids(rows, x);
        lemma_visits_stable(rows, rank, x, rank(x));
        lemma_weight_concat(rows, rank, stack.drop_last(), ch);
        lemma_dfs_ranked(rows, rank, stack.drop_last() + ch, (f - 1) as nat);
    }
}

/// Rows whose parent links form no cycle, as a rank shows, can be searched
/// to the end from any id: `collect_descendants`'s `requires` holds of them.
pub proof fn lemma_ranked_descendants(rows: Seq<(i64, Option<i64>)>, rank: spec_fn(i64) -> nat, id: i64)
    requires
        ranked_rows(rows, rank),
    ensures
        dfs_ids(rows, seq![id], search_weight(rows, rank, seq![id])) is Some,
{
    lemma_dfs_ranked(rows, rank, seq![id], search_weight(rows, rank, seq![id]));
}

/// Collections whose parent links form no cycle, as a rank shows, can be
/// searched for a descendant: `is_descendant`'s `requires` holds of them.
pub proof fn lemma_ranked_descendant_search(cols: Seq<Collection>, rank: spec_fn(i64) -> nat, id: i64, a: i64)
    requires
        ranked(cols, rank),
    ensures
        dfs_finds(parent_rows(cols), seq![id], a, search_weight(parent_rows(cols), rank, seq![id])) is Some,
{
    let rows = parent_rows(cols);
    assert forall|i: int| 0 <= i < rows.len() implies {
        &&& rank(#[trigger] rows[i].0) < rows.len()
        &&& (rows[i].1 matches Some(p) ==> rank(rows[i].0) < rank(p))
    } by {
        assert(rows[i] == (cols[i].id, cols[i].parent_id));
    }
    lemma_ranked_descendants(rows, rank, id);
    lemma_finds_iff_listed(rows, seq![id], a, search_weight(rows, rank, seq![id]));
}

/// Puts the ids of `ch` on `queue` in order, stopping where one is `a`.
fn stack_children(queue: &mut Vec<i64>, ch: &Vec<i64>, a: i64) -> (found: bool)
    ensures
        found == ch@.contains(a),
        !found ==> final(queue)@ == old(queue)@ + ch@,
{
    let mut j: usize = 0;
    let ghost q0 = queue@;
    while j < ch.len()
        invariant
            j <= ch@.len(),
            queue@ == q0 + ch@.take(j as int),
            q0 == old(queue)@,
            forall|k: int| 0 <= k < j ==> ch@[k] != a,
        decreases ch.len() - j,
    {
        if ch[j] == a {
            assert(ch@[j as int] == a);
            return true;
        }
        queue.push(ch[j]);
        j = j + 1;
        assert(queue@ =~= q0 + ch@.take(j as int));
    }
    assert(ch@.take(ch@.len() as int) =~= ch@);
    false
}

fn children_ids(rows: &Vec<(i64, Option<i64>)>, p: i64) -> (r: Vec<i64>)
    ensures
        r@ == child_ids(rows@, p),
{
    let mut r: Vec<i64> = Vec::new();
    let mut i: usize = 0;
    assert(rows@.take(0) =~= Seq::<(i64, Option<i64>)>::empty());
    while i < rows.len()
        invariant
            i <= rows@.len(),
            r@ == child_ids(rows@.take(i as int), p),
        decreases rows.len() - i,
    {
        let ghost t1 = rows@.take(i + 1);
        assert(t1.drop_last() =~= rows@.take(i as int));
        assert(t1.last() == rows@[i as int]);
        if rows[i].1 == Some(p) {
            r.push(rows[i].0);
        }
        i = i + 1;
    }
    assert(rows@.take(rows@.len() as int) =~= rows@);
    r
}

/// The `(id, parent)` rows of collections.
pub open spec fn parent_rows(cols: Seq<Collection>) -> Seq<(i64, Option<i64>)> {
    Seq::new(cols.len(), |i: int| (cols[i].id, cols[i].parent_id))
}

fn rows_of(cols: &Vec<Collection>) -> (r: Vec<(i64, Option<i64>)>)
    ensures
        r@ == parent_rows(cols@),
{
    let mut r: Vec<(i64, Option<i64>)> = Vec::new();
    let mut i: usize = 0;
    while i < cols.len()
        invariant
            i <= cols@.len(),
            r@ =~= parent_rows(cols@).take(i as int),
        decreases cols.len() - i,
    {
        r.push((cols[i].id, cols[i].parent_id));
        i = i + 1;
    }
    assert(parent_rows(cols@).take(cols@.len() as int) =~= parent_rows(cols@));
    r
}

impl CollectionService {
    /// The ids of every collection below `id`, from the `(id, parent)` rows
    /// of a workspace's collections, in the order of the search: the
    /// children of the last collection taken off the stack, in row order.
    pub fn collect_descendants(rows: &Vec<(i64, Option<i64>)>, id: i64) -> (r: Vec<i64>)
        requires
            exists|f: nat| #[trigger] dfs_ids(rows@, seq![id], f) is Some,
        ensures
            forall|f: nat| #[trigger] dfs_ids(rows@, seq![id], f) is Some ==> dfs_ids(rows@, seq![id], f) == Some(r@),
    {
        let ghost fuel = choose|f: nat| #[trigger] dfs_ids(rows@, seq![id], f) is Some;
        let ghost mut rem: nat = fuel;
        let mut result: Vec<i64> = Vec::new();
        let mut queue: Vec<i64> = vec![id];
        assert(queue@ =~= seq![id]);
        assert(Seq::<i64>::empty() + dfs_ids(rows@, seq![id], fuel)->Some_0 =~= dfs_ids(rows@, seq![id], fuel)->Some_0);
        while queue.len() > 0
            invariant
                dfs_ids(rows@, queue@, rem) is Some,
                dfs_ids(rows@, seq![id], fuel) == Some(result@ + dfs_ids(rows@, queue@, rem)->Some_0),
            decreases rem,
        {
            let ghost q0 = queue@;
            let ghost r0 = result@;
            let cur = queue.pop().unwrap();
            assert(queue@ =~= q0.drop_last());
            let ch = children_ids(rows, cur);
            let mut j: usize = 0;
            while j < ch.len()
                invariant
                    j <= ch@.len(),
                    queue@ == q0.drop_last() + ch@.take(j as int),
                    result@ == r0 + ch@.take(j as int),
                decreases ch.len() - j,
            {
                queue.push(ch[j]);
                result.push(ch[j]);
                j = j + 1;
                assert(queue@ =~= q0.drop_last() + ch@.take(j as int));
                assert(result@ =~= r0 + ch@.take(j as int));
            }
            assert(ch@.take(ch@.len() as int) =~= ch@);
            proof {
                let rest = dfs_ids(rows@, queue@, (rem - 1) as nat)->Some_0;
                assert(r0 + (ch@ + rest) =~= result@ + rest);
                rem = (rem - 1) as nat;
            }
        }
        assert(result@ + Seq::<i64>::empty() =~= result@);
        proof {
            assert forall|f: nat| #[trigger] dfs_ids(rows@, seq![id], f) is Some implies dfs_ids(rows@, seq![id], f) == Some(result@) by {
                if f >= fuel {
                    lemma_dfs_ids_fuel(rows@, seq![id], fuel, f);
                } else {
                    lemma_dfs_ids_fuel(rows@, seq![id], f, fuel);
                }
            }
        }
        result
    }

    /// Whether `ancestor_id` lies below collection `id` (so that moving `id`
    /// under it would make a cycle), searching from `id` as
    /// `collect_descendants` does and stopping where it finds it.
    pub fn is_descendant(cols: &Vec<Collection>, ancestor_id: i64, id: i64) -> (r: bool)
        requires
            exists|f: nat| #[trigger] dfs_finds(parent_rows(cols@), seq![id], ancestor_id, f) is Some,
        ensures
            forall|f: nat| #[trigger] dfs_finds(parent_rows(cols@), seq![id], ancestor_id, f) is Some
                ==> dfs_finds(parent_rows(cols@), seq![id], ancestor_id, f) == Some(r),
    {
        let rows = rows_of(cols);
        let ghost pr = parent_rows(cols@);
        let ghost fuel = choose|f: nat| #[trigger] dfs_finds(pr, seq![id], ancestor_id, f) is Some;
        let ghost mut rem: nat = fuel;
        let mut queue: Vec<i64> = vec![id];
        assert(queue@ =~= seq![id]);
        let mut found = false;
        while queue.len() > 0
            invariant
                rows@ == pr,
                pr == parent_rows(cols@),
                dfs_finds(pr, queue@, ancestor_id, rem) is Some,
                dfs_finds(pr, seq![id], ancestor_id, fuel) == dfs_finds(pr, queue@, ancestor_id, rem),
                !found,
            decreases rem,
        {
            let ghost q0 = queue@;
            let cur = queue.pop().unwrap();
            assert(queue@ =~= q0.drop_last());
            let ch = children_ids(&rows, cur);
            found = stack_children(&mut queue, &ch, ancestor_id);
            if found {
                proof {
                    assert(q0.last() == cur);
                    assert(ch@ == child_ids(pr, q0.last()));
                    assert(dfs_finds(pr, q0, ancestor_id, rem) == Some(true));
                    assert forall|f: nat| #[trigger] dfs_finds(parent_rows(cols@), seq![id], ancestor_id, f) is Some
                        implies dfs_finds(parent_rows(cols@), seq![id], ancestor_id, f) == Some(true) by {
                        if f >= fuel {
                            lemma_dfs_finds_fuel(pr, seq![id], ancestor_id, fuel, f);
                        } else {
                            lemma_dfs_finds_fuel(pr, seq![id], ancestor_id, f, fuel);
                        }
                    }
                }
                return true;
            }
            proof {
                rem = (rem - 1) as nat;
            }
        }
        proof {
            assert forall|f: nat| #[trigger] dfs_finds(pr, seq![id], ancestor_id, f) is Some
                implies dfs_finds(pr, seq![id], ancestor_id, f) == Some(false) by {
                if f >= fuel {
                    lemma_dfs_finds_fuel(pr, seq![id], ancestor_id, fuel, f);
                } else {
                    lemma_dfs_finds_fuel(pr, seq![id], ancestor_id, f, fuel);
                }
            }
        }
        false
    }
}

/// The name a collection is stored under: trimmed, 1 to 200 bytes.
pub fn collection_name(name: &str) -> (r: AppResult<String>)
    ensures
        ({
            let t = trim(name@);
            if t.len() == 0 || utf8_len(t) > 200 {
                r matches Err(e) && e@ == ErrorV::Validation("collection name length invalid"@)
            } else {
                r matches Ok(n) && n@ == t
            }
        }),
{
    let t = trimmed(name);
    if t.as_str().is_empty() || byte_len(t.as_str()) > 200 {
        return Err(validation("collection name length invalid"));
    }
    Ok(t)
}

/// The fields of an edited collection.
#[derive(Debug)]
pub struct CollectionEdit {
    pub name: String,
    pub parent_id: Option<i64>,
    pub description: String,
    pub color: Option<String>,
}

/// The edit of collection `id` (now `existing`) by `req`: moving it under
/// itself or under one of its descendants (`descendant`, as the store says
/// of the new parent) is refused; the name, when given, is trimmed; fields
/// left out keep their values; the name must be 1 to 200 bytes.
pub fn resolve_collection_update(id: i64, existing: &Collection, req: UpdateCollectionInput, descendant: bool) -> (r: AppResult<CollectionEdit>)
    ensures
        ({
            let name = match req.name { Some(n) => trim(n@), None => existing.name@ };
            let moved = req.parent_id matches Some(Some(pid));
            if moved && (req.parent_id->Some_0->Some_0 == id || descendant) {
                r matches Err(e) && e == AppError::CircularRef
            } else if name.len() == 0 || utf8_len(name) > 200 {
                r matches Err(e) && e@ == ErrorV::Validation("collection name length invalid"@)
            } else {
                r matches Ok(ed) && ed.name@ == name
                    && ed.parent_id == (match req.parent_id { Some(p) => p, None => existing.parent_id })
                    && ed.description@ == (match req.description { Some(d) => d@, None => existing.description@ })
                    && opt_view(ed.color) == (match req.color { Some(c) => opt_view(c), None => opt_view(existing.color) })
            }
        }),
{
    if let Some(Some(pid)) = req.parent_id {
        if pid == id || descendant {
            return Err(AppError::CircularRef);
        }
    }
    let name = match &req.name {
        Some(n) => trimmed(n.as_str()),
        None => existing.name.clone(),
    };
    if name.as_str().is_empty() || byte_len(name.as_str()) > 200 {
        return Err(validation("collection name length invalid"));
    }
    let parent_id = match req.parent_id {
        Some(p) => p,
        None => existing.parent_id,
    };
    let description = match req.description {
        Some(d) => d,
        None => existing.description.clone(),
    };
    let color = match req.color {
        Some(c) => c,
        None => clone_opt(&existing.color),
    };
    Ok(CollectionEdit { name, parent_id, description, color })
}

} // verus!
