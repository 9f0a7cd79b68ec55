//! The rules on tables, as laws over the specification of the tracker:
//! a key cannot be defined twice, a table cannot be opened twice, and a
//! header makes its table the current one.

use vstd::prelude::*;
use crate::table::{find_key, lemma_find_key, lookup};
use crate::tracker::{
    NodeModel, TrackedModel, append_aot_spec, arena_wf, child_of, insert_spec, keyval_effect, nav, open_table_spec, refs_ok,
    step_create, walk,
};
use crate::value::ValueModel;

verus! {

/// Two entries lead to the same tables, whether arrays of tables are gone
/// through or not.
pub open spec fn same_way(e: TrackedModel, f: TrackedModel) -> bool {
    child_of(e, false) == child_of(f, false) && child_of(e, true) == child_of(f, true)
}

/// `m` holds the nodes of `n`, each with at least its entries, under the
/// same keys and in the same order; the entries lead the same way, but for
/// those of node `skip`.
pub open spec fn kept(n: Seq<NodeModel>, m: Seq<NodeModel>, skip: int) -> bool {
    &&& n.len() <= m.len()
    &&& forall|a: int| 0 <= a < n.len() ==> #[trigger] n[a].len() <= m[a].len()
    &&& forall|a: int, i: int| 0 <= a < n.len() && 0 <= i < n[a].len() ==> (#[trigger] m[a][i]).0 == n[a][i].0
    &&& forall|a: int, i: int| 0 <= a < n.len() && 0 <= i < n[a].len() && a != skip ==> same_way(#[trigger] m[a][i].1, n[a][i].1)
}

proof fn lemma_kept_trans(n: Seq<NodeModel>, m: Seq<NodeModel>, p: Seq<NodeModel>, skip: int)
    requires
        kept(n, m, -1),
        kept(m, p, skip),
    ensures
        kept(n, p, skip),
{
    assert forall|a: int| 0 <= a < n.len() implies #[trigger] n[a].len() <= p[a].len() by {
        assert(n[a].len() <= m[a].len());
        assert(m[a].len() <= p[a].len());
    }
    assert forall|a: int, i: int| 0 <= a < n.len() && 0 <= i < n[a].len() implies (#[trigger] p[a][i]).0 == n[a][i].0 by {
        assert(n[a].len() <= m[a].len());
        assert(p[a][i].0 == m[a][i].0);
        assert(m[a][i].0 == n[a][i].0);
    }
    assert forall|a: int, i: int| 0 <= a < n.len() && 0 <= i < n[a].len() && a != skip implies same_way(#[trigger] p[a][i].1, n[a][i].1) by {
        assert(n[a].len() <= m[a].len());
        assert(same_way(p[a][i].1, m[a][i].1));
        assert(same_way(m[a][i].1, n[a][i].1));
    }
}

proof fn lemma_kept_refl(n: Seq<NodeModel>)
    ensures
        kept(n, n, -1),
{
}

/// A key found in a node is found at the same place in a node that keeps
/// its entries.
proof fn lemma_find_kept(e: NodeModel, f: NodeModel, k: Seq<char>)
    requires
        e.len() <= f.len(),
        forall|i: int| 0 <= i < e.len() ==> (#[trigger] f[i]).0 == e[i].0,
        find_key(e, k) is Some,
    ensures
        find_key(f, k) == find_key(e, k),
{
    lemma_find_key(e, k);
    lemma_find_key(f, k);
    let i = find_key(e, k).unwrap();
    assert(f[i].0 == k);
}

/// The entry found under `k` in node `a` of `n`, when there is one.
proof fn lemma_lookup_entry(n: Seq<NodeModel>, a: int, k: Seq<char>)
    requires
        0 <= a < n.len(),
    ensures
        lookup(n[a], k) matches Some(e) ==> exists|i: int| 0 <= i < n[a].len() && n[a][i].1 == e && n[a][i].0 == k,
{
    lemma_find_key(n[a], k);
    if let Some(i) = find_key(n[a], k) {
        assert(n[a][i].1 == lookup(n[a], k).unwrap());
    }
}

/// In a well-formed arena, the table an entry of node `a` leads to comes
/// after `a`.
proof fn lemma_child_after(n: Seq<NodeModel>, a: int, k: Seq<char>, inl: bool)
    requires
        arena_wf(n),
        0 <= a < n.len(),
        lookup(n[a], k) is Some,
        child_of(lookup(n[a], k).unwrap(), inl) is Some,
    ensures
        a < child_of(lookup(n[a], k).unwrap(), inl).unwrap() < n.len(),
{
    lemma_lookup_entry(n, a, k);
    let i = choose|i: int| 0 <= i < n[a].len() && n[a][i].1 == lookup(n[a], k).unwrap() && n[a][i].0 == k;
    let e = n[a][i].1;
    assert(refs_ok(e, a, n.len() as int));
    if let TrackedModel::Aot(ids) = e {
        assert(0 <= ids.len() - 1 < ids.len());
        assert(a < ids[ids.len() - 1] && ids[ids.len() - 1] < n.len());
    }
}

/// A step of a walk only adds: the arena before it is kept in the arena
/// after it, which is well formed, and the step leads to a later node.
proof fn lemma_step_grows(n: Seq<NodeModel>, j: int, seg: Seq<char>, inl: bool)
    requires
        arena_wf(n),
        0 <= j < n.len(),
        step_create(n, j, seg, inl) is Some,
    ensures
        kept(n, step_create(n, j, seg, inl).unwrap().0, -1),
        arena_wf(step_create(n, j, seg, inl).unwrap().0),
        j < step_create(n, j, seg, inl).unwrap().1 < step_create(n, j, seg, inl).unwrap().0.len(),
        lookup(step_create(n, j, seg, inl).unwrap().0[j], seg) is Some,
        child_of(lookup(step_create(n, j, seg, inl).unwrap().0[j], seg).unwrap(), inl) == Some(step_create(n, j, seg, inl).unwrap().1),
{
    let (n1, c) = step_create(n, j, seg, inl).unwrap();
    match lookup(n[j], seg) {
        None => {
            lemma_find_key(n[j], seg);
            let e = n[j].push((seg, TrackedModel::Implicit(c, false)));
            lemma_find_key(e, seg);
            assert(e.drop_last() =~= n[j]);
            assert(n1[j] == e);
            assert forall|a: int, i: int| 0 <= a < n1.len() && 0 <= i < n1[a].len() implies refs_ok(#[trigger] n1[a][i].1, a, n1.len() as int) by {
                if a == j && i == n[j].len() {
                } else if a < n.len() {
                    assert(n1[a][i] == n[a][i]);
                    assert(refs_ok(n[a][i].1, a, n.len() as int));
                    if let TrackedModel::Aot(ids) = n[a][i].1 {
                        assert forall|k: int| 0 <= k < ids.len() implies a < #[trigger] ids[k] && ids[k] < n1.len() by {
                            assert(a < ids[k] && ids[k] < n.len());
                        }
                    }
                }
            }
            assert forall|a: int| 0 <= a < n.len() implies #[trigger] n[a].len() <= n1[a].len() by {
            }
            assert forall|a: int, i: int| 0 <= a < n.len() && 0 <= i < n[a].len() implies (#[trigger] n1[a][i]).0 == n[a][i].0 by {
                if a == j {
                    assert(n1[a][i] == e[i]);
                }
            }
            assert forall|a: int, i: int| 0 <= a < n.len() && 0 <= i < n[a].len() && a != -1 implies same_way(#[trigger] n1[a][i].1, n[a][i].1) by {
                if a == j {
                    assert(n1[a][i] == e[i]);
                }
            }
        },
        Some(e) => {
            lemma_child_after(n, j, seg, inl);
        },
    }
}

/// Walking a path only adds to the arena, and ends at a node no earlier
/// than where it started.
proof fn lemma_walk_grows(n: Seq<NodeModel>, id: int, q: Seq<Seq<char>>, inl: bool)
    requires
        arena_wf(n),
        0 <= id < n.len(),
        walk(n, id, q, inl) is Some,
    ensures
        kept(n, walk(n, id, q, inl).unwrap().0, -1),
        arena_wf(walk(n, id, q, inl).unwrap().0),
        id <= walk(n, id, q, inl).unwrap().1 < walk(n, id, q, inl).unwrap().0.len(),
        q.len() > 0 ==> id < walk(n, id, q, inl).unwrap().1,
    decreases q.len(),
{
    if q.len() > 0 {
        lemma_walk_grows(n, id, q.drop_last(), inl);
        let (n1, j) = walk(n, id, q.drop_last(), inl).unwrap();
        lemma_step_grows(n1, j, q.last(), inl);
        lemma_kept_trans(n, n1, step_create(n1, j, q.last(), inl).unwrap().0, -1);
    } else {
        lemma_kept_refl(n);
    }
}

/// A step whose result is kept in `m`, where its node is not `skip`, is the
/// same step in `m`, which it leaves as it is.
proof fn lemma_step_stable(n: Seq<NodeModel>, j: int, seg: Seq<char>, inl: bool, m: Seq<NodeModel>, skip: int)
    requires
        arena_wf(n),
        0 <= j < n.len(),
        step_create(n, j, seg, inl) is Some,
        kept(step_create(n, j, seg, inl).unwrap().0, m, skip),
        j != skip,
    ensures
        step_create(m, j, seg, inl) == Some((m, step_create(n, j, seg, inl).unwrap().1)),
{
    lemma_step_grows(n, j, seg, inl);
    let (n1, c) = step_create(n, j, seg, inl).unwrap();
    lemma_find_kept(n1[j], m[j], seg);
    let i = find_key(n1[j], seg).unwrap();
    lemma_find_key(n1[j], seg);
    assert(same_way(m[j][i].1, n1[j][i].1));
}

/// A walk whose result is kept in `m`, and whose nodes before its end are
/// not `skip`, is the same walk in `m`, which it leaves as it is.
pub proof fn lemma_walk_stable(n: Seq<NodeModel>, id: int, q: Seq<Seq<char>>, inl: bool, m: Seq<NodeModel>, skip: int)
    requires
        arena_wf(n),
        0 <= id < n.len(),
        walk(n, id, q, inl) is Some,
        kept(walk(n, id, q, inl).unwrap().0, m, skip),
        skip >= walk(n, id, q, inl).unwrap().1 || skip < id,
    ensures
        walk(m, id, q, inl) == Some((m, walk(n, id, q, inl).unwrap().1)),
    decreases q.len(),
{
    if q.len() > 0 {
        lemma_walk_grows(n, id, q.drop_last(), inl);
        let (n1, j) = walk(n, id, q.drop_last(), inl).unwrap();
        lemma_step_grows(n1, j, q.last(), inl);
        let (n2, c) = step_create(n1, j, q.last(), inl).unwrap();
        lemma_kept_trans(n1, n2, m, skip);
        lemma_walk_stable(n, id, q.drop_last(), inl, m, skip);
        lemma_step_stable(n1, j, q.last(), inl, m, skip);
    }
}

/// The walk without creation: following a path that a walk has made leads
/// where the walk ended.
proof fn lemma_nav_walk(n: Seq<NodeModel>, q: Seq<Seq<char>>)
    requires
        arena_wf(n),
        walk(n, 0, q, false) is Some,
    ensures
        nav(walk(n, 0, q, false).unwrap().0, 0, q) == Some(walk(n, 0, q, false).unwrap().1),
    decreases q.len(),
{
    if q.len() > 0 {
        lemma_walk_grows(n, 0, q.drop_last(), false);
        let (n1, j) = walk(n, 0, q.drop_last(), false).unwrap();
        lemma_step_grows(n1, j, q.last(), false);
        let (n2, c) = step_create(n1, j, q.last(), false).unwrap();
        lemma_nav_walk(n, q.drop_last());
        lemma_nav_stable(n1, 0, q.drop_last(), n2, -1);
    }
}

/// Following a path leads to a node of the arena, after the one the path
/// starts from, and after the node its last key is found in.
pub(crate) proof fn lemma_nav_range(n: Seq<NodeModel>, id: int, q: Seq<Seq<char>>)
    requires
        arena_wf(n),
        0 <= id < n.len(),
        nav(n, id, q) is Some,
    ensures
        id <= nav(n, id, q).unwrap() < n.len(),
        q.len() > 0 ==> nav(n, id, q.drop_last()) is Some && nav(n, id, q.drop_last()).unwrap() < nav(n, id, q).unwrap(),
    decreases q.len(),
{
    if q.len() > 0 {
        lemma_nav_range(n, id, q.drop_last());
        let j = nav(n, id, q.drop_last()).unwrap();
        lemma_child_after(n, j, q.last(), false);
    }
}

/// Following a path in an arena kept in `m`, whose nodes before the end
/// are not `skip`, leads to the same node in `m`.
proof fn lemma_nav_stable(n: Seq<NodeModel>, id: int, q: Seq<Seq<char>>, m: Seq<NodeModel>, skip: int)
    requires
        arena_wf(n),
        0 <= id < n.len(),
        nav(n, id, q) is Some,
        kept(n, m, skip),
        skip >= nav(n, id, q).unwrap() || skip < id,
    ensures
        nav(m, id, q) == nav(n, id, q),
        id <= nav(n, id, q).unwrap() < n.len(),
    decreases q.len(),
{
    lemma_nav_range(n, id, q);
    if q.len() > 0 {
        lemma_nav_stable(n, id, q.drop_last(), m, skip);
        let j = nav(n, id, q.drop_last()).unwrap();
        lemma_child_after(n, j, q.last(), false);
        lemma_find_key(n[j], q.last());
        lemma_find_kept(n[j], m[j], q.last());
        let i = find_key(n[j], q.last()).unwrap();
        assert(same_way(m[j][i].1, n[j][i].1));
    }
}

/// Following `p` then `q` is following `p`, then `q` from where `p` ends.
proof fn lemma_nav_concat(n: Seq<NodeModel>, a: int, p: Seq<Seq<char>>, q: Seq<Seq<char>>)
    ensures
        nav(n, a, p + q) == match nav(n, a, p) {
            Some(b) => nav(n, b, q),
            None => None,
        },
    decreases q.len(),
{
    if q.len() == 0 {
        assert(p + q =~= p);
    } else {
        lemma_nav_concat(n, a, p, q.drop_last());
        assert((p + q).drop_last() =~= p + q.drop_last());
        assert((p + q).last() == q.last());
    }
}

/// Following a path that a walk from `id` has made leads where the walk
/// ended.
proof fn lemma_nav_walk_from(n: Seq<NodeModel>, id: int, q: Seq<Seq<char>>)
    requires
        arena_wf(n),
        0 <= id < n.len(),
        walk(n, id, q, false) is Some,
    ensures
        nav(walk(n, id, q, false).unwrap().0, id, q) == Some(walk(n, id, q, false).unwrap().1),
    decreases q.len(),
{
    if q.len() > 0 {
        lemma_walk_grows(n, id, q.drop_last(), false);
        let (n1, j) = walk(n, id, q.drop_last(), false).unwrap();
        lemma_step_grows(n1, j, q.last(), false);
        let (n2, c) = step_create(n1, j, q.last(), false).unwrap();
        lemma_nav_walk_from(n, id, q.drop_last());
        lemma_nav_stable(n1, id, q.drop_last(), n2, -1);
    }
}

/// A walk from `id` leaves the nodes before `id` as they are.
proof fn lemma_walk_keeps_before(n: Seq<NodeModel>, id: int, q: Seq<Seq<char>>, inl: bool)
    requires
        arena_wf(n),
        0 <= id < n.len(),
        walk(n, id, q, inl) is Some,
    ensures
        forall|a: int| 0 <= a < id ==> #[trigger] walk(n, id, q, inl).unwrap().0[a] == n[a],
    decreases q.len(),
{
    if q.len() > 0 {
        lemma_walk_keeps_before(n, id, q.drop_last(), inl);
        lemma_walk_grows(n, id, q.drop_last(), inl);
        let (n1, j) = walk(n, id, q.drop_last(), inl).unwrap();
        let (n2, c) = step_create(n1, j, q.last(), inl).unwrap();
        assert forall|a: int| 0 <= a < id implies #[trigger] n2[a] == n[a] by {
            assert(n1[a] == n[a]);
            if lookup(n1[j], q.last()) is None {
                assert(n2[a] == n1[a]);
            }
        }
    }
}

/// A `key = value` line under the header `[p]` (or `[[p]]`; `p` is empty
/// for the root table) puts the value at `p` followed by the key: from the
/// root, the path `p` and then all but the last segment of the key leads to
/// a table whose entry under the key's last segment is the value, however
/// many segments the key has. Under a header, the root table is left as it
/// was.
pub proof fn law_keyval_lands_under_current_table(n: Seq<NodeModel>, path: Seq<Seq<char>>, key: Seq<Seq<char>>, v: ValueModel)
    requires
        arena_wf(n),
        key.len() >= 1,
        keyval_effect(n, path, key, v) is Some,
    ensures
        nav(keyval_effect(n, path, key, v).unwrap(), 0, path + key.drop_last()) is Some,
        lookup(
            keyval_effect(n, path, key, v).unwrap()[nav(keyval_effect(n, path, key, v).unwrap(), 0, path + key.drop_last()).unwrap()],
            key.last(),
        ) == Some(TrackedModel::Defined(v)),
        path.len() > 0 ==> keyval_effect(n, path, key, v).unwrap()[0] == n[0],
{
    let id = nav(n, 0, path).unwrap();
    lemma_nav_range(n, 0, path);
    let q = key.drop_last();
    let (n1, j) = walk(n, id, q, false).unwrap();
    lemma_walk_grows(n, id, q, false);
    lemma_nav_walk_from(n, id, q);
    lemma_nav_stable(n, 0, path, n1, -1);
    lemma_nav_concat(n1, 0, path, q);
    assert(nav(n1, 0, path + q) == Some(j));
    let n2 = keyval_effect(n, path, key, v).unwrap();
    let e = n1[j].push((key.last(), TrackedModel::Defined(v)));
    assert(n2 == n1.update(j, e));
    assert(e.drop_last() =~= n1[j]);
    assert forall|a: int| 0 <= a < n1.len() implies #[trigger] n1[a].len() <= n2[a].len() by {
    }
    assert forall|a: int, i: int| 0 <= a < n1.len() && 0 <= i < n1[a].len() implies (#[trigger] n2[a][i]).0 == n1[a][i].0 by {
        if a == j {
            assert(n2[a][i] == e[i]);
        }
    }
    assert forall|a: int, i: int| 0 <= a < n1.len() && 0 <= i < n1[a].len() && a != j implies same_way(#[trigger] n2[a][i].1, n1[a][i].1) by {
    }
    assert(kept(n1, n2, j));
    lemma_nav_stable(n1, 0, path + q, n2, j);
    lemma_find_key(n1[j], key.last());
    lemma_find_key(e, key.last());
    assert(n2[j] == e);
    if path.len() > 0 {
        lemma_walk_keeps_before(n, id, q, false);
        assert(nav(n, 0, path.drop_last()) is Some);
        lemma_nav_range(n, 0, path.drop_last());
        assert(0 < id);
        assert(n1[0] == n[0]);
    }
}

/// A key cannot be defined twice: once `key = v` has been added to the
/// table at node `id`, adding `key` there again fails.
pub proof fn law_key_defined_once(n: Seq<NodeModel>, id: int, key: Seq<Seq<char>>, v: crate::value::ValueModel, w: crate::value::ValueModel, inline: bool)
    requires
        arena_wf(n),
        0 <= id < n.len(),
        key.len() >= 1,
        insert_spec(n, id, key, v, inline) is Some,
    ensures
        insert_spec(insert_spec(n, id, key, v, inline).unwrap(), id, key, w, inline) is None,
{
    let (n1, j) = walk(n, id, key.drop_last(), inline).unwrap();
    lemma_walk_grows(n, id, key.drop_last(), inline);
    let n2 = insert_spec(n, id, key, v, inline).unwrap();
    let e = n1[j].push((key.last(), TrackedModel::Defined(v)));
    assert(e.drop_last() =~= n1[j]);
    assert forall|a: int| 0 <= a < n1.len() implies #[trigger] n1[a].len() <= n2[a].len() by {
    }
    assert forall|a: int, i: int| 0 <= a < n1.len() && 0 <= i < n1[a].len() implies (#[trigger] n2[a][i]).0 == n1[a][i].0 by {
        if a == j {
            assert(n2[a][i] == e[i]);
        }
    }
    assert forall|a: int, i: int| 0 <= a < n1.len() && 0 <= i < n1[a].len() && a != j implies same_way(#[trigger] n2[a][i].1, n1[a][i].1) by {
    }
    assert(kept(n1, n2, j));
    lemma_walk_stable(n, id, key.drop_last(), inline, n2, j);
    lemma_find_key(e, key.last());
}

/// A table cannot be opened twice: once `[path]` has been opened, opening
/// it again fails.
pub proof fn law_table_opened_once(n: Seq<NodeModel>, path: Seq<Seq<char>>)
    requires
        arena_wf(n),
        open_table_spec(n, path) is Some,
    ensures
        open_table_spec(open_table_spec(n, path).unwrap(), path) is None,
{
    let (n1, j) = walk(n, 0, path.drop_last(), false).unwrap();
    lemma_walk_grows(n, 0, path.drop_last(), false);
    let n2 = open_table_spec(n, path).unwrap();
    let k = path.last();
    lemma_find_key(n1[j], k);
    match find_key(n1[j], k) {
        None => {
            let c = n1.len() as int;
            let e = n1[j].push((k, TrackedModel::Implicit(c, true)));
            assert(e.drop_last() =~= n1[j]);
            assert(n2[j] == e);
            assert forall|a: int| 0 <= a < n1.len() implies #[trigger] n1[a].len() <= n2[a].len() by {
            }
            assert forall|a: int, i: int| 0 <= a < n1.len() && 0 <= i < n1[a].len() implies (#[trigger] n2[a][i]).0 == n1[a][i].0 by {
                if a == j {
                    assert(n2[a][i] == e[i]);
                }
            }
            assert(kept(n1, n2, j));
            lemma_walk_stable(n, 0, path.drop_last(), false, n2, j);
            lemma_find_key(e, k);
        },
        Some(i) => {
            let c = n1[j][i].1->Implicit_0;
            let e = n1[j].update(i, (k, TrackedModel::Implicit(c, true)));
            assert(n2[j] == e);
            assert forall|a: int| 0 <= a < n1.len() implies #[trigger] n1[a].len() <= n2[a].len() by {
            }
            assert forall|a: int, t: int| 0 <= a < n1.len() && 0 <= t < n1[a].len() implies (#[trigger] n2[a][t]).0 == n1[a][t].0 by {
                if a == j {
                    assert(n2[a][t] == e[t]);
                }
            }
            assert(kept(n1, n2, j));
            lemma_walk_stable(n, 0, path.drop_last(), false, n2, j);
            lemma_find_kept(n1[j], n2[j], k);
        },
    }
}

/// A `[path]` header makes its table the current one: after it, the path
/// leads to the table it opened.
pub proof fn law_opened_table_is_current(n: Seq<NodeModel>, path: Seq<Seq<char>>)
    requires
        arena_wf(n),
        open_table_spec(n, path) is Some,
    ensures
        nav(open_table_spec(n, path).unwrap(), 0, path) is Some,
        lookup(open_table_spec(n, path).unwrap()[nav(open_table_spec(n, path).unwrap(), 0, path.drop_last()).unwrap()], path.last())
            matches Some(TrackedModel::Implicit(c, opened)) && opened
                && nav(open_table_spec(n, path).unwrap(), 0, path) == Some(c),
{
    let (n1, j) = walk(n, 0, path.drop_last(), false).unwrap();
    lemma_walk_grows(n, 0, path.drop_last(), false);
    lemma_nav_walk(n, path.drop_last());
    let n2 = open_table_spec(n, path).unwrap();
    let k = path.last();
    lemma_find_key(n1[j], k);
    match find_key(n1[j], k) {
        None => {
            let c = n1.len() as int;
            let e = n1[j].push((k, TrackedModel::Implicit(c, true)));
            assert(e.drop_last() =~= n1[j]);
            assert(n2[j] == e);
            assert forall|a: int| 0 <= a < n1.len() implies #[trigger] n1[a].len() <= n2[a].len() by {
            }
            assert forall|a: int, i: int| 0 <= a < n1.len() && 0 <= i < n1[a].len() implies (#[trigger] n2[a][i]).0 == n1[a][i].0 by {
                if a == j {
                    assert(n2[a][i] == e[i]);
                }
            }
            assert(kept(n1, n2, j));
            lemma_nav_stable(n1, 0, path.drop_last(), n2, j);
            lemma_find_key(e, k);
        },
        Some(i) => {
            let c = n1[j][i].1->Implicit_0;
            let e = n1[j].update(i, (k, TrackedModel::Implicit(c, true)));
            assert(n2[j] == e);
            assert forall|a: int| 0 <= a < n1.len() implies #[trigger] n1[a].len() <= n2[a].len() by {
            }
            assert forall|a: int, t: int| 0 <= a < n1.len() && 0 <= t < n1[a].len() implies (#[trigger] n2[a][t]).0 == n1[a][t].0 by {
                if a == j {
                    assert(n2[a][t] == e[t]);
                }
            }
            assert(kept(n1, n2, j));
            lemma_nav_stable(n1, 0, path.drop_last(), n2, j);
            lemma_find_kept(n1[j], n2[j], k);
        },
    }
    assert(path.drop_last().push(k) =~= path);
}

/// A `[[path]]` header adds a new, empty table to the array, and that
/// table becomes the current one: after it, the path leads to the last node
/// of the arena, which is empty. (The arena's size is bounded by that of
/// a vector.)
pub proof fn law_new_aot_table_is_current(n: Seq<NodeModel>, path: Seq<Seq<char>>)
    requires
        arena_wf(n),
        append_aot_spec(n, path) is Some,
        append_aot_spec(n, path).unwrap().len() <= usize::MAX,
    ensures
        nav(append_aot_spec(n, path).unwrap(), 0, path) == Some(append_aot_spec(n, path).unwrap().len() - 1),
        append_aot_spec(n, path).unwrap().last() == Seq::<(Seq<char>, TrackedModel)>::empty(),
{
    let (n1, j) = walk(n, 0, path.drop_last(), false).unwrap();
    lemma_walk_grows(n, 0, path.drop_last(), false);
    lemma_nav_walk(n, path.drop_last());
    let n2 = append_aot_spec(n, path).unwrap();
    let k = path.last();
    let c = n1.len() as usize;
    lemma_find_key(n1[j], k);
    match find_key(n1[j], k) {
        None => {
            let e = n1[j].push((k, TrackedModel::Aot(seq![c])));
            assert(e.drop_last() =~= n1[j]);
            assert(n2[j] == e);
            assert forall|a: int| 0 <= a < n1.len() implies #[trigger] n1[a].len() <= n2[a].len() by {
            }
            assert forall|a: int, i: int| 0 <= a < n1.len() && 0 <= i < n1[a].len() implies (#[trigger] n2[a][i]).0 == n1[a][i].0 by {
                if a == j {
                    assert(n2[a][i] == e[i]);
                }
            }
            assert(kept(n1, n2, j));
            lemma_nav_stable(n1, 0, path.drop_last(), n2, j);
            lemma_find_key(e, k);
            assert(seq![c].last() == c);
        },
        Some(i) => {
            let ids = n1[j][i].1->Aot_0;
            let e = n1[j].update(i, (k, TrackedModel::Aot(ids.push(c))));
            assert(n2[j] == e);
            assert forall|a: int| 0 <= a < n1.len() implies #[trigger] n1[a].len() <= n2[a].len() by {
            }
            assert forall|a: int, t: int| 0 <= a < n1.len() && 0 <= t < n1[a].len() implies (#[trigger] n2[a][t]).0 == n1[a][t].0 by {
                if a == j {
                    assert(n2[a][t] == e[t]);
                }
            }
            assert(kept(n1, n2, j));
            lemma_nav_stable(n1, 0, path.drop_last(), n2, j);
            lemma_find_kept(n1[j], n2[j], k);
        },
    }
    assert(path.drop_last().push(k) =~= path);
}

/// A table that a `[path.key]` header creates on the way is not yet
/// opened: a later `[path]` header opens it, and a third one is refused.
pub proof fn law_implicit_table_opened_later(n: Seq<NodeModel>, path: Seq<Seq<char>>, key: Seq<char>)
    requires
        arena_wf(n),
        path.len() >= 1,
        nav(n, 0, path.drop_last()) is Some,
        find_key(n[nav(n, 0, path.drop_last()).unwrap()], path.last()) is None,
    ensures
        open_table_spec(n, path.push(key)) is Some,
        open_table_spec(open_table_spec(n, path.push(key)).unwrap(), path) is Some,
        open_table_spec(open_table_spec(open_table_spec(n, path.push(key)).unwrap(), path).unwrap(), path) is None,
{
    let q = path.drop_last();
    let last = path.last();
    let j = nav(n, 0, q).unwrap();
    lemma_nav_range(n, 0, q);
    crate::sections::lemma_walk_nav(n, q, j);
    assert(path.push(key).drop_last() =~= path);
    assert(path.push(key).last() == key);
    assert(q.push(last) =~= path);
    // The walk to `path` creates its table, not opened.
    let c = n.len() as int;
    let n1 = n.update(j, n[j].push((last, TrackedModel::Implicit(c, false)))).push(Seq::<(Seq<char>, TrackedModel)>::empty());
    assert(step_create(n, j, last, false) == Some((n1, c)));
    assert(walk(n, 0, path, false) == Some((n1, c)));
    assert(find_key(n1[c], key) is None);
    let c2 = n1.len() as int;
    let n2 = n1.update(c, n1[c].push((key, TrackedModel::Implicit(c2, true)))).push(Seq::<(Seq<char>, TrackedModel)>::empty());
    assert(open_table_spec(n, path.push(key)) == Some(n2));
    // `n2` is well formed.
    assert forall|a: int, i: int| 0 <= a < n2.len() && 0 <= i < n2[a].len() implies refs_ok(#[trigger] n2[a][i].1, a, n2.len() as int) by {
        if a < c && !(a == j && i == n[j].len()) {
            assert(n2[a][i] == n[a][i]);
            assert(refs_ok(n[a][i].1, a, n.len() as int));
        }
    }
    // The header `[path]` finds the table created on the way.
    crate::sections::lemma_nav_frame(n, n2, q, j);
    crate::sections::lemma_walk_nav(n2, q, j);
    assert(n2[j] == n[j].push((last, TrackedModel::Implicit(c, false))));
    crate::sections::lemma_find_pushed(n[j], last, TrackedModel::Implicit(c, false));
    assert(find_key(n2[j], last) == Some(n[j].len() as int));
    assert(open_table_spec(n2, path) is Some);
    law_table_opened_once(n2, path);
}

/// A `[[path]]` header for an array of tables that exists keeps its tables:
/// the array gets one new table at its end, a new node, and no other node
/// changes but the one that holds the array.
pub proof fn law_aot_keeps_its_tables(n: Seq<NodeModel>, path: Seq<Seq<char>>, ids: Seq<usize>)
    requires
        arena_wf(n),
        path.len() >= 1,
        nav(n, 0, path.drop_last()) is Some,
        lookup(n[nav(n, 0, path.drop_last()).unwrap()], path.last()) == Some(TrackedModel::Aot(ids)),
    ensures
        ({
            let j = nav(n, 0, path.drop_last()).unwrap();
            let m = append_aot_spec(n, path).unwrap();
            &&& append_aot_spec(n, path) is Some
            &&& m.len() == n.len() + 1
            &&& m.last() == Seq::<(Seq<char>, TrackedModel)>::empty()
            &&& lookup(m[j], path.last()) == Some(TrackedModel::Aot(ids.push(n.len() as usize)))
            &&& forall|a: int| 0 <= a < n.len() && a != j ==> #[trigger] m[a] == n[a]
        }),
{
    let q = path.drop_last();
    let last = path.last();
    let j = nav(n, 0, q).unwrap();
    lemma_nav_range(n, 0, q);
    crate::sections::lemma_walk_nav(n, q, j);
    lemma_find_key(n[j], last);
    let i = find_key(n[j], last).unwrap();
    let c = n.len() as usize;
    let e = n[j].update(i, (last, TrackedModel::Aot(ids.push(c))));
    let m = n.update(j, e).push(Seq::<(Seq<char>, TrackedModel)>::empty());
    assert(append_aot_spec(n, path) == Some(m));
    assert(m[j] == e);
    crate::table::lemma_find_key_same_keys(e, n[j], last);
}

} // verus!
