//! How the tables of a document are built: keys, dotted keys, `[table]` and
//! `[[array]]` headers, and the rules on what may be defined twice.
//!
//! Tables under construction live in an arena: each node is a map from keys
//! to tracked values, and a tracked value refers to the nodes of its tables
//! by their positions in the arena. Node 0 is the root; a node's children
//! always come after it.

use vstd::prelude::*;
use crate::error::ParseError;
use crate::table::{KeyMap, Table, copy_value, entries_of, find_key, lookup, value_model, lemma_find_key, lemma_table_model, lemma_values_model, table_model, values_model};
use crate::value::{Value, ValueModel};

verus! {

/// A table entry under construction.
pub enum TrackedValue {
    /// A value given by a key/value pair: it cannot be extended.
    Defined(Value),
    /// A table (the node at the given position). The flag says whether a
    /// `[table]` header has opened it; a table can be opened once.
    ImplicitTable(usize, bool),
    /// An array of tables made by `[[header]]` lines: the nodes of its tables.
    ArrayOfTables(Vec<usize>),
}

/// A tracked value with its array of tables as a sequence.
pub ghost enum TrackedModel {
    Defined(ValueModel),
    Implicit(int, bool),
    Aot(Seq<usize>),
}

impl TrackedValue {
    pub open spec fn model(&self) -> TrackedModel {
        match self {
            TrackedValue::Defined(v) => TrackedModel::Defined(value_model(*v)),
            TrackedValue::ImplicitTable(c, o) => TrackedModel::Implicit(*c as int, *o),
            TrackedValue::ArrayOfTables(ids) => TrackedModel::Aot(ids@),
        }
    }
}

/// The entries of a node, with tracked values as models.
pub type NodeModel = Seq<(Seq<char>, TrackedModel)>;

/// The node of the table that a dotted key or a header path goes through
/// when it reaches entry `e`: a table's node, or the last table of an array
/// of tables (unless `inline`, where arrays of tables are not gone through).
pub open spec fn child_of(e: TrackedModel, inline: bool) -> Option<int> {
    match e {
        TrackedModel::Implicit(c, _) => Some(c),
        TrackedModel::Aot(ids) => if !inline && ids.len() > 0 {
            Some(ids.last() as int)
        } else {
            None
        },
        TrackedModel::Defined(_) => None,
    }
}

/// Follows `path` from node `id` without creating anything.
pub open spec fn nav(n: Seq<NodeModel>, id: int, path: Seq<Seq<char>>) -> Option<int>
    decreases path.len(),
{
    if path.len() == 0 {
        Some(id)
    } else {
        match nav(n, id, path.drop_last()) {
            None => None,
            Some(j) => match lookup(n[j], path.last()) {
                None => None,
                Some(e) => child_of(e, false),
            },
        }
    }
}

/// One step of a walk from node `j` by key `seg`: a missing key gets a new,
/// empty, not yet opened table.
pub open spec fn step_create(n: Seq<NodeModel>, j: int, seg: Seq<char>, inline: bool) -> Option<(Seq<NodeModel>, int)> {
    match lookup(n[j], seg) {
        None => {
            let c = n.len() as int;
            Some((n.update(j, n[j].push((seg, TrackedModel::Implicit(c, false)))).push(Seq::empty()), c))
        },
        Some(e) => match child_of(e, inline) {
            Some(c) => Some((n, c)),
            None => None,
        },
    }
}

/// Walks `path` from node `id`, creating the tables that are missing.
pub open spec fn walk(n: Seq<NodeModel>, id: int, path: Seq<Seq<char>>, inline: bool) -> Option<(Seq<NodeModel>, int)>
    decreases path.len(),
{
    if path.len() == 0 {
        Some((n, id))
    } else {
        match walk(n, id, path.drop_last(), inline) {
            None => None,
            Some((n1, j)) => step_create(n1, j, path.last(), inline),
        }
    }
}

/// Adds `key = v` (with `key` a dotted key of at least one segment) to the
/// table at node `id`: the walk through the leading segments must succeed and
/// the last segment must be new there.
pub open spec fn insert_spec(n: Seq<NodeModel>, id: int, key: Seq<Seq<char>>, v: ValueModel, inline: bool) -> Option<Seq<NodeModel>> {
    match walk(n, id, key.drop_last(), inline) {
        None => None,
        Some((n1, j)) => if find_key(n1[j], key.last()) is Some {
            None
        } else {
            Some(n1.update(j, n1[j].push((key.last(), TrackedModel::Defined(v)))))
        },
    }
}

/// Opens the table `[path]`.
pub open spec fn open_table_spec(n: Seq<NodeModel>, path: Seq<Seq<char>>) -> Option<Seq<NodeModel>> {
    if path.len() == 0 {
        None
    } else {
        match walk(n, 0, path.drop_last(), false) {
            None => None,
            Some((n1, j)) => match find_key(n1[j], path.last()) {
                None => {
                    let c = n1.len() as int;
                    Some(n1.update(j, n1[j].push((path.last(), TrackedModel::Implicit(c, true)))).push(Seq::empty()))
                },
                Some(i) => match n1[j][i].1 {
                    TrackedModel::Implicit(c, opened) => if opened {
                        None
                    } else {
                        Some(n1.update(j, n1[j].update(i, (path.last(), TrackedModel::Implicit(c, true)))))
                    },
                    _ => None,
                },
            },
        }
    }
}

/// Adds a table to the array of tables `[[path]]`.
pub open spec fn append_aot_spec(n: Seq<NodeModel>, path: Seq<Seq<char>>) -> Option<Seq<NodeModel>> {
    if path.len() == 0 {
        None
    } else {
        match walk(n, 0, path.drop_last(), false) {
            None => None,
            Some((n1, j)) => {
                let c = n1.len() as usize;
                match find_key(n1[j], path.last()) {
                    None => Some(n1.update(j, n1[j].push((path.last(), TrackedModel::Aot(seq![c])))).push(Seq::empty())),
                    Some(i) => match n1[j][i].1 {
                        TrackedModel::Aot(ids) => Some(
                            n1.update(j, n1[j].update(i, (path.last(), TrackedModel::Aot(ids.push(c))))).push(Seq::empty()),
                        ),
                        _ => None,
                    },
                }
            },
        }
    }
}


// ---------------------------------------------------------------------------
// Error messages
// ---------------------------------------------------------------------------

/// The message when a walk cannot go on from node `j` by key `seg`.
pub open spec fn step_msg(n: Seq<NodeModel>, j: int, seg: Seq<char>, inline: bool) -> Seq<char> {
    match lookup(n[j], seg) {
        Some(TrackedModel::Aot(_)) => if inline {
            "'"@ + seg + "' is an array of tables"@
        } else {
            "empty array of tables at '"@ + seg + "'"@
        },
        Some(TrackedModel::Defined(_)) => if inline {
            "'"@ + seg + "' is already defined"@
        } else {
            "'"@ + seg + "' is already defined as a non-table value"@
        },
        _ => Seq::empty(),
    }
}

/// The message of a walk that fails: that of the step where it stops.
pub open spec fn walk_msg(n: Seq<NodeModel>, id: int, path: Seq<Seq<char>>, inline: bool) -> Seq<char>
    decreases path.len(),
{
    if path.len() == 0 {
        Seq::empty()
    } else {
        match walk(n, id, path.drop_last(), inline) {
            None => walk_msg(n, id, path.drop_last(), inline),
            Some((n1, j)) => step_msg(n1, j, path.last(), inline),
        }
    }
}

/// The message of a failed `insert_spec`.
pub open spec fn insert_msg(n: Seq<NodeModel>, id: int, key: Seq<Seq<char>>, inline: bool) -> Seq<char> {
    match walk(n, id, key.drop_last(), inline) {
        None => walk_msg(n, id, key.drop_last(), inline),
        Some(_) => if inline {
            "duplicate key '"@ + key.last() + "' in inline table"@
        } else {
            "duplicate key '"@ + key.last() + "'"@
        },
    }
}

/// The message of a failed `nav`.
pub open spec fn nav_msg(n: Seq<NodeModel>, id: int, path: Seq<Seq<char>>) -> Seq<char>
    decreases path.len(),
{
    if path.len() == 0 {
        Seq::empty()
    } else {
        match nav(n, id, path.drop_last()) {
            None => nav_msg(n, id, path.drop_last()),
            Some(j) => match lookup(n[j], path.last()) {
                None => "internal: path segment '"@ + path.last() + "' not found"@,
                Some(TrackedModel::Aot(_)) => "empty array of tables at '"@ + path.last() + "'"@,
                Some(TrackedModel::Defined(_)) => "'"@ + path.last() + "' is already defined as a non-table value"@,
                _ => Seq::empty(),
            },
        }
    }
}

/// The message of a failed `keyval_effect`.
pub open spec fn keyval_msg(n: Seq<NodeModel>, path: Seq<Seq<char>>, key: Seq<Seq<char>>) -> Seq<char> {
    match nav(n, 0, path) {
        None => nav_msg(n, 0, path),
        Some(id) => insert_msg(n, id, key, false),
    }
}

/// The message of a failed `open_table_spec`.
pub open spec fn open_table_msg(n: Seq<NodeModel>, path: Seq<Seq<char>>) -> Seq<char> {
    if path.len() == 0 {
        "empty table header"@
    } else {
        match walk(n, 0, path.drop_last(), false) {
            None => walk_msg(n, 0, path.drop_last(), false),
            Some((n1, j)) => match find_key(n1[j], path.last()) {
                None => Seq::empty(),
                Some(i) => match n1[j][i].1 {
                    TrackedModel::Implicit(_, _) => "table '"@ + path.last() + "' defined more than once"@,
                    TrackedModel::Defined(_) => "table '"@ + path.last() + "' already defined"@,
                    TrackedModel::Aot(_) => "'"@ + path.last() + "' is an array of tables, not a standard table"@,
                },
            },
        }
    }
}

/// The message of a failed `append_aot_spec`.
pub open spec fn append_aot_msg(n: Seq<NodeModel>, path: Seq<Seq<char>>) -> Seq<char> {
    if path.len() == 0 {
        "empty array-of-tables header"@
    } else {
        match walk(n, 0, path.drop_last(), false) {
            None => walk_msg(n, 0, path.drop_last(), false),
            Some((n1, j)) => match find_key(n1[j], path.last()) {
                None => Seq::empty(),
                Some(i) => match n1[j][i].1 {
                    TrackedModel::Defined(_) => "'"@ + path.last() + "' is already defined; cannot use as array of tables"@,
                    TrackedModel::Implicit(_, _) => "'"@ + path.last() + "' is already defined as a table; cannot use as array of tables"@,
                    TrackedModel::Aot(_) => Seq::empty(),
                },
            },
        }
    }
}

proof fn lemma_walk_msg_prefix(n: Seq<NodeModel>, id: int, p: Seq<Seq<char>>, k: int, m: int, inline: bool, n1: Seq<NodeModel>, j: int)
    requires
        0 <= k < m <= p.len(),
        walk(n, id, p.take(k), inline) == Some((n1, j)),
        step_create(n1, j, p[k], inline) is None,
    ensures
        walk(n, id, p.take(m), inline) is None,
        walk_msg(n, id, p.take(m), inline) == step_msg(n1, j, p[k], inline),
    decreases m - k,
{
    assert(p.take(k + 1).drop_last() =~= p.take(k));
    assert(p.take(k + 1).last() == p[k]);
    if m > k + 1 {
        lemma_walk_msg_prefix(n, id, p, k, m - 1, inline, n1, j);
        assert(p.take(m).drop_last() =~= p.take(m - 1));
    }
}

proof fn lemma_nav_msg_prefix(n: Seq<NodeModel>, id: int, p: Seq<Seq<char>>, k: int, m: int, j: int, msg: Seq<char>)
    requires
        0 <= k < m <= p.len(),
        nav(n, id, p.take(k)) == Some(j),
        nav(n, id, p.take(k + 1)) is None,
        msg == nav_msg(n, id, p.take(k + 1)),
    ensures
        nav(n, id, p.take(m)) is None,
        nav_msg(n, id, p.take(m)) == msg,
    decreases m - k,
{
    assert(p.take(k + 1).drop_last() =~= p.take(k));
    if m > k + 1 {
        lemma_nav_msg_prefix(n, id, p, k, m - 1, j, msg);
        assert(p.take(m).drop_last() =~= p.take(m - 1));
    }
}

/// Every reference from a node goes to a later node of the arena.
pub open spec fn arena_wf(n: Seq<NodeModel>) -> bool {
    &&& n.len() >= 1
    &&& forall|a: int, i: int| 0 <= a < n.len() && 0 <= i < n[a].len() ==> refs_ok(#[trigger] n[a][i].1, a, n.len() as int)
}

/// The references of `e`, an entry of node `a`, go to nodes after `a` and
/// before `len`.
pub open spec fn refs_ok(e: TrackedModel, a: int, len: int) -> bool {
    match e {
        TrackedModel::Implicit(c, _) => a < c < len,
        TrackedModel::Aot(ids) => forall|k: int| 0 <= k < ids.len() ==> a < #[trigger] ids[k] && ids[k] < len,
        TrackedModel::Defined(_) => true,
    }
}

/// The model of a node.
pub open spec fn node_model(m: KeyMap<TrackedValue>) -> NodeModel {
    Seq::new(m@.len(), |i: int| (m@[i].0, m@[i].1.model()))
}

/// The views of a sequence of strings.
pub open spec fn strs(v: Seq<String>) -> Seq<Seq<char>> {
    Seq::new(v.len(), |i: int| v[i]@)
}

proof fn lemma_node_find(m: KeyMap<TrackedValue>, k: Seq<char>)
    ensures
        find_key(node_model(m), k) == find_key(m@, k),
{
    crate::table::lemma_find_key_same_keys(node_model(m), m@, k);
}

/// `prefix`, then `key`, then `suffix`.
fn quoted(prefix: &str, key: &str, suffix: &str) -> (s: String)
    requires
        prefix@.len() > 0,
    ensures
        s@ == prefix@ + key@ + suffix@,
        s@.len() > 0,
{
    let mut s = String::from_str(prefix);
    s.append(key);
    s.append(suffix);
    s
}

proof fn lemma_nav_prefix_none(n: Seq<NodeModel>, id: int, p: Seq<Seq<char>>, k: int)
    requires
        0 <= k <= p.len(),
        nav(n, id, p.take(k)) is None,
    ensures
        nav(n, id, p) is None,
    decreases p.len() - k,
{
    if k < p.len() {
        assert(p.take(k + 1).drop_last() =~= p.take(k));
        lemma_nav_prefix_none(n, id, p, k + 1);
    } else {
        assert(p.take(k) =~= p);
    }
}

proof fn lemma_walk_prefix_none(n: Seq<NodeModel>, id: int, p: Seq<Seq<char>>, k: int, m: int, inline: bool)
    requires
        0 <= k <= m <= p.len(),
        walk(n, id, p.take(k), inline) is None,
    ensures
        walk(n, id, p.take(m), inline) is None,
    decreases m - k,
{
    if k < m {
        assert(p.take(k + 1).drop_last() =~= p.take(k));
        lemma_walk_prefix_none(n, id, p, k + 1, m, inline);
    }
}

/// The tables of a document (or of an inline table) under construction.
pub struct Arena {
    nodes: Vec<KeyMap<TrackedValue>>,
}

impl View for Arena {
    type V = Seq<NodeModel>;

    closed spec fn view(&self) -> Seq<NodeModel> {
        Seq::new(self.nodes.len() as nat, |a: int| node_model(self.nodes@[a]))
    }
}

impl Arena {
    /// An arena holding an empty root table.
    pub fn new() -> (a: Arena)
        ensures
            a@ == seq![Seq::<(Seq<char>, TrackedModel)>::empty()],
            arena_wf(a@),
    {
        let mut nodes: Vec<KeyMap<TrackedValue>> = Vec::new();
        nodes.push(KeyMap::new());
        let a = Arena { nodes };
        assert(node_model(a.nodes@[0]) =~= Seq::<(Seq<char>, TrackedModel)>::empty());
        assert(a@ =~= seq![Seq::<(Seq<char>, TrackedModel)>::empty()]);
        a
    }

    pub fn len(&self) -> (n: usize)
        ensures
            n == self@.len(),
    {
        self.nodes.len()
    }

    /// One step of a walk from node `j` by key `seg`.
    fn step(&mut self, j: usize, seg: &String, inline: bool, line: u32, col: u32) -> (r: Result<usize, ParseError>)
        requires
            arena_wf(old(self)@),
            j < old(self)@.len(),
        ensures
            arena_wf(final(self)@),
            match step_create(old(self)@, j as int, seg@, inline) {
                Some((n, c)) => r == Ok::<usize, ParseError>(c as usize) && final(self)@ == n && j < c < n.len(),
                None => r is Err && final(self)@ == old(self)@
                    && r->Err_0.message@ == step_msg(old(self)@, j as int, seg@, inline),
            },
            r is Err ==> r->Err_0.line == line && r->Err_0.col == col && r->Err_0.message@.len() > 0,
    {
        let ghost n0 = self@;
        proof {
            lemma_node_find(self.nodes@[j as int], seg@);
            lemma_find_key(self.nodes@[j as int]@, seg@);
            assert(n0[j as int] == node_model(self.nodes@[j as int]));
        }
        let c = self.nodes.len();
        let found: Option<usize>;
        match self.nodes[j].get(seg.as_str()) {
            None => {
                found = None;
            },
            Some(TrackedValue::ImplicitTable(child, _)) => {
                found = Some(*child);
            },
            Some(TrackedValue::ArrayOfTables(ids)) => {
                if inline {
                    proof {
                        reveal_strlit("'");
                    }
                    return Err(ParseError::new(quoted("'", seg.as_str(), "' is an array of tables"), line, col));
                }
                if ids.len() == 0 {
                    proof {
                        reveal_strlit("empty array of tables at '");
                    }
                    return Err(ParseError::new(quoted("empty array of tables at '", seg.as_str(), "'"), line, col));
                }
                found = Some(ids[ids.len() - 1]);
            },
            Some(TrackedValue::Defined(_)) => {
                if inline {
                    proof {
                        reveal_strlit("'");
                    }
                    return Err(ParseError::new(quoted("'", seg.as_str(), "' is already defined"), line, col));
                }
                proof {
                    reveal_strlit("'");
                }
                return Err(ParseError::new(quoted("'", seg.as_str(), "' is already defined as a non-table value"), line, col));
            },
        }
        match found {
            Some(child) => {
                proof {
                    let i = find_key(self.nodes@[j as int]@, seg@).unwrap();
                    assert(n0[j as int][i].1 == self.nodes@[j as int]@[i].1.model());
                    assert(refs_ok(n0[j as int][i].1, j as int, n0.len() as int));
                }
                Ok(child)
            },
            None => {
                let ghost m0 = self.nodes@[j as int];
                let ghost e = TrackedValue::ImplicitTable(c, false);
                self.nodes[j].insert(seg.clone(), TrackedValue::ImplicitTable(c, false));
                self.nodes.push(KeyMap::new());
                proof {
                    let want = n0.update(j as int, n0[j as int].push((seg@, TrackedModel::Implicit(c as int, false)))).push(Seq::empty());
                    assert(node_model(self.nodes@[j as int]) =~= n0[j as int].push((seg@, TrackedModel::Implicit(c as int, false))));
                    assert(node_model(self.nodes@[c as int]) =~= Seq::<(Seq<char>, TrackedModel)>::empty());
                    assert(self@ =~= want);
                    let n1 = self@;
                    assert forall|a: int, i: int| 0 <= a < n1.len() && 0 <= i < n1[a].len() implies refs_ok(#[trigger] n1[a][i].1, a, n1.len() as int) by {
                        if a != j && a != c {
                            assert(n1[a][i] == n0[a][i]);
                            assert(refs_ok(n0[a][i].1, a, n0.len() as int));
                        } else if a == j {
                            if i < n0[j as int].len() {
                                assert(n1[a][i] == n0[a][i]);
                                assert(refs_ok(n0[a][i].1, a, n0.len() as int));
                            }
                        }
                    }
                }
                Ok(c)
            },
        }
    }

    /// Walks the first `upto` segments of `path` from node `id`, creating
    /// the tables that are missing.
    fn walk(&mut self, id: usize, path: &Vec<String>, upto: usize, inline: bool, line: u32, col: u32) -> (r: Result<usize, ParseError>)
        requires
            arena_wf(old(self)@),
            id < old(self)@.len(),
            upto <= path.len(),
        ensures
            arena_wf(final(self)@),
            final(self)@.len() >= old(self)@.len(),
            match walk(old(self)@, id as int, strs(path@).take(upto as int), inline) {
                Some((n, c)) => r == Ok::<usize, ParseError>(c as usize) && final(self)@ == n && 0 <= c < n.len(),
                None => r is Err && r->Err_0.message@ == walk_msg(old(self)@, id as int, strs(path@).take(upto as int), inline),
            },
            r is Err ==> r->Err_0.line == line && r->Err_0.col == col && r->Err_0.message@.len() > 0,
            r is Err ==> final(self)@ == old(self)@,
            r is Ok ==> final(self)@ == old(self)@ || final(self)@[r->Ok_0 as int].len() == 0,
    {
        let mut cur = id;
        let mut k: usize = 0;
        assert(strs(path@).take(0) =~= Seq::<Seq<char>>::empty());
        while k < upto
            invariant
                arena_wf(self@),
                k <= upto <= path.len(),
                cur < self@.len(),
                self@.len() >= old(self)@.len(),
                walk(old(self)@, id as int, strs(path@).take(k as int), inline) == Some((self@, cur as int)),
                self@ == old(self)@ || self@[cur as int].len() == 0,
            decreases upto - k,
        {
            proof {
                assert(strs(path@).take(k + 1).drop_last() =~= strs(path@).take(k as int));
                assert(strs(path@).take(k + 1).last() == path@[k as int]@);
            }
            let ghost before = self@;
            let stepped = self.step(cur, &path[k], inline, line, col);
            match stepped {
                Ok(c) => {
                    proof {
                        if before != old(self)@ {
                            assert(find_key(before[cur as int], path@[k as int]@) is None);
                        }
                        if self@ != before {
                            assert(self@[c as int] == Seq::<(Seq<char>, TrackedModel)>::empty());
                        }
                    }
                    cur = c;
                },
                Err(e) => {
                    proof {
                        if before != old(self)@ {
                            assert(find_key(before[cur as int], path@[k as int]@) is None);
                        }
                        lemma_walk_prefix_none(old(self)@, id as int, strs(path@), k + 1, upto as int, inline);
                        assert(strs(path@)[k as int] == path@[k as int]@);
                        lemma_walk_msg_prefix(old(self)@, id as int, strs(path@), k as int, upto as int, inline, before, cur as int);
                    }
                    return Err(e);
                },
            }
            k = k + 1;
        }
        Ok(cur)
    }

    /// Follows `path` from the root without creating anything.
    fn navigate(&self, path: &Vec<String>, line: u32, col: u32) -> (r: Result<usize, ParseError>)
        requires
            arena_wf(self@),
        ensures
            match nav(self@, 0, strs(path@)) {
                Some(c) => r == Ok::<usize, ParseError>(c as usize) && 0 <= c < self@.len(),
                None => r is Err && r->Err_0.message@ == nav_msg(self@, 0, strs(path@)),
            },
            r is Err ==> r->Err_0.line == line && r->Err_0.col == col && r->Err_0.message@.len() > 0,
    {
        let mut cur: usize = 0;
        let mut k: usize = 0;
        assert(strs(path@).take(0) =~= Seq::<Seq<char>>::empty());
        while k < path.len()
            invariant
                arena_wf(self@),
                k <= path.len(),
                cur < self@.len(),
                nav(self@, 0, strs(path@).take(k as int)) == Some(cur as int),
            decreases path.len() - k,
        {
            let seg = &path[k];
            let ghost n = self@;
            proof {
                assert(strs(path@).take(k + 1).drop_last() =~= strs(path@).take(k as int));
                assert(strs(path@).take(k + 1).last() == seg@);
                lemma_node_find(self.nodes@[cur as int], seg@);
                lemma_find_key(self.nodes@[cur as int]@, seg@);
                assert(n[cur as int] == node_model(self.nodes@[cur as int]));
            }
            match self.nodes[cur].get(seg.as_str()) {
                None => {
                    proof {
                        lemma_nav_prefix_none(n, 0, strs(path@), k + 1);
                        assert(lookup(n[cur as int], seg@) is None);
                        lemma_nav_msg_prefix(n, 0, strs(path@), k as int, path.len() as int, cur as int,
                            nav_msg(n, 0, strs(path@).take(k + 1)));
                        assert(strs(path@).take(path.len() as int) =~= strs(path@));
                    }
                    proof {
                        reveal_strlit("internal: path segment '");
                    }
                    return Err(ParseError::new(quoted("internal: path segment '", seg.as_str(), "' not found"), line, col));
                },
                Some(TrackedValue::ImplicitTable(child, _)) => {
                    proof {
                        let i = find_key(self.nodes@[cur as int]@, seg@).unwrap();
                        assert(n[cur as int][i].1 == self.nodes@[cur as int]@[i].1.model());
                        assert(refs_ok(n[cur as int][i].1, cur as int, n.len() as int));
                    }
                    cur = *child;
                },
                Some(TrackedValue::ArrayOfTables(ids)) => {
                    if ids.len() == 0 {
                        proof {
                            let i = find_key(self.nodes@[cur as int]@, seg@).unwrap();
                            assert(n[cur as int][i].1 == self.nodes@[cur as int]@[i].1.model());
                            lemma_nav_prefix_none(n, 0, strs(path@), k + 1);
                            assert(lookup(n[cur as int], seg@) == Some(n[cur as int][i].1));
                            lemma_nav_msg_prefix(n, 0, strs(path@), k as int, path.len() as int, cur as int,
                                nav_msg(n, 0, strs(path@).take(k + 1)));
                            assert(strs(path@).take(path.len() as int) =~= strs(path@));
                        }
                        proof {
                            reveal_strlit("empty array of tables at '");
                        }
                        return Err(ParseError::new(quoted("empty array of tables at '", seg.as_str(), "'"), line, col));
                    }
                    proof {
                        let i = find_key(self.nodes@[cur as int]@, seg@).unwrap();
                        assert(n[cur as int][i].1 == self.nodes@[cur as int]@[i].1.model());
                        assert(refs_ok(n[cur as int][i].1, cur as int, n.len() as int));
                        assert(ids@[ids.len() - 1] == ids@.last());
                    }
                    cur = ids[ids.len() - 1];
                },
                Some(TrackedValue::Defined(_)) => {
                    proof {
                        let i = find_key(self.nodes@[cur as int]@, seg@).unwrap();
                        assert(n[cur as int][i].1 == self.nodes@[cur as int]@[i].1.model());
                        lemma_nav_prefix_none(n, 0, strs(path@), k + 1);
                        assert(lookup(n[cur as int], seg@) == Some(n[cur as int][i].1));
                        lemma_nav_msg_prefix(n, 0, strs(path@), k as int, path.len() as int, cur as int,
                            nav_msg(n, 0, strs(path@).take(k + 1)));
                        assert(strs(path@).take(path.len() as int) =~= strs(path@));
                    }
                    proof {
                        reveal_strlit("'");
                    }
                    return Err(ParseError::new(quoted("'", seg.as_str(), "' is already defined as a non-table value"), line, col));
                },
            }
            k = k + 1;
        }
        proof {
            assert(strs(path@).take(path.len() as int) =~= strs(path@));
        }
        Ok(cur)
    }

    /// Adds `key = value` to the table at node `id`.
    fn insert_at(&mut self, id: usize, key: &Vec<String>, value: Value, inline: bool, line: u32, col: u32) -> (r: Result<(), ParseError>)
        requires
            arena_wf(old(self)@),
            id < old(self)@.len(),
            key.len() >= 1,
        ensures
            arena_wf(final(self)@),
            match insert_spec(old(self)@, id as int, strs(key@), value_model(value), inline) {
                Some(n) => r is Ok && final(self)@ == n,
                None => r is Err && r->Err_0.message@ == insert_msg(old(self)@, id as int, strs(key@), inline),
            },
            r is Err ==> r->Err_0.line == line && r->Err_0.col == col && r->Err_0.message@.len() > 0,
            r is Err ==> final(self)@ == old(self)@,
    {
        proof {
            assert(strs(key@).drop_last() =~= strs(key@).take(key.len() - 1));
        }
        let j = match self.walk(id, key, key.len() - 1, inline, line, col) {
            Ok(j) => j,
            Err(e) => {
                return Err(e);
            },
        };
        let last = &key[key.len() - 1];
        let ghost n1 = self@;
        proof {
            lemma_node_find(self.nodes@[j as int], last@);
            assert(n1[j as int] == node_model(self.nodes@[j as int]));
            assert(strs(key@).last() == last@);
        }
        if self.nodes[j].contains_key(last.as_str()) {
            proof {
                lemma_find_key(n1[j as int], last@);
            }
            if inline {
                proof {
                    reveal_strlit("duplicate key '");
                }
                return Err(ParseError::new(quoted("duplicate key '", last.as_str(), "' in inline table"), line, col));
            }
            proof {
                reveal_strlit("duplicate key '");
            }
            return Err(ParseError::new(quoted("duplicate key '", last.as_str(), "'"), line, col));
        }
        let ghost v = value_model(value);
        self.nodes[j].insert(last.clone(), TrackedValue::Defined(value));
        proof {
            let want = n1.update(j as int, n1[j as int].push((last@, TrackedModel::Defined(v))));
            assert(node_model(self.nodes@[j as int]) =~= n1[j as int].push((last@, TrackedModel::Defined(v))));
            assert(self@ =~= want);
            let n2 = self@;
            assert forall|a: int, i: int| 0 <= a < n2.len() && 0 <= i < n2[a].len() implies refs_ok(#[trigger] n2[a][i].1, a, n2.len() as int) by {
                if a != j || i < n1[j as int].len() {
                    assert(n2[a][i] == n1[a][i]);
                    assert(refs_ok(n1[a][i].1, a, n1.len() as int));
                }
            }
        }
        Ok(())
    }

    /// Opens the table `[path]`.
    fn open_table(&mut self, path: &Vec<String>, line: u32, col: u32) -> (r: Result<(), ParseError>)
        requires
            arena_wf(old(self)@),
        ensures
            arena_wf(final(self)@),
            match open_table_spec(old(self)@, strs(path@)) {
                Some(n) => r is Ok && final(self)@ == n,
                None => r is Err && r->Err_0.message@ == open_table_msg(old(self)@, strs(path@)),
            },
            r is Err ==> r->Err_0.line == line && r->Err_0.col == col && r->Err_0.message@.len() > 0,
            r is Err ==> final(self)@ == old(self)@,
    {
        if path.len() == 0 {
            proof {
                reveal_strlit("empty table header");
            }
            return Err(ParseError::new("empty table header".to_string(), line, col));
        }
        proof {
            assert(strs(path@).drop_last() =~= strs(path@).take(path.len() - 1));
        }
        let j = match self.walk(0, path, path.len() - 1, false, line, col) {
            Ok(j) => j,
            Err(e) => {
                return Err(e);
            },
        };
        let last = &path[path.len() - 1];
        let ghost n1 = self@;
        proof {
            lemma_node_find(self.nodes@[j as int], last@);
            assert(n1[j as int] == node_model(self.nodes@[j as int]));
            assert(strs(path@).last() == last@);
        }
        let found = self.nodes[j].position(last.as_str());
        match found {
            None => {
                let c = self.nodes.len();
                self.nodes[j].insert(last.clone(), TrackedValue::ImplicitTable(c, true));
                self.nodes.push(KeyMap::new());
                proof {
                    let want = n1.update(j as int, n1[j as int].push((last@, TrackedModel::Implicit(c as int, true)))).push(Seq::empty());
                    assert(node_model(self.nodes@[j as int]) =~= n1[j as int].push((last@, TrackedModel::Implicit(c as int, true))));
                    assert(node_model(self.nodes@[c as int]) =~= Seq::<(Seq<char>, TrackedModel)>::empty());
                    assert(self@ =~= want);
                    let n2 = self@;
                    assert forall|a: int, i: int| 0 <= a < n2.len() && 0 <= i < n2[a].len() implies refs_ok(#[trigger] n2[a][i].1, a, n2.len() as int) by {
                        if a != c && (a != j || i < n1[j as int].len()) {
                            assert(n2[a][i] == n1[a][i]);
                            assert(refs_ok(n1[a][i].1, a, n1.len() as int));
                        }
                    }
                }
                Ok(())
            },
            Some(i) => {
                proof {
                    assert(n1[j as int][i as int].1 == self.nodes@[j as int]@[i as int].1.model());
                }
                let child: usize;
                match self.nodes[j].value_at(i) {
                    TrackedValue::ImplicitTable(c, opened) => {
                        if *opened {
                            proof {
                                reveal_strlit("table '");
                            }
                            return Err(ParseError::new(quoted("table '", last.as_str(), "' defined more than once"), line, col));
                        }
                        child = *c;
                    },
                    TrackedValue::Defined(_) => {
                        proof {
                            reveal_strlit("table '");
                        }
                        return Err(ParseError::new(quoted("table '", last.as_str(), "' already defined"), line, col));
                    },
                    TrackedValue::ArrayOfTables(_) => {
                        proof {
                            reveal_strlit("'");
                        }
                        return Err(ParseError::new(quoted("'", last.as_str(), "' is an array of tables, not a standard table"), line, col));
                    },
                }
                proof {
                    assert(n1[j as int][i as int].1 == self.nodes@[j as int]@[i as int].1.model());
                    assert(refs_ok(n1[j as int][i as int].1, j as int, n1.len() as int));
                }
                let ghost m0 = self.nodes@[j as int];
                proof {
                    lemma_find_key(m0@, last@);
                }
                self.nodes[j].replace_at(i, TrackedValue::ImplicitTable(child, true));
                proof {
                    assert(self.nodes@[j as int]@ == m0@.update(i as int, (m0@[i as int].0, TrackedValue::ImplicitTable(child, true))));
                    assert(m0@[i as int].0 == last@);
                    let want = n1.update(j as int, n1[j as int].update(i as int, (last@, TrackedModel::Implicit(child as int, true))));
                    assert(node_model(self.nodes@[j as int]) =~= n1[j as int].update(i as int, (last@, TrackedModel::Implicit(child as int, true))));
                    assert(self@ =~= want);
                    let n2 = self@;
                    assert forall|a: int, k: int| 0 <= a < n2.len() && 0 <= k < n2[a].len() implies refs_ok(#[trigger] n2[a][k].1, a, n2.len() as int) by {
                        if a != j || k != i {
                            assert(n2[a][k] == n1[a][k]);
                            assert(refs_ok(n1[a][k].1, a, n1.len() as int));
                        }
                    }
                }
                Ok(())
            },
        }
    }

    /// Adds a table to the array of tables `[[path]]`.
    fn append_aot(&mut self, path: &Vec<String>, line: u32, col: u32) -> (r: Result<(), ParseError>)
        requires
            arena_wf(old(self)@),
        ensures
            arena_wf(final(self)@),
            match append_aot_spec(old(self)@, strs(path@)) {
                Some(n) => r is Ok && final(self)@ == n,
                None => r is Err && r->Err_0.message@ == append_aot_msg(old(self)@, strs(path@)),
            },
            r is Err ==> r->Err_0.line == line && r->Err_0.col == col && r->Err_0.message@.len() > 0,
            r is Err ==> final(self)@ == old(self)@,
    {
        if path.len() == 0 {
            proof {
                reveal_strlit("empty array-of-tables header");
            }
            return Err(ParseError::new("empty array-of-tables header".to_string(), line, col));
        }
        proof {
            assert(strs(path@).drop_last() =~= strs(path@).take(path.len() - 1));
        }
        let j = match self.walk(0, path, path.len() - 1, false, line, col) {
            Ok(j) => j,
            Err(e) => {
                return Err(e);
            },
        };
        let last = &path[path.len() - 1];
        let ghost n1 = self@;
        proof {
            lemma_node_find(self.nodes@[j as int], last@);
            assert(n1[j as int] == node_model(self.nodes@[j as int]));
            assert(strs(path@).last() == last@);
        }
        let c = self.nodes.len();
        match self.nodes[j].position(last.as_str()) {
            None => {
                let mut ids: Vec<usize> = Vec::new();
                ids.push(c);
                assert(ids@ =~= seq![c]);
                self.nodes[j].insert(last.clone(), TrackedValue::ArrayOfTables(ids));
                self.nodes.push(KeyMap::new());
                proof {
                    let want = n1.update(j as int, n1[j as int].push((last@, TrackedModel::Aot(seq![c])))).push(Seq::empty());
                    assert(node_model(self.nodes@[j as int]) =~= n1[j as int].push((last@, TrackedModel::Aot(seq![c]))));
                    assert(node_model(self.nodes@[c as int]) =~= Seq::<(Seq<char>, TrackedModel)>::empty());
                    assert(self@ =~= want);
                    let n2 = self@;
                    assert forall|a: int, i: int| 0 <= a < n2.len() && 0 <= i < n2[a].len() implies refs_ok(#[trigger] n2[a][i].1, a, n2.len() as int) by {
                        if a != c && (a != j || i < n1[j as int].len()) {
                            assert(n2[a][i] == n1[a][i]);
                            assert(refs_ok(n1[a][i].1, a, n1.len() as int));
                        }
                    }
                }
                Ok(())
            },
            Some(i) => {
                proof {
                    assert(n1[j as int][i as int].1 == self.nodes@[j as int]@[i as int].1.model());
                }
                match self.nodes[j].value_at(i) {
                    TrackedValue::ArrayOfTables(_) => {},
                    TrackedValue::Defined(_) => {
                        proof {
                            reveal_strlit("'");
                        }
                        return Err(ParseError::new(quoted("'", last.as_str(), "' is already defined; cannot use as array of tables"), line, col));
                    },
                    TrackedValue::ImplicitTable(_, _) => {
                        proof {
                            reveal_strlit("'");
                        }
                        return Err(ParseError::new(quoted("'", last.as_str(), "' is already defined as a table; cannot use as array of tables"), line, col));
                    },
                }
                proof {
                    assert(n1[j as int][i as int].1 == self.nodes@[j as int]@[i as int].1.model());
                    assert(refs_ok(n1[j as int][i as int].1, j as int, n1.len() as int));
                }
                let ghost m0 = self.nodes@[j as int];
                proof {
                    lemma_find_key(m0@, last@);
                }
                let old_entry = self.nodes[j].replace_at(i, TrackedValue::Defined(Value::Boolean(false)));
                let mut ids = match old_entry {
                    TrackedValue::ArrayOfTables(ids) => ids,
                    _ => Vec::new(),
                };
                let ghost ids0 = ids@;
                ids.push(c);
                let ghost gids = ids;
                self.nodes[j].replace_at(i, TrackedValue::ArrayOfTables(ids));
                self.nodes.push(KeyMap::new());
                proof {
                    assert(self.nodes@[j as int]@ == m0@.update(i as int, (m0@[i as int].0, TrackedValue::ArrayOfTables(gids))));
                    assert(m0@[i as int].0 == last@);
                    assert(gids@ == ids0.push(c));
                    assert(n1[j as int][i as int].1 == TrackedModel::Aot(ids0));
                    let want = n1.update(j as int, n1[j as int].update(i as int, (last@, TrackedModel::Aot(ids0.push(c))))).push(Seq::empty());
                    assert(node_model(self.nodes@[j as int]) =~= n1[j as int].update(i as int, (last@, TrackedModel::Aot(ids0.push(c)))));
                    assert(node_model(self.nodes@[c as int]) =~= Seq::<(Seq<char>, TrackedModel)>::empty());
                    assert(self@ =~= want);
                    let n2 = self@;
                    assert forall|a: int, k: int| 0 <= a < n2.len() && 0 <= k < n2[a].len() implies refs_ok(#[trigger] n2[a][k].1, a, n2.len() as int) by {
                        if a != c && (a != j || k != i) {
                            assert(n2[a][k] == n1[a][k]);
                            assert(refs_ok(n1[a][k].1, a, n1.len() as int));
                        } else if a == j && k == i {
                            assert(refs_ok(n1[a][k].1, a, n1.len() as int));
                            assert forall|t: int| 0 <= t < ids0.push(c).len() implies a < #[trigger] ids0.push(c)[t] && ids0.push(c)[t] < n2.len() by {
                                if t < ids0.len() {
                                    assert(ids0.push(c)[t] == ids0[t]);
                                }
                            }
                        }
                    }
                }
                Ok(())
            },
        }
    }
}

/// The entries of the table at node `id`, with the values they stand for.
pub open spec fn tree_model(n: Seq<NodeModel>, id: int) -> Seq<(Seq<char>, ValueModel)>
    decreases n.len() - id, 3int, 0nat,
{
    if 0 <= id < n.len() {
        node_entries(n, id, n[id].len())
    } else {
        Seq::empty()
    }
}

/// The first `k` entries of node `id`, with the values they stand for.
pub open spec fn node_entries(n: Seq<NodeModel>, id: int, k: nat) -> Seq<(Seq<char>, ValueModel)>
    decreases n.len() - id, 2int, k,
{
    if k == 0 {
        Seq::empty()
    } else {
        node_entries(n, id, (k - 1) as nat).push((n[id][k - 1].0, entry_value(n, id, n[id][k - 1].1)))
    }
}

/// The value that entry `e` of node `id` stands for: a defined value, a
/// table, or an array of tables.
pub open spec fn entry_value(n: Seq<NodeModel>, id: int, e: TrackedModel) -> ValueModel
    decreases n.len() - id, 1int, 0nat,
{
    match e {
        TrackedModel::Defined(v) => v,
        TrackedModel::Implicit(c, _) => if id < c < n.len() {
            ValueModel::Table(tree_model(n, c))
        } else {
            ValueModel::Table(Seq::empty())
        },
        TrackedModel::Aot(ids) => ValueModel::Array(aot_values(n, id, ids, ids.len())),
    }
}

/// The tables of the first `k` nodes of `ids`, entries of node `id`.
pub open spec fn aot_values(n: Seq<NodeModel>, id: int, ids: Seq<usize>, k: nat) -> Seq<ValueModel>
    decreases n.len() - id, 0int, k,
{
    if k == 0 {
        Seq::empty()
    } else {
        let c = ids[k - 1] as int;
        aot_values(n, id, ids, (k - 1) as nat).push(if id < c < n.len() {
            ValueModel::Table(tree_model(n, c))
        } else {
            ValueModel::Table(Seq::empty())
        })
    }
}

pub proof fn lemma_node_entries(n: Seq<NodeModel>, id: int, k: nat)
    ensures
        node_entries(n, id, k) =~= Seq::new(k, |i: int| (n[id][i].0, entry_value(n, id, n[id][i].1))),
    decreases k,
{
    if k > 0 {
        lemma_node_entries(n, id, (k - 1) as nat);
    }
}

proof fn lemma_aot_values(n: Seq<NodeModel>, id: int, ids: Seq<usize>, k: nat)
    ensures
        aot_values(n, id, ids, k) =~= Seq::new(k, |i: int| if id < ids[i] < n.len() {
            ValueModel::Table(tree_model(n, ids[i] as int))
        } else {
            ValueModel::Table(Seq::empty())
        }),
    decreases k,
{
    if k > 0 {
        lemma_aot_values(n, id, ids, (k - 1) as nat);
    }
}

proof fn lemma_aot_refs(e: TrackedModel, a: int, len: int, ids: Seq<usize>)
    requires
        refs_ok(e, a, len),
        e == TrackedModel::Aot(ids),
    ensures
        forall|t: int| 0 <= t < ids.len() ==> a < #[trigger] ids[t] && ids[t] < len,
{
    assert(e is Aot);
    assert(e->Aot_0 == ids);
    assert forall|t: int| 0 <= t < ids.len() implies a < #[trigger] ids[t] && ids[t] < len by {
        assert(refs_ok(e, a, len));
        assert(0 <= t < e->Aot_0.len());
        assert(a < e->Aot_0[t]);
    }
}

impl Arena {
    /// The table at node `id`, built with its subtables.
    fn build_table(&self, id: usize) -> (t: Table)
        requires
            arena_wf(self@),
            id < self@.len(),
        ensures
            table_model(t) == tree_model(self@, id as int),
        decreases self@.len() - id,
    {
        let node = &self.nodes[id];
        let n = node.len();
        let ghost nm = self@;
        let mut out: Table = KeyMap::new();
        let mut i: usize = 0;
        while i < n
            invariant
                nm == self@,
                arena_wf(nm),
                id < nm.len(),
                node == &self.nodes@[id as int],
                n == node@.len(),
                distinct_keys_of(node@),
                nm[id as int] == node_model(*node),
                i <= n,
                out@.len() == i,
                forall|k: int| 0 <= k < i ==> (#[trigger] out@[k]).0 == node@[k].0,
                forall|k: int| 0 <= k < i ==> value_model(#[trigger] out@[k].1) == entry_value(nm, id as int, nm[id as int][k].1),
            decreases n - i,
        {
            proof {
                lemma_find_key(out@, node@[i as int].0);
                assert(nm[id as int][i as int].1 == node@[i as int].1.model());
                assert(refs_ok(nm[id as int][i as int].1, id as int, nm.len() as int));
            }
            let key = node.key_at(i).clone();
            let v = match node.value_at(i) {
                TrackedValue::Defined(v) => copy_value(v),
                TrackedValue::ImplicitTable(c, _) => Value::Table(self.build_table(*c)),
                TrackedValue::ArrayOfTables(ids) => {
                    proof {
                        assert(nm[id as int][i as int].1 == TrackedModel::Aot(ids@));
                        lemma_aot_refs(nm[id as int][i as int].1, id as int, nm.len() as int, ids@);
                    }
                    let mut arr: Vec<Value> = Vec::new();
                    let mut k: usize = 0;
                    while k < ids.len()
                        invariant
                            nm == self@,
                            arena_wf(nm),
                            id < nm.len(),
                            forall|t: int| 0 <= t < ids@.len() ==> id < #[trigger] ids@[t] && ids@[t] < nm.len(),
                            k <= ids.len(),
                            arr.len() == k,
                            forall|t: int| 0 <= t < k ==> value_model(#[trigger] arr@[t]) == ValueModel::Table(tree_model(nm, ids@[t] as int)),
                        decreases ids.len() - k,
                    {
                        let sub = self.build_table(ids[k]);
                        arr.push(Value::Table(sub));
                        k = k + 1;
                    }
                    proof {
                        lemma_values_model(arr@);
                        lemma_aot_values(nm, id as int, ids@, ids@.len());
                        assert(values_model(arr@) =~= aot_values(nm, id as int, ids@, ids@.len()));
                    }
                    Value::Array(arr)
                },
            };
            out.insert(key, v);
            i = i + 1;
        }
        proof {
            lemma_table_model(out);
            lemma_node_entries(nm, id as int, nm[id as int].len());
            assert(entries_of(out@) =~= node_entries(nm, id as int, nm[id as int].len()));
        }
        out
    }
}

/// Keys of `e` are distinct.
pub open spec fn distinct_keys_of<V>(e: Seq<(Seq<char>, V)>) -> bool {
    crate::table::distinct_keys(e)
}

/// Which kind of table the key/value lines of a document go into.
#[allow(dead_code)]
pub enum CurrentTableKind {
    Root,
    StandardTable,
    ArrayOfTablesElement,
}

/// What `key = value`, a line of a document, does to the tables `n` when
/// the current table is at `path`.
pub open spec fn keyval_effect(n: Seq<NodeModel>, path: Seq<Seq<char>>, key: Seq<Seq<char>>, v: ValueModel) -> Option<Seq<NodeModel>> {
    match nav(n, 0, path) {
        None => None,
        Some(id) => insert_spec(n, id, key, v, false),
    }
}

/// The tables of a document under construction, with the current table.
pub struct TableTracker {
    arena: Arena,
    current_path: Vec<String>,
    current_kind: CurrentTableKind,
}

impl TableTracker {
    /// The tables.
    pub closed spec fn nodes(&self) -> Seq<NodeModel> {
        self.arena@
    }

    /// The path of the current table.
    pub closed spec fn path(&self) -> Seq<Seq<char>> {
        strs(self.current_path@)
    }

    pub closed spec fn wf(&self) -> bool {
        arena_wf(self.arena@)
    }

    /// Which kind of table the current one is.
    pub closed spec fn kind(&self) -> CurrentTableKind {
        self.current_kind
    }

    /// An empty document, whose current table is the root.
    pub fn new() -> (t: TableTracker)
        ensures
            t.wf(),
            t.nodes() == seq![Seq::<(Seq<char>, TrackedModel)>::empty()],
            t.path() == Seq::<Seq<char>>::empty(),
            t.kind() == CurrentTableKind::Root,
    {
        let t = TableTracker { arena: Arena::new(), current_path: Vec::new(), current_kind: CurrentTableKind::Root };
        assert(t.path() =~= Seq::<Seq<char>>::empty());
        t
    }

    /// Adds `segments = value` to the current table.
    pub fn insert_keyval(&mut self, segments: Vec<String>, value: Value, line: u32, col: u32) -> (r: Result<(), ParseError>)
        requires
            old(self).wf(),
            segments.len() >= 1,
        ensures
            final(self).wf(),
            final(self).path() == old(self).path(),
            match keyval_effect(old(self).nodes(), old(self).path(), strs(segments@), value_model(value)) {
                Some(n) => r is Ok && final(self).nodes() == n,
                None => r is Err && r->Err_0.message@ == keyval_msg(old(self).nodes(), old(self).path(), strs(segments@)),
            },
            r is Err ==> r->Err_0.line == line && r->Err_0.col == col && r->Err_0.message@.len() > 0,
            r is Err ==> final(self).nodes() == old(self).nodes(),
            final(self).kind() == old(self).kind(),
    {
        let id = match self.arena.navigate(&self.current_path, line, col) {
            Ok(id) => id,
            Err(e) => {
                return Err(e);
            },
        };
        self.arena.insert_at(id, &segments, value, false, line, col)
    }

    /// Opens the table `[path]` and makes it the current table.
    pub fn set_standard_table(&mut self, path: Vec<String>, line: u32, col: u32) -> (r: Result<(), ParseError>)
        requires
            old(self).wf(),
        ensures
            final(self).wf(),
            match open_table_spec(old(self).nodes(), strs(path@)) {
                Some(n) => r is Ok && final(self).nodes() == n && final(self).path() == strs(path@),
                None => r is Err && r->Err_0.message@ == open_table_msg(old(self).nodes(), strs(path@)),
            },
            r is Err ==> r->Err_0.line == line && r->Err_0.col == col && r->Err_0.message@.len() > 0,
            r is Err ==> final(self).nodes() == old(self).nodes() && final(self).path() == old(self).path()
                && final(self).kind() == old(self).kind(),
            r is Ok ==> final(self).kind() == CurrentTableKind::StandardTable,
    {
        match self.arena.open_table(&path, line, col) {
            Ok(()) => {},
            Err(e) => {
                return Err(e);
            },
        }
        self.current_path = path;
        self.current_kind = CurrentTableKind::StandardTable;
        Ok(())
    }

    /// Adds a table to the array of tables `[[path]]` and makes it the
    /// current table.
    pub fn append_aot(&mut self, path: Vec<String>, line: u32, col: u32) -> (r: Result<(), ParseError>)
        requires
            old(self).wf(),
        ensures
            final(self).wf(),
            match append_aot_spec(old(self).nodes(), strs(path@)) {
                Some(n) => r is Ok && final(self).nodes() == n && final(self).path() == strs(path@),
                None => r is Err && r->Err_0.message@ == append_aot_msg(old(self).nodes(), strs(path@)),
            },
            r is Err ==> r->Err_0.line == line && r->Err_0.col == col && r->Err_0.message@.len() > 0,
            r is Err ==> final(self).nodes() == old(self).nodes() && final(self).path() == old(self).path()
                && final(self).kind() == old(self).kind(),
            r is Ok ==> final(self).kind() == CurrentTableKind::ArrayOfTablesElement,
    {
        match self.arena.append_aot(&path, line, col) {
            Ok(()) => {},
            Err(e) => {
                return Err(e);
            },
        }
        self.current_path = path;
        self.current_kind = CurrentTableKind::ArrayOfTablesElement;
        Ok(())
    }

    /// The document as a table.
    pub fn into_value(self) -> (v: Value)
        requires
            self.wf(),
        ensures
            value_model(v) == ValueModel::Table(tree_model(self.nodes(), 0)),
    {
        Value::Table(self.arena.build_table(0))
    }
}

impl Arena {
    /// Adds `key = value` to the root table of an inline table.
    pub fn insert_inline(&mut self, key: &Vec<String>, value: Value, line: u32, col: u32) -> (r: Result<(), ParseError>)
        requires
            arena_wf(old(self)@),
            key.len() >= 1,
        ensures
            arena_wf(final(self)@),
            match insert_spec(old(self)@, 0, strs(key@), value_model(value), true) {
                Some(n) => r is Ok && final(self)@ == n,
                None => r is Err && r->Err_0.message@ == insert_msg(old(self)@, 0, strs(key@), true),
            },
            r is Err ==> r->Err_0.line == line && r->Err_0.col == col && r->Err_0.message@.len() > 0,
            r is Err ==> final(self)@ == old(self)@,
    {
        self.insert_at(0, key, value, true, line, col)
    }

    /// The root table.
    pub fn into_table(self) -> (t: Table)
        requires
            arena_wf(self@),
        ensures
            table_model(t) == tree_model(self@, 0),
    {
        self.build_table(0)
    }
}

} // verus!
