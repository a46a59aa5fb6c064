//! What a loaded scene is, record by record and node by node.

use super::{
    find_source, lemma_find_source, lemma_linked_len, lemma_linked_nodes, lemma_linked_untouched, lemma_records_fail,
    lemma_records_nodes, lemma_records_shape, linked, load_file, load_records, marked, node_of_record, overridden, places_ok,
    sources_of, with_id, LoadError, SceneLoadError, SceneSource, Source,
};
use crate::soul_scene::format::{
    applied, find_path, given_value, law_put_values_win, records_of, value_of, Comps, Node, Overrides, Record,
};
use crate::soul_scene::path::path_key;
use vstd::prelude::*;

verus! {

/// Whether the value of a component list at a path is `value`: that of the first component with the path, or none
/// where no component has it.
pub open spec fn holds_value(list: Comps, path: Seq<char>, value: Option<Seq<char>>) -> bool {
    match value {
        Some(v) => exists|k: int|
            #![trigger list[k]]
            0 <= k < list.len() && list[k] == (path, v) && forall|j: int| 0 <= j < k ==> (#[trigger] list[j]).0 != path,
        None => forall|k: int| 0 <= k < list.len() ==> (#[trigger] list[k]).0 != path,
    }
}

/// Whether component `c` of a list gives an unbroken value for the path.
pub open spec fn gives_at(list: Comps, broken: Comps, path: Seq<char>, c: int) -> bool {
    0 <= c < list.len() && list[c].0 == path && !broken.contains(list[c])
}

/// Whether component `c` of override `o` gives an unbroken value for the path to the nodes with the id.
pub open spec fn gives(overrides: Overrides, broken: Comps, id: u64, path: Seq<char>, o: int, c: int) -> bool {
    0 <= o < overrides.len() && overrides[o].0 == id && gives_at(overrides[o].1, broken, path, c)
}

/// Whether a listed node is the last of the listed ones that has its id.
pub open spec fn last_with_its_id(nodes: Seq<Node>, list: Seq<int>, base: int, i: int) -> bool {
    forall|j: int| i < j < list.len() ==> nodes[#[trigger] list[j] - base].local != nodes[list[i] - base].local
}

proof fn lemma_find_path(list: Comps, path: Seq<char>, n: nat)
    requires
        n <= list.len(),
    ensures
        match find_path(list, path, n) {
            Some(k) => 0 <= k < n && list[k].0 == path && forall|j: int| 0 <= j < k ==> (#[trigger] list[j]).0 != path,
            None => forall|k: int| 0 <= k < n ==> (#[trigger] list[k]).0 != path,
        },
    decreases n,
{
    if n > 0 {
        lemma_find_path(list, path, (n - 1) as nat);
    }
}

/// A component list has one value at each path: that of the first component with it.
pub proof fn law_one_value_at_a_path(list: Comps, path: Seq<char>, value: Option<Seq<char>>)
    ensures
        holds_value(list, path, value) <==> value_of(list, path) == value,
{
    lemma_find_path(list, path, list.len());
    match find_path(list, path, list.len()) {
        Some(k) => {
            assert(list[k] == (path, list[k].1));
        },
        None => {},
    }
}

/// What a component list gives: the last unbroken value for the path.
proof fn lemma_given(more: Comps, broken: Comps, n: nat, path: Seq<char>)
    requires
        n <= more.len(),
    ensures
        match given_value(more, broken, n, path) {
            Some(v) => exists|c: int| #[trigger]
                gives_at(more, broken, path, c) && c < n && more[c].1 == v && forall|d: int|
                    c < d < n ==> !#[trigger] gives_at(more, broken, path, d),
            None => forall|d: int| d < n ==> !#[trigger] gives_at(more, broken, path, d),
        },
    decreases n,
{
    if n > 0 {
        lemma_given(more, broken, (n - 1) as nat, path);
        if gives_at(more, broken, path, n - 1) {
        } else if let Some(v) = given_value(more, broken, (n - 1) as nat, path) {
            let c = choose|c: int| #[trigger]
                gives_at(more, broken, path, c) && c < n - 1 && more[c].1 == v && forall|d: int|
                    c < d < n - 1 ==> !#[trigger] gives_at(more, broken, path, d);
            assert(gives_at(more, broken, path, c));
        }
    }
}

/// Components that are put onto a list: the last unbroken value for a path is the new one, and a path for which there
/// is none keeps its value.
pub proof fn law_last_whole_value_wins(base: Comps, more: Comps, broken: Comps, path: Seq<char>)
    ensures
        forall|c: int|
            #![trigger gives_at(more, broken, path, c)]
            gives_at(more, broken, path, c) && (forall|d: int| d > c ==> !#[trigger] gives_at(more, broken, path, d))
                ==> holds_value(applied(base, more, broken, more.len()), path, Some(more[c].1)),
        (forall|c: int| !#[trigger] gives_at(more, broken, path, c)) ==> forall|v: Option<Seq<char>>| #[trigger]
            holds_value(applied(base, more, broken, more.len()), path, v) <==> holds_value(base, path, v),
{
    let out = applied(base, more, broken, more.len());
    law_put_values_win(base, more, broken, more.len(), path);
    lemma_given(more, broken, more.len(), path);
    assert forall|c: int|
        #![trigger gives_at(more, broken, path, c)]
        gives_at(more, broken, path, c) && (forall|d: int| d > c ==> !#[trigger] gives_at(more, broken, path, d)) implies holds_value(
        out,
        path,
        Some(more[c].1),
    ) by {
        law_one_value_at_a_path(out, path, Some(more[c].1));
    }
    if forall|c: int| !#[trigger] gives_at(more, broken, path, c) {
        assert forall|v: Option<Seq<char>>| #[trigger] holds_value(out, path, v) <==> holds_value(base, path, v) by {
            law_one_value_at_a_path(out, path, v);
            law_one_value_at_a_path(base, path, v);
        }
    }
}

proof fn lemma_with_id_is_last(nodes: Seq<Node>, list: Seq<int>, base: int, id: u64, n: nat, i: int)
    requires
        0 <= i < n <= list.len(),
        nodes[list[i] - base].local == id,
        forall|j: int| i < j < n ==> nodes[#[trigger] list[j] - base].local != id,
    ensures
        with_id(nodes, list, base, id, n) == Some(list[i]),
    decreases n,
{
    if n - 1 > i {
        assert(nodes[list[n - 1] - base].local != id);
        lemma_with_id_is_last(nodes, list, base, id, (n - 1) as nat, i);
    }
}

proof fn lemma_with_id_is_none(nodes: Seq<Node>, list: Seq<int>, base: int, id: u64, n: nat)
    requires
        n <= list.len(),
        forall|j: int| 0 <= j < n ==> nodes[#[trigger] list[j] - base].local != id,
    ensures
        with_id(nodes, list, base, id, n) is None,
    decreases n,
{
    if n > 0 {
        assert(nodes[list[n - 1] - base].local != id);
        lemma_with_id_is_none(nodes, list, base, id, (n - 1) as nat);
    }
}

/// What is found by an id is listed and has the id.
proof fn lemma_with_id_found(nodes: Seq<Node>, list: Seq<int>, base: int, id: u64, n: nat)
    requires
        n <= list.len(),
    ensures
        with_id(nodes, list, base, id, n) matches Some(t) ==> exists|j: int|
            0 <= j < n && #[trigger] list[j] == t && nodes[list[j] - base].local == id && forall|k: int|
                j < k < n ==> nodes[#[trigger] list[k] - base].local != id,
    decreases n,
{
    if n > 0 {
        if nodes[list[n - 1] - base].local == id {
            assert(list[n - 1] == with_id(nodes, list, base, id, n)->0);
        } else {
            lemma_with_id_found(nodes, list, base, id, (n - 1) as nat);
            if let Some(t) = with_id(nodes, list, base, id, (n - 1) as nat) {
                let j = choose|j: int|
                    0 <= j < n - 1 && #[trigger] list[j] == t && nodes[list[j] - base].local == id && forall|k: int|
                        j < k < n - 1 ==> nodes[#[trigger] list[k] - base].local != id;
                assert(list[j] == t);
            }
        }
    }
}

/// Marking changes the listed nodes, and those only in the root that they were made for.
proof fn lemma_marked(nodes: Seq<Node>, list: Seq<int>, base: int, root: int, n: nat)
    requires
        n <= list.len(),
        places_ok(list, base, nodes.len() as int),
    ensures
        marked(nodes, list, base, root, n).len() == nodes.len(),
        forall|i: int|
            0 <= i < n ==> marked(nodes, list, base, root, n)[#[trigger] list[i] - base] == (Node {
                instance_child: Some(root),
                ..nodes[list[i] - base]
            }),
        forall|j: int|
            0 <= j < nodes.len() && (forall|i: int| 0 <= i < n ==> #[trigger] list[i] != base + j) ==> #[trigger] marked(
                nodes,
                list,
                base,
                root,
                n,
            )[j] == nodes[j],
    decreases n,
{
    if n > 0 {
        let m = (n - 1) as nat;
        lemma_marked(nodes, list, base, root, m);
        let before = marked(nodes, list, base, root, m);
        let after = marked(nodes, list, base, root, n);
        let k = list[n - 1] - base;
        assert(before[k] == nodes[k]) by {
            assert forall|i: int| 0 <= i < m implies #[trigger] list[i] != base + k by {
                assert(list[i] < list[n - 1]);
            }
        }
        assert forall|i: int| 0 <= i < n implies after[#[trigger] list[i] - base] == (Node {
            instance_child: Some(root),
            ..nodes[list[i] - base]
        }) by {
            if i < m {
                assert(list[i] < list[n - 1]);
            }
        }
        assert forall|j: int|
            0 <= j < nodes.len() && (forall|i: int| 0 <= i < n ==> #[trigger] list[i] != base + j) implies #[trigger] after[j]
            == nodes[j] by {
            assert(list[n - 1] != base + j);
            assert(before[j] == nodes[j]);
        }
    }
}

/// Overrides change components only, and those only of listed nodes.
proof fn lemma_overridden(nodes: Seq<Node>, list: Seq<int>, base: int, overrides: Overrides, broken: Comps, n: nat)
    requires
        n <= overrides.len(),
        places_ok(list, base, nodes.len() as int),
    ensures
        overridden(nodes, list, base, overrides, broken, n).len() == nodes.len(),
        forall|j: int|
            0 <= j < nodes.len() ==> (Node {
                components: nodes[j].components,
                ..#[trigger] overridden(nodes, list, base, overrides, broken, n)[j]
            }) == nodes[j],
        forall|j: int|
            0 <= j < nodes.len() && (forall|i: int| 0 <= i < list.len() ==> #[trigger] list[i] != base + j) ==> #[trigger] overridden(
                nodes,
                list,
                base,
                overrides,
                broken,
                n,
            )[j] == nodes[j],
    decreases n,
{
    if n > 0 {
        let m = (n - 1) as nat;
        lemma_overridden(nodes, list, base, overrides, broken, m);
        let before = overridden(nodes, list, base, overrides, broken, m);
        lemma_with_id_found(before, list, base, overrides[n - 1].0, list.len());
    }
}

/// The value at a path of a listed node after the first `n` overrides.
proof fn lemma_overridden_value(
    nodes: Seq<Node>,
    list: Seq<int>,
    base: int,
    overrides: Overrides,
    broken: Comps,
    n: nat,
    i: int,
    path: Seq<char>,
)
    requires
        n <= overrides.len(),
        places_ok(list, base, nodes.len() as int),
        0 <= i < list.len(),
    ensures
        ({
            let k = list[i] - base;
            let out = overridden(nodes, list, base, overrides, broken, n)[k];
            let id = nodes[k].local;
            &&& last_with_its_id(nodes, list, base, i) ==> forall|o: int, c: int|
                #![trigger gives(overrides, broken, id, path, o, c)]
                o < n && gives(overrides, broken, id, path, o, c) && (forall|p: int, d: int|
                    p < n && (p > o || (p == o && d > c)) ==> !#[trigger] gives(overrides, broken, id, path, p, d))
                    ==> value_of(out.components, path) == Some(overrides[o].1[c].1)
            &&& (forall|o: int, c: int| o < n ==> !#[trigger] gives(overrides, broken, id, path, o, c)) ==> value_of(
                out.components,
                path,
            ) == value_of(nodes[k].components, path)
            &&& (!last_with_its_id(nodes, list, base, i) || (forall|o: int|
                0 <= o < n ==> (#[trigger] overrides[o]).0 != id)) ==> out.components == nodes[k].components
        }),
    decreases n,
{
    if n > 0 {
        let m = (n - 1) as nat;
        let k = list[i] - base;
        let id = nodes[k].local;
        let before = overridden(nodes, list, base, overrides, broken, m);
        let out = overridden(nodes, list, base, overrides, broken, n);
        lemma_overridden_value(nodes, list, base, overrides, broken, m, i, path);
        lemma_overridden(nodes, list, base, overrides, broken, m);
        assert forall|j: int| 0 <= j < list.len() implies before[#[trigger] list[j] - base].local == nodes[list[j]
            - base].local by {
            let at = list[j] - base;
            assert((Node { components: nodes[at].components, ..before[at] }) == nodes[at]);
        }
        let (oid, more) = overrides[n - 1];
        let hit = with_id(before, list, base, oid, list.len());
        lemma_with_id_found(before, list, base, oid, list.len());
        let touched = oid == id && last_with_its_id(nodes, list, base, i);
        if touched {
            assert forall|j: int| i < j < list.len() implies before[#[trigger] list[j] - base].local != oid by {
                assert(nodes[list[j] - base].local != nodes[list[i] - base].local);
            }
            assert(before[list[i] - base].local == oid);
            lemma_with_id_is_last(before, list, base, oid, list.len(), i);
            assert(out[k].components == applied(before[k].components, more, broken, more.len()));
            law_put_values_win(before[k].components, more, broken, more.len(), path);
            lemma_given(more, broken, more.len(), path);
        } else {
            if let Some(t) = hit {
                let j = choose|j: int|
                    0 <= j < list.len() && #[trigger] list[j] == t && before[list[j] - base].local == oid && forall|h: int|
                        j < h < list.len() ==> before[#[trigger] list[h] - base].local != oid;
                if t == list[i] {
                    if j < i {
                        assert(list[j] < list[i]);
                    } else if i < j {
                        assert(list[i] < list[j]);
                    }
                    assert(oid == id);
                    assert forall|h: int| i < h < list.len() implies nodes[#[trigger] list[h] - base].local
                        != nodes[list[i] - base].local by {
                        assert(before[list[h] - base].local != oid);
                    }
                    assert(last_with_its_id(nodes, list, base, i));
                }
            }
            assert(out[k] == before[k]);
        }
        if last_with_its_id(nodes, list, base, i) {
            assert forall|o: int, c: int|
                #![trigger gives(overrides, broken, id, path, o, c)]
                o < n && gives(overrides, broken, id, path, o, c) && (forall|p: int, d: int|
                    p < n && (p > o || (p == o && d > c)) ==> !#[trigger] gives(overrides, broken, id, path, p, d)) implies value_of(
                out[k].components,
                path,
            ) == Some(overrides[o].1[c].1) by {
                if o == n - 1 {
                    assert(gives_at(more, broken, path, c));
                    assert forall|d: int| c < d < more.len() implies !#[trigger] gives_at(more, broken, path, d) by {
                        assert(!gives(overrides, broken, id, path, n - 1, d));
                    }
                } else {
                    assert forall|p: int, d: int| p < m && (p > o || (p == o && d > c)) implies !#[trigger] gives(
                        overrides,
                        broken,
                        id,
                        path,
                        p,
                        d,
                    ) by {}
                    if oid == id {
                        assert forall|d: int| d < more.len() implies !#[trigger] gives_at(more, broken, path, d) by {
                            assert(!gives(overrides, broken, id, path, n - 1, d));
                        }
                    }
                }
            }
        }
        if forall|o: int, c: int| o < n ==> !#[trigger] gives(overrides, broken, id, path, o, c) {
            if touched {
                assert forall|d: int| d < more.len() implies !#[trigger] gives_at(more, broken, path, d) by {
                    assert(!gives(overrides, broken, id, path, n - 1, d));
                }
            }
        }
        if !touched && (forall|o: int| 0 <= o < n ==> (#[trigger] overrides[o]).0 != id) {
            assert(forall|o: int| 0 <= o < m ==> (#[trigger] overrides[o]).0 != id);
        }
        if touched {
            assert(overrides[n - 1].0 == id);
        }
    }
}

/// The nodes of the first records are the first nodes.
proof fn lemma_records_prefix(
    sources: Seq<Source>,
    records: Seq<Record>,
    broken: Comps,
    m: nat,
    n: nat,
    stack: Seq<Seq<char>>,
    base: int,
    nodes: Seq<Node>,
    roots: Seq<int>,
)
    requires
        m <= n <= records.len(),
        load_records(sources, records, broken, n, stack, base) == Ok::<(Seq<Node>, Seq<int>), LoadError>((nodes, roots)),
    ensures
        load_records(sources, records, broken, m, stack, base) matches Ok((a, b)) && a.len() <= nodes.len() && b.len() == m && roots.len()
            == n && (forall|j: int| 0 <= j < a.len() ==> #[trigger] a[j] == nodes[j]) && (forall|j: int|
            0 <= j < m ==> #[trigger] b[j] == roots[j]),
    decreases n,
{
    lemma_records_shape(sources, records, broken, n, stack, base);
    if m < n {
        let p = (n - 1) as nat;
        let (c, d) = load_records(sources, records, broken, p, stack, base)->Ok_0;
        lemma_records_prefix(sources, records, broken, m, p, stack, base, c, d);
        let (a, b) = load_records(sources, records, broken, m, stack, base)->Ok_0;
        assert(forall|j: int| 0 <= j < c.len() ==> #[trigger] c[j] == nodes[j]);
        assert forall|j: int| 0 <= j < a.len() implies #[trigger] a[j] == nodes[j] by {
            assert(a[j] == c[j]);
        }
        assert forall|j: int| 0 <= j < m implies #[trigger] b[j] == roots[j] by {
            assert(b[j] == d[j]);
        }
    }
}

/// An instance in a loaded scene: behind its node come the nodes of its scene, as that scene gives them alone, but for
/// two things. Each record's own node among them says for which instance it was made. And where it is the last with its
/// id, each of its components has the last unbroken value that the overrides with that very id give for the path. A
/// component for which they give none has the value of the scene, and a node whose id no override has, keeps its
/// components to the last.
pub proof fn law_overrides_go_to_the_nodes_they_name(
    sources: Seq<Source>,
    path: Seq<char>,
    stack: Seq<Seq<char>>,
    base: int,
    f: int,
    records: Seq<Record>,
    nodes: Seq<Node>,
    roots: Seq<int>,
    m: int,
    id: u64,
    parent: Option<u64>,
    source: Seq<char>,
    overrides: Overrides,
    sub: Seq<Node>,
    kids: Seq<int>,
)
    requires
        find_source(sources, path, sources.len()) == Some(f),
        sources[f].file == Ok::<Seq<Record>, LoadError>(records),
        load_file(sources, path, stack, base) == Ok::<(Seq<Node>, Seq<int>), LoadError>((nodes, roots)),
        0 <= m < records.len(),
        records[m] == (Record::Instance { id, parent, source, overrides }),
        load_file(sources, source, stack.push(path), roots[m] + 1) == Ok::<(Seq<Node>, Seq<int>), LoadError>((sub, kids)),
    ensures
        roots[m] + 1 + sub.len() <= base + nodes.len(),
        m + 1 < records.len() ==> roots[m + 1] == roots[m] + 1 + sub.len(),
        m + 1 == records.len() ==> base + nodes.len() == roots[m] + 1 + sub.len(),
        forall|j: int|
            0 <= j < sub.len() && !kids.contains(roots[m] + 1 + j) ==> nodes[roots[m] + 1 + j - base] == #[trigger] sub[j],
        forall|i: int|
            0 <= i < kids.len() ==> ({
                let own = nodes[#[trigger] kids[i] - base];
                let alone = sub[kids[i] - (roots[m] + 1)];
                own == (Node { instance_child: Some(roots[m]), components: own.components, ..alone })
            }),
        forall|i: int, p: Seq<char>, o: int, c: int|
            #![trigger gives(overrides, sources[f].broken, nodes[kids[i] - base].local, p, o, c)]
            0 <= i < kids.len() && last_with_its_id(sub, kids, roots[m] + 1, i) && gives(
                overrides,
                sources[f].broken,
                nodes[kids[i] - base].local,
                p,
                o,
                c,
            ) && (forall|q: int, d: int|
                (q > o || (q == o && d > c)) ==> !#[trigger] gives(
                    overrides,
                    sources[f].broken,
                    nodes[kids[i] - base].local,
                    p,
                    q,
                    d,
                )) ==> holds_value(nodes[kids[i] - base].components, p, Some(overrides[o].1[c].1)),
        forall|i: int, p: Seq<char>, v: Option<Seq<char>>|
            #![trigger holds_value(nodes[kids[i] - base].components, p, v)]
            0 <= i < kids.len() && (forall|o: int, c: int|
                !#[trigger] gives(overrides, sources[f].broken, nodes[kids[i] - base].local, p, o, c)) ==> (holds_value(
                nodes[kids[i] - base].components,
                p,
                v,
            ) <==> holds_value(sub[kids[i] - (roots[m] + 1)].components, p, v)),
        forall|i: int|
            0 <= i < kids.len() && (!last_with_its_id(sub, kids, roots[m] + 1, i) || (forall|o: int|
                0 <= o < overrides.len() ==> (#[trigger] overrides[o]).0 != nodes[kids[i] - base].local))
                ==> nodes[#[trigger] kids[i] - base].components == sub[kids[i] - (roots[m] + 1)].components,
{
    let broken = sources[f].broken;
    let all = records.len();
    let deep = stack.push(path);
    let (raw, places) = load_records(sources, records, broken, all, deep, base)->Ok_0;
    assert(places == roots);
    assert(nodes == linked(raw, roots, base, records, all));
    lemma_linked_nodes(raw, roots, base, records, all);
    lemma_records_shape(sources, records, broken, all, deep, base);
    lemma_records_prefix(sources, records, broken, (m + 1) as nat, all, deep, base, raw, roots);
    lemma_records_prefix(sources, records, broken, m as nat, all, deep, base, raw, roots);
    let (a, b) = load_records(sources, records, broken, m as nat, deep, base)->Ok_0;
    let (a1, b1) = load_records(sources, records, broken, (m + 1) as nat, deep, base)->Ok_0;
    let root = base + a.len();
    assert(b1[m] == root);
    assert(roots[m] == root);
    super::lemma_file_shape(sources, source, deep, root + 1);
    let sub1 = marked(sub, kids, root + 1, root, kids.len());
    let sub2 = overridden(sub1, kids, root + 1, overrides, broken, overrides.len());
    lemma_marked(sub, kids, root + 1, root, kids.len());
    lemma_overridden(sub1, kids, root + 1, overrides, broken, overrides.len());
    assert(a1 == a.push(super::instance_node(id, source, overrides)) + sub2);
    if m + 1 < records.len() {
        lemma_records_prefix(sources, records, broken, (m + 2) as nat, all, deep, base, raw, roots);
        let (a2, b2) = load_records(sources, records, broken, (m + 2) as nat, deep, base)->Ok_0;
        assert(b2[m + 1] == base + a1.len());
    }
    assert forall|j: int| 0 <= j < sub.len() implies raw[root + 1 + j - base] == #[trigger] sub2[j] by {
        assert(a1[a.len() + 1 + j] == sub2[j]);
        assert(a1[a.len() + 1 + j] == raw[a.len() + 1 + j]);
    }
    // None of them is a record's own node of the outer scene.
    assert forall|j: int| 0 <= j < sub.len() implies nodes[root + 1 + j - base] == #[trigger] sub2[j] by {
        assert forall|i: int| 0 <= i < roots.len() implies #[trigger] roots[i] != root + 1 + j by {
            if i < m {
                assert(roots[i] < roots[m]);
            } else if i > m + 1 {
                assert(roots[m + 1] < roots[i]);
            }
        }
        lemma_linked_elsewhere(raw, roots, base, records, all, root + 1 + j);
    }
    assert forall|j: int| 0 <= j < sub.len() && !kids.contains(root + 1 + j) implies nodes[root + 1 + j - base]
        == #[trigger] sub[j] by {
        assert forall|i: int| 0 <= i < kids.len() implies #[trigger] kids[i] != root + 1 + j by {}
        assert(sub1[j] == sub[j]);
        assert(sub2[j] == sub1[j]);
    }
    assert forall|i: int| 0 <= i < kids.len() implies ({
        let own = nodes[#[trigger] kids[i] - base];
        let alone = sub[kids[i] - (root + 1)];
        own == (Node { instance_child: Some(root), components: own.components, ..alone })
    }) by {
        let k = kids[i] - (root + 1);
        assert(nodes[root + 1 + k - base] == sub2[k]);
        assert((Node { components: sub1[k].components, ..sub2[k] }) == sub1[k]);
    }
    let first = root + 1;
    assert forall|i: int| 0 <= i < kids.len() implies #[trigger] last_with_its_id(sub, kids, first, i) == last_with_its_id(
        sub1,
        kids,
        first,
        i,
    ) by {
        assert(forall|j: int|
            0 <= j < kids.len() ==> sub1[#[trigger] kids[j] - (root + 1)].local == sub[kids[j] - (root + 1)].local);
    }
    assert forall|i: int, p: Seq<char>, o: int, c: int|
        #![trigger gives(overrides, broken, nodes[kids[i] - base].local, p, o, c)]
        0 <= i < kids.len() && last_with_its_id(sub, kids, root + 1, i) && gives(
            overrides,
            broken,
            nodes[kids[i] - base].local,
            p,
            o,
            c,
        ) && (forall|q: int, d: int|
            (q > o || (q == o && d > c)) ==> !#[trigger] gives(overrides, broken, nodes[kids[i] - base].local, p, q, d)) implies holds_value(
        nodes[kids[i] - base].components,
        p,
        Some(overrides[o].1[c].1),
    ) by {
        let k = kids[i] - (root + 1);
        assert(nodes[root + 1 + k - base] == sub2[k]);
        assert(sub1[k].local == nodes[kids[i] - base].local);
        lemma_overridden_value(sub1, kids, root + 1, overrides, broken, overrides.len(), i, p);
        law_one_value_at_a_path(sub2[k].components, p, Some(overrides[o].1[c].1));
    }
    assert forall|i: int, p: Seq<char>, v: Option<Seq<char>>|
        #![trigger holds_value(nodes[kids[i] - base].components, p, v)]
        0 <= i < kids.len() && (forall|o: int, c: int|
            !#[trigger] gives(overrides, broken, nodes[kids[i] - base].local, p, o, c)) implies (holds_value(
        nodes[kids[i] - base].components,
        p,
        v,
    ) <==> holds_value(sub[kids[i] - (root + 1)].components, p, v)) by {
        let k = kids[i] - (root + 1);
        assert(nodes[root + 1 + k - base] == sub2[k]);
        assert(sub1[k].local == nodes[kids[i] - base].local);
        lemma_overridden_value(sub1, kids, root + 1, overrides, broken, overrides.len(), i, p);
        law_one_value_at_a_path(sub2[k].components, p, v);
        law_one_value_at_a_path(sub[k].components, p, v);
    }
    assert forall|i: int|
        0 <= i < kids.len() && (!last_with_its_id(sub, kids, root + 1, i) || (forall|o: int|
            0 <= o < overrides.len() ==> (#[trigger] overrides[o]).0 != nodes[kids[i] - base].local)) implies nodes[#[trigger] kids[i]
        - base].components == sub[kids[i] - (root + 1)].components by {
        let k = kids[i] - (root + 1);
        assert(nodes[root + 1 + k - base] == sub2[k]);
        assert(sub1[k].local == nodes[kids[i] - base].local);
        lemma_overridden_value(sub1, kids, root + 1, overrides, broken, overrides.len(), i, Seq::empty());
    }
}

/// Tying to parents leaves a node that is not listed as it is.
proof fn lemma_linked_elsewhere(nodes: Seq<Node>, roots: Seq<int>, base: int, records: Seq<Record>, n: nat, t: int)
    requires
        n <= roots.len(),
        base <= t < base + nodes.len(),
        forall|i: int| 0 <= i < roots.len() ==> #[trigger] roots[i] != t,
    ensures
        linked(nodes, roots, base, records, n)[t - base] == nodes[t - base],
    decreases n,
{
    if n > 0 {
        lemma_linked_elsewhere(nodes, roots, base, records, (n - 1) as nat, t);
        lemma_linked_len(nodes, roots, base, records, (n - 1) as nat);
        assert(roots[n - 1] != t);
    }
}

/// The own nodes of a loaded scene are its records: one for each, in their order, from the first place on, with the id
/// of the record. That of an entity has the last unbroken value of each of its components and no other component; that
/// of an instance has none, and knows its scene and its overrides. Each is a scene entity, made for no instance. A
/// record's parent is the last record of the file with the id that it names, and it has none where no record has that
/// id or where it names none.
pub proof fn law_own_nodes_are_the_records(
    sources: Seq<Source>,
    path: Seq<char>,
    stack: Seq<Seq<char>>,
    base: int,
    f: int,
    records: Seq<Record>,
    nodes: Seq<Node>,
    roots: Seq<int>,
    m: int,
)
    requires
        find_source(sources, path, sources.len()) == Some(f),
        sources[f].file == Ok::<Seq<Record>, LoadError>(records),
        load_file(sources, path, stack, base) == Ok::<(Seq<Node>, Seq<int>), LoadError>((nodes, roots)),
        0 <= m < records.len(),
    ensures
        roots.len() == records.len(),
        roots[0] == base,
        base <= roots[m] < base + nodes.len(),
        records[m] is Entity && m + 1 < records.len() ==> roots[m + 1] == roots[m] + 1,
        records[m] is Entity && m + 1 == records.len() ==> base + nodes.len() == roots[m] + 1,
        ({
            let own = nodes[roots[m] - base];
            &&& own.instance_child is None
            &&& own.scene_entity
            &&& !own.barred
            &&& match records[m] {
                Record::Entity { id, components, .. } => {
                    &&& own.local == id
                    &&& own.instance is None
                    &&& forall|p: Seq<char>, c: int|
                        #![trigger gives_at(components, sources[f].broken, p, c)]
                        gives_at(components, sources[f].broken, p, c) && (forall|d: int|
                            d > c ==> !#[trigger] gives_at(components, sources[f].broken, p, d)) ==> holds_value(
                            own.components,
                            p,
                            Some(components[c].1),
                        )
                    &&& forall|p: Seq<char>|
                        (forall|c: int| !#[trigger] gives_at(components, sources[f].broken, p, c)) ==> #[trigger] holds_value(
                            own.components,
                            p,
                            None,
                        )
                },
                Record::Instance { id, source, overrides, .. } => {
                    &&& own.local == id
                    &&& own.instance == Some((source, overrides))
                    &&& own.components.len() == 0
                },
            }
            &&& records[m].parent() is None ==> own.parent is None
            &&& records[m].parent() matches Some(p) ==> {
                &&& (forall|j: int| 0 <= j < records.len() ==> (#[trigger] records[j]).id() != p) ==> own.parent is None
                &&& forall|j: int|
                    0 <= j < records.len() && (#[trigger] records[j]).id() == p && (forall|k: int|
                        j < k < records.len() ==> (#[trigger] records[k]).id() != p) ==> own.parent == Some(roots[j])
            }
        }),
{
    let broken = sources[f].broken;
    let all = records.len();
    let deep = stack.push(path);
    let (raw, places) = load_records(sources, records, broken, all, deep, base)->Ok_0;
    assert(places == roots);
    assert(nodes == linked(raw, roots, base, records, all));
    lemma_linked_nodes(raw, roots, base, records, all);
    lemma_records_shape(sources, records, broken, all, deep, base);
    lemma_records_nodes(sources, records, broken, all, deep, base);
    lemma_records_prefix(sources, records, broken, 1, all, deep, base, raw, roots);
    let (a0, b0) = load_records(sources, records, broken, 1, deep, base)->Ok_0;
    assert(load_records(sources, records, broken, 0, deep, base) == Ok::<(Seq<Node>, Seq<int>), LoadError>(
        (Seq::empty(), Seq::empty()),
    ));
    assert(b0[0] == base);
    lemma_records_prefix(sources, records, broken, m as nat, all, deep, base, raw, roots);
    lemma_records_prefix(sources, records, broken, (m + 1) as nat, all, deep, base, raw, roots);
    let (a, b) = load_records(sources, records, broken, m as nat, deep, base)->Ok_0;
    let (a1, b1) = load_records(sources, records, broken, (m + 1) as nat, deep, base)->Ok_0;
    assert(b1[m] == base + a.len());
    if m + 1 < records.len() {
        lemma_records_prefix(sources, records, broken, (m + 2) as nat, all, deep, base, raw, roots);
        let (a2, b2) = load_records(sources, records, broken, (m + 2) as nat, deep, base)->Ok_0;
        assert(b2[m + 1] == base + a1.len());
    }
    assert(node_of_record(raw[roots[m] - base], records[m], broken));
    let own = nodes[roots[m] - base];
    let before = raw[roots[m] - base];
    assert((Node { parent: before.parent, ..own }) == before);
    if let Record::Entity { id, components, .. } = records[m] {
        assert forall|p: Seq<char>, c: int|
            #![trigger gives_at(components, broken, p, c)]
            gives_at(components, broken, p, c) && (forall|d: int|
                d > c ==> !#[trigger] gives_at(components, broken, p, d)) implies holds_value(
            own.components,
            p,
            Some(components[c].1),
        ) by {
            law_last_whole_value_wins(Seq::empty(), components, broken, p);
        }
        assert forall|p: Seq<char>|
            (forall|c: int| !#[trigger] gives_at(components, broken, p, c)) implies #[trigger] holds_value(
            own.components,
            p,
            None,
        ) by {
            law_last_whole_value_wins(Seq::empty(), components, broken, p);
            assert(holds_value(Seq::empty(), p, None));
        }
    }
    assert forall|i: int| 0 <= i < records.len() implies raw[#[trigger] roots[i] - base].local == records[i].id() by {
        assert(node_of_record(raw[roots[i] - base], records[i], broken));
    }
    lemma_linked_to(raw, roots, base, records, all, m);
}

/// What tying to parents does to the node of record `k`.
proof fn lemma_linked_to(nodes: Seq<Node>, roots: Seq<int>, base: int, records: Seq<Record>, n: nat, k: int)
    requires
        0 <= k < n <= records.len(),
        roots.len() == records.len(),
        places_ok(roots, base, nodes.len() as int),
        forall|i: int| 0 <= i < records.len() ==> nodes[#[trigger] roots[i] - base].local == records[i].id(),
        nodes[roots[k] - base].parent is None,
    ensures
        ({
            let own = linked(nodes, roots, base, records, n)[roots[k] - base];
            &&& records[k].parent() is None ==> own.parent is None
            &&& records[k].parent() matches Some(p) ==> {
                &&& (forall|j: int| 0 <= j < records.len() ==> (#[trigger] records[j]).id() != p) ==> own.parent is None
                &&& forall|j: int|
                    0 <= j < records.len() && (#[trigger] records[j]).id() == p && (forall|h: int|
                        j < h < records.len() ==> (#[trigger] records[h]).id() != p) ==> own.parent == Some(roots[j])
            }
        }),
    decreases n,
{
    let prev = (n - 1) as nat;
    let before = linked(nodes, roots, base, records, prev);
    lemma_linked_nodes(nodes, roots, base, records, prev);
    if k < n - 1 {
        lemma_linked_to(nodes, roots, base, records, prev, k);
        assert(roots[k] < roots[n - 1]);
    } else {
        lemma_linked_untouched(nodes, roots, base, records, prev, k);
        if let Some(p) = records[k].parent() {
            assert forall|i: int| 0 <= i < roots.len() implies before[#[trigger] roots[i] - base].local
                == records[i].id() by {
                assert(nodes[roots[i] - base].local == records[i].id());
            }
            if forall|j: int| 0 <= j < records.len() ==> (#[trigger] records[j]).id() != p {
                assert forall|j: int| 0 <= j < roots.len() implies before[#[trigger] roots[j] - base].local != p by {
                    assert(records[j].id() != p);
                }
                lemma_with_id_is_none(before, roots, base, p, roots.len());
            }
            assert forall|j: int|
                0 <= j < records.len() && (#[trigger] records[j]).id() == p && (forall|h: int|
                    j < h < records.len() ==> (#[trigger] records[h]).id() != p) implies linked(
                nodes,
                roots,
                base,
                records,
                n,
            )[roots[k] - base].parent == Some(roots[j]) by {
                assert(before[roots[j] - base].local == p);
                assert forall|h: int| j < h < roots.len() implies before[#[trigger] roots[h] - base].local != p by {
                    assert(records[h].id() != p);
                }
                lemma_with_id_is_last(before, roots, base, p, roots.len(), j);
            }
        }
    }
}

/// When a scene does not load, whatever its records: it is being loaded already under some spelling of its path; or it
/// could not be read, and the error is the reason that there was.
pub proof fn law_why_a_scene_does_not_load(sources: Seq<Source>, path: Seq<char>, stack: Seq<Seq<char>>, base: int, f: int)
    requires
        find_source(sources, path, sources.len()) == Some(f),
        stack.len() <= sources.len(),
    ensures
        0 <= f < sources.len() && sources[f].path == path,
        forall|g: int| 0 <= g < f ==> (#[trigger] sources[g]).path != path,
        (exists|i: int| 0 <= i < stack.len() && path_key(#[trigger] stack[i]) == path_key(path)) ==> load_file(
            sources,
            path,
            stack,
            base,
        ) == Err::<(Seq<Node>, Seq<int>), LoadError>(LoadError::Cycle(path)),
        !(exists|i: int| 0 <= i < stack.len() && path_key(#[trigger] stack[i]) == path_key(path)) ==> (
        sources[f].file matches Err(why) ==> load_file(sources, path, stack, base) == Err::<
            (Seq<Node>, Seq<int>),
            LoadError,
        >(why)),
{
    lemma_find_source(sources, path, sources.len());
    assert forall|g: int| 0 <= g < f implies (#[trigger] sources[g]).path != path by {
        lemma_find_source(sources, path, f as nat);
        if find_source(sources, path, f as nat) is Some {
            super::lemma_source_stays(sources, path, f as nat, sources.len());
        }
    }
}

/// A scene does not load where an instance's scene does not, the records before it being fine: the error is that of the
/// instance.
pub proof fn law_a_failed_instance_fails_the_scene(
    sources: Seq<Source>,
    path: Seq<char>,
    stack: Seq<Seq<char>>,
    base: int,
    f: int,
    records: Seq<Record>,
    m: int,
    id: u64,
    parent: Option<u64>,
    source: Seq<char>,
    overrides: Overrides,
    nodes: Seq<Node>,
    roots: Seq<int>,
    e: LoadError,
)
    requires
        find_source(sources, path, sources.len()) == Some(f),
        stack.len() <= sources.len(),
        !(exists|i: int| 0 <= i < stack.len() && path_key(#[trigger] stack[i]) == path_key(path)),
        sources[f].file == Ok::<Seq<Record>, LoadError>(records),
        0 <= m < records.len(),
        records[m] == (Record::Instance { id, parent, source, overrides }),
        load_records(sources, records, sources[f].broken, m as nat, stack.push(path), base) == Ok::<
            (Seq<Node>, Seq<int>),
            LoadError,
        >((nodes, roots)),
        load_file(sources, source, stack.push(path), base + nodes.len() + 1) == Err::<(Seq<Node>, Seq<int>), LoadError>(e),
    ensures
        load_file(sources, path, stack, base) == Err::<(Seq<Node>, Seq<int>), LoadError>(e),
{
    let broken = sources[f].broken;
    let deep = stack.push(path);
    assert(load_records(sources, records, broken, (m + 1) as nat, deep, base) == Err::<(Seq<Node>, Seq<int>), LoadError>(
        e,
    ));
    lemma_records_fail(sources, records, broken, (m + 1) as nat, records.len(), deep, base, e);
}

/// What is still to be read: each scene that is not among the files and that a record of a file that was read is an
/// instance of, and no other.
pub proof fn law_scenes_still_to_be_read(sources: Seq<Source>, n: nat, path: Seq<char>)
    requires
        n <= sources.len(),
    ensures
        super::unread(sources, n).contains(path) <==> !super::known(sources, path) && exists|i: int, k: int|
            0 <= i < n && #[trigger] names_source(sources, i, k, path),
        super::known(sources, path) <==> exists|i: int| 0 <= i < sources.len() && (#[trigger] sources[i]).path == path,
    decreases n,
{
    lemma_find_source(sources, path, sources.len());
    if n > 0 {
        let m = (n - 1) as nat;
        law_scenes_still_to_be_read(sources, m, path);
        let before = super::unread(sources, m);
        let more = match sources[n - 1].file {
            Ok(records) => super::unread_in(sources, records, records.len()),
            Err(_) => Seq::empty(),
        };
        let all = super::unread(sources, n);
        assert(all == before + more);
        if let Ok(records) = sources[n - 1].file {
            lemma_unread_in_has(sources, records, records.len(), n - 1, path);
        }
        if all.contains(path) {
            let w = choose|w: int| 0 <= w < all.len() && all[w] == path;
            if w < before.len() {
                assert(before[w] == path);
            } else {
                assert(more[w - before.len()] == path);
            }
        }
        if before.contains(path) {
            let w = choose|w: int| 0 <= w < before.len() && before[w] == path;
            assert(all[w] == path);
        }
        if more.contains(path) {
            let w = choose|w: int| 0 <= w < more.len() && more[w] == path;
            assert(all[before.len() + w] == path);
        }
        if exists|i: int, k: int| 0 <= i < n && #[trigger] names_source(sources, i, k, path) {
            let (i, k) = choose|i: int, k: int| 0 <= i < n && #[trigger] names_source(sources, i, k, path);
            if i == n - 1 {
                assert(names_source(sources, n - 1, k, path));
            }
        }
    }
}

/// Whether record `k` of file `i` is an instance of the scene.
pub open spec fn names_source(sources: Seq<Source>, i: int, k: int, path: Seq<char>) -> bool {
    sources[i].file matches Ok(records) && 0 <= k < records.len() && (records[k] matches Record::Instance { source, .. }
        && source == path)
}

proof fn lemma_unread_in_has(sources: Seq<Source>, records: Seq<Record>, n: nat, i: int, path: Seq<char>)
    requires
        n <= records.len(),
        sources[i].file == Ok::<Seq<Record>, LoadError>(records),
    ensures
        super::unread_in(sources, records, n).contains(path) <==> !super::known(sources, path) && exists|k: int|
            k < n && #[trigger] names_source(sources, i, k, path),
    decreases n,
{
    if n > 0 {
        let m = (n - 1) as nat;
        lemma_unread_in_has(sources, records, m, i, path);
        let before = super::unread_in(sources, records, m);
        let all = super::unread_in(sources, records, n);
        if before.contains(path) {
            let w = choose|w: int| 0 <= w < before.len() && before[w] == path;
            assert(all[w] == path);
        }
        if all.contains(path) {
            let w = choose|w: int| 0 <= w < all.len() && all[w] == path;
            if w < before.len() {
                assert(before[w] == path);
            } else {
                assert(names_source(sources, i, m as int, path));
            }
        }
        if names_source(sources, i, m as int, path) && !super::known(sources, path) {
            assert(all[before.len() as int] == path);
        }
    }
}

/// A file that was read stands for its path, its records or why there are none, and those of its components that are
/// broken.
pub proof fn law_files_stand_for_what_was_read(list: Seq<SceneSource>, i: int)
    requires
        0 <= i < list.len(),
    ensures
        sources_of(list).len() == list.len(),
        sources_of(list)[i].path == list[i].path@,
        list[i].file matches Ok(f) ==> sources_of(list)[i].file == Ok::<Seq<Record>, LoadError>(records_of(f.records@)),
        list[i].file matches Err(SceneLoadError::Io(e)) ==> sources_of(list)[i].file == Err::<Seq<Record>, LoadError>(
            LoadError::Io(e@),
        ),
        list[i].file matches Err(SceneLoadError::Parse(e)) ==> sources_of(list)[i].file == Err::<Seq<Record>, LoadError>(
            LoadError::Parse(e@),
        ),
        list[i].file matches Err(SceneLoadError::Cycle(p)) ==> sources_of(list)[i].file == Err::<Seq<Record>, LoadError>(
            LoadError::Cycle(p@),
        ),
        sources_of(list)[i].broken.len() == list[i].broken@.len(),
        forall|k: int|
            0 <= k < list[i].broken@.len() ==> #[trigger] sources_of(list)[i].broken[k] == (
                list[i].broken@[k].0@,
                list[i].broken@[k].1@,
            ),
{
}

} // verus!
