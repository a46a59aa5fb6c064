//! How scene files become a world: each record is a node, and an instance brings in the nodes of the scene it
//! is of, with its overrides put onto them.

use crate::soul_scene::format::{
    all_whole, applied, apply_components, comps, copy_overrides, distinct_paths, lemma_applied_fresh, nodes_of, overs, records_of, Comps,
    ComponentMap, LocalId, Node, Overrides, Record, SceneFile, SceneInstance, SceneNode, SceneRecord,
};
use crate::soul_scene::path::{path_key, same_path};
use crate::soul_scene::save::{
    is_save_order, is_saved, law_save_order_unique, next_id_of, node_before, record_of, saves, ties_ok,
};
use vstd::prelude::*;

pub mod laws;

verus! {

/// Why a scene could not be loaded.
#[derive(Debug)]
pub enum SceneLoadError {
    Io(String),
    Parse(String),
    /// An instance is of a scene that is being loaded.
    Cycle(String),
}

/// The model of an error.
#[verifier::ext_equal]
pub enum LoadError {
    Io(Seq<char>),
    Parse(Seq<char>),
    Cycle(Seq<char>),
}

impl View for SceneLoadError {
    type V = LoadError;

    open spec fn view(&self) -> LoadError {
        match *self {
            SceneLoadError::Io(e) => LoadError::Io(e@),
            SceneLoadError::Parse(e) => LoadError::Parse(e@),
            SceneLoadError::Cycle(p) => LoadError::Cycle(p@),
        }
    }
}

impl SceneLoadError {
    /// The error as a message.
    pub fn message(&self) -> (m: String)
        ensures
            m@ == match self@ {
                LoadError::Io(e) => "scene io error: "@ + e,
                LoadError::Parse(e) => "scene parse error: "@ + e,
                LoadError::Cycle(p) => "cyclic scene instance: "@ + p,
            },
    {
        match self {
            SceneLoadError::Io(e) => String::from_str("scene io error: ").concat(e.as_str()),
            SceneLoadError::Parse(e) => String::from_str("scene parse error: ").concat(e.as_str()),
            SceneLoadError::Cycle(p) => String::from_str("cyclic scene instance: ").concat(p.as_str()),
        }
    }

    fn copied(&self) -> (e: SceneLoadError)
        ensures
            e@ == self@,
    {
        match self {
            SceneLoadError::Io(e) => SceneLoadError::Io(e.clone()),
            SceneLoadError::Parse(e) => SceneLoadError::Parse(e.clone()),
            SceneLoadError::Cycle(p) => SceneLoadError::Cycle(p.clone()),
        }
    }
}

/// A scene file that was read: its path, its contents or why there are none, and those of its components, also in
/// overrides, that are broken: their type is not known, or their value cannot be read as one of it.
#[derive(Debug)]
pub struct SceneSource {
    pub path: String,
    pub file: Result<SceneFile, SceneLoadError>,
    pub broken: ComponentMap,
}

/// The model of a scene file that was read.
#[verifier::ext_equal]
pub struct Source {
    pub path: Seq<char>,
    pub file: Result<Seq<Record>, LoadError>,
    pub broken: Comps,
}

impl View for SceneSource {
    type V = Source;

    open spec fn view(&self) -> Source {
        Source {
            path: self.path@,
            file: match self.file {
                Ok(f) => Ok(records_of(f.records@)),
                Err(e) => Err(e@),
            },
            broken: comps(self.broken@),
        }
    }
}

/// The models of a list of scene files.
pub open spec fn sources_of(list: Seq<SceneSource>) -> Seq<Source> {
    list.map_values(|s: SceneSource| s@)
}

/// The place of a path among the first `n` files.
pub open spec fn find_source(sources: Seq<Source>, path: Seq<char>, n: nat) -> Option<int>
    decreases n,
{
    if n == 0 {
        None
    } else {
        match find_source(sources, path, (n - 1) as nat) {
            Some(k) => Some(k),
            None => if sources[n - 1].path == path {
                Some(n - 1)
            } else {
                None
            },
        }
    }
}

/// Whether a path is among the files.
pub open spec fn known(sources: Seq<Source>, path: Seq<char>) -> bool {
    find_source(sources, path, sources.len()) is Some
}

/// Whether every scene that a record is an instance of is among the files.
pub open spec fn all_known(sources: Seq<Source>, records: Seq<Record>) -> bool {
    forall|k: int|
        0 <= k < records.len() ==> ((#[trigger] records[k]) matches Record::Instance { source, .. } ==> known(
            sources,
            source,
        ))
}

/// Whether the files are complete: every scene that one of them has an instance of is among them.
pub open spec fn complete(sources: Seq<Source>) -> bool {
    forall|i: int|
        0 <= i < sources.len() ==> ((#[trigger] sources[i]).file matches Ok(records) ==> all_known(sources, records))
}

/// The node of an entity.
pub open spec fn plain_node(id: u64, components: Comps) -> Node {
    Node {
        local: id,
        components,
        parent: None,
        instance_child: None,
        instance: None,
        scene_entity: true,
        barred: false,
    }
}

/// The root node of an instance.
pub open spec fn instance_node(id: u64, source: Seq<char>, overrides: Overrides) -> Node {
    Node { instance: Some((source, overrides)), ..plain_node(id, Seq::empty()) }
}

/// The nodes with `n` at place `k`.
pub open spec fn set_node(nodes: Seq<Node>, k: int, n: Node) -> Seq<Node> {
    Seq::new(nodes.len(), |i: int| if i == k { n } else { nodes[i] })
}

/// The last of the first `n` listed nodes that has the id. The nodes begin at place `base`.
pub open spec fn with_id(nodes: Seq<Node>, list: Seq<int>, base: int, id: u64, n: nat) -> Option<int>
    decreases n,
{
    if n == 0 {
        None
    } else if nodes[list[n - 1] - base].local == id {
        Some(list[n - 1])
    } else {
        with_id(nodes, list, base, id, (n - 1) as nat)
    }
}

/// The nodes of an instance's scene, marked as made for its root.
pub open spec fn marked(nodes: Seq<Node>, list: Seq<int>, base: int, root: int, n: nat) -> Seq<Node>
    decreases n,
{
    if n == 0 {
        nodes
    } else {
        let before = marked(nodes, list, base, root, (n - 1) as nat);
        let k = list[n - 1] - base;
        set_node(before, k, Node { instance_child: Some(root), ..before[k] })
    }
}

/// The nodes with the first `n` overrides put onto those with the ids. An override for an id that is not there
/// is dropped, and so is a broken component.
pub open spec fn overridden(nodes: Seq<Node>, list: Seq<int>, base: int, overrides: Overrides, broken: Comps, n: nat) -> Seq<Node>
    decreases n,
{
    if n == 0 {
        nodes
    } else {
        let before = overridden(nodes, list, base, overrides, broken, (n - 1) as nat);
        match with_id(before, list, base, overrides[n - 1].0, list.len()) {
            None => before,
            Some(t) => set_node(
                before,
                t - base,
                Node {
                    components: applied(
                        before[t - base].components,
                        overrides[n - 1].1,
                        broken,
                        overrides[n - 1].1.len(),
                    ),
                    ..before[t - base]
                },
            ),
        }
    }
}

/// The nodes with the first `n` records' nodes tied to their parents, where those are in the same file.
pub open spec fn linked(nodes: Seq<Node>, roots: Seq<int>, base: int, records: Seq<Record>, n: nat) -> Seq<Node>
    decreases n,
{
    if n == 0 {
        nodes
    } else {
        let before = linked(nodes, roots, base, records, (n - 1) as nat);
        match records[n - 1].parent() {
            None => before,
            Some(p) => {
                let k = roots[n - 1] - base;
                set_node(before, k, Node { parent: with_id(before, roots, base, p, roots.len()), ..before[k] })
            },
        }
    }
}

/// The nodes of the first `n` records, the first of them at place `base`, and the places of the records' own
/// nodes. `stack` has the scenes that are being loaded.
pub open spec fn load_records(
    sources: Seq<Source>,
    records: Seq<Record>,
    broken: Comps,
    n: nat,
    stack: Seq<Seq<char>>,
    base: int,
) -> Result<(Seq<Node>, Seq<int>), LoadError>
    decreases sources.len() + 1 - stack.len(), n,
{
    if n == 0 {
        Ok((Seq::empty(), Seq::empty()))
    } else {
        match load_records(sources, records, broken, (n - 1) as nat, stack, base) {
            Err(e) => Err(e),
            Ok((nodes, roots)) => {
                let root = base + nodes.len();
                match records[n - 1] {
                    Record::Entity { id, components, .. } => Ok(
                        (
                            nodes.push(plain_node(id, applied(Seq::empty(), components, broken, components.len()))),
                            roots.push(root),
                        ),
                    ),
                    Record::Instance { id, source, overrides, .. } => match load_file(
                        sources,
                        source,
                        stack,
                        root + 1,
                    ) {
                        Err(e) => Err(e),
                        Ok((sub, kids)) => Ok(
                            (
                                nodes.push(instance_node(id, source, overrides)) + overridden(
                                    marked(sub, kids, root + 1, root, kids.len()),
                                    kids,
                                    root + 1,
                                    overrides,
                                    broken,
                                    overrides.len(),
                                ),
                                roots.push(root),
                            ),
                        ),
                    },
                }
            },
        }
    }
}

/// Whether a scene is among those that are being loaded, however its path is spelled.
pub open spec fn is_loading(stack: Seq<Seq<char>>, path: Seq<char>) -> bool {
    exists|i: int| 0 <= i < stack.len() && path_key(#[trigger] stack[i]) == path_key(path)
}

/// The nodes of a scene, the first of them at place `base`, and the places of its records' own nodes. A scene
/// that is being loaded already is an error; so is one that could not be read.
pub open spec fn load_file(sources: Seq<Source>, path: Seq<char>, stack: Seq<Seq<char>>, base: int) -> Result<
    (Seq<Node>, Seq<int>),
    LoadError,
>
    decreases sources.len() + 1 - stack.len(), 0nat,
{
    if is_loading(stack, path) || stack.len() > sources.len() {
        Err(LoadError::Cycle(path))
    } else {
        match find_source(sources, path, sources.len()) {
            None => Err(LoadError::Io(Seq::empty())),
            Some(i) => match sources[i].file {
                Err(e) => Err(e),
                Ok(records) => match load_records(
                    sources,
                    records,
                    sources[i].broken,
                    records.len(),
                    stack.push(path),
                    base,
                ) {
                    Err(e) => Err(e),
                    Ok((nodes, roots)) => Ok((linked(nodes, roots, base, records, records.len()), roots)),
                },
            },
        }
    }
}

/// Whether places are in a stretch of `len` from `base` on, and ascend.
pub open spec fn places_ok(list: Seq<int>, base: int, len: int) -> bool {
    &&& forall|i: int| 0 <= i < list.len() ==> base <= #[trigger] list[i] < base + len
    &&& forall|i: int, j: int| 0 <= i < j < list.len() ==> #[trigger] list[i] < #[trigger] list[j]
}

proof fn lemma_marked_len(nodes: Seq<Node>, list: Seq<int>, base: int, root: int, n: nat)
    ensures
        marked(nodes, list, base, root, n).len() == nodes.len(),
    decreases n,
{
    if n > 0 {
        lemma_marked_len(nodes, list, base, root, (n - 1) as nat);
    }
}

proof fn lemma_overridden_len(nodes: Seq<Node>, list: Seq<int>, base: int, overrides: Overrides, broken: Comps, n: nat)
    ensures
        overridden(nodes, list, base, overrides, broken, n).len() == nodes.len(),
    decreases n,
{
    if n > 0 {
        lemma_overridden_len(nodes, list, base, overrides, broken, (n - 1) as nat);
    }
}

proof fn lemma_linked_len(nodes: Seq<Node>, roots: Seq<int>, base: int, records: Seq<Record>, n: nat)
    ensures
        linked(nodes, roots, base, records, n).len() == nodes.len(),
    decreases n,
{
    if n > 0 {
        lemma_linked_len(nodes, roots, base, records, (n - 1) as nat);
    }
}

/// Each record has a node of its own, and those ascend.
pub proof fn lemma_records_shape(
    sources: Seq<Source>,
    records: Seq<Record>,
    broken: Comps,
    n: nat,
    stack: Seq<Seq<char>>,
    base: int,
)
    ensures
        load_records(sources, records, broken, n, stack, base) matches Ok((nodes, roots)) ==> roots.len() == n && places_ok(
            roots,
            base,
            nodes.len() as int,
        ),
    decreases n,
{
    if n > 0 {
        lemma_records_shape(sources, records, broken, (n - 1) as nat, stack, base);
        if let Ok((nodes, roots)) = load_records(sources, records, broken, (n - 1) as nat, stack, base) {
            let root = base + nodes.len();
            if let Record::Instance { id, source, overrides, .. } = records[n - 1] {
                if let Ok((sub, kids)) = load_file(sources, source, stack, root + 1) {
                    lemma_marked_len(sub, kids, root + 1, root, kids.len());
                    lemma_overridden_len(
                        marked(sub, kids, root + 1, root, kids.len()),
                        kids,
                        root + 1,
                        overrides,
                        broken,
                        overrides.len(),
                    );
                }
            }
        }
    }
}

/// Each record of a scene has a node of its own, and those ascend.
pub proof fn lemma_file_shape(sources: Seq<Source>, path: Seq<char>, stack: Seq<Seq<char>>, base: int)
    ensures
        load_file(sources, path, stack, base) matches Ok((nodes, roots)) ==> places_ok(
            roots,
            base,
            nodes.len() as int,
        ),
{
    if !(is_loading(stack, path) || stack.len() > sources.len()) {
        if let Some(i) = find_source(sources, path, sources.len()) {
            let broken = sources[i].broken;
            if let Ok(records) = sources[i].file {
                lemma_records_shape(sources, records, broken, records.len(), stack.push(path), base);
                if let Ok((nodes, roots)) = load_records(sources, records, broken, records.len(), stack.push(path), base) {
                    lemma_linked_len(nodes, roots, base, records, records.len());
                }
            }
        }
    }
}

proof fn lemma_find_source(sources: Seq<Source>, path: Seq<char>, n: nat)
    requires
        n <= sources.len(),
    ensures
        find_source(sources, path, n) matches Some(k) ==> 0 <= k < n && sources[k].path == path,
        find_source(sources, path, n) is None ==> forall|i: int| 0 <= i < n ==> (#[trigger] sources[i]).path != path,
    decreases n,
{
    if n > 0 {
        lemma_find_source(sources, path, (n - 1) as nat);
    }
}

proof fn lemma_source_stays(sources: Seq<Source>, path: Seq<char>, n: nat, m: nat)
    requires
        n <= m,
        find_source(sources, path, n) is Some,
    ensures
        find_source(sources, path, m) == find_source(sources, path, n),
    decreases m,
{
    if m > n {
        lemma_source_stays(sources, path, n, (m - 1) as nat);
    }
}

/// Whether a stack has files of the list only, none of them twice.
pub open spec fn stack_ok(sources: Seq<Source>, stack: Seq<Seq<char>>) -> bool {
    &&& forall|i: int, j: int|
        0 <= i < j < stack.len() ==> path_key(#[trigger] stack[i]) != path_key(#[trigger] stack[j])
    &&& forall|i: int| 0 <= i < stack.len() ==> known(sources, #[trigger] stack[i])
}

/// A stack of different files is no longer than the list of files.
proof fn lemma_stack_len(sources: Seq<Source>, stack: Seq<Seq<char>>)
    requires
        stack_ok(sources, stack),
    ensures
        stack.len() <= sources.len(),
{
    let places = stack.map_values(
        |p: Seq<char>|
            match find_source(sources, p, sources.len()) {
                Some(k) => k,
                None => -1int,
            },
    );
    assert forall|i: int| 0 <= i < stack.len() implies 0 <= #[trigger] places[i] < sources.len()
        && sources[places[i]].path == stack[i] by {
        assert(known(sources, stack[i]));
        lemma_find_source(sources, stack[i], sources.len());
    }
    assert(places.no_duplicates()) by {
        assert forall|i: int, j: int| 0 <= i < places.len() && 0 <= j < places.len() && i != j implies places[i]
            != places[j] by {
            assert(sources[places[i]].path == stack[i]);
            assert(sources[places[j]].path == stack[j]);
            if i < j {
                assert(path_key(stack[i]) != path_key(stack[j]));
            } else {
                assert(path_key(stack[j]) != path_key(stack[i]));
            }
        }
    }
    places.unique_seq_to_set();
    let all = vstd::set_lib::set_int_range(0, sources.len() as int);
    vstd::set_lib::lemma_int_range(0, sources.len() as int);
    assert(places.to_set().subset_of(all)) by {
        assert forall|x: int| #[trigger] places.to_set().contains(x) implies all.contains(x) by {
            let i = choose|i: int| 0 <= i < places.len() && places[i] == x;
            assert(0 <= places[i] < sources.len());
        }
    }
    vstd::set_lib::lemma_len_subset(places.to_set(), all);
}

/// The models of a list of paths.
pub open spec fn paths_of(list: Seq<String>) -> Seq<Seq<char>> {
    list.map_values(|s: String| s@)
}

fn on_stack(stack: &Vec<String>, path: &String) -> (b: bool)
    ensures
        b == is_loading(paths_of(stack@), path@),
{
    let mut i: usize = 0;
    while i < stack.len()
        invariant
            i <= stack@.len(),
            forall|k: int| 0 <= k < i ==> path_key(#[trigger] paths_of(stack@)[k]) != path_key(path@),
        decreases stack@.len() - i,
    {
        assert(paths_of(stack@)[i as int] == stack@[i as int]@);
        if same_path(&stack[i], path) {
            return true;
        }
        i = i + 1;
    }
    false
}

fn source_place(sources: &Vec<SceneSource>, path: &String) -> (r: Option<usize>)
    ensures
        r matches Some(k) ==> k < sources@.len() && find_source(sources_of(sources@), path@, sources@.len()) == Some(
            k as int,
        ),
        r is None ==> find_source(sources_of(sources@), path@, sources@.len()) is None,
{
    let mut i: usize = 0;
    while i < sources.len()
        invariant
            i <= sources@.len(),
            find_source(sources_of(sources@), path@, i as nat) is None,
        decreases sources@.len() - i,
    {
        assert(sources_of(sources@)[i as int] == sources@[i as int]@);
        if sources[i].path == *path {
            proof {
                lemma_source_stays(sources_of(sources@), path@, (i + 1) as nat, sources@.len());
            }
            return Some(i);
        }
        i = i + 1;
    }
    None
}

/// Places as mathematical integers.
pub open spec fn ints(list: Seq<usize>) -> Seq<int> {
    list.map_values(|p: usize| p as int)
}

/// The last listed node with the id.
fn node_with_id(nodes: &Vec<SceneNode>, list: &Vec<usize>, id: u64, base: usize) -> (r: Option<usize>)
    requires
        base <= nodes@.len(),
        places_ok(ints(list@), base as int, nodes@.len() - base),
    ensures
        (match r {
            Some(t) => Some(t as int),
            None => None,
        }) == with_id(nodes_of(nodes@).skip(base as int), ints(list@), base as int, id, list@.len()),
        r matches Some(t) ==> base <= t < nodes@.len() && ints(list@).contains(t as int),
{
    let ghost sub = nodes_of(nodes@).skip(base as int);
    let mut n: usize = list.len();
    while n > 0
        invariant
            n <= list@.len(),
            base <= nodes@.len(),
            places_ok(ints(list@), base as int, nodes@.len() - base),
            sub == nodes_of(nodes@).skip(base as int),
            with_id(sub, ints(list@), base as int, id, n as nat) == with_id(
                sub,
                ints(list@),
                base as int,
                id,
                list@.len(),
            ),
        decreases n,
    {
        let t: usize = list[n - 1];
        assert(ints(list@)[n - 1] == t);
        assert(sub[t - base] == nodes@[t as int]@);
        if nodes[t].local.0 == id {
            return Some(t);
        }
        n = n - 1;
    }
    None
}

/// Mark the nodes of an instance's scene as made for its root.
fn mark_children(nodes: &mut Vec<SceneNode>, list: &Vec<usize>, base: usize, root: usize)
    requires
        base <= old(nodes)@.len(),
        places_ok(ints(list@), base as int, old(nodes)@.len() - base),
    ensures
        nodes_of(final(nodes)@) == nodes_of(old(nodes)@).take(base as int) + marked(
            nodes_of(old(nodes)@).skip(base as int),
            ints(list@),
            base as int,
            root as int,
            list@.len(),
        ),
{
    let ghost whole = nodes_of(nodes@);
    let ghost head = whole.take(base as int);
    let ghost sub = whole.skip(base as int);
    let mut n: usize = 0;
    assert(whole =~= head + sub);
    while n < list.len()
        invariant
            n <= list@.len(),
            nodes@.len() == old(nodes)@.len(),
            base <= nodes@.len(),
            places_ok(ints(list@), base as int, nodes@.len() - base),
            head.len() == base,
            sub.len() == nodes@.len() - base,
            nodes_of(nodes@) == head + marked(sub, ints(list@), base as int, root as int, n as nat),
        decreases list@.len() - n,
    {
        let t: usize = list[n];
        let ghost before = nodes_of(nodes@);
        let ghost mid = marked(sub, ints(list@), base as int, root as int, n as nat);
        assert(ints(list@)[n as int] == t);
        proof {
            lemma_marked_len(sub, ints(list@), base as int, root as int, n as nat);
            assert(before[t as int] == nodes@[t as int]@);
        }
        let node: &mut SceneNode = &mut nodes[t];
        node.instance_child = Some(root);
        proof {
            let after = set_node(mid, t - base, Node { instance_child: Some(root as int), ..mid[t - base] });
            assert(nodes_of(nodes@) =~= before.update(
                t as int,
                Node { instance_child: Some(root as int), ..before[t as int] },
            ));
            assert(nodes_of(nodes@) =~= head + after);
        }
        n = n + 1;
    }
}

/// Put the overrides of an instance onto the nodes of its scene.
fn apply_overrides(
    nodes: &mut Vec<SceneNode>,
    list: &Vec<usize>,
    base: usize,
    overrides: &Vec<(u64, ComponentMap)>,
    broken: &ComponentMap,
)
    requires
        base <= old(nodes)@.len(),
        places_ok(ints(list@), base as int, old(nodes)@.len() - base),
    ensures
        nodes_of(final(nodes)@) == nodes_of(old(nodes)@).take(base as int) + overridden(
            nodes_of(old(nodes)@).skip(base as int),
            ints(list@),
            base as int,
            overs(overrides@),
            comps(broken@),
            overrides@.len(),
        ),
{
    let ghost whole = nodes_of(nodes@);
    let ghost head = whole.take(base as int);
    let ghost sub = whole.skip(base as int);
    let ghost over = overs(overrides@);
    let mut n: usize = 0;
    assert(whole =~= head + sub);
    while n < overrides.len()
        invariant
            n <= overrides@.len(),
            over == overs(overrides@),
            nodes@.len() == old(nodes)@.len(),
            base <= nodes@.len(),
            places_ok(ints(list@), base as int, nodes@.len() - base),
            head.len() == base,
            sub.len() == nodes@.len() - base,
            nodes_of(nodes@) == head + overridden(sub, ints(list@), base as int, over, comps(broken@), n as nat),
        decreases overrides@.len() - n,
    {
        let ghost before = nodes_of(nodes@);
        let ghost mid = overridden(sub, ints(list@), base as int, over, comps(broken@), n as nat);
        proof {
            lemma_overridden_len(sub, ints(list@), base as int, over, comps(broken@), n as nat);
            assert(before.skip(base as int) =~= mid);
            assert(over[n as int] == (overrides@[n as int].0, comps(overrides@[n as int].1@)));
        }
        match node_with_id(nodes, list, overrides[n].0, base) {
            None => {},
            Some(t) => {
                assert(before[t as int] == nodes@[t as int]@);
                let node: &mut SceneNode = &mut nodes[t];
                apply_components(&mut node.components, &overrides[n].1, broken);
                proof {
                    let c = applied(
                        mid[t - base].components,
                        over[n as int].1,
                        comps(broken@),
                        over[n as int].1.len(),
                    );
                    let after = set_node(mid, t - base, Node { components: c, ..mid[t - base] });
                    assert(nodes_of(nodes@) =~= before.update(
                        t as int,
                        Node { components: c, ..before[t as int] },
                    ));
                    assert(nodes_of(nodes@) =~= head + after);
                }
            },
        }
        n = n + 1;
    }
}

/// Tie the nodes of a scene's records to their parents.
fn link_parents(nodes: &mut Vec<SceneNode>, roots: &Vec<usize>, base: usize, records: &Vec<SceneRecord>)
    requires
        base <= old(nodes)@.len(),
        roots@.len() == records@.len(),
        places_ok(ints(roots@), base as int, old(nodes)@.len() - base),
    ensures
        nodes_of(final(nodes)@) == nodes_of(old(nodes)@).take(base as int) + linked(
            nodes_of(old(nodes)@).skip(base as int),
            ints(roots@),
            base as int,
            records_of(records@),
            records@.len(),
        ),
{
    let ghost whole = nodes_of(nodes@);
    let ghost head = whole.take(base as int);
    let ghost sub = whole.skip(base as int);
    let ghost recs = records_of(records@);
    let mut n: usize = 0;
    assert(whole =~= head + sub);
    while n < records.len()
        invariant
            n <= records@.len(),
            recs == records_of(records@),
            roots@.len() == records@.len(),
            nodes@.len() == old(nodes)@.len(),
            base <= nodes@.len(),
            places_ok(ints(roots@), base as int, nodes@.len() - base),
            head.len() == base,
            sub.len() == nodes@.len() - base,
            nodes_of(nodes@) == head + linked(sub, ints(roots@), base as int, recs, n as nat),
        decreases records@.len() - n,
    {
        let ghost before = nodes_of(nodes@);
        let ghost mid = linked(sub, ints(roots@), base as int, recs, n as nat);
        proof {
            lemma_linked_len(sub, ints(roots@), base as int, recs, n as nat);
            assert(before.skip(base as int) =~= mid);
            assert(recs[n as int] == records@[n as int]@);
            assert(ints(roots@)[n as int] == roots@[n as int]);
        }
        match records[n].parent() {
            None => {},
            Some(p) => {
                let found: Option<usize> = node_with_id(nodes, roots, p, base);
                let k: usize = roots[n];
                assert(before[k as int] == nodes@[k as int]@);
                let node: &mut SceneNode = &mut nodes[k];
                node.parent = found;
                proof {
                    let target = with_id(mid, ints(roots@), base as int, p, roots@.len());
                    let after = set_node(mid, k - base, Node { parent: target, ..mid[k - base] });
                    assert(nodes_of(nodes@) =~= before.update(k as int, Node { parent: target, ..before[k as int] }));
                    assert(nodes_of(nodes@) =~= head + after);
                }
            },
        }
        n = n + 1;
    }
}

fn make_node(id: LocalId, components: ComponentMap, instance: Option<SceneInstance>) -> (n: SceneNode)
    ensures
        n@ == (Node {
            instance: match instance {
                Some(i) => Some((i.source@, overs(i.overrides@))),
                None => None,
            },
            ..plain_node(id.0, comps(components@))
        }),
{
    SceneNode {
        local: id,
        components,
        parent: None,
        instance_child: None,
        instance,
        scene_entity: true,
        editor_entity: false,
        non_serializable: false,
        skip_serialization: false,
        editor_hidden: false,
    }
}

/// Append the nodes of a scene to a world, and give the places of its records' own nodes.
fn instantiate(
    sources: &Vec<SceneSource>,
    path: &String,
    nodes: &mut Vec<SceneNode>,
    stack: &mut Vec<String>,
) -> (r: Result<Vec<usize>, SceneLoadError>)
    requires
        complete(sources_of(sources@)),
        known(sources_of(sources@), path@),
        stack_ok(sources_of(sources@), paths_of(old(stack)@)),
    ensures
        match r {
            Err(e) => load_file(
                sources_of(sources@),
                path@,
                paths_of(old(stack)@),
                old(nodes)@.len() as int,
            ) == Err::<(Seq<Node>, Seq<int>), LoadError>(e@),
            Ok(roots) => {
                &&& paths_of(final(stack)@) == paths_of(old(stack)@)
                &&& old(nodes)@.len() <= final(nodes)@.len()
                &&& nodes_of(final(nodes)@).take(old(nodes)@.len() as int) == nodes_of(old(nodes)@)
                &&& load_file(sources_of(sources@), path@, paths_of(old(stack)@), old(nodes)@.len() as int) == Ok::<
                    (Seq<Node>, Seq<int>),
                    LoadError,
                >((nodes_of(final(nodes)@).skip(old(nodes)@.len() as int), ints(roots@)))
            },
        },
    decreases sources@.len() + 1 - old(stack)@.len(),
{
    let ghost srcs = sources_of(sources@);
    let ghost stack0 = paths_of(stack@);
    let ghost nodes0 = nodes_of(nodes@);
    let base: usize = nodes.len();
    if on_stack(stack, path) {
        return Err(SceneLoadError::Cycle(path.clone()));
    }
    proof {
        lemma_stack_len(srcs, stack0);
    }
    let at: usize = match source_place(sources, path) {
        Some(k) => k,
        None => {
            return Err(SceneLoadError::Io(String::new()));
        },
    };
    assert(srcs[at as int] == sources@[at as int]@);
    let file: &SceneFile = match &sources[at].file {
        Ok(f) => f,
        Err(e) => {
            return Err(e.copied());
        },
    };
    let ghost recs = records_of(file.records@);
    let lost: &ComponentMap = &sources[at].broken;
    let ghost broken = comps(lost@);
    stack.push(path.clone());
    let ghost stack1 = stack0.push(path@);
    let mut roots: Vec<usize> = Vec::new();
    let mut n: usize = 0;
    proof {
        assert(paths_of(stack@) =~= stack1);
        assert(stack_ok(srcs, stack1)) by {
            assert forall|i: int, j: int| 0 <= i < j < stack1.len() implies path_key(#[trigger] stack1[i]) != path_key(
                #[trigger] stack1[j],
            ) by {
                assert(stack1[i] == stack0[i]);
                if j < stack0.len() {
                    assert(stack1[j] == stack0[j]);
                }
            }
        }
        lemma_stack_len(srcs, stack1);
        assert(all_known(srcs, recs));
        assert(nodes_of(nodes@).skip(base as int) =~= Seq::empty());
        assert(ints(roots@) =~= Seq::empty());
        assert(nodes_of(nodes@).take(base as int) =~= nodes0);
    }
    while n < file.records.len()
        invariant
            n <= file.records@.len(),
            srcs == sources_of(sources@),
            recs == records_of(file.records@),
            broken == comps(lost@),
            complete(srcs),
            all_known(srcs, recs),
            stack_ok(srcs, stack1),
            stack1.len() <= srcs.len(),
            paths_of(stack@) == stack1,
            stack@.len() == stack1.len(),
            stack1.len() == old(stack)@.len() + 1,
            stack0 == paths_of(old(stack)@),
            stack1 == stack0.push(path@),
            nodes0 == nodes_of(old(nodes)@),
            base == nodes0.len(),
            base <= nodes@.len(),
            nodes_of(nodes@).take(base as int) == nodes0,
            load_records(srcs, recs, broken, n as nat, stack1, base as int) == Ok::<(Seq<Node>, Seq<int>), LoadError>(
                (nodes_of(nodes@).skip(base as int), ints(roots@)),
            ),
            forall|e: LoadError| #[trigger]
                load_records(srcs, recs, broken, recs.len(), stack1, base as int) == Err::<(Seq<Node>, Seq<int>), LoadError>(e)
                    ==> load_file(srcs, path@, stack0, base as int) == Err::<(Seq<Node>, Seq<int>), LoadError>(e),
        decreases file.records@.len() - n,
    {
        let ghost before = nodes_of(nodes@);
        let ghost sub0 = before.skip(base as int);
        let ghost roots0 = ints(roots@);
        let root: usize = nodes.len();
        assert(recs[n as int] == file.records@[n as int]@);
        assert(root == base + sub0.len());
        match &file.records[n] {
            SceneRecord::Entity { id, components, .. } => {
                let mut c: ComponentMap = Vec::new();
                assert(comps(c@) =~= Seq::empty());
                apply_components(&mut c, components, lost);
                nodes.push(make_node(*id, c, None));
                roots.push(root);
                proof {
                    let node = plain_node(id.0, applied(Seq::empty(), comps(components@), broken, components@.len()));
                    assert(nodes_of(nodes@) =~= before.push(node));
                    assert(nodes_of(nodes@).skip(base as int) =~= sub0.push(node));
                    assert(ints(roots@) =~= roots0.push(root as int));
                    assert(nodes_of(nodes@).take(base as int) =~= nodes0);
                }
            },
            SceneRecord::Instance { id, source, overrides, .. } => {
                let instance: SceneInstance = SceneInstance {
                    source: source.clone(),
                    overrides: copy_overrides(overrides),
                };
                nodes.push(make_node(*id, Vec::new(), Some(instance)));
                let ghost node = instance_node(id.0, source@, overs(overrides@));
                proof {
                    assert(comps(Seq::<(String, String)>::empty()) =~= Seq::empty());
                    assert(nodes_of(nodes@) =~= before.push(node));
                    assert(known(srcs, source@));
                }
                let first: usize = nodes.len();
                let ghost with_root = nodes_of(nodes@);
                let kids: Vec<usize> = match instantiate(sources, source, nodes, stack) {
                    Ok(k) => k,
                    Err(e) => {
                        proof {
                            lemma_records_fail(srcs, recs, broken, (n + 1) as nat, recs.len(), stack1, base as int, e@);
                        }
                        return Err(e);
                    },
                };
                let ghost sub = nodes_of(nodes@).skip(first as int);
                proof {
                    lemma_file_shape(srcs, source@, stack1, first as int);
                    assert(nodes_of(nodes@) =~= with_root + sub);
                }
                mark_children(nodes, &kids, first, root);
                let ghost sub1 = marked(sub, ints(kids@), first as int, root as int, kids@.len());
                proof {
                    lemma_marked_len(sub, ints(kids@), first as int, root as int, kids@.len());
                    assert(nodes_of(nodes@) =~= with_root + sub1);
                    assert(nodes_of(nodes@).skip(first as int) =~= sub1);
                    assert(nodes_of(nodes@).take(first as int) =~= with_root);
                }
                apply_overrides(nodes, &kids, first, overrides, lost);
                roots.push(root);
                proof {
                    let sub2 = overridden(sub1, ints(kids@), first as int, overs(overrides@), broken, overrides@.len());
                    lemma_overridden_len(sub1, ints(kids@), first as int, overs(overrides@), broken, overrides@.len());
                    assert(nodes_of(nodes@) =~= with_root + sub2);
                    assert(nodes_of(nodes@).skip(base as int) =~= sub0.push(node) + sub2);
                    assert(ints(roots@) =~= roots0.push(root as int));
                    assert(nodes_of(nodes@).take(base as int) =~= nodes0);
                }
            },
        }
        n = n + 1;
    }
    let ghost loaded = nodes_of(nodes@).skip(base as int);
    proof {
        lemma_records_shape(srcs, recs, broken, recs.len(), stack1, base as int);
    }
    link_parents(nodes, &roots, base, &file.records);
    proof {
        lemma_linked_len(loaded, ints(roots@), base as int, recs, recs.len());
        assert(nodes_of(nodes@).skip(base as int) =~= linked(loaded, ints(roots@), base as int, recs, recs.len()));
        assert(nodes_of(nodes@).take(base as int) =~= nodes0);
    }
    let _gone = stack.pop();
    assert(paths_of(stack@) =~= stack1.drop_last());
    assert(stack1.drop_last() =~= stack0);
    Ok(roots)
}

/// A record that cannot be loaded keeps those after it from being loaded.
proof fn lemma_records_fail(
    sources: Seq<Source>,
    records: Seq<Record>,
    broken: Comps,
    n: nat,
    m: nat,
    stack: Seq<Seq<char>>,
    base: int,
    e: LoadError,
)
    requires
        n <= m,
        load_records(sources, records, broken, n, stack, base) == Err::<(Seq<Node>, Seq<int>), LoadError>(e),
    ensures
        load_records(sources, records, broken, m, stack, base) == Err::<(Seq<Node>, Seq<int>), LoadError>(e),
    decreases m,
{
    if m > n {
        lemma_records_fail(sources, records, broken, n, (m - 1) as nat, stack, base, e);
    }
}

/// Load a scene into an empty world: its nodes, the places of its records' own nodes, and its next free id.
pub fn load_scene(sources: &Vec<SceneSource>, path: &String) -> (r: Result<
    (Vec<SceneNode>, Vec<usize>, u64),
    SceneLoadError,
>)
    requires
        complete(sources_of(sources@)),
        known(sources_of(sources@), path@),
    ensures
        match r {
            Err(e) => load_file(sources_of(sources@), path@, Seq::empty(), 0) == Err::<
                (Seq<Node>, Seq<int>),
                LoadError,
            >(e@),
            Ok((nodes, roots, next_id)) => {
                &&& load_file(sources_of(sources@), path@, Seq::empty(), 0) == Ok::<(Seq<Node>, Seq<int>), LoadError>(
                    (nodes_of(nodes@), ints(roots@)),
                )
                &&& find_source(sources_of(sources@), path@, sources@.len()) matches Some(k) && sources@[k].file
                    matches Ok(f) && next_id == f.next_id
            },
        },
{
    let at: usize = match source_place(sources, path) {
        Some(k) => k,
        None => 0,
    };
    assert(sources_of(sources@)[at as int] == sources@[at as int]@);
    let next_id: u64 = match &sources[at].file {
        Ok(f) => f.next_id,
        Err(_) => 0,
    };
    let mut nodes: Vec<SceneNode> = Vec::new();
    let mut stack: Vec<String> = Vec::new();
    assert(paths_of(stack@) =~= Seq::empty());
    match instantiate(sources, path, &mut nodes, &mut stack) {
        Err(e) => Err(e),
        Ok(roots) => {
            assert(nodes_of(nodes@).skip(0) =~= nodes_of(nodes@));
            Ok((nodes, roots, next_id))
        },
    }
}

/// The scenes that the first `n` records are instances of, but that are not among the files.
pub open spec fn unread_in(sources: Seq<Source>, records: Seq<Record>, n: nat) -> Seq<Seq<char>>
    decreases n,
{
    if n == 0 {
        Seq::empty()
    } else {
        let before = unread_in(sources, records, (n - 1) as nat);
        match records[n - 1] {
            Record::Instance { source, .. } => if known(sources, source) {
                before
            } else {
                before.push(source)
            },
            Record::Entity { .. } => before,
        }
    }
}

/// The scenes that the first `n` files have instances of, but that are not among the files.
pub open spec fn unread(sources: Seq<Source>, n: nat) -> Seq<Seq<char>>
    decreases n,
{
    if n == 0 {
        Seq::empty()
    } else {
        unread(sources, (n - 1) as nat) + (match sources[n - 1].file {
            Ok(records) => unread_in(sources, records, records.len()),
            Err(_) => Seq::empty(),
        })
    }
}

/// Nothing of the records is unread just where every scene that they are instances of is among the files.
proof fn lemma_unread_in(sources: Seq<Source>, records: Seq<Record>, n: nat)
    requires
        n <= records.len(),
    ensures
        unread_in(sources, records, n).len() == 0 <==> (forall|k: int|
            0 <= k < n ==> ((#[trigger] records[k]) matches Record::Instance { source, .. } ==> known(
                sources,
                source,
            ))),
    decreases n,
{
    if n > 0 {
        lemma_unread_in(sources, records, (n - 1) as nat);
        let last = records[n - 1];
        assert(unread_in(sources, records, n).len() == 0 <==> unread_in(sources, records, (n - 1) as nat).len() == 0
            && (last matches Record::Instance { source, .. } ==> known(sources, source)));
    }
}

/// Nothing of the files is unread just where they are complete.
proof fn lemma_unread(sources: Seq<Source>, n: nat)
    requires
        n <= sources.len(),
    ensures
        unread(sources, n).len() == 0 <==> (forall|i: int|
            0 <= i < n ==> ((#[trigger] sources[i]).file matches Ok(records) ==> all_known(sources, records))),
    decreases n,
{
    if n > 0 {
        lemma_unread(sources, (n - 1) as nat);
        let last = sources[n - 1];
        if let Ok(records) = last.file {
            lemma_unread_in(sources, records, records.len());
        }
        assert(unread(sources, n).len() == 0 <==> unread(sources, (n - 1) as nat).len() == 0 && (
        last.file matches Ok(records) ==> all_known(sources, records)));
    }
}

/// The scenes that the files have instances of, but that are not among them: what is still to be read before a
/// scene can be loaded. There are none just where the files are complete.
pub fn missing_sources(sources: &Vec<SceneSource>) -> (out: Vec<String>)
    ensures
        paths_of(out@) == unread(sources_of(sources@), sources@.len()),
        out@.len() == 0 <==> complete(sources_of(sources@)),
{
    let ghost srcs = sources_of(sources@);
    let mut out: Vec<String> = Vec::new();
    let mut i: usize = 0;
    assert(paths_of(out@) =~= Seq::empty());
    while i < sources.len()
        invariant
            i <= sources@.len(),
            srcs == sources_of(sources@),
            paths_of(out@) == unread(srcs, i as nat),
        decreases sources@.len() - i,
    {
        assert(srcs[i as int] == sources@[i as int]@);
        let ghost before = paths_of(out@);
        if let Ok(file) = &sources[i].file {
            let ghost recs = records_of(file.records@);
            let mut n: usize = 0;
            assert(before + Seq::<Seq<char>>::empty() =~= before);
            while n < file.records.len()
                invariant
                    n <= file.records@.len(),
                    srcs == sources_of(sources@),
                    recs == records_of(file.records@),
                    paths_of(out@) == before + unread_in(srcs, recs, n as nat),
                decreases file.records@.len() - n,
            {
                assert(recs[n as int] == file.records@[n as int]@);
                if let SceneRecord::Instance { source, .. } = &file.records[n] {
                    match source_place(sources, source) {
                        Some(_) => {},
                        None => {
                            let ghost listed = out@;
                            out.push(source.clone());
                            proof {
                                assert(paths_of(out@) =~= paths_of(listed).push(source@));
                                assert((before + unread_in(srcs, recs, n as nat)).push(source@) =~= before
                                    + unread_in(srcs, recs, n as nat).push(source@));
                            }
                        },
                    }
                }
                n = n + 1;
            }
        } else {
            assert(before + Seq::<Seq<char>>::empty() =~= before);
        }
        i = i + 1;
    }
    proof {
        lemma_unread(srcs, srcs.len());
    }
    out
}

/// Whether a node is that of a record, before it is tied to its parent.
pub open spec fn node_of_record(n: Node, r: Record, broken: Comps) -> bool {
    match r {
        Record::Entity { id, components, .. } => n == plain_node(id, applied(Seq::empty(), components, broken, components.len())),
        Record::Instance { id, source, overrides, .. } => n == instance_node(id, source, overrides),
    }
}

/// Whether the listed nodes are those of the records, and all others were made for an instance.
spec fn nodes_fit(
    nodes: Seq<Node>,
    roots: Seq<int>,
    base: int,
    records: Seq<Record>,
    broken: Comps,
    n: nat,
) -> bool {
    &&& forall|i: int| 0 <= i < n ==> node_of_record(nodes[#[trigger] roots[i] - base], records[i], broken)
    &&& others_made(nodes, roots, base)
}

/// Whether all nodes but those listed were made for an instance.
spec fn others_made(nodes: Seq<Node>, roots: Seq<int>, base: int) -> bool {
    forall|j: int| 0 <= j < nodes.len() && !roots.contains(base + j) ==> (#[trigger] nodes[j]).instance_child is Some
}

proof fn lemma_marked_nodes(nodes: Seq<Node>, list: Seq<int>, base: int, root: int, n: nat)
    requires
        n <= list.len(),
    ensures
        marked(nodes, list, base, root, n).len() == nodes.len(),
        forall|j: int|
            0 <= j < nodes.len() && (nodes[j].instance_child is Some || (exists|i: int|
                0 <= i < n && #[trigger] list[i] == base + j)) ==> (#[trigger] marked(
                nodes,
                list,
                base,
                root,
                n,
            )[j]).instance_child is Some,
    decreases n,
{
    if n > 0 {
        let m = (n - 1) as nat;
        lemma_marked_nodes(nodes, list, base, root, m);
        let before = marked(nodes, list, base, root, m);
        let after = marked(nodes, list, base, root, n);
        assert forall|j: int|
            0 <= j < nodes.len() && (nodes[j].instance_child is Some || (exists|i: int|
                0 <= i < n && #[trigger] list[i] == base + j)) implies (#[trigger] after[j]).instance_child is Some by {
            if j != list[m as int] - base {
                if !(nodes[j].instance_child is Some) {
                    let i = choose|i: int| 0 <= i < n && #[trigger] list[i] == base + j;
                    assert(i < m);
                    assert(list[i] == base + j);
                }
                assert(before[j].instance_child is Some);
            }
        }
    }
}

proof fn lemma_overridden_nodes(nodes: Seq<Node>, list: Seq<int>, base: int, overrides: Overrides, broken: Comps, n: nat)
    ensures
        overridden(nodes, list, base, overrides, broken, n).len() == nodes.len(),
        forall|j: int|
            0 <= j < nodes.len() ==> (#[trigger] overridden(nodes, list, base, overrides, broken, n)[j]).instance_child
                == nodes[j].instance_child,
    decreases n,
{
    if n > 0 {
        lemma_overridden_nodes(nodes, list, base, overrides, broken, (n - 1) as nat);
    }
}

proof fn lemma_linked_nodes(nodes: Seq<Node>, roots: Seq<int>, base: int, records: Seq<Record>, n: nat)
    ensures
        linked(nodes, roots, base, records, n).len() == nodes.len(),
        forall|j: int|
            0 <= j < nodes.len() ==> (Node { parent: nodes[j].parent, ..#[trigger] linked(
                nodes,
                roots,
                base,
                records,
                n,
            )[j] }) == nodes[j],
    decreases n,
{
    if n > 0 {
        lemma_linked_nodes(nodes, roots, base, records, (n - 1) as nat);
    }
}

proof fn lemma_records_nodes(
    sources: Seq<Source>,
    records: Seq<Record>,
    broken: Comps,
    n: nat,
    stack: Seq<Seq<char>>,
    base: int,
)
    requires
        n <= records.len(),
    ensures
        load_records(sources, records, broken, n, stack, base) matches Ok((nodes, roots)) ==> nodes_fit(
            nodes,
            roots,
            base,
            records,
            broken,
            n,
        ),
    decreases sources.len() + 1 - stack.len(), n,
{
    if n > 0 {
        let m = (n - 1) as nat;
        lemma_records_nodes(sources, records, broken, m, stack, base);
        lemma_records_shape(sources, records, broken, m, stack, base);
        lemma_records_shape(sources, records, broken, n, stack, base);
        if let Ok((nodes, roots)) = load_records(sources, records, broken, m, stack, base) {
            let root = base + nodes.len();
            if let Ok((all, places)) = load_records(sources, records, broken, n, stack, base) {
                assert(places == roots.push(root));
                assert(all.len() > nodes.len());
                assert forall|j: int| 0 <= j < nodes.len() implies all[j] == #[trigger] nodes[j] by {}
                assert(node_of_record(all[nodes.len() as int], records[m as int], broken));
                if let Record::Instance { id, source, overrides, .. } = records[m as int] {
                    lemma_file_nodes(sources, source, stack, root + 1);
                    if let Ok((sub, kids)) = load_file(sources, source, stack, root + 1) {
                        let sub1 = marked(sub, kids, root + 1, root, kids.len());
                        lemma_marked_nodes(sub, kids, root + 1, root, kids.len());
                        lemma_overridden_nodes(sub1, kids, root + 1, overrides, broken, overrides.len());
                        let sub2 = overridden(sub1, kids, root + 1, overrides, broken, overrides.len());
                        assert forall|j: int| nodes.len() < j < all.len() implies (#[trigger] all[j]).instance_child
                            is Some by {
                            let k = j - nodes.len() - 1;
                            assert(all[j] == sub2[k]);
                            assert(sub2[k].instance_child == sub1[k].instance_child);
                            if !(sub[k].instance_child is Some) {
                                assert(kids.contains(root + 1 + k));
                                let i = choose|i: int| 0 <= i < kids.len() && kids[i] == root + 1 + k;
                                assert(kids[i] == root + 1 + k);
                            }
                            assert(sub1[k].instance_child is Some);
                        }
                    }
                }
                assert forall|i: int| 0 <= i < n implies node_of_record(all[#[trigger] places[i] - base], records[i], broken) by {
                    if i < m {
                        assert(places[i] == roots[i]);
                        assert(all[roots[i] - base] == nodes[roots[i] - base]);
                    }
                }
                assert forall|j: int| 0 <= j < all.len() && !places.contains(base + j) implies (
                #[trigger] all[j]).instance_child is Some by {
                    if j == nodes.len() {
                        assert(places[m as int] == base + j);
                    } else if j < nodes.len() {
                        if roots.contains(base + j) {
                            let i = choose|i: int| 0 <= i < roots.len() && roots[i] == base + j;
                            assert(places[i] == base + j);
                        }
                        assert(all[j] == nodes[j]);
                    } else {
                        assert(records[m as int] is Instance);
                    }
                }
            }
        }
    }
}

proof fn lemma_file_nodes(sources: Seq<Source>, path: Seq<char>, stack: Seq<Seq<char>>, base: int)
    ensures
        load_file(sources, path, stack, base) matches Ok((nodes, roots)) ==> others_made(nodes, roots, base),
    decreases sources.len() + 1 - stack.len(), 0nat,
{
    if !(is_loading(stack, path) || stack.len() > sources.len()) {
        if let Some(i) = find_source(sources, path, sources.len()) {
            let broken = sources[i].broken;
            if let Ok(records) = sources[i].file {
                lemma_records_nodes(sources, records, broken, records.len(), stack.push(path), base);
                if let Ok((nodes, roots)) = load_records(sources, records, broken, records.len(), stack.push(path), base) {
                    lemma_linked_nodes(nodes, roots, base, records, records.len());
                    let out = linked(nodes, roots, base, records, records.len());
                    assert forall|j: int| 0 <= j < out.len() && !roots.contains(base + j) implies (
                    #[trigger] out[j]).instance_child is Some by {
                        assert(nodes[j].instance_child is Some);
                    }
                }
            }
        }
    }
}

/// Whether the records are in the form in which a world is written: the ids ascend, each parent is a record of
/// the file, and no component occurs twice.
pub open spec fn canonical(records: Seq<Record>) -> bool {
    &&& forall|i: int, j: int|
        0 <= i < j < records.len() ==> (#[trigger] records[i]).id() < (#[trigger] records[j]).id()
    &&& forall|i: int|
        0 <= i < records.len() ==> ((#[trigger] records[i]).parent() matches Some(p) ==> has_id(records, p))
    &&& forall|i: int|
        0 <= i < records.len() ==> ((#[trigger] records[i]) matches Record::Entity { components, .. }
            ==> distinct_paths(components))
}

/// Whether a record has the id.
pub open spec fn has_id(records: Seq<Record>, id: u64) -> bool {
    exists|k: int| 0 <= k < records.len() && (#[trigger] records[k]).id() == id
}

/// The next free id of a file in canonical form.
pub open spec fn next_free(records: Seq<Record>) -> int {
    if records.len() == 0 {
        1
    } else {
        records.last().id() + 1
    }
}

proof fn lemma_with_id(nodes: Seq<Node>, list: Seq<int>, base: int, id: u64, k: int, n: nat)
    requires
        0 <= k < n <= list.len(),
        nodes[list[k] - base].local == id,
        forall|i: int| 0 <= i < list.len() && i != k ==> nodes[#[trigger] list[i] - base].local != id,
    ensures
        with_id(nodes, list, base, id, n) == Some(list[k]),
    decreases n,
{
    if k < n - 1 {
        assert(nodes[list[n - 1] - base].local != id);
        lemma_with_id(nodes, list, base, id, k, (n - 1) as nat);
    }
}

/// What tying to parents does to the node of record `k`.
proof fn lemma_linked_parent(
    nodes: Seq<Node>,
    roots: Seq<int>,
    base: int,
    records: Seq<Record>,
    n: nat,
    k: int,
)
    requires
        0 <= k < n <= records.len(),
        roots.len() == records.len(),
        places_ok(roots, base, nodes.len() as int),
        canonical(records),
        forall|i: int| 0 <= i < records.len() ==> nodes[#[trigger] roots[i] - base].local == records[i].id(),
        nodes[roots[k] - base].parent is None,
    ensures
        match records[k].parent() {
            None => linked(nodes, roots, base, records, n)[roots[k] - base].parent is None,
            Some(p) => exists|m: int|
                0 <= m < records.len() && (#[trigger] records[m]).id() == p && linked(
                    nodes,
                    roots,
                    base,
                    records,
                    n,
                )[roots[k] - base].parent == Some(roots[m]),
        },
    decreases n,
{
    let prev = (n - 1) as nat;
    let before = linked(nodes, roots, base, records, prev);
    lemma_linked_nodes(nodes, roots, base, records, prev);
    if k < n - 1 {
        lemma_linked_parent(nodes, roots, base, records, prev, k);
        assert(roots[k] < roots[n - 1]);
    } else {
        lemma_linked_untouched(nodes, roots, base, records, prev, k);
        if let Some(p) = records[k].parent() {
            assert(has_id(records, p));
            let m = choose|m: int| 0 <= m < records.len() && (#[trigger] records[m]).id() == p;
            assert forall|i: int| 0 <= i < roots.len() implies before[#[trigger] roots[i] - base].local
                == records[i].id() by {
                assert(nodes[roots[i] - base].local == records[i].id());
            }
            assert forall|i: int| 0 <= i < roots.len() && i != m implies before[#[trigger] roots[i] - base].local
                != p by {
                if i < m {
                    assert(records[i].id() < records[m].id());
                } else {
                    assert(records[m].id() < records[i].id());
                }
            }
            assert(before[roots[m] - base].local == p);
            lemma_with_id(before, roots, base, p, m, roots.len());
        }
    }
}

/// Tying the first `n` records leaves the nodes of the others as they are.
proof fn lemma_linked_untouched(
    nodes: Seq<Node>,
    roots: Seq<int>,
    base: int,
    records: Seq<Record>,
    n: nat,
    k: int,
)
    requires
        n <= k < roots.len(),
        places_ok(roots, base, nodes.len() as int),
    ensures
        linked(nodes, roots, base, records, n)[roots[k] - base] == nodes[roots[k] - base],
    decreases n,
{
    if n > 0 {
        lemma_linked_untouched(nodes, roots, base, records, (n - 1) as nat, k);
        lemma_linked_nodes(nodes, roots, base, records, (n - 1) as nat);
        assert(roots[n - 1] < roots[k]);
        assert(roots[n - 1] != roots[k]);
    }
}

/// Loading a file in canonical form and saving the world gives the file back: the same records, and the same next
/// free id where it is past the ids of the records. The nodes that an instance brought in are not written, only the
/// instance is. This is of a file none of whose entities has a broken component.
pub proof fn law_load_then_save(
    sources: Seq<Source>,
    path: Seq<char>,
    records: Seq<Record>,
    nodes: Seq<Node>,
    roots: Seq<int>,
    counter: u64,
    next_id: u64,
    saved: Seq<Record>,
)
    requires
        known(sources, path),
        sources[find_source(sources, path, sources.len())->0].file == Ok::<Seq<Record>, LoadError>(records),
        canonical(records),
        forall|i: int|
            0 <= i < records.len() ==> ((#[trigger] records[i]) matches Record::Entity { components, .. } ==> all_whole(
                components,
                sources[find_source(sources, path, sources.len())->0].broken,
            )),
        load_file(sources, path, Seq::empty(), 0) == Ok::<(Seq<Node>, Seq<int>), LoadError>((nodes, roots)),
        is_saved(nodes, counter, next_id, saved),
    ensures
        saved == records,
        counter >= next_free(records) ==> next_id == counter,
        counter < next_free(records) ==> next_id == next_free(records),
{
    let stack = Seq::<Seq<char>>::empty().push(path);
    let broken = sources[find_source(sources, path, sources.len())->0].broken;
    let (raw, places) = load_records(sources, records, broken, records.len(), stack, 0)->Ok_0;
    assert(places == roots);
    assert(nodes == linked(raw, roots, 0, records, records.len()));
    lemma_records_shape(sources, records, broken, records.len(), stack, 0);
    lemma_records_nodes(sources, records, broken, records.len(), stack, 0);
    lemma_linked_nodes(raw, roots, 0, records, records.len());
    assert forall|i: int| 0 <= i < records.len() implies raw[#[trigger] roots[i] - 0].local == records[i].id() by {
        assert(node_of_record(raw[roots[i] - 0], records[i], broken));
    }
    assert forall|k: int| 0 <= k < roots.len() implies record_of(nodes, #[trigger] roots[k]) == records[k] && saves(
        nodes[roots[k]],
    ) by {
        assert(node_of_record(raw[roots[k] - 0], records[k], broken));
        lemma_linked_parent(raw, roots, 0, records, records.len(), k);
        let a = nodes[roots[k]];
        let b = raw[roots[k]];
        assert(Node { parent: b.parent, ..a } == b);
        if let Record::Entity { components, .. } = records[k] {
            lemma_applied_fresh(components, broken, components.len());
            assert(components.take(components.len() as int) =~= components);
        }
        if let Some(p) = records[k].parent() {
            let m = choose|m: int|
                0 <= m < records.len() && (#[trigger] records[m]).id() == p && nodes[roots[k] - 0].parent == Some(
                    roots[m],
                );
            assert(raw[roots[m] - 0].local == p);
            assert(nodes[roots[m]].local == p);
        }
    }
    assert(is_save_order(nodes, roots)) by {
        assert forall|j: int| 0 <= j < nodes.len() && saves(#[trigger] nodes[j]) implies roots.contains(j) by {
            if !roots.contains(0 + j) {
                assert(raw[j].instance_child is Some);
                assert(Node { parent: raw[j].parent, ..nodes[j] } == raw[j]);
            }
        }
        assert forall|i: int, j: int| 0 <= i < j < roots.len() implies node_before(
            nodes,
            #[trigger] roots[i],
            #[trigger] roots[j],
        ) by {
            assert(record_of(nodes, roots[i]) == records[i]);
            assert(record_of(nodes, roots[j]) == records[j]);
            assert(records[i].id() < records[j].id());
        }
    }
    let order = choose|order: Seq<int>| #[trigger]
        is_save_order(nodes, order) && next_id == next_id_of(nodes, order, counter) && saved == order.map_values(
            |k: int| record_of(nodes, k),
        );
    law_save_order_unique(nodes, order, roots);
    assert(saved =~= records);
    if roots.len() > 0 {
        assert(record_of(nodes, roots[roots.len() - 1]) == records[roots.len() - 1]);
    }
}

/// A world whose written nodes have different ids and no component twice is written in canonical form, with a next
/// free id past the ids of the records: every parent that a record names is a record too.
pub proof fn law_saved_is_canonical(nodes: Seq<Node>, counter: u64, next_id: u64, records: Seq<Record>)
    requires
        is_saved(nodes, counter, next_id, records),
        forall|a: int, b: int|
            0 <= a < b < nodes.len() && saves(nodes[a]) && saves(nodes[b]) ==> (#[trigger] nodes[a]).local != (
            #[trigger] nodes[b]).local,
        forall|a: int|
            0 <= a < nodes.len() && saves(#[trigger] nodes[a]) ==> distinct_paths(nodes[a].components),
        ties_ok(nodes),
    ensures
        canonical(records),
        next_id >= next_free(records),
{
    let order = choose|order: Seq<int>| #[trigger]
        is_save_order(nodes, order) && next_id == next_id_of(nodes, order, counter) && records == order.map_values(
            |k: int| record_of(nodes, k),
        );
    assert forall|i: int, j: int| 0 <= i < j < records.len() implies (#[trigger] records[i]).id() < (
    #[trigger] records[j]).id() by {
        assert(node_before(nodes, order[i], order[j]));
        assert(saves(nodes[order[i]]) && saves(nodes[order[j]]));
        if order[i] < order[j] {
            assert(nodes[order[i]].local != nodes[order[j]].local);
        }
    }
    assert forall|i: int| 0 <= i < records.len() implies ((#[trigger] records[i]).parent() matches Some(p) ==> has_id(
        records,
        p,
    )) by {
        assert(saves(nodes[order[i]]));
        if let Some(q) = nodes[order[i]].parent {
            if saves(nodes[q]) {
                assert(order.contains(q));
                let k = choose|k: int| 0 <= k < order.len() && order[k] == q;
                assert(records[k] == record_of(nodes, order[k]));
                assert(records[k].id() == nodes[q].local);
            }
        }
    }
    assert forall|i: int| 0 <= i < records.len() implies ((#[trigger] records[i]) matches Record::Entity {
        components,
        ..
    } ==> distinct_paths(components)) by {
        assert(saves(nodes[order[i]]));
    }
}

/// A scene without instances loads.
pub proof fn law_plain_scene_loads(sources: Seq<Source>, path: Seq<char>, records: Seq<Record>)
    requires
        known(sources, path),
        sources[find_source(sources, path, sources.len())->0].file == Ok::<Seq<Record>, LoadError>(records),
        forall|k: int| 0 <= k < records.len() ==> #[trigger] records[k] is Entity,
    ensures
        load_file(sources, path, Seq::empty(), 0) is Ok,
{
    let broken = sources[find_source(sources, path, sources.len())->0].broken;
    lemma_records_front(sources, records, broken, records.len(), Seq::<Seq<char>>::empty().push(path));
}

/// A scene that has an instance of itself, however its path is spelled there, does not load: the records before the
/// instance being plain, it is an error that names the scene as it is spelled there.
pub proof fn law_self_instance_is_a_cycle(
    sources: Seq<Source>,
    path: Seq<char>,
    records: Seq<Record>,
    k: int,
    again: Seq<char>,
)
    requires
        known(sources, path),
        sources[find_source(sources, path, sources.len())->0].file == Ok::<Seq<Record>, LoadError>(records),
        0 <= k < records.len(),
        forall|i: int| 0 <= i < k ==> #[trigger] records[i] is Entity,
        records[k] matches Record::Instance { source, .. } && source == again,
        path_key(again) == path_key(path),
    ensures
        load_file(sources, path, Seq::empty(), 0) == Err::<(Seq<Node>, Seq<int>), LoadError>(LoadError::Cycle(again)),
{
    let stack = Seq::<Seq<char>>::empty().push(path);
    let broken = sources[find_source(sources, path, sources.len())->0].broken;
    lemma_records_front(sources, records, broken, k as nat, stack);
    assert(stack[0] == path);
    assert(is_loading(stack, again));
    let (nodes, roots) = load_records(sources, records, broken, k as nat, stack, 0)->Ok_0;
    assert(load_file(sources, again, stack, 0int + nodes.len() + 1) == Err::<(Seq<Node>, Seq<int>), LoadError>(
        LoadError::Cycle(again),
    ));
    lemma_records_fail(sources, records, broken, (k + 1) as nat, records.len(), stack, 0, LoadError::Cycle(again));
}

proof fn lemma_records_front(
    sources: Seq<Source>,
    records: Seq<Record>,
    broken: Comps,
    n: nat,
    stack: Seq<Seq<char>>,
)
    requires
        n <= records.len(),
        forall|i: int| 0 <= i < n ==> #[trigger] records[i] is Entity,
    ensures
        load_records(sources, records, broken, n, stack, 0) is Ok,
    decreases n,
{
    if n > 0 {
        lemma_records_front(sources, records, broken, (n - 1) as nat, stack);
        assert(records[n - 1] is Entity);
    }
}

} // verus!
