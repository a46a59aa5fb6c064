//! The records of a scene file and the nodes of a world, with their models.

use vstd::prelude::*;

verus! {

/// The stable id of an entity in a scene file.
#[derive(Clone, Copy, Debug, PartialEq, Eq, Structural, Hash)]
pub struct LocalId(pub u64);

/// The components of an entity: the path of each component's type, and its value as text.
pub type ComponentMap = Vec<(String, String)>;

/// The components of an entity as pairs of texts.
pub type Comps = Seq<(Seq<char>, Seq<char>)>;

/// The overrides of an instance: the id of an entity of the source, and the components it gets.
pub type Overrides = Seq<(u64, Comps)>;

/// The model of a component list.
pub open spec fn comps(list: Seq<(String, String)>) -> Comps {
    list.map_values(|p: (String, String)| (p.0@, p.1@))
}

/// The model of a list of overrides.
pub open spec fn overs(list: Seq<(u64, ComponentMap)>) -> Overrides {
    list.map_values(|p: (u64, ComponentMap)| (p.0, comps(p.1@)))
}

/// One record of a scene file.
#[derive(Debug)]
pub enum SceneRecord {
    /// An entity and its components.
    Entity { id: LocalId, parent: Option<u64>, components: ComponentMap },
    /// An instance of another scene. The overrides are keyed by the ids of that scene's entities, in
    /// ascending order.
    Instance { id: LocalId, parent: Option<u64>, source: String, overrides: Vec<(u64, ComponentMap)> },
}

/// The model of a record.
#[verifier::ext_equal]
pub enum Record {
    Entity { id: u64, parent: Option<u64>, components: Comps },
    Instance { id: u64, parent: Option<u64>, source: Seq<char>, overrides: Overrides },
}

impl Record {
    /// The id of a record.
    pub open spec fn id(self) -> u64 {
        match self {
            Record::Entity { id, .. } => id,
            Record::Instance { id, .. } => id,
        }
    }

    /// The id of a record's parent.
    pub open spec fn parent(self) -> Option<u64> {
        match self {
            Record::Entity { parent, .. } => parent,
            Record::Instance { parent, .. } => parent,
        }
    }
}

impl View for SceneRecord {
    type V = Record;

    open spec fn view(&self) -> Record {
        match *self {
            SceneRecord::Entity { id, parent, components } => Record::Entity {
                id: id.0,
                parent,
                components: comps(components@),
            },
            SceneRecord::Instance { id, parent, source, overrides } => Record::Instance {
                id: id.0,
                parent,
                source: source@,
                overrides: overs(overrides@),
            },
        }
    }
}

impl SceneRecord {
    /// The id of the record.
    pub fn id(&self) -> (r: LocalId)
        ensures
            r.0 == self@.id(),
    {
        match self {
            SceneRecord::Entity { id, .. } => *id,
            SceneRecord::Instance { id, .. } => *id,
        }
    }

    /// The id of the record's parent.
    pub fn parent(&self) -> (r: Option<u64>)
        ensures
            r == self@.parent(),
    {
        match self {
            SceneRecord::Entity { parent, .. } => *parent,
            SceneRecord::Instance { parent, .. } => *parent,
        }
    }
}

/// The camera of the editor, as bit patterns of floats.
#[derive(Clone, Copy, Debug, Default, PartialEq, Eq)]
pub struct EditorCamera {
    pub target: [u32; 3],
    pub distance: u32,
    pub yaw: u32,
    pub pitch: u32,
}

/// A scene file: the next free id, the records, and the camera where one was saved.
#[derive(Debug)]
pub struct SceneFile {
    pub next_id: u64,
    pub records: Vec<SceneRecord>,
    pub editor_camera: Option<EditorCamera>,
}

/// The models of a list of records.
pub open spec fn records_of(list: Seq<SceneRecord>) -> Seq<Record> {
    list.map_values(|r: SceneRecord| r@)
}

/// On the root of an instance: the scene it is of, and its overrides.
#[derive(Debug)]
pub struct SceneInstance {
    pub source: String,
    pub overrides: Vec<(u64, ComponentMap)>,
}

/// An entity of a world: its id and components, what marks it, and its ties to other nodes, by their places
/// in the list of nodes.
#[derive(Debug)]
pub struct SceneNode {
    pub local: LocalId,
    pub components: ComponentMap,
    /// The parent node.
    pub parent: Option<usize>,
    /// The root of the instance that this node was made for.
    pub instance_child: Option<usize>,
    /// What this node is an instance of.
    pub instance: Option<SceneInstance>,
    /// It belongs to the scene.
    pub scene_entity: bool,
    /// It belongs to the editor.
    pub editor_entity: bool,
    /// It is rebuilt at run time.
    pub non_serializable: bool,
    /// It only shows something in the editor.
    pub skip_serialization: bool,
    /// It is hidden from the editor.
    pub editor_hidden: bool,
}

/// The model of a node.
#[verifier::ext_equal]
pub struct Node {
    pub local: u64,
    pub components: Comps,
    pub parent: Option<int>,
    pub instance_child: Option<int>,
    pub instance: Option<(Seq<char>, Overrides)>,
    pub scene_entity: bool,
    /// One of the marks that keep a node out of files.
    pub barred: bool,
}

impl View for SceneNode {
    type V = Node;

    open spec fn view(&self) -> Node {
        Node {
            local: self.local.0,
            components: comps(self.components@),
            parent: match self.parent {
                Some(p) => Some(p as int),
                None => None,
            },
            instance_child: match self.instance_child {
                Some(p) => Some(p as int),
                None => None,
            },
            instance: match self.instance {
                Some(i) => Some((i.source@, overs(i.overrides@))),
                None => None,
            },
            scene_entity: self.scene_entity,
            barred: self.editor_entity || self.non_serializable || self.skip_serialization || self.editor_hidden,
        }
    }
}

/// The models of a list of nodes.
pub open spec fn nodes_of(list: Seq<SceneNode>) -> Seq<Node> {
    list.map_values(|n: SceneNode| n@)
}

/// The place of a component among the first `n` of a list.
pub open spec fn find_path(list: Comps, path: Seq<char>, n: nat) -> Option<int>
    decreases n,
{
    if n == 0 {
        None
    } else {
        match find_path(list, path, (n - 1) as nat) {
            Some(k) => Some(k),
            None => if list[n - 1].0 == path {
                Some(n - 1)
            } else {
                None
            },
        }
    }
}

/// A component list with one more component: it takes the place of the one with the same path, or goes to the
/// end.
pub open spec fn put(list: Comps, path: Seq<char>, value: Seq<char>) -> Comps {
    match find_path(list, path, list.len()) {
        Some(k) => list.update(k, (path, value)),
        None => list.push((path, value)),
    }
}

/// A component list with the first `n` components of another put onto it, but for those that are broken: they are
/// skipped.
pub open spec fn applied(base: Comps, more: Comps, broken: Comps, n: nat) -> Comps
    decreases n,
{
    if n == 0 {
        base
    } else {
        let before = applied(base, more, broken, (n - 1) as nat);
        if broken.contains(more[n - 1]) {
            before
        } else {
            put(before, more[n - 1].0, more[n - 1].1)
        }
    }
}

/// Whether none of the components is broken.
pub open spec fn all_whole(list: Comps, broken: Comps) -> bool {
    forall|i: int| 0 <= i < list.len() ==> !broken.contains(#[trigger] list[i])
}

/// Whether no path occurs twice.
pub open spec fn distinct_paths(list: Comps) -> bool {
    forall|i: int, j: int| 0 <= i < j < list.len() ==> (#[trigger] list[i]).0 != (#[trigger] list[j]).0
}

/// What finding a component says.
pub proof fn lemma_find_path(list: Comps, path: Seq<char>, n: nat)
    requires
        n <= list.len(),
    ensures
        find_path(list, path, n) matches Some(k) ==> 0 <= k < n && list[k].0 == path,
        find_path(list, path, n) is None ==> forall|i: int| 0 <= i < n ==> (#[trigger] list[i]).0 != path,
    decreases n,
{
    if n > 0 {
        lemma_find_path(list, path, (n - 1) as nat);
    }
}

/// Putting a component keeps paths from occurring twice.
pub proof fn lemma_put_distinct(list: Comps, path: Seq<char>, value: Seq<char>)
    requires
        distinct_paths(list),
    ensures
        distinct_paths(put(list, path, value)),
{
    lemma_find_path(list, path, list.len());
}

/// A list of distinct components, none of them broken, put onto nothing, is that list.
pub proof fn lemma_applied_fresh(more: Comps, broken: Comps, n: nat)
    requires
        distinct_paths(more),
        all_whole(more, broken),
        n <= more.len(),
    ensures
        applied(Seq::empty(), more, broken, n) == more.take(n as int),
    decreases n,
{
    if n == 0 {
        assert(more.take(0) =~= Seq::empty());
    } else {
        let k = (n - 1) as nat;
        lemma_applied_fresh(more, broken, k);
        assert(!broken.contains(more[k as int]));
        let base = more.take(k as int);
        lemma_find_path(base, more[k as int].0, base.len());
        if let Some(j) = find_path(base, more[k as int].0, base.len()) {
            assert(base[j].0 == more[j].0);
        }
        assert(more.take(n as int) =~= base.push(more[k as int]));
    }
}

/// The value of a component in a list.
pub open spec fn value_of(list: Comps, path: Seq<char>) -> Option<Seq<char>> {
    match find_path(list, path, list.len()) {
        Some(k) => Some(list[k].1),
        None => None,
    }
}

/// The last value among the first `n` components of a list that a component gets from it: broken ones give none.
pub open spec fn given_value(more: Comps, broken: Comps, n: nat, path: Seq<char>) -> Option<Seq<char>>
    decreases n,
{
    if n == 0 {
        None
    } else if more[n - 1].0 == path && !broken.contains(more[n - 1]) {
        Some(more[n - 1].1)
    } else {
        given_value(more, broken, (n - 1) as nat, path)
    }
}

/// What is put onto a component list wins, and a component that is given no value, or only broken ones, stays as it
/// was.
pub proof fn law_put_values_win(base: Comps, more: Comps, broken: Comps, n: nat, path: Seq<char>)
    requires
        n <= more.len(),
    ensures
        value_of(applied(base, more, broken, n), path) == (match given_value(more, broken, n, path) {
            Some(v) => Some(v),
            None => value_of(base, path),
        }),
    decreases n,
{
    if n > 0 {
        let k = (n - 1) as nat;
        law_put_values_win(base, more, broken, k, path);
        lemma_put_value(applied(base, more, broken, k), more[k as int].0, more[k as int].1, path);
    }
}

/// Putting a component gives it its value and leaves the others.
proof fn lemma_put_value(list: Comps, q: Seq<char>, v: Seq<char>, path: Seq<char>)
    ensures
        value_of(put(list, q, v), path) == (if path == q {
            Some(v)
        } else {
            value_of(list, path)
        }),
{
    let out = put(list, q, v);
    lemma_find_path(list, q, list.len());
    lemma_find_path(list, path, list.len());
    lemma_same_paths(list, out, path, list.len());
}

/// Finding goes by the paths alone.
proof fn lemma_same_paths(a: Comps, b: Comps, path: Seq<char>, n: nat)
    requires
        n <= a.len(),
        n <= b.len(),
        forall|i: int| 0 <= i < n ==> (#[trigger] a[i]).0 == b[i].0,
    ensures
        find_path(a, path, n) == find_path(b, path, n),
    decreases n,
{
    if n > 0 {
        lemma_same_paths(a, b, path, (n - 1) as nat);
        assert(a[n - 1].0 == b[n - 1].0);
    }
}

/// Put a component onto a list.
pub fn put_component(list: &mut ComponentMap, path: &String, value: &String)
    ensures
        comps(final(list)@) == put(comps(old(list)@), path@, value@),
{
    let ghost before = comps(list@);
    let mut i: usize = 0;
    while i < list.len()
        invariant
            i <= list@.len(),
            list@ == old(list)@,
            before == comps(list@),
            find_path(before, path@, i as nat) is None,
        decreases list@.len() - i,
    {
        assert(before[i as int] == (list@[i as int].0@, list@[i as int].1@));
        if list[i].0 == *path {
            list.set(i, (path.clone(), value.clone()));
            proof {
                assert(find_path(before, path@, (i + 1) as nat) == Some(i as int));
                lemma_find_stays(before, path@, (i + 1) as nat, before.len());
                assert(comps(list@) =~= before.update(i as int, (path@, value@)));
            }
            return;
        }
        i = i + 1;
    }
    list.push((path.clone(), value.clone()));
    assert(comps(list@) =~= before.push((path@, value@)));
}

proof fn lemma_find_stays(list: Comps, path: Seq<char>, n: nat, m: nat)
    requires
        n <= m,
        find_path(list, path, n) is Some,
    ensures
        find_path(list, path, m) == find_path(list, path, n),
    decreases m,
{
    if m > n {
        lemma_find_stays(list, path, n, (m - 1) as nat);
    }
}

/// Whether a component is in a list.
fn has_component(list: &ComponentMap, path: &String, value: &String) -> (b: bool)
    ensures
        b == comps(list@).contains((path@, value@)),
{
    let mut i: usize = 0;
    while i < list.len()
        invariant
            i <= list@.len(),
            forall|k: int| 0 <= k < i ==> #[trigger] comps(list@)[k] != (path@, value@),
        decreases list@.len() - i,
    {
        assert(comps(list@)[i as int] == (list@[i as int].0@, list@[i as int].1@));
        if list[i].0 == *path && list[i].1 == *value {
            return true;
        }
        i = i + 1;
    }
    false
}

/// Put the components of a list onto another, but for those that are broken: what a broken one would replace stays.
pub fn apply_components(list: &mut ComponentMap, more: &ComponentMap, broken: &ComponentMap)
    ensures
        comps(final(list)@) == applied(comps(old(list)@), comps(more@), comps(broken@), more@.len()),
{
    let mut i: usize = 0;
    while i < more.len()
        invariant
            i <= more@.len(),
            comps(list@) == applied(comps(old(list)@), comps(more@), comps(broken@), i as nat),
        decreases more@.len() - i,
    {
        assert(comps(more@)[i as int] == (more@[i as int].0@, more@[i as int].1@));
        if !has_component(broken, &more[i].0, &more[i].1) {
            put_component(list, &more[i].0, &more[i].1);
        }
        i = i + 1;
    }
}

/// A copy of a component list.
pub fn copy_components(list: &ComponentMap) -> (out: ComponentMap)
    ensures
        comps(out@) == comps(list@),
{
    let mut out: ComponentMap = Vec::new();
    let mut i: usize = 0;
    while i < list.len()
        invariant
            i <= list@.len(),
            out@.len() == i,
            forall|k: int| 0 <= k < i ==> (#[trigger] out@[k]).0@ == list@[k].0@ && out@[k].1@ == list@[k].1@,
        decreases list@.len() - i,
    {
        out.push((list[i].0.clone(), list[i].1.clone()));
        i = i + 1;
    }
    assert(comps(out@) =~= comps(list@));
    out
}

/// A copy of a list of overrides.
pub fn copy_overrides(list: &Vec<(u64, ComponentMap)>) -> (out: Vec<(u64, ComponentMap)>)
    ensures
        overs(out@) == overs(list@),
{
    let mut out: Vec<(u64, ComponentMap)> = Vec::new();
    let mut i: usize = 0;
    while i < list.len()
        invariant
            i <= list@.len(),
            out@.len() == i,
            forall|k: int|
                0 <= k < i ==> (#[trigger] out@[k]).0 == list@[k].0 && comps(out@[k].1@) == comps(list@[k].1@),
        decreases list@.len() - i,
    {
        out.push((list[i].0, copy_components(&list[i].1)));
        i = i + 1;
    }
    assert(overs(out@) =~= overs(list@));
    out
}

/// A record stands for what is in the file: its id, its parent's, and its components or the scene and the overrides of an
/// instance, each text as it is and in its order.
pub proof fn law_records_stand_for_the_file(list: Seq<SceneRecord>, i: int)
    requires
        0 <= i < list.len(),
    ensures
        records_of(list).len() == list.len(),
        match list[i] {
            SceneRecord::Entity { id, parent, components } => {
                &&& records_of(list)[i] matches Record::Entity { id: a, parent: b, components: c }
                &&& a == id.0 && b == parent && c.len() == components@.len() && forall|k: int|
                    0 <= k < c.len() ==> #[trigger] c[k] == (components@[k].0@, components@[k].1@)
            },
            SceneRecord::Instance { id, parent, source, overrides } => {
                &&& records_of(list)[i] matches Record::Instance { id: a, parent: b, source: s, overrides: o }
                &&& a == id.0 && b == parent && s == source@ && o.len() == overrides@.len() && forall|k: int|
                    0 <= k < o.len() ==> (#[trigger] o[k]).0 == overrides@[k].0 && o[k].1 == comps(overrides@[k].1@)
            },
        },
        records_of(list)[i] matches Record::Entity { id, parent, .. } ==> records_of(list)[i].id() == id
            && records_of(list)[i].parent() == parent,
        records_of(list)[i] matches Record::Instance { id, parent, .. } ==> records_of(list)[i].id() == id
            && records_of(list)[i].parent() == parent,
{
}

/// A node stands for the entity of the world: its id, its components, its ties, what it is an instance of and whether it
/// belongs to the scene. It is barred from files where it is the editor's, rebuilt at run time, marked so, or hidden.
pub proof fn law_nodes_stand_for_the_world(list: Seq<SceneNode>, i: int)
    requires
        0 <= i < list.len(),
    ensures
        nodes_of(list).len() == list.len(),
        ({
            let n = nodes_of(list)[i];
            let e = list[i];
            &&& n.local == e.local.0
            &&& n.components.len() == e.components@.len()
            &&& forall|k: int|
                0 <= k < n.components.len() ==> #[trigger] n.components[k] == (e.components@[k].0@, e.components@[k].1@)
            &&& n.parent is None <==> e.parent is None
            &&& n.parent matches Some(p) ==> e.parent matches Some(q) && p == q
            &&& n.instance_child is None <==> e.instance_child is None
            &&& n.instance_child matches Some(p) ==> e.instance_child matches Some(q) && p == q
            &&& n.instance is None <==> e.instance is None
            &&& n.instance matches Some((s, o)) ==> e.instance matches Some(t) && s == t.source@ && o == overs(t.overrides@)
            &&& n.scene_entity == e.scene_entity
            &&& n.barred <==> (e.editor_entity || e.non_serializable || e.skip_serialization || e.editor_hidden)
        }),
{
}

} // verus!
