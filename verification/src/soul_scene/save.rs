//! How a world becomes a scene file.

use crate::soul_scene::format::{
    applied, comps, copy_components, copy_overrides, given_value, law_put_values_win, lemma_put_distinct, nodes_of, put,
    put_component, records_of, value_of, Comps, ComponentMap, EditorCamera, Node, Record, SceneFile, SceneNode, SceneRecord,
};
use crate::sort::{id_before, least_first};
use crate::text::same_text;
use vstd::prelude::*;

verus! {

/// Why a scene could not be saved.
#[derive(Debug)]
pub enum SceneSaveError {
    Io(String),
    Serialize(String),
}

impl SceneSaveError {
    /// The error as a message.
    pub fn message(&self) -> (m: String)
        ensures
            m@ == match *self {
                SceneSaveError::Io(e) => "scene io error: "@ + e@,
                SceneSaveError::Serialize(e) => "scene serialize error: "@ + e@,
            },
    {
        match self {
            SceneSaveError::Io(e) => String::from_str("scene io error: ").concat(e.as_str()),
            SceneSaveError::Serialize(e) => String::from_str("scene serialize error: ").concat(e.as_str()),
        }
    }
}

/// The components of the engine that are never written: they are derived at run time.
pub open spec fn skipped_path(path: Seq<char>) -> bool {
    ||| path == "bevy_ecs::hierarchy::ChildOf"@
    ||| path == "bevy_ecs::hierarchy::Children"@
    ||| path == "bevy_render::sync_world::RenderEntity"@
    ||| path == "bevy_render::sync_world::SyncToRenderWorld"@
    ||| path == "bevy_transform::components::global_transform::GlobalTransform"@
    ||| path == "bevy_transform::components::transform::TransformTreeChanged"@
    ||| path == "bevy_camera::primitives::CascadesFrusta"@
    ||| path == "bevy_camera::visibility::CascadesVisibleEntities"@
    ||| path == "bevy_camera::visibility::InheritedVisibility"@
    ||| path == "bevy_camera::visibility::ViewVisibility"@
    ||| path == "bevy_camera::visibility::VisibilityClass"@
    ||| path == "bevy_light::cascade::Cascades"@
}

/// Whether the component with this type path is never written.
pub fn skip_type_path(path: &str) -> (b: bool)
    ensures
        b == skipped_path(path@),
{
    same_text(path, "bevy_ecs::hierarchy::ChildOf") || same_text(path, "bevy_ecs::hierarchy::Children") || same_text(
        path,
        "bevy_render::sync_world::RenderEntity",
    ) || same_text(path, "bevy_render::sync_world::SyncToRenderWorld") || same_text(
        path,
        "bevy_transform::components::global_transform::GlobalTransform",
    ) || same_text(path, "bevy_transform::components::transform::TransformTreeChanged") || same_text(
        path,
        "bevy_camera::primitives::CascadesFrusta",
    ) || same_text(path, "bevy_camera::visibility::CascadesVisibleEntities") || same_text(
        path,
        "bevy_camera::visibility::InheritedVisibility",
    ) || same_text(path, "bevy_camera::visibility::ViewVisibility") || same_text(
        path,
        "bevy_camera::visibility::VisibilityClass",
    ) || same_text(path, "bevy_light::cascade::Cascades")
}

/// A registered type as an entity has it: its path, whether it is marked never to be written, and its value as
/// text where the entity has one that can be written.
#[derive(Debug)]
pub struct LiveComponent {
    pub type_path: String,
    pub tagged: bool,
    pub value: Option<String>,
}

/// The components to write among the first `n`.
pub open spec fn written(list: Seq<LiveComponent>, n: nat) -> Comps
    decreases n,
{
    if n == 0 {
        Seq::empty()
    } else {
        let c = list[n - 1];
        let rest = written(list, (n - 1) as nat);
        if c.tagged || skipped_path(c.type_path@) {
            rest
        } else {
            match c.value {
                Some(v) => put(rest, c.type_path@, v@),
                None => rest,
            }
        }
    }
}

/// The components to write of an entity.
pub fn serialize_entity_components(list: &Vec<LiveComponent>) -> (out: ComponentMap)
    ensures
        comps(out@) == written(list@, list@.len()),
{
    let mut out: ComponentMap = Vec::new();
    let mut i: usize = 0;
    assert(comps(out@) =~= Seq::empty());
    while i < list.len()
        invariant
            i <= list@.len(),
            comps(out@) == written(list@, i as nat),
        decreases list@.len() - i,
    {
        let c: &LiveComponent = &list[i];
        if !c.tagged && !skip_type_path(c.type_path.as_str()) {
            if let Some(v) = &c.value {
                put_component(&mut out, &c.type_path, v);
            }
        }
        i = i + 1;
    }
    out
}

/// What is written of an entity: no path twice, none that is never written, none that is marked so.
pub proof fn law_written_components(list: Seq<LiveComponent>, n: nat)
    requires
        n <= list.len(),
    ensures
        crate::soul_scene::format::distinct_paths(written(list, n)),
        forall|k: int|
            0 <= k < written(list, n).len() ==> !skipped_path((#[trigger] written(list, n)[k]).0) && exists|i: int|
                0 <= i < n && (#[trigger] list[i]).type_path@ == written(list, n)[k].0 && !list[i].tagged
                    && list[i].value is Some,
    decreases n,
{
    if n > 0 {
        let m = (n - 1) as nat;
        law_written_components(list, m);
        let rest = written(list, m);
        let c = list[m as int];
        if !(c.tagged || skipped_path(c.type_path@)) && c.value is Some {
            let v = c.value->0@;
            lemma_put_distinct(rest, c.type_path@, v);
            crate::soul_scene::format::lemma_find_path(rest, c.type_path@, rest.len());
            let all = written(list, n);
            assert forall|k: int| 0 <= k < all.len() implies !skipped_path((#[trigger] all[k]).0) && exists|i: int|
                0 <= i < n && (#[trigger] list[i]).type_path@ == all[k].0 && !list[i].tagged && list[i].value is Some by {
                if all[k].0 == c.type_path@ {
                    assert(list[m as int].type_path@ == all[k].0);
                } else {
                    assert(all[k] == rest[k]);
                    let i = choose|i: int|
                        0 <= i < m && (#[trigger] list[i]).type_path@ == rest[k].0 && !list[i].tagged && list[i].value
                            is Some;
                    assert(list[i].type_path@ == all[k].0);
                }
            }
        } else {
            assert forall|k: int| 0 <= k < rest.len() implies exists|i: int|
                0 <= i < n && (#[trigger] list[i]).type_path@ == (#[trigger] rest[k]).0 && !list[i].tagged
                    && list[i].value is Some by {
                let i = choose|i: int|
                    0 <= i < m && (#[trigger] list[i]).type_path@ == rest[k].0 && !list[i].tagged && list[i].value
                        is Some;
                assert(list[i].type_path@ == rest[k].0);
            }
        }
    }
}

/// Whether a node is written: it belongs to the scene, nothing bars it, and no instance stands for it.
pub open spec fn saves(n: Node) -> bool {
    n.scene_entity && !n.barred && n.instance_child is None
}

/// Whether a list of nodes has ties to nodes of the list only.
pub open spec fn ties_ok(nodes: Seq<Node>) -> bool {
    forall|k: int| 0 <= k < nodes.len() ==> ((#[trigger] nodes[k]).parent matches Some(p) ==> 0 <= p < nodes.len())
}

/// Whether `order` lists the places of the nodes that are written, by id, and by place where ids are the same.
pub open spec fn is_save_order(nodes: Seq<Node>, order: Seq<int>) -> bool {
    &&& forall|i: int|
        0 <= i < order.len() ==> 0 <= #[trigger] order[i] < nodes.len() && saves(nodes[order[i]])
    &&& forall|k: int| 0 <= k < nodes.len() && saves(#[trigger] nodes[k]) ==> order.contains(k)
    &&& forall|i: int, j: int|
        0 <= i < j < order.len() ==> node_before(nodes, #[trigger] order[i], #[trigger] order[j])
}

/// Whether node `a` is written before node `b`.
pub open spec fn node_before(nodes: Seq<Node>, a: int, b: int) -> bool {
    nodes[a].local < nodes[b].local || nodes[a].local == nodes[b].local && a < b
}

/// The record of node `k`. It names the parent only where that is written too.
pub open spec fn record_of(nodes: Seq<Node>, k: int) -> Record {
    let n = nodes[k];
    let parent = match n.parent {
        Some(p) => if saves(nodes[p]) {
            Some(nodes[p].local)
        } else {
            None
        },
        None => None,
    };
    match n.instance {
        Some((source, overrides)) => Record::Instance { id: n.local, parent, source, overrides },
        None => Record::Entity { id: n.local, parent, components: n.components },
    }
}

/// The id after the greatest one that is written.
pub open spec fn free_id(nodes: Seq<Node>, order: Seq<int>) -> int {
    if order.len() == 0 {
        1
    } else {
        nodes[order.last()].local + 1
    }
}

/// The next free id of a file: that of the world where it is the greater, so that no id is given twice.
pub open spec fn next_id_of(nodes: Seq<Node>, order: Seq<int>, counter: u64) -> int {
    if counter > free_id(nodes, order) {
        counter as int
    } else {
        free_id(nodes, order)
    }
}

/// Whether a file is that of the nodes of a world whose next free id is `counter`.
pub open spec fn is_saved(nodes: Seq<Node>, counter: u64, next_id: u64, records: Seq<Record>) -> bool {
    exists|order: Seq<int>| #[trigger]
        is_save_order(nodes, order) && next_id == next_id_of(nodes, order, counter) && records == order.map_values(
            |k: int| record_of(nodes, k),
        )
}

/// A file never gives an id again that was given before: its next free id is past every id that it holds, and not
/// before that of the world, which is that of the file that the world was loaded from.
pub proof fn law_ids_are_not_reused(nodes: Seq<Node>, counter: u64, next_id: u64, records: Seq<Record>)
    requires
        is_saved(nodes, counter, next_id, records),
    ensures
        next_id >= counter,
        forall|i: int| 0 <= i < records.len() ==> (#[trigger] records[i]).id() < next_id,
{
    let order = choose|order: Seq<int>| #[trigger]
        is_save_order(nodes, order) && next_id == next_id_of(nodes, order, counter) && records == order.map_values(
            |k: int| record_of(nodes, k),
        );
    assert forall|i: int| 0 <= i < records.len() implies (#[trigger] records[i]).id() < next_id by {
        assert(records[i] == record_of(nodes, order[i]));
        if i < order.len() - 1 {
            assert(node_before(nodes, order[i], order[order.len() - 1]));
        }
    }
}

/// Whether a node is written.
fn is_saved_node(n: &SceneNode) -> (b: bool)
    ensures
        b == saves(n@),
{
    n.scene_entity && !n.editor_entity && n.instance_child.is_none() && !n.non_serializable && !n.skip_serialization
        && !n.editor_hidden
}

fn write_record(nodes: &Vec<SceneNode>, k: usize) -> (r: SceneRecord)
    requires
        k < nodes@.len(),
        ties_ok(nodes_of(nodes@)),
    ensures
        r@ == record_of(nodes_of(nodes@), k as int),
{
    let n: &SceneNode = &nodes[k];
    proof {
        assert(nodes_of(nodes@)[k as int] == n@);
    }
    let parent: Option<u64> = match n.parent {
        Some(p) => {
            assert(nodes_of(nodes@)[p as int] == nodes@[p as int]@);
            if is_saved_node(&nodes[p]) {
                Some(nodes[p].local.0)
            } else {
                None
            }
        },
        None => None,
    };
    match &n.instance {
        Some(i) => SceneRecord::Instance {
            id: n.local,
            parent,
            source: i.source.clone(),
            overrides: copy_overrides(&i.overrides),
        },
        None => SceneRecord::Entity { id: n.local, parent, components: copy_components(&n.components) },
    }
}

/// The scene file of a world whose next free id is `counter`: that of the file it was loaded from, or zero.
pub fn build_scene_file(nodes: &Vec<SceneNode>, counter: u64) -> (file: SceneFile)
    requires
        ties_ok(nodes_of(nodes@)),
        forall|k: int|
            0 <= k < nodes@.len() && saves(nodes_of(nodes@)[k]) ==> (#[trigger] nodes@[k]).local.0 < u64::MAX,
    ensures
        is_saved(nodes_of(nodes@), counter, file.next_id, records_of(file.records@)),
        file.editor_camera is None,
{
    let ghost world = nodes_of(nodes@);
    let mut kept: Vec<usize> = Vec::new();
    let mut ids: Vec<u64> = Vec::new();
    let mut k: usize = 0;
    while k < nodes.len()
        invariant
            k <= nodes@.len(),
            world == nodes_of(nodes@),
            kept@.len() == ids@.len(),
            forall|i: int|
                0 <= i < kept@.len() ==> (#[trigger] kept@[i]) < k && saves(world[kept@[i] as int]) && ids@[i]
                    == world[kept@[i] as int].local,
            forall|i: int, j: int| 0 <= i < j < kept@.len() ==> (#[trigger] kept@[i]) < (#[trigger] kept@[j]),
            forall|m: int| 0 <= m < k && saves(#[trigger] world[m]) ==> kept@.contains(m as usize),
        decreases nodes@.len() - k,
    {
        let n: &SceneNode = &nodes[k];
        assert(world[k as int] == n@);
        let ghost before = kept@;
        if is_saved_node(n) {
            kept.push(k);
            ids.push(n.local.0);
            proof {
                assert(kept@[before.len() as int] == k);
                assert forall|m: int| 0 <= m < k + 1 && saves(#[trigger] world[m]) implies kept@.contains(m as usize) by {
                    if m < k {
                        assert(before.contains(m as usize));
                        let i = choose|i: int| 0 <= i < before.len() && before[i] == m as usize;
                        assert(kept@[i] == m as usize);
                    }
                }
            }
        }
        k = k + 1;
    }
    let places: Vec<usize> = least_first(ids.as_slice());
    let mut records: Vec<SceneRecord> = Vec::new();
    let mut next_id: u64 = 1;
    let ghost mut order: Seq<int> = Seq::empty();
    let mut i: usize = 0;
    while i < places.len()
        invariant
            i <= places@.len(),
            world == nodes_of(nodes@),
            ties_ok(world),
            forall|k: int|
                0 <= k < nodes@.len() && saves(nodes_of(nodes@)[k]) ==> (#[trigger] nodes@[k]).local.0 < u64::MAX,
            kept@.len() == ids@.len(),
            places@.len() == ids@.len(),
            forall|j: int| 0 <= j < places@.len() ==> (#[trigger] places@[j]) < ids@.len(),
            forall|j: int|
                0 <= j < kept@.len() ==> (#[trigger] kept@[j]) < nodes@.len() && saves(world[kept@[j] as int])
                    && ids@[j] == world[kept@[j] as int].local,
            order.len() == i,
            forall|j: int| 0 <= j < i ==> #[trigger] order[j] == kept@[places@[j] as int],
            records@.len() == i,
            forall|j: int| 0 <= j < i ==> (#[trigger] records@[j])@ == record_of(world, order[j]),
            next_id == free_id(world, order),
        decreases places@.len() - i,
    {
        let at: usize = kept[places[i]];
        assert(saves(world[at as int]));
        assert(world[at as int] == nodes@[at as int]@);
        records.push(write_record(nodes, at));
        next_id = nodes[at].local.0 + 1;
        proof {
            order = order.push(at as int);
        }
        i = i + 1;
    }
    proof {
        lemma_places_all(places@, ids@.len());
        assert forall|a: int, b: int| 0 <= a < b < order.len() implies node_before(
            world,
            #[trigger] order[a],
            #[trigger] order[b],
        ) by {
            assert(id_before(ids@, places@[a], places@[b]));
            let (p, q) = (places@[a] as int, places@[b] as int);
            assert(ids@[p] == world[kept@[p] as int].local);
            assert(ids@[q] == world[kept@[q] as int].local);
            if p < q {
                assert(kept@[p] < kept@[q]);
            }
        }
        assert forall|m: int| 0 <= m < world.len() && saves(#[trigger] world[m]) implies order.contains(m) by {
            assert(kept@.contains(m as usize));
            let j = choose|j: int| 0 <= j < kept@.len() && kept@[j] == m as usize;
            assert(places@.contains(j as usize));
            let a = choose|a: int| 0 <= a < places@.len() && places@[a] == j as usize;
            assert(order[a] == m);
        }
        assert(is_save_order(world, order));
        assert(records_of(records@) =~= order.map_values(|k: int| record_of(world, k)));
    }
    if counter > next_id {
        next_id = counter;
    }
    SceneFile { next_id, records, editor_camera: None }
}

/// As many distinct places as there are hold every place.
proof fn lemma_places_all(places: Seq<usize>, n: nat)
    requires
        places.len() == n,
        places.no_duplicates(),
        n <= usize::MAX,
        forall|i: int| 0 <= i < places.len() ==> (#[trigger] places[i]) < n,
    ensures
        forall|j: int| 0 <= j < n ==> #[trigger] places.contains(j as usize),
{
    let ints = places.map_values(|p: usize| p as int);
    assert(ints.no_duplicates());
    ints.unique_seq_to_set();
    let all = vstd::set_lib::set_int_range(0, n as int);
    vstd::set_lib::lemma_int_range(0, n as int);
    assert(ints.to_set().subset_of(all)) by {
        assert forall|x: int| #[trigger] ints.to_set().contains(x) implies all.contains(x) by {
            let i = choose|i: int| 0 <= i < ints.len() && ints[i] == x;
            assert(places[i] < n);
        }
    }
    vstd::set_lib::lemma_subset_equality(ints.to_set(), all);
    assert forall|j: int| 0 <= j < n implies #[trigger] places.contains(j as usize) by {
        assert(ints.to_set().contains(j));
        let i = choose|i: int| 0 <= i < ints.len() && ints[i] == j;
        assert(places[i] == j as usize);
    }
}

/// The order in which nodes are written is one.
pub proof fn law_save_order_unique(nodes: Seq<Node>, a: Seq<int>, b: Seq<int>)
    requires
        is_save_order(nodes, a),
        is_save_order(nodes, b),
    ensures
        a == b,
{
    lemma_order_prefix(nodes, a, b, a.len());
    lemma_order_prefix(nodes, b, a, b.len());
    assert(a =~= b);
}

proof fn lemma_order_prefix(nodes: Seq<Node>, a: Seq<int>, b: Seq<int>, n: nat)
    requires
        is_save_order(nodes, a),
        is_save_order(nodes, b),
        n <= a.len(),
    ensures
        n <= b.len(),
        forall|i: int| 0 <= i < n ==> #[trigger] a[i] == b[i],
    decreases n,
{
    if n > 0 {
        let k: int = n - 1;
        lemma_order_prefix(nodes, a, b, k as nat);
        assert(saves(nodes[a[k]]));
        assert(b.contains(a[k]));
        let j = choose|j: int| 0 <= j < b.len() && b[j] == a[k];
        if j < k {
            assert(a[j] == b[j]);
            assert(node_before(nodes, a[j], a[k]));
        }
        if j > k {
            assert(node_before(nodes, b[k], b[j]));
            assert(saves(nodes[b[k]]));
            assert(a.contains(b[k]));
            let i = choose|i: int| 0 <= i < a.len() && a[i] == b[k];
            if i < k {
                assert(a[i] == b[i]);
                assert(node_before(nodes, b[i], b[k]));
            }
            if i > k {
                assert(node_before(nodes, a[k], a[i]));
            }
        }
    }
}

/// A file with the editor's camera in it.
pub fn with_camera(file: SceneFile, camera: Option<EditorCamera>) -> (out: SceneFile)
    ensures
        out.next_id == file.next_id,
        out.records == file.records,
        out.editor_camera == camera,
{
    SceneFile { next_id: file.next_id, records: file.records, editor_camera: camera }
}

/// Whether a node is cleared with the scene.
pub open spec fn is_content(n: SceneNode) -> bool {
    n.scene_entity && !n.editor_entity
}

/// The nodes that are cleared before another scene is loaded: those of the scene, but not the editor's own.
pub fn despawn_scene_content(nodes: &Vec<SceneNode>) -> (out: Vec<usize>)
    ensures
        forall|i: int, j: int| 0 <= i < j < out@.len() ==> (#[trigger] out@[i]) < (#[trigger] out@[j]),
        forall|k: usize| #[trigger]
            out@.contains(k) <==> k < nodes@.len() && is_content(nodes@[k as int]),
{
    let mut out: Vec<usize> = Vec::new();
    let mut k: usize = 0;
    while k < nodes.len()
        invariant
            k <= nodes@.len(),
            forall|i: int| 0 <= i < out@.len() ==> (#[trigger] out@[i]) < k,
            forall|i: int, j: int| 0 <= i < j < out@.len() ==> (#[trigger] out@[i]) < (#[trigger] out@[j]),
            forall|m: usize| #[trigger]
                out@.contains(m) <==> m < k && nodes@[m as int].scene_entity && !nodes@[m as int].editor_entity,
        decreases nodes@.len() - k,
    {
        let ghost before = out@;
        if nodes[k].scene_entity && !nodes[k].editor_entity {
            out.push(k);
            proof {
                assert(out@[before.len() as int] == k);
                assert forall|m: usize| #[trigger] out@.contains(m) <==> before.contains(m) || m == k by {
                    if before.contains(m) {
                        let i = choose|i: int| 0 <= i < before.len() && before[i] == m;
                        assert(out@[i] == m);
                    }
                }
            }
        }
        k = k + 1;
    }
    out
}

/// Which components are never written: those that the hierarchy, the renderer and the transforms keep up by themselves.
pub proof fn law_paths_never_written(path: Seq<char>)
    ensures
        skipped_path("bevy_ecs::hierarchy::ChildOf"@) && skipped_path("bevy_ecs::hierarchy::Children"@),
        skipped_path("bevy_render::sync_world::RenderEntity"@),
        skipped_path("bevy_render::sync_world::SyncToRenderWorld"@),
        skipped_path("bevy_transform::components::global_transform::GlobalTransform"@),
        skipped_path("bevy_transform::components::transform::TransformTreeChanged"@),
        skipped_path("bevy_camera::primitives::CascadesFrusta"@),
        skipped_path("bevy_camera::visibility::CascadesVisibleEntities"@),
        skipped_path("bevy_camera::visibility::InheritedVisibility"@),
        skipped_path("bevy_camera::visibility::ViewVisibility"@),
        skipped_path("bevy_camera::visibility::VisibilityClass"@),
        skipped_path("bevy_light::cascade::Cascades"@),
        path.len() < 28 || path.len() > 67 || path[0] != 'b' || path[4] != '_' ==> !skipped_path(path),
{
    reveal_strlit("bevy_ecs::hierarchy::ChildOf");
    reveal_strlit("bevy_ecs::hierarchy::Children");
    reveal_strlit("bevy_render::sync_world::RenderEntity");
    reveal_strlit("bevy_render::sync_world::SyncToRenderWorld");
    reveal_strlit("bevy_transform::components::global_transform::GlobalTransform");
    reveal_strlit("bevy_transform::components::transform::TransformTreeChanged");
    reveal_strlit("bevy_camera::primitives::CascadesFrusta");
    reveal_strlit("bevy_camera::visibility::CascadesVisibleEntities");
    reveal_strlit("bevy_camera::visibility::InheritedVisibility");
    reveal_strlit("bevy_camera::visibility::ViewVisibility");
    reveal_strlit("bevy_camera::visibility::VisibilityClass");
    reveal_strlit("bevy_light::cascade::Cascades");
}

/// Whether component `i` of an entity is written: its type is not one that never is, it does not say that it is not to
/// be, and it has a value.
pub open spec fn is_written(list: Seq<LiveComponent>, path: Seq<char>, i: int) -> bool {
    &&& 0 <= i < list.len()
    &&& list[i].type_path@ == path
    &&& !list[i].tagged
    &&& list[i].value is Some
    &&& !skipped_path(path)
}

/// What is written for a path is the value of the last component of that path that is written; where none is, nothing.
pub proof fn law_written_values(list: Seq<LiveComponent>, n: nat, path: Seq<char>)
    requires
        n <= list.len(),
    ensures
        forall|i: int|
            #![trigger is_written(list, path, i)]
            i < n && is_written(list, path, i) && (forall|j: int| i < j < n ==> !#[trigger] is_written(list, path, j))
                ==> value_of(written(list, n), path) == Some(list[i].value->0@),
        (forall|i: int| i < n ==> !#[trigger] is_written(list, path, i)) ==> value_of(written(list, n), path) is None,
    decreases n,
{
    if n > 0 {
        let m = (n - 1) as nat;
        law_written_values(list, m, path);
        let c = list[m as int];
        let rest = written(list, m);
        if !(c.tagged || skipped_path(c.type_path@)) && c.value is Some {
            lemma_put_value(rest, c.type_path@, c.value->0@, path);
            if c.type_path@ == path {
                assert(is_written(list, path, m as int));
            }
        }
        assert forall|i: int|
            #![trigger is_written(list, path, i)]
            i < n && is_written(list, path, i) && (forall|j: int| i < j < n ==> !#[trigger] is_written(list, path, j)) implies value_of(
            written(list, n),
            path,
        ) == Some(list[i].value->0@) by {
            if i < m {
                assert(!is_written(list, path, m as int));
            }
        }
        if forall|i: int| i < n ==> !#[trigger] is_written(list, path, i) {
            assert(!is_written(list, path, m as int));
        }
    }
}

proof fn lemma_put_value(list: Comps, at: Seq<char>, value: Seq<char>, path: Seq<char>)
    ensures
        value_of(put(list, at, value), path) == (if path == at {
            Some(value)
        } else {
            value_of(list, path)
        }),
{
    let more = seq![(at, value)];
    let none = Seq::<(Seq<char>, Seq<char>)>::empty();
    law_put_values_win(list, more, none, 1, path);
    reveal_with_fuel(applied, 2);
    reveal_with_fuel(given_value, 2);
    assert(!none.contains(more[0]));
}

/// What is saved of a world: a record for each of its nodes that belongs to the scene, that nothing bars and that no
/// instance stands for, and for no other; in the order of the ids. Each record has the node's id, that of its parent
/// where the parent is saved too, and what it is: the scene and the overrides of an instance, or the components.
pub proof fn law_saved_records(nodes: Seq<Node>, order: Seq<int>, i: int, k: int)
    requires
        is_save_order(nodes, order),
        0 <= i < order.len(),
        0 <= k < nodes.len(),
    ensures
        nodes[k].scene_entity && !nodes[k].barred && nodes[k].instance_child is None <==> order.contains(k),
        i + 1 < order.len() ==> nodes[order[i]].local <= nodes[order[i + 1]].local,
        ({
            let n = nodes[order[i]];
            let r = record_of(nodes, order[i]);
            &&& r.id() == n.local
            &&& n.parent is None ==> r.parent() is None
            &&& n.parent matches Some(p) ==> {
                let above = nodes[p];
                &&& above.scene_entity && !above.barred && above.instance_child is None ==> r.parent() == Some(above.local)
                &&& !(above.scene_entity && !above.barred && above.instance_child is None) ==> r.parent() is None
            }
            &&& match r {
                Record::Entity { components, .. } => n.instance is None && components == n.components,
                Record::Instance { source, overrides, .. } => n.instance == Some((source, overrides)),
            }
        }),
{
    if order.contains(k) {
        let j = choose|j: int| 0 <= j < order.len() && order[j] == k;
        assert(saves(nodes[order[j]]));
    }
    if i + 1 < order.len() {
        assert(node_before(nodes, order[i], order[i + 1]));
    }
}

/// The next free id is the least that is not before the counter and past every id that was written, and one where there
/// is none.
pub proof fn law_next_free_id(nodes: Seq<Node>, order: Seq<int>, counter: u64, n: int)
    requires
        is_save_order(nodes, order),
    ensures
        n >= next_id_of(nodes, order, counter) <==> n >= 1 && n >= counter && forall|i: int|
            0 <= i < order.len() ==> n > nodes[#[trigger] order[i]].local,
{
    if order.len() > 0 {
        let last = order[order.len() - 1];
        assert forall|i: int| 0 <= i < order.len() implies nodes[#[trigger] order[i]].local <= nodes[last].local by {
            if i < order.len() - 1 {
                assert(node_before(nodes, order[i], order[order.len() - 1]));
            }
        }
        if forall|i: int| 0 <= i < order.len() ==> n > nodes[#[trigger] order[i]].local {
            assert(n > nodes[order[order.len() - 1]].local);
        }
    }
}

/// What is cleared with a scene is all that is saved of it, and what its instances brought in; of the editor's own nothing
/// is, whether it is marked as the scene's or not.
pub proof fn law_what_is_cleared(n: SceneNode)
    ensures
        saves(n@) ==> is_content(n),
        n.scene_entity && !n.editor_entity ==> is_content(n),
        n.editor_entity ==> !is_content(n),
        !n.scene_entity ==> !is_content(n),
{
}

} // verus!
