//! What loading the document of a loaded scene gives, whatever its groups
//! are: the vertices, normals, texture coordinates, faces and objects of the
//! scene, and those of its groups that hold a face, in the order of their
//! first use. So the scene comes back whole exactly if its groups stand in
//! that order and none of them is empty.

use vstd::prelude::*;
use crate::directive::{join_groups, load_spec, place_face, run, set_groups, step, LoaderState};
use crate::loaded::{
    is_joined, lemma_activate, lemma_initial_consistent, lemma_load_gives_loaded,
    lemma_place_face_consistent, lemma_run_consistent, lemma_set_groups_consistent,
    lemma_step_consistent, valid_face, valid_triple, valid_vertex,
};
use crate::roundtrip::{
    between, faces_before, first_use_order, header_lines, holds_a_face, is_plain,
    lemma_all_faces_listed, lemma_face_line_step, lemma_group_line_step, lemma_header_run,
    lemma_lines_of_unlines, lemma_load_inverts_write, lemma_membership, lemma_normals_run,
    lemma_object_ends, lemma_object_line_step, lemma_primitive_is_counted, lemma_run_append,
    lemma_run_push, lemma_texcoords_run, lemma_vertices_run, members_before, midway, used_below,
    with_numbers,
};
use crate::scene::{FaceRef, GroupView, LoadingError, ObjectView, Scene, TripleView, VertexView};
use crate::text::{is_word, tokens};
use crate::writer::{
    document_lines, face_line, faces_lines, group_line, group_names, membership, normal_lines,
    object_line, objects_lines, render, texcoord_lines, vertex_lines,
};

verus! {

/// Between two faces of a written document: the load is consistent, and the
/// groups stand in the order of their first use, none of them empty.
pub open spec fn settled(st: LoaderState) -> bool {
    st.consistent() && st.scene.groups_in_use_order()
}

/// After a `g` line: as `settled`, but that a group may be empty if it is
/// active.
pub open spec fn pending(st: LoaderState) -> bool {
    &&& st.consistent()
    &&& first_use_order(st.scene.groups)
    &&& forall|j: int|
        0 <= j < st.scene.groups.len() ==> holds_a_face(#[trigger] st.scene.groups[j])
            || st.active.contains(j as nat)
}

/// A face fills the groups that were waiting for one.
pub proof fn lemma_place_face_settles(st: LoaderState, face: Seq<FaceRef>)
    requires
        pending(st),
        valid_face(face),
    ensures
        settled(place_face(st, face)),
{
    reveal(Scene::loaded);
    lemma_place_face_consistent(st, face);
    let before = st.scene.groups;
    let n = st.scene.faces.len();
    let after = place_face(st, face).scene.groups;
    assert(after == join_groups(before, st.active, n));
    assert forall|j: int| 0 <= j < after.len() implies holds_a_face(#[trigger] after[j]) by {
        if st.active.contains(j as nat) {
            assert(after[j].indexes.contains(n));
        } else {
            assert(holds_a_face(before[j]));
            let f = choose|f: nat| before[j].indexes.contains(f);
            assert(after[j].indexes.contains(f));
        }
    }
    assert forall|j: int, k: int, f: nat|
        0 <= j < k < after.len() && #[trigger] after[k].indexes.contains(f) implies used_below(
        #[trigger] after[j],
        f + 1,
    ) by {
        if before[k].indexes.contains(f) {
            assert(used_below(before[j], f + 1));
            let e = choose|e: nat| e < f + 1 && #[trigger] before[j].indexes.contains(e);
            assert(after[j].indexes.contains(e));
        } else {
            assert(f == n);
            if st.active.contains(j as nat) {
                assert(after[j].indexes.contains(n));
            } else {
                assert(holds_a_face(before[j]));
                let e = choose|e: nat| before[j].indexes.contains(e);
                assert(before[j].indexes.contains(e));
                assert(e < n);
                assert(after[j].indexes.contains(e));
            }
        }
    }
}

/// After a `g` line, the groups that are empty are active.
pub proof fn lemma_set_groups_pends(st: LoaderState, names: Seq<Seq<char>>)
    requires
        settled(st),
        forall|i: int| 0 <= i < names.len() ==> is_word(#[trigger] names[i]),
    ensures
        pending(set_groups(st, names)),
{
    reveal(Scene::loaded);
    lemma_set_groups_consistent(st, names);
    lemma_activate(st.scene.groups, names);
    let before = st.scene.groups;
    let next = set_groups(st, names);
    let after = next.scene.groups;
    assert forall|j: int| 0 <= j < before.len() implies #[trigger] after[j] == before[j] by {
        assert(after.take(before.len() as int)[j] == after[j]);
    }
    assert forall|j: int| 0 <= j < after.len() implies holds_a_face(#[trigger] after[j])
        || next.active.contains(j as nat) by {
        if j < before.len() {
            assert(holds_a_face(before[j]));
        }
    }
    assert forall|j: int, k: int, f: nat|
        0 <= j < k < after.len() && #[trigger] after[k].indexes.contains(f) implies used_below(
        #[trigger] after[j],
        f + 1,
    ) by {
        if k >= before.len() {
            assert(after[k].indexes == Set::<nat>::empty());
        } else {
            assert(before[k].indexes.contains(f));
            assert(used_below(before[j], f + 1));
        }
    }
}

/// The group with its faces below `bound` only.
pub open spec fn cut(g: GroupView, bound: nat) -> GroupView {
    GroupView { name: g.name, indexes: Set::new(|e: nat| e < bound && g.indexes.contains(e)) }
}

/// The group is one of `groups`, with its faces below `bound` only.
pub open spec fn is_cut_of(g: GroupView, groups: Seq<GroupView>, bound: nat) -> bool {
    exists|k: int| 0 <= k < groups.len() && #[trigger] cut(groups[k], bound) == g
}

/// One of the groups bears the name.
pub open spec fn has_group_named(groups: Seq<GroupView>, name: Seq<char>) -> bool {
    exists|j: int| 0 <= j < groups.len() && (#[trigger] groups[j]).name == name
}

/// The groups of the state follow those of the scene `s`: each is a group
/// of `s` with its faces below `bound`, each group of `s` that holds a face
/// up to `face` is among them, and those that hold the face `face` are the
/// active ones.
pub open spec fn groups_follow(st: LoaderState, s: Scene, bound: nat, face: int) -> bool {
    &&& forall|j: int|
        0 <= j < st.scene.groups.len() ==> is_cut_of(#[trigger] st.scene.groups[j], s.groups, bound)
    &&& forall|k: int|
        0 <= k < s.groups.len() && used_below(#[trigger] s.groups[k], (face + 1) as nat)
            ==> has_group_named(st.scene.groups, s.groups[k].name)
    &&& forall|j: int, k: int|
        0 <= j < st.scene.groups.len() && 0 <= k < s.groups.len() && (
        #[trigger] st.scene.groups[j]).name == (#[trigger] s.groups[k]).name ==> (
        st.active.contains(j as nat) <==> face >= 0 && s.groups[k].indexes.contains(face as nat))
}

/// Where the face `f` has the members of the face before it, the active
/// groups are those that hold `f`.
pub proof fn lemma_follow_without_group_line(st: LoaderState, s: Scene, f: nat)
    requires
        groups_follow(st, s, f, f - 1),
        membership(s.groups, f) == members_before(s.groups, f),
    ensures
        groups_follow(st, s, f, f as int),
{
    lemma_membership(s.groups, f);
    if f > 0 {
        lemma_membership(s.groups, (f - 1) as nat);
    }
    assert forall|k: int|
        0 <= k < s.groups.len() implies (s.groups[k].indexes.contains(f) <==> f > 0 && (
    #[trigger] s.groups[k]).indexes.contains((f - 1) as nat)) by {
        assert(membership(s.groups, f).contains(k as nat) <==> s.groups[k].indexes.contains(f));
        if f > 0 {
            assert(membership(s.groups, (f - 1) as nat).contains(k as nat)
                <==> s.groups[k].indexes.contains((f - 1) as nat));
        }
    }
    assert forall|k: int|
        0 <= k < s.groups.len() && used_below(
            #[trigger] s.groups[k],
            f + 1,
        ) implies has_group_named(st.scene.groups, s.groups[k].name) by {
        let e = choose|e: nat| e < f + 1 && #[trigger] s.groups[k].indexes.contains(e);
        if e == f {
            assert(s.groups[k].indexes.contains((f - 1) as nat));
        }
        assert(used_below(s.groups[k], f));
    }
}

/// The `g` line of the face `f` makes the groups that hold `f` the active
/// ones, and makes those of them that held no face before.
pub proof fn lemma_follow_group_line(st: LoaderState, s: Scene, f: nat)
    requires
        s.loaded(),
        settled(st),
        groups_follow(st, s, f, f - 1),
    ensures
        groups_follow(
            set_groups(st, group_names(s.groups, membership(s.groups, f))),
            s,
            f,
            f as int,
        ),
{
    reveal(Scene::loaded);
    let members = membership(s.groups, f);
    let names = group_names(s.groups, members);
    let next = set_groups(st, names);
    let before = st.scene.groups;
    let after = next.scene.groups;
    lemma_membership(s.groups, f);
    assert forall|i: int| 0 <= i < names.len() implies is_word(#[trigger] names[i]) by {
        assert(names[i] == s.groups[members[i] as int].name);
    }
    lemma_activate(before, names);
    lemma_set_groups_consistent(st, names);
    assert forall|j: int| 0 <= j < before.len() implies #[trigger] after[j] == before[j] by {
        assert(after.take(before.len() as int)[j] == after[j]);
    }
    // every group is a group of the scene, cut at `f`
    assert forall|j: int| 0 <= j < after.len() implies is_cut_of(
        #[trigger] after[j],
        s.groups,
        f,
    ) by {
        if j < before.len() {
            assert(is_cut_of(before[j], s.groups, f));
        } else {
            assert(next.active.contains(j as nat));
            let t = choose|t: int| 0 <= t < next.active.len() && next.active[t] == j as nat;
            let k = members[t] as int;
            assert(after[next.active[t] as int].name == names[t]);
            assert(names[t] == s.groups[k].name);
            if used_below(s.groups[k], f) {
                assert(has_group_named(before, s.groups[k].name));
                let i = choose|i: int|
                    0 <= i < before.len() && (#[trigger] before[i]).name == s.groups[k].name;
                assert(after[i].name == after[j].name);
            }
            assert(cut(s.groups[k], f).indexes =~= Set::<nat>::empty());
            assert(cut(s.groups[k], f) == after[j]);
        }
    }
    // a group of the scene that holds a face up to `f` is there
    assert forall|k: int|
        0 <= k < s.groups.len() && used_below(
            #[trigger] s.groups[k],
            f + 1,
        ) implies has_group_named(after, s.groups[k].name) by {
        if used_below(s.groups[k], f) {
            assert(has_group_named(before, s.groups[k].name));
            let i = choose|i: int|
                0 <= i < before.len() && (#[trigger] before[i]).name == s.groups[k].name;
            assert(after[i].name == s.groups[k].name);
        } else {
            let e = choose|e: nat| e < f + 1 && #[trigger] s.groups[k].indexes.contains(e);
            assert(e == f);
            assert(members.contains(k as nat));
            let t = choose|t: int| 0 <= t < members.len() && members[t] == k as nat;
            assert(names[t] == s.groups[k].name);
            assert(after[next.active[t] as int].name == names[t]);
        }
    }
    // the active groups are those that hold `f`
    assert forall|j: int, k: int|
        0 <= j < after.len() && 0 <= k < s.groups.len() && (#[trigger] after[j]).name == (
        #[trigger] s.groups[k]).name implies (next.active.contains(j as nat)
        <==> s.groups[k].indexes.contains(f)) by {
        if next.active.contains(j as nat) {
            let t = choose|t: int| 0 <= t < next.active.len() && next.active[t] == j as nat;
            assert(after[next.active[t] as int].name == names[t]);
            let m = members[t] as int;
            assert(names[t] == s.groups[m].name);
            if m != k {
                if m < k {
                    assert(s.groups[m].name != s.groups[k].name);
                } else {
                    assert(s.groups[k].name != s.groups[m].name);
                }
            }
            assert(s.groups[members[t] as int].indexes.contains(f));
        }
        if s.groups[k].indexes.contains(f) {
            assert(members.contains(k as nat));
            let t = choose|t: int| 0 <= t < members.len() && members[t] == k as nat;
            assert(names[t] == s.groups[k].name);
            let i = next.active[t] as int;
            assert(after[i].name == names[t]);
            if i != j {
                if i < j {
                    assert(after[i].name != after[j].name);
                } else {
                    assert(after[j].name != after[i].name);
                }
            }
        }
    }
}

/// Placing the face `f` gives it to the groups that hold it.
pub proof fn lemma_follow_place_face(st: LoaderState, s: Scene, f: nat, face: Seq<FaceRef>)
    requires
        groups_follow(st, s, f, f as int),
        st.scene.faces.len() == f,
    ensures
        groups_follow(place_face(st, face), s, f + 1, f as int),
{
    let next = place_face(st, face);
    let before = st.scene.groups;
    let after = next.scene.groups;
    assert forall|j: int| 0 <= j < after.len() implies is_cut_of(
        #[trigger] after[j],
        s.groups,
        f + 1,
    ) by {
        assert(is_cut_of(before[j], s.groups, f));
        let k = choose|k: int|
            0 <= k < s.groups.len() && #[trigger] cut(s.groups[k], f) == before[j];
        assert(before[j].name == s.groups[k].name);
        assert(cut(s.groups[k], f + 1).indexes =~= after[j].indexes);
        assert(cut(s.groups[k], f + 1) == after[j]);
    }
    assert forall|k: int|
        0 <= k < s.groups.len() && used_below(
            #[trigger] s.groups[k],
            f + 1,
        ) implies has_group_named(after, s.groups[k].name) by {
        assert(has_group_named(before, s.groups[k].name));
        let j = choose|j: int|
            0 <= j < before.len() && (#[trigger] before[j]).name == s.groups[k].name;
        assert(after[j].name == s.groups[k].name);
    }
    assert forall|j: int, k: int|
        0 <= j < after.len() && 0 <= k < s.groups.len() && (#[trigger] after[j]).name == (
        #[trigger] s.groups[k]).name implies (next.active.contains(j as nat)
        <==> s.groups[k].indexes.contains(f)) by {
        assert(before[j].name == s.groups[k].name);
    }
}

/// Two states hold the same vertices, normals, texture coordinates, faces
/// and objects, and have the same object open. Of their groups nothing is
/// said.
pub open spec fn same_but_groups(a: LoaderState, b: LoaderState) -> bool {
    &&& a.scene.vertices == b.scene.vertices
    &&& a.scene.normals == b.scene.normals
    &&& a.scene.texcoords == b.scene.texcoords
    &&& a.scene.faces == b.scene.faces
    &&& a.scene.objects == b.scene.objects
    &&& a.object == b.object
}

/// Adding the next face of the object `o` leads from where `k` of its faces
/// are read to where `k + 1` are.
pub proof fn lemma_place_next_face(s: Scene, st: LoaderState, o: int, k: int)
    requires
        s.loaded(),
        0 <= o < s.objects.len(),
        0 <= k < s.objects[o].primitives.len(),
        same_but_groups(st, midway(s, o, k, 0)),
    ensures
        same_but_groups(
            place_face(st, s.faces[s.objects[o].primitives[k] as int]),
            midway(s, o, k + 1, 0),
        ),
{
    reveal(midway);
    reveal(Scene::loaded);
    lemma_primitive_is_counted(s, o, k);
    let object = s.objects[o];
    let f = object.primitives[k];
    let got = place_face(st, s.faces[f as int]);
    let want = midway(s, o, k + 1, 0);
    assert(got.scene.faces =~= want.scene.faces);
    assert(object.primitives.take(k + 1) =~= object.primitives.take(k).push(f));
    if k > 0 || object.name.len() > 0 {
        assert(got.scene.objects =~= want.scene.objects);
    } else {
        assert(s.objects.take(0) =~= Seq::<ObjectView>::empty());
        assert(object.name =~= Seq::<char>::empty());
        assert(object.primitives.take(0) =~= Seq::<nat>::empty());
        assert(got.scene.objects =~= want.scene.objects);
    }
}

/// The lines for the first `k` faces of the object `o` of a loaded scene,
/// read where the object has been opened, add those faces. They leave the
/// groups in the order of their first use, none of them empty, and
/// following those of the scene.
pub proof fn lemma_faces_settle(s: Scene, st: LoaderState, o: int, k: int)
    requires
        s.loaded(),
        0 <= o < s.objects.len(),
        0 <= k <= s.objects[o].primitives.len(),
        settled(st),
        same_but_groups(st, midway(s, o, 0, 0)),
        groups_follow(st, s, faces_before(s, o), faces_before(s, o) - 1),
    ensures
        ({
            let written = faces_lines(
                s,
                s.objects[o].primitives.take(k),
                members_before(s.groups, faces_before(s, o)),
            );
            let f = (faces_before(s, o) + k) as nat;
            &&& written.1 == members_before(s.groups, f)
            &&& run(st, written.0) matches Ok(next) && settled(next) && same_but_groups(
                next,
                midway(s, o, k, 0),
            ) && groups_follow(next, s, f, f - 1)
            &&& forall|i: int| 0 <= i < written.0.len() ==> is_plain(#[trigger] written.0[i])
        }),
    decreases k,
{
    let list = s.objects[o].primitives;
    let start = members_before(s.groups, faces_before(s, o));
    if k > 0 {
        lemma_faces_settle(s, st, o, k - 1);
        lemma_primitive_is_counted(s, o, k - 1);
        assert(list.take(k).drop_last() =~= list.take(k - 1));
        let (lines, before) = faces_lines(s, list.take(k - 1), start);
        let mid = run(st, lines)->Ok_0;
        let f = list[k - 1];
        assert(list.take(k).last() == f);
        assert(mid.scene.faces.len() == f) by {
            reveal(midway);
        }
        let face = s.faces[f as int];
        let members = membership(s.groups, f);
        let names = group_names(s.groups, members);
        lemma_membership(s.groups, f);
        assert forall|i: int| 0 <= i < names.len() implies is_word(#[trigger] names[i]) by {
            reveal(Scene::loaded);
            assert(names[i] == s.groups[members[i] as int].name);
        }
        assert(valid_face(face)) by {
            reveal(Scene::loaded);
        }
        let all = faces_lines(s, list.take(k), start).0;
        if members == before {
            let counted = LoaderState { line: mid.line + 1, ..mid };
            lemma_follow_without_group_line(mid, s, f);
            lemma_face_line_step(mid, face);
            lemma_place_face_settles(counted, face);
            lemma_place_next_face(s, counted, o, k - 1);
            lemma_follow_place_face(counted, s, f, face);
            lemma_run_push(st, lines, face_line(face));
            assert(all =~= lines.push(face_line(face)));
            assert forall|i: int| 0 <= i < all.len() implies is_plain(#[trigger] all[i]) by {
                if i < lines.len() {
                    assert(all[i] == lines[i]);
                }
            }
        } else {
            let with_groups = lines.push(group_line(s.groups, members));
            let ready = LoaderState { line: mid.line + 1, ..mid };
            lemma_group_line_step(mid, names);
            lemma_set_groups_pends(ready, names);
            lemma_follow_group_line(ready, s, f);
            lemma_run_push(st, lines, group_line(s.groups, members));
            let named = run(st, with_groups)->Ok_0;
            let counted = LoaderState { line: named.line + 1, ..named };
            lemma_face_line_step(named, face);
            lemma_place_face_settles(counted, face);
            lemma_place_next_face(s, counted, o, k - 1);
            lemma_follow_place_face(counted, s, f, face);
            lemma_run_push(st, with_groups, face_line(face));
            assert(all =~= with_groups.push(face_line(face)));
            assert forall|i: int| 0 <= i < all.len() implies is_plain(#[trigger] all[i]) by {
                if i < lines.len() {
                    assert(all[i] == lines[i]);
                }
            }
        }
    } else {
        assert(list.take(0) =~= Seq::<nat>::empty());
    }
}

/// The lines for the first `o` objects of a loaded scene, read where
/// nothing but numbers has been read, add those objects and their faces.
/// They leave the groups in the order of their first use, none of them
/// empty, and following those of the scene.
pub proof fn lemma_objects_settle(s: Scene, st: LoaderState, o: int)
    requires
        s.loaded(),
        settled(st),
        same_but_groups(st, between(s, 0, 0)),
        groups_follow(st, s, 0, -1),
        0 <= o <= s.objects.len(),
    ensures
        ({
            let written = objects_lines(s, s.objects.take(o));
            let f = faces_before(s, o);
            &&& written.1 == members_before(s.groups, f)
            &&& run(st, written.0) matches Ok(next) && settled(next) && same_but_groups(
                next,
                between(s, o, 0),
            ) && groups_follow(next, s, f, f - 1)
            &&& forall|i: int| 0 <= i < written.0.len() ==> is_plain(#[trigger] written.0[i])
        }),
    decreases o,
{
    if o > 0 {
        let p = o - 1;
        lemma_objects_settle(s, st, p);
        let (lines, active) = objects_lines(s, s.objects.take(p));
        let object = s.objects[p];
        assert(s.objects.take(o).drop_last() =~= s.objects.take(p));
        assert(s.objects.take(o).last() == object);
        let mid = run(st, lines)->Ok_0;
        let head = header_lines(s, p);
        let opened = lines + head;
        lemma_header_run(s, p, 0);
        if object.name.len() > 0 {
            assert(is_joined(object.name)) by {
                reveal(Scene::loaded);
            }
            lemma_object_line_step(mid, object.name);
            lemma_object_line_step(between(s, p, 0), object.name);
            lemma_step_consistent(mid, object_line(object.name));
            assert(head.drop_last() =~= Seq::<Seq<char>>::empty());
            assert(head.last() == object_line(object.name));
            assert(run(mid, head.drop_last()) == Ok::<LoaderState, LoadingError>(mid));
            assert(run(between(s, p, 0), head.drop_last()) == Ok::<LoaderState, LoadingError>(
                between(s, p, 0),
            ));
        }
        lemma_run_append(st, lines, head);
        let begun = run(st, opened)->Ok_0;
        assert(settled(begun));
        assert(same_but_groups(begun, midway(s, p, 0, head.len())));
        assert(same_but_groups(begun, midway(s, p, 0, 0))) by {
            reveal(midway);
        }
        let count = object.primitives.len() as int;
        lemma_faces_settle(s, begun, p, count);
        assert(object.primitives.take(count) =~= object.primitives);
        let more = faces_lines(s, object.primitives, active).0;
        lemma_run_append(st, opened, more);
        lemma_object_ends(s, p, 0);
        assert(faces_before(s, o) == faces_before(s, p) + count) by {
            assert(s.objects.take(o).drop_last() =~= s.objects.take(p));
        }
        let all = objects_lines(s, s.objects.take(o)).0;
        assert(all =~= opened + more);
        assert forall|i: int| 0 <= i < all.len() implies is_plain(#[trigger] all[i]) by {
            if i < lines.len() {
                assert(all[i] == lines[i]);
            } else if i < opened.len() {
                assert(all[i] == head[i - lines.len()]);
            } else {
                assert(all[i] == more[i - opened.len()]);
            }
        }
    } else {
        assert(s.objects.take(0) =~= Seq::<ObjectView>::empty());
    }
}

/// The group is one of `groups`.
pub open spec fn is_one_of(g: GroupView, groups: Seq<GroupView>) -> bool {
    exists|k: int| 0 <= k < groups.len() && #[trigger] groups[k] == g
}

/// Loading the document of a loaded scene succeeds and gives the vertices,
/// the normals, the texture coordinates, the faces and the objects of the
/// scene. The groups that it gives are the groups of the scene that hold a
/// face, in the order of their first use.
pub proof fn lemma_reload(s: Scene)
    requires
        s.loaded(),
    ensures
        load_spec(render(s)) matches Ok(r) && {
            &&& r.vertices == s.vertices
            &&& r.normals == s.normals
            &&& r.texcoords == s.texcoords
            &&& r.faces == s.faces
            &&& r.objects == s.objects
            &&& r.groups_in_use_order()
            &&& forall|j: int|
                0 <= j < r.groups.len() ==> is_one_of(#[trigger] r.groups[j], s.groups)
            &&& forall|k: int|
                0 <= k < s.groups.len() && holds_a_face(#[trigger] s.groups[k]) ==> is_one_of(
                    s.groups[k],
                    r.groups,
                )
        },
{
    let e3 = Seq::<TripleView>::empty();
    let e4 = Seq::<VertexView>::empty();
    let start = LoaderState::initial();
    let vs = vertex_lines(s.vertices);
    let ns = normal_lines(s.normals);
    let ts = texcoord_lines(s.texcoords);
    let os = objects_lines(s, s.objects).0;
    lemma_initial_consistent();
    assert(forall|i: int| 0 <= i < s.vertices.len() ==> valid_vertex(#[trigger] s.vertices[i])) by {
        reveal(Scene::loaded);
    }
    assert(forall|i: int| 0 <= i < s.normals.len() ==> valid_triple(#[trigger] s.normals[i])) by {
        reveal(Scene::loaded);
    }
    assert(forall|i: int|
        0 <= i < s.texcoords.len() ==> valid_triple(#[trigger] s.texcoords[i])) by {
        reveal(Scene::loaded);
    }
    lemma_vertices_run(start, s.vertices);
    let a = with_numbers(start, s.vertices, e3, e3);
    lemma_normals_run(a, s.normals);
    let b = with_numbers(a, e4, s.normals, e3);
    lemma_texcoords_run(b, s.texcoords);
    let c = with_numbers(b, e4, e3, s.texcoords);
    lemma_run_append(start, vs, ns);
    lemma_run_append(start, vs + ns, ts);
    lemma_run_consistent(start, vs + ns + ts);
    assert(settled(c));
    lemma_all_faces_listed(s);
    assert(same_but_groups(c, between(s, 0, 0))) by {
        reveal(between);
        assert(c.scene.vertices =~= s.vertices);
        assert(c.scene.normals =~= s.normals);
        assert(c.scene.texcoords =~= s.texcoords);
        assert(c.scene.faces =~= s.faces.take(0));
        assert(c.scene.objects =~= s.objects.take(0));
    }
    assert(groups_follow(c, s, 0, -1)) by {
        assert forall|k: int| 0 <= k < s.groups.len() implies !used_below(
            #[trigger] s.groups[k],
            0,
        ) by {}
    }
    let count = s.objects.len() as int;
    lemma_objects_settle(s, c, count);
    assert(s.objects.take(count) =~= s.objects);
    lemma_run_append(start, vs + ns + ts, os);
    let all = document_lines(s);
    assert forall|i: int| 0 <= i < all.len() implies is_plain(#[trigger] all[i]) by {
        if i < vs.len() {
            assert(all[i] == vs[i]);
        } else if i < vs.len() + ns.len() {
            assert(all[i] == ns[i - vs.len()]);
        } else if i < vs.len() + ns.len() + ts.len() {
            assert(all[i] == ts[i - vs.len() - ns.len()]);
        } else {
            assert(all[i] == os[i - vs.len() - ns.len() - ts.len()]);
        }
    }
    lemma_lines_of_unlines(all);
    lemma_run_push(start, all, Seq::empty());
    let st = run(start, all)->Ok_0;
    assert(tokens(Seq::<char>::empty()) =~= Seq::<Seq<char>>::empty());
    assert(step(st, Seq::empty()) == Ok::<LoaderState, LoadingError>(st));
    assert(st.scene.vertices == s.vertices && st.scene.normals == s.normals
        && st.scene.texcoords == s.texcoords && st.scene.faces == s.faces && st.scene.objects
        == s.objects) by {
        reveal(between);
        assert(s.faces.take(s.faces.len() as int) =~= s.faces);
    }
    lemma_followed_to_the_end(st, s);
}

/// Groups that follow those of a loaded scene once all its faces are read
/// are the groups of the scene that hold a face.
pub proof fn lemma_followed_to_the_end(st: LoaderState, s: Scene)
    requires
        s.loaded(),
        groups_follow(st, s, s.faces.len(), s.faces.len() - 1),
    ensures
        forall|j: int|
            0 <= j < st.scene.groups.len() ==> is_one_of(#[trigger] st.scene.groups[j], s.groups),
        forall|k: int|
            0 <= k < s.groups.len() && holds_a_face(#[trigger] s.groups[k]) ==> is_one_of(
                s.groups[k],
                st.scene.groups,
            ),
{
    reveal(Scene::loaded);
    let n = s.faces.len();
    let got = st.scene.groups;
    assert forall|k: int| 0 <= k < s.groups.len() implies #[trigger] cut(s.groups[k], n)
        == s.groups[k] by {
        assert(cut(s.groups[k], n).indexes =~= s.groups[k].indexes);
    }
    assert forall|j: int| 0 <= j < got.len() implies is_one_of(#[trigger] got[j], s.groups) by {
        assert(is_cut_of(got[j], s.groups, n));
        let k = choose|k: int| 0 <= k < s.groups.len() && #[trigger] cut(s.groups[k], n) == got[j];
        assert(s.groups[k] == got[j]);
    }
    assert forall|k: int|
        0 <= k < s.groups.len() && holds_a_face(#[trigger] s.groups[k]) implies is_one_of(
        s.groups[k],
        got,
    ) by {
        let f = choose|f: nat| s.groups[k].indexes.contains(f);
        assert(s.groups[k].indexes.contains(f));
        assert(used_below(s.groups[k], n));
        assert(has_group_named(got, s.groups[k].name));
        let j = choose|j: int| 0 <= j < got.len() && (#[trigger] got[j]).name == s.groups[k].name;
        assert(is_cut_of(got[j], s.groups, n));
        let m = choose|m: int| 0 <= m < s.groups.len() && #[trigger] cut(s.groups[m], n) == got[j];
        assert(s.groups[m] == got[j]);
        if m != k {
            if m < k {
                assert(s.groups[m].name != s.groups[k].name);
            } else {
                assert(s.groups[k].name != s.groups[m].name);
            }
        }
        assert(got[j] == s.groups[k]);
    }
}

/// What loading a written document gives is what writing and loading once
/// more gives again.
pub proof fn lemma_reload_is_stable(s: Scene)
    requires
        s.loaded(),
    ensures
        load_spec(render(s)) matches Ok(r) && load_spec(render(r)) == Ok::<Scene, LoadingError>(r),
{
    lemma_reload(s);
    let r = load_spec(render(s))->Ok_0;
    lemma_load_inverts_write(render(s), r);
}

/// Of a scene that was loaded: loading the document that was written for it
/// gives the scene back exactly if its groups stand in the order of their
/// first use and none of them is empty.
pub proof fn lemma_round_trip_exactly(text: Seq<char>, scene: Scene)
    requires
        load_spec(text) == Ok::<Scene, LoadingError>(scene),
    ensures
        load_spec(render(scene)) == Ok::<Scene, LoadingError>(scene)
            <==> scene.groups_in_use_order(),
{
    lemma_load_gives_loaded(text);
    lemma_reload(scene);
    if scene.groups_in_use_order() {
        lemma_load_inverts_write(text, scene);
    }
}

} // verus!
