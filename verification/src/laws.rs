//! Laws of loading and writing.

use vstd::prelude::*;
use crate::directive::{
    activate, all_numbers, apply, directive_of, face_of, place_face, run, set_groups, step,
    Directive, LoaderState,
};
use crate::loaded::{count_up, distinct_words, lemma_activate};
use crate::roundtrip::lemma_find_distinct;
use crate::scene::{FaceRef, LoadingError, ObjectView, Scene};
use crate::text::{is_word, lemma_tokens_are_words, tokens};
use crate::writer::{
    document_lines, face_line, faces_lines, group_line, membership, normal_lines, object_line,
    objects_lines, texcoord_lines, vertex_lines,
};

verus! {

/// The line holds a directive: it is no comment and it is not blank.
pub open spec fn is_directive_line(line: Seq<char>) -> bool {
    !(line.len() > 0 && line[0] == '#') && tokens(line).len() > 0
}

/// A line whose first word names no directive is refused as invalid, under
/// the number of the line, whatever follows the word.
pub proof fn lemma_unknown_directive(st: LoaderState, line: Seq<char>)
    requires
        is_directive_line(line),
        directive_of(tokens(line)[0]) is None,
    ensures
        step(st, line) == Err::<LoaderState, LoadingError>(
            LoadingError::InvalidLine(st.line as usize),
        ),
{
    reveal(apply);
}

/// In a `v`, `vn` or `vt` line, an argument that is no number is a parse
/// error, however many arguments there are.
pub proof fn lemma_bad_number_comes_first(st: LoaderState, line: Seq<char>)
    requires
        is_directive_line(line),
        directive_of(tokens(line)[0]) == Some(Directive::Vertex) || directive_of(tokens(line)[0])
            == Some(Directive::Normal) || directive_of(tokens(line)[0]) == Some(
            Directive::TexCoord,
        ),
        !all_numbers(tokens(line).skip(1)),
    ensures
        step(st, line) == Err::<LoaderState, LoadingError>(LoadingError::Parse(st.line as usize)),
{
    reveal(apply);
}

/// A face joins the open object: it becomes the last face that the object
/// lists, and no other object changes.
pub proof fn lemma_face_joins_open_object(st: LoaderState, face: Seq<FaceRef>, o: nat)
    requires
        st.object == Some(o),
        o < st.scene.objects.len(),
    ensures
        place_face(st, face).scene.objects == st.scene.objects.update(
            o as int,
            ObjectView {
                name: st.scene.objects[o as int].name,
                primitives: st.scene.objects[o as int].primitives.push(st.scene.faces.len()),
            },
        ),
        place_face(st, face).object == Some(o),
{
}

/// The line opens an object.
pub open spec fn opens_object(line: Seq<char>) -> bool {
    is_directive_line(line) && directive_of(tokens(line)[0]) == Some(Directive::Object)
}

/// Without an `o` line there is no object while there is no face, and one
/// object without a name that lists all the faces once there is one.
pub open spec fn one_unnamed_object(st: LoaderState) -> bool {
    if st.scene.faces.len() == 0 {
        st.scene.objects == Seq::<ObjectView>::empty() && st.object is None
    } else {
        st.scene.objects == seq![
            ObjectView { name: Seq::empty(), primitives: count_up(st.scene.faces.len()) },
        ] && st.object == Some(0nat)
    }
}

/// A line that opens no object keeps the one object without a name.
pub proof fn lemma_step_without_object(st: LoaderState, line: Seq<char>)
    requires
        one_unnamed_object(st),
        !opens_object(line),
    ensures
        step(st, line) matches Ok(next) ==> one_unnamed_object(next),
{
    reveal(apply);
    if is_directive_line(line) && step(st, line) is Ok {
        let next = step(st, line)->Ok_0;
        let words = tokens(line);
        let counted = LoaderState { line: st.line + 1, ..st };
        match directive_of(words[0]) {
            Some(Directive::Face) => {
                let face = face_of(words.skip(1), st.line as usize)->Ok_0;
                assert(next == place_face(counted, face));
                let n = st.scene.faces.len();
                if n == 0 {
                    assert(next.scene.objects[0].primitives =~= count_up(1));
                    assert(next.scene.objects =~= seq![
                        ObjectView { name: Seq::empty(), primitives: count_up(1) },
                    ]);
                } else {
                    assert(next.scene.objects[0].primitives =~= count_up(n + 1));
                    assert(next.scene.objects =~= seq![
                        ObjectView { name: Seq::empty(), primitives: count_up(n + 1) },
                    ]);
                }
            },
            _ => {},
        }
    }
}

/// In a document without an `o` line, all the faces belong to one object
/// without a name, and there is no object if there is no face.
pub proof fn lemma_faces_without_object(lines: Seq<Seq<char>>)
    requires
        forall|i: int| 0 <= i < lines.len() ==> !opens_object(#[trigger] lines[i]),
    ensures
        run(LoaderState::initial(), lines) matches Ok(st) ==> one_unnamed_object(st),
    decreases lines.len(),
{
    if lines.len() > 0 {
        let front = lines.drop_last();
        assert forall|i: int| 0 <= i < front.len() implies !opens_object(#[trigger] front[i]) by {
            assert(front[i] == lines[i]);
        }
        lemma_faces_without_object(front);
        if run(LoaderState::initial(), front) is Ok {
            lemma_step_without_object(run(LoaderState::initial(), front)->Ok_0, lines.last());
        }
    }
}

/// A line leaves every group its name and its faces, and gives it at most
/// the face that the line makes; the groups that the line makes stand after
/// the others and are empty.
pub proof fn lemma_groups_only_grow(st: LoaderState, line: Seq<char>)
    requires
        st.in_bounds(),
        distinct_words(st.scene.groups),
    ensures
        step(st, line) matches Ok(next) ==> {
            &&& next.scene.groups.len() >= st.scene.groups.len()
            &&& forall|j: int|
                0 <= j < st.scene.groups.len() ==> {
                    &&& (#[trigger] next.scene.groups[j]).name == st.scene.groups[j].name
                    &&& st.scene.groups[j].indexes.subset_of(next.scene.groups[j].indexes)
                    &&& next.scene.groups[j].indexes.subset_of(
                        st.scene.groups[j].indexes.insert(st.scene.faces.len()),
                    )
                }
            &&& forall|j: int|
                st.scene.groups.len() <= j < next.scene.groups.len() ==> (
                #[trigger] next.scene.groups[j]).indexes == Set::<nat>::empty()
        },
{
    reveal(apply);
    if is_directive_line(line) && step(st, line) is Ok {
        let next = step(st, line)->Ok_0;
        let words = tokens(line);
        let args = words.skip(1);
        let counted = LoaderState { line: st.line + 1, ..st };
        match directive_of(words[0]) {
            Some(Directive::Group) => {
                lemma_tokens_are_words(line);
                assert forall|i: int| 0 <= i < args.len() implies is_word(#[trigger] args[i]) by {
                    assert(args[i] == words[i + 1]);
                }
                lemma_activate(st.scene.groups, args);
                assert forall|j: int| 0 <= j < st.scene.groups.len() implies (
                #[trigger] next.scene.groups[j]) == st.scene.groups[j] by {
                    assert(next.scene.groups.take(st.scene.groups.len() as int)[j]
                        == next.scene.groups[j]);
                }
            },
            _ => {},
        }
    }
}

/// Naming a group that exists activates that group and makes none.
pub proof fn lemma_reactivation(st: LoaderState, j: int)
    requires
        distinct_words(st.scene.groups),
        0 <= j < st.scene.groups.len(),
    ensures
        set_groups(st, seq![st.scene.groups[j].name]).scene == st.scene,
        set_groups(st, seq![st.scene.groups[j].name]).active == seq![j as nat],
{
    let names = seq![st.scene.groups[j].name];
    assert(names.drop_last() =~= Seq::<Seq<char>>::empty());
    assert(names.last() == st.scene.groups[j].name);
    assert(activate(st.scene.groups, names.drop_last()) == (
        st.scene.groups,
        Seq::<nat>::empty(),
    ));
    lemma_find_distinct(st.scene.groups, j);
    let (groups, active) = activate(st.scene.groups, names);
    assert(groups == st.scene.groups);
    assert(active =~= seq![j as nat]);
}

/// The lines that begin with `o`, in order.
pub open spec fn o_lines(lines: Seq<Seq<char>>) -> Seq<Seq<char>>
    decreases lines.len(),
{
    if lines.len() == 0 {
        Seq::empty()
    } else if lines.last().len() > 0 && lines.last()[0] == 'o' {
        o_lines(lines.drop_last()).push(lines.last())
    } else {
        o_lines(lines.drop_last())
    }
}

/// The `o` lines of the objects that have a name, in order.
pub open spec fn named_lines(objects: Seq<ObjectView>) -> Seq<Seq<char>>
    decreases objects.len(),
{
    if objects.len() == 0 {
        Seq::empty()
    } else if objects.last().name.len() > 0 {
        named_lines(objects.drop_last()).push(object_line(objects.last().name))
    } else {
        named_lines(objects.drop_last())
    }
}

/// The `o` lines of two stretches of lines are those of the one and those
/// of the other.
pub proof fn lemma_o_lines_append(a: Seq<Seq<char>>, b: Seq<Seq<char>>)
    ensures
        o_lines(a + b) == o_lines(a) + o_lines(b),
    decreases b.len(),
{
    if b.len() == 0 {
        assert(a + b =~= a);
        assert(o_lines(a) + o_lines(b) =~= o_lines(a));
    } else {
        assert((a + b).drop_last() =~= a + b.drop_last());
        lemma_o_lines_append(a, b.drop_last());
        assert(o_lines(a + b) =~= o_lines(a) + o_lines(b));
    }
}

/// Lines of which none begins with `o` hold no `o` line.
pub proof fn lemma_no_o_lines(lines: Seq<Seq<char>>)
    requires
        forall|i: int|
            0 <= i < lines.len() ==> (#[trigger] lines[i]).len() > 0 && lines[i][0] != 'o',
    ensures
        o_lines(lines) == Seq::<Seq<char>>::empty(),
    decreases lines.len(),
{
    if lines.len() > 0 {
        let front = lines.drop_last();
        assert forall|i: int| 0 <= i < front.len() implies (#[trigger] front[i]).len() > 0
            && front[i][0] != 'o' by {
            assert(front[i] == lines[i]);
        }
        lemma_no_o_lines(front);
    }
}

/// The lines for faces begin with `g` or `f`.
pub proof fn lemma_faces_lines_begin(s: Scene, faces: Seq<nat>, active: Seq<nat>)
    ensures
        forall|i: int|
            0 <= i < faces_lines(s, faces, active).0.len() ==> (#[trigger] faces_lines(
                s,
                faces,
                active,
            ).0[i]).len() > 0 && faces_lines(s, faces, active).0[i][0] != 'o',
    decreases faces.len(),
{
    if faces.len() > 0 {
        lemma_faces_lines_begin(s, faces.drop_last(), active);
        let (lines, before) = faces_lines(s, faces.drop_last(), active);
        let all = faces_lines(s, faces, active).0;
        let face = faces.last();
        let members = membership(s.groups, face);
        assert(group_line(s.groups, members)[0] == 'g');
        assert(face_line(s.faces[face as int])[0] == 'f');
        assert forall|i: int| 0 <= i < all.len() implies (#[trigger] all[i]).len() > 0 && all[i][0]
            != 'o' by {
            if i < lines.len() {
                assert(all[i] == lines[i]);
            }
        }
    }
}

/// The `o` lines among the lines for objects are those of the objects that
/// have a name.
pub proof fn lemma_objects_o_lines(s: Scene, objects: Seq<ObjectView>)
    ensures
        o_lines(objects_lines(s, objects).0) == named_lines(objects),
    decreases objects.len(),
{
    if objects.len() > 0 {
        lemma_objects_o_lines(s, objects.drop_last());
        let (lines, active) = objects_lines(s, objects.drop_last());
        let object = objects.last();
        let more = faces_lines(s, object.primitives, active).0;
        lemma_faces_lines_begin(s, object.primitives, active);
        lemma_no_o_lines(more);
        if object.name.len() > 0 {
            let opened = lines.push(object_line(object.name));
            assert(opened.drop_last() =~= lines);
            assert(object_line(object.name)[0] == 'o');
            lemma_o_lines_append(opened, more);
            assert(o_lines(opened) + o_lines(more) =~= o_lines(opened));
        } else {
            lemma_o_lines_append(lines, more);
            assert(o_lines(lines) + o_lines(more) =~= o_lines(lines));
        }
    }
}

/// A document holds one `o` line for each object that has a name, in the
/// order of the objects, and none for an object without a name.
pub proof fn lemma_o_lines_are_named_objects(s: Scene)
    ensures
        o_lines(document_lines(s)) == named_lines(s.objects),
{
    let vs = vertex_lines(s.vertices);
    let ns = normal_lines(s.normals);
    let ts = texcoord_lines(s.texcoords);
    let os = objects_lines(s, s.objects).0;
    assert forall|i: int| 0 <= i < vs.len() implies (#[trigger] vs[i]).len() > 0 && vs[i][0]
        != 'o' by {
        assert(vs[i][0] == 'v');
    }
    assert forall|i: int| 0 <= i < ns.len() implies (#[trigger] ns[i]).len() > 0 && ns[i][0]
        != 'o' by {
        assert(ns[i][0] == 'v');
    }
    assert forall|i: int| 0 <= i < ts.len() implies (#[trigger] ts[i]).len() > 0 && ts[i][0]
        != 'o' by {
        assert(ts[i][0] == 'v');
    }
    lemma_no_o_lines(vs);
    lemma_no_o_lines(ns);
    lemma_no_o_lines(ts);
    lemma_objects_o_lines(s, s.objects);
    lemma_o_lines_append(vs, ns);
    lemma_o_lines_append(vs + ns, ts);
    lemma_o_lines_append(vs + ns + ts, os);
    assert(o_lines(document_lines(s)) =~= named_lines(s.objects));
}

} // verus!
