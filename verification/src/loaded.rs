//! What holds of every scene that was loaded.

use vstd::prelude::*;
use crate::directive::{
    activate, apply, directive_of, face_of, face_ref_of, find_group, find_group_from,
    join_words, load_spec, one, open_object, place_face, run, set_groups, step, zero, Directive,
    LoaderState,
};

use crate::number::{digits_end, is_decimal, is_number};
use crate::scene::{FaceRef, GroupView, ObjectView, Scene, TripleView, VertexView};
use crate::text::{
    is_space, is_word, lemma_tokens_append_word, lemma_tokens_are_words,
    lemma_tokens_push_space, lines, tokens,
};

verus! {

/// A name made of words with single spaces between them.
pub open spec fn is_joined(name: Seq<char>) -> bool {
    tokens(name).len() > 0 && join_words(tokens(name)) == name
}

/// Every index is one that a document can spell.
pub open spec fn valid_ref(r: FaceRef) -> bool {
    &&& r.0 < usize::MAX
    &&& r.1 matches Some(t) ==> t < usize::MAX
    &&& r.2 matches Some(n) ==> n < usize::MAX
}

/// A face as a document can spell it: at least three corners, each valid.
pub open spec fn valid_face(face: Seq<FaceRef>) -> bool {
    &&& face.len() >= 3
    &&& forall|i: int| 0 <= i < face.len() ==> valid_ref(#[trigger] face[i])
}

/// Every coordinate is a number.
pub open spec fn valid_vertex(v: VertexView) -> bool {
    is_number(v.0) && is_number(v.1) && is_number(v.2) && is_number(v.3)
}

/// Every coordinate is a number.
pub open spec fn valid_triple(v: TripleView) -> bool {
    is_number(v.0) && is_number(v.1) && is_number(v.2)
}

/// The faces that the objects list, one object after the other.
pub open spec fn primitives_of(objects: Seq<ObjectView>) -> Seq<nat>
    decreases objects.len(),
{
    if objects.len() == 0 {
        Seq::empty()
    } else {
        primitives_of(objects.drop_last()) + objects.last().primitives
    }
}

/// The numbers from zero up to `n`, without it.
pub open spec fn count_up(n: nat) -> Seq<nat> {
    Seq::new(n, |i: int| i as nat)
}

impl Scene {
    /// What a load establishes: the numbers are numbers, a face has at least
    /// three corners, the objects list the faces in order and each once, an
    /// object without a name is the first and not empty, an object's name is
    /// made of words, and the groups bear different one-word names and hold
    /// faces of the scene only.
    #[verifier::opaque]
    pub open spec fn loaded(self) -> bool {
        &&& forall|i: int|
            0 <= i < self.vertices.len() ==> valid_vertex(#[trigger] self.vertices[i])
        &&& forall|i: int| 0 <= i < self.normals.len() ==> valid_triple(#[trigger] self.normals[i])
        &&& forall|i: int|
            0 <= i < self.texcoords.len() ==> valid_triple(#[trigger] self.texcoords[i])
        &&& forall|i: int| 0 <= i < self.faces.len() ==> valid_face(#[trigger] self.faces[i])
        &&& primitives_of(self.objects) == count_up(self.faces.len())
        &&& forall|o: int|
            0 <= o < self.objects.len() ==> if (#[trigger] self.objects[o]).name.len() == 0 {
                o == 0 && self.objects[o].primitives.len() > 0
            } else {
                is_joined(self.objects[o].name)
            }
        &&& forall|j: int| 0 <= j < self.groups.len() ==> is_word((#[trigger] self.groups[j]).name)
        &&& forall|j: int, k: int|
            0 <= j < k < self.groups.len() ==> (#[trigger] self.groups[j]).name != (
            #[trigger] self.groups[k]).name
        &&& forall|j: int, f: nat|
            0 <= j < self.groups.len() && #[trigger] self.groups[j].indexes.contains(f) ==> f
                < self.faces.len()
    }
}

impl LoaderState {
    /// What holds between two lines of a load: the scene is as a load makes
    /// it, the active groups exist, and the open object is the last one.
    pub open spec fn consistent(self) -> bool {
        &&& self.scene.loaded()
        &&& self.in_bounds()
        &&& match self.object {
            None => self.scene.objects.len() == 0,
            Some(o) => o + 1 == self.scene.objects.len(),
        }
    }
}

/// Words that were joined come apart as they were.
pub proof fn lemma_tokens_of_joined(words: Seq<Seq<char>>)
    requires
        words.len() > 0,
        forall|i: int| 0 <= i < words.len() ==> is_word(#[trigger] words[i]),
    ensures
        tokens(join_words(words)) == words,
        join_words(words).len() > 0,
        !is_space(join_words(words).last()),
    decreases words.len(),
{
    if words.len() == 1 {
        let w = words[0];
        assert(Seq::<char>::empty() + w =~= w);
        lemma_tokens_append_word(Seq::empty(), w);
        assert(tokens(Seq::<char>::empty()) =~= Seq::<Seq<char>>::empty());
        assert(Seq::<Seq<char>>::empty().push(w) =~= words);
    } else {
        let head = words.drop_last();
        let w = words.last();
        lemma_tokens_of_joined(head);
        let s = join_words(head) + seq![' '];
        assert(s =~= join_words(head).push(' '));
        lemma_tokens_push_space(join_words(head), ' ');
        lemma_tokens_append_word(s, w);
        assert(head.push(w) =~= words);
        assert((s + w).last() == w.last());
    }
}

/// A corner that was read holds indices that can be written again.
pub proof fn lemma_face_ref_valid(word: Seq<char>, nb: usize)
    ensures
        face_ref_of(word, nb) matches Ok(r) ==> valid_ref(r),
{
}

/// A face that was read has as many corners as there were words.
pub proof fn lemma_face_valid(args: Seq<Seq<char>>, nb: usize)
    ensures
        face_of(args, nb) matches Ok(face) ==> face.len() == args.len() && forall|i: int|
            0 <= i < face.len() ==> valid_ref(#[trigger] face[i]),
    decreases args.len(),
{
    if args.len() > 0 {
        lemma_face_valid(args.drop_last(), nb);
        lemma_face_ref_valid(args.last(), nb);
    }
}

/// `find_group_from` finds the first group from `i` on that bears the name.
pub proof fn lemma_find_group_from(groups: Seq<GroupView>, name: Seq<char>, i: int)
    requires
        0 <= i,
    ensures
        match find_group_from(groups, name, i) {
            Some(k) => i <= k < groups.len() && groups[k as int].name == name && forall|j: int|
                i <= j < k ==> (#[trigger] groups[j]).name != name,
            None => forall|j: int| i <= j < groups.len() ==> (#[trigger] groups[j]).name != name,
        },
    decreases groups.len() - i,
{
    if i < groups.len() && groups[i].name != name {
        lemma_find_group_from(groups, name, i + 1);
    }
}

/// The groups bear different names, each one word.
pub open spec fn distinct_words(groups: Seq<GroupView>) -> bool {
    &&& forall|j: int| 0 <= j < groups.len() ==> is_word((#[trigger] groups[j]).name)
    &&& forall|j: int, k: int|
        0 <= j < k < groups.len() ==> (#[trigger] groups[j]).name != (#[trigger] groups[k]).name
}

/// Activating groups keeps those that exist as they are, makes new ones
/// empty and under names not used before, and activates existing groups only.
pub proof fn lemma_activate(groups: Seq<GroupView>, names: Seq<Seq<char>>)
    requires
        distinct_words(groups),
        forall|i: int| 0 <= i < names.len() ==> is_word(#[trigger] names[i]),
    ensures
        ({
            let (after, active) = activate(groups, names);
            &&& distinct_words(after)
            &&& after.len() >= groups.len()
            &&& after.take(groups.len() as int) == groups
            &&& forall|j: int|
                groups.len() <= j < after.len() ==> (#[trigger] after[j]).indexes == Set::<
                    nat,
                >::empty()
            &&& active.len() == names.len()
            &&& forall|k: int| 0 <= k < active.len() ==> #[trigger] active[k] < after.len()
            &&& forall|k: int|
                0 <= k < active.len() ==> after[(#[trigger] active[k]) as int].name == names[k]
            &&& forall|j: nat| groups.len() <= j < after.len() ==> #[trigger] active.contains(j)
        }),
    decreases names.len(),
{
    if names.len() == 0 {
        assert(groups.take(groups.len() as int) =~= groups);
    } else {
        lemma_activate(groups, names.drop_last());
        let (before, seen) = activate(groups, names.drop_last());
        let (after, active) = activate(groups, names);
        lemma_find_group_from(before, names.last(), 0);
        match find_group(before, names.last()) {
            Some(i) => {
                assert forall|j: nat|
                    groups.len() <= j < after.len() implies #[trigger] active.contains(j) by {
                    assert(seen.contains(j));
                    let k = choose|k: int| 0 <= k < seen.len() && seen[k] == j;
                    assert(active[k] == j);
                }
            },
            None => {
                assert(after.take(groups.len() as int) =~= before.take(groups.len() as int));
                assert forall|j: nat|
                    groups.len() <= j < after.len() implies #[trigger] active.contains(j) by {
                    if j < before.len() {
                        assert(seen.contains(j));
                        let k = choose|k: int| 0 <= k < seen.len() && seen[k] == j;
                        assert(active[k] == j);
                    } else {
                        assert(active[active.len() - 1] == j);
                    }
                }
            },
        }
    }
}

/// The literals that stand for what was left out are numbers.
pub proof fn lemma_defaults_are_numbers()
    ensures
        is_number(one()),
        is_number(zero()),
{
    assert(digits_end(one(), 1) == 1);
    assert(digits_end(one(), 0) == 1);
    assert(is_decimal(one(), 0));
    assert(digits_end(zero(), 1) == 1);
    assert(digits_end(zero(), 0) == 1);
    assert(is_decimal(zero(), 0));
}

/// The faces listed grow by what the last object lists more.
pub proof fn lemma_primitives_of_last(objects: Seq<ObjectView>, last: ObjectView)
    requires
        objects.len() > 0,
    ensures
        primitives_of(objects.update(objects.len() - 1, last)) == primitives_of(
            objects.drop_last(),
        ) + last.primitives,
{
    let updated = objects.update(objects.len() - 1, last);
    assert(updated.drop_last() =~= objects.drop_last());
}

/// Adding a face keeps a load consistent.
pub proof fn lemma_place_face_consistent(st: LoaderState, face: Seq<FaceRef>)
    requires
        st.consistent(),
        valid_face(face),
    ensures
        place_face(st, face).consistent(),
{
    reveal(Scene::loaded);
    let s = st.scene;
    let next = place_face(st, face);
    let n = next.scene;
    let index = s.faces.len();
    let objects = if st.object is None {
        s.objects.push(ObjectView { name: Seq::empty(), primitives: Seq::empty() })
    } else {
        s.objects
    };
    let object: nat = match st.object {
        Some(o) => o,
        None => s.objects.len(),
    };
    assert(object == objects.len() - 1);
    let last = ObjectView {
        name: objects[object as int].name,
        primitives: objects[object as int].primitives.push(index),
    };
    assert(n.objects == objects.update(objects.len() - 1, last));
    lemma_primitives_of_last(objects, last);
    if st.object is None {
        assert(objects.drop_last() =~= s.objects);
        assert(primitives_of(s.objects) =~= Seq::<nat>::empty());
        assert(index == 0);
    } else {
        assert(primitives_of(s.objects) == primitives_of(objects.drop_last())
            + objects.last().primitives);
    }
    assert(primitives_of(n.objects) =~= count_up(n.faces.len())) by {
        assert(primitives_of(n.objects) =~= primitives_of(s.objects).push(index));
    }
    assert forall|i: int| 0 <= i < n.faces.len() implies valid_face(#[trigger] n.faces[i]) by {
        if i < s.faces.len() {
            assert(n.faces[i] == s.faces[i]);
        }
    }
    assert forall|o: int| 0 <= o < n.objects.len() implies if (#[trigger] n.objects[o]).name.len()
        == 0 {
        o == 0 && n.objects[o].primitives.len() > 0
    } else {
        is_joined(n.objects[o].name)
    } by {
        if o == object {
            if st.object is Some {
                assert(s.objects[o].name == n.objects[o].name);
            }
        } else {
            assert(n.objects[o] == s.objects[o]);
        }
    }
    assert forall|j: int| 0 <= j < n.groups.len() implies is_word(
        (#[trigger] n.groups[j]).name,
    ) by {
        assert(n.groups[j].name == s.groups[j].name);
    }
    assert forall|j: int, k: int| 0 <= j < k < n.groups.len() implies (#[trigger] n.groups[j]).name
        != (#[trigger] n.groups[k]).name by {
        assert(n.groups[j].name == s.groups[j].name);
        assert(n.groups[k].name == s.groups[k].name);
    }
    assert forall|j: int, f: nat|
        0 <= j < n.groups.len() && #[trigger] n.groups[j].indexes.contains(f) implies f
        < n.faces.len() by {
        if f != index {
            assert(s.groups[j].indexes.contains(f));
        }
    }
}

/// Opening an object keeps a load consistent.
pub proof fn lemma_open_object_consistent(st: LoaderState, args: Seq<Seq<char>>, nb: usize)
    requires
        st.consistent(),
        forall|i: int| 0 <= i < args.len() ==> is_word(#[trigger] args[i]),
    ensures
        open_object(st, args, nb) matches Ok(next) ==> next.consistent(),
{
    reveal(Scene::loaded);
    if args.len() > 0 {
        let next = open_object(st, args, nb)->Ok_0;
        let s = st.scene;
        let n = next.scene;
        lemma_tokens_of_joined(args);
        let made = ObjectView { name: join_words(args), primitives: Seq::empty() };
        assert(n.objects == s.objects.push(made));
        assert(n.objects.drop_last() =~= s.objects);
        assert(primitives_of(n.objects) =~= primitives_of(s.objects));
        assert forall|o: int| 0 <= o < n.objects.len() implies if (
        #[trigger] n.objects[o]).name.len() == 0 {
            o == 0 && n.objects[o].primitives.len() > 0
        } else {
            is_joined(n.objects[o].name)
        } by {
            if o < s.objects.len() {
                assert(n.objects[o] == s.objects[o]);
            }
        }
    }
}

/// Naming the active groups keeps a load consistent.
pub proof fn lemma_set_groups_consistent(st: LoaderState, args: Seq<Seq<char>>)
    requires
        st.consistent(),
        forall|i: int| 0 <= i < args.len() ==> is_word(#[trigger] args[i]),
    ensures
        set_groups(st, args).consistent(),
{
    reveal(Scene::loaded);
    let next = set_groups(st, args);
    let s = st.scene;
    let n = next.scene;
    lemma_activate(s.groups, args);
    assert forall|j: int, f: nat|
        0 <= j < n.groups.len() && #[trigger] n.groups[j].indexes.contains(f) implies f
        < n.faces.len() by {
        if j < s.groups.len() {
            assert(n.groups.take(s.groups.len() as int)[j] == n.groups[j]);
            assert(s.groups[j].indexes.contains(f));
        }
    }
}

/// A line keeps a load consistent.
pub proof fn lemma_step_consistent(st: LoaderState, line: Seq<char>)
    requires
        st.consistent(),
    ensures
        step(st, line) matches Ok(next) ==> next.consistent(),
{
    reveal(apply);
    reveal(Scene::loaded);
    let words = tokens(line);
    if !(line.len() > 0 && line[0] == '#') && words.len() > 0 {
        lemma_tokens_are_words(line);
        let nb = st.line as usize;
        let args = words.skip(1);
        let counted = LoaderState { line: st.line + 1, ..st };
        assert forall|i: int| 0 <= i < args.len() implies is_word(#[trigger] args[i]) by {
            assert(args[i] == words[i + 1]);
        }
        lemma_defaults_are_numbers();
        match directive_of(words[0]) {
            None => {},
            Some(Directive::Vertex) => {
                if step(st, line) is Ok {
                    let n = step(st, line)->Ok_0.scene;
                    assert forall|i: int| 0 <= i < n.vertices.len() implies valid_vertex(
                        #[trigger] n.vertices[i],
                    ) by {
                        if i < st.scene.vertices.len() {
                            assert(n.vertices[i] == st.scene.vertices[i]);
                        }
                    }
                }
            },
            Some(Directive::Normal) => {
                if step(st, line) is Ok {
                    let n = step(st, line)->Ok_0.scene;
                    assert forall|i: int| 0 <= i < n.normals.len() implies valid_triple(
                        #[trigger] n.normals[i],
                    ) by {
                        if i < st.scene.normals.len() {
                            assert(n.normals[i] == st.scene.normals[i]);
                        }
                    }
                }
            },
            Some(Directive::TexCoord) => {
                if step(st, line) is Ok {
                    let n = step(st, line)->Ok_0.scene;
                    assert forall|i: int| 0 <= i < n.texcoords.len() implies valid_triple(
                        #[trigger] n.texcoords[i],
                    ) by {
                        if i < st.scene.texcoords.len() {
                            assert(n.texcoords[i] == st.scene.texcoords[i]);
                        }
                    }
                }
            },
            Some(Directive::Smoothing) => {},
            Some(Directive::Face) => {
                if args.len() >= 3 {
                    lemma_face_valid(args, nb);
                    if face_of(args, nb) is Ok {
                        lemma_place_face_consistent(counted, face_of(args, nb)->Ok_0);
                    }
                }
            },
            Some(Directive::Object) => {
                lemma_open_object_consistent(counted, args, nb);
            },
            Some(Directive::Group) => {
                lemma_set_groups_consistent(counted, args);
            },
        }
    }
}

/// Lines keep a load consistent.
pub proof fn lemma_run_consistent(st: LoaderState, lines: Seq<Seq<char>>)
    requires
        st.consistent(),
    ensures
        run(st, lines) matches Ok(next) ==> next.consistent(),
    decreases lines.len(),
{
    if lines.len() > 0 {
        lemma_run_consistent(st, lines.drop_last());
        if run(st, lines.drop_last()) is Ok {
            lemma_step_consistent(run(st, lines.drop_last())->Ok_0, lines.last());
        }
    }
}

/// In a scene as a load makes it, every face that an object lists is a face
/// of the scene.
pub proof fn lemma_loaded_is_resolvable(s: Scene)
    requires
        s.loaded(),
    ensures
        s.resolvable(),
{
    reveal(Scene::loaded);
    assert forall|o: int, k: int|
        0 <= o < s.objects.len() && 0 <= k < s.objects[o].primitives.len() implies (
    #[trigger] s.objects[o].primitives[k]) < s.faces.len() by {
        lemma_primitives_within(s.objects, o, k);
    }
}

/// What an object lists is among what all the objects list.
pub proof fn lemma_primitives_within(objects: Seq<ObjectView>, o: int, k: int)
    requires
        0 <= o < objects.len(),
        0 <= k < objects[o].primitives.len(),
    ensures
        exists|i: int|
            0 <= i < primitives_of(objects).len() && primitives_of(objects)[i]
                == objects[o].primitives[k],
    decreases objects.len(),
{
    let front = primitives_of(objects.drop_last());
    if o == objects.len() - 1 {
        assert(primitives_of(objects)[front.len() + k] == objects[o].primitives[k]);
    } else {
        lemma_primitives_within(objects.drop_last(), o, k);
        let i = choose|i: int|
            0 <= i < front.len() && front[i] == objects.drop_last()[o].primitives[k];
        assert(primitives_of(objects)[i] == objects[o].primitives[k]);
    }
}

/// A load begins consistent.
pub proof fn lemma_initial_consistent()
    ensures
        LoaderState::initial().consistent(),
{
    reveal(Scene::loaded);
    assert(primitives_of(Scene::empty().objects) =~= count_up(0));
}

/// A scene that was loaded is as a load makes it.
pub proof fn lemma_load_gives_loaded(text: Seq<char>)
    ensures
        load_spec(text) matches Ok(scene) ==> scene.loaded(),
{
    lemma_initial_consistent();
    lemma_run_consistent(LoaderState::initial(), lines(text));
}

} // verus!
