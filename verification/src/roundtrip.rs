//! Loading what was written gives the scene back.

use vstd::prelude::*;
use crate::directive::{
    activate, all_numbers, apply, directive_of, face_of, face_ref_of, find_group, join_groups,
    join_words, load_spec, place_face, run, set_groups, step, Directive, LoaderState,
};
use crate::index::{all_digits, decimal, index_of, lemma_decimal_denotes, lemma_index_of_decimal};
use crate::loaded::{
    distinct_words, is_joined, lemma_find_group_from, lemma_load_gives_loaded, primitives_of,
    valid_face, valid_ref, valid_triple, valid_vertex,
};
use crate::number::{is_digit, lemma_number_is_word};
use crate::scene::{FaceRef, GroupView, LoadingError, ObjectView, Scene, TripleView, VertexView};
use crate::text::{
    is_space, is_word, lemma_split_append, lemma_split_push_sep, lemma_tokens_append_word,
    lemma_tokens_are_words, lemma_tokens_push_space, split, tokens,
};
use crate::writer::{
    document_lines, face_line, face_ref_text, face_words, faces_lines, group_line, group_names,
    membership, normal_line, normal_lines, object_line, objects_lines, optional_index, render,
    spaced, texcoord_line, texcoord_lines, unlines, vertex_line, vertex_lines,
};

verus! {

/// A line of words and single spaces: it holds no other whitespace, and so
/// no line feed.
#[verifier::opaque]
pub open spec fn is_plain(line: Seq<char>) -> bool {
    forall|i: int| 0 <= i < line.len() ==> (#[trigger] line[i]) == ' ' || !is_space(line[i])
}

/// Running on with more lines.
pub proof fn lemma_run_push(st: LoaderState, lines: Seq<Seq<char>>, line: Seq<char>)
    ensures
        run(st, lines.push(line)) == match run(st, lines) {
            Ok(mid) => step(mid, line),
            Err(e) => Err(e),
        },
{
    assert(lines.push(line).drop_last() =~= lines);
}

/// Running over two stretches of lines, one after the other.
pub proof fn lemma_run_append(st: LoaderState, a: Seq<Seq<char>>, b: Seq<Seq<char>>)
    ensures
        run(st, a + b) == match run(st, a) {
            Ok(mid) => run(mid, b),
            Err(e) => Err(e),
        },
    decreases b.len(),
{
    if b.len() == 0 {
        assert(a + b =~= a);
    } else {
        assert((a + b).drop_last() =~= a + b.drop_last());
        lemma_run_append(st, a, b.drop_last());
    }
}

/// The lines of a text made of plain lines are those lines, and an empty
/// one after the last line feed.
pub proof fn lemma_lines_of_unlines(lines: Seq<Seq<char>>)
    requires
        forall|i: int| 0 <= i < lines.len() ==> is_plain(#[trigger] lines[i]),
    ensures
        split(unlines(lines), '\n') == lines.push(Seq::empty()),
    decreases lines.len(),
{
    reveal(is_plain);
    if lines.len() == 0 {
        assert(split(unlines(lines), '\n') =~= lines.push(Seq::empty()));
    } else {
        let head = lines.drop_last();
        let last = lines.last();
        lemma_lines_of_unlines(head);
        assert(is_plain(last));
        assert forall|i: int| 0 <= i < last.len() implies #[trigger] last[i] != '\n' by {}
        lemma_split_append(unlines(head), last, '\n');
        let fields = split(unlines(head), '\n');
        assert(fields.drop_last() =~= head);
        assert(fields.last() + last =~= last);
        assert(head.push(last) =~= lines);
        lemma_split_push_sep(unlines(head) + last, '\n');
        assert(unlines(lines) =~= (unlines(head) + last).push('\n'));
    }
}

/// A word followed by spaced words comes apart into that word and the
/// others. The line is plain and begins as the word does.
pub proof fn lemma_tokens_of_spaced(head: Seq<char>, words: Seq<Seq<char>>)
    requires
        is_word(head),
        forall|i: int| 0 <= i < words.len() ==> is_word(#[trigger] words[i]),
    ensures
        tokens(head + spaced(words)) == seq![head] + words,
        is_plain(head + spaced(words)),
        (head + spaced(words)).len() > 0,
        (head + spaced(words))[0] == head[0],
        !is_space((head + spaced(words)).last()),
    decreases words.len(),
{
    reveal(is_plain);
    if words.len() == 0 {
        assert(head + spaced(words) =~= head);
        assert(Seq::<char>::empty() + head =~= head);
        lemma_tokens_append_word(Seq::empty(), head);
        assert(tokens(Seq::<char>::empty()) =~= Seq::<Seq<char>>::empty());
        assert(Seq::<Seq<char>>::empty().push(head) =~= seq![head] + words);
    } else {
        let front = words.drop_last();
        let w = words.last();
        lemma_tokens_of_spaced(head, front);
        let before = head + spaced(front);
        let s = before.push(' ');
        lemma_tokens_push_space(before, ' ');
        lemma_tokens_append_word(s, w);
        assert(head + spaced(words) =~= s + w);
        assert((seq![head] + front).push(w) =~= seq![head] + words);
    }
}

/// The names of the directives name them.
pub proof fn lemma_directive_names()
    ensures
        directive_of(seq!['v']) == Some(Directive::Vertex),
        directive_of(seq!['v', 'n']) == Some(Directive::Normal),
        directive_of(seq!['v', 't']) == Some(Directive::TexCoord),
        directive_of(seq!['s']) == Some(Directive::Smoothing),
        directive_of(seq!['f']) == Some(Directive::Face),
        directive_of(seq!['o']) == Some(Directive::Object),
        directive_of(seq!['g']) == Some(Directive::Group),
{
    assert(seq!['v', 'n'].len() == 2 && seq!['v', 't'].len() == 2);
    assert(seq!['v', 't'][1] == 't');
    assert(seq!['s'][0] == 's' && seq!['f'][0] == 'f');
    assert(seq!['o'][0] == 'o' && seq!['g'][0] == 'g');
}

/// A vertex line adds its vertex.
pub proof fn lemma_vertex_line_step(
    st: LoaderState,
    v: VertexView,
)
    requires
        valid_vertex(v),
    ensures
        is_plain(vertex_line(v)),
        step(st, vertex_line(v)) == Ok::<LoaderState, LoadingError>(
            LoaderState {
                scene: Scene { vertices: st.scene.vertices.push(v), ..st.scene },
                line: st.line + 1,
                ..st
            },
        ),
{
    reveal(apply);
    lemma_directive_names();
    let words = seq![v.0, v.1, v.2, v.3];
    lemma_number_is_word(v.0);
    lemma_number_is_word(v.1);
    lemma_number_is_word(v.2);
    lemma_number_is_word(v.3);
    lemma_tokens_of_spaced(seq!['v'], words);
    let line = vertex_line(v);
    assert(tokens(line).skip(1) =~= words);
    assert(tokens(line)[0] == seq!['v']);
    assert(all_numbers(words));
}

/// A normal line adds its normal.
pub proof fn lemma_normal_line_step(st: LoaderState, v: TripleView)
    requires
        valid_triple(v),
    ensures
        is_plain(normal_line(v)),
        step(st, normal_line(v)) == Ok::<LoaderState, LoadingError>(
            LoaderState {
                scene: Scene { normals: st.scene.normals.push(v), ..st.scene },
                line: st.line + 1,
                ..st
            },
        ),
{
    reveal(apply);
    lemma_directive_names();
    let words = seq![v.0, v.1, v.2];
    lemma_number_is_word(v.0);
    lemma_number_is_word(v.1);
    lemma_number_is_word(v.2);
    lemma_tokens_of_spaced(seq!['v', 'n'], words);
    let line = normal_line(v);
    assert(tokens(line).skip(1) =~= words);
    assert(tokens(line)[0] == seq!['v', 'n']);
    assert(seq!['v', 'n'].len() == 2);
    assert(all_numbers(words));
}

/// A texture coordinate line adds its texture coordinate.
pub proof fn lemma_texcoord_line_step(st: LoaderState, v: TripleView)
    requires
        valid_triple(v),
    ensures
        is_plain(texcoord_line(v)),
        step(st, texcoord_line(v)) == Ok::<LoaderState, LoadingError>(
            LoaderState {
                scene: Scene { texcoords: st.scene.texcoords.push(v), ..st.scene },
                line: st.line + 1,
                ..st
            },
        ),
{
    reveal(apply);
    lemma_directive_names();
    let words = seq![v.0, v.1, v.2];
    lemma_number_is_word(v.0);
    lemma_number_is_word(v.1);
    lemma_number_is_word(v.2);
    lemma_tokens_of_spaced(seq!['v', 't'], words);
    let line = texcoord_line(v);
    assert(tokens(line).skip(1) =~= words);
    assert(tokens(line)[0] == seq!['v', 't']);
    assert(seq!['v', 't'].len() == 2);
    assert(seq!['v', 't'][1] == 't');
    assert(all_numbers(words));
}

/// A string of digits is a word without a slash.
pub proof fn lemma_digits_are_plain(s: Seq<char>)
    requires
        all_digits(s),
    ensures
        forall|i: int| 0 <= i < s.len() ==> #[trigger] s[i] != '/',
        forall|i: int| 0 <= i < s.len() ==> !is_space(#[trigger] s[i]),
{
    assert forall|i: int| 0 <= i < s.len() implies #[trigger] s[i] != '/' && !is_space(s[i]) by {
        assert(is_digit(s[i]));
    }
}

/// An index that may be missing is read as it was written.
pub proof fn lemma_optional_index(i: Option<usize>)
    requires
        i matches Some(v) ==> v < usize::MAX,
    ensures
        index_of(optional_index(i)) == i,
        forall|k: int| 0 <= k < optional_index(i).len() ==> #[trigger] optional_index(i)[k] != '/',
        forall|k: int|
            0 <= k < optional_index(i).len() ==> !is_space(#[trigger] optional_index(i)[k]),
{
    match i {
        Some(v) => {
            lemma_index_of_decimal(v);
            lemma_decimal_denotes((v + 1) as nat);
            lemma_digits_are_plain(decimal((v + 1) as nat));
        },
        None => {},
    }
}

/// A corner is read as it was written, and what was written is a word.
pub proof fn lemma_face_ref_round_trip(r: FaceRef, nb: usize)
    requires
        valid_ref(r),
    ensures
        face_ref_of(face_ref_text(r), nb) == Ok::<FaceRef, LoadingError>(r),
        is_word(face_ref_text(r)),
{
    let a = decimal((r.0 + 1) as nat);
    let b = optional_index(r.1);
    let c = optional_index(r.2);
    lemma_index_of_decimal(r.0);
    lemma_decimal_denotes((r.0 + 1) as nat);
    lemma_digits_are_plain(a);
    lemma_optional_index(r.1);
    lemma_optional_index(r.2);
    let e = Seq::<char>::empty();
    assert(split(e, '/') =~= seq![e]);
    lemma_split_append(e, a, '/');
    assert(e + a =~= a);
    assert(split(a, '/') =~= seq![a]);
    lemma_split_push_sep(a, '/');
    assert(split(a.push('/'), '/') =~= seq![a, e]);
    lemma_split_append(a.push('/'), b, '/');
    assert(e + b =~= b);
    assert(split(a.push('/') + b, '/') =~= seq![a, b]);
    lemma_split_push_sep(a.push('/') + b, '/');
    assert(split((a.push('/') + b).push('/'), '/') =~= seq![a, b, e]);
    lemma_split_append((a.push('/') + b).push('/'), c, '/');
    assert(e + c =~= c);
    assert(face_ref_text(r) =~= (a.push('/') + b).push('/') + c);
    assert(split(face_ref_text(r), '/') =~= seq![a, b, c]);
    let fields = split(face_ref_text(r), '/');
    assert(fields[0] == a && fields[1] == b && fields[2] == c);
    let text = face_ref_text(r);
    assert forall|i: int| 0 <= i < text.len() implies !is_space(#[trigger] text[i]) by {
        if i < a.len() {
            assert(text[i] == a[i]);
        } else if i == a.len() {
        } else if i < a.len() + 1 + b.len() {
            assert(text[i] == b[i - a.len() - 1]);
        } else if i == a.len() + 1 + b.len() {
        } else {
            assert(text[i] == c[i - a.len() - b.len() - 2]);
        }
    }
}

/// A face is read as it was written.
pub proof fn lemma_face_round_trip(face: Seq<FaceRef>, nb: usize)
    requires
        forall|i: int| 0 <= i < face.len() ==> valid_ref(#[trigger] face[i]),
    ensures
        face_of(face_words(face), nb) == Ok::<Seq<FaceRef>, LoadingError>(face),
        forall|i: int| 0 <= i < face.len() ==> is_word(#[trigger] face_words(face)[i]),
    decreases face.len(),
{
    if face.len() == 0 {
        assert(face_of(face_words(face), nb).unwrap() =~= face);
    } else {
        lemma_face_round_trip(face.drop_last(), nb);
        lemma_face_ref_round_trip(face.last(), nb);
        assert(face_words(face).drop_last() =~= face_words(face.drop_last()));
        assert(face_words(face).last() == face_ref_text(face.last()));
        assert(face.drop_last().push(face.last()) =~= face);
        assert forall|i: int| 0 <= i < face.len() implies is_word(
            #[trigger] face_words(face)[i],
        ) by {
            if i < face.len() - 1 {
                assert(face_words(face)[i] == face_words(face.drop_last())[i]);
            }
        }
    }
}

/// A face line adds its face.
pub proof fn lemma_face_line_step(st: LoaderState, face: Seq<FaceRef>)
    requires
        valid_face(face),
    ensures
        is_plain(face_line(face)),
        step(st, face_line(face)) == Ok::<LoaderState, LoadingError>(
            place_face(LoaderState { line: st.line + 1, ..st }, face),
        ),
{
    reveal(apply);
    lemma_directive_names();
    let words = face_words(face);
    lemma_face_round_trip(face, st.line as usize);
    lemma_tokens_of_spaced(seq!['f'], words);
    let line = face_line(face);
    assert(tokens(line).skip(1) =~= words);
    assert(tokens(line)[0] == seq!['f']);
}

/// Words joined by single spaces, with a space before them, are those words
/// spaced.
pub proof fn lemma_spaced_is_joined(words: Seq<Seq<char>>)
    requires
        words.len() > 0,
    ensures
        spaced(words) == seq![' '] + join_words(words),
    decreases words.len(),
{
    if words.len() == 1 {
        assert(words.drop_last() =~= Seq::<Seq<char>>::empty());
        assert(spaced(words.drop_last()) =~= Seq::<char>::empty());
        assert(words.last() == words[0]);
        assert(spaced(words) =~= seq![' '] + words[0]);
    } else {
        lemma_spaced_is_joined(words.drop_last());
        assert(spaced(words) =~= seq![' '] + join_words(words));
    }
}

/// An object line opens an object under the name written.
pub proof fn lemma_object_line_step(st: LoaderState, name: Seq<char>)
    requires
        is_joined(name),
    ensures
        is_plain(object_line(name)),
        step(st, object_line(name)) == Ok::<LoaderState, LoadingError>(
            LoaderState {
                scene: Scene {
                    objects: st.scene.objects.push(
                        ObjectView { name: name, primitives: Seq::empty() },
                    ),
                    ..st.scene
                },
                line: st.line + 1,
                object: Some(st.scene.objects.len()),
                ..st
            },
        ),
{
    reveal(apply);
    lemma_directive_names();
    let words = tokens(name);
    lemma_tokens_are_words(name);
    lemma_spaced_is_joined(words);
    lemma_tokens_of_spaced(seq!['o'], words);
    let line = object_line(name);
    assert(line =~= seq!['o'] + spaced(words));
    assert(tokens(line).skip(1) =~= words);
    assert(tokens(line)[0] == seq!['o']);
}

/// A group line makes the groups named the active ones.
pub proof fn lemma_group_line_step(st: LoaderState, names: Seq<Seq<char>>)
    requires
        forall|i: int| 0 <= i < names.len() ==> is_word(#[trigger] names[i]),
    ensures
        is_plain(seq!['g'] + spaced(names)),
        step(st, seq!['g'] + spaced(names)) == Ok::<LoaderState, LoadingError>(
            set_groups(LoaderState { line: st.line + 1, ..st }, names),
        ),
{
    reveal(apply);
    lemma_directive_names();
    lemma_tokens_of_spaced(seq!['g'], names);
    let line = seq!['g'] + spaced(names);
    assert(tokens(line).skip(1) =~= names);
    assert(tokens(line)[0] == seq!['g']);
}

/// The group holds a face below `bound`.
pub open spec fn used_below(g: GroupView, bound: nat) -> bool {
    exists|e: nat| e < bound && #[trigger] g.indexes.contains(e)
}

/// A group is first used no later than the groups after it: where a group
/// holds a face, every group before it holds that face or an earlier one.
pub open spec fn first_use_order(groups: Seq<GroupView>) -> bool {
    forall|j: int, k: int, f: nat|
        0 <= j < k < groups.len() && #[trigger] groups[k].indexes.contains(f) ==> used_below(
            #[trigger] groups[j],
            f + 1,
        )
}

/// The group holds a face.
pub open spec fn holds_a_face(g: GroupView) -> bool {
    exists|f: nat| g.indexes.contains(f)
}

impl Scene {
    /// No group is empty, and the groups stand in the order in which they
    /// are first used.
    pub open spec fn groups_in_use_order(self) -> bool {
        &&& forall|j: int| 0 <= j < self.groups.len() ==> holds_a_face(#[trigger] self.groups[j])
        &&& first_use_order(self.groups)
    }
}

/// The index of the first group from `i` on that holds no face below
/// `bound`, or the number of groups.
pub open spec fn used_from(groups: Seq<GroupView>, bound: nat, i: int) -> int
    decreases groups.len() - i,
{
    if 0 <= i < groups.len() && used_below(groups[i], bound) {
        used_from(groups, bound, i + 1)
    } else {
        i
    }
}

/// How many groups, counted from the first, hold a face below `bound`.
pub open spec fn used(groups: Seq<GroupView>, bound: nat) -> int {
    used_from(groups, bound, 0)
}

/// The first `count` groups, each with its faces below `bound` only.
pub open spec fn partial_groups(groups: Seq<GroupView>, count: int, bound: nat) -> Seq<
    GroupView,
> {
    Seq::new(
        count as nat,
        |j: int|
            GroupView {
                name: groups[j].name,
                indexes: Set::new(|e: nat| e < bound && groups[j].indexes.contains(e)),
            },
    )
}

/// The groups from `i` up to `used_from(groups, bound, i)` hold a face below
/// `bound`, and the group there, if there is one, holds none.
pub proof fn lemma_used_from(groups: Seq<GroupView>, bound: nat, i: int)
    requires
        0 <= i <= groups.len(),
    ensures
        i <= used_from(groups, bound, i) <= groups.len(),
        forall|j: int|
            i <= j < used_from(groups, bound, i) ==> used_below(#[trigger] groups[j], bound),
        used_from(groups, bound, i) < groups.len() ==> !used_below(
            groups[used_from(groups, bound, i)],
            bound,
        ),
    decreases groups.len() - i,
{
    if i < groups.len() && used_below(groups[i], bound) {
        lemma_used_from(groups, bound, i + 1);
    }
}

/// With the groups in order of first use, those that hold a face below
/// `bound` are the first `used(groups, bound)` ones.
pub proof fn lemma_used(groups: Seq<GroupView>, bound: nat)
    requires
        first_use_order(groups),
    ensures
        0 <= used(groups, bound) <= groups.len(),
        forall|j: int|
            0 <= j < groups.len() ==> (j < used(groups, bound) <==> used_below(
                #[trigger] groups[j],
                bound,
            )),
{
    lemma_used_from(groups, bound, 0);
    let m = used(groups, bound);
    assert forall|j: int| 0 <= j < groups.len() && used_below(
        #[trigger] groups[j],
        bound,
    ) implies j < m by {
        if j > m {
            let f = choose|e: nat| e < bound && #[trigger] groups[j].indexes.contains(e);
            assert(groups[j].indexes.contains(f));
            assert(used_below(groups[m], f + 1));
            let e = choose|e: nat| e < f + 1 && #[trigger] groups[m].indexes.contains(e);
            assert(e < bound && groups[m].indexes.contains(e));
        }
    }
}

/// The members of a face are groups, in ascending order, and a group is
/// among them exactly if it holds the face.
pub proof fn lemma_membership(groups: Seq<GroupView>, f: nat)
    ensures
        forall|i: int|
            0 <= i < membership(groups, f).len() ==> (#[trigger] membership(groups, f)[i])
                < groups.len(),
        forall|i: int, k: int|
            0 <= i < k < membership(groups, f).len() ==> (#[trigger] membership(groups, f)[i]) < (
            #[trigger] membership(groups, f)[k]),
        forall|j: int|
            0 <= j < groups.len() ==> (membership(groups, f).contains(j as nat) <==> (
            #[trigger] groups[j]).indexes.contains(f)),
        forall|i: int|
            0 <= i < membership(groups, f).len() ==> groups[(#[trigger] membership(
                groups,
                f,
            )[i]) as int].indexes.contains(f),
    decreases groups.len(),
{
    if groups.len() > 0 {
        let front = groups.drop_last();
        let before = membership(front, f);
        let all = membership(groups, f);
        lemma_membership(front, f);
        let last = (groups.len() - 1) as nat;
        assert forall|j: int| 0 <= j < groups.len() implies (all.contains(j as nat) <==> (
        #[trigger] groups[j]).indexes.contains(f)) by {
            if j < last {
                assert(front[j] == groups[j]);
                if before.contains(j as nat) {
                    let i = choose|i: int| 0 <= i < before.len() && before[i] == j as nat;
                    assert(all[i] == j as nat);
                }
                if all.contains(j as nat) {
                    let i = choose|i: int| 0 <= i < all.len() && all[i] == j as nat;
                    assert(before[i] == j as nat);
                }
            } else {
                if groups.last().indexes.contains(f) {
                    assert(all[all.len() - 1] == last);
                }
                if all.contains(j as nat) {
                    let i = choose|i: int| 0 <= i < all.len() && all[i] == j as nat;
                    if i < before.len() {
                        assert(before[i] == j as nat);
                    }
                }
            }
        }
        assert forall|i: int| 0 <= i < all.len() implies groups[(
        #[trigger] all[i]) as int].indexes.contains(f) by {
            if i < before.len() {
                assert(all[i] == before[i]);
                assert(front[before[i] as int] == groups[before[i] as int]);
            }
        }
    }
}

/// Under different names, a name is found where it stands.
pub proof fn lemma_find_distinct(groups: Seq<GroupView>, j: int)
    requires
        distinct_words(groups),
        0 <= j < groups.len(),
    ensures
        find_group(groups, groups[j].name) == Some(j as nat),
{
    lemma_find_group_from(groups, groups[j].name, 0);
}

/// A name that no group bears is not found.
pub proof fn lemma_find_absent(groups: Seq<GroupView>, name: Seq<char>)
    requires
        forall|j: int| 0 <= j < groups.len() ==> (#[trigger] groups[j]).name != name,
    ensures
        find_group(groups, name) is None,
{
    lemma_find_group_from(groups, name, 0);
}

/// How many groups exist once the first `t` members of the face `f` have
/// been activated, when those used below `f` existed before.
pub open spec fn grown(groups: Seq<GroupView>, f: nat, t: int) -> int {
    let members = membership(groups, f);
    let m = used(groups, f);
    if t > 0 && members[t - 1] + 1 > m {
        (members[t - 1] + 1) as int
    } else {
        m
    }
}

/// A member of `f` that was not used below `f` is the next group to make.
proof fn lemma_next_member(groups: Seq<GroupView>, f: nat, t: int)
    requires
        first_use_order(groups),
        0 < t <= membership(groups, f).len(),
        membership(groups, f)[t - 1] >= used(groups, f),
    ensures
        grown(groups, f, t - 1) == membership(groups, f)[t - 1],
{
    let members = membership(groups, f);
    let m = used(groups, f);
    let j = members[t - 1] as int;
    lemma_membership(groups, f);
    lemma_used(groups, f);
    if j > m {
        // the group before `j` holds `f` too, and nothing below it
        let b = j - 1;
        assert(groups[j].indexes.contains(f));
        assert(used_below(groups[b], f + 1));
        let e = choose|e: nat| e < f + 1 && #[trigger] groups[b].indexes.contains(e);
        if e < f {
            assert(used_below(groups[b], f));
        }
        assert(groups[b].indexes.contains(f));
        assert(members.contains(b as nat));
        let p = choose|p: int| 0 <= p < members.len() && members[p] == b as nat;
        if p >= t - 1 {
            if p > t - 1 {
                assert(members[t - 1] < members[p]);
            }
        }
        assert(p < t - 1);
        if p < t - 2 {
            assert(members[p] < members[t - 2]);
        }
        assert(members[t - 2] < members[t - 1]);
    } else {
        if t - 1 > 0 {
            assert(members[t - 2] < members[t - 1]);
        }
    }
}

/// Activating the first `t` members of the face `f`, by their names, where
/// the groups used below `f` exist with their faces below `f`: the members
/// that were not used below `f` are made, in their order.
pub proof fn lemma_activate_members(groups: Seq<GroupView>, f: nat, t: int)
    requires
        distinct_words(groups),
        first_use_order(groups),
        0 <= t <= membership(groups, f).len(),
    ensures
        activate(
            partial_groups(groups, used(groups, f), f),
            group_names(groups, membership(groups, f)).take(t),
        ) == (partial_groups(groups, grown(groups, f, t), f), membership(groups, f).take(t)),
        grown(groups, f, t) <= groups.len(),
    decreases t,
{
    let members = membership(groups, f);
    let names = group_names(groups, members);
    let m = used(groups, f);
    let start = partial_groups(groups, m, f);
    lemma_membership(groups, f);
    lemma_used(groups, f);
    if t == 0 {
        assert(names.take(0) =~= Seq::<Seq<char>>::empty());
        assert(members.take(0) =~= Seq::<nat>::empty());
    } else {
        lemma_activate_members(groups, f, t - 1);
        let j = members[t - 1] as int;
        let c = grown(groups, f, t - 1);
        let before = partial_groups(groups, c, f);
        assert(names.take(t).drop_last() =~= names.take(t - 1));
        assert(names.take(t).last() == groups[j].name);
        assert(members.take(t) =~= members.take(t - 1).push(j as nat));
        assert(distinct_words(before)) by {
            assert forall|a: int| 0 <= a < before.len() implies is_word(
                (#[trigger] before[a]).name,
            ) by {
                assert(before[a].name == groups[a].name);
            }
            assert forall|a: int, b: int| 0 <= a < b < before.len() implies (
            #[trigger] before[a]).name != (#[trigger] before[b]).name by {
                assert(before[a].name == groups[a].name);
                assert(before[b].name == groups[b].name);
            }
        }
        if j < m {
            if t - 1 > 0 {
                assert(members[t - 2] < members[t - 1]);
            }
            assert(c == m);
            assert(before[j].name == groups[j].name);
            lemma_find_distinct(before, j);
        } else {
            lemma_next_member(groups, f, t);
            assert(c == j);
            assert forall|a: int| 0 <= a < before.len() implies (#[trigger] before[a]).name
                != groups[j].name by {
                assert(before[a].name == groups[a].name);
            }
            lemma_find_absent(before, groups[j].name);
            let made = GroupView { name: groups[j].name, indexes: Set::empty() };
            assert(!used_below(groups[j], f));
            assert(partial_groups(groups, j + 1, f)[j].indexes =~= Set::<nat>::empty());
            assert(before.push(made) =~= partial_groups(groups, j + 1, f));
        }
    }
}

/// Once every member of the face `f` has been activated, the groups used
/// below `f + 1` exist.
pub proof fn lemma_grown_is_used(groups: Seq<GroupView>, f: nat)
    requires
        first_use_order(groups),
    ensures
        grown(groups, f, membership(groups, f).len() as int) == used(groups, f + 1),
        used(groups, f) <= used(groups, f + 1),
{
    let members = membership(groups, f);
    let m = used(groups, f);
    let up = used(groups, f + 1);
    let t = members.len() as int;
    let c = grown(groups, f, t);
    lemma_membership(groups, f);
    lemma_used(groups, f);
    lemma_used(groups, f + 1);
    if m > up {
        assert(used_below(groups[up], f));
        let e = choose|e: nat| e < f && #[trigger] groups[up].indexes.contains(e);
        assert(e < f + 1 && groups[up].indexes.contains(e));
        assert(used_below(groups[up], f + 1));
    }
    if t > 0 && members[t - 1] + 1 > m {
        let last = members[t - 1] as int;
        assert(groups[last].indexes.contains(f));
        assert(used_below(groups[last], f + 1));
    }
    assert(c <= up);
    if c < up {
        assert(used_below(groups[c], f + 1));
        let e = choose|e: nat| e < f + 1 && #[trigger] groups[c].indexes.contains(e);
        if e < f {
            assert(used_below(groups[c], f));
        }
        assert(groups[c].indexes.contains(f));
        assert(members.contains(c as nat));
        let p = choose|p: int| 0 <= p < members.len() && members[p] == c as nat;
        if p < t - 1 {
            assert(members[p] < members[t - 1]);
        }
    }
}

/// A face whose members are those of the face before it, or that is the
/// first and has none, brings no group into use.
pub proof fn lemma_same_members_same_used(groups: Seq<GroupView>, f: nat)
    requires
        first_use_order(groups),
        membership(groups, f) == if f == 0 {
            Seq::<nat>::empty()
        } else {
            membership(groups, (f - 1) as nat)
        },
    ensures
        used(groups, f + 1) == used(groups, f),
{
    let m = used(groups, f);
    let up = used(groups, f + 1);
    lemma_grown_is_used(groups, f);
    lemma_membership(groups, f);
    lemma_used(groups, f);
    lemma_used(groups, f + 1);
    if m < up {
        assert(used_below(groups[m], f + 1));
        let e = choose|e: nat| e < f + 1 && #[trigger] groups[m].indexes.contains(e);
        if e < f {
            assert(used_below(groups[m], f));
        }
        assert(groups[m].indexes.contains(f));
        assert(membership(groups, f).contains(m as nat));
        if f > 0 {
            lemma_membership(groups, (f - 1) as nat);
            assert(groups[m].indexes.contains((f - 1) as nat));
            assert(used_below(groups[m], f));
        }
    }
}

/// When the face `f` joins its members, the groups hold their faces below
/// `f + 1`.
pub proof fn lemma_join_members(groups: Seq<GroupView>, count: int, f: nat)
    requires
        0 <= count <= groups.len(),
    ensures
        join_groups(partial_groups(groups, count, f), membership(groups, f), f) == partial_groups(
            groups,
            count,
            f + 1,
        ),
{
    let before = partial_groups(groups, count, f);
    let after = join_groups(before, membership(groups, f), f);
    let want = partial_groups(groups, count, f + 1);
    lemma_membership(groups, f);
    assert forall|j: int| 0 <= j < count implies #[trigger] after[j] == want[j] by {
        if groups[j].indexes.contains(f) {
            assert(membership(groups, f).contains(j as nat));
            assert(before[j].indexes.insert(f) =~= want[j].indexes);
        } else {
            assert(!membership(groups, f).contains(j as nat));
            assert(before[j].indexes =~= want[j].indexes);
        }
    }
    assert(after =~= want);
}

/// With no group empty and all in order of first use, every group is in
/// use once all faces are there.
pub proof fn lemma_all_groups_used(s: Scene)
    requires
        s.loaded(),
        s.groups_in_use_order(),
    ensures
        partial_groups(s.groups, used(s.groups, s.faces.len()), s.faces.len()) == s.groups,
{
    reveal(Scene::loaded);
    let n = s.faces.len();
    lemma_used(s.groups, n);
    let m = used(s.groups, n);
    if m < s.groups.len() {
        assert(holds_a_face(s.groups[m]));
        let f = choose|f: nat| s.groups[m].indexes.contains(f);
        assert(s.groups[m].indexes.contains(f));
        assert(used_below(s.groups[m], n));
    }
    let p = partial_groups(s.groups, m, n);
    assert forall|j: int| 0 <= j < m implies #[trigger] p[j] == s.groups[j] by {
        assert(p[j].indexes =~= s.groups[j].indexes);
    }
    assert(p =~= s.groups);
}

/// The state with these vertices, normals and texture coordinates added.
pub open spec fn with_numbers(
    st: LoaderState,
    vertices: Seq<VertexView>,
    normals: Seq<TripleView>,
    texcoords: Seq<TripleView>,
) -> LoaderState {
    LoaderState {
        scene: Scene {
            vertices: st.scene.vertices + vertices,
            normals: st.scene.normals + normals,
            texcoords: st.scene.texcoords + texcoords,
            ..st.scene
        },
        line: st.line + vertices.len() + normals.len() + texcoords.len(),
        ..st
    }
}

/// Vertex lines add their vertices.
pub proof fn lemma_vertices_run(
    st: LoaderState,
    vertices: Seq<VertexView>,
)
    requires
        forall|i: int| 0 <= i < vertices.len() ==> valid_vertex(#[trigger] vertices[i]),
    ensures
        run(st, vertex_lines(vertices)) == Ok::<LoaderState, LoadingError>(
            with_numbers(st, vertices, Seq::empty(), Seq::empty()),
        ),
        forall|i: int|
            0 <= i < vertices.len() ==> is_plain(
                #[trigger] vertex_lines(vertices)[i],
            ),
    decreases vertices.len(),
{
    let lines = vertex_lines(vertices);
    let want = with_numbers(st, vertices, Seq::empty(), Seq::empty());
    if vertices.len() == 0 {
        assert(want.scene.vertices =~= st.scene.vertices);
        assert(want.scene.normals =~= st.scene.normals);
        assert(want.scene.texcoords =~= st.scene.texcoords);
        assert(want.scene == st.scene);
        assert(want == st);
    } else {
        let front = vertices.drop_last();
        let v = vertices.last();
        lemma_vertices_run(st, front);
        let mid = with_numbers(st, front, Seq::empty(), Seq::empty());
        assert(lines.drop_last() =~= vertex_lines(front));
        assert(lines.last() == vertex_line(v));
        lemma_vertex_line_step(mid, v);
        let next = step(mid, vertex_line(v))->Ok_0;
        assert(next.scene.vertices =~= want.scene.vertices);
        assert(next.scene.normals =~= want.scene.normals);
        assert(next.scene.texcoords =~= want.scene.texcoords);
        assert(next.scene == want.scene);
        assert(next == want);
        assert forall|i: int| 0 <= i < vertices.len() implies is_plain(#[trigger] lines[i]) by {
            if i < front.len() {
                assert(lines[i] == vertex_lines(front)[i]);
            }
        }
    }
}

/// Normal lines add their normals.
pub proof fn lemma_normals_run(st: LoaderState, normals: Seq<TripleView>)
    requires
        forall|i: int| 0 <= i < normals.len() ==> valid_triple(#[trigger] normals[i]),
    ensures
        run(st, normal_lines(normals)) == Ok::<LoaderState, LoadingError>(
            with_numbers(st, Seq::empty(), normals, Seq::empty()),
        ),
        forall|i: int|
            0 <= i < normals.len() ==> is_plain(
                #[trigger] normal_lines(normals)[i],
            ),
    decreases normals.len(),
{
    let lines = normal_lines(normals);
    let want = with_numbers(st, Seq::empty(), normals, Seq::empty());
    if normals.len() == 0 {
        assert(want.scene.vertices =~= st.scene.vertices);
        assert(want.scene.normals =~= st.scene.normals);
        assert(want.scene.texcoords =~= st.scene.texcoords);
        assert(want.scene == st.scene);
        assert(want == st);
    } else {
        let front = normals.drop_last();
        let v = normals.last();
        lemma_normals_run(st, front);
        let mid = with_numbers(st, Seq::empty(), front, Seq::empty());
        assert(lines.drop_last() =~= normal_lines(front));
        assert(lines.last() == normal_line(v));
        lemma_normal_line_step(mid, v);
        let next = step(mid, normal_line(v))->Ok_0;
        assert(next.scene.vertices =~= want.scene.vertices);
        assert(next.scene.normals =~= want.scene.normals);
        assert(next.scene.texcoords =~= want.scene.texcoords);
        assert(next.scene == want.scene);
        assert(next == want);
        assert forall|i: int| 0 <= i < normals.len() implies is_plain(#[trigger] lines[i]) by {
            if i < front.len() {
                assert(lines[i] == normal_lines(front)[i]);
            }
        }
    }
}

/// Texture coordinate lines add their texture coordinates.
pub proof fn lemma_texcoords_run(
    st: LoaderState,
    texcoords: Seq<TripleView>,
)
    requires
        forall|i: int| 0 <= i < texcoords.len() ==> valid_triple(#[trigger] texcoords[i]),
    ensures
        run(st, texcoord_lines(texcoords)) == Ok::<LoaderState, LoadingError>(
            with_numbers(st, Seq::empty(), Seq::empty(), texcoords),
        ),
        forall|i: int|
            0 <= i < texcoords.len() ==> is_plain(
                #[trigger] texcoord_lines(texcoords)[i],
            ),
    decreases texcoords.len(),
{
    let lines = texcoord_lines(texcoords);
    let want = with_numbers(st, Seq::empty(), Seq::empty(), texcoords);
    if texcoords.len() == 0 {
        assert(want.scene.vertices =~= st.scene.vertices);
        assert(want.scene.normals =~= st.scene.normals);
        assert(want.scene.texcoords =~= st.scene.texcoords);
        assert(want.scene == st.scene);
        assert(want == st);
    } else {
        let front = texcoords.drop_last();
        let v = texcoords.last();
        lemma_texcoords_run(st, front);
        let mid = with_numbers(st, Seq::empty(), Seq::empty(), front);
        assert(lines.drop_last() =~= texcoord_lines(front));
        assert(lines.last() == texcoord_line(v));
        lemma_texcoord_line_step(mid, v);
        let next = step(mid, texcoord_line(v))->Ok_0;
        assert(next.scene.vertices =~= want.scene.vertices);
        assert(next.scene.normals =~= want.scene.normals);
        assert(next.scene.texcoords =~= want.scene.texcoords);
        assert(next.scene == want.scene);
        assert(next == want);
        assert forall|i: int| 0 <= i < texcoords.len() implies is_plain(#[trigger] lines[i]) by {
            if i < front.len() {
                assert(lines[i] == texcoord_lines(front)[i]);
            }
        }
    }
}

/// How many faces the objects before the object `o` list.
pub open spec fn faces_before(s: Scene, o: int) -> nat {
    primitives_of(s.objects.take(o)).len()
}

/// The members of the face before `f`, and none for the first face.
pub open spec fn members_before(groups: Seq<GroupView>, f: nat) -> Seq<nat> {
    if f == 0 {
        Seq::empty()
    } else {
        membership(groups, (f - 1) as nat)
    }
}

/// The state in which the objects before `o` have been read whole.
#[verifier::opaque]
pub open spec fn between(s: Scene, o: int, line: nat) -> LoaderState {
    let f = faces_before(s, o);
    LoaderState {
        scene: Scene {
            vertices: s.vertices,
            normals: s.normals,
            texcoords: s.texcoords,
            faces: s.faces.take(f as int),
            objects: s.objects.take(o),
            groups: partial_groups(s.groups, used(s.groups, f), f),
        },
        line,
        active: members_before(s.groups, f),
        object: if o == 0 {
            None
        } else {
            Some((o - 1) as nat)
        },
    }
}

/// The state in which the objects before `o` have been read whole, and of
/// the object `o` its `o` line, if it has a name, and its first `k` faces.
#[verifier::opaque]
pub open spec fn midway(s: Scene, o: int, k: int, line: nat) -> LoaderState {
    let f = (faces_before(s, o) + k) as nat;
    let object = s.objects[o];
    let begun = k > 0 || object.name.len() > 0;
    LoaderState {
        scene: Scene {
            vertices: s.vertices,
            normals: s.normals,
            texcoords: s.texcoords,
            faces: s.faces.take(f as int),
            objects: if begun {
                s.objects.take(o).push(
                    ObjectView { name: object.name, primitives: object.primitives.take(k) },
                )
            } else {
                s.objects.take(o)
            },
            groups: partial_groups(s.groups, used(s.groups, f), f),
        },
        line,
        active: members_before(s.groups, f),
        object: if begun {
            Some(o as nat)
        } else if o == 0 {
            None
        } else {
            Some((o - 1) as nat)
        },
    }
}

/// The faces that the first objects list are the first faces that all list.
pub proof fn lemma_primitives_prefix(objects: Seq<ObjectView>, o: int)
    requires
        0 <= o <= objects.len(),
    ensures
        primitives_of(objects.take(o)).len() <= primitives_of(objects).len(),
        forall|i: int|
            0 <= i < primitives_of(objects.take(o)).len() ==> (#[trigger] primitives_of(
                objects.take(o),
            )[i]) == primitives_of(objects)[i],
    decreases objects.len(),
{
    if o == objects.len() {
        assert(objects.take(o) =~= objects);
    } else {
        assert(objects.drop_last().take(o) =~= objects.take(o));
        lemma_primitives_prefix(objects.drop_last(), o);
    }
}

/// In a loaded scene, the `k`-th face of the object `o` is the face
/// `faces_before(s, o) + k`.
pub proof fn lemma_primitive_is_counted(s: Scene, o: int, k: int)
    requires
        s.loaded(),
        0 <= o < s.objects.len(),
        0 <= k < s.objects[o].primitives.len(),
    ensures
        s.objects[o].primitives[k] == faces_before(s, o) + k,
        faces_before(s, o) + k < s.faces.len(),
        faces_before(s, o + 1) == faces_before(s, o) + s.objects[o].primitives.len(),
{
    reveal(Scene::loaded);
    lemma_primitives_prefix(s.objects, o + 1);
    let upto = s.objects.take(o + 1);
    assert(upto.drop_last() =~= s.objects.take(o));
    assert(upto.last() == s.objects[o]);
    let all = primitives_of(s.objects);
    let part = primitives_of(upto);
    let i = faces_before(s, o) + k;
    assert(part[i] == s.objects[o].primitives[k]);
    assert(part[i] == all[i]);
    assert(all[i] == i);
}

/// All the faces are listed by all the objects.
pub proof fn lemma_all_faces_listed(s: Scene)
    requires
        s.loaded(),
    ensures
        faces_before(s, s.objects.len() as int) == s.faces.len(),
        faces_before(s, 0) == 0,
{
    reveal(Scene::loaded);
    assert(s.objects.take(s.objects.len() as int) =~= s.objects);
    assert(s.objects.take(0) =~= Seq::<ObjectView>::empty());
}

/// The lines for one face: its `g` line where its members are not those of
/// the face before it, and its `f` line.
pub open spec fn one_face_lines(s: Scene, f: nat) -> Seq<Seq<char>> {
    let members = membership(s.groups, f);
    if members == members_before(s.groups, f) {
        seq![face_line(s.faces[f as int])]
    } else {
        seq![group_line(s.groups, members), face_line(s.faces[f as int])]
    }
}

/// The lines for one face add that face.
pub proof fn lemma_one_face_run(s: Scene, o: int, k: int, line: nat)
    requires
        s.loaded(),
        first_use_order(s.groups),
        0 <= o < s.objects.len(),
        0 <= k < s.objects[o].primitives.len(),
    ensures
        ({
            let lines = one_face_lines(s, (faces_before(s, o) + k) as nat);
            &&& run(midway(s, o, k, line), lines) == Ok::<LoaderState, LoadingError>(
                midway(s, o, k + 1, line + lines.len()),
            )
            &&& forall|i: int| 0 <= i < lines.len() ==> is_plain(#[trigger] lines[i])
        }),
{
    reveal(Scene::loaded);
    reveal(midway);
    let f = (faces_before(s, o) + k) as nat;
    let groups = s.groups;
    let members = membership(groups, f);
    let before = members_before(groups, f);
    let lines = one_face_lines(s, f);
    let st0 = midway(s, o, k, line);
    let object = s.objects[o];
    let face = s.faces[f as int];
    lemma_primitive_is_counted(s, o, k);
    lemma_membership(groups, f);
    lemma_used(groups, f);
    lemma_used(groups, f + 1);
    lemma_grown_is_used(groups, f);
    assert(valid_face(face));
    // the state once the groups of the face are the active ones
    let st1 = LoaderState {
        scene: Scene {
            groups: partial_groups(groups, used(groups, f + 1), f),
            ..st0.scene
        },
        active: members,
        line: if members == before {
            line
        } else {
            line + 1
        },
        ..st0
    };
    if members == before {
        lemma_same_members_same_used(groups, f);
        assert(st1 == st0);
        assert(lines =~= seq![face_line(face)]);
        assert(run(st0, Seq::<Seq<char>>::empty()) == Ok::<LoaderState, LoadingError>(st0));
        assert(lines.drop_last() =~= Seq::<Seq<char>>::empty());
    } else {
        let names = group_names(groups, members);
        assert forall|i: int| 0 <= i < names.len() implies is_word(#[trigger] names[i]) by {
            assert(names[i] == groups[members[i] as int].name);
        }
        lemma_group_line_step(st0, names);
        lemma_activate_members(groups, f, members.len() as int);
        assert(names.take(members.len() as int) =~= names);
        assert(members.take(members.len() as int) =~= members);
        assert(step(st0, group_line(groups, members)) == Ok::<LoaderState, LoadingError>(st1));
        assert(lines.drop_last() =~= seq![group_line(groups, members)]);
        assert(seq![group_line(groups, members)].drop_last() =~= Seq::<Seq<char>>::empty());
        assert(run(st0, lines.drop_last()) == Ok::<LoaderState, LoadingError>(st1));
    }
    assert(lines.last() == face_line(face));
    lemma_face_line_step(st1, face);
    let counted = LoaderState { line: st1.line + 1, ..st1 };
    let got = place_face(counted, face);
    let want = midway(s, o, k + 1, line + lines.len());
    assert(run(st0, lines) == Ok::<LoaderState, LoadingError>(got));
    lemma_join_members(groups, used(groups, f + 1), f);
    assert(got.scene.groups == want.scene.groups);
    assert(got.scene.faces =~= want.scene.faces);
    assert(object.primitives.take(k + 1) =~= object.primitives.take(k).push(f));
    if k > 0 || object.name.len() > 0 {
        assert(got.scene.objects =~= want.scene.objects);
    } else {
        assert(o == 0);
        assert(s.objects.take(0) =~= Seq::<ObjectView>::empty());
        assert(object.name =~= Seq::<char>::empty());
        assert(object.primitives.take(0) =~= Seq::<nat>::empty());
        assert(got.scene.objects =~= want.scene.objects);
    }
    assert(got.scene == want.scene);
    assert(got == want);
}

/// The lines for the first `k` faces of the object `o` add those faces.
pub proof fn lemma_faces_run(s: Scene, o: int, k: int, line: nat)
    requires
        s.loaded(),
        first_use_order(s.groups),
        0 <= o < s.objects.len(),
        0 <= k <= s.objects[o].primitives.len(),
    ensures
        ({
            let written = faces_lines(
                s,
                s.objects[o].primitives.take(k),
                members_before(s.groups, faces_before(s, o)),
            );
            &&& written.1 == members_before(s.groups, (faces_before(s, o) + k) as nat)
            &&& run(midway(s, o, 0, line), written.0) == Ok::<LoaderState, LoadingError>(
                midway(s, o, k, line + written.0.len()),
            )
            &&& forall|i: int| 0 <= i < written.0.len() ==> is_plain(#[trigger] written.0[i])
        }),
    decreases k,
{
    let list = s.objects[o].primitives;
    let start = members_before(s.groups, faces_before(s, o));
    let written = faces_lines(s, list.take(k), start);
    if k == 0 {
        assert(list.take(0) =~= Seq::<nat>::empty());
    } else {
        lemma_faces_run(s, o, k - 1, line);
        lemma_primitive_is_counted(s, o, k - 1);
        let f = (faces_before(s, o) + k - 1) as nat;
        let earlier = faces_lines(s, list.take(k - 1), start);
        assert(list.take(k).drop_last() =~= list.take(k - 1));
        assert(list.take(k).last() == f);
        let more = one_face_lines(s, f);
        assert(written.0 =~= earlier.0 + more);
        lemma_one_face_run(s, o, k - 1, line + earlier.0.len());
        lemma_run_append(midway(s, o, 0, line), earlier.0, more);
        assert forall|i: int| 0 <= i < written.0.len() implies is_plain(
            #[trigger] written.0[i],
        ) by {
            if i < earlier.0.len() {
                assert(written.0[i] == earlier.0[i]);
            } else {
                assert(written.0[i] == more[i - earlier.0.len()]);
            }
        }
    }
}

/// The lines that open the object `o`: its `o` line if it has a name.
pub open spec fn header_lines(s: Scene, o: int) -> Seq<Seq<char>> {
    if s.objects[o].name.len() > 0 {
        seq![object_line(s.objects[o].name)]
    } else {
        Seq::empty()
    }
}

/// The lines that open the object `o` open it.
pub proof fn lemma_header_run(s: Scene, o: int, line: nat)
    requires
        s.loaded(),
        0 <= o < s.objects.len(),
    ensures
        run(between(s, o, line), header_lines(s, o)) == Ok::<LoaderState, LoadingError>(
            midway(s, o, 0, line + header_lines(s, o).len()),
        ),
        forall|i: int|
            0 <= i < header_lines(s, o).len() ==> is_plain(#[trigger] header_lines(s, o)[i]),
{
    reveal(Scene::loaded);
    reveal(midway);
    reveal(between);
    let object = s.objects[o];
    let reached = between(s, o, line);
    let head = header_lines(s, o);
    let begun = midway(s, o, 0, line + head.len());
    if object.name.len() > 0 {
        lemma_object_line_step(reached, object.name);
        assert(head.drop_last() =~= Seq::<Seq<char>>::empty());
        assert(head.last() == object_line(object.name));
        let got = step(reached, object_line(object.name))->Ok_0;
        assert(object.primitives.take(0) =~= Seq::<nat>::empty());
        assert(got.scene.objects =~= begun.scene.objects);
        assert(got.scene == begun.scene);
        assert(got == begun);
        assert(run(reached, head.drop_last()) == Ok::<LoaderState, LoadingError>(reached));
    } else {
        assert(o == 0);
        assert(reached == begun);
    }
}

/// Once all the faces of the object `o` are read, the object is read whole.
pub proof fn lemma_object_ends(s: Scene, o: int, line: nat)
    requires
        s.loaded(),
        0 <= o < s.objects.len(),
    ensures
        midway(s, o, s.objects[o].primitives.len() as int, line) == between(s, o + 1, line),
{
    reveal(Scene::loaded);
    reveal(midway);
    reveal(between);
    let object = s.objects[o];
    let count = object.primitives.len() as int;
    let ended = midway(s, o, count, line);
    let want = between(s, o + 1, line);
    assert(s.objects.take(o + 1).drop_last() =~= s.objects.take(o));
    assert(s.objects.take(o + 1).last() == object);
    assert(faces_before(s, o + 1) == faces_before(s, o) + count);
    assert(object.primitives.take(count) =~= object.primitives);
    assert(ended.scene.objects =~= want.scene.objects);
    assert(ended.scene == want.scene);
}

/// The lines for the first `o` objects add those objects and their faces.
pub proof fn lemma_objects_run(s: Scene, o: int, line: nat)
    requires
        s.loaded(),
        first_use_order(s.groups),
        0 <= o <= s.objects.len(),
    ensures
        ({
            let written = objects_lines(s, s.objects.take(o));
            &&& written.1 == members_before(s.groups, faces_before(s, o))
            &&& run(between(s, 0, line), written.0) == Ok::<LoaderState, LoadingError>(
                between(s, o, line + written.0.len()),
            )
            &&& forall|i: int| 0 <= i < written.0.len() ==> is_plain(#[trigger] written.0[i])
        }),
    decreases o,
{
    let written = objects_lines(s, s.objects.take(o));
    if o == 0 {
        assert(s.objects.take(0) =~= Seq::<ObjectView>::empty());
    } else {
        let p = o - 1;
        lemma_objects_run(s, p, line);
        let earlier = objects_lines(s, s.objects.take(p));
        let object = s.objects[p];
        assert(s.objects.take(o).drop_last() =~= s.objects.take(p));
        assert(s.objects.take(o).last() == object);
        let head = header_lines(s, p);
        let more = faces_lines(s, object.primitives, earlier.1);
        assert(written.0 =~= earlier.0 + head + more.0);
        assert(written.1 == more.1);
        let first = between(s, 0, line);
        let l1 = line + earlier.0.len();
        let l2 = l1 + head.len();
        let l3 = l2 + more.0.len();
        lemma_header_run(s, p, l1);
        let count = object.primitives.len() as int;
        lemma_faces_run(s, p, count, l2);
        assert(object.primitives.take(count) =~= object.primitives);
        lemma_object_ends(s, p, l3);
        assert(faces_before(s, o) == faces_before(s, p) + count) by {
            assert(s.objects.take(o).drop_last() =~= s.objects.take(p));
        }
        lemma_run_append(first, earlier.0, head);
        lemma_run_append(first, earlier.0 + head, more.0);
        assert forall|i: int| 0 <= i < written.0.len() implies is_plain(
            #[trigger] written.0[i],
        ) by {
            if i < earlier.0.len() {
                assert(written.0[i] == earlier.0[i]);
            } else if i < earlier.0.len() + head.len() {
                assert(written.0[i] == head[i - earlier.0.len()]);
            } else {
                assert(written.0[i] == more.0[i - earlier.0.len() - head.len()]);
            }
        }
    }
}

/// Loading the lines of the document of a scene gives the scene, when the
/// scene is as a load makes it and its groups stand in the order of their
/// first use.
pub proof fn lemma_document_lines_run(s: Scene)
    requires
        s.loaded(),
        s.groups_in_use_order(),
    ensures
        run(LoaderState::initial(), document_lines(s)) matches Ok(st) && st.scene == s,
        forall|i: int|
            0 <= i < document_lines(s).len() ==> is_plain(#[trigger] document_lines(s)[i]),
{
    reveal(Scene::loaded);
    reveal(between);
    let e3 = Seq::<TripleView>::empty();
    let e4 = Seq::<VertexView>::empty();
    let start = LoaderState::initial();
    let vs = vertex_lines(s.vertices);
    let ns = normal_lines(s.normals);
    let ts = texcoord_lines(s.texcoords);
    let os = objects_lines(s, s.objects).0;
    lemma_vertices_run(start, s.vertices);
    let a = with_numbers(start, s.vertices, e3, e3);
    lemma_normals_run(a, s.normals);
    let b = with_numbers(a, e4, s.normals, e3);
    lemma_texcoords_run(b, s.texcoords);
    let c = with_numbers(b, e4, e3, s.texcoords);
    lemma_all_faces_listed(s);
    lemma_used_from(s.groups, 0, 0);
    let first = between(s, 0, c.line);
    assert(c.scene.vertices =~= s.vertices);
    assert(c.scene.normals =~= s.normals);
    assert(c.scene.texcoords =~= s.texcoords);
    assert(c.scene.faces =~= first.scene.faces);
    assert(c.scene.objects =~= first.scene.objects);
    assert(used(s.groups, 0) == 0) by {
        if s.groups.len() > 0 {
            assert(!used_below(s.groups[0], 0));
        }
    }
    assert(c.scene.groups =~= first.scene.groups);
    assert(c.scene == first.scene);
    assert(c == first);
    let count = s.objects.len() as int;
    lemma_objects_run(s, count, c.line);
    assert(s.objects.take(count) =~= s.objects);
    let last = between(s, count, c.line + os.len());
    lemma_all_groups_used(s);
    assert(last.scene.faces =~= s.faces);
    assert(last.scene.objects =~= s.objects);
    assert(last.scene == s);
    lemma_run_append(start, vs, ns);
    lemma_run_append(start, vs + ns, ts);
    lemma_run_append(start, vs + ns + ts, os);
    let all = document_lines(s);
    assert forall|i: int| 0 <= i < all.len() implies is_plain(#[trigger] all[i]) by {
        if i < vs.len() {
            assert(all[i] == vs[i]);
        } else if i < vs.len() + ns.len() {
            assert(all[i] == ns[i - vs.len()]);
        } else if i < vs.len() + ns.len() + ts.len() {
            assert(all[i] == ts[i - vs.len() - ns.len()]);
        } else {
            assert(all[i] == os[i - vs.len() - ns.len() - ts.len()]);
        }
    }
}

/// Loading the document that was written for a scene gives the scene back:
/// its vertices, normals, texture coordinates, faces, objects and groups.
///
/// This holds of every scene that was loaded from some text and whose groups
/// stand in the order of their first use, none of them empty. A group that
/// holds no face is not written, and groups are made on loading in the
/// order in which the document names them.
pub proof fn lemma_load_inverts_write(text: Seq<char>, scene: Scene)
    requires
        load_spec(text) == Ok::<Scene, LoadingError>(scene),
        scene.groups_in_use_order(),
    ensures
        load_spec(render(scene)) == Ok::<Scene, LoadingError>(scene),
{
    lemma_load_gives_loaded(text);
    lemma_document_lines_run(scene);
    let lines = document_lines(scene);
    lemma_lines_of_unlines(lines);
    lemma_run_push(LoaderState::initial(), lines, Seq::empty());
    let st = run(LoaderState::initial(), lines)->Ok_0;
    assert(tokens(Seq::<char>::empty()) =~= Seq::<Seq<char>>::empty());
    assert(step(st, Seq::empty()) == Ok::<LoaderState, LoadingError>(st));
}

} // verus!
