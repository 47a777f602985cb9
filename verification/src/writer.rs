//! Writing a scene as a document.
//!
//! The document holds the vertices, then the normals, then the texture
//! coordinates, one line each, then the objects in order. An object that
//! has a name begins with its `o` line; its faces follow, one `f` line each.
//! Before the `f` line of a face whose groups are not those of the face
//! written before it (for the first face: not none) stands a `g` line with
//! the names of its groups.

use vstd::prelude::*;
use crate::index::{decimal, push_decimal};
use crate::number::Number;
use crate::scene::{
    nats, triple_view, vertex_view, FaceRef, Group, GroupView, ObjData, ObjectView, Scene,
    Triple, TripleView, Vertex, VertexView,
};
use crate::loader::groups_view;

verus! {

/// The words, each with one space before it.
pub open spec fn spaced(words: Seq<Seq<char>>) -> Seq<char>
    decreases words.len(),
{
    if words.len() == 0 {
        Seq::empty()
    } else {
        spaced(words.drop_last()) + seq![' '] + words.last()
    }
}

/// The line of a vertex: `v x y z w`.
pub open spec fn vertex_line(v: VertexView) -> Seq<char> {
    seq!['v'] + spaced(seq![v.0, v.1, v.2, v.3])
}

/// The line of a normal: `vn x y z`.
pub open spec fn normal_line(v: TripleView) -> Seq<char> {
    seq!['v', 'n'] + spaced(seq![v.0, v.1, v.2])
}

/// The line of a texture coordinate: `vt u v w`.
pub open spec fn texcoord_line(v: TripleView) -> Seq<char> {
    seq!['v', 't'] + spaced(seq![v.0, v.1, v.2])
}

/// The line that opens an object: `o name`.
pub open spec fn object_line(name: Seq<char>) -> Seq<char> {
    seq!['o', ' '] + name
}

/// An index that may be missing: one-based in decimal, or nothing.
pub open spec fn optional_index(i: Option<usize>) -> Seq<char> {
    match i {
        Some(v) => decimal((v + 1) as nat),
        None => Seq::empty(),
    }
}

/// One corner of a face: `v/vt/vn`, one-based, with both slashes always.
pub open spec fn face_ref_text(r: FaceRef) -> Seq<char> {
    decimal((r.0 + 1) as nat) + seq!['/'] + optional_index(r.1) + seq!['/'] + optional_index(r.2)
}

/// The corners as they are written.
pub open spec fn face_words(face: Seq<FaceRef>) -> Seq<Seq<char>> {
    face.map_values(|r: FaceRef| face_ref_text(r))
}

/// The line of a face: `f`, then its corners.
pub open spec fn face_line(face: Seq<FaceRef>) -> Seq<char> {
    seq!['f'] + spaced(face_words(face))
}

/// The indices of the groups that hold `face`, in ascending order.
pub open spec fn membership(groups: Seq<GroupView>, face: nat) -> Seq<nat>
    decreases groups.len(),
{
    if groups.len() == 0 {
        Seq::empty()
    } else {
        let before = membership(groups.drop_last(), face);
        if groups.last().indexes.contains(face) {
            before.push((groups.len() - 1) as nat)
        } else {
            before
        }
    }
}

/// The names of the groups `members`.
pub open spec fn group_names(groups: Seq<GroupView>, members: Seq<nat>) -> Seq<Seq<char>> {
    members.map_values(|j: nat| groups[j as int].name)
}

/// The line that names the groups `members`: `g`, then their names.
pub open spec fn group_line(groups: Seq<GroupView>, members: Seq<nat>) -> Seq<char> {
    seq!['g'] + spaced(group_names(groups, members))
}

/// The lines for the faces `faces` of one object, and the groups of the
/// last face written, when `active` are those of the face written before.
pub open spec fn faces_lines(s: Scene, faces: Seq<nat>, active: Seq<nat>) -> (
    Seq<Seq<char>>,
    Seq<nat>,
)
    decreases faces.len(),
{
    if faces.len() == 0 {
        (Seq::empty(), active)
    } else {
        let (lines, before) = faces_lines(s, faces.drop_last(), active);
        let face = faces.last();
        let members = membership(s.groups, face);
        let lines = if members == before {
            lines
        } else {
            lines.push(group_line(s.groups, members))
        };
        (lines.push(face_line(s.faces[face as int])), members)
    }
}

/// The lines for the objects `objects`, and the groups of the last face
/// written. The groups carry over from one object to the next.
pub open spec fn objects_lines(s: Scene, objects: Seq<ObjectView>) -> (Seq<Seq<char>>, Seq<nat>)
    decreases objects.len(),
{
    if objects.len() == 0 {
        (Seq::empty(), Seq::empty())
    } else {
        let (lines, active) = objects_lines(s, objects.drop_last());
        let object = objects.last();
        let lines = if object.name.len() > 0 {
            lines.push(object_line(object.name))
        } else {
            lines
        };
        let (more, active) = faces_lines(s, object.primitives, active);
        (lines + more, active)
    }
}

/// The lines of the vertices, in order.
pub open spec fn vertex_lines(vertices: Seq<VertexView>) -> Seq<
    Seq<char>,
> {
    vertices.map_values(|v| vertex_line(v))
}

/// The lines of the normals, in order.
pub open spec fn normal_lines(normals: Seq<TripleView>) -> Seq<Seq<char>> {
    normals.map_values(|v| normal_line(v))
}

/// The lines of the texture coordinates, in order.
pub open spec fn texcoord_lines(texcoords: Seq<TripleView>) -> Seq<
    Seq<char>,
> {
    texcoords.map_values(|v| texcoord_line(v))
}

/// The lines of the document, in order.
pub open spec fn document_lines(s: Scene) -> Seq<Seq<char>> {
    vertex_lines(s.vertices) + normal_lines(s.normals) + texcoord_lines(s.texcoords)
        + objects_lines(s, s.objects).0
}

/// The lines, each ended by a line feed.
pub open spec fn unlines(lines: Seq<Seq<char>>) -> Seq<char>
    decreases lines.len(),
{
    if lines.len() == 0 {
        Seq::empty()
    } else {
        unlines(lines.drop_last()) + lines.last() + seq!['\n']
    }
}

/// The document that stands for a scene.
pub open spec fn render(s: Scene) -> Seq<char> {
    unlines(document_lines(s))
}

/// One more word adds a space and the word.
pub proof fn lemma_spaced_push(words: Seq<Seq<char>>, w: Seq<char>)
    ensures
        spaced(words.push(w)) == spaced(words) + seq![' '] + w,
{
    assert(words.push(w).drop_last() =~= words);
}

/// One more line adds the line and a line feed.
pub proof fn lemma_unlines_push(lines: Seq<Seq<char>>, line: Seq<char>)
    ensures
        unlines(lines.push(line)) == unlines(lines) + line + seq!['\n'],
{
    assert(lines.push(line).drop_last() =~= lines);
}

fn push_word(out: &mut String, n: &Number)
    ensures
        final(out)@ == old(out)@ + seq![' '] + n@,
{
    out.push(' ');
    out.append(n.as_str());
    proof {
        assert(out@ =~= old(out)@ + seq![' '] + n@);
    }
}

fn write_vertex(out: &mut String, v: &Vertex)
    ensures
        final(out)@ == old(out)@ + vertex_line(vertex_view(*v)) + seq!['\n'],
{
    out.push('v');
    push_word(out, &v.0);
    push_word(out, &v.1);
    push_word(out, &v.2);
    push_word(out, &v.3);
    out.push('\n');
    proof {
        let e = Seq::<Seq<char>>::empty();
        lemma_spaced_push(e, v.0@);
        lemma_spaced_push(e.push(v.0@), v.1@);
        lemma_spaced_push(e.push(v.0@).push(v.1@), v.2@);
        lemma_spaced_push(e.push(v.0@).push(v.1@).push(v.2@), v.3@);
        assert(seq![v.0@, v.1@, v.2@, v.3@] =~= e.push(v.0@).push(v.1@).push(v.2@).push(v.3@));
        assert(out@ =~= old(out)@ + vertex_line(vertex_view(*v)) + seq!['\n']);
    }
}

fn write_triple(out: &mut String, kind: char, v: &Triple)
    ensures
        final(out)@ == old(out)@ + (seq!['v', kind] + spaced(seq![v.0@, v.1@, v.2@])) + seq![
            '\n',
        ],
{
    out.push('v');
    out.push(kind);
    push_word(out, &v.0);
    push_word(out, &v.1);
    push_word(out, &v.2);
    out.push('\n');
    proof {
        let e = Seq::<Seq<char>>::empty();
        lemma_spaced_push(e, v.0@);
        lemma_spaced_push(e.push(v.0@), v.1@);
        lemma_spaced_push(e.push(v.0@).push(v.1@), v.2@);
        assert(seq![v.0@, v.1@, v.2@] =~= e.push(v.0@).push(v.1@).push(v.2@));
        assert(out@ =~= old(out)@ + (seq!['v', kind] + spaced(seq![v.0@, v.1@, v.2@])) + seq![
            '\n',
        ]);
    }
}

fn push_optional(out: &mut String, i: Option<usize>)
    ensures
        final(out)@ == old(out)@ + optional_index(i),
{
    match i {
        Some(v) => {
            push_decimal(out, v as u128 + 1);
        },
        None => {
            proof {
                assert(out@ =~= old(out)@ + optional_index(i));
            }
        },
    }
}

fn push_face_ref(out: &mut String, r: &FaceRef)
    ensures
        final(out)@ == old(out)@ + seq![' '] + face_ref_text(*r),
{
    out.push(' ');
    push_decimal(out, r.0 as u128 + 1);
    out.push('/');
    push_optional(out, r.1);
    out.push('/');
    push_optional(out, r.2);
    proof {
        assert(out@ =~= old(out)@ + seq![' '] + face_ref_text(*r));
    }
}

fn write_face(out: &mut String, face: &Vec<FaceRef>)
    ensures
        final(out)@ == old(out)@ + face_line(face@) + seq!['\n'],
{
    let ghost texts = face_words(face@);
    out.push('f');
    let mut i: usize = 0;
    proof {
        assert(texts.take(0) =~= Seq::<Seq<char>>::empty());
        assert(out@ =~= old(out)@ + seq!['f'] + spaced(texts.take(0)));
    }
    while i < face.len()
        invariant
            i <= face.len(),
            texts == face_words(face@),
            out@ == old(out)@ + seq!['f'] + spaced(texts.take(i as int)),
        decreases face.len() - i,
    {
        let ghost before = out@;
        push_face_ref(out, &face[i]);
        proof {
            assert(texts.take(i + 1) =~= texts.take(i as int).push(face_ref_text(face[i as int])));
            lemma_spaced_push(texts.take(i as int), face_ref_text(face[i as int]));
            assert(out@ =~= old(out)@ + seq!['f'] + spaced(texts.take(i + 1)));
        }
        i += 1;
    }
    out.push('\n');
    proof {
        assert(texts.take(face.len() as int) =~= texts);
        assert(out@ =~= old(out)@ + face_line(face@) + seq!['\n']);
    }
}

fn members(groups: &Vec<Group>, face: usize) -> (r: Vec<usize>)
    ensures
        nats(r@) == membership(groups_view(groups@), face as nat),
        forall|k: int| 0 <= k < r.len() ==> #[trigger] r[k] < groups.len(),
{
    let ghost gv = groups_view(groups@);
    let mut r: Vec<usize> = Vec::new();
    let mut j: usize = 0;
    proof {
        assert(gv.take(0) =~= Seq::<GroupView>::empty());
        assert(nats(r@) =~= Seq::<nat>::empty());
    }
    while j < groups.len()
        invariant
            j <= groups.len(),
            gv == groups_view(groups@),
            nats(r@) == membership(gv.take(j as int), face as nat),
            forall|k: int| 0 <= k < r.len() ==> #[trigger] r[k] < groups.len(),
        decreases groups.len() - j,
    {
        let ghost seen = nats(r@);
        proof {
            assert(gv.take(j + 1).drop_last() =~= gv.take(j as int));
            assert(gv.take(j + 1).last() == groups[j as int]@);
        }
        if groups[j].indexes.contains(&face) {
            r.push(j);
            proof {
                assert(nats(r@) =~= seen.push(j as nat));
            }
        }
        j += 1;
    }
    proof {
        assert(gv.take(groups.len() as int) =~= gv);
    }
    r
}

fn write_groups(out: &mut String, groups: &Vec<Group>, list: &Vec<usize>)
    requires
        forall|k: int| 0 <= k < list.len() ==> #[trigger] list[k] < groups.len(),
    ensures
        final(out)@ == old(out)@ + group_line(groups_view(groups@), nats(list@)) + seq!['\n'],
{
    let ghost names = group_names(groups_view(groups@), nats(list@));
    out.push('g');
    let mut i: usize = 0;
    proof {
        assert(names.take(0) =~= Seq::<Seq<char>>::empty());
        assert(out@ =~= old(out)@ + seq!['g'] + spaced(names.take(0)));
    }
    while i < list.len()
        invariant
            i <= list.len(),
            forall|k: int| 0 <= k < list.len() ==> #[trigger] list[k] < groups.len(),
            names == group_names(groups_view(groups@), nats(list@)),
            out@ == old(out)@ + seq!['g'] + spaced(names.take(i as int)),
        decreases list.len() - i,
    {
        let g = list[i];
        out.push(' ');
        out.append(groups[g].name.as_str());
        proof {
            let name = groups[g as int].name@;
            assert(names[i as int] == name);
            assert(names.take(i + 1) =~= names.take(i as int).push(name));
            lemma_spaced_push(names.take(i as int), name);
            assert(out@ =~= old(out)@ + seq!['g'] + spaced(names.take(i + 1)));
        }
        i += 1;
    }
    out.push('\n');
    proof {
        assert(names.take(list.len() as int) =~= names);
        assert(out@ =~= old(out)@ + group_line(groups_view(groups@), nats(list@)) + seq!['\n']);
    }
}

fn same(a: &Vec<usize>, b: &Vec<usize>) -> (r: bool)
    ensures
        r == (nats(a@) == nats(b@)),
{
    if a.len() != b.len() {
        proof {
            assert(nats(a@).len() != nats(b@).len());
        }
        return false;
    }
    let mut i: usize = 0;
    while i < a.len()
        invariant
            i <= a.len(),
            a.len() == b.len(),
            forall|k: int| 0 <= k < i ==> a[k] == b[k],
        decreases a.len() - i,
    {
        if a[i] != b[i] {
            proof {
                assert(nats(a@)[i as int] != nats(b@)[i as int]);
            }
            return false;
        }
        i += 1;
    }
    proof {
        assert(nats(a@) =~= nats(b@));
    }
    true
}

fn write_faces(
    out: &mut String,
    data: &ObjData,
    list: &Vec<usize>,
    active: Vec<usize>,
    Ghost(lines): Ghost<Seq<Seq<char>>>,
) -> (r: Vec<usize>)
    requires
        old(out)@ == unlines(lines),
        forall|k: int| 0 <= k < list.len() ==> #[trigger] list[k] < data.faces.len(),
    ensures
        final(out)@ == unlines(lines + faces_lines(data@, nats(list@), nats(active@)).0),
        nats(r@) == faces_lines(data@, nats(list@), nats(active@)).1,
{
    let ghost s = data@;
    let ghost faces = nats(list@);
    let ghost start = nats(active@);
    let mut active = active;
    let mut k: usize = 0;
    proof {
        assert(faces.take(0) =~= Seq::<nat>::empty());
        assert(lines + faces_lines(s, faces.take(0), start).0 =~= lines);
    }
    while k < list.len()
        invariant
            k <= list.len(),
            s == data@,
            faces == nats(list@),
            forall|i: int| 0 <= i < list.len() ==> #[trigger] list[i] < data.faces.len(),
            out@ == unlines(lines + faces_lines(s, faces.take(k as int), start).0),
            nats(active@) == faces_lines(s, faces.take(k as int), start).1,
        decreases list.len() - k,
    {
        let face = list[k];
        let ghost before = faces_lines(s, faces.take(k as int), start);
        proof {
            assert(faces.take(k + 1).drop_last() =~= faces.take(k as int));
            assert(faces.take(k + 1).last() == face as nat);
            assert(s.groups == groups_view(data.groups@));
            assert(s.faces[face as int] == data.faces[face as int]@);
        }
        let groups = members(&data.groups, face);
        let ghost mid = if nats(groups@) == before.1 {
            before.0
        } else {
            before.0.push(group_line(s.groups, nats(groups@)))
        };
        if !same(&groups, &active) {
            write_groups(out, &data.groups, &groups);
            proof {
                lemma_unlines_push(lines + before.0, group_line(s.groups, nats(groups@)));
                assert((lines + before.0).push(group_line(s.groups, nats(groups@))) =~= lines
                    + mid);
            }
        }
        active = groups;
        write_face(out, &data.faces[face]);
        proof {
            let line = face_line(s.faces[face as int]);
            lemma_unlines_push(lines + mid, line);
            assert((lines + mid).push(line) =~= lines + mid.push(line));
        }
        k += 1;
    }
    proof {
        assert(faces.take(list.len() as int) =~= faces);
    }
    active
}

impl ObjData {
    /// The document that stands for this scene.
    pub fn write(&self) -> (out: String)
        requires
            self@.resolvable(),
        ensures
            out@ == render(self@),
    {
        let ghost s = self@;
        let ghost vs = vertex_lines(s.vertices);
        let ghost ns = normal_lines(s.normals);
        let ghost ts = texcoord_lines(s.texcoords);
        let mut out = String::new();
        let mut i: usize = 0;
        proof {
            assert(vs.take(0) =~= Seq::<Seq<char>>::empty());
        }
        while i < self.vertices.len()
            invariant
                i <= self.vertices.len(),
                s == self@,
                vs == vertex_lines(s.vertices),
                out@ == unlines(vs.take(i as int)),
            decreases self.vertices.len() - i,
        {
            write_vertex(&mut out, &self.vertices[i]);
            proof {
                let line = vertex_line(vertex_view(self.vertices[i as int]));
                assert(vs.take(i + 1) =~= vs.take(i as int).push(line));
                lemma_unlines_push(vs.take(i as int), line);
            }
            i += 1;
        }
        proof {
            assert(vs.take(self.vertices.len() as int) =~= vs);
            assert(vs + ns.take(0) =~= vs);
        }
        i = 0;
        while i < self.normals.len()
            invariant
                i <= self.normals.len(),
                s == self@,
                ns == normal_lines(s.normals),
                out@ == unlines(vs + ns.take(i as int)),
            decreases self.normals.len() - i,
        {
            write_triple(&mut out, 'n', &self.normals[i]);
            proof {
                let line = normal_line(triple_view(self.normals[i as int]));
                assert(vs + ns.take(i + 1) =~= (vs + ns.take(i as int)).push(line));
                lemma_unlines_push(vs + ns.take(i as int), line);
            }
            i += 1;
        }
        proof {
            assert(ns.take(self.normals.len() as int) =~= ns);
            assert(vs + ns + ts.take(0) =~= vs + ns);
        }
        i = 0;
        while i < self.texcoords.len()
            invariant
                i <= self.texcoords.len(),
                s == self@,
                ts == texcoord_lines(s.texcoords),
                out@ == unlines(vs + ns + ts.take(i as int)),
            decreases self.texcoords.len() - i,
        {
            write_triple(&mut out, 't', &self.texcoords[i]);
            proof {
                let line = texcoord_line(triple_view(self.texcoords[i as int]));
                assert(vs + ns + ts.take(i + 1) =~= (vs + ns + ts.take(i as int)).push(line));
                lemma_unlines_push(vs + ns + ts.take(i as int), line);
            }
            i += 1;
        }
        proof {
            assert(ts.take(self.texcoords.len() as int) =~= ts);
            assert(s.objects.take(0) =~= Seq::<ObjectView>::empty());
            assert(vs + ns + ts + objects_lines(s, s.objects.take(0)).0 =~= vs + ns + ts);
        }
        let mut active: Vec<usize> = Vec::new();
        proof {
            assert(nats(active@) =~= Seq::<nat>::empty());
        }
        let mut o: usize = 0;
        while o < self.objects.len()
            invariant
                o <= self.objects.len(),
                s == self@,
                s.resolvable(),
                out@ == unlines(vs + ns + ts + objects_lines(s, s.objects.take(o as int)).0),
                nats(active@) == objects_lines(s, s.objects.take(o as int)).1,
            decreases self.objects.len() - o,
        {
            let object = &self.objects[o];
            let ghost before = objects_lines(s, s.objects.take(o as int));
            let ghost head = vs + ns + ts + before.0;
            let ghost named = if object@.name.len() > 0 {
                before.0.push(object_line(object@.name))
            } else {
                before.0
            };
            proof {
                assert(s.objects.take(o + 1).drop_last() =~= s.objects.take(o as int));
                assert(s.objects.take(o + 1).last() == object@);
                assert(s.objects[o as int] == object@);
            }
            if !object.name.as_str().is_empty() {
                out.push('o');
                out.push(' ');
                out.append(object.name.as_str());
                out.push('\n');
                proof {
                    lemma_unlines_push(head, object_line(object@.name));
                    assert(out@ =~= unlines(head) + object_line(object@.name) + seq!['\n']);
                    assert(head.push(object_line(object@.name)) =~= vs + ns + ts + named);
                }
            }
            proof {
                assert forall|k: int| 0 <= k < object.primitives.len() implies
                    #[trigger] object.primitives[k] < self.faces.len() by {
                    assert(s.objects[o as int].primitives[k] == object.primitives[k]);
                }
            }
            active =
            write_faces(&mut out, self, &object.primitives, active, Ghost(vs + ns + ts + named));
            proof {
                let more = faces_lines(s, object@.primitives, before.1);
                assert(vs + ns + ts + named + more.0 =~= vs + ns + ts + (named + more.0));
            }
            o += 1;
        }
        proof {
            assert(s.objects.take(self.objects.len() as int) =~= s.objects);
        }
        out
    }
}

} // verus!
