//! The scene: vertices, normals, texture coordinates, faces, objects and
//! groups, and what each of them stands for in specifications.

use vstd::prelude::*;
use std::collections::HashSet;
use crate::number::Number;

verus! {

/// `std::io::Error`, which the library carries and never looks into.
#[verifier::external_type_specification]
#[verifier::external_body]
pub struct ExIoError(std::io::Error);

/// Why a document could not be loaded or written. The number is that of the
/// line at fault, counted from zero over the lines that hold a directive.
#[derive(Debug)]
pub enum LoadingError {
    /// The line begins with a word that is no directive.
    InvalidLine(usize),
    /// The directive does not take that many arguments.
    WrongNumberOfArguments(usize),
    /// An argument that has to be a number is none.
    Parse(usize),
    /// The source or the sink of the text failed.
    Io(std::io::Error),
}

impl From<std::io::Error> for LoadingError {
    fn from(err: std::io::Error) -> (r: LoadingError) {
        LoadingError::Io(err)
    }
}

impl vstd::std_specs::convert::FromSpecImpl<std::io::Error> for LoadingError {
    open spec fn obeys_from_spec() -> bool {
        true
    }

    open spec fn from_spec(err: std::io::Error) -> LoadingError {
        LoadingError::Io(err)
    }
}

/// One corner of a face: the index of its vertex, of its texture coordinate
/// if it has one, and of its normal if it has one, all counted from zero.
pub type FaceRef = (usize, Option<usize>, Option<usize>);

/// A vertex `(x, y, z, w)`.
pub type Vertex = (Number, Number, Number, Number);

/// A normal `(x, y, z)` or a texture coordinate `(u, v, w)`.
pub type Triple = (Number, Number, Number);

/// What a `Vertex` stands for: the four literals.
pub type VertexView = (Seq<char>, Seq<char>, Seq<char>, Seq<char>);

/// What a `Triple` stands for: the three literals.
pub type TripleView = (Seq<char>, Seq<char>, Seq<char>);

/// A named set of faces. A face may belong to any number of groups.
#[derive(PartialEq, Debug)]
pub struct Group {
    pub name: String,
    pub indexes: HashSet<usize>,
}

/// A named list of faces. Every face belongs to one object.
#[derive(PartialEq, PartialOrd, Debug)]
pub struct Object {
    pub name: String,
    pub primitives: Vec<usize>,
}

/// All that a document holds.
pub struct ObjData {
    /// The vertices `(x, y, z, w)`; `w` is the weight for rational curves
    /// and surfaces.
    pub vertices: Vec<Vertex>,
    /// The normal vectors `(x, y, z)`.
    pub normals: Vec<Triple>,
    /// The texture coordinates `(u, v, w)`.
    pub texcoords: Vec<Triple>,
    /// The faces, each a list of corners.
    pub faces: Vec<Vec<FaceRef>>,
    /// The objects, in the order in which they were declared.
    pub objects: Vec<Object>,
    /// The groups, in the order in which they were first named.
    pub groups: Vec<Group>,
}

/// What a `Group` stands for.
pub struct GroupView {
    pub name: Seq<char>,
    pub indexes: Set<nat>,
}

/// What an `Object` stands for.
pub struct ObjectView {
    pub name: Seq<char>,
    pub primitives: Seq<nat>,
}

/// What an `ObjData` stands for. Numbers are the literals that spell them.
pub struct Scene {
    pub vertices: Seq<VertexView>,
    pub normals: Seq<TripleView>,
    pub texcoords: Seq<TripleView>,
    pub faces: Seq<Seq<FaceRef>>,
    pub objects: Seq<ObjectView>,
    pub groups: Seq<GroupView>,
}

/// A list of machine integers as a list of naturals.
pub open spec fn nats(s: Seq<usize>) -> Seq<nat> {
    s.map_values(|i: usize| i as nat)
}

/// A set of machine integers as a set of naturals.
pub open spec fn nat_set(s: Set<usize>) -> Set<nat> {
    Set::new(|n: nat| n <= usize::MAX && s.contains(n as usize))
}

/// What a vertex stands for.
pub open spec fn vertex_view(v: Vertex) -> VertexView {
    (v.0@, v.1@, v.2@, v.3@)
}

/// What a normal or a texture coordinate stands for.
pub open spec fn triple_view(v: Triple) -> TripleView {
    (v.0@, v.1@, v.2@)
}

impl View for Group {
    type V = GroupView;

    open spec fn view(&self) -> GroupView {
        GroupView { name: self.name@, indexes: nat_set(self.indexes@) }
    }
}

impl View for Object {
    type V = ObjectView;

    open spec fn view(&self) -> ObjectView {
        ObjectView { name: self.name@, primitives: nats(self.primitives@) }
    }
}

impl View for ObjData {
    type V = Scene;

    open spec fn view(&self) -> Scene {
        Scene {
            vertices: self.vertices@.map_values(|v: Vertex| vertex_view(v)),
            normals: self.normals@.map_values(|v: Triple| triple_view(v)),
            texcoords: self.texcoords@.map_values(|v: Triple| triple_view(v)),
            faces: self.faces@.map_values(|f: Vec<FaceRef>| f@),
            objects: self.objects@.map_values(|o: Object| o@),
            groups: self.groups@.map_values(|g: Group| g@),
        }
    }
}

impl Scene {
    /// The scene that holds nothing.
    pub open spec fn empty() -> Scene {
        Scene {
            vertices: Seq::empty(),
            normals: Seq::empty(),
            texcoords: Seq::empty(),
            faces: Seq::empty(),
            objects: Seq::empty(),
            groups: Seq::empty(),
        }
    }

    /// Every face that an object lists is a face of the scene.
    pub open spec fn resolvable(self) -> bool {
        forall|o: int, k: int|
            0 <= o < self.objects.len() && 0 <= k < self.objects[o].primitives.len()
                ==> #[trigger] self.objects[o].primitives[k] < self.faces.len()
    }
}

impl Group {
    /// A group named `n` that holds no face.
    pub fn new(n: String) -> (g: Group)
        ensures
            g@ == (GroupView { name: n@, indexes: Set::empty() }),
    {
        let g = Group { name: n, indexes: HashSet::new() };
        proof {
            assert(nat_set(g.indexes@) =~= Set::<nat>::empty());
        }
        g
    }
}

impl Object {
    /// An object named `n` that lists no face.
    pub fn new(n: String) -> (o: Object)
        ensures
            o@ == (ObjectView { name: n@, primitives: Seq::empty() }),
    {
        let o = Object { name: n, primitives: Vec::new() };
        proof {
            assert(nats(o.primitives@) =~= Seq::<nat>::empty());
        }
        o
    }
}

impl ObjData {
    /// A scene that holds nothing.
    pub fn new() -> (data: ObjData)
        ensures
            data@ == Scene::empty(),
    {
        let data = ObjData {
            vertices: Vec::new(),
            normals: Vec::new(),
            texcoords: Vec::new(),
            faces: Vec::new(),
            objects: Vec::new(),
            groups: Vec::new(),
        };
        proof {
            assert(data@.vertices =~= Seq::empty());
            assert(data@.normals =~= Seq::empty());
            assert(data@.texcoords =~= Seq::empty());
            assert(data@.faces =~= Seq::empty());
            assert(data@.objects =~= Seq::empty());
            assert(data@.groups =~= Seq::empty());
        }
        data
    }

    /// Tells whether every face that an object lists is a face of the scene.
    pub fn is_resolvable(&self) -> (r: bool)
        ensures
            r == self@.resolvable(),
    {
        let n = self.faces.len();
        let mut o: usize = 0;
        while o < self.objects.len()
            invariant
                n == self.faces.len(),
                o <= self.objects.len(),
                forall|p: int, k: int|
                    0 <= p < o && 0 <= k < self@.objects[p].primitives.len()
                        ==> #[trigger] self@.objects[p].primitives[k] < n,
            decreases self.objects.len() - o,
        {
            let list = &self.objects[o].primitives;
            let mut k: usize = 0;
            while k < list.len()
                invariant
                    n == self.faces.len(),
                    o < self.objects.len(),
                    list == &self.objects[o as int].primitives,
                    k <= list.len(),
                    forall|j: int| 0 <= j < k ==> #[trigger] list[j] < n,
                decreases list.len() - k,
            {
                if list[k] >= n {
                    proof {
                        assert(self@.objects[o as int].primitives[k as int] == list[k as int]);
                    }
                    return false;
                }
                k += 1;
            }
            proof {
                assert forall|j: int| 0 <= j < self@.objects[o as int].primitives.len() implies
                    #[trigger] self@.objects[o as int].primitives[j] < n by {
                    assert(self@.objects[o as int].primitives[j] == list[j]);
                }
            }
            o += 1;
        }
        true
    }
}

} // verus!
