//! What each directive does to a scene, as specification.
//!
//! A line that holds words is a directive: its first word names it and the
//! others are its arguments.
//!
//! ```text
//! v  x y z [w]        a vertex; w is 1 when it is left out
//! vn x y z            a normal
//! vt u [v [w]]        a texture coordinate; v and w are 0 when left out
//! f  ref ref ref ...  a face; ref is idx, idx/tex, idx//norm or idx/tex/norm
//! o  name ...         opens an object; the words are joined by single spaces
//! g  [name ...]       makes these groups the active ones
//! s  ...              smoothing, which is ignored
//! ```

use vstd::prelude::*;
use crate::index::index_of;
use crate::number::is_number;
use crate::scene::{FaceRef, GroupView, LoadingError, ObjectView, Scene};
use crate::text::{lines, split, tokens};

verus! {

/// The directives of the format.
#[derive(Clone, Copy, Debug, PartialEq, Eq)]
pub enum Directive {
    Vertex,
    Normal,
    TexCoord,
    Smoothing,
    Face,
    Object,
    Group,
}

/// The directive that `word` names, if it names one.
pub open spec fn directive_of(word: Seq<char>) -> Option<Directive> {
    if word =~= seq!['v'] {
        Some(Directive::Vertex)
    } else if word =~= seq!['v', 'n'] {
        Some(Directive::Normal)
    } else if word =~= seq!['v', 't'] {
        Some(Directive::TexCoord)
    } else if word =~= seq!['s'] {
        Some(Directive::Smoothing)
    } else if word =~= seq!['f'] {
        Some(Directive::Face)
    } else if word =~= seq!['o'] {
        Some(Directive::Object)
    } else if word =~= seq!['g'] {
        Some(Directive::Group)
    } else {
        None
    }
}

/// Where a load stands between two lines.
pub struct LoaderState {
    /// What has been read so far.
    pub scene: Scene,
    /// How many directives have been read.
    pub line: nat,
    /// The groups that the next face joins, by their indices.
    pub active: Seq<nat>,
    /// The object that the next face joins, by its index, once there is one.
    pub object: Option<nat>,
}

impl LoaderState {
    /// Where a load begins.
    pub open spec fn initial() -> LoaderState {
        LoaderState { scene: Scene::empty(), line: 0, active: Seq::empty(), object: None }
    }

    /// The active groups and the open object exist.
    pub open spec fn in_bounds(self) -> bool {
        &&& forall|k: int|
            0 <= k < self.active.len() ==> #[trigger] self.active[k] < self.scene.groups.len()
        &&& self.object matches Some(o) ==> o < self.scene.objects.len()
    }
}

/// Every argument follows the grammar of a number.
pub open spec fn all_numbers(args: Seq<Seq<char>>) -> bool {
    forall|i: int| 0 <= i < args.len() ==> is_number(#[trigger] args[i])
}

/// The literal that stands for a weight that was left out.
pub open spec fn one() -> Seq<char> {
    seq!['1']
}

/// The literal that stands for a texture coordinate that was left out.
pub open spec fn zero() -> Seq<char> {
    seq!['0']
}

/// `v`: three or four numbers. An argument that is no number counts before
/// a wrong number of arguments.
pub open spec fn add_vertex(s: Scene, args: Seq<Seq<char>>, nb: usize) -> Result<
    Scene,
    LoadingError,
> {
    if !all_numbers(args) {
        Err(LoadingError::Parse(nb))
    } else if args.len() == 4 {
        Ok(Scene { vertices: s.vertices.push((args[0], args[1], args[2], args[3])), ..s })
    } else if args.len() == 3 {
        Ok(Scene { vertices: s.vertices.push((args[0], args[1], args[2], one())), ..s })
    } else {
        Err(LoadingError::WrongNumberOfArguments(nb))
    }
}

/// `vn`: three numbers.
pub open spec fn add_normal(s: Scene, args: Seq<Seq<char>>, nb: usize) -> Result<
    Scene,
    LoadingError,
> {
    if !all_numbers(args) {
        Err(LoadingError::Parse(nb))
    } else if args.len() == 3 {
        Ok(Scene { normals: s.normals.push((args[0], args[1], args[2])), ..s })
    } else {
        Err(LoadingError::WrongNumberOfArguments(nb))
    }
}

/// `vt`: one, two or three numbers.
pub open spec fn add_texcoord(s: Scene, args: Seq<Seq<char>>, nb: usize) -> Result<
    Scene,
    LoadingError,
> {
    if !all_numbers(args) {
        Err(LoadingError::Parse(nb))
    } else if args.len() == 3 {
        Ok(Scene { texcoords: s.texcoords.push((args[0], args[1], args[2])), ..s })
    } else if args.len() == 2 {
        Ok(Scene { texcoords: s.texcoords.push((args[0], args[1], zero())), ..s })
    } else if args.len() == 1 {
        Ok(Scene { texcoords: s.texcoords.push((args[0], zero(), zero())), ..s })
    } else {
        Err(LoadingError::WrongNumberOfArguments(nb))
    }
}

/// One corner of a face. It has one to three fields between slashes. The
/// first has to spell an index; the second and the third give an index if
/// they spell one and none otherwise.
pub open spec fn face_ref_of(word: Seq<char>, nb: usize) -> Result<FaceRef, LoadingError> {
    let fields = split(word, '/');
    if fields.len() > 3 {
        Err(LoadingError::WrongNumberOfArguments(nb))
    } else {
        match index_of(fields[0]) {
            None => Err(LoadingError::Parse(nb)),
            Some(v) => Ok(
                (
                    v,
                    if fields.len() >= 2 {
                        index_of(fields[1])
                    } else {
                        None
                    },
                    if fields.len() == 3 {
                        index_of(fields[2])
                    } else {
                        None
                    },
                ),
            ),
        }
    }
}

/// The corners that `args` spell, or what is wrong with the first of them
/// that is wrong.
pub open spec fn face_of(args: Seq<Seq<char>>, nb: usize) -> Result<Seq<FaceRef>, LoadingError>
    decreases args.len(),
{
    if args.len() == 0 {
        Ok(Seq::empty())
    } else {
        match face_of(args.drop_last(), nb) {
            Err(e) => Err(e),
            Ok(refs) => match face_ref_of(args.last(), nb) {
                Err(e) => Err(e),
                Ok(r) => Ok(refs.push(r)),
            },
        }
    }
}

/// The groups once the face `index` has joined those whose index is in
/// `active`.
pub open spec fn join_groups(groups: Seq<GroupView>, active: Seq<nat>, index: nat) -> Seq<
    GroupView,
> {
    Seq::new(
        groups.len(),
        |j: int|
            if active.contains(j as nat) {
                GroupView { name: groups[j].name, indexes: groups[j].indexes.insert(index) }
            } else {
                groups[j]
            },
    )
}

/// The state once `face` has been added: it is the last face of the scene,
/// the last face of the open object, which is made, without a name, if there
/// is none yet, and a member of every active group.
pub open spec fn place_face(st: LoaderState, face: Seq<FaceRef>) -> LoaderState {
    let s = st.scene;
    let index = s.faces.len();
    let objects = if st.object is None {
        s.objects.push(ObjectView { name: Seq::empty(), primitives: Seq::empty() })
    } else {
        s.objects
    };
    let object: nat = match st.object {
        Some(o) => o,
        None => s.objects.len(),
    };
    LoaderState {
        scene: Scene {
            faces: s.faces.push(face),
            objects: objects.update(
                object as int,
                ObjectView {
                    name: objects[object as int].name,
                    primitives: objects[object as int].primitives.push(index),
                },
            ),
            groups: join_groups(s.groups, st.active, index),
            ..s
        },
        object: Some(object),
        ..st
    }
}

/// `f`: at least three corners.
pub open spec fn add_face(st: LoaderState, args: Seq<Seq<char>>, nb: usize) -> Result<
    LoaderState,
    LoadingError,
> {
    if args.len() < 3 {
        Err(LoadingError::WrongNumberOfArguments(nb))
    } else {
        match face_of(args, nb) {
            Err(e) => Err(e),
            Ok(face) => Ok(place_face(st, face)),
        }
    }
}

/// The words joined by single spaces.
pub open spec fn join_words(words: Seq<Seq<char>>) -> Seq<char>
    decreases words.len(),
{
    if words.len() == 0 {
        Seq::empty()
    } else if words.len() == 1 {
        words[0]
    } else {
        join_words(words.drop_last()) + seq![' '] + words.last()
    }
}

/// `o`: at least one word. A new object is opened under the joined words.
pub open spec fn open_object(st: LoaderState, args: Seq<Seq<char>>, nb: usize) -> Result<
    LoaderState,
    LoadingError,
> {
    if args.len() == 0 {
        Err(LoadingError::WrongNumberOfArguments(nb))
    } else {
        Ok(
            LoaderState {
                scene: Scene {
                    objects: st.scene.objects.push(
                        ObjectView { name: join_words(args), primitives: Seq::empty() },
                    ),
                    ..st.scene
                },
                object: Some(st.scene.objects.len()),
                ..st
            },
        )
    }
}

/// The index of the first group from `i` on that bears `name`.
pub open spec fn find_group_from(groups: Seq<GroupView>, name: Seq<char>, i: int) -> Option<nat>
    decreases groups.len() - i,
{
    if i < 0 || i >= groups.len() {
        None
    } else if groups[i].name == name {
        Some(i as nat)
    } else {
        find_group_from(groups, name, i + 1)
    }
}

/// The index of the first group that bears `name`.
pub open spec fn find_group(groups: Seq<GroupView>, name: Seq<char>) -> Option<nat> {
    find_group_from(groups, name, 0)
}

/// The groups, and the indices of the active ones, once each of `names` has
/// been activated in turn: a group that exists under that name is taken,
/// and one that does not is made, without a face.
pub open spec fn activate(groups: Seq<GroupView>, names: Seq<Seq<char>>) -> (
    Seq<GroupView>,
    Seq<nat>,
)
    decreases names.len(),
{
    if names.len() == 0 {
        (groups, Seq::empty())
    } else {
        let (before, active) = activate(groups, names.drop_last());
        match find_group(before, names.last()) {
            Some(i) => (before, active.push(i)),
            None => (
                before.push(GroupView { name: names.last(), indexes: Set::empty() }),
                active.push(before.len()),
            ),
        }
    }
}

/// `g`: any number of names, none included. The groups named become the
/// active ones, and no other group stays active.
pub open spec fn set_groups(st: LoaderState, args: Seq<Seq<char>>) -> LoaderState {
    let (groups, active) = activate(st.scene.groups, args);
    LoaderState { scene: Scene { groups, ..st.scene }, active, ..st }
}

/// What the directive `words[0]` with the arguments `words.skip(1)` makes of
/// `st`. A directive counts as a line whether it succeeds or not, and an
/// error bears the number of its line.
#[verifier::opaque]
pub open spec fn apply(st: LoaderState, words: Seq<Seq<char>>) -> Result<
    LoaderState,
    LoadingError,
>
    recommends
        words.len() > 0,
{
    let nb = st.line as usize;
    let args = words.skip(1);
    let counted = LoaderState { line: st.line + 1, ..st };
    match directive_of(words[0]) {
        None => Err(LoadingError::InvalidLine(nb)),
        Some(Directive::Vertex) => match add_vertex(st.scene, args, nb) {
            Ok(scene) => Ok(LoaderState { scene, ..counted }),
            Err(e) => Err(e),
        },
        Some(Directive::Normal) => match add_normal(st.scene, args, nb) {
            Ok(scene) => Ok(LoaderState { scene, ..counted }),
            Err(e) => Err(e),
        },
        Some(Directive::TexCoord) => match add_texcoord(st.scene, args, nb) {
            Ok(scene) => Ok(LoaderState { scene, ..counted }),
            Err(e) => Err(e),
        },
        Some(Directive::Smoothing) => Ok(counted),
        Some(Directive::Face) => add_face(counted, args, nb),
        Some(Directive::Object) => open_object(counted, args, nb),
        Some(Directive::Group) => Ok(set_groups(counted, args)),
    }
}

/// What one line makes of `st`. A line that begins with `#` is a comment,
/// and a line without a word is blank: neither changes anything, nor counts.
pub open spec fn step(st: LoaderState, line: Seq<char>) -> Result<LoaderState, LoadingError> {
    if line.len() > 0 && line[0] == '#' {
        Ok(st)
    } else if tokens(line).len() == 0 {
        Ok(st)
    } else {
        apply(st, tokens(line))
    }
}

/// What the lines make of `st`, taken in order up to the first that fails.
pub open spec fn run(st: LoaderState, lines: Seq<Seq<char>>) -> Result<LoaderState, LoadingError>
    decreases lines.len(),
{
    if lines.len() == 0 {
        Ok(st)
    } else {
        match run(st, lines.drop_last()) {
            Err(e) => Err(e),
            Ok(before) => step(before, lines.last()),
        }
    }
}

/// The scene that a text describes, or the first error in it.
pub open spec fn load_spec(text: Seq<char>) -> Result<Scene, LoadingError> {
    match run(LoaderState::initial(), lines(text)) {
        Err(e) => Err(e),
        Ok(st) => Ok(st.scene),
    }
}

} // verus!
