//! Reading a document, line by line.

use vstd::prelude::*;
use vstd::slice::slice_subrange;
use crate::directive::{
    activate, add_normal, add_texcoord, add_vertex, all_numbers, apply, directive_of, face_of,
    face_ref_of, find_group, find_group_from, join_groups, join_words, load_spec, one,
    open_object, place_face, run, set_groups, step, zero, Directive, LoaderState,
};
use crate::loaded::{
    lemma_face_valid, lemma_initial_consistent, lemma_loaded_is_resolvable,
    lemma_open_object_consistent, lemma_place_face_consistent, lemma_set_groups_consistent,
    lemma_step_consistent, valid_face,
};
use crate::index::parse_index;
use crate::number::{is_number, Number};
use crate::scene::{nat_set, nats, FaceRef, Group, GroupView, LoadingError, ObjData, Object};
use crate::text::{
    chars_of, is_word, lemma_split_nonempty, lemma_split_prefix, lemma_tokens_are_words,
    push_chars, slices_view, split, split_at_char, string_of, tokenize, tokens,
};

verus! {

/// A result agrees with what a specification expects of it: the same error,
/// or a value that stands for the expected one.
pub open spec fn agrees<T: View>(
    r: Result<T, LoadingError>,
    expected: Result<T::V, LoadingError>,
) -> bool {
    match expected {
        Ok(v) => r matches Ok(x) && x@ == v,
        Err(e) => r matches Err(x) && x == e,
    }
}

/// What a vector of numbers stands for.
pub open spec fn numbers_view(v: Seq<Number>) -> Seq<Seq<char>> {
    v.map_values(|n: Number| n@)
}

fn is_one(word: &[char], a: char) -> (r: bool)
    ensures
        r == (word@ =~= seq![a]),
{
    let r = word.len() == 1 && word[0] == a;
    proof {
        if r {
            assert(word@ =~= seq![a]);
        } else if word@ =~= seq![a] {
            assert(seq![a].len() == 1 && seq![a][0] == a);
        }
    }
    r
}

fn is_two(word: &[char], a: char, b: char) -> (r: bool)
    ensures
        r == (word@ =~= seq![a, b]),
{
    let r = word.len() == 2 && word[0] == a && word[1] == b;
    proof {
        if r {
            assert(word@ =~= seq![a, b]);
        } else if word@ =~= seq![a, b] {
            assert(seq![a, b].len() == 2 && seq![a, b][0] == a && seq![a, b][1] == b);
        }
    }
    r
}

/// The directive that `word` names, if it names one.
pub fn directive(word: &[char]) -> (r: Option<Directive>)
    ensures
        r == directive_of(word@),
{
    if is_one(word, 'v') {
        Some(Directive::Vertex)
    } else if is_two(word, 'v', 'n') {
        Some(Directive::Normal)
    } else if is_two(word, 'v', 't') {
        Some(Directive::TexCoord)
    } else if is_one(word, 's') {
        Some(Directive::Smoothing)
    } else if is_one(word, 'f') {
        Some(Directive::Face)
    } else if is_one(word, 'o') {
        Some(Directive::Object)
    } else if is_one(word, 'g') {
        Some(Directive::Group)
    } else {
        None
    }
}

/// Reads every word as a number. Fails with `Parse(nb)` if one is none.
pub fn parse(it: &[&[char]], nb: usize) -> (r: Result<Vec<Number>, LoadingError>)
    ensures
        match r {
            Ok(v) => all_numbers(slices_view(it@)) && numbers_view(v@) == slices_view(it@),
            Err(e) => !all_numbers(slices_view(it@)) && e == LoadingError::Parse(nb),
        },
{
    let mut vec: Vec<Number> = Vec::new();
    let mut i: usize = 0;
    while i < it.len()
        invariant
            i <= it.len(),
            all_numbers(slices_view(it@).take(i as int)),
            numbers_view(vec@) == slices_view(it@).take(i as int),
        decreases it.len() - i,
    {
        let ghost words = slices_view(it@);
        match Number::from_chars(it[i]) {
            Some(n) => {
                proof {
                    assert(words[i as int] == it[i as int]@);
                    assert(words.take(i + 1) =~= words.take(i as int).push(n@));
                    assert(numbers_view(vec@.push(n)) =~= numbers_view(vec@).push(n@));
                }
                vec.push(n);
            },
            None => {
                proof {
                    assert(words[i as int] == it[i as int]@);
                    assert(!is_number(words[i as int]));
                }
                return Err(LoadingError::Parse(nb));
            },
        }
        i += 1;
    }
    proof {
        assert(slices_view(it@).take(it.len() as int) =~= slices_view(it@));
    }
    Ok(vec)
}

fn read_vertex(data: ObjData, args: &[&[char]], nb: usize) -> (r: Result<ObjData, LoadingError>)
    ensures
        agrees(r, add_vertex(data@, slices_view(args@), nb)),
{
    let mut data = data;
    let mut values = match parse(args, nb) {
        Ok(v) => v,
        Err(e) => {
            return Err(e);
        },
    };
    let ghost words = slices_view(args@);
    let ghost before = data@;
    if values.len() == 4 {
        let w = values.pop().unwrap();
        let z = values.pop().unwrap();
        let y = values.pop().unwrap();
        let x = values.pop().unwrap();
        proof {
            assert(x@ == words[0] && y@ == words[1] && z@ == words[2] && w@ == words[3]);
        }
        data.vertices.push((x, y, z, w));
        proof {
            assert(data@.vertices =~= before.vertices.push(
                (words[0], words[1], words[2], words[3]),
            ));
        }
        Ok(data)
    } else if values.len() == 3 {
        let z = values.pop().unwrap();
        let y = values.pop().unwrap();
        let x = values.pop().unwrap();
        let w = Number::one();
        data.vertices.push((x, y, z, w));
        proof {
            assert(data@.vertices =~= before.vertices.push((words[0], words[1], words[2], one())));
        }
        Ok(data)
    } else {
        Err(LoadingError::WrongNumberOfArguments(nb))
    }
}

fn read_normal(data: ObjData, args: &[&[char]], nb: usize) -> (r: Result<ObjData, LoadingError>)
    ensures
        agrees(r, add_normal(data@, slices_view(args@), nb)),
{
    let mut data = data;
    let mut values = match parse(args, nb) {
        Ok(v) => v,
        Err(e) => {
            return Err(e);
        },
    };
    let ghost words = slices_view(args@);
    let ghost before = data@;
    if values.len() == 3 {
        let z = values.pop().unwrap();
        let y = values.pop().unwrap();
        let x = values.pop().unwrap();
        proof {
            assert(x@ == words[0] && y@ == words[1] && z@ == words[2]);
        }
        data.normals.push((x, y, z));
        proof {
            assert(data@.normals =~= before.normals.push((words[0], words[1], words[2])));
        }
        Ok(data)
    } else {
        Err(LoadingError::WrongNumberOfArguments(nb))
    }
}

fn read_texcoord(data: ObjData, args: &[&[char]], nb: usize) -> (r: Result<ObjData, LoadingError>)
    ensures
        agrees(r, add_texcoord(data@, slices_view(args@), nb)),
{
    let mut data = data;
    let mut values = match parse(args, nb) {
        Ok(v) => v,
        Err(e) => {
            return Err(e);
        },
    };
    let ghost words = slices_view(args@);
    let ghost before = data@;
    if values.len() == 3 {
        let w = values.pop().unwrap();
        let v = values.pop().unwrap();
        let u = values.pop().unwrap();
        proof {
            assert(u@ == words[0] && v@ == words[1] && w@ == words[2]);
        }
        data.texcoords.push((u, v, w));
        proof {
            assert(data@.texcoords =~= before.texcoords.push((words[0], words[1], words[2])));
        }
        Ok(data)
    } else if values.len() == 2 {
        let v = values.pop().unwrap();
        let u = values.pop().unwrap();
        proof {
            assert(u@ == words[0] && v@ == words[1]);
        }
        data.texcoords.push((u, v, Number::zero()));
        proof {
            assert(data@.texcoords =~= before.texcoords.push((words[0], words[1], zero())));
        }
        Ok(data)
    } else if values.len() == 1 {
        let u = values.pop().unwrap();
        proof {
            assert(u@ == words[0]);
        }
        data.texcoords.push((u, Number::zero(), Number::zero()));
        proof {
            assert(data@.texcoords =~= before.texcoords.push((words[0], zero(), zero())));
        }
        Ok(data)
    } else {
        Err(LoadingError::WrongNumberOfArguments(nb))
    }
}

/// Reads one corner of a face.
pub fn read_face_ref(word: &[char], nb: usize) -> (r: Result<FaceRef, LoadingError>)
    ensures
        match face_ref_of(word@, nb) {
            Ok(v) => r matches Ok(x) && x == v,
            Err(e) => r matches Err(x) && x == e,
        },
{
    let fields = split_at_char(word, '/');
    proof {
        lemma_split_nonempty(word@, '/');
        assert(forall|k: int|
            0 <= k < fields.len() ==> (#[trigger] fields[k])@ == split(word@, '/')[k]);
    }
    if fields.len() > 3 {
        return Err(LoadingError::WrongNumberOfArguments(nb));
    }
    let v = match parse_index(fields[0]) {
        Some(v) => v,
        None => {
            return Err(LoadingError::Parse(nb));
        },
    };
    let vt = if fields.len() >= 2 {
        parse_index(fields[1])
    } else {
        None
    };
    let vn = if fields.len() == 3 {
        parse_index(fields[2])
    } else {
        None
    };
    Ok((v, vt, vn))
}

/// Once a corner is wrong, more corners change nothing.
pub proof fn lemma_face_of_fails_early(args: Seq<Seq<char>>, nb: usize, k: int)
    requires
        0 <= k <= args.len(),
        face_of(args.take(k), nb) is Err,
    ensures
        face_of(args, nb) == face_of(args.take(k), nb),
    decreases args.len(),
{
    if k == args.len() {
        assert(args.take(k) =~= args);
    } else {
        assert(args.drop_last().take(k) =~= args.take(k));
        lemma_face_of_fails_early(args.drop_last(), nb, k);
    }
}

fn read_face(args: &[&[char]], nb: usize) -> (r: Result<Vec<FaceRef>, LoadingError>)
    ensures
        agrees(r, face_of(slices_view(args@), nb)),
{
    let ghost words = slices_view(args@);
    let mut vec: Vec<FaceRef> = Vec::new();
    let mut i: usize = 0;
    proof {
        assert(words.take(0) =~= Seq::<Seq<char>>::empty());
    }
    while i < args.len()
        invariant
            i <= args.len(),
            words == slices_view(args@),
            face_of(words.take(i as int), nb) == Ok::<Seq<FaceRef>, LoadingError>(vec@),
        decreases args.len() - i,
    {
        proof {
            assert(words.take(i + 1).drop_last() =~= words.take(i as int));
            assert(words.take(i + 1).last() == args[i as int]@);
        }
        match read_face_ref(args[i], nb) {
            Ok(corner) => {
                vec.push(corner);
            },
            Err(e) => {
                proof {
                    lemma_face_of_fails_early(words, nb, i + 1);
                }
                return Err(e);
            },
        }
        i += 1;
    }
    proof {
        assert(words.take(args.len() as int) =~= words);
    }
    Ok(vec)
}

/// What a vector of groups stands for.
pub open spec fn groups_view(v: Seq<Group>) -> Seq<GroupView> {
    v.map_values(|g: Group| g@)
}

/// A machine integer that may be missing, as a natural.
pub open spec fn option_nat(o: Option<usize>) -> Option<nat> {
    match o {
        Some(i) => Some(i as nat),
        None => None,
    }
}

fn join_active(groups: &mut Vec<Group>, active: &Vec<usize>, index: usize)
    requires
        forall|k: int| 0 <= k < active.len() ==> #[trigger] active[k] < old(groups).len(),
    ensures
        groups_view(final(groups)@) == join_groups(
            groups_view(old(groups)@),
            nats(active@),
            index as nat,
        ),
{
    let ghost before = groups_view(groups@);
    let mut k: usize = 0;
    while k < active.len()
        invariant
            k <= active.len(),
            groups.len() == before.len(),
            forall|i: int| 0 <= i < active.len() ==> #[trigger] active[i] < groups.len(),
            groups_view(groups@) == join_groups(before, nats(active@).take(k as int), index as nat),
        decreases active.len() - k,
    {
        let g = active[k];
        let ghost prev = groups_view(groups@);
        let ghost seen = nats(active@).take(k as int);
        groups[g].indexes.insert(index);
        proof {
            let next = nats(active@).take(k + 1);
            assert(next =~= seen.push(g as nat));
            assert(nat_set(groups[g as int].indexes@) =~= prev[g as int].indexes.insert(
                index as nat,
            ));
            assert forall|j: int| 0 <= j < groups.len() implies #[trigger] groups_view(groups@)[j]
                == join_groups(before, next, index as nat)[j] by {
                if j == g {
                    assert(next[k as int] == g as nat);
                    assert(next.contains(j as nat));
                    if seen.contains(j as nat) {
                        assert(prev[j].indexes.insert(index as nat) =~= before[j].indexes.insert(
                            index as nat,
                        ));
                    }
                } else {
                    assert(groups_view(groups@)[j] == prev[j]);
                    if next.contains(j as nat) {
                        let i = choose|i: int| 0 <= i < next.len() && next[i] == j as nat;
                        assert(i < k);
                        assert(seen[i] == j as nat);
                    }
                    if seen.contains(j as nat) {
                        let i = choose|i: int| 0 <= i < seen.len() && seen[i] == j as nat;
                        assert(next[i] == j as nat);
                    }
                }
            }
            assert(groups_view(groups@) =~= join_groups(before, next, index as nat));
        }
        k += 1;
    }
    proof {
        assert(nats(active@).take(active.len() as int) =~= nats(active@));
    }
}

fn find(groups: &Vec<Group>, name: &String) -> (r: Option<usize>)
    ensures
        option_nat(r) == find_group(groups_view(groups@), name@),
        r matches Some(g) ==> g < groups.len(),
{
    let ghost gv = groups_view(groups@);
    let mut i: usize = 0;
    while i < groups.len()
        invariant
            i <= groups.len(),
            gv == groups_view(groups@),
            find_group_from(gv, name@, 0) == find_group_from(gv, name@, i as int),
        decreases groups.len() - i,
    {
        proof {
            assert(gv[i as int].name == groups[i as int].name@);
        }
        if groups[i].name == *name {
            return Some(i);
        }
        i += 1;
    }
    None
}

fn join(args: &[&[char]]) -> (r: String)
    requires
        args.len() > 0,
    ensures
        r@ == join_words(slices_view(args@)),
{
    let ghost words = slices_view(args@);
    let mut name = string_of(args[0]);
    let mut i: usize = 1;
    proof {
        assert(words.take(1) =~= seq![words[0]]);
    }
    while i < args.len()
        invariant
            1 <= i <= args.len(),
            words == slices_view(args@),
            name@ == join_words(words.take(i as int)),
        decreases args.len() - i,
    {
        name.push(' ');
        push_chars(&mut name, args[i]);
        proof {
            let next = words.take(i + 1);
            assert(next.drop_last() =~= words.take(i as int));
            assert(next.last() == args[i as int]@);
            assert(name@ =~= join_words(words.take(i as int)) + seq![' '] + args[i as int]@);
        }
        i += 1;
    }
    proof {
        assert(words.take(args.len() as int) =~= words);
    }
    name
}

/// A load in progress: the scene read so far, the number of directives
/// read, the active groups and the open object.
pub struct Loader {
    data: ObjData,
    line: usize,
    active: Vec<usize>,
    object: Option<usize>,
}

impl View for Loader {
    type V = LoaderState;

    closed spec fn view(&self) -> LoaderState {
        LoaderState {
            scene: self.data@,
            line: self.line as nat,
            active: nats(self.active@),
            object: option_nat(self.object),
        }
    }
}

impl Loader {
    #[verifier::type_invariant]
    spec fn well_formed(&self) -> bool {
        self@.consistent()
    }

    /// A load of which nothing has been read yet.
    pub fn new() -> (r: Loader)
        ensures
            r@ == LoaderState::initial(),
    {
        let data = ObjData::new();
        let active: Vec<usize> = Vec::new();
        proof {
            assert(nats(active@) =~= Seq::<nat>::empty());
            lemma_initial_consistent();
        }
        Loader { data, line: 0, active, object: None }
    }

    /// How many directives have been read.
    pub fn line_number(&self) -> (n: usize)
        ensures
            n == self@.line,
    {
        self.line
    }

    /// The scene read so far. It is as a load makes it, and can be written.
    pub fn finish(self) -> (data: ObjData)
        ensures
            data@ == self@.scene,
            data@.loaded(),
            data@.resolvable(),
    {
        proof {
            use_type_invariant(&self);
            lemma_loaded_is_resolvable(self@.scene);
        }
        self.data
    }

    /// Reads one line, given as text. The line may end in a line feed.
    pub fn feed(self, line: &str) -> (r: Result<Loader, LoadingError>)
        requires
            self@.line < usize::MAX,
        ensures
            agrees(r, step(self@, line@)),
    {
        let chars = chars_of(line);
        self.feed_chars(chars.as_slice())
    }

    /// Reads one line, given as characters.
    pub fn feed_chars(self, line: &[char]) -> (r: Result<Loader, LoadingError>)
        requires
            self@.line < usize::MAX,
        ensures
            agrees(r, step(self@, line@)),
    {
        proof {
            use_type_invariant(&self);
            reveal(apply);
            lemma_step_consistent(self@, line@);
        }
        if line.len() > 0 && line[0] == '#' {
            return Ok(self);
        }
        let words = tokenize(line);
        if words.len() == 0 {
            return Ok(self);
        }
        let args = slice_subrange(words.as_slice(), 1, words.len());
        let ghost st = self@;
        proof {
            assert(slices_view(args@) =~= tokens(line@).skip(1));
            assert(tokens(line@)[0] == words[0]@);
            lemma_tokens_are_words(line@);
            assert forall|i: int| 0 <= i < args.len() implies is_word(
                #[trigger] slices_view(args@)[i],
            ) by {
                assert(slices_view(args@)[i] == tokens(line@)[i + 1]);
            }
        }
        let Loader { data, line: nb, active, object } = self;
        match directive(words[0]) {
            None => Err(LoadingError::InvalidLine(nb)),
            Some(Directive::Vertex) => match read_vertex(data, args, nb) {
                Ok(data) => Ok(Loader { data, line: nb + 1, active, object }),
                Err(e) => Err(e),
            },
            Some(Directive::Normal) => match read_normal(data, args, nb) {
                Ok(data) => Ok(Loader { data, line: nb + 1, active, object }),
                Err(e) => Err(e),
            },
            Some(Directive::TexCoord) => match read_texcoord(data, args, nb) {
                Ok(data) => Ok(Loader { data, line: nb + 1, active, object }),
                Err(e) => Err(e),
            },
            Some(Directive::Smoothing) => Ok(Loader { data, line: nb + 1, active, object }),
            Some(Directive::Face) => {
                if args.len() < 3 {
                    return Err(LoadingError::WrongNumberOfArguments(nb));
                }
                match read_face(args, nb) {
                    Ok(face) => {
                        proof {
                            lemma_face_valid(slices_view(args@), nb);
                        }
                        Ok(Loader { data, line: nb + 1, active, object }.place(face))
                    },
                    Err(e) => Err(e),
                }
            },
            Some(Directive::Object) => Loader { data, line: nb + 1, active, object }.open_object(
                args,
                nb,
            ),
            Some(Directive::Group) => Ok(
                Loader { data, line: nb + 1, active, object }.set_groups(args),
            ),
        }
    }

    fn place(self, face: Vec<FaceRef>) -> (r: Loader)
        requires
            valid_face(face@),
        ensures
            r@ == place_face(self@, face@),
    {
        proof {
            use_type_invariant(&self);
            lemma_place_face_consistent(self@, face@);
        }
        let ghost st = self@;
        let ghost want = place_face(st, face@);
        let Loader { mut data, line, active, object } = self;
        let index = data.faces.len();
        data.faces.push(face);
        let o = match object {
            Some(o) => o,
            None => {
                data.objects.push(Object::new(String::new()));
                data.objects.len() - 1
            },
        };
        let ghost objects = data@.objects;
        data.objects[o].primitives.push(index);
        proof {
            assert(forall|k: int| 0 <= k < active.len() ==> nats(active@)[k] == active[k]);
        }
        join_active(&mut data.groups, &active, index);
        proof {
            assert(data@.faces =~= want.scene.faces);
            assert(nats(data.objects[o as int].primitives@) =~= objects[o as int].primitives.push(
                index as nat,
            ));
            assert(data@.objects =~= want.scene.objects);
            assert(data@.groups == want.scene.groups);
            assert(data@ == want.scene);
        }
        Loader { data, line, active, object: Some(o) }
    }

    fn open_object(self, args: &[&[char]], nb: usize) -> (r: Result<Loader, LoadingError>)
        requires
            forall|i: int| 0 <= i < args.len() ==> is_word(#[trigger] slices_view(args@)[i]),
        ensures
            agrees(r, open_object(self@, slices_view(args@), nb)),
    {
        proof {
            use_type_invariant(&self);
            lemma_open_object_consistent(self@, slices_view(args@), nb);
        }
        if args.len() == 0 {
            return Err(LoadingError::WrongNumberOfArguments(nb));
        }
        let ghost st = self@;
        let ghost want = open_object(st, slices_view(args@), nb)->Ok_0;
        let Loader { mut data, line, active, object } = self;
        let name = join(args);
        data.objects.push(Object::new(name));
        let o = data.objects.len() - 1;
        proof {
            assert(data@.objects =~= want.scene.objects);
            assert(data@ == want.scene);
        }
        Ok(Loader { data, line, active, object: Some(o) })
    }

    fn set_groups(self, args: &[&[char]]) -> (r: Loader)
        requires
            forall|i: int| 0 <= i < args.len() ==> is_word(#[trigger] slices_view(args@)[i]),
        ensures
            r@ == set_groups(self@, slices_view(args@)),
    {
        proof {
            use_type_invariant(&self);
            lemma_set_groups_consistent(self@, slices_view(args@));
        }
        let ghost st = self@;
        let ghost words = slices_view(args@);
        let ghost start = self.data;
        let Loader { mut data, line, active: _, object } = self;
        let mut active: Vec<usize> = Vec::new();
        let mut i: usize = 0;
        proof {
            assert(words.take(0) =~= Seq::<Seq<char>>::empty());
            assert(nats(active@) =~= Seq::<nat>::empty());
        }
        while i < args.len()
            invariant
                i <= args.len(),
                words == slices_view(args@),
                (groups_view(data.groups@), nats(active@)) == activate(
                    st.scene.groups,
                    words.take(i as int),
                ),
                forall|k: int| 0 <= k < active.len() ==> #[trigger] active[k] < data.groups.len(),
                data.vertices == start.vertices,
                data.normals == start.normals,
                data.texcoords == start.texcoords,
                data.faces == start.faces,
                data.objects == start.objects,
            decreases args.len() - i,
        {
            let ghost before = groups_view(data.groups@);
            let ghost seen = nats(active@);
            proof {
                assert(words.take(i + 1).drop_last() =~= words.take(i as int));
                assert(words.take(i + 1).last() == args[i as int]@);
            }
            let name = string_of(args[i]);
            match find(&data.groups, &name) {
                Some(g) => {
                    active.push(g);
                    proof {
                        assert(nats(active@) =~= seen.push(g as nat));
                    }
                },
                None => {
                    data.groups.push(Group::new(name));
                    active.push(data.groups.len() - 1);
                    proof {
                        assert(nats(active@) =~= seen.push(before.len()));
                        assert(groups_view(data.groups@) =~= before.push(
                            GroupView { name: args[i as int]@, indexes: Set::empty() },
                        ));
                    }
                },
            }
            i += 1;
        }
        proof {
            assert(words.take(args.len() as int) =~= words);
        }
        Loader { data, line, active, object }
    }
}

/// Once a line is wrong, more lines change nothing.
pub proof fn lemma_run_fails_early(st: LoaderState, lines: Seq<Seq<char>>, k: int)
    requires
        0 <= k <= lines.len(),
        run(st, lines.take(k)) is Err,
    ensures
        run(st, lines) == run(st, lines.take(k)),
    decreases lines.len(),
{
    if k == lines.len() {
        assert(lines.take(k) =~= lines);
    } else {
        assert(lines.drop_last().take(k) =~= lines.take(k));
        lemma_run_fails_early(st, lines.drop_last(), k);
    }
}

/// A line counts for one if it holds a directive that succeeds, and for
/// nothing otherwise; an empty line never counts.
pub proof fn lemma_step_counts(st: LoaderState, line: Seq<char>)
    ensures
        step(st, line) matches Ok(next) ==> next.line == st.line || (next.line == st.line + 1
            && line.len() > 0),
{
    reveal(apply);
}

impl ObjData {
    /// Reads a whole document. Its lines are the stretches between line
    /// feeds; they are read in order, and the first error ends the load.
    pub fn load(input: &str) -> (r: Result<ObjData, LoadingError>)
        ensures
            agrees(r, load_spec(input@)),
            r matches Ok(data) ==> data@.loaded() && data@.resolvable(),
    {
        let chars = chars_of(input);
        let text = chars.as_slice();
        let n = text.len();
        let mut loader = Loader::new();
        let mut start: usize = 0;
        let mut i: usize = 0;
        let ghost mut done: Seq<Seq<char>> = Seq::empty();
        proof {
            assert(text@.take(0) =~= Seq::<char>::empty());
            assert(text@.subrange(0, 0) =~= Seq::<char>::empty());
            assert(split(text@.take(0), '\n') =~= done.push(text@.subrange(0, 0)));
        }
        while i < n
            invariant
                n == text.len(),
                text@ == input@,
                start <= i <= n,
                split(text@.take(i as int), '\n') == done.push(
                    text@.subrange(start as int, i as int),
                ),
                run(LoaderState::initial(), done) == Ok::<LoaderState, LoadingError>(loader@),
                2 * loader@.line <= start,
            decreases n - i,
        {
            let ghost head = text@.take(i as int);
            let ghost cur = text@.subrange(start as int, i as int);
            proof {
                assert(text@.take(i + 1) =~= head.push(text[i as int]));
                assert(head.push(text[i as int]).drop_last() =~= head);
            }
            if text[i] == '\n' {
                let line = slice_subrange(text, start, i);
                let ghost before = loader@;
                proof {
                    lemma_step_counts(before, line@);
                    assert(done.push(line@).drop_last() =~= done);
                    assert(text@.subrange(i + 1, i + 1) =~= Seq::<char>::empty());
                }
                loader = match loader.feed_chars(line) {
                    Ok(next) => next,
                    Err(e) => {
                        proof {
                            let all = split(text@, '\n');
                            let closed = done.push(line@);
                            assert(text@ =~= text@.take(i + 1) + text@.skip(i + 1));
                            lemma_split_prefix(text@.take(i + 1), text@.skip(i + 1), '\n');
                            assert(closed.push(Seq::<char>::empty()).drop_last() =~= closed);
                            assert(all.take(closed.len() as int) == closed);
                            lemma_run_fails_early(
                                LoaderState::initial(),
                                all,
                                closed.len() as int,
                            );
                        }
                        return Err(e);
                    },
                };
                proof {
                    done = done.push(line@);
                }
                start = i + 1;
            } else {
                proof {
                    let fields = done.push(cur);
                    assert(fields.drop_last() =~= done);
                    assert(cur.push(text[i as int]) =~= text@.subrange(start as int, i + 1));
                }
            }
            i += 1;
        }
        let line = slice_subrange(text, start, n);
        proof {
            assert(text@.take(n as int) =~= text@);
            assert(done.push(line@).drop_last() =~= done);
        }
        match loader.feed_chars(line) {
            Ok(last) => Ok(last.finish()),
            Err(e) => Err(e),
        }
    }
}

} // verus!
