use lwobj::{Group, LoadingError, Number, ObjData, Object};

const CUBE: &str = "# A cube\n\
o Cube\n\
v 1.000000 -1.000000 -1.000000\n\
v 1.000000 -1.000000 1.000000\n\
v -1.000000 -1.000000 1.000000\n\
v -1.000000 -1.000000 -1.000000\n\
v 1.000000 1.000000 -1.000000\n\
v 1.000000 1.000000 1.000000\n\
v -1.000000 1.000000 1.000000\n\
v -1.000000 1.000000 -1.000000\n\
vn 0.000000 -1.000000 0.000000\n\
vn 0.000000 1.000000 0.000000\n\
vn 1.000000 0.000000 0.000000\n\
vn 0.000000 0.000000 1.000000\n\
vn -1.000000 0.000000 0.000000\n\
vn 0.000000 0.000000 -1.000000\n\
s off\n\
f 2//1 4//1 1//1\n\
f 8//2 6//2 5//2\n\
f 5//3 2//3 1//3\n\
f 6//4 3//4 2//4\n\
f 3//5 8//5 4//5\n\
f 1//6 8//6 5//6\n\
f 2//1 3//1 4//1\n\
f 8//2 7//2 6//2\n\
f 5//3 6//3 2//3\n\
f 6//4 7//4 3//4\n\
f 3//5 7//5 8//5\n\
f 1//6 4//6 8//6\n";

fn float(n: &Number) -> f32 {
    n.as_str().parse::<f32>().unwrap()
}

fn floats4(v: &Vec<(Number, Number, Number, Number)>) -> Vec<(f32, f32, f32, f32)> {
    v.iter()
        .map(|(x, y, z, w)| (float(x), float(y), float(z), float(w)))
        .collect()
}

fn floats3(v: &Vec<(Number, Number, Number)>) -> Vec<(f32, f32, f32)> {
    v.iter().map(|(x, y, z)| (float(x), float(y), float(z))).collect()
}

fn num(x: f32) -> Number {
    Number::parse(&format!("{}", x)).unwrap()
}

fn nums4(v: &Vec<(f32, f32, f32, f32)>) -> Vec<(Number, Number, Number, Number)> {
    v.iter()
        .map(|(x, y, z, w)| (num(*x), num(*y), num(*z), num(*w)))
        .collect()
}

fn nums3(v: &Vec<(f32, f32, f32)>) -> Vec<(Number, Number, Number)> {
    v.iter().map(|(x, y, z)| (num(*x), num(*y), num(*z))).collect()
}

fn cube_vertices() -> Vec<(f32, f32, f32, f32)> {
    vec![(1.,-1.,-1.,1.),
    (1.,-1.,1.,1.),
    (-1.,-1.,1.,1.),
    (-1.,-1.,-1.,1.),
    (1.,1.,-1.,1.),
    (1.,1.,1.,1.),
    (-1.,1.,1.,1.),
    (-1.,1.,-1.,1.)]
}

fn cube_normals() -> Vec<(f32, f32, f32)> {
    vec![(0.,-1.,0.),
    (0.,1.,0.),
    (1.,0.,0.),
    (0.,0.,1.),
    (-1.,0.,0.),
    (0.,0.,-1.)]
}

fn cube_faces() -> Vec<Vec<(usize, Option<usize>, Option<usize>)>> {
    vec![ vec![(1,None,Some(0)), (3,None,Some(0)), (0,None,Some(0))],
    vec![(7,None,Some(1)), (5,None,Some(1)), (4,None,Some(1))],
    vec![(4,None,Some(2)), (1,None,Some(2)), (0,None,Some(2))],
    vec![(5,None,Some(3)), (2,None,Some(3)), (1,None,Some(3))],
    vec![(2,None,Some(4)), (7,None,Some(4)), (3,None,Some(4))],
    vec![(0,None,Some(5)), (7,None,Some(5)), (4,None,Some(5))],
    vec![(1,None,Some(0)), (2,None,Some(0)), (3,None,Some(0))],
    vec![(7,None,Some(1)), (6,None,Some(1)), (5,None,Some(1))],
    vec![(4,None,Some(2)), (5,None,Some(2)), (1,None,Some(2))],
    vec![(5,None,Some(3)), (6,None,Some(3)), (2,None,Some(3))],
    vec![(2,None,Some(4)), (6,None,Some(4)), (7,None,Some(4))],
    vec![(0,None,Some(5)), (3,None,Some(5)), (7,None,Some(5))],
    ]
}

fn same_scene(a: &ObjData, b: &ObjData) -> bool {
    a.vertices == b.vertices
        && a.normals == b.normals
        && a.texcoords == b.texcoords
        && a.faces == b.faces
        && a.objects == b.objects
        && a.groups == b.groups
}

fn reload(data: &ObjData) -> ObjData {
    assert!(data.is_resolvable());
    ObjData::load(&data.write()).ok().unwrap()
}

#[test]
fn load() {
    let obj = Object {
        name : String::from("Cube"),
        primitives : vec![0,1,2,3,4,5,6,7,8,9,10,11]
    };
    let data = ObjData::load(CUBE).ok().unwrap();
    assert_eq!(cube_vertices(),floats4(&data.vertices));
    assert_eq!(cube_normals(),floats3(&data.normals));
    assert_eq!(Vec::<(f32, f32, f32)>::new(),floats3(&data.texcoords));
    assert_eq!(cube_faces(),data.faces);
    assert_eq!(vec![obj],data.objects);
}

#[test]
fn write() {
    let mut expected = ObjData::new();
    expected.vertices = nums4(&cube_vertices());
    expected.normals = nums3(&cube_normals());
    expected.faces = cube_faces();
    let obj = Object {
        name : String::from("Cube"),
        primitives : vec![0,1,2,3,4,5,6,7,8,9,10,11]
    };
    expected.objects = vec![obj];
    assert!(expected.is_resolvable());
    let text = expected.write();
    let data = ObjData::load(&text).ok().unwrap();
    assert_eq!(floats4(&expected.vertices),floats4(&data.vertices));
    assert_eq!(floats3(&expected.normals),floats3(&data.normals));
    assert_eq!(floats3(&expected.texcoords),floats3(&data.texcoords));
    assert_eq!(expected.faces,data.faces);
    assert_eq!(expected.objects,data.objects);
}

#[test]
fn read_write_read() {
    let data = ObjData::load(CUBE).ok().unwrap();
    assert!(data.is_resolvable());
    let text = data.write();
    let reload = ObjData::load(&text).ok().unwrap();
    assert_eq!(floats4(&reload.vertices),floats4(&data.vertices));
    assert_eq!(floats3(&reload.normals),floats3(&data.normals));
    assert_eq!(floats3(&reload.texcoords),floats3(&data.texcoords));
    assert_eq!(reload.faces,data.faces);
    assert_eq!(reload.objects,data.objects);
    assert_eq!(reload.groups,data.groups);
    assert_eq!(reload.vertices,data.vertices);
    assert_eq!(reload.normals,data.normals);
}

#[test]
fn written_cube_keeps_the_literals() {
    let data = ObjData::load(CUBE).ok().unwrap();
    let text = data.write();
    assert!(text.starts_with("v 1.000000 -1.000000 -1.000000 1\n"));
    assert!(text.contains("\nv 1.000000 -1.000000 1.000000 1\n"));
    assert!(text.contains("\nvn 0.000000 0.000000 -1.000000\no Cube\nf 2//1 4//1 1//1\n"));
    assert!(text.ends_with("f 1//6 4//6 8//6\n"));
    assert_eq!(text.lines().count(), 8 + 6 + 1 + 12);
}

#[test]
fn round_trip_with_groups_in_order_of_use() {
    let text = "v 1 2 3\nvt 0.5\nvn 0 0 1\n\
        f 1 1 1\n\
        g a b\nf 1/1/1 1/1 1//1\n\
        o second  object\n\
        f 1 1 1\n\
        g b\nf 1 1 1\n\
        g\nf 1 1 1 1\n\
        o third\n\
        g c a\nf 1 1 1\n\
        f 1 1 1\n";
    let data = ObjData::load(text).ok().unwrap();
    let again = reload(&data);
    assert!(same_scene(&data, &again));
    assert_eq!(data.write(), again.write());
    let expected = "v 1 2 3 1\nvn 0 0 1\nvt 0.5 0 0\n\
        f 1// 1// 1//\n\
        g a b\nf 1/1/1 1/1/ 1//1\n\
        o second object\n\
        f 1// 1// 1//\n\
        g b\nf 1// 1// 1//\n\
        g\nf 1// 1// 1// 1//\n\
        o third\n\
        g a c\nf 1// 1// 1//\n\
        f 1// 1// 1//\n";
    assert_eq!(data.write(), expected);
}

#[test]
fn round_trip_of_the_empty_scene() {
    let data = ObjData::new();
    assert_eq!(data.write(), "");
    assert!(same_scene(&data, &reload(&data)));
}

#[test]
fn round_trip_keeps_objects_without_faces() {
    let data = ObjData::load("o a\no b c\nf 1 2 3\no d\n").ok().unwrap();
    let again = reload(&data);
    assert!(same_scene(&data, &again));
    assert_eq!(data.objects.len(), 3);
    assert_eq!(data.write(), "o a\no b c\nf 1// 2// 3//\no d\n");
}

#[test]
fn a_group_without_faces_is_lost_on_the_way() {
    let data = ObjData::load("g a\ng b\nf 1 2 3\n").ok().unwrap();
    assert_eq!(data.groups.len(), 2);
    assert_eq!(data.write(), "g b\nf 1// 2// 3//\n");
    let again = reload(&data);
    assert_eq!(
        again.groups,
        vec![Group { name: String::from("b"), indexes: vec![0].into_iter().collect() }]
    );
    assert!(!same_scene(&data, &again));
    assert_eq!(again.faces, data.faces);
    assert_eq!(again.objects, data.objects);
}

#[test]
fn groups_come_back_in_the_order_of_their_first_use() {
    let data = ObjData::load("g b\ng a\nf 1 2 3\ng b\nf 1 2 3\n").ok().unwrap();
    assert_eq!(
        data.groups,
        vec![
            Group { name: String::from("b"), indexes: vec![1].into_iter().collect() },
            Group { name: String::from("a"), indexes: vec![0].into_iter().collect() },
        ]
    );
    let again = reload(&data);
    assert_eq!(
        again.groups,
        vec![
            Group { name: String::from("a"), indexes: vec![0].into_iter().collect() },
            Group { name: String::from("b"), indexes: vec![1].into_iter().collect() },
        ]
    );
    assert!(same_scene(&again, &reload(&again)));
}

#[test]
fn written_groups_change_only_when_membership_changes() {
    let mut data = ObjData::new();
    data.faces = vec![vec![(0, None, None); 3], vec![(0, None, None); 3], vec![(0, None, None); 3]];
    data.objects = vec![
        Object { name: String::new(), primitives: vec![0] },
        Object { name: String::from("next"), primitives: vec![1, 2] },
    ];
    data.groups = vec![
        Group { name: String::from("a"), indexes: vec![0, 1].into_iter().collect() },
        Group { name: String::from("b"), indexes: vec![].into_iter().collect() },
    ];
    assert!(data.is_resolvable());
    assert_eq!(
        data.write(),
        "g a\nf 1// 1// 1//\no next\nf 1// 1// 1//\ng\nf 1// 1// 1//\n"
    );
}

#[test]
fn first_object_without_name_gets_no_line_but_named_ones_do() {
    let mut data = ObjData::new();
    data.faces = vec![vec![(0, None, None); 3], vec![(1, None, None); 3]];
    data.objects = vec![
        Object { name: String::new(), primitives: vec![0] },
        Object { name: String::from("Named"), primitives: vec![1] },
        Object { name: String::from("Empty one"), primitives: vec![] },
    ];
    assert!(data.is_resolvable());
    let text = data.write();
    assert_eq!(text, "f 1// 1// 1//\no Named\nf 2// 2// 2//\no Empty one\n");
    let o_lines: Vec<&str> = text.lines().filter(|l| l.starts_with('o')).collect();
    assert_eq!(o_lines, vec!["o Named", "o Empty one"]);
}

#[test]
fn faces_are_written_in_the_order_the_objects_list_them() {
    let mut data = ObjData::new();
    data.faces = vec![vec![(0, None, None); 3], vec![(1, None, None); 3], vec![(2, None, None); 3]];
    data.objects = vec![
        Object { name: String::from("x"), primitives: vec![2, 0] },
        Object { name: String::from("y"), primitives: vec![1, 1] },
    ];
    assert!(data.is_resolvable());
    assert_eq!(
        data.write(),
        "o x\nf 3// 3// 3//\nf 1// 1// 1//\no y\nf 2// 2// 2//\nf 2// 2// 2//\n"
    );
}

#[test]
fn large_indices_are_written_in_full() {
    let mut data = ObjData::new();
    data.faces = vec![vec![
        (usize::MAX - 1, Some(usize::MAX - 1), None),
        (usize::MAX, None, Some(usize::MAX)),
        (0, None, None),
    ]];
    data.objects = vec![Object { name: String::new(), primitives: vec![0] }];
    assert!(data.is_resolvable());
    let max = usize::MAX as u128;
    let expected = format!("f {}/{}/ {}//{} 1//\n", max, max, max + 1, max + 1);
    assert_eq!(data.write(), expected);
    assert!(matches!(
        ObjData::load(&data.write()),
        Err(LoadingError::Parse(0))
    ));
}

#[test]
fn a_scene_that_lists_a_missing_face_is_not_resolvable() {
    let mut data = ObjData::new();
    data.faces = vec![vec![(0, None, None); 3]];
    data.objects = vec![Object { name: String::new(), primitives: vec![0, 1] }];
    assert!(!data.is_resolvable());
    data.objects[0].primitives = vec![0, 0];
    assert!(data.is_resolvable());
    data.objects.push(Object { name: String::from("o"), primitives: vec![7] });
    assert!(!data.is_resolvable());
}

#[test]
fn every_loaded_scene_is_resolvable() {
    let samples = [
        "",
        "f 1 2 3",
        "o a\nf 1 2 3\nf 1 2 3\no b\ng x\nf 1 2 3",
        "g a b\nf 1 2 3\ng\nf 4 5 6\n",
        CUBE,
    ];
    for text in samples.iter() {
        assert!(ObjData::load(text).ok().unwrap().is_resolvable());
    }
}

#[test]
fn the_groups_that_come_back_are_those_that_hold_a_face() {
    let text = "g empty\ng late\ng early\nf 1 2 3\ng late early\nf 1 2 3\ng\nf 1 2 3\n";
    let data = ObjData::load(text).ok().unwrap();
    assert_eq!(data.groups.len(), 3);
    let again = reload(&data);
    assert_eq!(again.groups.len(), 2);
    for g in again.groups.iter() {
        assert!(data.groups.iter().any(|h| h == g));
    }
    for h in data.groups.iter().filter(|h| !h.indexes.is_empty()) {
        assert!(again.groups.iter().any(|g| g == h));
    }
    assert_eq!(again.groups[0].name, "early");
    assert_eq!(again.groups[1].name, "late");
    assert_eq!(again.faces, data.faces);
    assert_eq!(again.objects, data.objects);
    assert!(same_scene(&again, &reload(&again)));
}
