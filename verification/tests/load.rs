use lwobj::{Group, LoadingError, Number, ObjData, Object};

fn floats4(v: &Vec<(Number, Number, Number, Number)>) -> Vec<(f32, f32, f32, f32)> {
    v.iter()
        .map(|(x, y, z, w)| (float(x), float(y), float(z), float(w)))
        .collect()
}

fn floats3(v: &Vec<(Number, Number, Number)>) -> Vec<(f32, f32, f32)> {
    v.iter().map(|(x, y, z)| (float(x), float(y), float(z))).collect()
}

fn float(n: &Number) -> f32 {
    n.as_str().parse::<f32>().unwrap()
}

#[test]
fn load_invalid_line() {
    let obj_str =
    r#"o Test
        az 1. -2.00 -3.5
        v 1 -1 3.
        v -1 -1d 1 0.5
        v -1 -1.000000 -1.000000"#;

    match ObjData::load(obj_str).err().unwrap() {
        LoadingError::InvalidLine(line) => assert!(line == 1),
        _ => assert!(false),
    };
}

#[test]
fn load_vertices() {
    let expected = vec![(1.,-2.,-3.5,1f32),
    (1.,-1.,1.,1.),
    (-1.,-1.,1.,0.5),
    (-1.,-1.,-1.,1.)];
    let obj_str =
    r#"o Test
        v 1. -2.00 -3.5
        v 1 -1 1
        v -1 -1 1 0.5
        v -1 -1.000000 -1.000000"#;

    let data = ObjData::load(obj_str).ok().unwrap();
    assert_eq!(expected,floats4(&data.vertices));
}

#[test]
fn load_vertices_wrong_number_of_arguments() {
    let obj_str =
    r#"o Test
        v 1. -2.00 -3.5
        v 1 -1
        v -1 -1 1 0.5
        v -1 -1.000000 -1.000000"#;

    match ObjData::load(obj_str).err().unwrap() {
        LoadingError::WrongNumberOfArguments(line) => assert!(line == 2),
        _ => assert!(false),
    };
}

#[test]
fn load_vertices_parse_err() {
    let obj_str =
    r#"o Test
        v 1. -2.00 -3.5
        v 1 -1 3.
        v -1 -1d 1 0.5
        v -1 -1.000000 -1.000000"#;

    match ObjData::load(obj_str).err().unwrap() {
        LoadingError::Parse(line) => assert!(line == 3),
        _ => assert!(false),
    };
}

#[test]
fn load_normals() {
    let expected = vec![(1.,-2.,-3.5),
    (1.,-1.,1.),
    (-1.,-1.,1.),
    (-1.,-1.,-1.)];
    let obj_str =
    r#"o Test
        vn 1. -2.00 -3.5
        vn 1 -1 1
        vn -1 -1 1
        vn -1 -1.000000 -1.000000"#;

    let data = ObjData::load(obj_str).ok().unwrap();
    assert_eq!(expected,floats3(&data.normals));
}

#[test]
fn load_normals_wrong_number_of_arguments() {
    let obj_str =
    r#"o Test
        vn 1. -2.00 -3.5
        vn 1 -1 2. 1
        vn -1 -1 1
        vn -1 -1.000000 -1.000000"#;

    match ObjData::load(obj_str).err().unwrap() {
        LoadingError::WrongNumberOfArguments(line) => assert!(line == 2),
        _ => assert!(false),
    };

    let obj_str =
    r#"o Test
        v 1. -2.00 -3.5
        v 1 -1
        v -1 -1 1
        v -1 -1.000000 -1.000000"#;

    match ObjData::load(obj_str).err().unwrap() {
        LoadingError::WrongNumberOfArguments(line) => assert!(line == 2),
        _ => assert!(false),
    };
}

#[test]
fn load_texcoords() {
    let expected = vec![(0.,1.,0.),
    (0.,0.5,0.),
    (0f32,1f32,1f32),
    (1.,1.,0.5)];
    let obj_str =
    r#"o Test
        vt 0. 1.00
        vt 0 0.5
        vt 0 1 1
        vt 1 1. 0.5"#;

    let data = ObjData::load(obj_str).ok().unwrap();
    assert_eq!(expected,floats3(&data.texcoords));
}

#[test]
fn load_faces() {
    let expected = vec![ vec![(1,None,Some(0)), (3,None,Some(0)), (0,None,Some(0))],
    vec![(7,None,None), (5,None,None), (4,None,None)],
    vec![(3,None,None), (4,None,None), (5,None,None)],
    vec![(7,Some(2),Some(1)), (5,Some(4),Some(2)), (4,Some(6),Some(0))],
    vec![(8,Some(3),None), (6,Some(2),None), (2,Some(1),None)],
    ];
    let obj_str =
    r#"o Test
        f 2//1 4//1 1//1
        f 8 6 5
        f 4// 5// 6//
        f 8/3/2 6/5/3 5/7/1
        f 9/4/ 7/3/ 3/2/"#;

    let data = ObjData::load(obj_str).ok().unwrap();
    assert_eq!(expected,data.faces);
}

#[test]
fn load_faces_wrong_number_of_arguments() {
    let obj_str =
    r#"o Test
        f 2//1 4//1 1//1
        f 8 6 5
        f 4/// 5// 6//
        f 8/3/2 6/5/3 5/7/1"#;

    match ObjData::load(obj_str).err().unwrap() {
        LoadingError::WrongNumberOfArguments(line) => assert!(line == 3),
        _ => assert!(false),
    };

    let obj_str =
    r#"o Test
        f 2//1 4//1 1//1
        f 8 6
        f 4// 5// 6//
        f 8/3/2 6/5/3 5/7/1
        f 9/4/ 7/3/ 3/2/"#;

    match ObjData::load(obj_str).err().unwrap() {
        LoadingError::WrongNumberOfArguments(line) => assert!(line == 2),
        _ => assert!(false),
    };
}

#[test]
fn load_faces_parse_err() {
    let obj_str =
    r#"o Test
        f 2//1 4//1 1//1
        f 8.5 6 5
        f 4// 5// 6//"#;

    match ObjData::load(obj_str).err().unwrap() {
        LoadingError::Parse(line) => assert!(line == 2),
        _ => assert!(false),
    };
}

#[test]
fn load_object_wrong_number_of_arguments() {
    let obj_str =
    r#"o
        f 2//1 4//1 1//1
        f 8.5 6 5
        f 4// 5// 6//"#;

    match ObjData::load(obj_str).err().unwrap() {
        LoadingError::WrongNumberOfArguments(line) => assert!(line == 0),
        _ => assert!(false),
    };
}

#[test]
fn load_unamed_object() {
    let obj = Object {
        name : String::from(""),
        primitives : vec![0,1,2,3,4]
    };
    let expected = vec![obj];
    let obj_str =
    r#"f 2//1 4//1 1//1
        f 8 6 5
        f 4// 5// 6//
        f 8/3/2 6/5/3 5/7/1
        f 9/4/ 7/3/ 3/2/"#;

    let data = ObjData::load(obj_str).ok().unwrap();
    assert_eq!(expected,data.objects);
}

#[test]
fn load_object() {
    let obj = Object {
        name : String::from("Cube"),
        primitives : vec![0,1,2,3,4]
    };
    let expected = vec![obj];
    let obj_str =
    r#"o Cube
        f 2//1 4//1 1//1
        f 8 6 5
        f 4// 5// 6//
        f 8/3/2 6/5/3 5/7/1
        f 9/4/ 7/3/ 3/2/"#;

    let data = ObjData::load(obj_str).ok().unwrap();
    assert_eq!(expected,data.objects);
}

#[test]
fn load_several_objects() {
    let obj1 = Object {
        name : String::from(""),
        primitives : vec![0,1,2,]
    };
    let obj2 = Object {
        name : String::from("Cube"),
        primitives : vec![3,4]
    };
    let obj3 = Object {
        name : String::from("Test"),
        primitives : vec![5]
    };
    let expected = vec![obj1,obj2,obj3];
    let obj_str =
    r#"f 2//1 4//1 1//1
        f 8 6 5
        f 4// 5// 6//
        o Cube
        f 8/3/2 6/5/3 5/7/1
        f 9/4/ 7/3/ 3/2/
        o Test
        f 4 3 5"#;

    let data = ObjData::load(obj_str).ok().unwrap();
    assert_eq!(expected,data.objects);
}

#[test]
fn load_group() {
    let gr1 = Group {
        name : String::from("gr1"),
        indexes : vec!(0,1,2,3).into_iter().collect()
    };
    let gr2 = Group {
        name : String::from("gr2"),
        indexes : vec!(0,1,5).into_iter().collect()
    };
    let gr3 = Group {
        name : String::from("gr3"),
        indexes : vec!(4).into_iter().collect()
    };
    let expected = vec![gr1,gr2,gr3];
    let obj_str =
    r#"g gr1 gr2
        f 2//1 4//1 1//1
        f 8 6 5
        g gr1
        f 4// 5// 6//
        f 8/3/2 6/5/3 5/7/1
        g gr3
        f 9/4/ 7/3/ 3/2/
        g gr2
        f 9/4/ 7/3/ 3/2/"#;

    let data = ObjData::load(obj_str).ok().unwrap();
    assert_eq!(expected,data.groups);
}
