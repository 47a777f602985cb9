use lwobj::{parse, Group, Loader, LoadingError, Number, ObjData, Object};

fn chars(s: &str) -> Vec<char> {
    s.chars().collect()
}

fn texts3(v: &(Number, Number, Number)) -> (String, String, String) {
    (v.0.as_str().to_string(), v.1.as_str().to_string(), v.2.as_str().to_string())
}

fn texts4(v: &(Number, Number, Number, Number)) -> (String, String, String, String) {
    (
        v.0.as_str().to_string(),
        v.1.as_str().to_string(),
        v.2.as_str().to_string(),
        v.3.as_str().to_string(),
    )
}

fn float(n: &Number) -> f32 {
    n.as_str().parse::<f32>().unwrap()
}

fn error_of(text: &str) -> LoadingError {
    ObjData::load(text).err().unwrap()
}

#[test]
fn vertex_without_weight_gets_weight_one() {
    let data = ObjData::load("v 1 -1 3.").ok().unwrap();
    assert_eq!(data.vertices.len(), 1);
    let v = &data.vertices[0];
    assert_eq!((float(&v.0), float(&v.1), float(&v.2), float(&v.3)), (1.0, -1.0, 3.0, 1.0));
    assert_eq!(
        texts4(v),
        ("1".to_string(), "-1".to_string(), "3.".to_string(), "1".to_string())
    );
}

#[test]
fn vertex_with_weight_keeps_it() {
    let data = ObjData::load("v -1 -1 1 0.5\n").ok().unwrap();
    assert_eq!(
        texts4(&data.vertices[0]),
        ("-1".to_string(), "-1".to_string(), "1".to_string(), "0.5".to_string())
    );
}

#[test]
fn vertex_with_two_arguments_is_refused() {
    assert!(matches!(error_of("v 1 -1"), LoadingError::WrongNumberOfArguments(0)));
    assert!(matches!(error_of("v 1 2 3\nv 1 -1"), LoadingError::WrongNumberOfArguments(1)));
    assert!(matches!(error_of("v"), LoadingError::WrongNumberOfArguments(0)));
    assert!(matches!(error_of("v 1 2 3 4 5"), LoadingError::WrongNumberOfArguments(0)));
}

#[test]
fn bad_number_counts_before_wrong_count() {
    assert!(matches!(error_of("vn -1 -1d 1"), LoadingError::Parse(0)));
    assert!(matches!(error_of("vn -1 -1d"), LoadingError::Parse(0)));
    assert!(matches!(error_of("vn -1 -1d 1 1 1"), LoadingError::Parse(0)));
    assert!(matches!(error_of("v x"), LoadingError::Parse(0)));
    assert!(matches!(error_of("vt 1 2 3 x"), LoadingError::Parse(0)));
    assert!(matches!(error_of("s 1\nvn -1 -1d 1"), LoadingError::Parse(1)));
}

#[test]
fn normal_takes_three_numbers() {
    let data = ObjData::load("vn 1. -2.00 -3.5").ok().unwrap();
    assert_eq!(
        texts3(&data.normals[0]),
        ("1.".to_string(), "-2.00".to_string(), "-3.5".to_string())
    );
    assert!(matches!(error_of("vn 1 2"), LoadingError::WrongNumberOfArguments(0)));
    assert!(matches!(error_of("vn 1 2 3 4"), LoadingError::WrongNumberOfArguments(0)));
    assert!(matches!(error_of("vn"), LoadingError::WrongNumberOfArguments(0)));
}

#[test]
fn texcoord_fills_in_zeros() {
    let data = ObjData::load("vt 0.5\nvt 0.5 1\nvt 0.5 1 2\n").ok().unwrap();
    assert_eq!(
        texts3(&data.texcoords[0]),
        ("0.5".to_string(), "0".to_string(), "0".to_string())
    );
    assert_eq!(
        texts3(&data.texcoords[1]),
        ("0.5".to_string(), "1".to_string(), "0".to_string())
    );
    assert_eq!(
        texts3(&data.texcoords[2]),
        ("0.5".to_string(), "1".to_string(), "2".to_string())
    );
    assert!(matches!(error_of("vt"), LoadingError::WrongNumberOfArguments(0)));
    assert!(matches!(error_of("vt 1 2 3 4"), LoadingError::WrongNumberOfArguments(0)));
}

#[test]
fn face_reference_with_empty_texcoord() {
    let data = ObjData::load("f 2//1 4//1 1//1").ok().unwrap();
    assert_eq!(
        data.faces,
        vec![vec![(1, None, Some(0)), (3, None, Some(0)), (0, None, Some(0))]]
    );
}

#[test]
fn face_reference_forms() {
    let data = ObjData::load("f 1 2/3 4//5 6/7/8 9/ 10// 11/x/y 12/0/0").ok().unwrap();
    assert_eq!(
        data.faces,
        vec![vec![
            (0, None, None),
            (1, Some(2), None),
            (3, None, Some(4)),
            (5, Some(6), Some(7)),
            (8, None, None),
            (9, None, None),
            (10, None, None),
            (11, None, None),
        ]]
    );
}

#[test]
fn face_errors() {
    assert!(matches!(error_of("f"), LoadingError::WrongNumberOfArguments(0)));
    assert!(matches!(error_of("f 1 2"), LoadingError::WrongNumberOfArguments(0)));
    assert!(matches!(error_of("f x y"), LoadingError::WrongNumberOfArguments(0)));
    assert!(matches!(error_of("f 1 2 3/4/5/6"), LoadingError::WrongNumberOfArguments(0)));
    assert!(matches!(error_of("f 1 2 x"), LoadingError::Parse(0)));
    assert!(matches!(error_of("f 1 2 /3"), LoadingError::Parse(0)));
    assert!(matches!(error_of("f 1 2 0"), LoadingError::Parse(0)));
    assert!(matches!(error_of("f 1 2 -3"), LoadingError::Parse(0)));
    assert!(matches!(error_of("f 8.5 6 5"), LoadingError::Parse(0)));
    assert!(matches!(error_of("f x 2 3/4/5/6"), LoadingError::Parse(0)));
    assert!(matches!(error_of("f 1/2/3/4 x 3"), LoadingError::WrongNumberOfArguments(0)));
}

#[test]
fn unknown_directive_is_refused_whatever_follows() {
    assert!(matches!(error_of("az 1 2 3"), LoadingError::InvalidLine(0)));
    assert!(matches!(error_of("az"), LoadingError::InvalidLine(0)));
    assert!(matches!(error_of("az x y z w"), LoadingError::InvalidLine(0)));
    assert!(matches!(error_of("v 1 2 3\nvv 1 2 3"), LoadingError::InvalidLine(1)));
    assert!(matches!(error_of("V 1 2 3"), LoadingError::InvalidLine(0)));
    assert!(matches!(error_of(" #x"), LoadingError::InvalidLine(0)));
}

#[test]
fn comments_and_blank_lines_do_not_count() {
    let text = "# a comment\n\n   \nv 1 2 3\n#another\n\t\naz\n";
    assert!(matches!(error_of(text), LoadingError::InvalidLine(1)));
    let data = ObjData::load("#only a comment\n\n").ok().unwrap();
    assert!(data.vertices.is_empty());
    assert!(data.faces.is_empty());
    assert!(data.objects.is_empty());
    assert!(data.groups.is_empty());
}

#[test]
fn empty_document_is_an_empty_scene() {
    let data = ObjData::load("").ok().unwrap();
    assert!(data.vertices.is_empty());
    assert!(data.normals.is_empty());
    assert!(data.texcoords.is_empty());
    assert!(data.faces.is_empty());
    assert!(data.objects.is_empty());
    assert!(data.groups.is_empty());
}

#[test]
fn smoothing_is_ignored_but_counts() {
    let data = ObjData::load("s 1\ns off\ns\n").ok().unwrap();
    assert!(data.faces.is_empty());
    assert!(matches!(error_of("s 1\ns off\naz"), LoadingError::InvalidLine(2)));
}

#[test]
fn faces_without_object_join_an_unnamed_one() {
    let data = ObjData::load("f 1 2 3\nf 2 3 4\n").ok().unwrap();
    assert_eq!(
        data.objects,
        vec![Object { name: String::new(), primitives: vec![0, 1] }]
    );
}

#[test]
fn faces_after_an_object_join_it() {
    let data = ObjData::load("o Cube\nf 1 2 3\nf 2 3 4\n").ok().unwrap();
    assert_eq!(
        data.objects,
        vec![Object { name: String::from("Cube"), primitives: vec![0, 1] }]
    );
}

#[test]
fn object_name_joins_words_with_single_spaces() {
    let data = ObjData::load("o  My   big\tcube \n").ok().unwrap();
    assert_eq!(
        data.objects,
        vec![Object { name: String::from("My big cube"), primitives: vec![] }]
    );
}

#[test]
fn groups_gather_faces_while_active() {
    let text = "g gr1 gr2\nf 1 2 3\nf 1 2 3\ng gr1\nf 1 2 3\ng gr3\nf 1 2 3\ng gr2\nf 1 2 3\n";
    let data = ObjData::load(text).ok().unwrap();
    let expected = vec![
        Group { name: String::from("gr1"), indexes: vec![0, 1, 2].into_iter().collect() },
        Group { name: String::from("gr2"), indexes: vec![0, 1, 4].into_iter().collect() },
        Group { name: String::from("gr3"), indexes: vec![3].into_iter().collect() },
    ];
    assert_eq!(data.groups, expected);
}

#[test]
fn bare_group_line_deactivates_all_groups() {
    let data = ObjData::load("g a\nf 1 2 3\ng\nf 1 2 3\n").ok().unwrap();
    let expected =
        vec![Group { name: String::from("a"), indexes: vec![0].into_iter().collect() }];
    assert_eq!(data.groups, expected);
}

#[test]
fn group_named_twice_in_one_line_is_one_group() {
    let data = ObjData::load("g a a\nf 1 2 3\n").ok().unwrap();
    let expected =
        vec![Group { name: String::from("a"), indexes: vec![0].into_iter().collect() }];
    assert_eq!(data.groups, expected);
}

#[test]
fn groups_stay_active_across_objects() {
    let data = ObjData::load("g a\no one\nf 1 2 3\no two\nf 1 2 3\n").ok().unwrap();
    let expected =
        vec![Group { name: String::from("a"), indexes: vec![0, 1].into_iter().collect() }];
    assert_eq!(data.groups, expected);
    assert_eq!(
        data.objects,
        vec![
            Object { name: String::from("one"), primitives: vec![0] },
            Object { name: String::from("two"), primitives: vec![1] },
        ]
    );
}

#[test]
fn loader_reads_line_by_line() {
    let mut loader = Loader::new();
    assert_eq!(loader.line_number(), 0);
    loader = loader.feed("# comment\n").ok().unwrap();
    assert_eq!(loader.line_number(), 0);
    loader = loader.feed("v 1 2 3\n").ok().unwrap();
    assert_eq!(loader.line_number(), 1);
    loader = loader.feed("\n").ok().unwrap();
    assert_eq!(loader.line_number(), 1);
    loader = loader.feed_chars(&chars("f 1 1 1")).ok().unwrap();
    assert_eq!(loader.line_number(), 2);
    match loader.feed("f 1 1\n") {
        Err(LoadingError::WrongNumberOfArguments(2)) => {},
        _ => panic!("a face with two corners was accepted"),
    }
}

#[test]
fn loader_finish_gives_what_was_read() {
    let loader = Loader::new();
    let loader = loader.feed("o a b").ok().unwrap();
    let loader = loader.feed("f 1 2 3").ok().unwrap();
    let data = loader.finish();
    assert_eq!(
        data.objects,
        vec![Object { name: String::from("a b"), primitives: vec![0] }]
    );
    assert_eq!(data.faces.len(), 1);
}

#[test]
fn parse_reads_numbers_or_fails_with_the_line() {
    let a = chars("1.5");
    let b = chars("-2");
    let c = chars("x");
    let good: Vec<&[char]> = vec![&a, &b];
    let numbers = parse(&good, 7).ok().unwrap();
    assert_eq!(numbers.len(), 2);
    assert_eq!(numbers[0].as_str(), "1.5");
    assert_eq!(numbers[1].as_str(), "-2");
    let bad: Vec<&[char]> = vec![&a, &c, &b];
    assert!(matches!(parse(&bad, 7), Err(LoadingError::Parse(7))));
    let none: Vec<&[char]> = vec![];
    assert!(parse(&none, 0).ok().unwrap().is_empty());
}

#[test]
fn constructors_make_empty_things() {
    let g = Group::new(String::from("g"));
    assert_eq!(g.name, "g");
    assert!(g.indexes.is_empty());
    let o = Object::new(String::from("o"));
    assert_eq!(o.name, "o");
    assert!(o.primitives.is_empty());
    let d = ObjData::new();
    assert!(d.vertices.is_empty() && d.normals.is_empty() && d.texcoords.is_empty());
    assert!(d.faces.is_empty() && d.objects.is_empty() && d.groups.is_empty());
    assert!(d.is_resolvable());
    assert_eq!(d.write(), "");
}

#[test]
fn an_io_error_becomes_a_loading_error() {
    let err = std::io::Error::new(std::io::ErrorKind::Other, "the reader failed");
    match LoadingError::from(err) {
        LoadingError::Io(inner) => assert_eq!(inner.kind(), std::io::ErrorKind::Other),
        _ => panic!("an io error became another error"),
    }
}

#[test]
fn errors_can_be_printed_for_debugging() {
    assert_eq!(format!("{:?}", LoadingError::InvalidLine(3)), "InvalidLine(3)");
    assert_eq!(
        format!("{:?}", LoadingError::WrongNumberOfArguments(0)),
        "WrongNumberOfArguments(0)"
    );
    assert_eq!(format!("{:?}", LoadingError::Parse(12)), "Parse(12)");
}
