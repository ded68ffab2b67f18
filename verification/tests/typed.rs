use ply_rs::parser::{read_ply_values, Parser, Source};
use ply_rs::ply::{
    gather, materialize, DefaultElement, ElementDef, Property, PropertyAccess, PropertyDef,
    PropertyType, Real32, ScalarType, Values,
};

#[derive(Debug, PartialEq)]
struct Vertex {
    x: f32,
    y: f32,
    z: f32,
}

#[derive(Debug, PartialEq)]
struct Face {
    vertex_index: Vec<i32>,
}

fn number(v: Real32) -> f32 {
    match v {
        Real32::Bits(b) => f32::from_bits(b),
        Real32::Literal(t) => t.parse().unwrap(),
    }
}

impl PropertyAccess for Vertex {
    fn new() -> Self {
        Vertex { x: 0.0, y: 0.0, z: 0.0 }
    }

    fn set_property(&mut self, key: &str, property: Property) {
        match (key, property) {
            ("x", Property::Float(v)) => self.x = number(v),
            ("y", Property::Float(v)) => self.y = number(v),
            ("z", Property::Float(v)) => self.z = number(v),
            (k, _) => panic!("Vertex: Unexpected key/value combination: key: {}", k),
        }
    }
}

impl PropertyAccess for Face {
    fn new() -> Self {
        Face { vertex_index: Vec::new() }
    }

    fn set_property(&mut self, key: &str, property: Property) {
        match (key, property) {
            ("vertex_index", Property::ListInt(vec)) => self.vertex_index = vec,
            (k, _) => panic!("Face: Unexpected key/value combination: key: {}", k),
        }
    }
}

const CUBE: &str = "ply\n\
    format ascii 1.0\n\
    comment made by hand\n\
    element vertex 3\n\
    property float x\n\
    property float y\n\
    property float z\n\
    element face 2\n\
    property list uchar int vertex_index\n\
    end_header\n\
    0 0 0\n\
    0 0.5 1\n\
    -1e1 1 0\n\
    3 0 1 2\n\
    4 2 1 0 0\n";

#[test]
fn read_into_struct() {
    let mut f = Source::new(CUBE.as_bytes().to_vec());
    let vertex_parser = Parser::<Vertex>::new();
    let face_parser = Parser::<Face>::new();
    let header = vertex_parser.read_header(&mut f).unwrap();
    let mut vertex_list = Vec::new();
    let mut face_list = Vec::new();
    for element in &header.elements {
        match element.name.as_ref() {
            "vertex" => {
                vertex_list = vertex_parser.read_payload_for_element(&mut f, element, &header).unwrap();
            }
            "face" => {
                face_list = face_parser.read_payload_for_element(&mut f, element, &header).unwrap();
            }
            _ => panic!("Enexpeced element!"),
        }
    }
    assert_eq!(
        vertex_list,
        vec![
            Vertex { x: 0.0, y: 0.0, z: 0.0 },
            Vertex { x: 0.0, y: 0.5, z: 1.0 },
            Vertex { x: -10.0, y: 1.0, z: 0.0 }
        ]
    );
    assert_eq!(
        face_list,
        vec![Face { vertex_index: vec![0, 1, 2] }, Face { vertex_index: vec![2, 1, 0, 0] }]
    );

    let ply = Parser::<DefaultElement>::new()
        .read_ply(&mut Source::new(CUBE.as_bytes().to_vec()))
        .unwrap();
    for (i, vert) in vertex_list.iter().enumerate() {
        let x = match ply.payload.get("vertex").unwrap()[i].get("x") {
            Some(Property::Float(v)) => number(v.clone()),
            _ => panic!("Unexpected property."),
        };
        assert_eq!(vert.x, x);
    }
    for (i, face) in face_list.iter().enumerate() {
        let v = match ply.payload.get("face").unwrap()[i].get("vertex_index") {
            Some(Property::ListInt(v)) => v,
            _ => panic!("Unexpected property."),
        };
        assert_eq!(face.vertex_index, *v);
    }
}

#[test]
fn values_as_they_are_read() {
    let (header, payload) = read_ply_values(&mut Source::new(CUBE.as_bytes().to_vec())).unwrap();
    assert_eq!(header.comments, vec!["made by hand"]);
    assert_eq!(payload.len(), 2);
    let vertices = payload.get("vertex").unwrap();
    let expected: Values = vec![
        ("x".to_string(), Property::Float(Real32::Literal("-1e1".to_string()))),
        ("y".to_string(), Property::Float(Real32::Literal("1".to_string()))),
        ("z".to_string(), Property::Float(Real32::Literal("0".to_string()))),
    ];
    assert_eq!(vertices[2], expected);
    let faces = payload.get("face").unwrap();
    assert_eq!(
        faces[1],
        vec![("vertex_index".to_string(), Property::ListInt(vec![2, 1, 0, 0]))]
    );
}

#[test]
fn values_gathered_under_their_names() {
    let values: Values = vec![
        ("x".to_string(), Property::Int(1)),
        ("y".to_string(), Property::Int(2)),
        ("x".to_string(), Property::UChar(3)),
    ];
    let record = gather(values.clone());
    assert_eq!(record.len(), 2);
    assert_eq!(record.key_at(0), "x");
    assert_eq!(record.get("x"), Some(&Property::UChar(3)));
    assert_eq!(record.get("y"), Some(&Property::Int(2)));
    let same: DefaultElement = materialize(values);
    assert_eq!(same, record);
}

#[test]
fn struct_that_passes_over_a_name() {
    struct Count(usize);
    impl PropertyAccess for Count {
        fn new() -> Self {
            Count(0)
        }
        fn set_property(&mut self, _key: &str, _property: Property) {
            self.0 += 1;
        }
    }
    let mut def = ElementDef::new("face");
    def.properties = vec![
        PropertyDef::new("a", PropertyType::List(ScalarType::UChar, ScalarType::Int)),
        PropertyDef::new("a", PropertyType::Scalar(ScalarType::UChar)),
    ];
    let p = Parser::<Count>::new();
    assert_eq!(p.read_ascii_element("3 0 1 2 255", &def).unwrap().0, 2);
    let mut src = Source::new(vec![2, 0, 0, 0, 7, 0, 0, 0, 8, 9, 0xff]);
    assert_eq!(p.read_big_endian_element(&mut src, &def).unwrap().0, 2);
    assert_eq!(src.remaining(), 1);
}
