use step_merger::{identity_matrix, Assembly, Error, Node, Transform, Vector};

#[test]
fn node_is_made_with_label_only() {
    let node = Node::new("wheel");
    assert_eq!(node.get_label(), "wheel");
    assert_eq!(node.get_link(), None);
    assert!(node.get_children().is_empty());
    assert!(node.get_metadata().is_empty());
    let transform = node.get_transform();
    assert_eq!(
        (transform.position.x.as_str(), transform.position.y.as_str(), transform.position.z.as_str()),
        ("0", "0", "0")
    );
    assert_eq!(
        (transform.x_axis.x.as_str(), transform.x_axis.y.as_str(), transform.x_axis.z.as_str()),
        ("1", "0", "0")
    );
    assert_eq!(
        (transform.z_axis.x.as_str(), transform.z_axis.y.as_str(), transform.z_axis.z.as_str()),
        ("0", "0", "1")
    );
}

#[test]
fn identity_is_written_as_the_numbers_are_printed() {
    let matrix: [f32; 16] = [
        1.0, 0.0, 0.0, 0.0, 0.0, 1.0, 0.0, 0.0, 0.0, 0.0, 1.0, 0.0, 0.0, 0.0, 0.0, 1.0,
    ];
    let identity = identity_matrix();
    assert_eq!(identity.position.x, format!("{}", matrix[12] * 1000.0));
    assert_eq!(identity.position.y, format!("{}", matrix[13] * 1000.0));
    assert_eq!(identity.position.z, format!("{}", matrix[14] * 1000.0));
    assert_eq!(identity.x_axis.x, format!("{}", matrix[0]));
    assert_eq!(identity.x_axis.y, format!("{}", matrix[1]));
    assert_eq!(identity.x_axis.z, format!("{}", matrix[2]));
    assert_eq!(identity.z_axis.x, format!("{}", matrix[8]));
    assert_eq!(identity.z_axis.y, format!("{}", matrix[9]));
    assert_eq!(identity.z_axis.z, format!("{}", matrix[10]));
}

#[test]
fn node_takes_children_link_metadata_and_placement() {
    let mut node = Node::new("axle");
    node.add_child(2);
    node.add_child(1);
    node.set_link("axle.stp");
    node.add_metadata("material", "steel");
    node.add_metadata("mass", "12");
    node.set_transform(Transform {
        position: Vector { x: "1500".to_string(), y: "0".to_string(), z: "-20.5".to_string() },
        x_axis: Vector { x: "0".to_string(), y: "1".to_string(), z: "0".to_string() },
        z_axis: Vector { x: "0".to_string(), y: "0".to_string(), z: "1".to_string() },
    });
    assert_eq!(node.get_children(), &[2, 1]);
    assert_eq!(node.get_link(), Some("axle.stp"));
    assert_eq!(node.get_metadata().len(), 2);
    assert_eq!(node.get_metadata()[0].key, "material");
    assert_eq!(node.get_metadata()[1].value, "12");
    assert_eq!(node.get_transform().position.z, "-20.5");
    assert_eq!(node.get_label(), "axle");
}

#[test]
fn assembly_with_children_that_are_nodes_is_valid() {
    let mut root = Node::new("root");
    root.add_child(1);
    root.add_child(2);
    let mut middle = Node::new("middle");
    middle.add_child(2);
    let assembly = Assembly { nodes: vec![root, middle, Node::new("leaf")] };
    assert!(assembly.is_valid().is_ok());
    assert!(Assembly { nodes: Vec::new() }.is_valid().is_ok());
}

#[test]
fn first_child_that_is_no_node_is_reported() {
    let mut root = Node::new("root");
    root.add_child(1);
    let mut second = Node::new("second");
    second.add_child(0);
    second.add_child(7);
    second.add_child(9);
    let mut third = Node::new("third");
    third.add_child(3);
    let assembly = Assembly { nodes: vec![root, second, third] };
    match assembly.is_valid() {
        Err(Error::InvalidFormat(child, label)) => {
            assert_eq!(child, 7);
            assert_eq!(label, "second");
        }
        other => panic!("{:?}", other),
    }
    let error = assembly.is_valid().unwrap_err();
    assert_eq!(error.message(), "Invalid child index 7 in node second");
}

#[test]
fn errors_describe_themselves() {
    assert_eq!(Error::NoDataSection().message(), "Data section not found");
    assert_eq!(Error::EndOfInput().message(), "Unexpected end of input");
    assert_eq!(Error::ParsingTokenError().message(), "Failed to parsing token");
    assert_eq!(
        Error::UnexpectedToken("#".to_string(), ";".to_string()).message(),
        "Unexpected token. Expected #, got ;"
    );
    assert_eq!(Error::UnexpectedIdentifier("FOO".to_string()).message(), "Unexpected identifier: FOO");
    assert_eq!(Error::InvalidNumber("9".to_string()).message(), "Invalid number");
    assert_eq!(
        Error::AppContextMissing("cube.stp".to_string()).message(),
        "No APPLICATION_CONTEXT entry found in step file cube.stp"
    );
    assert_eq!(
        Error::FailedOpenFile("denied".to_string(), "a/b.stp".to_string()).message(),
        "Failed to open file: a/b.stp"
    );
    assert_eq!(Error::LoadAssembly("x".to_string()).message(), "Failed to parse assembly JSON");
    assert_eq!(Error::StepFileWrite("x".to_string()).message(), "Failed to write step file");
    assert_eq!(Error::ReadLineError("x".to_string()).message(), "Failed to read line from file");
    assert_eq!(Error::IO("x".to_string()).message(), "Failed to read");
    assert_eq!(Error::UTF8("bad".to_string()).message(), "Failed to parse utf8 string: bad");
    assert_eq!(Error::InvalidFormat(0, "".to_string()).message(), "Invalid child index 0 in node ");
    let copy = Error::UnexpectedToken("a".to_string(), "b".to_string()).clone();
    assert!(matches!(copy, Error::UnexpectedToken(a, b) if a == "a" && b == "b"));
}
