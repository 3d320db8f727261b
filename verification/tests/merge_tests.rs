use std::cell::RefCell;
use std::vec::IntoIter;

use step_merger::{
    merge_assembly_structure_to_step_with_resolver, Assembly, Error, Node, STEPParser, StepEntry,
    StepMerger, Transform, Vector,
};

type Entries = IntoIter<Result<StepEntry, Error>>;

fn cube() -> &'static str {
    "ISO-10303-21;
HEADER;
FILE_DESCRIPTION((''), '2;1');
FILE_NAME('cube.stp', '2024-02-09T12:37:21+01:00', (''), (''), '', '', '');
FILE_SCHEMA(('AP203'));
ENDSEC;
DATA;
#1=APPLICATION_PROTOCOL_DEFINITION('international standard','config_control_design',1994,#2);
#2=APPLICATION_CONTEXT('configuration controlled 3D designs of mechanical parts and assemblies');
#3=PRODUCT_DEFINITION('','',#4,#5);
#4=PRODUCT_DEFINITION_FORMATION('','',#6);
#5=PRODUCT_DEFINITION_CONTEXT('part definition',#2,'design');
#6=PRODUCT('cube','cube','',(#7));
#7=PRODUCT_CONTEXT('',#2,'mechanical');
#8=PRODUCT_DEFINITION_SHAPE('',$,#3);
#9=SHAPE_REPRESENTATION('',(#10),#11);
#10=AXIS2_PLACEMENT_3D('',#12,$,$);
#11=(GEOMETRIC_REPRESENTATION_CONTEXT(3)REPRESENTATION_CONTEXT('',''));
#12=CARTESIAN_POINT('',(0.,0.,0.));
#13=SHAPE_DEFINITION_REPRESENTATION(#8,#9);
#14=STYLED_ITEM('',(#15),#16);
#15=PRESENTATION_STYLE_ASSIGNMENT(());
#16=MANIFOLD_SOLID_BREP('#2;',$);
#17=MECHANICAL_DESIGN_GEOMETRIC_PRESENTATION_REPRESENTATION('',(#14),#11);
ENDSEC;
END-ISO-10303-21;
"
}

fn sphere() -> &'static str {
    "ISO-10303-21;
HEADER;
ENDSEC;
DATA;
#10 = APPLICATION_CONTEXT('mechanical design');
#20 = PRODUCT_DEFINITION('','',#21,#22);
#30 = PRODUCT_DEFINITION_SHAPE('',$,#20);
#40 = SHAPE_REPRESENTATION('',(#41),#42);
#50 = SHAPE_DEFINITION_REPRESENTATION(#30,#40);
#60 = STYLED_ITEM('',(#61),#62);
#70 = STYLED_ITEM('',(#71),#72);
#80 = MECHANICAL_DESIGN_GEOMETRIC_PRESENTATION_REPRESENTATION('',(#60,#70),#10);
ENDSEC;
"
}

fn entries_of(text: &str) -> Result<Entries, Error> {
    Ok(STEPParser::new(text.as_bytes())?.read_all().into_iter())
}

fn resolve(link: &str) -> Result<Entries, Error> {
    match link {
        "cube.stp" => entries_of(cube()),
        "sphere.stp" => entries_of(sphere()),
        _ => Err(Error::FailedOpenFile(format!("File not found: {}", link), link.to_owned())),
    }
}

fn fail(link: &str) -> Result<Entries, Error> {
    Err(Error::FailedOpenFile("no such file".to_owned(), link.to_owned()))
}

/// The lines of the data section: all lines behind `DATA;`.
fn data_lines(output: &str) -> Vec<String> {
    let begin = output.find("DATA;\n").expect("no data section") + 6;
    output[begin..].lines().map(|line| line.to_owned()).collect()
}

fn merged(assembly: &Assembly, load_references: bool) -> Vec<String> {
    let mut output = String::new();
    merge_assembly_structure_to_step_with_resolver(assembly, load_references, &mut output, resolve)
        .unwrap();
    data_lines(&output)
}

fn closing(first: u64, list: &str) -> Vec<String> {
    vec![
        format!("#{}=(LENGTH_UNIT()NAMED_UNIT(*)SI_UNIT(.MILLI.,.METRE.));", first),
        format!("#{}=(NAMED_UNIT(*)PLANE_ANGLE_UNIT()SI_UNIT($,.RADIAN.));", first + 1),
        format!("#{}=PLANE_ANGLE_MEASURE_WITH_UNIT(PLANE_ANGLE_MEASURE(1.745329251994E-02),#{});", first + 2, first + 1),
        format!("#{}=DIMENSIONAL_EXPONENTS(0.,0.,0.,0.,0.,0.,0.);", first + 3),
        format!("#{}=(CONVERSION_BASED_UNIT('DEGREE',#{})NAMED_UNIT(#{})PLANE_ANGLE_UNIT());", first + 4, first + 3, first + 3),
        format!("#{}=(NAMED_UNIT(*)SI_UNIT($,.STERADIAN.)SOLID_ANGLE_UNIT());", first + 5),
        format!("#{}=UNCERTAINTY_MEASURE_WITH_UNIT(LENGTH_MEASURE(10.E-03),#{},'distance_accuracy_value','Confusion accuracy');", first + 6, first),
        format!("#{}=(GEOMETRIC_REPRESENTATION_CONTEXT(3)GLOBAL_UNCERTAINTY_ASSIGNED_CONTEXT((#{}))GLOBAL_UNIT_ASSIGNED_CONTEXT((#{},#{},#{}))REPRESENTATION_CONTEXT('',''));", first + 7, first + 6, first, first + 4, first + 5),
        format!("#{}=MECHANICAL_DESIGN_GEOMETRIC_PRESENTATION_REPRESENTATION('',({}),#{});", first + 8, list, first + 7),
        "ENDSEC;".to_owned(),
        "".to_owned(),
        "END-ISO-10303-21;".to_owned(),
    ]
}

fn prolog() -> Vec<String> {
    vec![
        "#1=APPLICATION_CONTEXT('Configuration controlled 3D designs of mechanical parts and assemblies');".to_owned(),
        "#2=APPLICATION_PROTOCOL_DEFINITION('international standard', 'configuration_control_3d_design_ed2_mim',2004, #1);".to_owned(),
        "#3=CARTESIAN_POINT('',(0.,0.,0.));".to_owned(),
        "#4=DIRECTION('',(0.,0.,1.));".to_owned(),
        "#5=DIRECTION('',(1.,0.,0.));".to_owned(),
        "#6=AXIS2_PLACEMENT_3D('',#3,#4,#5);".to_owned(),
    ]
}

fn node_lines(first: u64, label: &str) -> Vec<String> {
    let f = first;
    vec![
        format!("#{}=CARTESIAN_POINT('',(0.,0.,0.));", f),
        format!("#{}=DIRECTION('',(0.,0.,1.));", f + 1),
        format!("#{}=DIRECTION('',(1.,0.,0.));", f + 2),
        format!("#{}=AXIS2_PLACEMENT_3D('',#{},#{},#{});", f + 3, f, f + 1, f + 2),
        format!("#{}=(NAMED_UNIT(*)SI_UNIT($,.STERADIAN.)SOLID_ANGLE_UNIT());", f + 4),
        format!("#{}=(LENGTH_UNIT()NAMED_UNIT(*)SI_UNIT(.MILLI.,.METRE.));", f + 5),
        format!("#{}=(NAMED_UNIT(*)PLANE_ANGLE_UNIT()SI_UNIT($,.RADIAN.));", f + 6),
        format!("#{}=PRODUCT_CONTEXT('',#1,'mechanical');", f + 7),
        format!("#{}=PRODUCT('{}','{}','',(#{}));", f + 8, label, label, f + 7),
        format!("#{}=PRODUCT_DEFINITION_CONTEXT('part_definition',#1,'');", f + 9),
        format!("#{}=PRODUCT_DEFINITION_FORMATION('','',#{});", f + 10, f + 8),
        format!("#{}=PRODUCT_DEFINITION('','',#{},#{});", f + 11, f + 10, f + 9),
        format!("#{}=PRODUCT_DEFINITION_SHAPE('',$,#{});", f + 12, f + 11),
        format!("#{}=PRODUCT_RELATED_PRODUCT_CATEGORY('component','',(#{}));", f + 13, f + 8),
        format!("#{}=UNCERTAINTY_MEASURE_WITH_UNIT(LENGTH_MEASURE(0.1E-12),#{},'distance accuracy value','edge curve and vertex point accuracy');", f + 14, f + 5),
        format!("#{}=(GEOMETRIC_REPRESENTATION_CONTEXT(3)GLOBAL_UNCERTAINTY_ASSIGNED_CONTEXT((#{}))GLOBAL_UNIT_ASSIGNED_CONTEXT((#{},#{},#{}))REPRESENTATION_CONTEXT('',''));", f + 15, f + 14, f + 5, f + 6, f + 4),
        format!("#{}=SHAPE_REPRESENTATION('{}',(#{}),#{});", f + 16, label, f + 3, f + 15),
        format!("#{}=SHAPE_DEFINITION_REPRESENTATION(#{},#{});", f + 17, f + 12, f + 16),
    ]
}

#[allow(clippy::too_many_arguments)]
fn relation_lines(
    first: u64,
    parent: &str,
    child: &str,
    parent_ids: (u64, u64),
    child_ids: (u64, u64),
    position: &str,
    z_axis: &str,
    x_axis: &str,
) -> Vec<String> {
    let f = first;
    vec![
        format!("#{}=CARTESIAN_POINT('',({}));", f, position),
        format!("#{}=DIRECTION('',({}));", f + 1, z_axis),
        format!("#{}=DIRECTION('',({}));", f + 2, x_axis),
        format!("#{}=AXIS2_PLACEMENT_3D('',#{},#{},#{});", f + 3, f, f + 1, f + 2),
        format!("#{}=ITEM_DEFINED_TRANSFORMATION('','',#6,#{});", f + 4, f + 3),
        format!("#{}=(REPRESENTATION_RELATIONSHIP('Child > Parent','{} > {}',#{}, #{})REPRESENTATION_RELATIONSHIP_WITH_TRANSFORMATION(#{})SHAPE_REPRESENTATION_RELATIONSHIP());", f + 5, child, parent, child_ids.1, parent_ids.1, f + 4),
        format!("#{}=NEXT_ASSEMBLY_USAGE_OCCURRENCE('{}','','{}',#{},#{},'{}');", f + 6, child, child, parent_ids.0, child_ids.0, child),
        format!("#{}=PRODUCT_DEFINITION_SHAPE('{}',$,#{});", f + 7, child, f + 6),
        format!("#{}=CONTEXT_DEPENDENT_SHAPE_REPRESENTATION(#{},#{});", f + 8, f + 5, f + 7),
    ]
}

#[test]
fn empty_assembly_without_references() {
    let assembly = Assembly { nodes: Vec::new() };
    let mut output = String::new();
    merge_assembly_structure_to_step_with_resolver(&assembly, false, &mut output, fail).unwrap();
    let mut expected = prolog();
    expected.extend(closing(7, ""));
    assert_eq!(data_lines(&output), expected);
    assert!(output.starts_with(
        "ISO-10303-21;\n\nHEADER;\n\nFILE_DESCRIPTION((''), '2;1');\nFILE_NAME('', '"
    ));
    assert!(output.contains("', (''), (''), 'step-merger', '', '');\nFILE_SCHEMA(('AP203_CONFIGURATION_CONTROLLED_3D_DESIGN_OF_MECHANICAL_PARTS_AND_ASSEMBLIES_MIM_LF { 1 0 10303 403 1 1 4 }'));\n\nENDSEC;\n\nDATA;\n#1=APPLICATION_CONTEXT("));
}

#[test]
fn two_nodes_parent_and_child() {
    let mut a = Node::new("A");
    a.add_child(1);
    let b = Node::new("B");
    let assembly = Assembly { nodes: vec![a, b] };
    let lines = merged(&assembly, false);
    let mut expected = prolog();
    expected.extend(node_lines(7, "A"));
    expected.extend(node_lines(25, "B"));
    expected.extend(relation_lines(43, "A", "B", (18, 23), (36, 41), "0,0,0", "0,0,1", "1,0,0"));
    expected.extend(closing(52, ""));
    assert_eq!(lines, expected);
    assert!(lines.contains(&"#18=PRODUCT_DEFINITION('','',#17,#16);".to_owned()));
    assert!(lines.contains(&"#23=SHAPE_REPRESENTATION('A',(#10),#22);".to_owned()));
    assert!(lines.contains(&"#49=NEXT_ASSEMBLY_USAGE_OCCURRENCE('B','','B',#18,#36,'B');".to_owned()));
}

#[test]
fn ids_count_up_without_gap() {
    let mut root = Node::new("root");
    root.add_child(1);
    root.add_child(2);
    root.add_metadata("k", "v");
    let mut one = Node::new("one");
    one.add_child(2);
    let mut two = Node::new("two");
    two.add_metadata("a", "b");
    two.add_metadata("c", "d");
    let assembly = Assembly { nodes: vec![root, one, two] };
    let lines = merged(&assembly, false);
    let entries: Vec<&String> = lines.iter().filter(|line| line.starts_with('#')).collect();
    assert_eq!(entries.len(), 6 + 3 * 18 + 3 * 4 + 3 * 9 + 9);
    for (i, line) in entries.iter().enumerate() {
        assert!(line.starts_with(&format!("#{}=", i + 1)), "{}", line);
    }
}

#[test]
fn metadata_follows_its_node() {
    let mut node = Node::new("N");
    node.add_metadata("material", "steel");
    node.add_metadata("mass", "12 kg");
    let assembly = Assembly { nodes: vec![node, Node::new("M")] };
    let lines = merged(&assembly, false);
    let mut expected = prolog();
    expected.extend(node_lines(7, "N"));
    expected.extend(vec![
        "#25=PROPERTY_DEFINITION('material','',#18);".to_owned(),
        "#26=DESCRIPTIVE_REPRESENTATION_ITEM('material','steel');".to_owned(),
        "#27=REPRESENTATION('',(#26),$);".to_owned(),
        "#28=PROPERTY_DEFINITION_REPRESENTATION(#25,#27);".to_owned(),
        "#29=PROPERTY_DEFINITION('mass','',#18);".to_owned(),
        "#30=DESCRIPTIVE_REPRESENTATION_ITEM('mass','12 kg');".to_owned(),
        "#31=REPRESENTATION('',(#30),$);".to_owned(),
        "#32=PROPERTY_DEFINITION_REPRESENTATION(#29,#31);".to_owned(),
    ]);
    expected.extend(node_lines(33, "M"));
    expected.extend(closing(51, ""));
    assert_eq!(lines, expected);
}

#[test]
fn child_lies_in_its_parent_as_its_placement_says() {
    let matrix: [f32; 16] = [
        0.0, 1.0, 0.0, 0.0, -1.0, 0.0, 0.0, 0.0, 0.0, 0.0, 1.0, 0.0, 1.5, -0.25, 2.0, 1.0,
    ];
    let text = |value: f32| format!("{}", value);
    let mut parent = Node::new("P");
    parent.add_child(1);
    let mut child = Node::new("C");
    child.set_transform(Transform {
        position: Vector {
            x: text(matrix[12] * 1000.0),
            y: text(matrix[13] * 1000.0),
            z: text(matrix[14] * 1000.0),
        },
        x_axis: Vector { x: text(matrix[0]), y: text(matrix[1]), z: text(matrix[2]) },
        z_axis: Vector { x: text(matrix[8]), y: text(matrix[9]), z: text(matrix[10]) },
    });
    let assembly = Assembly { nodes: vec![parent, child] };
    let lines = merged(&assembly, false);
    assert_eq!(
        lines[42..51].to_vec(),
        relation_lines(43, "P", "C", (18, 23), (36, 41), "1500,-250,2000", "0,0,1", "0,1,0")
    );
}

fn cube_and_sphere() -> Assembly {
    let mut root = Node::new("root");
    root.add_child(1);
    root.add_child(2);
    let mut cube = Node::new("cube");
    cube.set_link("cube.stp");
    let mut sphere = Node::new("sphere");
    sphere.set_link("sphere.stp");
    Assembly { nodes: vec![root, cube, sphere] }
}

fn cube_and_sphere_lines() -> Vec<String> {
    let mut expected = prolog();
    expected.extend(node_lines(7, "root"));
    expected.extend(node_lines(25, "cube"));
    expected.extend(node_lines(43, "sphere"));
    expected.extend(relation_lines(61, "root", "cube", (18, 23), (36, 41), "0,0,0", "0,0,1", "1,0,0"));
    expected.extend(relation_lines(70, "root", "sphere", (18, 23), (54, 59), "0,0,0", "0,0,1", "1,0,0"));
    // the cube, ids shifted by 78, its context as #1
    expected.extend(
        [
            "#81=PRODUCT_DEFINITION('','',#82,#83);",
            "#82=PRODUCT_DEFINITION_FORMATION('','',#84);",
            "#83=PRODUCT_DEFINITION_CONTEXT('part definition',#1,'design');",
            "#84=PRODUCT('cube','cube','',(#85));",
            "#85=PRODUCT_CONTEXT('',#1,'mechanical');",
            "#86=PRODUCT_DEFINITION_SHAPE('',$,#81);",
            "#87=SHAPE_REPRESENTATION('',(#88),#89);",
            "#88=AXIS2_PLACEMENT_3D('',#90,$,$);",
            "#89=(GEOMETRIC_REPRESENTATION_CONTEXT(3)REPRESENTATION_CONTEXT('',''));",
            "#90=CARTESIAN_POINT('',(0.,0.,0.));",
            "#91=SHAPE_DEFINITION_REPRESENTATION(#86,#87);",
            "#92=STYLED_ITEM('',(#93),#94);",
            "#93=PRESENTATION_STYLE_ASSIGNMENT(());",
            "#94=MANIFOLD_SOLID_BREP('#2;',$);",
        ]
        .iter()
        .map(|line| line.to_string()),
    );
    // the sphere, ids shifted by 95; its definitions begin with the space
    // that stands behind `=` in the file
    expected.extend(
        [
            "#115= PRODUCT_DEFINITION('','',#116,#117);",
            "#125= PRODUCT_DEFINITION_SHAPE('',$,#115);",
            "#135= SHAPE_REPRESENTATION('',(#136),#137);",
            "#145= SHAPE_DEFINITION_REPRESENTATION(#125,#135);",
            "#155= STYLED_ITEM('',(#156),#157);",
            "#165= STYLED_ITEM('',(#166),#167);",
        ]
        .iter()
        .map(|line| line.to_string()),
    );
    expected.extend(relation_lines(176, "cube", "cube", (36, 41), (81, 87), "0,0,0", "0,0,1", "1,0,0"));
    expected.extend(relation_lines(185, "sphere", "sphere", (54, 59), (115, 135), "0,0,0", "0,0,1", "1,0,0"));
    expected.extend(closing(194, "#92,#155,#165"));
    expected
}

#[test]
fn test_merge_assembly_structure_to_step_with_resolver() {
    let assembly = cube_and_sphere();

    let mut output = String::new();
    merge_assembly_structure_to_step_with_resolver(&assembly, true, &mut output, resolve).unwrap();

    let expected = cube_and_sphere_lines();
    let actual = data_lines(&output);
    for (l, (expected, actual)) in expected.iter().zip(actual.iter()).enumerate() {
        assert_eq!(expected, actual, "Mismatch at line {}", l + 1);
    }
    assert_eq!(expected.len(), actual.len());
}

#[test]
fn merged_file_can_be_read_again() {
    let assembly = cube_and_sphere();
    let mut output = String::new();
    merge_assembly_structure_to_step_with_resolver(&assembly, true, &mut output, resolve).unwrap();
    let entries: Vec<StepEntry> = STEPParser::new(output.as_bytes())
        .unwrap()
        .read_all()
        .into_iter()
        .map(|r| r.unwrap())
        .collect();
    let lines: Vec<String> =
        entries.iter().map(|e| format!("#{}={};", e.get_id(), e.get_definition())).collect();
    let expected: Vec<String> =
        cube_and_sphere_lines().into_iter().filter(|line| line.starts_with('#')).collect();
    assert_eq!(lines, expected);
}

#[test]
fn references_are_not_loaded_unless_asked_for() {
    let assembly = cube_and_sphere();
    let calls = RefCell::new(Vec::new());
    let resolver = |link: &str| -> Result<Entries, Error> {
        calls.borrow_mut().push(link.to_owned());
        resolve(link)
    };
    let mut output = String::new();
    merge_assembly_structure_to_step_with_resolver(&assembly, false, &mut output, resolver).unwrap();
    assert!(calls.borrow().is_empty());
    let mut expected = prolog();
    expected.extend(node_lines(7, "root"));
    expected.extend(node_lines(25, "cube"));
    expected.extend(node_lines(43, "sphere"));
    expected.extend(relation_lines(61, "root", "cube", (18, 23), (36, 41), "0,0,0", "0,0,1", "1,0,0"));
    expected.extend(relation_lines(70, "root", "sphere", (18, 23), (54, 59), "0,0,0", "0,0,1", "1,0,0"));
    expected.extend(closing(79, ""));
    assert_eq!(data_lines(&output), expected);
}

#[test]
fn each_link_is_resolved_once() {
    let mut root = Node::new("root");
    for child in 1..6 {
        root.add_child(child);
    }
    let mut nodes = vec![root];
    for (label, link) in [
        ("a", "cube.stp"),
        ("b", "missing.stp"),
        ("c", "cube.stp"),
        ("d", "missing.stp"),
        ("e", "sphere.stp"),
    ] {
        let mut node = Node::new(label);
        node.set_link(link);
        nodes.push(node);
    }
    let assembly = Assembly { nodes };
    let calls = RefCell::new(Vec::new());
    let resolver = |link: &str| -> Result<Entries, Error> {
        calls.borrow_mut().push(link.to_owned());
        resolve(link)
    };
    let mut output = String::new();
    merge_assembly_structure_to_step_with_resolver(&assembly, true, &mut output, resolver).unwrap();
    assert_eq!(
        *calls.borrow(),
        vec!["cube.stp".to_owned(), "missing.stp".to_owned(), "sphere.stp".to_owned()]
    );
    // the cube is written once and tied to both nodes that link to it
    let lines = data_lines(&output);
    let products = lines.iter().filter(|line| line.contains("=PRODUCT('cube','cube'")).count();
    assert_eq!(products, 1);
    let usages: Vec<&String> = lines
        .iter()
        .filter(|line| line.contains("NEXT_ASSEMBLY_USAGE_OCCURRENCE('a'") || line.contains("NEXT_ASSEMBLY_USAGE_OCCURRENCE('c'"))
        .collect();
    assert_eq!(usages.len(), 4);
}

#[test]
fn resolver_failure_is_like_no_link() {
    let mut with_link = Node::new("part");
    with_link.set_link("missing.stp");
    let mut root = Node::new("root");
    root.add_child(1);
    let linked = Assembly { nodes: vec![root, with_link] };
    let mut root = Node::new("root");
    root.add_child(1);
    let plain = Assembly { nodes: vec![root, Node::new("part")] };

    let mut merger = StepMerger::with_timestamp("2024-02-09T12:37:21+01:00");
    merger.merge(&linked, true, &resolve).unwrap();
    let with_failure = merger.into_output();

    let mut merger = StepMerger::with_timestamp("2024-02-09T12:37:21+01:00");
    merger.merge(&plain, true, &resolve).unwrap();
    let without_link = merger.into_output();

    assert_eq!(with_failure, without_link);

    let mut merger = StepMerger::with_timestamp("2024-02-09T12:37:21+01:00");
    merger.merge(&linked, true, &fail).unwrap();
    assert_eq!(merger.into_output(), without_link);
    assert_eq!(data_lines(&without_link).len(), 6 + 36 + 9 + 9 + 3);
}

#[test]
fn part_file_without_application_context_ends_the_merge() {
    let mut node = Node::new("part");
    node.set_link("no-context.stp");
    let assembly = Assembly { nodes: vec![node] };
    let resolver = |_link: &str| -> Result<Entries, Error> {
        entries_of("ISO-10303-21; DATA; #1=PRODUCT('a'); ENDSEC;")
    };
    let mut output = String::new();
    let result = merge_assembly_structure_to_step_with_resolver(&assembly, true, &mut output, resolver);
    match result {
        Err(Error::AppContextMissing(name)) => assert_eq!(name, "no-context.stp"),
        other => panic!("{:?}", other),
    }
    // the file is closed all the same, and holds the entries of the tree
    let lines = data_lines(&output);
    assert_eq!(lines.len(), 6 + 18 + 3);
    assert_eq!(lines[24..].to_vec(), vec!["ENDSEC;".to_owned(), "".to_owned(), "END-ISO-10303-21;".to_owned()]);
}

#[test]
fn part_file_with_an_error_ends_the_merge() {
    let mut node = Node::new("part");
    node.set_link("broken.stp");
    let assembly = Assembly { nodes: vec![node] };
    let resolver = |_link: &str| -> Result<Entries, Error> {
        entries_of("ISO-10303-21; DATA; #1=APPLICATION_CONTEXT(''); #2=A(#1); #3 B; ENDSEC;")
    };
    let mut merger = StepMerger::with_timestamp("t");
    let result = merger.merge(&assembly, true, &resolver);
    assert!(matches!(result, Err(Error::UnexpectedToken(expected, got)) if expected == "=" && got == "B"));
    assert!(merger.writer().is_finalized());
    let output = merger.into_output();
    let lines = data_lines(&output);
    assert_eq!(lines[24], "#26=A(#1);");
    assert_eq!(lines[25..].to_vec(), vec!["ENDSEC;".to_owned(), "".to_owned(), "END-ISO-10303-21;".to_owned()]);
}

#[test]
fn ids_that_cannot_be_shifted_end_the_merge() {
    let mut node = Node::new("part");
    node.set_link("huge.stp");
    let assembly = Assembly { nodes: vec![node] };
    let resolver = |_link: &str| -> Result<Entries, Error> {
        entries_of("ISO-10303-21; DATA; #1=APPLICATION_CONTEXT(''); #18446744073709551615=A(#1); ENDSEC;")
    };
    let mut merger = StepMerger::with_timestamp("t");
    let result = merger.merge(&assembly, true, &resolver);
    assert!(matches!(result, Err(Error::InvalidNumber(_))));
    let too_great = |_link: &str| -> Result<Entries, Error> {
        Ok(vec![
            Ok(StepEntry::new(1, "APPLICATION_CONTEXT('')")),
            Ok(StepEntry::new(2, "A(#18446744073709551616)")),
        ]
        .into_iter())
    };
    let mut merger = StepMerger::with_timestamp("t");
    assert!(matches!(merger.merge(&assembly, true, &too_great), Err(Error::InvalidNumber(_))));
}

#[test]
fn import_shifts_ids_and_finds_roots() {
    let mut merger = StepMerger::with_timestamp("t");
    merger.create_app_context().unwrap();
    merger.create_default_coordinate_system().unwrap();
    assert_eq!(merger.id_counter(), 6);
    let roots = merger.load_and_add_step_entries(entries_of(sphere()).unwrap(), "sphere.stp").unwrap();
    assert_eq!(roots.len(), 1);
    assert_eq!(roots[0].product_definition_id, 26);
    assert_eq!(roots[0].shape_representation_id, 46);
    assert_eq!(merger.id_counter(), 86);
    merger.write_mechanical_part_entries().unwrap();
    let lines = data_lines(&merger.into_output());
    assert_eq!(lines[6], "#26= PRODUCT_DEFINITION('','',#27,#28);");
    assert_eq!(lines[11], "#76= STYLED_ITEM('',(#77),#78);");
    assert_eq!(lines[12..].to_vec(), closing(87, "#66,#76"));
}

#[test]
fn import_of_a_file_with_only_its_context_keeps_the_counter() {
    let mut merger = StepMerger::with_timestamp("t");
    merger.create_app_context().unwrap();
    let roots = merger
        .load_and_add_step_entries(
            entries_of("ISO-10303-21; DATA; #5=APPLICATION_CONTEXT(''); ENDSEC;").unwrap(),
            "empty.stp",
        )
        .unwrap();
    assert!(roots.is_empty());
    assert_eq!(merger.id_counter(), 2);
}

#[test]
fn empty_assembly_with_references_asked_for() {
    let assembly = Assembly { nodes: Vec::new() };
    let mut with = String::new();
    merge_assembly_structure_to_step_with_resolver(&assembly, true, &mut with, fail).unwrap();
    let mut expected = prolog();
    expected.extend(closing(7, ""));
    assert_eq!(data_lines(&with), expected);
}

#[test]
fn nodes_without_links_with_references_asked_for() {
    let mut a = Node::new("A");
    a.add_child(1);
    let assembly = Assembly { nodes: vec![a, Node::new("B")] };
    let mut with = String::new();
    let mut without = String::new();
    merge_assembly_structure_to_step_with_resolver(&assembly, true, &mut with, fail).unwrap();
    merge_assembly_structure_to_step_with_resolver(&assembly, false, &mut without, fail).unwrap();
    assert_eq!(data_lines(&with), data_lines(&without));
}
