use step_merger::{FindRootNodes, StepData, StepEntry};

#[test]
fn root_nodes_test_extract_keyword() {
    let s = "PRODUCT_DEFINITION_SHAPE('',#,#);";
    let keyword = FindRootNodes::extract_keyword(s);

    assert_eq!(keyword, "PRODUCT_DEFINITION_SHAPE");

    let s = "  FOOBAR_BLUB( );  ";
    let keyword = FindRootNodes::extract_keyword(s);

    assert_eq!(keyword, "FOOBAR_BLUB");
}

#[test]
fn merger_test_extract_keyword() {
    let s = "PRODUCT_DEFINITION_SHAPE('',#,#);";
    let keyword = FindRootNodes::extract_keyword(s);

    assert_eq!(keyword, "PRODUCT_DEFINITION_SHAPE");

    let s = "  FOOBAR_BLUB( );  ";
    let keyword = FindRootNodes::extract_keyword(s);

    assert_eq!(keyword, "FOOBAR_BLUB");
}

#[test]
fn keyword_ends_at_the_first_other_character() {
    assert_eq!(FindRootNodes::extract_keyword(""), "");
    assert_eq!(FindRootNodes::extract_keyword("   "), "");
    assert_eq!(FindRootNodes::extract_keyword("(A)"), "");
    assert_eq!(FindRootNodes::extract_keyword("ABC_DEF"), "ABC_DEF");
    assert_eq!(FindRootNodes::extract_keyword("ABCdef"), "ABC");
    assert_eq!(FindRootNodes::extract_keyword("\t\n AB1"), "AB");
    assert_eq!(FindRootNodes::extract_keyword("\u{a0}\u{3000}X_Y("), "X_Y");
}

/// Two products, each with the chain from its definition over its shape and
/// the representation of that shape, and no assembly usage between them.
fn two_roots() -> &'static str {
    "ISO-10303-21;
HEADER;
FILE_DESCRIPTION((''), '2;1');
FILE_NAME('two-roots.stp', '2024-02-09T12:37:21+01:00', (''), (''), '', '', '');
FILE_SCHEMA(('AP203'));
ENDSEC;
DATA;
#1=APPLICATION_CONTEXT('mechanical design');
#11=PRODUCT('A','A','',(#8));
#13=PRODUCT_DEFINITION_FORMATION('','',#11);
#14=PRODUCT_DEFINITION('','',#13,#12);
#15=PRODUCT_DEFINITION_SHAPE('',$,#14);
#19=SHAPE_REPRESENTATION('A',(#6),#18);
#20=SHAPE_DEFINITION_REPRESENTATION(#15,#19);
#2011=PRODUCT('B','B','',(#2008));
#2013=PRODUCT_DEFINITION_FORMATION('','',#2011);
#2014=PRODUCT_DEFINITION('','',#2013,#2012);
#2015=PRODUCT_DEFINITION_SHAPE('',$,#2014);
#2019=SHAPE_REPRESENTATION('B',(#2006),#2018);
#2020=SHAPE_DEFINITION_REPRESENTATION(#2015,#2019);
ENDSEC;
END-ISO-10303-21;
"
}

/// A product with a child: the assembly usage names the child second, and
/// its own shape hangs on the usage, not on a product definition.
fn one_root_with_child() -> &'static str {
    "ISO-10303-21;
HEADER;
ENDSEC;
DATA;
#14=PRODUCT_DEFINITION('','',#13,#12);
#15=PRODUCT_DEFINITION_SHAPE('',$,#14);
#31=SHAPE_REPRESENTATION('A',(#6),#18);
#32=SHAPE_DEFINITION_REPRESENTATION(#15,#31);
#114=PRODUCT_DEFINITION('','',#113,#112);
#115=PRODUCT_DEFINITION_SHAPE('',$,#114);
#131=SHAPE_REPRESENTATION('B',(#106),#118);
#132=SHAPE_DEFINITION_REPRESENTATION(#115,#131);
#200=NEXT_ASSEMBLY_USAGE_OCCURRENCE('B','','B',#14,#114,'B');
#201=PRODUCT_DEFINITION_SHAPE('B',$,#200);
ENDSEC;
"
}

#[test]
fn root_nodes_test_find_root_nodes1() {
    let source = two_roots();
    let step_data = StepData::from_str(source).unwrap();

    let entries = step_data.get_entries();
    let mut find_root_nodes = FindRootNodes::new();
    for entry in entries.iter() {
        find_root_nodes.add_entry(entry);
    }

    let root_nodes = find_root_nodes.get_root_nodes();

    assert_eq!(root_nodes.len(), 2);

    assert_eq!(root_nodes[0].product_definition_id, 14);
    assert_eq!(root_nodes[0].shape_representation_id, 19);

    assert_eq!(root_nodes[1].product_definition_id, 2014);
    assert_eq!(root_nodes[1].shape_representation_id, 2019);
}

#[test]
fn root_nodes_test_find_root_nodes2() {
    let source = one_root_with_child();
    let step_data = StepData::from_str(source).unwrap();

    let entries = step_data.get_entries();
    let mut find_root_nodes = FindRootNodes::new();
    for entry in entries.iter() {
        find_root_nodes.add_entry(entry);
    }

    let root_nodes = find_root_nodes.get_root_nodes();

    assert_eq!(root_nodes.len(), 1);

    assert_eq!(root_nodes[0].product_definition_id, 14);
    assert_eq!(root_nodes[0].shape_representation_id, 31);
}

#[test]
fn no_root_is_the_child_of_an_assembly_usage() {
    let source = one_root_with_child();
    let step_data = StepData::from_str(source).unwrap();
    let mut search = FindRootNodes::new();
    let mut children = Vec::new();
    for entry in step_data.get_entries() {
        if FindRootNodes::extract_keyword(entry.get_definition()) == "NEXT_ASSEMBLY_USAGE_OCCURRENCE" {
            let references = entry.get_references();
            if references.len() == 2 {
                children.push(references[1]);
            }
        }
        search.add_entry(entry);
    }
    assert_eq!(children, vec![114]);
    for root in search.get_root_nodes() {
        assert!(!children.contains(&root.product_definition_id));
    }
}

#[test]
fn usage_that_comes_last_still_removes_the_root() {
    let mut search = FindRootNodes::new();
    search.add_entry(&StepEntry::new(5, "PRODUCT_DEFINITION_SHAPE('',$,#4)"));
    search.add_entry(&StepEntry::new(7, "SHAPE_DEFINITION_REPRESENTATION(#5,#6)"));
    assert_eq!(search.get_root_nodes().len(), 1);
    search.add_entry(&StepEntry::new(9, "NEXT_ASSEMBLY_USAGE_OCCURRENCE('','','',#1,#4,'')"));
    assert!(search.get_root_nodes().is_empty());
}

#[test]
fn entries_with_the_wrong_number_of_references_are_passed_over() {
    let mut search = FindRootNodes::new();
    search.add_entry(&StepEntry::new(5, "PRODUCT_DEFINITION_SHAPE('',$,#4)"));
    search.add_entry(&StepEntry::new(7, "SHAPE_DEFINITION_REPRESENTATION(#5,#6)"));
    // three references: no assembly usage is recorded
    search.add_entry(&StepEntry::new(9, "NEXT_ASSEMBLY_USAGE_OCCURRENCE('',#1,#4,#8)"));
    // one reference: no representation is recorded
    search.add_entry(&StepEntry::new(17, "SHAPE_DEFINITION_REPRESENTATION(#15)"));
    // no reference: no shape is recorded
    search.add_entry(&StepEntry::new(15, "PRODUCT_DEFINITION_SHAPE('',$,$)"));
    let roots = search.get_root_nodes();
    assert_eq!(roots.len(), 1);
    assert_eq!(roots[0].product_definition_id, 4);
    assert_eq!(roots[0].shape_representation_id, 6);
}

#[test]
fn chains_that_lead_nowhere_give_no_root() {
    let mut search = FindRootNodes::new();
    search.add_entry(&StepEntry::new(5, "PRODUCT_DEFINITION_SHAPE('',$,#4)"));
    assert!(search.get_root_nodes().is_empty());
    search.add_entry(&StepEntry::new(25, "PRODUCT_DEFINITION_SHAPE('',$,#1,#24)"));
    search.add_entry(&StepEntry::new(27, "  SHAPE_DEFINITION_REPRESENTATION(#25,#26)"));
    let roots = search.get_root_nodes();
    assert_eq!(roots.len(), 1);
    assert_eq!(roots[0].product_definition_id, 24);
    assert_eq!(roots[0].shape_representation_id, 26);
}
