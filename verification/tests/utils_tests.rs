use step_merger::{get_ids_from_mechanical_part, StepEntry};

#[test]
fn utils_test_parse_mechanical_design_entry() {
    let s = "MECHANICAL_DESIGN_GEOMETRIC_PRESENTATION_REPRESENTATION('',(#24),#187);";
    let entry = StepEntry::new(1, s);
    let mut ids = Vec::new();

    get_ids_from_mechanical_part(&entry, &mut ids);

    assert_eq!(ids, vec![24]);
}

#[test]
fn merger_test_parse_mechanical_design_entry() {
    let s = "MECHANICAL_DESIGN_GEOMETRIC_PRESENTATION_REPRESENTATION('',(#24),#187);";
    let entry = StepEntry::new(1, s);
    let mut ids = Vec::new();

    get_ids_from_mechanical_part(&entry, &mut ids);

    assert_eq!(ids, vec![24]);
}

#[test]
fn mechanical_part_ids_are_appended_in_order() {
    let entry = StepEntry::new(
        9,
        "MECHANICAL_DESIGN_GEOMETRIC_PRESENTATION_REPRESENTATION('',(#24,#25,#26),#187)",
    );
    let mut ids = vec![1, 2];
    get_ids_from_mechanical_part(&entry, &mut ids);
    assert_eq!(ids, vec![1, 2, 24, 25, 26]);
}

#[test]
fn mechanical_part_without_references_adds_nothing() {
    let entry = StepEntry::new(9, "MECHANICAL_DESIGN_GEOMETRIC_PRESENTATION_REPRESENTATION('',(),$)");
    let mut ids = vec![5];
    get_ids_from_mechanical_part(&entry, &mut ids);
    assert_eq!(ids, vec![5]);
}

#[test]
fn mechanical_part_with_one_reference_adds_nothing() {
    let entry = StepEntry::new(9, "MECHANICAL_DESIGN_GEOMETRIC_PRESENTATION_REPRESENTATION('',(),#7)");
    let mut ids: Vec<u64> = Vec::new();
    get_ids_from_mechanical_part(&entry, &mut ids);
    assert!(ids.is_empty());
}
