use step_merger::{StepData, StepEntry};

#[test]
fn test_ranges() {
    let mut step_data = StepData::new();

    assert_eq!(step_data.get_id_range(), 0..0);

    step_data.add_entry(StepEntry::new(1, ""));
    assert_eq!(step_data.get_id_range(), 1..2);

    step_data.add_entry(StepEntry::new(3, ""));
    assert_eq!(step_data.get_id_range(), 1..4);

    step_data.add_entry(StepEntry::new(2, ""));
    assert_eq!(step_data.get_id_range(), 1..4);

    step_data.add_entry(StepEntry::new(4, ""));
    assert_eq!(step_data.get_id_range(), 1..5);
}

#[test]
fn test_update_reference_simple() {
    let f = |id| id + 1;

    let mut entry = StepEntry::new(1, "IFCFOO('FOO', #2);");
    entry.update_references(f);
    assert_eq!(entry.get_id(), 2);
    assert_eq!(entry.get_definition(), "IFCFOO('FOO', #3);");

    let mut entry = StepEntry::new(1, "IFCFOO('FOO', #2#3);");
    entry.update_references(f);
    assert_eq!(entry.get_id(), 2);
    assert_eq!(entry.get_definition(), "IFCFOO('FOO', #3#4);");
}

#[test]
fn test_update_reference_complex() {
    let f = |id| id + 1000;

    let mut entry = StepEntry::new(1, "(GEOMETRIC_REPRESENTATION_CONTEXT(3)GLOBAL_UNCERTAINTY_ASSIGNED_CONTEXT((#9531))GLOBAL_UNIT_ASSIGNED_CONTEXT((#8,#9,#7))REPRESENTATION_CONTEXT('',''));");
    entry.update_references(f);
    assert_eq!(entry.get_id(), 1001);
    assert_eq!(entry.get_definition(), "(GEOMETRIC_REPRESENTATION_CONTEXT(3)GLOBAL_UNCERTAINTY_ASSIGNED_CONTEXT((#10531))GLOBAL_UNIT_ASSIGNED_CONTEXT((#1008,#1009,#1007))REPRESENTATION_CONTEXT('',''));");
}

#[test]
fn test_get_references_simple() {
    let entry = StepEntry::new(1, "IFCFOO('FOO', #2);");
    assert_eq!(entry.get_references(), vec![2]);

    let entry = StepEntry::new(1, "IFCFOO('FOO', #2#3);");
    assert_eq!(entry.get_references(), vec![2, 3]);
}

#[test]
fn test_get_reference_complex() {
    let entry = StepEntry::new(1, "(GEOMETRIC_REPRESENTATION_CONTEXT(3)GLOBAL_UNCERTAINTY_ASSIGNED_CONTEXT((#9531))GLOBAL_UNIT_ASSIGNED_CONTEXT((#8,#9,#7))REPRESENTATION_CONTEXT('',''));");
    assert_eq!(entry.get_references(), vec![9531, 8, 9, 7]);
}

#[test]
fn reference_rewrite_keeps_strings_as_they_are() {
    let mut entry = StepEntry::new(1, "IFCFOO('FOO', #2)");
    entry.update_references(|id| id + 1);
    assert_eq!(entry.get_id(), 2);
    assert_eq!(entry.get_definition(), "IFCFOO('FOO', #3)");

    let mut entry = StepEntry::new(1, "T('a;#b', #2#3)");
    entry.update_references(|id| id + 1000);
    assert_eq!(entry.get_id(), 1001);
    assert_eq!(entry.get_definition(), "T('a;#b', #1002#1003)");
}

#[test]
fn references_inside_strings_are_text() {
    let entry = StepEntry::new(1, "A('#5',#6,'x #7 y',#8)");
    assert_eq!(entry.get_references(), vec![6, 8]);
}

#[test]
fn reference_at_the_end_of_the_definition_counts() {
    let entry = StepEntry::new(1, "A(#5,#60");
    assert_eq!(entry.get_references(), vec![5, 60]);

    let mut entry = StepEntry::new(3, "A(#5,#60");
    entry.update_references(|id| id * 2);
    assert_eq!(entry.get_id(), 6);
    assert_eq!(entry.get_definition(), "A(#10,#120");
}

#[test]
fn hash_without_digits_is_text() {
    let entry = StepEntry::new(1, "A(#,#x,##4)");
    assert_eq!(entry.get_references(), vec![4]);

    let mut entry = StepEntry::new(1, "A(#,#x,##4)#");
    entry.update_references(|id| id + 10);
    assert_eq!(entry.get_definition(), "A(#,#x,##14)#");
}

#[test]
fn own_id_is_no_reference() {
    let entry = StepEntry::new(12, "A('x')");
    assert!(entry.get_references().is_empty());
    let entry = StepEntry::new(12, "A(#12)");
    assert_eq!(entry.get_references(), vec![12]);
}

#[test]
fn leading_zeros_are_dropped_by_a_rewrite() {
    let mut entry = StepEntry::new(1, "A(#007)");
    assert_eq!(entry.get_references(), vec![7]);
    entry.update_references(|id| id);
    assert_eq!(entry.get_definition(), "A(#7)");
}

#[test]
fn rewrite_commutes_with_reading_references() {
    let f = |id: u64| 3 * id + 7;
    let definitions = [
        "A(#1,#2,#3)",
        "B('#9',#10)#11",
        "C()",
        "#4#5#6",
        "D('it''s',#18446744073709551)",
    ];
    for definition in definitions {
        let before = StepEntry::new(5, definition);
        let mut after = StepEntry::new(5, definition);
        after.update_references(f);
        let expected: Vec<u64> = before.get_references().into_iter().map(f).collect();
        assert_eq!(after.get_references(), expected);
        assert_eq!(after.get_id(), f(5));
    }
}

#[test]
fn references_that_do_not_fit_are_told_apart() {
    let fits = StepEntry::new(1, "A(#18446744073709551615)");
    assert!(fits.has_valid_references());
    assert_eq!(fits.get_references(), vec![u64::MAX]);
    let too_great = StepEntry::new(1, "A(#18446744073709551616)");
    assert!(!too_great.has_valid_references());
    let in_string = StepEntry::new(1, "A('#18446744073709551616')");
    assert!(in_string.has_valid_references());
}

#[test]
fn entries_are_cloned_and_compared_by_value() {
    let entry = StepEntry::new(4, "A(#1)");
    let copy = entry.clone();
    assert_eq!(entry, copy);
    assert_ne!(entry, StepEntry::new(5, "A(#1)"));
    assert_ne!(entry, StepEntry::new(4, "A(#2)"));
}

#[test]
fn set_entries_spans_the_ids() {
    let mut data = StepData::new();
    data.set_entries(vec![
        StepEntry::new(7, "A"),
        StepEntry::new(3, "B"),
        StepEntry::new(9, "C"),
    ]);
    assert_eq!(data.get_id_range(), 3..10);
    assert_eq!(data.get_entries().len(), 3);
    assert_eq!(data.get_entries()[1].get_definition(), "B");
    data.set_entries(Vec::new());
    assert_eq!(data.get_id_range(), 0..0);
    data.set_entries(vec![StepEntry::new(5, "A")]);
    assert_eq!(data.get_id_range(), 5..6);
}

#[test]
fn update_reference_rewrites_every_entry_and_the_range() {
    let mut data = StepData::new();
    data.add_entry(StepEntry::new(1, "A(#2)"));
    data.add_entry(StepEntry::new(2, "B('#1',#1)"));
    data.update_reference(|id| id + 100);
    assert_eq!(data.get_id_range(), 101..103);
    assert_eq!(data.get_entries()[0], StepEntry::new(101, "A(#102)"));
    assert_eq!(data.get_entries()[1], StepEntry::new(102, "B('#1',#101)"));
}
