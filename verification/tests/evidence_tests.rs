use courtroom::evidence::{select_evidence, ContentError, Evidence, EvidenceList, SelectionError};

fn piece(fullname: &str, alias: &str, weight: u8) -> Evidence {
    Evidence::new(
        fullname.to_string(),
        alias.to_string(),
        format!("About the {}.", fullname),
        weight,
    )
}

fn court_record() -> EvidenceList {
    EvidenceList::new(vec![
        piece("Revolver", "rev", 3),
        piece("Attorney's Badge", "badge", 1),
        piece("Autopsy Report", "autopsy", 3),
        piece("Photograph", "photo", 2),
    ])
    .unwrap()
}

fn aliases(list: &EvidenceList) -> Vec<String> {
    list.iter().map(|e| e.get_alias().to_string()).collect()
}

#[test]
fn evidence_getters_give_the_attributes() {
    let revolver = Evidence::new(
        "Revolver".to_string(),
        "rev".to_string(),
        "The weapon of the crime. Has Joe's fingerprints.".to_string(),
        7,
    );
    assert_eq!(revolver.get_fullname(), "Revolver");
    assert_eq!(revolver.get_alias(), "rev");
    assert_eq!(revolver.get_description(), "The weapon of the crime. Has Joe's fingerprints.");
    assert_eq!(revolver.get_weight(), 7);
}

#[test]
fn is_named_matches_alias_or_fullname_exactly() {
    let revolver = piece("Revolver", "rev", 1);
    assert!(revolver.is_named("rev"));
    assert!(revolver.is_named("Revolver"));
    assert!(!revolver.is_named("Rev"));
    assert!(!revolver.is_named("revolver"));
    assert!(!revolver.is_named(""));
}

#[test]
fn lookup_by_alias_finds_the_record() {
    let list = court_record();
    let found = list.get_evidence_from_alias("rev").unwrap();
    assert_eq!(found.get_fullname(), "Revolver");
    assert_eq!(found.get_weight(), 3);
}

#[test]
fn lookup_by_alias_of_missing_gives_none() {
    let list = court_record();
    assert!(list.get_evidence_from_alias("missing").is_none());
    assert!(list.get_evidence_from_alias("").is_none());
}

#[test]
fn lookup_by_alias_is_case_sensitive() {
    let list = court_record();
    assert!(list.get_evidence_from_alias("Rev").is_none());
    assert!(list.get_evidence_from_alias("REV").is_none());
}

#[test]
fn lookup_by_alias_does_not_match_fullname() {
    let list = court_record();
    assert!(list.get_evidence_from_alias("Revolver").is_none());
}

#[test]
fn lookup_by_fullname_finds_the_record() {
    let list = court_record();
    let found = list.get_evidence_from_fullname("Autopsy Report").unwrap();
    assert_eq!(found.get_alias(), "autopsy");
    assert!(list.get_evidence_from_fullname("autopsy").is_none());
    assert!(list.get_evidence_from_fullname("Missing").is_none());
}

#[test]
fn lookup_in_empty_record_gives_none() {
    let list = EvidenceList::new(Vec::new()).unwrap();
    assert_eq!(list.len(), 0);
    assert!(list.get_evidence_from_alias("rev").is_none());
    assert!(list.get_evidence_from_fullname("Revolver").is_none());
}

#[test]
fn sort_is_stable() {
    let mut list = court_record();
    list.sort_evidence();
    let weights: Vec<u8> = list.iter().map(|e| e.get_weight()).collect();
    assert_eq!(weights, vec![1, 2, 3, 3]);
    assert_eq!(aliases(&list), vec!["badge", "photo", "rev", "autopsy"]);
}

#[test]
fn sort_of_sorted_record_changes_nothing() {
    let mut list = court_record();
    list.sort_evidence();
    let once = aliases(&list);
    list.sort_evidence();
    assert_eq!(aliases(&list), once);
}

#[test]
fn sort_of_descending_weights_reverses() {
    let mut list = EvidenceList::new(vec![
        piece("D", "d", 255),
        piece("C", "c", 200),
        piece("B", "b", 1),
        piece("A", "a", 0),
    ])
    .unwrap();
    list.sort_evidence();
    assert_eq!(aliases(&list), vec!["a", "b", "c", "d"]);
}

#[test]
fn sort_of_equal_weights_keeps_load_order() {
    let mut list = EvidenceList::new(vec![
        piece("One", "1", 5),
        piece("Two", "2", 5),
        piece("Three", "3", 5),
    ])
    .unwrap();
    list.sort_evidence();
    assert_eq!(aliases(&list), vec!["1", "2", "3"]);
}

#[test]
fn sort_of_empty_and_single_record() {
    let mut empty = EvidenceList::new(Vec::new()).unwrap();
    empty.sort_evidence();
    assert_eq!(empty.len(), 0);
    let mut single = EvidenceList::new(vec![piece("Revolver", "rev", 9)]).unwrap();
    single.sort_evidence();
    assert_eq!(aliases(&single), vec!["rev"]);
}

#[test]
fn lookup_still_works_after_sort() {
    let mut list = court_record();
    list.sort_evidence();
    assert_eq!(list.get_evidence_from_alias("rev").unwrap().get_fullname(), "Revolver");
    assert_eq!(list.get_evidence_from_fullname("Photograph").unwrap().get_alias(), "photo");
}

#[test]
fn display_list_follows_the_record_order() {
    let mut list = court_record();
    assert_eq!(
        list.get_evidence_list(),
        vec!["Revolver", "Attorney's Badge", "Autopsy Report", "Photograph"]
    );
    list.sort_evidence();
    assert_eq!(
        list.get_evidence_list(),
        vec!["Attorney's Badge", "Photograph", "Revolver", "Autopsy Report"]
    );
}

#[test]
fn iter_walks_the_record_in_order() {
    let list = court_record();
    assert_eq!(list.iter().count(), 4);
    assert_eq!(aliases(&list), vec!["rev", "badge", "autopsy", "photo"]);
    assert_eq!(list.len(), 4);
}

#[test]
fn duplicate_alias_fails_construction() {
    let result = EvidenceList::new(vec![piece("Revolver", "rev", 1), piece("Revenue Stamp", "rev", 2)]);
    assert_eq!(result.err(), Some(ContentError::DuplicateAlias(1)));
}

#[test]
fn duplicate_fullname_fails_construction() {
    let result = EvidenceList::new(vec![
        piece("Badge", "badge", 1),
        piece("Revolver", "rev", 1),
        piece("Revolver", "gun", 2),
    ]);
    assert_eq!(result.err(), Some(ContentError::DuplicateFullname(2)));
}

#[test]
fn duplicate_alias_is_reported_before_duplicate_fullname() {
    let result = EvidenceList::new(vec![
        piece("Revolver", "rev", 1),
        piece("Revolver", "gun", 2),
        piece("Knife", "gun", 3),
    ]);
    assert_eq!(result.err(), Some(ContentError::DuplicateAlias(2)));
}

#[test]
fn first_repeating_record_is_reported() {
    let result = EvidenceList::new(vec![
        piece("A", "a", 1),
        piece("B", "b", 1),
        piece("C", "a", 1),
        piece("D", "b", 1),
    ]);
    assert_eq!(result.err(), Some(ContentError::DuplicateAlias(2)));
}

#[test]
fn alias_equal_to_another_fullname_is_no_duplicate() {
    let result = EvidenceList::new(vec![piece("rev", "r", 1), piece("Revolver", "rev", 2)]);
    assert!(result.is_ok());
}

#[test]
fn select_by_fullname_gives_the_record() {
    let list = court_record();
    let chosen = select_evidence(&list, Some("Photograph")).ok().unwrap();
    assert_eq!(chosen.get_alias(), "photo");
}

#[test]
fn select_by_alias_gives_the_record() {
    let list = court_record();
    let chosen = select_evidence(&list, Some("badge")).ok().unwrap();
    assert_eq!(chosen.get_fullname(), "Attorney's Badge");
}

#[test]
fn select_prefers_fullname_over_alias() {
    let list = EvidenceList::new(vec![piece("Knife", "rev", 1), piece("rev", "r", 2)]).unwrap();
    let chosen = select_evidence(&list, Some("rev")).ok().unwrap();
    assert_eq!(chosen.get_alias(), "r");
}

#[test]
fn select_of_unknown_name_is_not_found() {
    let list = court_record();
    assert_eq!(select_evidence(&list, Some("Crowbar")).err(), Some(SelectionError::NotFound));
}

#[test]
fn select_without_choice_is_aborted() {
    let list = court_record();
    assert_eq!(select_evidence(&list, None).err(), Some(SelectionError::Aborted));
}
