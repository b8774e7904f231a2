use carimbo::region::Region;
use carimbo::seed::examples_for;

#[test]
fn both_regions_produce_examples() {
    assert!(!examples_for(Region::US).is_empty());
    assert!(!examples_for(Region::BR).is_empty());
}

#[test]
fn triggers_are_unique_within_a_region() {
    for region in [Region::US, Region::BR] {
        let ex = examples_for(region);
        let mut triggers: Vec<String> = ex
            .iter()
            .filter_map(|s| s.trigger.clone())
            .map(|t| t.to_lowercase())
            .collect();
        let total = triggers.len();
        triggers.sort();
        triggers.dedup();
        assert_eq!(triggers.len(), total, "duplicate seed trigger in {region:?}");
    }
}

#[test]
fn us_examples_use_month_first_and_no_cpf() {
    let bodies: String = examples_for(Region::US)
        .iter()
        .map(|s| s.body.clone())
        .collect();
    assert!(!bodies.contains("CPF"));
    assert!(!bodies.contains("+55"));
}

#[test]
fn only_the_email_example_is_a_favorite() {
    for region in [Region::US, Region::BR] {
        let ex = examples_for(region);
        assert!(ex[0].is_favorite);
        assert_eq!(ex[0].trigger.as_deref(), Some(";email"));
        assert!(ex[1..].iter().all(|s| !s.is_favorite));
    }
    assert_eq!(examples_for(Region::US).len(), 6);
    assert_eq!(examples_for(Region::BR).len(), 7);
}
