use milli::criterion::{default_criteria, Criterion, CriterionError, FacetType};

fn faceted(names: &[&str]) -> Vec<(String, FacetType)> {
    names.iter().map(|n| (String::from(*n), FacetType::Number)).collect()
}

#[test]
fn fixed_names_parse() {
    let f = faceted(&[]);
    assert!(matches!(Criterion::from_str(&f, &String::from("typo")), Ok(Criterion::Typo)));
    assert!(matches!(Criterion::from_str(&f, &String::from("words")), Ok(Criterion::Words)));
    assert!(matches!(
        Criterion::from_str(&f, &String::from("proximity")),
        Ok(Criterion::Proximity)
    ));
    assert!(matches!(
        Criterion::from_str(&f, &String::from("attribute")),
        Ok(Criterion::Attribute)
    ));
    assert!(matches!(
        Criterion::from_str(&f, &String::from("exactness")),
        Ok(Criterion::Exactness)
    ));
}

#[test]
fn ordering_patterns_parse_over_faceted_fields() {
    let f = faceted(&["price", "release_date"]);
    match Criterion::from_str(&f, &String::from("asc(price)")) {
        Ok(Criterion::Asc(field)) => assert_eq!(field, "price"),
        _ => panic!("an ascending pattern over a faceted field must parse"),
    }
    match Criterion::from_str(&f, &String::from("desc(release_date)")) {
        Ok(Criterion::Desc(field)) => assert_eq!(field, "release_date"),
        _ => panic!("a descending pattern over a faceted field must parse"),
    }
}

#[test]
fn patterns_are_found_inside_longer_text() {
    let f = faceted(&["price"]);
    match Criterion::from_str(&f, &String::from("sort by asc(price) please")) {
        Ok(Criterion::Asc(field)) => assert_eq!(field, "price"),
        _ => panic!("the pattern must be found wherever it stands"),
    }
}

#[test]
fn field_names_may_hold_letters_of_any_script() {
    let f = faceted(&["caf\u{e9}"]);
    match Criterion::from_str(&f, &String::from("asc(caf\u{e9})")) {
        Ok(Criterion::Asc(field)) => assert_eq!(field, "caf\u{e9}"),
        _ => panic!("a field name with a non-ASCII letter must parse"),
    }
}

#[test]
fn unknown_names_are_refused() {
    let f = faceted(&["price"]);
    assert!(matches!(
        Criterion::from_str(&f, &String::from("levenshtein")),
        Err(CriterionError::UnknownName)
    ));
    assert!(matches!(
        Criterion::from_str(&f, &String::from("asc()")),
        Err(CriterionError::UnknownName)
    ));
}

#[test]
fn unfaceted_fields_are_refused() {
    let f = faceted(&["price"]);
    assert!(matches!(
        Criterion::from_str(&f, &String::from("asc(title)")),
        Err(CriterionError::NotFaceted)
    ));
}

#[test]
fn default_criteria_are_in_rank_order() {
    let d = default_criteria();
    assert_eq!(d.len(), 5);
    assert!(matches!(d[0], Criterion::Words));
    assert!(matches!(d[1], Criterion::Typo));
    assert!(matches!(d[2], Criterion::Proximity));
    assert!(matches!(d[3], Criterion::Attribute));
    assert!(matches!(d[4], Criterion::Exactness));
}

#[test]
fn labels_render_the_configured_form() {
    assert_eq!(Criterion::Typo.label(), "typo");
    assert_eq!(Criterion::Asc(String::from("price")).label(), "asc(price)");
    assert_eq!(Criterion::Desc(String::from("age")).label(), "desc(age)");
}
