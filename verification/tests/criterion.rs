use milli::criterion::{default_criteria, Criterion, InvalidCriterion};

fn faceted(names: &[&str]) -> Vec<String> {
    names.iter().map(|name| name.to_string()).collect()
}

#[test]
fn plain_names() {
    let none = faceted(&[]);
    assert_eq!(Criterion::from_str(&none, "words"), Ok(Criterion::Words));
    assert_eq!(Criterion::from_str(&none, "typo"), Ok(Criterion::Typo));
    assert_eq!(Criterion::from_str(&none, "proximity"), Ok(Criterion::Proximity));
    assert_eq!(Criterion::from_str(&none, "attribute"), Ok(Criterion::Attribute));
    assert_eq!(Criterion::from_str(&none, "exactness"), Ok(Criterion::Exactness));
}

#[test]
fn descriptor_parsing() {
    let price = faceted(&["price"]);
    assert_eq!(Criterion::from_str(&price, "asc(price)"), Ok(Criterion::Asc("price".to_string())));
    assert_eq!(Criterion::from_str(&price, "desc(price)"), Ok(Criterion::Desc("price".to_string())));
    let none = faceted(&[]);
    assert_eq!(
        Criterion::from_str(&none, "asc(price)"),
        Err(InvalidCriterion::NotFaceted("price".to_string()))
    );
}

#[test]
fn field_among_several() {
    let fields = faceted(&["title", "release-date", "price_eur"]);
    assert_eq!(
        Criterion::from_str(&fields, "asc(release-date)"),
        Ok(Criterion::Asc("release-date".to_string()))
    );
    assert_eq!(
        Criterion::from_str(&fields, "desc(price_eur)"),
        Ok(Criterion::Desc("price_eur".to_string()))
    );
    assert_eq!(
        Criterion::from_str(&fields, "desc(price)"),
        Err(InvalidCriterion::NotFaceted("price".to_string()))
    );
}

#[test]
fn unknown_names() {
    let price = faceted(&["price"]);
    assert_eq!(
        Criterion::from_str(&price, "wordz"),
        Err(InvalidCriterion::UnknownName("wordz".to_string()))
    );
    assert_eq!(Criterion::from_str(&price, ""), Err(InvalidCriterion::UnknownName(String::new())));
    assert_eq!(
        Criterion::from_str(&price, "Words"),
        Err(InvalidCriterion::UnknownName("Words".to_string()))
    );
    assert_eq!(
        Criterion::from_str(&price, "asc()"),
        Err(InvalidCriterion::UnknownName("asc()".to_string()))
    );
    assert_eq!(
        Criterion::from_str(&price, "asc(price"),
        Err(InvalidCriterion::UnknownName("asc(price".to_string()))
    );
    assert_eq!(
        Criterion::from_str(&price, "up(price)"),
        Err(InvalidCriterion::UnknownName("up(price)".to_string()))
    );
}

#[test]
fn order_inside_a_longer_text_is_refused() {
    let price = faceted(&["price"]);
    for text in ["sort by desc(price), please", "xasc(price)y", "asc(price) ", " asc(price)", "asc(price)desc(price)"] {
        assert_eq!(Criterion::from_str(&price, text), Err(InvalidCriterion::UnknownName(text.to_string())));
    }
    // the whole text is looked at before the field is
    assert_eq!(
        Criterion::from_str(&price, "xasc(size)"),
        Err(InvalidCriterion::UnknownName("xasc(size)".to_string()))
    );
}

#[test]
fn from_captures_takes_what_was_found() {
    let price = faceted(&["price"]);
    let found = Some(("asc".to_string(), "price".to_string()));
    assert_eq!(Criterion::from_captures(&price, "asc(price)", found), Ok(Criterion::Asc("price".to_string())));
    let found = Some(("desc".to_string(), "price".to_string()));
    assert_eq!(
        Criterion::from_captures(&price, "desc(price)", found),
        Ok(Criterion::Desc("price".to_string()))
    );
    let found = Some(("desc".to_string(), "price".to_string()));
    assert_eq!(
        Criterion::from_captures(&price, "x", found),
        Err(InvalidCriterion::UnknownName("x".to_string()))
    );
    let found = Some(("asc".to_string(), "price".to_string()));
    assert_eq!(
        Criterion::from_captures(&price, "xasc(price)y", found),
        Err(InvalidCriterion::UnknownName("xasc(price)y".to_string()))
    );
    let found = Some(("asc".to_string(), "size".to_string()));
    assert_eq!(
        Criterion::from_captures(&price, "asc(size)", found),
        Err(InvalidCriterion::NotFaceted("size".to_string()))
    );
    let found = Some(("up".to_string(), "price".to_string()));
    assert_eq!(
        Criterion::from_captures(&price, "up(price)", found),
        Err(InvalidCriterion::UnknownName("up".to_string()))
    );
    assert_eq!(
        Criterion::from_captures(&price, "nothing", None),
        Err(InvalidCriterion::UnknownName("nothing".to_string()))
    );
}

#[test]
fn text_of_each_criterion() {
    assert_eq!(Criterion::Words.to_string(), "words");
    assert_eq!(Criterion::Typo.to_string(), "typo");
    assert_eq!(Criterion::Proximity.to_string(), "proximity");
    assert_eq!(Criterion::Attribute.to_string(), "attribute");
    assert_eq!(Criterion::Exactness.to_string(), "exactness");
    assert_eq!(Criterion::Asc("price".to_string()).to_string(), "asc(price)");
    assert_eq!(Criterion::Desc("release-date".to_string()).to_string(), "desc(release-date)");
}

#[test]
fn parse_then_format_gives_the_text_back() {
    let fields = faceted(&["price", "release-date"]);
    for text in ["words", "typo", "proximity", "attribute", "exactness", "asc(price)", "desc(release-date)"] {
        let criterion = Criterion::from_str(&fields, text);
        assert!(matches!(criterion, Ok(_)));
        if let Ok(criterion) = criterion {
            assert_eq!(criterion.to_string(), text);
        }
    }
}

#[test]
fn format_then_parse_gives_the_criterion_back() {
    let fields = faceted(&["price"]);
    let mut all = default_criteria();
    all.push(Criterion::Asc("price".to_string()));
    all.push(Criterion::Desc("price".to_string()));
    for criterion in all {
        assert_eq!(Criterion::from_str(&fields, &criterion.to_string()), Ok(criterion));
    }
}

#[test]
fn default_order() {
    assert_eq!(
        default_criteria(),
        vec![
            Criterion::Words,
            Criterion::Typo,
            Criterion::Proximity,
            Criterion::Attribute,
            Criterion::Exactness,
        ]
    );
}

#[test]
fn refusals_in_words() {
    assert_eq!(
        InvalidCriterion::UnknownName("wordz".to_string()).message(),
        "unknown criterion name: wordz"
    );
    assert_eq!(
        InvalidCriterion::NotFaceted("price".to_string()).message(),
        "Can't use \"price\" as a criterion as it isn't a faceted field."
    );
}
