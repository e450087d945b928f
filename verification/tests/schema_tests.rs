use screenmap::idents::sanitize_ident;
use screenmap::schema::{ColType, CysQuery};

#[test]
fn sql_type_names_decode() {
    assert_eq!(ColType::from_str("smallint"), Some(ColType::SMALLINT));
    assert_eq!(ColType::from_str("integer"), Some(ColType::INT));
    assert_eq!(ColType::from_str("bigint"), Some(ColType::BIGINT));
    assert_eq!(ColType::from_str("real"), Some(ColType::REAL));
    assert_eq!(ColType::from_str("double precision"), Some(ColType::DOUBLE));
    assert_eq!(ColType::from_str("text"), Some(ColType::TEXT));
}

#[test]
fn unknown_type_names_decode_to_none() {
    assert_eq!(ColType::from_str("boolean"), None);
    assert_eq!(ColType::from_str(""), None);
    assert_eq!(ColType::from_str("TEXT"), None);
}

#[test]
fn sanitize_replaces_unsafe_characters() {
    assert_eq!(sanitize_ident("binding affinity (nM)"), "binding_affinity__nM_");
    assert_eq!(sanitize_ident("a-b.c d"), "a_b_c_d");
    assert_eq!(sanitize_ident("already_fine"), "already_fine");
    assert_eq!(sanitize_ident(""), "");
}

#[test]
fn cys_query_carries_both_names() {
    let q = CysQuery { cys_name: "C123".to_string(), screen_name: "proteins".to_string() };
    assert_eq!(q.cys_name, "C123");
    assert_eq!(q.screen_name, "proteins");
}
