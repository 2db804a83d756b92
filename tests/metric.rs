use std::str::FromStr;
use tsp_sa_meta::metric::DistType;

#[test]
fn metric_names_in_any_case() {
    assert_eq!(DistType::parse("l1"), Some(DistType::L1));
    assert_eq!(DistType::parse("L2"), Some(DistType::L2));
    assert_eq!(DistType::parse("L2SQ"), Some(DistType::L2Sq));
    assert_eq!(DistType::parse("l2_Sq"), Some(DistType::L2Sq));
    assert_eq!(DistType::parse("LInf"), Some(DistType::LInf));
    assert_eq!(DistType::parse("l_inf"), Some(DistType::LInf));
    assert_eq!(DistType::parse("l3"), None);
    assert_eq!(DistType::parse(""), None);
}

#[test]
fn from_str_reports_the_lowered_word() {
    assert_eq!(DistType::from_str("L_INF"), Ok(DistType::LInf));
    assert_eq!(DistType::from_str("Cosine"), Err("unsupported type: cosine".to_string()));
}

#[test]
fn metric_display_names() {
    assert_eq!(DistType::L1.name(), "L1");
    assert_eq!(DistType::L2.name(), "L2");
    assert_eq!(DistType::L2Sq.name(), "Squared L2");
    assert_eq!(DistType::LInf.name(), "L infinity");
}
