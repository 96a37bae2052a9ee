use hrd_engine::config::{default_filter_patterns, default_unknown_description};
use hrd_engine::pattern::CompiledPattern;
use hrd_engine::seq_family::{
    gather_descriptions, resolve_description, QueryDescriptions, SeqFamily,
};
use hrd_engine::title::filter_stitle;

#[test]
fn all_query_data_complete_works() {
    let mut sf1 = SeqFamily::new();
    assert!(sf1.all_query_data_complete());
    sf1.query_ids.push("Query1".to_string());
    sf1.query_ids.push("Query2".to_string());
    sf1.query_ids.push("Query3".to_string());
    assert!(!sf1.all_query_data_complete());
    sf1.query_ids_with_complete_data.push(0);
    sf1.query_ids_with_complete_data.push(1);
    assert!(!sf1.all_query_data_complete());
    sf1.query_ids_with_complete_data.push(2);
    assert!(sf1.all_query_data_complete());
}

#[test]
fn mark_query_id_with_complete_data_works() {
    let mut sf1 = SeqFamily::new();
    assert!(sf1.all_query_data_complete());
    sf1.query_ids.push("Query1".to_string());
    sf1.query_ids.push("Query2".to_string());
    sf1.query_ids.push("Query3".to_string());
    assert!(!sf1.all_query_data_complete());
    sf1.mark_query_id_with_complete_data(&"Query1".to_string());
    sf1.mark_query_id_with_complete_data(&"Query2".to_string());
    assert!(!sf1.all_query_data_complete());
    sf1.mark_query_id_with_complete_data(&"Query3".to_string());
    assert!(sf1.all_query_data_complete());
}

#[test]
fn default_filter_regexs_extract_uni_prot_descriptions() {
    let t1 = "sp|C0LGP4|Y3475_ARATH Probable LRR receptor-like serine/threonine-protein kinase At3g47570 OS=Arabidopsis thaliana OX=3702 GN=At3g47570 PE=2 SV=1";
    let filters: Vec<CompiledPattern> = default_filter_patterns()
        .iter()
        .map(|p| CompiledPattern::compile(p.as_str()).unwrap())
        .collect();
    assert_eq!(
        filter_stitle(t1, &filters),
        "Probable LRR receptor-like serine/threonine-protein kinase At3g47570"
    );
}

#[test]
fn filter_stitle_trims_with_no_patterns() {
    let filters: Vec<CompiledPattern> = vec![];
    assert_eq!(filter_stitle("  alcohol dehydrogenase \t", &filters), "alcohol dehydrogenase");
}

#[test]
fn family_without_descriptions_gets_default_label() {
    let mut family = SeqFamily::new();
    family.query_ids.push("Query1".to_string());
    let registry: Vec<QueryDescriptions> = vec![
        QueryDescriptions { id: "Query1".to_string(), descriptions: vec![] },
    ];
    let descriptions = gather_descriptions(&family.query_ids, &registry);
    assert!(descriptions.is_empty());
    let label = resolve_description(None, default_unknown_description().as_str());
    assert_eq!(label, "unknown sequence family");
}

#[test]
fn gather_descriptions_follows_member_order() {
    let mut family = SeqFamily::new();
    family.query_ids.push("Q2".to_string());
    family.query_ids.push("Q1".to_string());
    family.query_ids.push("Q3".to_string());
    let registry = vec![
        QueryDescriptions {
            id: "Q1".to_string(),
            descriptions: vec!["alcohol dehydrogenase".to_string()],
        },
        QueryDescriptions {
            id: "Q2".to_string(),
            descriptions: vec!["manitol dehydrogenase".to_string(), "geraniol".to_string()],
        },
    ];
    let gathered = gather_descriptions(&family.query_ids, &registry);
    assert_eq!(
        gathered,
        vec![
            "manitol dehydrogenase".to_string(),
            "geraniol".to_string(),
            "alcohol dehydrogenase".to_string(),
        ]
    );
}

#[test]
fn resolve_description_prefers_engine_result() {
    let label = resolve_description(
        Some("alcohol dehydrogenase".to_string()),
        default_unknown_description().as_str(),
    );
    assert_eq!(label, "alcohol dehydrogenase");
}
