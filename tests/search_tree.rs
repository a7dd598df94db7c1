use project_finder::error::Error;
use project_finder::menu::Menu;
use project_finder::node::SearchNode;
use project_finder::parameter::SearchParameter;
use project_finder::project::{Project, Projects};
use project_finder::tree::SearchTree;

fn project(source: &str, topics: &[(&str, &str)]) -> Project {
    Project {
        source: source.to_string(),
        topics: topics
            .iter()
            .map(|(k, v)| (k.to_string(), v.to_string()))
            .collect(),
    }
}

fn parameter(values: &[(&str, &str)]) -> SearchParameter {
    let mut p = SearchParameter::new(Vec::new());
    for (k, v) in values {
        p.set(k.to_string(), Some(v.to_string()));
    }
    p
}

fn sources(found: &[&Project]) -> Vec<String> {
    found.iter().map(|p| p.source.clone()).collect()
}

fn sorted(mut v: Vec<String>) -> Vec<String> {
    v.sort();
    v
}

fn scenario() -> SearchTree {
    SearchTree::new(vec![
        project("a", &[("platform", "Aws"), ("database", "PostgreSQL")]),
        project("b", &[("platform", "Aws"), ("database", "MySql")]),
        project("c", &[("platform", "Vercel")]),
    ])
    .unwrap()
}

fn three_levels() -> SearchTree {
    SearchTree::new(vec![
        project("a", &[("platform", "Aws"), ("language", "Rust"), ("database", "PostgreSQL")]),
        project("b", &[("platform", "Aws"), ("language", "Go"), ("database", "MySql")]),
        project("c", &[("platform", "Vercel"), ("language", "Rust"), ("database", "Redis")]),
        project("d", &[("platform", "Gcp"), ("language", "Rust"), ("database", "PostgreSQL")]),
    ])
    .unwrap()
}

#[test]
fn scenario_search_by_platform() {
    let tree = scenario();
    assert_eq!(sources(&tree.search(&parameter(&[("platform", "Aws")]))), vec!["a", "b"]);
}

#[test]
fn scenario_database_options_under_platform() {
    let tree = scenario();
    let options = tree.retrieve_topic_options(&"database".to_string(), &parameter(&[("platform", "Aws")]));
    assert_eq!(sorted(options), vec!["MySql", "PostgreSQL"]);
}

#[test]
fn scenario_database_options_unconstrained() {
    let tree = scenario();
    let options = tree.retrieve_topic_options(&"database".to_string(), &parameter(&[]));
    assert_eq!(sorted(options), vec!["MySql", "PostgreSQL"]);
}

#[test]
fn scenario_no_project_satisfies_both() {
    let tree = scenario();
    let found = tree.search(&parameter(&[("platform", "Vercel"), ("database", "PostgreSQL")]));
    assert!(found.is_empty());
}

#[test]
fn open_search_returns_every_project() {
    let tree = scenario();
    assert_eq!(sources(&tree.search(&parameter(&[]))), vec!["a", "b", "c"]);
    let open = SearchParameter::new(vec!["platform".to_string(), "database".to_string()]);
    assert!(open.is_empty());
    assert_eq!(sources(&tree.search(&open)), vec!["a", "b", "c"]);
}

#[test]
fn more_topics_narrow_the_search() {
    let tree = three_levels();
    let wide = sources(&tree.search(&parameter(&[("language", "Rust")])));
    let narrow = sources(&tree.search(&parameter(&[("language", "Rust"), ("database", "PostgreSQL")])));
    assert_eq!(wide, vec!["a", "c", "d"]);
    assert_eq!(narrow, vec!["a", "d"]);
    assert!(narrow.iter().all(|s| wide.contains(s)));
}

#[test]
fn repeated_search_gives_the_same_projects() {
    let tree = three_levels();
    let p = parameter(&[("platform", "Aws")]);
    let first = sources(&tree.search(&p));
    let second = sources(&tree.search(&p));
    assert_eq!(first, second);
    let again = SearchTree::new(
        tree.search(&p)
            .into_iter()
            .map(|q| project(&q.source, &q.topics.iter().map(|(k, v)| (k.as_str(), v.as_str())).collect::<Vec<_>>()))
            .collect(),
    )
    .unwrap();
    assert_eq!(sources(&again.search(&p)), first);
}

#[test]
fn value_matching_ignores_case() {
    let tree = SearchTree::new(vec![
        project("a", &[("platform", "AWS")]),
        project("b", &[("platform", "Vercel")]),
    ])
    .unwrap();
    assert_eq!(sources(&tree.search(&parameter(&[("platform", "aws")]))), vec!["a"]);
    assert_eq!(sources(&tree.search(&parameter(&[("platform", "AwS")]))), vec!["a"]);
    assert!(tree.search(&parameter(&[("platform", "awss")])).is_empty());
}

#[test]
fn spellings_that_differ_in_case_share_one_option() {
    let tree = SearchTree::new(vec![
        project("a", &[("platform", "AWS")]),
        project("b", &[("platform", "aws")]),
        project("c", &[("platform", "Vercel")]),
    ])
    .unwrap();
    let options = tree.retrieve_topic_options(&"platform".to_string(), &parameter(&[]));
    assert_eq!(options, vec!["AWS", "Vercel"]);
    assert_eq!(sources(&tree.search(&parameter(&[("platform", "Aws")]))), vec!["a", "b"]);
}

#[test]
fn missing_topic_excludes_only_where_set() {
    let tree = scenario();
    assert_eq!(sources(&tree.search(&parameter(&[("database", "PostgreSQL")]))), vec!["a"]);
    assert!(sources(&tree.search(&parameter(&[]))).contains(&"c".to_string()));
    assert_eq!(sources(&tree.search(&parameter(&[("platform", "Vercel")]))), vec!["c"]);
}

#[test]
fn options_ignore_later_topics() {
    let tree = three_levels();
    assert_eq!(tree.get_topics(), &["platform", "language", "database"]);
    let database = tree.retrieve_topic_options(&"database".to_string(), &parameter(&[("platform", "Aws")]));
    assert_eq!(sorted(database), vec!["MySql", "PostgreSQL"]);
    let platform = tree.retrieve_topic_options(&"platform".to_string(), &parameter(&[("database", "PostgreSQL")]));
    assert_eq!(sorted(platform), vec!["Aws", "Gcp", "Vercel"]);
}

#[test]
fn options_apply_earlier_topics() {
    let tree = three_levels();
    let languages = tree.retrieve_topic_options(&"language".to_string(), &parameter(&[("platform", "Aws")]));
    assert_eq!(sorted(languages), vec!["Go", "Rust"]);
    let databases = tree.retrieve_topic_options(
        &"database".to_string(),
        &parameter(&[("platform", "Aws"), ("language", "Go"), ("database", "PostgreSQL")]),
    );
    assert_eq!(databases, vec!["MySql"]);
}

#[test]
fn unknown_value_gives_nothing() {
    let tree = three_levels();
    assert!(tree.search(&parameter(&[("platform", "Azure")])).is_empty());
    let options = tree.retrieve_topic_options(&"database".to_string(), &parameter(&[("platform", "Azure")]));
    assert!(options.is_empty());
}

#[test]
fn unknown_topic_has_no_options() {
    let tree = three_levels();
    assert!(tree.retrieve_topic_options(&"deployment".to_string(), &parameter(&[])).is_empty());
}

#[test]
fn topic_order_is_first_seen_and_stable() {
    let build = || {
        SearchTree::new(vec![
            project("a", &[("language", "Rust")]),
            project("b", &[("platform", "Aws"), ("language", "Go")]),
            project("c", &[("database", "Redis"), ("platform", "Gcp")]),
        ])
        .unwrap()
    };
    let first = build();
    let second = build();
    assert_eq!(first.get_topics(), &["language", "platform", "database"]);
    assert_eq!(first.get_topics(), second.get_topics());
    assert_eq!(first.get_projects().len(), 3);
    assert_eq!(first.get_projects()[2].source, "c");
}

#[test]
fn projects_without_topics_cannot_be_indexed() {
    let r = SearchTree::new(vec![project("a", &[]), project("b", &[])]);
    assert!(matches!(r, Err(Error::SearchNodeEmptyTopics)));
}

#[test]
fn empty_catalogue_is_indexed() {
    let tree = SearchTree::new(Vec::new()).unwrap();
    assert!(tree.get_topics().is_empty());
    assert!(tree.search(&parameter(&[])).is_empty());
    assert!(tree.search(&parameter(&[("platform", "Aws")])).is_empty());
}

#[test]
fn project_lookup() {
    let p = project("a", &[("platform", "Aws"), ("database", "MySql")]);
    assert_eq!(p.get(&"database".to_string()), Some(&"MySql".to_string()));
    assert_eq!(p.get(&"language".to_string()), None);
}

#[test]
fn parameter_set_get_and_clear() {
    let mut p = SearchParameter::new(vec!["platform".to_string(), "database".to_string()]);
    assert!(p.is_empty());
    assert_eq!(p.get(&"platform".to_string()), None);
    p.set("platform".to_string(), Some("Aws".to_string()));
    assert!(!p.is_empty());
    assert_eq!(p.get(&"platform".to_string()), Some(&"Aws".to_string()));
    assert_eq!(p.get(&"database".to_string()), None);
    p.set("language".to_string(), Some("Rust".to_string()));
    assert_eq!(p.get(&"language".to_string()), Some(&"Rust".to_string()));
    p.set("platform".to_string(), None);
    assert_eq!(p.get(&"platform".to_string()), None);
    assert_eq!(p.topics.len(), 3);
}

#[test]
fn menu_tracks_choices() {
    let mut menu = Menu::new(Projects {
        projects: vec![
            project("a", &[("platform", "Aws"), ("database", "PostgreSQL")]),
            project("b", &[("platform", "Aws"), ("database", "MySql")]),
            project("c", &[("platform", "Vercel")]),
        ],
    })
    .unwrap();
    assert_eq!(menu.sources(), vec!["a", "b", "c"]);
    assert_eq!(menu.found_sources(), vec!["a", "b", "c"]);
    assert!(menu.parameters().is_empty());
    assert_eq!(menu.tree().get_topics(), &["platform", "database"]);
    menu.set_parameter("platform".to_string(), Some("Aws".to_string()));
    assert_eq!(menu.found_sources(), vec!["a", "b"]);
    assert_eq!(sorted(menu.topic_options(&"database".to_string())), vec!["MySql", "PostgreSQL"]);
    menu.set_parameter("database".to_string(), Some("mysql".to_string()));
    assert_eq!(menu.found_sources(), vec!["b"]);
    menu.set_parameter("platform".to_string(), None);
    assert_eq!(menu.found_sources(), vec!["b"]);
    assert_eq!(sorted(menu.topic_options(&"platform".to_string())), vec!["Aws", "Vercel"]);
}

#[test]
fn menu_needs_topics() {
    let r = Menu::new(Projects { projects: vec![project("a", &[])] });
    assert!(matches!(r, Err(Error::SearchNodeEmptyTopics)));
}

#[test]
fn node_filter_keeps_matching_indices() {
    let projects = vec![
        project("a", &[("platform", "Aws")]),
        project("b", &[("platform", "Vercel")]),
        project("c", &[("language", "Rust")]),
        project("d", &[("platform", "AWS")]),
    ];
    let found = vec![0, 1, 2, 3];
    let topic = "platform".to_string();
    assert_eq!(SearchNode::filter(&projects, &found, &None, &topic), vec![0, 1, 2, 3]);
    assert_eq!(SearchNode::filter(&projects, &found, &Some("aws".to_string()), &topic), vec![0, 3]);
    assert_eq!(SearchNode::filter(&projects, &vec![1, 3], &Some("aws".to_string()), &topic), vec![3]);
    assert!(SearchNode::filter(&projects, &found, &Some("Gcp".to_string()), &topic).is_empty());
}
