use service_world::config::{Config, Consul as ConsulConfig, General, Present};
use service_world::consul::{assemble, Health, HealthyNode, Node};
use service_world::present::Services;
use service_world::strutil::{contains_string, str_eq, str_le};

fn s(x: &str) -> String {
    x.to_string()
}

fn strings(xs: &[&str]) -> Vec<String> {
    xs.iter().map(|x| x.to_string()).collect()
}

fn node(id: &str, tags: &[&str], service: &str) -> Node {
    Node {
        id: s(id),
        name: format!("host-{}", id),
        meta_data: Vec::new(),
        address: format!("192.168.0.{}", tags.len()),
        service_port: 9000,
        service_tags: strings(tags),
        service_id: format!("{}:{}", service, id),
        service_name: s(service),
    }
}

fn health(id: &str) -> Health {
    Health {
        node: HealthyNode { id: s(id), name: format!("host-{}", id), address: s("192.168.0.1") },
    }
}

fn test_config() -> Config {
    Config {
        general: General { project_name: s("Test World") },
        consul: ConsulConfig { urls: strings(&["http://localhost:8500"]) },
        present: Present { templates: Vec::new(), template_dir: s("templates") },
        services: Vec::new(),
    }
}

#[test]
fn from_catalog_sorts_services_by_name() {
    let catalog = assemble(
        vec![
            (s("zeta"), strings(&["t"])),
            (s("alpha"), strings(&["t"])),
            (s("mid"), strings(&["t"])),
        ],
        vec![
            (s("zeta"), Vec::new()),
            (s("alpha"), Vec::new()),
            (s("mid"), Vec::new()),
        ],
        Vec::new(),
        &None,
    );
    let services = Services::from_catalog(&catalog, &test_config());
    let names: Vec<String> = services.services.iter().map(|x| x.name.clone()).collect();
    assert_eq!(names, strings(&["alpha", "mid", "zeta"]));
    assert_eq!(services.project_name, s("Test World"));
}

#[test]
fn from_catalog_carries_tags_nodes_and_health() {
    let catalog = assemble(
        vec![(s("api"), strings(&["prod", "v2"]))],
        vec![(s("api"), vec![node("n1", &["prod"], "api"), node("n2", &["prod"], "api")])],
        vec![(s("api"), vec![health("n1")])],
        &None,
    );
    let services = Services::from_catalog(&catalog, &test_config());
    assert_eq!(services.services.len(), 1);
    let api = &services.services[0];
    assert_eq!(api.name, s("api"));
    assert_eq!(api.tags, strings(&["prod", "v2"]));
    assert_eq!(api.nodes.len(), 2);
    assert_eq!(api.nodes[0].name, s("host-n1"));
    assert!(api.nodes[0].healthy);
    assert!(!api.nodes[1].healthy);
    assert_eq!(api.nodes[0].service_port, 9000);
    assert!(api.nodes[0].service_urls.is_none());
    assert!(api.nodes[0].default_url.is_none());
}

#[test]
fn from_catalog_of_empty_catalog_is_empty() {
    let catalog = assemble(Vec::new(), Vec::new(), Vec::new(), &None);
    let services = Services::from_catalog(&catalog, &test_config());
    assert_eq!(services.services.len(), 0);
}

#[test]
fn default_config_points_at_local_backend() {
    let config = Config::default();
    assert_eq!(config.general.project_name, s("Service World"));
    assert_eq!(config.consul.urls, strings(&["http://localhost:8500"]));
    assert!(config.present.templates.is_empty());
    assert!(config.services.is_empty());
}

#[test]
fn str_eq_compares_by_content() {
    assert!(str_eq("héllo wörld", "héllo wörld"));
    assert!(!str_eq("héllo", "hello"));
    assert!(!str_eq("abc", "abcd"));
    assert!(str_eq("", ""));
}

#[test]
fn str_le_orders_lexicographically() {
    assert!(str_le("a", "ab"));
    assert!(str_le("ab", "b"));
    assert!(!str_le("b", "ab"));
    assert!(str_le("", "a"));
    assert!(str_le("same", "same"));
}

#[test]
fn contains_string_finds_by_content() {
    let v = strings(&["one", "two"]);
    assert!(contains_string(&v, "two"));
    assert!(!contains_string(&v, "three"));
    assert!(!contains_string(&Vec::new(), "one"));
}
