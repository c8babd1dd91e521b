use service_world::consul::{
    BuildError, Catalog, Client, Consul, FetchError, Health, HealthyNode, Node,
};

struct MockBackend {
    services: Vec<(String, Vec<String>)>,
    nodes: Vec<(String, Vec<Node>)>,
    healthy: Vec<(String, Vec<Health>)>,
    fail_services: Option<FetchError>,
    fail_nodes_for: Option<String>,
    fail_health_for: Option<String>,
}

fn s(x: &str) -> String {
    x.to_string()
}

fn strings(xs: &[&str]) -> Vec<String> {
    xs.iter().map(|x| x.to_string()).collect()
}

fn node(id: &str, name: &str, addr: &str, port: u16, tags: &[&str], service: &str) -> Node {
    Node {
        id: s(id),
        name: s(name),
        meta_data: Vec::new(),
        address: s(addr),
        service_port: port,
        service_tags: strings(tags),
        service_id: format!("{}:{}", service, id),
        service_name: s(service),
    }
}

fn health(id: &str, name: &str, addr: &str) -> Health {
    Health { node: HealthyNode { id: s(id), name: s(name), address: s(addr) } }
}

fn lookup<T: Clone>(table: &[(String, Vec<T>)], key: &str) -> Vec<T> {
    for (k, v) in table {
        if k == key {
            return v.clone();
        }
    }
    Vec::new()
}

impl Client for MockBackend {
    fn services(&mut self) -> Result<Vec<(String, Vec<String>)>, FetchError> {
        if let Some(e) = self.fail_services.take() {
            return Err(e);
        }
        Ok(self.services.clone())
    }

    fn nodes(&mut self, services: &Vec<String>) -> Vec<(String, Result<Vec<Node>, FetchError>)> {
        services
            .iter()
            .map(|name| {
                if self.fail_nodes_for.as_deref() == Some(name.as_str()) {
                    (name.clone(), Err(FetchError::Backend(500)))
                } else {
                    (name.clone(), Ok(lookup(&self.nodes, name)))
                }
            })
            .collect()
    }

    fn healthy_nodes(
        &mut self,
        services: &Vec<String>,
    ) -> Vec<(String, Result<Vec<Health>, FetchError>)> {
        services
            .iter()
            .map(|name| {
                if self.fail_health_for.as_deref() == Some(name.as_str()) {
                    (name.clone(), Err(FetchError::Transport(s("connection reset"))))
                } else {
                    (name.clone(), Ok(lookup(&self.healthy, name)))
                }
            })
            .collect()
    }
}

fn demo_backend() -> MockBackend {
    MockBackend {
        services: vec![
            (s("web"), strings(&["prod"])),
            (s("db"), strings(&["prod", "primary"])),
        ],
        nodes: vec![
            (s("web"), vec![node("n1", "host1", "10.0.0.1", 80, &["prod"], "web")]),
            (
                s("db"),
                vec![node("n2", "host2", "10.0.0.2", 5432, &["prod", "primary"], "db")],
            ),
        ],
        healthy: vec![
            (s("web"), vec![health("n1", "host1", "10.0.0.1")]),
            (s("db"), vec![health("n2", "host2", "10.0.0.2")]),
        ],
        fail_services: None,
        fail_nodes_for: None,
        fail_health_for: None,
    }
}

fn sorted(mut v: Vec<String>) -> Vec<String> {
    v.sort();
    v
}

/// Order-independent, comparable content of a whole catalog.
fn content(c: &Catalog) -> Vec<(String, Vec<String>, Vec<(String, String, String, u16, Vec<String>, bool)>)> {
    let mut out = Vec::new();
    for name in sorted(c.services()) {
        let tags = c.service_tags(&name).cloned().unwrap_or_default();
        let mut rows = Vec::new();
        if let Some(ns) = c.nodes_by_service(&name) {
            for n in ns {
                rows.push((
                    n.id.clone(),
                    n.name.clone(),
                    n.address.clone(),
                    n.service_port,
                    n.service_tags.clone(),
                    c.is_node_healthy_for_service(n, &name),
                ));
            }
        }
        out.push((name, tags, rows));
    }
    out
}

#[test]
fn absent_filters_return_everything() {
    let consul = Consul::new(s("http://localhost:8500"));
    let catalog = consul.catalog_by(&mut demo_backend(), None, None).unwrap();
    assert_eq!(sorted(catalog.services()), vec![s("db"), s("web")]);
    assert_eq!(
        catalog.service_tags("db"),
        Some(&strings(&["prod", "primary"]))
    );
    assert_eq!(catalog.nodes_by_service("web").unwrap().len(), 1);
    assert_eq!(catalog.nodes_by_service("db").unwrap().len(), 1);
}

#[test]
fn catalog_is_shorthand_for_unfiltered_build() {
    let consul = Consul::new(s("http://localhost:8500"));
    let a = consul.catalog(&mut demo_backend()).unwrap();
    let b = consul.catalog_by(&mut demo_backend(), None, None).unwrap();
    assert_eq!(content(&a), content(&b));
}

#[test]
fn scenario_primary_tag_keeps_only_db() {
    let consul = Consul::new(s("http://localhost:8500"));
    let catalog = consul
        .catalog_by(&mut demo_backend(), None, Some(strings(&["primary"])))
        .unwrap();
    assert_eq!(catalog.services(), vec![s("db")]);
    assert!(catalog.nodes_by_service("web").is_none());
    let db_nodes = catalog.nodes_by_service("db").unwrap();
    assert_eq!(db_nodes.len(), 1);
    assert_eq!(db_nodes[0].id, s("n2"));
    assert!(catalog.is_node_healthy_for_service(&db_nodes[0], "db"));
}

#[test]
fn service_filter_narrows_to_named_services() {
    let consul = Consul::new(s("http://localhost:8500"));
    let catalog = consul
        .catalog_by(&mut demo_backend(), Some(strings(&["web"])), None)
        .unwrap();
    assert_eq!(catalog.services(), vec![s("web")]);
    assert!(catalog.service_tags("db").is_none());
}

#[test]
fn filters_hold_at_service_and_node_level() {
    // One service carries tag "a" on one node and tag "b" on another: the
    // service survives a {"a"} tag filter, but only the "a" node is visible.
    let mut backend = demo_backend();
    backend.services = vec![(s("mixed"), strings(&["a", "b"]))];
    backend.nodes = vec![(
        s("mixed"),
        vec![
            node("na", "hosta", "10.0.1.1", 80, &["a"], "mixed"),
            node("nb", "hostb", "10.0.1.2", 80, &["b"], "mixed"),
        ],
    )];
    backend.healthy = vec![(s("mixed"), vec![health("na", "hosta", "10.0.1.1")])];
    let consul = Consul::new(s("http://localhost:8500"));
    let catalog = consul
        .catalog_by(&mut backend, None, Some(strings(&["a"])))
        .unwrap();
    assert_eq!(catalog.services(), vec![s("mixed")]);
    let ns = catalog.nodes_by_service("mixed").unwrap();
    assert_eq!(ns.len(), 1);
    assert_eq!(ns[0].id, s("na"));
    // Every surviving service has some tag in the filter; every visible node
    // carries one itself.
    for name in catalog.services() {
        let tags = catalog.service_tags(&name).unwrap();
        assert!(tags.iter().any(|t| t == "a"));
        for n in catalog.nodes_by_service(&name).unwrap() {
            assert!(n.service_tags.iter().any(|t| t == "a"));
        }
    }
}

#[test]
fn service_kept_with_no_matching_nodes_has_empty_list() {
    // The service's aggregate tags pass the filter, but no single node
    // carries a passing tag: present, with an empty node list.
    let mut backend = demo_backend();
    backend.services = vec![(s("svc"), strings(&["keep"]))];
    backend.nodes = vec![(s("svc"), vec![node("n9", "host9", "10.0.9.9", 80, &["other"], "svc")])];
    backend.healthy = vec![(s("svc"), Vec::new())];
    let consul = Consul::new(s("http://localhost:8500"));
    let catalog = consul
        .catalog_by(&mut backend, None, Some(strings(&["keep"])))
        .unwrap();
    assert_eq!(catalog.services(), vec![s("svc")]);
    assert_eq!(catalog.nodes_by_service("svc").unwrap().len(), 0);
}

#[test]
fn failing_node_call_aborts_build() {
    let mut backend = demo_backend();
    backend.fail_nodes_for = Some(s("db"));
    let consul = Consul::new(s("http://localhost:8500"));
    let r = consul.catalog_by(&mut backend, None, None);
    match r {
        Err(BuildError::Aggregate { service, cause }) => {
            assert_eq!(service, s("db"));
            assert_eq!(cause, FetchError::Backend(500));
        }
        other => panic!("expected an aggregate failure, got {:?}", other.map(|c| c.services())),
    }
}

#[test]
fn failing_health_call_aborts_build() {
    let mut backend = demo_backend();
    backend.fail_health_for = Some(s("web"));
    let consul = Consul::new(s("http://localhost:8500"));
    let r = consul.catalog_by(&mut backend, None, None);
    match r {
        Err(BuildError::Aggregate { service, cause }) => {
            assert_eq!(service, s("web"));
            assert_eq!(cause, FetchError::Transport(s("connection reset")));
        }
        other => panic!("expected an aggregate failure, got {:?}", other.map(|c| c.services())),
    }
}

#[test]
fn failing_service_map_call_aborts_build() {
    let mut backend = demo_backend();
    backend.fail_services = Some(FetchError::Decode(s("unexpected schema")));
    let consul = Consul::new(s("http://localhost:8500"));
    let r = consul.catalog_by(&mut backend, None, None);
    match r {
        Err(BuildError::Decode(m)) => assert_eq!(m, s("unexpected schema")),
        other => panic!("expected a decode failure, got {:?}", other.map(|c| c.services())),
    }
}

#[test]
fn build_twice_gives_identical_content() {
    let consul = Consul::new(s("http://localhost:8500"));
    let a = consul.catalog_by(&mut demo_backend(), None, None).unwrap();
    let b = consul.catalog_by(&mut demo_backend(), None, None).unwrap();
    assert_eq!(content(&a), content(&b));

    let fa = consul
        .catalog_by(&mut demo_backend(), Some(strings(&["web"])), Some(strings(&["prod"])))
        .unwrap();
    let fb = consul
        .catalog_by(&mut demo_backend(), Some(strings(&["web"])), Some(strings(&["prod"])))
        .unwrap();
    assert_eq!(content(&fa), content(&fb));
}

#[test]
fn duplicate_service_keys_keep_first_entry() {
    let mut backend = demo_backend();
    backend.services = vec![
        (s("dup"), strings(&["first"])),
        (s("dup"), strings(&["second"])),
    ];
    backend.nodes = vec![(s("dup"), Vec::new())];
    backend.healthy = vec![(s("dup"), Vec::new())];
    let consul = Consul::new(s("http://localhost:8500"));
    let catalog = consul.catalog_by(&mut backend, None, None).unwrap();
    assert_eq!(catalog.services(), vec![s("dup")]);
    assert_eq!(catalog.service_tags("dup"), Some(&strings(&["first"])));
}

#[test]
fn filter_matching_nothing_yields_empty_catalog() {
    let consul = Consul::new(s("http://localhost:8500"));
    let catalog = consul
        .catalog_by(&mut demo_backend(), Some(strings(&["absent"])), None)
        .unwrap();
    assert_eq!(catalog.services().len(), 0);
    assert!(catalog.service_tags("web").is_none());
    assert!(catalog.nodes_by_service("web").is_none());
}
