use service_world::consul::{
    assemble, filter_services, join_service_calls, BuildError, Client, Consul, FetchError, Health,
    HealthyNode, Node,
};

fn s(x: &str) -> String {
    x.to_string()
}

fn strings(xs: &[&str]) -> Vec<String> {
    xs.iter().map(|x| x.to_string()).collect()
}

fn node(id: &str, tags: &[&str], service: &str) -> Node {
    Node {
        id: s(id),
        name: format!("host-{}", id),
        meta_data: Vec::new(),
        address: format!("10.0.0.{}", id.len()),
        service_port: 8080,
        service_tags: strings(tags),
        service_id: format!("{}:{}", service, id),
        service_name: s(service),
    }
}

fn health(id: &str) -> Health {
    Health {
        node: HealthyNode { id: s(id), name: format!("host-{}", id), address: s("10.0.0.9") },
    }
}

/// A catalog with one service "api", nodes n1 and n2, and health data for n1
/// only.
fn small_catalog() -> service_world::consul::Catalog {
    assemble(
        vec![(s("api"), strings(&["prod"]))],
        vec![(s("api"), vec![node("n1", &["prod"], "api"), node("n2", &["prod"], "api")])],
        vec![(s("api"), vec![health("n1")])],
        &None,
    )
}

#[test]
fn is_healthy_true_for_recorded_node() {
    let c = small_catalog();
    let ns = c.nodes_by_service("api").unwrap();
    assert!(c.is_node_healthy_for_service(&ns[0], "api"));
}

#[test]
fn is_healthy_false_for_unrecorded_node() {
    let c = small_catalog();
    let ns = c.nodes_by_service("api").unwrap();
    assert_eq!(ns[1].id, s("n2"));
    assert!(!c.is_node_healthy_for_service(&ns[1], "api"));
}

#[test]
fn is_healthy_total_for_unknown_service() {
    // An unknown service is not an error: the answer is simply false.
    let c = small_catalog();
    let stray = node("n1", &["prod"], "ghost");
    assert!(!c.is_node_healthy_for_service(&stray, "ghost"));
    assert!(!c.is_node_healthy_for_service(&stray, ""));
}

#[test]
fn is_healthy_total_for_service_without_health_data() {
    let c = assemble(
        vec![(s("api"), strings(&["prod"]))],
        vec![(s("api"), vec![node("n1", &["prod"], "api")])],
        Vec::new(),
        &None,
    );
    let ns = c.nodes_by_service("api").unwrap();
    assert!(!c.is_node_healthy_for_service(&ns[0], "api"));
}

#[test]
fn queries_answer_none_for_unknown_service() {
    let c = small_catalog();
    assert!(c.service_tags("ghost").is_none());
    assert!(c.nodes_by_service("ghost").is_none());
}

#[test]
fn health_data_for_unknown_services_is_dropped() {
    // Health entries whose service is not in the service map never surface.
    let c = assemble(
        vec![(s("api"), strings(&["prod"]))],
        vec![(s("api"), vec![node("n1", &["prod"], "api")])],
        vec![(s("stray"), vec![health("n1")])],
        &None,
    );
    let ns = c.nodes_by_service("api").unwrap();
    assert!(!c.is_node_healthy_for_service(&ns[0], "stray"));
    assert!(!c.is_node_healthy_for_service(&ns[0], "api"));
}

#[test]
fn join_keeps_every_result_in_request_order() {
    let results: Vec<(String, Result<Vec<u32>, FetchError>)> = Vec::new();
    let joined = join_service_calls(results).unwrap();
    assert_eq!(joined.len(), 0);

    let results = vec![
        (s("a"), Ok(vec![1u32, 2])),
        (s("b"), Ok(Vec::new())),
        (s("c"), Ok(vec![3u32])),
    ];
    let joined = join_service_calls(results).unwrap();
    assert_eq!(
        joined,
        vec![(s("a"), vec![1u32, 2]), (s("b"), Vec::new()), (s("c"), vec![3u32])]
    );
}

#[test]
fn join_reports_first_failure_and_discards_the_rest() {
    let results: Vec<(String, Result<Vec<u32>, FetchError>)> = vec![
        (s("a"), Ok(vec![1u32])),
        (s("b"), Err(FetchError::Backend(503))),
        (s("c"), Err(FetchError::Transport(s("timed out")))),
    ];
    match join_service_calls(results) {
        Err(BuildError::Aggregate { service, cause }) => {
            assert_eq!(service, s("b"));
            assert_eq!(cause, FetchError::Backend(503));
        }
        other => panic!("expected the first failure, got {:?}", other),
    }
}

#[test]
fn filter_services_applies_both_predicates() {
    let all = vec![
        (s("a"), strings(&["x"])),
        (s("b"), strings(&["y"])),
        (s("c"), strings(&["x", "y"])),
    ];
    let surviving = filter_services(all, &Some(strings(&["a", "c"])), &Some(strings(&["y"])));
    assert_eq!(surviving, vec![(s("c"), strings(&["x", "y"]))]);
}

#[test]
fn filter_services_without_filters_keeps_everything() {
    let all = vec![(s("a"), strings(&["x"])), (s("b"), Vec::new())];
    let surviving = filter_services(all.clone(), &None, &None);
    assert_eq!(surviving, all);
}

#[test]
fn consul_remembers_its_url() {
    let consul = Consul::new(s("http://consul.example:8500"));
    assert_eq!(consul.url(), &s("http://consul.example:8500"));
}

struct BrokenBackend {
    error: Option<FetchError>,
}

impl Client for BrokenBackend {
    fn services(&mut self) -> Result<Vec<(String, Vec<String>)>, FetchError> {
        Err(self.error.take().unwrap())
    }
    fn nodes(&mut self, _: &Vec<String>) -> Vec<(String, Result<Vec<Node>, FetchError>)> {
        Vec::new()
    }
    fn healthy_nodes(
        &mut self,
        _: &Vec<String>,
    ) -> Vec<(String, Result<Vec<Health>, FetchError>)> {
        Vec::new()
    }
}

#[test]
fn backend_status_failure_surfaces_unchanged() {
    let consul = Consul::new(s("http://localhost:8500"));
    let mut backend = BrokenBackend { error: Some(FetchError::Backend(502)) };
    match consul.catalog(&mut backend) {
        Err(BuildError::Backend(status)) => assert_eq!(status, 502),
        other => panic!("expected a backend failure, got {:?}", other.map(|c| c.services())),
    }
}

#[test]
fn transport_failure_surfaces_unchanged() {
    let consul = Consul::new(s("http://localhost:8500"));
    let mut backend = BrokenBackend { error: Some(FetchError::Transport(s("connection refused"))) };
    match consul.catalog(&mut backend) {
        Err(BuildError::Transport(m)) => assert_eq!(m, s("connection refused")),
        other => panic!("expected a transport failure, got {:?}", other.map(|c| c.services())),
    }
}
