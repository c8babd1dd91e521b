//! The catalog aggregation engine: joins the backend's service map, node
//! lists and health lists into one immutable, filtered snapshot.
//!
//! Fetching is left to an implementation of [`Client`]; everything that
//! decides — filtering, the all-or-nothing join, and the assembly of the
//! snapshot — is verified here.

use vstd::prelude::*;
use crate::strutil::{str_eq, contains_string};

verus! {

// ---------------------------------------------------------------------------
// Errors
// ---------------------------------------------------------------------------

/// Why a single backend call failed.
#[derive(Debug, PartialEq, Eq)]
pub enum FetchError {
    /// The backend could not be reached.
    Transport(String),
    /// The backend answered, but the body did not parse into the expected
    /// shape.
    Decode(String),
    /// The backend answered with a non-success status.
    Backend(u16),
}

/// Why no catalog could be built.
#[derive(Debug, PartialEq, Eq)]
pub enum BuildError {
    /// The service-map call could not reach the backend.
    Transport(String),
    /// The service-map call returned an undecodable body.
    Decode(String),
    /// The service-map call returned a non-success status.
    Backend(u16),
    /// One of the per-service calls of a fan-out phase failed; names the
    /// first failing service and the underlying cause.
    Aggregate { service: String, cause: FetchError },
}

/// How a failure of the initial service-map call surfaces from a build.
pub open spec fn build_error_of_fetch_spec(e: FetchError) -> BuildError {
    match e {
        FetchError::Transport(m) => BuildError::Transport(m),
        FetchError::Decode(m) => BuildError::Decode(m),
        FetchError::Backend(s) => BuildError::Backend(s),
    }
}

/// Wraps the error of the service-map call into a build error, unchanged.
pub fn build_error_of_fetch(e: FetchError) -> (r: BuildError)
    ensures
        r == build_error_of_fetch_spec(e),
{
    match e {
        FetchError::Transport(m) => BuildError::Transport(m),
        FetchError::Decode(m) => BuildError::Decode(m),
        FetchError::Backend(s) => BuildError::Backend(s),
    }
}

// ---------------------------------------------------------------------------
// Data model
// ---------------------------------------------------------------------------

/// One service instance registration, as the backend reports it.
#[derive(Debug)]
pub struct Node {
    pub id: String,
    pub name: String,
    pub meta_data: Vec<(String, String)>,
    pub address: String,
    pub service_port: u16,
    pub service_tags: Vec<String>,
    pub service_id: String,
    pub service_name: String,
}

/// The mathematical content of a [`Node`].
pub struct NodeView {
    pub id: Seq<char>,
    pub name: Seq<char>,
    pub meta_data: Seq<(Seq<char>, Seq<char>)>,
    pub address: Seq<char>,
    pub service_port: u16,
    pub service_tags: Seq<Seq<char>>,
    pub service_id: Seq<char>,
    pub service_name: Seq<char>,
}

impl View for Node {
    type V = NodeView;

    open spec fn view(&self) -> NodeView {
        NodeView {
            id: self.id@,
            name: self.name@,
            meta_data: self.meta_data.deep_view(),
            address: self.address@,
            service_port: self.service_port,
            service_tags: self.service_tags.deep_view(),
            service_id: self.service_id@,
            service_name: self.service_name@,
        }
    }
}

impl DeepView for Node {
    type V = NodeView;

    open spec fn deep_view(&self) -> NodeView {
        self.view()
    }
}

/// One health record: a node currently passing all checks for a service.
#[derive(Debug)]
pub struct Health {
    pub node: HealthyNode,
}

/// The node identity wrapped by a health record.
#[derive(Debug)]
pub struct HealthyNode {
    pub id: String,
    pub name: String,
    pub address: String,
}

/// The mathematical content of a [`Health`] record.
pub struct HealthView {
    pub node: HealthyNodeView,
}

/// The mathematical content of a [`HealthyNode`].
pub struct HealthyNodeView {
    pub id: Seq<char>,
    pub name: Seq<char>,
    pub address: Seq<char>,
}

impl View for HealthyNode {
    type V = HealthyNodeView;

    open spec fn view(&self) -> HealthyNodeView {
        HealthyNodeView { id: self.id@, name: self.name@, address: self.address@ }
    }
}

impl DeepView for HealthyNode {
    type V = HealthyNodeView;

    open spec fn deep_view(&self) -> HealthyNodeView {
        self.view()
    }
}

impl View for Health {
    type V = HealthView;

    open spec fn view(&self) -> HealthView {
        HealthView { node: self.node@ }
    }
}

impl DeepView for Health {
    type V = HealthView;

    open spec fn deep_view(&self) -> HealthView {
        self.view()
    }
}

// ---------------------------------------------------------------------------
// Cloning, with the content pinned down
// ---------------------------------------------------------------------------

/// Copies a list of strings, keeping its content.
pub fn clone_strings(v: &Vec<String>) -> (r: Vec<String>)
    ensures
        r@ == v@,
{
    let mut r: Vec<String> = Vec::new();
    let n = v.len();
    let mut i: usize = 0;
    while i < n
        invariant
            n == v@.len(),
            i <= n,
            r@ == v@.take(i as int),
        decreases n - i,
    {
        r.push(v[i].clone());
        proof {
            assert(r@ =~= v@.take(i + 1));
        }
        i = i + 1;
    }
    proof {
        assert(v@.take(n as int) =~= v@);
    }
    r
}

/// Copies a list of string pairs, keeping its content.
pub fn clone_string_pairs(v: &Vec<(String, String)>) -> (r: Vec<(String, String)>)
    ensures
        r@ == v@,
{
    let mut r: Vec<(String, String)> = Vec::new();
    let n = v.len();
    let mut i: usize = 0;
    while i < n
        invariant
            n == v@.len(),
            i <= n,
            r@ == v@.take(i as int),
        decreases n - i,
    {
        let p = &v[i];
        r.push((p.0.clone(), p.1.clone()));
        proof {
            assert(r@ =~= v@.take(i + 1));
        }
        i = i + 1;
    }
    proof {
        assert(v@.take(n as int) =~= v@);
    }
    r
}

impl Clone for Node {
    /// A copy with the same content.
    fn clone(&self) -> (r: Self)
        ensures
            r@ == self@,
    {
        Node {
            id: self.id.clone(),
            name: self.name.clone(),
            meta_data: clone_string_pairs(&self.meta_data),
            address: self.address.clone(),
            service_port: self.service_port,
            service_tags: clone_strings(&self.service_tags),
            service_id: self.service_id.clone(),
            service_name: self.service_name.clone(),
        }
    }
}

impl Clone for HealthyNode {
    /// A copy with the same content.
    fn clone(&self) -> (r: Self)
        ensures
            r@ == self@,
    {
        HealthyNode {
            id: self.id.clone(),
            name: self.name.clone(),
            address: self.address.clone(),
        }
    }
}

impl Clone for Health {
    /// A copy with the same content.
    fn clone(&self) -> (r: Self)
        ensures
            r@ == self@,
    {
        Health { node: self.node.clone() }
    }
}

// ---------------------------------------------------------------------------
// Association lists keyed by service name
// ---------------------------------------------------------------------------

/// Whether a key occurs in an association list.
pub open spec fn alist_has<V>(l: Seq<(Seq<char>, V)>, k: Seq<char>) -> bool {
    exists|i: int| 0 <= i < l.len() && l[i].0 == k
}

/// The value of the first entry with the given key, if any.
pub open spec fn alist_get<V>(l: Seq<(Seq<char>, V)>, k: Seq<char>) -> Option<V>
    decreases l.len(),
{
    if l.len() == 0 {
        None
    } else if l[0].0 == k {
        Some(l[0].1)
    } else {
        alist_get(l.drop_first(), k)
    }
}

/// Whether every key occurs only once.
pub open spec fn unique_keys<V>(l: Seq<(Seq<char>, V)>) -> bool {
    forall|i: int, j: int| 0 <= i < j < l.len() ==> l[i].0 != l[j].0
}

/// Keeps the first entry of each key and drops the later duplicates.
pub open spec fn dedup_keys<V>(l: Seq<(Seq<char>, V)>) -> Seq<(Seq<char>, V)>
    decreases l.len(),
{
    if l.len() == 0 {
        Seq::empty()
    } else if alist_has(l.drop_last(), l.last().0) {
        dedup_keys(l.drop_last())
    } else {
        dedup_keys(l.drop_last()).push(l.last())
    }
}

/// Appending one entry adds exactly its key.
proof fn lemma_alist_has_push<V>(l: Seq<(Seq<char>, V)>, x: (Seq<char>, V), k: Seq<char>)
    ensures
        alist_has(l.push(x), k) == (alist_has(l, k) || x.0 == k),
{
    if alist_has(l, k) {
        let i = choose|i: int| 0 <= i < l.len() && l[i].0 == k;
        assert(l.push(x)[i] == l[i]);
        assert(alist_has(l.push(x), k));
    }
    if x.0 == k {
        assert(l.push(x)[l.len() as int] == x);
        assert(alist_has(l.push(x), k));
    }
    if alist_has(l.push(x), k) {
        let i = choose|i: int| 0 <= i < l.push(x).len() && l.push(x)[i].0 == k;
        if i < l.len() {
            assert(l[i] == l.push(x)[i]);
            assert(alist_has(l, k));
        } else {
            assert(l.push(x)[i] == x);
        }
    }
}

/// Dropping the last entry removes at most its key.
proof fn lemma_alist_has_drop_last<V>(l: Seq<(Seq<char>, V)>, k: Seq<char>)
    requires
        l.len() > 0,
    ensures
        alist_has(l, k) == (alist_has(l.drop_last(), k) || l.last().0 == k),
{
    assert(l.drop_last().push(l.last()) =~= l);
    lemma_alist_has_push(l.drop_last(), l.last(), k);
}

/// Deduplication keeps exactly the keys of the input.
pub proof fn lemma_dedup_keys_has<V>(l: Seq<(Seq<char>, V)>, k: Seq<char>)
    ensures
        alist_has(dedup_keys(l), k) == alist_has(l, k),
    decreases l.len(),
{
    if l.len() == 0 {
        assert(!alist_has(l, k));
        assert(!alist_has(dedup_keys(l), k));
    } else {
        let prefix = l.drop_last();
        let x = l.last();
        lemma_dedup_keys_has(prefix, k);
        lemma_alist_has_drop_last(l, k);
        if alist_has(prefix, x.0) {
            if x.0 == k {
                assert(alist_has(prefix, k));
            }
        } else {
            lemma_alist_has_push(dedup_keys(prefix), x, k);
        }
    }
}

/// Deduplication leaves every key at most once.
pub proof fn lemma_dedup_keys_unique<V>(l: Seq<(Seq<char>, V)>)
    ensures
        unique_keys(dedup_keys(l)),
    decreases l.len(),
{
    if l.len() == 0 {
    } else {
        lemma_dedup_keys_unique(l.drop_last());
        if !alist_has(l.drop_last(), l.last().0) {
            let d0 = dedup_keys(l.drop_last());
            let d = dedup_keys(l);
            lemma_dedup_keys_has(l.drop_last(), l.last().0);
            assert forall|i: int, j: int| 0 <= i < j < d.len() implies d[i].0 != d[j].0 by {
                if j < d.len() - 1 {
                    assert(d[i] == d0[i]);
                    assert(d[j] == d0[j]);
                } else {
                    assert(d[j] == l.last());
                    assert(d[i] == d0[i]);
                    if d0[i].0 == l.last().0 {
                        assert(alist_has(d0, l.last().0));
                    }
                }
            }
        }
    }
}

/// Every entry of the deduplicated list is an entry of the input.
pub proof fn lemma_dedup_keys_entries<V>(l: Seq<(Seq<char>, V)>)
    ensures
        forall|i: int|
            0 <= i < dedup_keys(l).len() ==> exists|j: int|
                0 <= j < l.len() && l[j] == #[trigger] dedup_keys(l)[i],
    decreases l.len(),
{
    if l.len() == 0 {
    } else {
        lemma_dedup_keys_entries(l.drop_last());
        let d = dedup_keys(l);
        let d0 = dedup_keys(l.drop_last());
        assert forall|i: int| 0 <= i < d.len() implies exists|j: int|
            0 <= j < l.len() && l[j] == #[trigger] d[i] by {
            if i < d0.len() {
                assert(d[i] == d0[i]);
                let j = choose|j: int| 0 <= j < l.drop_last().len() && l.drop_last()[j] == d0[i];
                assert(l[j] == d[i]);
            } else {
                assert(d[i] == l.last());
                assert(l[l.len() - 1] == d[i]);
            }
        }
    }
}

// ---------------------------------------------------------------------------
// Filters
// ---------------------------------------------------------------------------

/// Whether a name passes an optional allow-list; an absent list matches all.
pub open spec fn in_filter(f: Option<Seq<Seq<char>>>, x: Seq<char>) -> bool {
    match f {
        Option::None => true,
        Option::Some(fs) => fs.contains(x),
    }
}

/// Whether some tag of a set passes an optional allow-list; an absent list
/// matches all.
pub open spec fn has_tag_in(f: Option<Seq<Seq<char>>>, tags: Seq<Seq<char>>) -> bool {
    match f {
        Option::None => true,
        Option::Some(fs) => exists|i: int| 0 <= i < tags.len() && fs.contains(#[trigger] tags[i]),
    }
}

/// The service-level predicate: the name passes the service filter and some
/// tag passes the tag filter.
pub open spec fn service_passes(
    sf: Option<Seq<Seq<char>>>,
    tf: Option<Seq<Seq<char>>>,
    name: Seq<char>,
    tags: Seq<Seq<char>>,
) -> bool {
    in_filter(sf, name) && has_tag_in(tf, tags)
}

/// The node-level predicate: some tag of this registration passes the tag
/// filter.
pub open spec fn node_passes(tf: Option<Seq<Seq<char>>>, n: NodeView) -> bool {
    has_tag_in(tf, n.service_tags)
}

/// Decides membership in an optional allow-list.
fn matches_filter(f: &Option<Vec<String>>, x: &str) -> (r: bool)
    ensures
        r == in_filter(f.deep_view(), x@),
{
    match f {
        Option::None => true,
        Option::Some(fs) => contains_string(fs, x),
    }
}

/// Decides whether some tag of a list passes an optional allow-list.
#[verifier::loop_isolation(false)]
fn any_tag_matches(f: &Option<Vec<String>>, tags: &Vec<String>) -> (r: bool)
    ensures
        r == has_tag_in(f.deep_view(), tags.deep_view()),
{
    match f {
        Option::None => true,
        Option::Some(fs) => {
            let n = tags.len();
            let mut i: usize = 0;
            while i < n
                invariant
                    n == tags@.len(),
                    i <= n,
                    forall|j: int| 0 <= j < i ==> !fs.deep_view().contains(#[trigger] tags.deep_view()[j]),
                decreases n - i,
            {
                if contains_string(fs, tags[i].as_str()) {
                    proof {
                        assert(fs.deep_view().contains(tags.deep_view()[i as int]));
                        assert(f.deep_view() == Option::Some(fs.deep_view()));
                        assert(has_tag_in(f.deep_view(), tags.deep_view()));
                    }
                    return true;
                }
                i = i + 1;
            }
            false
        },
    }
}

// ---------------------------------------------------------------------------
// The catalog and its queries
// ---------------------------------------------------------------------------

/// The immutable snapshot: services with their tag sets, the nodes providing
/// each service, and the health records of each service.
#[derive(Debug)]
pub struct Catalog {
    services: Vec<(String, Vec<String>)>,
    nodes_by_service: Vec<(String, Vec<Node>)>,
    healthy_nodes_by_service: Vec<(String, Vec<Health>)>,
}

/// The mathematical content of a [`Catalog`]: three association lists keyed
/// by service name.
pub struct CatalogView {
    pub services: Seq<(Seq<char>, Seq<Seq<char>>)>,
    pub nodes_by_service: Seq<(Seq<char>, Seq<NodeView>)>,
    pub healthy_nodes_by_service: Seq<(Seq<char>, Seq<HealthView>)>,
}

impl View for Catalog {
    type V = CatalogView;

    closed spec fn view(&self) -> CatalogView {
        CatalogView {
            services: self.services.deep_view(),
            nodes_by_service: self.nodes_by_service.deep_view(),
            healthy_nodes_by_service: self.healthy_nodes_by_service.deep_view(),
        }
    }
}

impl Catalog {
    /// Well-formed: keys are unique in each list, the node list carries
    /// exactly the service keys in the same order, and health data exists
    /// only for known services.
    pub open spec fn wf(&self) -> bool {
        &&& unique_keys(self@.services)
        &&& unique_keys(self@.nodes_by_service)
        &&& unique_keys(self@.healthy_nodes_by_service)
        &&& self@.nodes_by_service.len() == self@.services.len()
        &&& forall|i: int|
            0 <= i < self@.services.len() ==> (#[trigger] self@.nodes_by_service[i]).0
                == self@.services[i].0
        &&& forall|k: Seq<char>|
            #[trigger] alist_has(self@.healthy_nodes_by_service, k) ==> alist_has(
                self@.services,
                k,
            )
    }

    /// All surviving service names, in the snapshot's own order.
    pub fn services(&self) -> (r: Vec<String>)
        ensures
            r.deep_view() == self@.services.map_values(|p: (Seq<char>, Seq<Seq<char>>)| p.0),
    {
        service_names(&self.services)
    }

    /// The tag set of a service, or nothing if the service is not present.
    pub fn service_tags<'a>(&'a self, service_name: &str) -> (r: Option<&'a Vec<String>>)
        ensures
            r.deep_view() == alist_get(self@.services, service_name@),
    {
        alist_lookup(&self.services, service_name)
    }

    /// The nodes providing a service, or nothing if the service is not
    /// present; an empty list means no node survived the filters.
    pub fn nodes_by_service<'a>(&'a self, service_name: &str) -> (r: Option<&'a Vec<Node>>)
        ensures
            r.deep_view() == alist_get(self@.nodes_by_service, service_name@),
    {
        alist_lookup(&self.nodes_by_service, service_name)
    }

    /// Whether a node currently passes all health checks for a service.
    /// Total: an unknown service, or a node absent from the health data,
    /// answers `false`.
    #[verifier::loop_isolation(false)]
    pub fn is_node_healthy_for_service(&self, node: &Node, service_name: &str) -> (r: bool)
        ensures
            r == spec_is_healthy(self@, service_name@, node@.id),
    {
        match alist_lookup(&self.healthy_nodes_by_service, service_name) {
            Option::None => false,
            Option::Some(hs) => {
                proof {
                    assert(alist_get(self@.healthy_nodes_by_service, service_name@)
                        == Option::Some(hs.deep_view()));
                }
                let n = hs.len();
                let mut i: usize = 0;
                while i < n
                    invariant
                        n == hs@.len(),
                        i <= n,
                        forall|j: int| 0 <= j < i ==> hs.deep_view()[j].node.id != node@.id,
                    decreases n - i,
                {
                    if str_eq(hs[i].node.id.as_str(), node.id.as_str()) {
                        proof {
                            assert(hs.deep_view()[i as int].node.id == node@.id);
                            assert(healthy_in(hs.deep_view(), node@.id));
                        }
                        return true;
                    }
                    i = i + 1;
                }
                assert(!healthy_in(hs.deep_view(), node@.id));
                false
            },
        }
    }
}

/// Whether some health record carries the given node identifier.
pub open spec fn healthy_in(hs: Seq<HealthView>, node_id: Seq<char>) -> bool {
    exists|i: int| 0 <= i < hs.len() && hs[i].node.id == node_id
}

/// Whether a snapshot records the node as healthy for the service: the
/// service has health data and some record matches the node's identifier.
/// Total — an unknown service or an unmatched node is simply not healthy.
pub open spec fn spec_is_healthy(c: CatalogView, service: Seq<char>, node_id: Seq<char>) -> bool {
    match alist_get(c.healthy_nodes_by_service, service) {
        Option::Some(hs) => healthy_in(hs, node_id),
        Option::None => false,
    }
}

/// Looks a key up in an association list, first match.
fn alist_lookup<'a, V: DeepView>(entries: &'a Vec<(String, V)>, key: &str) -> (r: Option<&'a V>)
    ensures
        r.deep_view() == alist_get(entries.deep_view(), key@),
{
    let n = entries.len();
    let mut i: usize = 0;
    proof {
        assert(entries.deep_view().skip(0) =~= entries.deep_view());
    }
    while i < n
        invariant
            n == entries@.len(),
            i <= n,
            alist_get(entries.deep_view(), key@) == alist_get(
                entries.deep_view().skip(i as int),
                key@,
            ),
            forall|j: int| 0 <= j < i ==> entries.deep_view()[j].0 != key@,
        decreases n - i,
    {
        if str_eq(entries[i].0.as_str(), key) {
            proof {
                let dv = entries.deep_view();
                assert(dv.skip(i as int)[0] == dv[i as int]);
                assert(dv[i as int].0 == key@);
            }
            return Some(&entries[i].1);
        }
        proof {
            lemma_alist_get_skip_step(entries.deep_view(), key@, i as int);
        }
        i = i + 1;
    }
    proof {
        assert(entries.deep_view().skip(n as int).len() == 0);
    }
    None
}

/// Skipping a non-matching head leaves the lookup unchanged.
proof fn lemma_alist_get_skip_step<V>(l: Seq<(Seq<char>, V)>, k: Seq<char>, i: int)
    requires
        0 <= i < l.len(),
        l[i].0 != k,
    ensures
        alist_get(l.skip(i), k) == alist_get(l.skip(i + 1), k),
{
    assert(l.skip(i)[0] == l[i]);
    assert(l.skip(i).drop_first() =~= l.skip(i + 1));
}

/// Whether a key occurs in an association list, decided by character content.
fn alist_contains_key<V: DeepView>(entries: &Vec<(String, V)>, key: &str) -> (r: bool)
    ensures
        r == alist_has(entries.deep_view(), key@),
{
    let n = entries.len();
    let mut i: usize = 0;
    while i < n
        invariant
            n == entries@.len(),
            i <= n,
            forall|j: int| 0 <= j < i ==> entries.deep_view()[j].0 != key@,
        decreases n - i,
    {
        if str_eq(entries[i].0.as_str(), key) {
            proof {
                assert(entries.deep_view()[i as int].0 == key@);
            }
            return true;
        }
        i = i + 1;
    }
    proof {
        assert(forall|j: int|
            0 <= j < entries.deep_view().len() ==> entries.deep_view()[j].0 != key@);
    }
    false
}

// ---------------------------------------------------------------------------
// Sequence facts used by the pipeline
// ---------------------------------------------------------------------------

/// Filtering past an appended element keeps it exactly when it passes.
proof fn lemma_filter_push<A>(s: Seq<A>, x: A, pred: spec_fn(A) -> bool)
    ensures
        (s.push(x)).filter(pred) == (if pred(x) {
            s.filter(pred).push(x)
        } else {
            s.filter(pred)
        }),
{
    reveal(Seq::filter);
    assert((s.push(x)).drop_last() =~= s);
    assert((s.push(x)).last() == x);
}

/// Every key of a filtered list is a key of the list.
proof fn lemma_alist_has_filter<V>(
    l: Seq<(Seq<char>, V)>,
    pred: spec_fn((Seq<char>, V)) -> bool,
    k: Seq<char>,
)
    requires
        alist_has(l.filter(pred), k),
    ensures
        alist_has(l, k),
    decreases l.len(),
{
    reveal(Seq::filter);
    if l.len() > 0 {
        if pred(l.last()) {
            assert(l.filter(pred) == l.drop_last().filter(pred).push(l.last()));
            lemma_alist_has_push(l.drop_last().filter(pred), l.last(), k);
            if l.last().0 != k {
                lemma_alist_has_filter(l.drop_last(), pred, k);
            }
        } else {
            assert(l.filter(pred) == l.drop_last().filter(pred));
            lemma_alist_has_filter(l.drop_last(), pred, k);
        }
        lemma_alist_has_drop_last(l, k);
    }
}

/// Filtering keeps keys unique.
proof fn lemma_filter_unique_keys<V>(l: Seq<(Seq<char>, V)>, pred: spec_fn((Seq<char>, V)) -> bool)
    requires
        unique_keys(l),
    ensures
        unique_keys(l.filter(pred)),
    decreases l.len(),
{
    reveal(Seq::filter);
    if l.len() > 0 {
        assert(unique_keys(l.drop_last())) by {
            assert(forall|i: int|
                0 <= i < l.drop_last().len() ==> l.drop_last()[i] == l[i]);
        }
        lemma_filter_unique_keys(l.drop_last(), pred);
        let f0 = l.drop_last().filter(pred);
        if pred(l.last()) {
            assert(l.filter(pred) == f0.push(l.last()));
            if alist_has(f0, l.last().0) {
                lemma_alist_has_filter(l.drop_last(), pred, l.last().0);
                let i = choose|i: int|
                    0 <= i < l.drop_last().len() && l.drop_last()[i].0 == l.last().0;
                assert(l[i] == l.drop_last()[i]);
                assert(l[i].0 == l[l.len() - 1].0);
                assert(false);
            }
            let f = f0.push(l.last());
            assert forall|i: int, j: int| 0 <= i < j < f.len() implies f[i].0 != f[j].0 by {
                if j < f.len() - 1 {
                    assert(f[i] == f0[i]);
                    assert(f[j] == f0[j]);
                } else {
                    assert(f[j] == l.last());
                    assert(f[i] == f0[i]);
                    if f0[i].0 == l.last().0 {
                        assert(alist_has(f0, l.last().0));
                    }
                }
            }
        } else {
            assert(l.filter(pred) == f0);
        }
    }
}

// ---------------------------------------------------------------------------
// The backend client and the fan-out join
// ---------------------------------------------------------------------------

/// What the aggregation needs from a backend: one call for the service map,
/// and, per fan-out phase, one result for each requested service.
/// Implementations live with the I/O; the engine here states what holds of
/// whatever they hand back.
pub trait Client {
    /// The full map from service name to tag set.
    fn services(&mut self) -> Result<Vec<(String, Vec<String>)>, FetchError>;

    /// For each requested service, the nodes providing it, or the failure of
    /// that service's call.
    fn nodes(&mut self, services: &Vec<String>) -> Vec<(String, Result<Vec<Node>, FetchError>)>;

    /// For each requested service, the records of nodes passing all health
    /// checks, or the failure of that service's call.
    fn healthy_nodes(&mut self, services: &Vec<String>) -> Vec<
        (String, Result<Vec<Health>, FetchError>),
    >;
}

/// A successful join: every call succeeded, and the results stand keyed in
/// request order.
pub open spec fn joined_ok<T>(
    rs: Seq<(String, Result<Vec<T>, FetchError>)>,
    out: Seq<(String, Vec<T>)>,
) -> bool {
    &&& out.len() == rs.len()
    &&& forall|i: int| 0 <= i < rs.len() ==> (#[trigger] rs[i]).1 is Ok
    &&& forall|i: int|
        0 <= i < rs.len() ==> (#[trigger] out[i]).0 == rs[i].0 && out[i].1 == rs[i].1->Ok_0
}

/// A failed join: the error names the first failing service and wraps its
/// cause.
pub open spec fn first_failure<T>(
    rs: Seq<(String, Result<Vec<T>, FetchError>)>,
    e: BuildError,
) -> bool {
    exists|i: int|
        #![auto]
        {
            &&& 0 <= i < rs.len()
            &&& rs[i].1 is Err
            &&& forall|j: int| 0 <= j < i ==> (#[trigger] rs[j]).1 is Ok
            &&& e == (BuildError::Aggregate { service: rs[i].0, cause: rs[i].1->Err_0 })
        }
}

/// Joins one fan-out phase, all-or-nothing: every per-service result, or the
/// first failure with all partial results discarded.
#[verifier::loop_isolation(false)]
pub fn join_service_calls<T>(results: Vec<(String, Result<Vec<T>, FetchError>)>) -> (r: Result<
    Vec<(String, Vec<T>)>,
    BuildError,
>)
    ensures
        match r {
            Result::Ok(out) => joined_ok(results@, out@),
            Result::Err(e) => first_failure(results@, e),
        },
{
    let ghost orig = results@;
    let mut rest = results;
    let mut out: Vec<(String, Vec<T>)> = Vec::new();
    let total = rest.len();
    proof {
        assert(rest@ =~= orig.skip(0));
        assert(orig.len() == total);
    }
    while rest.len() > 0
        invariant
            out@.len() + rest@.len() == orig.len(),
            rest@ == orig.skip(out@.len() as int),
            forall|i: int|
                0 <= i < out@.len() ==> (#[trigger] orig[i]).1 is Ok,
            forall|i: int|
                0 <= i < out@.len() ==> (#[trigger] out@[i]).0 == orig[i].0 && out@[i].1
                    == orig[i].1->Ok_0,
        decreases rest@.len(),
    {
        let ghost k = out@.len() as int;
        proof {
            assert(rest@[0] == orig.skip(k)[0]);
            assert(orig.skip(k)[0] == orig[k]);
        }
        let (name, res) = rest.remove(0);
        proof {
            assert(rest@ =~= orig.skip(k + 1)) by {
                assert(rest@ =~= orig.skip(k).drop_first());
                assert(orig.skip(k).drop_first() =~= orig.skip(k + 1));
            }
        }
        match res {
            Result::Ok(v) => {
                out.push((name, v));
            },
            Result::Err(cause) => {
                let e = BuildError::Aggregate { service: name, cause };
                proof {
                    assert(orig[k].1 is Err);
                    assert(e == (BuildError::Aggregate {
                        service: orig[k].0,
                        cause: orig[k].1->Err_0,
                    }));
                    assert(first_failure(orig, e));
                }
                return Result::Err(e);
            },
        }
    }
    proof {
        assert(out@.len() == orig.len());
    }
    Result::Ok(out)
}

// ---------------------------------------------------------------------------
// The pure pipeline: filter, deduplicate, assemble
// ---------------------------------------------------------------------------

/// The service-map entries that survive the two filters, in backend order.
#[verifier::loop_isolation(false)]
pub fn filter_services(
    all: Vec<(String, Vec<String>)>,
    service_filter: &Option<Vec<String>>,
    tag_filter: &Option<Vec<String>>,
) -> (r: Vec<(String, Vec<String>)>)
    ensures
        r.deep_view() == all.deep_view().filter(
            |p: (Seq<char>, Seq<Seq<char>>)|
                service_passes(service_filter.deep_view(), tag_filter.deep_view(), p.0, p.1),
        ),
{
    let ghost dv = all.deep_view();
    let ghost orig = all@;
    let ghost pred = |p: (Seq<char>, Seq<Seq<char>>)|
        service_passes(service_filter.deep_view(), tag_filter.deep_view(), p.0, p.1);
    let mut rest = all;
    let mut r: Vec<(String, Vec<String>)> = Vec::new();
    let mut k: usize = 0;
    let total = rest.len();
    proof {
        assert(rest@ =~= orig.skip(0));
        assert(orig.len() == total);
        assert(dv.take(0) =~= Seq::<(Seq<char>, Seq<Seq<char>>)>::empty());
        reveal(Seq::filter);
    }
    while rest.len() > 0
        invariant
            orig.len() <= usize::MAX,
            k + rest@.len() == orig.len(),
            rest@ == orig.skip(k as int),
            r.deep_view() == dv.take(k as int).filter(pred),
        decreases rest@.len(),
    {
        proof {
            assert(rest@[0] == orig[k as int]);
        }
        let entry = rest.remove(0);
        proof {
            assert(rest@ =~= orig.skip(k as int).drop_first());
            assert(orig.skip(k as int).drop_first() =~= orig.skip(k as int + 1));
            assert(entry.deep_view() == dv[k as int]);
        }
        let keep = matches_filter(service_filter, entry.0.as_str()) && any_tag_matches(
            tag_filter,
            &entry.1,
        );
        proof {
            assert(keep == pred(dv[k as int]));
            assert(dv.take(k as int + 1) =~= dv.take(k as int).push(dv[k as int]));
            lemma_filter_push(dv.take(k as int), dv[k as int], pred);
        }
        if keep {
            let ghost prev = r.deep_view();
            r.push(entry);
            proof {
                assert(r.deep_view() =~= prev.push(dv[k as int]));
            }
        }
        k = k + 1;
    }
    proof {
        assert(dv.take(k as int) =~= dv);
    }
    r
}

/// Copies a list of nodes, keeping its content.
#[verifier::loop_isolation(false)]
pub fn clone_nodes(v: &Vec<Node>) -> (r: Vec<Node>)
    ensures
        r.deep_view() == v.deep_view(),
{
    let mut r: Vec<Node> = Vec::new();
    let n = v.len();
    let mut i: usize = 0;
    while i < n
        invariant
            n == v@.len(),
            i <= n,
            r@.len() == i,
            forall|j: int| 0 <= j < i ==> (#[trigger] r@[j])@ == v@[j]@,
        decreases n - i,
    {
        let nd = v[i].clone();
        r.push(nd);
        i = i + 1;
    }
    proof {
        assert forall|j: int| 0 <= j < n implies r.deep_view()[j] == v.deep_view()[j] by {
            assert(r.deep_view()[j] == r@[j]@);
            assert(v.deep_view()[j] == v@[j]@);
        }
        assert(r.deep_view() =~= v.deep_view());
    }
    r
}

/// The nodes of one list whose own tag set passes the tag filter, in order.
#[verifier::loop_isolation(false)]
pub fn filter_nodes(nodes: Vec<Node>, tag_filter: &Option<Vec<String>>) -> (r: Vec<Node>)
    ensures
        r.deep_view() == nodes.deep_view().filter(
            |n: NodeView| node_passes(tag_filter.deep_view(), n),
        ),
{
    let ghost dv = nodes.deep_view();
    let ghost orig = nodes@;
    let ghost pred = |n: NodeView| node_passes(tag_filter.deep_view(), n);
    let mut rest = nodes;
    let mut r: Vec<Node> = Vec::new();
    let mut k: usize = 0;
    let total = rest.len();
    proof {
        assert(rest@ =~= orig.skip(0));
        assert(orig.len() == total);
        assert(dv.take(0) =~= Seq::<NodeView>::empty());
        reveal(Seq::filter);
    }
    while rest.len() > 0
        invariant
            orig.len() <= usize::MAX,
            k + rest@.len() == orig.len(),
            rest@ == orig.skip(k as int),
            r.deep_view() == dv.take(k as int).filter(pred),
        decreases rest@.len(),
    {
        proof {
            assert(rest@[0] == orig[k as int]);
        }
        let nd = rest.remove(0);
        proof {
            assert(rest@ =~= orig.skip(k as int).drop_first());
            assert(orig.skip(k as int).drop_first() =~= orig.skip(k as int + 1));
            assert(nd@ == dv[k as int]);
        }
        let keep = any_tag_matches(tag_filter, &nd.service_tags);
        proof {
            assert(keep == pred(dv[k as int]));
            assert(dv.take(k as int + 1) =~= dv.take(k as int).push(dv[k as int]));
            lemma_filter_push(dv.take(k as int), dv[k as int], pred);
        }
        if keep {
            let ghost prev = r.deep_view();
            r.push(nd);
            proof {
                assert(r.deep_view() =~= prev.push(dv[k as int]));
            }
        }
        k = k + 1;
    }
    proof {
        assert(dv.take(k as int) =~= dv);
    }
    r
}

/// Keeps the first entry of each key, dropping later duplicates.
#[verifier::loop_isolation(false)]
pub fn dedup_entries<V: DeepView>(entries: Vec<(String, V)>) -> (r: Vec<(String, V)>)
    ensures
        r.deep_view() == dedup_keys(entries.deep_view()),
{
    let ghost dv = entries.deep_view();
    let ghost orig = entries@;
    let mut rest = entries;
    let mut r: Vec<(String, V)> = Vec::new();
    let mut k: usize = 0;
    let total = rest.len();
    proof {
        assert(rest@ =~= orig.skip(0));
        assert(orig.len() == total);
        assert(dv.take(0) =~= Seq::<(Seq<char>, V::V)>::empty());
        assert(r.deep_view() =~= dedup_keys(dv.take(0)));
    }
    while rest.len() > 0
        invariant
            orig.len() <= usize::MAX,
            k + rest@.len() == orig.len(),
            rest@ == orig.skip(k as int),
            r.deep_view() == dedup_keys(dv.take(k as int)),
        decreases rest@.len(),
    {
        proof {
            assert(rest@[0] == orig[k as int]);
        }
        let entry = rest.remove(0);
        proof {
            assert(rest@ =~= orig.skip(k as int).drop_first());
            assert(orig.skip(k as int).drop_first() =~= orig.skip(k as int + 1));
            assert(entry.deep_view() == dv[k as int]);
        }
        let dup = alist_contains_key(&r, entry.0.as_str());
        proof {
            lemma_dedup_keys_has(dv.take(k as int), entry.0@);
            assert(dv.take(k as int + 1).drop_last() =~= dv.take(k as int));
            assert(dv.take(k as int + 1).last() == dv[k as int]);
            assert(dup == alist_has(dv.take(k as int), dv[k as int].0));
        }
        if !dup {
            let ghost prev = r.deep_view();
            r.push(entry);
            proof {
                assert(r.deep_view() =~= prev.push(dv[k as int]));
            }
        }
        proof {
            assert(r.deep_view() == dedup_keys(dv.take(k as int + 1)));
        }
        k = k + 1;
    }
    proof {
        assert(dv.take(k as int) =~= dv);
    }
    r
}

/// The value stored under a key, or the empty sequence for an absent key.
pub open spec fn get_or_empty<V>(l: Seq<(Seq<char>, Seq<V>)>, k: Seq<char>) -> Seq<V> {
    match alist_get(l, k) {
        Option::Some(v) => v,
        Option::None => Seq::empty(),
    }
}

/// How the assembled snapshot relates to the filtered service map and the
/// two joined fan-out results: services are the map with duplicate keys
/// dropped; each service carries the nodes fetched for it (or none), narrowed
/// to the tag filter; health data is kept exactly for known services.
pub open spec fn assemble_rel(
    svcs: Seq<(Seq<char>, Seq<Seq<char>>)>,
    nodes: Seq<(Seq<char>, Seq<NodeView>)>,
    healthy: Seq<(Seq<char>, Seq<HealthView>)>,
    tf: Option<Seq<Seq<char>>>,
    c: CatalogView,
) -> bool {
    &&& c.services == dedup_keys(svcs)
    &&& c.nodes_by_service.len() == c.services.len()
    &&& forall|i: int|
        0 <= i < c.services.len() ==> (#[trigger] c.nodes_by_service[i]).0 == c.services[i].0
    &&& forall|i: int|
        0 <= i < c.services.len() ==> (#[trigger] c.nodes_by_service[i]).1 == get_or_empty(
            nodes,
            c.services[i].0,
        ).filter(|n: NodeView| node_passes(tf, n))
    &&& c.healthy_nodes_by_service == dedup_keys(healthy).filter(
        |p: (Seq<char>, Seq<HealthView>)| alist_has(dedup_keys(svcs), p.0),
    )
}

/// Assembles the snapshot from the filtered service map and the two joined
/// fan-out results. Total: stray keys and duplicates are dropped, a service
/// without fetched nodes gets an empty list, and the result is well-formed.
#[verifier::loop_isolation(false)]
pub fn assemble(
    services: Vec<(String, Vec<String>)>,
    nodes: Vec<(String, Vec<Node>)>,
    healthy: Vec<(String, Vec<Health>)>,
    tag_filter: &Option<Vec<String>>,
) -> (c: Catalog)
    ensures
        c.wf(),
        assemble_rel(
            services.deep_view(),
            nodes.deep_view(),
            healthy.deep_view(),
            tag_filter.deep_view(),
            c@,
        ),
{
    let ghost svcs_dv = services.deep_view();
    let ghost ndv = nodes.deep_view();
    let ghost hdv = healthy.deep_view();
    let services_d = dedup_entries(services);

    let mut nodes_out: Vec<(String, Vec<Node>)> = Vec::new();
    let n = services_d.len();
    let mut i: usize = 0;
    while i < n
        invariant
            n == services_d@.len(),
            i <= n,
            nodes_out@.len() == i,
            forall|j: int|
                0 <= j < i ==> (#[trigger] nodes_out@[j]).0@ == services_d.deep_view()[j].0,
            forall|j: int|
                0 <= j < i ==> (#[trigger] nodes_out@[j]).1.deep_view() == get_or_empty(
                    ndv,
                    services_d.deep_view()[j].0,
                ).filter(|nv: NodeView| node_passes(tag_filter.deep_view(), nv)),
        decreases n - i,
    {
        let key = services_d[i].0.clone();
        proof {
            assert(key@ == services_d.deep_view()[i as int].0);
        }
        let ns: Vec<Node> = match alist_lookup(&nodes, key.as_str()) {
            Option::Some(v) => clone_nodes(v),
            Option::None => Vec::new(),
        };
        proof {
            assert(ns.deep_view() =~= get_or_empty(ndv, services_d.deep_view()[i as int].0));
        }
        let filtered = filter_nodes(ns, tag_filter);
        nodes_out.push((key, filtered));
        i = i + 1;
    }

    let healthy_d = dedup_entries(healthy);
    let ghost hddv = dedup_keys(hdv);
    let ghost hpred = |p: (Seq<char>, Seq<HealthView>)| alist_has(dedup_keys(svcs_dv), p.0);
    let ghost horig = healthy_d@;
    let mut hrest = healthy_d;
    let mut healthy_out: Vec<(String, Vec<Health>)> = Vec::new();
    let mut k: usize = 0;
    let htotal = hrest.len();
    proof {
        assert(hrest@ =~= horig.skip(0));
        assert(horig.len() == htotal);
        assert(hddv.take(0) =~= Seq::<(Seq<char>, Seq<HealthView>)>::empty());
        reveal(Seq::filter);
    }
    while hrest.len() > 0
        invariant
            horig.len() <= usize::MAX,
            k + hrest@.len() == horig.len(),
            hrest@ == horig.skip(k as int),
            healthy_out.deep_view() == hddv.take(k as int).filter(hpred),
        decreases hrest@.len(),
    {
        proof {
            assert(hrest@[0] == horig[k as int]);
            assert(horig[k as int].deep_view() == hddv[k as int]);
        }
        let entry = hrest.remove(0);
        proof {
            assert(hrest@ =~= horig.skip(k as int).drop_first());
            assert(horig.skip(k as int).drop_first() =~= horig.skip(k as int + 1));
            assert(entry.deep_view() == hddv[k as int]);
        }
        let keep = alist_contains_key(&services_d, entry.0.as_str());
        proof {
            assert(keep == hpred(hddv[k as int]));
            assert(hddv.take(k as int + 1) =~= hddv.take(k as int).push(hddv[k as int]));
            lemma_filter_push(hddv.take(k as int), hddv[k as int], hpred);
        }
        if keep {
            let ghost prev = healthy_out.deep_view();
            healthy_out.push(entry);
            proof {
                assert(healthy_out.deep_view() =~= prev.push(hddv[k as int]));
            }
        }
        k = k + 1;
    }
    proof {
        assert(hddv.take(k as int) =~= hddv);
    }

    let c = Catalog {
        services: services_d,
        nodes_by_service: nodes_out,
        healthy_nodes_by_service: healthy_out,
    };
    proof {
        assert(c@.services == dedup_keys(svcs_dv));
        assert(c@.nodes_by_service.len() == c@.services.len());
        assert forall|j: int| 0 <= j < c@.services.len() implies (#[trigger] c@.nodes_by_service[j]).0
            == c@.services[j].0 by {
            assert(c@.nodes_by_service[j] == nodes_out@[j].deep_view());
        }
        assert forall|j: int| 0 <= j < c@.services.len() implies (#[trigger] c@.nodes_by_service[j]).1
            == get_or_empty(ndv, c@.services[j].0).filter(
            |nv: NodeView| node_passes(tag_filter.deep_view(), nv),
        ) by {
            assert(c@.nodes_by_service[j] == nodes_out@[j].deep_view());
        }
        assert(c@.healthy_nodes_by_service == dedup_keys(hdv).filter(hpred));

        // Well-formedness.
        lemma_dedup_keys_unique(svcs_dv);
        lemma_dedup_keys_unique(hdv);
        lemma_filter_unique_keys(dedup_keys(hdv), hpred);
        assert(unique_keys(c@.nodes_by_service)) by {
            assert(forall|a: int|
                0 <= a < c@.nodes_by_service.len() ==> (#[trigger] c@.nodes_by_service[a]).0
                    == c@.services[a].0);
        }
        assert forall|kk: Seq<char>|
            #[trigger] alist_has(c@.healthy_nodes_by_service, kk) implies alist_has(
            c@.services,
            kk,
        ) by {
            let f = dedup_keys(hdv).filter(hpred);
            let idx = choose|idx: int| 0 <= idx < f.len() && f[idx].0 == kk;
            dedup_keys(hdv).lemma_filter_pred(hpred, idx);
            assert(hpred(f[idx]));
        }
    }
    c
}

// ---------------------------------------------------------------------------
// The catalog builder
// ---------------------------------------------------------------------------

/// Filter consistency: every surviving service passes the service-level
/// predicate, and every visible node additionally passes the node-level tag
/// predicate.
pub open spec fn catalog_consistent(
    c: CatalogView,
    sf: Option<Seq<Seq<char>>>,
    tf: Option<Seq<Seq<char>>>,
) -> bool {
    &&& forall|i: int|
        0 <= i < c.services.len() ==> service_passes(
            sf,
            tf,
            (#[trigger] c.services[i]).0,
            c.services[i].1,
        )
    &&& forall|i: int, j: int|
        0 <= i < c.nodes_by_service.len() && 0 <= j < c.nodes_by_service[i].1.len()
            ==> node_passes(tf, #[trigger] c.nodes_by_service[i].1[j])
}

/// The names of the surviving services, in order, for the fan-out phases.
fn service_names(entries: &Vec<(String, Vec<String>)>) -> (r: Vec<String>)
    ensures
        r.deep_view() == entries.deep_view().map_values(
            |p: (Seq<char>, Seq<Seq<char>>)| p.0,
        ),
{
    let mut r: Vec<String> = Vec::new();
    let n = entries.len();
    let mut i: usize = 0;
    while i < n
        invariant
            n == entries@.len(),
            i <= n,
            r@.len() == i,
            forall|j: int| 0 <= j < i ==> (#[trigger] r@[j])@ == entries.deep_view()[j].0,
        decreases n - i,
    {
        let name = entries[i].0.clone();
        assert(name@ == entries.deep_view()[i as int].0);
        r.push(name);
        i = i + 1;
    }
    proof {
        let m = entries.deep_view().map_values(|p: (Seq<char>, Seq<Seq<char>>)| p.0);
        assert forall|j: int| 0 <= j < n implies r.deep_view()[j] == m[j] by {
            assert(r.deep_view()[j] == r@[j]@);
        }
        assert(r.deep_view() =~= m);
    }
    r
}

/// One discovery backend, addressed by its base URL.
pub struct Consul {
    url: String,
}

impl Consul {
    /// The base URL this instance was created with.
    pub closed spec fn url_view(&self) -> Seq<char> {
        self.url@
    }

    /// A builder for the given backend base URL.
    pub fn new(url: String) -> (c: Self)
        ensures
            c.url_view() == url@,
    {
        Consul { url }
    }

    /// The backend base URL, for whoever performs the calls.
    pub fn url(&self) -> (r: &String)
        ensures
            r@ == self.url_view(),
    {
        &self.url
    }

    /// Builds the unfiltered snapshot: every service the backend reports.
    pub fn catalog<C: Client>(&self, client: &mut C) -> (r: Result<Catalog, BuildError>)
        ensures
            r is Ok ==> r->Ok_0.wf(),
            r is Ok ==> catalog_consistent(r->Ok_0@, Option::None, Option::None),
    {
        self.catalog_by(client, Option::None, Option::None)
    }

    /// Builds the snapshot: fetches the service map, applies the two
    /// filters, fans out for nodes and health over the surviving services,
    /// and assembles the catalog. All-or-nothing: any failing call aborts
    /// the build and no catalog is returned.
    pub fn catalog_by<C: Client>(
        &self,
        client: &mut C,
        services: Option<Vec<String>>,
        tags: Option<Vec<String>>,
    ) -> (r: Result<Catalog, BuildError>)
        ensures
            r is Ok ==> r->Ok_0.wf(),
            r is Ok ==> catalog_consistent(r->Ok_0@, services.deep_view(), tags.deep_view()),
    {
        let all = match client.services() {
            Result::Ok(a) => a,
            Result::Err(e) => {
                return Result::Err(build_error_of_fetch(e));
            },
        };
        let ghost all_dv = all.deep_view();
        let surviving = filter_services(all, &services, &tags);
        let ghost surv_dv = surviving.deep_view();
        let names = service_names(&surviving);

        let node_results = client.nodes(&names);
        let joined_nodes = match join_service_calls(node_results) {
            Result::Ok(j) => j,
            Result::Err(e) => {
                return Result::Err(e);
            },
        };
        let ghost jndv = joined_nodes.deep_view();

        let health_results = client.healthy_nodes(&names);
        let joined_health = match join_service_calls(health_results) {
            Result::Ok(j) => j,
            Result::Err(e) => {
                return Result::Err(e);
            },
        };

        let catalog = assemble(surviving, joined_nodes, joined_health, &tags);
        proof {
            let sf = services.deep_view();
            let tf = tags.deep_view();
            let spred = |p: (Seq<char>, Seq<Seq<char>>)| service_passes(sf, tf, p.0, p.1);
            let npred = |n: NodeView| node_passes(tf, n);
            assert(surv_dv == all_dv.filter(spred));
            assert(catalog@.services == dedup_keys(surv_dv));
            lemma_dedup_keys_entries(surv_dv);
            assert forall|i: int| 0 <= i < catalog@.services.len() implies service_passes(
                sf,
                tf,
                (#[trigger] catalog@.services[i]).0,
                catalog@.services[i].1,
            ) by {
                let j = choose|j: int|
                    0 <= j < surv_dv.len() && surv_dv[j] == catalog@.services[i];
                all_dv.lemma_filter_pred(spred, j);
                assert(spred(surv_dv[j]));
            }
            assert forall|i: int, j: int|
                0 <= i < catalog@.nodes_by_service.len() && 0 <= j
                    < catalog@.nodes_by_service[i].1.len() implies node_passes(
                tf,
                #[trigger] catalog@.nodes_by_service[i].1[j],
            ) by {
                let base = get_or_empty(jndv, catalog@.services[i].0);
                assert(catalog@.nodes_by_service[i].1 == base.filter(npred));
                base.lemma_filter_pred(npred, j);
                assert(npred(base.filter(npred)[j]));
            }
        }
        Result::Ok(catalog)
    }
}

// ---------------------------------------------------------------------------
// Laws
// ---------------------------------------------------------------------------

/// Filter consistency at the query surface: any service a consistent
/// snapshot lists passes the service-level predicate with its tags, and any
/// node it hands out for a service passes the node-level tag predicate.
pub proof fn lemma_filter_consistency(
    c: CatalogView,
    sf: Option<Seq<Seq<char>>>,
    tf: Option<Seq<Seq<char>>>,
    i: int,
    j: int,
)
    requires
        catalog_consistent(c, sf, tf),
        0 <= i < c.services.len(),
    ensures
        service_passes(sf, tf, c.services[i].0, c.services[i].1),
        0 <= i < c.nodes_by_service.len() && 0 <= j < c.nodes_by_service[i].1.len()
            ==> node_passes(tf, c.nodes_by_service[i].1[j]),
{
}

/// Deduplication leaves a list whose keys are already unique unchanged.
/// With the absent-filter law this closes the match-all chain: a backend
/// with unique service names, built without filters, is listed in full.
pub proof fn lemma_dedup_keys_noop<V>(l: Seq<(Seq<char>, V)>)
    requires
        unique_keys(l),
    ensures
        dedup_keys(l) == l,
    decreases l.len(),
{
    if l.len() > 0 {
        assert(unique_keys(l.drop_last())) by {
            assert(forall|i: int|
                0 <= i < l.drop_last().len() ==> l.drop_last()[i] == l[i]);
        }
        lemma_dedup_keys_noop(l.drop_last());
        if alist_has(l.drop_last(), l.last().0) {
            let i = choose|i: int|
                0 <= i < l.drop_last().len() && l.drop_last()[i].0 == l.last().0;
            assert(l[i].0 == l[l.len() - 1].0);
            assert(false);
        }
        assert(dedup_keys(l) == l.drop_last().push(l.last()));
        assert(l.drop_last().push(l.last()) =~= l);
    }
}

/// An absent service filter and an absent tag filter keep every service: the
/// survivor computation leaves the service map unchanged.
pub proof fn lemma_absent_filters_keep_all(svcs: Seq<(Seq<char>, Seq<Seq<char>>)>)
    ensures
        svcs.filter(
            |p: (Seq<char>, Seq<Seq<char>>)|
                service_passes(Option::None, Option::None, p.0, p.1),
        ) == svcs,
    decreases svcs.len(),
{
    reveal(Seq::filter);
    let pred = |p: (Seq<char>, Seq<Seq<char>>)|
        service_passes(Option::None, Option::None, p.0, p.1);
    if svcs.len() == 0 {
        assert(svcs.filter(pred) =~= svcs);
    } else {
        lemma_absent_filters_keep_all(svcs.drop_last());
        assert(pred(svcs.last()));
        assert(svcs.filter(pred) == svcs.drop_last().filter(pred).push(svcs.last()));
        assert(svcs.drop_last().push(svcs.last()) =~= svcs);
    }
}

/// All-or-nothing fan-out: if any per-service call of a phase failed, the
/// phase joins to an error — no partial result is ever exposed.
pub proof fn lemma_join_all_or_nothing<T>(
    rs: Seq<(String, Result<Vec<T>, FetchError>)>,
    r: Result<Vec<(String, Vec<T>)>, BuildError>,
    i: int,
)
    requires
        0 <= i < rs.len(),
        rs[i].1 is Err,
        match r {
            Result::Ok(o) => joined_ok(rs, o@),
            Result::Err(e) => first_failure(rs, e),
        },
    ensures
        r is Err,
{
    if r is Ok {
        assert((rs[i]).1 is Ok);
    }
}

/// The join is a function of the responses alone: equal fan-out responses
/// join to the same outcome — the same lists, or the same first failure.
pub proof fn lemma_join_deterministic<T>(
    rs: Seq<(String, Result<Vec<T>, FetchError>)>,
    r1: Result<Vec<(String, Vec<T>)>, BuildError>,
    r2: Result<Vec<(String, Vec<T>)>, BuildError>,
)
    requires
        match r1 {
            Result::Ok(o) => joined_ok(rs, o@),
            Result::Err(e) => first_failure(rs, e),
        },
        match r2 {
            Result::Ok(o) => joined_ok(rs, o@),
            Result::Err(e) => first_failure(rs, e),
        },
    ensures
        r1 is Ok <==> r2 is Ok,
        r1 is Ok ==> r1->Ok_0@ == r2->Ok_0@,
        r1 is Err ==> r1->Err_0 == r2->Err_0,
{
    if r1 is Ok && r2 is Err {
        let e = r2->Err_0;
        let i = choose|i: int|
            #![auto]
            {
                &&& 0 <= i < rs.len()
                &&& rs[i].1 is Err
                &&& forall|j: int| 0 <= j < i ==> (#[trigger] rs[j]).1 is Ok
                &&& e == (BuildError::Aggregate { service: rs[i].0, cause: rs[i].1->Err_0 })
            };
        lemma_join_all_or_nothing(rs, r1, i);
    }
    if r1 is Err && r2 is Ok {
        let e = r1->Err_0;
        let i = choose|i: int|
            #![auto]
            {
                &&& 0 <= i < rs.len()
                &&& rs[i].1 is Err
                &&& forall|j: int| 0 <= j < i ==> (#[trigger] rs[j]).1 is Ok
                &&& e == (BuildError::Aggregate { service: rs[i].0, cause: rs[i].1->Err_0 })
            };
        lemma_join_all_or_nothing(rs, r2, i);
    }
    if r1 is Ok && r2 is Ok {
        let o1 = r1->Ok_0@;
        let o2 = r2->Ok_0@;
        assert forall|i: int| 0 <= i < o1.len() implies o1[i] == o2[i] by {
            assert(o1[i].0 == rs[i].0 && o1[i].1 == rs[i].1->Ok_0);
            assert(o2[i].0 == rs[i].0 && o2[i].1 == rs[i].1->Ok_0);
        }
        assert(o1 =~= o2);
    }
    if r1 is Err && r2 is Err {
        let e1 = r1->Err_0;
        let e2 = r2->Err_0;
        let i1 = choose|i: int|
            #![auto]
            {
                &&& 0 <= i < rs.len()
                &&& rs[i].1 is Err
                &&& forall|j: int| 0 <= j < i ==> (#[trigger] rs[j]).1 is Ok
                &&& e1 == (BuildError::Aggregate { service: rs[i].0, cause: rs[i].1->Err_0 })
            };
        let i2 = choose|i: int|
            #![auto]
            {
                &&& 0 <= i < rs.len()
                &&& rs[i].1 is Err
                &&& forall|j: int| 0 <= j < i ==> (#[trigger] rs[j]).1 is Ok
                &&& e2 == (BuildError::Aggregate { service: rs[i].0, cause: rs[i].1->Err_0 })
            };
        if i1 < i2 {
            assert((rs[i1]).1 is Ok);
        }
        if i2 < i1 {
            assert((rs[i2]).1 is Ok);
        }
        assert(i1 == i2);
    }
}

/// Assembly is a function of its inputs alone: two snapshots assembled from
/// equal filtered service maps and equal joined fan-out results have equal
/// content. With the join determinism this gives idempotence: an unchanged
/// backend yields an unchanged catalog.
pub proof fn lemma_assemble_deterministic(
    svcs: Seq<(Seq<char>, Seq<Seq<char>>)>,
    nodes: Seq<(Seq<char>, Seq<NodeView>)>,
    healthy: Seq<(Seq<char>, Seq<HealthView>)>,
    tf: Option<Seq<Seq<char>>>,
    c1: CatalogView,
    c2: CatalogView,
)
    requires
        assemble_rel(svcs, nodes, healthy, tf, c1),
        assemble_rel(svcs, nodes, healthy, tf, c2),
    ensures
        c1.services == c2.services,
        c1.nodes_by_service == c2.nodes_by_service,
        c1.healthy_nodes_by_service == c2.healthy_nodes_by_service,
{
    assert forall|i: int|
        0 <= i < c1.nodes_by_service.len() implies c1.nodes_by_service[i]
        == c2.nodes_by_service[i] by {
        assert(c1.nodes_by_service[i].0 == c1.services[i].0);
        assert(c2.nodes_by_service[i].0 == c1.services[i].0);
        assert(c1.nodes_by_service[i].1 == c2.nodes_by_service[i].1);
    }
    assert(c1.nodes_by_service =~= c2.nodes_by_service);
}

} // verus!
