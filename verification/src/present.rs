//! The presentation model: the catalog reshaped for renderers, one entry per
//! service, sorted by name. Template rendering and URL generation are
//! collaborator concerns; the URL fields stay empty here.

use vstd::prelude::*;
use crate::config::Config;
use crate::consul::{
    Catalog, CatalogView, NodeView, alist_get, get_or_empty, spec_is_healthy, clone_strings,
};
use crate::strutil::{bytes_le, utf8_bytes, str_le, lemma_bytes_le_total, lemma_bytes_le_trans};

verus! {

broadcast use vstd::seq_lib::group_to_multiset_ensures;

/// Everything a renderer needs for one page: the project and its services.
pub struct Services {
    pub project_name: String,
    pub services: Vec<Service>,
}

/// One service as presented: its name, tags, and nodes.
pub struct Service {
    pub name: String,
    pub tags: Vec<String>,
    pub nodes: Vec<Node>,
}

/// One node as presented. The URL fields are filled by collaborators that
/// own the URL templates; the core leaves them empty.
pub struct Node {
    pub name: String,
    pub address: String,
    pub service_port: u16,
    pub service_tags: Vec<String>,
    pub healthy: bool,
    pub service_urls: Option<Vec<(String, String)>>,
    pub default_url: Option<String>,
}

/// The mathematical content of a presented [`Node`].
pub struct PresentedNodeView {
    pub name: Seq<char>,
    pub address: Seq<char>,
    pub service_port: u16,
    pub service_tags: Seq<Seq<char>>,
    pub healthy: bool,
    pub service_urls: Option<Seq<(Seq<char>, Seq<char>)>>,
    pub default_url: Option<Seq<char>>,
}

/// The mathematical content of a presented [`Service`].
pub struct PresentedServiceView {
    pub name: Seq<char>,
    pub tags: Seq<Seq<char>>,
    pub nodes: Seq<PresentedNodeView>,
}

impl View for Node {
    type V = PresentedNodeView;

    open spec fn view(&self) -> PresentedNodeView {
        PresentedNodeView {
            name: self.name@,
            address: self.address@,
            service_port: self.service_port,
            service_tags: self.service_tags.deep_view(),
            healthy: self.healthy,
            service_urls: self.service_urls.deep_view(),
            default_url: self.default_url.deep_view(),
        }
    }
}

impl DeepView for Node {
    type V = PresentedNodeView;

    open spec fn deep_view(&self) -> PresentedNodeView {
        self.view()
    }
}

impl View for Service {
    type V = PresentedServiceView;

    open spec fn view(&self) -> PresentedServiceView {
        PresentedServiceView {
            name: self.name@,
            tags: self.tags.deep_view(),
            nodes: self.nodes.deep_view(),
        }
    }
}

impl DeepView for Service {
    type V = PresentedServiceView;

    open spec fn deep_view(&self) -> PresentedServiceView {
        self.view()
    }
}

/// How one registered node is presented for a service: its display fields,
/// and whether the snapshot holds a matching health record.
pub open spec fn presented_node(c: CatalogView, service: Seq<char>, n: NodeView) -> PresentedNodeView {
    PresentedNodeView {
        name: n.name,
        address: n.address,
        service_port: n.service_port,
        service_tags: n.service_tags,
        healthy: spec_is_healthy(c, service, n.id),
        service_urls: Option::None,
        default_url: Option::None,
    }
}

/// How one service is presented: the snapshot's tags and nodes for it, with
/// an empty list where the snapshot has no entry.
pub open spec fn presented_service(c: CatalogView, name: Seq<char>) -> PresentedServiceView {
    PresentedServiceView {
        name: name,
        tags: get_or_empty(c.services, name),
        nodes: get_or_empty(c.nodes_by_service, name).map_values(
            |n: NodeView| presented_node(c, name, n),
        ),
    }
}

/// Whether the presented services stand in name order (on the UTF-8 bytes).
pub open spec fn sorted_by_name(ss: Seq<PresentedServiceView>) -> bool {
    forall|a: int, b: int|
        0 <= a < b < ss.len() ==> bytes_le(
            utf8_bytes((#[trigger] ss[a]).name),
            utf8_bytes((#[trigger] ss[b]).name),
        )
}

impl Services {
    /// The presentation model of a snapshot: one entry per surviving
    /// service, in name order, each node marked with its health.
    #[verifier::loop_isolation(false)]
    pub fn from_catalog(catalog: &Catalog, config: &Config) -> (r: Services)
        ensures
            r.project_name@ == config.general.project_name@,
            r.services.deep_view().to_multiset() == catalog@.services.map_values(
                |p: (Seq<char>, Seq<Seq<char>>)| presented_service(catalog@, p.0),
            ).to_multiset(),
            sorted_by_name(r.services.deep_view()),
    {
        let names = catalog.services();
        let mut unsorted: Vec<Service> = Vec::new();
        let n = names.len();
        let mut i: usize = 0;
        while i < n
            invariant
                names.deep_view() == catalog@.services.map_values(
                    |p: (Seq<char>, Seq<Seq<char>>)| p.0,
                ),
                n == names@.len(),
                i <= n,
                unsorted@.len() == i,
                forall|j: int|
                    0 <= j < i ==> (#[trigger] unsorted@[j]).deep_view() == presented_service(
                        catalog@,
                        names.deep_view()[j],
                    ),
            decreases n - i,
        {
            let name = &names[i];
            proof {
                assert(name@ == names.deep_view()[i as int]);
            }
            let tags: Vec<String> = match catalog.service_tags(name.as_str()) {
                Option::Some(t) => clone_strings(t),
                Option::None => Vec::new(),
            };
            proof {
                assert(tags.deep_view() =~= get_or_empty(catalog@.services, name@));
            }
            let mut pnodes: Vec<Node> = Vec::new();
            match catalog.nodes_by_service(name.as_str()) {
                Option::Some(ns) => {
                    proof {
                        assert(alist_get(catalog@.nodes_by_service, name@)
                            == Option::Some(ns.deep_view()));
                    }
                    let m = ns.len();
                    let mut k: usize = 0;
                    while k < m
                        invariant
                            m == ns@.len(),
                            k <= m,
                            pnodes@.len() == k,
                            forall|j: int|
                                0 <= j < k ==> (#[trigger] pnodes@[j]).deep_view()
                                    == presented_node(catalog@, name@, ns.deep_view()[j]),
                        decreases m - k,
                    {
                        let nd = &ns[k];
                        let healthy = catalog.is_node_healthy_for_service(nd, name.as_str());
                        let pn = Node {
                            name: nd.name.clone(),
                            address: nd.address.clone(),
                            service_port: nd.service_port,
                            service_tags: clone_strings(&nd.service_tags),
                            healthy,
                            service_urls: Option::None,
                            default_url: Option::None,
                        };
                        proof {
                            assert(pn.deep_view() == presented_node(
                                catalog@,
                                name@,
                                ns.deep_view()[k as int],
                            ));
                        }
                        pnodes.push(pn);
                        k = k + 1;
                    }
                    proof {
                        let mapped = get_or_empty(catalog@.nodes_by_service, name@).map_values(
                            |nv: NodeView| presented_node(catalog@, name@, nv),
                        );
                        assert forall|j: int| 0 <= j < m implies pnodes.deep_view()[j]
                            == mapped[j] by {
                            assert(pnodes.deep_view()[j] == pnodes@[j].deep_view());
                        }
                        assert(pnodes.deep_view() =~= mapped);
                    }
                },
                Option::None => {
                    proof {
                        assert(pnodes.deep_view() =~= get_or_empty(
                            catalog@.nodes_by_service,
                            name@,
                        ).map_values(|nv: NodeView| presented_node(catalog@, name@, nv)));
                    }
                },
            }
            let entry = Service { name: name.clone(), tags, nodes: pnodes };
            proof {
                assert(entry.deep_view() == presented_service(catalog@, name@));
            }
            unsorted.push(entry);
            i = i + 1;
        }
        proof {
            assert forall|j: int| 0 <= j < n implies unsorted.deep_view()[j] == presented_service(
                catalog@,
                names.deep_view()[j],
            ) by {
                assert(unsorted.deep_view()[j] == unsorted@[j].deep_view());
            }
            lemma_entries_are_mapped(catalog@, names.deep_view(), unsorted.deep_view());
        }
        let sorted = sort_services(unsorted);
        Services { project_name: config.general.project_name.clone(), services: sorted }
    }
}

/// A list whose entry `j` presents the service named by key `j` is the
/// mapped service list itself.
proof fn lemma_entries_are_mapped(
    c: CatalogView,
    names: Seq<Seq<char>>,
    entries: Seq<PresentedServiceView>,
)
    requires
        names == c.services.map_values(|p: (Seq<char>, Seq<Seq<char>>)| p.0),
        entries.len() == names.len(),
        forall|j: int| 0 <= j < entries.len() ==> entries[j] == presented_service(c, names[j]),
    ensures
        entries == c.services.map_values(
            |p: (Seq<char>, Seq<Seq<char>>)| presented_service(c, p.0),
        ),
{
    let m = c.services.map_values(|p: (Seq<char>, Seq<Seq<char>>)| presented_service(c, p.0));
    assert forall|j: int| 0 <= j < entries.len() implies entries[j] == m[j] by {
        assert(names[j] == c.services[j].0);
        assert(m[j] == presented_service(c, c.services[j].0));
    }
    assert(entries =~= m);
}

/// Sorts presented services by name, keeping the multiset of entries.
#[verifier::loop_isolation(false)]
fn sort_services(v: Vec<Service>) -> (r: Vec<Service>)
    ensures
        r.deep_view().to_multiset() == v.deep_view().to_multiset(),
        sorted_by_name(r.deep_view()),
{
    let ghost dv = v.deep_view();
    let ghost orig = v@;
    let mut rest = v;
    let mut out: Vec<Service> = Vec::new();
    let total = rest.len();
    let mut k: usize = 0;
    proof {
        assert(rest@ =~= orig.skip(0));
        assert(orig.len() == total);
        assert(out.deep_view() =~= dv.take(0));
        assert(out.deep_view().to_multiset() =~= dv.take(0).to_multiset());
    }
    while rest.len() > 0
        invariant
            orig.len() <= usize::MAX,
            k + rest@.len() == orig.len(),
            rest@ == orig.skip(k as int),
            out@.len() == k,
            out.deep_view().to_multiset() == dv.take(k as int).to_multiset(),
            sorted_by_name(out.deep_view()),
        decreases rest@.len(),
    {
        proof {
            assert(rest@[0] == orig[k as int]);
        }
        let s = rest.remove(0);
        proof {
            assert(rest@ =~= orig.skip(k as int).drop_first());
            assert(orig.skip(k as int).drop_first() =~= orig.skip(k as int + 1));
            assert(s.deep_view() == dv[k as int]);
        }
        let ghost x = s.deep_view();
        let olen = out.len();
        let mut pos: usize = 0;
        while pos < olen && str_le(out[pos].name.as_str(), s.name.as_str())
            invariant
                olen == out@.len(),
                pos <= olen,
                forall|a: int|
                    0 <= a < pos ==> bytes_le(
                        utf8_bytes((#[trigger] out.deep_view()[a]).name),
                        utf8_bytes(x.name),
                    ),
            decreases olen - pos,
        {
            proof {
                assert(out.deep_view()[pos as int].name == out@[pos as int].name@);
            }
            pos = pos + 1;
        }
        proof {
            if pos < olen {
                assert(!bytes_le(
                    utf8_bytes(out.deep_view()[pos as int].name),
                    utf8_bytes(x.name),
                )) by {
                    assert(out.deep_view()[pos as int].name == out@[pos as int].name@);
                }
                lemma_bytes_le_total(
                    utf8_bytes(out.deep_view()[pos as int].name),
                    utf8_bytes(x.name),
                );
            }
        }
        let ghost prev = out.deep_view();
        let ghost prev_vals = out@;
        out.insert(pos, s);
        proof {
            prev.insert_ensures(pos as int, x);
            prev_vals.insert_ensures(pos as int, s);
            assert forall|j: int| 0 <= j < prev.len() + 1 implies out.deep_view()[j]
                == prev.insert(pos as int, x)[j] by {
                assert(out.deep_view()[j] == out@[j].deep_view());
                if j < pos as int {
                    assert(out@[j] == prev_vals[j]);
                    assert(prev[j] == prev_vals[j].deep_view());
                } else if j == pos as int {
                    assert(out@[j] == s);
                } else {
                    assert(out@[j] == prev_vals[j - 1]);
                    assert(prev[j - 1] == prev_vals[j - 1].deep_view());
                }
            }
            assert(out.deep_view() =~= prev.insert(pos as int, x));

            // Multiset: one more element of the input is placed.
            assert(dv.take(k as int + 1) =~= dv.take(k as int).push(dv[k as int]));
            assert(out.deep_view().to_multiset() == dv.take(k as int + 1).to_multiset());

            // Order: everything before the slot is at or below the new
            // entry, everything after is at or above it.
            let nv = out.deep_view();
            assert forall|a: int, b: int| 0 <= a < b < nv.len() implies bytes_le(
                utf8_bytes((#[trigger] nv[a]).name),
                utf8_bytes((#[trigger] nv[b]).name),
            ) by {
                let p = pos as int;
                if a < p && b == p {
                } else if a == p && b > p {
                    assert(nv[b] == prev[b - 1]);
                    if b - 1 > p {
                        assert(bytes_le(
                            utf8_bytes(prev[p].name),
                            utf8_bytes(prev[b - 1].name),
                        ));
                        lemma_bytes_le_trans(
                            utf8_bytes(x.name),
                            utf8_bytes(prev[p].name),
                            utf8_bytes(prev[b - 1].name),
                        );
                    }
                } else if a < p && b > p {
                    assert(nv[a] == prev[a]);
                    assert(nv[b] == prev[b - 1]);
                } else if a < p && b < p {
                    assert(nv[a] == prev[a]);
                    assert(nv[b] == prev[b]);
                } else {
                    assert(a > p || (a == p && b == p) || b < a || (a > p && b > p));
                    assert(nv[a] == prev[a - 1]);
                    assert(nv[b] == prev[b - 1]);
                }
            }
        }
        k = k + 1;
    }
    proof {
        assert(dv.take(k as int) =~= dv);
    }
    out
}

} // verus!
