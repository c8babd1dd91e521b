//! Configuration passed in by collaborators as plain values; the crate never
//! reads files itself.

use vstd::prelude::*;

verus! {

/// Settings for one invocation: project naming, backend addresses, template
/// locations, and per-service URL templates.
pub struct Config {
    pub general: General,
    pub consul: Consul,
    pub present: Present,
    pub services: Vec<(String, Vec<Service>)>,
}

/// General project settings.
pub struct General {
    pub project_name: String,
}

/// Where the discovery backend is reached.
pub struct Consul {
    pub urls: Vec<String>,
}

/// Template names and the directory they live in.
pub struct Present {
    pub templates: Vec<(String, String)>,
    pub template_dir: String,
}

/// A URL template registered for a service.
pub struct Service {
    pub name: String,
    pub url: String,
}

impl Default for Config {
    /// The built-in settings: a project called "Service World" served by a
    /// local backend, with no templates and no URL templates.
    fn default() -> (c: Config)
        ensures
            c.general.project_name@ == "Service World"@,
            c.consul.urls.deep_view() =~= seq!["http://localhost:8500"@],
            c.present.templates@ =~= Seq::<(String, String)>::empty(),
            c.present.template_dir@ == ""@,
            c.services@ =~= Seq::<(String, Vec<Service>)>::empty(),
    {
        let general = General { project_name: "Service World".to_owned() };
        let mut urls: Vec<String> = Vec::new();
        urls.push("http://localhost:8500".to_owned());
        let consul = Consul { urls };
        let present = Present { templates: Vec::new(), template_dir: "".to_owned() };
        let services: Vec<(String, Vec<Service>)> = Vec::new();
        Config { general, consul, present, services }
    }
}

} // verus!
