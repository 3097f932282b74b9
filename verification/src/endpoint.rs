use vstd::prelude::*;

use crate::endpoint_stats::EndpointStats;
use crate::endpoint_url::spec_url_scheme_ok;
use crate::endpoint_url::EndpointUrl;
use crate::text::string_vecs_equal;
use crate::text::views_of;
use crate::Alias;
use crate::Label;

verus! {

/// A named RPC target: where it listens, how it may be looked up, and
/// how healthy it has been.
#[derive(Debug)]
pub struct Endpoint {
    /// Name of the endpoint.
    pub name: String,

    /// Free-form tags, the owning registry's global labels included.
    pub labels: Vec<Label>,

    /// Alternate lookup keys.
    pub aliases: Vec<Alias>,

    /// Where the endpoint listens.
    pub url: EndpointUrl,

    /// Running health counters.
    pub stats: EndpointStats,
}

impl Endpoint {
    /// Identity of an endpoint: its name, labels and url. Aliases are
    /// lookup helpers and stats mutate over the endpoint's life, so
    /// neither takes part in equality or deduplication.
    pub open spec fn spec_identity_eq(self, other: Endpoint) -> bool {
        &&& self.name@ == other.name@
        &&& views_of(self.labels@) == views_of(other.labels@)
        &&& self.url.spec_eq(&other.url)
    }

    /// The same endpoint with other stats.
    pub open spec fn spec_with_stats(self, stats: EndpointStats) -> Endpoint {
        Endpoint { stats, ..self }
    }

    /// Construct an endpoint over an already-recognized scheme, with
    /// fresh all-zero stats.
    pub fn new(name: &str, url: &str, labels: Vec<Label>, aliases: Vec<Alias>) -> (r: Endpoint)
        requires
            spec_url_scheme_ok(url@),
        ensures
            r.name@ == name@,
            r.labels == labels,
            r.aliases == aliases,
            r.url.spec_text() == url@,
            r.url is Wss <==> crate::endpoint_url::spec_starts_with(url@, "wss://"@),
            r.url is Ws <==> crate::endpoint_url::spec_starts_with(url@, "ws://"@),
            r.url is Https <==> crate::endpoint_url::spec_starts_with(url@, "https://"@),
            r.url is Http <==> crate::endpoint_url::spec_starts_with(url@, "http://"@),
            r.stats == (EndpointStats { failures: 0, success: 0, latency: 0 }),
    {
        let parsed = match EndpointUrl::parse(url) {
            Ok(u) => u,
            Err(_) => {
                proof {
                    assert(false);
                }
                unreached()
            },
        };
        Endpoint {
            name: name.to_owned(),
            labels,
            aliases,
            url: parsed,
            stats: EndpointStats { failures: 0, success: 0, latency: 0 },
        }
    }

    /// Extend the label list, keeping what was there. Used to attach a
    /// registry's global labels to one of its endpoints; nothing is
    /// deduplicated.
    pub fn append_labels(&mut self, mut labels: Vec<Label>)
        ensures
            final(self).labels@ == old(self).labels@ + labels@,
            final(self).name == old(self).name,
            final(self).aliases == old(self).aliases,
            final(self).url == old(self).url,
            final(self).stats == old(self).stats,
    {
        self.labels.append(&mut labels);
    }
}

impl Clone for Endpoint {
    fn clone(&self) -> (r: Self)
        ensures
            r.name == self.name,
            r.labels@ == self.labels@,
            r.aliases@ == self.aliases@,
            r.url == self.url,
            r.stats == self.stats,
    {
        let r = Endpoint {
            name: self.name.clone(),
            labels: self.labels.clone(),
            aliases: self.aliases.clone(),
            url: self.url.clone(),
            stats: self.stats,
        };
        proof {
            assert(r.labels@ =~= self.labels@);
            assert(r.aliases@ =~= self.aliases@);
        }
        r
    }
}

impl PartialEq for Endpoint {
    fn eq(&self, other: &Self) -> (r: bool) {
        let r = self.name == other.name && string_vecs_equal(&self.labels, &other.labels)
            && self.url == other.url;
        r
    }
}

impl Eq for Endpoint {}

impl vstd::std_specs::cmp::PartialEqSpecImpl for Endpoint {
    open spec fn obeys_eq_spec() -> bool {
        true
    }

    open spec fn eq_spec(&self, other: &Endpoint) -> bool {
        self.spec_identity_eq(*other)
    }
}

/// True when some endpoint of `s` has the identity of `e`.
pub open spec fn spec_contains_identity(s: Seq<Endpoint>, e: Endpoint) -> bool {
    exists|k: int| 0 <= k < s.len() && s[k].spec_identity_eq(e)
}

/// Two endpoints that agree on name, labels and url are the same
/// endpoint, however their stats differ.
pub proof fn lemma_identity_ignores_stats(e1: Endpoint, e2: Endpoint)
    requires
        e1.name@ == e2.name@,
        views_of(e1.labels@) == views_of(e2.labels@),
        e1.url.spec_eq(&e2.url),
    ensures
        e1.spec_identity_eq(e2),
{
}

/// Changing only the stats of an endpoint never changes whether a set
/// of endpoints holds its identity.
pub proof fn lemma_membership_ignores_stats(s: Seq<Endpoint>, e: Endpoint, stats: EndpointStats)
    ensures
        spec_contains_identity(s, e) == spec_contains_identity(s, e.spec_with_stats(stats)),
{
    if spec_contains_identity(s, e) {
        let k = choose|k: int| 0 <= k < s.len() && s[k].spec_identity_eq(e);
        assert(s[k].spec_identity_eq(e.spec_with_stats(stats)));
    }
    if spec_contains_identity(s, e.spec_with_stats(stats)) {
        let k = choose|k: int| 0 <= k < s.len() && s[k].spec_identity_eq(e.spec_with_stats(stats));
        assert(s[k].spec_identity_eq(e));
    }
}

} // verus!
