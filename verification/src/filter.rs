use vstd::prelude::*;

use crate::endpoint::Endpoint;
use crate::text::spec_contains_ci;
use crate::text::spec_lower_seq;
use crate::text::vec_contains_string;
use crate::text::vec_contains_string_ci;
use crate::text::views_of;
use crate::Label;

verus! {

/// The transport an endpoint speaks, as a filter may request it.
#[derive(Debug, Clone, Copy, PartialEq, Eq, Structural)]
pub enum EndpointType {
    Http,
    WebSocket,
    All,
}

impl EndpointType {
    /// The short display form of this transport.
    pub fn text(&self) -> (r: String)
        ensures
            r@ == self.spec_text(),
    {
        match self {
            EndpointType::Http => "http".to_owned(),
            EndpointType::WebSocket => "ws".to_owned(),
            EndpointType::All => "http/ws".to_owned(),
        }
    }

    /// The short display form of this transport.
    pub open spec fn spec_text(&self) -> Seq<char> {
        match self {
            EndpointType::Http => "http"@,
            EndpointType::WebSocket => "ws"@,
            EndpointType::All => "http/ws"@,
        }
    }
}

/// A declarative query over endpoints. Every field is optional; an
/// absent field constrains nothing. The predicates compose by
/// conjunction and read one endpoint at a time, so a selection may be
/// evaluated in any order, or in parallel.
#[derive(Debug)]
pub struct Filter {
    /// Select a chain by name, case-insensitively.
    pub chain: Option<String>,

    /// Select endpoints carrying this alias, case-insensitively.
    pub alias: Option<String>,

    /// Labels an endpoint must all carry.
    pub includes: Option<Vec<Label>>,

    /// Labels an endpoint must carry none of.
    pub excludes: Option<Vec<Label>>,

    /// Whether the secure transport is wanted. Descriptive: it names
    /// the transport in display form and selects nothing.
    pub ssl: Option<bool>,

    /// Which transport is wanted. Descriptive, as `ssl` is.
    pub endpoint_type: Option<EndpointType>,
}

/// True when the filter's chain constraint accepts the chain name the
/// endpoint is stored under.
pub open spec fn spec_chain_pred(f: Filter, chain: Seq<char>) -> bool {
    match f.chain {
        None => true,
        Some(c) => spec_lower_seq(c@) == spec_lower_seq(chain),
    }
}

/// True when the filter's alias constraint accepts the endpoint.
pub open spec fn spec_alias_pred(f: Filter, e: Endpoint) -> bool {
    match f.alias {
        None => true,
        Some(a) => spec_contains_ci(views_of(e.aliases@), a@),
    }
}

/// True when the endpoint carries every required label.
pub open spec fn spec_includes_pred(f: Filter, e: Endpoint) -> bool {
    match f.includes {
        None => true,
        Some(inc) => forall|k: int|
            0 <= k < inc@.len() ==> views_of(e.labels@).contains(#[trigger] inc@[k]@),
    }
}

/// True when the endpoint carries none of the forbidden labels.
pub open spec fn spec_excludes_pred(f: Filter, e: Endpoint) -> bool {
    match f.excludes {
        None => true,
        Some(exc) => forall|k: int|
            0 <= k < exc@.len() ==> !views_of(e.labels@).contains(#[trigger] exc@[k]@),
    }
}

/// The whole selection predicate: chain, alias, includes and excludes,
/// conjoined. The transport fields take no part: they are display
/// metadata, not selection criteria.
pub open spec fn spec_matches(f: Filter, e: Endpoint, chain: Seq<char>) -> bool {
    &&& spec_chain_pred(f, chain)
    &&& spec_alias_pred(f, e)
    &&& spec_includes_pred(f, e)
    &&& spec_excludes_pred(f, e)
}

impl Filter {
    /// An unconstrained filter, but for the default transport, which is
    /// WebSocket.
    pub fn new() -> (r: Filter)
        ensures
            r.chain is None,
            r.alias is None,
            r.includes is None,
            r.excludes is None,
            r.ssl is None,
            r.endpoint_type == Some(EndpointType::WebSocket),
    {
        Filter {
            chain: None,
            alias: None,
            includes: None,
            excludes: None,
            ssl: None,
            endpoint_type: Some(EndpointType::WebSocket),
        }
    }

    /// The same filter, constrained to one chain.
    pub fn with_chain(self, chain: &str) -> (r: Filter)
        ensures
            match r.chain {
                Some(c) => c@ == chain@,
                None => false,
            },
            r.alias == self.alias,
            r.includes == self.includes,
            r.excludes == self.excludes,
            r.ssl == self.ssl,
            r.endpoint_type == self.endpoint_type,
    {
        Filter { chain: Some(chain.to_owned()), ..self }
    }

    /// The same filter, constrained to one alias.
    pub fn with_alias(self, alias: &str) -> (r: Filter)
        ensures
            match r.alias {
                Some(a) => a@ == alias@,
                None => false,
            },
            r.chain == self.chain,
            r.includes == self.includes,
            r.excludes == self.excludes,
            r.ssl == self.ssl,
            r.endpoint_type == self.endpoint_type,
    {
        Filter { alias: Some(alias.to_owned()), ..self }
    }

    /// The same filter, requiring every one of `includes`.
    pub fn with_includes(self, includes: Vec<Label>) -> (r: Filter)
        ensures
            r.includes == Some(includes),
            r.chain == self.chain,
            r.alias == self.alias,
            r.excludes == self.excludes,
            r.ssl == self.ssl,
            r.endpoint_type == self.endpoint_type,
    {
        Filter { includes: Some(includes), ..self }
    }

    /// The same filter, forbidding every one of `excludes`.
    pub fn with_excludes(self, excludes: Vec<Label>) -> (r: Filter)
        ensures
            r.excludes == Some(excludes),
            r.chain == self.chain,
            r.alias == self.alias,
            r.includes == self.includes,
            r.ssl == self.ssl,
            r.endpoint_type == self.endpoint_type,
    {
        Filter { excludes: Some(excludes), ..self }
    }

    /// The same filter, asking for the secure transport (or the plain
    /// one, with `false`).
    pub fn with_ssl(self, ssl: bool) -> (r: Filter)
        ensures
            r.ssl == Some(ssl),
            r.chain == self.chain,
            r.alias == self.alias,
            r.includes == self.includes,
            r.excludes == self.excludes,
            r.endpoint_type == self.endpoint_type,
    {
        Filter { ssl: Some(ssl), ..self }
    }

    /// The same filter, asking for one transport kind.
    pub fn with_endpoint_type(self, endpoint_type: EndpointType) -> (r: Filter)
        ensures
            r.endpoint_type == Some(endpoint_type),
            r.chain == self.chain,
            r.alias == self.alias,
            r.includes == self.includes,
            r.excludes == self.excludes,
            r.ssl == self.ssl,
    {
        Filter { endpoint_type: Some(endpoint_type), ..self }
    }

    /// The display form of the requested transport.
    pub fn get_transport(&self) -> (r: String)
        ensures
            r@ == self.spec_transport(),
    {
        let secure = match self.ssl {
            Some(s) => s,
            None => false,
        };
        match (&self.endpoint_type, secure) {
            (Some(EndpointType::Http), true) => "https".to_owned(),
            (Some(EndpointType::Http), false) => "http".to_owned(),
            (Some(EndpointType::WebSocket), true) => "wss".to_owned(),
            (Some(EndpointType::WebSocket), false) => "ws".to_owned(),
            (Some(EndpointType::All), true) => "http/wss".to_owned(),
            (Some(EndpointType::All), false) => "http/ws".to_owned(),
            (None, true) => "Nones".to_owned(),
            (None, false) => "None".to_owned(),
        }
    }

    /// The display form of the requested transport: the transport kind
    /// (or `None`), with `s` appended when the secure flag is set.
    pub open spec fn spec_transport(&self) -> Seq<char> {
        let secure = self.ssl == Some(true);
        match (self.endpoint_type, secure) {
            (Some(EndpointType::Http), true) => "https"@,
            (Some(EndpointType::Http), false) => "http"@,
            (Some(EndpointType::WebSocket), true) => "wss"@,
            (Some(EndpointType::WebSocket), false) => "ws"@,
            (Some(EndpointType::All), true) => "http/wss"@,
            (Some(EndpointType::All), false) => "http/ws"@,
            (None, true) => "Nones"@,
            (None, false) => "None"@,
        }
    }

    /// Whether this filter selects the endpoint, stored under the chain
    /// named `chain`. Pure: no field of the filter or the endpoint is
    /// touched, and no endpoint's answer depends on another's.
    pub fn matches(&self, e: &Endpoint, chain: &str) -> (r: bool)
        ensures
            r == spec_matches(*self, *e, chain@),
    {
        let chain_ok = match &self.chain {
            None => true,
            Some(c) => crate::text::eq_ignore_ascii_case(c.as_str(), chain),
        };
        if !chain_ok {
            return false;
        }
        let alias_ok = match &self.alias {
            None => true,
            Some(a) => vec_contains_string_ci(&e.aliases, a.as_str()),
        };
        if !alias_ok {
            return false;
        }
        let includes_ok = match &self.includes {
            None => true,
            Some(inc) => labels_all_present(&e.labels, inc),
        };
        if !includes_ok {
            return false;
        }
        match &self.excludes {
            None => true,
            Some(exc) => labels_none_present(&e.labels, exc),
        }
    }
}

impl Default for Filter {
    /// The same value `new` builds.
    fn default() -> (r: Filter)
        ensures
            r.chain is None,
            r.alias is None,
            r.includes is None,
            r.excludes is None,
            r.ssl is None,
            r.endpoint_type == Some(EndpointType::WebSocket),
    {
        Filter::new()
    }
}

/// True when every label of `wanted` occurs in `labels`.
fn labels_all_present(labels: &Vec<Label>, wanted: &Vec<Label>) -> (r: bool)
    ensures
        r == forall|k: int|
            0 <= k < wanted@.len() ==> views_of(labels@).contains(#[trigger] wanted@[k]@),
{
    let n = wanted.len();
    let mut i: usize = 0;
    while i < n
        invariant
            0 <= i <= n,
            n == wanted@.len(),
            forall|k: int| 0 <= k < i ==> views_of(labels@).contains(#[trigger] wanted@[k]@),
        decreases n - i,
    {
        if !vec_contains_string(labels, &wanted[i]) {
            return false;
        }
        i += 1;
    }
    true
}

/// True when no label of `banned` occurs in `labels`.
fn labels_none_present(labels: &Vec<Label>, banned: &Vec<Label>) -> (r: bool)
    ensures
        r == forall|k: int|
            0 <= k < banned@.len() ==> !views_of(labels@).contains(#[trigger] banned@[k]@),
{
    let n = banned.len();
    let mut i: usize = 0;
    while i < n
        invariant
            0 <= i <= n,
            n == banned@.len(),
            forall|k: int| 0 <= k < i ==> !views_of(labels@).contains(#[trigger] banned@[k]@),
        decreases n - i,
    {
        if vec_contains_string(labels, &banned[i]) {
            return false;
        }
        i += 1;
    }
    true
}

/// With empty include and exclude sets the filter selects exactly what
/// chain and alias filtering alone select.
pub proof fn lemma_empty_sets_select_as_chain_alias_alone(
    f: Filter,
    inc: Vec<Label>,
    exc: Vec<Label>,
    e: Endpoint,
    chain: Seq<char>,
)
    requires
        inc@.len() == 0,
        exc@.len() == 0,
    ensures
        spec_matches((Filter { includes: Some(inc), excludes: Some(exc), ..f }), e, chain)
            == spec_matches((Filter { includes: None, excludes: None, ..f }), e, chain),
{
}

/// Forbidding a label the endpoint does not carry changes nothing of
/// whether it is selected; over a fixed endpoint set, the selection is
/// unchanged.
pub proof fn lemma_exclude_absent_label_no_change(
    f: Filter,
    exc2: Vec<Label>,
    l: Label,
    e: Endpoint,
    chain: Seq<char>,
)
    requires
        match f.excludes {
            Some(exc) => exc2@ == exc@.push(l),
            None => exc2@ =~= seq![l],
        },
        !views_of(e.labels@).contains(l@),
    ensures
        spec_matches((Filter { excludes: Some(exc2), ..f }), e, chain) == spec_matches(
            f,
            e,
            chain,
        ),
{
    let f2 = Filter { excludes: Some(exc2), ..f };
    assert(f2.excludes == Some(exc2));
    assert(f2.excludes->0 == exc2);
    match f.excludes {
        Some(exc) => {
            assert(exc2@.len() == exc@.len() + 1);
            assert forall|k: int| 0 <= k < exc@.len() implies exc2@[k] == exc@[k] by {}
            if spec_excludes_pred(f, e) {
                assert forall|k: int|
                    0 <= k < exc2@.len() implies !views_of(e.labels@).contains(
                    #[trigger] exc2@[k]@,
                ) by {
                    if k < exc@.len() {
                        assert(exc2@[k] == exc@[k]);
                    } else {
                        assert(exc2@[k] == l);
                    }
                }
            }
            if spec_excludes_pred(f2, e) {
                assert forall|k: int|
                    0 <= k < exc@.len() implies !views_of(e.labels@).contains(
                    #[trigger] exc@[k]@,
                ) by {
                    assert(0 <= k < exc2@.len());
                    assert(exc2@[k] == exc@[k]);
                    assert(!views_of(e.labels@).contains(exc2@[k]@));
                }
            }
        },
        None => {
            if spec_chain_pred(f, chain) && spec_alias_pred(f, e) && spec_includes_pred(f, e) {
                assert forall|k: int|
                    0 <= k < exc2@.len() implies !views_of(e.labels@).contains(
                    #[trigger] exc2@[k]@,
                ) by {
                    assert(exc2@[k] == l);
                }
            }
        },
    }
}

/// Forbidding a label the endpoint carries deselects it; over an
/// endpoint set in which every endpoint carries the label, the
/// selection is emptied.
pub proof fn lemma_exclude_common_label_empties(f: Filter, l: Seq<char>, e: Endpoint, chain: Seq<char>)
    requires
        match f.excludes {
            Some(exc) => views_of(exc@).contains(l),
            None => false,
        },
        views_of(e.labels@).contains(l),
    ensures
        !spec_matches(f, e, chain),
{
    let exc = f.excludes->0;
    let k = choose|k: int| 0 <= k < views_of(exc@).len() && views_of(exc@)[k] == l;
    assert(exc@[k]@ == l);
}

} // verus!
