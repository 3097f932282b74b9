use vstd::prelude::*;

use crate::endpoint::Endpoint;
use crate::json::sp_registry_doc;
use crate::registry::spec_ep_eqv;
use crate::registry::spec_updated_from_doc;
use crate::registry::spec_updated_registry;
use crate::registry::Registry;
use crate::text::spec_lower_seq;
use crate::text::str_eq;
use crate::ChainName;

verus! {

/// The root aggregate: every known registry, where the data lives on
/// disk, and when it was last refreshed. The whole tree is persisted as
/// one JSON document.
#[derive(Debug)]
pub struct LocalData {
    /// Where the data is stored, as the caller resolved it.
    pub file: String,

    /// The registries the endpoints are pulled from, each keyed by its
    /// own name.
    pub registries: Vec<Registry>,

    /// When the data was last refreshed, as ISO-8601 text.
    pub last_update: Option<String>,
}

/// True when the optional chain constraint accepts a chain name,
/// case-insensitively.
pub open spec fn spec_chain_wanted(co: Option<Seq<char>>, chain: Seq<char>) -> bool {
    match co {
        None => true,
        Some(c) => spec_lower_seq(c) == spec_lower_seq(chain),
    }
}

/// Every endpoint of every bucket of `buckets` whose chain the
/// constraint accepts, in bucket order.
pub open spec fn spec_collect_buckets(
    buckets: Seq<(ChainName, Vec<Endpoint>)>,
    co: Option<Seq<char>>,
) -> Seq<Endpoint>
    decreases buckets.len(),
{
    if buckets.len() == 0 {
        Seq::empty()
    } else {
        spec_collect_buckets(buckets.drop_last(), co) + (if spec_chain_wanted(
            co,
            buckets.last().0@,
        ) {
            buckets.last().1@
        } else {
            Seq::empty()
        })
    }
}

/// Every endpoint of every enabled registry of `regs` whose chain the
/// constraint accepts, in registry order.
pub open spec fn spec_collect_registries(regs: Seq<Registry>, co: Option<Seq<char>>) -> Seq<
    Endpoint,
>
    decreases regs.len(),
{
    if regs.len() == 0 {
        Seq::empty()
    } else {
        spec_collect_registries(regs.drop_last(), co) + (if regs.last().enabled {
            spec_collect_buckets(regs.last().rpc_endpoints@, co)
        } else {
            Seq::empty()
        })
    }
}

/// How an optional chain constraint reads in contracts.
pub open spec fn chain_opt_view(chain: Option<&str>) -> Option<Seq<char>> {
    match chain {
        None => None,
        Some(c) => Some(c@),
    }
}

impl LocalData {
    /// The names of the registries, in storage order.
    pub open spec fn spec_names(self) -> Seq<Seq<char>> {
        self.registries@.map_values(|r: Registry| r.name@)
    }

    /// Well-formed: every registry is keyed by its own name, so no name
    /// owns two registries.
    pub open spec fn wf(self) -> bool {
        forall|i: int, j: int|
            0 <= i < j < self.spec_names().len() ==> self.spec_names()[i] != self.spec_names()[j]
    }

    /// A fresh store at the given location, with no registries and no
    /// refresh stamp.
    pub fn new(file: &str) -> (r: LocalData)
        ensures
            r.file@ == file@,
            r.registries@.len() == 0,
            r.last_update is None,
            r.wf(),
    {
        LocalData { file: file.to_owned(), registries: Vec::new(), last_update: None }
    }

    /// The position of the registry stored under exactly this name, if
    /// one exists.
    pub fn find_registry(&self, name: &str) -> (r: Option<usize>)
        ensures
            match r {
                Some(i) => i < self.registries@.len() && self.spec_names()[i as int] == name@,
                None => !self.spec_names().contains(name@),
            },
    {
        let n = self.registries.len();
        let mut i: usize = 0;
        while i < n
            invariant
                0 <= i <= n,
                n == self.registries@.len(),
                forall|k: int| 0 <= k < i ==> self.spec_names()[k] != name@,
            decreases n - i,
        {
            if str_eq(self.registries[i].name.as_str(), name) {
                return Some(i);
            }
            i += 1;
        }
        proof {
            if self.spec_names().contains(name@) {
                let k = choose|k: int|
                    0 <= k < self.spec_names().len() && self.spec_names()[k] == name@;
                assert(self.spec_names()[k] == name@);
            }
        }
        None
    }

    /// Insert a registry, keyed by its own name. A registry of the same
    /// name is overwritten in place: this is the update path and the
    /// sole uniqueness enforcement. Key and name cannot drift apart,
    /// because the key is always read off the value.
    pub fn add_registry(self, registry: Registry) -> (r: LocalData)
        ensures
            r.file == self.file,
            r.last_update == self.last_update,
            ({
                let names = self.spec_names();
                if names.contains(registry.name@) {
                    &&& r.registries@.len() == self.registries@.len()
                    &&& exists|i: int|
                        {
                            &&& 0 <= i < names.len()
                            &&& names[i] == registry.name@
                            &&& (#[trigger] r.registries@[i]) == registry
                            &&& forall|k: int|
                                0 <= k < names.len() && k != i ==> #[trigger] r.registries@[k]
                                    == self.registries@[k]
                        }
                } else {
                    &&& r.registries@ == self.registries@.push(registry)
                }
            }),
            self.wf() ==> r.wf(),
    {
        let mut data = self;
        match data.find_registry(registry.name.as_str()) {
            Some(i) => {
                let ghost before = data.registries@;
                let _ = data.registries.remove(i);
                data.registries.insert(i, registry);
                proof {
                    assert(data.registries@.len() == before.len());
                    assert(data.registries@[i as int] == registry);
                    assert forall|k: int|
                        0 <= k < before.len() && k != i implies (#[trigger] data.registries@[k])
                        == before[k] by {}
                    assert(data.spec_names() =~= old_names_updated(before, i as int, registry));
                    assert forall|a: int, b: int|
                        0 <= a < b < data.spec_names().len() && self.wf() implies data.spec_names()[a]
                        != data.spec_names()[b] by {
                        if a != i && b != i {
                            assert(data.registries@[a] == before[a]);
                            assert(data.registries@[b] == before[b]);
                        } else if a == i {
                            assert(data.registries@[b] == before[b]);
                            assert(data.spec_names()[a] == before.map_values(
                                |r: Registry| r.name@,
                            )[i as int]);
                        } else {
                            assert(data.registries@[a] == before[a]);
                            assert(data.spec_names()[b] == before.map_values(
                                |r: Registry| r.name@,
                            )[i as int]);
                        }
                    }
                }
                data
            },
            None => {
                let ghost before = data.registries@;
                let ghost regname = registry.name@;
                data.registries.push(registry);
                proof {
                    assert forall|a: int, b: int|
                        0 <= a < b < data.spec_names().len() && self.wf() implies data.spec_names()[a]
                        != data.spec_names()[b] by {
                        if b == before.len() as int {
                            assert(data.registries@[a] == before[a]);
                            assert(data.registries@[b] == registry);
                            assert(data.spec_names()[b] == regname);
                            assert(data.spec_names()[a] == before[a].name@);
                            assert(!self.spec_names().contains(regname));
                            assert(self.spec_names()[a] == before[a].name@);
                            assert(self.spec_names()[a] != regname);
                        } else {
                            assert(data.registries@[a] == before[a]);
                            assert(data.registries@[b] == before[b]);
                            assert(data.spec_names()[a] == before[a].name@);
                            assert(data.spec_names()[b] == before[b].name@);
                            assert(self.spec_names()[a] == before[a].name@);
                            assert(self.spec_names()[b] == before[b].name@);
                        }
                    }
                }
                data
            },
        }
    }

    /// Every endpoint of every enabled registry, kept when no chain is
    /// named, or when its chain matches the named one case-insensitively.
    /// Per-registry order is preserved and nothing is deduplicated: two
    /// registries advertising the same endpoint yield it twice. An
    /// unknown chain yields an empty list, never an error.
    #[verifier::loop_isolation(false)]
    pub fn get_endpoints(&self, chain: Option<&str>) -> (r: Vec<Endpoint>)
        ensures
            r@.len() == spec_collect_registries(self.registries@, chain_opt_view(chain)).len(),
            forall|k: int|
                0 <= k < r@.len() ==> spec_ep_eqv(
                    #[trigger] r@[k],
                    spec_collect_registries(self.registries@, chain_opt_view(chain))[k],
                ),
    {
        let ghost co = chain_opt_view(chain);
        let mut out: Vec<Endpoint> = Vec::new();
        let n = self.registries.len();
        let mut i: usize = 0;
        while i < n
            invariant
                0 <= i <= n,
                n == self.registries@.len(),
                out@.len() == spec_collect_registries(self.registries@.take(i as int), co).len(),
                forall|k: int|
                    0 <= k < out@.len() ==> spec_ep_eqv(
                        #[trigger] out@[k],
                        spec_collect_registries(self.registries@.take(i as int), co)[k],
                    ),
            decreases n - i,
        {
            let reg = &self.registries[i];
            let ghost taken = self.registries@.take(i as int + 1);
            proof {
                assert(taken.drop_last() =~= self.registries@.take(i as int));
                assert(taken.last() == self.registries@[i as int]);
            }
            if reg.enabled {
                let m = reg.rpc_endpoints.len();
                let mut b: usize = 0;
                while b < m
                    invariant
                        0 <= b <= m,
                        0 <= i < n,
                        n == self.registries@.len(),
                        m == reg.rpc_endpoints@.len(),
                        reg == &self.registries@[i as int],
                        reg.enabled,
                        out@.len() == spec_collect_registries(self.registries@.take(i as int), co).len()
                            + spec_collect_buckets(reg.rpc_endpoints@.take(b as int), co).len(),
                        forall|k: int|
                            0 <= k < out@.len() ==> spec_ep_eqv(
                                #[trigger] out@[k],
                                (spec_collect_registries(self.registries@.take(i as int), co)
                                    + spec_collect_buckets(
                                    reg.rpc_endpoints@.take(b as int),
                                    co,
                                ))[k],
                            ),
                    decreases m - b,
                {
                    let bucket = &reg.rpc_endpoints[b];
                    let ghost btaken = reg.rpc_endpoints@.take(b as int + 1);
                    proof {
                        assert(btaken.drop_last() =~= reg.rpc_endpoints@.take(b as int));
                        assert(btaken.last() == reg.rpc_endpoints@[b as int]);
                    }
                    let wanted = match chain {
                        None => true,
                        Some(c) => crate::text::eq_ignore_ascii_case(bucket.0.as_str(), c),
                    };
                    if wanted {
                        let t = bucket.1.len();
                        let mut j: usize = 0;
                        while j < t
                            invariant
                                0 <= j <= t,
                                0 <= b < m,
                                0 <= i < n,
                                n == self.registries@.len(),
                                m == reg.rpc_endpoints@.len(),
                                reg == &self.registries@[i as int],
                                bucket == &reg.rpc_endpoints@[b as int],
                                t == bucket.1@.len(),
                                out@.len() == spec_collect_registries(
                                    self.registries@.take(i as int),
                                    co,
                                ).len() + spec_collect_buckets(
                                    reg.rpc_endpoints@.take(b as int),
                                    co,
                                ).len() + j,
                                forall|k: int|
                                    0 <= k < out@.len() ==> spec_ep_eqv(
                                        #[trigger] out@[k],
                                        (spec_collect_registries(
                                            self.registries@.take(i as int),
                                            co,
                                        ) + spec_collect_buckets(
                                            reg.rpc_endpoints@.take(b as int),
                                            co,
                                        ) + bucket.1@.take(j as int))[k],
                                    ),
                            decreases t - j,
                        {
                            out.push(bucket.1[j].clone());
                            proof {
                                assert(bucket.1@.take(j as int + 1) =~= bucket.1@.take(
                                    j as int,
                                ).push(bucket.1@[j as int]));
                            }
                            j += 1;
                        }
                        proof {
                            assert(bucket.1@.take(t as int) =~= bucket.1@);
                            assert(spec_chain_wanted(co, btaken.last().0@));
                            assert(spec_collect_buckets(btaken, co) == spec_collect_buckets(
                                btaken.drop_last(),
                                co,
                            ) + btaken.last().1@);
                            assert(spec_collect_buckets(btaken.drop_last(), co)
                                == spec_collect_buckets(reg.rpc_endpoints@.take(b as int), co));
                            assert(btaken.last().1@ == bucket.1@);
                        }
                    } else {
                        proof {
                            assert(!spec_chain_wanted(co, btaken.last().0@));
                            assert(spec_collect_buckets(btaken, co) == spec_collect_buckets(
                                btaken.drop_last(),
                                co,
                            ) + Seq::<Endpoint>::empty());
                            assert(spec_collect_buckets(btaken, co) =~= spec_collect_buckets(
                                btaken.drop_last(),
                                co,
                            ));
                            assert(spec_collect_buckets(btaken.drop_last(), co)
                                == spec_collect_buckets(reg.rpc_endpoints@.take(b as int), co));
                        }
                    }
                    b += 1;
                }
                proof {
                    assert(reg.rpc_endpoints@.take(m as int) =~= reg.rpc_endpoints@);
                    assert(taken.last().enabled);
                    assert(spec_collect_registries(taken, co) == spec_collect_registries(
                        taken.drop_last(),
                        co,
                    ) + spec_collect_buckets(taken.last().rpc_endpoints@, co));
                    assert(spec_collect_registries(taken.drop_last(), co)
                        == spec_collect_registries(self.registries@.take(i as int), co));
                    assert(taken.last().rpc_endpoints@ == reg.rpc_endpoints@);
                }
            } else {
                proof {
                    assert(!taken.last().enabled);
                    assert(spec_collect_registries(taken, co) == spec_collect_registries(
                        taken.drop_last(),
                        co,
                    ) + Seq::<Endpoint>::empty());
                    assert(spec_collect_registries(taken, co) =~= spec_collect_registries(
                        taken.drop_last(),
                        co,
                    ));
                    assert(spec_collect_registries(taken.drop_last(), co)
                        == spec_collect_registries(self.registries@.take(i as int), co));
                }
            }
            i += 1;
        }
        proof {
            assert(self.registries@.take(n as int) =~= self.registries@);
        }
        out
    }
}

/// The names of `regs` with position `i` renamed to the new registry's
/// name.
pub open spec fn old_names_updated(regs: Seq<Registry>, i: int, registry: Registry) -> Seq<
    Seq<char>,
> {
    regs.map_values(|r: Registry| r.name@).update(i, registry.name@)
}

/// How the fetched bodies read in contracts.
pub open spec fn fetches_view(fetched: Seq<Option<String>>) -> Seq<Option<Seq<char>>> {
    fetched.map_values(
        |o: Option<String>|
            match o {
                None => None,
                Some(s) => Some(s@),
            },
    )
}

/// Relies on chrono's `Local::now`, rendered by `to_rfc3339`: the moment
/// the machine's clock reads, as ISO-8601 text. Nothing can be promised
/// of which moment that is.
#[verifier::external_body]
fn now_rfc3339() -> String {
    chrono::Local::now().to_rfc3339()
}

impl LocalData {
    /// Fold one fetch outcome per registry into the store, positionally:
    /// `fetched[i]` is what the caller's fetch of registry `i` returned,
    /// `None` where the registry was skipped or the fetch failed. Each
    /// registry takes exactly one update pass — one registry's failure
    /// never touches its siblings — and the store is stamped with the
    /// present moment. Failures are not propagated: a listing after a
    /// partial refresh still shows every registry.
    pub fn refresh(self, fetched: &Vec<Option<String>>) -> (r: LocalData)
        requires
            fetched@.len() == self.registries@.len(),
        ensures
            r.file == self.file,
            r.last_update is Some,
            r.registries@.len() == self.registries@.len(),
            forall|i: int|
                0 <= i < self.registries@.len() ==> spec_updated_registry(
                    self.registries@[i],
                    #[trigger] r.registries@[i],
                    fetches_view(fetched@)[i],
                ),
            forall|i: int|
                0 <= i < self.registries@.len() ==> (#[trigger] r.registries@[i]).name
                    == self.registries@[i].name,
            self.wf() ==> r.wf(),
    {
        let mut data = self;
        let ghost before = data.registries@;
        let n = data.registries.len();
        let mut regs = data.registries;
        let mut done: Vec<Registry> = Vec::new();
        let mut i: usize = 0;
        while i < n
            invariant
                0 <= i <= n,
                n == before.len(),
                fetched@.len() == n,
                regs@ =~= before.subrange(i as int, n as int),
                done@.len() == i,
                forall|k: int|
                    0 <= k < i ==> spec_updated_registry(
                        before[k],
                        #[trigger] done@[k],
                        fetches_view(fetched@)[k],
                    ),
                forall|k: int|
                    0 <= k < i ==> (#[trigger] done@[k]).name == before[k].name,
            decreases n - i,
        {
            let mut reg = regs.remove(0);
            proof {
                assert(reg == before[i as int]);
            }
            // The per-registry result is deliberately dropped: one
            // registry's failure never aborts its siblings' refresh.
            let _ = match &fetched[i] {
                None => reg.update(None),
                Some(t) => reg.update(Some(t.as_str())),
            };
            proof {
                assert(fetches_view(fetched@)[i as int] == (match fetched@[i as int] {
                    None => None::<Seq<char>>,
                    Some(s) => Some(s@),
                }));
                assert(spec_updated_registry(
                    before[i as int],
                    reg,
                    fetches_view(fetched@)[i as int],
                ));
                assert(reg.name == before[i as int].name);
            }
            done.push(reg);
            proof {
                assert(regs@ =~= before.subrange(i as int + 1, n as int));
            }
            i += 1;
        }
        data.registries = done;
        data.last_update = Some(now_rfc3339());
        proof {
            assert forall|a: int, b: int|
                0 <= a < b < data.spec_names().len() && self.wf() implies data.spec_names()[a]
                != data.spec_names()[b] by {
                assert(data.registries@[a].name == before[a].name);
                assert(data.registries@[b].name == before[b].name);
                assert(data.spec_names()[a] == before[a].name@);
                assert(data.spec_names()[b] == before[b].name@);
                assert(self.spec_names()[a] == before[a].name@);
                assert(self.spec_names()[b] == before[b].name@);
            }
        }
        data
    }
}

/// One registry's unreachable document never touches its siblings: in
/// one refresh pass, the registry whose fetch failed keeps its previous
/// endpoint set whole, while a sibling whose fetch returned a
/// well-formed document is updated from it. That the pass still stamps
/// `last_update` stands in `refresh`'s own contract.
pub proof fn lemma_refresh_isolates_failures(
    pre_bad: Registry,
    post_bad: Registry,
    pre_good: Registry,
    post_good: Registry,
    t: Seq<char>,
)
    requires
        spec_updated_registry(pre_bad, post_bad, None),
        spec_updated_registry(pre_good, post_good, Some(t)),
        pre_good.enabled,
        pre_good.url is Some,
        sp_registry_doc(t) is Some,
    ensures
        post_bad == pre_bad,
        spec_updated_from_doc(pre_good, post_good, sp_registry_doc(t)->0.buckets),
{
}

} // verus!
