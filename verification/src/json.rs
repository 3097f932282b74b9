//! The wire and storage form of the directory: a small JSON dialect,
//! printed and parsed by the library itself so that both directions are
//! verified. Latency is carried as decimal seconds with millisecond
//! precision; no floating point is involved anywhere.

use vstd::prelude::*;

use crate::endpoint::Endpoint;
use crate::endpoint_stats::EndpointStats;
use crate::local_data::LocalData;
use crate::registry::Registry;
use crate::text::views_of;
use crate::ChainName;

verus! {

// ---------------------------------------------------------------------
// Views: what a stored tree looks like to the specifications.
// ---------------------------------------------------------------------
/// An endpoint, as text: its url is the bare text, the scheme tag being
/// derived from it.
pub struct EndpointV {
    pub name: Seq<char>,
    pub labels: Seq<Seq<char>>,
    pub aliases: Seq<Seq<char>>,
    pub url: Seq<char>,
    pub stats: EndpointStats,
}

/// A registry, as text.
pub struct RegistryV {
    pub enabled: bool,
    pub name: Seq<char>,
    pub url: Option<Seq<char>>,
    pub labels: Seq<Seq<char>>,
    pub last_update: Option<Seq<char>>,
    pub buckets: Seq<(Seq<char>, Seq<EndpointV>)>,
}

/// The whole store, as text.
pub struct LocalDataV {
    pub file: Seq<char>,
    pub registries: Seq<RegistryV>,
    pub last_update: Option<Seq<char>>,
}

/// The text of an optional string.
pub open spec fn opt_view(o: Option<String>) -> Option<Seq<char>> {
    match o {
        None => None,
        Some(s) => Some(s@),
    }
}

/// How an endpoint reads as text.
pub open spec fn ep_v(e: Endpoint) -> EndpointV {
    EndpointV {
        name: e.name@,
        labels: views_of(e.labels@),
        aliases: views_of(e.aliases@),
        url: e.url.spec_text(),
        stats: e.stats,
    }
}

/// How a chain bucket reads as text.
pub open spec fn bucket_v(b: (ChainName, Vec<Endpoint>)) -> (Seq<char>, Seq<EndpointV>) {
    (b.0@, b.1@.map_values(|e: Endpoint| ep_v(e)))
}

/// How a registry reads as text.
pub open spec fn reg_v(r: Registry) -> RegistryV {
    RegistryV {
        enabled: r.enabled,
        name: r.name@,
        url: opt_view(r.url),
        labels: views_of(r.labels@),
        last_update: opt_view(r.last_update),
        buckets: r.rpc_endpoints@.map_values(|b: (ChainName, Vec<Endpoint>)| bucket_v(b)),
    }
}

/// How the whole store reads as text.
pub open spec fn data_v(d: LocalData) -> LocalDataV {
    LocalDataV {
        file: d.file@,
        registries: d.registries@.map_values(|r: Registry| reg_v(r)),
        last_update: opt_view(d.last_update),
    }
}

// ---------------------------------------------------------------------
// What can be written at all.
// ---------------------------------------------------------------------
/// A text the printer can carry in a JSON string: anything but the
/// control characters below space, except the three with short escapes.
pub open spec fn json_safe(s: Seq<char>) -> bool {
    forall|i: int|
        0 <= i < s.len() ==> (s[i] as int >= 32 || s[i] == '\n' || s[i] == '\r' || s[i] == '\t')
}

/// Every text of the list is safe.
pub open spec fn all_safe(v: Seq<Seq<char>>) -> bool {
    forall|i: int| 0 <= i < v.len() ==> json_safe(#[trigger] v[i])
}

/// A safe optional text.
pub open spec fn opt_safe(o: Option<Seq<char>>) -> bool {
    match o {
        None => true,
        Some(s) => json_safe(s),
    }
}

/// Every text of the endpoint is safe.
pub open spec fn ep_safe(e: EndpointV) -> bool {
    &&& json_safe(e.name)
    &&& all_safe(e.labels)
    &&& all_safe(e.aliases)
    &&& json_safe(e.url)
}

/// Every text of the registry is safe.
pub open spec fn reg_safe(r: RegistryV) -> bool {
    &&& json_safe(r.name)
    &&& opt_safe(r.url)
    &&& all_safe(r.labels)
    &&& opt_safe(r.last_update)
    &&& forall|i: int|
        0 <= i < r.buckets.len() ==> {
            &&& json_safe((#[trigger] r.buckets[i]).0)
            &&& forall|j: int| 0 <= j < r.buckets[i].1.len() ==> ep_safe(#[trigger] r.buckets[i].1[j])
        }
}

/// Every text of the store is safe.
pub open spec fn data_safe(d: LocalDataV) -> bool {
    &&& json_safe(d.file)
    &&& opt_safe(d.last_update)
    &&& forall|i: int| 0 <= i < d.registries.len() ==> reg_safe(#[trigger] d.registries[i])
}

// ---------------------------------------------------------------------
// The printed form.
// ---------------------------------------------------------------------
/// The digit character of one decimal digit.
pub open spec fn digit_char(d: nat) -> char {
    (('0' as int) + d) as char
}

/// The decimal digits of `n`, most significant first.
pub open spec fn spec_digits(n: nat) -> Seq<char>
    decreases n,
{
    if n < 10 {
        seq![digit_char(n)]
    } else {
        spec_digits(n / 10).push(digit_char(n % 10))
    }
}

/// Latency in milliseconds as decimal seconds, always with three
/// fraction digits: whole seconds, a point, then the milliseconds
/// zero-padded.
#[verifier::opaque]
pub open spec fn spec_print_latency(ms: nat) -> Seq<char> {
    spec_digits(ms / 1000) + seq!['.'] + seq![
        digit_char((ms % 1000) / 100),
        digit_char((ms % 100) / 10),
        digit_char(ms % 10),
    ]
}

/// The escaped form of one character inside a JSON string.
pub open spec fn escape_char(c: char) -> Seq<char> {
    if c == '"' {
        seq!['\\', '"']
    } else if c == '\\' {
        seq!['\\', '\\']
    } else if c == '\n' {
        seq!['\\', 'n']
    } else if c == '\r' {
        seq!['\\', 'r']
    } else if c == '\t' {
        seq!['\\', 't']
    } else {
        seq![c]
    }
}

/// The escaped body of a JSON string.
pub open spec fn spec_escape(s: Seq<char>) -> Seq<char>
    decreases s.len(),
{
    if s.len() == 0 {
        Seq::empty()
    } else {
        spec_escape(s.drop_last()) + escape_char(s.last())
    }
}

/// A JSON string: quote, escaped body, quote.
pub open spec fn spec_print_string(s: Seq<char>) -> Seq<char> {
    seq!['"'] + spec_escape(s) + seq!['"']
}

/// A string, or `null` for an absent one.
pub open spec fn spec_print_opt_string(o: Option<Seq<char>>) -> Seq<char> {
    match o {
        None => "null"@,
        Some(s) => spec_print_string(s),
    }
}

/// `true` or `false`.
pub open spec fn spec_print_bool(b: bool) -> Seq<char> {
    if b {
        "true"@
    } else {
        "false"@
    }
}

/// The comma-joined items of a JSON array of strings.
pub open spec fn spec_print_string_items(v: Seq<Seq<char>>) -> Seq<char>
    decreases v.len(),
{
    if v.len() == 0 {
        Seq::empty()
    } else if v.len() == 1 {
        spec_print_string(v[0])
    } else {
        spec_print_string_items(v.drop_last()) + seq![','] + spec_print_string(v.last())
    }
}

/// A JSON array of strings.
#[verifier::opaque]
pub open spec fn spec_print_string_list(v: Seq<Seq<char>>) -> Seq<char> {
    seq!['['] + spec_print_string_items(v) + seq![']']
}

/// The stats object.
#[verifier::opaque]
pub open spec fn spec_print_stats(st: EndpointStats) -> Seq<char> {
    "{\"failures\":"@ + spec_digits(st.failures as nat) + ",\"success\":"@ + spec_digits(
        st.success as nat,
    ) + ",\"latency\":"@ + spec_print_latency(st.latency as nat) + seq!['}']
}

/// The endpoint object.
#[verifier::opaque]
pub open spec fn spec_print_endpoint(e: EndpointV) -> Seq<char> {
    "{\"name\":"@ + spec_print_string(e.name) + ",\"labels\":"@ + spec_print_string_list(e.labels)
        + ",\"aliases\":"@ + spec_print_string_list(e.aliases) + ",\"url\":"@ + spec_print_string(
        e.url,
    ) + ",\"stats\":"@ + spec_print_stats(e.stats) + seq!['}']
}

/// The comma-joined items of an endpoint array.
pub open spec fn spec_print_endpoint_items(v: Seq<EndpointV>) -> Seq<char>
    decreases v.len(),
{
    if v.len() == 0 {
        Seq::empty()
    } else if v.len() == 1 {
        spec_print_endpoint(v[0])
    } else {
        spec_print_endpoint_items(v.drop_last()) + seq![','] + spec_print_endpoint(v.last())
    }
}

/// A JSON array of endpoints.
#[verifier::opaque]
pub open spec fn spec_print_endpoint_list(v: Seq<EndpointV>) -> Seq<char> {
    seq!['['] + spec_print_endpoint_items(v) + seq![']']
}

/// The comma-joined members of the chain map: each chain name mapping
/// to its endpoint array.
pub open spec fn spec_print_bucket_items(v: Seq<(Seq<char>, Seq<EndpointV>)>) -> Seq<char>
    decreases v.len(),
{
    if v.len() == 0 {
        Seq::empty()
    } else if v.len() == 1 {
        spec_print_string(v[0].0) + seq![':'] + spec_print_endpoint_list(v[0].1)
    } else {
        spec_print_bucket_items(v.drop_last()) + seq![','] + spec_print_string(v.last().0) + seq![
            ':',
        ] + spec_print_endpoint_list(v.last().1)
    }
}

/// The chain map object.
#[verifier::opaque]
pub open spec fn spec_print_buckets(v: Seq<(Seq<char>, Seq<EndpointV>)>) -> Seq<char> {
    seq!['{'] + spec_print_bucket_items(v) + seq!['}']
}

/// The registry object.
#[verifier::opaque]
pub open spec fn spec_print_registry(r: RegistryV) -> Seq<char> {
    "{\"enabled\":"@ + spec_print_bool(r.enabled) + ",\"name\":"@ + spec_print_string(r.name)
        + ",\"url\":"@ + spec_print_opt_string(r.url) + ",\"labels\":"@ + spec_print_string_list(
        r.labels,
    ) + ",\"last_update\":"@ + spec_print_opt_string(r.last_update) + ",\"rpc_endpoints\":"@
        + spec_print_buckets(r.buckets) + seq!['}']
}

/// The comma-joined members of the registries map: each registry keyed
/// by its own name.
pub open spec fn spec_print_registry_items(v: Seq<RegistryV>) -> Seq<char>
    decreases v.len(),
{
    if v.len() == 0 {
        Seq::empty()
    } else if v.len() == 1 {
        spec_print_string(v[0].name) + seq![':'] + spec_print_registry(v[0])
    } else {
        spec_print_registry_items(v.drop_last()) + seq![','] + spec_print_string(v.last().name)
            + seq![':'] + spec_print_registry(v.last())
    }
}

/// The registries map object.
#[verifier::opaque]
pub open spec fn spec_print_registries(v: Seq<RegistryV>) -> Seq<char> {
    seq!['{'] + spec_print_registry_items(v) + seq!['}']
}

/// The whole store document.
#[verifier::opaque]
pub open spec fn spec_print_local_data(d: LocalDataV) -> Seq<char> {
    "{\"file\":"@ + spec_print_string(d.file) + ",\"registries\":"@ + spec_print_registries(
        d.registries,
    ) + ",\"last_update\":"@ + spec_print_opt_string(d.last_update) + seq!['}']
}


// ---------------------------------------------------------------------
// The printer.
// ---------------------------------------------------------------------
/// A value that the printer cannot carry: some text holds a control
/// character with no short escape.
#[derive(Debug, Clone, Copy, PartialEq, Eq, Structural)]
pub enum SerError {
    UnprintableText,
}

/// True when the printer can carry this text in a JSON string.
pub fn str_is_json_safe(s: &str) -> (r: bool)
    ensures
        r == json_safe(s@),
{
    let n = s.unicode_len();
    let mut i: usize = 0;
    while i < n
        invariant
            0 <= i <= n,
            n == s@.len(),
            forall|k: int|
                0 <= k < i ==> (s@[k] as int >= 32 || s@[k] == '\n' || s@[k] == '\r' || s@[k]
                    == '\t'),
        decreases n - i,
    {
        let c = s.get_char(i);
        if !(c as u32 >= 32 || c == '\n' || c == '\r' || c == '\t') {
            return false;
        }
        i += 1;
    }
    true
}

/// Append the decimal digits of `n`.
fn append_digits(out: &mut String, n: u64)
    ensures
        final(out)@ == old(out)@ + spec_digits(n as nat),
    decreases n,
{
    if n >= 10 {
        append_digits(out, n / 10);
    }
    let d = n % 10;
    let piece: &str = match d {
        0 => "0",
        1 => "1",
        2 => "2",
        3 => "3",
        4 => "4",
        5 => "5",
        6 => "6",
        7 => "7",
        8 => "8",
        _ => "9",
    };
    proof {
        reveal_strlit("0");
        reveal_strlit("1");
        reveal_strlit("2");
        reveal_strlit("3");
        reveal_strlit("4");
        reveal_strlit("5");
        reveal_strlit("6");
        reveal_strlit("7");
        reveal_strlit("8");
        reveal_strlit("9");
        assert(piece@ =~= seq![digit_char((n % 10) as nat)]);
        if n < 10 {
            assert(spec_digits(n as nat) == seq![digit_char(n as nat)]);
            assert(n % 10 == n) by (nonlinear_arith)
                requires 0 <= n < 10,
            ;
        }
    }
    out.append(piece);
    proof {
        if n >= 10 {
            assert(spec_digits(n as nat) == spec_digits((n / 10) as nat).push(
                digit_char((n % 10) as nat),
            ));
            assert(old(out)@ + spec_digits(n as nat) =~= old(out)@ + spec_digits((n / 10) as nat)
                + piece@);
        } else {
            assert(old(out)@ + spec_digits(n as nat) =~= old(out)@ + piece@);
        }
    }
}

/// Append latency milliseconds as decimal seconds.
fn append_latency(out: &mut String, ms: u64)
    ensures
        final(out)@ == old(out)@ + spec_print_latency(ms as nat),
{
    append_digits(out, ms / 1000);
    out.append(".");
    let frac = ms % 1000;
    let mut tail = String::new();
    append_digits(&mut tail, frac / 100);
    append_digits(&mut tail, (frac / 10) % 10);
    append_digits(&mut tail, frac % 10);
    out.append(tail.as_str());
    proof {
        reveal(spec_print_latency);
        reveal_strlit(".");
        assert(frac / 100 < 10 && (frac / 10) % 10 < 10 && frac % 10 < 10);
        assert(spec_digits((frac / 100) as nat) == seq![digit_char((frac / 100) as nat)]);
        assert(spec_digits(((frac / 10) % 10) as nat) == seq![
            digit_char(((frac / 10) % 10) as nat),
        ]);
        assert(spec_digits((frac % 10) as nat) == seq![digit_char((frac % 10) as nat)]);
        assert((frac / 100) as nat == (ms as nat % 1000) / 100);
        assert(((frac / 10) % 10) as nat == (ms as nat % 100) / 10) by (nonlinear_arith)
            requires frac == ms % 1000, ms >= 0,
        ;
        assert((frac % 10) as nat == ms as nat % 10) by (nonlinear_arith)
            requires frac == ms % 1000, ms >= 0,
        ;
        assert(final(out)@ =~= old(out)@ + spec_print_latency(ms as nat));
    }
}

/// Append one text as a JSON string, escaping as it goes.
fn append_string(out: &mut String, s: &str)
    requires
        json_safe(s@),
    ensures
        final(out)@ == old(out)@ + spec_print_string(s@),
{
    out.append("\"");
    proof {
        reveal_strlit("\"");
        assert(out@ =~= old(out)@ + seq!['"'] + spec_escape(s@.take(0)));
    }
    let n = s.unicode_len();
    let mut i: usize = 0;
    while i < n
        invariant
            json_safe(s@),
            0 <= i <= n,
            n == s@.len(),
            out@ == old(out)@ + seq!['"'] + spec_escape(s@.take(i as int)),
        decreases n - i,
    {
        let c = s.get_char(i);
        if c == '"' {
            out.append("\\\"");
            proof {
                reveal_strlit("\\\"");
            }
        } else if c == '\\' {
            out.append("\\\\");
            proof {
                reveal_strlit("\\\\");
            }
        } else if c == '\n' {
            out.append("\\n");
            proof {
                reveal_strlit("\\n");
            }
        } else if c == '\r' {
            out.append("\\r");
            proof {
                reveal_strlit("\\r");
            }
        } else if c == '\t' {
            out.append("\\t");
            proof {
                reveal_strlit("\\t");
            }
        } else {
            let piece = s.substring_char(i, i + 1);
            proof {
                assert(piece@ =~= seq![s@[i as int]]);
            }
            out.append(piece);
        }
        proof {
            assert(s@.take(i as int + 1).drop_last() =~= s@.take(i as int));
            assert(s@.take(i as int + 1).last() == s@[i as int]);
            assert(out@ =~= old(out)@ + seq!['"'] + spec_escape(s@.take(i as int + 1)));
        }
        i += 1;
    }
    out.append("\"");
    proof {
        reveal_strlit("\"");
        assert(s@.take(n as int) =~= s@);
        assert(final(out)@ =~= old(out)@ + spec_print_string(s@));
    }
}

/// Append a string, or `null` for an absent one.
fn append_opt_string(out: &mut String, o: &Option<String>)
    requires
        opt_safe(opt_view(*o)),
    ensures
        final(out)@ == old(out)@ + spec_print_opt_string(opt_view(*o)),
{
    match o {
        None => {
            out.append("null");
        },
        Some(s) => {
            append_string(out, s.as_str());
        },
    }
}

/// Append a JSON array of strings.
fn append_string_list(out: &mut String, v: &Vec<String>)
    requires
        all_safe(views_of(v@)),
    ensures
        final(out)@ == old(out)@ + spec_print_string_list(views_of(v@)),
{
    out.append("[");
    proof {
        reveal(spec_print_string_list);
        reveal_strlit("[");
        assert(out@ =~= old(out)@ + seq!['['] + spec_print_string_items(views_of(v@).take(0)));
    }
    let n = v.len();
    let mut i: usize = 0;
    while i < n
        invariant
            all_safe(views_of(v@)),
            0 <= i <= n,
            n == v@.len(),
            out@ == old(out)@ + seq!['['] + spec_print_string_items(views_of(v@).take(i as int)),
        decreases n - i,
    {
        if i > 0 {
            out.append(",");
            proof {
                reveal_strlit(",");
            }
        }
        proof {
            assert(views_of(v@)[i as int] == v@[i as int]@);
            assert(json_safe(views_of(v@)[i as int]));
        }
        append_string(out, v[i].as_str());
        proof {
            let vv = views_of(v@);
            assert(vv.take(i as int + 1).drop_last() =~= vv.take(i as int));
            assert(vv.take(i as int + 1).last() == vv[i as int]);
            assert(out@ =~= old(out)@ + seq!['['] + spec_print_string_items(
                vv.take(i as int + 1),
            ));
        }
        i += 1;
    }
    out.append("]");
    proof {
        reveal(spec_print_string_list);
        reveal_strlit("[");
        reveal_strlit("]");
        assert(views_of(v@).take(n as int) =~= views_of(v@));
        assert(final(out)@ =~= old(out)@ + spec_print_string_list(views_of(v@)));
    }
}

/// Append the stats object.
fn append_stats(out: &mut String, st: &EndpointStats)
    ensures
        final(out)@ == old(out)@ + spec_print_stats(*st),
{
    out.append("{\"failures\":");
    append_digits(out, st.failures as u64);
    out.append(",\"success\":");
    append_digits(out, st.success as u64);
    out.append(",\"latency\":");
    append_latency(out, st.latency);
    out.append("}");
    proof {
        reveal(spec_print_stats);
        reveal_strlit("{\"failures\":");
        reveal_strlit(",\"success\":");
        reveal_strlit(",\"latency\":");
        reveal_strlit("}");
        assert(final(out)@ =~= old(out)@ + spec_print_stats(*st));
    }
}

/// Append the endpoint object.
fn append_endpoint(out: &mut String, e: &Endpoint)
    requires
        ep_safe(ep_v(*e)),
    ensures
        final(out)@ == old(out)@ + spec_print_endpoint(ep_v(*e)),
{
    out.append("{\"name\":");
    append_string(out, e.name.as_str());
    out.append(",\"labels\":");
    append_string_list(out, &e.labels);
    out.append(",\"aliases\":");
    append_string_list(out, &e.aliases);
    out.append(",\"url\":");
    append_string(out, e.url.text().as_str());
    out.append(",\"stats\":");
    append_stats(out, &e.stats);
    out.append("}");
    proof {
        reveal(spec_print_endpoint);
        reveal_strlit("{\"name\":");
        reveal_strlit(",\"labels\":");
        reveal_strlit(",\"aliases\":");
        reveal_strlit(",\"url\":");
        reveal_strlit(",\"stats\":");
        reveal_strlit("}");
        assert(final(out)@ =~= old(out)@ + spec_print_endpoint(ep_v(*e)));
    }
}

/// Append a JSON array of endpoints.
fn append_endpoint_list(out: &mut String, v: &Vec<Endpoint>)
    requires
        forall|i: int| 0 <= i < v@.len() ==> ep_safe(ep_v(#[trigger] v@[i])),
    ensures
        final(out)@ == old(out)@ + spec_print_endpoint_list(
            v@.map_values(|e: Endpoint| ep_v(e)),
        ),
{
    out.append("[");
    proof {
        reveal(spec_print_endpoint_list);
        reveal_strlit("[");
        assert(out@ =~= old(out)@ + seq!['['] + spec_print_endpoint_items(
            v@.map_values(|e: Endpoint| ep_v(e)).take(0),
        ));
    }
    let n = v.len();
    let mut i: usize = 0;
    while i < n
        invariant
            forall|k: int| 0 <= k < v@.len() ==> ep_safe(ep_v(#[trigger] v@[k])),
            0 <= i <= n,
            n == v@.len(),
            out@ == old(out)@ + seq!['['] + spec_print_endpoint_items(
                v@.map_values(|e: Endpoint| ep_v(e)).take(i as int),
            ),
        decreases n - i,
    {
        if i > 0 {
            out.append(",");
            proof {
                reveal_strlit(",");
            }
        }
        append_endpoint(out, &v[i]);
        proof {
            let vv = v@.map_values(|e: Endpoint| ep_v(e));
            assert(vv.take(i as int + 1).drop_last() =~= vv.take(i as int));
            assert(vv.take(i as int + 1).last() == vv[i as int]);
            assert(vv[i as int] == ep_v(v@[i as int]));
            assert(out@ =~= old(out)@ + seq!['['] + spec_print_endpoint_items(
                vv.take(i as int + 1),
            ));
        }
        i += 1;
    }
    out.append("]");
    proof {
        reveal(spec_print_endpoint_list);
        reveal_strlit("[");
        reveal_strlit("]");
        let vv = v@.map_values(|e: Endpoint| ep_v(e));
        assert(vv.take(n as int) =~= vv);
        assert(final(out)@ =~= old(out)@ + spec_print_endpoint_list(vv));
    }
}

/// Append the chain map object.
#[verifier::rlimit(60)]
fn append_buckets(out: &mut String, v: &Vec<(ChainName, Vec<Endpoint>)>)
    requires
        forall|i: int|
            0 <= i < v@.len() ==> {
                &&& json_safe((#[trigger] bucket_v(v@[i])).0)
                &&& forall|j: int|
                    0 <= j < bucket_v(v@[i]).1.len() ==> ep_safe(#[trigger] bucket_v(v@[i]).1[j])
            },
    ensures
        final(out)@ == old(out)@ + spec_print_buckets(
            v@.map_values(|b: (ChainName, Vec<Endpoint>)| bucket_v(b)),
        ),
{
    out.append("{");
    proof {
        reveal(spec_print_buckets);
        reveal_strlit("{");
        assert(out@ =~= old(out)@ + seq!['{'] + spec_print_bucket_items(
            v@.map_values(|b: (ChainName, Vec<Endpoint>)| bucket_v(b)).take(0),
        ));
    }
    let n = v.len();
    let mut i: usize = 0;
    while i < n
        invariant
            forall|k: int|
                0 <= k < v@.len() ==> {
                    &&& json_safe((#[trigger] bucket_v(v@[k])).0)
                    &&& forall|j: int|
                        0 <= j < bucket_v(v@[k]).1.len() ==> ep_safe(
                            #[trigger] bucket_v(v@[k]).1[j],
                        )
                },
            0 <= i <= n,
            n == v@.len(),
            out@ == old(out)@ + seq!['{'] + spec_print_bucket_items(
                v@.map_values(|b: (ChainName, Vec<Endpoint>)| bucket_v(b)).take(i as int),
            ),
        decreases n - i,
    {
        if i > 0 {
            out.append(",");
            proof {
                reveal_strlit(",");
            }
        }
        proof {
            assert(bucket_v(v@[i as int]).0 == v@[i as int].0@);
            assert(forall|j: int|
                0 <= j < v@[i as int].1@.len() ==> ep_safe(ep_v(#[trigger] v@[i as int].1@[j])))
                by {
                assert forall|j: int|
                    0 <= j < v@[i as int].1@.len() implies ep_safe(ep_v(
                    #[trigger] v@[i as int].1@[j],
                )) by {
                    assert(bucket_v(v@[i as int]).1[j] == ep_v(v@[i as int].1@[j]));
                    assert(ep_safe(bucket_v(v@[i as int]).1[j]));
                }
            }
        }
        let bucket = &v[i];
        append_string(out, bucket.0.as_str());
        out.append(":");
        append_endpoint_list(out, &bucket.1);
        proof {
            reveal_strlit(":");
            let vv = v@.map_values(|b: (ChainName, Vec<Endpoint>)| bucket_v(b));
            assert(vv.take(i as int + 1).drop_last() =~= vv.take(i as int));
            assert(vv.take(i as int + 1).last() == vv[i as int]);
            assert(vv[i as int] == bucket_v(v@[i as int]));
            assert(out@ =~= old(out)@ + seq!['{'] + spec_print_bucket_items(
                vv.take(i as int + 1),
            ));
        }
        i += 1;
    }
    out.append("}");
    proof {
        reveal(spec_print_buckets);
        reveal_strlit("{");
        reveal_strlit("}");
        let vv = v@.map_values(|b: (ChainName, Vec<Endpoint>)| bucket_v(b));
        assert(vv.take(n as int) =~= vv);
        assert(final(out)@ =~= old(out)@ + spec_print_buckets(vv));
    }
}

/// Append the registry object.
#[verifier::rlimit(60)]
fn append_registry(out: &mut String, r: &Registry)
    requires
        reg_safe(reg_v(*r)),
    ensures
        final(out)@ == old(out)@ + spec_print_registry(reg_v(*r)),
{
    out.append("{\"enabled\":");
    if r.enabled {
        out.append("true");
    } else {
        out.append("false");
    }
    out.append(",\"name\":");
    append_string(out, r.name.as_str());
    out.append(",\"url\":");
    append_string_opt_helper(out, &r.url);
    out.append(",\"labels\":");
    proof {
        assert(all_safe(views_of(r.labels@))) by {
            assert(reg_v(*r).labels == views_of(r.labels@));
        }
    }
    append_string_list(out, &r.labels);
    out.append(",\"last_update\":");
    append_string_opt_helper(out, &r.last_update);
    out.append(",\"rpc_endpoints\":");
    proof {
        let rv = reg_v(*r);
        assert forall|i: int|
            0 <= i < r.rpc_endpoints@.len() implies {
            &&& json_safe((#[trigger] bucket_v(r.rpc_endpoints@[i])).0)
            &&& forall|j: int|
                0 <= j < bucket_v(r.rpc_endpoints@[i]).1.len() ==> ep_safe(
                    #[trigger] bucket_v(r.rpc_endpoints@[i]).1[j],
                )
        } by {
            assert(rv.buckets[i] == bucket_v(r.rpc_endpoints@[i]));
            assert(json_safe(rv.buckets[i].0));
        }
    }
    append_buckets(out, &r.rpc_endpoints);
    out.append("}");
    proof {
        reveal(spec_print_registry);
        reveal_strlit("{\"enabled\":");
        reveal_strlit("true");
        reveal_strlit("false");
        reveal_strlit(",\"name\":");
        reveal_strlit(",\"url\":");
        reveal_strlit(",\"labels\":");
        reveal_strlit(",\"last_update\":");
        reveal_strlit(",\"rpc_endpoints\":");
        reveal_strlit("}");
        assert(reg_v(*r).buckets == r.rpc_endpoints@.map_values(
            |b: (ChainName, Vec<Endpoint>)| bucket_v(b),
        ));
        assert(final(out)@ =~= old(out)@ + spec_print_registry(reg_v(*r)));
    }
}

/// Append a string or `null`; the same as `append_opt_string`, named
/// apart to keep borrow shapes simple.
fn append_string_opt_helper(out: &mut String, o: &Option<String>)
    requires
        opt_safe(opt_view(*o)),
    ensures
        final(out)@ == old(out)@ + spec_print_opt_string(opt_view(*o)),
{
    match o {
        None => {
            out.append("null");
            proof {
                reveal_strlit("null");
            }
        },
        Some(s) => {
            append_string(out, s.as_str());
        },
    }
}

/// Append the registries map object.
#[verifier::rlimit(60)]
fn append_registries(out: &mut String, v: &Vec<Registry>)
    requires
        forall|i: int| 0 <= i < v@.len() ==> reg_safe(reg_v(#[trigger] v@[i])),
    ensures
        final(out)@ == old(out)@ + spec_print_registries(
            v@.map_values(|r: Registry| reg_v(r)),
        ),
{
    out.append("{");
    proof {
        reveal(spec_print_registries);
        reveal_strlit("{");
        assert(out@ =~= old(out)@ + seq!['{'] + spec_print_registry_items(
            v@.map_values(|r: Registry| reg_v(r)).take(0),
        ));
    }
    let n = v.len();
    let mut i: usize = 0;
    while i < n
        invariant
            forall|k: int| 0 <= k < v@.len() ==> reg_safe(reg_v(#[trigger] v@[k])),
            0 <= i <= n,
            n == v@.len(),
            out@ == old(out)@ + seq!['{'] + spec_print_registry_items(
                v@.map_values(|r: Registry| reg_v(r)).take(i as int),
            ),
        decreases n - i,
    {
        if i > 0 {
            out.append(",");
            proof {
                reveal_strlit(",");
            }
        }
        append_string(out, v[i].name.as_str());
        out.append(":");
        append_registry(out, &v[i]);
        proof {
            reveal_strlit(":");
            let vv = v@.map_values(|r: Registry| reg_v(r));
            assert(vv.take(i as int + 1).drop_last() =~= vv.take(i as int));
            assert(vv.take(i as int + 1).last() == vv[i as int]);
            assert(vv[i as int] == reg_v(v@[i as int]));
            assert(out@ =~= old(out)@ + seq!['{'] + spec_print_registry_items(
                vv.take(i as int + 1),
            ));
        }
        i += 1;
    }
    out.append("}");
    proof {
        reveal(spec_print_registries);
        reveal_strlit("{");
        reveal_strlit("}");
        let vv = v@.map_values(|r: Registry| reg_v(r));
        assert(vv.take(n as int) =~= vv);
        assert(final(out)@ =~= old(out)@ + spec_print_registries(vv));
    }
}

/// The registry document, as its canonical JSON text. Fails exactly
/// when some text of the registry cannot be carried in a JSON string.
pub fn registry_to_json(r: &Registry) -> (res: Result<String, SerError>)
    ensures
        res is Ok <==> reg_safe(reg_v(*r)),
        match res {
            Ok(s) => s@ == spec_print_registry(reg_v(*r)),
            Err(e) => e == SerError::UnprintableText,
        },
{
    if !registry_is_safe(r) {
        return Err(SerError::UnprintableText);
    }
    let mut out = String::new();
    append_registry(&mut out, r);
    proof {
        assert(out@ =~= spec_print_registry(reg_v(*r)));
    }
    Ok(out)
}

/// The whole store, as its canonical JSON text. Fails exactly when some
/// text of the tree cannot be carried in a JSON string.
pub fn local_data_to_json(d: &LocalData) -> (res: Result<String, SerError>)
    ensures
        res is Ok <==> data_safe(data_v(*d)),
        match res {
            Ok(s) => s@ == spec_print_local_data(data_v(*d)),
            Err(e) => e == SerError::UnprintableText,
        },
{
    let file_ok = str_is_json_safe(d.file.as_str());
    let mut regs_ok = file_ok;
    if regs_ok {
        match &d.last_update {
            None => {},
            Some(s) => {
                regs_ok = str_is_json_safe(s.as_str());
            },
        }
    }
    let n = d.registries.len();
    let mut i: usize = 0;
    while i < n
        invariant
            0 <= i <= n,
            n == d.registries@.len(),
            regs_ok ==> json_safe(d.file@) && opt_safe(opt_view(d.last_update)),
            regs_ok ==> forall|k: int| 0 <= k < i ==> reg_safe(reg_v(#[trigger] d.registries@[k])),
            !regs_ok ==> !data_safe(data_v(*d)),
        decreases n - i,
    {
        if regs_ok {
            if !registry_is_safe(&d.registries[i]) {
                regs_ok = false;
                proof {
                    assert(data_v(*d).registries[i as int] == reg_v(d.registries@[i as int]));
                }
            }
        }
        i += 1;
    }
    if !regs_ok {
        proof {
            assert(!data_safe(data_v(*d)));
        }
        return Err(SerError::UnprintableText);
    }
    proof {
        assert forall|k: int|
            0 <= k < data_v(*d).registries.len() implies reg_safe(
            #[trigger] data_v(*d).registries[k],
        ) by {
            assert(data_v(*d).registries[k] == reg_v(d.registries@[k]));
        }
        assert(data_safe(data_v(*d)));
    }
    let mut out = String::new();
    out.append("{\"file\":");
    append_string(&mut out, d.file.as_str());
    out.append(",\"registries\":");
    proof {
        assert forall|k: int|
            0 <= k < d.registries@.len() implies reg_safe(reg_v(#[trigger] d.registries@[k])) by {
            assert(data_v(*d).registries[k] == reg_v(d.registries@[k]));
        }
    }
    append_registries(&mut out, &d.registries);
    out.append(",\"last_update\":");
    append_string_opt_helper(&mut out, &d.last_update);
    out.append("}");
    proof {
        reveal(spec_print_local_data);
        reveal_strlit("{\"file\":");
        reveal_strlit(",\"registries\":");
        reveal_strlit(",\"last_update\":");
        reveal_strlit("}");
        assert(data_v(*d).registries == d.registries@.map_values(|r: Registry| reg_v(r)));
        assert(out@ =~= spec_print_local_data(data_v(*d)));
    }
    Ok(out)
}

/// True when every text of the registry is safe to print.
pub fn registry_is_safe(r: &Registry) -> (res: bool)
    ensures
        res == reg_safe(reg_v(*r)),
{
    if !str_is_json_safe(r.name.as_str()) {
        return false;
    }
    match &r.url {
        None => {},
        Some(u) => {
            if !str_is_json_safe(u.as_str()) {
                return false;
            }
        },
    }
    match &r.last_update {
        None => {},
        Some(u) => {
            if !str_is_json_safe(u.as_str()) {
                return false;
            }
        },
    }
    if !string_vec_is_safe(&r.labels) {
        proof {
            let k = choose|k: int|
                0 <= k < views_of(r.labels@).len() && !json_safe(views_of(r.labels@)[k]);
            assert(reg_v(*r).labels == views_of(r.labels@));
        }
        return false;
    }
    let n = r.rpc_endpoints.len();
    let mut i: usize = 0;
    while i < n
        invariant
            0 <= i <= n,
            n == r.rpc_endpoints@.len(),
            json_safe(r.name@),
            opt_safe(opt_view(r.url)),
            opt_safe(opt_view(r.last_update)),
            all_safe(views_of(r.labels@)),
            forall|k: int|
                0 <= k < i ==> {
                    &&& json_safe((#[trigger] bucket_v(r.rpc_endpoints@[k])).0)
                    &&& forall|j: int|
                        0 <= j < bucket_v(r.rpc_endpoints@[k]).1.len() ==> ep_safe(
                            #[trigger] bucket_v(r.rpc_endpoints@[k]).1[j],
                        )
                },
        decreases n - i,
    {
        let bucket = &r.rpc_endpoints[i];
        if !str_is_json_safe(bucket.0.as_str()) {
            proof {
                assert(bucket_v(r.rpc_endpoints@[i as int]).0 == r.rpc_endpoints@[i as int].0@);
                assert(!reg_safe(reg_v(*r))) by {
                    assert(reg_v(*r).buckets[i as int] == bucket_v(r.rpc_endpoints@[i as int]));
                }
            }
            return false;
        }
        let m = bucket.1.len();
        let mut j: usize = 0;
        while j < m
            invariant
                0 <= j <= m,
                0 <= i < n,
                n == r.rpc_endpoints@.len(),
                m == bucket.1@.len(),
                bucket == &r.rpc_endpoints@[i as int],
                forall|t: int|
                    0 <= t < j ==> ep_safe(ep_v(#[trigger] bucket.1@[t])),
            decreases m - j,
        {
            if !endpoint_is_safe(&bucket.1[j]) {
                proof {
                    assert(bucket_v(r.rpc_endpoints@[i as int]).1[j as int] == ep_v(
                        bucket.1@[j as int],
                    ));
                    assert(!reg_safe(reg_v(*r))) by {
                        assert(reg_v(*r).buckets[i as int] == bucket_v(
                            r.rpc_endpoints@[i as int],
                        ));
                    }
                }
                return false;
            }
            j += 1;
        }
        proof {
            assert forall|t: int|
                0 <= t < bucket_v(r.rpc_endpoints@[i as int]).1.len() implies ep_safe(
                #[trigger] bucket_v(r.rpc_endpoints@[i as int]).1[t],
            ) by {
                assert(bucket_v(r.rpc_endpoints@[i as int]).1[t] == ep_v(bucket.1@[t]));
            }
        }
        i += 1;
    }
    proof {
        assert forall|k: int|
            0 <= k < reg_v(*r).buckets.len() implies {
            &&& json_safe((#[trigger] reg_v(*r).buckets[k]).0)
            &&& forall|j: int|
                0 <= j < reg_v(*r).buckets[k].1.len() ==> ep_safe(
                    #[trigger] reg_v(*r).buckets[k].1[j],
                )
        } by {
            assert(reg_v(*r).buckets[k] == bucket_v(r.rpc_endpoints@[k]));
        }
    }
    true
}

/// True when every text of the endpoint is safe to print.
fn endpoint_is_safe(e: &Endpoint) -> (res: bool)
    ensures
        res == ep_safe(ep_v(*e)),
{
    let name_ok = str_is_json_safe(e.name.as_str());
    let url_ok = str_is_json_safe(e.url.text().as_str());
    let labels_ok = string_vec_is_safe(&e.labels);
    let aliases_ok = string_vec_is_safe(&e.aliases);
    name_ok && url_ok && labels_ok && aliases_ok
}

/// True when every text of the list is safe to print.
fn string_vec_is_safe(v: &Vec<String>) -> (res: bool)
    ensures
        res == all_safe(views_of(v@)),
{
    let n = v.len();
    let mut i: usize = 0;
    while i < n
        invariant
            0 <= i <= n,
            n == v@.len(),
            forall|k: int| 0 <= k < i ==> json_safe(#[trigger] views_of(v@)[k]),
        decreases n - i,
    {
        if !str_is_json_safe(v[i].as_str()) {
            proof {
                assert(views_of(v@)[i as int] == v@[i as int]@);
            }
            return false;
        }
        i += 1;
    }
    true
}


// ---------------------------------------------------------------------
// The parsed form. The parser is strict: it reads exactly the schema,
// with arbitrary whitespace between tokens, string escapes for quote,
// backslash, slash, newline, carriage return and tab, unsigned decimal
// numbers, and `null` for the absent options. A document naming a field
// outside the schema, repeating a field, or repeating a map key is
// rejected, as is an endpoint url with an unrecognized scheme.
// ---------------------------------------------------------------------
/// The whitespace the parser skips between tokens.
pub open spec fn is_ws(c: char) -> bool {
    c == ' ' || c == '\t' || c == '\n' || c == '\r'
}

/// A decimal digit.
pub open spec fn is_digit(c: char) -> bool {
    '0' <= c && c <= '9'
}

/// The value of a decimal digit.
pub open spec fn digit_val(c: char) -> nat {
    (c as int - '0' as int) as nat
}

/// The first position at or after `i` that holds no whitespace.
pub open spec fn sp_ws(s: Seq<char>, i: int) -> int
    decreases s.len() - i,
{
    if 0 <= i < s.len() && is_ws(s[i]) {
        sp_ws(s, i + 1)
    } else {
        i
    }
}

/// Skipping whitespace never moves backwards nor past the end.
pub proof fn lemma_sp_ws_bounds(s: Seq<char>, i: int)
    requires
        0 <= i <= s.len(),
    ensures
        i <= sp_ws(s, i) <= s.len(),
    decreases s.len() - i,
{
    if i < s.len() && is_ws(s[i]) {
        lemma_sp_ws_bounds(s, i + 1);
    }
}

/// True when `lit` stands at position `i` of `s`.
pub open spec fn sp_lit(s: Seq<char>, i: int, lit: Seq<char>) -> bool {
    0 <= i && i + lit.len() <= s.len() && s.subrange(i, i + lit.len()) == lit
}

/// A JSON boolean.
pub open spec fn sp_bool(s: Seq<char>, i: int) -> Option<(bool, int)> {
    if sp_lit(s, i, "true"@) {
        Some((true, i + 4))
    } else if sp_lit(s, i, "false"@) {
        Some((false, i + 5))
    } else {
        None
    }
}

/// The body of a JSON string, read from just after the opening quote to
/// just after the closing one.
pub open spec fn sp_str_body(s: Seq<char>, i: int) -> Option<(Seq<char>, int)>
    decreases s.len() - i,
{
    if i < 0 || i >= s.len() {
        None
    } else if s[i] == '"' {
        Some((Seq::empty(), i + 1))
    } else if s[i] == '\\' {
        if i + 1 >= s.len() {
            None
        } else {
            let e = s[i + 1];
            if e == '"' || e == '\\' || e == '/' || e == 'n' || e == 'r' || e == 't' {
                let c = if e == 'n' {
                    '\n'
                } else if e == 'r' {
                    '\r'
                } else if e == 't' {
                    '\t'
                } else {
                    e
                };
                match sp_str_body(s, i + 2) {
                    Some((t, j)) => Some((seq![c] + t, j)),
                    None => None,
                }
            } else {
                None
            }
        }
    } else if (s[i] as int) < 32 {
        None
    } else {
        match sp_str_body(s, i + 1) {
            Some((t, j)) => Some((seq![s[i]] + t, j)),
            None => None,
        }
    }
}

/// A JSON string.
pub open spec fn sp_string(s: Seq<char>, i: int) -> Option<(Seq<char>, int)> {
    if 0 <= i < s.len() && s[i] == '"' {
        sp_str_body(s, i + 1)
    } else {
        None
    }
}

/// A run of decimal digits accumulated into a number, rejected once it
/// leaves the widest field.
pub open spec fn sp_digits(s: Seq<char>, i: int, acc: nat) -> Option<(nat, int)>
    decreases s.len() - i,
{
    if 0 <= i < s.len() && is_digit(s[i]) {
        let acc2 = acc * 10 + digit_val(s[i]);
        if acc2 > u64::MAX as nat {
            None
        } else {
            sp_digits(s, i + 1, acc2)
        }
    } else {
        Some((acc, i))
    }
}

/// An unsigned decimal number.
pub open spec fn sp_u64(s: Seq<char>, i: int) -> Option<(nat, int)> {
    if 0 <= i < s.len() && is_digit(s[i]) {
        sp_digits(s, i, 0)
    } else {
        None
    }
}

/// A counter: an unsigned decimal that fits its field.
pub open spec fn sp_u16(s: Seq<char>, i: int) -> Option<(u16, int)> {
    match sp_u64(s, i) {
        Some((n, j)) => if n <= u16::MAX as nat {
            Some((n as u16, j))
        } else {
            None
        },
        None => None,
    }
}

/// The end of a run of decimal digits.
pub open spec fn sp_digit_run_end(s: Seq<char>, i: int) -> int
    decreases s.len() - i,
{
    if 0 <= i < s.len() && is_digit(s[i]) {
        sp_digit_run_end(s, i + 1)
    } else {
        i
    }
}

/// Latency as decimal seconds: whole seconds, then optionally a point
/// and at least one fraction digit, of which the first three count as
/// milliseconds and the rest are precision the store does not keep.
pub open spec fn sp_latency(s: Seq<char>, i: int) -> Option<(u64, int)> {
    match sp_u64(s, i) {
        None => None,
        Some((n, j)) => if n > ((u64::MAX as nat) - 999) / 1000 {
            None
        } else if 0 <= j < s.len() && s[j] == '.' {
            if j + 1 < s.len() && is_digit(s[j + 1]) {
                let e = sp_digit_run_end(s, j + 1);
                let d1 = digit_val(s[j + 1]);
                let frac = if e >= j + 4 {
                    d1 * 100 + digit_val(s[j + 2]) * 10 + digit_val(s[j + 3])
                } else if e - j == 3 {
                    d1 * 100 + digit_val(s[j + 2]) * 10
                } else {
                    d1 * 100
                };
                Some(((n * 1000 + frac) as u64, e))
            } else {
                None
            }
        } else {
            Some(((n * 1000) as u64, j))
        },
    }
}

/// `null`, or a JSON string.
pub open spec fn sp_opt_string(s: Seq<char>, i: int) -> Option<(Option<Seq<char>>, int)> {
    if sp_lit(s, i, "null"@) {
        Some((None, i + 4))
    } else {
        match sp_string(s, i) {
            Some((v, j)) => Some((Some(v), j)),
            None => None,
        }
    }
}

/// The items of a JSON array of strings, read from the first item.
pub open spec fn sp_string_items(s: Seq<char>, i: int, acc: Seq<Seq<char>>) -> Option<
    (Seq<Seq<char>>, int),
>
    decreases s.len() - i,
{
    match sp_string(s, i) {
        None => None,
        Some((v, j)) => {
            if !(i < j <= s.len()) {
                None
            } else {
                let k = sp_ws(s, j);
                if !(j <= k <= s.len()) {
                    None
                } else if k < s.len() && s[k] == ',' {
                    let m = sp_ws(s, k + 1);
                    if !(k < m <= s.len()) {
                        None
                    } else {
                        sp_string_items(s, m, acc.push(v))
                    }
                } else if k < s.len() && s[k] == ']' {
                    Some((acc.push(v), k + 1))
                } else {
                    None
                }
            }
        },
    }
}

/// A JSON array of strings.
pub open spec fn sp_string_list(s: Seq<char>, i: int) -> Option<(Seq<Seq<char>>, int)> {
    if 0 <= i < s.len() && s[i] == '[' {
        let j = sp_ws(s, i + 1);
        if j < s.len() && s[j] == ']' {
            Some((Seq::empty(), j + 1))
        } else {
            sp_string_items(s, j, Seq::empty())
        }
    } else {
        None
    }
}

/// One `"key":` of an object member: the key string, the colon, and the
/// whitespace around it; yields the key and the position of the value.
pub open spec fn sp_member_key(s: Seq<char>, i: int) -> Option<(Seq<char>, int)> {
    match sp_string(s, i) {
        None => None,
        Some((k, j)) => {
            let j2 = sp_ws(s, j);
            if j2 < s.len() && s[j2] == ':' {
                Some((k, sp_ws(s, j2 + 1)))
            } else {
                None
            }
        },
    }
}

/// After one member's value: a comma leading to the next member's key,
/// or the closing brace. Yields the next key position, or the position
/// after the brace.
pub enum MemberEnd {
    More(int),
    Done(int),
}

/// What follows a member value inside an object.
pub open spec fn sp_member_end(s: Seq<char>, i: int) -> Option<MemberEnd> {
    let k = sp_ws(s, i);
    if k < s.len() && s[k] == ',' {
        Some(MemberEnd::More(sp_ws(s, k + 1)))
    } else if k < s.len() && s[k] == '}' {
        Some(MemberEnd::Done(k + 1))
    } else {
        None
    }
}

/// The members of the stats object, read from the first key. Every
/// field is required, none may repeat, and no other key is known.
pub open spec fn sp_stats_fields(
    s: Seq<char>,
    i: int,
    cur: EndpointStats,
    seen_f: bool,
    seen_s: bool,
    seen_l: bool,
) -> Option<(EndpointStats, int)>
    decreases s.len() - i,
{
    match sp_member_key(s, i) {
        None => None,
        Some((key, j)) => {
            if !(i < j <= s.len()) {
                None
            } else {
                let parsed: Option<(EndpointStats, int)> = if key == "failures"@ {
                    if seen_f {
                        None
                    } else {
                        match sp_u16(s, j) {
                            Some((v, j2)) => Some((EndpointStats { failures: v, ..cur }, j2)),
                            None => None,
                        }
                    }
                } else if key == "success"@ {
                    if seen_s {
                        None
                    } else {
                        match sp_u16(s, j) {
                            Some((v, j2)) => Some((EndpointStats { success: v, ..cur }, j2)),
                            None => None,
                        }
                    }
                } else if key == "latency"@ {
                    if seen_l {
                        None
                    } else {
                        match sp_latency(s, j) {
                            Some((v, j2)) => Some((EndpointStats { latency: v, ..cur }, j2)),
                            None => None,
                        }
                    }
                } else {
                    None
                };
                match parsed {
                    None => None,
                    Some((cur2, j2)) => {
                        if !(j <= j2 <= s.len()) {
                            None
                        } else {
                            let sf2 = seen_f || key == "failures"@;
                            let ss2 = seen_s || key == "success"@;
                            let sl2 = seen_l || key == "latency"@;
                            match sp_member_end(s, j2) {
                                None => None,
                                Some(MemberEnd::More(m)) => if !(j2 < m <= s.len()) {
                                    None
                                } else {
                                    sp_stats_fields(s, m, cur2, sf2, ss2, sl2)
                                },
                                Some(MemberEnd::Done(e)) => if sf2 && ss2 && sl2 {
                                    Some((cur2, e))
                                } else {
                                    None
                                },
                            }
                        }
                    },
                }
            }
        },
    }
}

/// The stats object.
pub open spec fn sp_stats(s: Seq<char>, i: int) -> Option<(EndpointStats, int)> {
    if 0 <= i < s.len() && s[i] == '{' {
        let j = sp_ws(s, i + 1);
        sp_stats_fields(
            s,
            j,
            EndpointStats { failures: 0, success: 0, latency: 0 },
            false,
            false,
            false,
        )
    } else {
        None
    }
}

/// A partially read endpoint: what has been seen, and the fields so far.
pub struct EpAcc {
    pub name: Option<Seq<char>>,
    pub labels: Seq<Seq<char>>,
    pub seen_labels: bool,
    pub aliases: Seq<Seq<char>>,
    pub seen_aliases: bool,
    pub url: Option<Seq<char>>,
    pub stats: EndpointStats,
    pub seen_stats: bool,
}

/// The empty endpoint accumulator: nothing seen, the defaulting fields
/// at their defaults.
pub open spec fn ep_acc0() -> EpAcc {
    EpAcc {
        name: None,
        labels: Seq::empty(),
        seen_labels: false,
        aliases: Seq::empty(),
        seen_aliases: false,
        url: None,
        stats: EndpointStats { failures: 0, success: 0, latency: 0 },
        seen_stats: false,
    }
}

/// The finished endpoint, if the required fields were seen and the url
/// carries a recognized scheme.
pub open spec fn ep_acc_finish(a: EpAcc) -> Option<EndpointV> {
    match (a.name, a.url) {
        (Some(n), Some(u)) => if crate::endpoint_url::spec_url_scheme_ok(u) {
            Some(EndpointV { name: n, labels: a.labels, aliases: a.aliases, url: u, stats: a.stats })
        } else {
            None
        },
        _ => None,
    }
}

/// The members of an endpoint object, read from the first key. `name`
/// and `url` are required; `labels`, `aliases` and `stats` default when
/// absent; none may repeat and no other key is known. An url outside
/// the four recognized schemes rejects the document.
pub open spec fn sp_endpoint_fields(s: Seq<char>, i: int, a: EpAcc) -> Option<(EndpointV, int)>
    decreases s.len() - i,
{
    match sp_member_key(s, i) {
        None => None,
        Some((key, j)) => {
            if !(i < j <= s.len()) {
                None
            } else {
                let parsed: Option<(EpAcc, int)> = if key == "name"@ {
                    if a.name is Some {
                        None
                    } else {
                        match sp_string(s, j) {
                            Some((v, j2)) => Some((EpAcc { name: Some(v), ..a }, j2)),
                            None => None,
                        }
                    }
                } else if key == "labels"@ {
                    if a.seen_labels {
                        None
                    } else {
                        match sp_string_list(s, j) {
                            Some((v, j2)) => Some(
                                (EpAcc { labels: v, seen_labels: true, ..a }, j2),
                            ),
                            None => None,
                        }
                    }
                } else if key == "aliases"@ {
                    if a.seen_aliases {
                        None
                    } else {
                        match sp_string_list(s, j) {
                            Some((v, j2)) => Some(
                                (EpAcc { aliases: v, seen_aliases: true, ..a }, j2),
                            ),
                            None => None,
                        }
                    }
                } else if key == "url"@ {
                    if a.url is Some {
                        None
                    } else {
                        match sp_string(s, j) {
                            Some((v, j2)) => Some((EpAcc { url: Some(v), ..a }, j2)),
                            None => None,
                        }
                    }
                } else if key == "stats"@ {
                    if a.seen_stats {
                        None
                    } else {
                        match sp_stats(s, j) {
                            Some((v, j2)) => Some((EpAcc { stats: v, seen_stats: true, ..a }, j2)),
                            None => None,
                        }
                    }
                } else {
                    None
                };
                match parsed {
                    None => None,
                    Some((a2, j2)) => {
                        if !(j <= j2 <= s.len()) {
                            None
                        } else {
                            match sp_member_end(s, j2) {
                                None => None,
                                Some(MemberEnd::More(m)) => if !(j2 < m <= s.len()) {
                                    None
                                } else {
                                    sp_endpoint_fields(s, m, a2)
                                },
                                Some(MemberEnd::Done(e)) => match ep_acc_finish(a2) {
                                    Some(v) => Some((v, e)),
                                    None => None,
                                },
                            }
                        }
                    },
                }
            }
        },
    }
}

/// An endpoint object.
pub open spec fn sp_endpoint(s: Seq<char>, i: int) -> Option<(EndpointV, int)> {
    if 0 <= i < s.len() && s[i] == '{' {
        let j = sp_ws(s, i + 1);
        sp_endpoint_fields(s, j, ep_acc0())
    } else {
        None
    }
}

/// The items of an endpoint array, read from the first item.
pub open spec fn sp_endpoint_items(s: Seq<char>, i: int, acc: Seq<EndpointV>) -> Option<
    (Seq<EndpointV>, int),
>
    decreases s.len() - i,
{
    match sp_endpoint(s, i) {
        None => None,
        Some((v, j)) => {
            if !(i < j <= s.len()) {
                None
            } else {
                let k = sp_ws(s, j);
                if !(j <= k <= s.len()) {
                    None
                } else if k < s.len() && s[k] == ',' {
                    let m = sp_ws(s, k + 1);
                    if !(k < m <= s.len()) {
                        None
                    } else {
                        sp_endpoint_items(s, m, acc.push(v))
                    }
                } else if k < s.len() && s[k] == ']' {
                    Some((acc.push(v), k + 1))
                } else {
                    None
                }
            }
        },
    }
}

/// A JSON array of endpoints.
pub open spec fn sp_endpoint_list(s: Seq<char>, i: int) -> Option<(Seq<EndpointV>, int)> {
    if 0 <= i < s.len() && s[i] == '[' {
        let j = sp_ws(s, i + 1);
        if j < s.len() && s[j] == ']' {
            Some((Seq::empty(), j + 1))
        } else {
            sp_endpoint_items(s, j, Seq::empty())
        }
    } else {
        None
    }
}

/// True when some bucket of `acc` carries this chain name.
pub open spec fn buckets_have(acc: Seq<(Seq<char>, Seq<EndpointV>)>, chain: Seq<char>) -> bool {
    exists|k: int| 0 <= k < acc.len() && (#[trigger] acc[k]).0 == chain
}

/// The members of the chain map, read from the first key: each chain
/// name mapping to an endpoint array, no chain name twice.
pub open spec fn sp_bucket_items(
    s: Seq<char>,
    i: int,
    acc: Seq<(Seq<char>, Seq<EndpointV>)>,
) -> Option<(Seq<(Seq<char>, Seq<EndpointV>)>, int)>
    decreases s.len() - i,
{
    match sp_member_key(s, i) {
        None => None,
        Some((chain, j)) => {
            if !(i < j <= s.len()) || buckets_have(acc, chain) {
                None
            } else {
                match sp_endpoint_list(s, j) {
                    None => None,
                    Some((eps, j2)) => {
                        if !(j <= j2 <= s.len()) {
                            None
                        } else {
                            let acc2 = acc.push((chain, eps));
                            match sp_member_end(s, j2) {
                                None => None,
                                Some(MemberEnd::More(m)) => if !(j2 < m <= s.len()) {
                                    None
                                } else {
                                    sp_bucket_items(s, m, acc2)
                                },
                                Some(MemberEnd::Done(e)) => Some((acc2, e)),
                            }
                        }
                    },
                }
            }
        },
    }
}

/// The chain map object.
pub open spec fn sp_buckets(s: Seq<char>, i: int) -> Option<(Seq<(Seq<char>, Seq<EndpointV>)>, int)> {
    if 0 <= i < s.len() && s[i] == '{' {
        let j = sp_ws(s, i + 1);
        if j < s.len() && s[j] == '}' {
            Some((Seq::empty(), j + 1))
        } else {
            sp_bucket_items(s, j, Seq::empty())
        }
    } else {
        None
    }
}

/// A partially read registry.
pub struct RegAcc {
    pub enabled: bool,
    pub seen_enabled: bool,
    pub name: Option<Seq<char>>,
    pub url: Option<Seq<char>>,
    pub seen_url: bool,
    pub labels: Seq<Seq<char>>,
    pub seen_labels: bool,
    pub last_update: Option<Seq<char>>,
    pub seen_last_update: bool,
    pub buckets: Option<Seq<(Seq<char>, Seq<EndpointV>)>>,
}

/// The empty registry accumulator: enabled unless said otherwise, the
/// optional fields absent.
pub open spec fn reg_acc0() -> RegAcc {
    RegAcc {
        enabled: true,
        seen_enabled: false,
        name: None,
        url: None,
        seen_url: false,
        labels: Seq::empty(),
        seen_labels: false,
        last_update: None,
        seen_last_update: false,
        buckets: None,
    }
}

/// The finished registry, if `name` and `rpc_endpoints` were seen.
pub open spec fn reg_acc_finish(a: RegAcc) -> Option<RegistryV> {
    match (a.name, a.buckets) {
        (Some(n), Some(b)) => Some(
            RegistryV {
                enabled: a.enabled,
                name: n,
                url: a.url,
                labels: a.labels,
                last_update: a.last_update,
                buckets: b,
            },
        ),
        _ => None,
    }
}

/// The members of a registry object, read from the first key. `name`
/// and `rpc_endpoints` are required; `enabled` defaults to true;
/// `url`, `labels` and `last_update` default to absent and empty; none
/// may repeat and no other key is known.
pub open spec fn sp_registry_fields(s: Seq<char>, i: int, a: RegAcc) -> Option<(RegistryV, int)>
    decreases s.len() - i,
{
    match sp_member_key(s, i) {
        None => None,
        Some((key, j)) => {
            if !(i < j <= s.len()) {
                None
            } else {
                let parsed: Option<(RegAcc, int)> = if key == "enabled"@ {
                    if a.seen_enabled {
                        None
                    } else {
                        match sp_bool(s, j) {
                            Some((v, j2)) => Some(
                                (RegAcc { enabled: v, seen_enabled: true, ..a }, j2),
                            ),
                            None => None,
                        }
                    }
                } else if key == "name"@ {
                    if a.name is Some {
                        None
                    } else {
                        match sp_string(s, j) {
                            Some((v, j2)) => Some((RegAcc { name: Some(v), ..a }, j2)),
                            None => None,
                        }
                    }
                } else if key == "url"@ {
                    if a.seen_url {
                        None
                    } else {
                        match sp_opt_string(s, j) {
                            Some((v, j2)) => Some((RegAcc { url: v, seen_url: true, ..a }, j2)),
                            None => None,
                        }
                    }
                } else if key == "labels"@ {
                    if a.seen_labels {
                        None
                    } else {
                        match sp_string_list(s, j) {
                            Some((v, j2)) => Some(
                                (RegAcc { labels: v, seen_labels: true, ..a }, j2),
                            ),
                            None => None,
                        }
                    }
                } else if key == "last_update"@ {
                    if a.seen_last_update {
                        None
                    } else {
                        match sp_opt_string(s, j) {
                            Some((v, j2)) => Some(
                                (RegAcc { last_update: v, seen_last_update: true, ..a }, j2),
                            ),
                            None => None,
                        }
                    }
                } else if key == "rpc_endpoints"@ {
                    if a.buckets is Some {
                        None
                    } else {
                        match sp_buckets(s, j) {
                            Some((v, j2)) => Some((RegAcc { buckets: Some(v), ..a }, j2)),
                            None => None,
                        }
                    }
                } else {
                    None
                };
                match parsed {
                    None => None,
                    Some((a2, j2)) => {
                        if !(j <= j2 <= s.len()) {
                            None
                        } else {
                            match sp_member_end(s, j2) {
                                None => None,
                                Some(MemberEnd::More(m)) => if !(j2 < m <= s.len()) {
                                    None
                                } else {
                                    sp_registry_fields(s, m, a2)
                                },
                                Some(MemberEnd::Done(e)) => match reg_acc_finish(a2) {
                                    Some(v) => Some((v, e)),
                                    None => None,
                                },
                            }
                        }
                    },
                }
            }
        },
    }
}

/// A registry object.
pub open spec fn sp_registry(s: Seq<char>, i: int) -> Option<(RegistryV, int)> {
    if 0 <= i < s.len() && s[i] == '{' {
        let j = sp_ws(s, i + 1);
        sp_registry_fields(s, j, reg_acc0())
    } else {
        None
    }
}

/// True when some registry of `acc` carries this name.
pub open spec fn regs_have(acc: Seq<RegistryV>, name: Seq<char>) -> bool {
    exists|k: int| 0 <= k < acc.len() && (#[trigger] acc[k]).name == name
}

/// The members of the registries map, read from the first key: each
/// registry keyed by its own name — a key differing from the name
/// inside the value, or repeated, rejects the document.
pub open spec fn sp_registry_map_items(s: Seq<char>, i: int, acc: Seq<RegistryV>) -> Option<
    (Seq<RegistryV>, int),
>
    decreases s.len() - i,
{
    match sp_member_key(s, i) {
        None => None,
        Some((key, j)) => {
            if !(i < j <= s.len()) || regs_have(acc, key) {
                None
            } else {
                match sp_registry(s, j) {
                    None => None,
                    Some((reg, j2)) => {
                        if !(j <= j2 <= s.len()) || reg.name != key {
                            None
                        } else {
                            let acc2 = acc.push(reg);
                            match sp_member_end(s, j2) {
                                None => None,
                                Some(MemberEnd::More(m)) => if !(j2 < m <= s.len()) {
                                    None
                                } else {
                                    sp_registry_map_items(s, m, acc2)
                                },
                                Some(MemberEnd::Done(e)) => Some((acc2, e)),
                            }
                        }
                    },
                }
            }
        },
    }
}

/// The registries map object.
pub open spec fn sp_registries(s: Seq<char>, i: int) -> Option<(Seq<RegistryV>, int)> {
    if 0 <= i < s.len() && s[i] == '{' {
        let j = sp_ws(s, i + 1);
        if j < s.len() && s[j] == '}' {
            Some((Seq::empty(), j + 1))
        } else {
            sp_registry_map_items(s, j, Seq::empty())
        }
    } else {
        None
    }
}

/// A partially read store.
pub struct DataAcc {
    pub file: Option<Seq<char>>,
    pub registries: Option<Seq<RegistryV>>,
    pub last_update: Option<Seq<char>>,
    pub seen_last_update: bool,
}

/// The empty store accumulator.
pub open spec fn data_acc0() -> DataAcc {
    DataAcc { file: None, registries: None, last_update: None, seen_last_update: false }
}

/// The finished store, if `file` and `registries` were seen.
pub open spec fn data_acc_finish(a: DataAcc) -> Option<LocalDataV> {
    match (a.file, a.registries) {
        (Some(f), Some(r)) => Some(
            LocalDataV { file: f, registries: r, last_update: a.last_update },
        ),
        _ => None,
    }
}

/// The members of the store object, read from the first key. `file` and
/// `registries` are required, `last_update` defaults to absent; none may
/// repeat and no other key is known.
pub open spec fn sp_data_fields(s: Seq<char>, i: int, a: DataAcc) -> Option<(LocalDataV, int)>
    decreases s.len() - i,
{
    match sp_member_key(s, i) {
        None => None,
        Some((key, j)) => {
            if !(i < j <= s.len()) {
                None
            } else {
                let parsed: Option<(DataAcc, int)> = if key == "file"@ {
                    if a.file is Some {
                        None
                    } else {
                        match sp_string(s, j) {
                            Some((v, j2)) => Some((DataAcc { file: Some(v), ..a }, j2)),
                            None => None,
                        }
                    }
                } else if key == "registries"@ {
                    if a.registries is Some {
                        None
                    } else {
                        match sp_registries(s, j) {
                            Some((v, j2)) => Some((DataAcc { registries: Some(v), ..a }, j2)),
                            None => None,
                        }
                    }
                } else if key == "last_update"@ {
                    if a.seen_last_update {
                        None
                    } else {
                        match sp_opt_string(s, j) {
                            Some((v, j2)) => Some(
                                (DataAcc { last_update: v, seen_last_update: true, ..a }, j2),
                            ),
                            None => None,
                        }
                    }
                } else {
                    None
                };
                match parsed {
                    None => None,
                    Some((a2, j2)) => {
                        if !(j <= j2 <= s.len()) {
                            None
                        } else {
                            match sp_member_end(s, j2) {
                                None => None,
                                Some(MemberEnd::More(m)) => if !(j2 < m <= s.len()) {
                                    None
                                } else {
                                    sp_data_fields(s, m, a2)
                                },
                                Some(MemberEnd::Done(e)) => match data_acc_finish(a2) {
                                    Some(v) => Some((v, e)),
                                    None => None,
                                },
                            }
                        }
                    },
                }
            }
        },
    }
}

/// The store object.
pub open spec fn sp_local_data(s: Seq<char>, i: int) -> Option<(LocalDataV, int)> {
    if 0 <= i < s.len() && s[i] == '{' {
        let j = sp_ws(s, i + 1);
        sp_data_fields(s, j, data_acc0())
    } else {
        None
    }
}

/// A whole registry document: one registry object with nothing but
/// whitespace around it.
pub open spec fn sp_registry_doc(s: Seq<char>) -> Option<RegistryV> {
    match sp_registry(s, sp_ws(s, 0)) {
        None => None,
        Some((v, j)) => if sp_ws(s, j) == s.len() {
            Some(v)
        } else {
            None
        },
    }
}

/// A whole store document: one store object with nothing but whitespace
/// around it.
pub open spec fn sp_local_data_doc(s: Seq<char>) -> Option<LocalDataV> {
    match sp_local_data(s, sp_ws(s, 0)) {
        None => None,
        Some((v, j)) => if sp_ws(s, j) == s.len() {
            Some(v)
        } else {
            None
        },
    }
}

// ---------------------------------------------------------------------
// The parser.
// ---------------------------------------------------------------------
/// A document the parser rejects.
#[derive(Debug, Clone, Copy, PartialEq, Eq, Structural)]
pub enum ParseError {
    Malformed,
}

/// Skip whitespace from `i`.
fn x_ws(s: &str, i: usize) -> (r: usize)
    requires
        i <= s@.len(),
    ensures
        r as int == sp_ws(s@, i as int),
        i <= r <= s@.len(),
{
    let n = s.unicode_len();
    let mut r = i;
    while r < n
        invariant
            i <= r <= n,
            n == s@.len(),
            sp_ws(s@, i as int) == sp_ws(s@, r as int),
        decreases n - r,
    {
        let c = s.get_char(r);
        if !(c == ' ' || c == '\t' || c == '\n' || c == '\r') {
            return r;
        }
        r += 1;
    }
    r
}

/// True when `lit` stands at `i`.
fn x_lit(s: &str, i: usize, lit: &str) -> (r: bool)
    requires
        i <= s@.len(),
    ensures
        r == sp_lit(s@, i as int, lit@),
{
    let m = lit.unicode_len();
    let n = s.unicode_len();
    if m > n - i {
        assert(!sp_lit(s@, i as int, lit@));
        return false;
    }
    let mut k: usize = 0;
    while k < m
        invariant
            0 <= k <= m,
            m == lit@.len(),
            i + m <= n,
            n == s@.len(),
            forall|t: int| 0 <= t < k ==> s@[i + t] == lit@[t],
        decreases m - k,
    {
        if s.get_char(i + k) != lit.get_char(k) {
            assert(!sp_lit(s@, i as int, lit@)) by {
                if sp_lit(s@, i as int, lit@) {
                    assert(s@.subrange(i as int, i as int + lit@.len())[k as int]
                        == lit@[k as int]);
                }
            }
            return false;
        }
        k += 1;
    }
    proof {
        assert(s@.subrange(i as int, i as int + lit@.len()) =~= lit@);
    }
    true
}

/// A JSON boolean.
fn x_bool(s: &str, i: usize) -> (r: Option<(bool, usize)>)
    requires
        i <= s@.len(),
    ensures
        ({
            match (r, sp_bool(s@, i as int)) {
                (Some((v, j)), Some((sv, sj))) => v == sv && j as int == sj && i < j <= s@.len(),
                (None, None) => true,
                _ => false,
            }
        }),
{
    let n = s.unicode_len();
    if x_lit(s, i, "true") {
        proof {
            reveal_strlit("true");
            assert(i + 4 <= n);
        }
        Some((true, i + 4))
    } else if x_lit(s, i, "false") {
        proof {
            reveal_strlit("true");
            reveal_strlit("false");
            assert(i + 5 <= n);
        }
        Some((false, i + 5))
    } else {
        proof {
            reveal_strlit("true");
            reveal_strlit("false");
        }
        None
    }
}

/// The body of a JSON string, from just after the opening quote.
fn x_str_body(s: &str, i: usize) -> (r: Option<(String, usize)>)
    requires
        i <= s@.len(),
    ensures
        ({
            match (r, sp_str_body(s@, i as int)) {
                (Some((v, j)), Some((sv, sj))) => v@ == sv && j as int == sj && i < j <= s@.len(),
                (None, None) => true,
                _ => false,
            }
        }),
    decreases s@.len() - i,
{
    let n = s.unicode_len();
    if i >= n {
        return None;
    }
    let c = s.get_char(i);
    if c == '"' {
        let out = String::new();
        proof {
            assert(out@ =~= (sp_str_body(s@, i as int)->0).0);
        }
        return Some((out, i + 1));
    }
    if c == '\\' {
        if i + 1 >= n {
            return None;
        }
        let e = s.get_char(i + 1);
        let piece: &str = if e == '"' {
            "\""
        } else if e == '\\' {
            "\\"
        } else if e == '/' {
            "/"
        } else if e == 'n' {
            "\n"
        } else if e == 'r' {
            "\r"
        } else if e == 't' {
            "\t"
        } else {
            return None;
        };
        proof {
            reveal_strlit("\"");
            reveal_strlit("\\");
            reveal_strlit("/");
            reveal_strlit("\n");
            reveal_strlit("\r");
            reveal_strlit("\t");
        }
        match x_str_body(s, i + 2) {
            None => {
                return None;
            },
            Some((t, j)) => {
                let mut out = piece.to_owned();
                out.append(t.as_str());
                proof {
                    let sc = if e == 'n' {
                        '\n'
                    } else if e == 'r' {
                        '\r'
                    } else if e == 't' {
                        '\t'
                    } else {
                        e
                    };
                    assert(piece@ =~= seq![sc]);
                    assert(out@ =~= (sp_str_body(s@, i as int)->0).0);
                }
                return Some((out, j));
            },
        }
    }
    if (c as u32) < 32 {
        return None;
    }
    match x_str_body(s, i + 1) {
        None => None,
        Some((t, j)) => {
            let piece = s.substring_char(i, i + 1);
            let mut out = piece.to_owned();
            out.append(t.as_str());
            proof {
                assert(piece@ =~= seq![s@[i as int]]);
                assert(out@ =~= (sp_str_body(s@, i as int)->0).0);
            }
            Some((out, j))
        },
    }
}

/// A JSON string.
fn x_string(s: &str, i: usize) -> (r: Option<(String, usize)>)
    requires
        i <= s@.len(),
    ensures
        ({
            match (r, sp_string(s@, i as int)) {
                (Some((v, j)), Some((sv, sj))) => v@ == sv && j as int == sj && i < j <= s@.len(),
                (None, None) => true,
                _ => false,
            }
        }),
{
    let n = s.unicode_len();
    if i < n && s.get_char(i) == '"' {
        x_str_body(s, i + 1)
    } else {
        None
    }
}

/// A run of digits into a number.
fn x_digits(s: &str, i: usize, acc: u64) -> (r: Option<(u64, usize)>)
    requires
        i <= s@.len(),
    ensures
        ({
            match (r, sp_digits(s@, i as int, acc as nat)) {
                (Some((v, j)), Some((sv, sj))) => v as nat == sv && j as int == sj && i <= j
                    <= s@.len(),
                (None, None) => true,
                _ => false,
            }
        }),
    decreases s@.len() - i,
{
    let n = s.unicode_len();
    if i < n {
        let c = s.get_char(i);
        let cu = c as u32;
        if 48 <= cu && cu <= 57 {
            proof {
                assert(is_digit(s@[i as int]));
            }
            let d = (cu - 48) as u64;
            proof {
                assert(d as nat == digit_val(s@[i as int]));
            }
            if acc > (u64::MAX - d) / 10 {
                proof {
                    assert((acc as nat) * 10 + d as nat > u64::MAX as nat) by (nonlinear_arith)
                        requires
                            acc as nat > ((u64::MAX - d) as nat) / 10,
                            0 <= d < 10,
                            acc <= u64::MAX,
                    ;
                }
                return None;
            }
            proof {
                assert((acc as nat) * 10 + d as nat <= u64::MAX as nat) by (nonlinear_arith)
                    requires
                        acc as nat <= ((u64::MAX - d) as nat) / 10,
                        0 <= d < 10,
                ;
            }
            let acc2 = acc * 10 + d;
            x_digits(s, i + 1, acc2)
        } else {
            proof {
                assert(!is_digit(s@[i as int]));
            }
            Some((acc, i))
        }
    } else {
        Some((acc, i))
    }
}

/// An unsigned decimal number.
fn x_u64(s: &str, i: usize) -> (r: Option<(u64, usize)>)
    requires
        i <= s@.len(),
    ensures
        ({
            match (r, sp_u64(s@, i as int)) {
                (Some((v, j)), Some((sv, sj))) => v as nat == sv && j as int == sj && i <= j
                    <= s@.len(),
                (None, None) => true,
                _ => false,
            }
        }),
{
    let n = s.unicode_len();
    if i < n {
        let cu = s.get_char(i) as u32;
        if 48 <= cu && cu <= 57 {
            proof {
                assert(is_digit(s@[i as int]));
            }
            return x_digits(s, i, 0);
        }
        proof {
            assert(!is_digit(s@[i as int]));
        }
    }
    None
}

/// A counter.
fn x_u16(s: &str, i: usize) -> (r: Option<(u16, usize)>)
    requires
        i <= s@.len(),
    ensures
        ({
            match (r, sp_u16(s@, i as int)) {
                (Some((v, j)), Some((sv, sj))) => v == sv && j as int == sj && i <= j <= s@.len(),
                (None, None) => true,
                _ => false,
            }
        }),
{
    match x_u64(s, i) {
        None => None,
        Some((v, j)) => {
            if v <= u16::MAX as u64 {
                Some((v as u16, j))
            } else {
                None
            }
        },
    }
}

/// The end of a digit run.
fn x_digit_run_end(s: &str, i: usize) -> (r: usize)
    requires
        i <= s@.len(),
    ensures
        r as int == sp_digit_run_end(s@, i as int),
        i <= r <= s@.len(),
{
    let n = s.unicode_len();
    let mut r = i;
    while r < n
        invariant
            i <= r <= n,
            n == s@.len(),
            sp_digit_run_end(s@, i as int) == sp_digit_run_end(s@, r as int),
        decreases n - r,
    {
        let cu = s.get_char(r) as u32;
        if !(48 <= cu && cu <= 57) {
            proof {
                assert(!is_digit(s@[r as int]));
            }
            return r;
        }
        proof {
            assert(is_digit(s@[r as int]));
        }
        r += 1;
    }
    r
}

/// Latency as decimal seconds, to milliseconds.
fn x_latency(s: &str, i: usize) -> (r: Option<(u64, usize)>)
    requires
        i <= s@.len(),
    ensures
        ({
            match (r, sp_latency(s@, i as int)) {
                (Some((v, j)), Some((sv, sj))) => v == sv && j as int == sj && i <= j <= s@.len(),
                (None, None) => true,
                _ => false,
            }
        }),
{
    let n = s.unicode_len();
    match x_u64(s, i) {
        None => None,
        Some((whole, j)) => {
            if whole > (u64::MAX - 999) / 1000 {
                return None;
            }
            if j < n && s.get_char(j) == '.' {
                if j + 1 < n {
                    let cu = s.get_char(j + 1) as u32;
                    if 48 <= cu && cu <= 57 {
                        proof {
                            assert(is_digit(s@[j as int + 1]));
                        }
                        let e = x_digit_run_end(s, j + 1);
                        let d1 = (cu - 48) as u64;
                        proof {
                            assert(d1 as nat == digit_val(s@[j as int + 1]));
                        }
                        let frac: u64 = if e - j >= 4 {
                            proof {
                                lemma_run_digits(s@, j as int + 1, e as int);
                            }
                            let d2 = (s.get_char(j + 2) as u32 - 48) as u64;
                            let d3 = (s.get_char(j + 3) as u32 - 48) as u64;
                            d1 * 100 + d2 * 10 + d3
                        } else if e - j == 3 {
                            proof {
                                lemma_run_digits(s@, j as int + 1, e as int);
                            }
                            let d2 = (s.get_char(j + 2) as u32 - 48) as u64;
                            d1 * 100 + d2 * 10
                        } else {
                            d1 * 100
                        };
                        return Some((whole * 1000 + frac, e));
                    }
                    proof {
                        assert(!is_digit(s@[j as int + 1]));
                    }
                }
                return None;
            }
            Some((whole * 1000, j))
        },
    }
}

/// Between the start of a digit run and its end stand only digits.
pub proof fn lemma_run_digits(s: Seq<char>, i: int, e: int)
    requires
        0 <= i <= s.len(),
        e == sp_digit_run_end(s, i),
    ensures
        forall|k: int| i <= k < e ==> is_digit(#[trigger] s[k]),
        i <= e <= s.len(),
    decreases s.len() - i,
{
    if i < s.len() && is_digit(s[i]) {
        lemma_run_digits(s, i + 1, e);
    }
}

/// `null`, or a JSON string.
fn x_opt_string(s: &str, i: usize) -> (r: Option<(Option<String>, usize)>)
    requires
        i <= s@.len(),
    ensures
        ({
            match (r, sp_opt_string(s@, i as int)) {
                (Some((v, j)), Some((sv, sj))) => opt_view(v) == sv && j as int == sj && i < j
                    <= s@.len(),
                (None, None) => true,
                _ => false,
            }
        }),
{
    let nn = s.unicode_len();
    if x_lit(s, i, "null") {
        proof {
            reveal_strlit("null");
            assert(i + 4 <= nn);
        }
        return Some((None, i + 4));
    }
    proof {
        reveal_strlit("null");
    }
    match x_string(s, i) {
        Some((v, j)) => Some((Some(v), j)),
        None => None,
    }
}

/// The items of a JSON array of strings.
fn x_string_items(s: &str, i: usize, acc: Vec<String>) -> (r: Option<(Vec<String>, usize)>)
    requires
        i <= s@.len(),
    ensures
        ({
            match (r, sp_string_items(s@, i as int, views_of(acc@))) {
                (Some((v, j)), Some((sv, sj))) => views_of(v@) == sv && j as int == sj && i < j
                    <= s@.len(),
                (None, None) => true,
                _ => false,
            }
        }),
    decreases s@.len() - i,
{
    let n = s.unicode_len();
    match x_string(s, i) {
        None => None,
        Some((v, j)) => {
            let k = x_ws(s, j);
            let mut acc2 = acc;
            let ghost accv = views_of(acc2@);
            acc2.push(v);
            proof {
                assert(views_of(acc2@) =~= accv.push(v@));
            }
            if k < n && s.get_char(k) == ',' {
                let m = x_ws(s, k + 1);
                x_string_items(s, m, acc2)
            } else if k < n && s.get_char(k) == ']' {
                Some((acc2, k + 1))
            } else {
                None
            }
        },
    }
}

/// A JSON array of strings.
fn x_string_list(s: &str, i: usize) -> (r: Option<(Vec<String>, usize)>)
    requires
        i <= s@.len(),
    ensures
        ({
            match (r, sp_string_list(s@, i as int)) {
                (Some((v, j)), Some((sv, sj))) => views_of(v@) == sv && j as int == sj && i < j
                    <= s@.len(),
                (None, None) => true,
                _ => false,
            }
        }),
{
    let n = s.unicode_len();
    if i < n && s.get_char(i) == '[' {
        let j = x_ws(s, i + 1);
        if j < n && s.get_char(j) == ']' {
            let out: Vec<String> = Vec::new();
            proof {
                assert(views_of(out@) =~= Seq::<Seq<char>>::empty());
            }
            Some((out, j + 1))
        } else {
            let acc: Vec<String> = Vec::new();
            proof {
                assert(views_of(acc@) =~= Seq::<Seq<char>>::empty());
            }
            x_string_items(s, j, acc)
        }
    } else {
        None
    }
}

/// One `"key":` of an object member.
fn x_member_key(s: &str, i: usize) -> (r: Option<(String, usize)>)
    requires
        i <= s@.len(),
    ensures
        ({
            match (r, sp_member_key(s@, i as int)) {
                (Some((v, j)), Some((sv, sj))) => v@ == sv && j as int == sj && i < j <= s@.len(),
                (None, None) => true,
                _ => false,
            }
        }),
{
    let n = s.unicode_len();
    match x_string(s, i) {
        None => None,
        Some((k, j)) => {
            let j2 = x_ws(s, j);
            if j2 < n && s.get_char(j2) == ':' {
                let j3 = x_ws(s, j2 + 1);
                Some((k, j3))
            } else {
                None
            }
        },
    }
}

/// What follows a member value: `Some((true, m))` for a comma and the
/// next key at `m`, `Some((false, e))` for the closing brace with the
/// object ending at `e`.
fn x_member_end(s: &str, i: usize) -> (r: Option<(bool, usize)>)
    requires
        i <= s@.len(),
    ensures
        ({
            match (r, sp_member_end(s@, i as int)) {
                (Some((more, j)), Some(MemberEnd::More(m))) => more && j as int == m && i < j
                    <= s@.len(),
                (Some((more, j)), Some(MemberEnd::Done(e))) => !more && j as int == e && i < j
                    <= s@.len(),
                (None, None) => true,
                _ => false,
            }
        }),
{
    let n = s.unicode_len();
    let k = x_ws(s, i);
    if k < n && s.get_char(k) == ',' {
        let m = x_ws(s, k + 1);
        Some((true, m))
    } else if k < n && s.get_char(k) == '}' {
        Some((false, k + 1))
    } else {
        None
    }
}

/// The members of the stats object.
fn x_stats_fields(
    s: &str,
    i: usize,
    cur: EndpointStats,
    seen_f: bool,
    seen_s: bool,
    seen_l: bool,
) -> (r: Option<(EndpointStats, usize)>)
    requires
        i <= s@.len(),
    ensures
        ({
            match (r, sp_stats_fields(s@, i as int, cur, seen_f, seen_s, seen_l)) {
                (Some((v, j)), Some((sv, sj))) => v == sv && j as int == sj && i < j <= s@.len(),
                (None, None) => true,
                _ => false,
            }
        }),
    decreases s@.len() - i,
{
    match x_member_key(s, i) {
        None => None,
        Some((key, j)) => {
            let parsed: Option<(EndpointStats, usize)> = if crate::text::str_eq(
                key.as_str(),
                "failures",
            ) {
                if seen_f {
                    None
                } else {
                    match x_u16(s, j) {
                        Some((v, j2)) => Some((EndpointStats { failures: v, ..cur }, j2)),
                        None => None,
                    }
                }
            } else if crate::text::str_eq(key.as_str(), "success") {
                if seen_s {
                    None
                } else {
                    match x_u16(s, j) {
                        Some((v, j2)) => Some((EndpointStats { success: v, ..cur }, j2)),
                        None => None,
                    }
                }
            } else if crate::text::str_eq(key.as_str(), "latency") {
                if seen_l {
                    None
                } else {
                    match x_latency(s, j) {
                        Some((v, j2)) => Some((EndpointStats { latency: v, ..cur }, j2)),
                        None => None,
                    }
                }
            } else {
                None
            };
            match parsed {
                None => None,
                Some((cur2, j2)) => {
                    let sf2 = seen_f || crate::text::str_eq(key.as_str(), "failures");
                    let ss2 = seen_s || crate::text::str_eq(key.as_str(), "success");
                    let sl2 = seen_l || crate::text::str_eq(key.as_str(), "latency");
                    match x_member_end(s, j2) {
                        None => None,
                        Some((true, m)) => x_stats_fields(s, m, cur2, sf2, ss2, sl2),
                        Some((false, e)) => if sf2 && ss2 && sl2 {
                            Some((cur2, e))
                        } else {
                            None
                        },
                    }
                },
            }
        },
    }
}

/// The stats object.
fn x_stats(s: &str, i: usize) -> (r: Option<(EndpointStats, usize)>)
    requires
        i <= s@.len(),
    ensures
        ({
            match (r, sp_stats(s@, i as int)) {
                (Some((v, j)), Some((sv, sj))) => v == sv && j as int == sj && i < j <= s@.len(),
                (None, None) => true,
                _ => false,
            }
        }),
{
    let n = s.unicode_len();
    if i < n && s.get_char(i) == '{' {
        let j = x_ws(s, i + 1);
        x_stats_fields(s, j, EndpointStats { failures: 0, success: 0, latency: 0 }, false, false, false)
    } else {
        None
    }
}

/// A partially read endpoint, as the parser holds it.
struct EpAccE {
    name: Option<String>,
    labels: Vec<String>,
    seen_labels: bool,
    aliases: Vec<String>,
    seen_aliases: bool,
    url: Option<String>,
    stats: EndpointStats,
    seen_stats: bool,
}

/// How the parser's endpoint accumulator reads in specifications.
spec fn ep_acc_v(a: EpAccE) -> EpAcc {
    EpAcc {
        name: opt_view(a.name),
        labels: views_of(a.labels@),
        seen_labels: a.seen_labels,
        aliases: views_of(a.aliases@),
        seen_aliases: a.seen_aliases,
        url: opt_view(a.url),
        stats: a.stats,
        seen_stats: a.seen_stats,
    }
}

/// The members of an endpoint object.
fn x_endpoint_fields(s: &str, i: usize, a: EpAccE) -> (r: Option<(Endpoint, usize)>)
    requires
        i <= s@.len(),
    ensures
        ({
            match (r, sp_endpoint_fields(s@, i as int, ep_acc_v(a))) {
                (Some((v, j)), Some((sv, sj))) => ep_v(v) == sv && j as int == sj && i < j
                    <= s@.len() && v.url.wf(),
                (None, None) => true,
                _ => false,
            }
        }),
    decreases s@.len() - i,
{
    match x_member_key(s, i) {
        None => None,
        Some((key, j)) => {
            let parsed: Option<(EpAccE, usize)> = if crate::text::str_eq(key.as_str(), "name") {
                if a.name.is_some() {
                    None
                } else {
                    match x_string(s, j) {
                        Some((v, j2)) => Some((EpAccE { name: Some(v), ..a }, j2)),
                        None => None,
                    }
                }
            } else if crate::text::str_eq(key.as_str(), "labels") {
                if a.seen_labels {
                    None
                } else {
                    match x_string_list(s, j) {
                        Some((v, j2)) => Some((EpAccE { labels: v, seen_labels: true, ..a }, j2)),
                        None => None,
                    }
                }
            } else if crate::text::str_eq(key.as_str(), "aliases") {
                if a.seen_aliases {
                    None
                } else {
                    match x_string_list(s, j) {
                        Some((v, j2)) => Some(
                            (EpAccE { aliases: v, seen_aliases: true, ..a }, j2),
                        ),
                        None => None,
                    }
                }
            } else if crate::text::str_eq(key.as_str(), "url") {
                if a.url.is_some() {
                    None
                } else {
                    match x_string(s, j) {
                        Some((v, j2)) => Some((EpAccE { url: Some(v), ..a }, j2)),
                        None => None,
                    }
                }
            } else if crate::text::str_eq(key.as_str(), "stats") {
                if a.seen_stats {
                    None
                } else {
                    match x_stats(s, j) {
                        Some((v, j2)) => Some((EpAccE { stats: v, seen_stats: true, ..a }, j2)),
                        None => None,
                    }
                }
            } else {
                None
            };
            match parsed {
                None => None,
                Some((a2, j2)) => {
                    match x_member_end(s, j2) {
                        None => None,
                        Some((true, m)) => x_endpoint_fields(s, m, a2),
                        Some((false, e)) => {
                            match (a2.name, a2.url) {
                                (Some(nm), Some(u)) => {
                                    match crate::endpoint_url::EndpointUrl::parse(u.as_str()) {
                                        Ok(pu) => {
                                            let ep = Endpoint {
                                                name: nm,
                                                labels: a2.labels,
                                                aliases: a2.aliases,
                                                url: pu,
                                                stats: a2.stats,
                                            };
                                            Some((ep, e))
                                        },
                                        Err(_) => None,
                                    }
                                },
                                _ => None,
                            }
                        },
                    }
                },
            }
        },
    }
}

/// An endpoint object.
fn x_endpoint(s: &str, i: usize) -> (r: Option<(Endpoint, usize)>)
    requires
        i <= s@.len(),
    ensures
        ({
            match (r, sp_endpoint(s@, i as int)) {
                (Some((v, j)), Some((sv, sj))) => ep_v(v) == sv && j as int == sj && i < j
                    <= s@.len() && v.url.wf(),
                (None, None) => true,
                _ => false,
            }
        }),
{
    let n = s.unicode_len();
    if i < n && s.get_char(i) == '{' {
        let j = x_ws(s, i + 1);
        let a = EpAccE {
            name: None,
            labels: Vec::new(),
            seen_labels: false,
            aliases: Vec::new(),
            seen_aliases: false,
            url: None,
            stats: EndpointStats { failures: 0, success: 0, latency: 0 },
            seen_stats: false,
        };
        proof {
            assert(views_of(a.labels@) =~= Seq::<Seq<char>>::empty());
            assert(views_of(a.aliases@) =~= Seq::<Seq<char>>::empty());
            assert(ep_acc_v(a) == ep_acc0());
        }
        x_endpoint_fields(s, j, a)
    } else {
        None
    }
}

/// Every url of the list of endpoints carries a tag derived from its
/// text.
pub open spec fn eps_urls_wf(v: Seq<Endpoint>) -> bool {
    forall|k: int| 0 <= k < v.len() ==> (#[trigger] v[k]).url.wf()
}

/// The items of an endpoint array.
fn x_endpoint_items(s: &str, i: usize, acc: Vec<Endpoint>) -> (r: Option<(Vec<Endpoint>, usize)>)
    requires
        i <= s@.len(),
        eps_urls_wf(acc@),
    ensures
        ({
            match (r, sp_endpoint_items(s@, i as int, acc@.map_values(|e: Endpoint| ep_v(e)))) {
                (Some((v, j)), Some((sv, sj))) => v@.map_values(|e: Endpoint| ep_v(e)) == sv && j
                    as int == sj && i < j <= s@.len() && eps_urls_wf(v@),
                (None, None) => true,
                _ => false,
            }
        }),
    decreases s@.len() - i,
{
    let n = s.unicode_len();
    match x_endpoint(s, i) {
        None => None,
        Some((v, j)) => {
            let k = x_ws(s, j);
            let mut acc2 = acc;
            let ghost accv = acc2@.map_values(|e: Endpoint| ep_v(e));
            acc2.push(v);
            proof {
                assert(acc2@.map_values(|e: Endpoint| ep_v(e)) =~= accv.push(ep_v(v)));
            }
            if k < n && s.get_char(k) == ',' {
                let m = x_ws(s, k + 1);
                x_endpoint_items(s, m, acc2)
            } else if k < n && s.get_char(k) == ']' {
                Some((acc2, k + 1))
            } else {
                None
            }
        },
    }
}

/// A JSON array of endpoints.
fn x_endpoint_list(s: &str, i: usize) -> (r: Option<(Vec<Endpoint>, usize)>)
    requires
        i <= s@.len(),
    ensures
        ({
            match (r, sp_endpoint_list(s@, i as int)) {
                (Some((v, j)), Some((sv, sj))) => v@.map_values(|e: Endpoint| ep_v(e)) == sv && j
                    as int == sj && i < j <= s@.len() && eps_urls_wf(v@),
                (None, None) => true,
                _ => false,
            }
        }),
{
    let n = s.unicode_len();
    if i < n && s.get_char(i) == '[' {
        let j = x_ws(s, i + 1);
        if j < n && s.get_char(j) == ']' {
            let out: Vec<Endpoint> = Vec::new();
            proof {
                assert(out@.map_values(|e: Endpoint| ep_v(e)) =~= Seq::<EndpointV>::empty());
            }
            Some((out, j + 1))
        } else {
            let acc: Vec<Endpoint> = Vec::new();
            proof {
                assert(acc@.map_values(|e: Endpoint| ep_v(e)) =~= Seq::<EndpointV>::empty());
            }
            x_endpoint_items(s, j, acc)
        }
    } else {
        None
    }
}

/// Every url of every endpoint of the buckets carries a derived tag.
pub open spec fn buckets_urls_wf(v: Seq<(ChainName, Vec<Endpoint>)>) -> bool {
    forall|k: int| 0 <= k < v.len() ==> eps_urls_wf((#[trigger] v[k]).1@)
}

/// True when some bucket of `acc` is stored under this chain name.
fn x_buckets_have(acc: &Vec<(ChainName, Vec<Endpoint>)>, chain: &str) -> (r: bool)
    ensures
        r == buckets_have(
            acc@.map_values(|b: (ChainName, Vec<Endpoint>)| bucket_v(b)),
            chain@,
        ),
{
    let ghost bv = acc@.map_values(|b: (ChainName, Vec<Endpoint>)| bucket_v(b));
    let n = acc.len();
    let mut k: usize = 0;
    while k < n
        invariant
            0 <= k <= n,
            n == acc@.len(),
            bv == acc@.map_values(|b: (ChainName, Vec<Endpoint>)| bucket_v(b)),
            forall|t: int| 0 <= t < k ==> (#[trigger] bv[t]).0 != chain@,
        decreases n - k,
    {
        if crate::text::str_eq(acc[k].0.as_str(), chain) {
            proof {
                assert(bv[k as int].0 == chain@);
            }
            return true;
        }
        proof {
            assert(bv[k as int].0 == acc@[k as int].0@);
        }
        k += 1;
    }
    proof {
        if buckets_have(bv, chain@) {
            let t = choose|t: int| 0 <= t < bv.len() && (#[trigger] bv[t]).0 == chain@;
            assert(bv[t].0 == chain@);
        }
    }
    false
}

/// The members of the chain map.
fn x_bucket_items(s: &str, i: usize, acc: Vec<(ChainName, Vec<Endpoint>)>) -> (r: Option<
    (Vec<(ChainName, Vec<Endpoint>)>, usize),
>)
    requires
        i <= s@.len(),
        buckets_urls_wf(acc@),
    ensures
        ({
            match (r,
                sp_bucket_items(
                    s@,
                    i as int,
                    acc@.map_values(|b: (ChainName, Vec<Endpoint>)| bucket_v(b)),
                )) {
                (Some((v, j)), Some((sv, sj))) => v@.map_values(
                    |b: (ChainName, Vec<Endpoint>)| bucket_v(b),
                ) == sv && j as int == sj && i < j <= s@.len() && buckets_urls_wf(v@),
                (None, None) => true,
                _ => false,
            }
        }),
    decreases s@.len() - i,
{
    match x_member_key(s, i) {
        None => None,
        Some((chain, j)) => {
            if x_buckets_have(&acc, chain.as_str()) {
                return None;
            }
            match x_endpoint_list(s, j) {
                None => None,
                Some((eps, j2)) => {
                    let mut acc2 = acc;
                    let ghost accv = acc2@.map_values(
                        |b: (ChainName, Vec<Endpoint>)| bucket_v(b),
                    );
                    acc2.push((chain, eps));
                    proof {
                        assert(acc2@.map_values(|b: (ChainName, Vec<Endpoint>)| bucket_v(b))
                            =~= accv.push(bucket_v(acc2@.last())));
                    }
                    match x_member_end(s, j2) {
                        None => None,
                        Some((true, m)) => x_bucket_items(s, m, acc2),
                        Some((false, e)) => Some((acc2, e)),
                    }
                },
            }
        },
    }
}

/// The chain map object.
fn x_buckets(s: &str, i: usize) -> (r: Option<(Vec<(ChainName, Vec<Endpoint>)>, usize)>)
    requires
        i <= s@.len(),
    ensures
        ({
            match (r, sp_buckets(s@, i as int)) {
                (Some((v, j)), Some((sv, sj))) => v@.map_values(
                    |b: (ChainName, Vec<Endpoint>)| bucket_v(b),
                ) == sv && j as int == sj && i < j <= s@.len() && buckets_urls_wf(v@),
                (None, None) => true,
                _ => false,
            }
        }),
{
    let n = s.unicode_len();
    if i < n && s.get_char(i) == '{' {
        let j = x_ws(s, i + 1);
        if j < n && s.get_char(j) == '}' {
            let out: Vec<(ChainName, Vec<Endpoint>)> = Vec::new();
            proof {
                assert(out@.map_values(|b: (ChainName, Vec<Endpoint>)| bucket_v(b)) =~= Seq::<
                    (Seq<char>, Seq<EndpointV>),
                >::empty());
            }
            Some((out, j + 1))
        } else {
            let acc: Vec<(ChainName, Vec<Endpoint>)> = Vec::new();
            proof {
                assert(acc@.map_values(|b: (ChainName, Vec<Endpoint>)| bucket_v(b)) =~= Seq::<
                    (Seq<char>, Seq<EndpointV>),
                >::empty());
            }
            x_bucket_items(s, j, acc)
        }
    } else {
        None
    }
}

/// A partially read registry, as the parser holds it.
struct RegAccE {
    enabled: bool,
    seen_enabled: bool,
    name: Option<String>,
    url: Option<String>,
    seen_url: bool,
    labels: Vec<String>,
    seen_labels: bool,
    last_update: Option<String>,
    seen_last_update: bool,
    buckets: Option<Vec<(ChainName, Vec<Endpoint>)>>,
}

/// How the parser's registry accumulator reads in specifications.
spec fn reg_acc_v(a: RegAccE) -> RegAcc {
    RegAcc {
        enabled: a.enabled,
        seen_enabled: a.seen_enabled,
        name: opt_view(a.name),
        url: opt_view(a.url),
        seen_url: a.seen_url,
        labels: views_of(a.labels@),
        seen_labels: a.seen_labels,
        last_update: opt_view(a.last_update),
        seen_last_update: a.seen_last_update,
        buckets: match a.buckets {
            None => None,
            Some(b) => Some(b@.map_values(|x: (ChainName, Vec<Endpoint>)| bucket_v(x))),
        },
    }
}

/// Every url of every endpoint of the registry carries a derived tag.
pub open spec fn registry_urls_wf(r: Registry) -> bool {
    buckets_urls_wf(r.rpc_endpoints@)
}

/// The members of a registry object.
#[verifier::rlimit(100)]
fn x_registry_fields(s: &str, i: usize, a: RegAccE) -> (r: Option<(Registry, usize)>)
    requires
        i <= s@.len(),
        match a.buckets {
            None => true,
            Some(b) => buckets_urls_wf(b@),
        },
    ensures
        ({
            match (r, sp_registry_fields(s@, i as int, reg_acc_v(a))) {
                (Some((v, j)), Some((sv, sj))) => reg_v(v) == sv && j as int == sj && i < j
                    <= s@.len() && registry_urls_wf(v),
                (None, None) => true,
                _ => false,
            }
        }),
    decreases s@.len() - i,
{
    match x_member_key(s, i) {
        None => None,
        Some((key, j)) => {
            let parsed: Option<(RegAccE, usize)> = if crate::text::str_eq(key.as_str(), "enabled") {
                if a.seen_enabled {
                    None
                } else {
                    match x_bool(s, j) {
                        Some((v, j2)) => Some((RegAccE { enabled: v, seen_enabled: true, ..a }, j2)),
                        None => None,
                    }
                }
            } else if crate::text::str_eq(key.as_str(), "name") {
                if a.name.is_some() {
                    None
                } else {
                    match x_string(s, j) {
                        Some((v, j2)) => Some((RegAccE { name: Some(v), ..a }, j2)),
                        None => None,
                    }
                }
            } else if crate::text::str_eq(key.as_str(), "url") {
                if a.seen_url {
                    None
                } else {
                    match x_opt_string(s, j) {
                        Some((v, j2)) => Some((RegAccE { url: v, seen_url: true, ..a }, j2)),
                        None => None,
                    }
                }
            } else if crate::text::str_eq(key.as_str(), "labels") {
                if a.seen_labels {
                    None
                } else {
                    match x_string_list(s, j) {
                        Some((v, j2)) => Some((RegAccE { labels: v, seen_labels: true, ..a }, j2)),
                        None => None,
                    }
                }
            } else if crate::text::str_eq(key.as_str(), "last_update") {
                if a.seen_last_update {
                    None
                } else {
                    match x_opt_string(s, j) {
                        Some((v, j2)) => Some(
                            (RegAccE { last_update: v, seen_last_update: true, ..a }, j2),
                        ),
                        None => None,
                    }
                }
            } else if crate::text::str_eq(key.as_str(), "rpc_endpoints") {
                if a.buckets.is_some() {
                    None
                } else {
                    match x_buckets(s, j) {
                        Some((v, j2)) => Some((RegAccE { buckets: Some(v), ..a }, j2)),
                        None => None,
                    }
                }
            } else {
                None
            };
            match parsed {
                None => None,
                Some((a2, j2)) => {
                    match x_member_end(s, j2) {
                        None => None,
                        Some((true, m)) => x_registry_fields(s, m, a2),
                        Some((false, e)) => {
                            match (a2.name, a2.buckets) {
                                (Some(nm), Some(b)) => {
                                    let reg = Registry {
                                        enabled: a2.enabled,
                                        name: nm,
                                        url: a2.url,
                                        labels: a2.labels,
                                        last_update: a2.last_update,
                                        rpc_endpoints: b,
                                    };
                                    Some((reg, e))
                                },
                                _ => None,
                            }
                        },
                    }
                },
            }
        },
    }
}

/// A registry object.
fn x_registry(s: &str, i: usize) -> (r: Option<(Registry, usize)>)
    requires
        i <= s@.len(),
    ensures
        ({
            match (r, sp_registry(s@, i as int)) {
                (Some((v, j)), Some((sv, sj))) => reg_v(v) == sv && j as int == sj && i < j
                    <= s@.len() && registry_urls_wf(v),
                (None, None) => true,
                _ => false,
            }
        }),
{
    let n = s.unicode_len();
    if i < n && s.get_char(i) == '{' {
        let j = x_ws(s, i + 1);
        let a = RegAccE {
            enabled: true,
            seen_enabled: false,
            name: None,
            url: None,
            seen_url: false,
            labels: Vec::new(),
            seen_labels: false,
            last_update: None,
            seen_last_update: false,
            buckets: None,
        };
        proof {
            assert(views_of(a.labels@) =~= Seq::<Seq<char>>::empty());
            assert(reg_acc_v(a) == reg_acc0());
        }
        x_registry_fields(s, j, a)
    } else {
        None
    }
}

/// True when some registry of `acc` carries this name.
fn x_regs_have(acc: &Vec<Registry>, name: &str) -> (r: bool)
    ensures
        r == regs_have(acc@.map_values(|x: Registry| reg_v(x)), name@),
{
    let ghost rv = acc@.map_values(|x: Registry| reg_v(x));
    let n = acc.len();
    let mut k: usize = 0;
    while k < n
        invariant
            0 <= k <= n,
            n == acc@.len(),
            rv == acc@.map_values(|x: Registry| reg_v(x)),
            forall|t: int| 0 <= t < k ==> (#[trigger] rv[t]).name != name@,
        decreases n - k,
    {
        if crate::text::str_eq(acc[k].name.as_str(), name) {
            proof {
                assert(rv[k as int].name == name@);
            }
            return true;
        }
        proof {
            assert(rv[k as int].name == acc@[k as int].name@);
        }
        k += 1;
    }
    proof {
        if regs_have(rv, name@) {
            let t = choose|t: int| 0 <= t < rv.len() && (#[trigger] rv[t]).name == name@;
            assert(rv[t].name == name@);
        }
    }
    false
}

/// Every url of every endpoint of every registry carries a derived tag.
pub open spec fn regs_urls_wf(v: Seq<Registry>) -> bool {
    forall|k: int| 0 <= k < v.len() ==> registry_urls_wf(#[trigger] v[k])
}

/// The members of the registries map.
fn x_registry_map_items(s: &str, i: usize, acc: Vec<Registry>) -> (r: Option<
    (Vec<Registry>, usize),
>)
    requires
        i <= s@.len(),
        regs_urls_wf(acc@),
    ensures
        ({
            match (r, sp_registry_map_items(s@, i as int, acc@.map_values(|x: Registry| reg_v(x)))) {
                (Some((v, j)), Some((sv, sj))) => v@.map_values(|x: Registry| reg_v(x)) == sv && j
                    as int == sj && i < j <= s@.len() && regs_urls_wf(v@),
                (None, None) => true,
                _ => false,
            }
        }),
    decreases s@.len() - i,
{
    match x_member_key(s, i) {
        None => None,
        Some((key, j)) => {
            if x_regs_have(&acc, key.as_str()) {
                return None;
            }
            match x_registry(s, j) {
                None => None,
                Some((reg, j2)) => {
                    if !crate::text::str_eq(reg.name.as_str(), key.as_str()) {
                        return None;
                    }
                    let mut acc2 = acc;
                    let ghost accv = acc2@.map_values(|x: Registry| reg_v(x));
                    acc2.push(reg);
                    proof {
                        assert(acc2@.map_values(|x: Registry| reg_v(x)) =~= accv.push(
                            reg_v(acc2@.last()),
                        ));
                    }
                    match x_member_end(s, j2) {
                        None => None,
                        Some((true, m)) => x_registry_map_items(s, m, acc2),
                        Some((false, e)) => Some((acc2, e)),
                    }
                },
            }
        },
    }
}

/// The registries map object.
fn x_registries(s: &str, i: usize) -> (r: Option<(Vec<Registry>, usize)>)
    requires
        i <= s@.len(),
    ensures
        ({
            match (r, sp_registries(s@, i as int)) {
                (Some((v, j)), Some((sv, sj))) => v@.map_values(|x: Registry| reg_v(x)) == sv && j
                    as int == sj && i < j <= s@.len() && regs_urls_wf(v@),
                (None, None) => true,
                _ => false,
            }
        }),
{
    let n = s.unicode_len();
    if i < n && s.get_char(i) == '{' {
        let j = x_ws(s, i + 1);
        if j < n && s.get_char(j) == '}' {
            let out: Vec<Registry> = Vec::new();
            proof {
                assert(out@.map_values(|x: Registry| reg_v(x)) =~= Seq::<RegistryV>::empty());
            }
            Some((out, j + 1))
        } else {
            let acc: Vec<Registry> = Vec::new();
            proof {
                assert(acc@.map_values(|x: Registry| reg_v(x)) =~= Seq::<RegistryV>::empty());
            }
            x_registry_map_items(s, j, acc)
        }
    } else {
        None
    }
}

/// A partially read store, as the parser holds it.
struct DataAccE {
    file: Option<String>,
    registries: Option<Vec<Registry>>,
    last_update: Option<String>,
    seen_last_update: bool,
}

/// How the parser's store accumulator reads in specifications.
spec fn data_acc_v(a: DataAccE) -> DataAcc {
    DataAcc {
        file: opt_view(a.file),
        registries: match a.registries {
            None => None,
            Some(v) => Some(v@.map_values(|x: Registry| reg_v(x))),
        },
        last_update: opt_view(a.last_update),
        seen_last_update: a.seen_last_update,
    }
}

/// The members of the store object.
fn x_data_fields(s: &str, i: usize, a: DataAccE) -> (r: Option<(LocalData, usize)>)
    requires
        i <= s@.len(),
        match a.registries {
            None => true,
            Some(v) => regs_urls_wf(v@),
        },
    ensures
        ({
            match (r, sp_data_fields(s@, i as int, data_acc_v(a))) {
                (Some((v, j)), Some((sv, sj))) => data_v(v) == sv && j as int == sj && i < j
                    <= s@.len() && regs_urls_wf(v.registries@),
                (None, None) => true,
                _ => false,
            }
        }),
    decreases s@.len() - i,
{
    match x_member_key(s, i) {
        None => None,
        Some((key, j)) => {
            let parsed: Option<(DataAccE, usize)> = if crate::text::str_eq(key.as_str(), "file") {
                if a.file.is_some() {
                    None
                } else {
                    match x_string(s, j) {
                        Some((v, j2)) => Some((DataAccE { file: Some(v), ..a }, j2)),
                        None => None,
                    }
                }
            } else if crate::text::str_eq(key.as_str(), "registries") {
                if a.registries.is_some() {
                    None
                } else {
                    match x_registries(s, j) {
                        Some((v, j2)) => Some((DataAccE { registries: Some(v), ..a }, j2)),
                        None => None,
                    }
                }
            } else if crate::text::str_eq(key.as_str(), "last_update") {
                if a.seen_last_update {
                    None
                } else {
                    match x_opt_string(s, j) {
                        Some((v, j2)) => Some(
                            (DataAccE { last_update: v, seen_last_update: true, ..a }, j2),
                        ),
                        None => None,
                    }
                }
            } else {
                None
            };
            match parsed {
                None => None,
                Some((a2, j2)) => {
                    match x_member_end(s, j2) {
                        None => None,
                        Some((true, m)) => x_data_fields(s, m, a2),
                        Some((false, e)) => {
                            match (a2.file, a2.registries) {
                                (Some(f), Some(regs)) => {
                                    let d = LocalData {
                                        file: f,
                                        registries: regs,
                                        last_update: a2.last_update,
                                    };
                                    Some((d, e))
                                },
                                _ => None,
                            }
                        },
                    }
                },
            }
        },
    }
}

/// The store object.
fn x_local_data(s: &str, i: usize) -> (r: Option<(LocalData, usize)>)
    requires
        i <= s@.len(),
    ensures
        ({
            match (r, sp_local_data(s@, i as int)) {
                (Some((v, j)), Some((sv, sj))) => data_v(v) == sv && j as int == sj && i < j
                    <= s@.len() && regs_urls_wf(v.registries@),
                (None, None) => true,
                _ => false,
            }
        }),
{
    let n = s.unicode_len();
    if i < n && s.get_char(i) == '{' {
        let j = x_ws(s, i + 1);
        let a = DataAccE { file: None, registries: None, last_update: None, seen_last_update: false };
        proof {
            assert(data_acc_v(a) == data_acc0());
        }
        x_data_fields(s, j, a)
    } else {
        None
    }
}

/// Read one registry document. Succeeds exactly on the texts the
/// document grammar accepts; the result then reads back exactly as the
/// document spelled it, and every url tag is derived from its text.
pub fn parse_registry_json(s: &str) -> (r: Result<Registry, ParseError>)
    ensures
        ({
            match (r, sp_registry_doc(s@)) {
                (Ok(v), Some(sv)) => reg_v(v) == sv && registry_urls_wf(v),
                (Err(e), None) => e == ParseError::Malformed,
                _ => false,
            }
        }),
{
    let i = x_ws(s, 0);
    match x_registry(s, i) {
        None => Err(ParseError::Malformed),
        Some((v, j)) => {
            let k = x_ws(s, j);
            if k == s.unicode_len() {
                Ok(v)
            } else {
                Err(ParseError::Malformed)
            }
        },
    }
}

/// Read one store document. Succeeds exactly on the texts the document
/// grammar accepts; the result then reads back exactly as the document
/// spelled it, every url tag is derived, and the registries are keyed by
/// their own distinct names.
pub fn parse_local_data_json(s: &str) -> (r: Result<LocalData, ParseError>)
    ensures
        ({
            match (r, sp_local_data_doc(s@)) {
                (Ok(v), Some(sv)) => data_v(v) == sv && regs_urls_wf(v.registries@),
                (Err(e), None) => e == ParseError::Malformed,
                _ => false,
            }
        }),
{
    let i = x_ws(s, 0);
    match x_local_data(s, i) {
        None => Err(ParseError::Malformed),
        Some((v, j)) => {
            let k = x_ws(s, j);
            if k == s.unicode_len() {
                Ok(v)
            } else {
                Err(ParseError::Malformed)
            }
        },
    }
}

// ---------------------------------------------------------------------
// Round trip of the string layer: what the printer escapes, the parser
// reads back unchanged.
// ---------------------------------------------------------------------
/// The escaped body decomposes from the front as well as from the back.
pub proof fn lemma_escape_first(t: Seq<char>)
    requires
        t.len() > 0,
    ensures
        spec_escape(t) == escape_char(t[0]) + spec_escape(t.drop_first()),
    decreases t.len(),
{
    if t.len() == 1 {
        assert(t.drop_last() =~= Seq::<char>::empty());
        assert(t.drop_first() =~= Seq::<char>::empty());
        assert(t.last() == t[0]);
        assert(spec_escape(t) =~= escape_char(t[0]) + spec_escape(t.drop_first()));
    } else {
        let u = t.drop_last();
        lemma_escape_first(u);
        assert(t.drop_first().drop_last() =~= u.drop_first());
        assert(t.drop_first().last() == t.last());
        assert(spec_escape(t.drop_first()) == spec_escape(t.drop_first().drop_last())
            + escape_char(t.drop_first().last()));
        assert(u[0] == t[0]);
        assert(spec_escape(t) =~= escape_char(t[0]) + spec_escape(t.drop_first()));
    }
}

/// Reading a printed string body from just after its opening quote
/// yields exactly the text that was printed, and stops just after the
/// closing quote: the escaping layer of the document loses nothing.
pub proof fn lemma_str_body_roundtrip(s: Seq<char>, i: int, t: Seq<char>)
    requires
        json_safe(t),
        0 <= i,
        i + spec_escape(t).len() + 1 <= s.len(),
        s.subrange(i, i + spec_escape(t).len() + 1) == spec_escape(t) + seq!['"'],
    ensures
        sp_str_body(s, i) == Some((t, i + spec_escape(t).len() + 1)),
    decreases t.len(),
{
    let body = spec_escape(t);
    let sub = s.subrange(i, i + body.len() + 1);
    if t.len() == 0 {
        assert(body =~= Seq::<char>::empty());
        assert(s[i] == sub[0]);
        assert(s[i] == '"');
        assert(sp_str_body(s, i) == Some((Seq::<char>::empty(), i + 1)));
        assert(t =~= Seq::<char>::empty());
    } else {
        lemma_escape_first(t);
        let c = t[0];
        let ec = escape_char(c);
        let rest = t.drop_first();
        assert(json_safe(rest)) by {
            assert forall|k: int| 0 <= k < rest.len() implies (rest[k] as int >= 32 || rest[k]
                == '\n' || rest[k] == '\r' || rest[k] == '\t') by {
                assert(rest[k] == t[k + 1]);
            }
        }
        assert(c as int >= 32 || c == '\n' || c == '\r' || c == '\t');
        assert(body == ec + spec_escape(rest));
        assert forall|k: int| 0 <= k < body.len() implies s[i + k] == #[trigger] body[k] by {
            assert(sub[k] == s[i + k]);
            assert(sub[k] == (body + seq!['"'])[k]);
        }
        assert(s[i + body.len()] == '"') by {
            assert(sub[body.len() as int] == s[i + body.len()]);
            assert(sub[body.len() as int] == (body + seq!['"'])[body.len() as int]);
        }
        let i2 = i + ec.len();
        assert(s.subrange(i2, i + body.len() + 1) =~= spec_escape(rest) + seq!['"']) by {
            assert forall|k: int|
                0 <= k < spec_escape(rest).len() + 1 implies s.subrange(
                i2,
                i + body.len() + 1,
            )[k] == (spec_escape(rest) + seq!['"'])[k] by {
                assert(s.subrange(i2, i + body.len() + 1)[k] == s[i2 + k]);
                if k < spec_escape(rest).len() {
                    assert(body[ec.len() + k] == spec_escape(rest)[k]);
                    assert(s[i2 + k] == body[ec.len() + k]);
                } else {
                    assert(s[i2 + k] == s[i + body.len()]);
                }
            }
        }
        lemma_str_body_roundtrip(s, i2, rest);
        assert(sp_str_body(s, i2) == Some((rest, i + body.len() + 1)));
        if c == '"' || c == '\\' || c == '\n' || c == '\r' || c == '\t' {
            // The printer wrote a two-character escape.
            assert(ec.len() == 2);
            assert(s[i] == body[0] && s[i + 1] == body[1]);
            assert(body[0] == ec[0] && body[1] == ec[1]);
            assert(s[i] == '\\');
            let e = s[i + 1];
            assert(e == '"' || e == '\\' || e == 'n' || e == 'r' || e == 't');
            assert(i + 1 < s.len());
            let back = if e == 'n' {
                '\n'
            } else if e == 'r' {
                '\r'
            } else if e == 't' {
                '\t'
            } else {
                e
            };
            assert(back == c);
            assert(sp_str_body(s, i) == Some((seq![c] + rest, i + body.len() + 1)));
            assert(seq![c] + rest =~= t);
        } else {
            // The printer wrote the character itself.
            assert(ec =~= seq![c]);
            assert(s[i] == body[0]);
            assert(body[0] == ec[0]);
            assert(s[i] == c);
            assert(c != '"' && c != '\\' && c as int >= 32);
            assert(sp_str_body(s, i) == Some((seq![c] + rest, i + body.len() + 1)));
            assert(seq![c] + rest =~= t);
        }
    }
}

/// Reading a printed string yields exactly the text that was printed:
/// one direction of the document round trip, at the string layer.
pub proof fn lemma_string_roundtrip(s: Seq<char>, i: int, t: Seq<char>)
    requires
        json_safe(t),
        0 <= i,
        i + spec_print_string(t).len() <= s.len(),
        s.subrange(i, i + spec_print_string(t).len()) == spec_print_string(t),
    ensures
        sp_string(s, i) == Some((t, i + spec_print_string(t).len())),
{
    let p = spec_print_string(t);
    assert(s[i] == '"') by {
        assert(s.subrange(i, i + p.len())[0] == p[0]);
    }
    assert(s.subrange(i + 1, i + p.len()) =~= spec_escape(t) + seq!['"']) by {
        assert forall|k: int|
            0 <= k < p.len() - 1 implies s.subrange(i + 1, i + p.len())[k] == (spec_escape(t)
            + seq!['"'])[k] by {
            assert(s.subrange(i, i + p.len())[k + 1] == p[k + 1]);
            assert(p[k + 1] == (spec_escape(t) + seq!['"'])[k]);
        }
    }
    lemma_str_body_roundtrip(s, i + 1, t);
}

/// Ten to the `k`.
pub open spec fn pow10(k: nat) -> nat
    decreases k,
{
    if k == 0 {
        1
    } else {
        10 * pow10((k - 1) as nat)
    }
}

/// True when every character of `d` is a decimal digit.
pub open spec fn all_digits(d: Seq<char>) -> bool {
    forall|k: int| 0 <= k < d.len() ==> is_digit(#[trigger] d[k])
}

/// The number a run of digits denotes, most significant first.
pub open spec fn digits_val(d: Seq<char>) -> nat
    decreases d.len(),
{
    if d.len() == 0 {
        0
    } else {
        digits_val(d.drop_last()) * 10 + digit_val(d.last())
    }
}


/// One decimal digit renders to its character and reads back to itself.
pub proof fn lemma_digit_char_val(dnum: nat)
    requires
        dnum < 10,
    ensures
        digit_val(digit_char(dnum)) == dnum,
        is_digit(digit_char(dnum)),
{
    if dnum == 0 {
        assert(digit_char(0) == '0');
        assert(digit_val('0') == 0);
        assert(is_digit('0'));
    } else if dnum == 1 {
        assert(digit_char(1) == '1');
        assert(digit_val('1') == 1);
        assert(is_digit('1'));
    } else if dnum == 2 {
        assert(digit_char(2) == '2');
        assert(digit_val('2') == 2);
        assert(is_digit('2'));
    } else if dnum == 3 {
        assert(digit_char(3) == '3');
        assert(digit_val('3') == 3);
        assert(is_digit('3'));
    } else if dnum == 4 {
        assert(digit_char(4) == '4');
        assert(digit_val('4') == 4);
        assert(is_digit('4'));
    } else if dnum == 5 {
        assert(digit_char(5) == '5');
        assert(digit_val('5') == 5);
        assert(is_digit('5'));
    } else if dnum == 6 {
        assert(digit_char(6) == '6');
        assert(digit_val('6') == 6);
        assert(is_digit('6'));
    } else if dnum == 7 {
        assert(digit_char(7) == '7');
        assert(digit_val('7') == 7);
        assert(is_digit('7'));
    } else if dnum == 8 {
        assert(digit_char(8) == '8');
        assert(digit_val('8') == 8);
        assert(is_digit('8'));
    } else if dnum == 9 {
        assert(digit_char(9) == '9');
        assert(digit_val('9') == 9);
        assert(is_digit('9'));
    }
}

/// What the digit printer writes denotes the number it was given, is
/// never empty, and holds digits alone.
pub proof fn lemma_spec_digits_val(n: nat)
    ensures
        digits_val(spec_digits(n)) == n,
        spec_digits(n).len() >= 1,
        all_digits(spec_digits(n)),
    decreases n,
{
    if n < 10 {
        lemma_digit_char_val(n);
        assert(spec_digits(n) =~= seq![digit_char(n)]);
        assert(spec_digits(n).drop_last() =~= Seq::<char>::empty());
        assert(digits_val(spec_digits(n)) == digits_val(Seq::<char>::empty()) * 10 + digit_val(
            digit_char(n),
        ));
        assert(digits_val(spec_digits(n)) == n);
    } else {
        lemma_spec_digits_val(n / 10);
        lemma_digit_char_val(n % 10);
        let d = spec_digits(n);
        assert(d == spec_digits(n / 10).push(digit_char(n % 10)));
        assert(d.drop_last() =~= spec_digits(n / 10));
        assert(d.last() == digit_char(n % 10));
        assert(digits_val(d) == (n / 10) * 10 + n % 10);
        assert((n / 10) * 10 + n % 10 == n) by (nonlinear_arith);
        assert forall|k: int| 0 <= k < d.len() implies is_digit(#[trigger] d[k]) by {
            if k < d.len() - 1 {
                assert(d[k] == spec_digits(n / 10)[k]);
            } else {
                assert(d[k] == digit_char(n % 10));
                assert(is_digit(digit_char(n % 10)));
            }
        }
    }
}

/// A digit run denotes, from the front: its first digit weighted by the
/// rest's width, plus the rest.
pub proof fn lemma_digits_val_first(d: Seq<char>)
    requires
        d.len() > 0,
    ensures
        digits_val(d) == digit_val(d[0]) * pow10((d.len() - 1) as nat) + digits_val(
            d.drop_first(),
        ),
    decreases d.len(),
{
    if d.len() == 1 {
        assert(d.drop_last() =~= Seq::<char>::empty());
        assert(d.drop_first() =~= Seq::<char>::empty());
        assert(d.last() == d[0]);
        assert(pow10(0) == 1);
        assert(digits_val(d) == digits_val(Seq::<char>::empty()) * 10 + digit_val(d[0]));
        assert(digit_val(d[0]) * 1 == digit_val(d[0])) by (nonlinear_arith);
        assert(digits_val(d) == digit_val(d[0]) * pow10((d.len() - 1) as nat) + digits_val(
            d.drop_first(),
        ));
    } else {
        let u = d.drop_last();
        lemma_digits_val_first(u);
        assert(d.drop_first().drop_last() =~= u.drop_first());
        assert(d.drop_first().last() == d.last());
        assert(digits_val(d.drop_first()) == digits_val(u.drop_first()) * 10 + digit_val(
            d.last(),
        ));
        assert(u[0] == d[0]);
        let w = pow10((u.len() - 1) as nat);
        assert(pow10((d.len() - 1) as nat) == 10 * w);
        assert(digits_val(d) == digits_val(u) * 10 + digit_val(d.last()));
        assert(digits_val(u) == digit_val(u[0]) * w + digits_val(u.drop_first()));
        assert((digit_val(d[0]) * w + digits_val(u.drop_first())) * 10 == digit_val(d[0]) * (10
            * w) + digits_val(u.drop_first()) * 10) by (nonlinear_arith);
        assert(digits_val(d) == digit_val(d[0]) * (10 * w) + (digits_val(u.drop_first()) * 10
            + digit_val(d.last())));
        assert(digits_val(d) == digit_val(d[0]) * pow10((d.len() - 1) as nat) + digits_val(
            d.drop_first(),
        ));
    }
}

/// Reading a digit run from the front accumulates exactly the number it
/// denotes, weighted onto what was already accumulated, and stops at its
/// end.
pub proof fn lemma_digits_parse(s: Seq<char>, i: int, d: Seq<char>, a: nat)
    requires
        all_digits(d),
        0 <= i,
        i + d.len() <= s.len(),
        s.subrange(i, i + d.len()) == d,
        i + d.len() == s.len() || !is_digit(s[i + d.len()]),
        a * pow10(d.len()) + digits_val(d) <= u64::MAX,
    ensures
        sp_digits(s, i, a) == Some((a * pow10(d.len()) + digits_val(d), i + d.len())),
    decreases d.len(),
{
    if d.len() == 0 {
        assert(pow10(0) == 1);
        if i < s.len() {
            assert(!is_digit(s[i]));
        }
        assert(sp_digits(s, i, a) == Some((a, i)));
        assert(digits_val(d) == 0);
        assert(a * 1 == a) by (nonlinear_arith);
        assert(a * pow10(d.len()) + digits_val(d) == a);
    } else {
        lemma_digits_val_first(d);
        assert(s[i] == d[0]) by {
            assert(s.subrange(i, i + d.len())[0] == d[0]);
        }
        assert(is_digit(s[i]));
        let a2 = a * 10 + digit_val(d[0]);
        let w = pow10((d.len() - 1) as nat);
        assert(pow10(d.len()) == 10 * w);
        assert(a2 * w + digits_val(d.drop_first()) == a * pow10(d.len()) + digits_val(d)) by {
            assert((a * 10 + digit_val(d[0])) * w == a * (10 * w) + digit_val(d[0]) * w)
                by (nonlinear_arith);
        }
        assert(a2 <= u64::MAX) by {
            assert(w >= 1) by {
                lemma_pow10_pos((d.len() - 1) as nat);
            }
            assert(a2 * w >= a2 * 1) by (nonlinear_arith)
                requires w >= 1, a2 >= 0,
            ;
        }
        assert(s.subrange(i + 1, i + d.len()) =~= d.drop_first()) by {
            assert forall|k: int|
                0 <= k < d.len() - 1 implies s.subrange(i + 1, i + d.len())[k]
                == d.drop_first()[k] by {
                assert(s.subrange(i, i + d.len())[k + 1] == d[k + 1]);
            }
        }
        assert(all_digits(d.drop_first())) by {
            assert forall|k: int| 0 <= k < d.drop_first().len() implies is_digit(
                #[trigger] d.drop_first()[k],
            ) by {
                assert(d.drop_first()[k] == d[k + 1]);
            }
        }
        lemma_digits_parse(s, i + 1, d.drop_first(), a2);
        assert(sp_digits(s, i, a) == sp_digits(s, i + 1, a2));
        assert(sp_digits(s, i + 1, a2) == Some(
            (a2 * pow10(d.drop_first().len()) + digits_val(d.drop_first()), i + 1 + d.drop_first().len()),
        ));
        assert(a2 * pow10(d.drop_first().len()) + digits_val(d.drop_first()) == a * pow10(d.len())
            + digits_val(d)) by {
            assert(pow10(d.drop_first().len()) == w);
        }
        assert(i + 1 + d.drop_first().len() == i + d.len());
    }
}

/// Ten to any power is positive.
pub proof fn lemma_pow10_pos(k: nat)
    ensures
        pow10(k) >= 1,
    decreases k,
{
    if k > 0 {
        lemma_pow10_pos((k - 1) as nat);
    }
}

/// Reading a printed number yields the number back and stops at its
/// end: the decimal layer of the document loses nothing.
pub proof fn lemma_u64_roundtrip(s: Seq<char>, i: int, n: nat)
    requires
        n <= u64::MAX,
        0 <= i,
        i + spec_digits(n).len() <= s.len(),
        s.subrange(i, i + spec_digits(n).len()) == spec_digits(n),
        i + spec_digits(n).len() == s.len() || !is_digit(s[i + spec_digits(n).len()]),
    ensures
        sp_u64(s, i) == Some((n, i + spec_digits(n).len())),
{
    let d = spec_digits(n);
    lemma_spec_digits_val(n);
    assert(s[i] == d[0]) by {
        assert(s.subrange(i, i + d.len())[0] == d[0]);
    }
    assert(is_digit(s[i]));
    lemma_digits_parse(s, i, d, 0);
    assert(0 * pow10(d.len()) == 0) by (nonlinear_arith);
}

/// Skipping whitespace where none stands is standing still.
pub proof fn lemma_ws_noop(s: Seq<char>, i: int)
    requires
        0 <= i,
        i == s.len() || !is_ws(s[i]),
    ensures
        sp_ws(s, i) == i,
{
}

/// Reading printed latency yields the milliseconds back and stops at
/// its end: the decimal-seconds layer of the document loses nothing.
pub proof fn lemma_latency_roundtrip(s: Seq<char>, i: int, ms: nat)
    requires
        ms / 1000 <= ((u64::MAX as nat) - 999) / 1000,
        ms <= u64::MAX,
        0 <= i,
        i + spec_print_latency(ms).len() <= s.len(),
        s.subrange(i, i + spec_print_latency(ms).len()) == spec_print_latency(ms),
        i + spec_print_latency(ms).len() == s.len() || !is_digit(
            s[i + spec_print_latency(ms).len()],
        ),
    ensures
        sp_latency(s, i) == Some((ms as u64, i + spec_print_latency(ms).len())),
{
    reveal(spec_print_latency);
    let p = spec_print_latency(ms);
    let whole = spec_digits(ms / 1000);
    let wl = whole.len();
    lemma_spec_digits_val(ms / 1000);
    assert forall|k: int| 0 <= k < p.len() implies s[i + k] == #[trigger] p[k] by {
        assert(s.subrange(i, i + p.len())[k] == p[k]);
    }
    assert(p.len() == wl + 4);
    assert(s.subrange(i, i + wl) =~= whole) by {
        assert forall|k: int| 0 <= k < wl implies s.subrange(i, i + wl)[k] == whole[k] by {
            assert(s[i + k] == p[k]);
            assert(p[k] == whole[k]);
        }
    }
    assert(s[i + wl] == '.') by {
        assert(p[wl as int] == '.');
    }
    assert(!is_digit('.'));
    lemma_u64_roundtrip(s, i, ms / 1000);
    assert(sp_u64(s, i) == Some((ms / 1000, i + wl)));
    let d1n = (ms % 1000) / 100;
    let d2n = (ms % 100) / 10;
    let d3n = ms % 10;
    lemma_digit_char_val(d1n);
    lemma_digit_char_val(d2n);
    lemma_digit_char_val(d3n);
    assert(s[i + wl + 1] == digit_char(d1n) && s[i + wl + 2] == digit_char(d2n) && s[i + wl + 3]
        == digit_char(d3n)) by {
        assert(p[wl as int + 1] == digit_char(d1n));
        assert(p[wl as int + 2] == digit_char(d2n));
        assert(p[wl as int + 3] == digit_char(d3n));
    }
    let e = i + wl + 4;
    assert(sp_digit_run_end(s, i + wl + 4) == i + wl + 4) by {
        if i + wl + 4 < s.len() {
            assert(!is_digit(s[i + wl + 4]));
        }
    }
    assert(sp_digit_run_end(s, i + wl + 3) == e);
    assert(sp_digit_run_end(s, i + wl + 2) == e);
    assert(sp_digit_run_end(s, i + wl + 1) == e);
    assert(e - (i + wl) >= 4);
    let frac = d1n * 100 + d2n * 10 + d3n;
    assert(frac == ms % 1000) by (nonlinear_arith)
        requires
            d1n == (ms % 1000) / 100,
            d2n == (ms % 100) / 10,
            d3n == ms % 10,
            frac == d1n * 100 + d2n * 10 + d3n,
    ;
    assert((ms / 1000) * 1000 + frac == ms) by (nonlinear_arith)
        requires frac == ms % 1000,
    ;
    assert(sp_latency(s, i) == Some((ms as u64, e)));
}

/// Escaping a text with no quote, no backslash and no control character
/// leaves it unchanged.
pub proof fn lemma_escape_plain(t: Seq<char>)
    requires
        forall|k: int|
            0 <= k < t.len() ==> (#[trigger] t[k]) != '"' && t[k] != '\\' && t[k] as int >= 32,
    ensures
        spec_escape(t) == t,
    decreases t.len(),
{
    if t.len() == 0 {
        assert(spec_escape(t) =~= t);
    } else {
        lemma_escape_plain(t.drop_last());
        assert(escape_char(t.last()) =~= seq![t.last()]);
        assert(spec_escape(t) =~= t.drop_last() + seq![t.last()]);
        assert(t.drop_last() + seq![t.last()] =~= t);
    }
}

/// All characters of a printed region, one position at a time.
pub proof fn lemma_subrange_chars(s: Seq<char>, i: int, p: Seq<char>)
    requires
        0 <= i,
        i + p.len() <= s.len(),
        s.subrange(i, i + p.len()) == p,
    ensures
        forall|k: int| 0 <= k < p.len() ==> s[i + k] == #[trigger] p[k],
{
    assert forall|k: int| 0 <= k < p.len() implies s[i + k] == #[trigger] p[k] by {
        assert(s.subrange(i, i + p.len())[k] == p[k]);
    }
}

/// A region whose characters all agree with a text is that text.
pub proof fn lemma_chars_subrange(s: Seq<char>, i: int, p: Seq<char>)
    requires
        0 <= i,
        i + p.len() <= s.len(),
        forall|k: int| 0 <= k < p.len() ==> s[i + k] == #[trigger] p[k],
    ensures
        s.subrange(i, i + p.len()) == p,
{
    assert(s.subrange(i, i + p.len()) =~= p);
}

/// Reading a printed stats object yields the stats back and stops just
/// after its closing brace: the stats layer of the document loses
/// nothing. The one stats value that cannot come back is a latency
/// within a thousand milliseconds of the widest the field holds, which
/// no parsed document can carry either.
#[verifier::rlimit(100)]
pub proof fn lemma_stats_roundtrip(s: Seq<char>, i: int, st: EndpointStats)
    requires
        (st.latency as nat) / 1000 <= ((u64::MAX as nat) - 999) / 1000,
        0 <= i,
        i + spec_print_stats(st).len() <= s.len(),
        s.subrange(i, i + spec_print_stats(st).len()) == spec_print_stats(st),
    ensures
        sp_stats(s, i) == Some((st, i + spec_print_stats(st).len())),
{
    reveal(spec_print_stats);
    reveal(spec_print_latency);
    let p = spec_print_stats(st);
    let seg1 = "{\"failures\":"@;
    let seg2 = ",\"success\":"@;
    let seg3 = ",\"latency\":"@;
    let df = spec_digits(st.failures as nat);
    let ds = spec_digits(st.success as nat);
    let lat = spec_print_latency(st.latency as nat);
    reveal_strlit("{\"failures\":");
    reveal_strlit(",\"success\":");
    reveal_strlit(",\"latency\":");
    reveal_strlit("failures");
    reveal_strlit("success");
    reveal_strlit("latency");
    lemma_escape_plain("failures"@);
    lemma_escape_plain("success"@);
    lemma_escape_plain("latency"@);
    lemma_spec_digits_val(st.failures as nat);
    lemma_spec_digits_val(st.success as nat);
    assert(seg1 =~= seq!['{'] + spec_print_string("failures"@) + seq![':']);
    assert(seg2 =~= seq![','] + spec_print_string("success"@) + seq![':']);
    assert(seg3 =~= seq![','] + spec_print_string("latency"@) + seq![':']);
    assert(p == seg1 + df + seg2 + ds + seg3 + lat + seq!['}']);
    lemma_subrange_chars(s, i, p);
    // Positions of every piece.
    let k1 = i + 1;  // the first key
    let v1 = i + 12;  // the failures digits
    let c1 = v1 + df.len();  // the comma after them
    let k2 = c1 + 1;  // the second key
    let v2 = c1 + 11;  // the success digits
    let c2 = v2 + ds.len();  // the comma after them
    let k3 = c2 + 1;  // the third key
    let v3 = c2 + 11;  // the latency text
    let cb = v3 + lat.len();  // the closing brace
    assert(seg1.len() == 12 && seg2.len() == 11 && seg3.len() == 11);
    assert(p.len() == 12 + df.len() + 11 + ds.len() + 11 + lat.len() + 1);
    assert forall|k: int| 0 <= k < p.len() implies s[i + k] == #[trigger] p[k] by {}
    // The opening brace, the separators, and the closing brace.
    assert(s[i] == '{' && s[c1] == ',' && s[c2] == ',' && s[cb] == '}') by {
        assert(p[0] == '{');
        assert(p[c1 - i] == ',');
        assert(p[c2 - i] == ',');
        assert(p[cb - i] == '}');
    }
    assert(s[v1 - 1] == ':' && s[v2 - 1] == ':' && s[v3 - 1] == ':') by {
        assert(p[v1 - 1 - i] == ':');
        assert(p[v2 - 1 - i] == ':');
        assert(p[v3 - 1 - i] == ':');
    }
    // The three keys, as printed strings.
    let pk1 = spec_print_string("failures"@);
    let pk2 = spec_print_string("success"@);
    let pk3 = spec_print_string("latency"@);
    assert(pk1.len() == 10 && pk2.len() == 9 && pk3.len() == 9);
    assert forall|k: int| 0 <= k < pk1.len() implies s[k1 + k] == #[trigger] pk1[k] by {
        assert(s[k1 + k] == p[k1 - i + k]);
        assert(p[k1 - i + k] == seg1[1 + k]);
        assert(seg1[1 + k] == (seq!['{'] + pk1 + seq![':'])[1 + k]);
    }
    assert forall|k: int| 0 <= k < pk2.len() implies s[k2 + k] == #[trigger] pk2[k] by {
        assert(s[k2 + k] == p[k2 - i + k]);
        assert(p[k2 - i + k] == seg2[1 + k]);
        assert(seg2[1 + k] == (seq![','] + pk2 + seq![':'])[1 + k]);
    }
    assert forall|k: int| 0 <= k < pk3.len() implies s[k3 + k] == #[trigger] pk3[k] by {
        assert(s[k3 + k] == p[k3 - i + k]);
        assert(p[k3 - i + k] == seg3[1 + k]);
        assert(seg3[1 + k] == (seq![','] + pk3 + seq![':'])[1 + k]);
    }
    lemma_chars_subrange(s, k1, pk1);
    lemma_chars_subrange(s, k2, pk2);
    lemma_chars_subrange(s, k3, pk3);
    lemma_string_roundtrip(s, k1, "failures"@);
    lemma_string_roundtrip(s, k2, "success"@);
    lemma_string_roundtrip(s, k3, "latency"@);
    // The three values.
    assert forall|k: int| 0 <= k < df.len() implies s[v1 + k] == #[trigger] df[k] by {
        assert(s[v1 + k] == p[v1 - i + k]);
    }
    assert forall|k: int| 0 <= k < ds.len() implies s[v2 + k] == #[trigger] ds[k] by {
        assert(s[v2 + k] == p[v2 - i + k]);
    }
    assert forall|k: int| 0 <= k < lat.len() implies s[v3 + k] == #[trigger] lat[k] by {
        assert(s[v3 + k] == p[v3 - i + k]);
    }
    lemma_chars_subrange(s, v1, df);
    lemma_chars_subrange(s, v2, ds);
    lemma_chars_subrange(s, v3, lat);
    assert(!is_digit(',') && !is_digit('}'));
    assert(s[v1 + df.len()] == ',' && s[v2 + ds.len()] == ',');
    lemma_u64_roundtrip(s, v1, st.failures as nat);
    lemma_u64_roundtrip(s, v2, st.success as nat);
    lemma_latency_roundtrip(s, v3, st.latency as nat);
    // Walk the members as the parser does.
    assert(sp_ws(s, i + 1) == i + 1) by {
        assert(s[i + 1] == '"') by {
            assert(p[1] == '"');
        }
        lemma_ws_noop(s, i + 1);
    }
    assert(sp_member_key(s, k1) == Some(("failures"@, v1))) by {
        lemma_ws_noop(s, k1 + 10);
        lemma_ws_noop(s, v1);
        assert(s[v1] == df[0]) by {
            assert(p[v1 - i] == df[0]);
        }
        assert(is_digit(df[0]));
        assert(!is_ws(df[0]));
    }
    assert(sp_u16(s, v1) == Some((st.failures, c1)));
    assert(sp_member_end(s, c1) == Some(MemberEnd::More(k2))) by {
        lemma_ws_noop(s, c1);
        lemma_ws_noop(s, k2);
        assert(s[k2] == '"') by {
            assert(p[k2 - i] == '"');
        }
    }
    assert(sp_member_key(s, k2) == Some(("success"@, v2))) by {
        lemma_ws_noop(s, k2 + 9);
        lemma_ws_noop(s, v2);
        assert(s[v2] == ds[0]) by {
            assert(p[v2 - i] == ds[0]);
        }
        assert(is_digit(ds[0]));
        assert(!is_ws(ds[0]));
    }
    assert(sp_u16(s, v2) == Some((st.success, c2)));
    assert(sp_member_end(s, c2) == Some(MemberEnd::More(k3))) by {
        lemma_ws_noop(s, c2);
        lemma_ws_noop(s, k3);
        assert(s[k3] == '"') by {
            assert(p[k3 - i] == '"');
        }
    }
    assert(sp_member_key(s, k3) == Some(("latency"@, v3))) by {
        lemma_ws_noop(s, k3 + 9);
        lemma_ws_noop(s, v3);
        assert(s[v3] == lat[0]) by {
            assert(p[v3 - i] == lat[0]);
        }
        assert(lat[0] == spec_digits((st.latency as nat) / 1000)[0]);
        lemma_spec_digits_val((st.latency as nat) / 1000);
        assert(is_digit(lat[0]));
        assert(!is_ws(lat[0]));
    }
    assert(sp_latency(s, v3) == Some((st.latency, cb)));
    assert(sp_member_end(s, cb) == Some(MemberEnd::Done(cb + 1))) by {
        lemma_ws_noop(s, cb);
    }
    // The keys differ, so each dispatch lands on its own field.
    assert("failures"@ != "success"@ && "failures"@ != "latency"@ && "success"@ != "latency"@)
        by {
        assert("failures"@.len() == 8 && "success"@.len() == 7 && "latency"@.len() == 7);
        assert("success"@[0] == 's' && "latency"@[0] == 'l');
    }
    let st0 = EndpointStats { failures: 0, success: 0, latency: 0 };
    let st1 = EndpointStats { failures: st.failures, ..st0 };
    let st2 = EndpointStats { success: st.success, ..st1 };
    let st3 = EndpointStats { latency: st.latency, ..st2 };
    assert(st3 == st);
    assert(sp_stats_fields(s, k3, st2, true, true, false) == Some((st3, cb + 1)));
    assert(sp_stats_fields(s, k2, st1, true, false, false) == Some((st3, cb + 1)));
    assert(sp_stats_fields(s, k1, st0, false, false, false) == Some((st3, cb + 1)));
    assert(sp_stats(s, i) == Some((st, cb + 1)));
    assert(cb + 1 == i + p.len());
}

/// The printed items of a string array decompose from the front.
pub proof fn lemma_string_items_first(v: Seq<Seq<char>>)
    requires
        v.len() >= 2,
    ensures
        spec_print_string_items(v) == spec_print_string(v[0]) + seq![',']
            + spec_print_string_items(v.drop_first()),
    decreases v.len(),
{
    if v.len() == 2 {
        let u = v.drop_last();
        assert(u.len() == 1);
        assert(spec_print_string_items(u) == spec_print_string(u[0]));
        assert(v.drop_first().len() == 1);
        assert(spec_print_string_items(v.drop_first()) == spec_print_string(v.drop_first()[0]));
        assert(v.drop_first()[0] == v.last());
        assert(u[0] == v[0]);
    } else {
        let u = v.drop_last();
        lemma_string_items_first(u);
        assert(v.drop_first().drop_last() =~= u.drop_first());
        assert(v.drop_first().last() == v.last());
        assert(v.drop_first().len() >= 2);
        assert(spec_print_string_items(v.drop_first()) == spec_print_string_items(
            v.drop_first().drop_last(),
        ) + seq![','] + spec_print_string(v.drop_first().last()));
        assert(u[0] == v[0]);
        assert(spec_print_string_items(v) =~= spec_print_string(v[0]) + seq![',']
            + spec_print_string_items(v.drop_first()));
    }
}

/// Reading printed array items from the first one yields them all,
/// appended to what was already gathered, and stops just after the
/// closing bracket.
pub proof fn lemma_string_items_parse(s: Seq<char>, i: int, v: Seq<Seq<char>>, acc: Seq<Seq<char>>)
    requires
        v.len() >= 1,
        all_safe(v),
        0 <= i,
        i + spec_print_string_items(v).len() + 1 <= s.len(),
        s.subrange(i, i + spec_print_string_items(v).len()) == spec_print_string_items(v),
        s[i + spec_print_string_items(v).len()] == ']',
    ensures
        sp_string_items(s, i, acc) == Some(
            (acc + v, i + spec_print_string_items(v).len() + 1),
        ),
    decreases v.len(),
{
    let items = spec_print_string_items(v);
    let p0 = spec_print_string(v[0]);
    lemma_subrange_chars(s, i, items);
    assert(json_safe(v[0]));
    if v.len() == 1 {
        assert(items == p0);
        lemma_string_roundtrip(s, i, v[0]);
        let j = i + p0.len();
        assert(s[j] == ']');
        assert(!is_ws(']'));
        lemma_ws_noop(s, j);
        assert(sp_string_items(s, i, acc) == Some((acc.push(v[0]), j + 1)));
        assert(acc.push(v[0]) =~= acc + v);
    } else {
        lemma_string_items_first(v);
        let rest = v.drop_first();
        assert(all_safe(rest)) by {
            assert forall|k: int| 0 <= k < rest.len() implies json_safe(#[trigger] rest[k]) by {
                assert(rest[k] == v[k + 1]);
            }
        }
        assert(items == p0 + seq![','] + spec_print_string_items(rest));
        assert forall|k: int| 0 <= k < p0.len() implies s[i + k] == #[trigger] p0[k] by {
            assert(s[i + k] == items[k]);
        }
        lemma_chars_subrange(s, i, p0);
        lemma_string_roundtrip(s, i, v[0]);
        let j = i + p0.len();
        assert(s[j] == ',') by {
            assert(items[j - i] == ',');
        }
        assert(!is_ws(','));
        lemma_ws_noop(s, j);
        let m = j + 1;
        let resti = spec_print_string_items(rest);
        assert forall|k: int| 0 <= k < resti.len() implies s[m + k] == #[trigger] resti[k] by {
            assert(s[m + k] == items[m - i + k]);
        }
        lemma_chars_subrange(s, m, resti);
        assert(s[m + resti.len()] == ']') by {
            assert(m + resti.len() == i + items.len());
        }
        lemma_string_items_parse(s, m, rest, acc.push(v[0]));
        assert(s[m] == '"') by {
            assert(resti[0] == spec_print_string(rest[0])[0]) by {
                if rest.len() >= 2 {
                    lemma_string_items_first(rest);
                } else {
                    assert(resti == spec_print_string(rest[0]));
                }
            }
            assert(spec_print_string(rest[0])[0] == '"');
        }
        assert(!is_ws('"'));
        lemma_ws_noop(s, m);
        assert(acc.push(v[0]) + rest =~= acc + v);
        assert(m + resti.len() + 1 == i + items.len() + 1);
    }
}

/// Reading a printed string array yields the texts back and stops just
/// after the closing bracket: the array layer of the document loses
/// nothing.
pub proof fn lemma_string_list_roundtrip(s: Seq<char>, i: int, v: Seq<Seq<char>>)
    requires
        all_safe(v),
        0 <= i,
        i + spec_print_string_list(v).len() <= s.len(),
        s.subrange(i, i + spec_print_string_list(v).len()) == spec_print_string_list(v),
    ensures
        sp_string_list(s, i) == Some((v, i + spec_print_string_list(v).len())),
{
    reveal(spec_print_string_list);
    let p = spec_print_string_list(v);
    let items = spec_print_string_items(v);
    lemma_subrange_chars(s, i, p);
    assert(s[i] == '[') by {
        assert(p[0] == '[');
    }
    if v.len() == 0 {
        assert(items =~= Seq::<char>::empty());
        assert(s[i + 1] == ']') by {
            assert(p[1] == ']');
        }
        assert(!is_ws(']'));
        lemma_ws_noop(s, i + 1);
        assert(v =~= Seq::<Seq<char>>::empty());
    } else {
        assert forall|k: int| 0 <= k < items.len() implies s[i + 1 + k] == #[trigger] items[k] by {
            assert(s[i + 1 + k] == p[1 + k]);
        }
        lemma_chars_subrange(s, i + 1, items);
        assert(s[i + 1 + items.len()] == ']') by {
            assert(p[p.len() - 1] == ']');
        }
        assert(s[i + 1] == '"') by {
            assert(items[0] == spec_print_string(v[0])[0]) by {
                if v.len() >= 2 {
                    lemma_string_items_first(v);
                } else {
                    assert(items == spec_print_string(v[0]));
                }
            }
            assert(spec_print_string(v[0])[0] == '"');
        }
        assert(!is_ws('"'));
        lemma_ws_noop(s, i + 1);
        lemma_string_items_parse(s, i + 1, v, Seq::empty());
        assert(Seq::<Seq<char>>::empty() + v =~= v);
    }
}

/// Reading a printed boolean yields it back.
pub proof fn lemma_bool_roundtrip(s: Seq<char>, i: int, b: bool)
    requires
        0 <= i,
        i + spec_print_bool(b).len() <= s.len(),
        s.subrange(i, i + spec_print_bool(b).len()) == spec_print_bool(b),
    ensures
        sp_bool(s, i) == Some((b, i + spec_print_bool(b).len())),
{
    reveal_strlit("true");
    reveal_strlit("false");
    if b {
        assert(sp_lit(s, i, "true"@));
    } else {
        assert(sp_lit(s, i, "false"@));
        assert(!sp_lit(s, i, "true"@)) by {
            if sp_lit(s, i, "true"@) {
                assert(s.subrange(i, i + 4)[0] == 't');
                assert(s.subrange(i, i + 5)[0] == 'f');
            }
        }
    }
}

/// Reading a printed optional string yields it back: `null` for an
/// absent one, the text for a present one.
pub proof fn lemma_opt_string_roundtrip(s: Seq<char>, i: int, o: Option<Seq<char>>)
    requires
        opt_safe(o),
        0 <= i,
        i + spec_print_opt_string(o).len() <= s.len(),
        s.subrange(i, i + spec_print_opt_string(o).len()) == spec_print_opt_string(o),
    ensures
        sp_opt_string(s, i) == Some((o, i + spec_print_opt_string(o).len())),
{
    reveal_strlit("null");
    match o {
        None => {
            assert(sp_lit(s, i, "null"@));
        },
        Some(t) => {
            assert(s[i] == '"') by {
                assert(s.subrange(i, i + spec_print_opt_string(o).len())[0]
                    == spec_print_string(t)[0]);
            }
            assert(!sp_lit(s, i, "null"@)) by {
                if sp_lit(s, i, "null"@) {
                    assert(s.subrange(i, i + 4)[0] == 'n');
                }
            }
            lemma_string_roundtrip(s, i, t);
        },
    }
}

/// Reading a printed endpoint object yields the endpoint back and stops
/// just after its closing brace.
#[verifier::rlimit(100)]
pub proof fn lemma_endpoint_roundtrip(s: Seq<char>, i: int, ev: EndpointV)
    requires
        ep_safe(ev),
        crate::endpoint_url::spec_url_scheme_ok(ev.url),
        (ev.stats.latency as nat) / 1000 <= ((u64::MAX as nat) - 999) / 1000,
        0 <= i,
        i + spec_print_endpoint(ev).len() <= s.len(),
        s.subrange(i, i + spec_print_endpoint(ev).len()) == spec_print_endpoint(ev),
    ensures
        sp_endpoint(s, i) == Some((ev, i + spec_print_endpoint(ev).len())),
{
    let p = spec_print_endpoint(ev);
    let seg1 = "{\"name\":"@;
    let seg2 = ",\"labels\":"@;
    let seg3 = ",\"aliases\":"@;
    let seg4 = ",\"url\":"@;
    let seg5 = ",\"stats\":"@;
    let s1 = spec_print_string(ev.name);
    let l2 = spec_print_string_list(ev.labels);
    let l3 = spec_print_string_list(ev.aliases);
    let s4 = spec_print_string(ev.url);
    let st5 = spec_print_stats(ev.stats);
    reveal_strlit("{\"name\":");
    reveal_strlit(",\"labels\":");
    reveal_strlit(",\"aliases\":");
    reveal_strlit(",\"url\":");
    reveal_strlit(",\"stats\":");
    reveal_strlit("name");
    reveal_strlit("labels");
    reveal_strlit("aliases");
    reveal_strlit("url");
    reveal_strlit("stats");
    lemma_escape_plain("name"@);
    lemma_escape_plain("labels"@);
    lemma_escape_plain("aliases"@);
    lemma_escape_plain("url"@);
    lemma_escape_plain("stats"@);
    assert(seg1 =~= seq!['{'] + spec_print_string("name"@) + seq![':']);
    assert(seg2 =~= seq![','] + spec_print_string("labels"@) + seq![':']);
    assert(seg3 =~= seq![','] + spec_print_string("aliases"@) + seq![':']);
    assert(seg4 =~= seq![','] + spec_print_string("url"@) + seq![':']);
    assert(seg5 =~= seq![','] + spec_print_string("stats"@) + seq![':']);
    assert(p == seg1 + s1 + seg2 + l2 + seg3 + l3 + seg4 + s4 + seg5 + st5 + seq!['}']) by {
        reveal(spec_print_endpoint);
    }
    lemma_subrange_chars(s, i, p);
    let k1 = i + 1;
    let v1 = i + 8;
    let c1 = v1 + s1.len();
    let k2 = c1 + 1;
    let v2 = c1 + 10;
    let c2 = v2 + l2.len();
    let k3 = c2 + 1;
    let v3 = c2 + 11;
    let c3 = v3 + l3.len();
    let k4 = c3 + 1;
    let v4 = c3 + 7;
    let c4 = v4 + s4.len();
    let k5 = c4 + 1;
    let v5 = c4 + 9;
    let cb = v5 + st5.len();
    assert(seg1.len() == 8 && seg2.len() == 10 && seg3.len() == 11 && seg4.len() == 7
        && seg5.len() == 9);
    assert(p.len() == 8 + s1.len() + 10 + l2.len() + 11 + l3.len() + 7 + s4.len() + 9 + st5.len()
        + 1);
    assert(s[i] == '{' && s[c1] == ',' && s[c2] == ',' && s[c3] == ',' && s[c4] == ',' && s[cb]
        == '}') by {
        assert(p[0] == '{');
        assert(p[c1 - i] == ',');
        assert(p[c2 - i] == ',');
        assert(p[c3 - i] == ',');
        assert(p[c4 - i] == ',');
        assert(p[cb - i] == '}');
    }
    assert(s[v1 - 1] == ':' && s[v2 - 1] == ':' && s[v3 - 1] == ':' && s[v4 - 1] == ':' && s[v5
        - 1] == ':') by {
        assert(p[v1 - 1 - i] == ':');
        assert(p[v2 - 1 - i] == ':');
        assert(p[v3 - 1 - i] == ':');
        assert(p[v4 - 1 - i] == ':');
        assert(p[v5 - 1 - i] == ':');
    }
    let pk1 = spec_print_string("name"@);
    let pk2 = spec_print_string("labels"@);
    let pk3 = spec_print_string("aliases"@);
    let pk4 = spec_print_string("url"@);
    let pk5 = spec_print_string("stats"@);
    assert(pk1.len() == 6 && pk2.len() == 8 && pk3.len() == 9 && pk4.len() == 5 && pk5.len()
        == 7);
    assert forall|k: int| 0 <= k < pk1.len() implies s[k1 + k] == #[trigger] pk1[k] by {
        assert(s[k1 + k] == p[k1 - i + k]);
        assert(p[k1 - i + k] == seg1[1 + k]);
        assert(seg1[1 + k] == (seq!['{'] + pk1 + seq![':'])[1 + k]);
    }
    assert forall|k: int| 0 <= k < pk2.len() implies s[k2 + k] == #[trigger] pk2[k] by {
        assert(s[k2 + k] == p[k2 - i + k]);
        assert(p[k2 - i + k] == seg2[1 + k]);
        assert(seg2[1 + k] == (seq![','] + pk2 + seq![':'])[1 + k]);
    }
    assert forall|k: int| 0 <= k < pk3.len() implies s[k3 + k] == #[trigger] pk3[k] by {
        assert(s[k3 + k] == p[k3 - i + k]);
        assert(p[k3 - i + k] == seg3[1 + k]);
        assert(seg3[1 + k] == (seq![','] + pk3 + seq![':'])[1 + k]);
    }
    assert forall|k: int| 0 <= k < pk4.len() implies s[k4 + k] == #[trigger] pk4[k] by {
        assert(s[k4 + k] == p[k4 - i + k]);
        assert(p[k4 - i + k] == seg4[1 + k]);
        assert(seg4[1 + k] == (seq![','] + pk4 + seq![':'])[1 + k]);
    }
    assert forall|k: int| 0 <= k < pk5.len() implies s[k5 + k] == #[trigger] pk5[k] by {
        assert(s[k5 + k] == p[k5 - i + k]);
        assert(p[k5 - i + k] == seg5[1 + k]);
        assert(seg5[1 + k] == (seq![','] + pk5 + seq![':'])[1 + k]);
    }
    lemma_chars_subrange(s, k1, pk1);
    lemma_chars_subrange(s, k2, pk2);
    lemma_chars_subrange(s, k3, pk3);
    lemma_chars_subrange(s, k4, pk4);
    lemma_chars_subrange(s, k5, pk5);
    lemma_string_roundtrip(s, k1, "name"@);
    lemma_string_roundtrip(s, k2, "labels"@);
    lemma_string_roundtrip(s, k3, "aliases"@);
    lemma_string_roundtrip(s, k4, "url"@);
    lemma_string_roundtrip(s, k5, "stats"@);
    assert forall|k: int| 0 <= k < s1.len() implies s[v1 + k] == #[trigger] s1[k] by {
        assert(s[v1 + k] == p[v1 - i + k]);
    }
    assert forall|k: int| 0 <= k < l2.len() implies s[v2 + k] == #[trigger] l2[k] by {
        assert(s[v2 + k] == p[v2 - i + k]);
    }
    assert forall|k: int| 0 <= k < l3.len() implies s[v3 + k] == #[trigger] l3[k] by {
        assert(s[v3 + k] == p[v3 - i + k]);
    }
    assert forall|k: int| 0 <= k < s4.len() implies s[v4 + k] == #[trigger] s4[k] by {
        assert(s[v4 + k] == p[v4 - i + k]);
    }
    assert forall|k: int| 0 <= k < st5.len() implies s[v5 + k] == #[trigger] st5[k] by {
        assert(s[v5 + k] == p[v5 - i + k]);
    }
    lemma_chars_subrange(s, v1, s1);
    lemma_chars_subrange(s, v2, l2);
    lemma_chars_subrange(s, v3, l3);
    lemma_chars_subrange(s, v4, s4);
    lemma_chars_subrange(s, v5, st5);
    lemma_string_roundtrip(s, v1, ev.name);
    lemma_string_list_roundtrip(s, v2, ev.labels);
    lemma_string_list_roundtrip(s, v3, ev.aliases);
    lemma_string_roundtrip(s, v4, ev.url);
    lemma_stats_roundtrip(s, v5, ev.stats);
    // Walk the members as the parser does.
    assert(sp_ws(s, i + 1) == i + 1) by {
        assert(s[i + 1] == '"') by {
            assert(p[1] == '"');
        }
        lemma_ws_noop(s, i + 1);
    }
    assert(sp_member_key(s, k1) == Some(("name"@, v1))) by {
        lemma_ws_noop(s, k1 + pk1.len());
        lemma_ws_noop(s, v1);
        assert(s[v1] == '"') by {
            assert(p[v1 - i] == s1[0]);
        }
    }
    assert(sp_member_end(s, c1) == Some(MemberEnd::More(k2))) by {
        lemma_ws_noop(s, c1);
        lemma_ws_noop(s, k2);
        assert(s[k2] == '"') by {
            assert(p[k2 - i] == '"');
        }
    }
    assert(sp_member_key(s, k2) == Some(("labels"@, v2))) by {
        lemma_ws_noop(s, k2 + pk2.len());
        assert(s[v2] == '[') by {
            assert(p[v2 - i] == l2[0]);
            reveal(spec_print_string_list);
        }
        lemma_ws_noop(s, v2);
    }
    assert(sp_member_end(s, c2) == Some(MemberEnd::More(k3))) by {
        lemma_ws_noop(s, c2);
        lemma_ws_noop(s, k3);
        assert(s[k3] == '"') by {
            assert(p[k3 - i] == '"');
        }
    }
    assert(sp_member_key(s, k3) == Some(("aliases"@, v3))) by {
        lemma_ws_noop(s, k3 + pk3.len());
        assert(s[v3] == '[') by {
            assert(p[v3 - i] == l3[0]);
            reveal(spec_print_string_list);
        }
        lemma_ws_noop(s, v3);
    }
    assert(sp_member_end(s, c3) == Some(MemberEnd::More(k4))) by {
        lemma_ws_noop(s, c3);
        lemma_ws_noop(s, k4);
        assert(s[k4] == '"') by {
            assert(p[k4 - i] == '"');
        }
    }
    assert(sp_member_key(s, k4) == Some(("url"@, v4))) by {
        lemma_ws_noop(s, k4 + pk4.len());
        lemma_ws_noop(s, v4);
        assert(s[v4] == '"') by {
            assert(p[v4 - i] == s4[0]);
        }
    }
    assert(sp_member_end(s, c4) == Some(MemberEnd::More(k5))) by {
        lemma_ws_noop(s, c4);
        lemma_ws_noop(s, k5);
        assert(s[k5] == '"') by {
            assert(p[k5 - i] == '"');
        }
    }
    assert(sp_member_key(s, k5) == Some(("stats"@, v5))) by {
        lemma_ws_noop(s, k5 + pk5.len());
        assert(s[v5] == '{') by {
            assert(p[v5 - i] == st5[0]);
            reveal(spec_print_stats);
        }
        lemma_ws_noop(s, v5);
    }
    assert(sp_member_end(s, cb) == Some(MemberEnd::Done(cb + 1))) by {
        lemma_ws_noop(s, cb);
    }
    // The five keys differ pairwise, by their lengths.
    assert("name"@.len() == 4 && "labels"@.len() == 6 && "aliases"@.len() == 7 && "url"@.len()
        == 3 && "stats"@.len() == 5);
    let a0 = ep_acc0();
    let a1 = EpAcc { name: Some(ev.name), ..a0 };
    let a2 = EpAcc { labels: ev.labels, seen_labels: true, ..a1 };
    let a3 = EpAcc { aliases: ev.aliases, seen_aliases: true, ..a2 };
    let a4 = EpAcc { url: Some(ev.url), ..a3 };
    let a5 = EpAcc { stats: ev.stats, seen_stats: true, ..a4 };
    assert(ep_acc_finish(a5) == Some(ev)) by {
        assert(a5.name == Some(ev.name) && a5.url == Some(ev.url));
        let built = EndpointV {
            name: ev.name,
            labels: a5.labels,
            aliases: a5.aliases,
            url: ev.url,
            stats: a5.stats,
        };
        assert(built == ev);
    }
    assert(sp_endpoint_fields(s, k5, a4) == Some((ev, cb + 1)));
    assert(sp_endpoint_fields(s, k4, a3) == Some((ev, cb + 1)));
    assert(sp_endpoint_fields(s, k3, a2) == Some((ev, cb + 1)));
    assert(sp_endpoint_fields(s, k2, a1) == Some((ev, cb + 1)));
    assert(sp_endpoint_fields(s, k1, a0) == Some((ev, cb + 1)));
    assert(sp_endpoint(s, i) == Some((ev, cb + 1)));
    assert(cb + 1 == i + p.len());
}


/// A printed endpoint object begins with its opening brace.
pub proof fn lemma_print_endpoint_shape(e: EndpointV)
    ensures
        spec_print_endpoint(e).len() > 0,
        spec_print_endpoint(e)[0] == '{',
{
    reveal(spec_print_endpoint);
    reveal_strlit("{\"name\":");
    assert(spec_print_endpoint(e)[0] == "{\"name\":"@[0]);
}

/// An endpoint the document can carry and yield back: safe texts, a
/// recognized url scheme, and a latency the decimal form can hold.
pub open spec fn ep_storable(e: EndpointV) -> bool {
    &&& ep_safe(e)
    &&& crate::endpoint_url::spec_url_scheme_ok(e.url)
    &&& (e.stats.latency as nat) / 1000 <= ((u64::MAX as nat) - 999) / 1000
}

/// Every endpoint of the list is storable.
pub open spec fn eps_storable(v: Seq<EndpointV>) -> bool {
    forall|k: int| 0 <= k < v.len() ==> ep_storable(#[trigger] v[k])
}

/// The printed items of an endpoint array decompose from the front.
#[verifier::rlimit(100)]
pub proof fn lemma_endpoint_items_first(v: Seq<EndpointV>)
    requires
        v.len() >= 2,
    ensures
        spec_print_endpoint_items(v) == spec_print_endpoint(v[0]) + seq![',']
            + spec_print_endpoint_items(v.drop_first()),
    decreases v.len(),
{
    if v.len() == 2 {
        let u = v.drop_last();
        assert(u.len() == 1);
        assert(v.drop_first().len() == 1);
        assert(v.drop_first()[0] == v.last());
        assert(u[0] == v[0]);
        assert(spec_print_endpoint_items(u) == spec_print_endpoint(u[0]));
        assert(spec_print_endpoint_items(v.drop_first()) == spec_print_endpoint(
            v.drop_first()[0],
        ));
        assert(spec_print_endpoint_items(v) == spec_print_endpoint_items(u) + seq![',']
            + spec_print_endpoint(v.last()));
    } else {
        let u = v.drop_last();
        lemma_endpoint_items_first(u);
        assert(v.drop_first().drop_last() =~= u.drop_first());
        assert(v.drop_first().last() == v.last());
        assert(v.drop_first().len() >= 2);
        assert(spec_print_endpoint_items(v.drop_first()) == spec_print_endpoint_items(
            v.drop_first().drop_last(),
        ) + seq![','] + spec_print_endpoint(v.drop_first().last()));
        assert(u[0] == v[0]);
        assert(spec_print_endpoint_items(v) =~= spec_print_endpoint(v[0]) + seq![',']
            + spec_print_endpoint_items(v.drop_first()));
    }
}

/// Reading printed endpoint items from the first one yields them all,
/// appended to what was gathered, and stops just after the bracket.
pub proof fn lemma_endpoint_items_parse(
    s: Seq<char>,
    i: int,
    v: Seq<EndpointV>,
    acc: Seq<EndpointV>,
)
    requires
        v.len() >= 1,
        eps_storable(v),
        0 <= i,
        i + spec_print_endpoint_items(v).len() + 1 <= s.len(),
        s.subrange(i, i + spec_print_endpoint_items(v).len()) == spec_print_endpoint_items(v),
        s[i + spec_print_endpoint_items(v).len()] == ']',
    ensures
        sp_endpoint_items(s, i, acc) == Some(
            (acc + v, i + spec_print_endpoint_items(v).len() + 1),
        ),
    decreases v.len(),
{
    let items = spec_print_endpoint_items(v);
    let p0 = spec_print_endpoint(v[0]);
    lemma_subrange_chars(s, i, items);
    assert(ep_storable(v[0]));
    if v.len() == 1 {
        assert(items == p0);
        lemma_endpoint_roundtrip(s, i, v[0]);
        let j = i + p0.len();
        assert(s[j] == ']');
        lemma_ws_noop(s, j);
        assert(sp_endpoint_items(s, i, acc) == Some((acc.push(v[0]), j + 1)));
        assert(acc.push(v[0]) =~= acc + v);
    } else {
        lemma_endpoint_items_first(v);
        let rest = v.drop_first();
        assert(eps_storable(rest)) by {
            assert forall|k: int| 0 <= k < rest.len() implies ep_storable(#[trigger] rest[k]) by {
                assert(rest[k] == v[k + 1]);
            }
        }
        assert(items == p0 + seq![','] + spec_print_endpoint_items(rest));
        assert forall|k: int| 0 <= k < p0.len() implies s[i + k] == #[trigger] p0[k] by {
            assert(s[i + k] == items[k]);
        }
        lemma_chars_subrange(s, i, p0);
        lemma_endpoint_roundtrip(s, i, v[0]);
        let j = i + p0.len();
        assert(s[j] == ',') by {
            assert(items[j - i] == ',');
        }
        lemma_ws_noop(s, j);
        let m = j + 1;
        let resti = spec_print_endpoint_items(rest);
        assert forall|k: int| 0 <= k < resti.len() implies s[m + k] == #[trigger] resti[k] by {
            assert(s[m + k] == items[m - i + k]);
        }
        lemma_chars_subrange(s, m, resti);
        assert(s[m + resti.len()] == ']') by {
            assert(m + resti.len() == i + items.len());
        }
        lemma_endpoint_items_parse(s, m, rest, acc.push(v[0]));
        assert(s[m] == '{') by {
            lemma_print_endpoint_shape(rest[0]);
            assert(resti[0] == spec_print_endpoint(rest[0])[0]) by {
                if rest.len() >= 2 {
                    lemma_endpoint_items_first(rest);
                } else {
                    assert(resti == spec_print_endpoint(rest[0]));
                }
            }
        }
        lemma_ws_noop(s, m);
        assert(acc.push(v[0]) + rest =~= acc + v);
        assert(m + resti.len() + 1 == i + items.len() + 1);
    }
}

/// Reading a printed endpoint array yields the endpoints back and stops
/// just after the closing bracket.
pub proof fn lemma_endpoint_list_roundtrip(s: Seq<char>, i: int, v: Seq<EndpointV>)
    requires
        eps_storable(v),
        0 <= i,
        i + spec_print_endpoint_list(v).len() <= s.len(),
        s.subrange(i, i + spec_print_endpoint_list(v).len()) == spec_print_endpoint_list(v),
    ensures
        sp_endpoint_list(s, i) == Some((v, i + spec_print_endpoint_list(v).len())),
{
    reveal(spec_print_endpoint_list);
    let p = spec_print_endpoint_list(v);
    let items = spec_print_endpoint_items(v);
    lemma_subrange_chars(s, i, p);
    assert(s[i] == '[') by {
        assert(p[0] == '[');
    }
    if v.len() == 0 {
        assert(items =~= Seq::<char>::empty());
        assert(s[i + 1] == ']') by {
            assert(p[1] == ']');
        }
        lemma_ws_noop(s, i + 1);
        assert(v =~= Seq::<EndpointV>::empty());
    } else {
        assert forall|k: int| 0 <= k < items.len() implies s[i + 1 + k] == #[trigger] items[k] by {
            assert(s[i + 1 + k] == p[1 + k]);
        }
        lemma_chars_subrange(s, i + 1, items);
        assert(s[i + 1 + items.len()] == ']') by {
            assert(p[p.len() - 1] == ']');
        }
        assert(s[i + 1] == '{') by {
            lemma_print_endpoint_shape(v[0]);
            assert(items[0] == spec_print_endpoint(v[0])[0]) by {
                if v.len() >= 2 {
                    lemma_endpoint_items_first(v);
                } else {
                    assert(items == spec_print_endpoint(v[0]));
                }
            }
        }
        lemma_ws_noop(s, i + 1);
        lemma_endpoint_items_parse(s, i + 1, v, Seq::empty());
        assert(Seq::<EndpointV>::empty() + v =~= v);
    }
}

/// A bucket the document can carry and yield back.
pub open spec fn bucket_storable(b: (Seq<char>, Seq<EndpointV>)) -> bool {
    &&& json_safe(b.0)
    &&& eps_storable(b.1)
}

/// Every bucket of the map is storable.
pub open spec fn buckets_storable(v: Seq<(Seq<char>, Seq<EndpointV>)>) -> bool {
    forall|k: int| 0 <= k < v.len() ==> bucket_storable(#[trigger] v[k])
}

/// The printed members of the chain map decompose from the front.
#[verifier::rlimit(100)]
pub proof fn lemma_bucket_items_first(v: Seq<(Seq<char>, Seq<EndpointV>)>)
    requires
        v.len() >= 2,
    ensures
        spec_print_bucket_items(v) == spec_print_string(v[0].0) + seq![':']
            + spec_print_endpoint_list(v[0].1) + seq![','] + spec_print_bucket_items(
            v.drop_first(),
        ),
    decreases v.len(),
{
    if v.len() == 2 {
        let u = v.drop_last();
        assert(u.len() == 1);
        assert(v.drop_first().len() == 1);
        assert(v.drop_first()[0] == v.last());
        assert(u[0] == v[0]);
        assert(spec_print_bucket_items(u) == spec_print_string(u[0].0) + seq![':']
            + spec_print_endpoint_list(u[0].1));
        assert(spec_print_bucket_items(v.drop_first()) == spec_print_string(v.drop_first()[0].0)
            + seq![':'] + spec_print_endpoint_list(v.drop_first()[0].1));
        assert(spec_print_bucket_items(v) =~= spec_print_string(v[0].0) + seq![':']
            + spec_print_endpoint_list(v[0].1) + seq![','] + spec_print_bucket_items(
            v.drop_first(),
        ));
    } else {
        let u = v.drop_last();
        lemma_bucket_items_first(u);
        assert(v.drop_first().drop_last() =~= u.drop_first());
        assert(v.drop_first().last() == v.last());
        assert(v.drop_first().len() >= 2);
        assert(spec_print_bucket_items(v.drop_first()) == spec_print_bucket_items(
            v.drop_first().drop_last(),
        ) + seq![','] + spec_print_string(v.drop_first().last().0) + seq![':']
            + spec_print_endpoint_list(v.drop_first().last().1));
        assert(u[0] == v[0]);
        assert(spec_print_bucket_items(v) =~= spec_print_string(v[0].0) + seq![':']
            + spec_print_endpoint_list(v[0].1) + seq![','] + spec_print_bucket_items(
            v.drop_first(),
        ));
    }
}

/// Reading printed chain-map members from the first one yields them
/// all, appended to what was gathered, and stops just after the brace.
#[verifier::rlimit(100)]
pub proof fn lemma_bucket_items_parse(
    s: Seq<char>,
    i: int,
    v: Seq<(Seq<char>, Seq<EndpointV>)>,
    acc: Seq<(Seq<char>, Seq<EndpointV>)>,
)
    requires
        v.len() >= 1,
        buckets_storable(v),
        forall|x: int, y: int| 0 <= x < y < v.len() ==> v[x].0 != v[y].0,
        forall|x: int, y: int| 0 <= x < acc.len() && 0 <= y < v.len() ==> acc[x].0 != v[y].0,
        0 <= i,
        i + spec_print_bucket_items(v).len() + 1 <= s.len(),
        s.subrange(i, i + spec_print_bucket_items(v).len()) == spec_print_bucket_items(v),
        s[i + spec_print_bucket_items(v).len()] == '}',
    ensures
        sp_bucket_items(s, i, acc) == Some((acc + v, i + spec_print_bucket_items(v).len() + 1)),
    decreases v.len(),
{
    reveal(spec_print_endpoint_list);
    let items = spec_print_bucket_items(v);
    let pk = spec_print_string(v[0].0);
    let pe = spec_print_endpoint_list(v[0].1);
    lemma_subrange_chars(s, i, items);
    assert(bucket_storable(v[0]));
    if v.len() == 1 {
        assert(items == pk + seq![':'] + pe);
        assert forall|k: int| 0 <= k < pk.len() implies s[i + k] == #[trigger] pk[k] by {
            assert(s[i + k] == items[k]);
        }
        lemma_chars_subrange(s, i, pk);
        lemma_string_roundtrip(s, i, v[0].0);
        let j = i + pk.len();
        assert(s[j] == ':') by {
            assert(items[j - i] == ':');
        }
        lemma_ws_noop(s, j);
        let m = j + 1;
        assert forall|k: int| 0 <= k < pe.len() implies s[m + k] == #[trigger] pe[k] by {
            assert(s[m + k] == items[m - i + k]);
        }
        lemma_chars_subrange(s, m, pe);
        assert(s[m] == '[') by {
            assert(pe[0] == '[');
        }
        lemma_ws_noop(s, m);
        lemma_endpoint_list_roundtrip(s, m, v[0].1);
        let e = m + pe.len();
        assert(e == i + items.len());
        assert(s[e] == '}');
        lemma_ws_noop(s, e);
        assert(!buckets_have(acc, v[0].0)) by {
            if buckets_have(acc, v[0].0) {
                let x = choose|x: int| 0 <= x < acc.len() && (#[trigger] acc[x]).0 == v[0].0;
                assert(acc[x].0 != v[0].0);
            }
        }
        assert(sp_member_key(s, i) == Some((v[0].0, m)));
        assert(sp_bucket_items(s, i, acc) == Some((acc.push(v[0]), e + 1)));
        assert(acc.push(v[0]) =~= acc + v);
    } else {
        lemma_bucket_items_first(v);
        let rest = v.drop_first();
        assert(buckets_storable(rest)) by {
            assert forall|k: int| 0 <= k < rest.len() implies bucket_storable(
                #[trigger] rest[k],
            ) by {
                assert(rest[k] == v[k + 1]);
            }
        }
        assert(items == pk + seq![':'] + pe + seq![','] + spec_print_bucket_items(rest));
        assert forall|k: int| 0 <= k < pk.len() implies s[i + k] == #[trigger] pk[k] by {
            assert(s[i + k] == items[k]);
        }
        lemma_chars_subrange(s, i, pk);
        lemma_string_roundtrip(s, i, v[0].0);
        let j = i + pk.len();
        assert(s[j] == ':') by {
            assert(items[j - i] == ':');
        }
        lemma_ws_noop(s, j);
        let m = j + 1;
        assert forall|k: int| 0 <= k < pe.len() implies s[m + k] == #[trigger] pe[k] by {
            assert(s[m + k] == items[m - i + k]);
        }
        lemma_chars_subrange(s, m, pe);
        assert(s[m] == '[') by {
            assert(pe[0] == '[');
        }
        lemma_ws_noop(s, m);
        lemma_endpoint_list_roundtrip(s, m, v[0].1);
        let c = m + pe.len();
        assert(s[c] == ',') by {
            assert(items[c - i] == ',');
        }
        lemma_ws_noop(s, c);
        let m2 = c + 1;
        let resti = spec_print_bucket_items(rest);
        assert forall|k: int| 0 <= k < resti.len() implies s[m2 + k] == #[trigger] resti[k] by {
            assert(s[m2 + k] == items[m2 - i + k]);
        }
        lemma_chars_subrange(s, m2, resti);
        assert(s[m2 + resti.len()] == '}') by {
            assert(m2 + resti.len() == i + items.len());
        }
        assert(s[m2] == '"') by {
            assert(resti[0] == spec_print_string(rest[0].0)[0]) by {
                if rest.len() >= 2 {
                    lemma_bucket_items_first(rest);
                } else {
                    assert(resti == spec_print_string(rest[0].0) + seq![':']
                        + spec_print_endpoint_list(rest[0].1));
                }
            }
            assert(spec_print_string(rest[0].0)[0] == '"');
        }
        lemma_ws_noop(s, m2);
        let acc2 = acc.push(v[0]);
        assert(forall|x: int, y: int|
            0 <= x < y < rest.len() ==> rest[x].0 != rest[y].0) by {
            assert forall|x: int, y: int|
                0 <= x < y < rest.len() implies rest[x].0 != rest[y].0 by {
                assert(rest[x] == v[x + 1] && rest[y] == v[y + 1]);
            }
        }
        assert(forall|x: int, y: int|
            0 <= x < acc2.len() && 0 <= y < rest.len() ==> acc2[x].0 != rest[y].0) by {
            assert forall|x: int, y: int|
                0 <= x < acc2.len() && 0 <= y < rest.len() implies acc2[x].0 != rest[y].0 by {
                assert(rest[y] == v[y + 1]);
                if x < acc.len() {
                    assert(acc2[x] == acc[x]);
                } else {
                    assert(acc2[x] == v[0]);
                }
            }
        }
        lemma_bucket_items_parse(s, m2, rest, acc2);
        assert(!buckets_have(acc, v[0].0)) by {
            if buckets_have(acc, v[0].0) {
                let x = choose|x: int| 0 <= x < acc.len() && (#[trigger] acc[x]).0 == v[0].0;
                assert(acc[x].0 != v[0].0);
            }
        }
        assert(sp_member_key(s, i) == Some((v[0].0, m)));
        assert(acc.push(v[0]) + rest =~= acc + v);
        assert(m2 + resti.len() + 1 == i + items.len() + 1);
    }
}

/// Reading a printed chain map yields the buckets back, in order, and
/// stops just after the closing brace.
pub proof fn lemma_buckets_roundtrip(s: Seq<char>, i: int, v: Seq<(Seq<char>, Seq<EndpointV>)>)
    requires
        buckets_storable(v),
        forall|x: int, y: int| 0 <= x < y < v.len() ==> v[x].0 != v[y].0,
        0 <= i,
        i + spec_print_buckets(v).len() <= s.len(),
        s.subrange(i, i + spec_print_buckets(v).len()) == spec_print_buckets(v),
    ensures
        sp_buckets(s, i) == Some((v, i + spec_print_buckets(v).len())),
{
    reveal(spec_print_buckets);
    let p = spec_print_buckets(v);
    let items = spec_print_bucket_items(v);
    lemma_subrange_chars(s, i, p);
    assert(s[i] == '{') by {
        assert(p[0] == '{');
    }
    if v.len() == 0 {
        assert(items =~= Seq::<char>::empty());
        assert(s[i + 1] == '}') by {
            assert(p[1] == '}');
        }
        lemma_ws_noop(s, i + 1);
        assert(v =~= Seq::<(Seq<char>, Seq<EndpointV>)>::empty());
    } else {
        assert forall|k: int| 0 <= k < items.len() implies s[i + 1 + k] == #[trigger] items[k] by {
            assert(s[i + 1 + k] == p[1 + k]);
        }
        lemma_chars_subrange(s, i + 1, items);
        assert(s[i + 1 + items.len()] == '}') by {
            assert(p[p.len() - 1] == '}');
        }
        assert(s[i + 1] == '"') by {
            assert(items[0] == spec_print_string(v[0].0)[0]) by {
                if v.len() >= 2 {
                    lemma_bucket_items_first(v);
                } else {
                    assert(items == spec_print_string(v[0].0) + seq![':']
                        + spec_print_endpoint_list(v[0].1));
                }
            }
            assert(spec_print_string(v[0].0)[0] == '"');
        }
        lemma_ws_noop(s, i + 1);
        lemma_bucket_items_parse(s, i + 1, v, Seq::empty());
        assert(Seq::<(Seq<char>, Seq<EndpointV>)>::empty() + v =~= v);
    }
}


/// Walking the six members of a printed registry object, given where
/// each key, value and separator was read: the accumulator gathers the
/// fields and finishes into the registry.
#[verifier::rlimit(100)]
pub proof fn lemma_registry_fields_walk(
    s: Seq<char>,
    r: RegistryV,
    k1: int,
    v1: int,
    c1: int,
    k2: int,
    v2: int,
    c2: int,
    k3: int,
    v3: int,
    c3: int,
    k4: int,
    v4: int,
    c4: int,
    k5: int,
    v5: int,
    c5: int,
    k6: int,
    v6: int,
    cb: int,
)
    requires
        0 <= k1 < v1 <= c1 < k2 < v2 <= c2 < k3 < v3 <= c3 < k4 < v4 <= c4 < k5 < v5 <= c5 < k6
            < v6 <= cb < s.len(),
        sp_member_key(s, k1) == Some(("enabled"@, v1)),
        sp_bool(s, v1) == Some((r.enabled, c1)),
        sp_member_end(s, c1) == Some(MemberEnd::More(k2)),
        sp_member_key(s, k2) == Some(("name"@, v2)),
        sp_string(s, v2) == Some((r.name, c2)),
        sp_member_end(s, c2) == Some(MemberEnd::More(k3)),
        sp_member_key(s, k3) == Some(("url"@, v3)),
        sp_opt_string(s, v3) == Some((r.url, c3)),
        sp_member_end(s, c3) == Some(MemberEnd::More(k4)),
        sp_member_key(s, k4) == Some(("labels"@, v4)),
        sp_string_list(s, v4) == Some((r.labels, c4)),
        sp_member_end(s, c4) == Some(MemberEnd::More(k5)),
        sp_member_key(s, k5) == Some(("last_update"@, v5)),
        sp_opt_string(s, v5) == Some((r.last_update, c5)),
        sp_member_end(s, c5) == Some(MemberEnd::More(k6)),
        sp_member_key(s, k6) == Some(("rpc_endpoints"@, v6)),
        sp_buckets(s, v6) == Some((r.buckets, cb)),
        sp_member_end(s, cb) == Some(MemberEnd::Done(cb + 1)),
    ensures
        sp_registry_fields(s, k1, reg_acc0()) == Some((r, cb + 1)),
{
    reveal_strlit("enabled");
    reveal_strlit("name");
    reveal_strlit("url");
    reveal_strlit("labels");
    reveal_strlit("last_update");
    reveal_strlit("rpc_endpoints");
    assert("enabled"@.len() == 7 && "name"@.len() == 4 && "url"@.len() == 3 && "labels"@.len()
        == 6 && "last_update"@.len() == 11 && "rpc_endpoints"@.len() == 13);
    let a0 = reg_acc0();
    let a1 = RegAcc { enabled: r.enabled, seen_enabled: true, ..a0 };
    let a2 = RegAcc { name: Some(r.name), ..a1 };
    let a3 = RegAcc { url: r.url, seen_url: true, ..a2 };
    let a4 = RegAcc { labels: r.labels, seen_labels: true, ..a3 };
    let a5 = RegAcc { last_update: r.last_update, seen_last_update: true, ..a4 };
    let a6 = RegAcc { buckets: Some(r.buckets), ..a5 };
    assert(reg_acc_finish(a6) == Some(r)) by {
        let built = RegistryV {
            enabled: a6.enabled,
            name: r.name,
            url: a6.url,
            labels: a6.labels,
            last_update: a6.last_update,
            buckets: r.buckets,
        };
        assert(built == r);
    }
    assert(sp_registry_fields(s, k6, a5) == Some((r, cb + 1)));
    assert(sp_registry_fields(s, k5, a4) == Some((r, cb + 1)));
    assert(sp_registry_fields(s, k4, a3) == Some((r, cb + 1)));
    assert(sp_registry_fields(s, k3, a2) == Some((r, cb + 1)));
    assert(sp_registry_fields(s, k2, a1) == Some((r, cb + 1)));
    assert(sp_registry_fields(s, k1, a0) == Some((r, cb + 1)));
}

/// A registry the document can carry and yield back: safe texts,
/// distinct chain names, storable endpoints.
pub open spec fn reg_storable(r: RegistryV) -> bool {
    &&& json_safe(r.name)
    &&& opt_safe(r.url)
    &&& opt_safe(r.last_update)
    &&& all_safe(r.labels)
    &&& buckets_storable(r.buckets)
    &&& forall|x: int, y: int| 0 <= x < y < r.buckets.len() ==> r.buckets[x].0 != r.buckets[y].0
}

/// Where the first three members of a printed registry object stand,
/// and what reading each of them yields.
#[verifier::rlimit(100)]
proof fn lemma_registry_layout_head(s: Seq<char>, i: int, r: RegistryV)
    requires
        reg_storable(r),
        0 <= i,
        i + spec_print_registry(r).len() <= s.len(),
        s.subrange(i, i + spec_print_registry(r).len()) == spec_print_registry(r),
    ensures
        ({
            let b1 = spec_print_bool(r.enabled);
            let s2 = spec_print_string(r.name);
            let o3 = spec_print_opt_string(r.url);
            let k1 = i + 1;
            let v1 = i + 11;
            let c1 = v1 + b1.len();
            let k2 = c1 + 1;
            let v2 = c1 + 8;
            let c2 = v2 + s2.len();
            let k3 = c2 + 1;
            let v3 = c2 + 7;
            let c3 = v3 + o3.len();
            &&& s[i] == '{'
            &&& sp_ws(s, i + 1) == i + 1
            &&& sp_member_key(s, k1) == Some(("enabled"@, v1))
            &&& sp_bool(s, v1) == Some((r.enabled, c1))
            &&& sp_member_end(s, c1) == Some(MemberEnd::More(k2))
            &&& sp_member_key(s, k2) == Some(("name"@, v2))
            &&& sp_string(s, v2) == Some((r.name, c2))
            &&& sp_member_end(s, c2) == Some(MemberEnd::More(k3))
            &&& sp_member_key(s, k3) == Some(("url"@, v3))
            &&& sp_opt_string(s, v3) == Some((r.url, c3))
            &&& sp_member_end(s, c3) == Some(MemberEnd::More(c3 + 1))
        }),
{
    let p = spec_print_registry(r);
    let seg1 = "{\"enabled\":"@;
    let seg2 = ",\"name\":"@;
    let seg3 = ",\"url\":"@;
    let seg4 = ",\"labels\":"@;
    let seg5 = ",\"last_update\":"@;
    let seg6 = ",\"rpc_endpoints\":"@;
    let b1 = spec_print_bool(r.enabled);
    let s2 = spec_print_string(r.name);
    let o3 = spec_print_opt_string(r.url);
    let l4 = spec_print_string_list(r.labels);
    let o5 = spec_print_opt_string(r.last_update);
    let bk6 = spec_print_buckets(r.buckets);
    reveal_strlit("{\"enabled\":");
    reveal_strlit(",\"name\":");
    reveal_strlit(",\"url\":");
    reveal_strlit(",\"labels\":");
    reveal_strlit(",\"last_update\":");
    reveal_strlit(",\"rpc_endpoints\":");
    reveal_strlit("enabled");
    reveal_strlit("name");
    reveal_strlit("url");
    reveal_strlit("labels");
    reveal_strlit("last_update");
    reveal_strlit("rpc_endpoints");
    reveal_strlit("true");
    reveal_strlit("false");
    reveal_strlit("null");
    lemma_escape_plain("enabled"@);
    lemma_escape_plain("name"@);
    lemma_escape_plain("url"@);
    assert(seg1 =~= seq!['{'] + spec_print_string("enabled"@) + seq![':']);
    assert(seg2 =~= seq![','] + spec_print_string("name"@) + seq![':']);
    assert(seg3 =~= seq![','] + spec_print_string("url"@) + seq![':']);
    assert(p == seg1 + b1 + seg2 + s2 + seg3 + o3 + seg4 + l4 + seg5 + o5 + seg6 + bk6
        + seq!['}']) by {
        reveal(spec_print_registry);
    }
    lemma_subrange_chars(s, i, p);
    let k1 = i + 1;
    let v1 = i + 11;
    let c1 = v1 + b1.len();
    let k2 = c1 + 1;
    let v2 = c1 + 8;
    let c2 = v2 + s2.len();
    let k3 = c2 + 1;
    let v3 = c2 + 7;
    let c3 = v3 + o3.len();
    let k4 = c3 + 1;
    let v4 = c3 + 10;
    let c4 = v4 + l4.len();
    let k5 = c4 + 1;
    let v5 = c4 + 15;
    let c5 = v5 + o5.len();
    let k6 = c5 + 1;
    let v6 = c5 + 17;
    let cb = v6 + bk6.len();
    assert(seg1.len() == 11 && seg2.len() == 8 && seg3.len() == 7 && seg4.len() == 10
        && seg5.len() == 15 && seg6.len() == 17);
    assert(p.len() == 11 + b1.len() + 8 + s2.len() + 7 + o3.len() + 10 + l4.len() + 15 + o5.len()
        + 17 + bk6.len() + 1);
    assert(s[i] == '{' && s[c1] == ',' && s[c2] == ',' && s[c3] == ',' && s[c4] == ',' && s[c5]
        == ',' && s[cb] == '}') by {
        assert(p[0] == '{');
        assert(p[c1 - i] == ',');
        assert(p[c2 - i] == ',');
        assert(p[c3 - i] == ',');
        assert(p[c4 - i] == ',');
        assert(p[c5 - i] == ',');
        assert(p[cb - i] == '}');
    }
    assert(s[v1 - 1] == ':' && s[v2 - 1] == ':' && s[v3 - 1] == ':' && s[v4 - 1] == ':' && s[v5
        - 1] == ':' && s[v6 - 1] == ':') by {
        assert(p[v1 - 1 - i] == ':');
        assert(p[v2 - 1 - i] == ':');
        assert(p[v3 - 1 - i] == ':');
        assert(p[v4 - 1 - i] == ':');
        assert(p[v5 - 1 - i] == ':');
        assert(p[v6 - 1 - i] == ':');
    }
    let pk1 = spec_print_string("enabled"@);
    let pk2 = spec_print_string("name"@);
    let pk3 = spec_print_string("url"@);
    let pk4 = spec_print_string("labels"@);
    let pk5 = spec_print_string("last_update"@);
    let pk6 = spec_print_string("rpc_endpoints"@);
    assert(pk1.len() == 9 && pk2.len() == 6 && pk3.len() == 5);
    assert forall|k: int| 0 <= k < pk1.len() implies s[k1 + k] == #[trigger] pk1[k] by {
        assert(s[k1 + k] == p[k1 - i + k]);
        assert(p[k1 - i + k] == seg1[1 + k]);
        assert(seg1[1 + k] == (seq!['{'] + pk1 + seq![':'])[1 + k]);
    }
    assert forall|k: int| 0 <= k < pk2.len() implies s[k2 + k] == #[trigger] pk2[k] by {
        assert(s[k2 + k] == p[k2 - i + k]);
        assert(p[k2 - i + k] == seg2[1 + k]);
        assert(seg2[1 + k] == (seq![','] + pk2 + seq![':'])[1 + k]);
    }
    assert forall|k: int| 0 <= k < pk3.len() implies s[k3 + k] == #[trigger] pk3[k] by {
        assert(s[k3 + k] == p[k3 - i + k]);
        assert(p[k3 - i + k] == seg3[1 + k]);
        assert(seg3[1 + k] == (seq![','] + pk3 + seq![':'])[1 + k]);
    }
    lemma_chars_subrange(s, k1, pk1);
    lemma_chars_subrange(s, k2, pk2);
    lemma_chars_subrange(s, k3, pk3);
    lemma_string_roundtrip(s, k1, "enabled"@);
    lemma_string_roundtrip(s, k2, "name"@);
    lemma_string_roundtrip(s, k3, "url"@);
    assert forall|k: int| 0 <= k < b1.len() implies s[v1 + k] == #[trigger] b1[k] by {
        assert(s[v1 + k] == p[v1 - i + k]);
    }
    assert forall|k: int| 0 <= k < s2.len() implies s[v2 + k] == #[trigger] s2[k] by {
        assert(s[v2 + k] == p[v2 - i + k]);
    }
    assert forall|k: int| 0 <= k < o3.len() implies s[v3 + k] == #[trigger] o3[k] by {
        assert(s[v3 + k] == p[v3 - i + k]);
    }
    lemma_chars_subrange(s, v1, b1);
    lemma_chars_subrange(s, v2, s2);
    lemma_chars_subrange(s, v3, o3);
    lemma_bool_roundtrip(s, v1, r.enabled);
    lemma_string_roundtrip(s, v2, r.name);
    lemma_opt_string_roundtrip(s, v3, r.url);
    assert(sp_ws(s, i + 1) == i + 1) by {
        assert(s[i + 1] == '"') by {
            assert(p[1] == '"');
        }
        lemma_ws_noop(s, i + 1);
    }
    assert(sp_member_key(s, k1) == Some(("enabled"@, v1))) by {
        lemma_ws_noop(s, k1 + pk1.len());
        assert(s[v1] == 't' || s[v1] == 'f') by {
            assert(p[v1 - i] == b1[0]);
        }
        lemma_ws_noop(s, v1);
    }
    assert(sp_member_end(s, c1) == Some(MemberEnd::More(k2))) by {
        lemma_ws_noop(s, c1);
        assert(s[k2] == '"') by {
            assert(p[k2 - i] == '"');
        }
        lemma_ws_noop(s, k2);
    }
    assert(sp_member_key(s, k2) == Some(("name"@, v2))) by {
        lemma_ws_noop(s, k2 + pk2.len());
        assert(s[v2] == '"') by {
            assert(p[v2 - i] == s2[0]);
        }
        lemma_ws_noop(s, v2);
    }
    assert(sp_member_end(s, c2) == Some(MemberEnd::More(k3))) by {
        lemma_ws_noop(s, c2);
        assert(s[k3] == '"') by {
            assert(p[k3 - i] == '"');
        }
        lemma_ws_noop(s, k3);
    }
    assert(sp_member_key(s, k3) == Some(("url"@, v3))) by {
        lemma_ws_noop(s, k3 + pk3.len());
        assert(s[v3] == 'n' || s[v3] == '"') by {
            assert(p[v3 - i] == o3[0]);
            match r.url {
                None => {
                    assert(o3[0] == 'n');
                },
                Some(t) => {
                    assert(o3[0] == '"');
                },
            }
        }
        lemma_ws_noop(s, v3);
    }
    assert(sp_member_end(s, c3) == Some(MemberEnd::More(k4))) by {
        lemma_ws_noop(s, c3);
        assert(s[k4] == '"') by {
            assert(p[k4 - i] == '"');
        }
        lemma_ws_noop(s, k4);
    }
}

/// Where the last three members of a printed registry object stand,
/// and what reading each of them yields.
#[verifier::rlimit(100)]
proof fn lemma_registry_layout_tail(s: Seq<char>, i: int, r: RegistryV)
    requires
        reg_storable(r),
        0 <= i,
        i + spec_print_registry(r).len() <= s.len(),
        s.subrange(i, i + spec_print_registry(r).len()) == spec_print_registry(r),
    ensures
        ({
            let b1 = spec_print_bool(r.enabled);
            let s2 = spec_print_string(r.name);
            let o3 = spec_print_opt_string(r.url);
            let l4 = spec_print_string_list(r.labels);
            let o5 = spec_print_opt_string(r.last_update);
            let bk6 = spec_print_buckets(r.buckets);
            let c3 = i + 11 + b1.len() + 8 + s2.len() + 7 + o3.len();
            let k4 = c3 + 1;
            let v4 = c3 + 10;
            let c4 = v4 + l4.len();
            let k5 = c4 + 1;
            let v5 = c4 + 15;
            let c5 = v5 + o5.len();
            let k6 = c5 + 1;
            let v6 = c5 + 17;
            let cb = v6 + bk6.len();
            &&& sp_member_key(s, k4) == Some(("labels"@, v4))
            &&& sp_string_list(s, v4) == Some((r.labels, c4))
            &&& sp_member_end(s, c4) == Some(MemberEnd::More(k5))
            &&& sp_member_key(s, k5) == Some(("last_update"@, v5))
            &&& sp_opt_string(s, v5) == Some((r.last_update, c5))
            &&& sp_member_end(s, c5) == Some(MemberEnd::More(k6))
            &&& sp_member_key(s, k6) == Some(("rpc_endpoints"@, v6))
            &&& sp_buckets(s, v6) == Some((r.buckets, cb))
            &&& sp_member_end(s, cb) == Some(MemberEnd::Done(cb + 1))
            &&& cb + 1 == i + spec_print_registry(r).len()
        }),
{
    let p = spec_print_registry(r);
    let seg1 = "{\"enabled\":"@;
    let seg2 = ",\"name\":"@;
    let seg3 = ",\"url\":"@;
    let seg4 = ",\"labels\":"@;
    let seg5 = ",\"last_update\":"@;
    let seg6 = ",\"rpc_endpoints\":"@;
    let b1 = spec_print_bool(r.enabled);
    let s2 = spec_print_string(r.name);
    let o3 = spec_print_opt_string(r.url);
    let l4 = spec_print_string_list(r.labels);
    let o5 = spec_print_opt_string(r.last_update);
    let bk6 = spec_print_buckets(r.buckets);
    reveal_strlit("{\"enabled\":");
    reveal_strlit(",\"name\":");
    reveal_strlit(",\"url\":");
    reveal_strlit(",\"labels\":");
    reveal_strlit(",\"last_update\":");
    reveal_strlit(",\"rpc_endpoints\":");
    reveal_strlit("enabled");
    reveal_strlit("name");
    reveal_strlit("url");
    reveal_strlit("labels");
    reveal_strlit("last_update");
    reveal_strlit("rpc_endpoints");
    reveal_strlit("true");
    reveal_strlit("false");
    reveal_strlit("null");
    lemma_escape_plain("labels"@);
    lemma_escape_plain("last_update"@);
    lemma_escape_plain("rpc_endpoints"@);
    assert(seg4 =~= seq![','] + spec_print_string("labels"@) + seq![':']);
    assert(seg5 =~= seq![','] + spec_print_string("last_update"@) + seq![':']);
    assert(seg6 =~= seq![','] + spec_print_string("rpc_endpoints"@) + seq![':']);
    assert(p == seg1 + b1 + seg2 + s2 + seg3 + o3 + seg4 + l4 + seg5 + o5 + seg6 + bk6
        + seq!['}']) by {
        reveal(spec_print_registry);
    }
    lemma_subrange_chars(s, i, p);
    let k1 = i + 1;
    let v1 = i + 11;
    let c1 = v1 + b1.len();
    let k2 = c1 + 1;
    let v2 = c1 + 8;
    let c2 = v2 + s2.len();
    let k3 = c2 + 1;
    let v3 = c2 + 7;
    let c3 = v3 + o3.len();
    let k4 = c3 + 1;
    let v4 = c3 + 10;
    let c4 = v4 + l4.len();
    let k5 = c4 + 1;
    let v5 = c4 + 15;
    let c5 = v5 + o5.len();
    let k6 = c5 + 1;
    let v6 = c5 + 17;
    let cb = v6 + bk6.len();
    assert(seg1.len() == 11 && seg2.len() == 8 && seg3.len() == 7 && seg4.len() == 10
        && seg5.len() == 15 && seg6.len() == 17);
    assert(p.len() == 11 + b1.len() + 8 + s2.len() + 7 + o3.len() + 10 + l4.len() + 15 + o5.len()
        + 17 + bk6.len() + 1);
    assert(s[i] == '{' && s[c1] == ',' && s[c2] == ',' && s[c3] == ',' && s[c4] == ',' && s[c5]
        == ',' && s[cb] == '}') by {
        assert(p[0] == '{');
        assert(p[c1 - i] == ',');
        assert(p[c2 - i] == ',');
        assert(p[c3 - i] == ',');
        assert(p[c4 - i] == ',');
        assert(p[c5 - i] == ',');
        assert(p[cb - i] == '}');
    }
    assert(s[v1 - 1] == ':' && s[v2 - 1] == ':' && s[v3 - 1] == ':' && s[v4 - 1] == ':' && s[v5
        - 1] == ':' && s[v6 - 1] == ':') by {
        assert(p[v1 - 1 - i] == ':');
        assert(p[v2 - 1 - i] == ':');
        assert(p[v3 - 1 - i] == ':');
        assert(p[v4 - 1 - i] == ':');
        assert(p[v5 - 1 - i] == ':');
        assert(p[v6 - 1 - i] == ':');
    }
    let pk1 = spec_print_string("enabled"@);
    let pk2 = spec_print_string("name"@);
    let pk3 = spec_print_string("url"@);
    let pk4 = spec_print_string("labels"@);
    let pk5 = spec_print_string("last_update"@);
    let pk6 = spec_print_string("rpc_endpoints"@);
    assert(pk4.len() == 8 && pk5.len() == 13 && pk6.len() == 15);
    assert forall|k: int| 0 <= k < pk4.len() implies s[k4 + k] == #[trigger] pk4[k] by {
        assert(s[k4 + k] == p[k4 - i + k]);
        assert(p[k4 - i + k] == seg4[1 + k]);
        assert(seg4[1 + k] == (seq![','] + pk4 + seq![':'])[1 + k]);
    }
    assert forall|k: int| 0 <= k < pk5.len() implies s[k5 + k] == #[trigger] pk5[k] by {
        assert(s[k5 + k] == p[k5 - i + k]);
        assert(p[k5 - i + k] == seg5[1 + k]);
        assert(seg5[1 + k] == (seq![','] + pk5 + seq![':'])[1 + k]);
    }
    assert forall|k: int| 0 <= k < pk6.len() implies s[k6 + k] == #[trigger] pk6[k] by {
        assert(s[k6 + k] == p[k6 - i + k]);
        assert(p[k6 - i + k] == seg6[1 + k]);
        assert(seg6[1 + k] == (seq![','] + pk6 + seq![':'])[1 + k]);
    }
    lemma_chars_subrange(s, k4, pk4);
    lemma_chars_subrange(s, k5, pk5);
    lemma_chars_subrange(s, k6, pk6);
    lemma_string_roundtrip(s, k4, "labels"@);
    lemma_string_roundtrip(s, k5, "last_update"@);
    lemma_string_roundtrip(s, k6, "rpc_endpoints"@);
    assert forall|k: int| 0 <= k < l4.len() implies s[v4 + k] == #[trigger] l4[k] by {
        assert(s[v4 + k] == p[v4 - i + k]);
    }
    assert forall|k: int| 0 <= k < o5.len() implies s[v5 + k] == #[trigger] o5[k] by {
        assert(s[v5 + k] == p[v5 - i + k]);
    }
    assert forall|k: int| 0 <= k < bk6.len() implies s[v6 + k] == #[trigger] bk6[k] by {
        assert(s[v6 + k] == p[v6 - i + k]);
    }
    lemma_chars_subrange(s, v4, l4);
    lemma_chars_subrange(s, v5, o5);
    lemma_chars_subrange(s, v6, bk6);
    lemma_string_list_roundtrip(s, v4, r.labels);
    lemma_opt_string_roundtrip(s, v5, r.last_update);
    lemma_buckets_roundtrip(s, v6, r.buckets);
    assert(sp_member_key(s, k4) == Some(("labels"@, v4))) by {
        lemma_ws_noop(s, k4 + pk4.len());
        assert(s[v4] == '[') by {
            assert(p[v4 - i] == l4[0]);
            reveal(spec_print_string_list);
        }
        lemma_ws_noop(s, v4);
    }
    assert(sp_member_end(s, c4) == Some(MemberEnd::More(k5))) by {
        lemma_ws_noop(s, c4);
        assert(s[k5] == '"') by {
            assert(p[k5 - i] == '"');
        }
        lemma_ws_noop(s, k5);
    }
    assert(sp_member_key(s, k5) == Some(("last_update"@, v5))) by {
        lemma_ws_noop(s, k5 + pk5.len());
        assert(s[v5] == 'n' || s[v5] == '"') by {
            assert(p[v5 - i] == o5[0]);
            match r.last_update {
                None => {
                    assert(o5[0] == 'n');
                },
                Some(t) => {
                    assert(o5[0] == '"');
                },
            }
        }
        lemma_ws_noop(s, v5);
    }
    assert(sp_member_end(s, c5) == Some(MemberEnd::More(k6))) by {
        lemma_ws_noop(s, c5);
        assert(s[k6] == '"') by {
            assert(p[k6 - i] == '"');
        }
        lemma_ws_noop(s, k6);
    }
    assert(sp_member_key(s, k6) == Some(("rpc_endpoints"@, v6))) by {
        lemma_ws_noop(s, k6 + pk6.len());
        assert(s[v6] == '{') by {
            assert(p[v6 - i] == bk6[0]);
            reveal(spec_print_buckets);
        }
        lemma_ws_noop(s, v6);
    }
    assert(sp_member_end(s, cb) == Some(MemberEnd::Done(cb + 1))) by {
        lemma_ws_noop(s, cb);
    }
}

/// Reading a printed registry object yields the registry back and stops
/// just after its closing brace.
#[verifier::rlimit(100)]
pub proof fn lemma_registry_roundtrip(s: Seq<char>, i: int, r: RegistryV)
    requires
        reg_storable(r),
        0 <= i,
        i + spec_print_registry(r).len() <= s.len(),
        s.subrange(i, i + spec_print_registry(r).len()) == spec_print_registry(r),
    ensures
        sp_registry(s, i) == Some((r, i + spec_print_registry(r).len())),
{
    let p = spec_print_registry(r);
    let b1 = spec_print_bool(r.enabled);
    let s2 = spec_print_string(r.name);
    let o3 = spec_print_opt_string(r.url);
    let l4 = spec_print_string_list(r.labels);
    let o5 = spec_print_opt_string(r.last_update);
    let bk6 = spec_print_buckets(r.buckets);
    let k1 = i + 1;
    let v1 = i + 11;
    let c1 = v1 + b1.len();
    let k2 = c1 + 1;
    let v2 = c1 + 8;
    let c2 = v2 + s2.len();
    let k3 = c2 + 1;
    let v3 = c2 + 7;
    let c3 = v3 + o3.len();
    let k4 = c3 + 1;
    let v4 = c3 + 10;
    let c4 = v4 + l4.len();
    let k5 = c4 + 1;
    let v5 = c4 + 15;
    let c5 = v5 + o5.len();
    let k6 = c5 + 1;
    let v6 = c5 + 17;
    let cb = v6 + bk6.len();
    lemma_registry_layout_head(s, i, r);
    lemma_registry_layout_tail(s, i, r);
    lemma_registry_fields_walk(
        s,
        r,
        k1,
        v1,
        c1,
        k2,
        v2,
        c2,
        k3,
        v3,
        c3,
        k4,
        v4,
        c4,
        k5,
        v5,
        c5,
        k6,
        v6,
        cb,
    );
    assert(sp_registry(s, i) == Some((r, cb + 1)));
    assert(cb + 1 == i + p.len());
}

/// Every registry of the map is storable.
pub open spec fn regs_storable(v: Seq<RegistryV>) -> bool {
    forall|k: int| 0 <= k < v.len() ==> reg_storable(#[trigger] v[k])
}

/// The printed members of the registries map decompose from the front.
#[verifier::rlimit(100)]
pub proof fn lemma_registry_items_first(v: Seq<RegistryV>)
    requires
        v.len() >= 2,
    ensures
        spec_print_registry_items(v) == spec_print_string(v[0].name) + seq![':']
            + spec_print_registry(v[0]) + seq![','] + spec_print_registry_items(v.drop_first()),
    decreases v.len(),
{
    if v.len() == 2 {
        let u = v.drop_last();
        assert(u.len() == 1);
        assert(v.drop_first().len() == 1);
        assert(v.drop_first()[0] == v.last());
        assert(u[0] == v[0]);
        assert(spec_print_registry_items(u) == spec_print_string(u[0].name) + seq![':']
            + spec_print_registry(u[0]));
        assert(spec_print_registry_items(v.drop_first()) == spec_print_string(
            v.drop_first()[0].name,
        ) + seq![':'] + spec_print_registry(v.drop_first()[0]));
        assert(spec_print_registry_items(v) =~= spec_print_string(v[0].name) + seq![':']
            + spec_print_registry(v[0]) + seq![','] + spec_print_registry_items(v.drop_first()));
    } else {
        let u = v.drop_last();
        lemma_registry_items_first(u);
        assert(v.drop_first().drop_last() =~= u.drop_first());
        assert(v.drop_first().last() == v.last());
        assert(v.drop_first().len() >= 2);
        assert(spec_print_registry_items(v.drop_first()) == spec_print_registry_items(
            v.drop_first().drop_last(),
        ) + seq![','] + spec_print_string(v.drop_first().last().name) + seq![':']
            + spec_print_registry(v.drop_first().last()));
        assert(u[0] == v[0]);
        assert(spec_print_registry_items(v) =~= spec_print_string(v[0].name) + seq![':']
            + spec_print_registry(v[0]) + seq![','] + spec_print_registry_items(v.drop_first()));
    }
}

/// A printed registry object begins with its opening brace.
pub proof fn lemma_print_registry_shape(r: RegistryV)
    ensures
        spec_print_registry(r).len() > 0,
        spec_print_registry(r)[0] == '{',
{
    reveal(spec_print_registry);
    reveal_strlit("{\"enabled\":");
    assert(spec_print_registry(r)[0] == "{\"enabled\":"@[0]);
}

/// Reading printed registries-map members from the first one yields
/// them all, appended to what was gathered, and stops after the brace.
#[verifier::rlimit(100)]
pub proof fn lemma_registry_map_items_parse(s: Seq<char>, i: int, v: Seq<RegistryV>, acc: Seq<RegistryV>)
    requires
        v.len() >= 1,
        regs_storable(v),
        forall|x: int, y: int| 0 <= x < y < v.len() ==> v[x].name != v[y].name,
        forall|x: int, y: int| 0 <= x < acc.len() && 0 <= y < v.len() ==> acc[x].name != v[y].name,
        0 <= i,
        i + spec_print_registry_items(v).len() + 1 <= s.len(),
        s.subrange(i, i + spec_print_registry_items(v).len()) == spec_print_registry_items(v),
        s[i + spec_print_registry_items(v).len()] == '}',
    ensures
        sp_registry_map_items(s, i, acc) == Some(
            (acc + v, i + spec_print_registry_items(v).len() + 1),
        ),
    decreases v.len(),
{
    let items = spec_print_registry_items(v);
    let pk = spec_print_string(v[0].name);
    let pr = spec_print_registry(v[0]);
    lemma_subrange_chars(s, i, items);
    assert(reg_storable(v[0]));
    assert(json_safe(v[0].name));
    if v.len() == 1 {
        assert(items == pk + seq![':'] + pr);
        assert forall|k: int| 0 <= k < pk.len() implies s[i + k] == #[trigger] pk[k] by {
            assert(s[i + k] == items[k]);
        }
        lemma_chars_subrange(s, i, pk);
        lemma_string_roundtrip(s, i, v[0].name);
        let j = i + pk.len();
        assert(s[j] == ':') by {
            assert(items[j - i] == ':');
        }
        lemma_ws_noop(s, j);
        let m = j + 1;
        assert forall|k: int| 0 <= k < pr.len() implies s[m + k] == #[trigger] pr[k] by {
            assert(s[m + k] == items[m - i + k]);
        }
        lemma_chars_subrange(s, m, pr);
        lemma_print_registry_shape(v[0]);
        lemma_ws_noop(s, m);
        lemma_registry_roundtrip(s, m, v[0]);
        let e = m + pr.len();
        assert(e == i + items.len());
        assert(s[e] == '}');
        lemma_ws_noop(s, e);
        assert(!regs_have(acc, v[0].name)) by {
            if regs_have(acc, v[0].name) {
                let x = choose|x: int| 0 <= x < acc.len() && (#[trigger] acc[x]).name
                    == v[0].name;
                assert(acc[x].name != v[0].name);
            }
        }
        assert(sp_member_key(s, i) == Some((v[0].name, m)));
        assert(sp_registry_map_items(s, i, acc) == Some((acc.push(v[0]), e + 1)));
        assert(acc.push(v[0]) =~= acc + v);
    } else {
        lemma_registry_items_first(v);
        let rest = v.drop_first();
        assert(regs_storable(rest)) by {
            assert forall|k: int| 0 <= k < rest.len() implies reg_storable(#[trigger] rest[k]) by {
                assert(rest[k] == v[k + 1]);
            }
        }
        assert(items == pk + seq![':'] + pr + seq![','] + spec_print_registry_items(rest));
        assert forall|k: int| 0 <= k < pk.len() implies s[i + k] == #[trigger] pk[k] by {
            assert(s[i + k] == items[k]);
        }
        lemma_chars_subrange(s, i, pk);
        lemma_string_roundtrip(s, i, v[0].name);
        let j = i + pk.len();
        assert(s[j] == ':') by {
            assert(items[j - i] == ':');
        }
        lemma_ws_noop(s, j);
        let m = j + 1;
        assert forall|k: int| 0 <= k < pr.len() implies s[m + k] == #[trigger] pr[k] by {
            assert(s[m + k] == items[m - i + k]);
        }
        lemma_chars_subrange(s, m, pr);
        lemma_print_registry_shape(v[0]);
        lemma_ws_noop(s, m);
        lemma_registry_roundtrip(s, m, v[0]);
        let c = m + pr.len();
        assert(s[c] == ',') by {
            assert(items[c - i] == ',');
        }
        lemma_ws_noop(s, c);
        let m2 = c + 1;
        let resti = spec_print_registry_items(rest);
        assert forall|k: int| 0 <= k < resti.len() implies s[m2 + k] == #[trigger] resti[k] by {
            assert(s[m2 + k] == items[m2 - i + k]);
        }
        lemma_chars_subrange(s, m2, resti);
        assert(s[m2 + resti.len()] == '}') by {
            assert(m2 + resti.len() == i + items.len());
        }
        assert(s[m2] == '"') by {
            assert(resti[0] == spec_print_string(rest[0].name)[0]) by {
                if rest.len() >= 2 {
                    lemma_registry_items_first(rest);
                } else {
                    assert(resti == spec_print_string(rest[0].name) + seq![':']
                        + spec_print_registry(rest[0]));
                }
            }
            assert(spec_print_string(rest[0].name)[0] == '"');
        }
        lemma_ws_noop(s, m2);
        let acc2 = acc.push(v[0]);
        assert(forall|x: int, y: int|
            0 <= x < y < rest.len() ==> rest[x].name != rest[y].name) by {
            assert forall|x: int, y: int|
                0 <= x < y < rest.len() implies rest[x].name != rest[y].name by {
                assert(rest[x] == v[x + 1] && rest[y] == v[y + 1]);
            }
        }
        assert(forall|x: int, y: int|
            0 <= x < acc2.len() && 0 <= y < rest.len() ==> acc2[x].name != rest[y].name) by {
            assert forall|x: int, y: int|
                0 <= x < acc2.len() && 0 <= y < rest.len() implies acc2[x].name
                != rest[y].name by {
                assert(rest[y] == v[y + 1]);
                if x < acc.len() {
                    assert(acc2[x] == acc[x]);
                } else {
                    assert(acc2[x] == v[0]);
                }
            }
        }
        lemma_registry_map_items_parse(s, m2, rest, acc2);
        assert(!regs_have(acc, v[0].name)) by {
            if regs_have(acc, v[0].name) {
                let x = choose|x: int| 0 <= x < acc.len() && (#[trigger] acc[x]).name
                    == v[0].name;
                assert(acc[x].name != v[0].name);
            }
        }
        assert(sp_member_key(s, i) == Some((v[0].name, m)));
        assert(acc.push(v[0]) + rest =~= acc + v);
        assert(m2 + resti.len() + 1 == i + items.len() + 1);
    }
}

/// Reading a printed registries map yields the registries back, in
/// order, and stops just after the closing brace.
pub proof fn lemma_registries_roundtrip(s: Seq<char>, i: int, v: Seq<RegistryV>)
    requires
        regs_storable(v),
        forall|x: int, y: int| 0 <= x < y < v.len() ==> v[x].name != v[y].name,
        0 <= i,
        i + spec_print_registries(v).len() <= s.len(),
        s.subrange(i, i + spec_print_registries(v).len()) == spec_print_registries(v),
    ensures
        sp_registries(s, i) == Some((v, i + spec_print_registries(v).len())),
{
    reveal(spec_print_registries);
    let p = spec_print_registries(v);
    let items = spec_print_registry_items(v);
    lemma_subrange_chars(s, i, p);
    assert(s[i] == '{') by {
        assert(p[0] == '{');
    }
    if v.len() == 0 {
        assert(items =~= Seq::<char>::empty());
        assert(s[i + 1] == '}') by {
            assert(p[1] == '}');
        }
        lemma_ws_noop(s, i + 1);
        assert(v =~= Seq::<RegistryV>::empty());
    } else {
        assert forall|k: int| 0 <= k < items.len() implies s[i + 1 + k] == #[trigger] items[k] by {
            assert(s[i + 1 + k] == p[1 + k]);
        }
        lemma_chars_subrange(s, i + 1, items);
        assert(s[i + 1 + items.len()] == '}') by {
            assert(p[p.len() - 1] == '}');
        }
        assert(s[i + 1] == '"') by {
            assert(items[0] == spec_print_string(v[0].name)[0]) by {
                if v.len() >= 2 {
                    lemma_registry_items_first(v);
                } else {
                    assert(items == spec_print_string(v[0].name) + seq![':']
                        + spec_print_registry(v[0]));
                }
            }
            assert(spec_print_string(v[0].name)[0] == '"');
        }
        lemma_ws_noop(s, i + 1);
        lemma_registry_map_items_parse(s, i + 1, v, Seq::empty());
        assert(Seq::<RegistryV>::empty() + v =~= v);
    }
}

/// A store the document can carry and yield back: safe texts, storable
/// registries, every registry keyed by its own distinct name.
pub open spec fn data_storable(d: LocalDataV) -> bool {
    &&& json_safe(d.file)
    &&& opt_safe(d.last_update)
    &&& regs_storable(d.registries)
    &&& forall|x: int, y: int|
        0 <= x < y < d.registries.len() ==> d.registries[x].name != d.registries[y].name
}

/// Walking the three members of a printed store object.
#[verifier::rlimit(100)]
pub proof fn lemma_data_fields_walk(
    s: Seq<char>,
    d: LocalDataV,
    k1: int,
    v1: int,
    c1: int,
    k2: int,
    v2: int,
    c2: int,
    k3: int,
    v3: int,
    cb: int,
)
    requires
        0 <= k1 < v1 <= c1 < k2 < v2 <= c2 < k3 < v3 <= cb < s.len(),
        sp_member_key(s, k1) == Some(("file"@, v1)),
        sp_string(s, v1) == Some((d.file, c1)),
        sp_member_end(s, c1) == Some(MemberEnd::More(k2)),
        sp_member_key(s, k2) == Some(("registries"@, v2)),
        sp_registries(s, v2) == Some((d.registries, c2)),
        sp_member_end(s, c2) == Some(MemberEnd::More(k3)),
        sp_member_key(s, k3) == Some(("last_update"@, v3)),
        sp_opt_string(s, v3) == Some((d.last_update, cb)),
        sp_member_end(s, cb) == Some(MemberEnd::Done(cb + 1)),
    ensures
        sp_data_fields(s, k1, data_acc0()) == Some((d, cb + 1)),
{
    reveal_strlit("file");
    reveal_strlit("registries");
    reveal_strlit("last_update");
    assert("file"@.len() == 4 && "registries"@.len() == 10 && "last_update"@.len() == 11);
    let a0 = data_acc0();
    let a1 = DataAcc { file: Some(d.file), ..a0 };
    let a2 = DataAcc { registries: Some(d.registries), ..a1 };
    let a3 = DataAcc { last_update: d.last_update, seen_last_update: true, ..a2 };
    assert(data_acc_finish(a3) == Some(d)) by {
        let built = LocalDataV {
            file: d.file,
            registries: d.registries,
            last_update: a3.last_update,
        };
        assert(built == d);
    }
    assert(sp_data_fields(s, k3, a2) == Some((d, cb + 1)));
    assert(sp_data_fields(s, k2, a1) == Some((d, cb + 1)));
    assert(sp_data_fields(s, k1, a0) == Some((d, cb + 1)));
}

/// Reading a printed store object yields the store back and stops just
/// after its closing brace.
#[verifier::rlimit(100)]
pub proof fn lemma_local_data_obj_roundtrip(s: Seq<char>, i: int, d: LocalDataV)
    requires
        data_storable(d),
        0 <= i,
        i + spec_print_local_data(d).len() <= s.len(),
        s.subrange(i, i + spec_print_local_data(d).len()) == spec_print_local_data(d),
    ensures
        sp_local_data(s, i) == Some((d, i + spec_print_local_data(d).len())),
{
    reveal(spec_print_local_data);
    let p = spec_print_local_data(d);
    let seg1 = "{\"file\":"@;
    let seg2 = ",\"registries\":"@;
    let seg3 = ",\"last_update\":"@;
    let s1 = spec_print_string(d.file);
    let r2 = spec_print_registries(d.registries);
    let o3 = spec_print_opt_string(d.last_update);
    reveal_strlit("{\"file\":");
    reveal_strlit(",\"registries\":");
    reveal_strlit(",\"last_update\":");
    reveal_strlit("file");
    reveal_strlit("registries");
    reveal_strlit("last_update");
    reveal_strlit("null");
    lemma_escape_plain("file"@);
    lemma_escape_plain("registries"@);
    lemma_escape_plain("last_update"@);
    assert(seg1 =~= seq!['{'] + spec_print_string("file"@) + seq![':']);
    assert(seg2 =~= seq![','] + spec_print_string("registries"@) + seq![':']);
    assert(seg3 =~= seq![','] + spec_print_string("last_update"@) + seq![':']);
    assert(p == seg1 + s1 + seg2 + r2 + seg3 + o3 + seq!['}']);
    lemma_subrange_chars(s, i, p);
    let k1 = i + 1;
    let v1 = i + 8;
    let c1 = v1 + s1.len();
    let k2 = c1 + 1;
    let v2 = c1 + 14;
    let c2 = v2 + r2.len();
    let k3 = c2 + 1;
    let v3 = c2 + 15;
    let cb = v3 + o3.len();
    assert(seg1.len() == 8 && seg2.len() == 14 && seg3.len() == 15);
    assert(p.len() == 8 + s1.len() + 14 + r2.len() + 15 + o3.len() + 1);
    assert(s[i] == '{' && s[c1] == ',' && s[c2] == ',' && s[cb] == '}') by {
        assert(p[0] == '{');
        assert(p[c1 - i] == ',');
        assert(p[c2 - i] == ',');
        assert(p[cb - i] == '}');
    }
    assert(s[v1 - 1] == ':' && s[v2 - 1] == ':' && s[v3 - 1] == ':') by {
        assert(p[v1 - 1 - i] == ':');
        assert(p[v2 - 1 - i] == ':');
        assert(p[v3 - 1 - i] == ':');
    }
    let pk1 = spec_print_string("file"@);
    let pk2 = spec_print_string("registries"@);
    let pk3 = spec_print_string("last_update"@);
    assert(pk1.len() == 6 && pk2.len() == 12 && pk3.len() == 13);
    assert forall|k: int| 0 <= k < pk1.len() implies s[k1 + k] == #[trigger] pk1[k] by {
        assert(s[k1 + k] == p[k1 - i + k]);
        assert(p[k1 - i + k] == seg1[1 + k]);
        assert(seg1[1 + k] == (seq!['{'] + pk1 + seq![':'])[1 + k]);
    }
    assert forall|k: int| 0 <= k < pk2.len() implies s[k2 + k] == #[trigger] pk2[k] by {
        assert(s[k2 + k] == p[k2 - i + k]);
        assert(p[k2 - i + k] == seg2[1 + k]);
        assert(seg2[1 + k] == (seq![','] + pk2 + seq![':'])[1 + k]);
    }
    assert forall|k: int| 0 <= k < pk3.len() implies s[k3 + k] == #[trigger] pk3[k] by {
        assert(s[k3 + k] == p[k3 - i + k]);
        assert(p[k3 - i + k] == seg3[1 + k]);
        assert(seg3[1 + k] == (seq![','] + pk3 + seq![':'])[1 + k]);
    }
    lemma_chars_subrange(s, k1, pk1);
    lemma_chars_subrange(s, k2, pk2);
    lemma_chars_subrange(s, k3, pk3);
    lemma_string_roundtrip(s, k1, "file"@);
    lemma_string_roundtrip(s, k2, "registries"@);
    lemma_string_roundtrip(s, k3, "last_update"@);
    assert forall|k: int| 0 <= k < s1.len() implies s[v1 + k] == #[trigger] s1[k] by {
        assert(s[v1 + k] == p[v1 - i + k]);
    }
    assert forall|k: int| 0 <= k < r2.len() implies s[v2 + k] == #[trigger] r2[k] by {
        assert(s[v2 + k] == p[v2 - i + k]);
    }
    assert forall|k: int| 0 <= k < o3.len() implies s[v3 + k] == #[trigger] o3[k] by {
        assert(s[v3 + k] == p[v3 - i + k]);
    }
    lemma_chars_subrange(s, v1, s1);
    lemma_chars_subrange(s, v2, r2);
    lemma_chars_subrange(s, v3, o3);
    lemma_string_roundtrip(s, v1, d.file);
    lemma_registries_roundtrip(s, v2, d.registries);
    lemma_opt_string_roundtrip(s, v3, d.last_update);
    assert(sp_ws(s, i + 1) == i + 1) by {
        assert(s[i + 1] == '"') by {
            assert(p[1] == '"');
        }
        lemma_ws_noop(s, i + 1);
    }
    assert(sp_member_key(s, k1) == Some(("file"@, v1))) by {
        lemma_ws_noop(s, k1 + pk1.len());
        assert(s[v1] == '"') by {
            assert(p[v1 - i] == s1[0]);
        }
        lemma_ws_noop(s, v1);
    }
    assert(sp_member_end(s, c1) == Some(MemberEnd::More(k2))) by {
        lemma_ws_noop(s, c1);
        lemma_ws_noop(s, k2);
        assert(s[k2] == '"') by {
            assert(p[k2 - i] == '"');
        }
    }
    assert(sp_member_key(s, k2) == Some(("registries"@, v2))) by {
        lemma_ws_noop(s, k2 + pk2.len());
        assert(s[v2] == '{') by {
            assert(p[v2 - i] == r2[0]);
            reveal(spec_print_registries);
        }
        lemma_ws_noop(s, v2);
    }
    assert(sp_member_end(s, c2) == Some(MemberEnd::More(k3))) by {
        lemma_ws_noop(s, c2);
        lemma_ws_noop(s, k3);
        assert(s[k3] == '"') by {
            assert(p[k3 - i] == '"');
        }
    }
    assert(sp_member_key(s, k3) == Some(("last_update"@, v3))) by {
        lemma_ws_noop(s, k3 + pk3.len());
        assert(s[v3] == 'n' || s[v3] == '"') by {
            assert(p[v3 - i] == o3[0]);
            match d.last_update {
                None => {
                    assert(o3[0] == 'n');
                },
                Some(t) => {
                    assert(o3[0] == '"');
                },
            }
        }
        lemma_ws_noop(s, v3);
    }
    assert(sp_member_end(s, cb) == Some(MemberEnd::Done(cb + 1))) by {
        lemma_ws_noop(s, cb);
    }
    lemma_data_fields_walk(s, d, k1, v1, c1, k2, v2, c2, k3, v3, cb);
    assert(sp_local_data(s, i) == Some((d, cb + 1)));
    assert(cb + 1 == i + p.len());
}

/// The round trip of the whole store: parsing back a printed store
/// document yields the very store that was printed, field for field.
/// The store must be storable: safe texts, recognized url schemes,
/// latencies within the decimal form's reach, registries keyed by their
/// own distinct names, and distinct chain names within each registry.
pub proof fn lemma_local_data_document_roundtrip(d: LocalDataV)
    requires
        data_storable(d),
    ensures
        sp_local_data_doc(spec_print_local_data(d)) == Some(d),
{
    let s = spec_print_local_data(d);
    assert(s.subrange(0, s.len() as int) =~= s);
    assert(s[0] == '{') by {
        reveal(spec_print_local_data);
        reveal_strlit("{\"file\":");
        assert(s[0] == "{\"file\":"@[0]);
    }
    assert(s.len() > 0) by {
        reveal(spec_print_local_data);
        reveal_strlit("{\"file\":");
    }
    lemma_ws_noop(s, 0);
    lemma_local_data_obj_roundtrip(s, 0, d);
    assert(sp_ws(s, s.len() as int) == s.len());
}

} // verus!
