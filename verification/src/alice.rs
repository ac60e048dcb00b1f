use vstd::prelude::*;
use vstd::utf8::char_u32_cast;

use crate::aspath::{
    insert_path, lemma_lex_irreflexive, lemma_lex_total, lemma_lex_transitive, lex_less, lex_lt,
    path_views, strictly_sorted,
};
use crate::config::{opt_chars, LookingGlassConfig};
use crate::report::QueryResult;
use crate::text::{
    chars_of, lowercase, str_eq, string_from_chars, to_lowercase, trim,
    trim_chars,
};

verus! {

/// The BGP attributes of a route in an Alice-LG answer.
#[derive(Clone, Debug)]
pub struct AliceBgp {
    pub as_path: Option<Vec<u32>>,
}

/// The route server that holds a route in an Alice-LG answer.
#[derive(Clone, Debug)]
pub struct AliceRouteServer {
    pub name: Option<String>,
}

/// One route of an Alice-LG prefix lookup.
#[derive(Clone, Debug)]
pub struct AliceRoute {
    pub bgp: Option<AliceBgp>,
    pub routeserver: Option<AliceRouteServer>,
}

/// The imported routes of an Alice-LG prefix lookup.
#[derive(Clone, Debug)]
pub struct AliceImported {
    pub routes: Option<Vec<AliceRoute>>,
}

/// The answer of the Alice-LG endpoint `/api/v1/lookup/prefix`.
#[derive(Clone, Debug)]
pub struct AliceLookupResponse {
    pub imported: Option<AliceImported>,
}

/// The largest response body accepted from an Alice-LG API (50 MB).
pub const MAX_HTTP_RESPONSE_BYTES: usize = 52428800;

/// A response body is parsed only when it is within the size limit.
pub fn response_size_ok(len: usize) -> (ok: bool)
    ensures
        ok == (len <= MAX_HTTP_RESPONSE_BYTES),
{
    len <= MAX_HTTP_RESPONSE_BYTES
}

/// The routes of a lookup answer; a missing `imported` or `routes` means none.
pub open spec fn response_routes(resp: AliceLookupResponse) -> Seq<AliceRoute> {
    match resp.imported {
        Some(imp) => match imp.routes {
            Some(r) => r@,
            None => Seq::<AliceRoute>::empty(),
        },
        None => Seq::<AliceRoute>::empty(),
    }
}

/// Takes the routes out of a lookup answer.
pub fn into_routes(resp: AliceLookupResponse) -> (routes: Vec<AliceRoute>)
    ensures
        routes@ == response_routes(resp),
{
    match resp.imported {
        Some(imp) => match imp.routes {
            Some(r) => r,
            None => Vec::new(),
        },
        None => Vec::new(),
    }
}

/// The prefix lookup URL of an Alice-LG host, over HTTPS or plain HTTP.
pub open spec fn lookup_url_text(secure: bool, host: Seq<char>, prefix: Seq<char>) -> Seq<char> {
    (if secure {
        "https://"@
    } else {
        "http://"@
    }) + host + "/api/v1/lookup/prefix?q="@ + prefix
}

/// Builds the prefix lookup URL; HTTPS is tried first and plain HTTP is the fallback.
pub fn lookup_url(secure: bool, host: &str, prefix: &str) -> (url: String)
    ensures
        url@ == lookup_url_text(secure, host@, prefix@),
{
    let mut url = if secure {
        "https://".to_owned()
    } else {
        "http://".to_owned()
    };
    url.append(host);
    url.append("/api/v1/lookup/prefix?q=");
    url.append(prefix);
    url
}

/// The lookup URLs to try, in order: HTTPS first, plain HTTP when HTTPS fails.
pub fn lookup_urls(host: &str, prefix: &str) -> (urls: Vec<String>)
    ensures
        urls.len() == 2,
        urls@[0]@ == lookup_url_text(true, host@, prefix@),
        urls@[1]@ == lookup_url_text(false, host@, prefix@),
{
    let mut urls = Vec::new();
    urls.push(lookup_url(true, host, prefix));
    urls.push(lookup_url(false, host, prefix));
    urls
}

/// A lookup answer is used only with a success status (2xx), as
/// `StatusCode::is_success` tests it; any other status is an error.
pub fn status_is_success(code: u16) -> (ok: bool)
    ensures
        ok == (200 <= code && code <= 299),
{
    200 <= code && code <= 299
}

/// A Looking Glass served by an Alice-LG API rather than by Telnet.
pub open spec fn is_alice(lg: LookingGlassConfig) -> bool {
    opt_chars(lg.template) == Some("alice"@)
}

/// Whether a Looking Glass is served by an Alice-LG API.
pub fn uses_alice_api(lg: &LookingGlassConfig) -> (res: bool)
    ensures
        res == is_alice(*lg),
{
    match &lg.template {
        Some(t) => str_eq(t.as_str(), "alice"),
        None => false,
    }
}

/// The views of a sequence of strings.
pub open spec fn string_views(v: Seq<String>) -> Seq<Seq<char>> {
    v.map_values(|s: String| s@)
}

/// No text occurs twice.
pub open spec fn no_duplicates(s: Seq<Seq<char>>) -> bool {
    forall|i: int, j: int| 0 <= i < j < s.len() ==> s[i] != s[j]
}

/// Whether `host` is one of `hosts`.
pub fn host_listed(hosts: &Vec<String>, host: &str) -> (res: bool)
    ensures
        res == string_views(hosts@).contains(host@),
{
    for i in 0..hosts.len()
        invariant
            forall|j: int| 0 <= j < i ==> hosts@[j]@ != host@,
    {
        if str_eq(hosts[i].as_str(), host) {
            assert(string_views(hosts@)[i as int] == host@);
            return true;
        }
    }
    assert forall|j: int| 0 <= j < string_views(hosts@).len() implies string_views(hosts@)[j]
        != host@ by {
        assert(string_views(hosts@)[j] == hosts@[j]@);
    }
    false
}

/// Adds `s` to a list of distinct texts unless it is already there.
fn add_unique(v: &mut Vec<String>, s: &String)
    requires
        no_duplicates(string_views(old(v)@)),
    ensures
        no_duplicates(string_views(final(v)@)),
        forall|t: Seq<char>|
            string_views(final(v)@).contains(t) <==> (string_views(old(v)@).contains(t) || t == s@),
{
    let ghost before = string_views(v@);
    if host_listed(v, s.as_str()) {
        return;
    }
    v.push(s.clone());
    let ghost after = string_views(v@);
    assert(after == before.push(s@));
    assert forall|t: Seq<char>| after.contains(t) <==> (before.contains(t) || t == s@) by {
        if after.contains(t) {
            let k = choose|k: int| 0 <= k < after.len() && after[k] == t;
            if k < before.len() {
                assert(before[k] == t);
            }
        }
        if before.contains(t) {
            let k = choose|k: int| 0 <= k < before.len() && before[k] == t;
            assert(after[k] == t);
        }
        if t == s@ {
            assert(after[before.len() as int] == t);
        }
    }
}

/// The code points of a text. Ordering texts by their code points is ordering them
/// by their UTF-8 bytes, which is how `String` orders.
pub open spec fn code_points(s: Seq<char>) -> Seq<u32> {
    s.map_values(|c: char| c as u32)
}

/// The code point sequences of a list of strings.
pub open spec fn host_keys(v: Seq<String>) -> Seq<Seq<u32>> {
    v.map_values(|s: String| code_points(s@))
}

fn code_points_of(s: &str) -> (res: Vec<u32>)
    ensures
        res@ == code_points(s@),
{
    let chars = chars_of(s);
    let mut res: Vec<u32> = Vec::new();
    for i in 0..chars.len()
        invariant
            chars@ == s@,
            res@ == code_points(chars@.take(i as int)),
    {
        res.push(chars[i] as u32);
        assert(code_points(chars@.take(i + 1)) == code_points(chars@.take(i as int)).push(
            chars@[i as int] as u32,
        ));
    }
    assert(chars@.take(chars.len() as int) == chars@);
    res
}

proof fn lemma_code_points_injective(a: Seq<char>, b: Seq<char>)
    requires
        code_points(a) == code_points(b),
    ensures
        a == b,
{
    assert(a.len() == code_points(a).len());
    assert forall|i: int| 0 <= i < a.len() implies a[i] == b[i] by {
        assert(code_points(a)[i] == code_points(b)[i]);
        let u = a[i] as u32;
        assert(code_points(a)[i] == u);
        assert(code_points(b)[i] == b[i] as u32);
        char_u32_cast(a[i], u);
        char_u32_cast(b[i], u);
    }
    assert(a =~= b);
}

/// Strictly sorted hosts hold no host twice.
proof fn lemma_sorted_hosts_distinct(v: Seq<String>)
    requires
        strictly_sorted(host_keys(v)),
    ensures
        no_duplicates(string_views(v)),
{
    assert forall|i: int, j: int| 0 <= i < j < string_views(v).len() implies string_views(v)[i]
        != string_views(v)[j] by {
        assert(lex_lt(host_keys(v)[i], host_keys(v)[j]));
        if string_views(v)[i] == string_views(v)[j] {
            lemma_lex_irreflexive(host_keys(v)[i]);
        }
    }
}

/// Adds a host to a list sorted by code points unless it is already there.
fn insert_host(v: &mut Vec<String>, h: &String)
    requires
        strictly_sorted(host_keys(old(v)@)),
    ensures
        strictly_sorted(host_keys(final(v)@)),
        forall|t: Seq<char>|
            string_views(final(v)@).contains(t) <==> (string_views(old(v)@).contains(t) || t == h@),
{
    let ghost old_keys = host_keys(v@);
    let ghost old_views = string_views(v@);
    let hk = code_points_of(h.as_str());
    let n = v.len();
    let mut j: usize = 0;
    while j < n && lex_less(&code_points_of(v[j].as_str()), &hk)
        invariant
            n == v.len(),
            j <= n,
            old_keys == host_keys(v@),
            old_views == string_views(v@),
            hk@ == code_points(h@),
            strictly_sorted(old_keys),
            forall|k: int| 0 <= k < j ==> lex_lt(#[trigger] old_keys[k], hk@),
        decreases n - j,
    {
        j = j + 1;
    }
    if j < n {
        let kj = code_points_of(v[j].as_str());
        assert(old_keys[j as int] == kj@);
        if !lex_less(&hk, &kj) {
            proof {
                if kj@ != hk@ {
                    lemma_lex_total(kj@, hk@);
                }
                lemma_code_points_injective(v@[j as int]@, h@);
            }
            assert forall|t: Seq<char>|
                string_views(v@).contains(t) <==> (old_views.contains(t) || t == h@) by {
                if t == h@ {
                    assert(old_views[j as int] == t);
                }
            }
            return;
        }
    }
    let ghost hv = h@;
    v.insert(j, h.clone());
    let ghost nk = host_keys(v@);
    let ghost nv = string_views(v@);
    assert(nk == old_keys.insert(j as int, hk@));
    assert(nv == old_views.insert(j as int, hv));
    assert forall|a: int, b: int| 0 <= a < b < nk.len() implies lex_lt(
        #[trigger] nk[a],
        #[trigger] nk[b],
    ) by {
        if b < j {
            assert(nk[a] == old_keys[a] && nk[b] == old_keys[b]);
        } else if b == j {
            assert(nk[a] == old_keys[a]);
        } else if a == j {
            assert(nk[b] == old_keys[b - 1]);
            if b - 1 > j {
                lemma_lex_transitive(hk@, old_keys[j as int], old_keys[b - 1]);
            }
        } else if a < j {
            assert(nk[a] == old_keys[a] && nk[b] == old_keys[b - 1]);
        } else {
            assert(nk[a] == old_keys[a - 1] && nk[b] == old_keys[b - 1]);
        }
    }
    assert forall|t: Seq<char>| nv.contains(t) <==> (old_views.contains(t) || t == hv) by {
        if nv.contains(t) {
            let k = choose|k: int| 0 <= k < nv.len() && nv[k] == t;
            if k < j {
                assert(old_views[k] == t);
            } else if k > j {
                assert(old_views[k - 1] == t);
            }
        }
        if old_views.contains(t) {
            let k = choose|k: int| 0 <= k < old_views.len() && old_views[k] == t;
            if k < j {
                assert(nv[k] == t);
            } else {
                assert(nv[k + 1] == t);
            }
        }
        if t == hv {
            assert(nv[j as int] == t);
        }
    }
}

/// The Alice-LG hosts to query, each once and in order (one lookup per host prevents
/// rate limiting on centralized endpoints).
pub fn alice_hosts(lgs: &Vec<LookingGlassConfig>) -> (hosts: Vec<String>)
    ensures
        strictly_sorted(host_keys(hosts@)),
        no_duplicates(string_views(hosts@)),
        forall|h: Seq<char>|
            string_views(hosts@).contains(h) <==> exists|k: int|
                0 <= k < lgs.len() && is_alice(#[trigger] lgs@[k]) && lgs@[k].host@ == h,
{
    let mut hosts: Vec<String> = Vec::new();
    for k in 0..lgs.len()
        invariant
            strictly_sorted(host_keys(hosts@)),
            forall|h: Seq<char>|
                string_views(hosts@).contains(h) <==> exists|i: int|
                    0 <= i < k && is_alice(#[trigger] lgs@[i]) && lgs@[i].host@ == h,
    {
        let ghost before = string_views(hosts@);
        if uses_alice_api(&lgs[k]) {
            insert_host(&mut hosts, &lgs[k].host);
        }
        assert forall|h: Seq<char>|
            string_views(hosts@).contains(h) <==> exists|i: int|
                0 <= i < k + 1 && is_alice(#[trigger] lgs@[i]) && lgs@[i].host@ == h by {
            if exists|i: int| 0 <= i < k + 1 && is_alice(#[trigger] lgs@[i]) && lgs@[i].host@ == h {
                let i = choose|i: int| 0 <= i < k + 1 && is_alice(#[trigger] lgs@[i]) && lgs@[i].host@ == h;
                if i < k {
                    assert(before.contains(h));
                }
            }
        }
    }
    proof {
        lemma_sorted_hosts_distinct(hosts@);
    }
    hosts
}

/// The hosts that serve more than one configured Alice-LG Looking Glass;
/// their answers must be split by route server name.
pub fn multi_lg_hosts(lgs: &Vec<LookingGlassConfig>) -> (hosts: Vec<String>)
    ensures
        no_duplicates(string_views(hosts@)),
        forall|h: Seq<char>|
            string_views(hosts@).contains(h) <==> exists|i: int, j: int|
                0 <= i < j < lgs.len() && is_alice(#[trigger] lgs@[i]) && is_alice(#[trigger] lgs@[j])
                    && lgs@[i].host@ == h && lgs@[j].host@ == h,
{
    let mut hosts: Vec<String> = Vec::new();
    let n = lgs.len();
    for i in 0..n
        invariant
            n == lgs.len(),
            no_duplicates(string_views(hosts@)),
            forall|h: Seq<char>|
                string_views(hosts@).contains(h) <==> exists|a: int, b: int|
                    0 <= a < i && a < b < n && is_alice(#[trigger] lgs@[a]) && is_alice(#[trigger] lgs@[b])
                        && lgs@[a].host@ == h && lgs@[b].host@ == h,
    {
        let ghost before = string_views(hosts@);
        let mut shared = false;
        if uses_alice_api(&lgs[i]) {
            for j in i + 1..n
                invariant
                    n == lgs.len(),
                    i < n,
                    is_alice(lgs@[i as int]),
                    shared <==> exists|b: int|
                        i < b < j && is_alice(#[trigger] lgs@[b]) && lgs@[b].host@ == lgs@[i as int].host@,
            {
                if uses_alice_api(&lgs[j]) && str_eq(lgs[j].host.as_str(), lgs[i].host.as_str()) {
                    shared = true;
                }
            }
        }
        if shared {
            add_unique(&mut hosts, &lgs[i].host);
        }
        assert forall|h: Seq<char>|
            string_views(hosts@).contains(h) <==> exists|a: int, b: int|
                0 <= a < i + 1 && a < b < n && is_alice(#[trigger] lgs@[a]) && is_alice(#[trigger] lgs@[b])
                    && lgs@[a].host@ == h && lgs@[b].host@ == h by {
            if exists|a: int, b: int|
                0 <= a < i + 1 && a < b < n && is_alice(#[trigger] lgs@[a]) && is_alice(#[trigger] lgs@[b])
                    && lgs@[a].host@ == h && lgs@[b].host@ == h {
                let (a, b) = choose|a: int, b: int|
                    0 <= a < i + 1 && a < b < n && is_alice(#[trigger] lgs@[a]) && is_alice(
                        #[trigger] lgs@[b],
                    ) && lgs@[a].host@ == h && lgs@[b].host@ == h;
                if a < i {
                    assert(before.contains(h));
                } else {
                    assert(shared);
                }
            }
            if string_views(hosts@).contains(h) && !before.contains(h) {
                let b = choose|b: int|
                    i < b < n && is_alice(#[trigger] lgs@[b]) && lgs@[b].host@ == lgs@[i as int].host@;
                assert(is_alice(lgs@[i as int]) && is_alice(lgs@[b]));
            }
        }
    }
    hosts
}

/// Route server names are compared without surrounding whitespace and case.
pub open spec fn name_key(s: Seq<char>) -> Seq<char> {
    lowercase(trim(s))
}

/// The comparison key of a name.
fn name_key_of(s: &str) -> (key: String)
    ensures
        key@ == name_key(s@),
{
    let chars = chars_of(s);
    let trimmed = string_from_chars(&trim_chars(&chars));
    to_lowercase(trimmed.as_str())
}

/// Whether a route belongs to the Looking Glass: always on a host that serves a single
/// Looking Glass; otherwise when the route server name matches, or conservatively
/// when the route names no route server.
pub open spec fn route_accepted(route: AliceRoute, lg_name: Seq<char>, needs_filter: bool) -> bool {
    !needs_filter || match route.routeserver {
        Some(rs) => match rs.name {
            Some(n) => name_key(lg_name) == name_key(n@),
            None => true,
        },
        None => true,
    }
}

/// The AS path a route carries, if any.
pub open spec fn route_as_path(route: AliceRoute) -> Option<Seq<u32>> {
    match route.bgp {
        Some(b) => match b.as_path {
            Some(p) => Some(p@),
            None => None,
        },
        None => None,
    }
}

/// `p` is the path of an accepted route and ends with the target ASN.
pub open spec fn selected_path(
    routes: Seq<AliceRoute>,
    lg_name: Seq<char>,
    needs_filter: bool,
    target: u32,
    p: Seq<u32>,
) -> bool {
    exists|k: int|
        0 <= k < routes.len() && route_accepted(#[trigger] routes[k], lg_name, needs_filter)
            && route_as_path(routes[k]) == Some(p) && p.len() > 0 && p.last() == target
}

/// Every accepted route whose AS path is non-empty and ends with the target ASN
/// contributes its path, whatever its length: a route carrying just `[target]` puts
/// `[target]` among the selected paths.
pub proof fn lemma_matching_route_selected(
    routes: Seq<AliceRoute>,
    lg_name: Seq<char>,
    needs_filter: bool,
    target: u32,
    k: int,
    p: Seq<u32>,
)
    requires
        0 <= k < routes.len(),
        route_accepted(routes[k], lg_name, needs_filter),
        route_as_path(routes[k]) == Some(p),
        p.len() > 0,
        p.last() == target,
    ensures
        selected_path(routes, lg_name, needs_filter, target, p),
{
}

/// On a host with a single Looking Glass nothing is filtered out: every route whose
/// AS path ends with the target contributes it.
pub proof fn lemma_unfiltered_routes_selected(
    routes: Seq<AliceRoute>,
    lg_name: Seq<char>,
    target: u32,
    k: int,
    p: Seq<u32>,
)
    requires
        0 <= k < routes.len(),
        route_as_path(routes[k]) == Some(p),
        p.len() > 0,
        p.last() == target,
    ensures
        selected_path(routes, lg_name, false, target, p),
{
    lemma_matching_route_selected(routes, lg_name, false, target, k, p);
}

/// A selected path is the non-empty path of some route and ends with the target ASN.
pub proof fn lemma_selected_path_shape(
    routes: Seq<AliceRoute>,
    lg_name: Seq<char>,
    needs_filter: bool,
    target: u32,
    p: Seq<u32>,
)
    requires
        selected_path(routes, lg_name, needs_filter, target, p),
    ensures
        p.len() > 0,
        p.last() == target,
        exists|k: int| 0 <= k < routes.len() && route_as_path(#[trigger] routes[k]) == Some(p),
{
}

fn accepted(route: &AliceRoute, lg_key: &String, needs_filter: bool, Ghost(lg_name): Ghost<Seq<char>>) -> (res: bool)
    requires
        lg_key@ == name_key(lg_name),
    ensures
        res == route_accepted(*route, lg_name, needs_filter),
{
    if !needs_filter {
        return true;
    }
    match &route.routeserver {
        Some(rs) => match &rs.name {
            Some(n) => {
                let k = name_key_of(n.as_str());
                str_eq(lg_key.as_str(), k.as_str())
            },
            None => true,
        },
        None => true,
    }
}

/// The paths of the accepted routes that end with the target ASN, sorted and
/// without duplicates.
pub fn alice_paths(lg_name: &String, needs_filter: bool, routes: &Vec<AliceRoute>, target: u32) -> (paths: Vec<Vec<u32>>)
    ensures
        strictly_sorted(path_views(paths@)),
        forall|p: Seq<u32>|
            path_views(paths@).contains(p) <==> selected_path(routes@, lg_name@, needs_filter, target, p),
{
    let key = name_key_of(lg_name.as_str());
    let mut paths: Vec<Vec<u32>> = Vec::new();
    for k in 0..routes.len()
        invariant
            key@ == name_key(lg_name@),
            strictly_sorted(path_views(paths@)),
            forall|p: Seq<u32>|
                path_views(paths@).contains(p) <==> selected_path(routes@.take(k as int), lg_name@, needs_filter, target, p),
    {
        let ghost before = path_views(paths@);
        let route = &routes[k];
        if accepted(route, &key, needs_filter, Ghost(lg_name@)) {
            if let Some(bgp) = &route.bgp {
                if let Some(p) = &bgp.as_path {
                    if p.len() > 0 && p[p.len() - 1] == target {
                        let q = p.clone();
                        assert(q@ == p@);
                        insert_path(&mut paths, q);
                    }
                }
            }
        }
        assert forall|p: Seq<u32>|
            path_views(paths@).contains(p) <==> selected_path(routes@.take(k + 1), lg_name@, needs_filter, target, p) by {
            let t0 = routes@.take(k as int);
            let t1 = routes@.take(k + 1);
            assert(t1[k as int] == routes@[k as int]);
            if selected_path(t1, lg_name@, needs_filter, target, p) {
                let j = choose|j: int|
                    0 <= j < t1.len() && route_accepted(#[trigger] t1[j], lg_name@, needs_filter)
                        && route_as_path(t1[j]) == Some(p) && p.len() > 0 && p.last() == target;
                if j < k {
                    assert(t0[j] == t1[j]);
                    assert(before.contains(p));
                }
            }
            if before.contains(p) {
                let j = choose|j: int|
                    0 <= j < t0.len() && route_accepted(#[trigger] t0[j], lg_name@, needs_filter)
                        && route_as_path(t0[j]) == Some(p) && p.len() > 0 && p.last() == target;
                assert(t1[j] == t0[j]);
            }
            if path_views(paths@).contains(p) && !before.contains(p) {
                assert(route_accepted(t1[k as int], lg_name@, needs_filter));
            }
        }
    }
    assert(routes@.take(routes.len() as int) == routes@);
    paths
}

/// The message for a Looking Glass whose host lookup never completed.
pub open spec fn not_cached_text() -> Seq<char> {
    "Host result not cached"@
}

/// The result of an Alice-LG Looking Glass from its host's lookup: the lookup error,
/// or the selected paths (split by route server name on shared hosts).
pub fn alice_query_result(
    lg: &LookingGlassConfig,
    multi_hosts: &Vec<String>,
    cached: Option<Result<Vec<AliceRoute>, String>>,
    target: u32,
) -> (res: QueryResult)
    ensures
        res.lg_name@ == lg.name@,
        match cached {
            Some(Ok(routes)) => {
                &&& res.error is None
                &&& strictly_sorted(path_views(res.as_paths@))
                &&& forall|p: Seq<u32>|
                    path_views(res.as_paths@).contains(p) <==> selected_path(
                        routes@,
                        lg.name@,
                        string_views(multi_hosts@).contains(lg.host@),
                        target,
                        p,
                    )
            },
            Some(Err(e)) => res.as_paths@.len() == 0 && opt_chars(res.error) == Some(e@),
            None => res.as_paths@.len() == 0 && opt_chars(res.error) == Some(not_cached_text()),
        },
{
    match cached {
        Some(Ok(routes)) => {
            let needs_filter = host_listed(multi_hosts, lg.host.as_str());
            let paths = alice_paths(&lg.name, needs_filter, &routes, target);
            QueryResult { lg_name: lg.name.clone(), as_paths: paths, error: None }
        },
        Some(Err(e)) => QueryResult::failure(lg.name.clone(), e),
        None => QueryResult::failure(lg.name.clone(), "Host result not cached".to_owned()),
    }
}

} // verus!
