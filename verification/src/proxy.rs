//! The front door: one port on which every database is reached by its host name.

use crate::databases;
use crate::databases::{Address, Route};
use crate::text;
use vstd::prelude::*;
use vstd::string::*;

verus! {

/// A host without its port.
pub fn strip_port(host: &str) -> (r: String)
    ensures
        r@ == text::before_first(host@, ':'),
{
    text::part_before(host, ':')
}

// --- finding the database -------------------------------------------------

/// The place of the first address with exactly this host.
pub open spec fn exactly_at(all: Seq<Address>, host: Seq<char>) -> nat
    decreases all.len(),
{
    if all.len() == 0 || all[0].host == host {
        0
    } else {
        1 + exactly_at(all.skip(1), host)
    }
}

/// Whether an address is the one that a database has by itself.
pub open spec fn is_default(a: Address) -> bool {
    a.host == a.database + ".localhost"@
}

/// The place of the first address that a database of this name has by itself.
pub open spec fn by_name_at(all: Seq<Address>, name: Seq<char>) -> nat
    decreases all.len(),
{
    if all.len() == 0 || (all[0].database == name && is_default(all[0])) {
        0
    } else {
        1 + by_name_at(all.skip(1), name)
    }
}

/// Where a host leads: to the address with exactly this host; else, where it has more than one
/// label, to the database that is named by the first and has no domain of its own.
pub open spec fn leads_to(all: Seq<Address>, host: Seq<char>) -> Option<Address> {
    let exact = exactly_at(all, host);
    let label = text::before_first(host, '.');
    let named = by_name_at(all, label);
    if exact < all.len() {
        Some(all[exact as int])
    } else if label.len() == 0 || label == host {
        None
    } else if named < all.len() {
        Some(all[named as int])
    } else {
        None
    }
}

/// Where a host leads.
pub fn find_route<'a>(routes: &'a Vec<Route>, host: &str) -> (r: Option<&'a Route>)
    ensures
        match r {
            Some(route) => leads_to(databases::addresses(routes@), host@) == Some(route@),
            None => leads_to(databases::addresses(routes@), host@) is None,
        },
{
    let ghost all = databases::addresses(routes@);
    let mut i: usize = 0;
    assert(all.skip(0) =~= all);
    while i < routes.len()
        invariant
            i <= routes@.len() == all.len(),
            all == databases::addresses(routes@),
            exactly_at(all, host@) == i + exactly_at(all.skip(i as int), host@),
        decreases routes@.len() - i,
    {
        assert(all.skip(i as int)[0] == routes@[i as int]@);
        if text::same_text(routes[i].host.as_str(), host) {
            return Some(&routes[i]);
        }
        assert(all.skip(i as int).skip(1) =~= all.skip(i + 1));
        i = i + 1;
    }
    let label = text::part_before(host, '.');
    if label.as_str().is_empty() || text::same_text(label.as_str(), host) {
        return None;
    }
    let mut k: usize = 0;
    while k < routes.len()
        invariant
            k <= routes@.len() == all.len(),
            all == databases::addresses(routes@),
            exactly_at(all, host@) >= all.len(),
            label@ == text::before_first(host@, '.'),
            label@.len() > 0,
            label@ != host@,
            by_name_at(all, label@) == k + by_name_at(all.skip(k as int), label@),
        decreases routes@.len() - k,
    {
        assert(all.skip(k as int)[0] == routes@[k as int]@);
        let own = text::joined(routes[k].database.as_str(), ".localhost");
        if text::same_text(routes[k].database.as_str(), label.as_str()) && text::same_text(
            routes[k].host.as_str(),
            own.as_str(),
        ) {
            return Some(&routes[k]);
        }
        assert(all.skip(k as int).skip(1) =~= all.skip(k + 1));
        k = k + 1;
    }
    None
}

proof fn lemma_exactly_at(all: Seq<Address>, host: Seq<char>)
    ensures
        exactly_at(all, host) <= all.len(),
        exactly_at(all, host) < all.len() ==> all[exactly_at(all, host) as int].host == host,
        forall|i: int| 0 <= i < exactly_at(all, host) ==> (#[trigger] all[i]).host != host,
    decreases all.len(),
{
    if all.len() > 0 && all[0].host != host {
        let rest = all.skip(1);
        lemma_exactly_at(rest, host);
        assert forall|i: int| 0 <= i < exactly_at(all, host) implies (#[trigger] all[i]).host
            != host by {
            if i > 0 {
                assert(rest[i - 1] == all[i]);
            }
        }
    }
}

proof fn lemma_by_name_at(all: Seq<Address>, name: Seq<char>)
    ensures
        by_name_at(all, name) <= all.len(),
        by_name_at(all, name) < all.len() ==> all[by_name_at(all, name) as int].database == name
            && is_default(all[by_name_at(all, name) as int]),
        forall|i: int|
            0 <= i < by_name_at(all, name) ==> !((#[trigger] all[i]).database == name
                && is_default(all[i])),
    decreases all.len(),
{
    if all.len() > 0 && !(all[0].database == name && is_default(all[0])) {
        let rest = all.skip(1);
        lemma_by_name_at(rest, name);
        assert forall|i: int| 0 <= i < by_name_at(all, name) implies !((
        #[trigger] all[i]).database == name && is_default(all[i])) by {
            if i > 0 {
                assert(rest[i - 1] == all[i]);
            }
        }
    }
}

/// A database with a domain of its own is reached there and nowhere else: never by its name under
/// another suffix.
pub proof fn law_a_custom_domain_is_matched_exactly(all: Seq<Address>, host: Seq<char>)
    ensures
        leads_to(all, host) matches Some(a) ==> a.host == host || is_default(a),
{
    lemma_exactly_at(all, host);
    lemma_by_name_at(all, text::before_first(host, '.'));
}

/// A database without a domain of its own is reached by its name under any suffix, unless that
/// host is somebody's domain.
pub proof fn law_a_default_address_answers_under_any_suffix(
    all: Seq<Address>,
    i: int,
    suffix: Seq<char>,
)
    requires
        0 <= i < all.len(),
        is_default(all[i]),
        all[i].database.len() > 0,
        !all[i].database.contains('.'),
        forall|j: int|
            0 <= j < all.len() ==> (#[trigger] all[j]).host != all[i].database + seq!['.'] + suffix,
    ensures
        leads_to(all, all[i].database + seq!['.'] + suffix) matches Some(a) && a.database
            == all[i].database && is_default(a),
{
    let name = all[i].database;
    let host = name + seq!['.'] + suffix;
    lemma_exactly_at(all, host);
    lemma_by_name_at(all, name);
    assert(exactly_at(all, host) == all.len());
    assert(host[name.len() as int] == '.');
    assert forall|k: int| 0 <= k < name.len() implies #[trigger] host[k] != '.' by {
        assert(host[k] == name[k]);
        assert(name.contains(name[k]));
    }
    text::lemma_first_at_is(host, '.', name.len() as int);
    assert(text::before_first(host, '.') =~= name);
    assert(host.len() > name.len());
}

/// A host of one label leads only to an address that is exactly it.
pub proof fn law_a_bare_host_matches_nothing_else(all: Seq<Address>, host: Seq<char>)
    requires
        !host.contains('.'),
    ensures
        leads_to(all, host) matches Some(a) ==> a.host == host,
{
    lemma_exactly_at(all, host);
    text::lemma_first_at(host, '.');
    assert(text::before_first(host, '.') =~= host);
}

// --- pages ----------------------------------------------------------------

/// An answer that the front door gives itself.
#[derive(Debug)]
pub struct Page {
    pub status: u16,
    pub body: String,
}

/// The list items of hosts.
pub open spec fn items_of(known: Seq<Seq<char>>) -> Seq<char>
    decreases known.len(),
{
    if known.len() == 0 {
        Seq::empty()
    } else {
        items_of(known.drop_last()) + "<li><code>"@ + known.last() + "</code></li>"@
    }
}

/// The list of the hosts that exist, where there are any.
pub open spec fn list_of(known: Seq<Seq<char>>) -> Seq<char> {
    if known.len() == 0 {
        Seq::empty()
    } else {
        "<p>These addresses exist:</p><ul>"@ + items_of(known) + "</ul>"@
    }
}

/// The page that says a message and lists hosts.
pub open spec fn page_text(message: Seq<char>, known: Seq<Seq<char>>) -> Seq<char> {
    PAGE_START@ + message + "</h1>"@ + list_of(known)
        + "<p style=\"color:#6b7078\">This page is the Orchestrator proxy, not Odoo.</p>"@
}

/// How a page starts.
pub const PAGE_START: &'static str =
    "<!doctype html><meta charset=utf-8><title>Orchestrator</title><body style=\"font:14px -apple-system,system-ui,sans-serif;max-width:38rem;margin:12vh auto;padding:0 1.5rem;color:#16171a\"><h1 style=\"font-size:17px\">";

/// The page that says a message and lists hosts.
pub fn error_page(status: u16, message: &str, known: &Vec<String>) -> (r: Page)
    ensures
        r.status == status,
        r.body@ == page_text(message@, text::views(known@)),
{
    let mut body = text::joined(PAGE_START, message);
    body.append("</h1>");
    let ghost start = body@;
    let ghost all = text::views(known@);
    if known.len() > 0 {
        body.append("<p>These addresses exist:</p><ul>");
        let mut i: usize = 0;
        let ghost opened = body@;
        assert(all.take(0) =~= Seq::<Seq<char>>::empty());
        assert(body@ =~= opened + items_of(all.take(0)));
        while i < known.len()
            invariant
                i <= known@.len(),
                all == text::views(known@),
                body@ == opened + items_of(all.take(i as int)),
            decreases known@.len() - i,
        {
            proof {
                assert(all.take(i + 1).drop_last() =~= all.take(i as int));
                assert(all.take(i + 1).last() == known@[i as int]@);
            }
            body.append("<li><code>");
            body.append(known[i].as_str());
            body.append("</code></li>");
            assert(body@ =~= opened + items_of(all.take(i + 1)));
            i = i + 1;
        }
        assert(all.take(i as int) =~= all);
        body.append("</ul>");
    }
    assert(body@ =~= start + list_of(all));
    body.append("<p style=\"color:#6b7078\">This page is the Orchestrator proxy, not Odoo.</p>");
    assert(body@ =~= page_text(message@, all));
    Page { status, body }
}

/// The hosts of addresses.
pub open spec fn hosts_of(all: Seq<Address>) -> Seq<Seq<char>> {
    all.map_values(|a: Address| a.host)
}

/// What is answered for a host that leads nowhere: what does exist.
pub fn unknown_host(host: &str, routes: &Vec<Route>) -> (r: Page)
    ensures
        r.status == 404,
        r.body@ == page_text(
            "Nothing is registered at "@ + host@ + "."@,
            hosts_of(databases::addresses(routes@)),
        ),
{
    let mut known: Vec<String> = Vec::new();
    let mut i: usize = 0;
    while i < routes.len()
        invariant
            i <= routes@.len(),
            known@.len() == i,
            forall|j: int| 0 <= j < i ==> (#[trigger] known@[j])@ == routes@[j].host@,
        decreases routes@.len() - i,
    {
        known.push(routes[i].host.clone());
        i = i + 1;
    }
    assert(text::views(known@) =~= hosts_of(databases::addresses(routes@)));
    let mut message = text::joined("Nothing is registered at ", host);
    message.append(".");
    error_page(404, message.as_str(), &known)
}

// --- what to do with a request --------------------------------------------

/// What is done with a request.
#[derive(Debug)]
pub enum Reply<'a> {
    /// It is handed on to the server of this database.
    Forward(&'a Route),
    /// It is answered here.
    Answer(Page),
}

/// The host that a request asks for: without its port, in lower case; none is the empty one.
pub open spec fn host_asked(header: Option<Seq<char>>) -> Seq<char> {
    match header {
        Some(h) => text::lowercase_of(text::before_first(h, ':')),
        None => text::lowercase_of(Seq::empty()),
    }
}

/// What is said of a database whose server is not running.
pub open spec fn asleep_text(host: Seq<char>) -> Seq<char> {
    host + " is a real address, but the Odoo behind it isn't running."@
}

/// Whether a reply is what a request with the header is owed.
pub open spec fn is_reply(r: Reply<'_>, header: Option<Seq<char>>, routes: Seq<Route>) -> bool {
    let host = host_asked(header);
    let all = databases::addresses(routes);
    match leads_to(all, host) {
        None => {
            &&& r matches Reply::Answer(page)
            &&& page.status == 404
            &&& page.body@ == page_text("Nothing is registered at "@ + host + "."@, hosts_of(all))
        },
        Some(a) => if a.running {
            r matches Reply::Forward(route) && route@ == a
        } else {
            &&& r matches Reply::Answer(page)
            &&& page.status == 503
            &&& page.body@ == page_text(asleep_text(host), Seq::empty())
        },
    }
}

/// Whether a header asks for a host: it is the host, or the host with a port behind it.
pub open spec fn asks_for(header: Seq<char>, host: Seq<char>) -> bool {
    header == host || exists|port: Seq<char>| header == #[trigger] (host + seq![':'] + port)
}

/// Whether a text is plain lower case: ASCII without the letters `A` to `Z`.
pub open spec fn is_plain_lower(s: Seq<char>) -> bool {
    forall|i: int|
        0 <= i < s.len() ==> #[trigger] s[i] <= '\u{7f}' && !('A' <= s[i] && s[i] <= 'Z')
}

proof fn lemma_host_asked(header: Seq<char>, host: Seq<char>)
    requires
        asks_for(header, host),
        is_plain_lower(host),
        !host.contains(':'),
    ensures
        host_asked(Some(header)) == host,
{
    if header == host {
        text::lemma_first_at(header, ':');
        assert(header.take(header.len() as int) =~= header);
    } else {
        let port = choose|port: Seq<char>| header == #[trigger] (host + seq![':'] + port);
        assert forall|i: int| 0 <= i < host.len() implies header[i] != ':' by {
            assert(header[i] == host[i]);
            assert(host.contains(host[i]));
        }
        text::lemma_first_at_is(header, ':', host.len() as int);
        assert(header.take(host.len() as int) =~= host);
    }
    assert(text::before_first(header, ':') =~= host);
    assert(text::lowercase_of(host) =~= host);
}

/// A request for the host of a database, with or without a port, is handed on to that database
/// where its server runs, whatever the host looks like; and where it does not run, the request is
/// told so.
pub proof fn law_a_host_leads_to_its_database(
    r: Reply<'_>,
    header: Seq<char>,
    routes: Seq<Route>,
    i: int,
)
    requires
        is_reply(r, Some(header), routes),
        0 <= i < routes.len(),
        asks_for(header, routes[i].host@),
        is_plain_lower(routes[i].host@),
        !routes[i].host@.contains(':'),
        forall|j: int|
            0 <= j < routes.len() && j != i ==> (#[trigger] routes[j]).host@ != routes[i].host@,
    ensures
        routes[i].running ==> (r matches Reply::Forward(route) && route.host@ == routes[i].host@
            && route.port == routes[i].port && route.database@ == routes[i].database@
            && route.server_id == routes[i].server_id && route.database_id
            == routes[i].database_id),
        !routes[i].running ==> (r matches Reply::Answer(page) && page.status == 503),
{
    let host = routes[i].host@;
    let all = databases::addresses(routes);
    lemma_host_asked(header, host);
    assert(all[i] == routes[i]@);
    assert forall|j: int| 0 <= j < all.len() && j != i implies (#[trigger] all[j]).host
        != host by {
        assert(all[j] == routes[j]@);
        assert(routes[j].host@ != host);
    }
    lemma_exactly_at(all, host);
}

/// A request for a host that no database has is answered that nothing is there, where the host is
/// a single label, or where no database of the first label's name is without a domain of its own.
pub proof fn law_an_unknown_host_leads_nowhere(
    r: Reply<'_>,
    header: Seq<char>,
    host: Seq<char>,
    routes: Seq<Route>,
)
    requires
        is_reply(r, Some(header), routes),
        asks_for(header, host),
        is_plain_lower(host),
        !host.contains(':'),
        forall|j: int| 0 <= j < routes.len() ==> (#[trigger] routes[j]).host@ != host,
        !host.contains('.') || forall|j: int|
            0 <= j < routes.len() ==> {
                ||| !((#[trigger] routes[j]).database@ + seq!['.']).is_prefix_of(host)
                ||| routes[j].host@ != routes[j].database@ + ".localhost"@
            },
    ensures
        r matches Reply::Answer(page) && page.status == 404,
{
    let all = databases::addresses(routes);
    lemma_host_asked(header, host);
    assert forall|j: int| 0 <= j < all.len() implies (#[trigger] all[j]).host != host by {
        assert(all[j] == routes[j]@);
        assert(routes[j].host@ != host);
    }
    lemma_exactly_at(all, host);
    if !host.contains('.') {
        text::lemma_first_at(host, '.');
        assert(host.take(host.len() as int) =~= host);
    } else {
        let label = text::before_first(host, '.');
        text::lemma_first_at(host, '.');
        let n = text::first_at(host, '.') as int;
        assert(host.take(n) =~= label);
        assert forall|j: int| 0 <= j < all.len() implies !((#[trigger] all[j]).database == label
            && is_default(all[j])) by {
            assert(all[j] == routes[j]@);
            let d = routes[j].database@;
            if d == label {
                assert((d + seq!['.']) =~= host.subrange(0, n + 1));
                assert((d + seq!['.']).is_prefix_of(host));
            }
        }
        lemma_by_name_at(all, label);
    }
}

/// A request is handed on at most to a database that it names: by its very host, or, where the
/// database has no domain of its own, by its name before the first dot; and never to one whose
/// server does not run.
pub proof fn law_a_request_reaches_no_other_database(
    r: Reply<'_>,
    header: Seq<char>,
    host: Seq<char>,
    routes: Seq<Route>,
)
    requires
        is_reply(r, Some(header), routes),
        asks_for(header, host),
        is_plain_lower(host),
        !host.contains(':'),
    ensures
        r matches Reply::Forward(route) ==> {
            &&& route.running
            &&& exists|i: int|
                0 <= i < routes.len() && (#[trigger] routes[i])@ == route@
            &&& route.host@ == host || (route.host@ == route.database@ + ".localhost"@ && (
            route.database@ + seq!['.']).is_prefix_of(host))
        },
{
    let all = databases::addresses(routes);
    lemma_host_asked(header, host);
    if let Reply::Forward(route) = r {
        let a = leads_to(all, host)->0;
        let exact = exactly_at(all, host);
        if exact < all.len() {
            lemma_exactly_at(all, host);
            assert(all[exact as int] == routes[exact as int]@);
        } else {
            let label = text::before_first(host, '.');
            let named = by_name_at(all, label);
            lemma_by_name_at(all, label);
            assert(all[named as int] == routes[named as int]@);
            text::lemma_first_at(host, '.');
            let n = text::first_at(host, '.') as int;
            if n == host.len() {
                assert(host.take(n) =~= host);
            }
            assert(host.take(n) =~= label);
            assert((label + seq!['.']) =~= host.subrange(0, n + 1));
            assert((label + seq!['.']).is_prefix_of(host));
        }
    }
}

/// The upper and the lower case of a header make no difference, nor does its port.
pub proof fn law_case_and_port_do_not_count(host: Seq<char>, port: Seq<char>)
    requires
        text::all_ascii(host),
        !host.contains(':'),
    ensures
        host_asked(Some(host + seq![':'] + port)) == host_asked(Some(host)),
        host_asked(Some(host)) == host_asked(Some(host.map_values(|c: char| text::ascii_lower(c)))),
{
    let longer = host + seq![':'] + port;
    let low = host.map_values(|c: char| text::ascii_lower(c));
    text::lemma_first_at(host, ':');
    assert forall|i: int| 0 <= i < host.len() implies longer[i] != ':' && low[i] != ':' by {
        assert(longer[i] == host[i]);
        assert(host.contains(host[i]));
    }
    text::lemma_first_at_is(longer, ':', host.len() as int);
    text::lemma_first_at_is(low, ':', low.len() as int);
    assert(longer.take(host.len() as int) =~= host);
    assert(host.take(host.len() as int) =~= host);
    assert(low.take(low.len() as int) =~= low);
    assert(text::lowercase_of(low) =~= text::lowercase_of(host));
}

/// What is done with a request, given its `Host` header and where the databases are reached.
pub fn handle<'a>(header: Option<&str>, routes: &'a Vec<Route>) -> (r: Reply<'a>)
    ensures
        is_reply(
            r,
            match header {
                Some(h) => Some(h@),
                None => None,
            },
            routes@,
        ),
{
    let host = match header {
        Some(h) => text::lowercase(strip_port(h).as_str()),
        None => {
            proof {
                reveal_strlit("");
                assert(""@ =~= Seq::<char>::empty());
            }
            text::lowercase("")
        },
    };
    match find_route(routes, host.as_str()) {
        None => Reply::Answer(unknown_host(host.as_str(), routes)),
        Some(route) => {
            if route.running {
                Reply::Forward(route)
            } else {
                let message = text::joined(
                    host.as_str(),
                    " is a real address, but the Odoo behind it isn't running.",
                );
                let none: Vec<String> = Vec::new();
                assert(text::views(none@) =~= Seq::<Seq<char>>::empty());
                Reply::Answer(error_page(503, message.as_str(), &none))
            }
        },
    }
}

/// The address that a request is handed on to.
pub open spec fn target_of(a: Address, path_and_query: Option<Seq<char>>) -> Seq<char> {
    "http://127.0.0.1:"@ + text::decimal_of(a.port as nat) + match path_and_query {
        Some(p) => p,
        None => "/"@,
    }
}

/// The address that a request is handed on to.
pub fn forward_target(route: &Route, path_and_query: Option<&str>) -> (r: String)
    ensures
        r@ == target_of(
            route@,
            match path_and_query {
                Some(p) => Some(p@),
                None => None,
            },
        ),
{
    let mut out = text::joined("http://127.0.0.1:", text::decimal(route.port as u64).as_str());
    match path_and_query {
        Some(p) => {
            out.append(p);
        },
        None => {
            out.append("/");
        },
    }
    out
}

/// The host that the server is asked for: the database by its name, whatever its domain is.
pub fn forward_host(route: &Route) -> (r: String)
    ensures
        r@ == route@.database + ".localhost"@,
{
    text::joined(route.database.as_str(), ".localhost")
}

/// The headers that are not handed on.
pub fn dropped_headers() -> (r: Vec<String>)
    ensures
        text::views(r@) == seq![
            "connection"@,
            "keep-alive"@,
            "transfer-encoding"@,
            "upgrade"@,
            "proxy-connection"@,
        ],
{
    let mut out: Vec<String> = Vec::new();
    out.push("connection".to_owned());
    out.push("keep-alive".to_owned());
    out.push("transfer-encoding".to_owned());
    out.push("upgrade".to_owned());
    out.push("proxy-connection".to_owned());
    assert(text::views(out@) =~= seq![
        "connection"@,
        "keep-alive"@,
        "transfer-encoding"@,
        "upgrade"@,
        "proxy-connection"@,
    ]);
    out
}

/// What is answered where the server did not.
pub fn unreachable_page(route: &Route, error: &str) -> (r: Page)
    ensures
        r.status == 502,
        r.body@ == page_text(
            "Couldn't reach the Odoo on port "@ + text::decimal_of(route.port as nat) + " — "@
                + error@,
            Seq::empty(),
        ),
{
    let mut message = text::joined(
        "Couldn't reach the Odoo on port ",
        text::decimal(route.port as u64).as_str(),
    );
    message.append(" — ");
    message.append(error);
    let none: Vec<String> = Vec::new();
    assert(text::views(none@) =~= Seq::<Seq<char>>::empty());
    error_page(502, message.as_str(), &none)
}

/// Every address that is known stands on the page, as an entry of the list; where none is known
/// there is no list.
pub proof fn law_a_page_lists_every_address(message: Seq<char>, known: Seq<Seq<char>>, i: int)
    ensures
        0 <= i < known.len() ==> text::has_part(
            page_text(message, known),
            "<li><code>"@ + known[i] + "</code></li>"@,
        ),
        text::has_part(page_text(message, known), message + "</h1>"@),
        known.len() == 0 ==> page_text(message, known) == PAGE_START@ + message + "</h1>"@
            + "<p style=\"color:#6b7078\">This page is the Orchestrator proxy, not Odoo.</p>"@,
{
    let whole = page_text(message, known);
    let end = "<p style=\"color:#6b7078\">This page is the Orchestrator proxy, not Odoo.</p>"@;
    let said = message + "</h1>"@;
    let n = PAGE_START@.len() as int;
    assert(whole.subrange(n, n + said.len()) =~= said);
    if 0 <= i < known.len() {
        let entry = "<li><code>"@ + known[i] + "</code></li>"@;
        let start = PAGE_START@ + message + "</h1>"@ + "<p>These addresses exist:</p><ul>"@;
        let at = lemma_item(known, i);
        let items = items_of(known);
        let m = start.len() as int;
        assert(whole =~= start + items + ("</ul>"@ + end));
        assert(whole.subrange(m + at, m + at + entry.len()) =~= items.subrange(
            at,
            at + entry.len(),
        ));
    } else if known.len() == 0 {
        assert(whole =~= PAGE_START@ + message + "</h1>"@ + end);
    }
}

proof fn lemma_item(known: Seq<Seq<char>>, i: int) -> (at: int)
    requires
        0 <= i < known.len(),
    ensures
        ({
            let entry = "<li><code>"@ + known[i] + "</code></li>"@;
            &&& 0 <= at <= items_of(known).len() - entry.len()
            &&& items_of(known).subrange(at, at + entry.len()) == entry
        }),
    decreases known.len(),
{
    let entry = "<li><code>"@ + known[i] + "</code></li>"@;
    let rest = known.drop_last();
    let all = items_of(known);
    if i < rest.len() {
        let at = lemma_item(rest, i);
        assert(rest[i] == known[i]);
        assert(all.subrange(at, at + entry.len()) =~= items_of(rest).subrange(
            at,
            at + entry.len(),
        ));
        at
    } else {
        let at = items_of(rest).len() as int;
        assert(all.subrange(at, at + entry.len()) =~= entry);
        at
    }
}

/// A request goes on to the port of its database on this machine, with the path that was asked
/// for; where none was, to the root.
pub proof fn law_a_request_keeps_its_path(a: Address, path: Seq<char>)
    ensures
        exists|digits: Seq<char>|
            text::unsigned_of(digits, u16::MAX as nat) == Some(a.port as nat) && target_of(
                a,
                Some(path),
            ) == #[trigger] ("http://127.0.0.1:"@ + digits) + path,
        target_of(a, None) == target_of(a, Some("/"@)),
        path.is_suffix_of(target_of(a, Some(path))),
{
    let digits = text::decimal_of(a.port as nat);
    text::law_a_written_number_is_read_again(a.port as nat, u16::MAX as nat);
    let whole = target_of(a, Some(path));
    assert(whole == ("http://127.0.0.1:"@ + digits) + path);
    assert(whole.subrange(whole.len() - path.len(), whole.len() as int) =~= path);
}

} // verus!
