use vstd::prelude::*;
use vstd::string::StringExecFns;

verus! {

/// Structured form of an endpoint template
/// `scheme://credential@host:port?key=value&...#label`.
/// Parsed once from a link string, then only copied, never mutated.
#[derive(Debug, PartialEq)]
pub struct NodeConfig {
    pub protocol: String,
    pub address: String,
    pub port: u16,
    pub uuid: String,
    pub params: Vec<(String, String)>,
    pub fragment: String,
}

/// Why a link string was rejected.
#[derive(PartialEq, Eq, Structural, Clone, Copy, Debug)]
pub enum LinkError {
    /// The text is not a well-formed URI.
    BadSyntax,
    /// The URI carries no host, or an empty one.
    MissingHost,
    /// The URI carries no port, or port zero.
    InvalidPort,
}

/// Whether the URI parser accepts the link text at all.
pub uninterp spec fn url_accepts(link: Seq<char>) -> bool;

/// The scheme of an accepted link.
pub uninterp spec fn url_scheme(link: Seq<char>) -> Seq<char>;

/// The host of an accepted link, if any.
pub uninterp spec fn url_host(link: Seq<char>) -> Option<Seq<char>>;

/// The explicit port of an accepted link, if any.
pub uninterp spec fn url_port(link: Seq<char>) -> Option<u16>;

/// The username part of an accepted link (empty when absent).
pub uninterp spec fn url_username(link: Seq<char>) -> Seq<char>;

/// The fragment of an accepted link, if any.
pub uninterp spec fn url_fragment(link: Seq<char>) -> Option<Seq<char>>;

/// The decoded query key/value pairs of an accepted link, in query order.
pub uninterp spec fn url_query_pairs(link: Seq<char>) -> Seq<(Seq<char>, Seq<char>)>;

/// The pieces of a link as the URI parser hands them out, before any
/// validation of this crate's own.
pub(crate) struct RawLink {
    pub scheme: String,
    pub host: Option<String>,
    pub port: Option<u16>,
    pub username: String,
    pub fragment: Option<String>,
    pub pairs: Vec<(String, String)>,
}

/// Relies on url::Url::parse and its accessors scheme, host_str, port,
/// username, fragment and query_pairs: each one is a pure function of the
/// link text, so their results are named above and only converted to plain
/// values here.
#[verifier::external_body]
fn parse_link_raw(link: &str) -> (r: Option<RawLink>)
    ensures
        r is Some <==> url_accepts(link@),
        r matches Some(raw) ==> {
            &&& raw.scheme@ == url_scheme(link@)
            &&& raw.host.deep_view() == url_host(link@)
            &&& raw.port == url_port(link@)
            &&& raw.username@ == url_username(link@)
            &&& raw.fragment.deep_view() == url_fragment(link@)
            &&& raw.pairs.deep_view() == url_query_pairs(link@)
        },
{
    match url::Url::parse(link) {
        Ok(u) => Some(RawLink {
            scheme: u.scheme().to_string(),
            host: u.host_str().map(|h| h.to_string()),
            port: u.port(),
            username: u.username().to_string(),
            fragment: u.fragment().map(|f| f.to_string()),
            pairs: u.query_pairs().into_owned().collect(),
        }),
        Err(_) => None,
    }
}

/// No two parameters of a descriptor share a key.
pub open spec fn unique_keys(s: Seq<(Seq<char>, Seq<char>)>) -> bool {
    forall|i: int, j: int| #![trigger s[i], s[j]] 0 <= i < j < s.len() ==> s[i].0 != s[j].0
}

/// Record one key/value pair in an association list: replace the value of the
/// first pair holding the key, or append the pair when the key is new.
pub open spec fn upsert(
    acc: Seq<(Seq<char>, Seq<char>)>,
    k: Seq<char>,
    v: Seq<char>,
) -> Seq<(Seq<char>, Seq<char>)>
    decreases acc.len(),
{
    if acc.len() == 0 {
        seq![(k, v)]
    } else if acc.first().0 == k {
        seq![(k, v)] + acc.drop_first()
    } else {
        seq![acc.first()] + upsert(acc.drop_first(), k, v)
    }
}

/// Fold a raw pair sequence into an association list with unique keys; a
/// repeated key keeps its first position and its last value.
pub open spec fn dedup_pairs(raw: Seq<(Seq<char>, Seq<char>)>) -> Seq<(Seq<char>, Seq<char>)>
    decreases raw.len(),
{
    if raw.len() == 0 {
        Seq::<(Seq<char>, Seq<char>)>::empty()
    } else {
        upsert(dedup_pairs(raw.drop_last()), raw.last().0, raw.last().1)
    }
}

/// Whether some pair of the list holds the key.
pub open spec fn has_key(s: Seq<(Seq<char>, Seq<char>)>, k: Seq<char>) -> bool {
    exists|i: int| 0 <= i < s.len() && (#[trigger] s[i]).0 == k
}

/// Recording a pair keeps keys unique and adds exactly the recorded key.
proof fn lemma_upsert_unique(acc: Seq<(Seq<char>, Seq<char>)>, k: Seq<char>, v: Seq<char>)
    requires
        unique_keys(acc),
    ensures
        unique_keys(upsert(acc, k, v)),
        forall|x: Seq<char>| #[trigger] has_key(upsert(acc, k, v), x) <==> (has_key(acc, x) || x
            == k),
    decreases acc.len(),
{
    let u = upsert(acc, k, v);
    if acc.len() == 0 {
        assert forall|x: Seq<char>| #[trigger] has_key(u, x) implies (has_key(acc, x) || x
            == k) by {
            let i = choose|i: int| 0 <= i < u.len() && (#[trigger] u[i]).0 == x;
            assert(u[i] == (k, v));
        }
        assert(u[0].0 == k);
    } else if acc.first().0 == k {
        assert(u =~= seq![(k, v)] + acc.drop_first());
        assert forall|i: int, j: int| 0 <= i < j < u.len() implies (#[trigger] u[i]).0
            != (#[trigger] u[j]).0 by {
            if i == 0 {
                assert(u[j] == acc[j]);
                assert(acc[0].0 != acc[j].0);
            } else {
                assert(u[i] == acc[i] && u[j] == acc[j]);
            }
        }
        assert forall|x: Seq<char>| #[trigger] has_key(u, x) implies (has_key(acc, x) || x
            == k) by {
            let i = choose|i: int| 0 <= i < u.len() && (#[trigger] u[i]).0 == x;
            if i > 0 {
                assert(acc[i].0 == x);
            }
        }
        assert forall|x: Seq<char>| has_key(acc, x) || x == k implies #[trigger] has_key(
            u,
            x,
        ) by {
            if x == k {
                assert(u[0].0 == k);
            } else {
                let i = choose|i: int| 0 <= i < acc.len() && (#[trigger] acc[i]).0 == x;
                assert(i != 0);
                assert(u[i].0 == x);
            }
        }
    } else {
        let rest = upsert(acc.drop_first(), k, v);
        assert(unique_keys(acc.drop_first())) by {
            assert forall|i: int, j: int| 0 <= i < j < acc.drop_first().len() implies (
            #[trigger] acc.drop_first()[i]).0 != (#[trigger] acc.drop_first()[j]).0 by {
                assert(acc.drop_first()[i] == acc[i + 1] && acc.drop_first()[j] == acc[j + 1]);
            }
        }
        lemma_upsert_unique(acc.drop_first(), k, v);
        assert(u =~= seq![acc.first()] + rest);
        assert(!has_key(acc.drop_first(), acc.first().0)) by {
            assert forall|i: int| 0 <= i < acc.drop_first().len() implies (#[trigger] acc.drop_first()[i]).0
                != acc.first().0 by {
                assert(acc.drop_first()[i] == acc[i + 1]);
                assert(acc[0].0 != acc[i + 1].0);
            }
        }
        assert forall|i: int, j: int| 0 <= i < j < u.len() implies (#[trigger] u[i]).0
            != (#[trigger] u[j]).0 by {
            if i == 0 {
                assert(u[j] == rest[j - 1]);
                assert(has_key(rest, rest[j - 1].0));
                assert(u[0] == acc.first());
            } else {
                assert(u[i] == rest[i - 1] && u[j] == rest[j - 1]);
            }
        }
        assert forall|x: Seq<char>| #[trigger] has_key(u, x) implies (has_key(acc, x) || x
            == k) by {
            let i = choose|i: int| 0 <= i < u.len() && (#[trigger] u[i]).0 == x;
            if i == 0 {
                assert(acc[0].0 == x);
            } else {
                assert(rest[i - 1].0 == x);
                assert(has_key(rest, x));
                if has_key(acc.drop_first(), x) {
                    let t = choose|t: int|
                        0 <= t < acc.drop_first().len() && (#[trigger] acc.drop_first()[t]).0 == x;
                    assert(acc[t + 1].0 == x);
                }
            }
        }
        assert forall|x: Seq<char>| has_key(acc, x) || x == k implies #[trigger] has_key(
            u,
            x,
        ) by {
            if x == k {
                assert(has_key(rest, k));
                let t = choose|t: int| 0 <= t < rest.len() && (#[trigger] rest[t]).0 == k;
                assert(u[t + 1].0 == k);
            } else if has_key(acc, x) {
                let i = choose|i: int| 0 <= i < acc.len() && (#[trigger] acc[i]).0 == x;
                if i == 0 {
                    assert(u[0].0 == x);
                } else {
                    assert(acc.drop_first()[i - 1].0 == x);
                    assert(has_key(acc.drop_first(), x));
                    assert(has_key(rest, x));
                    let t = choose|t: int| 0 <= t < rest.len() && (#[trigger] rest[t]).0 == x;
                    assert(u[t + 1].0 == x);
                }
            }
        }
    }
}

/// The parameter list distilled from any raw pair sequence has unique keys:
/// the descriptor invariant holds however many times a key was repeated.
pub proof fn lemma_dedup_unique_keys(raw: Seq<(Seq<char>, Seq<char>)>)
    ensures
        unique_keys(dedup_pairs(raw)),
    decreases raw.len(),
{
    if raw.len() > 0 {
        lemma_dedup_unique_keys(raw.drop_last());
        lemma_upsert_unique(dedup_pairs(raw.drop_last()), raw.last().0, raw.last().1);
    }
}

/// Recording a key that the list already holds replaces the value in place:
/// at the first position holding the key.
proof fn lemma_upsert_found(s: Seq<(Seq<char>, Seq<char>)>, k: Seq<char>, v: Seq<char>, j: int)
    requires
        0 <= j < s.len(),
        s[j].0 == k,
        forall|t: int| 0 <= t < j ==> (#[trigger] s[t]).0 != k,
    ensures
        upsert(s, k, v) == s.update(j, (k, v)),
    decreases j,
{
    if j == 0 {
        assert(upsert(s, k, v) =~= s.update(0, (k, v)));
    } else {
        assert(s[0].0 != k);
        assert forall|t: int| 0 <= t < j - 1 implies (#[trigger] s.drop_first()[t]).0 != k by {
            assert(s.drop_first()[t] == s[t + 1]);
        }
        assert(s.drop_first()[j - 1].0 == k);
        lemma_upsert_found(s.drop_first(), k, v, j - 1);
        assert(upsert(s, k, v) =~= s.update(j, (k, v)));
    }
}

/// Recording a key that the list does not hold appends the pair.
proof fn lemma_upsert_absent(s: Seq<(Seq<char>, Seq<char>)>, k: Seq<char>, v: Seq<char>)
    requires
        forall|t: int| 0 <= t < s.len() ==> (#[trigger] s[t]).0 != k,
    ensures
        upsert(s, k, v) == s.push((k, v)),
    decreases s.len(),
{
    if s.len() == 0 {
        assert(upsert(s, k, v) =~= s.push((k, v)));
    } else {
        assert forall|t: int| 0 <= t < s.drop_first().len() implies (
        #[trigger] s.drop_first()[t]).0 != k by {
            assert(s.drop_first()[t] == s[t + 1]);
        }
        lemma_upsert_absent(s.drop_first(), k, v);
        assert(upsert(s, k, v) =~= s.push((k, v)));
    }
}

/// Position of the first pair holding the key, if any.
fn find_key(acc: &Vec<(String, String)>, k: &String) -> (r: Option<usize>)
    ensures
        match r {
            Some(j) => 0 <= j < acc@.len() && acc.deep_view()[j as int].0 == k@ && (forall|t: int|
                0 <= t < j ==> (#[trigger] acc.deep_view()[t]).0 != k@),
            None => forall|t: int|
                0 <= t < acc@.len() ==> (#[trigger] acc.deep_view()[t]).0 != k@,
        },
{
    let mut j: usize = 0;
    while j < acc.len()
        invariant
            j <= acc@.len(),
            forall|t: int| 0 <= t < j ==> (#[trigger] acc.deep_view()[t]).0 != k@,
        decreases acc@.len() - j,
    {
        if acc[j].0 == *k {
            return Some(j);
        }
        j += 1;
    }
    None
}

/// Record one pair in the accumulated parameter list, as `upsert` says.
fn upsert_exec(acc: &mut Vec<(String, String)>, k: String, v: String)
    ensures
        final(acc).deep_view() == upsert(old(acc).deep_view(), k@, v@),
{
    let found = find_key(acc, &k);
    match found {
        Some(j) => {
            let ghost before = acc.deep_view();
            acc.remove(j);
            acc.insert(j, (k, v));
            proof {
                assert(acc.deep_view() =~= before.update(j as int, (k@, v@)));
                lemma_upsert_found(before, k@, v@, j as int);
            }
        },
        None => {
            let ghost before = acc.deep_view();
            acc.push((k, v));
            proof {
                assert(acc.deep_view() =~= before.push((k@, v@)));
                lemma_upsert_absent(before, k@, v@);
            }
        },
    }
}

/// Distill the raw query pairs into the descriptor's parameter list: a
/// repeated key keeps its first position and its last value, as a mapping
/// updated once per raw pair would.
fn dedup_pairs_exec(raw: &Vec<(String, String)>) -> (r: Vec<(String, String)>)
    ensures
        r.deep_view() == dedup_pairs(raw.deep_view()),
{
    let mut r: Vec<(String, String)> = Vec::new();
    let mut i: usize = 0;
    proof {
        assert(raw.deep_view().take(0) =~= Seq::<(Seq<char>, Seq<char>)>::empty());
    }
    while i < raw.len()
        invariant
            i <= raw@.len(),
            r.deep_view() == dedup_pairs(raw.deep_view().take(i as int)),
        decreases raw@.len() - i,
    {
        let k = raw[i].0.clone();
        let v = raw[i].1.clone();
        upsert_exec(&mut r, k, v);
        proof {
            let p = raw.deep_view().take(i + 1 as int);
            assert(p.drop_last() =~= raw.deep_view().take(i as int));
            assert(p.last() == raw.deep_view()[i as int]);
            assert(raw.deep_view()[i as int] == (raw@[i as int].0@, raw@[i as int].1@));
        }
        i += 1;
    }
    proof {
        assert(raw.deep_view().take(raw@.len() as int) =~= raw.deep_view());
    }
    r
}

/// The fragment a descriptor keeps: the link's fragment, or empty when the
/// link has none.
pub open spec fn spec_fragment(link: Seq<char>) -> Seq<char> {
    match url_fragment(link) {
        Some(f) => f,
        None => Seq::<char>::empty(),
    }
}

/// A link is accepted when the URI parser takes it and it carries a
/// non-empty host and a non-zero port.
pub open spec fn link_accepted(link: Seq<char>) -> bool {
    &&& url_accepts(link)
    &&& url_host(link) matches Some(h) && h.len() > 0
    &&& url_port(link) matches Some(p) && p != 0
}

/// The one error each rejected link is reported with.
pub open spec fn link_error(link: Seq<char>) -> LinkError {
    if !url_accepts(link) {
        LinkError::BadSyntax
    } else if !(url_host(link) matches Some(h) && h.len() > 0) {
        LinkError::MissingHost
    } else {
        LinkError::InvalidPort
    }
}

impl NodeConfig {
    /// Descriptor invariant: non-empty host, non-zero port, unique
    /// parameter keys.
    pub open spec fn wf(self) -> bool {
        &&& self.address@.len() > 0
        &&& self.port != 0
        &&& unique_keys(self.params.deep_view())
    }
}

/// Parse a node link such as `vless://uuid@host:port?key=value#label` into a
/// descriptor. Exactly the links that the URI parser accepts and that carry a
/// non-empty host and a non-zero port yield a descriptor; every other link
/// yields the error `link_error` names.
pub fn parse_node_link(link: &str) -> (r: Result<NodeConfig, LinkError>)
    ensures
        r is Ok <==> link_accepted(link@),
        r matches Ok(c) ==> {
            &&& c.protocol@ == url_scheme(link@)
            &&& Some(c.address@) == url_host(link@)
            &&& Some(c.port) == url_port(link@)
            &&& c.uuid@ == url_username(link@)
            &&& c.fragment@ == spec_fragment(link@)
            &&& c.params.deep_view() == dedup_pairs(url_query_pairs(link@))
            &&& c.wf()
        },
        r matches Err(e) ==> e == link_error(link@),
{
    let raw = match parse_link_raw(link) {
        Some(raw) => raw,
        None => {
            return Err(LinkError::BadSyntax);
        },
    };
    let host = match raw.host {
        Some(h) => h,
        None => {
            return Err(LinkError::MissingHost);
        },
    };
    if host.as_str().is_empty() {
        return Err(LinkError::MissingHost);
    }
    let port = match raw.port {
        Some(p) => p,
        None => {
            return Err(LinkError::InvalidPort);
        },
    };
    if port == 0 {
        return Err(LinkError::InvalidPort);
    }
    let params = dedup_pairs_exec(&raw.pairs);
    proof {
        lemma_dedup_unique_keys(raw.pairs.deep_view());
    }
    let fragment = match raw.fragment {
        Some(f) => f,
        None => String::new(),
    };
    Ok(
        NodeConfig {
            protocol: raw.scheme,
            address: host,
            port,
            uuid: raw.username,
            params,
            fragment,
        },
    )
}

/// The decimal digit characters.
pub open spec fn dec_digit(d: nat) -> char {
    if d == 0 {
        '0'
    } else if d == 1 {
        '1'
    } else if d == 2 {
        '2'
    } else if d == 3 {
        '3'
    } else if d == 4 {
        '4'
    } else if d == 5 {
        '5'
    } else if d == 6 {
        '6'
    } else if d == 7 {
        '7'
    } else if d == 8 {
        '8'
    } else {
        '9'
    }
}

/// Decimal text of a number, most significant digit first, no leading zeros.
pub open spec fn dec_str(n: nat) -> Seq<char>
    decreases n,
{
    if n < 10 {
        seq![dec_digit(n)]
    } else {
        dec_str(n / 10) + seq![dec_digit(n % 10)]
    }
}

/// The one-character text of a decimal digit.
fn digit_str(d: u16) -> (r: &'static str)
    requires
        d < 10,
    ensures
        r@ == seq![dec_digit(d as nat)],
{
    proof {
        reveal_strlit("0");
        reveal_strlit("1");
        reveal_strlit("2");
        reveal_strlit("3");
        reveal_strlit("4");
        reveal_strlit("5");
        reveal_strlit("6");
        reveal_strlit("7");
        reveal_strlit("8");
        reveal_strlit("9");
    }
    match d {
        0 => "0",
        1 => "1",
        2 => "2",
        3 => "3",
        4 => "4",
        5 => "5",
        6 => "6",
        7 => "7",
        8 => "8",
        _ => "9",
    }
}

/// Append the decimal text of a number to a string.
fn push_dec_u16(s: &mut String, n: u16)
    ensures
        final(s)@ == old(s)@ + dec_str(n as nat),
    decreases n,
{
    if n >= 10 {
        push_dec_u16(s, n / 10);
        let d = digit_str(n % 10);
        s.append(d);
        proof {
            assert((n / 10) as nat == n as nat / 10);
            assert((n % 10) as nat == n as nat % 10);
            assert(s@ =~= old(s)@ + dec_str(n as nat));
        }
    } else {
        let d = digit_str(n);
        s.append(d);
        proof {
            assert(s@ =~= old(s)@ + dec_str(n as nat));
        }
    }
}

/// The form-urlencoded text of a parameter value.
pub uninterp spec fn form_encoded(s: Seq<char>) -> Seq<char>;

/// Relies on url::form_urlencoded::byte_serialize: it percent-encodes the
/// bytes of the value, a pure function of the value alone, and leaves an
/// empty value empty.
#[verifier::external_body]
fn form_urlencode(v: &str) -> (r: String)
    ensures
        r@ == form_encoded(v@),
        v@.len() == 0 ==> r@.len() == 0,
{
    url::form_urlencoded::byte_serialize(v.as_bytes()).collect()
}

/// The query text of one parameter: `key=encoded-value`.
pub open spec fn pair_text(p: (Seq<char>, Seq<char>)) -> Seq<char> {
    p.0 + seq!['='] + form_encoded(p.1)
}

/// The query text of a parameter list, pairs separated by `&`.
pub open spec fn query_text(ps: Seq<(Seq<char>, Seq<char>)>) -> Seq<char>
    decreases ps.len(),
{
    if ps.len() == 0 {
        Seq::<char>::empty()
    } else if ps.len() == 1 {
        pair_text(ps[0])
    } else {
        query_text(ps.drop_last()) + seq!['&'] + pair_text(ps.last())
    }
}

/// The full text of a descriptor rewritten to point at `new_ip`:
/// `scheme://credential@new_ip:port`, then `?key=value&...` when parameters
/// are present, then `#label` when the label is non-empty.
pub open spec fn link_text(c: NodeConfig, new_ip: Seq<char>) -> Seq<char> {
    c.protocol@ + seq![':', '/', '/'] + c.uuid@ + seq!['@'] + new_ip + seq![':'] + dec_str(
        c.port as nat,
    ) + (if c.params@.len() > 0 {
        seq!['?'] + query_text(c.params.deep_view())
    } else {
        Seq::<char>::empty()
    }) + (if c.fragment@.len() > 0 {
        seq!['#'] + c.fragment@
    } else {
        Seq::<char>::empty()
    })
}

/// Rewrite a descriptor with a substituted address: a new link string whose
/// host segment is `new_ip` and whose every other segment comes verbatim from
/// the descriptor. The descriptor itself is left untouched.
pub fn generate_node_link(config: &NodeConfig, new_ip: &str) -> (r: String)
    ensures
        r@ == link_text(*config, new_ip@),
{
    proof {
        reveal_strlit("://");
        reveal_strlit("@");
        reveal_strlit(":");
        reveal_strlit("?");
        reveal_strlit("&");
        reveal_strlit("=");
        reveal_strlit("#");
    }
    let mut u = config.protocol.clone();
    u.append("://");
    u.append(config.uuid.as_str());
    u.append("@");
    u.append(new_ip);
    u.append(":");
    push_dec_u16(&mut u, config.port);
    let ghost head = config.protocol@ + seq![':', '/', '/'] + config.uuid@ + seq!['@'] + new_ip@
        + seq![':'] + dec_str(config.port as nat);
    proof {
        assert(u@ =~= head);
    }
    if config.params.len() > 0 {
        u.append("?");
        let mut i: usize = 0;
        proof {
            assert(config.params.deep_view().take(0) =~= Seq::<(Seq<char>, Seq<char>)>::empty());
            assert(u@ =~= head + seq!['?'] + query_text(config.params.deep_view().take(0)));
        }
        while i < config.params.len()
            invariant
                i <= config.params@.len(),
                u@ == head + seq!['?'] + query_text(config.params.deep_view().take(i as int)),
            decreases config.params@.len() - i,
        {
            if i > 0 {
                u.append("&");
            }
            u.append(config.params[i].0.as_str());
            u.append("=");
            let enc = form_urlencode(config.params[i].1.as_str());
            u.append(enc.as_str());
            proof {
                reveal_strlit("&");
                reveal_strlit("=");
                let ps = config.params.deep_view();
                assert(ps[i as int] == (config.params@[i as int].0@, config.params@[i as int].1@));
                assert(ps.take(i + 1 as int).drop_last() =~= ps.take(i as int));
                assert(ps.take(i + 1 as int).last() == ps[i as int]);
                if i == 0 {
                    assert(query_text(ps.take(1)) == pair_text(ps[0]));
                    assert(u@ =~= head + seq!['?'] + query_text(ps.take(1)));
                } else {
                    assert(u@ =~= head + seq!['?'] + query_text(ps.take(i + 1 as int)));
                }
            }
            i += 1;
        }
        proof {
            assert(config.params.deep_view().take(config.params@.len() as int)
                =~= config.params.deep_view());
        }
    }
    if !config.fragment.as_str().is_empty() {
        u.append("#");
        u.append(config.fragment.as_str());
    }
    proof {
        assert(u@ =~= link_text(*config, new_ip@));
    }
    u
}

/// How many rewritten links the output keeps at most.
pub const TOP_LINK_COUNT: usize = 10;

/// Rewrite the descriptor once per surviving outcome, keeping only the
/// `limit` lowest-latency entries of an already ranked sequence. Each entry
/// pairs the rewritten link text with the measured latency it owes its rank
/// to, in the order the ranking gave.
pub fn generate_top_links(
    config: &NodeConfig,
    ranked: &Vec<crate::probe::Outcome>,
    limit: usize,
) -> (r: Vec<(String, u64)>)
    ensures
        r@.len() == if limit <= ranked@.len() {
            limit as int
        } else {
            ranked@.len() as int
        },
        forall|i: int|
            0 <= i < r@.len() ==> (#[trigger] r@[i]).0@ == link_text(*config, ranked@[i].ip@)
                && r@[i].1 == ranked@[i].latency_ms,
        crate::probe::sorted_by_latency(ranked@) ==> forall|i: int|
            0 <= i < r@.len() - 1 ==> (#[trigger] r@[i]).1 <= r@[i + 1].1,
{
    let count = if limit <= ranked.len() {
        limit
    } else {
        ranked.len()
    };
    let mut r: Vec<(String, u64)> = Vec::new();
    let mut i: usize = 0;
    while i < count
        invariant
            i <= count,
            count <= ranked@.len(),
            r@.len() == i,
            forall|t: int|
                0 <= t < i ==> (#[trigger] r@[t]).0@ == link_text(*config, ranked@[t].ip@)
                    && r@[t].1 == ranked@[t].latency_ms,
        decreases count - i,
    {
        let link = generate_node_link(config, ranked[i].ip.as_str());
        r.push((link, ranked[i].latency_ms));
        i += 1;
    }
    r
}

} // verus!
