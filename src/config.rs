//! Service configuration.
use vstd::prelude::*;
use vstd::string::*;

verus! {

pub const DEFAULT_PORT: u16 = 8080;

/// Address the service listens on.
#[derive(Clone, Debug)]
pub struct ServerConfig {
    pub host: String,
    pub port: u16,
}

/// Where the store is.
#[derive(Clone, Debug)]
pub struct DatabaseConfig {
    pub url: String,
}

#[derive(Clone, Debug)]
pub struct AppConfig {
    pub server: ServerConfig,
    pub database: DatabaseConfig,
}

/// Value of the decimal digits `s`.
pub open spec fn digits_value(s: Seq<char>) -> int
    decreases s.len(),
{
    if s.len() == 0 {
        0
    } else {
        digits_value(s.drop_last()) * 10 + (s.last() as int - '0' as int)
    }
}

/// Whether every character of `s` is an ASCII digit.
pub open spec fn all_digits(s: Seq<char>) -> bool {
    forall|i: int| 0 <= i < s.len() ==> '0' <= #[trigger] s[i] <= '9'
}

/// The port that the text `s` gives: one or more ASCII digits, with an
/// optional leading `+`, of value at most 65535.
pub open spec fn port_of(s: Seq<char>) -> Option<u16> {
    let d = if s.len() > 0 && s[0] == '+' {
        s.drop_first()
    } else {
        s
    };
    if d.len() > 0 && all_digits(d) && digits_value(d) <= u16::MAX {
        Some(digits_value(d) as u16)
    } else {
        None
    }
}

proof fn lemma_digits_value_mono(s: Seq<char>)
    requires
        all_digits(s),
    ensures
        digits_value(s) >= 0,
        s.len() > 0 ==> digits_value(s) >= digits_value(s.drop_last()),
    decreases s.len(),
{
    if s.len() > 0 {
        assert(all_digits(s.drop_last())) by {
            assert forall|i: int| 0 <= i < s.drop_last().len() implies '0' <= #[trigger] s.drop_last()[i] <= '9' by {
                assert(s.drop_last()[i] == s[i]);
            }
        }
        lemma_digits_value_mono(s.drop_last());
        assert('0' <= s[s.len() - 1] <= '9');
    }
}

proof fn lemma_digits_prefix_bound(s: Seq<char>, k: int)
    requires
        all_digits(s),
        0 <= k <= s.len(),
    ensures
        0 <= digits_value(s.subrange(0, k)) <= digits_value(s),
    decreases s.len() - k,
{
    assert(all_digits(s.subrange(0, k))) by {
        assert forall|i: int| 0 <= i < s.subrange(0, k).len() implies '0' <= #[trigger] s.subrange(0, k)[i] <= '9' by {
            assert(s.subrange(0, k)[i] == s[i]);
        }
    }
    lemma_digits_value_mono(s.subrange(0, k));
    if k < s.len() {
        lemma_digits_prefix_bound(s, k + 1);
        assert(s.subrange(0, k + 1).drop_last() =~= s.subrange(0, k));
        assert(all_digits(s.subrange(0, k + 1))) by {
            assert forall|i: int| 0 <= i < s.subrange(0, k + 1).len() implies '0' <= #[trigger] s.subrange(0, k + 1)[i] <= '9' by {
                assert(s.subrange(0, k + 1)[i] == s[i]);
            }
        }
        lemma_digits_value_mono(s.subrange(0, k + 1));
    } else {
        assert(s.subrange(0, k) =~= s);
    }
}

/// Reads a port number: one or more ASCII digits, with an optional leading
/// `+`, of value at most 65535.
pub fn parse_port(s: &str) -> (r: Option<u16>)
    ensures
        r == port_of(s@),
{
    let n = s.unicode_len();
    let start: usize = if n > 0 && s.get_char(0) == '+' {
        1
    } else {
        0
    };
    let ghost d = s@.subrange(start as int, n as int);
    assert(d =~= if s@.len() > 0 && s@[0] == '+' { s@.drop_first() } else { s@ });
    if start == n {
        return None;
    }
    let mut value: u32 = 0;
    let mut i: usize = start;
    assert(d.subrange(0, 0) =~= Seq::<char>::empty());
    while i < n
        invariant
            n == s@.len(),
            start <= i <= n,
            d == s@.subrange(start as int, n as int),
            d == if s@.len() > 0 && s@[0] == '+' {
                s@.drop_first()
            } else {
                s@
            },
            all_digits(d.subrange(0, i - start)),
            value == digits_value(d.subrange(0, i - start)),
            value <= u16::MAX,
        decreases n - i,
    {
        let c = s.get_char(i);
        let ghost pre = d.subrange(0, i - start);
        let ghost next = d.subrange(0, i + 1 - start);
        assert(next.drop_last() =~= pre);
        assert(next.last() == c);
        if c < '0' || c > '9' {
            assert(!all_digits(d)) by {
                assert(d[i - start] == c);
            }
            return None;
        }
        let digit = (c as u32) - ('0' as u32);
        let updated = value * 10 + digit;
        assert(all_digits(next)) by {
            assert forall|t: int| 0 <= t < next.len() implies '0' <= #[trigger] next[t] <= '9' by {
                if t < pre.len() {
                    assert(next[t] == pre[t]);
                }
            }
        }
        assert(updated == digits_value(next));
        if updated > 65535 {
            proof {
                if all_digits(d) {
                    lemma_digits_prefix_bound(d, i + 1 - start);
                }
            }
            return None;
        }
        value = updated;
        i = i + 1;
    }
    assert(d.subrange(0, n - start) =~= d);
    Some(value as u16)
}

impl AppConfig {
    /// The configuration from the three settings, each possibly absent: the
    /// host defaults to `127.0.0.1`, a port that is absent or not a valid
    /// port number to 8080, the store URL to `postgres://localhost/tax_redflush`.
    pub fn from_values(host: Option<String>, port: Option<String>, url: Option<String>) -> (r: AppConfig)
        ensures
            host is Some ==> r.server.host@ == host.unwrap()@,
            host is None ==> r.server.host@ == "127.0.0.1"@,
            port is Some && port_of(port.unwrap()@) is Some ==> r.server.port == port_of(port.unwrap()@).unwrap(),
            (port is None || port_of(port.unwrap()@) is None) ==> r.server.port == DEFAULT_PORT,
            url is Some ==> r.database.url@ == url.unwrap()@,
            url is None ==> r.database.url@ == "postgres://localhost/tax_redflush"@,
    {
        let host = match host {
            Some(h) => h,
            None => String::from_str("127.0.0.1"),
        };
        let port = match port {
            Some(p) => match parse_port(p.as_str()) {
                Some(v) => v,
                None => DEFAULT_PORT,
            },
            None => DEFAULT_PORT,
        };
        let url = match url {
            Some(u) => u,
            None => String::from_str("postgres://localhost/tax_redflush"),
        };
        AppConfig { server: ServerConfig { host, port }, database: DatabaseConfig { url } }
    }
}

impl Default for AppConfig {
    /// Listens on `127.0.0.1:8080` and reads `postgres://localhost/tax_redflush`.
    fn default() -> (r: AppConfig)
        ensures
            r.server.host@ == "127.0.0.1"@,
            r.server.port == DEFAULT_PORT,
            r.database.url@ == "postgres://localhost/tax_redflush"@,
    {
        AppConfig::from_values(None, None, None)
    }
}

} // verus!
