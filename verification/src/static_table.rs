//! The frozen static table of RFC 7541 Appendix A: 61 entries,
//! addressed by combined indices 1 through 61.

use vstd::prelude::*;
use vstd::string::*;
use crate::header::Header;

verus! {

/// How many entries the static table holds.
pub const STATIC_TABLE_LEN: usize = 61;

/// The view of a header sequence: each entry as its (name, value) pair.
pub open spec fn headers_view(s: Seq<Header>) -> Seq<(Seq<u8>, Seq<u8>)> {
    s.map_values(|h: Header| h@)
}

/// The static table's 61 (name, value) pairs, most common headers first.
/// Kept opaque: proofs touch it only through `lemma_static_table_len` and
/// the reveals below, so that ordinary queries never unfold the literal.
#[verifier::opaque]
pub open spec fn spec_static_table() -> Seq<(Seq<u8>, Seq<u8>)> {
    seq![
        (":authority".spec_bytes(), "".spec_bytes()),
        (":method".spec_bytes(), "GET".spec_bytes()),
        (":method".spec_bytes(), "POST".spec_bytes()),
        (":path".spec_bytes(), "/".spec_bytes()),
        (":path".spec_bytes(), "/index.html".spec_bytes()),
        (":scheme".spec_bytes(), "http".spec_bytes()),
        (":scheme".spec_bytes(), "https".spec_bytes()),
        (":status".spec_bytes(), "200".spec_bytes()),
        (":status".spec_bytes(), "204".spec_bytes()),
        (":status".spec_bytes(), "206".spec_bytes()),
        (":status".spec_bytes(), "304".spec_bytes()),
        (":status".spec_bytes(), "400".spec_bytes()),
        (":status".spec_bytes(), "404".spec_bytes()),
        (":status".spec_bytes(), "500".spec_bytes()),
        ("accept-charset".spec_bytes(), "".spec_bytes()),
        ("accept-encoding".spec_bytes(), "gzip, deflate".spec_bytes()),
        ("accept-language".spec_bytes(), "".spec_bytes()),
        ("accept-ranges".spec_bytes(), "".spec_bytes()),
        ("accept".spec_bytes(), "".spec_bytes()),
        ("access-control-allow-origin".spec_bytes(), "".spec_bytes()),
        ("age".spec_bytes(), "".spec_bytes()),
        ("allow".spec_bytes(), "".spec_bytes()),
        ("authorization".spec_bytes(), "".spec_bytes()),
        ("cache-control".spec_bytes(), "".spec_bytes()),
        ("content-disposition".spec_bytes(), "".spec_bytes()),
        ("content-encoding".spec_bytes(), "".spec_bytes()),
        ("content-language".spec_bytes(), "".spec_bytes()),
        ("content-length".spec_bytes(), "".spec_bytes()),
        ("content-location".spec_bytes(), "".spec_bytes()),
        ("content-range".spec_bytes(), "".spec_bytes()),
        ("content-type".spec_bytes(), "".spec_bytes()),
        ("cookie".spec_bytes(), "".spec_bytes()),
        ("date".spec_bytes(), "".spec_bytes()),
        ("etag".spec_bytes(), "".spec_bytes()),
        ("expect".spec_bytes(), "".spec_bytes()),
        ("expires".spec_bytes(), "".spec_bytes()),
        ("from".spec_bytes(), "".spec_bytes()),
        ("host".spec_bytes(), "".spec_bytes()),
        ("if-match".spec_bytes(), "".spec_bytes()),
        ("if-modified-since".spec_bytes(), "".spec_bytes()),
        ("if-none-match".spec_bytes(), "".spec_bytes()),
        ("if-range".spec_bytes(), "".spec_bytes()),
        ("if-unmodified-since".spec_bytes(), "".spec_bytes()),
        ("last-modified".spec_bytes(), "".spec_bytes()),
        ("link".spec_bytes(), "".spec_bytes()),
        ("location".spec_bytes(), "".spec_bytes()),
        ("max-forwards".spec_bytes(), "".spec_bytes()),
        ("proxy-authenticate".spec_bytes(), "".spec_bytes()),
        ("proxy-authorization".spec_bytes(), "".spec_bytes()),
        ("range".spec_bytes(), "".spec_bytes()),
        ("referer".spec_bytes(), "".spec_bytes()),
        ("refresh".spec_bytes(), "".spec_bytes()),
        ("retry-after".spec_bytes(), "".spec_bytes()),
        ("server".spec_bytes(), "".spec_bytes()),
        ("set-cookie".spec_bytes(), "".spec_bytes()),
        ("strict-transport-security".spec_bytes(), "".spec_bytes()),
        ("transfer-encoding".spec_bytes(), "".spec_bytes()),
        ("user-agent".spec_bytes(), "".spec_bytes()),
        ("vary".spec_bytes(), "".spec_bytes()),
        ("via".spec_bytes(), "".spec_bytes()),
        ("www-authenticate".spec_bytes(), "".spec_bytes()),
    ]
}

/// Appends one entry, given as string literals, to a table under construction.
fn push_entry(t: &mut Vec<Header>, name: &str, value: &str)
    ensures
        headers_view(final(t)@) == headers_view(old(t)@).push(
            (name.spec_bytes(), value.spec_bytes()),
        ),
{
    let h = Header { name: name.as_bytes_vec(), value: value.as_bytes_vec() };
    t.push(h);
    proof {
        assert(headers_view(t@) =~= headers_view(old(t)@).push(
            (name.spec_bytes(), value.spec_bytes()),
        ));
    }
}

/// Builds the static table as owned headers, exactly the 61 entries of
/// `spec_static_table`.
#[verifier::rlimit(50)]
pub fn build_static_table() -> (t: Vec<Header>)
    ensures
        headers_view(t@) == spec_static_table(),
{
    let mut t: Vec<Header> = Vec::new();
    push_entry(&mut t, ":authority", "");
    push_entry(&mut t, ":method", "GET");
    push_entry(&mut t, ":method", "POST");
    push_entry(&mut t, ":path", "/");
    push_entry(&mut t, ":path", "/index.html");
    push_entry(&mut t, ":scheme", "http");
    push_entry(&mut t, ":scheme", "https");
    push_entry(&mut t, ":status", "200");
    push_entry(&mut t, ":status", "204");
    push_entry(&mut t, ":status", "206");
    push_entry(&mut t, ":status", "304");
    push_entry(&mut t, ":status", "400");
    push_entry(&mut t, ":status", "404");
    push_entry(&mut t, ":status", "500");
    push_entry(&mut t, "accept-charset", "");
    push_entry(&mut t, "accept-encoding", "gzip, deflate");
    push_entry(&mut t, "accept-language", "");
    push_entry(&mut t, "accept-ranges", "");
    push_entry(&mut t, "accept", "");
    push_entry(&mut t, "access-control-allow-origin", "");
    push_entry(&mut t, "age", "");
    push_entry(&mut t, "allow", "");
    push_entry(&mut t, "authorization", "");
    push_entry(&mut t, "cache-control", "");
    push_entry(&mut t, "content-disposition", "");
    push_entry(&mut t, "content-encoding", "");
    push_entry(&mut t, "content-language", "");
    push_entry(&mut t, "content-length", "");
    push_entry(&mut t, "content-location", "");
    push_entry(&mut t, "content-range", "");
    push_entry(&mut t, "content-type", "");
    push_entry(&mut t, "cookie", "");
    push_entry(&mut t, "date", "");
    push_entry(&mut t, "etag", "");
    push_entry(&mut t, "expect", "");
    push_entry(&mut t, "expires", "");
    push_entry(&mut t, "from", "");
    push_entry(&mut t, "host", "");
    push_entry(&mut t, "if-match", "");
    push_entry(&mut t, "if-modified-since", "");
    push_entry(&mut t, "if-none-match", "");
    push_entry(&mut t, "if-range", "");
    push_entry(&mut t, "if-unmodified-since", "");
    push_entry(&mut t, "last-modified", "");
    push_entry(&mut t, "link", "");
    push_entry(&mut t, "location", "");
    push_entry(&mut t, "max-forwards", "");
    push_entry(&mut t, "proxy-authenticate", "");
    push_entry(&mut t, "proxy-authorization", "");
    push_entry(&mut t, "range", "");
    push_entry(&mut t, "referer", "");
    push_entry(&mut t, "refresh", "");
    push_entry(&mut t, "retry-after", "");
    push_entry(&mut t, "server", "");
    push_entry(&mut t, "set-cookie", "");
    push_entry(&mut t, "strict-transport-security", "");
    push_entry(&mut t, "transfer-encoding", "");
    push_entry(&mut t, "user-agent", "");
    push_entry(&mut t, "vary", "");
    push_entry(&mut t, "via", "");
    push_entry(&mut t, "www-authenticate", "");
    proof {
        reveal(spec_static_table);
        assert(headers_view(t@) =~= spec_static_table());
    }
    t
}

/// The static table holds exactly 61 entries.
pub proof fn lemma_static_table_len()
    ensures
        spec_static_table().len() == 61,
{
    reveal(spec_static_table);
}

} // verus!
