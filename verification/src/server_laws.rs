//! Laws of authentication: base64 is decoded as it was encoded, exactly the
//! shared secret lets a request pass, and no other request is served. Laws of
//! links: a request for the link of a path is a request for that path.
use vstd::prelude::*;
use vstd::utf8::*;
use crate::config::{configured, variable, Config};
use crate::dav::text_response;
use crate::http_client::MethodView;
use crate::server::{
    base64_bytes, first_text, is_filler, may_pass, path_portion, requested_path, routed, sextet,
    sextets, unpacked, RequestHeaders, RouteView,
};
use crate::text::{first_pos, lemma_first_pos};
use crate::xml::{decoded_or_raw, is_plain, law_pct_round_trip, pct_byte, pct_bytes};

verus! {

/// The character of the standard base64 alphabet with the given value.
pub open spec fn base64_char(v: int) -> char {
    if v < 26 {
        (65 + v) as char
    } else if v < 52 {
        (71 + v) as char
    } else if v < 62 {
        (v - 4) as char
    } else if v == 62 {
        '+'
    } else {
        '/'
    }
}

/// The sextets of bytes: four for three bytes, and as many as needed for the
/// rest.
pub open spec fn packed(bytes: Seq<u8>) -> Seq<int>
    decreases bytes.len(),
{
    if bytes.len() == 0 {
        Seq::empty()
    } else if bytes.len() == 1 {
        seq![bytes[0] as int / 4, bytes[0] as int % 4 * 16]
    } else if bytes.len() == 2 {
        seq![
            bytes[0] as int / 4,
            bytes[0] as int % 4 * 16 + bytes[1] as int / 16,
            bytes[1] as int % 16 * 4,
        ]
    } else {
        seq![
            bytes[0] as int / 4,
            bytes[0] as int % 4 * 16 + bytes[1] as int / 16,
            bytes[1] as int % 16 * 4 + bytes[2] as int / 64,
            bytes[2] as int % 64,
        ] + packed(bytes.skip(3))
    }
}

/// The padding of an encoded text.
pub open spec fn padding(len: nat) -> Seq<char> {
    if len % 3 == 1 {
        seq!['=', '=']
    } else if len % 3 == 2 {
        seq!['=']
    } else {
        Seq::empty()
    }
}

/// The base64 text of bytes, with padding.
pub open spec fn base64_text(bytes: Seq<u8>) -> Seq<char> {
    packed(bytes).map_values(|v: int| base64_char(v)) + padding(bytes.len())
}

proof fn lemma_packed_small(bytes: Seq<u8>)
    ensures
        forall|i: int| 0 <= i < packed(bytes).len() ==> 0 <= #[trigger] packed(bytes)[i] < 64,
    decreases bytes.len(),
{
    if bytes.len() >= 3 {
        let rest = packed(bytes.skip(3));
        lemma_packed_small(bytes.skip(3));
        assert forall|i: int| 0 <= i < packed(bytes).len() implies 0 <= #[trigger] packed(bytes)[i]
            < 64 by {
            if i >= 4 {
                assert(packed(bytes)[i] == rest[i - 4]);
            }
        }
    }
}

proof fn lemma_unpack_packed(bytes: Seq<u8>)
    ensures
        unpacked(packed(bytes)) == bytes,
    decreases bytes.len(),
{
    let v = packed(bytes);
    if bytes.len() == 0 {
        assert(bytes =~= Seq::empty());
    } else if bytes.len() < 3 {
        assert(unpacked(v) =~= bytes);
    } else {
        let rest = bytes.skip(3);
        lemma_unpack_packed(rest);
        assert(v.skip(4) =~= packed(rest));
        assert(v.len() >= 4);
        assert(unpacked(v) =~= bytes);
    }
}

proof fn lemma_char_value(v: int)
    requires
        0 <= v < 64,
    ensures
        (base64_char(v) as int) < 128,
        sextet(base64_char(v) as u8) == Some(v),
        !is_filler(base64_char(v) as u8),
{
}

/// The characters as bytes.
spec fn narrow(cs: Seq<char>) -> Seq<u8> {
    cs.map_values(|c: char| c as u8)
}

proof fn lemma_sextets_of(v: Seq<int>)
    requires
        forall|i: int| 0 <= i < v.len() ==> 0 <= #[trigger] v[i] < 64,
    ensures
        sextets(narrow(v.map_values(|x: int| base64_char(x)))) == Some(v),
    decreases v.len(),
{
    let f = |x: int| base64_char(x);
    let e = narrow(v.map_values(f));
    if v.len() == 0 {
        assert(v =~= Seq::empty());
    } else {
        let up = v.drop_last();
        assert forall|i: int| 0 <= i < up.len() implies 0 <= #[trigger] up[i] < 64 by {
            assert(up[i] == v[i]);
        }
        lemma_sextets_of(up);
        assert(0 <= v[v.len() - 1] < 64);
        lemma_char_value(v.last());
        assert(e.drop_last() =~= narrow(up.map_values(f)));
        assert(up.push(v.last()) =~= v);
    }
}

/// Fillers at the end change nothing.
proof fn lemma_sextets_filled(bytes: Seq<u8>, fill: Seq<u8>)
    requires
        forall|i: int| 0 <= i < fill.len() ==> is_filler(#[trigger] fill[i]),
    ensures
        sextets(bytes + fill) == sextets(bytes),
    decreases fill.len(),
{
    if fill.len() == 0 {
        assert(bytes + fill =~= bytes);
    } else {
        let up = fill.drop_last();
        assert forall|i: int| 0 <= i < up.len() implies is_filler(#[trigger] up[i]) by {
            assert(up[i] == fill[i]);
        }
        lemma_sextets_filled(bytes, up);
        assert((bytes + fill).drop_last() =~= bytes + up);
        assert(is_filler(fill[fill.len() - 1]));
    }
}

/// Decoding undoes encoding.
pub proof fn law_base64_round_trip(bytes: Seq<u8>)
    ensures
        base64_bytes(base64_text(bytes)) == Some(bytes),
{
    let v = packed(bytes);
    let f = |x: int| base64_char(x);
    let t = base64_text(bytes);
    let p = padding(bytes.len());
    lemma_packed_small(bytes);
    assert(is_ascii_chars(t)) by {
        assert forall|i: int| 0 <= i < t.len() implies '\0' <= #[trigger] t[i] <= '\u{7f}' by {
            if i < v.len() {
                assert(0 <= v[i] < 64);
                lemma_char_value(v[i]);
                assert(t[i] == base64_char(v[i]));
            } else {
                assert(t[i] == p[i - v.len()]);
            }
        }
    }
    is_ascii_chars_encode_utf8(t);
    assert(encode_utf8(t) =~= narrow(t)) by {
        assert forall|i: int| 0 <= i < t.len() implies encode_utf8(t)[i] == narrow(t)[i] by {
            assert(t[i] as u8 == encode_utf8(t)[i]);
        }
    }
    assert(narrow(t) =~= narrow(v.map_values(f)) + narrow(p));
    lemma_sextets_of(v);
    assert forall|i: int| 0 <= i < narrow(p).len() implies is_filler(#[trigger] narrow(p)[i]) by {
        assert(p[i] == '=');
    }
    lemma_sextets_filled(narrow(v.map_values(f)), narrow(p));
    lemma_unpack_packed(bytes);
}

/// The `Authorization` value for a user and a password.
pub open spec fn basic_value(user: Seq<char>, password: Seq<char>) -> Seq<char> {
    "Basic "@ + base64_text(encode_utf8(user.push(':') + password))
}

/// With a secret configured, a request with a user name and a password passes
/// if and only if the password is the secret, whatever the user name; without
/// credentials no request passes.
pub proof fn law_only_the_secret_passes(secret: Seq<char>, user: Seq<char>, password: Seq<char>)
    requires
        !user.contains(':'),
    ensures
        may_pass(Some(secret), Some(basic_value(user, password))) <==> password == secret,
        !may_pass(Some(secret), None),
{
    let both = user.push(':') + password;
    let bytes = encode_utf8(both);
    let raw = basic_value(user, password);
    let text = base64_text(bytes);
    let n = "Basic "@.len() as int;
    assert("Basic "@.is_prefix_of(raw)) by {
        assert(raw.take(n) =~= "Basic "@);
    }
    assert(raw.skip(n) =~= text);
    law_base64_round_trip(bytes);
    encode_utf8_valid_utf8(both);
    encode_utf8_decode_utf8(both);
    lemma_first_pos(both, ':');
    let i = user.len() as int;
    assert(both[i] == ':');
    assert forall|j: int| 0 <= j < i implies both[j] != ':' by {
        assert(both[j] == user[j]);
        assert(user.contains(user[j]));
    }
    let k = first_pos(both, ':')->0;
    assert(first_pos(both, ':') is Some);
    assert(k == i) by {
        if k < i {
            assert(both[k] != ':');
        }
    }
    assert(both.skip(i + 1) =~= password);
}

/// Whether the byte may stand in a base64 text: a letter, a digit, `+` or `/`,
/// padding, or whitespace.
pub open spec fn may_stand_in_base64(b: u8) -> bool {
    65 <= b <= 90 || 97 <= b <= 122 || 48 <= b <= 57 || b == 43 || b == 47 || b == 61 || b == 32 || b
        == 9 || b == 10 || b == 12 || b == 13
}

proof fn lemma_foreign_byte(bytes: Seq<u8>)
    ensures
        sextets(bytes) is Some <==> forall|i: int|
            0 <= i < bytes.len() ==> may_stand_in_base64(#[trigger] bytes[i]),
    decreases bytes.len(),
{
    if bytes.len() > 0 {
        let up = bytes.drop_last();
        lemma_foreign_byte(up);
        if sextets(bytes) is Some {
            assert forall|i: int| 0 <= i < bytes.len() implies may_stand_in_base64(
                #[trigger] bytes[i],
            ) by {
                if i < up.len() {
                    assert(up[i] == bytes[i]);
                }
            }
        }
        if forall|i: int| 0 <= i < bytes.len() ==> may_stand_in_base64(#[trigger] bytes[i]) {
            assert forall|i: int| 0 <= i < up.len() implies may_stand_in_base64(
                #[trigger] up[i],
            ) by {
                assert(up[i] == bytes[i]);
            }
            assert(may_stand_in_base64(bytes[bytes.len() - 1]));
        }
    }
}

/// With a secret configured, credentials of another scheme, in a text that is no
/// base64, or without a colon in them do not pass.
pub proof fn law_bad_credentials_do_not_pass(secret: Seq<char>, raw: Seq<char>, t: Seq<char>)
    ensures
        !"Basic "@.is_prefix_of(raw) ==> !may_pass(Some(secret), Some(raw)),
        (exists|i: int|
            0 <= i < encode_utf8(t).len() && !may_stand_in_base64(#[trigger] encode_utf8(t)[i]))
            ==> !may_pass(Some(secret), Some("Basic "@ + t)),
        !t.contains(':') ==> !may_pass(Some(secret), Some("Basic "@ + base64_text(encode_utf8(t)))),
{
    let n = "Basic "@.len() as int;
    assert(("Basic "@ + t).skip(n) =~= t);
    lemma_foreign_byte(encode_utf8(t));
    let code = base64_text(encode_utf8(t));
    assert(("Basic "@ + code).skip(n) =~= code);
    law_base64_round_trip(encode_utf8(t));
    encode_utf8_decode_utf8(t);
    lemma_first_pos(t, ':');
    if let Some(i) = first_pos(t, ':') {
        assert(t.contains(t[i]));
    }
}

/// Whatever a request asks for, it is answered with a refusal, and nothing is
/// done about it, if it does not show the secret or if there is no valid
/// configuration.
pub proof fn law_refused_request_is_answered(
    config: Result<Config, String>,
    method: MethodView,
    target: Option<Seq<char>>,
    headers: RequestHeaders,
)
    ensures
        config matches Err(e) ==> routed(config, method, target, headers) == RouteView::Respond(
            text_response(500, "config error: "@ + e@),
        ),
        config matches Ok(c) ==> (!may_pass(
            c@.basic_auth_secret,
            first_text(headers.authorization@),
        ) ==> routed(config, method, target, headers) == RouteView::Respond(
            text_response(401, "unauthorized"@),
        )),
{
}

/// Fails closed: unless the operator opts out of authentication, a request
/// without credentials is refused, whatever else is configured.
pub proof fn law_no_service_without_secret(
    vars: Seq<(Seq<char>, Seq<char>)>,
    dirs: Seq<Seq<char>>,
    config: Result<Config, String>,
    method: MethodView,
    target: Option<Seq<char>>,
    headers: RequestHeaders,
)
    requires
        match config {
            Ok(c) => configured(vars, dirs) matches Ok(v) && v == c@,
            Err(e) => configured(vars, dirs) matches Err(m) && m == e@,
        },
        variable(vars, "ONEDRIVE_ALLOW_UNAUTHENTICATED"@) != Some("1"@),
        headers.authorization@.len() == 0,
    ensures
        routed(config, method, target, headers) matches RouteView::Respond(r) && (r.status == 500
            || r.status == 401),
{
}

/// A bare path is its own path portion, whatever it holds.
pub proof fn law_bare_path_is_kept(raw: Seq<char>)
    requires
        raw.len() > 0,
        raw[0] == '/',
    ensures
        path_portion(raw) == raw,
{
    lemma_first_pos(raw, '/');
}

/// The link of a path holds nothing that starts a query, and begins as the path
/// does.
proof fn lemma_link(bytes: Seq<u8>)
    ensures
        forall|i: int| 0 <= i < pct_bytes(bytes).len() ==> #[trigger] pct_bytes(bytes)[i] != '?',
        bytes.len() > 0 && bytes[0] == 47 ==> pct_bytes(bytes).len() > 0 && pct_bytes(bytes)[0]
            == '/',
    decreases bytes.len(),
{
    if bytes.len() > 0 {
        let up = bytes.drop_last();
        let b = bytes.last();
        lemma_link(up);
        let p = pct_bytes(bytes);
        let q = pct_bytes(up);
        assert forall|i: int| 0 <= i < p.len() implies #[trigger] p[i] != '?' by {
            if i < q.len() {
                assert(p[i] == q[i]);
            } else if is_plain(b) {
                assert(p[i] == b as char);
            } else {
                assert(p[i] == pct_byte(b)[i - q.len()]);
            }
        }
        if bytes[0] == 47 {
            if up.len() > 0 {
                assert(p[0] == q[0]);
            } else {
                assert(is_plain(b) && p[0] == b as char);
            }
        }
    }
}

/// The URL of a path on a host.
pub open spec fn url_of(scheme: Seq<char>, host: Seq<char>, path: Seq<char>) -> Seq<char> {
    scheme + "://"@ + host + pct_bytes(encode_utf8(path))
}

/// A request for the link of a path is a request for that path, with or without
/// a query, and a `MOVE` to its URL is a move to that path.
pub proof fn law_link_names_its_path(
    path: Seq<char>,
    scheme: Seq<char>,
    host: Seq<char>,
    query: Seq<char>,
)
    requires
        path.len() > 0,
        path[0] == '/',
        !scheme.contains('/'),
        !host.contains('/'),
    ensures
        requested_path(Some(pct_bytes(encode_utf8(path)))) == path,
        requested_path(Some(pct_bytes(encode_utf8(path)).push('?') + query)) == path,
        decoded_or_raw(path_portion(url_of(scheme, host, path))) == path,
        decoded_or_raw(path_portion(pct_bytes(encode_utf8(path)))) == path,
{
    let link = pct_bytes(encode_utf8(path));
    law_pct_round_trip(path);
    assert(encode_utf8(path)[0] == 47) by {
        assert(47u32 & 0x7F == 47) by (bit_vector);
    }
    lemma_link(encode_utf8(path));
    lemma_first_pos(link, '?');
    let long = link.push('?') + query;
    lemma_first_pos(long, '?');
    let k = link.len() as int;
    assert(long[k] == '?');
    assert forall|j: int| 0 <= j < k implies long[j] != '?' by {
        assert(long[j] == link[j]);
    }
    assert(first_pos(long, '?') == Some(k));
    assert(long.take(k) =~= link);
    law_bare_path_is_kept(link);
    reveal_strlit("://");
    let raw = url_of(scheme, host, path);
    let i = scheme.len() as int + 1;
    lemma_first_pos(raw, '/');
    assert(raw[i - 1] == "://"@[0] && raw[i] == "://"@[1] && raw[i + 1] == "://"@[2]);
    assert forall|j: int| 0 <= j < i implies raw[j] != '/' by {
        if j < i - 1 {
            assert(raw[j] == scheme[j]);
            assert(scheme.contains(scheme[j]));
        }
    }
    assert(first_pos(raw, '/') == Some(i));
    let rest = raw.skip(i + 2);
    assert(rest =~= host + link);
    let h = host.len() as int;
    lemma_first_pos(rest, '/');
    assert(rest[h] == link[0]);
    assert forall|j: int| 0 <= j < h implies rest[j] != '/' by {
        assert(rest[j] == host[j]);
        assert(host.contains(host[j]));
    }
    assert(first_pos(rest, '/') == Some(h));
    assert(rest.skip(h) =~= link);
}

} // verus!
