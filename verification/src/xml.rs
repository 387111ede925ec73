//! WebDAV XML helpers: `multistatus` response building plus the small
//! utilities that `PROPFIND` needs to get exactly right, since davfs2 is
//! picky:
//!   - `getlastmodified` must be an IMF-fixdate
//!     (`"Mon, 12 Jan 2026 08:30:00 GMT"`), or davfs2 treats the entry as
//!     perpetually stale.
//!   - `resourcetype` must be `<D:collection/>` for folders and empty for
//!     files, or davfs2 tries to read a directory.
use vstd::prelude::*;
use vstd::string::*;
use vstd::utf8::*;
use crate::calendar::{civil_from_days, date_of, day_number, is_date};
use crate::text::{
    chars_of, contains_text, decimal, decimal2, decimal2_text, decimal_text, join_texts, join_with,
    text_from_utf8, texts,
};

verus! {

/// One item to render as a `<D:response>` entry.
#[derive(Debug)]
pub struct DavEntry {
    /// Path relative to the WebDAV root, percent-decoded.
    pub href: String,
    pub is_dir: bool,
    pub size: u64,
    /// Unix seconds.
    pub last_modified: u64,
    /// Opaque entity tag.
    pub etag: String,
}

/// What a [`DavEntry`] stands for.
pub struct EntryView {
    pub href: Seq<char>,
    pub is_dir: bool,
    pub size: u64,
    pub last_modified: u64,
    pub etag: Seq<char>,
}

impl View for DavEntry {
    type V = EntryView;

    open spec fn view(&self) -> EntryView {
        EntryView {
            href: self.href@,
            is_dir: self.is_dir,
            size: self.size,
            last_modified: self.last_modified,
            etag: self.etag@,
        }
    }
}

/// What a list of [`DavEntry`] stands for.
pub open spec fn entry_views(v: Seq<DavEntry>) -> Seq<EntryView> {
    v.map_values(|e: DavEntry| e@)
}

/// Abbreviated name of a day of the week; Sunday is zero.
pub open spec fn weekday_name(w: int) -> Seq<char> {
    if w == 0 {
        "Sun"@
    } else if w == 1 {
        "Mon"@
    } else if w == 2 {
        "Tue"@
    } else if w == 3 {
        "Wed"@
    } else if w == 4 {
        "Thu"@
    } else if w == 5 {
        "Fri"@
    } else {
        "Sat"@
    }
}

/// Abbreviated name of a month; January is one.
pub open spec fn month_name(m: int) -> Seq<char> {
    if m == 1 {
        "Jan"@
    } else if m == 2 {
        "Feb"@
    } else if m == 3 {
        "Mar"@
    } else if m == 4 {
        "Apr"@
    } else if m == 5 {
        "May"@
    } else if m == 6 {
        "Jun"@
    } else if m == 7 {
        "Jul"@
    } else if m == 8 {
        "Aug"@
    } else if m == 9 {
        "Sep"@
    } else if m == 10 {
        "Oct"@
    } else if m == 11 {
        "Nov"@
    } else {
        "Dec"@
    }
}

fn weekday_text(w: u64) -> (r: &'static str)
    requires
        w < 7,
    ensures
        r@ == weekday_name(w as int),
{
    if w == 0 {
        "Sun"
    } else if w == 1 {
        "Mon"
    } else if w == 2 {
        "Tue"
    } else if w == 3 {
        "Wed"
    } else if w == 4 {
        "Thu"
    } else if w == 5 {
        "Fri"
    } else {
        "Sat"
    }
}

fn month_text(m: u32) -> (r: &'static str)
    requires
        1 <= m <= 12,
    ensures
        r@ == month_name(m as int),
{
    if m == 1 {
        "Jan"
    } else if m == 2 {
        "Feb"
    } else if m == 3 {
        "Mar"
    } else if m == 4 {
        "Apr"
    } else if m == 5 {
        "May"
    } else if m == 6 {
        "Jun"
    } else if m == 7 {
        "Jul"
    } else if m == 8 {
        "Aug"
    } else if m == 9 {
        "Sep"
    } else if m == 10 {
        "Oct"
    } else if m == 11 {
        "Nov"
    } else {
        "Dec"
    }
}

/// An IMF-fixdate with the given parts.
pub open spec fn fixdate_of(
    w: int,
    d: nat,
    m: int,
    y: nat,
    hour: nat,
    minute: nat,
    second: nat,
) -> Seq<char> {
    weekday_name(w) + ", "@ + decimal2(d) + " "@ + month_name(m) + " "@ + decimal(y) + " "@
        + decimal2(hour) + ":"@ + decimal2(minute) + ":"@ + decimal2(second) + " GMT"@
}

/// The IMF-fixdate of a time in Unix seconds. Day zero was a Thursday.
pub open spec fn fixdate(unix_secs: nat) -> Seq<char> {
    let days = unix_secs / 86400;
    let (y, m, d) = date_of(days as int);
    fixdate_of(
        ((days + 4) % 7) as int,
        d as nat,
        m,
        y as nat,
        unix_secs / 3600 % 24,
        unix_secs / 60 % 60,
        unix_secs % 60,
    )
}

fn fixdate_text(w: u64, d: u32, m: u32, y: u64, hour: u64, minute: u64, second: u64) -> (r: String)
    requires
        w < 7,
        1 <= m <= 12,
    ensures
        r@ == fixdate_of(
            w as int,
            d as nat,
            m as int,
            y as nat,
            hour as nat,
            minute as nat,
            second as nat,
        ),
{
    let mut r = weekday_text(w).to_owned();
    r.append(", ");
    r.append(decimal2_text(d as u64).as_str());
    r.append(" ");
    r.append(month_text(m));
    r.append(" ");
    r.append(decimal_text(y).as_str());
    r.append(" ");
    r.append(decimal2_text(hour).as_str());
    r.append(":");
    r.append(decimal2_text(minute).as_str());
    r.append(":");
    r.append(decimal2_text(second).as_str());
    r.append(" GMT");
    r
}

/// Converts Unix seconds to an IMF-fixdate.
pub fn http_date(unix_secs: u64) -> (r: String)
    ensures
        r@ == fixdate(unix_secs as nat),
{
    let days: u64 = unix_secs / 86400;
    let secs_of_day: u64 = unix_secs % 86400;
    let hour: u64 = secs_of_day / 3600;
    let minute: u64 = (secs_of_day / 60) % 60;
    let second: u64 = secs_of_day % 60;
    let (year, month, day) = civil_from_days(days as i64);
    proof {
        lemma_year_not_negative(year as int, month as int, day as int);
        lemma_clock(unix_secs as int);
    }
    fixdate_text(((days % 7) + 11) % 7, day, month, year as u64, hour, minute, second)
}

/// Hour, minute and second within the day and overall.
proof fn lemma_clock(t: int)
    requires
        t >= 0,
    ensures
        t % 86400 / 3600 == t / 3600 % 24,
        t % 86400 / 60 % 60 == t / 60 % 60,
        t % 86400 % 60 == t % 60,
        (t / 86400 % 7 + 11) % 7 == (t / 86400 + 4) % 7,
{
    let d = t / 86400;
    let s = t % 86400;
    let h = s / 3600;
    let m = s / 60;
    assert(t / 3600 == 24 * d + h);
    assert(t / 60 == 1440 * d + m);
    assert((24 * d + h) % 24 == h);
    lemma_mod_shift(m, 24 * d, 60);
    lemma_mod_shift(s, 1440 * d, 60);
}

/// Adding multiples of the modulus does not change a remainder.
proof fn lemma_mod_shift(x: int, k: int, n: int)
    requires
        n > 0,
    ensures
        (x + k * n) % n == x % n,
{
    vstd::arithmetic::div_mod::lemma_mod_multiples_vanish(k, x, n);
    assert(n * k == k * n) by (nonlinear_arith);
}

/// No day from 1970-01-01 on lies in a negative year.
proof fn lemma_year_not_negative(y: int, m: int, d: int)
    requires
        is_date(y, m, d),
        day_number(y, m, d) >= 0,
    ensures
        y >= 1970,
{
    crate::calendar::lemma_in_year(y, m, d);
    if y < 1970 {
        crate::calendar::lemma_years_ascend(y, 1970);
    }
}

/// The text that stands for a character in XML.
pub open spec fn escape_char(c: char) -> Seq<char> {
    if c == '&' {
        "&amp;"@
    } else if c == '<' {
        "&lt;"@
    } else if c == '>' {
        "&gt;"@
    } else if c == '"' {
        "&quot;"@
    } else if c == '\'' {
        "&apos;"@
    } else {
        seq![c]
    }
}

/// The text with every special character replaced by its entity.
pub open spec fn escaped(s: Seq<char>) -> Seq<char>
    decreases s.len(),
{
    if s.len() == 0 {
        Seq::empty()
    } else {
        escaped(s.drop_last()) + escape_char(s.last())
    }
}

/// Escapes a text for XML.
pub fn xml_escape(s: &str) -> (r: String)
    ensures
        r@ == escaped(s@),
{
    let cs = chars_of(s);
    let mut out = String::new();
    for i in 0..cs.len()
        invariant
            cs@ == s@,
            out@ == escaped(s@.take(i as int)),
    {
        assert(s@.take(i + 1).drop_last() =~= s@.take(i as int));
        let c = cs[i];
        if c == '&' {
            out.append("&amp;");
        } else if c == '<' {
            out.append("&lt;");
        } else if c == '>' {
            out.append("&gt;");
        } else if c == '"' {
            out.append("&quot;");
        } else if c == '\'' {
            out.append("&apos;");
        } else {
            out.push(c);
            assert(out@ =~= escaped(s@.take(i + 1)));
        }
    }
    assert(s@.take(cs@.len() as int) =~= s@);
    out
}

/// An escaped text holds no character that could end an element or an
/// attribute.
pub proof fn law_escaped_is_inert(s: Seq<char>)
    ensures
        forall|i: int|
            0 <= i < escaped(s).len() ==> !(#[trigger] escaped(s)[i] == '<' || escaped(s)[i] == '>'
                || escaped(s)[i] == '"' || escaped(s)[i] == '\''),
    decreases s.len(),
{
    if s.len() > 0 {
        let up = escaped(s.drop_last());
        let last = escape_char(s.last());
        law_escaped_is_inert(s.drop_last());
        reveal_strlit("&amp;");
        reveal_strlit("&lt;");
        reveal_strlit("&gt;");
        reveal_strlit("&quot;");
        reveal_strlit("&apos;");
        assert forall|i: int| 0 <= i < escaped(s).len() implies !(#[trigger] escaped(s)[i] == '<'
            || escaped(s)[i] == '>' || escaped(s)[i] == '"' || escaped(s)[i] == '\'') by {
            if i < up.len() {
                assert(escaped(s)[i] == up[i]);
            } else {
                assert(escaped(s)[i] == last[i - up.len()]);
            }
        }
    }
}

/// Whether the byte stands for itself in a percent-encoded path.
pub open spec fn is_plain(b: u8) -> bool {
    65 <= b <= 90 || 97 <= b <= 122 || 48 <= b <= 57 || b == 45 || b == 95 || b == 46 || b == 126
        || b == 47
}

/// The upper-case hexadecimal digit of a value below 16.
pub open spec fn hex_digit(n: int) -> char {
    if n < 10 {
        (48 + n) as char
    } else {
        (55 + n) as char
    }
}

/// A percent sign and the two hexadecimal digits of a byte.
pub open spec fn pct_byte(b: u8) -> Seq<char> {
    seq!['%', hex_digit(b as int / 16), hex_digit(b as int % 16)]
}

/// The bytes, percent-encoded.
pub open spec fn pct_bytes(bytes: Seq<u8>) -> Seq<char>
    decreases bytes.len(),
{
    if bytes.len() == 0 {
        Seq::empty()
    } else if is_plain(bytes.last()) {
        pct_bytes(bytes.drop_last()).push(bytes.last() as char)
    } else {
        pct_bytes(bytes.drop_last()) + pct_byte(bytes.last())
    }
}

fn hex_char(n: u8) -> (r: char)
    requires
        n < 16,
    ensures
        r == hex_digit(n as int),
{
    if n < 10 {
        (48 + n) as char
    } else {
        (55 + n) as char
    }
}

/// Appends a percent sign and the two hexadecimal digits of a byte.
pub(crate) fn push_pct(out: &mut String, b: u8)
    ensures
        final(out)@ == old(out)@ + pct_byte(b),
{
    let ghost before = out@;
    out.push('%');
    out.push(hex_char(b / 16));
    out.push(hex_char(b % 16));
    assert(out@ =~= before + pct_byte(b));
}

/// Percent-encodes a path, leaving `/` as a segment separator untouched.
pub fn pct_encode(path: &str) -> (r: String)
    ensures
        r@ == pct_bytes(encode_utf8(path@)),
{
    let bytes = path.as_bytes();
    let ghost bs = encode_utf8(path@);
    let mut out = String::new();
    for i in 0..bytes.len()
        invariant
            bytes@ == bs,
            out@ == pct_bytes(bs.take(i as int)),
    {
        assert(bs.take(i + 1).drop_last() =~= bs.take(i as int));
        let b = bytes[i];
        if (65 <= b && b <= 90) || (97 <= b && b <= 122) || (48 <= b && b <= 57) || b == 45 || b
            == 95 || b == 46 || b == 126 || b == 47 {
            out.push(b as char);
        } else {
            push_pct(&mut out, b);
        }
    }
    assert(bs.take(bytes@.len() as int) =~= bs);
    out
}

/// The value of a hexadecimal digit, in either case.
pub open spec fn hex_value(b: u8) -> Option<int> {
    if 48 <= b <= 57 {
        Some(b - 48)
    } else if 65 <= b <= 70 {
        Some(b - 55)
    } else if 97 <= b <= 102 {
        Some(b - 87)
    } else {
        None
    }
}

/// The bytes that a percent-encoded byte string stands for, if every percent
/// sign is followed by two hexadecimal digits.
pub open spec fn unpct(bytes: Seq<u8>) -> Option<Seq<u8>>
    decreases bytes.len(),
{
    if bytes.len() == 0 {
        Some(Seq::empty())
    } else if bytes[0] != 37 {
        match unpct(bytes.drop_first()) {
            Some(rest) => Some(seq![bytes[0]] + rest),
            None => None,
        }
    } else if bytes.len() < 3 || hex_value(bytes[1]) is None || hex_value(bytes[2]) is None {
        None
    } else {
        match unpct(bytes.skip(3)) {
            Some(rest) => Some(
                seq![(16 * hex_value(bytes[1])->0 + hex_value(bytes[2])->0) as u8] + rest,
            ),
            None => None,
        }
    }
}

/// The text that a percent-encoded text stands for, if it is well-formed and
/// its bytes are UTF-8.
pub open spec fn pct_decoded(s: Seq<char>) -> Option<Seq<char>> {
    match unpct(encode_utf8(s)) {
        Some(bytes) => if valid_utf8(bytes) {
            Some(decode_utf8(bytes))
        } else {
            None
        },
        None => None,
    }
}

fn hex_number(b: u8) -> (r: Option<u8>)
    ensures
        match r {
            Some(n) => hex_value(b) == Some(n as int) && n < 16,
            None => hex_value(b) is None,
        },
{
    if 48 <= b && b <= 57 {
        Some((b - 48) as u8)
    } else if 65 <= b && b <= 70 {
        Some((b - 55) as u8)
    } else if 97 <= b && b <= 102 {
        Some((b - 87) as u8)
    } else {
        None
    }
}

/// Percent-decodes a text.
pub fn pct_decode(s: &str) -> (r: Option<String>)
    ensures
        match r {
            Some(t) => pct_decoded(s@) == Some(t@),
            None => pct_decoded(s@) is None,
        },
{
    let bytes = s.as_bytes();
    let ghost bs = encode_utf8(s@);
    let mut out: Vec<u8> = Vec::new();
    let mut i: usize = 0;
    assert(bs.skip(0) =~= bs);
    while i < bytes.len()
        invariant
            bytes@ == bs,
            bs == encode_utf8(s@),
            i <= bytes@.len(),
            unpct(bs.skip(i as int)) is None ==> unpct(bs) is None,
            unpct(bs.skip(i as int)) matches Some(rest) ==> unpct(bs) == Some(out@ + rest),
        decreases bytes@.len() - i,
    {
        let ghost here = bs.skip(i as int);
        let ghost before = out@;
        let b = bytes[i];
        assert(here[0] == b);
        if b != 37 {
            assert(here.drop_first() =~= bs.skip(i + 1));
            out.push(b);
            i = i + 1;
            proof {
                if let Some(rest) = unpct(bs.skip(i as int)) {
                    assert(before + (seq![b] + rest) =~= out@ + rest);
                }
            }
        } else {
            if bytes.len() - i < 3 {
                return None;
            }
            assert(here[1] == bytes@[i + 1] && here[2] == bytes@[i + 2]);
            let (hi, lo) = match (hex_number(bytes[i + 1]), hex_number(bytes[i + 2])) {
                (Some(hi), Some(lo)) => (hi, lo),
                _ => {
                    return None;
                },
            };
            assert(here.skip(3) =~= bs.skip(i + 3));
            let v: u8 = 16 * hi + lo;
            out.push(v);
            i = i + 3;
            proof {
                if let Some(rest) = unpct(bs.skip(i as int)) {
                    assert(before + (seq![v] + rest) =~= out@ + rest);
                }
            }
        }
    }
    assert(bs.skip(i as int) =~= Seq::empty());
    assert(out@ + Seq::<u8>::empty() =~= out@);
    text_from_utf8(out)
}

/// What one byte is encoded as.
spec fn pct_piece(b: u8) -> Seq<char> {
    if is_plain(b) {
        seq![b as char]
    } else {
        pct_byte(b)
    }
}

proof fn lemma_pct_front(bytes: Seq<u8>)
    requires
        bytes.len() > 0,
    ensures
        pct_bytes(bytes) == pct_piece(bytes[0]) + pct_bytes(bytes.drop_first()),
    decreases bytes.len(),
{
    let up = bytes.drop_last();
    if bytes.len() == 1 {
        assert(up =~= Seq::empty());
        assert(bytes.drop_first() =~= Seq::empty());
        assert(pct_bytes(bytes) =~= pct_piece(bytes[0]) + pct_bytes(bytes.drop_first()));
    } else {
        lemma_pct_front(up);
        assert(up.drop_first() =~= bytes.drop_first().drop_last());
        assert(pct_bytes(bytes) =~= pct_piece(bytes[0]) + pct_bytes(bytes.drop_first()));
    }
}

proof fn lemma_hex(n: int)
    requires
        0 <= n < 16,
    ensures
        (hex_digit(n) as int) < 128,
        hex_value(hex_digit(n) as u8) == Some(n),
{
}

proof fn lemma_pct_ascii(bytes: Seq<u8>)
    ensures
        is_ascii_chars(pct_bytes(bytes)),
    decreases bytes.len(),
{
    if bytes.len() > 0 {
        lemma_pct_ascii(bytes.drop_last());
        lemma_hex(bytes.last() as int / 16);
        lemma_hex(bytes.last() as int % 16);
    }
}

/// The characters as bytes.
spec fn as_bytes(cs: Seq<char>) -> Seq<u8> {
    cs.map_values(|c: char| c as u8)
}

proof fn lemma_unpct_pct(bytes: Seq<u8>)
    ensures
        unpct(as_bytes(pct_bytes(bytes))) == Some(bytes),
    decreases bytes.len(),
{
    let p = pct_bytes(bytes);
    let e = as_bytes(p);
    if bytes.len() == 0 {
        assert(e =~= Seq::empty());
        assert(bytes =~= Seq::empty());
    } else {
        let b = bytes[0];
        let rest = bytes.drop_first();
        lemma_pct_front(bytes);
        lemma_unpct_pct(rest);
        let f = as_bytes(pct_bytes(rest));
        if is_plain(b) {
            assert(e[0] == b);
            assert(e.drop_first() =~= f);
        } else {
            lemma_hex(b as int / 16);
            lemma_hex(b as int % 16);
            assert(p[0] == '%');
            assert(e[0] == 37);
            assert(e[1] == hex_digit(b as int / 16) as u8);
            assert(e[2] == hex_digit(b as int % 16) as u8);
            assert(e.skip(3) =~= f);
        }
        assert(seq![b] + rest =~= bytes);
    }
}

/// Percent-decoding undoes percent-encoding.
pub proof fn law_pct_round_trip(s: Seq<char>)
    ensures
        pct_decoded(pct_bytes(encode_utf8(s))) == Some(s),
{
    let bytes = encode_utf8(s);
    let p = pct_bytes(bytes);
    lemma_pct_ascii(bytes);
    is_ascii_chars_encode_utf8(p);
    assert(encode_utf8(p) =~= as_bytes(p)) by {
        assert forall|i: int| 0 <= i < p.len() implies encode_utf8(p)[i] == as_bytes(p)[i] by {
            assert(p[i] as u8 == encode_utf8(p)[i]);
        }
    }
    lemma_unpct_pct(bytes);
    encode_utf8_valid_utf8(s);
    encode_utf8_decode_utf8(s);
}

/// What a text that is percent-encoded stands for; a malformed one stands for
/// itself.
pub open spec fn decoded_or_raw(v: Seq<char>) -> Seq<char> {
    match pct_decoded(v) {
        Some(t) => t,
        None => v,
    }
}

/// Percent-decodes a text; a malformed one is kept as it is.
pub(crate) fn decode_or_keep(s: String) -> (r: String)
    ensures
        r@ == decoded_or_raw(s@),
{
    match pct_decode(s.as_str()) {
        Some(t) => t,
        None => s,
    }
}

/// The link of an entry: percent-encoded, with a trailing separator for a
/// folder.
pub open spec fn href_of(e: EntryView) -> Seq<char> {
    let href = pct_bytes(encode_utf8(e.href));
    if e.is_dir && !(href.len() > 0 && href.last() == '/') {
        href + "/"@
    } else {
        href
    }
}

/// The `<D:response>` element of an entry.
pub open spec fn entry_xml(e: EntryView) -> Seq<char> {
    "<D:response>\n  <D:href>"@ + href_of(e)
        + "</D:href>\n  <D:propstat>\n    <D:prop>\n      <D:resourcetype>"@ + (if e.is_dir {
        "<D:collection/>"@
    } else {
        ""@
    }) + "</D:resourcetype>\n      <D:getlastmodified>"@ + fixdate(e.last_modified as nat)
        + "</D:getlastmodified>\n      <D:getetag>&quot;"@ + escaped(e.etag)
        + "&quot;</D:getetag>\n      "@ + length_xml(e)
        + "\n    </D:prop>\n    <D:status>HTTP/1.1 200 OK</D:status>\n  </D:propstat>\n</D:response>"@
}

/// The `<D:getcontentlength>` element of a file; nothing for a folder.
pub open spec fn length_xml(e: EntryView) -> Seq<char> {
    if e.is_dir {
        Seq::empty()
    } else {
        "<D:getcontentlength>"@ + decimal(e.size as nat) + "</D:getcontentlength>"@
    }
}

/// The elements of the entries.
pub open spec fn entries_xml(es: Seq<EntryView>) -> Seq<Seq<char>> {
    es.map_values(|e: EntryView| entry_xml(e))
}

/// The body of a multi-status response with the given entries.
pub open spec fn multistatus_text(es: Seq<EntryView>) -> Seq<char> {
    "<?xml version=\"1.0\" encoding=\"utf-8\"?>\n<D:multistatus xmlns:D=\"DAV:\">\n"@ + join_with(
        entries_xml(es),
        "\n"@,
    ) + "\n</D:multistatus>"@
}

/// Renders one entry.
fn response_xml(entry: &DavEntry) -> (r: String)
    ensures
        r@ == entry_xml(entry@),
{
    let mut r = "<D:response>\n  <D:href>".to_owned();
    r.append(href_text(entry).as_str());
    r.append("</D:href>\n  <D:propstat>\n    <D:prop>\n      <D:resourcetype>");
    r.append(
        if entry.is_dir {
            "<D:collection/>"
        } else {
            ""
        },
    );
    r.append("</D:resourcetype>\n      <D:getlastmodified>");
    r.append(http_date(entry.last_modified).as_str());
    r.append("</D:getlastmodified>\n      <D:getetag>&quot;");
    r.append(xml_escape(entry.etag.as_str()).as_str());
    r.append("&quot;</D:getetag>\n      ");
    r.append(length_text(entry).as_str());
    r.append(
        "\n    </D:prop>\n    <D:status>HTTP/1.1 200 OK</D:status>\n  </D:propstat>\n</D:response>",
    );
    r
}

fn href_text(entry: &DavEntry) -> (r: String)
    ensures
        r@ == href_of(entry@),
{
    let mut href = pct_encode(entry.href.as_str());
    if entry.is_dir {
        let cs = chars_of(href.as_str());
        if cs.len() == 0 || cs[cs.len() - 1] != '/' {
            href.append("/");
        }
    }
    href
}

fn length_text(entry: &DavEntry) -> (r: String)
    ensures
        r@ == length_xml(entry@),
{
    if entry.is_dir {
        String::new()
    } else {
        let mut r = "<D:getcontentlength>".to_owned();
        r.append(decimal_text(entry.size).as_str());
        r.append("</D:getcontentlength>");
        r
    }
}

/// Builds the body of a `207 Multi-Status` response for the entries.
pub fn multistatus(entries: &[DavEntry]) -> (r: String)
    ensures
        r@ == multistatus_text(entry_views(entries@)),
{
    let mut parts: Vec<String> = Vec::new();
    let ghost all = entries_xml(entry_views(entries@));
    assert(texts(parts@) =~= all.take(0));
    for i in 0..entries.len()
        invariant
            all == entries_xml(entry_views(entries@)),
            texts(parts@) == all.take(i as int),
    {
        let ghost before = parts@;
        parts.push(response_xml(&entries[i]));
        assert(texts(parts@) =~= texts(before).push(all[i as int]));
        assert(all.take(i + 1) =~= all.take(i as int).push(all[i as int]));
    }
    assert(all.take(entries@.len() as int) =~= all);
    let mut r =
        "<?xml version=\"1.0\" encoding=\"utf-8\"?>\n<D:multistatus xmlns:D=\"DAV:\">\n".to_owned();
    r.append(join_texts(&parts, "\n").as_str());
    r.append("\n</D:multistatus>");
    r
}

/// The link of a folder ends with a separator.
pub proof fn law_folder_link_ends_with_slash(e: EntryView)
    requires
        e.is_dir,
    ensures
        href_of(e).len() > 0,
        href_of(e).last() == '/',
{
    reveal_strlit("/");
}

/// A text that is one part of a concatenation occurs in it.
proof fn lemma_contains_middle(a: Seq<char>, b: Seq<char>, c: Seq<char>)
    ensures
        contains_text(a + b + c, b),
{
    let s = a + b + c;
    let i = a.len() as int;
    assert(s.subrange(i, i + b.len()) =~= b);
}

/// A folder's entry names it a collection.
pub proof fn law_folder_is_collection(e: EntryView)
    requires
        e.is_dir,
    ensures
        contains_text(
            entry_xml(e),
            "<D:resourcetype>"@ + "<D:collection/>"@ + "</D:resourcetype>"@,
        ),
{
    lemma_resourcetype(e, "<D:collection/>"@);
}

/// A file's entry has an empty resource type.
pub proof fn law_file_is_plain(e: EntryView)
    requires
        !e.is_dir,
    ensures
        contains_text(entry_xml(e), "<D:resourcetype>"@ + ""@ + "</D:resourcetype>"@),
{
    lemma_resourcetype(e, ""@);
}

proof fn lemma_resourcetype(e: EntryView, kind: Seq<char>)
    requires
        kind == (if e.is_dir {
            "<D:collection/>"@
        } else {
            ""@
        }),
    ensures
        contains_text(entry_xml(e), "<D:resourcetype>"@ + kind + "</D:resourcetype>"@),
{
    let a0 = "</D:href>\n  <D:propstat>\n    <D:prop>\n      "@;
    let a1 = "</D:href>\n  <D:propstat>\n    <D:prop>\n      <D:resourcetype>"@;
    let c0 = "\n      <D:getlastmodified>"@;
    let c1 = "</D:resourcetype>\n      <D:getlastmodified>"@;
    let open = "<D:resourcetype>"@;
    let close = "</D:resourcetype>"@;
    reveal_strlit("</D:href>\n  <D:propstat>\n    <D:prop>\n      ");
    reveal_strlit("</D:href>\n  <D:propstat>\n    <D:prop>\n      <D:resourcetype>");
    reveal_strlit("\n      <D:getlastmodified>");
    reveal_strlit("</D:resourcetype>\n      <D:getlastmodified>");
    reveal_strlit("<D:resourcetype>");
    reveal_strlit("</D:resourcetype>");
    assert(a1 =~= a0 + open);
    assert(c1 =~= close + c0);
    let front = "<D:response>\n  <D:href>"@ + href_of(e);
    let back = fixdate(e.last_modified as nat) + "</D:getlastmodified>\n      <D:getetag>&quot;"@
        + escaped(e.etag) + "&quot;</D:getetag>\n      "@ + length_xml(e)
        + "\n    </D:prop>\n    <D:status>HTTP/1.1 200 OK</D:status>\n  </D:propstat>\n</D:response>"@;
    lemma_contains_middle(front + a0, open + kind + close, c0 + back);
    assert(entry_xml(e) =~= (front + a0) + (open + kind + close) + (c0 + back));
}

} // verus!
