//! Laws of texts: numbers, searching, trimming, splitting, and the ways in which
//! a text is written in a URL, in a form and in XML.
use vstd::prelude::*;
use vstd::utf8::*;
use crate::auth::{form_bytes, is_form_plain};
use crate::graph::{pct_path, pct_pieces};
use crate::text::{
    bytes_lt, contains_text, decimal, decimal2, is_white, join_with, lemma_split_nonempty,
    same_ignoring_case, split_on, text_lt, trim_both, trim_end, trim_end_white,
    trim_start, trim_start_white, trim_white,
};
use crate::xml::{
    decoded_or_raw, escaped, hex_digit, hex_value, pct_byte, pct_bytes, pct_decoded, unpct,
};

verus! {

/// The number that a text of decimal digits stands for.
pub open spec fn number_in(s: Seq<char>) -> nat
    decreases s.len(),
{
    if s.len() == 0 {
        0
    } else {
        10 * number_in(s.drop_last()) + (s.last() as int - '0' as int) as nat
    }
}

/// Whether the text consists of decimal digits.
pub open spec fn all_digits(s: Seq<char>) -> bool {
    forall|i: int| 0 <= i < s.len() ==> '0' <= #[trigger] s[i] <= '9'
}

/// A number is written with digits that stand for it, and without a leading
/// zero; or with two digits at least.
pub proof fn law_decimal_stands_for_number(n: nat)
    ensures
        all_digits(decimal(n)),
        number_in(decimal(n)) == n,
        decimal(n).len() > 0,
        decimal(n)[0] == '0' ==> n == 0,
        n == 0 ==> decimal(n).len() == 1,
        all_digits(decimal2(n)),
        number_in(decimal2(n)) == n,
        n < 100 ==> decimal2(n).len() == 2,
    decreases n,
{
    let s = decimal(n);
    if n < 10 {
        assert(s.drop_last() =~= Seq::empty());
        reveal_with_fuel(number_in, 3);
        assert(decimal2(n).drop_last() =~= seq!['0']);
        assert(seq!['0'].drop_last() =~= Seq::<char>::empty());
        assert(decimal2(n).last() == s[0]);
    } else {
        law_decimal_stands_for_number(n / 10);
        let up = decimal(n / 10);
        assert(s.drop_last() =~= up);
        assert(s[0] == up[0]);
        assert forall|i: int| 0 <= i < s.len() implies '0' <= #[trigger] s[i] <= '9' by {
            if i < up.len() {
                assert(s[i] == up[i]);
            }
        }
        if n < 100 {
            assert(decimal(n / 10).len() == 1);
        }
    }
}

/// A text occurs in another one if and only if the other one is that text with
/// something before it and something behind it.
pub proof fn law_contains(s: Seq<char>, t: Seq<char>)
    ensures
        contains_text(s, t) <==> exists|a: Seq<char>, b: Seq<char>| s == #[trigger] (a + t + b),
{
    if contains_text(s, t) {
        let i = choose|i: int|
            0 <= i && i + t.len() <= s.len() && #[trigger] s.subrange(i, i + t.len()) == t;
        let a = s.take(i);
        let b = s.skip(i + t.len());
        assert(s =~= a + t + b) by {
            assert forall|k: int| 0 <= k < s.len() implies s[k] == (a + t + b)[k] by {
                if i <= k < i + t.len() {
                    assert(t[k - i] == s.subrange(i, i + t.len())[k - i]);
                }
            }
        }
    }
    if exists|a: Seq<char>, b: Seq<char>| s == #[trigger] (a + t + b) {
        let (a, b) = choose|a: Seq<char>, b: Seq<char>| s == #[trigger] (a + t + b);
        let i = a.len() as int;
        assert(s.subrange(i, i + t.len()) =~= t);
    }
}

/// Whether two characters are the same letter, or the same other character.
pub open spec fn same_letter(a: char, b: char) -> bool {
    ||| a == b
    ||| 'A' <= a <= 'Z' && b as int == a as int + 32
    ||| 'A' <= b <= 'Z' && a as int == b as int + 32
}

/// Texts are the same up to case if and only if they have the same letters in
/// the same places.
pub proof fn law_same_ignoring_case(a: Seq<char>, b: Seq<char>)
    ensures
        same_ignoring_case(a, b) <==> a.len() == b.len() && forall|i: int|
            0 <= i < a.len() ==> same_letter(#[trigger] a[i], b[i]),
{
    let x = a.map_values(|c: char| crate::text::ascii_lower(c));
    let y = b.map_values(|c: char| crate::text::ascii_lower(c));
    if same_ignoring_case(a, b) {
        assert(x.len() == a.len() && y.len() == b.len());
        assert forall|i: int| 0 <= i < a.len() implies same_letter(#[trigger] a[i], b[i]) by {
            assert(x[i] == y[i]);
        }
    }
    if a.len() == b.len() && forall|i: int|
        0 <= i < a.len() ==> same_letter(#[trigger] a[i], b[i]) {
        assert forall|i: int| 0 <= i < x.len() implies x[i] == y[i] by {
            assert(same_letter(a[i], b[i]));
        }
        assert(x =~= y);
    }
}

/// Whether the bytes agree up to `k`, and there the first ends or is less.
pub open spec fn comes_first(a: Seq<u8>, b: Seq<u8>, k: int) -> bool {
    &&& 0 <= k <= a.len() && k < b.len()
    &&& a.take(k) == b.take(k)
    &&& k < a.len() ==> a[k] < b[k]
}

/// Texts are ordered by their UTF-8 bytes: where they first differ, the lesser
/// byte comes first, and a text comes before what it begins.
pub proof fn law_text_order(a: Seq<char>, b: Seq<char>)
    ensures
        text_lt(a, b) <==> exists|k: int| #[trigger]
            comes_first(encode_utf8(a), encode_utf8(b), k),
{
    lemma_bytes_order(encode_utf8(a), encode_utf8(b));
}

proof fn lemma_bytes_order(a: Seq<u8>, b: Seq<u8>)
    ensures
        bytes_lt(a, b) <==> exists|k: int| #[trigger] comes_first(a, b, k),
    decreases a.len(),
{
    if b.len() > 0 && a.len() == 0 {
        assert(a.take(0) =~= b.take(0));
        assert(comes_first(a, b, 0));
    } else if b.len() > 0 && a.len() > 0 {
        let x = a.drop_first();
        let y = b.drop_first();
        if a[0] < b[0] {
            assert(a.take(0) =~= b.take(0));
            assert(comes_first(a, b, 0));
        } else if a[0] == b[0] {
            lemma_bytes_order(x, y);
            if exists|k: int| #[trigger] comes_first(x, y, k) {
                let k = choose|k: int| #[trigger] comes_first(x, y, k);
                assert(a.take(k + 1) =~= seq![a[0]] + x.take(k));
                assert(b.take(k + 1) =~= seq![b[0]] + y.take(k));
                assert(comes_first(a, b, k + 1));
            }
            if exists|k: int| #[trigger] comes_first(a, b, k) {
                let k = choose|k: int| #[trigger] comes_first(a, b, k);
                assert(k > 0);
                assert(x.take(k - 1) =~= a.take(k).drop_first());
                assert(y.take(k - 1) =~= b.take(k).drop_first());
                assert(comes_first(x, y, k - 1));
            }
        } else {
            if exists|k: int| #[trigger] comes_first(a, b, k) {
                let k = choose|k: int| #[trigger] comes_first(a, b, k);
                if k > 0 {
                    assert(a.take(k)[0] == b.take(k)[0]);
                }
            }
        }
    }
}

/// Whether the text consists of one character alone, repeated.
pub open spec fn only(s: Seq<char>, c: char) -> bool {
    forall|i: int| 0 <= i < s.len() ==> #[trigger] s[i] == c
}

/// Trimming takes away all of a character at an end, and nothing else.
pub proof fn law_trim_end(s: Seq<char>, c: char)
    ensures
        exists|b: Seq<char>| only(b, c) && s == #[trigger] (trim_end(s, c) + b),
        trim_end(s, c).len() > 0 ==> trim_end(s, c).last() != c,
    decreases s.len(),
{
    if s.len() > 0 && s.last() == c {
        let up = s.drop_last();
        law_trim_end(up, c);
        let b = choose|b: Seq<char>| only(b, c) && up == #[trigger] (trim_end(up, c) + b);
        assert(only(b.push(c), c));
        assert(up == trim_end(up, c) + b);
        assert(s =~= up.push(c));
        assert(s =~= trim_end(s, c) + b.push(c));
    } else {
        let b = Seq::<char>::empty();
        assert(only(b, c));
        assert(s =~= trim_end(s, c) + b);
    }
}

/// Trimming takes away all of a character at the beginning, and nothing else.
pub proof fn law_trim_start(s: Seq<char>, c: char)
    ensures
        exists|a: Seq<char>| only(a, c) && s == #[trigger] (a + trim_start(s, c)),
        trim_start(s, c).len() > 0 ==> trim_start(s, c)[0] != c,
    decreases s.len(),
{
    if s.len() > 0 && s[0] == c {
        let up = s.drop_first();
        law_trim_start(up, c);
        let a = choose|a: Seq<char>| only(a, c) && up == #[trigger] (a + trim_start(up, c));
        let more = seq![c] + a;
        assert forall|i: int| 0 <= i < more.len() implies #[trigger] more[i] == c by {
            if i > 0 {
                assert(more[i] == a[i - 1]);
            }
        }
        assert(up == a + trim_start(up, c));
        assert(s =~= seq![c] + up);
        assert(s =~= more + trim_start(s, c));
    } else {
        let a = Seq::<char>::empty();
        assert(only(a, c));
        assert(s =~= a + trim_start(s, c));
    }
}

/// A text that neither begins nor ends with the character is what is left of it
/// between any number of them.
pub proof fn law_trim_both(a: Seq<char>, t: Seq<char>, b: Seq<char>, c: char)
    requires
        only(a, c),
        only(b, c),
        t.len() > 0 ==> t[0] != c && t.last() != c,
    ensures
        trim_both(a + t + b, c) == t,
        t.len() > 0 ==> trim_end(a + t + b, c) == a + t,
        t.len() > 0 ==> trim_start(a + t + b, c) == t + b,
    decreases a.len() + b.len(),
{
    let s = a + t + b;
    if a.len() > 0 {
        let rest = a.drop_first();
        assert(only(rest, c)) by {
            assert forall|i: int| 0 <= i < rest.len() implies #[trigger] rest[i] == c by {
                assert(rest[i] == a[i + 1]);
            }
        }
        assert(a[0] == c);
        assert(s[0] == c);
        assert(s.drop_first() =~= rest + t + b);
        law_trim_both(rest, t, b, c);
        if t.len() > 0 {
            lemma_trim_end_only(a + t, b, c);
        }
    } else {
        assert(s =~= t + b);
        if t.len() > 0 {
            assert(s[0] == t[0]);
            lemma_trim_end_only(t, b, c);
            assert(a + t =~= t);
        } else {
            assert(s =~= b);
            lemma_trim_start_only(b, c);
            assert(t =~= Seq::empty());
        }
    }
}

proof fn lemma_trim_end_only(t: Seq<char>, b: Seq<char>, c: char)
    requires
        only(b, c),
        t.len() > 0 ==> t.last() != c,
    ensures
        trim_end(t + b, c) == t,
    decreases b.len(),
{
    if b.len() > 0 {
        let up = b.drop_last();
        assert(only(up, c)) by {
            assert forall|i: int| 0 <= i < up.len() implies #[trigger] up[i] == c by {
                assert(up[i] == b[i]);
            }
        }
        assert(b[b.len() - 1] == c);
        assert((t + b).drop_last() =~= t + up);
        lemma_trim_end_only(t, up, c);
    } else {
        assert(t + b =~= t);
    }
}

proof fn lemma_trim_start_only(b: Seq<char>, c: char)
    requires
        only(b, c),
    ensures
        trim_start(b, c) == Seq::<char>::empty(),
    decreases b.len(),
{
    if b.len() > 0 {
        let rest = b.drop_first();
        assert(only(rest, c)) by {
            assert forall|i: int| 0 <= i < rest.len() implies #[trigger] rest[i] == c by {
                assert(rest[i] == b[i + 1]);
            }
        }
        assert(b[0] == c);
        lemma_trim_start_only(rest, c);
    } else {
        assert(b =~= Seq::empty());
    }
}

/// A text that neither begins nor ends with whitespace is all that trimming
/// leaves, whatever whitespace stands around it.
pub proof fn law_trim_white(a: Seq<char>, t: Seq<char>, b: Seq<char>)
    requires
        forall|i: int| 0 <= i < a.len() ==> is_white(#[trigger] a[i]),
        forall|i: int| 0 <= i < b.len() ==> is_white(#[trigger] b[i]),
        t.len() > 0,
        !is_white(t[0]),
        !is_white(t.last()),
    ensures
        trim_white(a + t + b) == t,
    decreases a.len() + b.len(),
{
    let s = a + t + b;
    if a.len() > 0 {
        let rest = a.drop_first();
        assert forall|i: int| 0 <= i < rest.len() implies is_white(#[trigger] rest[i]) by {
            assert(rest[i] == a[i + 1]);
        }
        assert(is_white(a[0]) && s[0] == a[0]);
        assert(s.drop_first() =~= rest + t + b);
        law_trim_white(rest, t, b);
    } else {
        assert(s =~= t + b);
        assert(s[0] == t[0]);
        assert(trim_start_white(s) == s);
        lemma_trim_end_white(t, b);
    }
}

proof fn lemma_trim_end_white(t: Seq<char>, b: Seq<char>)
    requires
        forall|i: int| 0 <= i < b.len() ==> is_white(#[trigger] b[i]),
        t.len() > 0,
        !is_white(t.last()),
    ensures
        trim_end_white(t + b) == t,
    decreases b.len(),
{
    if b.len() > 0 {
        let up = b.drop_last();
        assert forall|i: int| 0 <= i < up.len() implies is_white(#[trigger] up[i]) by {
            assert(up[i] == b[i]);
        }
        assert(is_white(b[b.len() - 1]));
        assert((t + b).drop_last() =~= t + up);
        lemma_trim_end_white(t, up);
    } else {
        assert(t + b =~= t);
    }
}

/// Joining the pieces of a text gives the text back.
pub proof fn law_split_and_join(s: Seq<char>, c: char)
    ensures
        join_with(split_on(s, c), seq![c]) == s,
        forall|i: int|
            0 <= i < split_on(s, c).len() ==> !(#[trigger] split_on(s, c)[i]).contains(c),
    decreases s.len(),
{
    let parts = split_on(s, c);
    if s.len() == 0 {
        assert(s =~= Seq::empty());
    } else {
        let up = s.drop_last();
        let r = split_on(up, c);
        law_split_and_join(up, c);
        lemma_split_nonempty(up, c);
        if s.last() == c {
            assert(parts.drop_last() =~= r);
            assert(join_with(parts, seq![c]) =~= s);
        } else {
            let front = r.drop_last();
            assert(parts.drop_last() =~= front);
            assert(parts.last() == r.last().push(s.last()));
            assert(s =~= up.push(s.last()));
            if front.len() == 0 {
                assert(join_with(r, seq![c]) == r[0]);
                assert(r.last() == r[0]);
                assert(parts[0] == parts.last());
            } else {
                assert(join_with(r, seq![c]) == join_with(front, seq![c]) + seq![c] + r.last());
            }
            assert(join_with(parts, seq![c]) =~= s);
        }
        assert forall|i: int| 0 <= i < parts.len() implies !(#[trigger] parts[i]).contains(c) by {
            if i < r.len() {
                assert(!r[i].contains(c));
            }
            if s.last() != c && i == parts.len() - 1 {
                assert(!r[i].contains(c));
                assert forall|k: int| 0 <= k < parts[i].len() implies parts[i][k] != c by {
                    if k < r[i].len() {
                        assert(r[i].contains(r[i][k]));
                    }
                }
            }
        }
    }
}

/// Escaping goes character by character: five characters have an entity, and
/// every other one stands for itself.
pub proof fn law_escape(a: Seq<char>, b: Seq<char>, c: char)
    ensures
        escaped(a + b) == escaped(a) + escaped(b),
        escaped(seq![c]) == (if c == '&' {
            "&amp;"@
        } else if c == '<' {
            "&lt;"@
        } else if c == '>' {
            "&gt;"@
        } else if c == '"' {
            "&quot;"@
        } else if c == '\'' {
            "&apos;"@
        } else {
            seq![c]
        }),
    decreases b.len(),
{
    assert(seq![c].drop_last() =~= Seq::<char>::empty());
    reveal_with_fuel(escaped, 2);
    assert(escaped(seq![c]) =~= crate::xml::escape_char(c));
    if b.len() == 0 {
        assert(a + b =~= a);
        assert(escaped(a) + escaped(b) =~= escaped(a));
    } else {
        law_escape(a, b.drop_last(), c);
        assert((a + b).drop_last() =~= a + b.drop_last());
        assert((a + b).last() == b.last());
        assert(escaped(a + b) =~= escaped(a) + escaped(b));
    }
}

/// The bytes of two texts, one after the other.
pub proof fn lemma_utf8_joined(a: Seq<char>, b: Seq<char>)
    ensures
        encode_utf8(a + b) == encode_utf8(a) + encode_utf8(b),
    decreases a.len(),
{
    if a.len() == 0 {
        assert(a + b =~= b);
        assert(encode_utf8(a) =~= Seq::empty());
        assert(encode_utf8(a) + encode_utf8(b) =~= encode_utf8(b));
    } else {
        lemma_utf8_joined(a.drop_first(), b);
        assert((a + b).drop_first() =~= a.drop_first() + b);
        assert((a + b)[0] == a[0]);
        assert(encode_utf8(a + b) =~= encode_utf8(a) + encode_utf8(b));
    }
}

/// The link of two texts, one after the other.
pub proof fn lemma_pct_joined(a: Seq<u8>, b: Seq<u8>)
    ensures
        pct_bytes(a + b) == pct_bytes(a) + pct_bytes(b),
    decreases b.len(),
{
    if b.len() == 0 {
        assert(a + b =~= a);
        assert(pct_bytes(a) + pct_bytes(b) =~= pct_bytes(a));
    } else {
        lemma_pct_joined(a, b.drop_last());
        assert((a + b).drop_last() =~= a + b.drop_last());
        assert((a + b).last() == b.last());
        assert(pct_bytes(a + b) =~= pct_bytes(a) + pct_bytes(b));
    }
}

/// Whether the character may stand in a link: a letter or digit without accent,
/// one of four marks, a separator, or the sign of an encoded byte.
pub open spec fn in_link(c: char) -> bool {
    'a' <= c <= 'z' || 'A' <= c <= 'Z' || '0' <= c <= '9' || c == '-' || c == '_' || c == '.' || c
        == '~' || c == '/' || c == '%'
}

/// Percent-encoded bytes are made of characters that may stand in a link.
pub proof fn law_link_characters(bytes: Seq<u8>)
    ensures
        forall|i: int| 0 <= i < pct_bytes(bytes).len() ==> in_link(#[trigger] pct_bytes(bytes)[i]),
    decreases bytes.len(),
{
    if bytes.len() > 0 {
        let up = pct_bytes(bytes.drop_last());
        let p = pct_bytes(bytes);
        let b = bytes.last();
        law_link_characters(bytes.drop_last());
        assert forall|i: int| 0 <= i < p.len() implies in_link(#[trigger] p[i]) by {
            if i < up.len() {
                assert(p[i] == up[i]);
            } else if crate::xml::is_plain(b) {
                assert(p[i] == b as char);
            } else {
                assert(p[i] == crate::xml::pct_byte(b)[i - up.len()]);
            }
        }
    }
}

proof fn lemma_pct_slash()
    ensures
        pct_bytes(encode_utf8("/"@)) == "/"@,
{
    reveal_strlit("/");
    let bytes = encode_utf8("/"@);
    assert("/"@.drop_first() =~= Seq::<char>::empty());
    assert(bytes =~= seq![47u8]) by {
        assert(47u32 & 0x7F == 47) by (bit_vector);
        assert(encode_utf8("/"@.drop_first()) =~= Seq::<u8>::empty());
    }
    assert(bytes.drop_last() =~= Seq::<u8>::empty());
    reveal_with_fuel(pct_bytes, 2);
    assert(pct_bytes(bytes) =~= "/"@);
}

proof fn lemma_pct_pieces_joined(parts: Seq<Seq<char>>)
    requires
        parts.len() > 0,
    ensures
        join_with(pct_pieces(parts), "/"@) == pct_bytes(encode_utf8(join_with(parts, "/"@))),
    decreases parts.len(),
{
    let all = pct_pieces(parts);
    if parts.len() == 1 {
        assert(all[0] == pct_bytes(encode_utf8(parts[0])));
    } else {
        let up = parts.drop_last();
        lemma_pct_pieces_joined(up);
        assert(all.drop_last() =~= pct_pieces(up));
        assert(all.last() == pct_bytes(encode_utf8(parts.last())));
        let x = join_with(up, "/"@);
        lemma_utf8_joined(x + "/"@, parts.last());
        lemma_utf8_joined(x, "/"@);
        lemma_pct_joined(encode_utf8(x + "/"@), encode_utf8(parts.last()));
        lemma_pct_joined(encode_utf8(x), encode_utf8("/"@));
        lemma_pct_slash();
    }
}

/// Encoding a path segment by segment is encoding it as a whole, and decoding
/// gives the path back.
pub proof fn law_encoded_path(path: Seq<char>)
    ensures
        pct_path(path) == pct_bytes(encode_utf8(path)),
        pct_decoded(pct_path(path)) == Some(path),
        forall|i: int| 0 <= i < pct_path(path).len() ==> in_link(#[trigger] pct_path(path)[i]),
{
    reveal_strlit("/");
    assert("/"@ =~= seq!['/']);
    law_split_and_join(path, '/');
    lemma_split_nonempty(path, '/');
    lemma_pct_pieces_joined(split_on(path, '/'));
    crate::xml::law_pct_round_trip(path);
    law_link_characters(encode_utf8(path));
}

/// The text with spaces for plus signs.
pub open spec fn without_plus(s: Seq<char>) -> Seq<char> {
    s.map_values(
        |c: char|
            if c == '+' {
                ' '
            } else {
                c
            },
    )
}

/// Whether the character may stand in the value of a form.
pub open spec fn in_form(c: char) -> bool {
    in_link(c) && c != '/' || c == '+'
}

proof fn lemma_form_joined(a: Seq<u8>, b: Seq<u8>)
    ensures
        form_bytes(a + b) == form_bytes(a) + form_bytes(b),
    decreases b.len(),
{
    if b.len() == 0 {
        assert(a + b =~= a);
        assert(form_bytes(a) + form_bytes(b) =~= form_bytes(a));
    } else {
        lemma_form_joined(a, b.drop_last());
        assert((a + b).drop_last() =~= a + b.drop_last());
        assert((a + b).last() == b.last());
        assert(form_bytes(a + b) =~= form_bytes(a) + form_bytes(b));
    }
}

/// The bytes of a form value whose plus signs were replaced.
spec fn plain_bytes(s: Seq<char>) -> Seq<u8> {
    without_plus(s).map_values(|c: char| c as u8)
}

proof fn lemma_unpct_form(bytes: Seq<u8>)
    ensures
        unpct(plain_bytes(form_bytes(bytes))) == Some(bytes),
        forall|i: int| 0 <= i < form_bytes(bytes).len() ==> in_form(#[trigger] form_bytes(bytes)[i]),
    decreases bytes.len(),
{
    let f = form_bytes(bytes);
    let e = plain_bytes(f);
    if bytes.len() == 0 {
        assert(e =~= Seq::empty());
        assert(bytes =~= Seq::empty());
    } else {
        let b = bytes[0];
        let one = seq![b];
        let rest = bytes.drop_first();
        assert(bytes =~= one + rest);
        lemma_form_joined(one, rest);
        lemma_unpct_form(rest);
        assert(one.drop_last() =~= Seq::<u8>::empty());
        reveal_with_fuel(form_bytes, 2);
        let piece = form_bytes(one);
        let g = plain_bytes(form_bytes(rest));
        assert forall|i: int| 0 <= i < f.len() implies in_form(#[trigger] f[i]) by {
            if i < piece.len() {
                assert(f[i] == piece[i]);
            } else {
                assert(f[i] == form_bytes(rest)[i - piece.len()]);
            }
        }
        if is_form_plain(b) {
            assert(piece =~= seq![b as char]);
            assert(f[0] == b as char);
            assert(e[0] == b);
            assert(e.drop_first() =~= g);
        } else if b == 32 {
            assert(piece =~= seq!['+']);
            assert(f[0] == '+');
            assert(e[0] == 32);
            assert(e.drop_first() =~= g);
        } else {
            assert(piece =~= pct_byte(b));
            assert(f[0] == '%');
            assert(f[1] == hex_digit(b as int / 16) && f[2] == hex_digit(b as int % 16));
            assert(e[0] == 37);
            assert(hex_value(e[1]) == Some(b as int / 16));
            assert(hex_value(e[2]) == Some(b as int % 16));
            assert(e.skip(3) =~= g);
        }
        assert(seq![b] + rest =~= bytes);
    }
}

/// A form value holds nothing that could end it, and stands for the text.
pub proof fn law_form_round_trip(s: Seq<char>)
    ensures
        pct_decoded(without_plus(form_bytes(encode_utf8(s)))) == Some(s),
        forall|i: int|
            0 <= i < form_bytes(encode_utf8(s)).len() ==> in_form(
                #[trigger] form_bytes(encode_utf8(s))[i],
            ),
{
    let bytes = encode_utf8(s);
    let t = without_plus(form_bytes(bytes));
    lemma_unpct_form(bytes);
    assert(is_ascii_chars(t)) by {
        assert forall|i: int| 0 <= i < t.len() implies '\0' <= #[trigger] t[i] <= '\u{7f}' by {
            assert(in_form(form_bytes(bytes)[i]));
        }
    }
    is_ascii_chars_encode_utf8(t);
    assert(encode_utf8(t) =~= plain_bytes(form_bytes(bytes))) by {
        assert forall|i: int| 0 <= i < t.len() implies encode_utf8(t)[i] == plain_bytes(
            form_bytes(bytes),
        )[i] by {
            assert(t[i] as u8 == encode_utf8(t)[i]);
        }
    }
    encode_utf8_valid_utf8(s);
    encode_utf8_decode_utf8(s);
}

/// Whether the byte is a hexadecimal digit with the value, in either case.
pub open spec fn is_hex(b: u8, n: int) -> bool {
    ||| 0 <= n <= 9 && b == 48 + n
    ||| 10 <= n <= 15 && (b == 55 + n || b == 87 + n)
}

/// Decoding goes byte by byte: a percent sign and two hexadecimal digits stand
/// for one byte, a percent sign without them is malformed, and every other byte
/// stands for itself.
pub proof fn law_percent_decoding(b: u8, hi: u8, lo: u8, rest: Seq<u8>, h: int, l: int)
    ensures
        unpct(Seq::empty()) == Some(Seq::<u8>::empty()),
        b != 37 ==> unpct(seq![b] + rest) == (match unpct(rest) {
            Some(t) => Some(seq![b] + t),
            None => None,
        }),
        is_hex(hi, h) && is_hex(lo, l) ==> unpct(seq![37u8, hi, lo] + rest) == (match unpct(rest) {
            Some(t) => Some(seq![(16 * h + l) as u8] + t),
            None => None,
        }),
        (forall|n: int| !is_hex(hi, n)) || (forall|n: int| !is_hex(lo, n)) ==> unpct(
            seq![37u8, hi, lo] + rest,
        ) is None,
        rest.len() < 2 ==> unpct(seq![37u8] + rest) is None,
{
    let one = seq![b] + rest;
    assert(one.drop_first() =~= rest);
    let three = seq![37u8, hi, lo] + rest;
    assert(three.skip(3) =~= rest);
    assert(three[0] == 37 && three[1] == hi && three[2] == lo);
    if hex_value(hi) is Some {
        assert(is_hex(hi, hex_value(hi)->0));
    }
    if hex_value(lo) is Some {
        assert(is_hex(lo, hex_value(lo)->0));
    }
}

/// A text that is well-formed stands for what it encodes, and one that is not
/// stands for itself.
pub proof fn law_malformed_stands_for_itself(s: Seq<char>)
    ensures
        pct_decoded(s) matches Some(t) ==> decoded_or_raw(s) == t,
        pct_decoded(s) is None ==> decoded_or_raw(s) == s,
        unpct(encode_utf8(s)) is None ==> pct_decoded(s) is None,
        unpct(encode_utf8(s)) matches Some(bytes) ==> {
            &&& valid_utf8(bytes) ==> pct_decoded(s) == Some(decode_utf8(bytes))
            &&& !valid_utf8(bytes) ==> pct_decoded(s) is None
        },
{
}

} // verus!
