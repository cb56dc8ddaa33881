//! HTML escaping and base64 encoding.
use vstd::prelude::*;

verus! {

broadcast use vstd::string::group_string_axioms;

/// `String::push`: appends the character `c` to `out`.
#[verifier::external_body]
pub(crate) fn push_char(out: &mut String, c: char)
    ensures
        final(out)@ == old(out)@.push(c),
{
    out.push(c);
}

/// What one character of element text becomes in HTML.
pub open spec fn escape_html_char(c: char) -> Seq<char> {
    if c == '&' {
        seq!['&', 'a', 'm', 'p', ';']
    } else if c == '<' {
        seq!['&', 'l', 't', ';']
    } else if c == '>' {
        seq!['&', 'g', 't', ';']
    } else {
        seq![c]
    }
}

/// What one character of an attribute value becomes in HTML.
pub open spec fn escape_attr_char(c: char) -> Seq<char> {
    if c == '"' {
        seq!['&', 'q', 'u', 'o', 't', ';']
    } else {
        escape_html_char(c)
    }
}

/// Element text escaped character by character.
pub open spec fn escape_html(s: Seq<char>) -> Seq<char>
    decreases s.len(),
{
    if s.len() == 0 {
        Seq::empty()
    } else {
        escape_html(s.drop_last()) + escape_html_char(s.last())
    }
}

/// An attribute value escaped character by character.
pub open spec fn escape_attr(s: Seq<char>) -> Seq<char>
    decreases s.len(),
{
    if s.len() == 0 {
        Seq::empty()
    } else {
        escape_attr(s.drop_last()) + escape_attr_char(s.last())
    }
}

pub fn append_escaped_html(s: &str, out: &mut String)
    ensures
        final(out)@ == old(out)@ + escape_html(s@),
{
    let ghost start = out@;
    for c in it: s.chars()
        invariant
            it.seq() == s@,
            out@ == start + escape_html(s@.take(it.index() as int)),
    {
        proof {
            assert(s@.take(it.index() + 1).drop_last() == s@.take(it.index() as int));
        }
        assert(c == s@[it.index() as int]);
        if c == '&' {
            proof { reveal_strlit("&amp;"); }
            out.append("&amp;");
        } else if c == '<' {
            proof { reveal_strlit("&lt;"); }
            out.append("&lt;");
        } else if c == '>' {
            proof { reveal_strlit("&gt;"); }
            out.append("&gt;");
        } else {
            push_char(out, c);
        }
    }
    assert(s@.take(s@.len() as int) == s@);
}

pub fn append_escaped_attr(s: &str, out: &mut String)
    ensures
        final(out)@ == old(out)@ + escape_attr(s@),
{
    let ghost start = out@;
    for c in it: s.chars()
        invariant
            it.seq() == s@,
            out@ == start + escape_attr(s@.take(it.index() as int)),
    {
        proof {
            assert(s@.take(it.index() + 1).drop_last() == s@.take(it.index() as int));
        }
        assert(c == s@[it.index() as int]);
        if c == '&' {
            proof { reveal_strlit("&amp;"); }
            out.append("&amp;");
        } else if c == '<' {
            proof { reveal_strlit("&lt;"); }
            out.append("&lt;");
        } else if c == '>' {
            proof { reveal_strlit("&gt;"); }
            out.append("&gt;");
        } else if c == '"' {
            proof { reveal_strlit("&quot;"); }
            out.append("&quot;");
        } else {
            push_char(out, c);
        }
    }
    assert(s@.take(s@.len() as int) == s@);
}

/// Escaped element text holds no '<' and no '>': it cannot open or close markup.
pub proof fn lemma_escape_html_no_markup(s: Seq<char>)
    ensures
        forall|i: int| 0 <= i < escape_html(s).len() ==> escape_html(s)[i] != '<' && escape_html(s)[i] != '>',
    decreases s.len(),
{
    if s.len() > 0 {
        lemma_escape_html_no_markup(s.drop_last());
        let a = escape_html(s.drop_last());
        let b = escape_html_char(s.last());
        assert forall|i: int| 0 <= i < escape_html(s).len() implies escape_html(s)[i] != '<'
            && escape_html(s)[i] != '>' by {
            if i >= a.len() {
                assert(escape_html(s)[i] == b[i - a.len()]);
            } else {
                assert(escape_html(s)[i] == a[i]);
            }
        }
    }
}

/// An escaped attribute value holds no '<', '>' or '"': it cannot end the attribute.
pub proof fn lemma_escape_attr_no_markup(s: Seq<char>)
    ensures
        forall|i: int| 0 <= i < escape_attr(s).len() ==> escape_attr(s)[i] != '<' && escape_attr(s)[i] != '>'
            && escape_attr(s)[i] != '"',
    decreases s.len(),
{
    if s.len() > 0 {
        lemma_escape_attr_no_markup(s.drop_last());
        let a = escape_attr(s.drop_last());
        let b = escape_attr_char(s.last());
        assert forall|i: int| 0 <= i < escape_attr(s).len() implies escape_attr(s)[i] != '<'
            && escape_attr(s)[i] != '>' && escape_attr(s)[i] != '"' by {
            if i >= a.len() {
                assert(escape_attr(s)[i] == b[i - a.len()]);
            } else {
                assert(escape_attr(s)[i] == a[i]);
            }
        }
    }
}

/// Escaping changes nothing in text without '&', '<' and '>'.
pub proof fn lemma_escape_html_plain(s: Seq<char>)
    requires
        forall|i: int| 0 <= i < s.len() ==> s[i] != '&' && s[i] != '<' && s[i] != '>',
    ensures
        escape_html(s) == s,
    decreases s.len(),
{
    if s.len() > 0 {
        lemma_escape_html_plain(s.drop_last());
        assert(s.drop_last().push(s.last()) =~= s);
    }
}

/// The base64 alphabet (RFC 4648): the character that stands for a 6-bit value.
pub open spec fn b64_char(v: int) -> char {
    if v < 26 {
        ((v + 65) as u8) as char
    } else if v < 52 {
        ((v - 26 + 97) as u8) as char
    } else if v < 62 {
        ((v - 52 + 48) as u8) as char
    } else if v == 62 {
        '+'
    } else {
        '/'
    }
}

/// Three bytes as four base64 characters.
pub open spec fn b64_quad(a: u8, b: u8, c: u8) -> Seq<char> {
    seq![
        b64_char(a as int / 4),
        b64_char((a as int % 4) * 16 + b as int / 16),
        b64_char((b as int % 16) * 4 + c as int / 64),
        b64_char(c as int % 64),
    ]
}

/// The encoding of the whole 3-byte groups of `d` (whose length is a multiple of 3).
pub open spec fn b64_groups(d: Seq<u8>) -> Seq<char>
    decreases d.len(),
{
    if d.len() < 3 {
        Seq::empty()
    } else {
        b64_groups(d.take(d.len() - 3)) + b64_quad(d[d.len() - 3], d[d.len() - 2], d[d.len() - 1])
    }
}

/// The padded encoding of the last 0, 1 or 2 bytes.
pub open spec fn b64_tail(t: Seq<u8>) -> Seq<char> {
    if t.len() == 1 {
        b64_quad(t[0], 0, 0).take(2) + seq!['=', '=']
    } else if t.len() == 2 {
        b64_quad(t[0], t[1], 0).take(3) + seq!['=']
    } else {
        Seq::empty()
    }
}

/// Standard padded base64 of `d`.
pub open spec fn base64_spec(d: Seq<u8>) -> Seq<char> {
    let whole = d.len() - d.len() % 3;
    b64_groups(d.take(whole)) + b64_tail(d.skip(whole))
}

proof fn lemma_b64_groups_len(d: Seq<u8>)
    requires
        d.len() % 3 == 0,
    ensures
        b64_groups(d).len() == d.len() / 3 * 4,
    decreases d.len(),
{
    if d.len() >= 3 {
        lemma_b64_groups_len(d.take(d.len() - 3));
    }
}

/// Base64 writes four characters for every started group of three bytes.
pub proof fn lemma_base64_len(d: Seq<u8>)
    ensures
        base64_spec(d).len() == (d.len() + 2) / 3 * 4,
{
    let whole = d.len() - d.len() % 3;
    lemma_b64_groups_len(d.take(whole));
    assert(d.skip(whole).len() == d.len() % 3);
}

/// One of the 64 base64 digits: `A`-`Z`, `a`-`z`, `0`-`9`, `+` and `/`.
pub open spec fn is_base64_digit(c: char) -> bool {
    ||| (65 <= c as u32 <= 90)
    ||| (97 <= c as u32 <= 122)
    ||| (48 <= c as u32 <= 57)
    ||| c == '+'
    ||| c == '/'
}

proof fn lemma_b64_char_digit(v: int)
    requires
        0 <= v < 64,
    ensures
        is_base64_digit(b64_char(v)),
{
}

proof fn lemma_b64_quad_digits(a: u8, b: u8, c: u8)
    ensures
        forall|i: int| 0 <= i < 4 ==> is_base64_digit(#[trigger] b64_quad(a, b, c)[i]),
{
    lemma_b64_char_digit(a as int / 4);
    lemma_b64_char_digit((a as int % 4) * 16 + b as int / 16);
    lemma_b64_char_digit((b as int % 16) * 4 + c as int / 64);
    lemma_b64_char_digit(c as int % 64);
}

proof fn lemma_b64_groups_digits(d: Seq<u8>)
    ensures
        forall|i: int| 0 <= i < b64_groups(d).len() ==> is_base64_digit(#[trigger] b64_groups(d)[i]),
    decreases d.len(),
{
    if d.len() >= 3 {
        let head = d.take(d.len() - 3);
        lemma_b64_groups_digits(head);
        let q = b64_quad(d[d.len() - 3], d[d.len() - 2], d[d.len() - 1]);
        lemma_b64_quad_digits(d[d.len() - 3], d[d.len() - 2], d[d.len() - 1]);
        assert forall|i: int| 0 <= i < b64_groups(d).len() implies is_base64_digit(#[trigger] b64_groups(d)[i]) by {
            if i < b64_groups(head).len() {
                assert(b64_groups(d)[i] == b64_groups(head)[i]);
            } else {
                assert(b64_groups(d)[i] == q[i - b64_groups(head).len()]);
            }
        }
    }
}

/// Base64 text is made of base64 digits followed by the padding: as many `=` as bytes are
/// missing from the last group of three (none, one or two).
pub proof fn lemma_base64_alphabet(d: Seq<u8>)
    ensures
        ({
            let s = base64_spec(d);
            let pad = (3 - d.len() % 3) % 3;
            &&& forall|i: int| 0 <= i < s.len() - pad ==> is_base64_digit(#[trigger] s[i])
            &&& forall|i: int| s.len() - pad <= i < s.len() ==> #[trigger] s[i] == '='
        }),
{
    let whole = d.len() - d.len() % 3;
    let g = b64_groups(d.take(whole));
    let t = d.skip(whole);
    lemma_base64_len(d);
    lemma_b64_groups_digits(d.take(whole));
    lemma_b64_groups_len(d.take(whole));
    let s = base64_spec(d);
    let pad = (3 - d.len() % 3) % 3;
    assert(t.len() == d.len() % 3);
    if t.len() == 1 {
        lemma_b64_quad_digits(t[0], 0, 0);
    } else if t.len() == 2 {
        lemma_b64_quad_digits(t[0], t[1], 0);
    }
    assert forall|i: int| 0 <= i < s.len() - pad implies is_base64_digit(#[trigger] s[i]) by {
        if i < g.len() {
            assert(s[i] == g[i]);
        } else if t.len() == 1 {
            assert(s[i] == b64_quad(t[0], 0, 0)[i - g.len()]);
        } else {
            assert(s[i] == b64_quad(t[0], t[1], 0)[i - g.len()]);
        }
    }
    assert forall|i: int| s.len() - pad <= i < s.len() implies #[trigger] s[i] == '=' by {
        if t.len() == 1 {
            assert(s[i] == seq!['=', '='][i - g.len() - 2]);
        } else {
            assert(s[i] == seq!['='][i - g.len() - 3]);
        }
    }
}

proof fn lemma_b64_char_injective(v: int, w: int)
    requires
        0 <= v < 64,
        0 <= w < 64,
        b64_char(v) == b64_char(w),
    ensures
        v == w,
{
}

proof fn lemma_b64_quad_prefix_injective(a: u8, b: u8, c: u8, a2: u8, b2: u8, c2: u8, n: int)
    requires
        2 <= n <= 4,
        b64_quad(a, b, c).take(n) == b64_quad(a2, b2, c2).take(n),
        n <= 2 ==> b % 16 == 0 && b2 % 16 == 0 && b / 16 == 0 && b2 / 16 == 0,
        n <= 3 ==> c / 64 == 0 && c2 / 64 == 0,
    ensures
        a == a2,
        n >= 3 ==> b == b2,
        n >= 4 ==> c == c2,
{
    let q = b64_quad(a, b, c);
    let q2 = b64_quad(a2, b2, c2);
    assert(q[0] == q.take(n)[0] && q2[0] == q2.take(n)[0]);
    assert(q[1] == q.take(n)[1] && q2[1] == q2.take(n)[1]);
    lemma_b64_char_injective(a as int / 4, a2 as int / 4);
    lemma_b64_char_injective((a as int % 4) * 16 + b as int / 16, (a2 as int % 4) * 16 + b2 as int / 16);
    if n >= 3 {
        assert(q[2] == q.take(n)[2] && q2[2] == q2.take(n)[2]);
        lemma_b64_char_injective((b as int % 16) * 4 + c as int / 64, (b2 as int % 16) * 4 + c2 as int / 64);
    }
    if n >= 4 {
        assert(q[3] == q.take(n)[3] && q2[3] == q2.take(n)[3]);
        lemma_b64_char_injective(c as int % 64, c2 as int % 64);
    }
}

proof fn lemma_b64_groups_injective(d1: Seq<u8>, d2: Seq<u8>)
    requires
        d1.len() % 3 == 0,
        d1.len() == d2.len(),
        b64_groups(d1) == b64_groups(d2),
    ensures
        d1 == d2,
    decreases d1.len(),
{
    if d1.len() >= 3 {
        let n = d1.len();
        let h1 = d1.take(n - 3);
        let h2 = d2.take(n - 3);
        let q1 = b64_quad(d1[n - 3], d1[n - 2], d1[n - 1]);
        let q2 = b64_quad(d2[n - 3], d2[n - 2], d2[n - 1]);
        lemma_b64_groups_len(h1);
        lemma_b64_groups_len(h2);
        assert(b64_groups(d1) == b64_groups(h1) + q1);
        assert(b64_groups(d2) == b64_groups(h2) + q2);
        assert(b64_groups(h1) =~= b64_groups(d1).take(b64_groups(h1).len() as int));
        assert(b64_groups(h2) =~= b64_groups(d2).take(b64_groups(h2).len() as int));
        assert(q1 =~= b64_groups(d1).skip(b64_groups(h1).len() as int));
        assert(q2 =~= b64_groups(d2).skip(b64_groups(h2).len() as int));
        assert(q1.take(4) =~= q1 && q2.take(4) =~= q2);
        lemma_b64_quad_prefix_injective(d1[n - 3], d1[n - 2], d1[n - 1], d2[n - 3], d2[n - 2], d2[n - 1], 4);
        lemma_b64_groups_injective(h1, h2);
        assert(d1 =~= h1 + seq![d1[n - 3], d1[n - 2], d1[n - 1]]);
        assert(d2 =~= h2 + seq![d2[n - 3], d2[n - 2], d2[n - 1]]);
    } else {
        assert(d1 =~= d2);
    }
}

/// Equal base64 texts come from equally long bytes: the text's length gives the number of
/// started groups and its padding the bytes missing from the last one.
proof fn lemma_base64_same_len(d1: Seq<u8>, d2: Seq<u8>)
    requires
        base64_spec(d1) == base64_spec(d2),
    ensures
        d1.len() == d2.len(),
{
    let s = base64_spec(d1);
    lemma_base64_len(d1);
    lemma_base64_len(d2);
    lemma_base64_alphabet(d1);
    lemma_base64_alphabet(d2);
    let p1 = (3 - d1.len() % 3) % 3;
    let p2 = (3 - d2.len() % 3) % 3;
    if p1 < p2 {
        assert(is_base64_digit(s[s.len() - p2]));
        assert(s[s.len() - p2] == '=');
    } else if p2 < p1 {
        assert(is_base64_digit(s[s.len() - p1]));
        assert(s[s.len() - p1] == '=');
    }
    assert(d1.len() % 3 == d2.len() % 3);
}

/// Base64 loses nothing: different bytes never give the same text, so the text can be decoded
/// back to the bytes it came from.
#[verifier::spinoff_prover]
pub proof fn lemma_base64_injective(d1: Seq<u8>, d2: Seq<u8>)
    requires
        base64_spec(d1) == base64_spec(d2),
    ensures
        d1 == d2,
{
    let s = base64_spec(d1);
    lemma_base64_same_len(d1, d2);
    let whole = d1.len() - d1.len() % 3;
    let g1 = b64_groups(d1.take(whole));
    let g2 = b64_groups(d2.take(whole));
    let t1 = d1.skip(whole);
    let t2 = d2.skip(whole);
    lemma_b64_groups_len(d1.take(whole));
    lemma_b64_groups_len(d2.take(whole));
    assert(g1 =~= s.take(g1.len() as int));
    assert(g2 =~= s.take(g2.len() as int));
    lemma_b64_groups_injective(d1.take(whole), d2.take(whole));
    let tail = s.skip(g1.len() as int);
    assert(b64_tail(t1) =~= tail);
    assert(b64_tail(t2) =~= tail);
    if t1.len() == 1 {
        assert(b64_quad(t1[0], 0, 0).take(2) =~= tail.take(2));
        assert(b64_quad(t2[0], 0, 0).take(2) =~= tail.take(2));
        lemma_b64_quad_prefix_injective(t1[0], 0, 0, t2[0], 0, 0, 2);
    } else if t1.len() == 2 {
        assert(b64_quad(t1[0], t1[1], 0).take(3) =~= tail.take(3));
        assert(b64_quad(t2[0], t2[1], 0).take(3) =~= tail.take(3));
        lemma_b64_quad_prefix_injective(t1[0], t1[1], 0, t2[0], t2[1], 0, 3);
    }
    assert(t1 =~= t2);
    assert(d1 =~= d1.take(whole) + t1);
    assert(d2 =~= d2.take(whole) + t2);
}

fn b64_exec(v: u32) -> (c: char)
    requires
        v < 64,
    ensures
        c == b64_char(v as int),
{
    if v < 26 {
        ((v + 65) as u8) as char
    } else if v < 52 {
        ((v - 26 + 97) as u8) as char
    } else if v < 62 {
        ((v - 52 + 48) as u8) as char
    } else if v == 62 {
        '+'
    } else {
        '/'
    }
}

proof fn lemma_shift_parts(a: u8, b: u8, c: u8)
    ensures
        ({
            let v = ((a as u32) << 16u32) | ((b as u32) << 8u32) | (c as u32);
            &&& (v >> 18u32) & 63u32 == a as int / 4
            &&& (v >> 12u32) & 63u32 == (a as int % 4) * 16 + b as int / 16
            &&& (v >> 6u32) & 63u32 == (b as int % 16) * 4 + c as int / 64
            &&& v & 63u32 == c as int % 64
        }),
{
    assert(({
        let v = ((a as u32) << 16u32) | ((b as u32) << 8u32) | (c as u32);
        &&& (v >> 18u32) & 63u32 == a / 4
        &&& (v >> 12u32) & 63u32 == (a % 4) * 16 + b / 16
        &&& (v >> 6u32) & 63u32 == (b % 16) * 4 + c / 64
        &&& v & 63u32 == c % 64
    })) by (bit_vector);
}

fn push_quad(s: &mut String, a: u8, b: u8, c: u8, keep: usize)
    requires
        2 <= keep <= 4,
    ensures
        final(s)@ == old(s)@ + b64_quad(a, b, c).take(keep as int),
{
    let v: u32 = ((a as u32) << 16u32) | ((b as u32) << 8u32) | (c as u32);
    proof { lemma_shift_parts(a, b, c); }
    let ghost s0 = s@;
    let ghost q = b64_quad(a, b, c);
    let c0 = b64_exec((v >> 18u32) & 63u32);
    let c1 = b64_exec((v >> 12u32) & 63u32);
    let c2 = b64_exec((v >> 6u32) & 63u32);
    let c3 = b64_exec(v & 63u32);
    assert(c0 == q[0] && c1 == q[1] && c2 == q[2] && c3 == q[3]);
    push_char(s, c0);
    push_char(s, c1);
    if keep >= 3 {
        push_char(s, c2);
    }
    if keep >= 4 {
        push_char(s, c3);
    }
    assert(s@ =~= s0 + q.take(keep as int));
}

pub fn base64_encode(data: &[u8]) -> (s: String)
    ensures
        s@ == base64_spec(data@),
{
    let mut s = String::new();
    let len = data.len();
    let mut i: usize = 0;
    while i <= len && len - i >= 3
        invariant
            i <= len == data@.len(),
            i % 3 == 0,
            s@ == b64_groups(data@.take(i as int)),
        decreases len - i,
    {
        push_quad(&mut s, data[i], data[i + 1], data[i + 2], 4);
        proof {
            let t = data@.take(i + 3);
            assert(t.take(t.len() - 3) == data@.take(i as int));
            assert(b64_quad(data[i as int], data[i + 1], data[i + 2]).take(4) == b64_quad(
                data[i as int],
                data[i + 1],
                data[i + 2],
            ));
        }
        i += 3;
    }
    assert(i == len - len % 3);
    if len - i == 1 {
        push_quad(&mut s, data[i], 0, 0, 2);
        s.append("==");
        proof { reveal_strlit("=="); }
    } else if len - i == 2 {
        push_quad(&mut s, data[i], data[i + 1], 0, 3);
        proof { reveal_strlit("="); }
        s.append("=");
    }
    proof {
        let t = data@.skip(i as int);
        assert(t.len() == len - i);
        if t.len() > 0 {
            assert(t[0] == data@[i as int]);
        }
        if t.len() > 1 {
            assert(t[1] == data@[i + 1]);
        }
    }
    s
}

} // verus!
