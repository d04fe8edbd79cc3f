//! The JSON text of the launch-frequency file: a JSON object whose members
//! map application ids (JSON strings) to launch counts (non-negative
//! integers), the way it is read, and the pretty layout in which it is
//! written.

use vstd::prelude::*;

verus! {

/// JSON white space: space, tab, line feed, carriage return.
pub open spec fn is_json_ws(c: char) -> bool {
    c == ' ' || c == '\t' || c == '\n' || c == '\r'
}

/// `s` without its leading JSON white space.
pub open spec fn skip_json_ws(s: Seq<char>) -> Seq<char>
    decreases s.len(),
{
    if s.len() > 0 && is_json_ws(s[0]) {
        skip_json_ws(s.drop_first())
    } else {
        s
    }
}

/// The value of a hexadecimal digit, -1 for another character.
pub open spec fn hex_value(c: char) -> int {
    let v = c as u32;
    if 48 <= v <= 57 {
        v - 48
    } else if 97 <= v <= 102 {
        v - 87
    } else if 65 <= v <= 70 {
        v - 55
    } else {
        -1
    }
}

/// The lowercase hexadecimal digit of `v` (below 16).
pub open spec fn hex_digit(v: int) -> char {
    seq!['0', '1', '2', '3', '4', '5', '6', '7', '8', '9', 'a', 'b', 'c', 'd', 'e', 'f'][v]
}

/// The decimal digit of `v` (below 10).
pub open spec fn digit_char(v: int) -> char {
    seq!['0', '1', '2', '3', '4', '5', '6', '7', '8', '9'][v]
}

/// Whether `c` is a decimal digit.
pub open spec fn is_digit(c: char) -> bool {
    48 <= (c as u32) <= 57
}

/// The character that a one-letter escape `\c` stands for.
pub open spec fn simple_unescape(c: char) -> Option<char> {
    if c == '"' {
        Some('"')
    } else if c == '\\' {
        Some('\\')
    } else if c == '/' {
        Some('/')
    } else if c == 'b' {
        Some('\u{8}')
    } else if c == 'f' {
        Some('\u{c}')
    } else if c == 'n' {
        Some('\n')
    } else if c == 'r' {
        Some('\r')
    } else if c == 't' {
        Some('\t')
    } else {
        None
    }
}

/// The code of the four hexadecimal digits of a `\u` escape.
pub open spec fn unicode_escape_value(h: Seq<char>) -> int {
    hex_value(h[0]) * 4096 + hex_value(h[1]) * 256 + hex_value(h[2]) * 16 + hex_value(h[3])
}

/// Whether `h` holds four hexadecimal digits naming a character that is not
/// a surrogate.
pub open spec fn is_unicode_escape(h: Seq<char>) -> bool {
    &&& h.len() == 4
    &&& hex_value(h[0]) >= 0 && hex_value(h[1]) >= 0 && hex_value(h[2]) >= 0 && hex_value(h[3])
        >= 0
    &&& !(0xD800 <= unicode_escape_value(h) <= 0xDFFF)
}

/// Reads the rest of a JSON string whose opening quote has been read: the
/// characters it denotes and the text after its closing quote. Control
/// characters must be escaped; the escapes are `\"`, `\\`, `\/`, `\b`, `\f`,
/// `\n`, `\r`, `\t` and `\u` with four hexadecimal digits naming a character
/// that is not a surrogate.
pub open spec fn json_string_rest(s: Seq<char>) -> Option<(Seq<char>, Seq<char>)>
    decreases s.len(),
{
    if s.len() == 0 {
        None
    } else if s[0] == '"' {
        Some((Seq::<char>::empty(), s.drop_first()))
    } else if s[0] == '\\' {
        if s.len() >= 2 && simple_unescape(s[1]) is Some {
            match json_string_rest(s.skip(2)) {
                Some(p) => Some((seq![simple_unescape(s[1])->0] + p.0, p.1)),
                None => None,
            }
        } else if s.len() >= 6 && s[1] == 'u' && is_unicode_escape(s.subrange(2, 6)) {
            match json_string_rest(s.skip(6)) {
                Some(p) => Some(
                    (seq![(unicode_escape_value(s.subrange(2, 6)) as u32) as char] + p.0, p.1),
                ),
                None => None,
            }
        } else {
            None
        }
    } else if (s[0] as u32) < 0x20 {
        None
    } else {
        match json_string_rest(s.drop_first()) {
            Some(p) => Some((seq![s[0]] + p.0, p.1)),
            None => None,
        }
    }
}

/// The number of decimal digits `s` starts with.
pub open spec fn digit_run(s: Seq<char>) -> nat
    decreases s.len(),
{
    if s.len() > 0 && is_digit(s[0]) {
        1 + digit_run(s.drop_first())
    } else {
        0
    }
}

/// The number that a run of decimal digits writes.
pub open spec fn digits_value(d: Seq<char>) -> int
    decreases d.len(),
{
    if d.len() == 0 {
        0
    } else {
        digits_value(d.drop_last()) * 10 + ((d.last() as u32) - 48)
    }
}

/// Reads one member of a JSON object: a string key, a colon and a
/// non-negative integer without leading zeros that fits in 64 bits, with
/// white space allowed around the colon; gives the member and the text after
/// the integer with its leading white space skipped.
pub open spec fn json_member(s: Seq<char>) -> Option<((Seq<char>, u64), Seq<char>)> {
    if s.len() == 0 || s[0] != '"' {
        None
    } else {
        match json_string_rest(s.drop_first()) {
            None => None,
            Some(p) => {
                let r2 = skip_json_ws(p.1);
                if r2.len() == 0 || r2[0] != ':' {
                    None
                } else {
                    let r3 = skip_json_ws(r2.drop_first());
                    let n = digit_run(r3);
                    let v = digits_value(r3.take(n as int));
                    if n == 0 || n > r3.len() || (n > 1 && r3[0] == '0') || v > u64::MAX {
                        None
                    } else {
                        Some(((p.0, v as u64), skip_json_ws(r3.skip(n as int))))
                    }
                }
            },
        }
    }
}

/// Reads the members of a JSON object from a member's key on, `acc` holding
/// the members read before; members are separated by commas and the object
/// ends with `}`, after which only white space may follow.
pub open spec fn json_members_from(s: Seq<char>, acc: Seq<(Seq<char>, u64)>) -> Option<
    Seq<(Seq<char>, u64)>,
>
    decreases s.len(),
{
    match json_member(s) {
        None => None,
        Some(m) => {
            let next = acc.push(m.0);
            let r4 = m.1;
            if r4.len() > 0 && r4[0] == '}' {
                if skip_json_ws(r4.drop_first()).len() == 0 {
                    Some(next)
                } else {
                    None
                }
            } else if r4.len() > 0 && r4[0] == ',' {
                let r5 = skip_json_ws(r4.drop_first());
                if r5.len() < s.len() {
                    json_members_from(r5, next)
                } else {
                    None
                }
            } else {
                None
            }
        },
    }
}

/// The members, in order, of a JSON text that is an object mapping string
/// keys to non-negative 64-bit integers, with white space allowed between
/// tokens; none for any other text.
pub open spec fn json_counts_members(text: Seq<char>) -> Option<Seq<(Seq<char>, u64)>> {
    let t = skip_json_ws(text);
    if t.len() == 0 || t[0] != '{' {
        None
    } else {
        let r = skip_json_ws(t.drop_first());
        if r.len() > 0 && r[0] == '}' {
            if skip_json_ws(r.drop_first()).len() == 0 {
                Some(Seq::<(Seq<char>, u64)>::empty())
            } else {
                None
            }
        } else {
            json_members_from(r, Seq::<(Seq<char>, u64)>::empty())
        }
    }
}

/// The map that a sequence of members describes; a later member with the
/// same key replaces an earlier one.
pub open spec fn members_map(ms: Seq<(Seq<char>, u64)>) -> Map<Seq<char>, u64>
    decreases ms.len(),
{
    if ms.len() == 0 {
        Map::empty()
    } else {
        members_map(ms.drop_last()).insert(ms.last().0, ms.last().1)
    }
}

/// Whether no two members have the same key.
pub open spec fn keys_unique(ms: Seq<(Seq<char>, u64)>) -> bool {
    forall|a: int, b: int| 0 <= a < b < ms.len() ==> (#[trigger] ms[a]).0 != (#[trigger] ms[b]).0
}

/// How a character is written inside a JSON string: `"` and `\` and the
/// control characters escaped (`\b`, `\f`, `\n`, `\r`, `\t`, else `\u00`
/// and two lowercase hexadecimal digits), every other character as itself.
pub open spec fn json_escape_char(c: char) -> Seq<char> {
    if c == '"' {
        seq!['\\', '"']
    } else if c == '\\' {
        seq!['\\', '\\']
    } else if c == '\u{8}' {
        seq!['\\', 'b']
    } else if c == '\u{c}' {
        seq!['\\', 'f']
    } else if c == '\n' {
        seq!['\\', 'n']
    } else if c == '\r' {
        seq!['\\', 'r']
    } else if c == '\t' {
        seq!['\\', 't']
    } else if (c as u32) < 0x20 {
        seq!['\\', 'u', '0', '0', hex_digit((c as u32) as int / 16), hex_digit((c as u32) as int % 16)]
    } else {
        seq![c]
    }
}

/// The characters of `s` as written inside a JSON string.
pub open spec fn json_escape(s: Seq<char>) -> Seq<char>
    decreases s.len(),
{
    if s.len() == 0 {
        Seq::<char>::empty()
    } else {
        json_escape_char(s[0]) + json_escape(s.drop_first())
    }
}

/// `s` written as a JSON string.
pub open spec fn json_quote(s: Seq<char>) -> Seq<char> {
    seq!['"'] + json_escape(s) + seq!['"']
}

/// The decimal digits of `n`, without leading zeros.
pub open spec fn decimal(n: nat) -> Seq<char>
    decreases n,
{
    if n < 10 {
        seq![digit_char(n as int)]
    } else {
        decimal(n / 10).push(digit_char((n % 10) as int))
    }
}

/// The members of a non-empty object after its opening line, one per line,
/// indented by two spaces, then the closing brace on a line of its own.
pub open spec fn pretty_members(ms: Seq<(Seq<char>, u64)>) -> Seq<char>
    decreases ms.len(),
{
    if ms.len() == 0 {
        Seq::<char>::empty()
    } else {
        json_quote(ms[0].0) + seq![':', ' '] + decimal(ms[0].1 as nat) + if ms.len() == 1 {
            seq!['\n', '}']
        } else {
            seq![',', '\n', ' ', ' '] + pretty_members(ms.drop_first())
        }
    }
}

/// The members written as a pretty-printed JSON object: `{}` when there are
/// none, else `{`, each member on a line of its own indented by two spaces
/// (`"key": count`, separated by commas), and `}` on the last line.
pub open spec fn json_counts_pretty(ms: Seq<(Seq<char>, u64)>) -> Seq<char> {
    if ms.len() == 0 {
        seq!['{', '}']
    } else {
        seq!['{', '\n', ' ', ' '] + pretty_members(ms)
    }
}

/// A hexadecimal digit written is read back as its value.
proof fn lemma_hex_digit(v: int)
    requires
        0 <= v < 16,
    ensures
        hex_value(hex_digit(v)) == v,
{
    let d = seq!['0', '1', '2', '3', '4', '5', '6', '7', '8', '9', 'a', 'b', 'c', 'd', 'e', 'f'];
    assert(hex_digit(v) == d[v]);
    if v == 0 {
        assert(d[0] == '0');
    } else if v == 1 {
        assert(d[1] == '1');
    } else if v == 2 {
        assert(d[2] == '2');
    } else if v == 3 {
        assert(d[3] == '3');
    } else if v == 4 {
        assert(d[4] == '4');
    } else if v == 5 {
        assert(d[5] == '5');
    } else if v == 6 {
        assert(d[6] == '6');
    } else if v == 7 {
        assert(d[7] == '7');
    } else if v == 8 {
        assert(d[8] == '8');
    } else if v == 9 {
        assert(d[9] == '9');
    } else if v == 10 {
        assert(d[10] == 'a');
    } else if v == 11 {
        assert(d[11] == 'b');
    } else if v == 12 {
        assert(d[12] == 'c');
    } else if v == 13 {
        assert(d[13] == 'd');
    } else if v == 14 {
        assert(d[14] == 'e');
    } else {
        assert(d[15] == 'f');
    }
}

/// A decimal digit written is a digit of its value.
proof fn lemma_digit_char(v: int)
    requires
        0 <= v < 10,
    ensures
        (digit_char(v) as u32) == 48 + v,
        is_digit(digit_char(v)),
{
    let d = seq!['0', '1', '2', '3', '4', '5', '6', '7', '8', '9'];
    assert(digit_char(v) == d[v]);
    if v == 0 {
        assert(d[0] == '0');
    } else if v == 1 {
        assert(d[1] == '1');
    } else if v == 2 {
        assert(d[2] == '2');
    } else if v == 3 {
        assert(d[3] == '3');
    } else if v == 4 {
        assert(d[4] == '4');
    } else if v == 5 {
        assert(d[5] == '5');
    } else if v == 6 {
        assert(d[6] == '6');
    } else if v == 7 {
        assert(d[7] == '7');
    } else if v == 8 {
        assert(d[8] == '8');
    } else {
        assert(d[9] == '9');
    }
}

/// A string written with its escapes and a closing quote is read back as
/// itself, the text after the quote left over.
pub proof fn lemma_escape_read_back(k: Seq<char>, rest: Seq<char>)
    ensures
        json_string_rest(json_escape(k) + seq!['"'] + rest) == Some((k, rest)),
    decreases k.len(),
{
    let s = json_escape(k) + seq!['"'] + rest;
    if k.len() == 0 {
        assert(s =~= seq!['"'] + rest);
        assert(s.drop_first() =~= rest);
        assert(k =~= Seq::<char>::empty());
    } else {
        let c = k[0];
        let t = k.drop_first();
        let tail = json_escape(t) + seq!['"'] + rest;
        lemma_escape_read_back(t, rest);
        assert(s =~= json_escape_char(c) + tail);
        assert(k =~= seq![c] + t);
        let e = json_escape_char(c);
        if c == '"' || c == '\\' || c == '\u{8}' || c == '\u{c}' || c == '\n' || c == '\r' || c
            == '\t' {
            assert(e.len() == 2);
            assert(s[0] == '\\');
            assert(s.skip(2) =~= tail);
            assert(simple_unescape(s[1]) == Some(c));
        } else if (c as u32) < 0x20 {
            let v = (c as u32) as int;
            lemma_hex_digit(v / 16);
            lemma_hex_digit(v % 16);
            lemma_hex_digit(0);
            assert(s[0] == '\\');
            assert(s[1] == 'u');
            assert(simple_unescape(s[1]) is None);
            let h = s.subrange(2, 6);
            assert(h =~= seq!['0', '0', hex_digit(v / 16), hex_digit(v % 16)]);
            assert(unicode_escape_value(h) == v);
            assert(is_unicode_escape(h));
            assert(s.skip(6) =~= tail);
            vstd::utf8::char_u32_cast(c, c as u32);
            assert((unicode_escape_value(h) as u32) == c as u32);
        } else {
            assert(e =~= seq![c]);
            assert(s[0] == c);
            assert(s.drop_first() =~= tail);
        }
    }
}

/// White space in front of a text that does not start with white space is
/// skipped whole.
proof fn lemma_skip_ws_prefix(w: Seq<char>, t: Seq<char>)
    requires
        forall|i: int| 0 <= i < w.len() ==> is_json_ws(#[trigger] w[i]),
        t.len() == 0 || !is_json_ws(t[0]),
    ensures
        skip_json_ws(w + t) == t,
    decreases w.len(),
{
    if w.len() == 0 {
        assert(w + t =~= t);
    } else {
        assert((w + t).drop_first() =~= w.drop_first() + t);
        lemma_skip_ws_prefix(w.drop_first(), t);
    }
}

/// The digits of a number are decimal digits, without a leading zero, and
/// read back as the number.
proof fn lemma_decimal(n: nat)
    ensures
        decimal(n).len() >= 1,
        forall|i: int| 0 <= i < decimal(n).len() ==> is_digit(#[trigger] decimal(n)[i]),
        digits_value(decimal(n)) == n,
        decimal(n).len() > 1 ==> decimal(n)[0] != '0',
        n >= 1 ==> decimal(n)[0] != '0',
    decreases n,
{
    if n < 10 {
        lemma_digit_char(n as int);
        let d = decimal(n);
        assert(d.drop_last() =~= Seq::<char>::empty());
        assert(d.last() == digit_char(n as int));
        assert(digits_value(d.drop_last()) == 0);
    } else {
        lemma_decimal(n / 10);
        lemma_digit_char((n % 10) as int);
        let d = decimal(n);
        assert(d.drop_last() =~= decimal(n / 10));
        assert(d.last() == digit_char((n % 10) as int));
        assert(d[0] == decimal(n / 10)[0]);
        assert(n == (n / 10) * 10 + n % 10);
    }
}

/// A run of digits followed by a text that does not start with a digit is
/// a digit run of its own length.
proof fn lemma_digit_run(d: Seq<char>, t: Seq<char>)
    requires
        forall|i: int| 0 <= i < d.len() ==> is_digit(#[trigger] d[i]),
        t.len() == 0 || !is_digit(t[0]),
    ensures
        digit_run(d + t) == d.len(),
    decreases d.len(),
{
    if d.len() == 0 {
        assert(d + t =~= t);
    } else {
        assert((d + t).drop_first() =~= d.drop_first() + t);
        lemma_digit_run(d.drop_first(), t);
    }
}

/// A member written as its quoted key, a colon, a space and its count is
/// read back as itself, the text after the count left over.
proof fn lemma_member(k: Seq<char>, v: u64, tail: Seq<char>)
    requires
        tail.len() == 0 || !is_digit(tail[0]),
    ensures
        json_member(json_quote(k) + seq![':', ' '] + decimal(v as nat) + tail) == Some(
            ((k, v), skip_json_ws(tail)),
        ),
{
    let d = decimal(v as nat);
    let s = json_quote(k) + seq![':', ' '] + d + tail;
    let rest = seq![':', ' '] + d + tail;
    assert(s.drop_first() =~= json_escape(k) + seq!['"'] + rest);
    lemma_escape_read_back(k, rest);
    assert(rest[0] == ':');
    assert(skip_json_ws(rest) == rest);
    lemma_decimal(v as nat);
    let r3 = d + tail;
    assert(rest.drop_first() =~= seq![' '] + r3);
    assert(is_digit(r3[0]));
    lemma_skip_ws_prefix(seq![' '], r3);
    lemma_digit_run(d, tail);
    assert(r3.take(d.len() as int) =~= d);
    assert(r3.skip(d.len() as int) =~= tail);
}

/// The first character of the members laid out one per line is the quote
/// that opens the first key.
proof fn lemma_pretty_members_start(ms: Seq<(Seq<char>, u64)>)
    requires
        ms.len() >= 1,
    ensures
        pretty_members(ms).len() > 0,
        pretty_members(ms)[0] == '"',
{
    let q = json_quote(ms[0].0);
    assert(q[0] == '"');
    let p = pretty_members(ms);
    let rest = if ms.len() == 1 {
        seq!['\n', '}']
    } else {
        seq![',', '\n', ' ', ' '] + pretty_members(ms.drop_first())
    };
    assert(p == q + seq![':', ' '] + decimal(ms[0].1 as nat) + rest);
    assert(p[0] == q[0]);
}

/// Members laid out one per line, then the closing brace, are read back as
/// themselves after the members read before.
proof fn lemma_pretty_members(ms: Seq<(Seq<char>, u64)>, acc: Seq<(Seq<char>, u64)>)
    requires
        ms.len() >= 1,
    ensures
        json_members_from(pretty_members(ms), acc) == Some(acc + ms),
    decreases ms.len(),
{
    let k = ms[0].0;
    let v = ms[0].1;
    let next = acc.push((k, v));
    let s = pretty_members(ms);
    if ms.len() == 1 {
        let tail = seq!['\n', '}'];
        assert(s == json_quote(k) + seq![':', ' '] + decimal(v as nat) + tail);
        lemma_member(k, v, tail);
        assert(tail =~= seq!['\n'] + seq!['}']);
        lemma_skip_ws_prefix(seq!['\n'], seq!['}']);
        assert(seq!['}'].drop_first() =~= Seq::<char>::empty());
        assert(acc + ms =~= next);
    } else {
        let p = pretty_members(ms.drop_first());
        let tail = seq![',', '\n', ' ', ' '] + p;
        assert(s == json_quote(k) + seq![':', ' '] + decimal(v as nat) + tail);
        lemma_member(k, v, tail);
        assert(tail[0] == ',');
        assert(skip_json_ws(tail) == tail);
        lemma_pretty_members_start(ms.drop_first());
        assert(tail.drop_first() =~= seq!['\n', ' ', ' '] + p);
        lemma_skip_ws_prefix(seq!['\n', ' ', ' '], p);
        lemma_pretty_members(ms.drop_first(), next);
        assert(next + ms.drop_first() =~= acc + ms);
    }
}

/// Any members written in the pretty layout read back as the same members
/// in the same order.
pub proof fn lemma_pretty_read_back(ms: Seq<(Seq<char>, u64)>)
    ensures
        json_counts_members(json_counts_pretty(ms)) == Some(ms),
{
    let text = json_counts_pretty(ms);
    if ms.len() == 0 {
        assert(text[0] == '{');
        assert(skip_json_ws(text) == text);
        assert(text.drop_first() =~= seq!['}']);
        assert(skip_json_ws(seq!['}']) == seq!['}']);
        assert(seq!['}'].drop_first() =~= Seq::<char>::empty());
        assert(ms =~= Seq::<(Seq<char>, u64)>::empty());
    } else {
        let p = pretty_members(ms);
        assert(text[0] == '{');
        assert(skip_json_ws(text) == text);
        assert(text.drop_first() =~= seq!['\n', ' ', ' '] + p);
        lemma_pretty_members_start(ms);
        lemma_skip_ws_prefix(seq!['\n', ' ', ' '], p);
        lemma_pretty_members(ms, Seq::<(Seq<char>, u64)>::empty());
        assert(Seq::<(Seq<char>, u64)>::empty() + ms =~= ms);
    }
}

/// An object of one member, written `{"key": count}`, is read as that one
/// member, its key exactly as the string denotes it.
pub proof fn lemma_single_member_object(k: Seq<char>, v: u64)
    ensures
        json_counts_members(seq!['{'] + json_quote(k) + seq![':', ' '] + decimal(v as nat) + seq!['}'])
            == Some(seq![(k, v)]),
        members_map(seq![(k, v)]) == Map::<Seq<char>, u64>::empty().insert(k, v),
{
    let m = json_quote(k) + seq![':', ' '] + decimal(v as nat) + seq!['}'];
    let text = seq!['{'] + m;
    assert(text =~= seq!['{'] + json_quote(k) + seq![':', ' '] + decimal(v as nat) + seq!['}']);
    assert(text[0] == '{');
    assert(skip_json_ws(text) == text);
    assert(text.drop_first() =~= m);
    assert(json_quote(k)[0] == '"');
    assert(m[0] == '"');
    assert(skip_json_ws(m) == m);
    lemma_member(k, v, seq!['}']);
    assert(skip_json_ws(seq!['}']) == seq!['}']);
    assert(seq!['}'].drop_first() =~= Seq::<char>::empty());
    assert(Seq::<(Seq<char>, u64)>::empty().push((k, v)) =~= seq![(k, v)]);
    assert(seq![(k, v)].drop_last() =~= Seq::<(Seq<char>, u64)>::empty());
    assert(members_map(Seq::<(Seq<char>, u64)>::empty()) == Map::<Seq<char>, u64>::empty());
}

/// Reading members keeps each key as written: the map of the members holds,
/// for the last member with a given key, exactly that member's count, and
/// holds no key that no member has.
pub proof fn lemma_members_map_entry(ms: Seq<(Seq<char>, u64)>, i: int)
    requires
        0 <= i < ms.len(),
        forall|j: int| i < j < ms.len() ==> (#[trigger] ms[j]).0 != ms[i].0,
    ensures
        members_map(ms).contains_key(ms[i].0),
        members_map(ms)[ms[i].0] == ms[i].1,
    decreases ms.len(),
{
    if i < ms.len() - 1 {
        let d = ms.drop_last();
        assert(forall|j: int| i < j < d.len() ==> d[j] == ms[j]);
        lemma_members_map_entry(d, i);
        assert(ms.last().0 != ms[i].0);
    }
}

/// A key belongs to the map of the members only when some member has it.
pub proof fn lemma_members_map_keys(ms: Seq<(Seq<char>, u64)>, k: Seq<char>)
    requires
        members_map(ms).contains_key(k),
    ensures
        exists|j: int| 0 <= j < ms.len() && (#[trigger] ms[j]).0 == k,
    decreases ms.len(),
{
    let d = ms.drop_last();
    if ms.last().0 != k {
        lemma_members_map_keys(d, k);
        let j = choose|j: int| 0 <= j < d.len() && (#[trigger] d[j]).0 == k;
        assert(ms[j] == d[j]);
    } else {
        assert(ms[ms.len() - 1].0 == k);
    }
}

} // verus!
