//! The persisted ticker list and its wire form: a JSON array of
//! `["TICKER","Display Name"]` pairs, as the tracker writes it on every add
//! or remove and reads it back once at startup.
//!
//! The encoder writes the compact form: no whitespace, strings escaped with
//! `\"`, `\\` and `\u00XX` for control characters. The parser also takes the
//! other standard short escapes (`\/`, `\b`, `\f`, `\n`, `\r`, `\t`) and any
//! `\u00XX`, so it reads everything the encoder or a common serializer emits
//! for such a list. Anything else is malformed, and a malformed or missing
//! file degrades to the empty list, never to an error.

use vstd::prelude::*;
use crate::text::digit_char;
use crate::text::push_char;
use crate::text::chars_of;

verus! {

/// A list of `(ticker, name)` pairs as the specs speak of it: each string by
/// its characters.
pub open spec fn pairs_view(v: Seq<(String, String)>) -> Seq<(Seq<char>, Seq<char>)> {
    v.map_values(|p: (String, String)| (p.0@, p.1@))
}

/// One hex digit, lowercase.
pub open spec fn hex_char(d: nat) -> char
    recommends
        d < 16,
{
    if d < 10 {
        digit_char(d)
    } else {
        ((d + 87) as u8) as char
    }
}

/// How one character is written inside a JSON string.
pub open spec fn escape_char(c: char) -> Seq<char> {
    if c == '"' {
        seq!['\\', '"']
    } else if c == '\\' {
        seq!['\\', '\\']
    } else if (c as u32) < 32 {
        seq!['\\', 'u', '0', '0', hex_char(((c as u32) / 16) as nat), hex_char(((c as u32) % 16) as nat)]
    } else {
        seq![c]
    }
}

/// The written form of a string's characters, between the quotes.
pub open spec fn encode_string_body(s: Seq<char>) -> Seq<char>
    decreases s.len(),
{
    if s.len() == 0 {
        Seq::empty()
    } else {
        escape_char(s[0]) + encode_string_body(s.drop_first())
    }
}

/// The written form of one string, quotes included.
pub open spec fn encode_string(s: Seq<char>) -> Seq<char> {
    seq!['"'] + encode_string_body(s) + seq!['"']
}

/// The written form of one `(ticker, name)` pair: a two-element array.
pub open spec fn encode_pair(p: (Seq<char>, Seq<char>)) -> Seq<char> {
    seq!['['] + encode_string(p.0) + seq![','] + encode_string(p.1) + seq![']']
}

/// The written forms of every pair after the first, each behind its comma.
pub open spec fn encode_pairs_rest(l: Seq<(Seq<char>, Seq<char>)>) -> Seq<char>
    decreases l.len(),
{
    if l.len() == 0 {
        Seq::empty()
    } else {
        seq![','] + encode_pair(l[0]) + encode_pairs_rest(l.drop_first())
    }
}

/// The written form of the whole list.
pub open spec fn encode_list(l: Seq<(Seq<char>, Seq<char>)>) -> Seq<char> {
    if l.len() == 0 {
        seq!['[', ']']
    } else {
        seq!['['] + encode_pair(l[0]) + encode_pairs_rest(l.drop_first()) + seq![']']
    }
}

/// Whether a character is a hex digit, either case.
pub open spec fn is_hex_digit(c: char) -> bool {
    ((c as u32) >= 48 && (c as u32) < 58) || ((c as u32) >= 97 && (c as u32) < 103) || ((c as u32)
        >= 65 && (c as u32) < 71)
}

/// The value of a hex digit.
pub open spec fn hex_val(c: char) -> nat {
    if (c as u32) >= 48 && (c as u32) < 58 {
        ((c as u32) - 48) as nat
    } else if (c as u32) >= 97 && (c as u32) < 103 {
        ((c as u32) - 87) as nat
    } else {
        ((c as u32) - 55) as nat
    }
}

/// What a one-letter escape stands for, if it is one.
pub open spec fn short_escape(c: char) -> Option<char> {
    if c == '"' {
        Some('"')
    } else if c == '\\' {
        Some('\\')
    } else if c == '/' {
        Some('/')
    } else if c == 'b' {
        Some((8 as u8) as char)
    } else if c == 'f' {
        Some((12 as u8) as char)
    } else if c == 'n' {
        Some('\n')
    } else if c == 'r' {
        Some('\r')
    } else if c == 't' {
        Some('\t')
    } else {
        None
    }
}

/// Reads a string's characters up to and over its closing quote; what is
/// parsed, and what follows the quote.
pub open spec fn parse_string_body(s: Seq<char>) -> Option<(Seq<char>, Seq<char>)>
    decreases s.len(),
{
    if s.len() == 0 {
        None
    } else if s[0] == '"' {
        Some((Seq::empty(), s.drop_first()))
    } else if s[0] == '\\' {
        if s.len() >= 2 && short_escape(s[1]) is Some {
            match parse_string_body(s.subrange(2, s.len() as int)) {
                Some(t) => Some((seq![short_escape(s[1])->0] + t.0, t.1)),
                None => None,
            }
        } else if s.len() >= 6 && s[1] == 'u' && s[2] == '0' && s[3] == '0' && is_hex_digit(s[4])
            && is_hex_digit(s[5]) {
            match parse_string_body(s.subrange(6, s.len() as int)) {
                Some(t) => Some(
                    (seq![(((hex_val(s[4]) * 16 + hex_val(s[5])) as u8) as char)] + t.0, t.1),
                ),
                None => None,
            }
        } else {
            None
        }
    } else {
        match parse_string_body(s.drop_first()) {
            Some(t) => Some((seq![s[0]] + t.0, t.1)),
            None => None,
        }
    }
}

/// Reads one quoted string.
pub open spec fn parse_string(s: Seq<char>) -> Option<(Seq<char>, Seq<char>)> {
    if s.len() >= 1 && s[0] == '"' {
        parse_string_body(s.drop_first())
    } else {
        None
    }
}

/// Reads one `["ticker","name"]` pair.
pub open spec fn parse_pair(s: Seq<char>) -> Option<((Seq<char>, Seq<char>), Seq<char>)> {
    if s.len() >= 1 && s[0] == '[' {
        match parse_string(s.drop_first()) {
            Some(t) => {
                if t.1.len() >= 1 && t.1[0] == ',' {
                    match parse_string(t.1.drop_first()) {
                        Some(n) => {
                            if n.1.len() >= 1 && n.1[0] == ']' {
                                Some(((t.0, n.0), n.1.drop_first()))
                            } else {
                                None
                            }
                        },
                        None => None,
                    }
                } else {
                    None
                }
            },
            None => None,
        }
    } else {
        None
    }
}

/// A parsed string never reaches past what it was given, and always consumes
/// its closing quote.
pub proof fn lemma_parse_string_body_shrinks(s: Seq<char>)
    ensures
        parse_string_body(s) is Some ==> (parse_string_body(s)->0).1.len() < s.len(),
    decreases s.len(),
{
    if s.len() == 0 {
    } else if s[0] == '"' {
    } else if s[0] == '\\' {
        if s.len() >= 2 && short_escape(s[1]) is Some {
            lemma_parse_string_body_shrinks(s.subrange(2, s.len() as int));
        } else if s.len() >= 6 && s[1] == 'u' && s[2] == '0' && s[3] == '0' && is_hex_digit(s[4])
            && is_hex_digit(s[5]) {
            lemma_parse_string_body_shrinks(s.subrange(6, s.len() as int));
        }
    } else {
        lemma_parse_string_body_shrinks(s.drop_first());
    }
}

/// As `lemma_parse_string_body_shrinks`, for a whole quoted string.
pub proof fn lemma_parse_string_shrinks(s: Seq<char>)
    ensures
        parse_string(s) is Some ==> (parse_string(s)->0).1.len() < s.len(),
{
    if s.len() >= 1 && s[0] == '"' {
        lemma_parse_string_body_shrinks(s.drop_first());
    }
}

/// A parsed pair consumes at least its brackets.
pub proof fn lemma_parse_pair_shrinks(s: Seq<char>)
    ensures
        parse_pair(s) is Some ==> (parse_pair(s)->0).1.len() < s.len(),
{
    if s.len() >= 1 && s[0] == '[' {
        lemma_parse_string_shrinks(s.drop_first());
        if parse_string(s.drop_first()) is Some {
            let t = parse_string(s.drop_first())->0;
            if t.1.len() >= 1 && t.1[0] == ',' {
                lemma_parse_string_shrinks(t.1.drop_first());
            }
        }
    }
}

/// Reads `,pair` repetitions up to and over the closing bracket.
pub open spec fn parse_pairs_rest(s: Seq<char>) -> Option<
    (Seq<(Seq<char>, Seq<char>)>, Seq<char>),
>
    decreases s.len(),
    via parse_pairs_rest_decreases
{
    if s.len() == 0 {
        None
    } else if s[0] == ']' {
        Some((Seq::empty(), s.drop_first()))
    } else if s[0] == ',' {
        match parse_pair(s.drop_first()) {
            Some(p) => {
                match parse_pairs_rest(p.1) {
                    Some(l) => Some((seq![p.0] + l.0, l.1)),
                    None => None,
                }
            },
            None => None,
        }
    } else {
        None
    }
}

#[via_fn]
proof fn parse_pairs_rest_decreases(s: Seq<char>) {
    if s.len() > 0 && s[0] != ']' && s[0] == ',' {
        lemma_parse_pair_shrinks(s.drop_first());
    }
}

/// Reads the whole array of pairs.
pub open spec fn parse_list(s: Seq<char>) -> Option<(Seq<(Seq<char>, Seq<char>)>, Seq<char>)> {
    if s.len() >= 1 && s[0] == '[' {
        if s.len() >= 2 && s[1] == ']' {
            Some((Seq::empty(), s.subrange(2, s.len() as int)))
        } else {
            match parse_pair(s.drop_first()) {
                Some(p) => {
                    match parse_pairs_rest(p.1) {
                        Some(l) => Some((seq![p.0] + l.0, l.1)),
                        None => None,
                    }
                },
                None => None,
            }
        }
    } else {
        None
    }
}

/// What a persisted text decodes to: the list, if the text is exactly one
/// well-formed array of pairs.
pub open spec fn decode_spec(s: Seq<char>) -> Option<Seq<(Seq<char>, Seq<char>)>> {
    match parse_list(s) {
        Some(l) => {
            if l.1.len() == 0 {
                Some(l.0)
            } else {
                None
            }
        },
        None => None,
    }
}

/// A hex digit the encoder writes reads back as itself.
proof fn lemma_hex_char_val(d: nat)
    requires
        d < 16,
    ensures
        is_hex_digit(hex_char(d)),
        hex_val(hex_char(d)) == d,
        hex_char(d) != '"',
        hex_char(d) != '\\',
{
}

/// A string's written form reads back as that string, whatever follows the
/// closing quote.
pub proof fn lemma_parse_encoded_body(s: Seq<char>, rest: Seq<char>)
    ensures
        parse_string_body(encode_string_body(s) + seq!['"'] + rest) == Some((s, rest)),
    decreases s.len(),
{
    let w = encode_string_body(s) + seq!['"'] + rest;
    if s.len() == 0 {
        assert(w =~= seq!['"'] + rest);
        assert(w.drop_first() =~= rest);
    } else {
        let c = s[0];
        let s1 = s.drop_first();
        let tail = encode_string_body(s1) + seq!['"'] + rest;
        lemma_parse_encoded_body(s1, rest);
        if c == '"' {
            assert(w =~= seq!['\\', '"'] + tail);
            assert(w.subrange(2, w.len() as int) =~= tail);
            assert(seq!['"'] + s1 =~= s);
        } else if c == '\\' {
            assert(w =~= seq!['\\', '\\'] + tail);
            assert(w.subrange(2, w.len() as int) =~= tail);
            assert(seq!['\\'] + s1 =~= s);
        } else if (c as u32) < 32 {
            let code = c as u32;
            let h1 = hex_char((code / 16) as nat);
            let h0 = hex_char((code % 16) as nat);
            lemma_hex_char_val((code / 16) as nat);
            lemma_hex_char_val((code % 16) as nat);
            assert(w =~= seq!['\\', 'u', '0', '0', h1, h0] + tail);
            assert(short_escape('u') is None);
            assert(w.subrange(6, w.len() as int) =~= tail);
            vstd::utf8::char_is_scalar(c);
            vstd::utf8::char_u32_cast(c, code);
            assert(hex_val(h1) * 16 + hex_val(h0) == code);
            assert((((hex_val(h1) * 16 + hex_val(h0)) as u8) as char) == c);
            assert(seq![c] + s1 =~= s);
        } else {
            assert(w =~= seq![c] + tail);
            assert(w.drop_first() =~= tail);
            assert(seq![c] + s1 =~= s);
        }
    }
}

/// As `lemma_parse_encoded_body`, with the quotes on.
pub proof fn lemma_parse_encoded_string(t: Seq<char>, rest: Seq<char>)
    ensures
        parse_string(encode_string(t) + rest) == Some((t, rest)),
{
    let w = encode_string(t) + rest;
    assert(w[0] == '"');
    assert(w.drop_first() =~= encode_string_body(t) + seq!['"'] + rest);
    lemma_parse_encoded_body(t, rest);
}

/// A pair's written form reads back as that pair.
pub proof fn lemma_parse_encoded_pair(p: (Seq<char>, Seq<char>), rest: Seq<char>)
    ensures
        parse_pair(encode_pair(p) + rest) == Some((p, rest)),
{
    let w = encode_pair(p) + rest;
    let r1 = seq![','] + encode_string(p.1) + seq![']'] + rest;
    let r2 = seq![']'] + rest;
    assert(w[0] == '[');
    assert(w.drop_first() =~= encode_string(p.0) + r1);
    lemma_parse_encoded_string(p.0, r1);
    assert(r1[0] == ',');
    assert(r1.drop_first() =~= encode_string(p.1) + r2);
    lemma_parse_encoded_string(p.1, r2);
    assert(r2[0] == ']');
    assert(r2.drop_first() =~= rest);
}

/// The written tail of a list reads back as those pairs.
pub proof fn lemma_parse_encoded_pairs_rest(l: Seq<(Seq<char>, Seq<char>)>, rest: Seq<char>)
    ensures
        parse_pairs_rest(encode_pairs_rest(l) + seq![']'] + rest) == Some((l, rest)),
    decreases l.len(),
{
    let w = encode_pairs_rest(l) + seq![']'] + rest;
    if l.len() == 0 {
        assert(w =~= seq![']'] + rest);
        assert(w.drop_first() =~= rest);
    } else {
        let l1 = l.drop_first();
        let tail = encode_pairs_rest(l1) + seq![']'] + rest;
        assert(w =~= seq![','] + (encode_pair(l[0]) + tail));
        assert(w.drop_first() =~= encode_pair(l[0]) + tail);
        lemma_parse_encoded_pair(l[0], tail);
        lemma_parse_encoded_pairs_rest(l1, rest);
        assert(seq![l[0]] + l1 =~= l);
    }
}

/// Saving and loading round-trips: the written form of any list — empty,
/// duplicates and all — decodes back to exactly that list.
pub proof fn lemma_save_load_round_trip(l: Seq<(Seq<char>, Seq<char>)>)
    ensures
        decode_spec(encode_list(l)) == Some(l),
{
    let w = encode_list(l);
    if l.len() == 0 {
        assert(w.subrange(2, w.len() as int) =~= Seq::<char>::empty());
    } else {
        let l1 = l.drop_first();
        let tail = encode_pairs_rest(l1) + seq![']'] + Seq::<char>::empty();
        assert(w[0] == '[');
        assert(w[1] == '[');
        assert(w.drop_first() =~= encode_pair(l[0]) + tail);
        lemma_parse_encoded_pair(l[0], tail);
        lemma_parse_encoded_pairs_rest(l1, Seq::<char>::empty());
        assert(seq![l[0]] + l1 =~= l);
    }
}

/// Encoding one more character extends the written form by its escape.
proof fn lemma_encode_body_snoc(t: Seq<char>, c: char)
    ensures
        encode_string_body(t.push(c)) == encode_string_body(t) + escape_char(c),
    decreases t.len(),
{
    if t.len() == 0 {
        reveal_with_fuel(encode_string_body, 2);
        assert(t.push(c).drop_first() =~= Seq::<char>::empty());
        assert(encode_string_body(t.push(c)) =~= escape_char(c));
        assert(encode_string_body(t) + escape_char(c) =~= escape_char(c));
    } else {
        assert(t.push(c).drop_first() =~= t.drop_first().push(c));
        lemma_encode_body_snoc(t.drop_first(), c);
        assert(escape_char(t[0]) + (encode_string_body(t.drop_first()) + escape_char(c)) =~= (
        escape_char(t[0]) + encode_string_body(t.drop_first())) + escape_char(c));
    }
}

/// The pairs after the first, with one more on the end.
proof fn lemma_encode_rest_snoc(l: Seq<(Seq<char>, Seq<char>)>, p: (Seq<char>, Seq<char>))
    ensures
        encode_pairs_rest(l.push(p)) == encode_pairs_rest(l) + seq![','] + encode_pair(p),
    decreases l.len(),
{
    if l.len() == 0 {
        reveal_with_fuel(encode_pairs_rest, 2);
        assert(l.push(p).drop_first() =~= Seq::<(Seq<char>, Seq<char>)>::empty());
        assert(encode_pairs_rest(l.push(p)) =~= seq![','] + encode_pair(p));
        assert(encode_pairs_rest(l) + seq![','] + encode_pair(p) =~= seq![','] + encode_pair(p));
    } else {
        assert(l.push(p).drop_first() =~= l.drop_first().push(p));
        lemma_encode_rest_snoc(l.drop_first(), p);
        assert(seq![','] + encode_pair(l[0]) + (encode_pairs_rest(l.drop_first()) + seq![',']
            + encode_pair(p)) =~= (seq![','] + encode_pair(l[0]) + encode_pairs_rest(
            l.drop_first())) + seq![','] + encode_pair(p));
    }
}

/// Everything between the list's brackets.
pub open spec fn encode_inner(l: Seq<(Seq<char>, Seq<char>)>) -> Seq<char> {
    if l.len() == 0 {
        Seq::empty()
    } else {
        encode_pair(l[0]) + encode_pairs_rest(l.drop_first())
    }
}

/// The list's body, with one more pair on the end.
proof fn lemma_encode_inner_snoc(l: Seq<(Seq<char>, Seq<char>)>, i: int)
    requires
        0 <= i < l.len(),
    ensures
        encode_inner(l.take(i + 1)) == encode_inner(l.take(i)) + (if i == 0 {
            encode_pair(l[i])
        } else {
            seq![','] + encode_pair(l[i])
        }),
{
    let t = l.take(i);
    assert(l.take(i + 1) =~= t.push(l[i]));
    if i == 0 {
        reveal_with_fuel(encode_pairs_rest, 2);
        assert(t.push(l[i]).drop_first() =~= Seq::<(Seq<char>, Seq<char>)>::empty());
        assert(encode_inner(t.push(l[i])) =~= encode_pair(l[i]));
        assert(encode_inner(t) + encode_pair(l[i]) =~= encode_pair(l[i]));
    } else {
        assert(t.push(l[i]).drop_first() =~= t.drop_first().push(l[i]));
        lemma_encode_rest_snoc(t.drop_first(), l[i]);
        assert(t.push(l[i])[0] == t[0]);
        assert(encode_pair(t[0]) + (encode_pairs_rest(t.drop_first()) + seq![','] + encode_pair(
            l[i],
        )) =~= (encode_pair(t[0]) + encode_pairs_rest(t.drop_first())) + (seq![','] + encode_pair(
            l[i],
        )));
    }
}

/// The hex digit the encoder writes for a value.
fn hex_digit(d: u32) -> (c: char)
    requires
        d < 16,
    ensures
        c == hex_char(d as nat),
{
    if d < 10 {
        (48 + d as u8) as char
    } else {
        (87 + d as u8) as char
    }
}

/// Appends one string in its written form, quotes and escapes included.
fn push_encoded_string(out: &mut String, s: &str)
    ensures
        final(out)@ == old(out)@ + encode_string(s@),
{
    let cs = chars_of(s);
    push_char(out, '"');
    let n = cs.len();
    let mut i: usize = 0;
    while i < n
        invariant
            cs@ == s@,
            i <= n,
            n == cs@.len(),
            out@ == old(out)@ + seq!['"'] + encode_string_body(s@.take(i as int)),
        decreases n - i,
    {
        let c = cs[i];
        proof {
            lemma_encode_body_snoc(s@.take(i as int), s@[i as int]);
            assert(s@.take(i + 1) =~= s@.take(i as int).push(s@[i as int]));
        }
        if c == '"' {
            push_char(out, '\\');
            push_char(out, '"');
        } else if c == '\\' {
            push_char(out, '\\');
            push_char(out, '\\');
        } else if (c as u32) < 32 {
            let code = c as u32;
            push_char(out, '\\');
            push_char(out, 'u');
            push_char(out, '0');
            push_char(out, '0');
            push_char(out, hex_digit(code / 16));
            push_char(out, hex_digit(code % 16));
        } else {
            push_char(out, c);
        }
        proof {
            assert(out@ =~= old(out)@ + seq!['"'] + encode_string_body(s@.take(i + 1)));
        }
        i = i + 1;
    }
    push_char(out, '"');
    proof {
        assert(s@.take(n as int) =~= s@);
        assert(final(out)@ =~= old(out)@ + encode_string(s@));
    }
}

/// Appends one pair in its written form.
fn push_encoded_pair(out: &mut String, ticker: &str, name: &str)
    ensures
        final(out)@ == old(out)@ + encode_pair((ticker@, name@)),
{
    push_char(out, '[');
    push_encoded_string(out, ticker);
    push_char(out, ',');
    push_encoded_string(out, name);
    push_char(out, ']');
    proof {
        assert(final(out)@ =~= old(out)@ + encode_pair((ticker@, name@)));
    }
}

/// The persisted form of the tracked list: what is written, in full, on
/// every add or remove.
pub fn encode_tickers(pairs: &Vec<(String, String)>) -> (r: String)
    ensures
        r@ == encode_list(pairs_view(pairs@)),
{
    let ghost l = pairs_view(pairs@);
    let mut out = String::new();
    push_char(&mut out, '[');
    let n = pairs.len();
    let mut i: usize = 0;
    while i < n
        invariant
            l == pairs_view(pairs@),
            i <= n,
            n == pairs@.len(),
            l.len() == n,
            out@ == seq!['['] + encode_inner(l.take(i as int)),
        decreases n - i,
    {
        proof {
            lemma_encode_inner_snoc(l, i as int);
            assert(l[i as int] == (pairs@[i as int].0@, pairs@[i as int].1@));
        }
        if i > 0 {
            push_char(&mut out, ',');
        }
        let p = &pairs[i];
        push_encoded_pair(&mut out, p.0.as_str(), p.1.as_str());
        proof {
            assert(out@ =~= seq!['['] + encode_inner(l.take(i + 1)));
        }
        i = i + 1;
    }
    push_char(&mut out, ']');
    proof {
        assert(l.take(n as int) =~= l);
        if l.len() == 0 {
            assert(out@ =~= encode_list(l));
        } else {
            assert(l.drop_first() =~= l.take(n as int).drop_first());
            assert(out@ =~= encode_list(l));
        }
    }
    out
}

/// What the rest of a string parse owes the whole one: the accumulator plus
/// whatever remains to be read, or the same failure.
pub open spec fn continues_string(
    full: Option<(Seq<char>, Seq<char>)>,
    acc: Seq<char>,
    sub: Option<(Seq<char>, Seq<char>)>,
) -> bool {
    match sub {
        Some(t) => full == Some((acc + t.0, t.1)),
        None => full is None,
    }
}

/// As `continues_string`, at the list level.
pub open spec fn continues_pairs(
    full: Option<(Seq<(Seq<char>, Seq<char>)>, Seq<char>)>,
    acc: Seq<(Seq<char>, Seq<char>)>,
    sub: Option<(Seq<(Seq<char>, Seq<char>)>, Seq<char>)>,
) -> bool {
    match sub {
        Some(t) => full == Some((acc + t.0, t.1)),
        None => full is None,
    }
}

/// Reads a string's characters from `start` up to and over the closing
/// quote.
fn parse_string_body_exec(cs: &Vec<char>, start: usize) -> (r: Option<(String, usize)>)
    requires
        start <= cs@.len(),
    ensures
        match r {
            Some(t) => {
                &&& start < t.1 <= cs@.len()
                &&& parse_string_body(cs@.subrange(start as int, cs@.len() as int)) == Some(
                    (t.0@, cs@.subrange(t.1 as int, cs@.len() as int)),
                )
            },
            None => parse_string_body(cs@.subrange(start as int, cs@.len() as int)) is None,
        },
{
    let n = cs.len();
    let ghost full = parse_string_body(cs@.subrange(start as int, n as int));
    let mut acc = String::new();
    let mut j: usize = start;
    while j < n
        invariant
            start <= j <= n,
            n == cs@.len(),
            full == parse_string_body(cs@.subrange(start as int, n as int)),
            continues_string(full, acc@, parse_string_body(cs@.subrange(j as int, n as int))),
        decreases n - j,
    {
        let ghost w = cs@.subrange(j as int, n as int);
        let c = cs[j];
        proof {
            assert(w[0] == c);
            assert(w.drop_first() =~= cs@.subrange(j + 1, n as int));
        }
        if c == '"' {
            return Some((acc, j + 1));
        } else if c == '\\' {
            if j + 1 >= n {
                proof {
                    assert(w.len() < 2);
                }
                return None;
            }
            let e = cs[j + 1];
            proof {
                assert(w[1] == e);
                assert(w.subrange(2, w.len() as int) =~= cs@.subrange(j + 2, n as int));
            }
            let unescaped: Option<char> = if e == '"' {
                Some('"')
            } else if e == '\\' {
                Some('\\')
            } else if e == '/' {
                Some('/')
            } else if e == 'b' {
                Some((8 as u8) as char)
            } else if e == 'f' {
                Some((12 as u8) as char)
            } else if e == 'n' {
                Some('\n')
            } else if e == 'r' {
                Some('\r')
            } else if e == 't' {
                Some('\t')
            } else {
                None
            };
            if let Some(u) = unescaped {
                proof {
                    assert(short_escape(e) == Some(u));
                    assert(acc@ + (seq![u] + (parse_string_body(
                        cs@.subrange(j + 2, n as int),
                    )->0).0) =~= acc@.push(u) + (parse_string_body(
                        cs@.subrange(j + 2, n as int),
                    )->0).0);
                }
                push_char(&mut acc, u);
                j = j + 2;
            } else if e == 'u' {
                proof {
                    assert(short_escape(e) is None);
                }
                if n - j < 6 {
                    proof {
                        assert(w.len() < 6);
                    }
                    return None;
                }
                let z1 = cs[j + 2];
                let z2 = cs[j + 3];
                let h1 = cs[j + 4];
                let h0 = cs[j + 5];
                proof {
                    assert(w[2] == z1 && w[3] == z2 && w[4] == h1 && w[5] == h0);
                    assert(w.subrange(6, w.len() as int) =~= cs@.subrange(j + 6, n as int));
                }
                if z1 != '0' || z2 != '0' {
                    return None;
                }
                let hv1 = hex_value(h1);
                let hv0 = hex_value(h0);
                if let (Some(d1), Some(d0)) = (hv1, hv0) {
                    let u = ((d1 * 16 + d0) as u8) as char;
                    proof {
                        assert(is_hex_digit(h1) && is_hex_digit(h0));
                        assert(u == (((hex_val(h1) * 16 + hex_val(h0)) as u8) as char));
                        assert(acc@ + (seq![u] + (parse_string_body(
                            cs@.subrange(j + 6, n as int),
                        )->0).0) =~= acc@.push(u) + (parse_string_body(
                            cs@.subrange(j + 6, n as int),
                        )->0).0);
                    }
                    push_char(&mut acc, u);
                    j = j + 6;
                } else {
                    return None;
                }
            } else {
                proof {
                    assert(short_escape(e) is None);
                }
                return None;
            }
        } else {
            proof {
                assert(acc@ + (seq![c] + (parse_string_body(
                    cs@.subrange(j + 1, n as int),
                )->0).0) =~= acc@.push(c) + (parse_string_body(
                    cs@.subrange(j + 1, n as int),
                )->0).0);
            }
            push_char(&mut acc, c);
            j = j + 1;
        }
    }
    proof {
        assert(cs@.subrange(j as int, n as int) =~= Seq::<char>::empty());
    }
    None
}

/// The value of a hex digit, if the character is one.
fn hex_value(c: char) -> (r: Option<u32>)
    ensures
        match r {
            Some(d) => is_hex_digit(c) && d == hex_val(c) && d < 16,
            None => !is_hex_digit(c),
        },
{
    let u = c as u32;
    if u >= 48 && u < 58 {
        Some(u - 48)
    } else if u >= 97 && u < 103 {
        Some(u - 87)
    } else if u >= 65 && u < 71 {
        Some(u - 55)
    } else {
        None
    }
}

/// Reads one quoted string from `start`.
fn parse_string_exec(cs: &Vec<char>, start: usize) -> (r: Option<(String, usize)>)
    requires
        start <= cs@.len(),
    ensures
        match r {
            Some(t) => {
                &&& start < t.1 <= cs@.len()
                &&& parse_string(cs@.subrange(start as int, cs@.len() as int)) == Some(
                    (t.0@, cs@.subrange(t.1 as int, cs@.len() as int)),
                )
            },
            None => parse_string(cs@.subrange(start as int, cs@.len() as int)) is None,
        },
{
    let n = cs.len();
    if start < n && cs[start] == '"' {
        proof {
            assert(cs@.subrange(start as int, n as int)[0] == '"');
            assert(cs@.subrange(start as int, n as int).drop_first() =~= cs@.subrange(
                start + 1,
                n as int,
            ));
        }
        parse_string_body_exec(cs, start + 1)
    } else {
        None
    }
}

/// Reads one `["ticker","name"]` pair from `start`.
fn parse_pair_exec(cs: &Vec<char>, start: usize) -> (r: Option<((String, String), usize)>)
    requires
        start <= cs@.len(),
    ensures
        match r {
            Some(t) => {
                &&& start < t.1 <= cs@.len()
                &&& parse_pair(cs@.subrange(start as int, cs@.len() as int)) == Some(
                    (((t.0).0@, (t.0).1@), cs@.subrange(t.1 as int, cs@.len() as int)),
                )
            },
            None => parse_pair(cs@.subrange(start as int, cs@.len() as int)) is None,
        },
{
    let n = cs.len();
    let ghost w = cs@.subrange(start as int, n as int);
    if start < n && cs[start] == '[' {
        proof {
            assert(w[0] == '[');
            assert(w.drop_first() =~= cs@.subrange(start + 1, n as int));
        }
        match parse_string_exec(cs, start + 1) {
            Some((ticker, j1)) => {
                if j1 < n && cs[j1] == ',' {
                    proof {
                        assert(cs@.subrange(j1 as int, n as int)[0] == ',');
                        assert(cs@.subrange(j1 as int, n as int).drop_first() =~= cs@.subrange(
                            j1 + 1,
                            n as int,
                        ));
                    }
                    match parse_string_exec(cs, j1 + 1) {
                        Some((name, j2)) => {
                            if j2 < n && cs[j2] == ']' {
                                proof {
                                    assert(cs@.subrange(j2 as int, n as int)[0] == ']');
                                    assert(cs@.subrange(j2 as int, n as int).drop_first()
                                        =~= cs@.subrange(j2 + 1, n as int));
                                }
                                Some(((ticker, name), j2 + 1))
                            } else {
                                None
                            }
                        },
                        None => None,
                    }
                } else {
                    None
                }
            },
            None => None,
        }
    } else {
        None
    }
}

/// Reads `,pair` repetitions from `start`, over the closing bracket.
fn parse_pairs_rest_exec(cs: &Vec<char>, start: usize) -> (r: Option<
    (Vec<(String, String)>, usize),
>)
    requires
        start <= cs@.len(),
    ensures
        match r {
            Some(t) => {
                &&& start < t.1 <= cs@.len()
                &&& parse_pairs_rest(cs@.subrange(start as int, cs@.len() as int)) == Some(
                    (pairs_view(t.0@), cs@.subrange(t.1 as int, cs@.len() as int)),
                )
            },
            None => parse_pairs_rest(cs@.subrange(start as int, cs@.len() as int)) is None,
        },
{
    let n = cs.len();
    let ghost full = parse_pairs_rest(cs@.subrange(start as int, n as int));
    let mut acc: Vec<(String, String)> = Vec::new();
    let mut j: usize = start;
    while j < n
        invariant
            start <= j <= n,
            n == cs@.len(),
            full == parse_pairs_rest(cs@.subrange(start as int, n as int)),
            continues_pairs(full, pairs_view(acc@), parse_pairs_rest(
                cs@.subrange(j as int, n as int),
            )),
        decreases n - j,
    {
        let ghost w = cs@.subrange(j as int, n as int);
        let c = cs[j];
        proof {
            assert(w[0] == c);
            assert(w.drop_first() =~= cs@.subrange(j + 1, n as int));
        }
        if c == ']' {
            proof {
                assert(pairs_view(acc@) + Seq::<(Seq<char>, Seq<char>)>::empty() =~= pairs_view(
                    acc@,
                ));
            }
            return Some((acc, j + 1));
        } else if c == ',' {
            match parse_pair_exec(cs, j + 1) {
                Some((p, j2)) => {
                    proof {
                        let sub = parse_pairs_rest(cs@.subrange(j2 as int, n as int));
                        if sub is Some {
                            assert(pairs_view(acc@) + (seq![(p.0@, p.1@)] + (sub->0).0)
                                =~= pairs_view(acc@.push(p)) + (sub->0).0);
                        }
                    }
                    acc.push(p);
                    j = j2;
                },
                None => {
                    return None;
                },
            }
        } else {
            return None;
        }
    }
    proof {
        assert(cs@.subrange(j as int, n as int) =~= Seq::<char>::empty());
    }
    None
}

/// Reads a persisted text whole: the list, or nothing for a text that is not
/// exactly one well-formed array of pairs.
pub fn decode_tickers(s: &str) -> (r: Option<Vec<(String, String)>>)
    ensures
        match r {
            Some(v) => decode_spec(s@) == Some(pairs_view(v@)),
            None => decode_spec(s@) is None,
        },
{
    let cs = chars_of(s);
    let n = cs.len();
    proof {
        assert(cs@.subrange(0, n as int) =~= s@);
    }
    if n >= 1 && cs[0] == '[' {
        if n >= 2 && cs[1] == ']' {
            if n == 2 {
                let v: Vec<(String, String)> = Vec::new();
                proof {
                    assert(s@.subrange(2, s@.len() as int) =~= Seq::<char>::empty());
                    assert(pairs_view(v@) =~= Seq::<(Seq<char>, Seq<char>)>::empty());
                }
                Some(v)
            } else {
                None
            }
        } else {
            proof {
                assert(s@.drop_first() =~= cs@.subrange(1, n as int));
            }
            match parse_pair_exec(&cs, 1) {
                Some((p, j)) => {
                    match parse_pairs_rest_exec(&cs, j) {
                        Some((mut tail, j2)) => {
                            if j2 == n {
                                proof {
                                    assert(cs@.subrange(j2 as int, n as int) =~= Seq::<
                                        char,
                                    >::empty());
                                }
                                let mut v: Vec<(String, String)> = Vec::new();
                                v.push(p);
                                let ghost p0 = (v@[0].0@, v@[0].1@);
                                let ghost tail0 = tail@;
                                v.append(&mut tail);
                                proof {
                                    assert(pairs_view(v@) =~= seq![p0] + pairs_view(tail0));
                                }
                                Some(v)
                            } else {
                                None
                            }
                        },
                        None => None,
                    }
                },
                None => None,
            }
        }
    } else {
        None
    }
}

/// The tracked list read at startup: the decoded pairs, or the empty list
/// for a malformed text — degradation, never an error.
pub fn load_tickers(s: &str) -> (v: Vec<(String, String)>)
    ensures
        match decode_spec(s@) {
            Some(l) => pairs_view(v@) == l,
            None => v@.len() == 0,
        },
{
    match decode_tickers(s) {
        Some(v) => v,
        None => Vec::new(),
    }
}

} // verus!
