//! Text forms of an identifier: the canonical `kind:node:counter` form, the
//! `0x` raw form that the parser also takes, and a diagnostic rendering.
use vstd::prelude::*;

use crate::digits::{
    all_digits, decimal, digit_value, digits_value, lemma_decimal, lemma_decimal_read_back,
    lemma_upper_hex, parse_unsigned, pow16, push_char, push_decimal, push_upper_hex, unsigned_of,
    upper_hex,
};
use crate::layout::{
    counter_of, kind_of, lemma_fields_cover, lemma_fields_round_trip, node_of, packed, NetId64,
    NODE_UNIT,
};

verus! {

/// The one error of the parser: the text is not an identifier.
#[derive(Clone, Copy, PartialEq, Eq, Structural, Debug)]
pub struct ParseError;

impl ParseError {
    /// The error's message.
    pub fn to_string(&self) -> (r: String)
        ensures
            r@ == "invalid NetId64"@,
    {
        "invalid NetId64".to_string()
    }
}

/// The pieces of `s` between colons, in order; one piece when there is no
/// colon.
pub open spec fn split_fields(s: Seq<char>) -> Seq<Seq<char>>
    decreases s.len(),
{
    if s.len() == 0 {
        seq![seq![]]
    } else {
        let rest = split_fields(s.drop_last());
        if s.last() == ':' {
            rest.push(seq![])
        } else {
            rest.update(rest.len() - 1, rest.last().push(s.last()))
        }
    }
}

/// `s` starts with `0x`.
pub open spec fn has_hex_prefix(s: Seq<char>) -> bool {
    s.len() >= 2 && s[0] == '0' && s[1] == 'x'
}

/// The raw value that `s` denotes, if it is an identifier in text: `0x`
/// followed by a hexadecimal number of at most 64 bits, or else three decimal
/// fields between colons, the kind at most 255, the node at most 65535 and
/// the counter at most 2^64 - 1 (cut to 40 bits when packed). Each number may
/// carry one leading `+`.
pub open spec fn parsed(s: Seq<char>) -> Option<u64> {
    if has_hex_prefix(s) {
        match unsigned_of(s.subrange(2, s.len() as int), 16, u64::MAX as int) {
            Some(v) => Some(v as u64),
            None => None,
        }
    } else {
        let f = split_fields(s);
        if f.len() != 3 {
            None
        } else {
            match (
                unsigned_of(f[0], 10, 0xFF),
                unsigned_of(f[1], 10, 0xFFFF),
                unsigned_of(f[2], 10, u64::MAX as int),
            ) {
                (Some(k), Some(n), Some(c)) => Some(packed(k, n, c) as u64),
                _ => None,
            }
        }
    }
}

/// The canonical text of three fields: decimal numbers joined by colons.
pub open spec fn triple_text(kind: nat, node: nat, counter: nat) -> Seq<char> {
    decimal(kind) + seq![':'] + decimal(node) + seq![':'] + decimal(counter)
}

/// The canonical text of a raw value.
pub open spec fn canonical_text(raw: u64) -> Seq<char> {
    triple_text(kind_of(raw) as nat, node_of(raw) as nat, counter_of(raw) as nat)
}

/// The diagnostic text of a raw value: the canonical text and the raw value
/// as sixteen upper-case hexadecimal digits.
pub open spec fn diagnostic_text(raw: u64) -> Seq<char> {
    seq!['N', 'e', 't', 'I', 'd', '6', '4', '('] + canonical_text(raw) + seq![
        ' ',
        '|',
        ' ',
        '0',
        'x',
    ] + upper_hex(raw as nat, 16) + seq![')']
}

/// The characters of `s`, in order.
fn chars_of(s: &str) -> (r: Vec<char>)
    ensures
        r@ == s@,
{
    let mut out: Vec<char> = Vec::new();
    for c in it: s.chars()
        invariant
            out@ == it.seq().take(it.index() as int),
    {
        out.push(c);
    }
    assert(out@ =~= s@);
    out
}

/// The characters of `s` from `start` on.
fn tail_of(s: &Vec<char>, start: usize) -> (r: Vec<char>)
    requires
        start <= s@.len(),
    ensures
        r@ == s@.subrange(start as int, s@.len() as int),
{
    let mut out: Vec<char> = Vec::new();
    let mut i: usize = start;
    while i < s.len()
        invariant
            start <= i <= s@.len(),
            out@ == s@.subrange(start as int, i as int),
        decreases s@.len() - i,
    {
        out.push(s[i]);
        i = i + 1;
        assert(out@ =~= s@.subrange(start as int, i as int));
    }
    out
}

/// Splits `s` at every colon.
fn split_colons(s: &Vec<char>) -> (r: Vec<Vec<char>>)
    ensures
        r@.len() == split_fields(s@).len(),
        forall|i: int| 0 <= i < r@.len() ==> #[trigger] r@[i]@ == split_fields(s@)[i],
{
    let mut done: Vec<Vec<char>> = Vec::new();
    let mut cur: Vec<char> = Vec::new();
    let mut i: usize = 0;
    while i < s.len()
        invariant
            0 <= i <= s@.len(),
            split_fields(s@.take(i as int)).len() == done@.len() + 1,
            forall|j: int|
                0 <= j < done@.len() ==> #[trigger] done@[j]@ == split_fields(s@.take(i as int))[j],
            cur@ == split_fields(s@.take(i as int)).last(),
        decreases s@.len() - i,
    {
        let ghost before = s@.take(i as int);
        assert(s@.take(i + 1).drop_last() =~= before);
        assert(s@.take(i + 1).last() == s@[i as int]);
        if s[i] == ':' {
            done.push(cur);
            cur = Vec::new();
        } else {
            cur.push(s[i]);
        }
        i = i + 1;
        assert(cur@ =~= split_fields(s@.take(i as int)).last());
    }
    done.push(cur);
    assert(s@.take(s@.len() as int) =~= s@);
    done
}

impl NetId64 {
    /// Reads an identifier from text: `0x` and a hexadecimal raw value, or
    /// the canonical `kind:node:counter` form.
    pub fn parse(s: &str) -> (r: Result<NetId64, ParseError>)
        ensures
            r == (match parsed(s@) {
                Some(v) => Ok(NetId64(v)),
                None => Err(ParseError),
            }),
    {
        let cs = chars_of(s);
        if cs.len() >= 2 && cs[0] == '0' && cs[1] == 'x' {
            let hex = tail_of(&cs, 2);
            return match parse_unsigned(&hex, 16, u64::MAX) {
                Some(v) => Ok(NetId64(v)),
                None => Err(ParseError),
            };
        }
        let f = split_colons(&cs);
        if f.len() != 3 {
            return Err(ParseError);
        }
        assert(f@[0]@ == split_fields(s@)[0]);
        assert(f@[1]@ == split_fields(s@)[1]);
        assert(f@[2]@ == split_fields(s@)[2]);
        let k = match parse_unsigned(&f[0], 10, 0xFF) {
            Some(k) => k,
            None => {
                return Err(ParseError);
            },
        };
        let n = match parse_unsigned(&f[1], 10, 0xFFFF) {
            Some(n) => n,
            None => {
                return Err(ParseError);
            },
        };
        let c = match parse_unsigned(&f[2], 10, u64::MAX) {
            Some(c) => c,
            None => {
                return Err(ParseError);
            },
        };
        Ok(NetId64::make(k as u8, n as u16, c))
    }

    /// The canonical text: `kind:node:counter` in decimal, without leading
    /// zeros.
    pub fn to_string(&self) -> (r: String)
        ensures
            r@ == canonical_text(self.0),
    {
        let t = self.to_triple();
        let mut out = String::new();
        push_decimal(&mut out, t.kind as u64);
        push_char(&mut out, ':');
        push_decimal(&mut out, t.node as u64);
        push_char(&mut out, ':');
        push_decimal(&mut out, t.counter);
        assert(out@ =~= canonical_text(self.0));
        out
    }

    /// The diagnostic text, for logs: `NetId64(kind:node:counter | 0x...)`
    /// with the raw value in sixteen upper-case hexadecimal digits. It is not
    /// meant to be read back.
    pub fn to_debug_string(&self) -> (r: String)
        ensures
            r@ == diagnostic_text(self.0),
    {
        let mut out = String::new();
        push_char(&mut out, 'N');
        push_char(&mut out, 'e');
        push_char(&mut out, 't');
        push_char(&mut out, 'I');
        push_char(&mut out, 'd');
        push_char(&mut out, '6');
        push_char(&mut out, '4');
        push_char(&mut out, '(');
        let text = self.to_string();
        let mut i: usize = 0;
        let cs = chars_of(text.as_str());
        let ghost head = out@;
        while i < cs.len()
            invariant
                0 <= i <= cs@.len(),
                out@ == head + cs@.take(i as int),
            decreases cs@.len() - i,
        {
            push_char(&mut out, cs[i]);
            i = i + 1;
            assert(out@ =~= head + cs@.take(i as int));
        }
        assert(cs@.take(cs@.len() as int) =~= cs@);
        push_char(&mut out, ' ');
        push_char(&mut out, '|');
        push_char(&mut out, ' ');
        push_char(&mut out, '0');
        push_char(&mut out, 'x');
        push_upper_hex(&mut out, self.0, 16);
        push_char(&mut out, ')');
        assert(out@ =~= diagnostic_text(self.0));
        out
    }
}

impl core::str::FromStr for NetId64 {
    type Err = ParseError;

    fn from_str(s: &str) -> (r: Result<NetId64, ParseError>)
        ensures
            r == (match parsed(s@) {
                Some(v) => Ok(NetId64(v)),
                None => Err(ParseError),
            }),
    {
        NetId64::parse(s)
    }
}

/// Splitting always gives at least one piece.
proof fn lemma_split_nonempty(s: Seq<char>)
    ensures
        split_fields(s).len() >= 1,
    decreases s.len(),
{
    if s.len() > 0 {
        lemma_split_nonempty(s.drop_last());
    }
}

/// Text without a colon, put after `s`, extends the last piece of `s`.
proof fn lemma_split_plain(s: Seq<char>, t: Seq<char>)
    requires
        forall|i: int| 0 <= i < t.len() ==> t[i] != ':',
    ensures
        split_fields(s + t) == split_fields(s).update(
            split_fields(s).len() - 1,
            split_fields(s).last() + t,
        ),
    decreases t.len(),
{
    lemma_split_nonempty(s);
    if t.len() == 0 {
        assert(s + t =~= s);
        assert(split_fields(s).last() + t =~= split_fields(s).last());
        assert(split_fields(s).update(split_fields(s).len() - 1, split_fields(s).last())
            =~= split_fields(s));
    } else {
        let t0 = t.drop_last();
        lemma_split_plain(s, t0);
        assert((s + t).drop_last() =~= s + t0);
        assert((s + t).last() == t.last());
        assert(t.last() == t[t.len() - 1]);
        assert(t.last() != ':');
        let l = split_fields(s).len() - 1;
        let rest = split_fields(s + t0);
        assert(rest.len() == l + 1);
        assert(rest.last() == split_fields(s).last() + t0);
        assert(split_fields(s + t) == rest.update(l, rest.last().push(t.last())));
        assert((split_fields(s).last() + t0).push(t.last()) =~= split_fields(s).last() + t);
        assert(split_fields(s + t) =~= split_fields(s).update(
            split_fields(s).len() - 1,
            split_fields(s).last() + t,
        ));
    }
}

/// A digit string holds no colon.
proof fn lemma_digits_no_colon(t: Seq<char>, radix: int)
    requires
        radix <= 16,
        all_digits(t, radix),
    ensures
        forall|i: int| 0 <= i < t.len() ==> t[i] != ':',
{
    assert forall|i: int| 0 <= i < t.len() implies t[i] != ':' by {
        assert(digit_value(t[i]) < radix);
    }
}

/// Three colon-free pieces joined by colons split back into those pieces.
proof fn lemma_split_three(a: Seq<char>, b: Seq<char>, c: Seq<char>)
    requires
        forall|i: int| 0 <= i < a.len() ==> a[i] != ':',
        forall|i: int| 0 <= i < b.len() ==> b[i] != ':',
        forall|i: int| 0 <= i < c.len() ==> c[i] != ':',
    ensures
        split_fields(a + seq![':'] + b + seq![':'] + c) == seq![a, b, c],
{
    let e: Seq<char> = seq![];
    lemma_split_plain(e, a);
    assert(e + a =~= a);
    assert(split_fields(e) =~= seq![e]);
    assert(split_fields(a) =~= seq![a]);
    let x1 = a + seq![':'];
    assert(x1.drop_last() =~= a);
    assert(split_fields(x1) =~= seq![a, e]);
    lemma_split_plain(x1, b);
    assert(split_fields(x1 + b) =~= seq![a, b]);
    let x3 = x1 + b + seq![':'];
    assert(x3.drop_last() =~= x1 + b);
    assert(split_fields(x3) =~= seq![a, b, e]);
    lemma_split_plain(x3, c);
    assert(split_fields(x3 + c) =~= seq![a, b, c]);
}

/// The canonical text of fields that are in range reads back as the
/// identifier of those fields, whose fields are the same again.
pub proof fn lemma_text_round_trip(kind: u8, node: u16, counter: u64)
    requires
        counter < NODE_UNIT,
    ensures
        parsed(triple_text(kind as nat, node as nat, counter as nat)) == Some(
            packed(kind as int, node as int, counter as int) as u64,
        ),
        kind_of(packed(kind as int, node as int, counter as int) as u64) == kind,
        node_of(packed(kind as int, node as int, counter as int) as u64) == node,
        counter_of(packed(kind as int, node as int, counter as int) as u64) == counter,
{
    let a = decimal(kind as nat);
    let b = decimal(node as nat);
    let c = decimal(counter as nat);
    let s = triple_text(kind as nat, node as nat, counter as nat);
    lemma_triple_text_fields(kind as nat, node as nat, counter as nat);
    let f = split_fields(s);
    assert(f[0] == a && f[1] == b && f[2] == c);
    lemma_decimal_read_back(kind as nat, 0xFF);
    lemma_decimal_read_back(node as nat, 0xFFFF);
    lemma_decimal_read_back(counter as nat, u64::MAX as int);
    assert(unsigned_of(f[0], 10, 0xFF) == Some(kind as int));
    assert(unsigned_of(f[1], 10, 0xFFFF) == Some(node as int));
    assert(unsigned_of(f[2], 10, u64::MAX as int) == Some(counter as int));
    lemma_fields_round_trip(kind as int, node as int, counter as int);
}

/// The canonical text of any identifier reads back as that identifier.
pub proof fn lemma_canonical_text_round_trip(raw: u64)
    ensures
        parsed(canonical_text(raw)) == Some(raw),
{
    lemma_fields_cover(raw);
    lemma_text_round_trip(kind_of(raw) as u8, node_of(raw) as u16, counter_of(raw) as u64);
}

/// The canonical text of three numbers does not start with `0x` and splits
/// back into their decimal renderings.
proof fn lemma_triple_text_fields(kind: nat, node: nat, counter: nat)
    ensures
        !has_hex_prefix(triple_text(kind, node, counter)),
        split_fields(triple_text(kind, node, counter)) == seq![
            decimal(kind),
            decimal(node),
            decimal(counter),
        ],
{
    let a = decimal(kind);
    let b = decimal(node);
    let c = decimal(counter);
    let s = triple_text(kind, node, counter);
    lemma_decimal(kind);
    lemma_decimal(node);
    lemma_decimal(counter);
    lemma_digits_no_colon(a, 10);
    lemma_digits_no_colon(b, 10);
    lemma_digits_no_colon(c, 10);
    lemma_split_three(a, b, c);
    if a.len() >= 2 {
        assert(s[1] == a[1]);
        assert(digit_value(a[1]) < 10);
    } else {
        assert(s[1] == ':');
    }
}

/// `0x` followed by any hexadecimal digits, in either case and with any
/// leading zeros, that are worth `raw` reads back as `raw`.
pub proof fn lemma_hex_round_trip(raw: u64, digits: Seq<char>)
    requires
        digits.len() > 0,
        all_digits(digits, 16),
        digits_value(digits, 16) == raw,
    ensures
        parsed(seq!['0', 'x'] + digits) == Some(raw),
{
    let s = seq!['0', 'x'] + digits;
    assert(s.subrange(2, s.len() as int) =~= digits);
    assert(digit_value(digits[0]) < 16);
}

/// The sixteen upper-case hexadecimal digits of `raw`, after `0x`, read back
/// as `raw`.
pub proof fn lemma_upper_hex_round_trip(raw: u64)
    ensures
        parsed(seq!['0', 'x'] + upper_hex(raw as nat, 16)) == Some(raw),
{
    lemma_upper_hex(raw as nat, 16);
    reveal_with_fuel(pow16, 17);
    assert(pow16(16) == 0x1_0000_0000_0000_0000);
    vstd::arithmetic::div_mod::lemma_small_mod(raw as nat, pow16(16) as nat);
    lemma_hex_round_trip(raw, upper_hex(raw as nat, 16));
}

} // verus!
