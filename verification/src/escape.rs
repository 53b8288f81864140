//! Escaping of server names inside a quoted record field.
//!
//! A name may hold any characters. Inside the record it is written between
//! double quotes, with `"` and `\` escaped by a backslash and control
//! characters written as `\u00` followed by two lower-case hexadecimal
//! digits. Escaping and un-escaping are verified inverse to each other,
//! and the escaped text never holds a bare quote, so the closing quote of
//! the field is unambiguous.

use vstd::prelude::*;
use crate::numerals::digit_char;
use crate::numerals::digit_char_exec;
use crate::numerals::digit_value;
use crate::numerals::hex_digit_value_exec;
use crate::numerals::is_hex_digit;
use crate::numerals::lemma_digit_char;
use crate::numerals::lemma_digit_char_of_value;
use crate::text::push_char;

verus! {

/// The escaped form of one character inside a quoted field.
pub open spec fn escape_char(c: char) -> Seq<char> {
    if c == '"' {
        seq!['\\', '"']
    } else if c == '\\' {
        seq!['\\', '\\']
    } else if (c as u32) < 32 {
        seq![
            '\\',
            'u',
            '0',
            '0',
            digit_char((c as u32 / 16) as int),
            digit_char((c as u32 % 16) as int),
        ]
    } else {
        seq![c]
    }
}

/// The escaped form of a whole name.
pub open spec fn escape_seq(s: Seq<char>) -> Seq<char>
    decreases s.len(),
{
    if s.len() == 0 {
        Seq::empty()
    } else {
        escape_char(s[0]) + escape_seq(s.drop_first())
    }
}

pub proof fn lemma_escape_seq_concat(a: Seq<char>, b: Seq<char>)
    ensures
        escape_seq(a + b) == escape_seq(a) + escape_seq(b),
    decreases a.len(),
{
    if a.len() == 0 {
        assert(a + b =~= b);
        assert(escape_seq(a) + escape_seq(b) =~= escape_seq(b));
    } else {
        lemma_escape_seq_concat(a.drop_first(), b);
        assert((a + b).drop_first() =~= a.drop_first() + b);
        assert((a + b)[0] == a[0]);
        assert(escape_char(a[0]) + (escape_seq(a.drop_first()) + escape_seq(b)) =~= (escape_char(
            a[0],
        ) + escape_seq(a.drop_first())) + escape_seq(b));
    }
}

pub proof fn lemma_escape_seq_snoc(s: Seq<char>, c: char)
    ensures
        escape_seq(s.push(c)) == escape_seq(s) + escape_char(c),
{
    lemma_escape_seq_concat(s, seq![c]);
    assert(s.push(c) =~= s + seq![c]);
    assert(escape_seq(seq![c]) == escape_char(c) + escape_seq(Seq::<char>::empty())) by {
        assert(seq![c].drop_first() =~= Seq::<char>::empty());
    }
    assert(escape_char(c) + Seq::<char>::empty() =~= escape_char(c));
}

/// A character equals the character built from its own scalar value.
proof fn lemma_char_of_scalar(c: char, v: u8)
    requires
        c as u32 == v as u32,
    ensures
        (v as char) == c,
{
}

/// Un-escaping the text between `pos` and the next closing quote. The
/// returned position is that of the quote itself, which stays unconsumed.
/// Only the exact forms the escaper emits are accepted.
pub open spec fn parse_body_spec(t: Seq<char>, pos: int) -> Option<(Seq<char>, int)>
    decreases t.len() - pos,
{
    if pos < 0 || pos >= t.len() {
        None
    } else if t[pos] == '"' {
        Some((Seq::empty(), pos))
    } else if t[pos] == '\\' {
        if pos + 2 <= t.len() && (t[pos + 1] == '"' || t[pos + 1] == '\\') {
            match parse_body_spec(t, pos + 2) {
                Some((s, p)) => Some((seq![t[pos + 1]] + s, p)),
                None => None,
            }
        } else if pos + 6 <= t.len() && t[pos + 1] == 'u' && t[pos + 2] == '0' && t[pos + 3] == '0'
            && is_hex_digit(t[pos + 4]) && is_hex_digit(t[pos + 5]) && digit_value(t[pos + 4]) * 16
            + digit_value(t[pos + 5]) < 32 {
            match parse_body_spec(t, pos + 6) {
                Some(
                    (s, p),
                ) => Some(
                    (
                        seq![(((digit_value(t[pos + 4]) * 16 + digit_value(t[pos + 5])) as u8) as char)]
                            + s,
                        p,
                    ),
                ),
                None => None,
            }
        } else {
            None
        }
    } else if (t[pos] as u32) < 32 {
        None
    } else {
        match parse_body_spec(t, pos + 1) {
            Some((s, p)) => Some((seq![t[pos]] + s, p)),
            None => None,
        }
    }
}

pub proof fn lemma_parse_body_of_encoding(t: Seq<char>, pos: int, s: Seq<char>)
    requires
        0 <= pos,
        pos + escape_seq(s).len() < t.len(),
        t.subrange(pos, pos + escape_seq(s).len()) == escape_seq(s),
        t[pos + escape_seq(s).len()] == '"',
    ensures
        parse_body_spec(t, pos) == Some((s, pos + escape_seq(s).len())),
    decreases s.len(),
{
    if s.len() == 0 {
        assert(t[pos] == '"');
    } else {
        let c = s[0];
        let es = escape_char(c);
        let rest = s.drop_first();
        let whole = escape_seq(s);
        assert(whole == es + escape_seq(rest));
        let mid = pos + es.len();
        assert(forall|i: int| 0 <= i < es.len() ==> t[pos + i] == #[trigger] es[i]) by {
            assert(forall|i: int|
                0 <= i < whole.len() ==> t[pos + i] == #[trigger] whole[i]) by {
                assert(forall|i: int|
                    0 <= i < whole.len() ==> t.subrange(pos, pos + whole.len())[i]
                        == #[trigger] whole[i]);
            }
            assert(forall|i: int| 0 <= i < es.len() ==> whole[i] == #[trigger] es[i]);
        }
        assert(t.subrange(mid, mid + escape_seq(rest).len()) =~= escape_seq(rest)) by {
            assert(forall|i: int|
                0 <= i < whole.len() ==> t[pos + i] == #[trigger] whole[i]) by {
                assert(forall|i: int|
                    0 <= i < whole.len() ==> t.subrange(pos, pos + whole.len())[i]
                        == #[trigger] whole[i]);
            }
            assert(forall|i: int|
                0 <= i < escape_seq(rest).len() ==> #[trigger] escape_seq(rest)[i]
                    == whole[es.len() + i]);
        }
        lemma_parse_body_of_encoding(t, mid, rest);
        if c == '"' {
            assert(es =~= seq!['\\', '"']);
            assert(es[0] == '\\' && es[1] == '"');
            assert(t[pos + 0] == '\\' && t[pos + 1] == '"');
            assert(seq![t[pos + 1]] + rest =~= s);
        } else if c == '\\' {
            assert(es =~= seq!['\\', '\\']);
            assert(es[0] == '\\' && es[1] == '\\');
            assert(t[pos + 0] == '\\' && t[pos + 1] == '\\');
            assert(seq![t[pos + 1]] + rest =~= s);
        } else if (c as u32) < 32 {
            let hi = (c as u32 / 16) as int;
            let lo = (c as u32 % 16) as int;
            lemma_digit_char(hi);
            lemma_digit_char(lo);
            assert(es =~= seq!['\\', 'u', '0', '0', digit_char(hi), digit_char(lo)]);
            assert(es[0] == '\\' && es[1] == 'u' && es[2] == '0' && es[3] == '0');
            assert(es[4] == digit_char(hi) && es[5] == digit_char(lo));
            assert(t[pos + 0] == '\\' && t[pos + 1] == 'u' && t[pos + 2] == '0' && t[pos + 3]
                == '0');
            assert(t[pos + 4] == digit_char(hi) && t[pos + 5] == digit_char(lo));
            let v = digit_value(t[pos + 4]) * 16 + digit_value(t[pos + 5]);
            assert(v == c as u32);
            lemma_char_of_scalar(c, v as u8);
            assert(seq![((v as u8) as char)] + rest =~= s);
        } else {
            assert(es =~= seq![c]);
            assert(es[0] == c);
            assert(t[pos + 0] == c);
            assert(t[pos] != '"' && t[pos] != '\\');
            assert(seq![t[pos]] + rest =~= s);
        }
    }
}

pub proof fn lemma_parse_body_sound(t: Seq<char>, pos: int, s: Seq<char>, p: int)
    requires
        parse_body_spec(t, pos) == Some((s, p)),
    ensures
        0 <= pos <= p < t.len(),
        t[p] == '"',
        t.subrange(pos, p) == escape_seq(s),
    decreases t.len() - pos,
{
    if t[pos] == '"' {
        assert(t.subrange(pos, pos) =~= escape_seq(s));
    } else if t[pos] == '\\' {
        if pos + 2 <= t.len() && (t[pos + 1] == '"' || t[pos + 1] == '\\') {
            let (s2, p2) = parse_body_spec(t, pos + 2).unwrap();
            lemma_parse_body_sound(t, pos + 2, s2, p2);
            let c = t[pos + 1];
            assert(s == seq![c] + s2);
            assert(s[0] == c && s.drop_first() =~= s2);
            assert(escape_char(c) =~= seq![t[pos], t[pos + 1]]);
            assert(t.subrange(pos, p) =~= escape_char(c) + t.subrange(pos + 2, p));
        } else {
            let v = digit_value(t[pos + 4]) * 16 + digit_value(t[pos + 5]);
            let c = (v as u8) as char;
            let (s2, p2) = parse_body_spec(t, pos + 6).unwrap();
            lemma_parse_body_sound(t, pos + 6, s2, p2);
            assert(s == seq![c] + s2);
            assert(s[0] == c && s.drop_first() =~= s2);
            assert(c as u32 == v);
            assert(c != '"' && c != '\\');
            lemma_digit_char_of_value(t[pos + 4]);
            lemma_digit_char_of_value(t[pos + 5]);
            assert(digit_value(t[pos + 4]) == v / 16 && digit_value(t[pos + 5]) == v % 16);
            assert(escape_char(c) =~= seq![
                t[pos],
                t[pos + 1],
                t[pos + 2],
                t[pos + 3],
                t[pos + 4],
                t[pos + 5],
            ]);
            assert(t.subrange(pos, p) =~= escape_char(c) + t.subrange(pos + 6, p));
        }
    } else {
        let c = t[pos];
        let (s2, p2) = parse_body_spec(t, pos + 1).unwrap();
        lemma_parse_body_sound(t, pos + 1, s2, p2);
        assert(s == seq![c] + s2);
        assert(s[0] == c && s.drop_first() =~= s2);
        assert(escape_char(c) =~= seq![c]);
        assert(t.subrange(pos, p) =~= escape_char(c) + t.subrange(pos + 1, p));
    }
}

/// Appends the escaped form of `s` to `out`.
pub fn push_escaped(out: &mut String, s: &Vec<char>)
    ensures
        final(out)@ == old(out)@ + escape_seq(s@),
{
    let mut i: usize = 0;
    proof {
        assert(s@.subrange(0, 0) =~= Seq::<char>::empty());
        assert(out@ + escape_seq(s@.subrange(0, 0)) =~= out@);
    }
    while i < s.len()
        invariant
            i <= s.len(),
            out@ == old(out)@ + escape_seq(s@.subrange(0, i as int)),
        decreases s.len() - i,
    {
        let c = s[i];
        let ghost pre = out@;
        let v = c as u32;
        if c == '"' {
            push_char(out, '\\');
            push_char(out, '"');
        } else if c == '\\' {
            push_char(out, '\\');
            push_char(out, '\\');
        } else if v < 32 {
            push_char(out, '\\');
            push_char(out, 'u');
            push_char(out, '0');
            push_char(out, '0');
            push_char(out, digit_char_exec((v / 16) as u8));
            push_char(out, digit_char_exec((v % 16) as u8));
        } else {
            push_char(out, c);
        }
        proof {
            assert(out@ =~= pre + escape_char(c));
            lemma_escape_seq_snoc(s@.subrange(0, i as int), c);
            assert(s@.subrange(0, i + 1) =~= s@.subrange(0, i as int).push(c));
            assert(out@ =~= old(out)@ + escape_seq(s@.subrange(0, i + 1)));
        }
        i = i + 1;
    }
    proof {
        assert(s@.subrange(0, s@.len() as int) =~= s@);
    }
}

/// Does un-escaping continue from `cur` with `acc` already decoded.
pub open spec fn body_continues(t: Seq<char>, pos: int, acc: Seq<char>, cur: int) -> bool {
    parse_body_spec(t, pos) == match parse_body_spec(t, cur) {
        Some((s, p)) => Some((acc + s, p)),
        None => None::<(Seq<char>, int)>,
    }
}

/// Un-escapes the text between `pos` and the next closing quote, as
/// [`parse_body_spec`] says.
pub fn parse_body_chars(t: &Vec<char>, pos: usize) -> (r: Option<(Vec<char>, usize)>)
    requires
        pos <= t.len(),
    ensures
        match r {
            Some((v, p)) => parse_body_spec(t@, pos as int) == Some((v@, p as int)) && pos <= p
                < t.len(),
            None => parse_body_spec(t@, pos as int) is None,
        },
{
    let mut out: Vec<char> = Vec::new();
    let mut cur: usize = pos;
    proof {
        assert(out@ =~= Seq::<char>::empty());
        if parse_body_spec(t@, pos as int) is Some {
            let (s, p) = parse_body_spec(t@, pos as int).unwrap();
            assert(out@ + s =~= s);
        }
    }
    while cur < t.len()
        invariant
            pos <= cur <= t.len(),
            body_continues(t@, pos as int, out@, cur as int),
        decreases t.len() - cur,
    {
        let c = t[cur];
        if c == '"' {
            proof {
                if parse_body_spec(t@, pos as int) is Some {
                    let (s, p) = parse_body_spec(t@, pos as int).unwrap();
                    assert(out@ + Seq::<char>::empty() =~= out@);
                }
            }
            return Some((out, cur));
        }
        let v = c as u32;
        if c == '\\' {
            if t.len() - cur >= 2 && (t[cur + 1] == '"' || t[cur + 1] == '\\') {
                let d = t[cur + 1];
                proof {
                    if parse_body_spec(t@, cur as int + 2) is Some {
                        let (s2, p2) = parse_body_spec(t@, cur as int + 2).unwrap();
                        assert((out@ + (seq![d] + s2)) =~= (out@.push(d) + s2));
                    }
                }
                out.push(d);
                cur = cur + 2;
            } else if t.len() - cur >= 6 && t[cur + 1] == 'u' && t[cur + 2] == '0' && t[cur + 3]
                == '0' {
                let h1 = match hex_digit_value_exec(t[cur + 4]) {
                    Some(d) => d,
                    None => {
                        return None;
                    },
                };
                let h2 = match hex_digit_value_exec(t[cur + 5]) {
                    Some(d) => d,
                    None => {
                        return None;
                    },
                };
                let val: u8 = h1 * 16 + h2;
                if val >= 32 {
                    return None;
                }
                let d = val as char;
                proof {
                    if parse_body_spec(t@, cur as int + 6) is Some {
                        let (s2, p2) = parse_body_spec(t@, cur as int + 6).unwrap();
                        assert((out@ + (seq![d] + s2)) =~= (out@.push(d) + s2));
                    }
                }
                out.push(d);
                cur = cur + 6;
            } else {
                return None;
            }
        } else if v < 32 {
            return None;
        } else {
            proof {
                if parse_body_spec(t@, cur as int + 1) is Some {
                    let (s2, p2) = parse_body_spec(t@, cur as int + 1).unwrap();
                    assert((out@ + (seq![c] + s2)) =~= (out@.push(c) + s2));
                }
            }
            out.push(c);
            cur = cur + 1;
        }
    }
    None
}

} // verus!
