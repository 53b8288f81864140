//! The message demo: an enumeration whose variants carry different data,
//! each with a verified textual description.

use vstd::prelude::*;
use vstd::string::StringExecFns;
use crate::numerals::dec_digits;
use crate::numerals::push_dec_u64;
use crate::text::push_char;

verus! {

/// A message of one of four kinds.
pub enum Message {
    Quit,
    Move { x: i32, y: i32 },
    Write(String),
    ChangeColor(i32, i32, i32),
}

/// A signed decimal numeral.
pub open spec fn int_digits(n: int) -> Seq<char> {
    if n < 0 {
        seq!['-'] + dec_digits((-n) as nat)
    } else {
        dec_digits(n as nat)
    }
}

/// The description of a message.
pub open spec fn describe_spec(m: Message) -> Seq<char> {
    match m {
        Message::Quit => "Quit variant triggered."@,
        Message::Move { x, y } => "Move to x: "@ + int_digits(x as int) + ", y: "@ + int_digits(
            y as int,
        ),
        Message::Write(text) => "Text message: "@ + text@,
        Message::ChangeColor(r, g, b) => "Change color to R:"@ + int_digits(r as int) + ", G:"@
            + int_digits(g as int) + ", B:"@ + int_digits(b as int),
    }
}

/// Appends the signed decimal numeral of `n`.
fn push_dec_i64(out: &mut String, n: i64)
    requires
        n > i64::MIN,
    ensures
        final(out)@ == old(out)@ + int_digits(n as int),
{
    if n < 0 {
        push_char(out, '-');
        push_dec_u64(out, (-n) as u64);
        proof {
            assert(final(out)@ =~= old(out)@ + int_digits(n as int));
        }
    } else {
        push_dec_u64(out, n as u64);
    }
}

impl Message {
    /// The description of this message, as [`describe_spec`] says.
    pub fn describe(&self) -> (r: String)
        ensures
            r@ == describe_spec(*self),
    {
        let mut out = String::new();
        match self {
            Message::Quit => {
                out.append("Quit variant triggered.");
            },
            Message::Move { x, y } => {
                out.append("Move to x: ");
                push_dec_i64(&mut out, *x as i64);
                out.append(", y: ");
                push_dec_i64(&mut out, *y as i64);
            },
            Message::Write(text) => {
                out.append("Text message: ");
                out.append(text.as_str());
            },
            Message::ChangeColor(r, g, b) => {
                out.append("Change color to R:");
                push_dec_i64(&mut out, *r as i64);
                out.append(", G:");
                push_dec_i64(&mut out, *g as i64);
                out.append(", B:");
                push_dec_i64(&mut out, *b as i64);
            },
        }
        proof {
            assert(out@ =~= describe_spec(*self));
        }
        out
    }
}

} // verus!
