//! Trace events and their wire encoding: each event is one JSON object with
//! the fields that third-party timeline viewers expect, and the encoding is
//! a byte sequence pinned down field by field.

use vstd::prelude::*;
use vstd::utf8::encode_utf8;

verus! {

/// The phase of an event: the start or the end of an interval.
#[derive(Clone, Copy, Debug, PartialEq, Eq, Structural)]
pub enum Phase {
    Begin,
    End,
}

/// One timeline event. The category field of the wire format is fixed and
/// carried by the encoding, not stored.
pub struct Event {
    pub name: String,
    pub filename: String,
    pub line: Option<u32>,
    pub ph: Phase,
    pub pid: u64,
    pub tid: u64,
    pub ts: u64,
}

/// The decimal digits of `n`, most significant first.
pub open spec fn dec_digits(n: nat) -> Seq<u8>
    decreases n,
{
    if n < 10 {
        seq![(48 + n) as u8]
    } else {
        dec_digits(n / 10).push((48 + n % 10) as u8)
    }
}

/// A lowercase hexadecimal digit.
pub open spec fn hex_digit(d: u8) -> u8 {
    if d < 10 {
        (48 + d) as u8
    } else {
        (87 + d) as u8
    }
}

/// How one byte of a string is written inside a JSON string literal: quote
/// and backslash escaped, control bytes as a hexadecimal escape, everything
/// else as itself.
pub open spec fn escape_byte(b: u8) -> Seq<u8> {
    if b == 34 {
        seq![92u8, 34u8]
    } else if b == 92 {
        seq![92u8, 92u8]
    } else if b < 32 {
        seq![92u8, 117u8, 48u8, 48u8, hex_digit(b / 16), hex_digit(b % 16)]
    } else {
        seq![b]
    }
}

/// A whole byte run escaped.
pub open spec fn escape_bytes(bs: Seq<u8>) -> Seq<u8>
    decreases bs.len(),
{
    if bs.len() == 0 {
        Seq::empty()
    } else {
        escape_bytes(bs.drop_last()) + escape_byte(bs.last())
    }
}

/// A JSON string literal: the text's UTF-8 bytes, escaped, in quotes.
pub open spec fn json_string(s: Seq<char>) -> Seq<u8> {
    seq![34u8] + escape_bytes(encode_utf8(s)) + seq![34u8]
}

/// The UTF-8 bytes of a piece of fixed text.
pub open spec fn lit_bytes(s: Seq<char>) -> Seq<u8> {
    encode_utf8(s)
}

/// The wire encoding of one event: a JSON object with fields `args`
/// (`filename`, and `line` only when line numbers are reported), `cat` (the
/// fixed label), `name`, `ph` (`"B"` or `"E"`), `pid`, `tid` and `ts`.
pub open spec fn event_json(e: Event) -> Seq<u8> {
    lit_bytes("{\"args\":{\"filename\":"@) + json_string(e.filename@) + (match e.line {
        Option::Some(l) => lit_bytes(",\"line\":"@) + dec_digits(l as nat),
        Option::None => Seq::<u8>::empty(),
    }) + lit_bytes("},\"cat\":\"py-spy\",\"name\":"@) + json_string(e.name@) + lit_bytes(
        ",\"ph\":\""@,
    ) + (match e.ph {
        Phase::Begin => seq![66u8],
        Phase::End => seq![69u8],
    }) + lit_bytes("\",\"pid\":"@) + dec_digits(e.pid as nat) + lit_bytes(",\"tid\":"@)
        + dec_digits(e.tid as nat) + lit_bytes(",\"ts\":"@) + dec_digits(e.ts as nat) + lit_bytes(
        "}"@,
    )
}

/// Append the UTF-8 bytes of a piece of fixed text.
fn push_lit(out: &mut Vec<u8>, s: &str)
    ensures
        final(out)@ == old(out)@ + lit_bytes(s@),
{
    let mut v = s.as_bytes_vec();
    out.append(&mut v);
}

/// Append the decimal digits of `n`.
fn push_dec(out: &mut Vec<u8>, n: u64)
    ensures
        final(out)@ == old(out)@ + dec_digits(n as nat),
    decreases n,
{
    if n >= 10 {
        push_dec(out, n / 10);
    }
    out.push(48 + (n % 10) as u8);
}

/// Append one escaped JSON string literal.
#[verifier::loop_isolation(false)]
fn push_json_string(out: &mut Vec<u8>, s: &str)
    ensures
        final(out)@ == old(out)@ + json_string(s@),
{
    out.push(34);
    let bs = s.as_bytes_vec();
    let mut i: usize = 0;
    while i < bs.len()
        invariant
            i <= bs@.len(),
            out@ == old(out)@ + seq![34u8] + escape_bytes(bs@.take(i as int)),
        decreases bs@.len() - i,
    {
        proof {
            assert(bs@.take(i + 1).drop_last() =~= bs@.take(i as int));
            assert(bs@.take(i + 1).last() == bs@[i as int]);
        }
        let b = bs[i];
        if b == 34 {
            out.push(92);
            out.push(34);
        } else if b == 92 {
            out.push(92);
            out.push(92);
        } else if b < 32 {
            out.push(92);
            out.push(117);
            out.push(48);
            out.push(48);
            out.push(if b / 16 < 10 {
                48 + b / 16
            } else {
                87 + b / 16
            });
            out.push(if b % 16 < 10 {
                48 + b % 16
            } else {
                87 + b % 16
            });
        }
        if !(b == 34 || b == 92 || b < 32) {
            out.push(b);
        }
        proof {
            assert(out@ =~= old(out)@ + seq![34u8] + escape_bytes(bs@.take(i + 1)));
        }
        i = i + 1;
    }
    proof {
        assert(bs@.take(bs@.len() as int) =~= bs@);
    }
    out.push(34);
    proof {
        assert(out@ =~= old(out)@ + json_string(s@));
    }
}

/// Encode one event as its wire bytes.
pub fn event_json_bytes(e: &Event) -> (r: Vec<u8>)
    ensures
        r@ == event_json(*e),
{
    let mut out: Vec<u8> = Vec::new();
    push_lit(&mut out, "{\"args\":{\"filename\":");
    push_json_string(&mut out, e.filename.as_str());
    match e.line {
        Some(l) => {
            push_lit(&mut out, ",\"line\":");
            push_dec(&mut out, l as u64);
        },
        None => {},
    }
    push_lit(&mut out, "},\"cat\":\"py-spy\",\"name\":");
    push_json_string(&mut out, e.name.as_str());
    push_lit(&mut out, ",\"ph\":\"");
    match e.ph {
        Phase::Begin => {
            out.push(66);
        },
        Phase::End => {
            out.push(69);
        },
    }
    push_lit(&mut out, "\",\"pid\":");
    push_dec(&mut out, e.pid);
    push_lit(&mut out, ",\"tid\":");
    push_dec(&mut out, e.tid);
    push_lit(&mut out, ",\"ts\":");
    push_dec(&mut out, e.ts);
    push_lit(&mut out, "}");
    proof {
        assert(out@ =~= event_json(*e));
    }
    out
}

} // verus!
