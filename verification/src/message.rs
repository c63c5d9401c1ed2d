//! The text of an error.

use vstd::prelude::*;

use crate::error::{Error, ErrorView, Fault, FaultView, Part};

verus! {

/// The digit for a number below 16.
pub open spec fn digit(d: nat) -> Seq<char> {
    if d == 0 {
        "0"@
    } else if d == 1 {
        "1"@
    } else if d == 2 {
        "2"@
    } else if d == 3 {
        "3"@
    } else if d == 4 {
        "4"@
    } else if d == 5 {
        "5"@
    } else if d == 6 {
        "6"@
    } else if d == 7 {
        "7"@
    } else if d == 8 {
        "8"@
    } else if d == 9 {
        "9"@
    } else if d == 10 {
        "a"@
    } else if d == 11 {
        "b"@
    } else if d == 12 {
        "c"@
    } else if d == 13 {
        "d"@
    } else if d == 14 {
        "e"@
    } else {
        "f"@
    }
}

/// A number in decimal, without leading zeros.
pub open spec fn decimal(n: nat) -> Seq<char>
    decreases n,
{
    if n < 10 {
        digit(n)
    } else {
        decimal(n / 10) + digit(n % 10)
    }
}

/// A byte in hexadecimal: `0x` and two digits.
pub open spec fn hex(b: u8) -> Seq<char> {
    "0x"@ + digit((b / 16) as nat) + digit((b % 16) as nat)
}

/// The name of the piece of a field that a reader was at.
pub open spec fn field_text(what: &'static str, part: Part) -> Seq<char> {
    what@ + match part {
        Part::Body => ""@,
        Part::Length => " length"@,
        Part::Presence => " presence flag"@,
        Part::Blob => ""@,
    }
}

/// What is said of a fault.
pub open spec fn fault_text(f: FaultView) -> Seq<char> {
    match f {
        FaultView::Truncated { what, part, need, got } => "truncated "@ + field_text(what, part)
            + ": need "@ + if need == 1 && part != Part::Blob {
            "1 byte"@
        } else {
            decimal(need as nat) + " bytes, got "@ + decimal(got as nat)
        },
        FaultView::TruncatedCount => "Buffer too short for array count"@,
        FaultView::InvalidBool { what, part, byte } => "invalid boolean byte for "@ + field_text(
            what,
            part,
        ) + ": "@ + hex(byte),
        FaultView::InvalidTag { byte } => "invalid typed-value tag: "@ + hex(byte),
        FaultView::InvalidOp { byte } => "invalid change-record op byte: "@ + hex(byte),
        FaultView::InvalidUtf8 { what, cause } => "invalid utf-8 in "@ + what@ + ": "@ + cause,
        FaultView::XidNotUtf8 { cause } => "xid must be valid utf-8: "@ + cause,
        FaultView::Trailing { what, extra } => "trailing bytes after "@ + what@ + ": "@ + decimal(
            extra as nat,
        ) + " extra"@,
        FaultView::WrongWidth { what, got } => what@ + ": expected 8 bytes, got "@ + decimal(
            got as nat,
        ),
        FaultView::CorruptBitmap { what, cause } => "corrupt "@ + what@ + " bitmap: "@ + cause,
    }
}

/// What is said of an error.
pub open spec fn error_text(e: ErrorView) -> Seq<char> {
    match e {
        ErrorView::Encoding(f) => fault_text(f),
        ErrorView::OversizeNode { size, cap } => "oversize_node: encoded NodeRecord is "@ + decimal(
            size as nat,
        ) + " bytes, cap is "@ + decimal(cap as nat) + " bytes"@,
        ErrorView::Storage => "storage failed"@,
    }
}

fn push_digit(out: &mut String, d: usize)
    requires
        d < 16,
    ensures
        final(out)@ == old(out)@ + digit(d as nat),
{
    let text = match d {
        0 => "0",
        1 => "1",
        2 => "2",
        3 => "3",
        4 => "4",
        5 => "5",
        6 => "6",
        7 => "7",
        8 => "8",
        9 => "9",
        10 => "a",
        11 => "b",
        12 => "c",
        13 => "d",
        14 => "e",
        _ => "f",
    };
    out.append(text);
}

fn push_decimal(out: &mut String, n: usize)
    ensures
        final(out)@ == old(out)@ + decimal(n as nat),
    decreases n,
{
    let ghost start = out@;
    if n >= 10 {
        push_decimal(out, n / 10);
        push_digit(out, n % 10);
        assert(out@ =~= start + decimal(n as nat));
    } else {
        push_digit(out, n);
    }
}

fn push_hex(out: &mut String, b: u8)
    ensures
        final(out)@ == old(out)@ + hex(b),
{
    let ghost start = out@;
    out.append("0x");
    push_digit(out, (b / 16) as usize);
    push_digit(out, (b % 16) as usize);
    assert(out@ =~= start + hex(b));
}

fn push_field(out: &mut String, what: &'static str, part: Part)
    ensures
        final(out)@ == old(out)@ + field_text(what, part),
{
    let ghost start = out@;
    out.append(what);
    match part {
        Part::Body | Part::Blob => out.append(""),
        Part::Length => out.append(" length"),
        Part::Presence => out.append(" presence flag"),
    }
    assert(out@ =~= start + field_text(what, part));
}

impl Fault {
    /// What is said of this fault.
    pub fn message(&self) -> (r: String)
        ensures
            r@ == fault_text(self@),
    {
        let mut out = String::new();
        match self {
            Fault::Truncated { what, part, need, got } => {
                out.append("truncated ");
                push_field(&mut out, what, *part);
                out.append(": need ");
                if *need == 1 && *part != Part::Blob {
                    out.append("1 byte");
                } else {
                    push_decimal(&mut out, *need);
                    out.append(" bytes, got ");
                    push_decimal(&mut out, *got);
                }
            },
            Fault::TruncatedCount => {
                out.append("Buffer too short for array count");
            },
            Fault::InvalidBool { what, part, byte } => {
                out.append("invalid boolean byte for ");
                push_field(&mut out, what, *part);
                out.append(": ");
                push_hex(&mut out, *byte);
            },
            Fault::InvalidTag { byte } => {
                out.append("invalid typed-value tag: ");
                push_hex(&mut out, *byte);
            },
            Fault::InvalidOp { byte } => {
                out.append("invalid change-record op byte: ");
                push_hex(&mut out, *byte);
            },
            Fault::InvalidUtf8 { what, cause } => {
                out.append("invalid utf-8 in ");
                out.append(what);
                out.append(": ");
                out.append(cause.as_str());
            },
            Fault::XidNotUtf8 { cause } => {
                out.append("xid must be valid utf-8: ");
                out.append(cause.as_str());
            },
            Fault::Trailing { what, extra } => {
                out.append("trailing bytes after ");
                out.append(what);
                out.append(": ");
                push_decimal(&mut out, *extra);
                out.append(" extra");
            },
            Fault::WrongWidth { what, got } => {
                out.append(what);
                out.append(": expected 8 bytes, got ");
                push_decimal(&mut out, *got);
            },
            Fault::CorruptBitmap { what, cause } => {
                out.append("corrupt ");
                out.append(what);
                out.append(" bitmap: ");
                out.append(cause.as_str());
            },
        }
        assert(out@ =~= fault_text(self@));
        out
    }
}

impl Error {
    /// What is said of this error.
    pub fn message(&self) -> (r: String)
        ensures
            r@ == error_text(self@),
    {
        match self {
            Error::Encoding(f) => f.message(),
            Error::OversizeNode { size, cap } => {
                let mut out = String::new();
                out.append("oversize_node: encoded NodeRecord is ");
                push_decimal(&mut out, *size);
                out.append(" bytes, cap is ");
                push_decimal(&mut out, *cap);
                out.append(" bytes");
                assert(out@ =~= error_text(self@));
                out
            },
            Error::Storage => {
                let mut out = String::new();
                out.append("storage failed");
                assert(out@ =~= error_text(self@));
                out
            },
        }
    }
}

} // verus!
