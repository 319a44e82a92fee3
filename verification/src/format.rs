//! Text for people: numbers, quoted values and optional values written the way
//! Rust's `Debug` formatting writes them.

use vstd::prelude::*;
use crate::text::{append_decimal, decimal_digits, lemma_concat_contains, lemma_decimal_digits_lack_break, signed_decimal};

verus! {

/// How `Debug` writes a string: quoted, with special characters escaped.
pub uninterp spec fn debug_text(s: Seq<char>) -> Seq<char>;

/// Text that `Debug` writes unchanged between its quotes: printable ASCII
/// other than `"` and `\`.
pub open spec fn plain_ascii(s: Seq<char>) -> bool {
    forall|i: int| 0 <= i < s.len() ==> ' ' <= #[trigger] s[i] <= '~' && s[i] != '"' && s[i] != '\\'
}

/// The text between double quotes.
pub open spec fn quoted(s: Seq<char>) -> Seq<char> {
    seq!['"'] + s + seq!['"']
}

/// `format!("{:?}", s)`: the string quoted and escaped as `Debug` does it. The
/// escaping rules themselves are not restated here, beyond two that `Debug`
/// documents: a line break is written as the escape `\n`, never as itself, and
/// printable ASCII other than `"` and `\` is written as it is.
#[verifier::external_body]
pub(crate) fn debug_str(s: &str) -> (d: String)
    ensures
        d@ == debug_text(s@),
        !d@.contains('\n'),
        plain_ascii(s@) ==> d@ == quoted(s@),
{
    format!("{:?}", s)
}

/// How `Debug` writes an optional string: `Some("...")` or `None`.
pub open spec fn debug_opt_text(o: Option<Seq<char>>) -> Seq<char> {
    match o {
        Some(s) => "Some("@ + debug_text(s) + ")"@,
        None => "None"@,
    }
}

/// How `Debug` writes an optional byte: `Some(7)` or `None`.
pub open spec fn debug_opt_u8(o: Option<u8>) -> Seq<char> {
    match o {
        Some(n) => "Some("@ + decimal_digits(n as nat) + ")"@,
        None => "None"@,
    }
}

/// Appends `Debug` of an optional string.
pub fn append_debug_opt_text(out: &mut String, o: &Option<String>)
    ensures
        final(out)@ == old(out)@ + debug_opt_text(crate::config::opt_text(*o)),
        !debug_opt_text(crate::config::opt_text(*o)).contains('\n'),
{
    proof {
        reveal_strlit("Some(");
        reveal_strlit(")");
        reveal_strlit("None");
    }
    match o {
        Some(s) => {
            out.append("Some(");
            let d = debug_str(s.as_str());
            out.append(d.as_str());
            out.append(")");
            proof {
                lemma_concat_contains("Some("@, d@, '\n');
                lemma_concat_contains("Some("@ + d@, ")"@, '\n');
            }
        },
        None => {
            out.append("None");
        },
    }
}

/// `Debug` of an optional byte holds no line break.
pub proof fn lemma_debug_opt_u8_lacks_break(o: Option<u8>)
    ensures
        !debug_opt_u8(o).contains('\n'),
{
    reveal_strlit("Some(");
    reveal_strlit(")");
    reveal_strlit("None");
    if let Some(n) = o {
        lemma_decimal_digits_lack_break(n as nat);
        lemma_concat_contains("Some("@, decimal_digits(n as nat), '\n');
        lemma_concat_contains("Some("@ + decimal_digits(n as nat), ")"@, '\n');
    }
}

/// Appends `Debug` of an optional byte.
pub fn append_debug_opt_u8(out: &mut String, o: Option<u8>)
    ensures
        final(out)@ == old(out)@ + debug_opt_u8(o),
{
    match o {
        Some(n) => {
            out.append("Some(");
            append_decimal(out, n as u64);
            out.append(")");
        },
        None => {
            out.append("None");
        },
    }
    proof {
        reveal_strlit("Some(");
        reveal_strlit(")");
        reveal_strlit("None");
    }
}

/// Appends a signed number in decimal.
pub fn append_signed(out: &mut String, n: i32)
    ensures
        final(out)@ == old(out)@ + signed_decimal(n as int),
{
    if n < 0 {
        crate::text::push_char(out, '-');
        let m: i64 = -(n as i64);
        append_decimal(out, m as u64);
    } else {
        append_decimal(out, n as u64);
    }
}

} // verus!
