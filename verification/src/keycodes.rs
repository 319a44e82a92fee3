//! Key names as written in profiles, resolved through the `evdev` name table.

use std::str::FromStr;
use vstd::prelude::*;

verus! {

/// The numeric code of an input key, as the kernel numbers it.
pub type KeyCode = u16;

/// The code that `evdev` assigns to a key name such as `KEY_Q`, or `None` when
/// its name table has no such entry.
pub uninterp spec fn key_code_of_name(name: Seq<char>) -> Option<u16>;

/// Looks `name` up in the name table of `evdev::KeyCode` (its `FromStr`
/// implementation). The result is the table's entry for exactly that name; the
/// table itself is not restated here.
#[verifier::external_body]
fn lookup_key_name(name: &str) -> (code: Option<u16>)
    ensures
        code == key_code_of_name(name@),
{
    evdev::KeyCode::from_str(name).ok().map(|key| key.code())
}

/// `evdev::KeyCode::KEY_ESC`: its code, which the `evdev` table sets to 1.
#[verifier::external_body]
pub(crate) fn escape_key() -> (code: u16)
    ensures
        code == 1,
{
    evdev::KeyCode::KEY_ESC.code()
}

/// Converts an `evdev` key name into its code; an unknown name is reported back.
pub fn parse_key_code(name: &str) -> (res: Result<KeyCode, String>)
    ensures
        match key_code_of_name(name@) {
            Some(code) => res == Ok::<KeyCode, String>(code),
            None => res matches Err(unknown) && unknown@ == name@,
        },
{
    match lookup_key_name(name) {
        Some(code) => Ok(code),
        None => Err(name.to_string()),
    }
}

} // verus!
