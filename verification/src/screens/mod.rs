//! The screens: what each shows, and what its buttons and events do.
use vstd::prelude::*;

use crate::text::{chars_of, string_of};

pub mod logs;
pub mod mqtt;
pub mod rc_devices;
pub mod security;
pub mod settings;
pub mod sim;
pub mod wifi;

verus! {

/// A text without its last character.
pub open spec fn without_last(s: Seq<char>) -> Seq<char> {
    if s.len() == 0 {
        s
    } else {
        s.drop_last()
    }
}

/// A text without its last character: the DEL key of the on-screen keyboard.
pub fn delete_last_char(s: &str) -> (r: String)
    ensures
        r@ == without_last(s@),
{
    let cs = chars_of(s);
    let n = cs.len();
    let to: usize = if n == 0 {
        0
    } else {
        n - 1
    };
    let r = string_of(&cs, 0, to);
    assert(r@ =~= without_last(s@));
    r
}

/// The DEL key takes back the character that was typed last; on an empty text it
/// does nothing.
pub proof fn the_last_character_is_deleted(s: Seq<char>, c: char)
    ensures
        without_last(s.push(c)) == s,
        without_last(Seq::<char>::empty()) == Seq::<char>::empty(),
{
    assert(s.push(c).drop_last() =~= s);
}

} // verus!
