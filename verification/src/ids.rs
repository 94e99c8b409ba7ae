//! Container identifiers.
use vstd::prelude::*;
use vstd::string::*;

use crate::text::chars_of;

verus! {

pub open spec fn is_hex_char(c: char) -> bool {
    let u = c as u32;
    ||| '0' as u32 <= u <= '9' as u32
    ||| 'a' as u32 <= u <= 'f' as u32
    ||| 'A' as u32 <= u <= 'F' as u32
}

/// A container id as the API accepts it: 1 to 64 hexadecimal digits.
pub open spec fn hex_id(s: Seq<char>) -> bool {
    &&& 0 < s.len() <= 64
    &&& forall|i: int| 0 <= i < s.len() ==> is_hex_char(#[trigger] s[i])
}

/// Whether `id` has the shape of a container id (1 to 64 hexadecimal digits).
pub fn is_hex_id(id: &str) -> (r: bool)
    ensures
        r == hex_id(id@),
{
    let cs = chars_of(id);
    if cs.len() == 0 || cs.len() > 64 {
        return false;
    }
    let mut i: usize = 0;
    while i < cs.len()
        invariant
            cs@ == id@,
            i <= cs@.len(),
            forall|k: int| 0 <= k < i ==> is_hex_char(#[trigger] cs@[k]),
        decreases cs@.len() - i,
    {
        let u = cs[i] as u32;
        let ok = ('0' as u32 <= u && u <= '9' as u32) || ('a' as u32 <= u && u <= 'f' as u32) || (
        'A' as u32 <= u && u <= 'F' as u32);
        if !ok {
            assert(!is_hex_char(cs@[i as int]));
            return false;
        }
        i = i + 1;
    }
    true
}

/// The short form of a container id: its first twelve characters.
pub open spec fn short_id_of(s: Seq<char>) -> Seq<char> {
    if s.len() <= 12 {
        s
    } else {
        s.take(12)
    }
}

/// The short form of `id` used in file names and messages.
pub fn short_id(id: &str) -> (r: String)
    ensures
        r@ == short_id_of(id@),
{
    let n = id.unicode_len();
    let end = if n <= 12 {
        n
    } else {
        12
    };
    let part = id.substring_char(0, end);
    assert(id@.subrange(0, n as int) =~= id@);
    String::from_str(part)
}

} // verus!
