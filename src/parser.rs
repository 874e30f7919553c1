use vstd::prelude::*;
use vstd::utf8::{decode_utf8, valid_utf8};

verus! {

/// One request to the key/value service.
#[derive(Debug, PartialEq, Eq)]
pub enum Cmd {
    /// A `set` request: store `value` under `key`.
    Put { key: String, value: Vec<u8> },
    Get { key: String },
    Del { key: String },
    Unknown { message: String },
}

/// `c` with ASCII upper case letters mapped to lower case.
pub open spec fn ascii_lower(c: u8) -> u8 {
    if 65 <= c <= 90 {
        (c + 32) as u8
    } else {
        c
    }
}

/// The request `b` is long enough to carry a key and its first three bytes
/// spell the command word `w`, ignoring ASCII case.
pub open spec fn names(b: Seq<u8>, w: Seq<u8>) -> bool {
    &&& b.len() >= 4
    &&& ascii_lower(b[0]) == w[0]
    &&& ascii_lower(b[1]) == w[1]
    &&& ascii_lower(b[2]) == w[2]
}

pub open spec fn set_word() -> Seq<u8> {
    seq![115u8, 101u8, 116u8]
}

pub open spec fn get_word() -> Seq<u8> {
    seq![103u8, 101u8, 116u8]
}

pub open spec fn del_word() -> Seq<u8> {
    seq![100u8, 101u8, 108u8]
}

/// The index of the first space of `b` at or after `i`, or the length of `b`
/// if there is none.
pub open spec fn space_from(b: Seq<u8>, i: int) -> int
    decreases b.len() - i,
{
    if i >= b.len() {
        b.len() as int
    } else if b[i] == 32 {
        i
    } else {
        space_from(b, i + 1)
    }
}

/// The bytes of the key: from the fifth byte up to the next space.
pub open spec fn key_bytes(b: Seq<u8>) -> Seq<u8> {
    b.subrange(4, space_from(b, 4))
}

/// The request is a well-formed `set`: a key that is valid UTF-8, followed by a
/// space and the value.
pub open spec fn is_set(b: Seq<u8>) -> bool {
    names(b, set_word()) && space_from(b, 4) < b.len() && valid_utf8(key_bytes(b))
}

/// The request is a well-formed `get` or `del` (per `w`): a key that is valid UTF-8.
pub open spec fn is_key_cmd(b: Seq<u8>, w: Seq<u8>) -> bool {
    names(b, w) && valid_utf8(key_bytes(b))
}

/// Relies on std's `String::from_utf8`: it succeeds exactly on valid UTF-8,
/// and the string then holds the decoded characters.
#[verifier::external_body]
fn utf8_string(b: Vec<u8>) -> (r: Option<String>)
    ensures
        match r {
            Some(s) => valid_utf8(b@) && s@ == decode_utf8(b@),
            None => !valid_utf8(b@),
        },
{
    String::from_utf8(b).ok()
}

fn lower(c: u8) -> (r: u8)
    ensures
        r == ascii_lower(c),
{
    if 65 <= c && c <= 90 {
        c + 32
    } else {
        c
    }
}

/// The bytes `b[from..to]` as a vector.
fn copy_range(b: &[u8], from: usize, to: usize) -> (r: Vec<u8>)
    requires
        from <= to <= b@.len(),
    ensures
        r@ == b@.subrange(from as int, to as int),
{
    let mut r: Vec<u8> = Vec::new();
    for i in from..to
        invariant
            to <= b@.len(),
            r@ == b@.subrange(from as int, i as int),
    {
        r.push(b[i]);
    }
    r
}

impl Cmd {
    /// Reads a request from the bytes received: a three-letter command word
    /// (`set`, `get` or `del`, in any ASCII case), one separator byte, the key
    /// up to the next space, and for `set` the value after that space. Anything
    /// else is `Unknown`.
    pub fn new(buf: &[u8]) -> (r: Cmd)
        ensures
            match r {
                Cmd::Put { key, value } => {
                    &&& is_set(buf@)
                    &&& key@ == decode_utf8(key_bytes(buf@))
                    &&& value@ == buf@.subrange(space_from(buf@, 4) + 1, buf@.len() as int)
                },
                Cmd::Get { key } => is_key_cmd(buf@, get_word()) && key@ == decode_utf8(
                    key_bytes(buf@),
                ),
                Cmd::Del { key } => is_key_cmd(buf@, del_word()) && key@ == decode_utf8(
                    key_bytes(buf@),
                ),
                Cmd::Unknown { .. } => !is_set(buf@) && !is_key_cmd(buf@, get_word())
                    && !is_key_cmd(buf@, del_word()),
            },
    {
        let n = buf.len();
        if n < 4 {
            return Cmd::Unknown { message: "request too short".to_owned() };
        }
        let mut i: usize = 4;
        while i < n && buf[i] != 32
            invariant
                4 <= i <= n,
                n == buf@.len(),
                space_from(buf@, i as int) == space_from(buf@, 4),
            decreases n - i,
        {
            i = i + 1;
        }
        proof {
            assert(space_from(buf@, i as int) == i);
        }
        let key = match utf8_string(copy_range(buf, 4, i)) {
            Some(key) => key,
            None => {
                return Cmd::Unknown { message: "key is not valid UTF-8".to_owned() };
            },
        };
        let c0 = lower(buf[0]);
        let c1 = lower(buf[1]);
        let c2 = lower(buf[2]);
        if c0 == 115 && c1 == 101 && c2 == 116 {
            if i < n {
                let value = copy_range(buf, i + 1, n);
                Cmd::Put { key, value }
            } else {
                Cmd::Unknown { message: "set without a value".to_owned() }
            }
        } else if c0 == 103 && c1 == 101 && c2 == 116 {
            Cmd::Get { key }
        } else if c0 == 100 && c1 == 101 && c2 == 108 {
            Cmd::Del { key }
        } else {
            Cmd::Unknown { message: "unknown command".to_owned() }
        }
    }
}

} // verus!
