//! Validation of store file names.
use vstd::prelude::*;
use vstd::string::StringSliceAdditionalSpecFns;

use super::error::{Error, Result};
use super::format::MAX_NAME_LEN;

verus! {

/// The end of the path segment that starts at `i`: the index of the next
/// `/` at or after `i`, or the length of `b`.
pub open spec fn segment_end(b: Seq<u8>, i: int) -> int
    decreases b.len() - i,
{
    if i < 0 || i >= b.len() {
        b.len() as int
    } else if b[i] == 47u8 {
        i
    } else {
        segment_end(b, i + 1)
    }
}

/// A path segment the store accepts: not empty, not `.`, not `..`.
pub open spec fn segment_ok(g: Seq<u8>) -> bool {
    g.len() > 0 && g != seq![46u8] && g != seq![46u8, 46u8]
}

/// The first refused segment among those that start at `i` or later.
pub open spec fn first_bad_segment(b: Seq<u8>, i: int) -> Option<Seq<u8>>
    decreases b.len() - i,
{
    if i < 0 || i > b.len() {
        None
    } else {
        let k = segment_end(b, i);
        let g = b.subrange(i, k);
        if !segment_ok(g) {
            Some(g)
        } else if k >= b.len() {
            None
        } else {
            proof {
                lemma_segment_end_bounds(b, i);
            }
            first_bad_segment(b, k + 1)
        }
    }
}

/// Why `validate_name` refuses a name with UTF-8 bytes `b`, in the order it
/// checks; `None` when it accepts the name.
pub open spec fn name_problem(b: Seq<u8>) -> Option<Seq<char>> {
    if b.len() == 0 || b.len() > MAX_NAME_LEN {
        Some("length must be 1..=255"@)
    } else if b.contains(0u8) {
        Some("contains NUL"@)
    } else {
        match first_bad_segment(b, 0) {
            None => None,
            Some(g) => if g.len() == 0 {
                Some("empty path segment"@)
            } else if g.len() == 1 {
                Some("illegal segment '.'"@)
            } else {
                Some("illegal segment '..'"@)
            },
        }
    }
}

pub proof fn lemma_segment_end_bounds(b: Seq<u8>, i: int)
    requires
        0 <= i <= b.len(),
    ensures
        i <= segment_end(b, i) <= b.len(),
        segment_end(b, i) < b.len() ==> b[segment_end(b, i)] == 47u8,
        forall|j: int| i <= j < segment_end(b, i) ==> b[j] != 47u8,
    decreases b.len() - i,
{
    if i < b.len() && b[i] != 47u8 {
        lemma_segment_end_bounds(b, i + 1);
    }
}

/// Validate a store name and return its UTF-8 bytes.
pub fn validate_name(name: &str) -> (r: Result<Vec<u8>>)
    ensures
        match name_problem(name.spec_bytes()) {
            None => r matches Ok(v) && v@ == name.spec_bytes(),
            Some(msg) => r matches Err(Error::InvalidName(m)) && m@ == msg,
        },
{
    let bytes = name.as_bytes();
    let n = bytes.len();
    if n == 0 || n > MAX_NAME_LEN {
        return Err(Error::InvalidName(String::from_str("length must be 1..=255")));
    }
    let mut z: usize = 0;
    while z < n
        invariant
            n == bytes@.len(),
            bytes@ == name.spec_bytes(),
            1 <= n <= MAX_NAME_LEN,
            z <= n,
            forall|j: int| 0 <= j < z ==> bytes@[j] != 0u8,
        decreases n - z,
    {
        if bytes[z] == 0 {
            assert(bytes@.contains(0u8)) by {
                assert(bytes@[z as int] == 0u8);
            }
            return Err(Error::InvalidName(String::from_str("contains NUL")));
        }
        z = z + 1;
    }
    assert(!bytes@.contains(0u8));
    let mut i: usize = 0;
    loop
        invariant
            n == bytes@.len(),
            bytes@ == name.spec_bytes(),
            1 <= n <= MAX_NAME_LEN,
            !bytes@.contains(0u8),
            i <= n,
            name_problem(bytes@) == (match first_bad_segment(bytes@, i as int) {
                None => None,
                Some(g) => if g.len() == 0 {
                    Some("empty path segment"@)
                } else if g.len() == 1 {
                    Some("illegal segment '.'"@)
                } else {
                    Some("illegal segment '..'"@)
                },
            }),
        decreases n - i,
    {
        let mut k = i;
        while k < n && bytes[k] != 47u8
            invariant
                n == bytes@.len(),
                i <= k <= n,
                segment_end(bytes@, i as int) == segment_end(bytes@, k as int),
            decreases n - k,
        {
            k = k + 1;
        }
        proof {
            lemma_segment_end_bounds(bytes@, i as int);
            assert(segment_end(bytes@, k as int) == k as int);
        }
        let ghost g = bytes@.subrange(i as int, k as int);
        let len = k - i;
        if len == 0 {
            return Err(Error::InvalidName(String::from_str("empty path segment")));
        }
        if len == 1 && bytes[i] == 46u8 {
            assert(g =~= seq![46u8]);
            return Err(Error::InvalidName(String::from_str("illegal segment '.'")));
        }
        if len == 2 && bytes[i] == 46u8 && bytes[i + 1] == 46u8 {
            assert(g =~= seq![46u8, 46u8]);
            return Err(Error::InvalidName(String::from_str("illegal segment '..'")));
        }
        assert(segment_ok(g)) by {
            if len == 1 {
                assert(g[0] != 46u8);
            }
            if len == 2 {
                assert(g[0] != 46u8 || g[1] != 46u8);
            }
        }
        if k == n {
            return Ok(vstd::slice::slice_to_vec(bytes));
        }
        i = k + 1;
    }
}

} // verus!
