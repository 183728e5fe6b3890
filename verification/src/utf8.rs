//! UTF-8 validity: text-bearing wire values must decode as text, so the
//! decoder checks their payload bytes against the UTF-8 encoding scheme.

use vstd::prelude::*;

verus! {

/// A continuation byte: the second and later bytes of a multi-byte
/// encoded scalar value.
pub open spec fn is_cont(b: u8) -> bool {
    0x80 <= b <= 0xBF
}

/// Whether `s` is a well-formed UTF-8 encoding of some text: a sequence of
/// encoded Unicode scalar values, shortest form only, excluding surrogates.
pub open spec fn is_utf8(s: Seq<u8>) -> bool
    decreases s.len(),
{
    if s.len() == 0 {
        true
    } else {
        let b0 = s[0];
        if b0 < 0x80 {
            is_utf8(s.skip(1))
        } else if 0xC2 <= b0 <= 0xDF {
            s.len() >= 2 && is_cont(s[1]) && is_utf8(s.skip(2))
        } else if b0 == 0xE0 {
            s.len() >= 3 && 0xA0 <= s[1] <= 0xBF && is_cont(s[2]) && is_utf8(s.skip(3))
        } else if b0 == 0xED {
            s.len() >= 3 && 0x80 <= s[1] <= 0x9F && is_cont(s[2]) && is_utf8(s.skip(3))
        } else if 0xE1 <= b0 <= 0xEF {
            s.len() >= 3 && is_cont(s[1]) && is_cont(s[2]) && is_utf8(s.skip(3))
        } else if b0 == 0xF0 {
            s.len() >= 4 && 0x90 <= s[1] <= 0xBF && is_cont(s[2]) && is_cont(s[3]) && is_utf8(
                s.skip(4),
            )
        } else if 0xF1 <= b0 <= 0xF3 {
            s.len() >= 4 && is_cont(s[1]) && is_cont(s[2]) && is_cont(s[3]) && is_utf8(s.skip(4))
        } else if b0 == 0xF4 {
            s.len() >= 4 && 0x80 <= s[1] <= 0x8F && is_cont(s[2]) && is_cont(s[3]) && is_utf8(
                s.skip(4),
            )
        } else {
            false
        }
    }
}

/// Checks whether `s` is well-formed UTF-8.
pub fn validate_utf8(s: &[u8]) -> (r: bool)
    ensures
        r == is_utf8(s@),
{
    let n = s.len();
    let mut i: usize = 0;
    proof {
        assert(s@.skip(0) =~= s@);
    }
    while i < n
        invariant
            i <= n == s@.len(),
            is_utf8(s@) == is_utf8(s@.skip(i as int)),
        decreases n - i,
    {
        let ghost rest = s@.skip(i as int);
        proof {
            assert(rest[0] == s@[i as int]);
        }
        let b0 = *vstd::slice::slice_index_get(s, i);
        let step: usize = if b0 < 0x80 {
            1
        } else if 0xC2 <= b0 && b0 <= 0xDF {
            if n - i < 2 {
                return false;
            }
            let b1 = *vstd::slice::slice_index_get(s, i + 1);
            proof {
                assert(rest[1] == s@[i + 1]);
            }
            if !(0x80 <= b1 && b1 <= 0xBF) {
                return false;
            }
            2
        } else if 0xE0 <= b0 && b0 <= 0xEF {
            if n - i < 3 {
                return false;
            }
            let b1 = *vstd::slice::slice_index_get(s, i + 1);
            let b2 = *vstd::slice::slice_index_get(s, i + 2);
            proof {
                assert(rest[1] == s@[i + 1]);
                assert(rest[2] == s@[i + 2]);
            }
            let lo: u8 = if b0 == 0xE0 {
                0xA0
            } else {
                0x80
            };
            let hi: u8 = if b0 == 0xED {
                0x9F
            } else {
                0xBF
            };
            if !(lo <= b1 && b1 <= hi) {
                return false;
            }
            if !(0x80 <= b2 && b2 <= 0xBF) {
                return false;
            }
            3
        } else if 0xF0 <= b0 && b0 <= 0xF4 {
            if n - i < 4 {
                return false;
            }
            let b1 = *vstd::slice::slice_index_get(s, i + 1);
            let b2 = *vstd::slice::slice_index_get(s, i + 2);
            let b3 = *vstd::slice::slice_index_get(s, i + 3);
            proof {
                assert(rest[1] == s@[i + 1]);
                assert(rest[2] == s@[i + 2]);
                assert(rest[3] == s@[i + 3]);
            }
            let lo: u8 = if b0 == 0xF0 {
                0x90
            } else {
                0x80
            };
            let hi: u8 = if b0 == 0xF4 {
                0x8F
            } else {
                0xBF
            };
            if !(lo <= b1 && b1 <= hi) {
                return false;
            }
            if !(0x80 <= b2 && b2 <= 0xBF) {
                return false;
            }
            if !(0x80 <= b3 && b3 <= 0xBF) {
                return false;
            }
            4
        } else {
            return false;
        };
        proof {
            assert(rest.skip(step as int) =~= s@.skip(i + step));
        }
        i = i + step;
    }
    proof {
        assert(s@.skip(n as int) =~= Seq::<u8>::empty());
    }
    true
}

} // verus!
