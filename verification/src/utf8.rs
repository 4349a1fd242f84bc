//! UTF-8 validity of decoded entry names.
//!
//! A name whose deciphered bytes are not well-formed UTF-8 ends table
//! parsing early (a soft stop, like end-of-file), so validity is part of
//! the table codec's behaviour. Well-formedness follows the standard
//! encoding: one to four bytes per scalar value, continuation bytes in
//! `0x80..0xC0`, no overlong forms, no surrogates, nothing above
//! `U+10FFFF`.

use vstd::prelude::*;

verus! {

/// A continuation byte: the trailing bytes of every multi-byte scalar.
pub open spec fn is_cont(b: u8) -> bool {
    0x80 <= b < 0xc0
}

/// `s` is well-formed UTF-8.
pub open spec fn is_utf8(s: Seq<u8>) -> bool
    decreases s.len(),
{
    if s.len() == 0 {
        true
    } else {
        let b0 = s[0];
        if b0 < 0x80 {
            is_utf8(s.skip(1))
        } else if 0xc2 <= b0 < 0xe0 {
            s.len() >= 2 && is_cont(s[1]) && is_utf8(s.skip(2))
        } else if b0 == 0xe0 {
            s.len() >= 3 && 0xa0 <= s[1] < 0xc0 && is_cont(s[2]) && is_utf8(s.skip(3))
        } else if b0 == 0xed {
            s.len() >= 3 && 0x80 <= s[1] < 0xa0 && is_cont(s[2]) && is_utf8(s.skip(3))
        } else if 0xe0 < b0 < 0xf0 {
            s.len() >= 3 && is_cont(s[1]) && is_cont(s[2]) && is_utf8(s.skip(3))
        } else if b0 == 0xf0 {
            s.len() >= 4 && 0x90 <= s[1] < 0xc0 && is_cont(s[2]) && is_cont(s[3]) && is_utf8(
                s.skip(4),
            )
        } else if 0xf0 < b0 < 0xf4 {
            s.len() >= 4 && is_cont(s[1]) && is_cont(s[2]) && is_cont(s[3]) && is_utf8(s.skip(4))
        } else if b0 == 0xf4 {
            s.len() >= 4 && 0x80 <= s[1] < 0x90 && is_cont(s[2]) && is_cont(s[3]) && is_utf8(
                s.skip(4),
            )
        } else {
            false
        }
    }
}

/// Decide whether `s` is well-formed UTF-8.
pub fn is_valid_utf8(s: &Vec<u8>) -> (r: bool)
    ensures
        r == is_utf8(s@),
{
    let n = s.len();
    let mut pos: usize = 0;
    proof {
        assert(s@.skip(0) =~= s@);
    }
    loop
        invariant_except_break
            pos <= n,
            n == s@.len(),
            is_utf8(s@) == is_utf8(s@.skip(pos as int)),
        ensures
            is_utf8(s@) == is_utf8(s@.skip(pos as int)),
            pos == n || !is_utf8(s@),
        decreases n - pos,
    {
        if pos == n {
            break ;
        }
        let ghost tail = s@.skip(pos as int);
        assert(tail.len() == n - pos);
        assert(tail[0] == s@[pos as int]);
        let b0 = s[pos];
        let step: usize;
        if b0 < 0x80 {
            step = 1;
        } else if 0xc2 <= b0 && b0 < 0xe0 {
            if n - pos < 2 || !(0x80 <= s[pos + 1] && s[pos + 1] < 0xc0) {
                proof {
                    assert(!is_utf8(tail));
                }
                return false;
            }
            step = 2;
        } else if 0xe0 <= b0 && b0 < 0xf0 {
            let lo: u8 = if b0 == 0xe0 {
                0xa0
            } else {
                0x80
            };
            let hi: u8 = if b0 == 0xed {
                0xa0
            } else {
                0xc0
            };
            if n - pos < 3 || !(lo <= s[pos + 1] && s[pos + 1] < hi) || !(0x80 <= s[pos + 2]
                && s[pos + 2] < 0xc0) {
                proof {
                    assert(!is_utf8(tail));
                }
                return false;
            }
            step = 3;
        } else if 0xf0 <= b0 && b0 < 0xf5 {
            let lo: u8 = if b0 == 0xf0 {
                0x90
            } else {
                0x80
            };
            let hi: u8 = if b0 == 0xf4 {
                0x90
            } else {
                0xc0
            };
            if n - pos < 4 || !(lo <= s[pos + 1] && s[pos + 1] < hi) || !(0x80 <= s[pos + 2]
                && s[pos + 2] < 0xc0) || !(0x80 <= s[pos + 3] && s[pos + 3] < 0xc0) {
                proof {
                    assert(!is_utf8(tail));
                }
                return false;
            }
            step = 4;
        } else {
            proof {
                assert(!is_utf8(tail));
            }
            return false;
        }
        proof {
            assert(forall|j: int| 0 <= j < tail.len() ==> tail[j] == s@[pos + j]);
            assert(tail.skip(step as int) =~= s@.skip(pos + step as int));
            assert(is_utf8(tail) == is_utf8(tail.skip(step as int)));
        }
        pos = pos + step;
    }
    pos == n
}

} // verus!
