//! What the request handlers work out themselves.

use crate::text::chars_of;
use vstd::prelude::*;
use vstd::string::StringExecFns;

pub mod chat;
pub mod games;
pub mod house_rules;
pub mod static_files;
pub mod upload;

verus! {

/// The headers that let a page of another origin call the service.
#[derive(Debug)]
pub struct CorsHeaders {
    pub origin: String,
    pub methods: String,
    pub headers: String,
}

/// The headers sent with every answer: any origin, the five methods of the
/// service, and the two request headers it reads.
pub fn default_cors_headers() -> (cors: CorsHeaders)
    ensures
        cors.origin@ == "*"@,
        cors.methods@ == "GET, POST, PUT, DELETE, OPTIONS"@,
        cors.headers@ == "Content-Type, Authorization"@,
{
    CorsHeaders {
        origin: String::from_str("*"),
        methods: String::from_str("GET, POST, PUT, DELETE, OPTIONS"),
        headers: String::from_str("Content-Type, Authorization"),
    }
}

/// The value of a decimal digit.
pub open spec fn digit_value(c: char) -> Option<int> {
    if 0x30 <= (c as u32) <= 0x39 {
        Some((c as u32) - 0x30)
    } else {
        None
    }
}

/// The number that a run of decimal digits stands for, if it is one and is
/// not empty.
pub open spec fn digits_value(s: Seq<char>) -> Option<int>
    decreases s.len(),
{
    if s.len() == 0 {
        None
    } else if s.len() == 1 {
        digit_value(s[0])
    } else {
        match (digits_value(s.drop_last()), digit_value(s.last())) {
            (Some(high), Some(low)) => Some(10 * high + low),
            _ => None,
        }
    }
}

/// The integer that a text stands for: decimal digits, after a plus or a
/// minus sign or none, and nothing else.
pub open spec fn integer_value(s: Seq<char>) -> Option<int> {
    if s.len() > 0 && s[0] == '-' {
        match digits_value(s.skip(1)) {
            Some(v) => Some(-v),
            None => None,
        }
    } else if s.len() > 0 && s[0] == '+' {
        digits_value(s.skip(1))
    } else {
        digits_value(s)
    }
}

/// The id that a text stands for: the integer that it stands for, if that
/// is one that an id can hold.
pub open spec fn id_value(s: Seq<char>) -> Option<i64> {
    match integer_value(s) {
        Some(v) => if i64::MIN <= v <= i64::MAX {
            Some(v as i64)
        } else {
            None
        },
        None => None,
    }
}

/// The id that `text` stands for, if it stands for one.
pub fn parse_id(text: &str) -> (id: Option<i64>)
    ensures
        id == id_value(text@),
{
    let chars = chars_of(text);
    let n = chars.len();
    if n == 0 {
        return None;
    }
    let negative = chars[0] == '-';
    let start: usize = if chars[0] == '-' || chars[0] == '+' {
        1
    } else {
        0
    };
    if start == n {
        assert(chars@.skip(1) =~= Seq::<char>::empty());
        return None;
    }
    let ghost digits = chars@.skip(start as int);
    assert(digits =~= chars@.subrange(start as int, n as int));
    if start == 0 {
        assert(digits =~= chars@);
    }
    // `value` is the number read so far, or any number too large for an id
    // once `large` is set
    assert(integer_value(text@) == match digits_value(digits) {
        Some(v) => Some(
            if negative {
                -v
            } else {
                v
            },
        ),
        None => None,
    });
    let mut value: u64 = 0;
    let mut large = false;
    let ghost mut read: int = 0;
    let mut i: usize = start;
    while i < n
        invariant
            start <= i <= n,
            integer_value(text@) == match digits_value(digits) {
                Some(v) => Some(
                    if negative {
                        -v
                    } else {
                        v
                    },
                ),
                None => None,
            },
            n == chars@.len(),
            start < n,
            digits == chars@.subrange(start as int, n as int),
            i > start ==> digits_value(digits.take(i - start)) == Some(read),
            i == start ==> read == 0,
            read >= 0,
            !large ==> read == value && value <= 0x8000_0000_0000_0000,
            large ==> read > 0x8000_0000_0000_0000,
        decreases n - i,
    {
        let code: u32 = chars[i] as u32;
        let ghost upto = digits.take(i - start + 1);
        assert(upto.drop_last() =~= digits.take(i - start));
        assert(upto.last() == chars@[i as int]);
        if !(0x30 <= code && code <= 0x39) {
            proof {
                assert(digit_value(upto.last()) is None);
                assert(digits_value(upto) is None);
                lemma_no_digits_after(digits, i - start + 1);
            }
            return None;
        }
        let d: u64 = (code - 0x30) as u64;
        proof {
            assert(digit_value(upto.last()) == Some(d as int));
            read = 10 * read + d;
            assert(digits_value(upto) == Some(read));
        }
        if !large {
            if value > 0x0CCC_CCCC_CCCC_CCCC {
                large = true;
            } else {
                value = value * 10 + d;
                if value > 0x8000_0000_0000_0000 {
                    large = true;
                }
            }
        }
        i += 1;
    }
    assert(digits.take(n - start) =~= digits);
    if large {
        return None;
    }
    if negative {
        if value == 0x8000_0000_0000_0000 {
            Some(i64::MIN)
        } else {
            Some(-(value as i64))
        }
    } else if value == 0x8000_0000_0000_0000 {
        None
    } else {
        Some(value as i64)
    }
}

proof fn lemma_no_digits_after(s: Seq<char>, upto: int)
    requires
        0 < upto <= s.len(),
        digits_value(s.take(upto)) is None,
    ensures
        digits_value(s) is None,
    decreases s.len() - upto,
{
    if upto < s.len() {
        assert(s.take(upto + 1).drop_last() =~= s.take(upto));
        lemma_no_digits_after(s, upto + 1);
    } else {
        assert(s.take(upto) =~= s);
    }
}

/// Whether a text holds nothing but whitespace.
pub fn is_blank_text(text: &str) -> (blank: bool)
    ensures
        blank == (crate::text::trim(text@).len() == 0),
{
    let chars = chars_of(text);
    crate::text::trim_slice(chars.as_slice()).len() == 0
}

} // verus!
