//! Small helpers shared by the relay: random key material and numeric
//! parsing of query-string values.

use vstd::prelude::*;

verus! {

/// True of the ASCII letters and digits, the only characters that appear in
/// generated site and room keys.
pub open spec fn is_alphanumeric_char(c: char) -> bool {
    ('a' <= c && c <= 'z') || ('A' <= c && c <= 'Z') || ('0' <= c && c <= '9')
}

/// Relies on `rand::thread_rng` sampling `rand::distributions::Alphanumeric`:
/// the distribution yields one uniformly chosen ASCII letter or digit per draw.
#[verifier::external_body]
fn random_alphanumeric() -> (s: String)
    ensures
        s@.len() == 1,
        is_alphanumeric_char(s@[0]),
{
    String::from(rand::Rng::sample(&mut rand::thread_rng(), rand::distributions::Alphanumeric) as char)
}

/// A fresh random string of exactly `length` ASCII letters and digits, used
/// as site-key and room-key material.
pub fn generate_random_string(length: usize) -> (r: String)
    ensures
        r@.len() == length as int,
        forall|i: int| 0 <= i < r@.len() ==> is_alphanumeric_char(#[trigger] r@[i]),
{
    let mut r = String::new();
    let mut n: usize = 0;
    while n < length
        invariant
            n <= length,
            r@.len() == n as int,
            forall|i: int| 0 <= i < r@.len() ==> is_alphanumeric_char(#[trigger] r@[i]),
        decreases length - n,
    {
        let c = random_alphanumeric();
        r.append(c.as_str());
        n = n + 1;
    }
    r
}

/// Character-for-character equality of two string slices.
pub fn str_eq(a: &str, b: &str) -> (r: bool)
    ensures
        r == (a@ == b@),
{
    let la = a.unicode_len();
    let lb = b.unicode_len();
    if la != lb {
        return false;
    }
    let mut i: usize = 0;
    while i < la
        invariant
            i <= la,
            la == a@.len(),
            la == b@.len(),
            forall|j: int| 0 <= j < i ==> a@[j] == b@[j],
        decreases la - i,
    {
        if a.get_char(i) != b.get_char(i) {
            return false;
        }
        i = i + 1;
    }
    proof {
        assert(a@ =~= b@);
    }
    true
}

/// Whether some entry of `v` reads as `key`.
pub fn vec_contains_str(v: &Vec<String>, key: &str) -> (r: bool)
    ensures
        r == exists|i: int| 0 <= i < v@.len() && (#[trigger] v@[i])@ == key@,
{
    let n = v.len();
    let mut i: usize = 0;
    while i < n
        invariant
            i <= n,
            n == v@.len(),
            forall|j: int| 0 <= j < i ==> (#[trigger] v@[j])@ != key@,
        decreases n - i,
    {
        if str_eq(v[i].as_str(), key) {
            return true;
        }
        i = i + 1;
    }
    false
}

/// A copy of a vector of identifiers.
pub fn copy_ids(v: &Vec<usize>) -> (r: Vec<usize>)
    ensures
        r@ == v@,
{
    let n = v.len();
    let mut r: Vec<usize> = Vec::new();
    let mut i: usize = 0;
    while i < n
        invariant
            i <= n,
            n == v@.len(),
            r@ == v@.subrange(0, i as int),
        decreases n - i,
    {
        r.push(v[i]);
        proof {
            assert(r@ =~= v@.subrange(0, i as int + 1));
        }
        i = i + 1;
    }
    proof {
        assert(v@.subrange(0, n as int) =~= v@);
    }
    r
}

/// A copy of a vector of strings, equal name for name.
pub fn copy_strings(v: &Vec<String>) -> (r: Vec<String>)
    ensures
        r@.len() == v@.len(),
        forall|i: int| 0 <= i < v@.len() ==> (#[trigger] r@[i])@ == v@[i]@,
{
    let n = v.len();
    let mut r: Vec<String> = Vec::new();
    let mut i: usize = 0;
    while i < n
        invariant
            i <= n,
            n == v@.len(),
            r@.len() == i as int,
            forall|j: int| 0 <= j < i ==> (#[trigger] r@[j])@ == v@[j]@,
        decreases n - i,
    {
        r.push(v[i].clone());
        i = i + 1;
    }
    r
}

/// The number denoted by a sequence of decimal digits, most significant first.
pub open spec fn decimal_value(s: Seq<char>) -> int
    decreases s.len(),
{
    if s.len() == 0 {
        0
    } else {
        decimal_value(s.drop_last()) * 10 + (s.last() as int - '0' as int)
    }
}

/// True when every character of `s` is a decimal digit.
pub open spec fn all_digits(s: Seq<char>) -> bool {
    forall|i: int| 0 <= i < s.len() ==> '0' <= #[trigger] s[i] && s[i] <= '9'
}

/// Parses a non-empty all-digit string as a `usize`; any other input, and any
/// value that does not fit, is rejected.
pub fn str_to_usize(s: &str) -> (r: Option<usize>)
    ensures
        match r {
            Some(v) => s@.len() > 0 && all_digits(s@) && v as int == decimal_value(s@),
            None => s@.len() == 0 || !all_digits(s@) || decimal_value(s@) > usize::MAX,
        },
{
    let len = s.unicode_len();
    if len == 0 {
        return None;
    }
    let mut acc: usize = 0;
    let mut i: usize = 0;
    while i < len
        invariant
            i <= len,
            len == s@.len(),
            all_digits(s@.subrange(0, i as int)),
            acc as int == decimal_value(s@.subrange(0, i as int)),
        decreases len - i,
    {
        let c = s.get_char(i);
        if c < '0' || c > '9' {
            proof {
                assert(s@.subrange(0, len as int) =~= s@);
            }
            return None;
        }
        let d: usize = (c as u32 as usize) - 48;
        let widened = match acc.checked_mul(10) {
            Some(w) => w.checked_add(d),
            None => None,
        };
        match widened {
            Some(next) => {
                acc = next;
                proof {
                    assert(s@.subrange(0, i as int + 1).drop_last() =~= s@.subrange(0, i as int));
                }
                i = i + 1;
            },
            None => {
                proof {
                    if all_digits(s@) {
                        assert(s@.subrange(0, i as int + 1).drop_last() =~= s@.subrange(
                            0,
                            i as int,
                        ));
                        assert(decimal_value(s@.subrange(0, i as int + 1)) > usize::MAX);
                        lemma_decimal_prefix_monotone(s@, i as int + 1);
                    }
                }
                return None;
            },
        }
    }
    proof {
        assert(s@.subrange(0, len as int) =~= s@);
    }
    Some(acc)
}

/// Appending digits never decreases the denoted value: the value of a digit
/// prefix bounds the value of the whole string from below.
proof fn lemma_decimal_prefix_monotone(s: Seq<char>, n: int)
    requires
        0 <= n <= s.len(),
        all_digits(s),
    ensures
        decimal_value(s.subrange(0, n)) <= decimal_value(s),
    decreases s.len() - n,
{
    if n < s.len() {
        lemma_decimal_prefix_monotone(s, n + 1);
        assert(s.subrange(0, n + 1).drop_last() =~= s.subrange(0, n));
        assert(decimal_value(s.subrange(0, n + 1)) == decimal_value(s.subrange(0, n)) * 10 + (
        s[n] as int - '0' as int));
        assert(decimal_value(s.subrange(0, n)) * 10 >= decimal_value(s.subrange(0, n))) by {
            lemma_decimal_nonnegative(s.subrange(0, n));
        }
    } else {
        assert(s.subrange(0, n) =~= s);
    }
}

/// A digit string denotes a value of at least zero.
proof fn lemma_decimal_nonnegative(s: Seq<char>)
    requires
        all_digits(s),
    ensures
        decimal_value(s) >= 0,
    decreases s.len(),
{
    if s.len() > 0 {
        assert(all_digits(s.drop_last())) by {
            assert(forall|i: int|
                0 <= i < s.drop_last().len() ==> s.drop_last()[i] == #[trigger] s[i]);
        }
        lemma_decimal_nonnegative(s.drop_last());
    }
}


/// The decimal digits of `n`, most significant first.
pub open spec fn dec_str(n: nat) -> Seq<char>
    decreases n,
{
    if n < 10 {
        seq![crate::dates::digit_char(n as int)]
    } else {
        dec_str(n / 10) + seq![crate::dates::digit_char((n % 10) as int)]
    }
}

/// Render `n` in decimal.
pub fn u64_to_string(n: u64) -> (r: String)
    ensures
        r@ == dec_str(n as nat),
    decreases n,
{
    if n < 10 {
        crate::dates::digit_str(n).to_owned()
    } else {
        let mut r = u64_to_string(n / 10);
        r.append(crate::dates::digit_str(n % 10));
        proof {
            assert(r@ =~= dec_str(n as nat));
        }
        r
    }
}

/// The object key an uploaded attachment is stored under: the files area,
/// the day folder, then the second count and a random tag glued to the
/// original file name.
pub open spec fn upload_key_of(
    day: Seq<char>,
    seconds: nat,
    tag: nat,
    file_name: Seq<char>,
) -> Seq<char> {
    "/ada_chat/files/"@ + day + "/"@ + dec_str(seconds) + dec_str(tag) + "_"@ + file_name
}

/// See `upload_key_of`.
pub fn upload_object_key(day: &str, seconds: u64, tag: u64, file_name: &str) -> (r: String)
    ensures
        r@ == upload_key_of(day@, seconds as nat, tag as nat, file_name@),
{
    let mut r = "/ada_chat/files/".to_owned();
    r.append(day);
    r.append("/");
    r.append(u64_to_string(seconds).as_str());
    r.append(u64_to_string(tag).as_str());
    r.append("_");
    r.append(file_name);
    r
}

/// An optional request value read as a string: an absent or literal
/// `null` value is no value.
pub fn str_from_map(value: Option<&str>) -> (r: Option<String>)
    ensures
        match r {
            Some(s) => value matches Some(v) && v@ == s@ && v@ != "null"@,
            None => value is None || (value matches Some(v) && v@ == "null"@),
        },
{
    match value {
        Some(v) => {
            if str_eq(v, "null") {
                None
            } else {
                Some(v.to_owned())
            }
        },
        None => None,
    }
}

/// A required request value: absent, empty and literal `null` values are
/// refused.
pub fn str_from_map_required(value: Option<&str>) -> (r: Option<String>)
    ensures
        match r {
            Some(s) => value matches Some(v) && v@ == s@ && v@ != "null"@ && v@.len() > 0,
            None => value is None || (value matches Some(v) && (v@ == "null"@ || v@.len() == 0)),
        },
{
    match value {
        Some(v) => {
            if str_eq(v, "null") || v.unicode_len() == 0 {
                None
            } else {
                Some(v.to_owned())
            }
        },
        None => None,
    }
}

/// An optional numeric request value: absent falls back to the default, a
/// literal `null` reads as one, and anything unparsable is refused.
pub fn usize_from_map_default(value: Option<&str>, default: usize) -> (r: Option<usize>)
    ensures
        match value {
            None => r == Some(default),
            Some(v) => if v@ == "null"@ {
                r == Some(1usize)
            } else {
                match r {
                    Some(n) => v@.len() > 0 && all_digits(v@) && n as int == decimal_value(v@),
                    None => v@.len() == 0 || !all_digits(v@) || decimal_value(v@) > usize::MAX,
                }
            },
        },
{
    match value {
        Some(v) => {
            if str_eq(v, "null") {
                Some(1)
            } else {
                str_to_usize(v)
            }
        },
        None => Some(default),
    }
}
} // verus!
