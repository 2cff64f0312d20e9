//! Random password generation over a chosen set of character classes.
use vstd::prelude::*;
use vstd::string::{StrSliceExecFns, StringExecFns};
use rand::Rng;

verus! {

pub const UPPERCASE: &'static str = "ABCDEFGHIJKLMNOPQRSTUVWXYZ";
pub const LOWERCASE: &'static str = "abcdefghijklmnopqrstuvwxyz";
pub const DIGITS: &'static str = "0123456789";
pub const SYMBOLS: &'static str = "!@#$%^&*()_+-=[]{}|;:,.<>?";

/// Message of the refusal when no character class is chosen.
pub const NO_CHARSET_MESSAGE: &'static str = "至少需要选择一种字符类型";

/// What a generated password is made of; a missing class counts as chosen,
/// a missing length as 16.
pub struct PasswordGeneratorOptions {
    pub length: Option<usize>,
    pub include_uppercase: Option<bool>,
    pub include_lowercase: Option<bool>,
    pub include_numbers: Option<bool>,
    pub include_symbols: Option<bool>,
}

pub open spec fn chosen(o: Option<bool>) -> bool {
    match o {
        Some(b) => b,
        None => true,
    }
}

/// The characters a password may use: the chosen classes, in order.
pub open spec fn charset_spec(o: PasswordGeneratorOptions) -> Seq<char> {
    (if chosen(o.include_uppercase) { UPPERCASE@ } else { Seq::empty() })
        + (if chosen(o.include_lowercase) { LOWERCASE@ } else { Seq::empty() })
        + (if chosen(o.include_numbers) { DIGITS@ } else { Seq::empty() })
        + (if chosen(o.include_symbols) { SYMBOLS@ } else { Seq::empty() })
}

/// The asked length, 16 by default, held within `4..=128`.
pub open spec fn length_spec(o: PasswordGeneratorOptions) -> nat {
    let n = match o.length {
        Some(n) => n as int,
        None => 16,
    };
    if n < 4 { 4 } else if n > 128 { 128 } else { n as nat }
}

/// Relies on rand's `thread_rng().gen_range(0..n)`: a random index below `n`.
#[verifier::external_body]
fn random_below(n: usize) -> (r: usize)
    requires
        n > 0,
    ensures
        r < n,
{
    rand::thread_rng().gen_range(0..n)
}

/// The length a password is generated with.
pub fn password_length(options: &PasswordGeneratorOptions) -> (r: usize)
    ensures
        r == length_spec(*options),
{
    let n = match options.length {
        Some(n) => n,
        None => 16,
    };
    if n < 4 {
        4
    } else if n > 128 {
        128
    } else {
        n
    }
}

/// The characters a password may use.
pub fn password_charset(options: &PasswordGeneratorOptions) -> (r: String)
    ensures
        r@ == charset_spec(*options),
{
    let mut s = String::new();
    if options.include_uppercase.unwrap_or(true) {
        s = s.concat(UPPERCASE);
    }
    if options.include_lowercase.unwrap_or(true) {
        s = s.concat(LOWERCASE);
    }
    if options.include_numbers.unwrap_or(true) {
        s = s.concat(DIGITS);
    }
    if options.include_symbols.unwrap_or(true) {
        s = s.concat(SYMBOLS);
    }
    proof {
        assert(s@ =~= charset_spec(*options));
    }
    s
}

/// The password whose i-th character is character `picks[i] % n` of the
/// `n` allowed ones; refused where no class is chosen.
pub fn generate_password_from(options: &PasswordGeneratorOptions, picks: &Vec<usize>) -> (r: Result<String, String>)
    requires
        picks@.len() >= length_spec(*options),
    ensures
        charset_spec(*options).len() == 0 ==> (r matches Err(e) && e@ == NO_CHARSET_MESSAGE@),
        charset_spec(*options).len() > 0 ==> (r matches Ok(s) && s@.len() == length_spec(*options)
            && forall|i: int| 0 <= i < s@.len() ==>
                #[trigger] s@[i] == charset_spec(*options)[picks@[i] as int % charset_spec(*options).len() as int]),
{
    let length = password_length(options);
    let charset = password_charset(options);
    let n = charset.as_str().unicode_len();
    if n == 0 {
        return Err(NO_CHARSET_MESSAGE.to_string());
    }
    let mut out = String::new();
    let mut i: usize = 0;
    while i < length
        invariant
            length == length_spec(*options),
            picks@.len() >= length,
            n == charset@.len(),
            n > 0,
            charset@ == charset_spec(*options),
            i <= length,
            out@.len() == i,
            forall|k: int| 0 <= k < i ==> #[trigger] out@[k] == charset@[picks@[k] as int % n as int],
        decreases length - i,
    {
        let at = picks[i] % n;
        let one = charset.as_str().substring_char(at, at + 1);
        let ghost before = out@;
        out = out.concat(one);
        proof {
            assert(out@ =~= before.push(charset@[at as int]));
        }
        i = i + 1;
    }
    Ok(out)
}

/// A random password of the asked length over the chosen classes; refused
/// where no class is chosen.
pub fn generate_password(options: &PasswordGeneratorOptions) -> (r: Result<String, String>)
    ensures
        charset_spec(*options).len() == 0 ==> (r matches Err(e) && e@ == NO_CHARSET_MESSAGE@),
        charset_spec(*options).len() > 0 ==> (r matches Ok(s) && s@.len() == length_spec(*options)
            && forall|i: int| 0 <= i < s@.len() ==> charset_spec(*options).contains(#[trigger] s@[i])),
{
    let length = password_length(options);
    let n = password_charset(options).as_str().unicode_len();
    let mut picks: Vec<usize> = Vec::new();
    if n > 0 {
        let mut i: usize = 0;
        while i < length
            invariant
                n > 0,
                i <= length,
                picks@.len() == i,
            decreases length - i,
        {
            picks.push(random_below(n));
            i = i + 1;
        }
    } else {
        let mut i: usize = 0;
        while i < length
            invariant
                i <= length,
                picks@.len() == i,
            decreases length - i,
        {
            picks.push(0);
            i = i + 1;
        }
    }
    let r = generate_password_from(options, &picks);
    proof {
        if charset_spec(*options).len() > 0 {
            let cs = charset_spec(*options);
            let s = r->Ok_0@;
            assert forall|i: int| 0 <= i < s.len() implies cs.contains(#[trigger] s[i]) by {
                let j = picks@[i] as int % cs.len() as int;
                assert(0 <= j < cs.len());
                assert(cs[j] == s[i]);
            }
        }
    }
    r
}

} // verus!
