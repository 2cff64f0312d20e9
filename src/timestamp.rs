//! Export timestamps: seconds since the Unix epoch in decimal, then `Z`.
use vstd::prelude::*;
use vstd::string::StringExecFns;

verus! {

/// The decimal digit for `d < 10`.
pub open spec fn digit_char(d: nat) -> char {
    if d == 0 { '0' }
    else if d == 1 { '1' }
    else if d == 2 { '2' }
    else if d == 3 { '3' }
    else if d == 4 { '4' }
    else if d == 5 { '5' }
    else if d == 6 { '6' }
    else if d == 7 { '7' }
    else if d == 8 { '8' }
    else { '9' }
}

/// `n` written in decimal, without leading zeros.
pub open spec fn decimal(n: nat) -> Seq<char>
    decreases n,
{
    if n < 10 {
        seq![digit_char(n)]
    } else {
        decimal(n / 10).push(digit_char(n % 10))
    }
}

/// Relies on `SystemTime::now().duration_since(UNIX_EPOCH)`: whole seconds
/// since the epoch, 0 where the clock stands before it.
#[verifier::external_body]
fn unix_time_secs() -> (r: u64) {
    std::time::SystemTime::now().duration_since(std::time::UNIX_EPOCH).map_or(0, |d| d.as_secs())
}

fn digit_text(d: u64) -> (r: &'static str)
    requires
        d < 10,
    ensures
        r@ == seq![digit_char(d as nat)],
{
    if d == 0 {
        proof { reveal_strlit("0"); }
        "0"
    } else if d == 1 {
        proof { reveal_strlit("1"); }
        "1"
    } else if d == 2 {
        proof { reveal_strlit("2"); }
        "2"
    } else if d == 3 {
        proof { reveal_strlit("3"); }
        "3"
    } else if d == 4 {
        proof { reveal_strlit("4"); }
        "4"
    } else if d == 5 {
        proof { reveal_strlit("5"); }
        "5"
    } else if d == 6 {
        proof { reveal_strlit("6"); }
        "6"
    } else if d == 7 {
        proof { reveal_strlit("7"); }
        "7"
    } else if d == 8 {
        proof { reveal_strlit("8"); }
        "8"
    } else {
        proof { reveal_strlit("9"); }
        "9"
    }
}

/// The timestamp text for `secs` seconds since the epoch.
pub fn format_epoch_seconds(secs: u64) -> (r: String)
    ensures
        r@ == decimal(secs as nat) + seq!['Z'],
{
    if secs == 0 {
        proof {
            reveal_strlit("0Z");
        }
        return String::from_str("0Z");
    }
    let mut m: u64 = secs;
    let mut s = String::new();
    assert(decimal(secs as nat) =~= decimal(secs as nat) + s@);
    while m > 0
        invariant
            decimal(secs as nat) == (if m > 0 { decimal(m as nat) } else { Seq::<char>::empty() }) + s@,
        decreases m,
    {
        let d = m % 10;
        let ghost old_s = s@;
        let ghost old_m = m as nat;
        s = String::from_str(digit_text(d)).concat(s.as_str());
        m = m / 10;
        proof {
            if old_m >= 10 {
                assert(decimal(old_m) == decimal(old_m / 10).push(digit_char(old_m % 10)));
                assert(decimal(old_m) + old_s =~= decimal(m as nat) + s@);
            } else {
                assert(Seq::<char>::empty() + s@ =~= decimal(old_m) + old_s);
            }
        }
    }
    assert(s@ =~= decimal(secs as nat));
    proof {
        reveal_strlit("Z");
    }
    s.concat("Z")
}

/// The time now as an export timestamp.
pub fn chrono_now_iso() -> (r: String)
    ensures
        exists|secs: u64| r@ == decimal(secs as nat) + seq!['Z'],
{
    format_epoch_seconds(unix_time_secs())
}

} // verus!
