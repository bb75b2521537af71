//! Addressing: the exact request lines sent to local KMEs and to peer
//! relays.

use vstd::prelude::*;
use vstd::string::StringExecFns;

verus! {

/// The character for one decimal digit.
pub open spec fn digit_char(d: nat) -> char {
    if d == 0 {
        '0'
    } else if d == 1 {
        '1'
    } else if d == 2 {
        '2'
    } else if d == 3 {
        '3'
    } else if d == 4 {
        '4'
    } else if d == 5 {
        '5'
    } else if d == 6 {
        '6'
    } else if d == 7 {
        '7'
    } else if d == 8 {
        '8'
    } else {
        '9'
    }
}

/// The decimal numeral of `n`, most significant digit first.
pub open spec fn dec_rep(n: nat) -> Seq<char>
    decreases n,
{
    if n < 10 {
        seq![digit_char(n)]
    } else {
        dec_rep(n / 10).push(digit_char(n % 10))
    }
}

/// One decimal digit as text.
fn fmt_digit(d: usize) -> (r: String)
    requires
        d < 10,
    ensures
        r@ == seq![digit_char(d as nat)],
{
    proof {
        reveal_strlit("0");
        reveal_strlit("1");
        reveal_strlit("2");
        reveal_strlit("3");
        reveal_strlit("4");
        reveal_strlit("5");
        reveal_strlit("6");
        reveal_strlit("7");
        reveal_strlit("8");
        reveal_strlit("9");
    }
    let s = if d == 0 {
        String::from_str("0")
    } else if d == 1 {
        String::from_str("1")
    } else if d == 2 {
        String::from_str("2")
    } else if d == 3 {
        String::from_str("3")
    } else if d == 4 {
        String::from_str("4")
    } else if d == 5 {
        String::from_str("5")
    } else if d == 6 {
        String::from_str("6")
    } else if d == 7 {
        String::from_str("7")
    } else if d == 8 {
        String::from_str("8")
    } else {
        String::from_str("9")
    };
    proof {
        assert(s@ =~= seq![digit_char(d as nat)]);
    }
    s
}

/// `n` in decimal.
pub fn fmt_usize(n: usize) -> (r: String)
    ensures
        r@ == dec_rep(n as nat),
    decreases n,
{
    if n < 10 {
        fmt_digit(n)
    } else {
        let mut s = fmt_usize(n / 10);
        let d = fmt_digit(n % 10);
        s.append(d.as_str());
        proof {
            assert(s@ =~= dec_rep(n as nat));
        }
        s
    }
}

/// The KME request line that asks `kme` for `number` fresh keys of `size`
/// bits toward `target_sae`.
pub fn kme_enc_keys_uri(kme: &str, target_sae: &str, size: usize, number: usize) -> (r: String)
    ensures
        r@ == kme@ + "/api/v1/keys/"@ + target_sae@ + "/enc_keys?size="@ + dec_rep(size as nat)
            + "&number="@ + dec_rep(number as nat),
{
    let mut s = String::from_str(kme);
    s.append("/api/v1/keys/");
    s.append(target_sae);
    s.append("/enc_keys?size=");
    let sz = fmt_usize(size);
    s.append(sz.as_str());
    s.append("&number=");
    let nm = fmt_usize(number);
    s.append(nm.as_str());
    proof {
        assert(s@ =~= kme@ + "/api/v1/keys/"@ + target_sae@ + "/enc_keys?size="@ + dec_rep(
            size as nat,
        ) + "&number="@ + dec_rep(number as nat));
    }
    s
}

/// The KME request line that redeems the key stored under `key_id` toward
/// `target_sae`.
pub fn kme_dec_keys_uri(kme: &str, target_sae: &str, key_id: &str) -> (r: String)
    ensures
        r@ == kme@ + "/api/v1/keys/"@ + target_sae@ + "/dec_keys?key_ID="@ + key_id@,
{
    let mut s = String::from_str(kme);
    s.append("/api/v1/keys/");
    s.append(target_sae);
    s.append("/dec_keys?key_ID=");
    s.append(key_id);
    proof {
        assert(s@ =~= kme@ + "/api/v1/keys/"@ + target_sae@ + "/dec_keys?key_ID="@ + key_id@);
    }
    s
}

/// The peer-relay request line that an envelope is posted to.
pub fn info_keys_uri(proxy: &str) -> (r: String)
    ensures
        r@ == proxy@ + "/info_keys"@,
{
    let mut s = String::from_str(proxy);
    s.append("/info_keys");
    s
}

/// The pass-through request line: the original path and query, rebased onto
/// the local KME.
pub fn proxy_uri(kme: &str, path_query: &str) -> (r: String)
    ensures
        r@ == kme@ + path_query@,
{
    let mut s = String::from_str(kme);
    s.append(path_query);
    s
}

} // verus!
