use vstd::prelude::*;
use vstd::string::StringSliceAdditionalSpecFns;
use vstd::arithmetic::power::pow;

verus! {

/// The byte is an ASCII decimal digit.
pub open spec fn is_digit(b: u8) -> bool {
    48 <= b <= 57
}

/// Every byte of `s` is an ASCII decimal digit.
pub open spec fn all_digits(s: Seq<u8>) -> bool {
    forall|i: int| 0 <= i < s.len() ==> is_digit(#[trigger] s[i])
}

/// The number that the digits of `s` spell in base ten, most significant first.
pub open spec fn decimal_value(s: Seq<u8>) -> nat
    decreases s.len(),
{
    if s.len() == 0 {
        0
    } else {
        decimal_value(s.drop_last()) * 10 + (s.last() - 48) as nat
    }
}

proof fn lemma_decimal_prefix_monotone(s: Seq<u8>, k: int, j: int)
    requires
        all_digits(s),
        0 <= k <= j <= s.len(),
    ensures
        decimal_value(s.take(k)) <= decimal_value(s.take(j)),
    decreases j - k,
{
    if k < j {
        lemma_decimal_prefix_monotone(s, k, j - 1);
        assert(s.take(j).drop_last() =~= s.take(j - 1));
        assert(is_digit(s[j - 1]));
    }
}

/// Reads the digits of `bytes` as a base-ten number.
pub fn parse_decimal(bytes: &[u8]) -> (res: u64)
    requires
        all_digits(bytes@),
        decimal_value(bytes@) <= u64::MAX,
    ensures
        res == decimal_value(bytes@),
{
    let mut res: u64 = 0;
    let n = bytes.len();
    let mut k: usize = 0;
    assert(bytes@.take(0) =~= Seq::<u8>::empty());
    while k < n
        invariant
            n == bytes@.len(),
            k <= n,
            all_digits(bytes@),
            decimal_value(bytes@) <= u64::MAX,
            res == decimal_value(bytes@.take(k as int)),
        decreases n - k,
    {
        let byte = bytes[k];
        proof {
            assert(is_digit(bytes@[k as int]));
            assert(bytes@.take(k + 1).drop_last() =~= bytes@.take(k as int));
            assert(bytes@.take(k + 1).last() == byte);
            lemma_decimal_prefix_monotone(bytes@, k + 1, n as int);
            assert(bytes@.take(n as int) =~= bytes@);
        }
        res = res * 10;
        res = res + (byte - 48u8) as u64;
        k = k + 1;
    }
    assert(bytes@.take(n as int) =~= bytes@);
    res
}

/// The value a build setting spells out: the default when the setting is
/// absent, else the number its decimal digits spell (so an empty setting is 0).
pub open spec fn setting_value(setting: Option<Seq<u8>>, default: nat) -> nat {
    match setting {
        None => default,
        Some(s) => decimal_value(s),
    }
}

/// A build setting is well formed when it is absent or made of decimal digits
/// only, and its value does not exceed `max`.
pub open spec fn setting_ok(setting: Option<Seq<u8>>, max: nat) -> bool {
    match setting {
        None => true,
        Some(s) => all_digits(s) && decimal_value(s) <= max,
    }
}

/// The bytes of an optional string setting.
pub open spec fn setting_bytes(setting: Option<&str>) -> Option<Seq<u8>> {
    match setting {
        None => None,
        Some(s) => Some(s.spec_bytes()),
    }
}

/// Reading digits left to right: the digits of `s` followed by those of `t`
/// spell the number of `s` shifted left by as many decimal places as `t` has
/// digits, plus the number of `t`.
pub proof fn lemma_decimal_value_concat(s: Seq<u8>, t: Seq<u8>)
    ensures
        decimal_value(s + t) == decimal_value(s) * pow(10, t.len()) + decimal_value(t),
    decreases t.len(),
{
    if t.len() == 0 {
        assert(s + t =~= s);
        vstd::arithmetic::power::lemma_pow0(10);
    } else {
        let t1 = t.drop_last();
        lemma_decimal_value_concat(s, t1);
        assert((s + t).drop_last() =~= s + t1);
        assert((s + t).last() == t.last());
        let a = decimal_value(s) as int;
        let p = pow(10, t1.len());
        let b = decimal_value(t1) as int;
        let c = decimal_value(t) - b * 10;
        assert(decimal_value(s + t) == decimal_value(s + t1) * 10 + c);
        vstd::arithmetic::power::lemma_pow_adds(10, t1.len(), 1);
        vstd::arithmetic::power::lemma_pow1(10);
        assert(t1.len() + 1 == t.len());
        assert(pow(10, t.len()) == p * 10);
        assert((a * p + b) * 10 + c == a * (p * 10) + (b * 10 + c)) by (nonlinear_arith);
    }
}

/// A single digit spells its own value.
pub proof fn lemma_decimal_value_digit(d: u8)
    requires
        48 <= d <= 57,
    ensures
        decimal_value(seq![d]) == d - 48,
{
    assert(seq![d].drop_last() =~= Seq::<u8>::empty());
    assert(seq![d].last() == d);
    assert(decimal_value(Seq::<u8>::empty()) == 0);
    assert(decimal_value(seq![d]) == decimal_value(seq![d].drop_last()) * 10 + (d - 48) as nat);
}

/// A present setting is read as the number its digits spell, whatever the
/// default and however many digits it has; the default stands only for an
/// absent setting.
pub proof fn lemma_setting_value_reads_digits(s: Seq<u8>, default: nat)
    ensures
        setting_value(Some(s), default) == decimal_value(s),
        setting_value(None, default) == default,
{
}

/// An absent setting is always well formed; a present one exactly when each
/// of its bytes is an ASCII digit and the number they spell is at most `max`.
pub proof fn lemma_setting_ok_exactly(s: Seq<u8>, max: nat)
    ensures
        setting_ok(None, max),
        setting_ok(Some(s), max) <==> ((forall|i: int| 0 <= i < s.len() ==> 48 <= #[trigger] s[i] <= 57)
            && decimal_value(s) <= max),
{
}

/// Whether a build setting is well formed (`setting_ok`): absent, or made of
/// decimal digits only and spelling a number no greater than `max`.
pub fn check_setting(setting: Option<&str>, max: u64) -> (ok: bool)
    ensures
        ok == setting_ok(setting_bytes(setting), max as nat),
        match setting {
            None => ok,
            Some(st) => ok <==> ((forall|i: int|
                0 <= i < st.spec_bytes().len() ==> 48 <= #[trigger] st.spec_bytes()[i] <= 57)
                && decimal_value(st.spec_bytes()) <= max),
        },
{
    let string = match setting {
        None => {
            return true;
        },
        Some(string) => string,
    };
    let bytes = string.as_bytes();
    let n = bytes.len();
    let mut res: u64 = 0;
    let mut k: usize = 0;
    assert(bytes@.take(0) =~= Seq::<u8>::empty());
    while k < n
        invariant
            n == bytes@.len(),
            setting_bytes(setting) == Some(bytes@),
            k <= n,
            all_digits(bytes@.take(k as int)),
            res == decimal_value(bytes@.take(k as int)),
            res <= max,
        decreases n - k,
    {
        let byte = bytes[k];
        if byte < 48u8 || byte > 57u8 {
            assert(!is_digit(bytes@[k as int]));
            return false;
        }
        let next: u128 = (res as u128) * 10 + ((byte - 48u8) as u128);
        proof {
            assert(bytes@.take(k + 1).drop_last() =~= bytes@.take(k as int));
            assert(bytes@.take(k + 1).last() == byte);
            assert forall|i: int| 0 <= i < k + 1 implies is_digit(#[trigger] bytes@.take(k + 1)[i]) by {
                if i < k {
                    assert(bytes@.take(k + 1)[i] == bytes@.take(k as int)[i]);
                }
            }
        }
        if next > max as u128 {
            proof {
                if all_digits(bytes@) {
                    lemma_decimal_prefix_monotone(bytes@, k + 1, n as int);
                    assert(bytes@.take(n as int) =~= bytes@);
                }
            }
            return false;
        }
        res = next as u64;
        k = k + 1;
    }
    assert(bytes@.take(n as int) =~= bytes@);
    true
}

} // verus!
