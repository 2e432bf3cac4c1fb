//! Reading decimal integers the way `str::parse` reads them for `i32` and `u16`.
use vstd::prelude::*;

verus! {

/// Whether `c` is one of the ASCII digits `0` to `9`.
pub open spec fn es_digito(c: char) -> bool {
    '0' <= c && c <= '9'
}

/// The number that the digits `d` write in base ten.
pub open spec fn valor_digitos(d: Seq<char>) -> int
    decreases d.len(),
{
    if d.len() == 0 {
        0
    } else {
        valor_digitos(d.drop_last()) * 10 + (d.last() as int - '0' as int)
    }
}

/// Whether `d` is a non-empty run of ASCII digits.
pub open spec fn son_digitos(d: Seq<char>) -> bool {
    d.len() > 0 && forall|i: int| 0 <= i < d.len() ==> es_digito(#[trigger] d[i])
}

/// The sign and the digits of `s`: a leading `+` is dropped, and so is a leading `-`
/// when the type is signed (the first component then says the number is negative).
pub open spec fn signo_y_digitos(s: Seq<char>, con_signo: bool) -> (bool, Seq<char>) {
    if s.len() > 0 && s[0] == '+' {
        (false, s.drop_first())
    } else if con_signo && s.len() > 0 && s[0] == '-' {
        (true, s.drop_first())
    } else {
        (false, s)
    }
}

/// The integer that `s` writes in decimal, read as `FromStr` reads integers: an optional
/// sign (`-` only for signed types) followed by at least one ASCII digit, and nothing else.
pub open spec fn entero_decimal(s: Seq<char>, con_signo: bool) -> Option<int> {
    let (negativo, d) = signo_y_digitos(s, con_signo);
    if son_digitos(d) {
        Some(
            if negativo {
                -valor_digitos(d)
            } else {
                valor_digitos(d)
            },
        )
    } else {
        None
    }
}

/// The value of `s` as an `i32`, when it is one.
pub open spec fn como_i32(s: Seq<char>) -> Option<i32> {
    match entero_decimal(s, true) {
        Some(v) => if i32::MIN <= v <= i32::MAX {
            Some(v as i32)
        } else {
            None
        },
        None => None,
    }
}

/// The value of `s` as a `u16`, when it is one.
pub open spec fn como_u16(s: Seq<char>) -> Option<u16> {
    match entero_decimal(s, false) {
        Some(v) => if 0 <= v <= u16::MAX {
            Some(v as u16)
        } else {
            None
        },
        None => None,
    }
}

/// The value of the digits `s[desde..]` capped at `limite`, or `None` when they are
/// empty or hold a character that is not a digit.
fn valor_acotado(s: &Vec<char>, desde: usize, limite: u64) -> (r: Option<u64>)
    requires
        desde <= s.len(),
        limite <= 0x1_0000_0000,
    ensures
        match r {
            Some(v) => son_digitos(s@.skip(desde as int)) && v == (if valor_digitos(
                s@.skip(desde as int),
            ) < limite {
                valor_digitos(s@.skip(desde as int))
            } else {
                limite as int
            }),
            None => !son_digitos(s@.skip(desde as int)),
        },
{
    let ghost d = s@.skip(desde as int);
    if desde == s.len() {
        return None;
    }
    let mut acc: u64 = 0;
    let mut i: usize = desde;
    while i < s.len()
        invariant
            desde <= i <= s.len(),
            limite <= 0x1_0000_0000,
            d == s@.skip(desde as int),
            forall|k: int| 0 <= k < i - desde ==> es_digito(#[trigger] d[k]),
            acc == (if valor_digitos(d.take(i - desde)) < limite {
                valor_digitos(d.take(i - desde))
            } else {
                limite as int
            }),
        decreases s.len() - i,
    {
        let c = s[i];
        if !('0' <= c && c <= '9') {
            assert(d[i - desde] == c);
            return None;
        }
        let ghost previo = d.take(i - desde);
        assert(d.take(i + 1 - desde).drop_last() =~= previo);
        assert(d.take(i + 1 - desde).last() == c);
        let digito: u64 = (c as u64) - ('0' as u64);
        let siguiente = acc * 10 + digito;
        acc = if siguiente < limite {
            siguiente
        } else {
            limite
        };
        i = i + 1;
    }
    assert(d.take(s.len() - desde) =~= d);
    Some(acc)
}

/// Reads `s` as `str::parse::<i32>` does: `Some` of the value exactly when `s` is an
/// optional sign followed by decimal digits whose value fits in an `i32`.
pub fn parsear_i32(s: &str) -> (r: Option<i32>)
    ensures
        r == como_i32(s@),
{
    let v = crate::texto::caracteres(s);
    let negativo = v.len() > 0 && v[0] == '-';
    let desde: usize = if v.len() > 0 && (v[0] == '+' || v[0] == '-') {
        1
    } else {
        0
    };
    assert(signo_y_digitos(s@, true) == (negativo, s@.skip(desde as int)));
    match valor_acotado(&v, desde, 0x1_0000_0000) {
        None => None,
        Some(x) => {
            if negativo {
                if x <= 0x8000_0000 {
                    Some((0 - (x as i64)) as i32)
                } else {
                    None
                }
            } else {
                if x <= 0x7fff_ffff {
                    Some(x as i32)
                } else {
                    None
                }
            }
        },
    }
}

/// Reads `s` as `str::parse::<u16>` does: `Some` of the value exactly when `s` is an
/// optional `+` followed by decimal digits whose value fits in a `u16`.
pub fn parsear_u16(s: &str) -> (r: Option<u16>)
    ensures
        r == como_u16(s@),
{
    let v = crate::texto::caracteres(s);
    let desde: usize = if v.len() > 0 && v[0] == '+' {
        1
    } else {
        0
    };
    assert(signo_y_digitos(s@, false) == (false, s@.skip(desde as int)));
    match valor_acotado(&v, desde, 0x1_0000) {
        None => None,
        Some(x) => {
            if x <= 0xffff {
                Some(x as u16)
            } else {
                None
            }
        },
    }
}

} // verus!
