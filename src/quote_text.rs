//! The pipe-separated text form of a quote: `TICKER|PRICE|VOLUME|TIMESTAMP_MS`.

use vstd::prelude::*;
use crate::text::{char_views, chars_of, decimal, split_chars, split_on, string_of};
use crate::wire::{QuoteModel, StockQuote};

verus! {

/// The decimal form of a signed integer.
pub open spec fn signed_decimal(i: int) -> Seq<char> {
    if i < 0 {
        seq!['-'] + decimal((-i) as nat)
    } else {
        decimal(i as nat)
    }
}

/// The text form of a quote.
pub open spec fn quote_text(q: QuoteModel) -> Seq<char> {
    q.ticker + seq!['|'] + signed_decimal(q.price as int) + seq!['|'] + decimal(q.volume as nat)
        + seq!['|'] + decimal(q.timestamp_ms as nat)
}

/// The value of a decimal digit character.
pub open spec fn digit_value(c: char) -> Option<nat> {
    if '0' <= c && c <= '9' {
        Some((c as u32 - '0' as u32) as nat)
    } else {
        None
    }
}

/// The value of a non-empty run of decimal digits.
pub open spec fn digits_value(s: Seq<char>) -> Option<nat>
    decreases s.len(),
{
    if s.len() == 0 {
        None
    } else {
        match digit_value(s.last()) {
            None => None,
            Some(d) => if s.len() == 1 {
                Some(d)
            } else {
                match digits_value(s.drop_last()) {
                    None => None,
                    Some(v) => Some(v * 10 + d),
                }
            },
        }
    }
}

/// An unsigned integer text: an optional `+`, then digits.
pub open spec fn unsigned_value(s: Seq<char>) -> Option<nat> {
    if s.len() > 0 && s[0] == '+' {
        digits_value(s.skip(1))
    } else {
        digits_value(s)
    }
}

/// A signed integer text: an optional `+` or `-`, then digits.
pub open spec fn signed_value(s: Seq<char>) -> Option<int> {
    if s.len() > 0 && s[0] == '-' {
        match digits_value(s.skip(1)) {
            Some(v) => Some(-v),
            None => None,
        }
    } else {
        match unsigned_value(s) {
            Some(v) => Some(v as int),
            None => None,
        }
    }
}

/// The quote that a text form denotes: the first four `|`-separated fields
/// (later ones are ignored), each number in the range of its field.
pub open spec fn quote_of_text(s: Seq<char>) -> Option<QuoteModel> {
    let f = split_on(s, '|');
    if f.len() < 4 {
        None
    } else {
        match (signed_value(f[1]), unsigned_value(f[2]), unsigned_value(f[3])) {
            (Some(p), Some(v), Some(t)) => if i64::MIN <= p <= i64::MAX && v <= u32::MAX && t
                <= u128::MAX {
                Some(
                    QuoteModel {
                        ticker: f[0],
                        price: p as i64,
                        volume: v as u32,
                        timestamp_ms: t as u128,
                    },
                )
            } else {
                None
            },
            _ => None,
        }
    }
}

fn push_digits(out: &mut Vec<char>, n: u128)
    ensures
        final(out)@ == old(out)@ + decimal(n as nat),
    decreases n,
{
    if n >= 10 {
        push_digits(out, n / 10);
    }
    let d = n % 10;
    let c = if d == 0 { '0' } else if d == 1 { '1' } else if d == 2 { '2' } else if d == 3 { '3' }
    else if d == 4 { '4' } else if d == 5 { '5' } else if d == 6 { '6' } else if d == 7 { '7' }
    else if d == 8 { '8' } else { '9' };
    out.push(c);
    assert(out@ =~= old(out)@ + decimal(n as nat));
}

/// The value of the digits `s[lo..hi]`, if they are all digits, not empty,
/// and the value is at most `bound`.
fn digits_in(s: &Vec<char>, lo: usize, hi: usize, bound: u128) -> (r: Option<u128>)
    requires
        lo <= hi <= s.len(),
    ensures
        r matches Some(v) ==> digits_value(s@.subrange(lo as int, hi as int)) == Some(v as nat)
            && v <= bound,
        r is None ==> match digits_value(s@.subrange(lo as int, hi as int)) {
            None => true,
            Some(v) => v > bound,
        },
{
    if lo == hi {
        return None;
    }
    let mut v: u128 = 0;
    let mut i: usize = lo;
    while i < hi
        invariant
            lo <= i <= hi <= s.len(),
            v <= bound,
            i == lo ==> v == 0,
            i > lo ==> digits_value(s@.subrange(lo as int, i as int)) == Some(v as nat),
        decreases hi - i,
    {
        let c = s[i];
        let ghost sub = s@.subrange(lo as int, i + 1);
        assert(sub.drop_last() =~= s@.subrange(lo as int, i as int));
        assert(sub.last() == c);
        if !('0' <= c && c <= '9') {
            proof {
                lemma_digits_none_extends(s@, lo as int, i as int, hi as int);
            }
            return None;
        }
        let d = (c as u32 - '0' as u32) as u128;
        if d > bound || v > (bound - d) / 10 {
            proof {
                if d <= bound {
                    assert(v * 10 + d > bound) by (nonlinear_arith)
                        requires v > (bound - d) / 10, d <= 9, d <= bound;
                }
                lemma_digits_grow(s@, lo as int, i + 1, hi as int);
            }
            return None;
        }
        assert(v * 10 + d <= bound) by (nonlinear_arith)
            requires v <= (bound - d) / 10, d <= 9, d <= bound;
        v = v * 10 + d;
        i += 1;
    }
    Some(v)
}

proof fn lemma_digits_none_extends(s: Seq<char>, lo: int, i: int, hi: int)
    requires
        0 <= lo <= i < hi <= s.len(),
        digit_value(s[i]) is None,
    ensures
        digits_value(s.subrange(lo, hi)) is None,
    decreases hi - i,
{
    let t = s.subrange(lo, hi);
    if i == hi - 1 {
        assert(t.last() == s[i]);
    } else {
        lemma_digits_none_extends(s, lo, i, hi - 1);
        assert(t.drop_last() =~= s.subrange(lo, hi - 1));
    }
}

proof fn lemma_digits_grow(s: Seq<char>, lo: int, i: int, hi: int)
    requires
        0 <= lo < i <= hi <= s.len(),
    ensures
        digits_value(s.subrange(lo, i)) matches Some(a) ==> (digits_value(s.subrange(lo, hi)) matches Some(b) ==> a <= b),
    decreases hi - i,
{
    if i < hi {
        lemma_digits_grow(s, lo, i, hi - 1);
        let t = s.subrange(lo, hi);
        assert(t.drop_last() =~= s.subrange(lo, hi - 1));
    }
}

impl StockQuote {
    /// The text form `TICKER|PRICE|VOLUME|TIMESTAMP_MS`.
    pub fn to_wire(&self) -> (r: String)
        ensures
            r@ == quote_text(self@),
    {
        let mut out = chars_of(self.ticker.as_str());
        out.push('|');
        let p = self.price;
        if p < 0 {
            out.push('-');
            let m: u128 = if p == i64::MIN {
                9223372036854775808u128
            } else {
                (-p) as u128
            };
            push_digits(&mut out, m);
        } else {
            push_digits(&mut out, p as u128);
        }
        out.push('|');
        push_digits(&mut out, self.volume as u128);
        out.push('|');
        push_digits(&mut out, self.timestamp_ms);
        assert(out@ =~= quote_text(self@));
        string_of(&out)
    }

    /// Reads the text form; none unless the first four `|`-separated fields
    /// are a ticker and three integers in range.
    pub fn from_wire(s: &str) -> (r: Option<StockQuote>)
        ensures
            r matches Some(q) ==> quote_of_text(s@) == Some(q@),
            r is None ==> quote_of_text(s@) is None,
    {
        let chars = chars_of(s);
        let f = split_chars(&chars, '|');
        let ghost fv = split_on(s@, '|');
        assert(char_views(f@) == fv);
        if f.len() < 4 {
            return None;
        }
        assert(f@[1]@ == fv[1] && f@[2]@ == fv[2] && f@[3]@ == fv[3] && f@[0]@ == fv[0]);
        let price = match signed_field(&f[1]) {
            Some(p) => p,
            None => return None,
        };
        let volume = match unsigned_field(&f[2], 4294967295u128) {
            Some(v) => v as u32,
            None => return None,
        };
        let ts = match unsigned_field(&f[3], u128::MAX) {
            Some(t) => t,
            None => return None,
        };
        Some(StockQuote { ticker: string_of(&f[0]), price, volume, timestamp_ms: ts })
    }
}

/// An unsigned integer field of value at most `bound`.
fn unsigned_field(s: &Vec<char>, bound: u128) -> (r: Option<u128>)
    ensures
        r matches Some(v) ==> unsigned_value(s@) == Some(v as nat) && v <= bound,
        r is None ==> match unsigned_value(s@) {
            None => true,
            Some(v) => v > bound,
        },
{
    let lo: usize = if s.len() > 0 && s[0] == '+' { 1 } else { 0 };
    assert(s@.subrange(lo as int, s.len() as int) =~= if lo == 1 { s@.skip(1) } else { s@ });
    digits_in(s, lo, s.len(), bound)
}

/// A signed integer field in the range of `i64`.
fn signed_field(s: &Vec<char>) -> (r: Option<i64>)
    ensures
        r matches Some(v) ==> signed_value(s@) == Some(v as int),
        r is None ==> match signed_value(s@) {
            None => true,
            Some(v) => v < i64::MIN || v > i64::MAX,
        },
{
    if s.len() > 0 && s[0] == '-' {
        assert(s@.subrange(1, s.len() as int) =~= s@.skip(1));
        match digits_in(s, 1, s.len(), 9223372036854775808u128) {
            Some(m) => {
                if m == 9223372036854775808u128 {
                    Some(i64::MIN)
                } else {
                    Some(-(m as i64))
                }
            },
            None => None,
        }
    } else {
        match unsigned_field(s, 9223372036854775807u128) {
            Some(m) => Some(m as i64),
            None => None,
        }
    }
}

/// A price in hundredths shown as `[-]MAJOR.MINOR`, with two fractional
/// digits.
pub open spec fn price_text(price: int) -> Seq<char> {
    let m = if price < 0 {
        -price
    } else {
        price
    };
    let sign = if price < 0 {
        seq!['-']
    } else {
        Seq::<char>::empty()
    };
    sign + decimal((m / 100) as nat) + seq!['.'] + decimal(((m % 100) / 10) as nat) + decimal(
        (m % 10) as nat,
    )
}

/// Shows a price in hundredths, such as `12345.00` for `1234500`.
pub fn format_price(price: i64) -> (r: String)
    ensures
        r@ == price_text(price as int),
{
    let m: u128 = if price < 0 {
        if price == i64::MIN {
            9223372036854775808u128
        } else {
            (-price) as u128
        }
    } else {
        price as u128
    };
    let mut out: Vec<char> = Vec::new();
    if price < 0 {
        out.push('-');
    }
    push_digits(&mut out, m / 100);
    out.push('.');
    push_digits(&mut out, (m % 100) / 10);
    push_digits(&mut out, m % 10);
    assert(out@ =~= price_text(price as int));
    string_of(&out)
}

} // verus!
