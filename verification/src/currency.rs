//! The request for exchange rates.
use vstd::prelude::*;
use crate::utils::text::{from_chars, to_chars, views};

verus! {

/// The currencies that rates can be asked for.
pub const SUPPORTED_CURRENCIES: [&'static str; 33] = [
    "EUR",
    "USD",
    "JPY",
    "BGN",
    "CZK",
    "DKK",
    "GBP",
    "HUF",
    "PLN",
    "RON",
    "SEK",
    "CHF",
    "ISK",
    "NOK",
    "HRK",
    "RUB",
    "TRY",
    "AUD",
    "BRL",
    "CAD",
    "CNY",
    "HKD",
    "IDR",
    "ILS",
    "INR",
    "KRW",
    "MXN",
    "MYR",
    "NZD",
    "PHP",
    "SGD",
    "THB",
    "ZAR",
];

/// The given texts with `sep` between each two of them.
pub open spec fn join_with(parts: Seq<Seq<char>>, sep: Seq<char>) -> Seq<char>
    decreases parts.len(),
{
    if parts.len() == 0 {
        Seq::empty()
    } else if parts.len() == 1 {
        parts[0]
    } else {
        join_with(parts.drop_last(), sep) + sep + parts.last()
    }
}

/// The address to ask for the newest rates of the currencies `output`
/// against `base_curr`, with the key `api_key`: the currencies stand in it
/// with an encoded comma, `%2C`, between each two.
pub open spec fn rates_address(api_key: Seq<char>, base_curr: Seq<char>, output: Seq<Seq<char>>) -> Seq<
    char,
> {
    "https://api.freecurrencyapi.com/v1/latest?apikey="@ + api_key + "&currencies="@ + join_with(
        output,
        "%2C"@,
    ) + "&base_currency="@ + base_curr
}

/// Appends the characters of `text` to `out`.
fn push_text(out: &mut Vec<char>, text: &str)
    ensures
        final(out)@ == old(out)@ + text@,
{
    let mut chars = to_chars(text);
    out.append(&mut chars);
}

/// The address to ask for the newest rates of the currencies `output`
/// against `base_curr`, with the key `api_key`.
pub fn exchange_rates_address(api_key: &str, base_curr: &str, output: &Vec<String>) -> (r: String)
    ensures
        r@ == rates_address(api_key@, base_curr@, crate::utils::text::string_views(output@)),
{
    let ghost parts = crate::utils::text::string_views(output@);
    let mut out: Vec<char> = Vec::new();
    push_text(&mut out, "https://api.freecurrencyapi.com/v1/latest?apikey=");
    push_text(&mut out, api_key);
    push_text(&mut out, "&currencies=");
    let ghost head = out@;
    let mut i: usize = 0;
    assert(parts.take(0) =~= Seq::<Seq<char>>::empty());
    while i < output.len()
        invariant
            i <= output.len(),
            parts == crate::utils::text::string_views(output@),
            out@ == head + join_with(parts.take(i as int), "%2C"@),
        decreases output.len() - i,
    {
        proof {
            assert(parts.take(i + 1).drop_last() =~= parts.take(i as int));
            assert(parts.take(i + 1).last() == output@[i as int]@);
        }
        if i > 0 {
            push_text(&mut out, "%2C");
        }
        push_text(&mut out, output[i].as_str());
        i += 1;
    }
    assert(parts.take(output.len() as int) =~= parts);
    push_text(&mut out, "&base_currency=");
    push_text(&mut out, base_curr);
    assert(out@ =~= rates_address(api_key@, base_curr@, parts));
    from_chars(out.as_slice())
}

} // verus!
