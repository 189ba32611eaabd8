use vstd::prelude::*;

use crate::text::chars_of;

verus! {

/// Whether `c` has the Unicode `Uppercase` property.
pub uninterp spec fn char_is_uppercase(c: char) -> bool;

/// Whether `c` is an uppercase letter.
///
/// Trusted: calls `char::is_uppercase`, which by its documentation tells
/// whether `c` has the Unicode `Uppercase` property. Of that property the
/// contract states only the ASCII part: exactly `'A'` to `'Z'`.
#[verifier::external_body]
fn is_uppercase(c: char) -> (r: bool)
    ensures
        r == char_is_uppercase(c),
        (c as u32) < 128 ==> (r <==> 'A' <= c <= 'Z'),
{
    c.is_uppercase()
}

/// Whether a name is written in type case: its first character is an
/// uppercase letter.
pub fn is_type_case(name: &str) -> (r: bool)
    ensures
        r == (name@.len() > 0 && char_is_uppercase(name@[0])),
{
    if name.unicode_len() == 0 {
        false
    } else {
        is_uppercase(name.get_char(0))
    }
}

/// The short name of an enum variant: `symbol` without the leading
/// `enum_name.`, or `symbol` itself where it does not start so.
pub open spec fn short_variant_name(enum_name: Seq<char>, symbol: Seq<char>) -> Seq<char> {
    let prefix = enum_name.push('.');
    if prefix.len() <= symbol.len() && symbol.take(prefix.len() as int) == prefix {
        symbol.skip(prefix.len() as int)
    } else {
        symbol
    }
}

/// The name of the variant `symbol_name` of the enum `enum_name`, with the
/// enum's qualification taken off.
pub fn variant_short_name(enum_name: &str, symbol_name: &str) -> (r: String)
    ensures
        r@ == short_variant_name(enum_name@, symbol_name@),
{
    let e = chars_of(enum_name);
    let s = chars_of(symbol_name);
    let ghost prefix = enum_name@.push('.');
    let n = e.len();
    assert(prefix.len() == n + 1 && prefix[n as int] == '.');
    assert(forall|k: int| 0 <= k < n ==> prefix[k] == e@[k]);
    if n >= s.len() || s[n] != '.' {
        assert(!(prefix.len() <= s@.len() && s@.take(prefix.len() as int) == prefix)) by {
            if prefix.len() <= s@.len() && s@.take(prefix.len() as int) == prefix {
                assert(s@.take(prefix.len() as int)[n as int] == prefix[n as int]);
            }
        }
        return String::from_str(symbol_name);
    }
    let mut i: usize = 0;
    while i < n
        invariant
            e@ == enum_name@,
            s@ == symbol_name@,
            n == e@.len(),
            n < s@.len(),
            i <= n,
            forall|k: int| 0 <= k < i ==> s@[k] == e@[k],
            prefix == enum_name@.push('.'),
            s@[n as int] == '.',
        decreases n - i,
    {
        if e[i] != s[i] {
            assert(!(s@.take(prefix.len() as int) == prefix)) by {
                if s@.take(prefix.len() as int) == prefix {
                    assert(s@.take(prefix.len() as int)[i as int] == prefix[i as int]);
                }
            }
            return String::from_str(symbol_name);
        }
        i += 1;
    }
    assert(s@.take(prefix.len() as int) =~= prefix);
    let rest = symbol_name.substring_char(n + 1, s.len());
    assert(rest@ =~= symbol_name@.skip(prefix.len() as int));
    String::from_str(rest)
}

} // verus!
