//! Small verified tools on strings: equality, substring search and decimal
//! numerals.

use crate::order::lemma_encode_injective;
use vstd::prelude::*;
use vstd::string::StringExecFns;
use vstd::utf8::{
    decode_utf8, encode_utf8, is_char_boundary, length_of_first_scalar, pop_first_scalar,
    valid_utf8,
};

verus! {

/// The character of the decimal digit `d`.
pub open spec fn digit(d: nat) -> char
    recommends
        d < 10,
{
    (48 + d) as char
}

/// The decimal numeral of `n`, without sign or leading zeros.
pub open spec fn decimal(n: nat) -> Seq<char>
    decreases n,
{
    if n < 10 {
        seq![digit(n)]
    } else {
        decimal(n / 10).push(digit(n % 10))
    }
}

/// `needle` stands in `hay` from position `i` on.
pub open spec fn occurs_at(hay: Seq<u8>, needle: Seq<u8>, i: int) -> bool {
    &&& 0 <= i
    &&& i + needle.len() <= hay.len()
    &&& forall|j: int| 0 <= j < needle.len() ==> hay[i + j] == needle[j]
}

/// The string `needle` occurs somewhere in the string `hay`, both taken in
/// their UTF-8 form.
pub open spec fn has_substring(hay: Seq<char>, needle: Seq<char>) -> bool {
    exists|i: int| occurs_at(encode_utf8(hay), encode_utf8(needle), i)
}

/// `needle` stands in `hay` from character `i` on.
pub open spec fn stands_at(hay: Seq<char>, needle: Seq<char>, i: int) -> bool {
    0 <= i && i + needle.len() <= hay.len() && hay.subrange(i, i + needle.len()) == needle
}

/// The UTF-8 form of two strings joined is their UTF-8 forms joined.
pub proof fn lemma_encode_joined(a: Seq<char>, b: Seq<char>)
    ensures
        encode_utf8(a + b) == encode_utf8(a) + encode_utf8(b),
    decreases a.len(),
{
    if a.len() == 0 {
        assert(a + b =~= b);
        assert(encode_utf8(a) + encode_utf8(b) =~= encode_utf8(b));
    } else {
        lemma_encode_joined(a.drop_first(), b);
        assert((a + b).drop_first() =~= a.drop_first() + b);
        assert((a + b)[0] == a[0]);
        let head = vstd::utf8::encode_scalar(a[0] as u32);
        assert(head + (encode_utf8(a.drop_first()) + encode_utf8(b)) =~= head + encode_utf8(
            a.drop_first(),
        ) + encode_utf8(b));
    }
}

/// Where well-formed UTF-8 begins with well-formed UTF-8, the shorter ends
/// between two characters of the longer.
proof fn lemma_prefix_ends_at_boundary(short: Seq<u8>, long: Seq<u8>)
    requires
        valid_utf8(short),
        valid_utf8(long),
        short.len() <= long.len(),
        long.subrange(0, short.len() as int) == short,
    ensures
        is_char_boundary(long, short.len() as int),
    decreases short.len(),
{
    if short.len() > 0 {
        let step = length_of_first_scalar(short);
        assert forall|j: int| 0 <= j < short.len() implies long[j] == short[j] by {
            assert(long.subrange(0, short.len() as int)[j] == long[j]);
        }
        assert(length_of_first_scalar(long) == step);
        let rest_short = pop_first_scalar(short);
        let rest_long = pop_first_scalar(long);
        assert(rest_long.subrange(0, rest_short.len() as int) =~= rest_short);
        lemma_prefix_ends_at_boundary(rest_short, rest_long);
    }
}

/// A string occurs in another as a run of bytes of its UTF-8 form exactly
/// when it occurs in it as a run of characters.
pub proof fn lemma_substring_of_characters(hay: Seq<char>, needle: Seq<char>)
    ensures
        has_substring(hay, needle) <==> exists|i: int| stands_at(hay, needle, i),
{
    let h = encode_utf8(hay);
    let n = encode_utf8(needle);
    vstd::utf8::encode_utf8_valid_utf8(hay);
    vstd::utf8::encode_utf8_valid_utf8(needle);
    vstd::utf8::encode_utf8_decode_utf8(hay);
    vstd::utf8::encode_utf8_decode_utf8(needle);
    if has_substring(hay, needle) {
        let at = choose|i: int| occurs_at(h, n, i);
        if needle.len() == 0 {
            assert(hay.subrange(0, 0) =~= needle);
            assert(stands_at(hay, needle, 0));
        } else {
            vstd::utf8::encode_utf8_first_scalar(needle);
            assert(n.len() > 0);
            vstd::utf8::is_char_boundary_start_end_of_seq(n);
            vstd::utf8::is_char_boundary_iff_not_is_continuation_byte(n, 0);
            assert(h[at + 0] == n[0]);
            vstd::utf8::is_char_boundary_iff_not_is_continuation_byte(h, at);
            vstd::utf8::valid_utf8_split(h, at);
            vstd::utf8::decode_utf8_split(h, at);
            let before = h.subrange(0, at);
            let from = h.subrange(at, h.len() as int);
            assert(from.subrange(0, n.len() as int) =~= n) by {
                assert forall|j: int| 0 <= j < n.len() implies from.subrange(0, n.len() as int)[j]
                    == n[j] by {
                    assert(h[at + j] == n[j]);
                }
            }
            lemma_prefix_ends_at_boundary(n, from);
            vstd::utf8::decode_utf8_split(from, n.len() as int);
            let after = from.subrange(n.len() as int, from.len() as int);
            let start = decode_utf8(before).len() as int;
            assert(hay =~= decode_utf8(before) + (needle + decode_utf8(after)));
            assert(hay.subrange(start, start + needle.len()) =~= needle);
            assert(stands_at(hay, needle, start));
        }
    }
    if exists|i: int| stands_at(hay, needle, i) {
        let i = choose|i: int| stands_at(hay, needle, i);
        let before = hay.subrange(0, i);
        let after = hay.subrange(i + needle.len(), hay.len() as int);
        assert(hay =~= before + needle + after);
        lemma_encode_joined(before + needle, after);
        lemma_encode_joined(before, needle);
        let at = encode_utf8(before).len() as int;
        assert(occurs_at(h, n, at));
    }
}

/// Whether two strings are the same.
pub fn str_eq(a: &str, b: &str) -> (r: bool)
    ensures
        r == (a@ == b@),
{
    let x = a.as_bytes();
    let y = b.as_bytes();
    if x.len() != y.len() {
        return false;
    }
    let mut i: usize = 0;
    while i < x.len()
        invariant
            i <= x@.len(),
            x@.len() == y@.len(),
            x@ == encode_utf8(a@),
            y@ == encode_utf8(b@),
            forall|j: int| 0 <= j < i ==> x@[j] == y@[j],
        decreases x@.len() - i,
    {
        if x[i] != y[i] {
            return false;
        }
        i += 1;
    }
    proof {
        assert(x@ =~= y@);
        lemma_encode_injective(a@, b@);
    }
    true
}

/// Whether `needle` stands in `hay` from byte `at` on.
fn matches_at(hay: &[u8], needle: &[u8], at: usize) -> (r: bool)
    requires
        at + needle@.len() <= hay@.len(),
    ensures
        r == occurs_at(hay@, needle@, at as int),
{
    let end: usize = hay.len();
    let mut j: usize = 0;
    while j < needle.len()
        invariant
            j <= needle@.len(),
            at + needle@.len() <= hay@.len(),
            hay@.len() == end,
            forall|k: int| 0 <= k < j ==> hay@[at + k] == needle@[k],
        decreases needle@.len() - j,
    {
        if hay[at + j] != needle[j] {
            return false;
        }
        j += 1;
    }
    true
}

/// Whether `needle` occurs in `hay`.
pub fn contains(hay: &str, needle: &str) -> (r: bool)
    ensures
        r == has_substring(hay@, needle@),
{
    let h = hay.as_bytes();
    let n = needle.as_bytes();
    if n.len() > h.len() {
        return false;
    }
    let last: usize = h.len() - n.len();
    let mut i: usize = 0;
    while i < last
        invariant
            i <= last,
            last == h@.len() - n@.len(),
            h@ == encode_utf8(hay@),
            n@ == encode_utf8(needle@),
            forall|k: int| 0 <= k < i ==> !occurs_at(h@, n@, k),
        decreases last - i,
    {
        if matches_at(h, n, i) {
            return true;
        }
        i += 1;
    }
    matches_at(h, n, last)
}

/// The one-character string of the decimal digit `d`.
fn digit_str(d: u64) -> (s: &'static str)
    requires
        d < 10,
    ensures
        s@ == seq![digit(d as nat)],
{
    proof {
        reveal_strlit("0");
        reveal_strlit("1");
        reveal_strlit("2");
        reveal_strlit("3");
        reveal_strlit("4");
        reveal_strlit("5");
        reveal_strlit("6");
        reveal_strlit("7");
        reveal_strlit("8");
        reveal_strlit("9");
    }
    let s = if d == 0 {
        "0"
    } else if d == 1 {
        "1"
    } else if d == 2 {
        "2"
    } else if d == 3 {
        "3"
    } else if d == 4 {
        "4"
    } else if d == 5 {
        "5"
    } else if d == 6 {
        "6"
    } else if d == 7 {
        "7"
    } else if d == 8 {
        "8"
    } else {
        "9"
    };
    assert(s@ =~= seq![digit(d as nat)]);
    s
}

/// Appends the decimal numeral of `n`.
pub fn push_decimal(out: &mut String, n: u64)
    ensures
        final(out)@ == old(out)@ + decimal(n as nat),
    decreases n,
{
    if n >= 10 {
        push_decimal(out, n / 10);
    }
    out.append(digit_str(n % 10));
    assert(out@ =~= old(out)@ + decimal(n as nat));
}

} // verus!
