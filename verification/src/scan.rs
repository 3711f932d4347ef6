//! Byte-level scanning primitives: finding, splitting, trimming and
//! tokenising raw tool output, and reading unsigned decimal numbers.
//!
//! Tool output is handled as bytes; everything the parsers look for is plain
//! ASCII, so no decoding step is needed.  Each executable function is proved
//! to agree with a spec-level counterpart defined over `Seq<u8>`.

use vstd::prelude::*;
use vstd::slice::slice_subrange;
use vstd::slice::slice_to_vec;

verus! {

/// `b` is an ASCII decimal digit.
pub open spec fn is_digit(b: u8) -> bool {
    48 <= b && b <= 57
}

/// `b` is an ASCII whitespace byte: tab, line feed, vertical tab, form feed,
/// carriage return or space.
pub open spec fn is_space(b: u8) -> bool {
    b == 9 || b == 10 || b == 11 || b == 12 || b == 13 || b == 32
}

/// Index of the first occurrence of `c` in `s`, if any.
pub open spec fn find_byte(s: Seq<u8>, c: u8) -> Option<int>
    decreases s.len(),
{
    if s.len() == 0 {
        None
    } else if s[0] == c {
        Some(0int)
    } else {
        match find_byte(s.skip(1), c) {
            Some(i) => Some(i + 1),
            None => None,
        }
    }
}

/// `find_byte` names the first occurrence: the byte there is `c` and no
/// earlier byte is.
pub proof fn lemma_find_byte(s: Seq<u8>, c: u8)
    ensures
        match find_byte(s, c) {
            Some(i) => 0 <= i < s.len() && s[i] == c && (forall|j: int|
                0 <= j < i ==> s[j] != c),
            None => forall|j: int| 0 <= j < s.len() ==> s[j] != c,
        },
    decreases s.len(),
{
    if s.len() > 0 && s[0] != c {
        lemma_find_byte(s.skip(1), c);
        match find_byte(s.skip(1), c) {
            Some(i) => {
                assert(s.skip(1)[i] == s[i + 1]);
                assert forall|j: int| 0 <= j < i + 1 implies s[j] != c by {
                    if j > 0 {
                        assert(s.skip(1)[j - 1] == s[j]);
                    }
                }
            },
            None => {
                assert forall|j: int| 0 <= j < s.len() implies s[j] != c by {
                    if j > 0 {
                        assert(s.skip(1)[j - 1] == s[j]);
                    }
                }
            },
        }
    }
}

/// A position that is a first occurrence of `c` is what `find_byte` returns,
/// and if no position holds `c`, `find_byte` returns `None`.
pub proof fn lemma_find_byte_is(s: Seq<u8>, c: u8, r: Option<int>)
    requires
        match r {
            Some(i) => 0 <= i < s.len() && s[i] == c && (forall|j: int|
                0 <= j < i ==> s[j] != c),
            None => forall|j: int| 0 <= j < s.len() ==> s[j] != c,
        },
    ensures
        find_byte(s, c) == r,
{
    lemma_find_byte(s, c);
    match (find_byte(s, c), r) {
        (Some(i1), Some(i2)) => {
            if i1 < i2 {
                assert(s[i1] != c);
            } else if i2 < i1 {
                assert(s[i2] != c);
            }
        },
        (Some(i1), None) => {
            assert(s[i1] != c);
        },
        (None, Some(i2)) => {
            assert(s[i2] != c);
        },
        (None, None) => {},
    }
}

/// Index of the first ASCII whitespace byte in `s`, if any.
pub open spec fn find_space(s: Seq<u8>) -> Option<int>
    decreases s.len(),
{
    if s.len() == 0 {
        None
    } else if is_space(s[0]) {
        Some(0int)
    } else {
        match find_space(s.skip(1)) {
            Some(i) => Some(i + 1),
            None => None,
        }
    }
}

/// `find_space` names the first whitespace byte: the byte there is
/// whitespace and no earlier byte is.
pub proof fn lemma_find_space(s: Seq<u8>)
    ensures
        match find_space(s) {
            Some(i) => 0 <= i < s.len() && is_space(s[i]) && (forall|j: int|
                0 <= j < i ==> !is_space(s[j])),
            None => forall|j: int| 0 <= j < s.len() ==> !is_space(s[j]),
        },
    decreases s.len(),
{
    if s.len() > 0 && !is_space(s[0]) {
        lemma_find_space(s.skip(1));
        match find_space(s.skip(1)) {
            Some(i) => {
                assert(s.skip(1)[i] == s[i + 1]);
                assert forall|j: int| 0 <= j < i + 1 implies !is_space(s[j]) by {
                    if j > 0 {
                        assert(s.skip(1)[j - 1] == s[j]);
                    }
                }
            },
            None => {
                assert forall|j: int| 0 <= j < s.len() implies !is_space(s[j]) by {
                    if j > 0 {
                        assert(s.skip(1)[j - 1] == s[j]);
                    }
                }
            },
        }
    }
}

/// A position that is a first whitespace byte is what `find_space` returns,
/// and if no position holds whitespace, `find_space` returns `None`.
pub proof fn lemma_find_space_is(s: Seq<u8>, r: Option<int>)
    requires
        match r {
            Some(i) => 0 <= i < s.len() && is_space(s[i]) && (forall|j: int|
                0 <= j < i ==> !is_space(s[j])),
            None => forall|j: int| 0 <= j < s.len() ==> !is_space(s[j]),
        },
    ensures
        find_space(s) == r,
{
    lemma_find_space(s);
    match (find_space(s), r) {
        (Some(i1), Some(i2)) => {
            if i1 < i2 {
                assert(!is_space(s[i1]));
            } else if i2 < i1 {
                assert(!is_space(s[i2]));
            }
        },
        (Some(i1), None) => {
            assert(!is_space(s[i1]));
        },
        (None, Some(i2)) => {
            assert(!is_space(s[i2]));
        },
        (None, None) => {},
    }
}

/// Whether `b` is ASCII whitespace.
pub fn byte_is_space(b: u8) -> (r: bool)
    ensures
        r == is_space(b),
{
    b == 9 || b == 10 || b == 11 || b == 12 || b == 13 || b == 32
}

/// First index at or after `from` whose byte is `c`.
pub fn find_byte_from(s: &[u8], c: u8, from: usize) -> (r: Option<usize>)
    requires
        from <= s@.len(),
    ensures
        match r {
            Some(i) => from <= i < s@.len() && s@[i as int] == c && (forall|j: int|
                from <= j < i ==> s@[j] != c),
            None => forall|j: int| from <= j < s@.len() ==> s@[j] != c,
        },
{
    let mut i: usize = from;
    while i < s.len()
        invariant
            from <= i <= s@.len(),
            forall|j: int| from <= j < i ==> s@[j] != c,
        decreases s@.len() - i,
    {
        if s[i] == c {
            return Some(i);
        }
        i = i + 1;
    }
    None
}

/// The fields of `s` between occurrences of `c`, in order.  A sequence
/// without `c` is a single field; every occurrence of `c` ends one field and
/// starts the next, so the result holds one more field than there are
/// occurrences of `c`.
pub open spec fn split_byte(s: Seq<u8>, c: u8) -> Seq<Seq<u8>>
    decreases s.len(),
    via split_byte_decreases
{
    match find_byte(s, c) {
        None => seq![s],
        Some(i) => seq![s.take(i)] + split_byte(s.skip(i + 1), c),
    }
}

#[via_fn]
proof fn split_byte_decreases(s: Seq<u8>, c: u8) {
    lemma_find_byte(s, c);
}

/// The view of `fields` as a sequence of byte sequences.
pub open spec fn fields_view(fields: Seq<Vec<u8>>) -> Seq<Seq<u8>> {
    fields.map_values(|f: Vec<u8>| f@)
}

/// Splits `s` at every occurrence of `c`.
pub fn split_bytes(s: &[u8], c: u8) -> (r: Vec<Vec<u8>>)
    ensures
        fields_view(r@) == split_byte(s@, c),
{
    let n = s.len();
    let mut fields: Vec<Vec<u8>> = Vec::new();
    let mut pos: usize = 0;
    proof {
        assert(s@.skip(0) =~= s@);
        assert(fields_view(fields@) + split_byte(s@, c) =~= split_byte(s@, c));
    }
    loop
        invariant
            n == s@.len(),
            pos <= n,
            split_byte(s@, c) == fields_view(fields@) + split_byte(s@.skip(pos as int), c),
        decreases s@.len() - pos,
    {
        let ghost rest = s@.skip(pos as int);
        match find_byte_from(s, c, pos) {
            None => {
                let field = slice_to_vec(slice_subrange(s, pos, s.len()));
                proof {
                    assert forall|j: int| 0 <= j < rest.len() implies rest[j] != c by {
                        assert(rest[j] == s@[j + pos]);
                    }
                    lemma_find_byte_is(rest, c, None);
                    assert(field@ =~= rest);
                    assert(fields_view(fields@.push(field)) =~= fields_view(fields@)
                        + seq![rest]);
                }
                fields.push(field);
                return fields;
            },
            Some(i) => {
                let field = slice_to_vec(slice_subrange(s, pos, i));
                proof {
                    assert forall|j: int| 0 <= j < i - pos implies rest[j] != c by {
                        assert(rest[j] == s@[j + pos]);
                    }
                    assert(rest[i - pos] == s@[i as int]);
                    lemma_find_byte_is(rest, c, Some(i - pos));
                    assert(field@ =~= rest.take(i - pos));
                    assert(rest.skip(i - pos + 1) =~= s@.skip(i + 1));
                    assert(fields_view(fields@.push(field)) =~= fields_view(fields@)
                        + seq![rest.take(i - pos)]);
                    assert(fields_view(fields@) + seq![rest.take(i - pos)] + split_byte(
                        s@.skip(i + 1),
                        c,
                    ) =~= fields_view(fields@) + (seq![rest.take(i - pos)] + split_byte(
                        s@.skip(i + 1),
                        c,
                    )));
                }
                fields.push(field);
                pos = i + 1;
            },
        }
    }
}

/// First index at or after `from` whose byte is ASCII whitespace.
pub fn find_space_from(s: &[u8], from: usize) -> (r: Option<usize>)
    requires
        from <= s@.len(),
    ensures
        match r {
            Some(i) => from <= i < s@.len() && is_space(s@[i as int]) && (forall|j: int|
                from <= j < i ==> !is_space(s@[j])),
            None => forall|j: int| from <= j < s@.len() ==> !is_space(s@[j]),
        },
{
    let mut i: usize = from;
    while i < s.len()
        invariant
            from <= i <= s@.len(),
            forall|j: int| from <= j < i ==> !is_space(s@[j]),
        decreases s@.len() - i,
    {
        if byte_is_space(s[i]) {
            return Some(i);
        }
        i = i + 1;
    }
    None
}

/// The whitespace-separated tokens of `s`, in order: the maximal runs of
/// bytes that hold no ASCII whitespace.
pub open spec fn tokens_of(s: Seq<u8>) -> Seq<Seq<u8>>
    decreases s.len(),
    via tokens_of_decreases
{
    if s.len() == 0 {
        Seq::empty()
    } else if is_space(s[0]) {
        tokens_of(s.skip(1))
    } else {
        match find_space(s) {
            None => seq![s],
            Some(i) => seq![s.take(i)] + tokens_of(s.skip(i)),
        }
    }
}

#[via_fn]
proof fn tokens_of_decreases(s: Seq<u8>) {
    lemma_find_space(s);
}

/// Splits `s` into its whitespace-separated tokens.
pub fn tokens(s: &[u8]) -> (r: Vec<Vec<u8>>)
    ensures
        fields_view(r@) == tokens_of(s@),
{
    let n = s.len();
    let mut toks: Vec<Vec<u8>> = Vec::new();
    let mut pos: usize = 0;
    proof {
        assert(s@.skip(0) =~= s@);
        assert(fields_view(toks@) + tokens_of(s@) =~= tokens_of(s@));
    }
    loop
        invariant
            n == s@.len(),
            pos <= n,
            tokens_of(s@) == fields_view(toks@) + tokens_of(s@.skip(pos as int)),
        decreases n - pos,
    {
        if pos == n {
            proof {
                assert(s@.skip(pos as int) =~= Seq::<u8>::empty());
                assert(fields_view(toks@) + tokens_of(Seq::<u8>::empty()) =~= fields_view(
                    toks@,
                ));
            }
            return toks;
        }
        let ghost rest = s@.skip(pos as int);
        proof {
            assert(forall|j: int| 0 <= j < rest.len() ==> rest[j] == s@[j + pos]);
        }
        if byte_is_space(s[pos]) {
            proof {
                assert(rest.skip(1) =~= s@.skip(pos + 1));
            }
            pos = pos + 1;
        } else {
            match find_space_from(s, pos) {
                None => {
                    let tok = slice_to_vec(slice_subrange(s, pos, n));
                    proof {
                        lemma_find_space_is(rest, None);
                        assert(tok@ =~= rest);
                        assert(fields_view(toks@.push(tok)) =~= fields_view(toks@)
                            + seq![rest]);
                    }
                    toks.push(tok);
                    return toks;
                },
                Some(i) => {
                    let tok = slice_to_vec(slice_subrange(s, pos, i));
                    proof {
                        assert(rest[i - pos] == s@[i as int]);
                        lemma_find_space_is(rest, Some(i - pos));
                        assert(tok@ =~= rest.take(i - pos));
                        assert(rest.skip(i - pos) =~= s@.skip(i as int));
                        assert(fields_view(toks@.push(tok)) =~= fields_view(toks@)
                            + seq![rest.take(i - pos)]);
                        assert(fields_view(toks@) + seq![rest.take(i - pos)] + tokens_of(
                            s@.skip(i as int),
                        ) =~= fields_view(toks@) + (seq![rest.take(i - pos)] + tokens_of(
                            s@.skip(i as int),
                        )));
                    }
                    toks.push(tok);
                    pos = i;
                },
            }
        }
    }
}

/// `s` with leading ASCII whitespace removed.
pub open spec fn trim_start(s: Seq<u8>) -> Seq<u8>
    decreases s.len(),
{
    if s.len() > 0 && is_space(s[0]) {
        trim_start(s.skip(1))
    } else {
        s
    }
}

/// `s` with trailing ASCII whitespace removed.
pub open spec fn trim_end(s: Seq<u8>) -> Seq<u8>
    decreases s.len(),
{
    if s.len() > 0 && is_space(s.last()) {
        trim_end(s.drop_last())
    } else {
        s
    }
}

/// `s` with ASCII whitespace removed from both ends.
pub open spec fn trim_spaces(s: Seq<u8>) -> Seq<u8> {
    trim_end(trim_start(s))
}

/// When the bytes before `a` are whitespace and the byte at `a`, if any, is
/// not, trimming the start drops exactly the first `a` bytes.
proof fn lemma_trim_start_at(s: Seq<u8>, a: int)
    requires
        0 <= a <= s.len(),
        forall|j: int| 0 <= j < a ==> is_space(s[j]),
        a == s.len() || !is_space(s[a]),
    ensures
        trim_start(s) == s.skip(a),
    decreases a,
{
    if a == 0 {
        assert(s.skip(0) =~= s);
    } else {
        assert(is_space(s[0]));
        lemma_trim_start_at(s.skip(1), a - 1);
        assert(forall|j: int| 0 <= j < s.skip(1).len() ==> s.skip(1)[j] == s[j + 1]);
        assert(s.skip(1).skip(a - 1) =~= s.skip(a));
    }
}

/// When the bytes from `e` on are whitespace and the byte before `e`, if
/// any, is not, trimming the end keeps exactly the first `e` bytes.
proof fn lemma_trim_end_at(s: Seq<u8>, e: int)
    requires
        0 <= e <= s.len(),
        forall|j: int| e <= j < s.len() ==> is_space(s[j]),
        e == 0 || !is_space(s[e - 1]),
    ensures
        trim_end(s) == s.take(e),
    decreases s.len(),
{
    if e == s.len() {
        assert(s.take(e) =~= s);
        if s.len() > 0 {
            assert(!is_space(s.last()));
        }
    } else {
        assert(is_space(s.last()));
        lemma_trim_end_at(s.drop_last(), e);
        assert(s.drop_last().take(e) =~= s.take(e));
    }
}

/// The bytes of `s` with ASCII whitespace removed from both ends.
pub fn trim(s: &[u8]) -> (r: Vec<u8>)
    ensures
        r@ == trim_spaces(s@),
{
    let n = s.len();
    let mut a: usize = 0;
    while a < n && byte_is_space(s[a])
        invariant
            n == s@.len(),
            a <= n,
            forall|j: int| 0 <= j < a ==> is_space(s@[j]),
        decreases n - a,
    {
        a = a + 1;
    }
    proof {
        lemma_trim_start_at(s@, a as int);
    }
    if a == n {
        proof {
            assert(s@.skip(a as int) =~= Seq::<u8>::empty());
        }
        return Vec::new();
    }
    let mut e: usize = n;
    while e > a && byte_is_space(s[e - 1])
        invariant
            n == s@.len(),
            a <= e <= n,
            forall|j: int| e <= j < n ==> is_space(s@[j]),
        decreases e,
    {
        e = e - 1;
    }
    proof {
        let tail = s@.skip(a as int);
        assert(forall|j: int| 0 <= j < tail.len() ==> tail[j] == s@[j + a]);
        assert(e > a) by {
            assert(!is_space(s@[a as int]));
        }
        lemma_trim_end_at(tail, e - a);
        assert(tail.take(e - a) =~= s@.subrange(a as int, e as int));
    }
    slice_to_vec(slice_subrange(s, a, e))
}

/// The number the decimal digits of `s` denote, most significant first.
pub open spec fn dec_value(s: Seq<u8>) -> nat
    decreases s.len(),
{
    if s.len() == 0 {
        0
    } else {
        dec_value(s.drop_last()) * 10 + digit_value(s.last())
    }
}

/// The value of a single decimal digit byte.
pub open spec fn digit_value(b: u8) -> nat
    recommends
        is_digit(b),
{
    (b - 48) as nat
}

/// Every byte of `s` is an ASCII decimal digit.
pub open spec fn all_digits(s: Seq<u8>) -> bool {
    forall|j: int| 0 <= j < s.len() ==> is_digit(s[j])
}

/// The number a decimal numeral denotes, read as `u32::from_str` reads it:
/// an optional leading `+`, then at least one digit, with a value that fits
/// in 32 bits.  Anything else denotes nothing.
pub open spec fn parse_u32(s: Seq<u8>) -> Option<u32> {
    let d = if s.len() > 0 && s[0] == 43 {
        s.skip(1)
    } else {
        s
    };
    if d.len() > 0 && all_digits(d) && dec_value(d) <= u32::MAX {
        Some(dec_value(d) as u32)
    } else {
        None
    }
}

/// A prefix of a digit string never denotes more than the whole string.
proof fn lemma_dec_value_prefix(s: Seq<u8>, k: int)
    requires
        0 <= k <= s.len(),
    ensures
        dec_value(s.take(k)) <= dec_value(s),
    decreases s.len() - k,
{
    if k == s.len() {
        assert(s.take(k) =~= s);
    } else {
        assert(s.take(k + 1).drop_last() =~= s.take(k));
        assert(s.take(k + 1).last() == s[k]);
        lemma_dec_value_prefix(s, k + 1);
    }
}

/// Reads `s` as a decimal numeral, as `u32::from_str` would.
pub fn parse_u32_bytes(s: &[u8]) -> (r: Option<u32>)
    ensures
        r == parse_u32(s@),
{
    let n = s.len();
    let start: usize = if n > 0 && s[0] == 43 {
        1
    } else {
        0
    };
    let ghost d = if start == 1 {
        s@.skip(1)
    } else {
        s@
    };
    proof {
        assert(forall|j: int| 0 <= j < d.len() ==> d[j] == s@[j + start]);
    }
    if start == n {
        return None;
    }
    let mut i: usize = start;
    let mut value: u32 = 0;
    while i < n
        invariant
            n == s@.len(),
            start <= i <= n,
            start < n,
            start == 1 <==> s@.len() > 0 && s@[0] == 43,
            d == (if start == 1 {
                s@.skip(1)
            } else {
                s@
            }),
            forall|j: int| 0 <= j < d.len() ==> d[j] == s@[j + start],
            forall|j: int| 0 <= j < i - start ==> is_digit(d[j]),
            value == dec_value(d.take(i - start)),
        decreases n - i,
    {
        let b = s[i];
        if !(48 <= b && b <= 57) {
            proof {
                assert(!is_digit(d[i - start]));
                assert(!all_digits(d));
            }
            return None;
        }
        let digit: u32 = (b - 48) as u32;
        proof {
            assert(d.take(i - start + 1).drop_last() =~= d.take(i - start));
            assert(d.take(i - start + 1).last() == d[i - start]);
        }
        if value > (u32::MAX - digit) / 10 {
            proof {
                vstd::arithmetic::div_mod::lemma_fundamental_div_mod(
                    u32::MAX as int - digit,
                    10,
                );
                assert(dec_value(d.take(i - start + 1)) == value * 10 + digit);
                assert(value * 10 + digit > u32::MAX);
                lemma_dec_value_prefix(d, i - start + 1);
                assert(dec_value(d) > u32::MAX);
            }
            return None;
        }
        value = value * 10 + digit;
        i = i + 1;
    }
    proof {
        assert(d.take(n - start) =~= d);
    }
    Some(value)
}

} // verus!
