//! Character and string helpers: ASCII case folding, decimal and octal
//! numerals, and character-level comparison and search on `&str`.

use vstd::prelude::*;
use vstd::string::*;

verus! {

/// ASCII lower-casing of one character; characters outside `'A'..='Z'` are
/// unchanged.
pub open spec fn lower_char(c: char) -> char {
    if 'A' <= c && c <= 'Z' {
        ((c as int) + 32) as char
    } else {
        c
    }
}

/// ASCII lower-casing of a character sequence.
pub open spec fn lower(s: Seq<char>) -> Seq<char> {
    s.map_values(|c: char| lower_char(c))
}

/// Executable ASCII lower-casing of one character.
pub fn lower_char_exec(c: char) -> (r: char)
    ensures
        r == lower_char(c),
{
    if 'A' <= c && c <= 'Z' {
        (((c as u32) + 32) as u8) as char
    } else {
        c
    }
}

/// Character-for-character equality of two string slices.
pub fn str_eq(a: &str, b: &str) -> (r: bool)
    ensures
        r == (a@ == b@),
{
    let alen = a.unicode_len();
    let blen = b.unicode_len();
    if alen != blen {
        return false;
    }
    let mut i: usize = 0;
    while i < alen
        invariant
            i <= alen,
            alen == a@.len(),
            alen == b@.len(),
            forall|j: int| 0 <= j < i ==> a@[j] == b@[j],
        decreases alen - i,
    {
        if a.get_char(i) != b.get_char(i) {
            return false;
        }
        i = i + 1;
    }
    proof {
        assert(a@ =~= b@);
    }
    true
}

/// ASCII case-insensitive equality of two string slices.
pub fn eq_ignore_case(a: &str, b: &str) -> (r: bool)
    ensures
        r == (lower(a@) == lower(b@)),
{
    let alen = a.unicode_len();
    let blen = b.unicode_len();
    if alen != blen {
        proof {
            assert(lower(a@).len() != lower(b@).len());
        }
        return false;
    }
    let mut i: usize = 0;
    while i < alen
        invariant
            i <= alen,
            alen == a@.len(),
            alen == b@.len(),
            forall|j: int| 0 <= j < i ==> lower(a@)[j] == lower(b@)[j],
        decreases alen - i,
    {
        if lower_char_exec(a.get_char(i)) != lower_char_exec(b.get_char(i)) {
            proof {
                assert(lower(a@)[i as int] != lower(b@)[i as int]);
            }
            return false;
        }
        i = i + 1;
    }
    proof {
        assert(lower(a@) =~= lower(b@));
    }
    true
}

/// Is `c` a decimal digit?
pub open spec fn is_digit(c: char) -> bool {
    '0' <= c && c <= '9'
}

/// Numeric value of a decimal digit.
pub open spec fn digit_val(c: char) -> nat {
    ((c as int) - ('0' as int)) as nat
}

/// Does every character of `s` satisfy `is_digit`?
pub open spec fn all_digits(s: Seq<char>) -> bool {
    forall|i: int| 0 <= i < s.len() ==> is_digit(#[trigger] s[i])
}

/// The value of a big-endian sequence of decimal digits.
pub open spec fn digits_val(s: Seq<char>) -> nat
    decreases s.len(),
{
    if s.len() == 0 {
        0
    } else {
        digits_val(s.drop_last()) * 10 + digit_val(s.last())
    }
}

/// What `str::parse` to an unsigned integer accepts: an optional leading
/// `'+'` followed by one or more decimal digits.  The value is unbounded
/// here; executable parsers reject values over their type's maximum.
pub open spec fn parse_uint_spec(s: Seq<char>) -> Option<nat> {
    let t = if s.len() > 0 && s[0] == '+' {
        s.skip(1)
    } else {
        s
    };
    if t.len() > 0 && all_digits(t) {
        Some(digits_val(t))
    } else {
        None
    }
}

/// Extending a digit string on the right never decreases its value.
proof fn lemma_digits_val_prefix_le(s: Seq<char>, i: int)
    requires
        0 <= i <= s.len(),
    ensures
        digits_val(s.take(i)) <= digits_val(s),
    decreases s.len() - i,
{
    if i < s.len() {
        lemma_digits_val_prefix_le(s, i + 1);
        assert(s.take(i + 1).drop_last() =~= s.take(i));
        assert(digits_val(s.take(i)) <= digits_val(s.take(i + 1)));
    } else {
        assert(s.take(i) =~= s);
    }
}

/// Is `c` a decimal digit, executably.
pub fn is_digit_exec(c: char) -> (r: bool)
    ensures
        r == is_digit(c),
{
    '0' <= c && c <= '9'
}

/// Parse a run of decimal digits `s@[from..to]` as a `u64`; `None` when the
/// run is empty, holds a non-digit, or overflows.
fn parse_digits_u64(s: &str, from: usize, to: usize) -> (r: Option<u64>)
    requires
        from <= to <= s@.len(),
    ensures
        match r {
            Some(v) => all_digits(s@.subrange(from as int, to as int)) && from < to
                && v == digits_val(s@.subrange(from as int, to as int)),
            None => from == to || !all_digits(s@.subrange(from as int, to as int))
                || digits_val(s@.subrange(from as int, to as int)) > u64::MAX,
        },
{
    if from == to {
        return None;
    }
    let ghost whole = s@.subrange(from as int, to as int);
    let mut acc: u64 = 0;
    let mut i: usize = from;
    while i < to
        invariant
            from <= i <= to <= s@.len(),
            whole == s@.subrange(from as int, to as int),
            all_digits(whole.take(i - from)),
            acc == digits_val(whole.take(i - from)),
        decreases to - i,
    {
        let c = s.get_char(i);
        proof {
            assert(whole[i - from] == s@[i as int]);
        }
        if !is_digit_exec(c) {
            return None;
        }
        let d: u32 = (c as u32) - ('0' as u32);
        proof {
            assert(whole.take(i + 1 - from).drop_last() =~= whole.take(i - from));
            assert(whole.take(i + 1 - from).last() == c);
        }
        if acc > (u64::MAX - (d as u64)) / 10 {
            proof {
                assert(digits_val(whole.take(i + 1 - from)) > u64::MAX);
                lemma_digits_val_prefix_le(whole, i + 1 - from);
            }
            return None;
        }
        acc = acc * 10 + (d as u64);
        i = i + 1;
    }
    proof {
        assert(whole.take(to - from) =~= whole);
    }
    Some(acc)
}

/// What `u64::from_str` does, restricted as `parse_uint_spec` says: `Some`
/// exactly on an optional `'+'` and digits whose value fits.
pub fn parse_u64(s: &str) -> (r: Option<u64>)
    ensures
        match r {
            Some(v) => parse_uint_spec(s@) == Some(v as nat),
            None => match parse_uint_spec(s@) {
                Some(n) => n > u64::MAX,
                None => true,
            },
        },
{
    let n = s.unicode_len();
    if n > 0 && s.get_char(0) == '+' {
        proof {
            assert(s@.subrange(1, n as int) =~= s@.skip(1));
        }
        parse_digits_u64(s, 1, n)
    } else {
        proof {
            assert(s@.subrange(0, n as int) =~= s@);
        }
        parse_digits_u64(s, 0, n)
    }
}

/// What `u32::from_str` does: as `parse_u64`, bounded by `u32::MAX`.
pub fn parse_u32(s: &str) -> (r: Option<u32>)
    ensures
        match r {
            Some(v) => parse_uint_spec(s@) == Some(v as nat),
            None => match parse_uint_spec(s@) {
                Some(n) => n > u32::MAX,
                None => true,
            },
        },
{
    match parse_u64(s) {
        Some(v) => if v <= u32::MAX as u64 {
            Some(v as u32)
        } else {
            None
        },
        None => None,
    }
}

/// The decimal digit character for a value below ten.
pub open spec fn digit_char(d: nat) -> char {
    if d == 0 {
        '0'
    } else if d == 1 {
        '1'
    } else if d == 2 {
        '2'
    } else if d == 3 {
        '3'
    } else if d == 4 {
        '4'
    } else if d == 5 {
        '5'
    } else if d == 6 {
        '6'
    } else if d == 7 {
        '7'
    } else if d == 8 {
        '8'
    } else {
        '9'
    }
}

/// The decimal numeral of `n`, without sign or padding.
pub open spec fn dec_str(n: nat) -> Seq<char>
    decreases n,
{
    if n < 10 {
        seq![digit_char(n)]
    } else {
        dec_str(n / 10) + seq![digit_char(n % 10)]
    }
}

/// The octal numeral of `n`, without sign, padding or prefix.
pub open spec fn oct_str(n: nat) -> Seq<char>
    decreases n,
{
    if n < 8 {
        seq![digit_char(n)]
    } else {
        oct_str(n / 8) + seq![digit_char(n % 8)]
    }
}

/// A one-character string slice for a digit value below ten.
fn digit_str(d: u64) -> (r: &'static str)
    requires
        d < 10,
    ensures
        r@ =~= seq![digit_char(d as nat)],
{
    proof {
        reveal_strlit("0");
        reveal_strlit("1");
        reveal_strlit("2");
        reveal_strlit("3");
        reveal_strlit("4");
        reveal_strlit("5");
        reveal_strlit("6");
        reveal_strlit("7");
        reveal_strlit("8");
        reveal_strlit("9");
    }
    if d == 0 {
        "0"
    } else if d == 1 {
        "1"
    } else if d == 2 {
        "2"
    } else if d == 3 {
        "3"
    } else if d == 4 {
        "4"
    } else if d == 5 {
        "5"
    } else if d == 6 {
        "6"
    } else if d == 7 {
        "7"
    } else if d == 8 {
        "8"
    } else {
        "9"
    }
}

/// Append the decimal numeral of `n` to `out`.
pub fn append_dec_u64(out: &mut String, n: u64)
    ensures
        final(out)@ == old(out)@ + dec_str(n as nat),
    decreases n,
{
    if n < 10 {
        out.append(digit_str(n));
    } else {
        append_dec_u64(out, n / 10);
        out.append(digit_str(n % 10));
        proof {
            assert(old(out)@ + dec_str((n / 10) as nat) + seq![digit_char((n % 10) as nat)]
                =~= old(out)@ + dec_str(n as nat));
        }
    }
}

/// Append the octal numeral of `n` to `out`.
pub fn append_oct_u32(out: &mut String, n: u32)
    ensures
        final(out)@ == old(out)@ + oct_str(n as nat),
    decreases n,
{
    if n < 8 {
        out.append(digit_str(n as u64));
    } else {
        append_oct_u32(out, n / 8);
        out.append(digit_str((n % 8) as u64));
        proof {
            assert(old(out)@ + oct_str((n / 8) as nat) + seq![digit_char((n % 8) as nat)]
                =~= old(out)@ + oct_str(n as nat));
        }
    }
}

/// The decimal numeral of `n` as an owned string.
pub fn u64_to_string(n: u64) -> (r: String)
    ensures
        r@ == dec_str(n as nat),
{
    let mut out = String::new();
    append_dec_u64(&mut out, n);
    proof {
        assert(Seq::<char>::empty() + dec_str(n as nat) =~= dec_str(n as nat));
    }
    out
}

/// Is `c` an octal digit?
pub open spec fn is_oct_digit(c: char) -> bool {
    '0' <= c && c <= '7'
}

/// Does every character of `s` satisfy `is_oct_digit`?
pub open spec fn all_oct_digits(s: Seq<char>) -> bool {
    forall|i: int| 0 <= i < s.len() ==> is_oct_digit(#[trigger] s[i])
}

/// The value of a big-endian sequence of octal digits.
pub open spec fn oct_digits_val(s: Seq<char>) -> nat
    decreases s.len(),
{
    if s.len() == 0 {
        0
    } else {
        oct_digits_val(s.drop_last()) * 8 + digit_val(s.last())
    }
}

/// What `u32::from_str_radix(s, 8)` accepts: an optional leading `'+'`
/// followed by one or more octal digits.
pub open spec fn parse_octal_spec(s: Seq<char>) -> Option<nat> {
    let t = if s.len() > 0 && s[0] == '+' {
        s.skip(1)
    } else {
        s
    };
    if t.len() > 0 && all_oct_digits(t) {
        Some(oct_digits_val(t))
    } else {
        None
    }
}

/// Extending an octal digit string on the right never decreases its value.
proof fn lemma_oct_val_prefix_le(s: Seq<char>, i: int)
    requires
        0 <= i <= s.len(),
    ensures
        oct_digits_val(s.take(i)) <= oct_digits_val(s),
    decreases s.len() - i,
{
    if i < s.len() {
        lemma_oct_val_prefix_le(s, i + 1);
        assert(s.take(i + 1).drop_last() =~= s.take(i));
        assert(oct_digits_val(s.take(i)) <= oct_digits_val(s.take(i + 1)));
    } else {
        assert(s.take(i) =~= s);
    }
}

/// Parse a run of octal digits `s@[from..to]` as a `u32`.
fn parse_oct_digits_u32(s: &str, from: usize, to: usize) -> (r: Option<u32>)
    requires
        from <= to <= s@.len(),
    ensures
        match r {
            Some(v) => all_oct_digits(s@.subrange(from as int, to as int)) && from < to
                && v == oct_digits_val(s@.subrange(from as int, to as int)),
            None => from == to || !all_oct_digits(s@.subrange(from as int, to as int))
                || oct_digits_val(s@.subrange(from as int, to as int)) > u32::MAX,
        },
{
    if from == to {
        return None;
    }
    let ghost whole = s@.subrange(from as int, to as int);
    let mut acc: u32 = 0;
    let mut i: usize = from;
    while i < to
        invariant
            from <= i <= to <= s@.len(),
            whole == s@.subrange(from as int, to as int),
            all_oct_digits(whole.take(i - from)),
            acc == oct_digits_val(whole.take(i - from)),
        decreases to - i,
    {
        let c = s.get_char(i);
        proof {
            assert(whole[i - from] == s@[i as int]);
        }
        if !('0' <= c && c <= '7') {
            return None;
        }
        let d: u32 = (c as u32) - ('0' as u32);
        proof {
            assert(whole.take(i + 1 - from).drop_last() =~= whole.take(i - from));
            assert(whole.take(i + 1 - from).last() == c);
        }
        if acc > (u32::MAX - d) / 8 {
            proof {
                assert(oct_digits_val(whole.take(i + 1 - from)) > u32::MAX);
                lemma_oct_val_prefix_le(whole, i + 1 - from);
            }
            return None;
        }
        acc = acc * 8 + d;
        i = i + 1;
    }
    proof {
        assert(whole.take(to - from) =~= whole);
    }
    Some(acc)
}

/// What `u32::from_str_radix(s, 8)` does, as `parse_octal_spec` says.
pub fn parse_octal_u32(s: &str) -> (r: Option<u32>)
    ensures
        match r {
            Some(v) => parse_octal_spec(s@) == Some(v as nat),
            None => match parse_octal_spec(s@) {
                Some(n) => n > u32::MAX,
                None => true,
            },
        },
{
    let n = s.unicode_len();
    if n > 0 && s.get_char(0) == '+' {
        proof {
            assert(s@.subrange(1, n as int) =~= s@.skip(1));
        }
        parse_oct_digits_u32(s, 1, n)
    } else {
        proof {
            assert(s@.subrange(0, n as int) =~= s@);
        }
        parse_oct_digits_u32(s, 0, n)
    }
}

/// The first index at or after `from` where `c` occurs in `s`, if any.
pub open spec fn find_char_spec(s: Seq<char>, c: char, from: int) -> Option<int>
    decreases s.len() - from,
{
    if from < 0 || from >= s.len() {
        None
    } else if s[from] == c {
        Some(from)
    } else {
        find_char_spec(s, c, from + 1)
    }
}

/// Find the first occurrence of `c` in `s` at or after index `from`.
pub fn find_char(s: &str, c: char, from: usize) -> (r: Option<usize>)
    ensures
        match r {
            Some(i) => from <= i < s@.len() && s@[i as int] == c
                && find_char_spec(s@, c, from as int) == Some(i as int),
            None => find_char_spec(s@, c, from as int).is_none(),
        },
{
    let n = s.unicode_len();
    let mut i: usize = from;
    if i > n {
        return None;
    }
    while i < n
        invariant
            from <= i <= n,
            n == s@.len(),
            find_char_spec(s@, c, from as int) == find_char_spec(s@, c, i as int),
        decreases n - i,
    {
        if s.get_char(i) == c {
            return Some(i);
        }
        i = i + 1;
    }
    None
}

/// An owned copy of the character range `s@[from..to]`.
pub fn substr_string(s: &str, from: usize, to: usize) -> (r: String)
    requires
        from <= to <= s@.len(),
    ensures
        r@ == s@.subrange(from as int, to as int),
{
    s.substring_char(from, to).to_owned()
}

/// ASCII whitespace, as `char::is_whitespace` classifies ASCII.
pub open spec fn is_space(c: char) -> bool {
    c == ' ' || c == '\t' || c == '\n' || c == '\r' || c == '\u{b}' || c == '\u{c}'
}

/// `s` with leading whitespace removed.
pub open spec fn trim_left(s: Seq<char>) -> Seq<char>
    decreases s.len(),
{
    if s.len() > 0 && is_space(s[0]) {
        trim_left(s.skip(1))
    } else {
        s
    }
}

/// `s` with trailing whitespace removed.
pub open spec fn trim_right(s: Seq<char>) -> Seq<char>
    decreases s.len(),
{
    if s.len() > 0 && is_space(s.last()) {
        trim_right(s.drop_last())
    } else {
        s
    }
}

/// `s` with whitespace removed from both ends.
pub open spec fn trim_spec(s: Seq<char>) -> Seq<char> {
    trim_right(trim_left(s))
}

proof fn lemma_trim_left_skip(s: Seq<char>, i: int)
    requires
        0 <= i <= s.len(),
        forall|j: int| 0 <= j < i ==> is_space(#[trigger] s[j]),
    ensures
        trim_left(s) == trim_left(s.skip(i)),
    decreases i,
{
    if i > 0 {
        assert(is_space(s[0]));
        assert(s.skip(1).skip(i - 1) =~= s.skip(i));
        lemma_trim_left_skip(s.skip(1), i - 1);
    } else {
        assert(s.skip(0) =~= s);
    }
}

proof fn lemma_trim_right_take(s: Seq<char>, i: int)
    requires
        0 <= i <= s.len(),
        forall|j: int| i <= j < s.len() ==> is_space(#[trigger] s[j]),
    ensures
        trim_right(s) == trim_right(s.take(i)),
    decreases s.len() - i,
{
    if i < s.len() {
        assert(is_space(s.last()));
        assert(s.drop_last().take(i) =~= s.take(i));
        lemma_trim_right_take(s.drop_last(), i);
    } else {
        assert(s.take(i) =~= s);
    }
}

/// Is `c` ASCII whitespace, executably.
pub fn is_space_exec(c: char) -> (r: bool)
    ensures
        r == is_space(c),
{
    c == ' ' || c == '\t' || c == '\n' || c == '\r' || c == '\u{b}' || c == '\u{c}'
}

/// What `str::trim` does, for ASCII whitespace.
pub fn trim(s: &str) -> (r: String)
    ensures
        r@ == trim_spec(s@),
{
    let n = s.unicode_len();
    let mut start: usize = 0;
    while start < n && is_space_exec(s.get_char(start))
        invariant
            0 <= start <= n,
            n == s@.len(),
            forall|j: int| 0 <= j < start ==> is_space(#[trigger] s@[j]),
        decreases n - start,
    {
        start = start + 1;
    }
    let mut end: usize = n;
    while end > start && is_space_exec(s.get_char(end - 1))
        invariant
            start <= end <= n,
            n == s@.len(),
            forall|j: int| end <= j < n ==> is_space(#[trigger] s@[j]),
        decreases end,
    {
        end = end - 1;
    }
    let r = substr_string(s, start, end);
    proof {
        lemma_trim_left_skip(s@, start as int);
        if start < n {
            assert(!is_space(s@[start as int]));
            assert(trim_left(s@) == s@.skip(start as int));
        } else {
            assert(s@.skip(start as int) =~= Seq::<char>::empty());
            assert(trim_left(s@) =~= s@.skip(start as int));
        }
        let t = s@.skip(start as int);
        lemma_trim_right_take(t, end - start);
        if end > start {
            assert(!is_space(t[end - start - 1]));
            assert(t.take(end - start).last() == t[end - start - 1]);
            assert(trim_right(t.take(end - start)) == t.take(end - start));
        } else {
            assert(t.take(0) =~= Seq::<char>::empty());
            assert(trim_right(t.take(end - start)) =~= t.take(end - start));
        }
        assert(s@.subrange(start as int, end as int) =~= t.take(end - start));
    }
    r
}

/// The pieces of `s` between occurrences of the separator `sep`; always at
/// least one piece, and empty pieces are kept.
pub open spec fn split_spec(s: Seq<char>, sep: char) -> Seq<Seq<char>>
    decreases s.len(),
    via split_spec_dec
{
    match find_char_spec(s, sep, 0) {
        Option::None => seq![s],
        Option::Some(i) => seq![s.take(i)] + split_spec(s.skip(i + 1), sep),
    }
}

pub proof fn lemma_find_char_in_range(s: Seq<char>, c: char, from: int)
    ensures
        find_char_spec(s, c, from) matches Option::Some(i) ==> from <= i < s.len(),
    decreases s.len() - from,
{
    if 0 <= from < s.len() && s[from] != c {
        lemma_find_char_in_range(s, c, from + 1);
    }
}

#[via_fn]
proof fn split_spec_dec(s: Seq<char>, sep: char) {
    lemma_find_char_in_range(s, sep, 0);
}

/// What `str::split(sep)` yields, collected into owned strings.
pub fn split_str(s: &str, sep: char) -> (r: Vec<String>)
    ensures
        r.deep_view() == split_spec(s@, sep),
{
    let mut pieces: Vec<String> = Vec::new();
    let mut pos: usize = 0;
    let n = s.unicode_len();
    proof {
        assert(s@.skip(0) =~= s@);
        assert(pieces.deep_view() =~= Seq::<Seq<char>>::empty());
    }
    loop
        invariant
            0 <= pos <= n,
            n == s@.len(),
            pieces.deep_view() + split_spec(s@.skip(pos as int), sep) == split_spec(s@, sep),
        decreases n - pos,
    {
        proof {
            lemma_find_char_in_range(s@, sep, pos as int);
        }
        match find_char(s, sep, pos) {
            Some(i) => {
                let piece = substr_string(s, pos, i);
                pieces.push(piece);
                proof {
                    let t = s@.skip(pos as int);
                    assert(find_char_spec(t, sep, 0) == Some(i - pos)) by {
                        lemma_find_skip(s@, sep, pos as int, i as int);
                    }
                    assert(t.take(i - pos) =~= s@.subrange(pos as int, i as int));
                    assert(t.skip(i - pos + 1) =~= s@.skip(i + 1));
                    assert(pieces.deep_view() + split_spec(s@.skip(i + 1), sep) =~= split_spec(
                        s@,
                        sep,
                    ));
                }
                pos = i + 1;
            },
            None => {
                let piece = substr_string(s, pos, n);
                pieces.push(piece);
                proof {
                    let t = s@.skip(pos as int);
                    assert(find_char_spec(t, sep, 0).is_none()) by {
                        lemma_find_none_skip(s@, sep, pos as int);
                    }
                    assert(t =~= s@.subrange(pos as int, n as int));
                    assert(split_spec(t, sep) == seq![t]);
                    assert(pieces.deep_view() =~= split_spec(s@, sep));
                }
                return pieces;
            },
        }
    }
}

/// `find_char_spec` on a suffix mirrors `find_char_spec` on the whole.
proof fn lemma_find_skip(s: Seq<char>, c: char, pos: int, i: int)
    requires
        0 <= pos <= i,
        find_char_spec(s, c, pos) == Some(i),
    ensures
        i < s.len(),
        find_char_spec(s.skip(pos), c, 0) == Some(i - pos),
    decreases i - pos,
{
    lemma_find_char_in_range(s, c, pos);
    lemma_find_shift(s, c, pos, pos);
}

/// Searching the suffix `s.skip(base)` from `from - base` finds what
/// searching `s` from `from` finds, shifted by `base`.
pub proof fn lemma_find_shift(s: Seq<char>, c: char, base: int, from: int)
    requires
        0 <= base <= from,
        base <= s.len(),
    ensures
        find_char_spec(s, c, from) == match find_char_spec(s.skip(base), c, from - base) {
            Option::None => Option::<int>::None,
            Option::Some(j) => Option::Some(j + base),
        },
    decreases s.len() - from,
{
    let t = s.skip(base);
    if from >= s.len() {
    } else {
        assert(t[from - base] == s[from]);
        if s[from] != c {
            lemma_find_shift(s, c, base, from + 1);
        }
    }
}

proof fn lemma_find_none_skip(s: Seq<char>, c: char, pos: int)
    requires
        0 <= pos <= s.len(),
        find_char_spec(s, c, pos).is_none(),
    ensures
        find_char_spec(s.skip(pos), c, 0).is_none(),
{
    lemma_find_shift(s, c, pos, pos);
}

/// Where `c` does not occur at or after `from`, the search fails.
pub proof fn lemma_find_none_of_absent(s: Seq<char>, c: char, from: int)
    requires
        0 <= from,
        forall|i: int| from <= i < s.len() ==> s[i] != c,
    ensures
        find_char_spec(s, c, from).is_none(),
    decreases s.len() - from,
{
    if from < s.len() {
        lemma_find_none_of_absent(s, c, from + 1);
    }
}

/// Lexicographic order on character sequences, by code point.
pub open spec fn lex_le(a: Seq<char>, b: Seq<char>) -> bool
    decreases a.len(),
{
    if a.len() == 0 {
        true
    } else if b.len() == 0 {
        false
    } else if a[0] != b[0] {
        (a[0] as int) < (b[0] as int)
    } else {
        lex_le(a.skip(1), b.skip(1))
    }
}

/// `lex_le` is total.
pub proof fn lemma_lex_le_total(a: Seq<char>, b: Seq<char>)
    ensures
        lex_le(a, b) || lex_le(b, a),
    decreases a.len(),
{
    if a.len() > 0 && b.len() > 0 && a[0] == b[0] {
        lemma_lex_le_total(a.skip(1), b.skip(1));
    }
}

/// `lex_le` is transitive.
pub proof fn lemma_lex_le_trans(a: Seq<char>, b: Seq<char>, c: Seq<char>)
    requires
        lex_le(a, b),
        lex_le(b, c),
    ensures
        lex_le(a, c),
    decreases a.len(),
{
    if a.len() > 0 && b.len() > 0 && c.len() > 0 && a[0] == b[0] && b[0] == c[0] {
        lemma_lex_le_trans(a.skip(1), b.skip(1), c.skip(1));
    }
}

/// Decide `lex_le(a@, b@)` on string slices.
pub fn str_lex_le(a: &str, b: &str) -> (r: bool)
    ensures
        r == lex_le(a@, b@),
{
    let alen = a.unicode_len();
    let blen = b.unicode_len();
    let mut i: usize = 0;
    proof {
        assert(a@.skip(0) =~= a@);
        assert(b@.skip(0) =~= b@);
    }
    loop
        invariant
            0 <= i <= alen,
            i <= blen,
            alen == a@.len(),
            blen == b@.len(),
            lex_le(a@, b@) == lex_le(a@.skip(i as int), b@.skip(i as int)),
        decreases alen - i,
    {
        if i == alen {
            proof {
                assert(a@.skip(i as int).len() == 0);
            }
            return true;
        }
        if i == blen {
            proof {
                assert(b@.skip(i as int).len() == 0);
                assert(a@.skip(i as int).len() > 0);
            }
            return false;
        }
        let ca = a.get_char(i);
        let cb = b.get_char(i);
        proof {
            assert(a@.skip(i as int)[0] == ca);
            assert(b@.skip(i as int)[0] == cb);
        }
        if ca != cb {
            return ca < cb;
        }
        proof {
            assert(a@.skip(i as int).skip(1) =~= a@.skip(i + 1));
            assert(b@.skip(i as int).skip(1) =~= b@.skip(i + 1));
        }
        i = i + 1;
    }
}

} // verus!
