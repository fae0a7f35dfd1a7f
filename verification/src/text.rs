//! Text helpers: decimal numbers as `str::parse` reads them, splitting, trimming,
//! and the UTF-8 bridge between strings and the bytes of a datagram.
use vstd::prelude::*;
use vstd::string::StrSliceExecFns;
use vstd::string::StringExecFns;
use vstd::utf8::{decode_utf8, encode_utf8, is_ascii_chars, valid_utf8};

verus! {

/// Whether `c` is an ASCII decimal digit.
pub open spec fn is_digit(c: char) -> bool {
    '0' <= c && c <= '9'
}

/// The value of a digit character.
pub open spec fn digit_value(c: char) -> nat {
    (c as nat - '0' as nat) as nat
}

/// Whether every character of `s` is a decimal digit.
pub open spec fn all_digits(s: Seq<char>) -> bool {
    forall|i: int| 0 <= i < s.len() ==> is_digit(#[trigger] s[i])
}

/// The number written by the decimal digits `s` (most significant first).
pub open spec fn decimal_value(s: Seq<char>) -> nat
    decreases s.len(),
{
    if s.len() == 0 {
        0
    } else {
        decimal_value(s.drop_last()) * 10 + digit_value(s.last())
    }
}

/// What `str::parse` gives for an unsigned integer type whose largest value is `max`:
/// an optional leading `+`, then at least one decimal digit, and a value no greater than `max`.
pub open spec fn parse_unsigned(s: Seq<char>, max: nat) -> Option<nat> {
    let digits = if s.len() > 0 && s[0] == '+' { s.drop_first() } else { s };
    if digits.len() > 0 && all_digits(digits) && decimal_value(digits) <= max {
        Some(decimal_value(digits))
    } else {
        None
    }
}

/// Once a prefix of a digit string exceeds a bound, the whole string does.
pub proof fn lemma_decimal_value_prefix(s: Seq<char>, k: int)
    requires
        0 <= k <= s.len(),
        all_digits(s),
    ensures
        decimal_value(s.take(k)) <= decimal_value(s),
    decreases s.len() - k,
{
    if k < s.len() {
        lemma_decimal_value_prefix(s, k + 1);
        assert(s.take(k + 1).drop_last() =~= s.take(k));
    } else {
        assert(s.take(k) =~= s);
    }
}

/// Parses `s` as `str::parse` does for an unsigned type bounded by `max`.
fn parse_bounded(s: &str, max: u32) -> (r: Option<u32>)
    requires
        max <= 0x0fff_ffff,
    ensures
        match r {
            Some(v) => parse_unsigned(s@, max as nat) == Some(v as nat),
            None => parse_unsigned(s@, max as nat) is None,
        },
{
    let n = s.unicode_len();
    let mut start: usize = 0;
    if n > 0 && s.get_char(0) == '+' {
        start = 1;
    }
    let ghost digits = if s@.len() > 0 && s@[0] == '+' { s@.drop_first() } else { s@ };
    assert(digits =~= s@.skip(start as int));
    if start >= n {
        return None;
    }
    let mut acc: u32 = 0;
    let mut i: usize = start;
    while i < n
        invariant
            start <= i <= n,
            n == s@.len(),
            digits =~= s@.skip(start as int),
            digits == (if s@.len() > 0 && s@[0] == '+' { s@.drop_first() } else { s@ }),
            acc <= max,
            acc as nat == decimal_value(s@.subrange(start as int, i as int)),
            all_digits(s@.subrange(start as int, i as int)),
            max <= 0x0fff_ffff,
        decreases n - i,
    {
        let c = s.get_char(i);
        if !('0' <= c && c <= '9') {
            assert(digits[i - start] == c);
            return None;
        }
        let d = (c as u32) - ('0' as u32);
        let ghost prefix = s@.subrange(start as int, i as int + 1);
        assert(prefix.drop_last() =~= s@.subrange(start as int, i as int));
        assert(prefix.last() == c);
        let next = acc * 10 + d;
        if next > max {
            proof {
                if all_digits(digits) {
                    assert(prefix =~= digits.take(i - start + 1));
                    lemma_decimal_value_prefix(digits, i - start + 1);
                }
            }
            return None;
        }
        acc = next;
        i = i + 1;
    }
    assert(s@.subrange(start as int, n as int) =~= digits);
    Some(acc)
}

/// Parses a port number as `str::parse::<u16>` does.
pub fn parse_u16(s: &str) -> (r: Option<u16>)
    ensures
        match r {
            Some(v) => parse_unsigned(s@, 0xffff) == Some(v as nat),
            None => parse_unsigned(s@, 0xffff) is None,
        },
{
    match parse_bounded(s, 0xffff) {
        Some(v) => Some(v as u16),
        None => None,
    }
}

/// Parses an octet as `str::parse::<u8>` does.
pub fn parse_u8(s: &str) -> (r: Option<u8>)
    ensures
        match r {
            Some(v) => parse_unsigned(s@, 0xff) == Some(v as nat),
            None => parse_unsigned(s@, 0xff) is None,
        },
{
    match parse_bounded(s, 0xff) {
        Some(v) => Some(v as u8),
        None => None,
    }
}


// ----- strings and their bytes -----

/// The views of a sequence of strings.
pub open spec fn views(v: Seq<String>) -> Seq<Seq<char>> {
    v.map_values(|p: String| p@)
}

/// `String::from_utf8`: the bytes become a string exactly when they are valid UTF-8,
/// and the string then holds the characters that the bytes encode.
#[verifier::external_body]
fn string_from_utf8(bytes: Vec<u8>) -> (r: Option<String>)
    ensures
        r is Some <==> valid_utf8(bytes@),
        r matches Some(s) ==> s@ == decode_utf8(bytes@),
{
    match String::from_utf8(bytes) {
        Ok(s) => Some(s),
        Err(_) => None,
    }
}

/// Decodes UTF-8 bytes into a string; `None` when they are not valid UTF-8.
pub fn decode_text(bytes: Vec<u8>) -> (r: Option<String>)
    ensures
        r is Some <==> valid_utf8(bytes@),
        r matches Some(s) ==> s@ == decode_utf8(bytes@),
        r matches Some(s) ==> encode_utf8(s@) == bytes@,
{
    let r = string_from_utf8(bytes);
    proof {
        if r is Some {
            vstd::utf8::decode_utf8_encode_utf8(bytes@);
        }
    }
    r
}

/// ASCII characters encode as themselves, one byte each.
pub proof fn lemma_ascii_encoding(chars: Seq<char>, bytes: Seq<u8>)
    requires
        is_ascii_chars(chars),
        bytes.len() == chars.len(),
        forall|i: int| 0 <= i < chars.len() ==> bytes[i] == chars[i] as u8,
    ensures
        encode_utf8(chars) == bytes,
        valid_utf8(bytes),
        decode_utf8(bytes) == chars,
{
    vstd::utf8::is_ascii_chars_encode_utf8(chars);
    assert(encode_utf8(chars) =~= bytes);
    vstd::utf8::encode_utf8_valid_utf8(chars);
    vstd::utf8::encode_utf8_decode_utf8(chars);
}

/// The encoding of a concatenation is the concatenation of the encodings.
pub proof fn lemma_encode_concat(a: Seq<char>, b: Seq<char>)
    ensures
        encode_utf8(a + b) == encode_utf8(a) + encode_utf8(b),
    decreases a.len(),
{
    if a.len() == 0 {
        assert(a + b =~= b);
        assert(encode_utf8(a) + encode_utf8(b) =~= encode_utf8(b));
    } else {
        assert((a + b).drop_first() =~= a.drop_first() + b);
        lemma_encode_concat(a.drop_first(), b);
        assert((a + b)[0] == a[0]);
    }
}

/// Builds the string whose characters are the ASCII `chars`, from their bytes.
pub(crate) fn ascii_string(bytes: Vec<u8>, Ghost(chars): Ghost<Seq<char>>) -> (r: String)
    requires
        is_ascii_chars(chars),
        bytes@.len() == chars.len(),
        forall|i: int| 0 <= i < chars.len() ==> bytes@[i] == chars[i] as u8,
    ensures
        r@ == chars,
{
    proof {
        lemma_ascii_encoding(chars, bytes@);
    }
    match string_from_utf8(bytes) {
        Some(s) => s,
        None => vstd::pervasive::unreached(),
    }
}

/// Whether two strings hold the same characters.
pub fn same_text(a: &str, b: &str) -> (r: bool)
    ensures
        r == (a@ == b@),
{
    let n = a.unicode_len();
    if n != b.unicode_len() {
        return false;
    }
    let mut i: usize = 0;
    while i < n
        invariant
            i <= n,
            n == a@.len(),
            n == b@.len(),
            forall|j: int| 0 <= j < i ==> a@[j] == b@[j],
        decreases n - i,
    {
        if a.get_char(i) != b.get_char(i) {
            return false;
        }
        i = i + 1;
    }
    assert(a@ =~= b@);
    true
}

/// An owned copy of the characters `from..to` of `s`.
fn substring(s: &str, from: usize, to: usize) -> (r: String)
    requires
        from <= to <= s@.len(),
    ensures
        r@ == s@.subrange(from as int, to as int),
{
    s.substring_char(from, to).to_owned()
}

// ----- splitting -----

/// The pieces of `s` between the occurrences of `sep`, as `str::split` yields them:
/// one more piece than there are separators, empty pieces included.
pub open spec fn split(s: Seq<char>, sep: char) -> Seq<Seq<char>>
    decreases s.len(),
{
    if s.len() == 0 {
        seq![Seq::empty()]
    } else {
        let r = split(s.drop_last(), sep);
        if s.last() == sep {
            r.push(Seq::empty())
        } else {
            r.update(r.len() - 1, r.last().push(s.last()))
        }
    }
}

/// `split` always yields at least one piece.
pub proof fn lemma_split_nonempty(s: Seq<char>, sep: char)
    ensures
        split(s, sep).len() >= 1,
    decreases s.len(),
{
    if s.len() > 0 {
        lemma_split_nonempty(s.drop_last(), sep);
    }
}

/// Text without the separator is a single piece.
pub proof fn lemma_split_no_sep(t: Seq<char>, sep: char)
    requires
        forall|i: int| 0 <= i < t.len() ==> t[i] != sep,
    ensures
        split(t, sep) == seq![t],
    decreases t.len(),
{
    if t.len() > 0 {
        lemma_split_no_sep(t.drop_last(), sep);
        assert(t.drop_last().push(t.last()) =~= t);
        assert(split(t, sep) =~= seq![t]);
    } else {
        assert(t =~= Seq::<char>::empty());
    }
}

/// Splitting `x`, a separator, then `y` gives the pieces of `x` followed by those of `y`.
pub proof fn lemma_split_join(x: Seq<char>, sep: char, y: Seq<char>)
    ensures
        split(x.push(sep) + y, sep) == split(x, sep) + split(y, sep),
    decreases y.len(),
{
    let z = x.push(sep) + y;
    lemma_split_nonempty(x, sep);
    if y.len() == 0 {
        assert(z =~= x.push(sep));
        assert(z.drop_last() =~= x);
        assert(split(z, sep) =~= split(x, sep) + split(y, sep));
    } else {
        assert(z.drop_last() =~= x.push(sep) + y.drop_last());
        lemma_split_join(x, sep, y.drop_last());
        lemma_split_nonempty(y.drop_last(), sep);
        assert(z.last() == y.last());
        assert(split(z, sep) =~= split(x, sep) + split(y, sep));
    }
}

/// Splits `s` at every `sep`, as `str::split` does.
pub fn split_text(s: &str, sep: char) -> (r: Vec<String>)
    ensures
        views(r@) == split(s@, sep),
{
    let n = s.unicode_len();
    let mut pieces: Vec<String> = Vec::new();
    let mut start: usize = 0;
    let mut i: usize = 0;
    assert(s@.take(0) =~= Seq::<char>::empty());
    assert(s@.subrange(0, 0) =~= Seq::<char>::empty());
    assert(views(pieces@).push(s@.subrange(0, 0)) =~= seq![Seq::<char>::empty()]);
    while i < n
        invariant
            start <= i <= n,
            n == s@.len(),
            split(s@.take(i as int), sep) == views(pieces@).push(
                s@.subrange(start as int, i as int),
            ),
        decreases n - i,
    {
        let c = s.get_char(i);
        let ghost prev = s@.take(i as int);
        assert(s@.take(i + 1).drop_last() =~= prev);
        assert(s@.take(i + 1).last() == c);
        if c == sep {
            let piece = substring(s, start, i);
            let ghost before = pieces@;
            let ghost piece_view = piece@;
            pieces.push(piece);
            start = i + 1;
            assert(views(pieces@) =~= views(before).push(piece_view));
            assert(s@.subrange(start as int, i + 1) =~= Seq::<char>::empty());
        } else {
            let ghost piece = s@.subrange(start as int, i as int);
            assert(s@.subrange(start as int, i + 1) =~= piece.push(c));
        }
        i = i + 1;
        assert(split(s@.take(i as int), sep) =~= views(pieces@).push(
            s@.subrange(start as int, i as int),
        ));
    }
    let last = substring(s, start, n);
    pieces.push(last);
    assert(s@.take(n as int) =~= s@);
    assert(views(pieces@) =~= split(s@, sep));
    pieces
}


// ----- trimming -----

/// Unicode `White_Space`, the set that `char::is_whitespace` and `str::trim` use.
pub open spec fn is_whitespace(c: char) -> bool {
    ||| ('\u{9}' <= c && c <= '\u{d}')
    ||| c == ' '
    ||| c == '\u{85}'
    ||| c == '\u{a0}'
    ||| c == '\u{1680}'
    ||| ('\u{2000}' <= c && c <= '\u{200a}')
    ||| c == '\u{2028}'
    ||| c == '\u{2029}'
    ||| c == '\u{202f}'
    ||| c == '\u{205f}'
    ||| c == '\u{3000}'
}

fn char_is_whitespace(c: char) -> (r: bool)
    ensures
        r == is_whitespace(c),
{
    ('\u{9}' <= c && c <= '\u{d}') || c == ' ' || c == '\u{85}' || c == '\u{a0}' || c
        == '\u{1680}' || ('\u{2000}' <= c && c <= '\u{200a}') || c == '\u{2028}' || c
        == '\u{2029}' || c == '\u{202f}' || c == '\u{205f}' || c == '\u{3000}'
}

/// `s` without its leading whitespace.
pub open spec fn trim_start(s: Seq<char>) -> Seq<char>
    decreases s.len(),
{
    if s.len() > 0 && is_whitespace(s[0]) {
        trim_start(s.drop_first())
    } else {
        s
    }
}

/// `s` without its trailing whitespace.
pub open spec fn trim_end(s: Seq<char>) -> Seq<char>
    decreases s.len(),
{
    if s.len() > 0 && is_whitespace(s.last()) {
        trim_end(s.drop_last())
    } else {
        s
    }
}

/// `s` without leading and trailing whitespace, as `str::trim` gives it.
pub open spec fn trim(s: Seq<char>) -> Seq<char> {
    trim_end(trim_start(s))
}

proof fn lemma_trim_start_skip(s: Seq<char>, k: int)
    requires
        0 <= k <= s.len(),
        forall|j: int| 0 <= j < k ==> is_whitespace(s[j]),
        k == s.len() || !is_whitespace(s[k]),
    ensures
        trim_start(s) == s.skip(k),
    decreases k,
{
    if k == 0 {
        assert(s.skip(0) =~= s);
    } else {
        assert(s.drop_first().skip(k - 1) =~= s.skip(k));
        lemma_trim_start_skip(s.drop_first(), k - 1);
    }
}

proof fn lemma_trim_end_take(s: Seq<char>, k: int)
    requires
        0 <= k <= s.len(),
        forall|j: int| k <= j < s.len() ==> is_whitespace(s[j]),
        k == 0 || !is_whitespace(s[k - 1]),
    ensures
        trim_end(s) == s.take(k),
    decreases s.len() - k,
{
    if k == s.len() {
        assert(s.take(k) =~= s);
    } else {
        assert(s.drop_last().take(k) =~= s.take(k));
        lemma_trim_end_take(s.drop_last(), k);
    }
}

/// Removes leading and trailing whitespace, as `str::trim` does.
pub fn trim_text(s: &str) -> (r: String)
    ensures
        r@ == trim(s@),
{
    let n = s.unicode_len();
    let mut lo: usize = 0;
    while lo < n && char_is_whitespace(s.get_char(lo))
        invariant
            lo <= n,
            n == s@.len(),
            forall|j: int| 0 <= j < lo ==> is_whitespace(s@[j]),
        decreases n - lo,
    {
        lo = lo + 1;
    }
    proof {
        lemma_trim_start_skip(s@, lo as int);
    }
    let mut hi: usize = n;
    while hi > lo && char_is_whitespace(s.get_char(hi - 1))
        invariant
            lo <= hi <= n,
            n == s@.len(),
            forall|j: int| hi <= j < n ==> is_whitespace(s@[j]),
        decreases hi,
    {
        hi = hi - 1;
    }
    proof {
        let t = s@.skip(lo as int);
        assert forall|j: int| hi - lo <= j < t.len() implies is_whitespace(t[j]) by {
            assert(t[j] == s@[lo + j]);
        }
        if hi > lo {
            assert(t[hi - lo - 1] == s@[hi - 1]);
        }
        lemma_trim_end_take(t, hi - lo);
        assert(t.take(hi - lo) =~= s@.subrange(lo as int, hi as int));
    }
    substring(s, lo, hi)
}

// ----- removing a character -----

/// `s` with every NUL character removed.
pub open spec fn without_nul(s: Seq<char>) -> Seq<char>
    decreases s.len(),
{
    if s.len() == 0 {
        s
    } else if s.last() == '\0' {
        without_nul(s.drop_last())
    } else {
        without_nul(s.drop_last()).push(s.last())
    }
}

/// Removes every NUL character, as `str::replace("\u{0}", "")` does.
pub fn strip_nul(s: &str) -> (r: String)
    ensures
        r@ == without_nul(s@),
{
    let n = s.unicode_len();
    let mut out = String::new();
    let mut i: usize = 0;
    while i < n
        invariant
            i <= n,
            n == s@.len(),
            out@ == without_nul(s@.take(i as int)),
        decreases n - i,
    {
        let ghost prefix = s@.take(i + 1);
        assert(prefix.drop_last() =~= s@.take(i as int));
        let c = s.get_char(i);
        assert(prefix.last() == c);
        if c != '\0' {
            let one = s.substring_char(i, i + 1);
            assert(one@ =~= seq![c]);
            out.append(one);
            assert(out@ =~= without_nul(prefix));
        }
        i = i + 1;
    }
    assert(s@.take(n as int) =~= s@);
    out
}


/// `k` NUL characters.
pub open spec fn nuls(k: nat) -> Seq<char> {
    Seq::new(k, |i: int| '\0')
}

/// Text without NUL characters is left as it is.
pub proof fn lemma_without_nul_id(a: Seq<char>)
    requires
        forall|i: int| 0 <= i < a.len() ==> a[i] != '\0',
    ensures
        without_nul(a) == a,
    decreases a.len(),
{
    if a.len() > 0 {
        lemma_without_nul_id(a.drop_last());
        assert(a.drop_last().push(a.last()) =~= a);
    }
}

/// Trailing NUL characters are dropped.
pub proof fn lemma_without_nul_padding(a: Seq<char>, k: nat)
    ensures
        without_nul(a + nuls(k)) == without_nul(a),
    decreases k,
{
    if k == 0 {
        assert(a + nuls(0) =~= a);
    } else {
        assert((a + nuls(k)).drop_last() =~= a + nuls((k - 1) as nat));
        lemma_without_nul_padding(a, (k - 1) as nat);
    }
}


// ----- decimal text -----

/// The decimal text of `v`, without leading zeros.
pub open spec fn decimal_text(v: nat) -> Seq<char>
    decreases v,
{
    if v < 10 {
        seq![((v + 48) as char)]
    } else {
        decimal_text(v / 10).push(((v % 10 + 48) as char))
    }
}

/// Decimal text is digits only, never empty, and reads back as its number.
pub proof fn lemma_decimal_text(v: nat)
    ensures
        decimal_text(v).len() > 0,
        all_digits(decimal_text(v)),
        decimal_value(decimal_text(v)) == v,
        decimal_text(v)[0] != '+',
        forall|i: int| 0 <= i < decimal_text(v).len() ==> (#[trigger] decimal_text(v)[i]) != ' '
            && decimal_text(v)[i] != '\n',
    decreases v,
{
    if v >= 10 {
        lemma_decimal_text(v / 10);
        let t = decimal_text(v / 10);
        let s = decimal_text(v);
        assert(s.drop_last() =~= t);
        assert(s[0] == t[0]);
        let c = ((v % 10 + 48) as char);
        assert(s.last() == c);
        assert(c as nat == v % 10 + 48);
        assert(digit_value(c) == v % 10);
        assert(decimal_value(s) == decimal_value(t) * 10 + digit_value(c));
        assert((v / 10) * 10 + v % 10 == v);
        assert forall|i: int| 0 <= i < s.len() implies is_digit(#[trigger] s[i]) by {
            if i < t.len() {
                assert(s[i] == t[i]);
            }
        }
        assert forall|i: int| 0 <= i < s.len() implies (#[trigger] s[i]) != ' ' && s[i] != '\n' by {
            if i < t.len() {
                assert(s[i] == t[i]);
            }
        }
    } else {
        let s = decimal_text(v);
        assert(s.drop_last() =~= Seq::<char>::empty());
        let c = ((v + 48) as char);
        assert(c as nat == v + 48);
        assert(decimal_value(s) == decimal_value(s.drop_last()) * 10 + digit_value(c));
    }
}

/// Every number up to `max` is read back from its decimal text.
pub proof fn lemma_parse_decimal_text(v: nat, max: nat)
    requires
        v <= max,
    ensures
        parse_unsigned(decimal_text(v), max) == Some(v),
{
    lemma_decimal_text(v);
}

} // verus!
