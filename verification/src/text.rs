//! Byte-offset slicing and comparison of UTF-8 text.
use vstd::prelude::*;
use vstd::utf8::*;
use vstd::string::*;

verus! {

broadcast use vstd::utf8::encode_utf8_valid_utf8;

/// The UTF-8 bytes of a character sequence.
pub open spec fn utf8(s: Seq<char>) -> Seq<u8> {
    encode_utf8(s)
}

/// `start..end` is a range of byte offsets into `bytes` that std accepts
/// for slicing: ordered, in bounds, and on character boundaries.
pub open spec fn valid_byte_range(bytes: Seq<u8>, start: int, end: int) -> bool {
    &&& 0 <= start <= end <= bytes.len()
    &&& is_char_boundary(bytes, start)
    &&& is_char_boundary(bytes, end)
}

/// Encoding distributes over concatenation.
pub proof fn lemma_utf8_concat(a: Seq<char>, b: Seq<char>)
    ensures
        utf8(a + b) == utf8(a) + utf8(b),
    decreases a.len(),
{
    if a.len() == 0 {
        assert(a + b =~= b);
    } else {
        lemma_utf8_concat(a.drop_first(), b);
        assert((a + b).drop_first() =~= a.drop_first() + b);
    }
}

/// Inside a valid prefix, a boundary of the whole sequence is still a boundary.
proof fn lemma_boundary_prefix(bytes: Seq<u8>, a: int, b: int)
    requires
        valid_utf8(bytes),
        0 <= a <= b <= bytes.len(),
        is_char_boundary(bytes, a),
        is_char_boundary(bytes, b),
    ensures
        valid_utf8(bytes.subrange(0, b)),
        is_char_boundary(bytes.subrange(0, b), a),
{
    valid_utf8_split(bytes, b);
    let p = bytes.subrange(0, b);
    if a == b {
        is_char_boundary_start_end_of_seq(p);
        assert(p.len() == b);
    } else {
        is_char_boundary_iff_is_leading_byte(bytes, a);
        is_char_boundary_iff_is_leading_byte(p, a);
        assert(p[a] == bytes[a]);
    }
}

/// The substring of `s` between the byte offsets `start` and `end`
/// (what `&s[start..end]` gives).
pub fn byte_slice(s: &str, start: usize, end: usize) -> (r: &str)
    requires
        valid_byte_range(utf8(s@), start as int, end as int),
    ensures
        utf8(r@) == utf8(s@).subrange(start as int, end as int),
{
    let ghost bytes = utf8(s@);
    proof {
        lemma_boundary_prefix(bytes, start as int, end as int);
    }
    let (prefix, _) = s.split_at(end);
    assert(prefix.spec_bytes() =~= bytes.subrange(0, end as int));
    let (_, mid) = prefix.split_at(start);
    assert(mid.spec_bytes() =~= bytes.subrange(start as int, end as int));
    mid
}

/// The substring of `s` from the byte offset `start` to its end
/// (what `&s[start..]` gives).
pub fn byte_slice_from(s: &str, start: usize) -> (r: &str)
    requires
        start <= utf8(s@).len(),
        is_char_boundary(utf8(s@), start as int),
    ensures
        utf8(r@) == utf8(s@).subrange(start as int, utf8(s@).len() as int),
{
    let (_, rest) = s.split_at(start);
    rest
}

/// Whether `start..end` may be used to slice `s`.
pub fn is_valid_byte_range(s: &str, start: usize, end: usize) -> (b: bool)
    ensures
        b == valid_byte_range(utf8(s@), start as int, end as int),
{
    if start <= end {
        let a = s.is_char_boundary(start);
        let b = s.is_char_boundary(end);
        proof {
            reveal_with_fuel(is_char_boundary, 1);
        }
        a && b
    } else {
        false
    }
}

/// Equality of two string slices.
pub fn str_eq(a: &str, b: &str) -> (r: bool)
    ensures
        r == (a@ == b@),
{
    let x: String = a.to_owned();
    let y: String = b.to_owned();
    x == y
}

/// The characters with the Unicode `White_Space` property, which is what
/// `char::is_whitespace` and `str::trim` go by.
pub open spec fn is_white_space(c: char) -> bool {
    ||| ('\u{9}' <= c && c <= '\u{d}')
    ||| c == ' '
    ||| c == '\u{85}'
    ||| c == '\u{a0}'
    ||| c == '\u{1680}'
    ||| ('\u{2000}' <= c && c <= '\u{200a}')
    ||| c == '\u{2028}'
    ||| c == '\u{2029}'
    ||| c == '\u{202f}'
    ||| c == '\u{205f}'
    ||| c == '\u{3000}'
}

/// Whether `c` is white space.
pub fn is_whitespace(c: char) -> (b: bool)
    ensures
        b == is_white_space(c),
{
    ('\u{9}' <= c && c <= '\u{d}') || c == ' ' || c == '\u{85}' || c == '\u{a0}' || c == '\u{1680}'
        || ('\u{2000}' <= c && c <= '\u{200a}') || c == '\u{2028}' || c == '\u{2029}' || c
        == '\u{202f}' || c == '\u{205f}' || c == '\u{3000}'
}

/// Number of white-space characters at the start of `s`.
pub open spec fn leading_ws(s: Seq<char>) -> int
    decreases s.len(),
{
    if s.len() > 0 && is_white_space(s[0]) {
        1 + leading_ws(s.drop_first())
    } else {
        0
    }
}

/// Number of white-space characters at the end of `s`.
pub open spec fn trailing_ws(s: Seq<char>) -> int
    decreases s.len(),
{
    if s.len() > 0 && is_white_space(s.last()) {
        1 + trailing_ws(s.drop_last())
    } else {
        0
    }
}

/// `s` without leading white space (what `str::trim_start` gives).
pub open spec fn trim_start_spec(s: Seq<char>) -> Seq<char> {
    s.skip(leading_ws(s))
}

/// `s` without trailing white space (what `str::trim_end` gives).
pub open spec fn trim_end_spec(s: Seq<char>) -> Seq<char> {
    s.take(s.len() - trailing_ws(s))
}

/// `s` without leading and trailing white space (what `str::trim` gives).
pub open spec fn trim_spec(s: Seq<char>) -> Seq<char> {
    trim_end_spec(trim_start_spec(s))
}

proof fn lemma_leading_ws(s: Seq<char>, i: int)
    requires
        0 <= i <= s.len(),
        forall|j: int| 0 <= j < i ==> is_white_space(s[j]),
        i == s.len() || !is_white_space(s[i]),
    ensures
        leading_ws(s) == i,
    decreases i,
{
    if i > 0 {
        lemma_leading_ws(s.drop_first(), i - 1);
    }
}

proof fn lemma_trailing_ws(s: Seq<char>, k: int)
    requires
        0 <= k <= s.len(),
        forall|j: int| s.len() - k <= j < s.len() ==> is_white_space(s[j]),
        k == s.len() || !is_white_space(s[s.len() - k - 1]),
    ensures
        trailing_ws(s) == k,
    decreases k,
{
    if k > 0 {
        lemma_trailing_ws(s.drop_last(), k - 1);
    }
}

/// `s` without leading white space.
pub fn trim_start(s: &str) -> (r: &str)
    ensures
        r@ == trim_start_spec(s@),
{
    let len = s.unicode_len();
    let mut i: usize = 0;
    while i < len && is_whitespace(s.get_char(i))
        invariant
            i <= len,
            len == s@.len(),
            forall|j: int| 0 <= j < i ==> is_white_space(s@[j]),
        decreases len - i,
    {
        i = i + 1;
    }
    proof {
        lemma_leading_ws(s@, i as int);
    }
    let r = s.substring_char(i, len);
    assert(r@ =~= trim_start_spec(s@));
    r
}

/// `s` without leading and trailing white space.
pub fn trim(s: &str) -> (r: &str)
    ensures
        r@ == trim_spec(s@),
{
    let t = trim_start(s);
    let len = t.unicode_len();
    let mut k: usize = 0;
    while k < len && is_whitespace(t.get_char(len - k - 1))
        invariant
            k <= len,
            len == t@.len(),
            forall|j: int| len - k <= j < len ==> is_white_space(t@[j]),
        decreases len - k,
    {
        k = k + 1;
    }
    proof {
        lemma_trailing_ws(t@, k as int);
    }
    let r = t.substring_char(0, len - k);
    assert(r@ =~= trim_spec(s@));
    r
}

proof fn lemma_leading_ws_all(s: Seq<char>)
    ensures
        0 <= leading_ws(s) <= s.len(),
        (leading_ws(s) == s.len()) <==> (forall|k: int| 0 <= k < s.len() ==> is_white_space(#[trigger] s[k])),
        leading_ws(s) < s.len() ==> !is_white_space(s[leading_ws(s)]),
    decreases s.len(),
{
    if s.len() > 0 {
        let t = s.drop_first();
        lemma_leading_ws_all(t);
        if is_white_space(s[0]) {
            assert forall|k: int| 0 <= k < t.len() implies t[k] == s[k + 1] by {}
            if forall|k: int| 0 <= k < t.len() ==> is_white_space(#[trigger] t[k]) {
                assert forall|k: int| 0 <= k < s.len() implies is_white_space(#[trigger] s[k]) by {
                    if k > 0 {
                        assert(s[k] == t[k - 1]);
                    }
                }
            } else {
                let k = choose|k: int| 0 <= k < t.len() && !is_white_space(#[trigger] t[k]);
                assert(s[k + 1] == t[k]);
            }
            if leading_ws(t) < t.len() {
                assert(s[leading_ws(s)] == t[leading_ws(t)]);
            }
        }
    }
}

proof fn lemma_trailing_ws_all(s: Seq<char>)
    ensures
        0 <= trailing_ws(s) <= s.len(),
        trailing_ws(s) == s.len() ==> forall|k: int| 0 <= k < s.len() ==> is_white_space(#[trigger] s[k]),
    decreases s.len(),
{
    if s.len() > 0 {
        let t = s.drop_last();
        lemma_trailing_ws_all(t);
        if trailing_ws(s) == s.len() {
            assert forall|k: int| 0 <= k < s.len() implies is_white_space(#[trigger] s[k]) by {
                if k < t.len() {
                    assert(s[k] == t[k]);
                }
            }
        }
    }
}

/// Trimming leaves nothing exactly when every character is white space.
pub proof fn lemma_trim_empty(s: Seq<char>)
    ensures
        (trim_spec(s).len() == 0) <==> (forall|k: int| 0 <= k < s.len() ==> is_white_space(#[trigger] s[k])),
{
    lemma_leading_ws_all(s);
    let t = trim_start_spec(s);
    lemma_trailing_ws_all(t);
    if leading_ws(s) < s.len() {
        assert(t[0] == s[leading_ws(s)]);
        if trailing_ws(t) == t.len() {
            assert(is_white_space(t[0]));
        }
        let k = leading_ws(s);
        assert(!is_white_space(s[k]));
    }
}

/// The decimal digit `d`.
pub open spec fn digit_char(d: nat) -> char {
    if d == 0 { '0' } else if d == 1 { '1' } else if d == 2 { '2' } else if d == 3 { '3' } else if d == 4 {
        '4'
    } else if d == 5 { '5' } else if d == 6 { '6' } else if d == 7 { '7' } else if d == 8 { '8' } else {
        '9'
    }
}

/// The decimal representation of `n`, without leading zeros.
pub open spec fn decimal(n: nat) -> Seq<char>
    decreases n,
{
    if n < 10 {
        seq![digit_char(n)]
    } else {
        decimal(n / 10).push(digit_char(n % 10))
    }
}

fn digit_str(d: usize) -> (r: &'static str)
    requires
        d < 10,
    ensures
        r@ == seq![digit_char(d as nat)],
{
    proof {
        reveal_strlit("0");
        reveal_strlit("1");
        reveal_strlit("2");
        reveal_strlit("3");
        reveal_strlit("4");
        reveal_strlit("5");
        reveal_strlit("6");
        reveal_strlit("7");
        reveal_strlit("8");
        reveal_strlit("9");
    }
    if d == 0 { "0" } else if d == 1 { "1" } else if d == 2 { "2" } else if d == 3 { "3" } else if d == 4 {
        "4"
    } else if d == 5 { "5" } else if d == 6 { "6" } else if d == 7 { "7" } else if d == 8 { "8" } else {
        "9"
    }
}

/// Appends the decimal representation of `n` to `out`.
pub fn push_decimal(out: &mut String, n: usize)
    ensures
        final(out)@ == old(out)@ + decimal(n as nat),
    decreases n,
{
    if n < 10 {
        out.append(digit_str(n));
    } else {
        push_decimal(out, n / 10);
        out.append(digit_str(n % 10));
        assert(decimal(n as nat) == decimal((n / 10) as nat).push(digit_char((n % 10) as nat)));
        assert(old(out)@ + decimal(n as nat) =~= old(out)@ + decimal((n / 10) as nat) + seq![digit_char((n % 10) as nat)]);
    }
}

/// The index of the first `c` in `s` at or after `i`, or the length of `s`
/// when there is none.
pub open spec fn first_of(s: Seq<char>, c: char, i: int) -> int
    decreases s.len() - i,
{
    if i < 0 || i >= s.len() {
        s.len() as int
    } else if s[i] == c {
        i
    } else {
        first_of(s, c, i + 1)
    }
}

/// [`first_of`] is the index of the first `c` at or after `i`, if any.
pub proof fn lemma_first_of(s: Seq<char>, c: char, i: int)
    requires
        0 <= i <= s.len(),
    ensures
        i <= first_of(s, c, i) <= s.len(),
        first_of(s, c, i) < s.len() ==> s[first_of(s, c, i)] == c,
        forall|j: int| i <= j < first_of(s, c, i) ==> s[j] != c,
    decreases s.len() - i,
{
    if i < s.len() && s[i] != c {
        lemma_first_of(s, c, i + 1);
    }
}

/// The index of the first `c` in `s`, or its length.
pub fn find_char(s: &str, c: char) -> (idx: usize)
    ensures
        idx == first_of(s@, c, 0),
{
    let len = s.unicode_len();
    let mut i: usize = 0;
    while i < len
        invariant
            i <= len,
            len == s@.len(),
            first_of(s@, c, 0) == first_of(s@, c, i as int),
        decreases len - i,
    {
        if s.get_char(i) == c {
            return i;
        }
        i = i + 1;
    }
    i
}

} // verus!
