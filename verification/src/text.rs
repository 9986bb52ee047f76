//! Text helpers: characters, lines, trimming and decimal numbers, with the
//! few standard-library calls they rest on.
use vstd::prelude::*;
use vstd::utf8::*;

verus! {

broadcast use vstd::string::group_string_axioms;

/// Appends one character to a string (`String::push`); the contract says the
/// character lands at the end and nothing else changes.
#[verifier::external_body]
pub(crate) fn push_char(s: &mut String, c: char)
    ensures
        final(s)@ == old(s)@.push(c),
{
    s.push(c);
}

/// Decodes a byte slice as UTF-8 (`std::str::from_utf8`, error dropped): it
/// succeeds exactly on valid UTF-8 and then yields the decoded characters.
#[verifier::external_body]
pub(crate) fn str_from_utf8(bytes: &[u8]) -> (r: Option<&str>)
    ensures
        r is Some <==> valid_utf8(bytes@),
        r matches Some(s) ==> s@ == decode_utf8(bytes@),
{
    std::str::from_utf8(bytes).ok()
}

/// The character with a given code point (`char::from_u32`): `Some` exactly
/// when the value is a Unicode scalar value.
#[verifier::external_body]
pub(crate) fn char_from_u32(code: u32) -> (r: Option<char>)
    ensures
        r == (if is_scalar(code) {
            Some(code as char)
        } else {
            None
        }),
{
    char::from_u32(code)
}

/// The characters of a string, in order.
pub fn chars_of(s: &str) -> (v: Vec<char>)
    ensures
        v@ == s@,
{
    let mut v: Vec<char> = Vec::new();
    for c in it: s.chars()
        invariant
            v@ == it.seq().take(it.index() as int),
    {
        v.push(c);
    }
    assert(v@ =~= s@);
    v
}


/// Bytes read one for one as characters.
pub open spec fn ascii_chars(b: Seq<u8>) -> Seq<char> {
    Seq::new(b.len(), |i: int| b[i] as char)
}

/// A string holding each byte as one character.
pub fn string_of_ascii(b: &[u8]) -> (r: String)
    ensures
        r@ == ascii_chars(b@),
{
    let mut out = String::new();
    let mut i: usize = 0;
    while i < b.len()
        invariant
            0 <= i <= b.len(),
            out@ == ascii_chars(b@).take(i as int),
        decreases b.len() - i,
    {
        push_char(&mut out, b[i] as char);
        i = i + 1;
        assert(out@ =~= ascii_chars(b@).take(i as int));
    }
    assert(out@ =~= ascii_chars(b@));
    out
}

/// Whether two byte slices hold the same bytes.
pub fn bytes_eq(a: &[u8], b: &[u8]) -> (r: bool)
    ensures
        r == (a@ == b@),
{
    if a.len() != b.len() {
        return false;
    }
    let mut i: usize = 0;
    while i < a.len()
        invariant
            0 <= i <= a.len(),
            a.len() == b.len(),
            forall|j: int| 0 <= j < i ==> a@[j] == b@[j],
        decreases a.len() - i,
    {
        if a[i] != b[i] {
            return false;
        }
        i = i + 1;
    }
    assert(a@ =~= b@);
    true
}

/// Whether two strings hold the same characters.
pub fn str_eq(a: &str, b: &str) -> (r: bool)
    ensures
        r == (a@ == b@),
{
    let r = bytes_eq(a.as_bytes(), b.as_bytes());
    proof {
        vstd::utf8::encode_utf8_decode_utf8(a@);
        vstd::utf8::encode_utf8_decode_utf8(b@);
    }
    r
}

/// The decimal digit for `d` below ten.
pub open spec fn digit_char(d: nat) -> char {
    (d + 0x30) as char
}

/// The decimal form of `n`, without leading zeros.
pub open spec fn decimal(n: nat) -> Seq<char>
    decreases n,
{
    if n < 10 {
        seq![digit_char(n)]
    } else {
        decimal(n / 10).push(digit_char(n % 10))
    }
}

/// Appends `n` in decimal.
fn push_decimal(out: &mut String, n: usize)
    ensures
        final(out)@ == old(out)@ + decimal(n as nat),
    decreases n,
{
    if n >= 10 {
        push_decimal(out, n / 10);
    }
    let d = (n % 10) as u8;
    push_char(out, (d + 0x30) as char);
    assert(decimal(n as nat) == if n < 10 {
        seq![digit_char(n as nat)]
    } else {
        decimal((n / 10) as nat).push(digit_char((n % 10) as nat))
    });
}

/// `n` in decimal.
pub fn usize_to_decimal(n: usize) -> (r: String)
    ensures
        r@ == decimal(n as nat),
{
    let mut out = String::new();
    push_decimal(&mut out, n);
    assert(out@ =~= decimal(n as nat));
    out
}

/// Whether `c` has the Unicode `White_Space` property (what
/// `char::is_whitespace` and `str::trim` go by).
pub open spec fn is_white_space(c: char) -> bool {
    let u = c as u32;
    (0x09 <= u <= 0x0d) || u == 0x20 || u == 0x85 || u == 0xa0 || u == 0x1680 || (0x2000 <= u
        <= 0x200a) || u == 0x2028 || u == 0x2029 || u == 0x202f || u == 0x205f || u == 0x3000
}

pub fn char_is_white_space(c: char) -> (r: bool)
    ensures
        r == is_white_space(c),
{
    let u = c as u32;
    (0x09 <= u && u <= 0x0d) || u == 0x20 || u == 0x85 || u == 0xa0 || u == 0x1680 || (0x2000 <= u
        && u <= 0x200a) || u == 0x2028 || u == 0x2029 || u == 0x202f || u == 0x205f || u == 0x3000
}

/// Whether every character is white space (so `trim` leaves nothing).
pub open spec fn is_blank(s: Seq<char>) -> bool {
    forall|i: int| 0 <= i < s.len() ==> is_white_space(#[trigger] s[i])
}

pub fn chars_blank(s: &[char]) -> (r: bool)
    ensures
        r == is_blank(s@),
{
    let mut i: usize = 0;
    while i < s.len()
        invariant
            i <= s@.len(),
            forall|j: int| 0 <= j < i ==> is_white_space(#[trigger] s@[j]),
        decreases s@.len() - i,
    {
        if !char_is_white_space(s[i]) {
            return false;
        }
        i = i + 1;
    }
    true
}

/// First index at or after `i` of a character that is not white space, or the length.
pub open spec fn trim_start_from(s: Seq<char>, i: int) -> int
    decreases s.len() - i,
{
    if 0 <= i < s.len() && is_white_space(s[i]) {
        trim_start_from(s, i + 1)
    } else {
        i
    }
}

/// End of `s[..j]` once trailing white space is dropped, not before `lo`.
pub open spec fn trim_end_from(s: Seq<char>, lo: int, j: int) -> int
    decreases j - lo,
{
    if lo < j <= s.len() && is_white_space(s[j - 1]) {
        trim_end_from(s, lo, j - 1)
    } else {
        j
    }
}

/// `s` without leading and trailing white space (`str::trim`).
pub open spec fn trim(s: Seq<char>) -> Seq<char> {
    let a = trim_start_from(s, 0);
    s.subrange(a, trim_end_from(s, a, s.len() as int))
}

pub proof fn lemma_trim_start_bounds(s: Seq<char>, i: int)
    requires
        0 <= i <= s.len(),
    ensures
        i <= trim_start_from(s, i) <= s.len(),
    decreases s.len() - i,
{
    if 0 <= i < s.len() && is_white_space(s[i]) {
        lemma_trim_start_bounds(s, i + 1);
    }
}

pub proof fn lemma_trim_end_bounds(s: Seq<char>, lo: int, j: int)
    requires
        0 <= lo <= j <= s.len(),
    ensures
        lo <= trim_end_from(s, lo, j) <= j,
    decreases j - lo,
{
    if lo < j <= s.len() && is_white_space(s[j - 1]) {
        lemma_trim_end_bounds(s, lo, j - 1);
    }
}

/// The characters `s[from..to]` as a string.
pub fn string_of_chars(s: &[char], from: usize, to: usize) -> (r: String)
    requires
        from <= to <= s@.len(),
    ensures
        r@ == s@.subrange(from as int, to as int),
{
    let mut out = String::new();
    let mut i = from;
    while i < to
        invariant
            from <= i <= to <= s@.len(),
            out@ == s@.subrange(from as int, i as int),
        decreases to - i,
    {
        push_char(&mut out, s[i]);
        i = i + 1;
        assert(out@ =~= s@.subrange(from as int, i as int));
    }
    out
}

/// `s` trimmed, as a string.
pub fn trimmed(s: &[char]) -> (r: String)
    ensures
        r@ == trim(s@),
{
    proof {
        lemma_trim_start_bounds(s@, 0);
    }
    let mut a: usize = 0;
    while a < s.len() && char_is_white_space(s[a])
        invariant
            a <= s@.len(),
            trim_start_from(s@, a as int) == trim_start_from(s@, 0),
        decreases s@.len() - a,
    {
        a = a + 1;
    }
    proof {
        lemma_trim_end_bounds(s@, a as int, s@.len() as int);
    }
    let mut b: usize = s.len();
    while b > a && char_is_white_space(s[b - 1])
        invariant
            a <= b <= s@.len(),
            trim_end_from(s@, a as int, b as int) == trim_end_from(s@, a as int, s@.len() as int),
        decreases b,
    {
        b = b - 1;
    }
    string_of_chars(s, a, b)
}

/// Whether `s` starts with `p`.
pub open spec fn has_prefix(s: Seq<char>, p: Seq<char>) -> bool {
    p.len() <= s.len() && s.subrange(0, p.len() as int) == p
}

/// Whether `s` ends with `p`.
pub open spec fn has_suffix(s: Seq<char>, p: Seq<char>) -> bool {
    p.len() <= s.len() && s.subrange(s.len() - p.len(), s.len() as int) == p
}

pub fn starts_with(s: &[char], p: &[char]) -> (r: bool)
    ensures
        r == has_prefix(s@, p@),
{
    if p.len() > s.len() {
        return false;
    }
    let mut i: usize = 0;
    while i < p.len()
        invariant
            i <= p@.len() <= s@.len(),
            forall|j: int| 0 <= j < i ==> s@[j] == p@[j],
        decreases p@.len() - i,
    {
        if s[i] != p[i] {
            assert(s@.subrange(0, p@.len() as int)[i as int] != p@[i as int]);
            return false;
        }
        i = i + 1;
    }
    assert(s@.subrange(0, p@.len() as int) =~= p@);
    true
}

pub fn ends_with(s: &[char], p: &[char]) -> (r: bool)
    ensures
        r == has_suffix(s@, p@),
{
    if p.len() > s.len() {
        return false;
    }
    let off = s.len() - p.len();
    let mut i: usize = 0;
    while i < p.len()
        invariant
            i <= p@.len() <= s@.len(),
            off == s@.len() - p@.len(),
            off + p.len() == s.len(),
            forall|j: int| 0 <= j < i ==> s@[off + j] == p@[j],
        decreases p@.len() - i,
    {
        if s[off + i] != p[i] {
            assert(s@.subrange(off as int, s@.len() as int)[i as int] != p@[i as int]);
            return false;
        }
        i = i + 1;
    }
    assert(s@.subrange(off as int, s@.len() as int) =~= p@);
    true
}

pub fn chars_eq(a: &[char], b: &[char]) -> (r: bool)
    ensures
        r == (a@ == b@),
{
    if a.len() != b.len() {
        return false;
    }
    let mut i: usize = 0;
    while i < a.len()
        invariant
            i <= a@.len(),
            a@.len() == b@.len(),
            forall|j: int| 0 <= j < i ==> a@[j] == b@[j],
        decreases a@.len() - i,
    {
        if a[i] != b[i] {
            return false;
        }
        i = i + 1;
    }
    assert(a@ =~= b@);
    true
}

/// Index of the first line break at or after `j`, or the length.
pub open spec fn newline_from(s: Seq<char>, j: int) -> int
    decreases s.len() - j,
{
    if 0 <= j < s.len() && s[j] != '\n' {
        newline_from(s, j + 1)
    } else {
        j
    }
}

/// A line without the carriage return of a `\r\n` ending.
pub open spec fn strip_cr(l: Seq<char>) -> Seq<char> {
    if l.len() > 0 && l.last() == '\r' {
        l.drop_last()
    } else {
        l
    }
}

/// The lines of `s` from `start` on, as `str::lines` splits them: at each
/// `\n`, dropping a `\r` just before it; a final line break ends the last
/// line rather than starting an empty one.
pub open spec fn lines_from(s: Seq<char>, start: int) -> Seq<Seq<char>>
    decreases s.len() - start,
{
    if !(0 <= start < s.len()) {
        Seq::empty()
    } else {
        let e = newline_from(s, start);
        proof {
            lemma_newline_from(s, start);
        }
        if e >= s.len() {
            seq![s.subrange(start, s.len() as int)]
        } else {
            seq![strip_cr(s.subrange(start, e))] + lines_from(s, e + 1)
        }
    }
}

pub open spec fn lines(s: Seq<char>) -> Seq<Seq<char>> {
    lines_from(s, 0)
}

pub proof fn lemma_newline_from(s: Seq<char>, j: int)
    requires
        0 <= j <= s.len(),
    ensures
        j <= newline_from(s, j) <= s.len(),
        newline_from(s, j) < s.len() ==> s[newline_from(s, j)] == '\n',
        forall|k: int| j <= k < newline_from(s, j) ==> s[k] != '\n',
    decreases s.len() - j,
{
    if 0 <= j < s.len() && s[j] != '\n' {
        lemma_newline_from(s, j + 1);
    }
}

pub open spec fn lines_view(v: Seq<Vec<char>>) -> Seq<Seq<char>> {
    v.map_values(|l: Vec<char>| l@)
}

/// The lines of `s` (`str::lines`).
pub fn lines_of(s: &[char]) -> (r: Vec<Vec<char>>)
    ensures
        lines_view(r@) == lines(s@),
{
    let mut out: Vec<Vec<char>> = Vec::new();
    let mut start: usize = 0;
    let mut i: usize = 0;
    assert(lines_view(out@) + lines_from(s@, 0) =~= lines(s@));
    proof {
        lemma_newline_from(s@, 0);
    }
    while i < s.len()
        invariant
            start <= i <= s@.len(),
            lines_view(out@) + lines_from(s@, start as int) == lines(s@),
            newline_from(s@, start as int) == newline_from(s@, i as int),
        decreases s@.len() - i,
    {
        if s[i] == '\n' {
            proof {
                lemma_newline_from(s@, i + 1);
            }
            let mut end = i;
            if end > start && s[end - 1] == '\r' {
                end = end - 1;
            }
            let mut line: Vec<char> = Vec::new();
            let mut k = start;
            while k < end
                invariant
                    start <= k <= end <= i < s@.len(),
                    line@ == s@.subrange(start as int, k as int),
                decreases end - k,
            {
                line.push(s[k]);
                k = k + 1;
                assert(line@ =~= s@.subrange(start as int, k as int));
            }
            assert(line@ == strip_cr(s@.subrange(start as int, i as int))) by {
                if i > start && s@[i - 1] == '\r' {
                    assert(s@.subrange(start as int, i as int).drop_last() =~= s@.subrange(
                        start as int,
                        i - 1,
                    ));
                }
            }
            let ghost before = out@;
            out.push(line);
            assert(lines_view(out@) =~= lines_view(before).push(line@));
            assert(lines_from(s@, start as int) =~= seq![line@] + lines_from(s@, i + 1));
            assert(lines_view(out@) + lines_from(s@, i + 1) =~= lines(s@));
            start = i + 1;
        }
        i = i + 1;
    }
    if start < s.len() {
        let mut line: Vec<char> = Vec::new();
        let mut k = start;
        while k < s.len()
            invariant
                start <= k <= s@.len(),
                line@ == s@.subrange(start as int, k as int),
            decreases s@.len() - k,
        {
            line.push(s[k]);
            k = k + 1;
            assert(line@ =~= s@.subrange(start as int, k as int));
        }
        let ghost before = out@;
        out.push(line);
        assert(lines_view(out@) =~= lines_view(before).push(line@));
        assert(lines_from(s@, start as int) =~= seq![line@]);
    } else {
        assert(lines_from(s@, start as int) =~= Seq::<Seq<char>>::empty());
    }
    assert(lines_view(out@) =~= lines(s@));
    out
}

/// Whether `piece` occurs in `text`.
pub open spec fn holds_text(text: Seq<char>, piece: Seq<char>) -> bool {
    exists|i: int|
        0 <= i && i + piece.len() <= text.len() && #[trigger] text.subrange(i, i + piece.len())
            == piece
}

pub proof fn lemma_holds_middle(a: Seq<char>, piece: Seq<char>, b: Seq<char>)
    ensures
        holds_text(a + piece + b, piece),
{
    let t = a + piece + b;
    assert(t.subrange(a.len() as int, (a.len() + piece.len()) as int) =~= piece);
    assert(0 <= a.len() as int && a.len() + piece.len() <= t.len());
}

/// What a piece of text holds, the text with more on either side holds too.
pub proof fn lemma_holds_extend(a: Seq<char>, x: Seq<char>, b: Seq<char>, piece: Seq<char>)
    requires
        holds_text(x, piece),
    ensures
        holds_text(a + x + b, piece),
{
    let i = choose|i: int|
        0 <= i && i + piece.len() <= x.len() && #[trigger] x.subrange(i, i + piece.len()) == piece;
    let t = a + x + b;
    assert(t.subrange(a.len() + i, a.len() + i + piece.len()) =~= x.subrange(i, i + piece.len()));
}

} // verus!
