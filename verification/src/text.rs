use vstd::prelude::*;

verus! {

/// The characters of a string slice, in order.
pub fn chars_of(s: &str) -> (v: Vec<char>)
    ensures
        v@ == s@,
{
    let mut v: Vec<char> = Vec::new();
    for c in it: s.chars()
        invariant
            v@ == it.seq().take(it.index() as int),
    {
        v.push(c);
    }
    v
}

/// Appends one character to a string by `String::push`. Its contract is
/// taken on trust: that the string afterwards is the old one followed by
/// `c`, as the standard library documents for `push`.
#[verifier::external_body]
pub fn push_char(s: &mut String, c: char)
    ensures
        final(s)@ == old(s)@.push(c),
{
    s.push(c);
}

pub open spec fn is_file_char(c: char) -> bool {
    'a' <= c <= 'h'
}

pub fn is_file(c: char) -> (b: bool)
    ensures b == is_file_char(c),
{
    'a' <= c && c <= 'h'
}

/// A string holding `cs[lo..hi]`.
pub fn string_from(cs: &Vec<char>, lo: usize, hi: usize) -> (s: String)
    requires
        lo <= hi <= cs@.len(),
    ensures
        s@ == cs@.subrange(lo as int, hi as int),
{
    let mut s = String::new();
    let mut i = lo;
    while i < hi
        invariant
            lo <= i <= hi <= cs@.len(),
            s@ == cs@.subrange(lo as int, i as int),
        decreases hi - i,
    {
        push_char(&mut s, cs[i]);
        i += 1;
    }
    s
}

/// Rust's `char::is_whitespace`: the characters with the Unicode
/// `White_Space` property.
pub open spec fn is_whitespace_char(c: char) -> bool {
    let u = c as u32;
    ||| 0x09 <= u <= 0x0D
    ||| u == 0x20
    ||| u == 0x85
    ||| u == 0xA0
    ||| u == 0x1680
    ||| 0x2000 <= u <= 0x200A
    ||| u == 0x2028
    ||| u == 0x2029
    ||| u == 0x202F
    ||| u == 0x205F
    ||| u == 0x3000
}

/// The characters that Unicode gives the `White_Space` property, one by
/// one: tab, line feed, vertical tab, form feed, carriage return, space,
/// next line, no-break space, ogham space mark, the spaces from en quad to
/// hair space, line and paragraph separator, narrow no-break space, medium
/// mathematical space and ideographic space.
pub open spec fn unicode_white_space(c: char) -> bool {
    ||| c == '\t'
    ||| c == '\n'
    ||| c == '\u{0B}'
    ||| c == '\u{0C}'
    ||| c == '\r'
    ||| c == ' '
    ||| c == '\u{85}'
    ||| c == '\u{A0}'
    ||| c == '\u{1680}'
    ||| ('\u{2000}' <= c && c <= '\u{200A}')
    ||| c == '\u{2028}'
    ||| c == '\u{2029}'
    ||| c == '\u{202F}'
    ||| c == '\u{205F}'
    ||| c == '\u{3000}'
}

/// What counts as whitespace here is exactly Unicode's `White_Space`.
pub proof fn lemma_whitespace_is_unicode(c: char)
    ensures
        is_whitespace_char(c) == unicode_white_space(c),
{
}

pub fn is_whitespace(c: char) -> (b: bool)
    ensures
        b == is_whitespace_char(c),
{
    let u = c as u32;
    (0x09 <= u && u <= 0x0D) || u == 0x20 || u == 0x85 || u == 0xA0 || u == 0x1680 || (0x2000 <= u
        && u <= 0x200A) || u == 0x2028 || u == 0x2029 || u == 0x202F || u == 0x205F || u == 0x3000
}

pub open spec fn is_digit_char(c: char) -> bool {
    '0' <= c <= '9'
}

pub fn is_digit(c: char) -> (b: bool)
    ensures
        b == is_digit_char(c),
{
    '0' <= c && c <= '9'
}

/// Whether two character vectors hold the same characters.
pub fn same_chars(a: &Vec<char>, b: &Vec<char>) -> (r: bool)
    ensures
        r == (a@ == b@),
{
    if a.len() != b.len() {
        return false;
    }
    let mut i: usize = 0;
    while i < a.len()
        invariant
            a@.len() == b@.len(),
            i <= a@.len(),
            forall|k: int| 0 <= k < i ==> a@[k] == b@[k],
        decreases a@.len() - i,
    {
        if a[i] != b[i] {
            return false;
        }
        i += 1;
    }
    assert(a@ =~= b@);
    true
}

/// The string `a`, then `b`, then `c`.
pub fn concat3(a: &str, b: &str, c: &str) -> (s: String)
    ensures
        s@ == a@ + b@ + c@,
{
    let mut s = a.to_owned();
    s.append(b);
    s.append(c);
    s
}

/// The string `a`, then `c`, then `b`.
pub fn around_char(a: &str, c: char, b: &str) -> (s: String)
    ensures
        s@ == a@.push(c) + b@,
{
    let mut s = a.to_owned();
    push_char(&mut s, c);
    s.append(b);
    s
}

/// The first index at or after `j` that holds `c`, or `cs.len()`.
pub open spec fn scan_to(cs: Seq<char>, j: int, c: char) -> int
    decreases cs.len() - j,
{
    if j >= cs.len() {
        cs.len() as int
    } else if cs[j] == c {
        j
    } else {
        scan_to(cs, j + 1, c)
    }
}

pub proof fn lemma_scan_to_bounds(cs: Seq<char>, j: int, c: char)
    requires
        0 <= j,
    ensures
        j <= cs.len() ==> j <= scan_to(cs, j, c) <= cs.len(),
        j > cs.len() ==> scan_to(cs, j, c) == cs.len(),
    decreases cs.len() - j,
{
    if j < cs.len() && cs[j] != c {
        lemma_scan_to_bounds(cs, j + 1, c);
    }
}

/// Whether `cs[lo..hi]` holds `c`.
pub fn contains_between(cs: &Vec<char>, lo: usize, hi: usize, c: char) -> (b: bool)
    requires
        lo <= hi <= cs@.len(),
    ensures
        b == cs@.subrange(lo as int, hi as int).contains(c),
{
    let mut i = lo;
    while i < hi
        invariant
            lo <= i <= hi <= cs@.len(),
            forall|j: int| lo <= j < i ==> cs@[j] != c,
        decreases hi - i,
    {
        if cs[i] == c {
            assert(cs@.subrange(lo as int, hi as int)[i - lo] == c);
            return true;
        }
        i += 1;
    }
    assert forall|j: int| 0 <= j < hi - lo implies cs@.subrange(lo as int, hi as int)[j] != c by {
        assert(cs@[lo + j] != c);
    }
    false
}

/// The decimal digit for `d` (`0 <= d < 10`).
pub open spec fn digit_char(d: int) -> char {
    seq!['0', '1', '2', '3', '4', '5', '6', '7', '8', '9'][d]
}

/// The decimal representation of `n`.
pub open spec fn decimal(n: nat) -> Seq<char>
    decreases n,
{
    if n < 10 {
        seq![digit_char(n as int)]
    } else {
        decimal(n / 10).push(digit_char((n % 10) as int))
    }
}

fn digit(d: usize) -> (c: char)
    requires
        d < 10,
    ensures
        c == digit_char(d as int),
{
    match d {
        0 => '0',
        1 => '1',
        2 => '2',
        3 => '3',
        4 => '4',
        5 => '5',
        6 => '6',
        7 => '7',
        8 => '8',
        _ => '9',
    }
}

/// Appends the decimal representation of `n`.
pub fn push_decimal(s: &mut String, n: usize)
    ensures
        final(s)@ == old(s)@ + decimal(n as nat),
    decreases n,
{
    if n >= 10 {
        push_decimal(s, n / 10);
    }
    push_char(s, digit(n % 10));
    assert(final(s)@ =~= old(s)@ + decimal(n as nat));
}

/// The first index at or after `j` that holds `c`, or `cs.len()`.
pub fn scan_forward(cs: &Vec<char>, j: usize, c: char) -> (e: usize)
    requires
        j <= cs@.len(),
    ensures
        e == scan_to(cs@, j as int, c),
        j <= e <= cs@.len(),
{
    let mut i = j;
    while i < cs.len() && cs[i] != c
        invariant
            j <= i <= cs@.len(),
            scan_to(cs@, i as int, c) == scan_to(cs@, j as int, c),
        decreases cs@.len() - i,
    {
        i += 1;
    }
    i
}

/// A vector holding `cs[lo..hi]`.
pub fn sub_chars(cs: &Vec<char>, lo: usize, hi: usize) -> (v: Vec<char>)
    requires
        lo <= hi <= cs@.len(),
    ensures
        v@ == cs@.subrange(lo as int, hi as int),
{
    let mut v: Vec<char> = Vec::new();
    let mut i = lo;
    while i < hi
        invariant
            lo <= i <= hi <= cs@.len(),
            v@ == cs@.subrange(lo as int, i as int),
        decreases hi - i,
    {
        v.push(cs[i]);
        i += 1;
    }
    v
}

/// `char::to_ascii_uppercase`: a lowercase ASCII letter becomes uppercase,
/// any other character stays as it is.
pub open spec fn ascii_upper_char(c: char) -> char {
    if 'a' <= c <= 'z' {
        ((c as int) - 32) as char
    } else {
        c
    }
}

pub fn ascii_upper(c: char) -> (u: char)
    ensures
        u == ascii_upper_char(c),
{
    if 'a' <= c && c <= 'z' {
        ((c as u32 - 32) as u8) as char
    } else {
        c
    }
}

/// The end of the run of non-whitespace characters that goes on at `j`.
pub open spec fn word_end(s: Seq<char>, j: int) -> int
    decreases s.len() - j,
{
    if j >= s.len() || is_whitespace_char(s[j]) {
        j
    } else {
        word_end(s, j + 1)
    }
}

pub proof fn lemma_word_end_bounds(s: Seq<char>, j: int)
    requires
        0 <= j <= s.len(),
    ensures
        j <= word_end(s, j) <= s.len(),
    decreases s.len() - j,
{
    if j < s.len() && !is_whitespace_char(s[j]) {
        lemma_word_end_bounds(s, j + 1);
    }
}

/// The whitespace-separated fields of `s` from index `j` on
/// (`str::split_whitespace`).
pub open spec fn fields_from(s: Seq<char>, j: int) -> Seq<Seq<char>>
    decreases s.len() - j,
    when 0 <= j
{
    if j >= s.len() {
        Seq::empty()
    } else if is_whitespace_char(s[j]) {
        fields_from(s, j + 1)
    } else {
        proof {
            lemma_word_end_bounds(s, j + 1);
        }
        let e = word_end(s, j + 1);
        seq![s.subrange(j, e)] + fields_from(s, e)
    }
}

} // verus!
