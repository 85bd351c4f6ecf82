//! Text helpers: strings as character sequences, decimal numbers, and the
//! whitespace normalisation applied to the source text of a cell.

use vstd::prelude::*;
use vstd::slice::*;
use vstd::string::*;

verus! {

/// Taken on trust of the standard library's `String::push`: the call appends
/// the character `c` to the end of the string and leaves the characters
/// before it as they were.
pub assume_specification[ String::push ](s: &mut String, c: char)
    ensures
        final(s)@ == old(s)@.push(c),
;

/// The characters of `s`, in order.
pub fn to_chars(s: &str) -> (chars: Vec<char>)
    ensures
        chars@ == s@,
{
    let mut chars: Vec<char> = Vec::new();
    for c in it: s.chars()
        invariant
            it.seq() == s@,
            chars@ == it.seq().take(it.index() as int),
    {
        chars.push(c);
        assert(it.seq().take(it.index() + 1) =~= it.seq().take(it.index() as int).push(c));
    }
    assert(chars@ =~= s@);
    chars
}

/// The string made of `chars`, in order.
pub fn string_of(chars: &[char]) -> (s: String)
    ensures
        s@ == chars@,
{
    let mut s = String::new();
    let n: usize = chars.len();
    let mut i: usize = 0;
    while i < n
        invariant
            n == chars@.len(),
            i <= n,
            s@ == chars@.take(i as int),
        decreases n - i,
    {
        s.push(chars[i]);
        i = i + 1;
        assert(chars@.take(i as int) =~= chars@.take(i - 1).push(chars@[i - 1]));
    }
    assert(chars@.take(n as int) =~= chars@);
    s
}

/// Whether `c` is one of the ten decimal digits.
pub open spec fn is_digit(c: char) -> bool {
    '0' <= c && c <= '9'
}

/// The number that the digit `c` stands for.
pub open spec fn digit_value(c: char) -> nat {
    (c as int - '0' as int) as nat
}

/// Whether every character of `s` is a decimal digit.
pub open spec fn all_digits(s: Seq<char>) -> bool {
    forall|i: int| 0 <= i < s.len() ==> is_digit(#[trigger] s[i])
}

/// The number that the digits `s` write in base ten; 0 for no digits.
pub open spec fn decimal(s: Seq<char>) -> nat
    decreases s.len(),
{
    if s.len() == 0 {
        0
    } else {
        decimal(s.drop_last()) * 10 + digit_value(s.last())
    }
}

/// The number that `s` writes, if `s` is one or more digits and the number is
/// at most `limit`.
pub open spec fn magnitude(s: Seq<char>, limit: nat) -> Option<nat> {
    if s.len() > 0 && all_digits(s) && decimal(s) <= limit {
        Some(decimal(s))
    } else {
        None
    }
}

/// Whether `s` begins with the character `sign`.
pub open spec fn has_sign(s: Seq<char>, sign: char) -> bool {
    s.len() > 0 && s[0] == sign
}

/// The unsigned machine word that `s` writes: one or more digits and nothing
/// else, with a value that fits.
pub open spec fn parse_usize_spec(s: Seq<char>) -> Option<usize> {
    match magnitude(s, usize::MAX as nat) {
        Some(n) => Some(n as usize),
        None => None,
    }
}

/// The signed 32-bit number that `s` writes: an optional `+` or `-`, then one
/// or more digits, with a value that fits.
pub open spec fn parse_i32_spec(s: Seq<char>) -> Option<i32> {
    if has_sign(s, '-') {
        match magnitude(s.skip(1), 0x8000_0000) {
            Some(n) => Some((-(n as int)) as i32),
            None => None,
        }
    } else {
        let digits = if has_sign(s, '+') {
            s.skip(1)
        } else {
            s
        };
        match magnitude(digits, 0x7fff_ffff) {
            Some(n) => Some(n as i32),
            None => None,
        }
    }
}

/// A number written with more digits is no smaller than the number written by
/// a prefix of them.
pub proof fn lemma_decimal_prefix(s: Seq<char>, k: int)
    requires
        0 <= k <= s.len(),
    ensures
        decimal(s.take(k)) <= decimal(s),
    decreases s.len() - k,
{
    if k == s.len() {
        assert(s.take(k) =~= s);
    } else {
        lemma_decimal_prefix(s.drop_last(), k);
        assert(s.drop_last().take(k) =~= s.take(k));
    }
}

/// Reads the digits `s[start..]` as a number no larger than `limit`.
pub fn parse_magnitude(s: &[char], start: usize, limit: u64) -> (res: Option<u64>)
    requires
        start <= s@.len(),
    ensures
        match magnitude(s@.skip(start as int), limit as nat) {
            Some(n) => res == Some(n as u64),
            None => res is None,
        },
{
    let n: usize = s.len();
    let ghost digits = s@.skip(start as int);
    if start == n {
        return None;
    }
    let mut acc: u64 = 0;
    let mut i: usize = start;
    while i < n
        invariant
            n == s@.len(),
            start <= i <= n,
            digits == s@.skip(start as int),
            all_digits(digits.take(i - start)),
            acc == decimal(digits.take(i - start)),
            acc <= limit,
        decreases n - i,
    {
        let c: char = s[i];
        assert(digits[i - start] == c);
        if c < '0' || c > '9' {
            return None;
        }
        let d: u32 = c as u32 - '0' as u32;
        let next: u128 = acc as u128 * 10 + d as u128;
        proof {
            let longer = digits.take(i - start + 1);
            assert(longer.drop_last() =~= digits.take(i - start));
            assert(longer.last() == c);
            assert(next == decimal(longer));
            assert forall|j: int| 0 <= j < longer.len() implies is_digit(#[trigger] longer[j]) by {
                if j < i - start {
                    assert(digits.take(i - start)[j] == longer[j]);
                }
            }
            lemma_decimal_prefix(digits, i - start + 1);
        }
        if next > limit as u128 {
            return None;
        }
        acc = next as u64;
        i = i + 1;
    }
    assert(digits.take(i - start) =~= digits);
    Some(acc)
}

/// Reads `s` as an unsigned machine word.
pub fn parse_usize(s: &[char]) -> (res: Option<usize>)
    ensures
        res == parse_usize_spec(s@),
{
    assert(s@.skip(0) =~= s@);
    match parse_magnitude(s, 0, usize::MAX as u64) {
        Some(n) => Some(n as usize),
        None => None,
    }
}

/// Reads `s` as a signed 32-bit number.
pub fn parse_i32(s: &[char]) -> (res: Option<i32>)
    ensures
        res == parse_i32_spec(s@),
{
    assert(s@.skip(0) =~= s@);
    if s.len() > 0 && s[0] == '-' {
        match parse_magnitude(s, 1, 0x8000_0000) {
            Some(n) => Some((-(n as i64)) as i32),
            None => None,
        }
    } else {
        let start: usize = if s.len() > 0 && s[0] == '+' {
            1
        } else {
            0
        };
        match parse_magnitude(s, start, 0x7fff_ffff) {
            Some(n) => Some(n as i32),
            None => None,
        }
    }
}

/// The number of characters of `s` before the first `sep`; the length of `s`
/// where it holds no `sep`.
pub open spec fn first_index(s: Seq<char>, sep: char) -> nat
    decreases s.len(),
{
    if s.len() == 0 || s[0] == sep {
        0
    } else {
        1 + first_index(s.skip(1), sep)
    }
}

/// The pieces of `s` between its occurrences of `sep`, in order. There is
/// always at least one piece, and pieces may be empty.
pub open spec fn split(s: Seq<char>, sep: char) -> Seq<Seq<char>>
    decreases s.len(),
{
    let n = first_index(s, sep);
    if n >= s.len() {
        seq![s]
    } else {
        seq![s.take(n as int)] + split(s.skip(n as int + 1), sep)
    }
}

/// The views of the pieces in `pieces`.
pub open spec fn piece_views(pieces: Seq<Vec<char>>) -> Seq<Seq<char>> {
    pieces.map_values(|piece: Vec<char>| piece@)
}

/// Where a separator stands at index `k` and none stands before it, or `k` is
/// the length of a sequence without separators, `first_index` is `k`.
pub proof fn lemma_first_index(s: Seq<char>, sep: char, k: int)
    requires
        0 <= k <= s.len(),
        forall|j: int| 0 <= j < k ==> s[j] != sep,
        k == s.len() || s[k] == sep,
    ensures
        first_index(s, sep) == k,
    decreases k,
{
    if k > 0 {
        lemma_first_index(s.skip(1), sep, k - 1);
    }
}

/// A split has at least one piece.
pub proof fn lemma_split_nonempty(s: Seq<char>, sep: char)
    ensures
        split(s, sep).len() >= 1,
{
}

/// Splits `s` at every `sep`.
pub fn split_chars(s: &[char], sep: char) -> (pieces: Vec<Vec<char>>)
    ensures
        piece_views(pieces@) == split(s@, sep),
{
    let n: usize = s.len();
    let mut pieces: Vec<Vec<char>> = Vec::new();
    let mut current: Vec<char> = Vec::new();
    let mut start: usize = 0;
    let mut i: usize = 0;
    assert(s@.skip(0) =~= s@);
    assert(piece_views(pieces@) =~= Seq::<Seq<char>>::empty());
    while i < n
        invariant
            n == s@.len(),
            start <= i <= n,
            current@ == s@.subrange(start as int, i as int),
            forall|j: int| start <= j < i ==> s@[j] != sep,
            split(s@, sep) == piece_views(pieces@) + split(s@.skip(start as int), sep),
        decreases n - i,
    {
        let c: char = s[i];
        if c == sep {
            proof {
                let rest = s@.skip(start as int);
                lemma_first_index(rest, sep, i - start);
                assert(rest.take(i - start) =~= current@);
                assert(rest.skip(i - start + 1) =~= s@.skip(i + 1));
                assert(piece_views(pieces@.push(current)) =~= piece_views(pieces@) + seq![
                    current@,
                ]);
            }
            pieces.push(current);
            current = Vec::new();
            start = i + 1;
            assert(current@ =~= s@.subrange(start as int, start as int));
        } else {
            current.push(c);
            assert(current@ =~= s@.subrange(start as int, i + 1));
        }
        i = i + 1;
    }
    proof {
        let rest = s@.skip(start as int);
        lemma_first_index(rest, sep, n - start);
        assert(rest =~= current@);
        assert(piece_views(pieces@.push(current)) =~= piece_views(pieces@) + seq![current@]);
    }
    pieces.push(current);
    pieces
}

/// Whether `c` is white space: a character with the Unicode property
/// `White_Space`.
pub open spec fn is_space(c: char) -> bool {
    let code = c as u32;
    ||| 0x09 <= code <= 0x0d
    ||| code == 0x20
    ||| code == 0x85
    ||| code == 0xa0
    ||| code == 0x1680
    ||| 0x2000 <= code <= 0x200a
    ||| code == 0x2028
    ||| code == 0x2029
    ||| code == 0x202f
    ||| code == 0x205f
    ||| code == 0x3000
}

/// Computes `is_space`.
pub fn is_whitespace(c: char) -> (res: bool)
    ensures
        res == is_space(c),
{
    let code: u32 = c as u32;
    (0x09 <= code && code <= 0x0d) || code == 0x20 || code == 0x85 || code == 0xa0 || code
        == 0x1680 || (0x2000 <= code && code <= 0x200a) || code == 0x2028 || code == 0x2029 || code
        == 0x202f || code == 0x205f || code == 0x3000
}

/// `s` with its white space normalised: the words of `s`, in order, with one
/// blank between two words and no white space at either end.
///
/// Read from the left, white space adds nothing by itself; a character that
/// is no white space is added, after a blank where it begins a word that is
/// not the first.
pub open spec fn squeezed(s: Seq<char>) -> Seq<char>
    decreases s.len(),
{
    if s.len() == 0 {
        Seq::empty()
    } else {
        let front = squeezed(s.drop_last());
        let c = s.last();
        if is_space(c) {
            front
        } else if front.len() > 0 && is_space(s[s.len() - 2]) {
            front.push(' ').push(c)
        } else {
            front.push(c)
        }
    }
}

/// Builds `squeezed(s)`.
pub fn squeeze(s: &[char]) -> (res: Vec<char>)
    ensures
        res@ == squeezed(s@),
{
    let n: usize = s.len();
    let mut res: Vec<char> = Vec::new();
    let mut after_space = false;
    let mut i: usize = 0;
    assert(s@.take(0) =~= Seq::<char>::empty());
    while i < n
        invariant
            n == s@.len(),
            i <= n,
            res@ == squeezed(s@.take(i as int)),
            after_space == (i > 0 && is_space(s@[i - 1])),
        decreases n - i,
    {
        let c: char = s[i];
        proof {
            let prefix = s@.take(i + 1);
            assert(prefix.drop_last() =~= s@.take(i as int));
            assert(prefix.last() == c);
            if i > 0 {
                assert(prefix[prefix.len() - 2] == s@[i - 1]);
            }
        }
        if is_whitespace(c) {
            after_space = true;
        } else {
            if res.len() > 0 && after_space {
                res.push(' ');
            }
            res.push(c);
            after_space = false;
        }
        i = i + 1;
    }
    assert(s@.take(n as int) =~= s@);
    res
}

/// White-space normalisation of strings.
pub trait StringExt {
    /// This string with its white space normalised.
    fn trim_whitespaces(&self) -> String;
}

impl StringExt for String {
    fn trim_whitespaces(&self) -> (res: String)
        ensures
            res@ == squeezed(self@),
    {
        let chars = to_chars(self.as_str());
        let squeezed = squeeze(chars.as_slice());
        string_of(squeezed.as_slice())
    }
}

/// The upper-case form of an ASCII letter; any other character is itself.
pub open spec fn upper_char(c: char) -> char {
    if 'a' <= c && c <= 'z' {
        ((c as u8 - 32) as u8) as char
    } else {
        c
    }
}

/// `s` with every ASCII letter in upper case.
pub open spec fn upper(s: Seq<char>) -> Seq<char> {
    s.map_values(|c: char| upper_char(c))
}

/// Computes `upper_char`.
pub fn to_upper_char(c: char) -> (res: char)
    ensures
        res == upper_char(c),
{
    if 'a' <= c && c <= 'z' {
        (c as u8 - 32) as char
    } else {
        c
    }
}

/// Builds `upper(s)`.
pub fn to_upper(s: &[char]) -> (res: Vec<char>)
    ensures
        res@ == upper(s@),
{
    let n: usize = s.len();
    let mut res: Vec<char> = Vec::new();
    let mut i: usize = 0;
    while i < n
        invariant
            n == s@.len(),
            i <= n,
            res@ == upper(s@.take(i as int)),
        decreases n - i,
    {
        res.push(to_upper_char(s[i]));
        i = i + 1;
        assert(upper(s@.take(i as int)) =~= upper(s@.take(i - 1)).push(upper_char(s@[i - 1])));
    }
    assert(s@.take(n as int) =~= s@);
    res
}

} // verus!
