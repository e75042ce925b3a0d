//! Text as sequences of characters: trimming, splitting, integers in text and
//! the messages that the errors carry.

use vstd::prelude::*;
use vstd::string::*;
use vstd::utf8::{decode_utf8, valid_utf8};

verus! {

// --- std functions that are trusted ------------------------------------------

/// `String::push` appends one character.
pub assume_specification[ String::push ](s: &mut String, c: char)
    ensures
        final(s)@ == old(s)@.push(c),
;

/// `String::from` copies a string slice.
pub assume_specification<'a>[ <String as From<&'a str>>::from ](s: &str) -> (r: String)
    ensures
        r@ == s@,
;

/// What `String::from_utf8_lossy` makes of a byte sequence.
pub uninterp spec fn lossy_text(bytes: Seq<u8>) -> Seq<char>;

/// Calls `String::from_utf8_lossy`, which decodes well-formed UTF-8 as such and
/// puts replacement characters for what is malformed. Where they go is named,
/// not described: see [`lossy_text`].
#[verifier::external_body]
pub(crate) fn utf8_lossy(bytes: &[u8]) -> (r: String)
    ensures
        r@ == lossy_text(bytes@),
        valid_utf8(bytes@) ==> r@ == decode_utf8(bytes@),
{
    String::from_utf8_lossy(bytes).into_owned()
}

/// What the `{:?}` format makes of a list of strings.
pub uninterp spec fn debug_text(names: Seq<Seq<char>>) -> Seq<char>;

/// Formats a list of strings with std's `Debug`, quotes, escapes and all: see
/// [`debug_text`].
#[verifier::external_body]
pub(crate) fn debug_names(names: &Vec<String>) -> (r: String)
    ensures
        r@ == debug_text(views(names@)),
{
    format!("{names:?}")
}

// --- views --------------------------------------------------------------------

/// The texts of a list of strings.
pub open spec fn views(strings: Seq<String>) -> Seq<Seq<char>> {
    strings.map_values(|s: String| s@)
}

/// The text of an optional string.
pub open spec fn opt_view(s: Option<String>) -> Option<Seq<char>> {
    match s {
        Some(t) => Some(t@),
        None => None,
    }
}

/// The text of an optional string slice.
pub open spec fn opt_str_view(s: Option<&str>) -> Option<Seq<char>> {
    match s {
        Some(t) => Some(t@),
        None => None,
    }
}

/// Copies an optional string.
pub(crate) fn clone_opt(s: &Option<String>) -> (r: Option<String>)
    ensures
        r == *s,
{
    match s {
        Some(t) => Some(t.clone()),
        None => None,
    }
}

/// Borrows the text of an optional string.
pub(crate) fn opt_as_str(s: &Option<String>) -> (r: Option<&str>)
    ensures
        opt_str_view(r) == opt_view(*s),
{
    match s {
        Some(t) => Some(t.as_str()),
        None => None,
    }
}

// --- characters and strings ----------------------------------------------------

/// The characters of `s`.
pub(crate) fn to_chars(s: &str) -> (r: Vec<char>)
    ensures
        r@ == s@,
{
    let mut out: Vec<char> = Vec::new();
    for c in it: s.chars()
        invariant
            it.seq() == s@,
            out@ == s@.take(it.index() as int),
    {
        out.push(c);
    }
    out
}

/// The string of the characters `chars`.
pub(crate) fn from_chars(chars: &[char]) -> (r: String)
    ensures
        r@ == chars@,
{
    let mut out = String::new();
    let mut i: usize = 0;
    while i < chars.len()
        invariant
            i <= chars@.len(),
            out@ == chars@.take(i as int),
        decreases chars@.len() - i,
    {
        out.push(chars[i]);
        i += 1;
        assert(chars@.take(i as int) =~= chars@.take(i - 1).push(chars@[i - 1]));
    }
    assert(chars@.take(i as int) =~= chars@);
    out
}

/// Whether two texts are the same.
pub(crate) fn same_text(a: &str, b: &str) -> (r: bool)
    ensures
        r == (a@ == b@),
{
    a.to_owned() == b.to_owned()
}

/// `a` followed by `b`.
pub(crate) fn concat(a: &str, b: &str) -> (r: String)
    ensures
        r@ == a@ + b@,
{
    let mut s = a.to_owned();
    s.append(b);
    s
}

// --- white space ----------------------------------------------------------------

/// The Unicode property `White_Space`.
pub open spec fn white_space(c: char) -> bool {
    let u = c as u32;
    ||| 0x09 <= u <= 0x0d
    ||| u == 0x20
    ||| u == 0x85
    ||| u == 0xa0
    ||| u == 0x1680
    ||| 0x2000 <= u <= 0x200a
    ||| u == 0x2028
    ||| u == 0x2029
    ||| u == 0x202f
    ||| u == 0x205f
    ||| u == 0x3000
}

/// Whether `c` is white space.
pub fn is_white_space(c: char) -> (r: bool)
    ensures
        r == white_space(c),
{
    let u: u32 = c as u32;
    (0x09 <= u && u <= 0x0d) || u == 0x20 || u == 0x85 || u == 0xa0 || u == 0x1680 || (0x2000 <= u
        && u <= 0x200a) || u == 0x2028 || u == 0x2029 || u == 0x202f || u == 0x205f || u == 0x3000
}

/// `s` without its leading white space.
pub open spec fn trimmed_start(s: Seq<char>) -> Seq<char>
    decreases s.len(),
{
    if s.len() > 0 && white_space(s[0]) {
        trimmed_start(s.drop_first())
    } else {
        s
    }
}

/// `s` without its trailing white space.
pub open spec fn trimmed_end(s: Seq<char>) -> Seq<char>
    decreases s.len(),
{
    if s.len() > 0 && white_space(s.last()) {
        trimmed_end(s.drop_last())
    } else {
        s
    }
}

/// `s` without white space at either end.
pub open spec fn trimmed(s: Seq<char>) -> Seq<char> {
    trimmed_end(trimmed_start(s))
}

proof fn lemma_trimmed_start(s: Seq<char>, lo: int)
    requires
        0 <= lo <= s.len(),
        forall|i: int| 0 <= i < lo ==> white_space(#[trigger] s[i]),
        lo < s.len() ==> !white_space(s[lo]),
    ensures
        trimmed_start(s) == s.skip(lo),
    decreases s.len(),
{
    if lo > 0 {
        assert(white_space(s[0]));
        let t = s.drop_first();
        assert forall|i: int| 0 <= i < lo - 1 implies white_space(#[trigger] t[i]) by {
            assert(t[i] == s[i + 1]);
        }
        lemma_trimmed_start(t, lo - 1);
        assert(t.skip(lo - 1) =~= s.skip(lo));
    } else {
        assert(s.skip(0) =~= s);
    }
}

proof fn lemma_trimmed_end(s: Seq<char>, hi: int)
    requires
        0 <= hi <= s.len(),
        forall|i: int| hi <= i < s.len() ==> white_space(#[trigger] s[i]),
        hi > 0 ==> !white_space(s[hi - 1]),
    ensures
        trimmed_end(s) == s.take(hi),
    decreases s.len(),
{
    if hi < s.len() {
        assert(white_space(s.last()));
        let t = s.drop_last();
        lemma_trimmed_end(t, hi);
        assert(t.take(hi) =~= s.take(hi));
    } else {
        assert(s.take(hi) =~= s);
    }
}

/// The characters `chars` without white space at either end.
pub(crate) fn trim_chars(chars: &[char]) -> (r: Vec<char>)
    ensures
        r@ == trimmed(chars@),
{
    let n: usize = chars.len();
    let mut lo: usize = 0;
    while lo < n && is_white_space(chars[lo])
        invariant
            n == chars@.len(),
            lo <= n,
            forall|i: int| 0 <= i < lo ==> white_space(#[trigger] chars@[i]),
        decreases n - lo,
    {
        lo += 1;
    }
    let mut hi: usize = n;
    while hi > lo && is_white_space(chars[hi - 1])
        invariant
            n == chars@.len(),
            lo <= hi <= n,
            forall|i: int| hi <= i < n ==> white_space(#[trigger] chars@[i]),
        decreases hi - lo,
    {
        hi -= 1;
    }
    proof {
        lemma_trimmed_start(chars@, lo as int);
        let t = chars@.skip(lo as int);
        assert forall|i: int| hi - lo <= i < t.len() implies white_space(#[trigger] t[i]) by {
            assert(t[i] == chars@[i + lo]);
        }
        lemma_trimmed_end(t, hi - lo);
        assert(t.take(hi - lo) =~= chars@.subrange(lo as int, hi as int));
    }
    let mut out: Vec<char> = Vec::new();
    let mut i: usize = lo;
    while i < hi
        invariant
            n == chars@.len(),
            lo <= i <= hi <= n,
            out@ == chars@.subrange(lo as int, i as int),
        decreases hi - i,
    {
        out.push(chars[i]);
        i += 1;
        assert(chars@.subrange(lo as int, i as int) =~= chars@.subrange(lo as int, i - 1).push(
            chars@[i - 1],
        ));
    }
    out
}

/// `s` without white space at either end.
pub fn trim(s: &str) -> (r: String)
    ensures
        r@ == trimmed(s@),
{
    let chars = to_chars(s);
    let kept = trim_chars(chars.as_slice());
    from_chars(kept.as_slice())
}

/// Trimming leaves no white space at either end, and has nothing left to do the
/// second time.
pub proof fn law_trimmed(s: Seq<char>)
    ensures
        trimmed(s).len() > 0 ==> !white_space(trimmed(s)[0]) && !white_space(trimmed(s).last()),
        trimmed(trimmed(s)) == trimmed(s),
{
    lemma_trimmed_start_head(s);
    lemma_trimmed_end_last(trimmed_start(s));
    let t = trimmed(s);
    if t.len() > 0 {
        assert(trimmed_start(t) == t);
        assert(trimmed_end(t) == t);
    }
}

proof fn lemma_trimmed_start_head(s: Seq<char>)
    ensures
        trimmed_start(s).len() > 0 ==> !white_space(trimmed_start(s)[0]),
    decreases s.len(),
{
    if s.len() > 0 && white_space(s[0]) {
        lemma_trimmed_start_head(s.drop_first());
    }
}

proof fn lemma_trimmed_end_last(s: Seq<char>)
    ensures
        trimmed_end(s).len() > 0 ==> !white_space(trimmed_end(s).last()),
        trimmed_end(s).len() > 0 ==> trimmed_end(s)[0] == s[0],
    decreases s.len(),
{
    if s.len() > 0 && white_space(s.last()) {
        lemma_trimmed_end_last(s.drop_last());
    }
}

// --- integers in text -------------------------------------------------------------

/// The value of `c` as a digit below `radix`, in either case.
pub open spec fn digit_value(c: char, radix: nat) -> Option<nat> {
    let u = c as u32;
    let d: nat = if 0x30 <= u <= 0x39 {
        (u - 0x30) as nat
    } else if 0x41 <= u <= 0x5a {
        (u - 0x41 + 10) as nat
    } else if 0x61 <= u <= 0x7a {
        (u - 0x61 + 10) as nat
    } else {
        radix
    };
    if d < radix {
        Some(d)
    } else {
        None
    }
}

/// The number that `s` writes in base `radix`, or `None` when a character is no
/// digit. The empty text writes zero.
pub open spec fn digits_value(s: Seq<char>, radix: nat) -> Option<nat>
    decreases s.len(),
{
    if s.len() == 0 {
        Some(0)
    } else {
        match (digits_value(s.drop_last(), radix), digit_value(s.last(), radix)) {
            (Some(v), Some(d)) => Some(v * radix + d),
            _ => None,
        }
    }
}

/// `s` without one leading `sign`.
pub open spec fn without_sign(s: Seq<char>, sign: char) -> Seq<char> {
    if s.len() > 0 && s[0] == sign {
        s.skip(1)
    } else {
        s
    }
}

/// The unsigned integer at most `max` that `s` writes in base `radix`: an
/// optional `+`, then at least one digit and nothing else.
pub open spec fn unsigned_value(s: Seq<char>, radix: nat, max: nat) -> Option<nat> {
    let digits = without_sign(s, '+');
    match digits_value(digits, radix) {
        Some(v) => if digits.len() > 0 && v <= max {
            Some(v)
        } else {
            None
        },
        None => None,
    }
}

/// The 32-bit signed integer that `s` writes in decimal: an optional `+` or `-`,
/// then at least one digit and nothing else.
pub open spec fn signed_value(s: Seq<char>) -> Option<int> {
    if s.len() > 0 && s[0] == '-' {
        match digits_value(s.skip(1), 10) {
            Some(v) => if s.len() > 1 && v <= 0x8000_0000 {
                Some(-(v as int))
            } else {
                None
            },
            None => None,
        }
    } else {
        match unsigned_value(s, 10, 0x7fff_ffff) {
            Some(v) => Some(v as int),
            None => None,
        }
    }
}

/// The value of `c` as a digit: see [`digit_value`].
pub(crate) fn digit(c: char, radix: u32) -> (r: Option<u32>)
    requires
        radix <= 36,
    ensures
        r is Some == digit_value(c, radix as nat) is Some,
        r matches Some(d) ==> digit_value(c, radix as nat) == Some(d as nat) && d < radix,
{
    let u: u32 = c as u32;
    let d: u32 = if 0x30 <= u && u <= 0x39 {
        u - 0x30
    } else if 0x41 <= u && u <= 0x5a {
        u - 0x41 + 10
    } else if 0x61 <= u && u <= 0x7a {
        u - 0x61 + 10
    } else {
        radix
    };
    if d < radix {
        Some(d)
    } else {
        None
    }
}

/// Reads the digits `chars[from..]` as a number at most `max`.
fn read_digits(chars: &[char], from: usize, radix: u32, max: u64) -> (r: Option<u64>)
    requires
        from <= chars@.len(),
        2 <= radix <= 36,
    ensures
        r is Some == (from < chars@.len() && digits_value(
            chars@.skip(from as int),
            radix as nat,
        ) is Some && digits_value(chars@.skip(from as int), radix as nat)->0 <= max),
        r matches Some(v) ==> digits_value(chars@.skip(from as int), radix as nat) == Some(
            v as nat,
        ),
{
    let ghost s = chars@.skip(from as int);
    let n: usize = chars.len();
    let mut acc: u64 = 0;
    let mut over: bool = false;
    let mut i: usize = from;
    assert(s.take(0) =~= Seq::<char>::empty());
    while i < n
        invariant
            from <= i <= n,
            n == chars@.len(),
            s == chars@.skip(from as int),
            2 <= radix <= 36,
            digits_value(s.take(i - from), radix as nat) is Some,
            !over ==> digits_value(s.take(i - from), radix as nat) == Some(acc as nat) && acc
                <= max,
            over ==> digits_value(s.take(i - from), radix as nat)->0 > max,
        decreases n - i,
    {
        let ghost before = s.take(i - from);
        let ghost after = s.take(i - from + 1);
        assert(after.drop_last() =~= before);
        assert(after.last() == chars@[i as int]);
        match digit(chars[i], radix) {
            None => {
                proof {
                    assert(digits_value(after, radix as nat) is None);
                    lemma_digits_none(s, i - from + 1, radix as nat);
                }
                return None;
            },
            Some(d) => {
                assert(acc as u128 * radix as u128 <= 0xffff_ffff_ffff_ffff * 36)
                    by (nonlinear_arith)
                    requires
                        acc <= 0xffff_ffff_ffff_ffff,
                        radix <= 36,
                ;
                let wide: u128 = acc as u128 * radix as u128 + d as u128;
                proof {
                    let v = digits_value(before, radix as nat)->0;
                    assert(digits_value(after, radix as nat) == Some(v * radix as nat + d as nat));
                    assert(v * radix as nat >= v) by (nonlinear_arith)
                        requires
                            radix >= 2,
                    ;
                }
                if over || wide > max as u128 {
                    over = true;
                } else {
                    acc = wide as u64;
                }
            },
        }
        i += 1;
    }
    assert(s.take(n - from) =~= s);
    if over || n == from {
        None
    } else {
        Some(acc)
    }
}

proof fn lemma_digits_none(s: Seq<char>, k: int, radix: nat)
    requires
        0 <= k <= s.len(),
        digits_value(s.take(k), radix) is None,
    ensures
        digits_value(s, radix) is None,
    decreases s.len() - k,
{
    if k < s.len() {
        assert(s.take(k + 1).drop_last() =~= s.take(k));
        lemma_digits_none(s, k + 1, radix);
    } else {
        assert(s.take(k) =~= s);
    }
}

/// Parses an unsigned integer at most `max` in base `radix`.
pub(crate) fn parse_unsigned(chars: &[char], radix: u32, max: u64) -> (r: Option<u64>)
    requires
        2 <= radix <= 36,
    ensures
        r is Some == unsigned_value(chars@, radix as nat, max as nat) is Some,
        r matches Some(v) ==> unsigned_value(chars@, radix as nat, max as nat) == Some(v as nat)
            && v <= max,
{
    let from: usize = if chars.len() > 0 && chars[0] == '+' {
        1
    } else {
        0
    };
    assert(chars@.skip(0) =~= chars@);
    read_digits(chars, from, radix, max)
}

/// Parses a `usize` written in decimal.
pub fn parse_usize(s: &str) -> (r: Option<usize>)
    ensures
        r is Some == unsigned_value(s@, 10, usize::MAX as nat) is Some,
        r matches Some(v) ==> unsigned_value(s@, 10, usize::MAX as nat) == Some(v as nat),
{
    let chars = to_chars(s);
    match parse_unsigned(chars.as_slice(), 10, usize::MAX as u64) {
        Some(v) => Some(v as usize),
        None => None,
    }
}

/// Parses an `i32` written in decimal.
pub fn parse_i32(s: &str) -> (r: Option<i32>)
    ensures
        r is Some == signed_value(s@) is Some,
        r matches Some(v) ==> signed_value(s@) == Some(v as int),
{
    let chars = to_chars(s);
    if chars.len() > 0 && chars[0] == '-' {
        match read_digits(chars.as_slice(), 1, 10, 0x8000_0000) {
            Some(v) => Some((-(v as i64)) as i32),
            None => None,
        }
    } else {
        match parse_unsigned(chars.as_slice(), 10, 0x7fff_ffff) {
            Some(v) => Some(v as i32),
            None => None,
        }
    }
}

/// The digit `d` as a character.
pub open spec fn digit_char(d: nat) -> char {
    (0x30 + d) as char
}

/// `n` in decimal, without leading zeros.
pub open spec fn decimal(n: nat) -> Seq<char>
    decreases n,
{
    if n < 10 {
        seq![digit_char(n)]
    } else {
        decimal(n / 10).push(digit_char(n % 10))
    }
}

/// `n` in decimal, with a `-` when negative.
pub open spec fn signed_decimal(n: int) -> Seq<char> {
    if n < 0 {
        seq!['-'] + decimal((-n) as nat)
    } else {
        decimal(n as nat)
    }
}

/// Writes `n` in decimal.
pub fn decimal_u128(n: u128) -> (r: String)
    ensures
        r@ == decimal(n as nat),
    decreases n,
{
    let d: u8 = (n % 10) as u8;
    let c: char = (0x30u8 + d) as char;
    let mut s = if n < 10 {
        String::new()
    } else {
        decimal_u128(n / 10)
    };
    s.push(c);
    assert(s@ =~= decimal(n as nat));
    s
}

/// Writes `n` in decimal.
pub fn decimal_usize(n: usize) -> (r: String)
    ensures
        r@ == decimal(n as nat),
{
    decimal_u128(n as u128)
}

/// Writes `n` in decimal.
pub fn decimal_i64(n: i64) -> (r: String)
    ensures
        r@ == signed_decimal(n as int),
{
    if n < 0 {
        let m: u128 = (-(n as i128)) as u128;
        let mut s = String::new();
        s.push('-');
        let digits = decimal_u128(m);
        s.append(digits.as_str());
        s
    } else {
        decimal_u128(n as u128)
    }
}

// --- splitting and matching --------------------------------------------------------

/// What separates the pieces of a text.
#[derive(Debug, Clone, Copy, PartialEq, Eq, Structural)]
pub enum Separator {
    /// The end of a line.
    Newline,
    /// A comma or white space.
    CommaOrSpace,
}

impl Separator {
    /// Whether `c` separates pieces.
    pub open spec fn splits(self, c: char) -> bool {
        match self {
            Separator::Newline => c == '\n',
            Separator::CommaOrSpace => c == ',' || white_space(c),
        }
    }
}

/// The pieces of `s` between separators; a separator at an end leaves an empty
/// piece there.
pub open spec fn pieces(s: Seq<char>, sep: Separator) -> Seq<Seq<char>>
    decreases s.len(),
{
    if s.len() == 0 {
        seq![Seq::empty()]
    } else {
        let rest = pieces(s.drop_last(), sep);
        if sep.splits(s.last()) {
            rest.push(Seq::empty())
        } else {
            rest.drop_last().push(rest.last().push(s.last()))
        }
    }
}

/// The characters of a list of character lists.
pub open spec fn char_views(lists: Seq<Vec<char>>) -> Seq<Seq<char>> {
    lists.map_values(|v: Vec<char>| v@)
}

/// Splits `chars` into its pieces.
pub(crate) fn split(chars: &[char], sep: Separator) -> (r: Vec<Vec<char>>)
    ensures
        char_views(r@) == pieces(chars@, sep),
{
    let mut done: Vec<Vec<char>> = Vec::new();
    let mut current: Vec<char> = Vec::new();
    let mut i: usize = 0;
    assert(chars@.take(0) =~= Seq::<char>::empty());
    assert(char_views(done@).push(current@) =~= pieces(chars@.take(0), sep));
    while i < chars.len()
        invariant
            i <= chars@.len(),
            char_views(done@).push(current@) == pieces(chars@.take(i as int), sep),
        decreases chars@.len() - i,
    {
        let c: char = chars[i];
        let splits = match sep {
            Separator::Newline => c == '\n',
            Separator::CommaOrSpace => c == ',' || is_white_space(c),
        };
        let ghost before = chars@.take(i as int);
        let ghost after = chars@.take(i + 1);
        let ghost old_done = char_views(done@);
        let ghost old_current = current@;
        assert(after.drop_last() =~= before);
        if splits {
            done.push(current);
            current = Vec::new();
            assert(char_views(done@) =~= old_done.push(old_current));
            assert(char_views(done@).push(current@) =~= pieces(after, sep));
        } else {
            current.push(c);
            assert(old_done.push(old_current).drop_last() =~= old_done);
            assert(char_views(done@).push(current@) =~= pieces(after, sep));
        }
        i += 1;
    }
    assert(chars@.take(i as int) =~= chars@);
    let ghost old_done = char_views(done@);
    let ghost old_current = current@;
    done.push(current);
    assert(char_views(done@) =~= old_done.push(old_current));
    done
}

/// `c` in lower case when it is an ASCII letter.
pub open spec fn lower(c: char) -> char {
    let u = c as u32;
    if 0x41 <= u <= 0x5a {
        (u + 0x20) as char
    } else {
        c
    }
}

/// `s` with its ASCII letters in lower case.
pub open spec fn lowercase(s: Seq<char>) -> Seq<char> {
    s.map_values(|c: char| lower(c))
}

/// The characters of `s` with the ASCII letters in lower case.
pub(crate) fn lower_chars(s: &str) -> (r: Vec<char>)
    ensures
        r@ == lowercase(s@),
{
    let chars = to_chars(s);
    let mut out: Vec<char> = Vec::new();
    let mut i: usize = 0;
    while i < chars.len()
        invariant
            i <= chars@.len(),
            out@ =~= lowercase(chars@.take(i as int)),
        decreases chars@.len() - i,
    {
        let c: char = chars[i];
        let u: u32 = c as u32;
        let l: char = if 0x41 <= u && u <= 0x5a {
            (u as u8 + 0x20) as char
        } else {
            c
        };
        out.push(l);
        i += 1;
    }
    assert(chars@.take(i as int) =~= chars@);
    out
}

/// `needle` occurs in `s`.
pub open spec fn occurs(needle: Seq<char>, s: Seq<char>) -> bool {
    exists|i: int|
        0 <= i <= s.len() - needle.len() && #[trigger] s.subrange(i, i + needle.len()) == needle
}

/// Whether `chars[from..]` starts with `needle`.
pub(crate) fn matches_at(chars: &[char], from: usize, needle: &[char]) -> (r: bool)
    requires
        from <= chars@.len(),
    ensures
        r == (needle@.len() <= chars@.len() - from && chars@.subrange(
            from as int,
            from + needle@.len(),
        ) == needle@),
{
    let n: usize = chars.len();
    if needle.len() > n - from {
        return false;
    }
    let mut k: usize = 0;
    while k < needle.len()
        invariant
            n == chars@.len(),
            k <= needle@.len() <= n - from,
            from <= chars@.len(),
            forall|j: int| 0 <= j < k ==> chars@[from + j] == needle@[j],
        decreases needle@.len() - k,
    {
        if chars[from + k] != needle[k] {
            assert(chars@.subrange(from as int, from + needle@.len())[k as int] != needle@[
                k as int
            ]);
            return false;
        }
        k += 1;
    }
    assert(chars@.subrange(from as int, from + needle@.len()) =~= needle@);
    true
}

/// Whether `needle` occurs in `chars`.
pub(crate) fn contains_chars(chars: &[char], needle: &[char]) -> (r: bool)
    ensures
        r == occurs(needle@, chars@),
{
    if needle.len() > chars.len() {
        return false;
    }
    let last: usize = chars.len() - needle.len();
    let mut i: usize = 0;
    while i <= last
        invariant
            last == chars@.len() - needle@.len(),
            i <= last + 1,
            forall|j: int| 0 <= j < i ==> #[trigger] chars@.subrange(j, j + needle@.len())
                != needle@,
        decreases last + 1 - i,
    {
        if matches_at(chars, i, needle) {
            return true;
        }
        if i == last {
            return false;
        }
        i += 1;
    }
    false
}

// --- lists of integers ---------------------------------------------------------------

/// The integers `list`, each after a comma and a space but the first.
pub open spec fn comma_list(list: Seq<i64>) -> Seq<char>
    decreases list.len(),
{
    if list.len() == 0 {
        Seq::empty()
    } else if list.len() == 1 {
        signed_decimal(list[0] as int)
    } else {
        comma_list(list.drop_last()) + ", "@ + signed_decimal(list.last() as int)
    }
}

/// The integers `list` between brackets.
pub open spec fn bracketed(list: Seq<i64>) -> Seq<char> {
    "["@ + comma_list(list) + "]"@
}

/// Writes a list of integers: see [`bracketed`].
pub fn show_list(list: &[i64]) -> (r: String)
    ensures
        r@ == bracketed(list@),
{
    let mut inner = String::new();
    let n: usize = list.len();
    let mut i: usize = 0;
    assert(list@.take(0) =~= Seq::empty());
    assert(inner@ =~= comma_list(list@.take(0)));
    while i < n
        invariant
            n == list@.len(),
            i <= n,
            inner@ == comma_list(list@.take(i as int)),
        decreases n - i,
    {
        assert(list@.take(i + 1).drop_last() =~= list@.take(i as int));
        if i > 0 {
            inner.append(", ");
        }
        let ghost before = inner@;
        let shown = decimal_i64(list[i]);
        inner.append(shown.as_str());
        proof {
            if i == 0 {
                assert(inner@ =~= signed_decimal(list@.take(1)[0] as int));
            }
        }
        i += 1;
    }
    assert(list@.take(n as int) =~= list@);
    let opened = concat("[", inner.as_str());
    concat(opened.as_str(), "]")
}

// --- laws ----------------------------------------------------------------------------

/// Trimming takes white space from the two ends and nothing else: what is trimmed off
/// is white space, and the rest is all there.
pub proof fn law_trimming_takes_only_space(s: Seq<char>) -> (r: (Seq<char>, Seq<char>))
    ensures
        s == r.0 + trimmed(s) + r.1,
        forall|i: int| 0 <= i < r.0.len() ==> white_space(#[trigger] r.0[i]),
        forall|i: int| 0 <= i < r.1.len() ==> white_space(#[trigger] r.1[i]),
{
    let head = lemma_start_split(s);
    let tail = lemma_end_split(trimmed_start(s));
    assert(s =~= head + trimmed(s) + tail);
    (head, tail)
}

proof fn lemma_start_split(s: Seq<char>) -> (head: Seq<char>)
    ensures
        s == head + trimmed_start(s),
        forall|i: int| 0 <= i < head.len() ==> white_space(#[trigger] head[i]),
    decreases s.len(),
{
    if s.len() > 0 && white_space(s[0]) {
        let rest = lemma_start_split(s.drop_first());
        let head = seq![s[0]] + rest;
        assert(s =~= seq![s[0]] + s.drop_first());
        assert(s =~= head + trimmed_start(s));
        head
    } else {
        assert(s =~= Seq::<char>::empty() + s);
        Seq::empty()
    }
}

proof fn lemma_end_split(s: Seq<char>) -> (tail: Seq<char>)
    ensures
        s == trimmed_end(s) + tail,
        forall|i: int| 0 <= i < tail.len() ==> white_space(#[trigger] tail[i]),
    decreases s.len(),
{
    if s.len() > 0 && white_space(s.last()) {
        let rest = lemma_end_split(s.drop_last());
        let tail = rest.push(s.last());
        assert(s =~= s.drop_last().push(s.last()));
        assert(s =~= trimmed_end(s) + tail);
        tail
    } else {
        assert(s =~= s + Seq::<char>::empty());
        Seq::empty()
    }
}

/// A number that is written is read back, and what is written are digits.
pub proof fn law_written_numbers_are_read_back(n: nat)
    ensures
        decimal(n).len() > 0,
        forall|i: int|
            0 <= i < decimal(n).len() ==> '0' <= #[trigger] decimal(n)[i] && decimal(n)[i] <= '9',
        digits_value(decimal(n), 10) == Some(n),
        forall|max: nat| n <= max ==> #[trigger] unsigned_value(decimal(n), 10, max) == Some(n),
        trimmed(decimal(n)) == decimal(n),
    decreases n,
{
    if n >= 10 {
        law_written_numbers_are_read_back(n / 10);
        let head = decimal(n / 10);
        let whole = decimal(n);
        assert(whole.drop_last() =~= head);
        assert(whole.last() == digit_char(n % 10));
        assert forall|i: int| 0 <= i < whole.len() implies '0' <= #[trigger] whole[i] && whole[i]
            <= '9' by {
            if i < head.len() {
                assert(whole[i] == head[i]);
            }
        }
    } else {
        let whole = decimal(n);
        assert(whole.drop_last() =~= Seq::empty());
        assert(digits_value(Seq::<char>::empty(), 10) == Some(0nat));
    }
    let whole = decimal(n);
    assert('0' <= whole[0] && whole[0] <= '9');
    assert('0' <= whole[whole.len() - 1] && whole[whole.len() - 1] <= '9');
    assert(trimmed_start(whole) == whole);
    assert(trimmed_end(whole) == whole);
}

/// Splitting at separators loses nothing: a text that a line with no separator and one
/// separator are added to has that line for its last piece, and an empty one after it.
pub proof fn law_lines_are_split(s: Seq<char>, line: Seq<char>, c: char, sep: Separator)
    requires
        sep.splits(c),
        forall|i: int| 0 <= i < line.len() ==> !sep.splits(#[trigger] line[i]),
    ensures
        pieces(s + line, sep) == pieces(s, sep).drop_last().push(pieces(s, sep).last() + line),
        pieces((s + line).push(c), sep) == pieces(s, sep).drop_last().push(
            pieces(s, sep).last() + line,
        ).push(Seq::empty()),
    decreases line.len(),
{
    lemma_some_piece(s, sep);
    let before = pieces(s, sep);
    if line.len() == 0 {
        assert(s + line =~= s);
        assert(before.last() + line =~= before.last());
        assert(before.drop_last().push(before.last()) =~= before);
    } else {
        let rest = line.drop_last();
        assert forall|i: int| 0 <= i < rest.len() implies !sep.splits(#[trigger] rest[i]) by {
            assert(rest[i] == line[i]);
        }
        law_lines_are_split(s, rest, c, sep);
        assert((s + line).drop_last() =~= s + rest);
        assert((s + line).last() == line.last());
        assert(!sep.splits(line[line.len() - 1]));
        let q = before.drop_last().push(before.last() + rest);
        assert(q.drop_last() =~= before.drop_last());
        assert((before.last() + rest).push(line.last()) =~= before.last() + line);
    }
    assert((s + line).push(c).drop_last() =~= s + line);
}

proof fn lemma_some_piece(s: Seq<char>, sep: Separator)
    ensures
        pieces(s, sep).len() > 0,
    decreases s.len(),
{
    if s.len() > 0 {
        lemma_some_piece(s.drop_last(), sep);
    }
}

/// A signed number that is written is read back.
pub proof fn law_written_integers_are_read_back(n: i32)
    ensures
        signed_value(signed_decimal(n as int)) == Some(n as int),
{
    let m: nat = if n < 0 {
        (-n) as nat
    } else {
        n as nat
    };
    law_written_numbers_are_read_back(m);
    let digits = decimal(m);
    assert('0' <= digits[0] && digits[0] <= '9');
    if n < 0 {
        assert(signed_decimal(n as int).skip(1) =~= digits);
        assert(signed_decimal(n as int)[0] == '-');
    } else {
        assert(unsigned_value(digits, 10, 0x7fff_ffff) == Some(m));
    }
}

} // verus!
