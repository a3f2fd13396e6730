//! Character-level text handling: Unicode white space, splitting into words,
//! reading unsigned decimal numbers and writing decimal digits.

use vstd::prelude::*;

verus! {

broadcast use vstd::string::group_string_axioms;

/// The Unicode `White_Space` property, which `char::is_whitespace` tests.
pub open spec fn is_white_space(c: char) -> bool {
    let u = c as u32;
    ||| 0x09 <= u <= 0x0D
    ||| u == 0x20
    ||| u == 0x85
    ||| u == 0xA0
    ||| u == 0x1680
    ||| 0x2000 <= u <= 0x200A
    ||| u == 0x2028
    ||| u == 0x2029
    ||| u == 0x202F
    ||| u == 0x205F
    ||| u == 0x3000
}

/// Whether `c` is white space in the sense of Unicode.
pub fn is_whitespace(c: char) -> (r: bool)
    ensures
        r == is_white_space(c),
{
    let u = c as u32;
    (0x09 <= u && u <= 0x0D) || u == 0x20 || u == 0x85 || u == 0xA0 || u == 0x1680 || (0x2000
        <= u && u <= 0x200A) || u == 0x2028 || u == 0x2029 || u == 0x202F || u == 0x205F || u
        == 0x3000
}

/// The characters of `s`, in order.
pub fn chars_of(s: &str) -> (r: Vec<char>)
    ensures
        r@ == s@,
{
    let mut out: Vec<char> = Vec::new();
    for c in it: s.chars()
        invariant
            out@ == it.seq().take(it.index() as int),
    {
        out.push(c);
    }
    out
}


/// Scans the first `n` characters of `s` from left to right and returns the
/// spans `(start, end)` of the words that are complete within them, together
/// with the start of the word still open at position `n`, if any.  A word is a
/// maximal run of characters that are not white space.
pub open spec fn scan_words(s: Seq<char>, n: int) -> (Seq<(int, int)>, Option<int>)
    decreases n,
{
    if n <= 0 {
        (Seq::empty(), None)
    } else {
        let (spans, open) = scan_words(s, n - 1);
        if is_white_space(s[n - 1]) {
            match open {
                Some(b) => (spans.push((b, n - 1)), None),
                None => (spans, None),
            }
        } else {
            match open {
                Some(b) => (spans, Some(b)),
                None => (spans, Some(n - 1)),
            }
        }
    }
}

/// The spans of the words of `s`, in order: what `str::split_whitespace` yields.
pub open spec fn word_spans(s: Seq<char>) -> Seq<(int, int)> {
    let (spans, open) = scan_words(s, s.len() as int);
    match open {
        Some(b) => spans.push((b, s.len() as int)),
        None => spans,
    }
}

/// The words of `s`, in order.
pub open spec fn words(s: Seq<char>) -> Seq<Seq<char>> {
    word_spans(s).map_values(|p: (int, int)| s.subrange(p.0, p.1))
}

/// The spans of a sequence of `usize` pairs, read as integers.
pub open spec fn int_spans(v: Seq<(usize, usize)>) -> Seq<(int, int)> {
    v.map_values(|p: (usize, usize)| (p.0 as int, p.1 as int))
}

proof fn lemma_scan_bounds(s: Seq<char>, n: int)
    requires
        0 <= n <= s.len(),
    ensures
        forall|k: int|
            0 <= k < scan_words(s, n).0.len() ==> 0 <= #[trigger] scan_words(s, n).0[k].0
                < scan_words(s, n).0[k].1 <= n,
        scan_words(s, n).1 matches Some(b) ==> 0 <= b < n,
    decreases n,
{
    if n > 0 {
        lemma_scan_bounds(s, n - 1);
    }
}

proof fn lemma_word_span_bounds(s: Seq<char>)
    ensures
        forall|k: int|
            0 <= k < word_spans(s).len() ==> 0 <= #[trigger] word_spans(s)[k].0 < word_spans(
                s,
            )[k].1 <= s.len(),
{
    lemma_scan_bounds(s, s.len() as int);
}

/// The spans `sp` moved `d` characters to the right.
pub open spec fn shift_spans(sp: Seq<(int, int)>, d: int) -> Seq<(int, int)> {
    sp.map_values(|p: (int, int)| (p.0 + d, p.1 + d))
}

proof fn lemma_scan_prefix(s: Seq<char>, t: Seq<char>, n: int)
    requires
        0 <= n <= s.len(),
        n <= t.len(),
        forall|i: int| 0 <= i < n ==> s[i] == t[i],
    ensures
        scan_words(s, n) == scan_words(t, n),
    decreases n,
{
    if n > 0 {
        lemma_scan_prefix(s, t, n - 1);
    }
}

proof fn lemma_shift_push(sp: Seq<(int, int)>, p: (int, int), d: int)
    ensures
        shift_spans(sp.push(p), d) == shift_spans(sp, d).push((p.0 + d, p.1 + d)),
{
    assert(shift_spans(sp.push(p), d) =~= shift_spans(sp, d).push((p.0 + d, p.1 + d)));
}

proof fn lemma_scan_append(a: Seq<char>, b: Seq<char>, j: int)
    requires
        a.len() > 0,
        is_white_space(a.last()),
        0 <= j <= b.len(),
    ensures
        scan_words(a, a.len() as int).1 is None,
        scan_words(a + b, a.len() + j) == (
            scan_words(a, a.len() as int).0 + shift_spans(scan_words(b, j).0, a.len() as int),
            match scan_words(b, j).1 {
                Some(x) => Some(x + a.len()),
                None => None::<int>,
            },
        ),
    decreases j,
{
    let d = a.len() as int;
    if j == 0 {
        lemma_scan_prefix(a + b, a, d);
        assert(shift_spans(Seq::<(int, int)>::empty(), d) =~= Seq::<(int, int)>::empty());
        assert(scan_words(a, d).0 + Seq::<(int, int)>::empty() =~= scan_words(a, d).0);
    } else {
        lemma_scan_append(a, b, j - 1);
        assert((a + b)[d + j - 1] == b[j - 1]);
        let (sb, ob) = scan_words(b, j - 1);
        let sa = scan_words(a, d).0;
        if is_white_space(b[j - 1]) {
            if let Some(x) = ob {
                lemma_shift_push(sb, (x, j - 1), d);
                assert((sa + shift_spans(sb, d)).push((x + d, d + j - 1)) =~= sa + shift_spans(
                    sb.push((x, j - 1)),
                    d,
                ));
            }
        }
    }
}

proof fn lemma_word_spans_append(a: Seq<char>, b: Seq<char>)
    requires
        a.len() > 0,
        is_white_space(a.last()),
    ensures
        word_spans(a + b) == word_spans(a) + shift_spans(word_spans(b), a.len() as int),
{
    let d = a.len() as int;
    lemma_scan_append(a, b, b.len() as int);
    assert((a + b).len() == d + b.len());
    let (sb, ob) = scan_words(b, b.len() as int);
    let sa = scan_words(a, d).0;
    if let Some(x) = ob {
        lemma_shift_push(sb, (x, b.len() as int), d);
        assert((sa + shift_spans(sb, d)).push((x + d, d + b.len())) =~= sa + shift_spans(
            sb.push((x, b.len() as int)),
            d,
        ));
    }
}

/// The words of two texts joined, the first ending in white space, are the
/// words of the first followed by those of the second.
pub proof fn lemma_words_append(a: Seq<char>, b: Seq<char>)
    requires
        a.len() > 0,
        is_white_space(a.last()),
    ensures
        words(a + b) == words(a) + words(b),
{
    let d = a.len() as int;
    lemma_word_spans_append(a, b);
    lemma_word_span_bounds(a);
    lemma_word_span_bounds(b);
    let wa = word_spans(a);
    let wb = word_spans(b);
    let s = a + b;
    assert forall|k: int| 0 <= k < words(s).len() implies #[trigger] words(s)[k] == (words(a)
        + words(b))[k] by {
        if k < wa.len() {
            let p = wa[k];
            assert(word_spans(s)[k] == p);
            assert(s.subrange(p.0, p.1) =~= a.subrange(p.0, p.1));
        } else {
            let p = wb[k - wa.len()];
            assert(word_spans(s)[k] == (p.0 + d, p.1 + d));
            assert(s.subrange(p.0 + d, p.1 + d) =~= b.subrange(p.0, p.1));
        }
    }
    assert(words(s) =~= words(a) + words(b));
}

/// A white-space character at the end of a text adds no word.
pub proof fn lemma_words_push_white_space(z: Seq<char>, c: char)
    requires
        is_white_space(c),
    ensures
        words(z.push(c)) == words(z),
{
    let n = z.len() as int;
    lemma_scan_prefix(z.push(c), z, n);
    lemma_word_span_bounds(z);
    assert(z.push(c)[n] == c);
    assert(word_spans(z.push(c)) == word_spans(z));
    assert forall|k: int| 0 <= k < words(z).len() implies #[trigger] words(z.push(c))[k]
        == words(z)[k] by {
        let p = word_spans(z)[k];
        assert(z.push(c).subrange(p.0, p.1) =~= z.subrange(p.0, p.1));
    }
    assert(words(z.push(c)) =~= words(z));
}

proof fn lemma_scan_single(w: Seq<char>, n: int)
    requires
        1 <= n <= w.len(),
        forall|i: int| 0 <= i < w.len() ==> !is_white_space(#[trigger] w[i]),
    ensures
        scan_words(w, n) == (Seq::<(int, int)>::empty(), Some(0int)),
    decreases n,
{
    assert(!is_white_space(w[n - 1]));
    if n > 1 {
        lemma_scan_single(w, n - 1);
    } else {
        assert(scan_words(w, 0) == (Seq::<(int, int)>::empty(), None::<int>));
    }
}

/// A non-empty text without white space is a single word.
pub proof fn lemma_words_single(w: Seq<char>)
    requires
        w.len() > 0,
        forall|i: int| 0 <= i < w.len() ==> !is_white_space(#[trigger] w[i]),
    ensures
        words(w) == seq![w],
{
    lemma_scan_single(w, w.len() as int);
    assert(word_spans(w) =~= seq![(0int, w.len() as int)]);
    assert(w.subrange(0, w.len() as int) =~= w);
    assert(words(w) =~= seq![w]);
}

/// The spans of the words of `cs`; every span lies within `cs`.
pub fn split_whitespace_spans(cs: &Vec<char>) -> (r: Vec<(usize, usize)>)
    ensures
        int_spans(r@) == word_spans(cs@),
        forall|k: int| 0 <= k < r@.len() ==> #[trigger] r@[k].0 < r@[k].1 <= cs@.len(),
{
    let mut spans: Vec<(usize, usize)> = Vec::new();
    let mut open: Option<usize> = None;
    let n = cs.len();
    let mut i: usize = 0;
    while i < n
        invariant
            n == cs@.len(),
            0 <= i <= n,
            int_spans(spans@) == scan_words(cs@, i as int).0,
            scan_words(cs@, i as int).1 == (match open {
                Some(b) => Some(b as int),
                None => None::<int>,
            }),
        decreases n - i,
    {
        let c = cs[i];
        if is_whitespace(c) {
            if let Some(b) = open {
                spans.push((b, i));
                open = None;
            }
        } else {
            if open.is_none() {
                open = Some(i);
            }
        }
        i = i + 1;
        assert(int_spans(spans@) == scan_words(cs@, i as int).0);
    }
    if let Some(b) = open {
        spans.push((b, n));
    }
    proof {
        lemma_word_span_bounds(cs@);
        assert(int_spans(spans@) =~= word_spans(cs@));
        assert forall|k: int| 0 <= k < spans@.len() implies #[trigger] spans@[k].0 < spans@[k].1
            <= cs@.len() by {
            assert(int_spans(spans@)[k] == word_spans(cs@)[k]);
        }
    }
    spans
}

/// The words of `s`, in order, each as a string of its own.
pub fn split_whitespace(s: &str) -> (r: Vec<String>)
    ensures
        r@.len() == words(s@).len(),
        forall|k: int| 0 <= k < r@.len() ==> #[trigger] r@[k]@ == words(s@)[k],
{
    let cs = chars_of(s);
    let spans = split_whitespace_spans(&cs);
    let mut out: Vec<String> = Vec::new();
    let mut k: usize = 0;
    while k < spans.len()
        invariant
            cs@ == s@,
            int_spans(spans@) == word_spans(cs@),
            forall|j: int| 0 <= j < spans@.len() ==> #[trigger] spans@[j].0 < spans@[j].1 <= cs@.len(),
            0 <= k <= spans@.len(),
            out@.len() == k,
            forall|j: int| 0 <= j < k ==> #[trigger] out@[j]@ == words(s@)[j],
        decreases spans@.len() - k,
    {
        let (b, e) = spans[k];
        let w = s.substring_char(b, e).to_owned();
        proof {
            assert(int_spans(spans@)[k as int] == word_spans(cs@)[k as int]);
        }
        out.push(w);
        k = k + 1;
    }
    out
}


/// Why a text is not an unsigned 64-bit decimal number.
#[derive(Debug, Clone, Copy, PartialEq, Eq, Structural)]
pub enum IntParseError {
    /// The text is empty.
    Empty,
    /// The text holds a character that is not a decimal digit where one is expected.
    InvalidDigit,
    /// The number does not fit in 64 bits.
    PosOverflow,
}

/// Whether `c` is one of the ASCII digits `0` to `9`.
pub open spec fn is_decimal_digit(c: char) -> bool {
    48 <= (c as u32) <= 57
}

/// The value of the decimal digit `c`.
pub open spec fn digit_value(c: char) -> int {
    (c as u32) - 48
}

/// Reads the digits `d` from left to right onto the running value `acc`, as
/// `u64::from_str` does: a character that is not a digit, or a value that
/// leaves the range of `u64`, stops the reading with an error, whichever
/// comes first.
pub open spec fn read_digits(d: Seq<char>, acc: int) -> Result<int, IntParseError>
    decreases d.len(),
{
    if d.len() == 0 {
        Ok(acc)
    } else if !is_decimal_digit(d[0]) {
        Err(IntParseError::InvalidDigit)
    } else if acc * 10 + digit_value(d[0]) > u64::MAX {
        Err(IntParseError::PosOverflow)
    } else {
        read_digits(d.drop_first(), acc * 10 + digit_value(d[0]))
    }
}

/// What `str::parse::<u64>` gives for the text `s`: an optional leading `+`,
/// then at least one decimal digit and nothing else, and a value that fits.
pub open spec fn spec_parse_u64(s: Seq<char>) -> Result<u64, IntParseError> {
    if s.len() == 0 {
        Err(IntParseError::Empty)
    } else if (s[0] == '+' || s[0] == '-') && s.len() == 1 {
        Err(IntParseError::InvalidDigit)
    } else {
        let d = if s[0] == '+' {
            s.drop_first()
        } else {
            s
        };
        match read_digits(d, 0) {
            Ok(v) => Ok(v as u64),
            Err(e) => Err(e),
        }
    }
}

proof fn lemma_read_digits_bounded(d: Seq<char>, acc: int)
    requires
        0 <= acc <= u64::MAX,
    ensures
        read_digits(d, acc) matches Ok(v) ==> 0 <= v <= u64::MAX,
    decreases d.len(),
{
    if d.len() > 0 && is_decimal_digit(d[0]) && acc * 10 + digit_value(d[0]) <= u64::MAX {
        lemma_read_digits_bounded(d.drop_first(), acc * 10 + digit_value(d[0]));
    }
}

/// Reads `s` as an unsigned 64-bit decimal number.
pub fn parse_u64(s: &str) -> (r: Result<u64, IntParseError>)
    ensures
        r == spec_parse_u64(s@),
{
    let cs = chars_of(s);
    let n = cs.len();
    if n == 0 {
        return Err(IntParseError::Empty);
    }
    let first = cs[0];
    if (first == '+' || first == '-') && n == 1 {
        return Err(IntParseError::InvalidDigit);
    }
    let start: usize = if first == '+' {
        1
    } else {
        0
    };
    let ghost d = if first == '+' {
        cs@.drop_first()
    } else {
        cs@
    };
    proof {
        assert(d =~= cs@.skip(start as int));
    }
    let ghost outcome = match read_digits(d, 0) {
        Ok(v) => Ok(v as u64),
        Err(e) => Err(e),
    };
    assert(spec_parse_u64(s@) == outcome);
    let mut acc: u64 = 0;
    let mut i: usize = start;
    while i < n
        invariant
            n == cs@.len(),
            start <= i <= n,
            cs@ == s@,
            spec_parse_u64(s@) == outcome,
            outcome == (match read_digits(d, 0) {
                Ok(v) => Ok(v as u64),
                Err(e) => Err(e),
            }),
            read_digits(d, 0) == read_digits(cs@.skip(i as int), acc as int),
        decreases n - i,
    {
        let c = cs[i];
        let u = c as u32;
        let ghost rest = cs@.skip(i as int);
        assert(rest[0] == c);
        if !(48 <= u && u <= 57) {
            return Err(IntParseError::InvalidDigit);
        }
        let v: u64 = (u - 48) as u64;
        assert(acc > (u64::MAX - v) / 10 <==> acc * 10 + v > u64::MAX) by (nonlinear_arith)
            requires
                v < 10,
        ;
        if acc > (u64::MAX - v) / 10 {
            return Err(IntParseError::PosOverflow);
        }
        acc = acc * 10 + v;
        i = i + 1;
        assert(rest.drop_first() =~= cs@.skip(i as int));
    }
    proof {
        assert(cs@.skip(n as int) =~= Seq::<char>::empty());
        lemma_read_digits_bounded(d, 0);
    }
    Ok(acc)
}

/// The byte of the ASCII digit with value `d`.
pub open spec fn digit_byte(d: int) -> u8 {
    (48 + d) as u8
}

/// The ASCII decimal digits of `n`, most significant first, without leading zeros.
pub open spec fn decimal(n: nat) -> Seq<u8>
    decreases n,
{
    if n < 10 {
        seq![digit_byte(n as int)]
    } else {
        decimal(n / 10).push(digit_byte((n % 10) as int))
    }
}

/// The decimal text of `i`, with a leading `-` when it is negative.
pub open spec fn signed_decimal(i: int) -> Seq<u8> {
    if i < 0 {
        seq![45u8] + decimal((-i) as nat)
    } else {
        decimal(i as nat)
    }
}

/// Appends the decimal digits of `n` to `out`.
pub fn push_decimal(out: &mut Vec<u8>, n: u64)
    ensures
        final(out)@ == old(out)@ + decimal(n as nat),
    decreases n,
{
    if n >= 10 {
        push_decimal(out, n / 10);
    }
    let d: u8 = (n % 10) as u8;
    out.push(48u8 + d);
    proof {
        if n >= 10 {
            assert(decimal(n as nat) == decimal((n / 10) as nat).push(digit_byte((n % 10) as int)));
        }
        assert(final(out)@ =~= old(out)@ + decimal(n as nat));
    }
}

/// Appends the decimal text of `i` to `out`.
pub fn push_signed_decimal(out: &mut Vec<u8>, i: i64)
    ensures
        final(out)@ == old(out)@ + signed_decimal(i as int),
{
    if i < 0 {
        out.push(45u8);
        let m: u64 = (0i128 - (i as i128)) as u64;
        push_decimal(out, m);
        assert(final(out)@ =~= old(out)@ + signed_decimal(i as int));
    } else {
        push_decimal(out, i as u64);
    }
}

/// The character of the ASCII digit with value `d`.
pub open spec fn digit_char(d: int) -> char {
    (48 + d) as char
}

/// The decimal digits of `n` as characters.
pub open spec fn decimal_text(n: nat) -> Seq<char>
    decreases n,
{
    if n < 10 {
        seq![digit_char(n as int)]
    } else {
        decimal_text(n / 10).push(digit_char((n % 10) as int))
    }
}

fn push_digit_char(out: &mut String, d: u64)
    requires
        d < 10,
    ensures
        final(out)@ == old(out)@.push(digit_char(d as int)),
{
    match d {
        0 => {
            proof { reveal_strlit("0"); }
            out.append("0");
        },
        1 => {
            proof { reveal_strlit("1"); }
            out.append("1");
        },
        2 => {
            proof { reveal_strlit("2"); }
            out.append("2");
        },
        3 => {
            proof { reveal_strlit("3"); }
            out.append("3");
        },
        4 => {
            proof { reveal_strlit("4"); }
            out.append("4");
        },
        5 => {
            proof { reveal_strlit("5"); }
            out.append("5");
        },
        6 => {
            proof { reveal_strlit("6"); }
            out.append("6");
        },
        7 => {
            proof { reveal_strlit("7"); }
            out.append("7");
        },
        8 => {
            proof { reveal_strlit("8"); }
            out.append("8");
        },
        _ => {
            proof { reveal_strlit("9"); }
            out.append("9");
        },
    }
    assert(final(out)@ =~= old(out)@.push(digit_char(d as int)));
}

/// Appends the decimal digits of `n` to the text `out`.
pub fn push_decimal_text(out: &mut String, n: u64)
    ensures
        final(out)@ == old(out)@ + decimal_text(n as nat),
    decreases n,
{
    if n >= 10 {
        push_decimal_text(out, n / 10);
    }
    push_digit_char(out, n % 10);
    assert(final(out)@ =~= old(out)@ + decimal_text(n as nat));
}


/// `p` with every `*` taken out.
pub open spec fn without_stars(p: Seq<char>) -> Seq<char>
    decreases p.len(),
{
    if p.len() == 0 {
        Seq::empty()
    } else if p.last() == '*' {
        without_stars(p.drop_last())
    } else {
        without_stars(p.drop_last()).push(p.last())
    }
}

/// Whether `q` occurs in `s` as a contiguous run of characters.
pub open spec fn has_substring(s: Seq<char>, q: Seq<char>) -> bool {
    exists|i: int| 0 <= i && i + q.len() <= s.len() && #[trigger] s.subrange(i, i + q.len()) == q
}

/// The characters of `p` without any `*`.
pub fn strip_stars(p: &Vec<char>) -> (r: Vec<char>)
    ensures
        r@ == without_stars(p@),
{
    let mut out: Vec<char> = Vec::new();
    let mut i: usize = 0;
    while i < p.len()
        invariant
            0 <= i <= p@.len(),
            out@ == without_stars(p@.take(i as int)),
        decreases p@.len() - i,
    {
        assert(p@.take(i + 1).drop_last() =~= p@.take(i as int));
        if p[i] != '*' {
            out.push(p[i]);
        }
        i = i + 1;
    }
    assert(p@.take(p@.len() as int) =~= p@);
    out
}

/// Whether `c` occurs in `cs`.
pub fn contains_char(cs: &Vec<char>, c: char) -> (r: bool)
    ensures
        r == cs@.contains(c),
{
    let mut i: usize = 0;
    while i < cs.len()
        invariant
            0 <= i <= cs@.len(),
            forall|j: int| 0 <= j < i ==> cs@[j] != c,
        decreases cs@.len() - i,
    {
        if cs[i] == c {
            return true;
        }
        i = i + 1;
    }
    false
}

/// Whether `q` occurs in `s` at position `at`.
fn occurs_at(s: &Vec<char>, q: &Vec<char>, at: usize) -> (r: bool)
    requires
        at + q@.len() <= s@.len(),
    ensures
        r == (s@.subrange(at as int, at + q@.len()) == q@),
{
    let mut j: usize = 0;
    while j < q.len()
        invariant
            at + q@.len() <= s@.len(),
            s@.len() == s.len(),
            0 <= j <= q@.len(),
            forall|k: int| 0 <= k < j ==> s@[at + k] == q@[k],
        decreases q@.len() - j,
    {
        if s[at + j] != q[j] {
            assert(s@.subrange(at as int, at + q@.len())[j as int] != q@[j as int]);
            return false;
        }
        j = j + 1;
    }
    assert(s@.subrange(at as int, at + q@.len()) =~= q@);
    true
}

/// Whether `q` occurs in `s` as a contiguous run of characters.
pub fn contains_substring(s: &Vec<char>, q: &Vec<char>) -> (r: bool)
    ensures
        r == has_substring(s@, q@),
{
    if q.len() > s.len() {
        return false;
    }
    let last = s.len() - q.len();
    let mut i: usize = 0;
    loop
        invariant
            last == s@.len() - q@.len(),
            0 <= i <= last,
            forall|j: int| 0 <= j < i ==> #[trigger] s@.subrange(j, j + q@.len()) != q@,
        decreases last - i,
    {
        if occurs_at(s, q, i) {
            return true;
        }
        if i == last {
            return false;
        }
        i = i + 1;
    }
}

} // verus!
