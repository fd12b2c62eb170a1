//! Plain-text helpers for line-oriented files: lines, whitespace-separated
//! words and unsigned decimal numerals, all on bytes.
use vstd::prelude::*;

verus! {

/// ASCII white space: blank, tab, line feed, vertical tab, form feed and
/// carriage return.
pub open spec fn is_space(b: u8) -> bool {
    b == 0x20 || (0x09 <= b && b <= 0x0d)
}

/// The end of the run of bytes other than white space that starts at `i`.
pub open spec fn word_end(s: Seq<u8>, i: int) -> int
    decreases s.len() - i,
{
    if 0 <= i < s.len() && !is_space(s[i]) {
        word_end(s, i + 1)
    } else {
        i
    }
}

/// A run of word bytes ends at or after its start and within the text, and
/// holds no white space.
pub proof fn lemma_word_end(s: Seq<u8>, i: int)
    requires
        0 <= i <= s.len(),
    ensures
        i <= word_end(s, i) <= s.len(),
        i < s.len() && !is_space(s[i]) ==> i < word_end(s, i),
        forall|k: int| i <= k < word_end(s, i) ==> !is_space(#[trigger] s[k]),
        word_end(s, i) < s.len() ==> is_space(s[word_end(s, i)]),
    decreases s.len() - i,
{
    if i < s.len() && !is_space(s[i]) {
        lemma_word_end(s, i + 1);
    }
}

/// The words of `s` from position `i` on: the maximal runs of bytes other
/// than white space, in order.
pub open spec fn words_from(s: Seq<u8>, i: int) -> Seq<Seq<u8>>
    decreases s.len() - i,
{
    if i < 0 || i >= s.len() {
        Seq::empty()
    } else if is_space(s[i]) {
        words_from(s, i + 1)
    } else {
        let j = word_end(s, i);
        proof {
            lemma_word_end(s, i);
        }
        seq![s.subrange(i, j)] + words_from(s, j)
    }
}

/// The words of a line of text.
pub open spec fn words(s: Seq<u8>) -> Seq<Seq<u8>> {
    words_from(s, 0)
}

/// The contents of a vector of byte strings.
pub open spec fn views(v: Seq<Vec<u8>>) -> Seq<Seq<u8>> {
    Seq::new(v.len(), |i: int| v[i]@)
}

/// Whether `b` is ASCII white space.
pub fn is_space_byte(b: u8) -> (r: bool)
    ensures
        r == is_space(b),
{
    b == 0x20 || (0x09 <= b && b <= 0x0d)
}

/// A copy of the bytes of `s` from `from` up to `to`.
pub fn copy_range(s: &[u8], from: usize, to: usize) -> (out: Vec<u8>)
    requires
        from <= to <= s@.len(),
    ensures
        out@ == s@.subrange(from as int, to as int),
{
    let mut out: Vec<u8> = Vec::new();
    let mut k: usize = from;
    while k < to
        invariant
            from <= k <= to <= s@.len(),
            out@ == s@.subrange(from as int, k as int),
        decreases to - k,
    {
        out.push(s[k]);
        k = k + 1;
    }
    out
}

/// Splits a line into its words.
pub fn split_words(line: &[u8]) -> (out: Vec<Vec<u8>>)
    ensures
        views(out@) == words(line@),
{
    let mut out: Vec<Vec<u8>> = Vec::new();
    let mut i: usize = 0;
    while i < line.len()
        invariant
            i <= line@.len(),
            views(out@) + words_from(line@, i as int) == words(line@),
        decreases line@.len() - i,
    {
        if is_space_byte(line[i]) {
            i = i + 1;
        } else {
            let mut j: usize = i + 1;
            while j < line.len() && !is_space_byte(line[j])
                invariant
                    i < j <= line@.len(),
                    word_end(line@, j as int) == word_end(line@, i as int),
                decreases line@.len() - j,
            {
                j = j + 1;
            }
            let word = copy_range(line, i, j);
            proof {
                let before = views(out@);
                assert(views(out@.push(word)) == before + seq![word@]);
            }
            out.push(word);
            i = j;
        }
    }
    out
}

/// The end of the line that holds position `i`: the next line feed, or the
/// end of the text.
pub open spec fn line_end(s: Seq<u8>, i: int) -> int
    decreases s.len() - i,
{
    if 0 <= i < s.len() && s[i] != 0x0a {
        line_end(s, i + 1)
    } else {
        i
    }
}

/// A line ends at or after its start and within the text.
pub proof fn lemma_line_end(s: Seq<u8>, i: int)
    requires
        0 <= i <= s.len(),
    ensures
        i <= line_end(s, i) <= s.len(),
        forall|k: int| i <= k < line_end(s, i) ==> #[trigger] s[k] != 0x0a,
        line_end(s, i) < s.len() ==> s[line_end(s, i)] == 0x0a,
    decreases s.len() - i,
{
    if i < s.len() && s[i] != 0x0a {
        lemma_line_end(s, i + 1);
    }
}

/// The lines of `s` from position `i` on. Lines are separated by line feeds;
/// a text that ends in a line feed has an empty last line.
pub open spec fn lines_from(s: Seq<u8>, i: int) -> Seq<Seq<u8>>
    decreases s.len() - i,
{
    if i < 0 || i > s.len() {
        Seq::empty()
    } else {
        let j = line_end(s, i);
        proof {
            lemma_line_end(s, i);
        }
        if j >= s.len() {
            seq![s.subrange(i, j)]
        } else {
            seq![s.subrange(i, j)] + lines_from(s, j + 1)
        }
    }
}

/// The lines of a text.
pub open spec fn lines(s: Seq<u8>) -> Seq<Seq<u8>> {
    lines_from(s, 0)
}

/// Splits a text into its lines.
pub fn split_lines(input: &[u8]) -> (out: Vec<Vec<u8>>)
    ensures
        views(out@) == lines(input@),
{
    let mut out: Vec<Vec<u8>> = Vec::new();
    let mut i: usize = 0;
    loop
        invariant_except_break
            i <= input@.len(),
            views(out@) + lines_from(input@, i as int) == lines(input@),
        ensures
            views(out@) == lines(input@),
        decreases input@.len() - i,
    {
        let mut j: usize = i;
        while j < input.len() && input[j] != 0x0a
            invariant
                i <= j <= input@.len(),
                line_end(input@, j as int) == line_end(input@, i as int),
            decreases input@.len() - j,
        {
            j = j + 1;
        }
        let line = copy_range(input, i, j);
        proof {
            let before = views(out@);
            assert(views(out@.push(line)) == before + seq![line@]);
        }
        out.push(line);
        if j >= input.len() {
            break ;
        }
        i = j + 1;
    }
    out
}

/// Whether `b` is a decimal digit.
pub open spec fn is_digit(b: u8) -> bool {
    0x30 <= b && b <= 0x39
}

/// The number that a string of decimal digits writes.
pub open spec fn digits_value(s: Seq<u8>) -> nat
    decreases s.len(),
{
    if s.len() == 0 {
        0
    } else {
        digits_value(s.drop_last()) * 10 + (s.last() - 0x30) as nat
    }
}

/// The digits of an unsigned numeral: the text without its plus sign, if it
/// has one.
pub open spec fn numeral_digits(s: Seq<u8>) -> Seq<u8> {
    if s.len() > 0 && s[0] == 0x2b {
        s.skip(1)
    } else {
        s
    }
}

/// Whether `s` is an unsigned decimal numeral: one or more digits, with or
/// without a plus sign before them.
pub open spec fn is_numeral(s: Seq<u8>) -> bool {
    let d = numeral_digits(s);
    d.len() > 0 && forall|k: int| 0 <= k < d.len() ==> is_digit(#[trigger] d[k])
}

/// The number that an unsigned decimal numeral writes.
pub open spec fn numeral_value(s: Seq<u8>) -> nat {
    digits_value(numeral_digits(s))
}

/// Longer digit strings do not write smaller numbers.
pub proof fn lemma_digits_value_grows(s: Seq<u8>, n: int)
    requires
        0 <= n <= s.len(),
        forall|k: int| 0 <= k < s.len() ==> is_digit(#[trigger] s[k]),
    ensures
        digits_value(s.take(n)) <= digits_value(s),
    decreases s.len() - n,
{
    if n < s.len() {
        lemma_digits_value_grows(s, n + 1);
        assert(s.take(n + 1).drop_last() == s.take(n));
    } else {
        assert(s.take(n) == s);
    }
}

/// Whether a word is an unsigned decimal numeral.
pub fn check_numeral(word: &[u8]) -> (r: bool)
    ensures
        r == is_numeral(word@),
{
    let start: usize = if word.len() > 0 && word[0] == 0x2b {
        1
    } else {
        0
    };
    if start >= word.len() {
        return false;
    }
    let ghost d = numeral_digits(word@);
    let mut k: usize = start;
    while k < word.len()
        invariant
            start <= k <= word@.len(),
            d == numeral_digits(word@),
            d == word@.skip(start as int),
            forall|m: int| 0 <= m < k - start ==> is_digit(#[trigger] d[m]),
        decreases word@.len() - k,
    {
        let b: u8 = word[k];
        if !(0x30 <= b && b <= 0x39) {
            assert(d[k - start] == b);
            return false;
        }
        k = k + 1;
    }
    true
}

/// Reads an unsigned decimal numeral. `None` means that the word is no
/// numeral or that its number does not fit.
pub fn parse_numeral(word: &[u8]) -> (r: Option<usize>)
    ensures
        r == if is_numeral(word@) && numeral_value(word@) <= usize::MAX {
            Some(numeral_value(word@) as usize)
        } else {
            None
        },
{
    if !check_numeral(word) {
        return None;
    }
    let start: usize = if word[0] == 0x2b {
        1
    } else {
        0
    };
    let ghost d = numeral_digits(word@);
    let mut acc: usize = 0;
    let mut k: usize = start;
    assert(d.take(0) == Seq::<u8>::empty());
    while k < word.len()
        invariant
            start <= k <= word@.len(),
            d == numeral_digits(word@),
            d == word@.skip(start as int),
            forall|m: int| 0 <= m < d.len() ==> is_digit(#[trigger] d[m]),
            acc == digits_value(d.take(k - start)),
        decreases word@.len() - k,
    {
        proof {
            assert(d[k - start] == word@[k as int]);
            assert(is_digit(d[k - start]));
            assert(d.take(k - start + 1).drop_last() == d.take(k - start));
            assert(d.take(k - start + 1).last() == d[k - start]);
            lemma_digits_value_grows(d, k - start + 1);
        }
        let digit: usize = (word[k] - 0x30) as usize;
        if acc > (usize::MAX - digit) / 10 {
            return None;
        }
        acc = acc * 10 + digit;
        k = k + 1;
    }
    assert(d.take(k - start) == d);
    Some(acc)
}

/// The end of the run of decimal digits that starts at `i`.
pub open spec fn digits_end(s: Seq<u8>, i: int) -> int
    decreases s.len() - i,
{
    if 0 <= i < s.len() && is_digit(s[i]) {
        digits_end(s, i + 1)
    } else {
        i
    }
}

/// Whether `b` is a plus or a minus sign.
pub open spec fn is_sign(b: u8) -> bool {
    b == 0x2b || b == 0x2d
}

/// Where the digits before the point begin: after the sign, if there is one.
pub open spec fn whole_start(s: Seq<u8>) -> int {
    if s.len() > 0 && is_sign(s[0]) {
        1
    } else {
        0
    }
}

/// Where the mantissa ends: after the digits before the point and, if a
/// point follows them, after the point and the digits behind it.
pub open spec fn mantissa_end(s: Seq<u8>) -> int {
    let b = digits_end(s, whole_start(s));
    if b < s.len() && s[b] == 0x2e {
        digits_end(s, b + 1)
    } else {
        b
    }
}

/// The number of digits in the mantissa.
pub open spec fn mantissa_digits(s: Seq<u8>) -> int {
    let b = digits_end(s, whole_start(s));
    if b < s.len() && s[b] == 0x2e {
        mantissa_end(s) - whole_start(s) - 1
    } else {
        b - whole_start(s)
    }
}

/// Whether the text from `c` on is empty or an exponent: the letter `e` in
/// either case, a sign or none, and one or more digits up to the end.
pub open spec fn is_exponent_or_end(s: Seq<u8>, c: int) -> bool {
    if c == s.len() {
        true
    } else if 0 <= c < s.len() && (s[c] == 0x65 || s[c] == 0x45) {
        let d = if c + 1 < s.len() && is_sign(s[c + 1]) {
            c + 2
        } else {
            c + 1
        };
        d < digits_end(s, d) && digits_end(s, d) == s.len()
    } else {
        false
    }
}

/// Whether `s` writes a number in decimal: a sign or none; digits with or
/// without a point among, before or behind them, at least one digit in all;
/// and an exponent or none.
pub open spec fn is_decimal(s: Seq<u8>) -> bool {
    mantissa_digits(s) >= 1 && is_exponent_or_end(s, mantissa_end(s))
}

/// The end of the run of digits of `word` that starts at `from`.
fn skip_digits(word: &[u8], from: usize) -> (end: usize)
    requires
        from <= word@.len(),
    ensures
        end == digits_end(word@, from as int),
        from <= end <= word@.len(),
{
    let mut k: usize = from;
    while k < word.len() && 0x30 <= word[k] && word[k] <= 0x39
        invariant
            from <= k <= word@.len(),
            digits_end(word@, k as int) == digits_end(word@, from as int),
        decreases word@.len() - k,
    {
        k = k + 1;
    }
    k
}

/// Whether a word writes a number in decimal.
pub fn check_decimal(word: &[u8]) -> (r: bool)
    ensures
        r == is_decimal(word@),
{
    let n = word.len();
    let a: usize = if n > 0 && (word[0] == 0x2b || word[0] == 0x2d) {
        1
    } else {
        0
    };
    let b = skip_digits(word, a);
    let (c, digits): (usize, usize) = if b < n && word[b] == 0x2e {
        let c = skip_digits(word, b + 1);
        (c, c - a - 1)
    } else {
        (b, b - a)
    };
    if digits < 1 {
        return false;
    }
    if c == n {
        return true;
    }
    if !(word[c] == 0x65 || word[c] == 0x45) {
        return false;
    }
    let d: usize = if c + 1 < n && (word[c + 1] == 0x2b || word[c + 1] == 0x2d) {
        c + 2
    } else {
        c + 1
    };
    let e = skip_digits(word, d);
    d < e && e == n
}

} // verus!
