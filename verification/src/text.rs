//! Character-level text handling shared by the parsers and writers.

use vstd::prelude::*;

verus! {

broadcast use vstd::string::group_string_axioms;

/// The Unicode `White_Space` property, which is what `char::is_whitespace` tests.
pub open spec fn is_white(c: char) -> bool {
    let n = c as u32;
    ||| 0x09 <= n <= 0x0D
    ||| n == 0x20
    ||| n == 0x85
    ||| n == 0xA0
    ||| n == 0x1680
    ||| 0x2000 <= n <= 0x200A
    ||| n == 0x2028
    ||| n == 0x2029
    ||| n == 0x202F
    ||| n == 0x205F
    ||| n == 0x3000
}

/// Whether `c` is white space in the sense of Unicode.
pub fn is_whitespace(c: char) -> (res: bool)
    ensures
        res == is_white(c),
{
    let n = c as u32;
    (0x09 <= n && n <= 0x0D) || n == 0x20 || n == 0x85 || n == 0xA0 || n == 0x1680 || (0x2000
        <= n && n <= 0x200A) || n == 0x2028 || n == 0x2029 || n == 0x202F || n == 0x205F || n
        == 0x3000
}

/// The characters of a string slice, in order.
pub fn chars_of(s: &str) -> (res: Vec<char>)
    ensures
        res@ == s@,
{
    let mut out: Vec<char> = Vec::new();
    for c in it: s.chars()
        invariant
            out@ == it.seq().take(it.index() as int),
    {
        out.push(c);
        assert(out@ =~= it.seq().take(it.index() as int + 1));
    }
    assert(out@ =~= s@);
    out
}


/// Drops one carriage return that ends `line`, as a line reader does before a line feed.
pub open spec fn strip_cr(line: Seq<char>) -> Seq<char> {
    if line.len() > 0 && line.last() == '\r' {
        line.drop_last()
    } else {
        line
    }
}

/// The lines of `s` that follow a partial line `cur`: pieces cut at each line feed, a carriage
/// return before the feed dropped, and no final line when the text ends with a feed.
pub open spec fn lines_after(s: Seq<char>, cur: Seq<char>) -> Seq<Seq<char>>
    decreases s.len(),
{
    if s.len() == 0 {
        if cur.len() == 0 {
            seq![]
        } else {
            seq![cur]
        }
    } else if s[0] == '\n' {
        seq![strip_cr(cur)] + lines_after(s.drop_first(), seq![])
    } else {
        lines_after(s.drop_first(), cur.push(s[0]))
    }
}

/// The lines of a text, as `BufRead::lines` yields them.
pub open spec fn lines(s: Seq<char>) -> Seq<Seq<char>> {
    lines_after(s, seq![])
}

/// The words of `s` that follow a partial word `cur`: maximal runs of characters that are not
/// white space.
pub open spec fn words_after(s: Seq<char>, cur: Seq<char>) -> Seq<Seq<char>>
    decreases s.len(),
{
    if s.len() == 0 {
        if cur.len() == 0 {
            seq![]
        } else {
            seq![cur]
        }
    } else if is_white(s[0]) {
        if cur.len() == 0 {
            words_after(s.drop_first(), cur)
        } else {
            seq![cur] + words_after(s.drop_first(), seq![])
        }
    } else {
        words_after(s.drop_first(), cur.push(s[0]))
    }
}

/// The words of a text, as `str::split_whitespace` yields them.
pub open spec fn words(s: Seq<char>) -> Seq<Seq<char>> {
    words_after(s, seq![])
}

/// The pieces of `s` that follow a partial piece `cur`, cut at each `sep`; empty pieces stay.
pub open spec fn pieces_after(s: Seq<char>, cur: Seq<char>, sep: char) -> Seq<Seq<char>>
    decreases s.len(),
{
    if s.len() == 0 {
        seq![cur]
    } else if s[0] == sep {
        seq![cur] + pieces_after(s.drop_first(), seq![], sep)
    } else {
        pieces_after(s.drop_first(), cur.push(s[0]), sep)
    }
}

/// The pieces of a text cut at a separator, as `str::split` with a character yields them.
pub open spec fn pieces(s: Seq<char>, sep: char) -> Seq<Seq<char>> {
    pieces_after(s, seq![], sep)
}

/// `s` without its leading white space.
pub open spec fn trim_start(s: Seq<char>) -> Seq<char>
    decreases s.len(),
{
    if s.len() > 0 && is_white(s[0]) {
        trim_start(s.drop_first())
    } else {
        s
    }
}

/// `s` without its trailing white space.
pub open spec fn trim_end(s: Seq<char>) -> Seq<char>
    decreases s.len(),
{
    if s.len() > 0 && is_white(s.last()) {
        trim_end(s.drop_last())
    } else {
        s
    }
}

/// `s` without white space at either end, as `str::trim` gives it.
pub open spec fn trim(s: Seq<char>) -> Seq<char> {
    trim_end(trim_start(s))
}

/// A vector of characters is seen the same way deep and shallow.
pub proof fn lemma_chars_deep_view(v: Vec<char>)
    ensures
        v.deep_view() == v@,
{
    assert(v.deep_view() =~= v@);
}

proof fn lemma_skip_step<T>(s: Seq<T>, i: int)
    requires
        0 <= i < s.len(),
    ensures
        s.skip(i)[0] == s[i],
        s.skip(i).drop_first() == s.skip(i + 1),
        s.skip(i).len() > 0,
{
    assert(s.skip(i).drop_first() =~= s.skip(i + 1));
}

/// Appends one completed piece to a list of pieces.
fn push_piece(out: &mut Vec<Vec<char>>, piece: Vec<char>)
    ensures
        final(out).deep_view() == old(out).deep_view().push(piece@),
{
    let ghost before = out.deep_view();
    let ghost pv = piece@;
    out.push(piece);
    proof {
        lemma_chars_deep_view(out@.last());
    }
    assert(out.deep_view() =~= before.push(pv));
}

/// Cuts a text into lines.
pub fn split_lines(text: &Vec<char>) -> (res: Vec<Vec<char>>)
    ensures
        res.deep_view() == lines(text@),
{
    let mut out: Vec<Vec<char>> = Vec::new();
    let mut cur: Vec<char> = Vec::new();
    let mut i: usize = 0;
    assert(text@.skip(0) =~= text@);
    while i < text.len()
        invariant
            i <= text.len(),
            lines(text@) == out.deep_view() + lines_after(text@.skip(i as int), cur@),
        decreases text.len() - i,
    {
        proof {
            lemma_skip_step(text@, i as int);
        }
        let c = text[i];
        if c == '\n' {
            let ghost before = out.deep_view();
            if cur.len() > 0 && cur[cur.len() - 1] == '\r' {
                cur.pop();
            }
            let ghost cv = cur@;
            push_piece(&mut out, cur);
            cur = Vec::new();
            assert(before + (seq![cv] + lines_after(text@.skip(i + 1), seq![])) =~= before.push(cv)
                + lines_after(text@.skip(i + 1), seq![]));
        } else {
            cur.push(c);
        }
        i = i + 1;
    }
    if cur.len() > 0 {
        push_piece(&mut out, cur);
    } else {
        assert(out.deep_view() + seq![] =~= out.deep_view());
    }
    out
}


/// Cuts a text into its words.
pub fn split_words(text: &Vec<char>) -> (res: Vec<Vec<char>>)
    ensures
        res.deep_view() == words(text@),
{
    let mut out: Vec<Vec<char>> = Vec::new();
    let mut cur: Vec<char> = Vec::new();
    let mut i: usize = 0;
    assert(text@.skip(0) =~= text@);
    while i < text.len()
        invariant
            i <= text.len(),
            words(text@) == out.deep_view() + words_after(text@.skip(i as int), cur@),
        decreases text.len() - i,
    {
        proof {
            lemma_skip_step(text@, i as int);
        }
        let c = text[i];
        if is_whitespace(c) {
            if cur.len() > 0 {
                let ghost before = out.deep_view();
                let ghost cv = cur@;
                push_piece(&mut out, cur);
                cur = Vec::new();
                assert(before + (seq![cv] + words_after(text@.skip(i + 1), seq![])) =~= before.push(
                    cv,
                ) + words_after(text@.skip(i + 1), seq![]));
            }
        } else {
            cur.push(c);
        }
        i = i + 1;
    }
    if cur.len() > 0 {
        push_piece(&mut out, cur);
    } else {
        assert(out.deep_view() + seq![] =~= out.deep_view());
    }
    out
}

/// Cuts a text at each occurrence of `sep`.
pub fn split_at_char(text: &Vec<char>, sep: char) -> (res: Vec<Vec<char>>)
    ensures
        res.deep_view() == pieces(text@, sep),
{
    let mut out: Vec<Vec<char>> = Vec::new();
    let mut cur: Vec<char> = Vec::new();
    let mut i: usize = 0;
    assert(text@.skip(0) =~= text@);
    while i < text.len()
        invariant
            i <= text.len(),
            pieces(text@, sep) == out.deep_view() + pieces_after(text@.skip(i as int), cur@, sep),
        decreases text.len() - i,
    {
        proof {
            lemma_skip_step(text@, i as int);
        }
        let c = text[i];
        if c == sep {
            let ghost before = out.deep_view();
            let ghost cv = cur@;
            push_piece(&mut out, cur);
            cur = Vec::new();
            assert(before + (seq![cv] + pieces_after(text@.skip(i + 1), seq![], sep)) =~= before.push(
                cv,
            ) + pieces_after(text@.skip(i + 1), seq![], sep));
        } else {
            cur.push(c);
        }
        i = i + 1;
    }
    let ghost before = out.deep_view();
    push_piece(&mut out, cur);
    assert(out.deep_view() =~= before + seq![out.deep_view().last()]);
    out
}

/// The characters of `s` from `start` up to, not including, `end`.
pub fn sub_chars(s: &Vec<char>, start: usize, end: usize) -> (res: Vec<char>)
    requires
        start <= end <= s.len(),
    ensures
        res@ == s@.subrange(start as int, end as int),
{
    let mut out: Vec<char> = Vec::new();
    let mut i = start;
    while i < end
        invariant
            start <= i <= end <= s.len(),
            out@ == s@.subrange(start as int, i as int),
        decreases end - i,
    {
        out.push(s[i]);
        i = i + 1;
        assert(out@ =~= s@.subrange(start as int, i as int));
    }
    out
}

/// `s` without white space at either end.
pub fn trimmed(s: &Vec<char>) -> (res: Vec<char>)
    ensures
        res@ == trim(s@),
{
    let mut i: usize = 0;
    assert(s@.skip(0) =~= s@);
    while i < s.len() && is_whitespace(s[i])
        invariant
            i <= s.len(),
            trim_start(s@) == trim_start(s@.skip(i as int)),
        decreases s.len() - i,
    {
        proof {
            lemma_skip_step(s@, i as int);
        }
        i = i + 1;
    }
    if i < s.len() {
        proof {
            lemma_skip_step(s@, i as int);
        }
    }
    assert(trim_start(s@) == s@.skip(i as int));
    let mut j: usize = s.len();
    assert(s@.skip(i as int) =~= s@.subrange(i as int, j as int));
    while j > i && is_whitespace(s[j - 1])
        invariant
            i <= j <= s.len(),
            trim(s@) == trim_end(s@.subrange(i as int, j as int)),
        decreases j - i,
    {
        assert(s@.subrange(i as int, j as int).drop_last() =~= s@.subrange(i as int, j - 1));
        j = j - 1;
    }
    sub_chars(s, i, j)
}

/// The decimal digit for a value below ten.
pub open spec fn digit_char(d: nat) -> char {
    if d == 0 {
        '0'
    } else if d == 1 {
        '1'
    } else if d == 2 {
        '2'
    } else if d == 3 {
        '3'
    } else if d == 4 {
        '4'
    } else if d == 5 {
        '5'
    } else if d == 6 {
        '6'
    } else if d == 7 {
        '7'
    } else if d == 8 {
        '8'
    } else {
        '9'
    }
}

/// The decimal writing of a number, without sign or leading zeros, as `Display` writes an
/// unsigned integer.
pub open spec fn decimal(n: nat) -> Seq<char>
    decreases n,
{
    if n < 10 {
        seq![digit_char(n)]
    } else {
        decimal(n / 10).push(digit_char(n % 10))
    }
}

fn digit_of(d: usize) -> (c: char)
    requires
        d < 10,
    ensures
        c == digit_char(d as nat),
{
    if d == 0 {
        '0'
    } else if d == 1 {
        '1'
    } else if d == 2 {
        '2'
    } else if d == 3 {
        '3'
    } else if d == 4 {
        '4'
    } else if d == 5 {
        '5'
    } else if d == 6 {
        '6'
    } else if d == 7 {
        '7'
    } else if d == 8 {
        '8'
    } else {
        '9'
    }
}

/// Appends the decimal writing of `n`.
pub fn push_decimal(out: &mut Vec<char>, n: usize)
    ensures
        final(out)@ == old(out)@ + decimal(n as nat),
    decreases n,
{
    if n >= 10 {
        push_decimal(out, n / 10);
    }
    out.push(digit_of(n % 10));
    assert(out@ =~= old(out)@ + decimal(n as nat));
}

/// Appends the characters of a string slice.
pub fn push_str(out: &mut Vec<char>, s: &str)
    ensures
        final(out)@ == old(out)@ + s@,
{
    let ghost start = out@;
    for c in it: s.chars()
        invariant
            out@ == start + it.seq().take(it.index() as int),
    {
        out.push(c);
        assert(out@ =~= start + it.seq().take(it.index() as int + 1));
    }
    assert(out@ =~= start + s@);
}

/// Whether `c` is an ASCII decimal digit.
pub open spec fn is_digit(c: char) -> bool {
    '0' <= c <= '9'
}

/// The value of a run of decimal digits.
pub open spec fn digits_value(s: Seq<char>) -> nat
    decreases s.len(),
{
    if s.len() == 0 {
        0
    } else {
        digits_value(s.drop_last()) * 10 + ((s.last() as u32) - ('0' as u32)) as nat
    }
}

/// The digits of an unsigned number: what follows an optional leading `+`.
pub open spec fn unsigned_digits(s: Seq<char>) -> Seq<char> {
    if s.len() > 0 && s[0] == '+' {
        s.drop_first()
    } else {
        s
    }
}

/// The value that `<usize as FromStr>::from_str` gives to a text, if it accepts it: an optional
/// `+` and at least one decimal digit, of a value that fits.
pub open spec fn usize_value(s: Seq<char>) -> Option<usize> {
    let d = unsigned_digits(s);
    if d.len() > 0 && (forall|k: int| 0 <= k < d.len() ==> is_digit(#[trigger] d[k]))
        && digits_value(d) <= usize::MAX {
        Some(digits_value(d) as usize)
    } else {
        None
    }
}

proof fn lemma_digits_value_grows(d: Seq<char>, k: int)
    requires
        0 <= k <= d.len(),
        forall|m: int| 0 <= m < d.len() ==> is_digit(#[trigger] d[m]),
    ensures
        digits_value(d.take(k)) <= digits_value(d),
    decreases d.len() - k,
{
    if k < d.len() {
        lemma_digits_value_grows(d, k + 1);
        assert(d.take(k + 1).drop_last() =~= d.take(k));
    } else {
        assert(d.take(k) =~= d);
    }
}

/// Reads a decimal unsigned number as `<usize as FromStr>::from_str` does.
pub fn parse_usize(s: &Vec<char>) -> (res: Option<usize>)
    ensures
        res == usize_value(s@),
{
    let mut i: usize = 0;
    if s.len() > 0 && s[0] == '+' {
        i = 1;
    }
    let ghost d = unsigned_digits(s@);
    assert(d =~= s@.skip(i as int));
    if i >= s.len() {
        return None;
    }
    let mut value: usize = 0;
    let start = i;
    while i < s.len()
        invariant
            start <= i <= s.len(),
            d =~= s@.skip(start as int),
            d == unsigned_digits(s@),
            forall|k: int| 0 <= k < i - start ==> is_digit(#[trigger] d[k]),
            value as nat == digits_value(d.take(i - start)),
        decreases s.len() - i,
    {
        let c = s[i];
        if !('0' <= c && c <= '9') {
            assert(d[i - start] == c);
            return None;
        }
        let digit = (c as u32 - '0' as u32) as usize;
        assert(d.take(i - start + 1).drop_last() =~= d.take(i - start));
        assert(d.take(i - start + 1).last() == c);
        match value.checked_mul(10) {
            None => {
                proof {
                    assert(digits_value(d.take(i - start + 1)) > usize::MAX);
                    if forall|k: int| 0 <= k < d.len() ==> is_digit(#[trigger] d[k]) {
                        lemma_digits_value_grows(d, i - start + 1);
                    }
                }
                return None;
            },
            Some(tens) => match tens.checked_add(digit) {
                None => {
                    proof {
                        if forall|k: int| 0 <= k < d.len() ==> is_digit(#[trigger] d[k]) {
                            lemma_digits_value_grows(d, i - start + 1);
                        }
                    }
                    return None;
                },
                Some(next) => {
                    value = next;
                },
            },
        }
        i = i + 1;
    }
    assert(d.take(i - start) =~= d);
    Some(value)
}

proof fn lemma_digit_char(d: nat)
    requires
        d < 10,
    ensures
        is_digit(digit_char(d)),
        (digit_char(d) as u32) - ('0' as u32) == d,
{
    assert(('0' as u32) == 48);
    assert(('1' as u32) == 49);
    assert(('2' as u32) == 50);
    assert(('3' as u32) == 51);
    assert(('4' as u32) == 52);
    assert(('5' as u32) == 53);
    assert(('6' as u32) == 54);
    assert(('7' as u32) == 55);
    assert(('8' as u32) == 56);
    assert(('9' as u32) == 57);
}

proof fn lemma_decimal_digits(n: nat)
    ensures
        decimal(n).len() > 0,
        forall|k: int| 0 <= k < decimal(n).len() ==> is_digit(#[trigger] decimal(n)[k]),
        digits_value(decimal(n)) == n,
    decreases n,
{
    lemma_digit_char(n % 10);
    if n < 10 {
        assert(decimal(n).drop_last() =~= Seq::<char>::empty());
        assert(digits_value(decimal(n)) == digits_value(Seq::<char>::empty()) * 10 + n % 10);
    }
    if n >= 10 {
        lemma_decimal_digits(n / 10);
        let s = decimal(n);
        assert(s.drop_last() =~= decimal(n / 10));
        assert(s.last() == digit_char(n % 10));
        assert((n / 10) * 10 + n % 10 == n) by (nonlinear_arith);
        assert(digits_value(s) == digits_value(decimal(n / 10)) * 10 + n % 10);
        assert forall|k: int| 0 <= k < s.len() implies is_digit(#[trigger] s[k]) by {
            if k < s.len() - 1 {
                assert(s[k] == decimal(n / 10)[k]);
            }
        }
    }
}

/// Reading back a number written in decimal gives the number.
pub proof fn lemma_decimal_round_trip(n: usize)
    ensures
        usize_value(decimal(n as nat)) == Some(n),
{
    lemma_decimal_digits(n as nat);
    assert(unsigned_digits(decimal(n as nat)) == decimal(n as nat));
}

/// Collects characters into a `String` through `FromIterator<char>`; the contract claims that
/// the string holds exactly those characters, in order.
#[verifier::external_body]
pub(crate) fn string_from_chars(chars: &Vec<char>) -> (res: String)
    ensures
        res@ == chars@,
{
    chars.iter().collect()
}


/// The index of the first character at or after `i` that is not a decimal digit.
pub open spec fn digits_end(s: Seq<char>, i: int) -> int
    decreases s.len() - i,
{
    if 0 <= i < s.len() && is_digit(s[i]) {
        digits_end(s, i + 1)
    } else {
        i
    }
}

/// Whether an exponent `e` or `E`, an optional sign and at least one digit make up the text
/// from index `j` to the end.
pub open spec fn exponent_from(s: Seq<char>, j: int) -> bool {
    &&& 0 <= j < s.len()
    &&& (s[j] == 'e' || s[j] == 'E')
    &&& {
        let k = if j + 1 < s.len() && (s[j + 1] == '+' || s[j + 1] == '-') {
            j + 2
        } else {
            j + 1
        };
        k < s.len() && digits_end(s, k) == s.len()
    }
}

/// Whether the text from index `i` to the end is a decimal number: digits, an optional point
/// and more digits, at least one digit in all, and an optional exponent.
pub open spec fn number_from(s: Seq<char>, i: int) -> bool {
    let a = digits_end(s, i);
    let frac_start = if a < s.len() && s[a] == '.' {
        a + 1
    } else {
        a
    };
    let b = if a < s.len() && s[a] == '.' {
        digits_end(s, a + 1)
    } else {
        a
    };
    (a - i) + (b - frac_start) > 0 && (b == s.len() || exponent_from(s, b))
}

/// Whether `c` is the lowercase ASCII letter `letter` in either case.
pub open spec fn same_letter(c: char, letter: char) -> bool {
    c == letter || ('a' <= letter <= 'z' && (c as u32) == (letter as u32) - 32)
}

/// Whether the text from index `i` to the end is `word`, ignoring ASCII case.
pub open spec fn word_from(s: Seq<char>, i: int, word: Seq<char>) -> bool {
    &&& s.len() - i == word.len()
    &&& forall|k: int| 0 <= k < word.len() ==> same_letter(#[trigger] s[i + k], word[k])
}

/// Whether `<f64 as FromStr>::from_str` accepts a text. Its documentation gives the grammar,
/// read with ASCII letters in either case:
/// `Sign? ('inf' | 'infinity' | 'nan' | Number)`, where
/// `Number ::= (Digit+ | Digit+ '.' Digit* | Digit* '.' Digit+) Exp?`,
/// `Exp ::= 'e' Sign? Digit+`, `Sign ::= [+-]` and `Digit ::= [0-9]`.
pub open spec fn float_text_accepted(s: Seq<char>) -> bool {
    let i = if s.len() > 0 && (s[0] == '+' || s[0] == '-') {
        1int
    } else {
        0int
    };
    ||| number_from(s, i)
    ||| word_from(s, i, "inf"@)
    ||| word_from(s, i, "infinity"@)
    ||| word_from(s, i, "nan"@)
}

/// The index of the first character at or after `i` that is not a decimal digit.
fn find_digits_end(s: &Vec<char>, i: usize) -> (res: usize)
    requires
        i <= s.len(),
    ensures
        res as int == digits_end(s@, i as int),
        i <= res <= s.len(),
{
    let mut j = i;
    while j < s.len() && '0' <= s[j] && s[j] <= '9'
        invariant
            i <= j <= s.len(),
            digits_end(s@, i as int) == digits_end(s@, j as int),
        decreases s.len() - j,
    {
        j = j + 1;
    }
    j
}

fn is_exponent_from(s: &Vec<char>, j: usize) -> (res: bool)
    requires
        j <= s.len(),
    ensures
        res == exponent_from(s@, j as int),
{
    if j >= s.len() || !(s[j] == 'e' || s[j] == 'E') {
        return false;
    }
    let k = if j + 1 < s.len() && (s[j + 1] == '+' || s[j + 1] == '-') {
        j + 2
    } else {
        j + 1
    };
    k < s.len() && find_digits_end(s, k) == s.len()
}

fn is_word_from(s: &Vec<char>, i: usize, word: &str) -> (res: bool)
    requires
        i <= s.len(),
    ensures
        res == word_from(s@, i as int, word@),
{
    let w = chars_of(word);
    if s.len() - i != w.len() {
        return false;
    }
    let mut k: usize = 0;
    while k < w.len()
        invariant
            k <= w.len(),
            s.len() - i == w.len(),
            w@ == word@,
            forall|m: int| 0 <= m < k ==> same_letter(#[trigger] s@[i + m], w@[m]),
        decreases w.len() - k,
    {
        let c = s[i + k];
        let l = w[k];
        if !(c == l || ('a' <= l && l <= 'z' && (c as u32) == (l as u32) - 32)) {
            assert(!same_letter(s@[i + k], w@[k as int]));
            return false;
        }
        k = k + 1;
    }
    true
}

/// Whether `<f64 as FromStr>::from_str` accepts a text, decided by the documented grammar.
pub fn is_float_text(s: &Vec<char>) -> (res: bool)
    ensures
        res == float_text_accepted(s@),
{
    let i: usize = if s.len() > 0 && (s[0] == '+' || s[0] == '-') {
        1
    } else {
        0
    };
    let a = find_digits_end(s, i);
    let (frac_start, b) = if a < s.len() && s[a] == '.' {
        (a + 1, find_digits_end(s, a + 1))
    } else {
        (a, a)
    };
    let number = (a - i) + (b - frac_start) > 0 && (b == s.len() || is_exponent_from(s, b));
    number || is_word_from(s, i, "inf") || is_word_from(s, i, "infinity") || is_word_from(
        s,
        i,
        "nan",
    )
}

} // verus!
