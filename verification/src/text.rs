// Small pieces of text handling the rest of the crate builds on.
use vstd::prelude::*;

verus! {

/// Appends one character to a string, through `String::push`.
#[verifier::external_body]
pub(crate) fn push_char(text: &mut String, c: char)
    ensures
        final(text)@ == old(text)@.push(c),
{
    text.push(c);
}

/// The character of a decimal digit.
pub open spec fn digit_char(d: int) -> char {
    if d == 0 {
        '0'
    } else if d == 1 {
        '1'
    } else if d == 2 {
        '2'
    } else if d == 3 {
        '3'
    } else if d == 4 {
        '4'
    } else if d == 5 {
        '5'
    } else if d == 6 {
        '6'
    } else if d == 7 {
        '7'
    } else if d == 8 {
        '8'
    } else {
        '9'
    }
}

/// A number written out in decimal, without leading zeros.
pub open spec fn decimal_spec(n: nat) -> Seq<char>
    decreases n,
{
    if n < 10 {
        seq![digit_char(n as int)]
    } else {
        decimal_spec(n / 10).push(digit_char((n % 10) as int))
    }
}

/// A number written out in decimal, with a minus sign in front when it is negative.
pub open spec fn signed_decimal_spec(n: int) -> Seq<char> {
    if n < 0 {
        seq!['-'] + decimal_spec((-n) as nat)
    } else {
        decimal_spec(n as nat)
    }
}

/// The character of one decimal digit.
pub fn digit(d: u128) -> (r: char)
    requires
        d < 10,
    ensures
        r == digit_char(d as int),
{
    if d == 0 {
        '0'
    } else if d == 1 {
        '1'
    } else if d == 2 {
        '2'
    } else if d == 3 {
        '3'
    } else if d == 4 {
        '4'
    } else if d == 5 {
        '5'
    } else if d == 6 {
        '6'
    } else if d == 7 {
        '7'
    } else if d == 8 {
        '8'
    } else {
        '9'
    }
}

/// Appends a number in decimal.
pub fn push_decimal(text: &mut String, n: u128)
    ensures
        final(text)@ == old(text)@ + decimal_spec(n as nat),
    decreases n,
{
    if n >= 10 {
        push_decimal(text, n / 10);
    }
    push_char(text, digit(n % 10));
    assert(text@ =~= old(text)@ + decimal_spec(n as nat));
}

/// Appends a signed number in decimal, a minus sign first when it is negative.
pub fn push_signed_decimal(text: &mut String, n: i64)
    ensures
        final(text)@ == old(text)@ + signed_decimal_spec(n as int),
{
    if n < 0 {
        push_char(text, '-');
        let magnitude: u128 = if n == i64::MIN { 9_223_372_036_854_775_808u128 } else { (-n) as u128 };
        push_decimal(text, magnitude);
        assert(text@ =~= old(text)@ + signed_decimal_spec(n as int));
    } else {
        push_decimal(text, n as u128);
    }
}

/// Appends a piece of text.
pub(crate) fn push_text(line: &mut String, text: &str)
    ensures
        final(line)@ == old(line)@ + text@,
{
    let n = text.unicode_len();
    let mut i: usize = 0;
    while i < n
        invariant
            n == text@.len(),
            i <= n,
            line@ == old(line)@ + text@.take(i as int),
        decreases n - i,
    {
        let ghost before = line@;
        push_char(line, text.get_char(i));
        assert(text@.take(i + 1) =~= text@.take(i as int).push(text@[i as int]));
        i = i + 1;
    }
    assert(text@.take(n as int) =~= text@);
}

/// A number written out in decimal.
pub fn decimal(n: u128) -> (r: String)
    ensures
        r@ == decimal_spec(n as nat),
{
    let mut text = String::new();
    push_decimal(&mut text, n);
    assert(text@ =~= decimal_spec(n as nat));
    text
}

/// Whitespace as a command line uses it.
pub open spec fn is_blank(c: char) -> bool {
    c == ' ' || c == '\t' || c == '\n' || c == '\r' || c == '\x0b' || c == '\x0c'
}

/// The words of `text` from position `i` on, given the words already complete and the
/// one being read.
pub open spec fn words_from(text: Seq<char>, i: int, done: Seq<Seq<char>>, current: Seq<char>) -> Seq<Seq<char>>
    decreases text.len() - i,
{
    if i >= text.len() {
        if current.len() > 0 { done.push(current) } else { done }
    } else if is_blank(text[i]) {
        words_from(text, i + 1, if current.len() > 0 { done.push(current) } else { done }, Seq::empty())
    } else {
        words_from(text, i + 1, done, current.push(text[i]))
    }
}

/// The words of a line: the runs of characters between whitespace.
pub open spec fn words_spec(text: Seq<char>) -> Seq<Seq<char>> {
    words_from(text, 0, Seq::empty(), Seq::empty())
}

/// The text of each string.
pub open spec fn texts(v: Seq<String>) -> Seq<Seq<char>> {
    v.map_values(|s: String| s@)
}

/// Whether the character is whitespace as a command line uses it.
pub fn blank(c: char) -> (r: bool)
    ensures
        r == is_blank(c),
{
    c == ' ' || c == '\t' || c == '\n' || c == '\r' || c == '\x0b' || c == '\x0c'
}

/// The words of a line.
pub fn split_words(text: &str) -> (r: Vec<String>)
    ensures
        texts(r@) == words_spec(text@),
{
    let n = text.unicode_len();
    let mut words: Vec<String> = Vec::new();
    let mut current = String::new();
    let mut i: usize = 0;
    assert(texts(words@) =~= Seq::<Seq<char>>::empty());
    assert(current@ =~= Seq::<char>::empty());
    while i < n
        invariant
            n == text@.len(),
            i <= n,
            words_spec(text@) == words_from(text@, i as int, texts(words@), current@),
        decreases n - i,
    {
        let c = text.get_char(i);
        if blank(c) {
            if current.as_str().unicode_len() > 0 {
                let ghost before = words@;
                words.push(current);
                assert(texts(words@) =~= texts(before).push(current@));
                current = String::new();
            } else {
                current = String::new();
            }
        } else {
            push_char(&mut current, c);
        }
        i = i + 1;
    }
    if current.as_str().unicode_len() > 0 {
        let ghost before = words@;
        words.push(current);
        assert(texts(words@) =~= texts(before).push(current@));
    }
    words
}

/// Whether two texts are the same.
pub fn same_text(a: &str, b: &str) -> (r: bool)
    ensures
        r == (a@ == b@),
{
    let n = a.unicode_len();
    if n != b.unicode_len() {
        return false;
    }
    let mut i: usize = 0;
    while i < n
        invariant
            n == a@.len(),
            n == b@.len(),
            i <= n,
            forall|j: int| 0 <= j < i ==> a@[j] == b@[j],
        decreases n - i,
    {
        if a.get_char(i) != b.get_char(i) {
            return false;
        }
        i = i + 1;
    }
    assert(a@ =~= b@);
    true
}

/// The value of a string of decimal digits.
pub open spec fn digits_value(t: Seq<char>) -> int
    decreases t.len(),
{
    if t.len() == 0 {
        0
    } else {
        digits_value(t.drop_last()) * 10 + (t.last() as int - 48)
    }
}

/// Every character is a decimal digit.
pub open spec fn all_digits(t: Seq<char>) -> bool {
    forall|i: int| 0 <= i < t.len() ==> '0' <= #[trigger] t[i] <= '9'
}

/// A number as `str::parse` reads an unsigned one: an optional '+', then at least one
/// digit, and no more than `max`.
pub open spec fn parse_unsigned_spec(t: Seq<char>, max: int) -> Option<int> {
    let body = if t.len() > 0 && t[0] == '+' { t.drop_first() } else { t };
    if body.len() > 0 && all_digits(body) && digits_value(body) <= max {
        Some(digits_value(body))
    } else {
        None
    }
}

/// A number as `str::parse` reads a signed one: an optional '+' or '-', then at least
/// one digit, inside `min..=max`.
pub open spec fn parse_signed_spec(t: Seq<char>, min: int, max: int) -> Option<int> {
    let negative = t.len() > 0 && t[0] == '-';
    let body = if t.len() > 0 && (t[0] == '+' || t[0] == '-') { t.drop_first() } else { t };
    let value = if negative { -digits_value(body) } else { digits_value(body) };
    if body.len() > 0 && all_digits(body) && min <= value <= max {
        Some(value)
    } else {
        None
    }
}

/// The digits of `text` from `start` on, as a number, and whether they are all digits
/// and there is at least one; values past `limit` come back as None.
fn digits_after(text: &str, start: usize, limit: u128) -> (r: Option<u128>)
    requires
        start <= text@.len(),
    ensures
        ({
            let body = text@.subrange(start as int, text@.len() as int);
            match r {
                Some(v) => body.len() > 0 && all_digits(body) && v == digits_value(body) && v <= limit,
                None => !(body.len() > 0 && all_digits(body) && digits_value(body) <= limit),
            }
        }),
{
    let n = text.unicode_len();
    if start >= n {
        return None;
    }
    let ghost body = text@.subrange(start as int, n as int);
    let mut value: u128 = 0;
    let mut over = false;
    let mut i: usize = start;
    while i < n
        invariant
            n == text@.len(),
            start <= i <= n,
            body == text@.subrange(start as int, n as int),
            all_digits(body.take(i - start)),
            !over ==> value == digits_value(body.take(i - start)) && value <= limit,
            over ==> digits_value(body.take(i - start)) > limit,
        decreases n - i,
    {
        let c = text.get_char(i);
        if !('0' <= c && c <= '9') {
            assert(body[i - start] == c);
            return None;
        }
        let d = (c as u32 - 48) as u128;
        let ghost k = i - start;
        assert(body.take(k + 1).drop_last() =~= body.take(k));
        assert(body.take(k + 1).last() == c);
        if !over {
            if d > limit || value > (limit - d) / 10 {
                over = true;
            } else {
                value = value * 10 + d;
            }
        }
        i = i + 1;
    }
    assert(body.take(n - start) =~= body);
    if over {
        None
    } else {
        Some(value)
    }
}

/// An unsigned number no larger than `max`, read the way `str::parse` reads one.
pub fn parse_unsigned(text: &str, max: u128) -> (r: Option<u128>)
    ensures
        match r {
            Some(v) => parse_unsigned_spec(text@, max as int) == Some(v as int),
            None => parse_unsigned_spec(text@, max as int) is None,
        },
{
    let n = text.unicode_len();
    let start: usize = if n > 0 && text.get_char(0) == '+' { 1 } else { 0 };
    proof {
        if start == 1 {
            assert(text@.subrange(1, n as int) =~= text@.drop_first());
        } else {
            assert(text@.subrange(0, n as int) =~= text@);
        }
    }
    digits_after(text, start, max)
}

/// A signed number inside `min..=max`, read the way `str::parse` reads one.
pub fn parse_signed(text: &str, min: i64, max: i64) -> (r: Option<i64>)
    requires
        min < 0 < max,
    ensures
        match r {
            Some(v) => parse_signed_spec(text@, min as int, max as int) == Some(v as int),
            None => parse_signed_spec(text@, min as int, max as int) is None,
        },
{
    let n = text.unicode_len();
    let negative = n > 0 && text.get_char(0) == '-';
    let start: usize = if n > 0 && (text.get_char(0) == '+' || text.get_char(0) == '-') { 1 } else { 0 };
    proof {
        if start == 1 {
            assert(text@.subrange(1, n as int) =~= text@.drop_first());
        } else {
            assert(text@.subrange(0, n as int) =~= text@);
        }
    }
    let limit: u128 = if negative { (-(min as i128)) as u128 } else { max as u128 };
    match digits_after(text, start, limit) {
        Some(v) => {
            if negative {
                Some((-(v as i128)) as i64)
            } else {
                Some(v as i64)
            }
        },
        None => None,
    }
}

/// The value of a decimal digit's character.
pub proof fn lemma_digit_char(d: int)
    requires
        0 <= d <= 9,
    ensures
        '0' <= digit_char(d) <= '9',
        digit_char(d) as int - 48 == d,
{
}

/// A number written in decimal is a nonempty run of digits whose value is the number.
pub proof fn lemma_decimal_digits(n: nat)
    ensures
        decimal_spec(n).len() > 0,
        all_digits(decimal_spec(n)),
        digits_value(decimal_spec(n)) == n,
    decreases n,
{
    lemma_digit_char((n % 10) as int);
    if n >= 10 {
        lemma_decimal_digits(n / 10);
        let t = decimal_spec(n);
        assert(t.drop_last() =~= decimal_spec(n / 10));
        assert(t.last() == digit_char((n % 10) as int));
        assert((n / 10) * 10 + n % 10 == n) by (nonlinear_arith);
        assert(digits_value(t) == digits_value(t.drop_last()) * 10 + (t.last() as int - 48));
        assert forall|i: int| 0 <= i < t.len() implies '0' <= #[trigger] t[i] <= '9' by {
            if i < t.len() - 1 {
                assert(t[i] == decimal_spec(n / 10)[i]);
            }
        }
    } else {
        assert forall|i: int| 0 <= i < decimal_spec(n).len() implies '0' <= #[trigger] decimal_spec(n)[i] <= '9' by {
        }
        let t = decimal_spec(n);
        assert(t.drop_last() =~= Seq::<char>::empty());
        assert(digits_value(t) == digits_value(t.drop_last()) * 10 + (t.last() as int - 48));
        assert(digits_value(Seq::<char>::empty()) == 0);
    }
}

/// A number written in decimal reads back as itself, when it is no more than `max`.
pub proof fn lemma_parse_decimal(n: nat, max: int)
    requires
        n <= max,
    ensures
        parse_unsigned_spec(decimal_spec(n), max) == Some(n as int),
{
    lemma_decimal_digits(n);
    let t = decimal_spec(n);
    assert('0' <= t[0] <= '9');
}

/// A run of characters without whitespace joins the word being read.
pub proof fn lemma_word_run(text: Seq<char>, i: int, n: int, done: Seq<Seq<char>>, current: Seq<char>)
    requires
        0 <= i,
        0 <= n,
        i + n <= text.len(),
        forall|k: int| i <= k < i + n ==> !is_blank(#[trigger] text[k]),
    ensures
        words_from(text, i, done, current) == words_from(text, i + n, done, current + text.subrange(i, i + n)),
    decreases n,
{
    if n > 0 {
        assert(!is_blank(text[i]));
        lemma_word_run(text, i + 1, n - 1, done, current.push(text[i]));
        assert(current.push(text[i]) + text.subrange(i + 1, i + n) =~= current + text.subrange(i, i + n));
    } else {
        assert(current + text.subrange(i, i) =~= current);
    }
}

/// A word: at least one character, and no whitespace.
pub open spec fn is_word(w: Seq<char>) -> bool {
    w.len() > 0 && forall|k: int| 0 <= k < w.len() ==> !is_blank(#[trigger] w[k])
}

/// Words written one after the other with a single space between each two.
pub open spec fn spaced(words: Seq<Seq<char>>) -> Seq<char>
    decreases words.len(),
{
    if words.len() == 0 {
        Seq::empty()
    } else if words.len() == 1 {
        words[0]
    } else {
        words[0] + seq![' '] + spaced(words.drop_first())
    }
}

/// Whitespace to the end of the line completes the word being read, and nothing more.
pub proof fn lemma_blank_tail(text: Seq<char>, i: int, done: Seq<Seq<char>>, current: Seq<char>)
    requires
        0 <= i <= text.len(),
        forall|k: int| i <= k < text.len() ==> is_blank(#[trigger] text[k]),
    ensures
        words_from(text, i, done, current) == if current.len() > 0 { done.push(current) } else { done },
    decreases text.len() - i,
{
    if i < text.len() {
        assert(is_blank(text[i]));
        lemma_blank_tail(text, i + 1, if current.len() > 0 { done.push(current) } else { done }, Seq::empty());
    }
}

/// One more word written after some, with a space between.
pub proof fn lemma_spaced_push(words: Seq<Seq<char>>, w: Seq<char>)
    ensures
        spaced(words.push(w)) == if words.len() == 0 { w } else { spaced(words) + seq![' '] + w },
    decreases words.len(),
{
    if words.len() == 0 {
        assert(words.push(w).len() == 1);
        assert(words.push(w)[0] == w);
    } else if words.len() == 1 {
        assert(words.push(w).drop_first() =~= seq![w]);
        assert(words.push(w)[0] == words[0]);
        assert(spaced(seq![w]) == w);
        assert(spaced(words.push(w)) == words[0] + seq![' '] + spaced(seq![w]));
    } else {
        assert(words.push(w).drop_first() =~= words.drop_first().push(w));
        assert(words.push(w)[0] == words[0]);
        lemma_spaced_push(words.drop_first(), w);
        assert(spaced(words.push(w)) =~= spaced(words) + seq![' '] + w);
    }
}

/// Words written with single spaces between them, and nothing but whitespace after them,
/// are read back as those words.
pub proof fn lemma_spaced_words(text: Seq<char>, i: int, done: Seq<Seq<char>>, words: Seq<Seq<char>>)
    requires
        words.len() >= 1,
        forall|k: int| 0 <= k < words.len() ==> is_word(#[trigger] words[k]),
        0 <= i,
        i + spaced(words).len() <= text.len(),
        text.subrange(i, i + spaced(words).len()) == spaced(words),
        forall|k: int| i + spaced(words).len() <= k < text.len() ==> is_blank(#[trigger] text[k]),
    ensures
        words_from(text, i, done, Seq::empty()) == done + words,
    decreases words.len(),
{
    let w = words[0];
    assert(is_word(w));
    let whole = spaced(words);
    let end = i + whole.len();
    if words.len() > 1 {
        assert(whole == w + seq![' '] + spaced(words.drop_first()));
    }
    assert forall|k: int| i <= k < i + w.len() implies !is_blank(#[trigger] text[k]) by {
        assert(text[k] == text.subrange(i, end)[k - i]);
        assert(whole[k - i] == w[k - i]);
    }
    lemma_word_run(text, i, w.len() as int, done, Seq::empty());
    assert(Seq::<char>::empty() + text.subrange(i, i + w.len()) =~= w) by {
        assert forall|k: int| 0 <= k < w.len() implies text.subrange(i, i + w.len())[k] == w[k] by {
            assert(text[i + k] == text.subrange(i, end)[k]);
            assert(whole[k] == w[k]);
        }
    }
    if words.len() == 1 {
        lemma_blank_tail(text, i + w.len(), done, w);
        assert(done.push(w) =~= done + words);
    } else {
        let j = i + w.len();
        let rest = words.drop_first();
        assert(text[j] == ' ') by {
            assert(text[j] == text.subrange(i, end)[w.len() as int]);
        }
        assert(text.subrange(j + 1, j + 1 + spaced(rest).len()) =~= spaced(rest)) by {
            assert forall|k: int| 0 <= k < spaced(rest).len() implies text.subrange(j + 1, j + 1 + spaced(rest).len())[k]
                == spaced(rest)[k] by {
                assert(text[j + 1 + k] == text.subrange(i, end)[w.len() + 1 + k]);
            }
        }
        assert forall|k: int| 0 <= k < rest.len() implies is_word(#[trigger] rest[k]) by {
            assert(rest[k] == words[k + 1]);
        }
        lemma_spaced_words(text, j + 1, done.push(w), rest);
        assert(done.push(w) + rest =~= done + words);
    }
}

} // verus!
