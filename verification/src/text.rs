//! Building strings from characters.
use vstd::prelude::*;

verus! {

/// `String::push` appends one character.
pub assume_specification[ String::push ](s: &mut String, ch: char)
    ensures
        final(s)@ == old(s)@.push(ch),
;

/// The character whose code is the byte `b`.
pub open spec fn byte_char(b: u8) -> char {
    b as char
}

/// The characters whose codes are the bytes of `bytes`.
pub open spec fn bytes_chars(bytes: Seq<u8>) -> Seq<char> {
    bytes.map_values(|b: u8| byte_char(b))
}

/// The string of the characters whose codes are `bytes[from..to]`.
pub fn string_of_bytes(bytes: &[u8], from: usize, to: usize) -> (s: String)
    requires
        from <= to <= bytes@.len(),
    ensures
        s@ == bytes_chars(bytes@.subrange(from as int, to as int)),
{
    let mut s = String::new();
    let mut i = from;
    while i < to
        invariant
            from <= i <= to,
            to <= bytes@.len(),
            s@ == bytes_chars(bytes@.subrange(from as int, i as int)),
        decreases to - i,
    {
        let c = bytes[i] as char;
        s.push(c);
        proof {
            assert(bytes_chars(bytes@.subrange(from as int, i + 1)) =~= bytes_chars(bytes@.subrange(from as int, i as int)).push(c));
        }
        i = i + 1;
    }
    s
}

/// The characters of `s`.
pub fn chars_of(s: &str) -> (v: Vec<char>)
    ensures
        v@ == s@,
{
    let mut v: Vec<char> = Vec::new();
    for c in it: s.chars()
        invariant
            v@ == it.seq().take(it.index() as int),
    {
        v.push(c);
    }
    v
}

/// Whether `c` has the Unicode White_Space property (what `char::is_whitespace`
/// tests): tab to carriage return, space, next line, no-break space, ogham space
/// mark, the spaces U+2000 to U+200A, line and paragraph separators, narrow
/// no-break space, medium mathematical space and ideographic space.
pub open spec fn is_white_space(c: char) -> bool {
    let u = c as u32;
    ||| 0x09 <= u <= 0x0D
    ||| u == 0x20
    ||| u == 0x85
    ||| u == 0xA0
    ||| u == 0x1680
    ||| 0x2000 <= u <= 0x200A
    ||| u == 0x2028
    ||| u == 0x2029
    ||| u == 0x202F
    ||| u == 0x205F
    ||| u == 0x3000
}

/// Whether `c` is white space.
fn char_is_whitespace(c: char) -> (r: bool)
    ensures
        r == is_white_space(c),
{
    let u = c as u32;
    (0x09 <= u && u <= 0x0D) || u == 0x20 || u == 0x85 || u == 0xA0 || u == 0x1680 || (0x2000 <= u && u
        <= 0x200A) || u == 0x2028 || u == 0x2029 || u == 0x202F || u == 0x205F || u == 0x3000
}

/// Appends the characters of `t` to `s`.
pub fn append_str(s: &mut String, t: &str)
    ensures
        final(s)@ == old(s)@ + t@,
{
    let cs = chars_of(t);
    let mut i: usize = 0;
    while i < cs.len()
        invariant
            i <= cs@.len(),
            cs@ == t@,
            s@ == old(s)@ + t@.take(i as int),
        decreases cs@.len() - i,
    {
        s.push(cs[i]);
        proof {
            assert(old(s)@ + t@.take(i + 1) =~= (old(s)@ + t@.take(i as int)).push(t@[i as int]));
        }
        i = i + 1;
    }
    proof {
        assert(t@.take(cs@.len() as int) =~= t@);
    }
}

/// Appends the characters of `t` to `s`.
pub fn append_chars(s: &mut String, t: &Vec<char>)
    ensures
        final(s)@ == old(s)@ + t@,
{
    let mut i: usize = 0;
    while i < t.len()
        invariant
            i <= t@.len(),
            s@ == old(s)@ + t@.take(i as int),
        decreases t@.len() - i,
    {
        s.push(t[i]);
        proof {
            assert(old(s)@ + t@.take(i + 1) =~= (old(s)@ + t@.take(i as int)).push(t@[i as int]));
        }
        i = i + 1;
    }
    proof {
        assert(t@.take(t@.len() as int) =~= t@);
    }
}

/// The decimal digit character of `d` (0 to 9).
pub open spec fn digit_char(d: nat) -> char {
    (48 + d) as char
}

/// The decimal representation of `n`, without leading zeros.
pub open spec fn decimal(n: nat) -> Seq<char>
    decreases n,
{
    if n < 10 {
        seq![digit_char(n)]
    } else {
        decimal(n / 10).push(digit_char(n % 10))
    }
}

/// Appends the decimal representation of `n` to `s`.
pub fn append_decimal(s: &mut String, n: usize)
    ensures
        final(s)@ == old(s)@ + decimal(n as nat),
    decreases n,
{
    if n >= 10 {
        append_decimal(s, n / 10);
    }
    let d = (n % 10) as u8;
    let c = (48u8 + d) as char;
    s.push(c);
    proof {
        assert(c == digit_char((n % 10) as nat));
        if n >= 10 {
            assert(old(s)@ + decimal(n as nat) =~= old(s)@ + decimal((n / 10) as nat) + seq![c]);
        } else {
            assert(old(s)@ + decimal(n as nat) =~= old(s)@ + seq![c]);
        }
    }
}

/// The decimal representation of `v`, with a minus sign when it is negative.
pub open spec fn signed_decimal(v: int) -> Seq<char> {
    if v < 0 {
        seq!['-'] + decimal((-v) as nat)
    } else {
        decimal(v as nat)
    }
}

/// Appends the decimal representation of `v` to `s`, with a minus sign when
/// it is negative.
pub fn append_signed(s: &mut String, v: i32)
    ensures
        final(s)@ == old(s)@ + signed_decimal(v as int),
{
    if v < 0 {
        s.push('-');
        let magnitude = (0i64 - v as i64) as usize;
        append_decimal(s, magnitude);
        proof {
            assert(old(s)@ + signed_decimal(v as int) =~= old(s)@.push('-') + decimal(magnitude as nat));
        }
    } else {
        append_decimal(s, v as usize);
    }
}

/// Whether `c` is an ASCII decimal digit.
pub open spec fn is_digit(c: char) -> bool {
    '0' <= c <= '9'
}

/// The value of a string of decimal digits.
pub open spec fn digits_value(s: Seq<char>) -> nat
    decreases s.len(),
{
    if s.len() == 0 {
        0
    } else {
        digits_value(s.drop_last()) * 10 + (s.last() as nat - 48) as nat
    }
}

/// The digits of a number as `str::parse::<usize>` reads it: after an
/// optional `+`.
pub open spec fn number_digits(s: Seq<char>) -> Seq<char> {
    if s.len() > 0 && s[0] == '+' {
        s.drop_first()
    } else {
        s
    }
}

/// What `str::parse::<usize>` gives: an optional `+` and then at least one
/// decimal digit, of a value that fits in a `usize`.
pub open spec fn parse_usize_spec(s: Seq<char>) -> Option<usize> {
    let body = number_digits(s);
    if body.len() == 0 || exists|i: int| 0 <= i < body.len() && !#[trigger] is_digit(body[i]) {
        None
    } else if digits_value(body) > usize::MAX {
        None
    } else {
        Some(digits_value(body) as usize)
    }
}

/// A longer string of digits has at least the value of its prefix.
proof fn lemma_digits_value_grows(s: Seq<char>, k: int)
    requires
        0 <= k <= s.len(),
        forall|i: int| 0 <= i < s.len() ==> #[trigger] is_digit(s[i]),
    ensures
        digits_value(s.take(k)) <= digits_value(s),
    decreases s.len() - k,
{
    if k < s.len() {
        lemma_digits_value_grows(s, k + 1);
        assert(s.take(k + 1).drop_last() =~= s.take(k));
        let x = digits_value(s.take(k));
        let y = digits_value(s.take(k + 1));
        assert(y == x * 10 + (s.take(k + 1).last() as nat - 48) as nat);
        assert(x <= x * 10 + (s.take(k + 1).last() as nat - 48) as nat) by (nonlinear_arith);
    } else {
        assert(s.take(k) =~= s);
    }
}

/// Reads a number the way `str::parse::<usize>` does.
pub fn parse_usize(s: &Vec<char>) -> (r: Option<usize>)
    ensures
        r == parse_usize_spec(s@),
{
    let start: usize = if s.len() > 0 && s[0] == '+' { 1 } else { 0 };
    let ghost body = number_digits(s@);
    proof {
        assert(body =~= s@.subrange(start as int, s@.len() as int));
    }
    if start >= s.len() {
        return None;
    }
    let mut value: usize = 0;
    let mut i: usize = start;
    while i < s.len()
        invariant
            start <= i <= s@.len(),
            body == s@.subrange(start as int, s@.len() as int),
            body == number_digits(s@),
            forall|k: int| start <= k < i ==> #[trigger] is_digit(s@[k]),
            value == digits_value(body.take(i - start)),
        decreases s@.len() - i,
    {
        let c = s[i];
        proof {
            assert(body[i - start] == s@[i as int]);
        }
        if !('0' <= c && c <= '9') {
            proof {
                assert(!is_digit(body[i - start]));
            }
            return None;
        }
        let d = (c as u32 - 48) as usize;
        proof {
            assert(body.take(i - start + 1).drop_last() =~= body.take(i - start));
            assert(body.take(i - start + 1).last() == c);
            assert(digits_value(body.take(i - start + 1)) == value * 10 + d);
        }
        if value > (usize::MAX - d) / 10 {
            proof {
                assert(digits_value(body.take(i - start + 1)) > usize::MAX) by (nonlinear_arith)
                    requires
                        digits_value(body.take(i - start + 1)) == value * 10 + d,
                        value > (usize::MAX - d) / 10,
                        d <= 9,
                ;
                if forall|k: int| 0 <= k < body.len() ==> #[trigger] is_digit(body[k]) {
                    lemma_digits_value_grows(body, i - start + 1);
                }
            }
            return None;
        }
        proof {
            assert(value * 10 + d <= usize::MAX) by (nonlinear_arith)
                requires
                    value <= (usize::MAX - d) / 10,
                    d <= 9,
            ;
        }
        value = value * 10 + d;
        i = i + 1;
    }
    proof {
        assert(body.take(body.len() as int) =~= body);
        assert forall|k: int| 0 <= k < body.len() implies #[trigger] is_digit(body[k]) by {
            assert(is_digit(s@[k + start]));
        }
    }
    Some(value)
}

/// The words of `s`: its maximal runs of characters that are not white
/// space, in order (what `str::split_whitespace` yields).
pub open spec fn words_of(s: Seq<char>) -> Seq<Seq<char>>
    decreases s.len(),
{
    if s.len() == 0 {
        Seq::empty()
    } else {
        let prev = words_of(s.drop_last());
        let c = s.last();
        if is_white_space(c) {
            prev
        } else if s.len() >= 2 && !is_white_space(s[s.len() - 2]) && prev.len() > 0 {
            prev.update(prev.len() - 1, prev.last().push(c))
        } else {
            prev.push(seq![c])
        }
    }
}

/// The decimal representation of a number is a non-empty string of digits
/// whose value is the number.
pub proof fn lemma_decimal_digits(n: nat)
    ensures
        decimal(n).len() > 0,
        forall|i: int| 0 <= i < decimal(n).len() ==> #[trigger] is_digit(decimal(n)[i]),
        digits_value(decimal(n)) == n,
    decreases n,
{
    let c = digit_char(n % 10);
    assert(c as nat == 48 + n % 10);
    if n >= 10 {
        lemma_decimal_digits(n / 10);
        let s = decimal(n);
        assert(s.drop_last() =~= decimal(n / 10));
        assert(s.last() == c);
        assert forall|i: int| 0 <= i < s.len() implies #[trigger] is_digit(s[i]) by {
            if i < s.len() - 1 {
                assert(s[i] == decimal(n / 10)[i]);
            }
        }
        assert(digits_value(s) == digits_value(decimal(n / 10)) * 10 + (c as nat - 48) as nat);
        assert((n / 10) * 10 + n % 10 == n);
    } else {
        assert(decimal(n).drop_last() =~= Seq::<char>::empty());
        assert(digits_value(decimal(n)) == digits_value(Seq::<char>::empty()) * 10 + (c as nat - 48) as nat);
    }
}

/// A number printed in decimal reads back as itself, as `str::parse::<usize>`
/// reads it.
pub proof fn law_decimal_reads_back(n: usize)
    ensures
        parse_usize_spec(decimal(n as nat)) == Some(n),
{
    lemma_decimal_digits(n as nat);
    let s = decimal(n as nat);
    assert(is_digit(s[0]));
    assert(number_digits(s) == s);
}

/// The decimal representation of a number is a word: digits are not white space.
pub proof fn lemma_decimal_is_word(n: nat)
    ensures
        word_ok(decimal(n)),
{
    lemma_decimal_digits(n);
    assert forall|i: int| 0 <= i < decimal(n).len() implies !#[trigger] is_white_space(decimal(n)[i]) by {
        assert(is_digit(decimal(n)[i]));
    }
}

/// Whether `w` can be a word: not empty, and no white space in it.
pub open spec fn word_ok(w: Seq<char>) -> bool {
    w.len() > 0 && forall|i: int| 0 <= i < w.len() ==> !#[trigger] is_white_space(w[i])
}

/// Every word of `s` is a word: not empty and free of white space.
pub proof fn lemma_words_are_words(s: Seq<char>)
    ensures
        forall|k: int| 0 <= k < words_of(s).len() ==> #[trigger] word_ok(words_of(s)[k]),
    decreases s.len(),
{
    if s.len() > 0 {
        lemma_words_are_words(s.drop_last());
        let prev = words_of(s.drop_last());
        let c = s.last();
        if !is_white_space(c) && s.len() >= 2 && !is_white_space(s[s.len() - 2]) && prev.len() > 0 {
            let w = prev.last().push(c);
            assert(word_ok(prev[prev.len() - 1]));
            assert forall|i: int| 0 <= i < w.len() implies !#[trigger] is_white_space(w[i]) by {
                if i < w.len() - 1 {
                    assert(w[i] == prev.last()[i]);
                }
            }
            assert forall|k: int| 0 <= k < words_of(s).len() implies #[trigger] word_ok(words_of(s)[k]) by {
                if k < prev.len() - 1 {
                    assert(words_of(s)[k] == prev[k]);
                }
            }
        } else if !is_white_space(c) {
            assert(word_ok(seq![c]));
            assert forall|k: int| 0 <= k < words_of(s).len() implies #[trigger] word_ok(words_of(s)[k]) by {
                if k < prev.len() {
                    assert(words_of(s)[k] == prev[k]);
                }
            }
        }
    }
}

/// A word alone is its only word.
pub proof fn lemma_words_of_word(w: Seq<char>)
    requires
        word_ok(w),
    ensures
        words_of(w) == seq![w],
    decreases w.len(),
{
    let c = w.last();
    assert(!is_white_space(w[w.len() - 1]));
    if w.len() == 1 {
        assert(w.drop_last() =~= Seq::<char>::empty());
        assert(words_of(w.drop_last()) == Seq::<Seq<char>>::empty());
        assert(w =~= seq![c]);
        assert(Seq::<Seq<char>>::empty().push(seq![c]) =~= seq![w]);
    } else {
        let v = w.drop_last();
        assert forall|i: int| 0 <= i < v.len() implies !#[trigger] is_white_space(v[i]) by {
            assert(v[i] == w[i]);
        }
        lemma_words_of_word(v);
        assert(!is_white_space(w[w.len() - 2]));
        assert(v.push(c) =~= w);
        assert(seq![v].update(0, v.push(c)) =~= seq![w]);
    }
}

/// A word after text that ends in white space adds that word to its words.
pub proof fn lemma_words_of_append(t: Seq<char>, w: Seq<char>)
    requires
        word_ok(w),
        t.len() > 0,
        is_white_space(t.last()),
    ensures
        words_of(t + w) == words_of(t).push(w),
    decreases w.len(),
{
    let c = w.last();
    assert(!is_white_space(w[w.len() - 1]));
    if w.len() == 1 {
        assert((t + w).drop_last() =~= t);
        assert(w =~= seq![c]);
    } else {
        let v = w.drop_last();
        assert forall|i: int| 0 <= i < v.len() implies !#[trigger] is_white_space(v[i]) by {
            assert(v[i] == w[i]);
        }
        lemma_words_of_append(t, v);
        assert((t + w).drop_last() =~= t + v);
        assert(!is_white_space(w[w.len() - 2]));
        assert((t + w)[(t + w).len() - 2] == w[w.len() - 2]);
        let prev = words_of(t).push(v);
        assert(prev.last() == v);
        assert(v.push(c) =~= w);
        assert(prev.update(prev.len() - 1, prev.last().push(c)) =~= words_of(t).push(w));
    }
}

/// Text that ends in a character other than white space has a word.
proof fn lemma_words_nonempty(s: Seq<char>)
    requires
        s.len() > 0,
        !is_white_space(s.last()),
    ensures
        words_of(s).len() > 0,
{
}

/// Two texts that meet at white space (or where one is empty) have, together,
/// the words of the first followed by the words of the second.
pub proof fn lemma_words_of_concat(x: Seq<char>, y: Seq<char>)
    requires
        x.len() == 0 || y.len() == 0 || is_white_space(x.last()) || is_white_space(y[0]),
    ensures
        words_of(x + y) == words_of(x) + words_of(y),
    decreases y.len(),
{
    if y.len() == 0 {
        assert(x + y =~= x);
        assert(words_of(y) =~= Seq::<Seq<char>>::empty());
        assert(words_of(x) + words_of(y) =~= words_of(x));
    } else {
        let v = y.drop_last();
        let c = y.last();
        lemma_words_of_concat(x, v);
        let s = x + y;
        assert(s.drop_last() =~= x + v);
        assert(s.last() == c);
        let px = words_of(x);
        let pv = words_of(v);
        assert(words_of(x + v) == px + pv);
        if is_white_space(c) {
            assert(words_of(s) == px + pv);
            assert(words_of(y) == pv);
        } else if v.len() > 0 {
            assert(s[s.len() - 2] == v.last());
            assert(y[y.len() - 2] == v.last());
            if !is_white_space(v.last()) {
                lemma_words_nonempty(v);
                assert(words_of(y) == pv.update(pv.len() - 1, pv.last().push(c)));
                assert((px + pv).last() == pv.last());
                assert((px + pv).update((px + pv).len() - 1, pv.last().push(c)) =~= px + pv.update(pv.len() - 1,
                    pv.last().push(c)));
            } else {
                assert(words_of(y) == pv.push(seq![c]));
                assert((px + pv).push(seq![c]) =~= px + pv.push(seq![c]));
            }
        } else {
            assert(y =~= seq![c]);
            assert(v =~= Seq::<char>::empty());
            assert(pv =~= Seq::<Seq<char>>::empty());
            assert(y.drop_last() =~= Seq::<char>::empty());
            assert(words_of(y) == Seq::<Seq<char>>::empty().push(seq![c]));
            assert(x + v =~= x);
            if x.len() > 0 {
                assert(s[s.len() - 2] == x.last());
            }
            assert(words_of(s) == px.push(seq![c]));
            assert(px.push(seq![c]) =~= px + Seq::<Seq<char>>::empty().push(seq![c]));
        }
    }
}

/// The character sequences of a sequence of character vectors.
pub open spec fn deep(v: Seq<Vec<char>>) -> Seq<Seq<char>> {
    v.map_values(|w: Vec<char>| w@)
}

/// Splits `s` into its words.
pub fn split_words(s: &Vec<char>) -> (words: Vec<Vec<char>>)
    ensures
        words@.len() == words_of(s@).len(),
        forall|i: int| 0 <= i < words@.len() ==> #[trigger] words@[i]@ == words_of(s@)[i],
        deep(words@) == words_of(s@),
{
    let mut words: Vec<Vec<char>> = Vec::new();
    let mut cur: Vec<char> = Vec::new();
    let mut in_word = false;
    let mut i: usize = 0;
    while i < s.len()
        invariant
            i <= s@.len(),
            in_word == (i > 0 && !is_white_space(s@[i - 1])),
            in_word ==> cur@.len() > 0,
            ({
                let w = words_of(s@.take(i as int));
                &&& w.len() == words@.len() + if in_word { 1int } else { 0 }
                &&& forall|k: int| 0 <= k < words@.len() ==> #[trigger] words@[k]@ == w[k]
                &&& in_word ==> w.last() == cur@
            }),
        decreases s@.len() - i,
    {
        let c = s[i];
        proof {
            assert(s@.take(i + 1).drop_last() =~= s@.take(i as int));
            assert(s@.take(i + 1).last() == c);
            if i > 0 {
                assert(s@.take(i + 1)[i - 1] == s@[i - 1]);
            }
        }
        if char_is_whitespace(c) {
            if in_word {
                words.push(cur);
                cur = Vec::new();
            }
            in_word = false;
        } else {
            if !in_word {
                cur = Vec::new();
            }
            cur.push(c);
            in_word = true;
        }
        i = i + 1;
    }
    if in_word {
        words.push(cur);
    }
    proof {
        assert(s@.take(s@.len() as int) =~= s@);
        assert(deep(words@) =~= words_of(s@));
    }
    words
}

/// A line without the carriage return that ended it, if one did.
pub open spec fn strip_cr(line: Seq<char>) -> Seq<char> {
    if line.len() > 0 && line.last() == '\r' {
        line.drop_last()
    } else {
        line
    }
}

/// The finished lines of `s` and the unfinished one after the last newline.
pub open spec fn lines_acc(s: Seq<char>) -> (Seq<Seq<char>>, Seq<char>)
    decreases s.len(),
{
    if s.len() == 0 {
        (Seq::empty(), Seq::empty())
    } else {
        let (done, cur) = lines_acc(s.drop_last());
        if s.last() == '\n' {
            (done.push(strip_cr(cur)), Seq::empty())
        } else {
            (done, cur.push(s.last()))
        }
    }
}

/// The lines of `s` as `str::lines` yields them: split at each newline, a
/// carriage return before a newline dropped, and no empty line after a final newline.
pub open spec fn lines_of(s: Seq<char>) -> Seq<Seq<char>> {
    let (done, cur) = lines_acc(s);
    if cur.len() > 0 {
        done.push(cur)
    } else {
        done
    }
}

/// Splits `s` into its lines.
pub fn split_lines(s: &Vec<char>) -> (lines: Vec<Vec<char>>)
    ensures
        lines@.len() == lines_of(s@).len(),
        forall|i: int| 0 <= i < lines@.len() ==> #[trigger] lines@[i]@ == lines_of(s@)[i],
{
    let mut lines: Vec<Vec<char>> = Vec::new();
    let mut cur: Vec<char> = Vec::new();
    let mut i: usize = 0;
    while i < s.len()
        invariant
            i <= s@.len(),
            ({
                let (done, c) = lines_acc(s@.take(i as int));
                &&& lines@.len() == done.len()
                &&& forall|k: int| 0 <= k < lines@.len() ==> #[trigger] lines@[k]@ == done[k]
                &&& cur@ == c
            }),
        decreases s@.len() - i,
    {
        let c = s[i];
        proof {
            assert(s@.take(i + 1).drop_last() =~= s@.take(i as int));
            assert(s@.take(i + 1).last() == c);
        }
        if c == '\n' {
            let n = cur.len();
            if n > 0 && cur[n - 1] == '\r' {
                cur.pop();
            }
            lines.push(cur);
            cur = Vec::new();
        } else {
            cur.push(c);
        }
        i = i + 1;
    }
    if cur.len() > 0 {
        lines.push(cur);
    }
    proof {
        assert(s@.take(s@.len() as int) =~= s@);
    }
    lines
}

/// Appends the characters of `t` to `s`.
pub fn append_slice(s: &mut String, t: &[char])
    ensures
        final(s)@ == old(s)@ + t@,
{
    let mut i: usize = 0;
    while i < t.len()
        invariant
            i <= t@.len(),
            s@ == old(s)@ + t@.take(i as int),
        decreases t@.len() - i,
    {
        s.push(t[i]);
        proof {
            assert(old(s)@ + t@.take(i + 1) =~= (old(s)@ + t@.take(i as int)).push(t@[i as int]));
        }
        i = i + 1;
    }
    proof {
        assert(t@.take(t@.len() as int) =~= t@);
    }
}

/// The string of the characters `v`.
pub fn string_of_chars(v: &Vec<char>) -> (s: String)
    ensures
        s@ == v@,
{
    let mut s = String::new();
    append_chars(&mut s, v);
    proof {
        assert(Seq::<char>::empty() + v@ =~= v@);
    }
    s
}

} // verus!
