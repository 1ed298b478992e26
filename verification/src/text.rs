//! Character-level text model: Unicode white space, trimming, splitting a
//! line into space-separated tokens, splitting input into lines, and the
//! decimal notation accepted for `usize`.

use vstd::prelude::*;

verus! {

/// Unicode `White_Space` (the property that `char::is_whitespace` and
/// `str::trim` use).
pub open spec fn is_white_space(c: char) -> bool {
    let u = c as u32;
    (0x9 <= u && u <= 0xd) || u == 0x20 || u == 0x85 || u == 0xa0 || u == 0x1680
        || (0x2000 <= u && u <= 0x200a) || u == 0x2028 || u == 0x2029 || u == 0x202f
        || u == 0x205f || u == 0x3000
}

/// `s` with its leading white space removed.
pub open spec fn trim_start(s: Seq<char>) -> Seq<char>
    decreases s.len(),
{
    if s.len() > 0 && is_white_space(s[0]) {
        trim_start(s.drop_first())
    } else {
        s
    }
}

/// `s` with its trailing white space removed.
pub open spec fn trim_end(s: Seq<char>) -> Seq<char>
    decreases s.len(),
{
    if s.len() > 0 && is_white_space(s.last()) {
        trim_end(s.drop_last())
    } else {
        s
    }
}

/// `s` with leading and trailing white space removed, as `str::trim` does.
pub open spec fn trim(s: Seq<char>) -> Seq<char> {
    trim_end(trim_start(s))
}

/// Whether `c` is Unicode white space.
pub fn is_whitespace_char(c: char) -> (b: bool)
    ensures
        b == is_white_space(c),
{
    let u = c as u32;
    (0x9 <= u && u <= 0xd) || u == 0x20 || u == 0x85 || u == 0xa0 || u == 0x1680 || (0x2000 <= u
        && u <= 0x200a) || u == 0x2028 || u == 0x2029 || u == 0x202f || u == 0x205f || u == 0x3000
}

/// The line with leading and trailing white space removed.
pub fn trim_chars(line: &Vec<char>) -> (res: Vec<char>)
    ensures
        res@ == trim(line@),
        res@.len() > 0 ==> !is_white_space(res@[0]),
{
    let n = line.len();
    let mut l: usize = 0;
    assert(line@.skip(0) =~= line@);
    while l < n && is_whitespace_char(line[l])
        invariant
            l <= n,
            n == line@.len(),
            trim_start(line@) == trim_start(line@.skip(l as int)),
        decreases n - l,
    {
        assert(line@.skip(l as int).drop_first() =~= line@.skip(l + 1));
        l = l + 1;
    }
    assert(trim_start(line@) == line@.skip(l as int)) by {
        if l == n {
            assert(line@.skip(l as int).len() == 0);
        }
    }
    let mut r: usize = n;
    while r > l && is_whitespace_char(line[r - 1])
        invariant
            l <= r <= n,
            n == line@.len(),
            trim_end(line@.subrange(l as int, n as int)) == trim_end(
                line@.subrange(l as int, r as int),
            ),
        decreases r,
    {
        assert(line@.subrange(l as int, r as int).drop_last() =~= line@.subrange(
            l as int,
            r - 1,
        ));
        r = r - 1;
    }
    assert(line@.skip(l as int) =~= line@.subrange(l as int, n as int));
    assert(trim(line@) == line@.subrange(l as int, r as int));
    let mut res: Vec<char> = Vec::new();
    let mut k: usize = l;
    while k < r
        invariant
            l <= k <= r <= n,
            n == line@.len(),
            res@ == line@.subrange(l as int, k as int),
        decreases r - k,
    {
        res.push(line[k]);
        assert(res@ =~= line@.subrange(l as int, k + 1));
        k = k + 1;
    }
    res
}


/// Length of the token at the start of `s`: the characters before the
/// first space.
pub open spec fn token_len(s: Seq<char>) -> nat
    decreases s.len(),
{
    if s.len() == 0 || s[0] == ' ' {
        0
    } else {
        1 + token_len(s.drop_first())
    }
}

pub proof fn lemma_token_len_bound(s: Seq<char>)
    ensures
        token_len(s) <= s.len(),
        s.len() > 0 && s[0] != ' ' ==> token_len(s) > 0,
    decreases s.len(),
{
    if s.len() > 0 && s[0] != ' ' {
        lemma_token_len_bound(s.drop_first());
    }
}

/// The tokens of `s`: its maximal runs of characters other than a space,
/// in order.
pub open spec fn words(s: Seq<char>) -> Seq<Seq<char>>
    decreases s.len(),
{
    if s.len() == 0 {
        seq![]
    } else if s[0] == ' ' {
        words(s.drop_first())
    } else {
        proof {
            lemma_token_len_bound(s);
        }
        seq![s.take(token_len(s) as int)] + words(s.skip(token_len(s) as int))
    }
}

proof fn lemma_token_has_no_space(s: Seq<char>)
    ensures
        forall|k: int| 0 <= k < token_len(s) ==> s[k] != ' ',
    decreases s.len(),
{
    lemma_token_len_bound(s);
    if s.len() > 0 && s[0] != ' ' {
        lemma_token_has_no_space(s.drop_first());
        assert forall|k: int| 0 <= k < token_len(s) implies s[k] != ' ' by {
            if k > 0 {
                assert(s[k] == s.drop_first()[k - 1]);
            }
        }
    }
}

/// Every token is non-empty and holds no space.
pub proof fn lemma_words_are_tokens(s: Seq<char>)
    ensures
        forall|k: int| 0 <= k < words(s).len() ==> (#[trigger] words(s)[k]).len() > 0 && !words(
            s,
        )[k].contains(' '),
    decreases s.len(),
{
    if s.len() > 0 {
        if s[0] == ' ' {
            lemma_words_are_tokens(s.drop_first());
            assert(words(s) == words(s.drop_first()));
        } else {
            lemma_token_len_bound(s);
            lemma_token_has_no_space(s);
            let t = token_len(s) as int;
            lemma_words_are_tokens(s.skip(t));
            let w = words(s);
            assert(w == seq![s.take(t)] + words(s.skip(t)));
            assert forall|k: int| 0 <= k < w.len() implies (#[trigger] w[k]).len() > 0 && !w[k].contains(' ') by {
                if k == 0 {
                    if s.take(t).contains(' ') {
                        let q = choose|q: int| 0 <= q < t && s.take(t)[q] == ' ';
                        assert(s[q] == ' ');
                    }
                } else {
                    assert(w[k] == words(s.skip(t))[k - 1]);
                }
            }
        }
    }
}

/// Length of the first line of `s`, its line break included (as
/// `BufRead::read_line` reads it).
pub open spec fn line_len(s: Seq<char>) -> nat
    decreases s.len(),
{
    if s.len() == 0 {
        0
    } else if s[0] == '\n' {
        1
    } else {
        1 + line_len(s.drop_first())
    }
}

pub proof fn lemma_line_len_bound(s: Seq<char>)
    ensures
        line_len(s) <= s.len(),
        s.len() > 0 ==> line_len(s) > 0,
    decreases s.len(),
{
    if s.len() > 0 && s[0] != '\n' {
        lemma_line_len_bound(s.drop_first());
    }
}

/// The tokens of a text read line by line, each line trimmed and split at
/// spaces.
pub open spec fn line_tokens(s: Seq<char>) -> Seq<Seq<char>>
    decreases s.len(),
{
    if s.len() == 0 {
        seq![]
    } else {
        proof {
            lemma_line_len_bound(s);
        }
        words(trim(s.take(line_len(s) as int))) + line_tokens(s.skip(line_len(s) as int))
    }
}

/// Whether `c` is an ASCII decimal digit.
pub open spec fn is_digit(c: char) -> bool {
    '0' <= c && c <= '9'
}

/// The value of a string of decimal digits.
pub open spec fn digits_value(s: Seq<char>) -> nat
    decreases s.len(),
{
    if s.len() == 0 {
        0
    } else {
        digits_value(s.drop_last()) * 10 + ((s.last() as u32) - ('0' as u32)) as nat
    }
}

/// The text after an optional leading `+`.
pub open spec fn unsigned_digits(s: Seq<char>) -> Seq<char> {
    if s.len() > 0 && s[0] == '+' {
        s.drop_first()
    } else {
        s
    }
}

/// What `usize::from_str` gives: an optional `+`, then one or more decimal
/// digits whose value fits in `usize`.
pub open spec fn spec_parse_usize(s: Seq<char>) -> Option<usize> {
    let d = unsigned_digits(s);
    if d.len() > 0 && (forall|i: int| 0 <= i < d.len() ==> is_digit(#[trigger] d[i]))
        && digits_value(d) <= usize::MAX {
        Some(digits_value(d) as usize)
    } else {
        None
    }
}

proof fn lemma_digits_value_prefix(s: Seq<char>, i: int)
    requires
        0 <= i <= s.len(),
        forall|k: int| 0 <= k < s.len() ==> is_digit(#[trigger] s[k]),
    ensures
        digits_value(s.take(i)) <= digits_value(s),
    decreases s.len() - i,
{
    if i < s.len() {
        lemma_digits_value_prefix(s, i + 1);
        assert(s.take(i + 1).drop_last() =~= s.take(i));
    } else {
        assert(s.take(i) =~= s);
    }
}

/// Parses a token as `usize::from_str` does.
pub fn parse_usize(tok: &Vec<char>) -> (res: Option<usize>)
    ensures
        res == spec_parse_usize(tok@),
{
    let n = tok.len();
    let start: usize = if n > 0 && tok[0] == '+' {
        1
    } else {
        0
    };
    let ghost d = unsigned_digits(tok@);
    assert(d =~= tok@.skip(start as int));
    if start == n {
        return None;
    }
    let mut k: usize = start;
    while k < n
        invariant
            start <= k <= n,
            n == tok@.len(),
            d =~= tok@.skip(start as int),
            d == unsigned_digits(tok@),
            forall|i: int| start <= i < k ==> is_digit(#[trigger] tok@[i]),
        decreases n - k,
    {
        if !('0' <= tok[k] && tok[k] <= '9') {
            assert(!is_digit(d[k - start]));
            return None;
        }
        k = k + 1;
    }
    assert(forall|i: int| 0 <= i < d.len() ==> is_digit(#[trigger] d[i]) ) by {
        assert forall|i: int| 0 <= i < d.len() implies is_digit(#[trigger] d[i]) by {
            assert(d[i] == tok@[start + i]);
        }
    }
    let mut v: usize = 0;
    let mut k: usize = start;
    assert(d.take(0) =~= Seq::<char>::empty());
    while k < n
        invariant
            start <= k <= n,
            n == tok@.len(),
            d =~= tok@.skip(start as int),
            d == unsigned_digits(tok@),
            forall|i: int| 0 <= i < d.len() ==> is_digit(#[trigger] d[i]),
            v == digits_value(d.take(k - start)),
        decreases n - k,
    {
        let c = tok[k];
        assert(c == d[k - start]);
        assert(is_digit(d[k - start]));
        let digit = (c as u32 - '0' as u32) as usize;
        assert(d.take(k + 1 - start).drop_last() =~= d.take(k - start));
        assert(d.take(k + 1 - start).last() == c);
        assert(digits_value(d.take(k + 1 - start)) == v * 10 + digit);
        proof {
            lemma_digits_value_prefix(d, k + 1 - start);
        }
        match v.checked_mul(10) {
            Some(t) => match t.checked_add(digit) {
                Some(u) => {
                    v = u;
                },
                None => {
                    return None;
                },
            },
            None => {
                return None;
            },
        }
        k = k + 1;
    }
    assert(d.take(n - start) =~= d);
    Some(v)
}

/// Among ASCII characters, white space is exactly tab, line feed,
/// vertical tab, form feed, carriage return and space: no letter, digit or
/// punctuation mark is white space. No character above U+3000 is.
pub proof fn lemma_white_space_characters(c: char)
    ensures
        (c as u32) < 0x80 ==> (is_white_space(c) <==> (c == '\t' || c == '\n' || c == '\u{0b}'
            || c == '\u{0c}' || c == '\r' || c == ' ')),
        (c as u32) > 0x3000 ==> !is_white_space(c),
        is_digit(c) ==> !is_white_space(c),
{
}

proof fn lemma_trim_start(s: Seq<char>) -> (l: int)
    ensures
        0 <= l <= s.len(),
        trim_start(s) == s.skip(l),
        forall|k: int| 0 <= k < l ==> is_white_space(#[trigger] s[k]),
        l < s.len() ==> !is_white_space(s[l]),
    decreases s.len(),
{
    if s.len() > 0 && is_white_space(s[0]) {
        let l1 = lemma_trim_start(s.drop_first());
        assert(s.drop_first().skip(l1) =~= s.skip(l1 + 1));
        assert forall|k: int| 0 <= k < l1 + 1 implies is_white_space(#[trigger] s[k]) by {
            if k > 0 {
                assert(s[k] == s.drop_first()[k - 1]);
            }
        }
        l1 + 1
    } else {
        assert(s.skip(0) =~= s);
        0
    }
}

proof fn lemma_trim_end(s: Seq<char>) -> (r: int)
    ensures
        0 <= r <= s.len(),
        trim_end(s) == s.take(r),
        forall|k: int| r <= k < s.len() ==> is_white_space(#[trigger] s[k]),
        r > 0 ==> !is_white_space(s[r - 1]),
    decreases s.len(),
{
    if s.len() > 0 && is_white_space(s.last()) {
        let r1 = lemma_trim_end(s.drop_last());
        assert(s.drop_last().take(r1) =~= s.take(r1));
        assert forall|k: int| r1 <= k < s.len() implies is_white_space(#[trigger] s[k]) by {
            if k < s.len() - 1 {
                assert(s[k] == s.drop_last()[k]);
            }
        }
        r1
    } else {
        assert(s.take(s.len() as int) =~= s);
        s.len() as int
    }
}

/// Trimming cuts white space off both ends and nothing else: the result is
/// the part of `s` from `l` to `r`, everything before `l` and from `r` on is
/// white space, and the result neither starts nor ends with white space.
pub proof fn lemma_trim(s: Seq<char>) -> (lr: (int, int))
    ensures
        0 <= lr.0 <= lr.1 <= s.len(),
        trim(s) == s.subrange(lr.0, lr.1),
        forall|k: int| 0 <= k < lr.0 ==> is_white_space(#[trigger] s[k]),
        forall|k: int| lr.1 <= k < s.len() ==> is_white_space(#[trigger] s[k]),
        lr.0 < lr.1 ==> !is_white_space(s[lr.0]) && !is_white_space(s[lr.1 - 1]),
{
    let l = lemma_trim_start(s);
    let u = s.skip(l);
    let r = lemma_trim_end(u);
    assert(u.take(r) =~= s.subrange(l, l + r));
    assert forall|k: int| l + r <= k < s.len() implies is_white_space(#[trigger] s[k]) by {
        assert(s[k] == u[k - l]);
    }
    if r > 0 {
        assert(u[r - 1] == s[l + r - 1]);
        assert(u[0] == s[l]);
        if l == s.len() {
            assert(u.len() == 0);
        }
    }
    (l, l + r)
}

proof fn lemma_token_len_push_space(t: Seq<char>)
    ensures
        token_len(t.push(' ')) == token_len(t),
    decreases t.len(),
{
    if t.len() > 0 && t[0] != ' ' {
        lemma_token_len_push_space(t.drop_first());
        assert(t.push(' ').drop_first() =~= t.drop_first().push(' '));
    }
}

/// A space at the end of a text adds no token.
pub proof fn lemma_words_push_space(t: Seq<char>)
    ensures
        words(t.push(' ')) == words(t),
    decreases t.len(),
{
    let u = t.push(' ');
    if t.len() == 0 {
        assert(u.drop_first() =~= Seq::<char>::empty());
        assert(words(u) == words(u.drop_first()));
    } else if t[0] == ' ' {
        lemma_words_push_space(t.drop_first());
        assert(u.drop_first() =~= t.drop_first().push(' '));
        assert(u[0] == ' ');
    } else {
        assert(u[0] == t[0]);
        lemma_token_len_push_space(t);
        lemma_token_len_bound(t);
        let k = token_len(t) as int;
        lemma_words_push_space(t.skip(k));
        assert(u.skip(k) =~= t.skip(k).push(' '));
        assert(u.take(k) =~= t.take(k));
    }
}

/// The tokens of a line of digits and spaces are exactly its runs of
/// digits, whether or not it is trimmed first: trimming takes no digit.
pub proof fn lemma_digit_line_tokens(s: Seq<char>)
    requires
        forall|k: int| 0 <= k < s.len() ==> is_digit(#[trigger] s[k]) || s[k] == ' ',
    ensures
        words(trim(s)) == words(s),
{
    let (l, r) = lemma_trim(s);
    assert forall|k: int| 0 <= k < s.len() && is_white_space(#[trigger] s[k]) implies s[k] == ' ' by {
        lemma_white_space_characters(s[k]);
    }
    lemma_words_skip_spaces(s, 0, l);
    assert(s.skip(0) =~= s);
    lemma_words_drop_trailing_spaces(s, l, s.len() as int, r);
    assert(s.subrange(l, s.len() as int) =~= s.skip(l));
}

proof fn lemma_words_skip_spaces(s: Seq<char>, j: int, l: int)
    requires
        0 <= j <= l <= s.len(),
        forall|k: int| j <= k < l ==> s[k] == ' ',
    ensures
        words(s.skip(j)) == words(s.skip(l)),
    decreases l - j,
{
    if j < l {
        assert(s.skip(j).drop_first() =~= s.skip(j + 1));
        lemma_words_skip_spaces(s, j + 1, l);
    }
}

proof fn lemma_words_drop_trailing_spaces(s: Seq<char>, l: int, e: int, r: int)
    requires
        0 <= l <= r <= e <= s.len(),
        forall|k: int| r <= k < e ==> s[k] == ' ',
    ensures
        words(s.subrange(l, e)) == words(s.subrange(l, r)),
    decreases e - r,
{
    if e > r {
        assert(s.subrange(l, e) =~= s.subrange(l, e - 1).push(' '));
        lemma_words_push_space(s.subrange(l, e - 1));
        lemma_words_drop_trailing_spaces(s, l, e - 1, r);
    }
}

/// The decimal notation of `v`, without sign or leading zeros.
pub open spec fn decimal(v: nat) -> Seq<char>
    decreases v,
{
    if v < 10 {
        seq![((v + 48) as u32) as char]
    } else {
        decimal(v / 10).push((((v % 10) + 48) as u32) as char)
    }
}

proof fn lemma_decimal_digits(v: nat)
    ensures
        decimal(v).len() > 0,
        forall|i: int| 0 <= i < decimal(v).len() ==> is_digit(#[trigger] decimal(v)[i]),
        decimal(v)[0] != '+',
        digits_value(decimal(v)) == v,
    decreases v,
{
    if v >= 10 {
        lemma_decimal_digits(v / 10);
        let d = decimal(v);
        assert(d.drop_last() =~= decimal(v / 10));
        assert(d[0] == decimal(v / 10)[0]);
        assert forall|i: int| 0 <= i < d.len() implies is_digit(#[trigger] d[i]) by {
            if i < d.len() - 1 {
                assert(d[i] == decimal(v / 10)[i]);
            }
        }
        assert(v == (v / 10) * 10 + v % 10) by (nonlinear_arith);
        let c = (((v % 10) + 48) as u32) as char;
        assert(c as u32 == (v % 10) + 48);
        assert(d.last() == c);
        assert(('0' as u32) == 48);
        assert(digits_value(d) == digits_value(decimal(v / 10)) * 10 + v % 10);
    } else {
        assert(decimal(v).drop_last() =~= Seq::<char>::empty());
        let c = ((v + 48) as u32) as char;
        assert(c as u32 == v + 48);
        assert(decimal(v).last() == c);
        assert(('0' as u32) == 48);
        assert(digits_value(decimal(v).drop_last()) == 0);
        assert(digits_value(decimal(v)) == v);
    }
}

/// Every `usize` written in decimal is read back as itself.
pub proof fn lemma_parse_usize_decimal(v: usize)
    ensures
        spec_parse_usize(decimal(v as nat)) == Some(v),
{
    lemma_decimal_digits(v as nat);
}

/// A number above `usize::MAX` is refused; zeros in front of a number
/// change nothing.
pub proof fn lemma_parse_usize_range(v: nat)
    ensures
        v > usize::MAX ==> spec_parse_usize(decimal(v)) is None,
        v <= usize::MAX ==> spec_parse_usize(seq!['0'] + decimal(v)) == Some(v as usize),
{
    lemma_decimal_digits(v);
    let z = seq!['0'] + decimal(v);
    lemma_digits_value_zero_front(decimal(v));
    assert forall|i: int| 0 <= i < z.len() implies is_digit(#[trigger] z[i]) by {
        if i > 0 {
            assert(z[i] == decimal(v)[i - 1]);
        }
    }
}

proof fn lemma_digits_value_zero_front(s: Seq<char>)
    ensures
        digits_value(seq!['0'] + s) == digits_value(s),
    decreases s.len(),
{
    let z = seq!['0'] + s;
    if s.len() == 0 {
        assert(z.drop_last() =~= Seq::<char>::empty());
        assert(digits_value(z.drop_last()) == 0);
        assert(z.last() == '0');
        assert(digits_value(s) == 0);
    } else {
        lemma_digits_value_zero_front(s.drop_last());
        assert(z.drop_last() =~= seq!['0'] + s.drop_last());
        assert(z.last() == s.last());
        assert(digits_value(z) == digits_value(z.drop_last()) * 10 + ((z.last() as u32) - ('0' as u32)) as nat);
    }
}

/// A `+` in front changes nothing, and a string with anything but
/// decimal digits after the optional `+` is refused.
pub proof fn lemma_parse_usize_form(s: Seq<char>)
    ensures
        s.len() > 0 && s[0] != '+' ==> spec_parse_usize(seq!['+'] + s) == spec_parse_usize(s),
        (exists|i: int| 0 <= i < s.len() && !is_digit(#[trigger] s[i]) && !(i == 0 && s[i] == '+'))
            ==> spec_parse_usize(s) is None,
        s.len() == 0 ==> spec_parse_usize(s) is None,
        s == seq!['+'] ==> spec_parse_usize(s) is None,
{
    if s.len() > 0 && s[0] != '+' {
        assert((seq!['+'] + s).drop_first() =~= s);
    }
    if exists|i: int| 0 <= i < s.len() && !is_digit(#[trigger] s[i]) && !(i == 0 && s[i] == '+') {
        let i = choose|i: int| 0 <= i < s.len() && !is_digit(#[trigger] s[i]) && !(i == 0 && s[i] == '+');
        let d = unsigned_digits(s);
        if s.len() > 0 && s[0] == '+' {
            assert(d[i - 1] == s[i]);
        } else {
            assert(d[i] == s[i]);
        }
    }
}

} // verus!
