use vstd::prelude::*;

verus! {

/// The rows of a `Vec` of character vectors, as sequences.
pub open spec fn char_rows(v: Seq<Vec<char>>) -> Seq<Seq<char>> {
    v.map_values(|l: Vec<char>| l@)
}

/// Each piece trimmed of white space at both ends.
pub open spec fn trim_each(pieces: Seq<Seq<char>>) -> Seq<Seq<char>> {
    pieces.map_values(|t: Seq<char>| trim(t))
}

/// The characters of `s`, in order.
pub fn chars_of(s: &str) -> (v: Vec<char>)
    ensures
        v@ == s@,
{
    let mut v: Vec<char> = Vec::new();
    for c in it: s.chars()
        invariant
            v@ == it.seq().take(it.index() as int),
    {
        v.push(c);
        assert(v@ =~= it.seq().take(it.index() + 1));
    }
    v
}

/// Index of the first `c` in `s`, or -1 when `s` has none.
pub open spec fn first_index_of(s: Seq<char>, c: char) -> int
    decreases s.len(),
{
    if s.len() == 0 {
        -1
    } else if s[0] == c {
        0
    } else {
        let r = first_index_of(s.drop_first(), c);
        if r < 0 {
            -1
        } else {
            r + 1
        }
    }
}

/// Where `first_index_of` points, and that no earlier entry matches.
pub proof fn lemma_first_index_of(s: Seq<char>, c: char)
    ensures
        -1 <= first_index_of(s, c) < s.len(),
        first_index_of(s, c) >= 0 ==> s[first_index_of(s, c)] == c,
        forall|i: int| 0 <= i < s.len() && (first_index_of(s, c) < 0 || i < first_index_of(s, c))
            ==> s[i] != c,
    decreases s.len(),
{
    if s.len() > 0 && s[0] != c {
        lemma_first_index_of(s.drop_first(), c);
        assert forall|i: int|
            0 <= i < s.len() && (first_index_of(s, c) < 0 || i < first_index_of(s, c)) implies s[i]
            != c by {
            if i > 0 {
                assert(s[i] == s.drop_first()[i - 1]);
            }
        }
    }
}

/// A line without the carriage return that ends it, if any.
pub open spec fn strip_cr(line: Seq<char>) -> Seq<char> {
    if line.len() > 0 && line.last() == '\r' {
        line.drop_last()
    } else {
        line
    }
}

/// The lines of `s` as `str::lines` gives them: split after each `\n`, the
/// `\n` and a `\r` right before it removed, no empty line after a final
/// `\n`.
pub open spec fn lines_of(s: Seq<char>) -> Seq<Seq<char>>
    decreases s.len(),
{
    if s.len() == 0 {
        seq![]
    } else {
        let k = first_index_of(s, '\n');
        if k < 0 {
            seq![s]
        } else {
            proof {
                lemma_first_index_of(s, '\n');
            }
            seq![strip_cr(s.take(k))] + lines_of(s.skip(k + 1))
        }
    }
}

/// Splits `text` into lines, as `str::lines` does.
pub fn split_lines(text: &Vec<char>) -> (lines: Vec<Vec<char>>)
    ensures
        char_rows(lines@) == lines_of(text@),
{
    let mut lines: Vec<Vec<char>> = Vec::new();
    let mut current: Vec<char> = Vec::new();
    let mut start: usize = 0;
    let mut i: usize = 0;
    proof {
        assert(text@.skip(0) =~= text@);
        assert(char_rows(lines@) + lines_of(text@) =~= lines_of(text@));
    }
    while i < text.len()
        invariant
            start <= i <= text@.len(),
            current@ == text@.subrange(start as int, i as int),
            forall|j: int| start <= j < i ==> text@[j] != '\n',
            char_rows(lines@) + lines_of(text@.skip(start as int)) == lines_of(
                text@,
            ),
        decreases text@.len() - i,
    {
        if text[i] == '\n' {
            proof {
                let rest = text@.skip(start as int);
                lemma_first_index_of(rest, '\n');
                assert(rest[i - start] == '\n');
                if first_index_of(rest, '\n') < i - start {
                    assert(rest[first_index_of(rest, '\n')] == text@[start + first_index_of(rest, '\n')]);
                }
                assert(first_index_of(rest, '\n') == i - start);
                assert(rest.take(i - start) =~= current@);
                assert(rest.skip(i - start + 1) =~= text@.skip(i + 1));
            }
            let mut line = current;
            if line.len() > 0 && line[line.len() - 1] == '\r' {
                line.pop();
            }
            proof {
                assert(line@ == strip_cr(text@.subrange(start as int, i as int)));
            }
            let ghost before = lines@;
            lines.push(line);
            proof {
                assert(char_rows(lines@) =~= char_rows(before).push(
                    line@,
                ));
            }
            current = Vec::new();
            start = i + 1;
        } else {
            current.push(text[i]);
        }
        i = i + 1;
        assert(current@ =~= text@.subrange(start as int, i as int));
    }
    if start < text.len() {
        proof {
            let rest = text@.skip(start as int);
            lemma_first_index_of(rest, '\n');
            if first_index_of(rest, '\n') >= 0 {
                assert(rest[first_index_of(rest, '\n')] == text@[start + first_index_of(rest, '\n')]);
            }
            assert(rest =~= current@);
        }
        let ghost before = lines@;
        lines.push(current);
        proof {
            assert(char_rows(lines@) =~= char_rows(before).push(
                text@.skip(start as int),
            ));
        }
    } else {
        assert(text@.skip(start as int) =~= Seq::<char>::empty());
    }
    proof {
        let v = char_rows(lines@);
        assert(v + Seq::<Seq<char>>::empty() =~= v);
    }
    lines
}

/// `c` is white space in the sense of `char::is_whitespace` (the Unicode
/// `White_Space` property).
pub open spec fn is_space(c: char) -> bool {
    let u = c as u32;
    ||| 0x9 <= u <= 0xd
    ||| u == 0x20
    ||| u == 0x85
    ||| u == 0xa0
    ||| u == 0x1680
    ||| 0x2000 <= u <= 0x200a
    ||| u == 0x2028
    ||| u == 0x2029
    ||| u == 0x202f
    ||| u == 0x205f
    ||| u == 0x3000
}

/// What a trim removes: white space (`None`) or one given character.
pub open spec fn trimmed_char(c: char, which: Option<char>) -> bool {
    match which {
        None => is_space(c),
        Some(x) => c == x,
    }
}

/// `s` without the leading characters that the trim removes.
pub open spec fn trim_start_by(s: Seq<char>, which: Option<char>) -> Seq<char>
    decreases s.len(),
{
    if s.len() > 0 && trimmed_char(s[0], which) {
        trim_start_by(s.drop_first(), which)
    } else {
        s
    }
}

/// `s` without the trailing characters that the trim removes.
pub open spec fn trim_end_by(s: Seq<char>, which: Option<char>) -> Seq<char>
    decreases s.len(),
{
    if s.len() > 0 && trimmed_char(s.last(), which) {
        trim_end_by(s.drop_last(), which)
    } else {
        s
    }
}

/// `str::trim`: white space removed at both ends.
pub open spec fn trim(s: Seq<char>) -> Seq<char> {
    trim_end_by(trim_start_by(s, None), None)
}

fn is_space_exec(c: char) -> (b: bool)
    ensures
        b == is_space(c),
{
    let u = c as u32;
    (0x9 <= u && u <= 0xd) || u == 0x20 || u == 0x85 || u == 0xa0 || u == 0x1680 || (0x2000 <= u
        && u <= 0x200a) || u == 0x2028 || u == 0x2029 || u == 0x202f || u == 0x205f || u == 0x3000
}

fn trimmed_char_exec(c: char, which: Option<char>) -> (b: bool)
    ensures
        b == trimmed_char(c, which),
{
    match which {
        None => is_space_exec(c),
        Some(x) => c == x,
    }
}

proof fn lemma_trim_start_skip(s: Seq<char>, which: Option<char>, i: int)
    requires
        0 <= i <= s.len(),
        forall|j: int| 0 <= j < i ==> trimmed_char(#[trigger] s[j], which),
        i == s.len() || !trimmed_char(s[i], which),
    ensures
        trim_start_by(s, which) == s.skip(i),
    decreases i,
{
    if i > 0 {
        let t = s.drop_first();
        assert forall|j: int| 0 <= j < i - 1 implies trimmed_char(#[trigger] t[j], which) by {
            assert(t[j] == s[j + 1]);
        }
        if i < s.len() {
            assert(t[i - 1] == s[i]);
        }
        lemma_trim_start_skip(t, which, i - 1);
        assert(t.skip(i - 1) =~= s.skip(i));
    } else {
        assert(s.skip(0) =~= s);
    }
}

proof fn lemma_trim_end_take(s: Seq<char>, which: Option<char>, i: int)
    requires
        0 <= i <= s.len(),
        forall|j: int| i <= j < s.len() ==> trimmed_char(#[trigger] s[j], which),
        i == 0 || !trimmed_char(s[i - 1], which),
    ensures
        trim_end_by(s, which) == s.take(i),
    decreases s.len() - i,
{
    if i < s.len() {
        let t = s.drop_last();
        assert forall|j: int| i <= j < t.len() implies trimmed_char(#[trigger] t[j], which) by {
            assert(t[j] == s[j]);
        }
        if i > 0 {
            assert(t[i - 1] == s[i - 1]);
        }
        lemma_trim_end_take(t, which, i);
        assert(t.take(i) =~= s.take(i));
    } else {
        assert(s.take(s.len() as int) =~= s);
    }
}

/// The characters of `s[lo..hi]`.
fn sub_chars(s: &Vec<char>, lo: usize, hi: usize) -> (r: Vec<char>)
    requires
        lo <= hi <= s@.len(),
    ensures
        r@ == s@.subrange(lo as int, hi as int),
{
    let mut r: Vec<char> = Vec::new();
    let mut k: usize = lo;
    while k < hi
        invariant
            lo <= k <= hi,
            hi <= s@.len(),
            r@ == s@.subrange(lo as int, k as int),
        decreases hi - k,
    {
        r.push(s[k]);
        k = k + 1;
        assert(r@ =~= s@.subrange(lo as int, k as int));
    }
    r
}

/// `s` without its leading trimmed characters.
fn trim_start_exec(s: &Vec<char>, which: Option<char>) -> (r: Vec<char>)
    ensures
        r@ == trim_start_by(s@, which),
{
    let mut i: usize = 0;
    while i < s.len() && trimmed_char_exec(s[i], which)
        invariant
            i <= s@.len(),
            forall|j: int| 0 <= j < i ==> trimmed_char(#[trigger] s@[j], which),
        decreases s@.len() - i,
    {
        i = i + 1;
    }
    proof {
        lemma_trim_start_skip(s@, which, i as int);
        assert(s@.subrange(i as int, s@.len() as int) =~= s@.skip(i as int));
    }
    sub_chars(s, i, s.len())
}

/// `s` without its trailing trimmed characters.
fn trim_end_exec(s: &Vec<char>, which: Option<char>) -> (r: Vec<char>)
    ensures
        r@ == trim_end_by(s@, which),
{
    let mut i: usize = s.len();
    while i > 0 && trimmed_char_exec(s[i - 1], which)
        invariant
            i <= s@.len(),
            forall|j: int| i <= j < s@.len() ==> trimmed_char(#[trigger] s@[j], which),
        decreases i,
    {
        i = i - 1;
    }
    proof {
        lemma_trim_end_take(s@, which, i as int);
        assert(s@.subrange(0, i as int) =~= s@.take(i as int));
    }
    sub_chars(s, 0, i)
}

/// `str::trim` on characters.
pub(crate) fn trim_exec(s: &Vec<char>) -> (r: Vec<char>)
    ensures
        r@ == trim(s@),
{
    let a = trim_start_exec(s, None);
    trim_end_exec(&a, None)
}

/// The pieces of `s` between occurrences of `c` (`str::split` with a
/// character): one more piece than there are `c`s, possibly empty.
pub open spec fn split_on(s: Seq<char>, c: char) -> Seq<Seq<char>>
    decreases s.len(),
{
    let k = first_index_of(s, c);
    if k < 0 {
        seq![s]
    } else {
        proof {
            lemma_first_index_of(s, c);
        }
        seq![s.take(k)] + split_on(s.skip(k + 1), c)
    }
}

/// Index of the first occurrence of `c` in `s`.
fn index_of(s: &Vec<char>, c: char) -> (r: Option<usize>)
    ensures
        match r {
            Some(i) => i == first_index_of(s@, c),
            None => first_index_of(s@, c) < 0,
        },
{
    proof {
        lemma_first_index_of(s@, c);
    }
    let mut i: usize = 0;
    while i < s.len()
        invariant
            i <= s@.len(),
            forall|j: int| 0 <= j < i ==> s@[j] != c,
            -1 <= first_index_of(s@, c) < s@.len(),
            first_index_of(s@, c) >= 0 ==> s@[first_index_of(s@, c)] == c,
            forall|j: int|
                0 <= j < s@.len() && (first_index_of(s@, c) < 0 || j < first_index_of(s@, c))
                    ==> s@[j] != c,
        decreases s@.len() - i,
    {
        if s[i] == c {
            return Some(i);
        }
        i = i + 1;
    }
    None
}

/// `str::split(c)` on characters.
fn split_exec(s: &Vec<char>, c: char) -> (pieces: Vec<Vec<char>>)
    ensures
        char_rows(pieces@) == split_on(s@, c),
{
    let mut pieces: Vec<Vec<char>> = Vec::new();
    let mut rest = sub_chars(s, 0, s.len());
    assert(rest@ =~= s@);
    loop
        invariant
            char_rows(pieces@) + split_on(rest@, c) == split_on(s@, c),
        decreases rest@.len(),
    {
        match index_of(&rest, c) {
            None => {
                let ghost before = pieces@;
                let ghost last = rest@;
                pieces.push(rest);
                assert(char_rows(pieces@) =~= char_rows(before).push(last));
                return pieces;
            },
            Some(k) => {
                proof {
                    lemma_first_index_of(rest@, c);
                }
                let head = sub_chars(&rest, 0, k);
                let tail = sub_chars(&rest, k + 1, rest.len());
                assert(head@ =~= rest@.take(k as int));
                assert(tail@ =~= rest@.skip(k + 1));
                let ghost before = pieces@;
                pieces.push(head);
                assert(char_rows(pieces@) =~= char_rows(before).push(rest@.take(k as int)));
                rest = tail;
            },
        }
    }
}

/// An ASCII decimal digit.
pub open spec fn is_digit(c: char) -> bool {
    48 <= c as u32 <= 57
}

/// Only ASCII decimal digits.
pub open spec fn all_digits(s: Seq<char>) -> bool {
    forall|i: int| 0 <= i < s.len() ==> is_digit(#[trigger] s[i])
}

/// The number that a string of decimal digits writes.
pub open spec fn digits_value(s: Seq<char>) -> nat
    decreases s.len(),
{
    if s.len() == 0 {
        0
    } else {
        digits_value(s.drop_last()) * 10 + ((s.last() as u32) - 48) as nat
    }
}

/// What `str::parse::<usize>` accepts and gives: an optional `+`, then at
/// least one digit, with a value that fits in `usize`.
pub open spec fn parse_usize(s: Seq<char>) -> Option<usize> {
    let body = if s.len() > 0 && s[0] == '+' {
        s.drop_first()
    } else {
        s
    };
    if body.len() > 0 && all_digits(body) && digits_value(body) <= usize::MAX {
        Some(digits_value(body) as usize)
    } else {
        None
    }
}

fn is_digit_exec(c: char) -> (b: bool)
    ensures
        b == is_digit(c),
{
    let u = c as u32;
    48 <= u && u <= 57
}

fn all_digits_exec(s: &Vec<char>) -> (b: bool)
    ensures
        b == all_digits(s@),
{
    let mut i: usize = 0;
    while i < s.len()
        invariant
            i <= s@.len(),
            forall|j: int| 0 <= j < i ==> is_digit(#[trigger] s@[j]),
        decreases s@.len() - i,
    {
        if !is_digit_exec(s[i]) {
            return false;
        }
        i = i + 1;
    }
    true
}

proof fn lemma_digits_value_grows(s: Seq<char>, i: int)
    requires
        0 <= i <= s.len(),
        all_digits(s),
    ensures
        digits_value(s.take(i)) <= digits_value(s),
    decreases s.len() - i,
{
    if i < s.len() {
        lemma_digits_value_grows(s.drop_last(), i);
        assert(s.drop_last().take(i) =~= s.take(i));
        assert(is_digit(s[s.len() - 1]));
    } else {
        assert(s.take(i) =~= s);
    }
}

/// `str::parse::<usize>` on characters.
fn parse_usize_exec(s: &Vec<char>) -> (r: Option<usize>)
    ensures
        r == parse_usize(s@),
{
    let body = if s.len() > 0 && s[0] == '+' {
        sub_chars(s, 1, s.len())
    } else {
        sub_chars(s, 0, s.len())
    };
    assert(body@ =~= (if s@.len() > 0 && s@[0] == '+' {
        s@.drop_first()
    } else {
        s@
    }));
    if body.len() == 0 || !all_digits_exec(&body) {
        return None;
    }
    let mut value: usize = 0;
    let mut i: usize = 0;
    while i < body.len()
        invariant
            i <= body@.len(),
            all_digits(body@),
            body@.len() > 0,
            body@ == (if s@.len() > 0 && s@[0] == '+' {
                s@.drop_first()
            } else {
                s@
            }),
            value == digits_value(body@.take(i as int)),
        decreases body@.len() - i,
    {
        assert(body@.take(i + 1).drop_last() =~= body@.take(i as int));
        assert(is_digit(body@[i as int]));
        let d = (body[i] as u32 - 48) as usize;
        assert(digits_value(body@.take(i + 1)) == value * 10 + d);
        match value.checked_mul(10) {
            None => {
                proof {
                    lemma_digits_value_grows(body@, i + 1);
                    assert(digits_value(body@) > usize::MAX);
                }
                return None;
            },
            Some(m) => match m.checked_add(d) {
                None => {
                    proof {
                        lemma_digits_value_grows(body@, i + 1);
                        assert(digits_value(body@) > usize::MAX);
                    }
                    return None;
                },
                Some(v) => {
                    value = v;
                },
            },
        }
        i = i + 1;
    }
    assert(body@.take(body@.len() as int) =~= body@);
    Some(value)
}

/// `s` without one leading `+` or `-`.
pub open spec fn strip_sign(s: Seq<char>) -> Seq<char> {
    if s.len() > 0 && (s[0] == '+' || s[0] == '-') {
        s.drop_first()
    } else {
        s
    }
}

/// `c` is the lower-case ASCII letter `lower` or its capital.
pub open spec fn same_letter(c: char, lower: char) -> bool {
    c == lower || c as u32 + 32 == lower as u32
}

/// `s` spells `word` (lower-case ASCII) in any case.
pub open spec fn spells(s: Seq<char>, word: Seq<char>) -> bool {
    s.len() == word.len() && forall|i: int| 0 <= i < s.len() ==> same_letter(#[trigger] s[i], word[i])
}

/// Index of the first `e` or `E` in `s`, or -1.
pub open spec fn exponent_index(s: Seq<char>) -> int
    decreases s.len(),
{
    if s.len() == 0 {
        -1
    } else if s[0] == 'e' || s[0] == 'E' {
        0
    } else {
        let r = exponent_index(s.drop_first());
        if r < 0 {
            -1
        } else {
            r + 1
        }
    }
}

/// Digits with at most one `.`, and at least one digit.
pub open spec fn is_mantissa(m: Seq<char>) -> bool {
    let d = first_index_of(m, '.');
    if d < 0 {
        m.len() > 0 && all_digits(m)
    } else {
        all_digits(m.take(d)) && all_digits(m.skip(d + 1)) && m.len() >= 2
    }
}

/// A decimal number with an optional exponent `e`/`E`, an optional sign and
/// at least one digit.
pub open spec fn is_decimal(s: Seq<char>) -> bool {
    let e = exponent_index(s);
    if e < 0 {
        is_mantissa(s)
    } else {
        is_mantissa(s.take(e)) && {
            let x = strip_sign(s.skip(e + 1));
            x.len() > 0 && all_digits(x)
        }
    }
}

/// What `str::parse::<f64>` accepts, by its documented grammar read case
/// insensitively: an optional sign, then `inf`, `infinity`, `nan` or a
/// decimal number with an optional exponent.
pub open spec fn is_float_literal(s: Seq<char>) -> bool {
    let b = strip_sign(s);
    ||| spells(b, seq!['i', 'n', 'f'])
    ||| spells(b, seq!['i', 'n', 'f', 'i', 'n', 'i', 't', 'y'])
    ||| spells(b, seq!['n', 'a', 'n'])
    ||| is_decimal(b)
}

pub(crate) proof fn lemma_exponent_index(s: Seq<char>)
    ensures
        -1 <= exponent_index(s) < s.len(),
        exponent_index(s) >= 0 ==> (s[exponent_index(s)] == 'e' || s[exponent_index(s)] == 'E'),
        forall|i: int|
            0 <= i < s.len() && (exponent_index(s) < 0 || i < exponent_index(s)) ==> s[i] != 'e'
                && s[i] != 'E',
    decreases s.len(),
{
    if s.len() > 0 && !(s[0] == 'e' || s[0] == 'E') {
        lemma_exponent_index(s.drop_first());
        assert forall|i: int|
            0 <= i < s.len() && (exponent_index(s) < 0 || i < exponent_index(s)) implies s[i]
            != 'e' && s[i] != 'E' by {
            if i > 0 {
                assert(s[i] == s.drop_first()[i - 1]);
            }
        }
    }
}

fn exponent_index_exec(s: &Vec<char>) -> (r: Option<usize>)
    ensures
        match r {
            Some(i) => i == exponent_index(s@),
            None => exponent_index(s@) < 0,
        },
{
    proof {
        lemma_exponent_index(s@);
    }
    let mut i: usize = 0;
    while i < s.len()
        invariant
            i <= s@.len(),
            forall|j: int| 0 <= j < i ==> s@[j] != 'e' && s@[j] != 'E',
            -1 <= exponent_index(s@) < s@.len(),
            exponent_index(s@) >= 0 ==> (s@[exponent_index(s@)] == 'e' || s@[exponent_index(s@)]
                == 'E'),
            forall|j: int|
                0 <= j < s@.len() && (exponent_index(s@) < 0 || j < exponent_index(s@)) ==> s@[j]
                    != 'e' && s@[j] != 'E',
        decreases s@.len() - i,
    {
        if s[i] == 'e' || s[i] == 'E' {
            return Some(i);
        }
        i = i + 1;
    }
    None
}

fn strip_sign_exec(s: &Vec<char>) -> (r: Vec<char>)
    ensures
        r@ == strip_sign(s@),
{
    if s.len() > 0 && (s[0] == '+' || s[0] == '-') {
        let r = sub_chars(s, 1, s.len());
        assert(r@ =~= s@.drop_first());
        r
    } else {
        let r = sub_chars(s, 0, s.len());
        assert(r@ =~= s@);
        r
    }
}

fn spells_exec(s: &Vec<char>, word: &[char]) -> (b: bool)
    ensures
        b == spells(s@, word@),
{
    if s.len() != word.len() {
        return false;
    }
    let mut i: usize = 0;
    while i < s.len()
        invariant
            i <= s@.len(),
            s@.len() == word@.len(),
            forall|j: int| 0 <= j < i ==> same_letter(#[trigger] s@[j], word@[j]),
        decreases s@.len() - i,
    {
        let c = s[i];
        let w = word[i];
        if !(c == w || (c as u32) as u64 + 32 == (w as u32) as u64) {
            return false;
        }
        i = i + 1;
    }
    true
}

fn is_mantissa_exec(m: &Vec<char>) -> (b: bool)
    ensures
        b == is_mantissa(m@),
{
    match index_of(m, '.') {
        None => m.len() > 0 && all_digits_exec(m),
        Some(d) => {
            let ml = m.len();
            proof {
                lemma_first_index_of(m@, '.');
            }
            let a = sub_chars(m, 0, d);
            let b = sub_chars(m, d + 1, m.len());
            assert(a@ =~= m@.take(d as int));
            assert(b@ =~= m@.skip(d + 1));
            all_digits_exec(&a) && all_digits_exec(&b) && m.len() >= 2
        },
    }
}

fn is_decimal_exec(s: &Vec<char>) -> (b: bool)
    ensures
        b == is_decimal(s@),
{
    match exponent_index_exec(s) {
        None => is_mantissa_exec(s),
        Some(e) => {
            let sl = s.len();
            proof {
                lemma_exponent_index(s@);
            }
            let m = sub_chars(s, 0, e);
            let x = sub_chars(s, e + 1, s.len());
            assert(m@ =~= s@.take(e as int));
            assert(x@ =~= s@.skip(e + 1));
            let y = strip_sign_exec(&x);
            is_mantissa_exec(&m) && y.len() > 0 && all_digits_exec(&y)
        },
    }
}

/// Whether `str::parse::<f64>` accepts these characters.
fn is_float_literal_exec(s: &Vec<char>) -> (b: bool)
    ensures
        b == is_float_literal(s@),
{
    let b = strip_sign_exec(s);
    let inf = ['i', 'n', 'f'];
    let infinity = ['i', 'n', 'f', 'i', 'n', 'i', 't', 'y'];
    let nan = ['n', 'a', 'n'];
    assert(inf@ =~= seq!['i', 'n', 'f']);
    assert(infinity@ =~= seq!['i', 'n', 'f', 'i', 'n', 'i', 't', 'y']);
    assert(nan@ =~= seq!['n', 'a', 'n']);
    spells_exec(&b, inf.as_slice()) || spells_exec(&b, infinity.as_slice()) || spells_exec(
        &b,
        nan.as_slice(),
    ) || is_decimal_exec(&b)
}

/// The weight tokens of a `weights=` value: white space trimmed, then every
/// leading `[` and trailing `]` removed; nothing if that leaves nothing,
/// else the pieces between commas, each trimmed.
pub open spec fn weight_tokens(v: Seq<char>) -> Seq<Seq<char>> {
    let cleaned = trim_end_by(trim_start_by(trim(v), Some('[')), Some(']'));
    if cleaned.len() == 0 {
        seq![]
    } else {
        trim_each(split_on(cleaned, ','))
    }
}

/// Why a saved linear model could not be read back.
#[derive(Clone, Copy, Debug, PartialEq, Eq, Structural)]
pub enum LoadError {
    InvalidInputSize,
    InvalidWeights,
    InvalidBias,
    MissingInputSize,
    MissingWeights,
    MissingBias,
}

/// The fields of a saved linear model: its input size, and the weights and
/// bias as number literals that `str::parse::<f64>` accepts.
pub struct SavedLinear {
    pub input_size: usize,
    pub weights: Vec<Vec<char>>,
    pub bias: Vec<char>,
}

/// The values read so far: input size, weight tokens, bias token.
pub type ScanState = (Option<usize>, Option<Seq<Seq<char>>>, Option<Seq<char>>);

pub open spec fn input_size_key() -> Seq<char> {
    seq!['i', 'n', 'p', 'u', 't', '_', 's', 'i', 'z', 'e', '=']
}

pub open spec fn weights_key() -> Seq<char> {
    seq!['w', 'e', 'i', 'g', 'h', 't', 's', '=']
}

pub open spec fn bias_key() -> Seq<char> {
    seq!['b', 'i', 'a', 's', '=']
}

/// `line` starts with `key`.
pub open spec fn has_prefix(line: Seq<char>, key: Seq<char>) -> bool {
    key.len() <= line.len() && line.take(key.len() as int) == key
}

/// One line of a saved model read into the state: `input_size=`, `weights=`
/// and `bias=` lines set their value (a later line replaces an earlier one)
/// or fail when it does not parse; other lines are ignored.
pub open spec fn scan_line(st: ScanState, line: Seq<char>) -> Result<ScanState, LoadError> {
    if has_prefix(line, input_size_key()) {
        match parse_usize(line.skip(input_size_key().len() as int)) {
            Some(n) => Ok((Some(n), st.1, st.2)),
            None => Err(LoadError::InvalidInputSize),
        }
    } else if has_prefix(line, weights_key()) {
        let toks = weight_tokens(line.skip(weights_key().len() as int));
        if forall|i: int| 0 <= i < toks.len() ==> is_float_literal(#[trigger] toks[i]) {
            Ok((st.0, Some(toks), st.2))
        } else {
            Err(LoadError::InvalidWeights)
        }
    } else if has_prefix(line, bias_key()) {
        let v = line.skip(bias_key().len() as int);
        if is_float_literal(v) {
            Ok((st.0, st.1, Some(v)))
        } else {
            Err(LoadError::InvalidBias)
        }
    } else {
        Ok(st)
    }
}

/// The lines from `i` on read into the state, stopping at the first error.
pub open spec fn scan_lines(lines: Seq<Seq<char>>, i: int, st: ScanState) -> Result<ScanState, LoadError>
    decreases lines.len() - i,
{
    if i < 0 || i >= lines.len() {
        Ok(st)
    } else {
        match scan_line(st, lines[i]) {
            Err(e) => Err(e),
            Ok(next) => scan_lines(lines, i + 1, next),
        }
    }
}

/// A saved linear model read back from its text: input size, weight tokens
/// and bias token, or the first error met (a field that does not parse, in
/// line order; then a missing input size, weights or bias, in that order).
pub open spec fn read_saved_linear(content: Seq<char>) -> Result<(usize, Seq<Seq<char>>, Seq<char>), LoadError> {
    match scan_lines(lines_of(content), 0, (None, None, None)) {
        Err(e) => Err(e),
        Ok(st) => match st.0 {
            None => Err(LoadError::MissingInputSize),
            Some(n) => match st.1 {
                None => Err(LoadError::MissingWeights),
                Some(w) => match st.2 {
                    None => Err(LoadError::MissingBias),
                    Some(b) => Ok((n, w, b)),
                },
            },
        },
    }
}

fn has_prefix_exec(line: &Vec<char>, key: &[char]) -> (b: bool)
    ensures
        b == has_prefix(line@, key@),
{
    if key.len() > line.len() {
        return false;
    }
    let mut i: usize = 0;
    while i < key.len()
        invariant
            i <= key@.len(),
            key@.len() <= line@.len(),
            forall|j: int| 0 <= j < i ==> line@[j] == key@[j],
        decreases key@.len() - i,
    {
        if line[i] != key[i] {
            assert(line@.take(key@.len() as int)[i as int] != key@[i as int]);
            return false;
        }
        i = i + 1;
    }
    assert(line@.take(key@.len() as int) =~= key@);
    true
}

fn weight_tokens_exec(v: &Vec<char>) -> (toks: Vec<Vec<char>>)
    ensures
        char_rows(toks@) == weight_tokens(v@),
{
    let a = trim_exec(v);
    let b = trim_start_exec(&a, Some('['));
    let cleaned = trim_end_exec(&b, Some(']'));
    if cleaned.len() == 0 {
        let toks: Vec<Vec<char>> = Vec::new();
        assert(char_rows(toks@) =~= Seq::<Seq<char>>::empty());
        return toks;
    }
    let pieces = split_exec(&cleaned, ',');
    let ghost pv = char_rows(pieces@);
    let mut toks: Vec<Vec<char>> = Vec::new();
    let mut i: usize = 0;
    while i < pieces.len()
        invariant
            i <= pieces@.len(),
            pv == char_rows(pieces@),
            char_rows(toks@) == trim_each(pv.take(i as int)),
        decreases pieces@.len() - i,
    {
        let t = trim_exec(&pieces[i]);
        assert(pv[i as int] == pieces@[i as int]@);
        let ghost before = toks@;
        assert(char_rows(before).len() == before.len());
        assert(pv.len() == pieces@.len());
        assert(trim_each(pv.take(i as int)).len() == i);
        assert(before.len() == i);
        toks.push(t);
        proof {
            let tv = char_rows(toks@);
            let want = trim_each(pv.take(i + 1));
            let bv = char_rows(before);
            let bw = trim_each(pv.take(i as int));
            assert forall|j: int| 0 <= j < i + 1 implies #[trigger] tv[j] == want[j] by {
                if j < i {
                    assert(bv[j] == bw[j]);
                    assert(toks@[j] == before[j]);
                }
            }
            assert(tv =~= want);
        }
        i = i + 1;
    }
    assert(pv.take(pieces@.len() as int) =~= pv);
    toks
}

fn all_float_literals(toks: &Vec<Vec<char>>) -> (b: bool)
    ensures
        b == forall|i: int| 0 <= i < toks@.len() ==> is_float_literal(#[trigger] toks@[i]@),
{
    let mut i: usize = 0;
    while i < toks.len()
        invariant
            i <= toks@.len(),
            forall|j: int| 0 <= j < i ==> is_float_literal(#[trigger] toks@[j]@),
        decreases toks@.len() - i,
    {
        if !is_float_literal_exec(&toks[i]) {
            return false;
        }
        i = i + 1;
    }
    true
}

/// Reads back a linear model saved as text: lines `input_size=<usize>`,
/// `weights=[<f64>, ...]` and `bias=<f64>`, other lines ignored.
pub fn parse_saved_linear(content: &str) -> (r: Result<SavedLinear, LoadError>)
    ensures
        match r {
            Ok(sv) => read_saved_linear(content@) == Ok::<(usize, Seq<Seq<char>>, Seq<char>), LoadError>(
                (sv.input_size, char_rows(sv.weights@), sv.bias@),
            ),
            Err(e) => read_saved_linear(content@) == Err::<(usize, Seq<Seq<char>>, Seq<char>), LoadError>(e),
        },
{
    let text = chars_of(content);
    let lines = split_lines(&text);
    let ghost lv = char_rows(lines@);
    let input_key = ['i', 'n', 'p', 'u', 't', '_', 's', 'i', 'z', 'e', '='];
    let weights_key_chars = ['w', 'e', 'i', 'g', 'h', 't', 's', '='];
    let bias_key_chars = ['b', 'i', 'a', 's', '='];
    assert(input_key@ =~= input_size_key());
    assert(weights_key_chars@ =~= weights_key());
    assert(bias_key_chars@ =~= bias_key());
    let mut input_size: Option<usize> = None;
    let mut weights: Option<Vec<Vec<char>>> = None;
    let mut bias: Option<Vec<char>> = None;
    let mut i: usize = 0;
    while i < lines.len()
        invariant
            i <= lines@.len(),
            lv == char_rows(lines@),
            lv == lines_of(content@),
            input_key@ == input_size_key(),
            weights_key_chars@ == weights_key(),
            bias_key_chars@ == bias_key(),
            scan_lines(lv, 0, (None, None, None)) == scan_lines(
                lv,
                i as int,
                (
                    input_size,
                    match weights {
                        Some(w) => Some(char_rows(w@)),
                        None => None,
                    },
                    match bias {
                        Some(b) => Some(b@),
                        None => None,
                    },
                ),
            ),
        decreases lines@.len() - i,
    {
        let line = &lines[i];
        assert(lv[i as int] == line@);
        if has_prefix_exec(line, input_key.as_slice()) {
            let v = sub_chars(line, 11, line.len());
            assert(v@ =~= line@.skip(11));
            match parse_usize_exec(&v) {
                Some(n) => {
                    input_size = Some(n);
                },
                None => {
                    return Err(LoadError::InvalidInputSize);
                },
            }
        } else if has_prefix_exec(line, weights_key_chars.as_slice()) {
            let v = sub_chars(line, 8, line.len());
            assert(v@ =~= line@.skip(8));
            let toks = weight_tokens_exec(&v);
            let ghost tv = char_rows(toks@);
            assert(forall|j: int|
                #![trigger tv[j]]
                #![trigger toks@[j]]
                0 <= j < toks@.len() ==> tv[j] == toks@[j]@);
            if all_float_literals(&toks) {
                weights = Some(toks);
            } else {
                return Err(LoadError::InvalidWeights);
            }
        } else if has_prefix_exec(line, bias_key_chars.as_slice()) {
            let v = sub_chars(line, 5, line.len());
            assert(v@ =~= line@.skip(5));
            if is_float_literal_exec(&v) {
                bias = Some(v);
            } else {
                return Err(LoadError::InvalidBias);
            }
        }
        i = i + 1;
    }
    match input_size {
        None => Err(LoadError::MissingInputSize),
        Some(n) => match weights {
            None => Err(LoadError::MissingWeights),
            Some(w) => match bias {
                None => Err(LoadError::MissingBias),
                Some(b) => Ok(SavedLinear { input_size: n, weights: w, bias: b }),
            },
        },
    }
}

} // verus!
