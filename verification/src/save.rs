//! Writing a linear model as text, in the format that `saved` reads back.

use vstd::prelude::*;
use crate::saved::{
    all_digits,
    bias_key,
    has_prefix,
    input_size_key,
    read_saved_linear,
    scan_line,
    scan_lines,
    weight_tokens,
    weights_key,
    ScanState,
    lines_of,
    strip_cr,
    char_rows,
    digits_value,
    exponent_index,
    first_index_of,
    is_decimal,
    is_digit,
    is_float_literal,
    is_mantissa,
    is_space,
    lemma_exponent_index,
    lemma_first_index_of,
    parse_usize,
    same_letter,
    spells,
    split_on,
    strip_sign,
    trim,
    trim_each,
    trim_end_by,
    trim_start_by,
};

verus! {

/// The character of a decimal digit `d < 10`.
pub open spec fn digit_char(d: nat) -> char {
    (d + 48) as char
}

/// The decimal digits of `n`, most significant first, with no leading zero
/// (`0` is written `0`).
pub open spec fn decimal(n: nat) -> Seq<char>
    decreases n,
{
    if n < 10 {
        seq![digit_char(n)]
    } else {
        decimal(n / 10).push(digit_char(n % 10))
    }
}

/// The tokens separated by a comma and a space, as Rust prints the items of
/// a list.
pub open spec fn joined(ws: Seq<Seq<char>>) -> Seq<char>
    decreases ws.len(),
{
    if ws.len() == 0 {
        seq![]
    } else if ws.len() == 1 {
        ws[0]
    } else {
        ws[0] + seq![',', ' '] + joined(ws.drop_first())
    }
}

/// A list printed as Rust prints a `Vec`: the joined tokens in brackets.
pub open spec fn bracketed(ws: Seq<Seq<char>>) -> Seq<char> {
    seq!['['] + joined(ws) + seq![']']
}

/// The first line of a saved linear model.
pub open spec fn model_header() -> Seq<char> {
    seq!['L', 'i', 'n', 'e', 'a', 'r', 'R', 'e', 'g', 'r', 'e', 's', 's', 'i', 'o', 'n']
}

/// The text a linear model with input size `n`, weight tokens `ws` and bias
/// token `b` is saved as: a header line, then `input_size=`, `weights=` and
/// `bias=` lines, each ended by a new line.
pub open spec fn saved_linear_text(n: usize, ws: Seq<Seq<char>>, b: Seq<char>) -> Seq<char> {
    model_header() + seq!['\n'] + seq!['i', 'n', 'p', 'u', 't', '_', 's', 'i', 'z', 'e', '=']
        + decimal(n as nat) + seq!['\n'] + seq!['w', 'e', 'i', 'g', 'h', 't', 's', '=']
        + bracketed(ws) + seq!['\n'] + seq!['b', 'i', 'a', 's', '='] + b + seq!['\n']
}

/// The digits of `decimal(n)` are digits, and they write `n`.
pub proof fn lemma_decimal(n: nat)
    ensures
        decimal(n).len() > 0,
        all_digits(decimal(n)),
        digits_value(decimal(n)) == n,
    decreases n,
{
    if n < 10 {
        assert(digit_char(n) as u32 == n + 48);
        assert(decimal(n).drop_last() =~= Seq::<char>::empty());
        assert(decimal(n).last() == digit_char(n));
        assert(digits_value(decimal(n)) == digits_value(decimal(n).drop_last()) * 10 + ((
        decimal(n).last() as u32) - 48) as nat);
    } else {
        lemma_decimal(n / 10);
        let s = decimal(n / 10);
        assert(digit_char(n % 10) as u32 == n % 10 + 48);
        assert(decimal(n).drop_last() =~= s);
        assert(decimal(n).last() == digit_char(n % 10));
        assert(digits_value(decimal(n)) == digits_value(s) * 10 + ((decimal(n).last() as u32) - 48) as nat);
        assert(n == (n / 10) * 10 + n % 10);
        assert forall|i: int| 0 <= i < decimal(n).len() implies is_digit(#[trigger] decimal(n)[i]) by {
            if i < s.len() {
                assert(decimal(n)[i] == s[i]);
            }
        }
    }
}

/// `str::parse::<usize>` reads back the decimal digits of `n`.
pub proof fn lemma_parse_decimal(n: usize)
    ensures
        parse_usize(decimal(n as nat)) == Some(n),
{
    lemma_decimal(n as nat);
    let s = decimal(n as nat);
    assert(is_digit(s[0]));
}

/// The decimal digits of `n`.
pub fn decimal_chars(n: usize) -> (v: Vec<char>)
    ensures
        v@ == decimal(n as nat),
{
    let mut m: usize = n;
    let mut acc: Vec<char> = Vec::new();
    while m >= 10
        invariant
            decimal(n as nat) == decimal(m as nat) + acc@,
        decreases m,
    {
        let d = m % 10;
        let c = ((d as u8) + 48u8) as char;
        assert(c == digit_char(d as nat));
        let ghost before = acc@;
        acc.insert(0, c);
        assert(decimal(m as nat) == decimal((m / 10) as nat).push(c));
        assert(decimal((m / 10) as nat) + acc@ =~= decimal(m as nat) + before);
        m = m / 10;
    }
    let c = ((m as u8) + 48u8) as char;
    assert(c == digit_char(m as nat));
    let ghost before = acc@;
    acc.insert(0, c);
    assert(acc@ =~= decimal(m as nat) + before);
    acc
}

fn append(out: &mut Vec<char>, s: &[char])
    ensures
        final(out)@ == old(out)@ + s@,
{
    let mut i: usize = 0;
    while i < s.len()
        invariant
            i <= s@.len(),
            out@ == old(out)@ + s@.take(i as int),
        decreases s@.len() - i,
    {
        out.push(s[i]);
        i = i + 1;
        assert(out@ =~= old(out)@ + s@.take(i as int));
    }
    assert(s@.take(s@.len() as int) =~= s@);
}

/// The tokens of `ws` in brackets, separated by a comma and a space.
fn bracketed_chars(ws: &Vec<Vec<char>>) -> (v: Vec<char>)
    ensures
        v@ == bracketed(char_rows(ws@)),
{
    let ghost rows = char_rows(ws@);
    let mut v: Vec<char> = Vec::new();
    v.push('[');
    let mut i: usize = 0;
    while i < ws.len()
        invariant
            i <= ws@.len(),
            rows == char_rows(ws@),
            v@ == seq!['['] + joined(rows.take(i as int)),
        decreases ws@.len() - i,
    {
        proof {
            lemma_joined_push(rows.take(i as int), rows[i as int]);
            assert(rows.take(i + 1) =~= rows.take(i as int).push(rows[i as int]));
        }
        if i > 0 {
            append(&mut v, &[',', ' ']);
        }
        append(&mut v, ws[i].as_slice());
        assert(v@ =~= seq!['['] + joined(rows.take(i + 1)));
        i = i + 1;
    }
    v.push(']');
    assert(rows.take(ws@.len() as int) =~= rows);
    assert(v@ =~= bracketed(rows));
    v
}

/// Adding a token at the end of a list adds it after a separator, unless
/// the list was empty.
proof fn lemma_joined_push(ws: Seq<Seq<char>>, t: Seq<char>)
    ensures
        joined(ws.push(t)) == if ws.len() == 0 {
            t
        } else {
            joined(ws) + seq![',', ' '] + t
        },
    decreases ws.len(),
{
    if ws.len() == 1 {
        assert(ws.push(t).drop_first() =~= seq![t]);
        assert(joined(seq![t]) == t);
    } else if ws.len() > 1 {
        lemma_joined_push(ws.drop_first(), t);
        assert(ws.push(t).drop_first() =~= ws.drop_first().push(t));
        assert(joined(ws.push(t)) =~= joined(ws) + seq![',', ' '] + t);
    }
}

/// The text a linear model is saved as: its input size, and its weights
/// and bias already printed as number literals.
pub fn render_saved_linear(input_size: usize, weights: &Vec<Vec<char>>, bias: &Vec<char>) -> (text: Vec<char>)
    ensures
        text@ == saved_linear_text(input_size, char_rows(weights@), bias@),
{
    let mut text: Vec<char> = Vec::new();
    append(
        &mut text,
        &['L', 'i', 'n', 'e', 'a', 'r', 'R', 'e', 'g', 'r', 'e', 's', 's', 'i', 'o', 'n', '\n'],
    );
    append(&mut text, &['i', 'n', 'p', 'u', 't', '_', 's', 'i', 'z', 'e', '=']);
    let digits = decimal_chars(input_size);
    append(&mut text, digits.as_slice());
    append(&mut text, &['\n', 'w', 'e', 'i', 'g', 'h', 't', 's', '=']);
    let list = bracketed_chars(weights);
    append(&mut text, list.as_slice());
    append(&mut text, &['\n', 'b', 'i', 'a', 's', '=']);
    append(&mut text, bias.as_slice());
    text.push('\n');
    assert(text@ =~= saved_linear_text(input_size, char_rows(weights@), bias@));
    text
}

/// A character that can appear in a number literal: an ASCII digit, sign,
/// point or letter.
pub open spec fn literal_char(c: char) -> bool {
    let u = c as u32;
    ||| 48 <= u <= 57
    ||| u == 43
    ||| u == 45
    ||| u == 46
    ||| 65 <= u <= 90
    ||| 97 <= u <= 122
}

/// A non-empty run of literal characters.
pub open spec fn literal_token(t: Seq<char>) -> bool {
    t.len() > 0 && forall|i: int| 0 <= i < t.len() ==> literal_char(#[trigger] t[i])
}

proof fn lemma_literal_char_is_plain(c: char)
    requires
        literal_char(c),
    ensures
        !is_space(c),
        c != ',',
        c != '[',
        c != ']',
        c != '\n',
        c != '\r',
        c != ' ',
{
}

proof fn lemma_mantissa_chars(m: Seq<char>)
    requires
        is_mantissa(m),
    ensures
        literal_token(m),
{
    lemma_first_index_of(m, '.');
    let d = first_index_of(m, '.');
    if d >= 0 {
        assert forall|i: int| 0 <= i < m.len() implies literal_char(#[trigger] m[i]) by {
            if i < d {
                assert(m.take(d)[i] == m[i]);
                assert(is_digit(m.take(d)[i]));
            } else if i > d {
                assert(m.skip(d + 1)[i - d - 1] == m[i]);
                assert(is_digit(m.skip(d + 1)[i - d - 1]));
            }
        }
    } else {
        assert forall|i: int| 0 <= i < m.len() implies literal_char(#[trigger] m[i]) by {
            assert(is_digit(m[i]));
        }
    }
}

proof fn lemma_spelled_chars(b: Seq<char>, word: Seq<char>)
    requires
        spells(b, word),
        word.len() > 0,
        forall|i: int| 0 <= i < word.len() ==> 97 <= #[trigger] word[i] as u32 <= 122,
    ensures
        literal_token(b),
{
    assert forall|i: int| 0 <= i < b.len() implies literal_char(#[trigger] b[i]) by {
        assert(same_letter(b[i], word[i]));
        assert(97 <= word[i] as u32 <= 122);
    }
}

proof fn lemma_lower_word(word: Seq<char>)
    requires
        word == seq!['i', 'n', 'f'] || word == seq!['i', 'n', 'f', 'i', 'n', 'i', 't', 'y'] || word
            == seq!['n', 'a', 'n'],
    ensures
        word.len() > 0,
        forall|i: int| 0 <= i < word.len() ==> 97 <= #[trigger] word[i] as u32 <= 122,
{
    assert forall|i: int| 0 <= i < word.len() implies 97 <= #[trigger] word[i] as u32 <= 122 by {
        if word == seq!['i', 'n', 'f'] {
            if i == 0 {
            } else if i == 1 {
            } else {
            }
        } else if word == seq!['n', 'a', 'n'] {
            if i == 0 {
            } else if i == 1 {
            } else {
            }
        } else {
            if i == 0 {
            } else if i == 1 {
            } else if i == 2 {
            } else if i == 3 {
            } else if i == 4 {
            } else if i == 5 {
            } else if i == 6 {
            } else {
            }
        }
    }
}

/// Every number literal that `str::parse::<f64>` accepts is a non-empty
/// run of digits, signs, points and letters.
pub proof fn lemma_float_literal_chars(t: Seq<char>)
    requires
        is_float_literal(t),
    ensures
        literal_token(t),
{
    let b = strip_sign(t);
    let inf = seq!['i', 'n', 'f'];
    let infinity = seq!['i', 'n', 'f', 'i', 'n', 'i', 't', 'y'];
    let nan = seq!['n', 'a', 'n'];
    if spells(b, inf) {
        lemma_lower_word(inf);
        lemma_spelled_chars(b, inf);
    } else if spells(b, infinity) {
        lemma_lower_word(infinity);
        lemma_spelled_chars(b, infinity);
    } else if spells(b, nan) {
        lemma_lower_word(nan);
        lemma_spelled_chars(b, nan);
    } else {
        assert(is_decimal(b));
        lemma_exponent_index(b);
        let e = exponent_index(b);
        if e < 0 {
            lemma_mantissa_chars(b);
        } else {
            lemma_mantissa_chars(b.take(e));
            let r = b.skip(e + 1);
            let x = strip_sign(r);
            assert forall|i: int| 0 <= i < b.len() implies literal_char(#[trigger] b[i]) by {
                if i < e {
                    assert(b.take(e)[i] == b[i]);
                } else if i > e {
                    assert(r[i - e - 1] == b[i]);
                    if r.len() > 0 && (r[0] == '+' || r[0] == '-') {
                        if i > e + 1 {
                            assert(x[i - e - 2] == r[i - e - 1]);
                            assert(is_digit(x[i - e - 2]));
                        }
                    } else {
                        assert(x[i - e - 1] == r[i - e - 1]);
                        assert(is_digit(x[i - e - 1]));
                    }
                }
            }
        }
    }
    if t.len() > 0 && (t[0] == '+' || t[0] == '-') {
        assert forall|i: int| 0 <= i < t.len() implies literal_char(#[trigger] t[i]) by {
            if i > 0 {
                assert(b[i - 1] == t[i]);
            }
        }
    }
}

proof fn lemma_absent(s: Seq<char>, c: char)
    requires
        forall|i: int| 0 <= i < s.len() ==> s[i] != c,
    ensures
        first_index_of(s, c) < 0,
{
    lemma_first_index_of(s, c);
}

/// The first `c` after a run without one.
proof fn lemma_first_index_after(a: Seq<char>, c: char, rest: Seq<char>)
    requires
        forall|i: int| 0 <= i < a.len() ==> a[i] != c,
    ensures
        first_index_of(a + seq![c] + rest, c) == a.len(),
{
    let s = a + seq![c] + rest;
    lemma_first_index_of(s, c);
    assert(s[a.len() as int] == c);
    let k = first_index_of(s, c);
    if 0 <= k < a.len() {
        assert(s[k] == a[k]);
    }
}

/// A line without new line, not ended by a carriage return, is read as it
/// is.
proof fn lemma_lines_cons(line: Seq<char>, rest: Seq<char>)
    requires
        forall|i: int| 0 <= i < line.len() ==> line[i] != '\n',
        line.len() == 0 || line.last() != '\r',
    ensures
        lines_of(line + seq!['\n'] + rest) == seq![line] + lines_of(rest),
{
    let s = line + seq!['\n'] + rest;
    lemma_first_index_after(line, '\n', rest);
    assert(s.take(line.len() as int) =~= line);
    assert(s.skip(line.len() as int + 1) =~= rest);
    assert(strip_cr(line) == line);
}

/// White space before a token whose ends are not white space goes away in
/// a trim, and the token stays whole.
proof fn lemma_trim_padded(p: Seq<char>, t: Seq<char>)
    requires
        forall|i: int| 0 <= i < p.len() ==> is_space(#[trigger] p[i]),
        t.len() > 0,
        !is_space(t[0]),
        !is_space(t.last()),
    ensures
        trim(p + t) == t,
    decreases p.len(),
{
    if p.len() == 0 {
        assert(p + t =~= t);
    } else {
        assert((p + t).drop_first() =~= p.drop_first() + t);
        lemma_trim_padded(p.drop_first(), t);
        assert(trim_start_by(p + t, None) == trim_start_by(p.drop_first() + t, None));
    }
}

/// The joined list starts with the first token and ends with the last.
proof fn lemma_joined_ends(ws: Seq<Seq<char>>)
    requires
        ws.len() > 0,
        forall|i: int| 0 <= i < ws.len() ==> (#[trigger] ws[i]).len() > 0,
    ensures
        joined(ws).len() > 0,
        joined(ws)[0] == ws[0][0],
        joined(ws).last() == ws.last().last(),
    decreases ws.len(),
{
    if ws.len() > 1 {
        let rest = ws.drop_first();
        assert(rest[0] == ws[1]);
        assert forall|i: int| 0 <= i < rest.len() implies (#[trigger] rest[i]).len() > 0 by {
            assert(rest[i] == ws[i + 1]);
        }
        lemma_joined_ends(rest);
        assert(rest.last() == ws.last());
    }
}

/// A character found in no token, and neither a comma nor a space, is not
/// in the joined list.
proof fn lemma_joined_avoids(ws: Seq<Seq<char>>, c: char)
    requires
        c != ',',
        c != ' ',
        forall|k: int, i: int| 0 <= k < ws.len() && 0 <= i < ws[k].len() ==> #[trigger] ws[k][i] != c,
    ensures
        forall|i: int| 0 <= i < joined(ws).len() ==> #[trigger] joined(ws)[i] != c,
    decreases ws.len(),
{
    if ws.len() == 1 {
        assert forall|i: int| 0 <= i < joined(ws).len() implies #[trigger] joined(ws)[i] != c by {
            assert(ws[0][i] != c);
        }
    } else if ws.len() > 1 {
        let rest = ws.drop_first();
        assert forall|k: int, i: int| 0 <= k < rest.len() && 0 <= i < rest[k].len() implies #[trigger] rest[k][i] != c by {
            assert(rest[k] == ws[k + 1]);
            assert(ws[k + 1][i] != c);
        }
        lemma_joined_avoids(rest, c);
        let head = ws[0] + seq![',', ' '];
        assert forall|i: int| 0 <= i < joined(ws).len() implies #[trigger] joined(ws)[i] != c by {
            if i < ws[0].len() {
                assert(joined(ws)[i] == ws[0][i]);
                assert(ws[0][i] != c);
            } else if i >= head.len() {
                assert(joined(ws)[i] == joined(rest)[i - head.len()]);
            }
        }
    }
}

/// Splitting a joined list at its commas and trimming each piece gives the
/// tokens back, whatever white space leads the list.
#[verifier::spinoff_prover]
proof fn lemma_split_joined(p: Seq<char>, ws: Seq<Seq<char>>)
    requires
        ws.len() > 0,
        forall|i: int| 0 <= i < p.len() ==> is_space(#[trigger] p[i]),
        forall|k: int| 0 <= k < ws.len() ==> literal_token(#[trigger] ws[k]),
    ensures
        trim_each(split_on(p + joined(ws), ',')) == ws,
    decreases ws.len(),
{
    let t = ws[0];
    assert(literal_token(t));
    lemma_literal_char_is_plain(t[0]);
    lemma_literal_char_is_plain(t.last());
    lemma_trim_padded(p, t);
    assert forall|i: int| 0 <= i < p.len() implies (p + t)[i] != ',' by {
        assert(is_space(p[i]));
    }
    assert forall|i: int| 0 <= i < (p + t).len() implies (p + t)[i] != ',' by {
        if i >= p.len() {
            assert((p + t)[i] == t[i - p.len()]);
            lemma_literal_char_is_plain(t[i - p.len()]);
        } else {
            assert(is_space(p[i]));
        }
    }
    if ws.len() == 1 {
        lemma_absent(p + t, ',');
        assert(p + joined(ws) == p + t);
        assert(split_on(p + t, ',') == seq![p + t]);
        assert(trim_each(seq![p + t]) =~= seq![trim(p + t)]);
        assert(seq![t] =~= ws);
    } else {
        let rest = ws.drop_first();
        assert forall|k: int| 0 <= k < rest.len() implies literal_token(#[trigger] rest[k]) by {
            assert(rest[k] == ws[k + 1]);
        }
        let q = seq![' '];
        assert(is_space(q[0]));
        lemma_split_joined(q, rest);
        let s = p + joined(ws);
        let tail = q + joined(rest);
        assert(s =~= (p + t) + seq![','] + tail);
        lemma_first_index_after(p + t, ',', tail);
        let k = (p + t).len() as int;
        assert(s.take(k) =~= p + t);
        assert(s.skip(k + 1) =~= tail);
        assert(split_on(s, ',') == seq![p + t] + split_on(tail, ','));
        let pieces = split_on(tail, ',');
        assert(trim_each(seq![p + t] + pieces) =~= seq![trim(p + t)] + trim_each(pieces));
        assert(seq![t] + rest =~= ws);
    }
}

/// Reading the tokens back from a printed list gives the list.
#[verifier::spinoff_prover]
proof fn lemma_weight_tokens_bracketed(ws: Seq<Seq<char>>)
    requires
        forall|k: int| 0 <= k < ws.len() ==> literal_token(#[trigger] ws[k]),
    ensures
        weight_tokens(bracketed(ws)) == ws,
{
    let x = bracketed(ws);
    let j = joined(ws);
    assert(x[0] == '[');
    assert(x.last() == ']');
    assert(trim_start_by(x, None) == x);
    assert(trim_end_by(x, None) == x);
    assert(trim(x) == x);
    assert(x.drop_first() =~= j + seq![']']);
    if ws.len() == 0 {
        assert(j =~= Seq::<char>::empty());
        assert(trim_start_by(j + seq![']'], Some('[')) == j + seq![']']);
        assert((j + seq![']']).drop_last() =~= j);
        assert(trim_end_by(j + seq![']'], Some(']')) == trim_end_by(j, Some(']')));
        assert(weight_tokens(x) =~= ws);
    } else {
        assert forall|k: int| 0 <= k < ws.len() implies (#[trigger] ws[k]).len() > 0 by {
            assert(literal_token(ws[k]));
        }
        lemma_joined_ends(ws);
        assert(literal_token(ws[0]));
        assert(literal_token(ws.last()));
        lemma_literal_char_is_plain(ws[0][0]);
        lemma_literal_char_is_plain(ws.last().last());
        assert((j + seq![']'])[0] == j[0]);
        assert(trim_start_by(j + seq![']'], Some('[')) == j + seq![']']);
        assert((j + seq![']']).drop_last() =~= j);
        assert(trim_end_by(j + seq![']'], Some(']')) == trim_end_by(j, Some(']')));
        assert(trim_end_by(j, Some(']')) == j);
        lemma_split_joined(seq![], ws);
        assert(Seq::<char>::empty() + j =~= j);
    }
}

/// A line starting with a key starts with the key's first character.
proof fn lemma_prefix_first(line: Seq<char>, key: Seq<char>)
    requires
        key.len() > 0,
        has_prefix(line, key),
    ensures
        line[0] == key[0],
{
    assert(line.take(key.len() as int)[0] == line[0]);
}

/// A key followed by a value starts with the key and leaves the value.
proof fn lemma_keyed(key: Seq<char>, v: Seq<char>)
    ensures
        has_prefix(key + v, key),
        (key + v).skip(key.len() as int) == v,
{
    assert((key + v).take(key.len() as int) =~= key);
    assert((key + v).skip(key.len() as int) =~= v);
}

/// The header line holds no new line.
proof fn lemma_header_plain()
    ensures
        forall|i: int| 0 <= i < model_header().len() ==> model_header()[i] != '\n',
        model_header().last() == 'n',
{
    assert forall|i: int| 0 <= i < model_header().len() implies model_header()[i] != '\n' by {}
}

/// The `input_size=` line holds no new line and ends with a digit.
proof fn lemma_size_line_plain(d: Seq<char>)
    requires
        d.len() > 0,
        all_digits(d),
    ensures
        forall|i: int| 0 <= i < (input_size_key() + d).len() ==> (input_size_key() + d)[i] != '\n',
        (input_size_key() + d).last() != '\r',
{
    let l = input_size_key() + d;
    assert forall|i: int| 0 <= i < l.len() implies l[i] != '\n' by {
        if i < 11 {
            assert(l[i] == input_size_key()[i]);
        } else {
            assert(l[i] == d[i - 11]);
            assert(is_digit(d[i - 11]));
        }
    }
    assert(l.last() == d.last());
    assert(is_digit(d[d.len() - 1]));
}

/// The `weights=` line holds no new line and ends with a bracket.
proof fn lemma_weights_line_plain(ws: Seq<Seq<char>>)
    requires
        forall|k: int| 0 <= k < ws.len() ==> literal_token(#[trigger] ws[k]),
    ensures
        forall|i: int| 0 <= i < (weights_key() + bracketed(ws)).len() ==> (weights_key() + bracketed(
            ws,
        ))[i] != '\n',
        (weights_key() + bracketed(ws)).last() == ']',
{
    let l = weights_key() + bracketed(ws);
    let br = bracketed(ws);
    assert forall|k: int, m: int| 0 <= k < ws.len() && 0 <= m < ws[k].len() implies #[trigger] ws[k][m]
        != '\n' by {
        assert(literal_token(ws[k]));
        lemma_literal_char_is_plain(ws[k][m]);
    }
    lemma_joined_avoids(ws, '\n');
    assert forall|i: int| 0 <= i < l.len() implies l[i] != '\n' by {
        if i < 8 {
            assert(l[i] == weights_key()[i]);
        } else {
            assert(l[i] == br[i - 8]);
            if 1 <= i - 8 < br.len() - 1 {
                assert(br[i - 8] == joined(ws)[i - 9]);
            }
        }
    }
}

/// The `bias=` line holds no new line and ends with a literal character.
proof fn lemma_bias_line_plain(b: Seq<char>)
    requires
        literal_token(b),
    ensures
        forall|i: int| 0 <= i < (bias_key() + b).len() ==> (bias_key() + b)[i] != '\n',
        (bias_key() + b).last() != '\r',
{
    let l = bias_key() + b;
    assert forall|i: int| 0 <= i < l.len() implies l[i] != '\n' by {
        if i < 5 {
            assert(l[i] == bias_key()[i]);
        } else {
            assert(l[i] == b[i - 5]);
            lemma_literal_char_is_plain(b[i - 5]);
        }
    }
    assert(l.last() == b.last());
    lemma_literal_char_is_plain(b[b.len() - 1]);
}

/// The lines of a saved linear model: header, input size, weights, bias.
#[verifier::spinoff_prover]
proof fn lemma_saved_lines(n: usize, ws: Seq<Seq<char>>, b: Seq<char>)
    requires
        forall|k: int| 0 <= k < ws.len() ==> literal_token(#[trigger] ws[k]),
        literal_token(b),
    ensures
        lines_of(saved_linear_text(n, ws, b)) == seq![
            model_header(),
            input_size_key() + decimal(n as nat),
            weights_key() + bracketed(ws),
            bias_key() + b,
        ],
{
    let nl = seq!['\n'];
    let d = decimal(n as nat);
    lemma_decimal(n as nat);
    let l1 = model_header();
    let l2 = input_size_key() + d;
    let l3 = weights_key() + bracketed(ws);
    let l4 = bias_key() + b;
    let r3 = l4 + nl + Seq::<char>::empty();
    let r2 = l3 + nl + r3;
    let r1 = l2 + nl + r2;
    assert(saved_linear_text(n, ws, b) =~= l1 + nl + r1);
    lemma_header_plain();
    lemma_size_line_plain(d);
    lemma_weights_line_plain(ws);
    lemma_bias_line_plain(b);
    lemma_lines_cons(l1, r1);
    lemma_lines_cons(l2, r2);
    lemma_lines_cons(l3, r3);
    lemma_lines_cons(l4, Seq::<char>::empty());
    assert(lines_of(saved_linear_text(n, ws, b)) =~= seq![l1, l2, l3, l4]);
}

/// Reading back the text `render_saved_linear` writes gives the input size,
/// weight tokens and bias token it was given, whenever each token is a
/// number literal that `str::parse::<f64>` accepts, as printed `f64` values
/// are: saving then loading a linear model loses nothing.
#[verifier::spinoff_prover]
pub proof fn lemma_saved_linear_round_trip(n: usize, ws: Seq<Seq<char>>, b: Seq<char>)
    requires
        forall|k: int| 0 <= k < ws.len() ==> is_float_literal(#[trigger] ws[k]),
        is_float_literal(b),
    ensures
        read_saved_linear(saved_linear_text(n, ws, b)) == Ok::<
            (usize, Seq<Seq<char>>, Seq<char>),
            crate::saved::LoadError,
        >((n, ws, b)),
{
    assert forall|k: int| 0 <= k < ws.len() implies literal_token(#[trigger] ws[k]) by {
        lemma_float_literal_chars(ws[k]);
    }
    lemma_float_literal_chars(b);
    let d = decimal(n as nat);
    lemma_parse_decimal(n);
    let l1 = model_header();
    let l2 = input_size_key() + d;
    let l3 = weights_key() + bracketed(ws);
    let l4 = bias_key() + b;
    lemma_saved_lines(n, ws, b);
    let lines = seq![l1, l2, l3, l4];
    let st0: ScanState = (None, None, None);
    let st2: ScanState = (Some(n), None, None);
    let st3: ScanState = (Some(n), Some(ws), None);
    let st4: ScanState = (Some(n), Some(ws), Some(b));
    lemma_keyed(input_size_key(), d);
    lemma_keyed(weights_key(), bracketed(ws));
    lemma_keyed(bias_key(), b);
    if has_prefix(l1, input_size_key()) {
        lemma_prefix_first(l1, input_size_key());
    }
    if has_prefix(l1, weights_key()) {
        lemma_prefix_first(l1, weights_key());
    }
    if has_prefix(l1, bias_key()) {
        lemma_prefix_first(l1, bias_key());
    }
    if has_prefix(l3, input_size_key()) {
        lemma_prefix_first(l3, input_size_key());
    }
    if has_prefix(l4, input_size_key()) {
        lemma_prefix_first(l4, input_size_key());
    }
    if has_prefix(l4, weights_key()) {
        lemma_prefix_first(l4, weights_key());
    }
    lemma_weight_tokens_bracketed(ws);
    assert(scan_line(st0, l1) == Ok::<ScanState, crate::saved::LoadError>(st0));
    assert(scan_line(st0, l2) == Ok::<ScanState, crate::saved::LoadError>(st2));
    assert(scan_line(st2, l3) == Ok::<ScanState, crate::saved::LoadError>(st3));
    assert(scan_line(st3, l4) == Ok::<ScanState, crate::saved::LoadError>(st4));
    assert(scan_lines(lines, 4, st4) == Ok::<ScanState, crate::saved::LoadError>(st4));
    assert(scan_lines(lines, 3, st3) == Ok::<ScanState, crate::saved::LoadError>(st4));
    assert(scan_lines(lines, 2, st2) == Ok::<ScanState, crate::saved::LoadError>(st4));
    assert(scan_lines(lines, 1, st0) == Ok::<ScanState, crate::saved::LoadError>(st4));
    assert(scan_lines(lines, 0, st0) == Ok::<ScanState, crate::saved::LoadError>(st4));
}

} // verus!
