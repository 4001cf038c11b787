//! Sequences of characters: white space, trimming, splitting at a separator
//! and decimal numerals. Stored states and drawings are made of these.

use vstd::prelude::*;

verus! {

/// Unicode's white space: the characters that carry the `White_Space`
/// property.
pub open spec fn is_whitespace(c: char) -> bool {
    let code = c as u32;
    ||| 0x09 <= code <= 0x0d
    ||| code == 0x20
    ||| code == 0x85
    ||| code == 0xa0
    ||| code == 0x1680
    ||| 0x2000 <= code <= 0x200a
    ||| code == 0x2028
    ||| code == 0x2029
    ||| code == 0x202f
    ||| code == 0x205f
    ||| code == 0x3000
}

/// `s` without the white space it starts with.
pub open spec fn trim_start(s: Seq<char>) -> Seq<char>
    decreases s.len(),
{
    if s.len() > 0 && is_whitespace(s[0]) {
        trim_start(s.drop_first())
    } else {
        s
    }
}

/// `s` without the white space it ends with.
pub open spec fn trim_end(s: Seq<char>) -> Seq<char>
    decreases s.len(),
{
    if s.len() > 0 && is_whitespace(s.last()) {
        trim_end(s.drop_last())
    } else {
        s
    }
}

/// `s` without the white space at either end.
pub open spec fn trim(s: Seq<char>) -> Seq<char> {
    trim_end(trim_start(s))
}

/// The pieces of `s` between occurrences of `sep`, in order. There is always
/// one piece more than there are separators: the empty sequence has the one
/// empty piece, and a separator at either end has an empty piece beside it.
pub open spec fn split(s: Seq<char>, sep: char) -> Seq<Seq<char>>
    decreases s.len(),
{
    if s.len() == 0 {
        seq![Seq::empty()]
    } else {
        let before = split(s.drop_last(), sep);
        if s.last() == sep {
            before.push(Seq::empty())
        } else {
            before.drop_last().push(before.last().push(s.last()))
        }
    }
}

/// The character sequences held by a vector of vectors of characters.
pub open spec fn pieces_view(pieces: Seq<Vec<char>>) -> Seq<Seq<char>> {
    Seq::new(pieces.len(), |i: int| pieces[i]@)
}

/// The value of a decimal digit, if `c` is one.
pub open spec fn digit_value(c: char) -> Option<nat> {
    let code = c as u32;
    if 0x30 <= code <= 0x39 {
        Some((code - 0x30) as nat)
    } else {
        None
    }
}

/// Whether every character is a decimal digit.
pub open spec fn all_digits(s: Seq<char>) -> bool {
    forall|i: int| 0 <= i < s.len() ==> (#[trigger] digit_value(s[i])) is Some
}

/// The number that a run of decimal digits spells, most significant first.
pub open spec fn digits_value(s: Seq<char>) -> nat
    decreases s.len(),
{
    if s.len() == 0 {
        0
    } else {
        digits_value(s.drop_last()) * 10 + digit_value(s.last()).unwrap_or(0)
    }
}

/// The number that a token spells, if it spells one: an optional plus sign,
/// then one or more decimal digits and nothing else.
pub open spec fn numeral_value(token: Seq<char>) -> Option<nat> {
    let digits = if token.len() > 0 && token[0] == '+' {
        token.drop_first()
    } else {
        token
    };
    if digits.len() > 0 && all_digits(digits) {
        Some(digits_value(digits))
    } else {
        None
    }
}

/// There is at least one piece.
pub proof fn lemma_split_nonempty(s: Seq<char>, sep: char)
    ensures
        split(s, sep).len() >= 1,
    decreases s.len(),
{
    if s.len() > 0 {
        lemma_split_nonempty(s.drop_last(), sep);
    }
}

/// Trimming at the start drops exactly the leading run of white space.
pub proof fn lemma_trim_start_is_skip(s: Seq<char>, start: int)
    requires
        0 <= start <= s.len(),
        forall|k: int| 0 <= k < start ==> is_whitespace(#[trigger] s[k]),
        start == s.len() || !is_whitespace(s[start]),
    ensures
        trim_start(s) == s.skip(start),
    decreases start,
{
    if start == 0 {
        assert(s.skip(0) =~= s);
    } else {
        let rest = s.drop_first();
        assert forall|k: int| 0 <= k < start - 1 implies is_whitespace(#[trigger] rest[k]) by {
            assert(rest[k] == s[k + 1]);
        }
        lemma_trim_start_is_skip(rest, start - 1);
        assert(rest.skip(start - 1) =~= s.skip(start));
    }
}

/// Trimming at the end drops exactly the trailing run of white space.
pub proof fn lemma_trim_end_is_take(s: Seq<char>, end: int)
    requires
        0 <= end <= s.len(),
        forall|k: int| end <= k < s.len() ==> is_whitespace(#[trigger] s[k]),
        end == 0 || !is_whitespace(s[end - 1]),
    ensures
        trim_end(s) == s.take(end),
    decreases s.len() - end,
{
    if end == s.len() {
        assert(s.take(end) =~= s);
    } else {
        let rest = s.drop_last();
        lemma_trim_end_is_take(rest, end);
        assert(rest.take(end) =~= s.take(end));
    }
}

/// Appending a character that is not the separator lengthens the last piece.
pub proof fn lemma_split_push_other(s: Seq<char>, sep: char, c: char)
    requires
        c != sep,
    ensures
        split(s.push(c), sep) == split(s, sep).drop_last().push(split(s, sep).last().push(c)),
{
    assert(s.push(c).drop_last() =~= s);
}

/// Appending the separator opens a new, empty piece.
pub proof fn lemma_split_push_sep(s: Seq<char>, sep: char)
    ensures
        split(s.push(sep), sep) == split(s, sep).push(Seq::empty()),
{
    assert(s.push(sep).drop_last() =~= s);
}

/// Appending a run free of separators lengthens the last piece by that run.
pub proof fn lemma_split_append_piece(s: Seq<char>, sep: char, piece: Seq<char>)
    requires
        forall|k: int| 0 <= k < piece.len() ==> #[trigger] piece[k] != sep,
    ensures
        split(s + piece, sep) == split(s, sep).drop_last().push(split(s, sep).last() + piece),
    decreases piece.len(),
{
    lemma_split_nonempty(s, sep);
    if piece.len() == 0 {
        assert(s + piece =~= s);
        assert(split(s, sep).last() + piece =~= split(s, sep).last());
        assert(split(s, sep).drop_last().push(split(s, sep).last()) =~= split(s, sep));
    } else {
        let shorter = piece.drop_last();
        lemma_split_append_piece(s, sep, shorter);
        lemma_split_push_other(s + shorter, sep, piece.last());
        assert((s + shorter).push(piece.last()) =~= s + piece);
        let before = split(s, sep);
        assert(before.drop_last().push(before.last() + shorter).drop_last() =~= before.drop_last());
        assert((before.last() + shorter).push(piece.last()) =~= before.last() + piece);
    }
}

/// Tells whether `c` is white space.
pub fn whitespace(c: char) -> (b: bool)
    ensures
        b == is_whitespace(c),
{
    let code = c as u32;
    (0x09 <= code && code <= 0x0d) || code == 0x20 || code == 0x85 || code == 0xa0 || code
        == 0x1680 || (0x2000 <= code && code <= 0x200a) || code == 0x2028 || code == 0x2029 || code
        == 0x202f || code == 0x205f || code == 0x3000
}

/// The characters of a string, in order.
pub fn chars_of(text: &str) -> (chars: Vec<char>)
    ensures
        chars@ == text@,
{
    let mut chars: Vec<char> = Vec::new();
    for c in it: text.chars()
        invariant
            chars@ == it.seq().take(it.index() as int),
            it.seq() == text@,
    {
        chars.push(c);
        assert(chars@ =~= it.seq().take(it.index() + 1));
    }
    assert(chars@ =~= text@);
    chars
}

/// A copy of `s` without the white space at either end.
pub fn trimmed(s: &Vec<char>) -> (r: Vec<char>)
    ensures
        r@ == trim(s@),
{
    let mut start: usize = 0;
    while start < s.len() && whitespace(s[start])
        invariant
            0 <= start <= s.len(),
            forall|k: int| 0 <= k < start ==> is_whitespace(#[trigger] s@[k]),
        decreases s.len() - start,
    {
        start += 1;
    }
    let mut end: usize = s.len();
    while end > start && whitespace(s[end - 1])
        invariant
            start <= end <= s.len(),
            forall|k: int| end <= k < s.len() ==> is_whitespace(#[trigger] s@[k]),
        decreases end,
    {
        end -= 1;
    }
    let mut r: Vec<char> = Vec::new();
    let mut i: usize = start;
    while i < end
        invariant
            start <= i <= end <= s.len(),
            r@ == s@.subrange(start as int, i as int),
        decreases end - i,
    {
        r.push(s[i]);
        i += 1;
        assert(r@ =~= s@.subrange(start as int, i as int));
    }
    proof {
        lemma_trim_start_is_skip(s@, start as int);
        let tail = s@.skip(start as int);
        assert forall|k: int| end - start <= k < tail.len() implies is_whitespace(
            #[trigger] tail[k],
        ) by {
            assert(tail[k] == s@[k + start]);
        }
        if end > start {
            assert(tail[end - start - 1] == s@[end - 1]);
        }
        lemma_trim_end_is_take(tail, end - start);
        assert(tail.take(end - start) =~= s@.subrange(start as int, end as int));
    }
    r
}

/// The pieces of `s` between occurrences of `sep`.
pub fn split_at(s: &Vec<char>, sep: char) -> (pieces: Vec<Vec<char>>)
    ensures
        pieces_view(pieces@) == split(s@, sep),
{
    let mut pieces: Vec<Vec<char>> = Vec::new();
    let mut current: Vec<char> = Vec::new();
    let mut i: usize = 0;
    assert(s@.take(0) =~= Seq::<char>::empty());
    assert(pieces_view(pieces@).push(current@) =~= split(s@.take(0), sep));
    while i < s.len()
        invariant
            0 <= i <= s.len(),
            pieces_view(pieces@).push(current@) == split(s@.take(i as int), sep),
        decreases s.len() - i,
    {
        let ghost done = pieces_view(pieces@);
        let ghost open = current@;
        let c = s[i];
        proof {
            assert(s@.take(i + 1) =~= s@.take(i as int).push(c));
            assert(done.push(open).drop_last() =~= done);
        }
        if c == sep {
            proof {
                lemma_split_push_sep(s@.take(i as int), sep);
            }
            pieces.push(current);
            current = Vec::new();
            assert(pieces_view(pieces@) =~= done.push(open));
        } else {
            proof {
                lemma_split_push_other(s@.take(i as int), sep, c);
            }
            current.push(c);
        }
        i += 1;
    }
    let ghost done = pieces_view(pieces@);
    pieces.push(current);
    proof {
        assert(s@.take(s.len() as int) =~= s@);
        assert(pieces_view(pieces@) =~= done.push(current@));
    }
    pieces
}

/// Tells whether the token spells the number one.
pub fn spells_one(token: &Vec<char>) -> (b: bool)
    ensures
        b == (numeral_value(token@) == Some(1nat)),
{
    let start: usize = if token.len() > 0 && token[0] == '+' {
        1
    } else {
        0
    };
    if start == token.len() {
        return false;
    }
    let ghost digits = if token@.len() > 0 && token@[0] == '+' {
        token@.drop_first()
    } else {
        token@
    };
    assert(digits =~= token@.skip(start as int));
    // `seen` is the value of the digits read so far, or 2 when that is more.
    let mut seen: u8 = 0;
    let mut i: usize = start;
    assert(digits.take(0) =~= Seq::<char>::empty());
    while i < token.len()
        invariant
            start <= i <= token.len(),
            digits == token@.skip(start as int),
            numeral_value(token@) == if digits.len() > 0 && all_digits(digits) {
                Some(digits_value(digits))
            } else {
                None
            },
            all_digits(digits.take(i - start)),
            seen <= 2,
            seen == if digits_value(digits.take(i - start)) < 2 {
                digits_value(digits.take(i - start))
            } else {
                2
            },
        decreases token.len() - i,
    {
        let code = token[i] as u32;
        let ghost read = digits.take(i - start);
        let ghost more = digits.take(i + 1 - start);
        proof {
            assert(digits[i - start] == token@[i as int]);
            assert(more.drop_last() =~= read);
            assert(more.last() == token@[i as int]);
        }
        if code < 0x30 || code > 0x39 {
            assert(digit_value(digits[i - start]) is None);
            return false;
        }
        let digit: u8 = (code - 0x30) as u8;
        assert(all_digits(more)) by {
            assert forall|k: int| 0 <= k < more.len() implies (#[trigger] digit_value(
                more[k],
            )) is Some by {
                if k < more.len() - 1 {
                    assert(more[k] == read[k]);
                }
            }
        }
        seen = if seen >= 2 || seen * 10 + digit >= 2 {
            2
        } else {
            seen * 10 + digit
        };
        i += 1;
    }
    assert(digits.take(token.len() - start) =~= digits);
    seen == 1
}

/// The character of a decimal digit.
pub open spec fn digit_char(d: nat) -> char {
    if d == 0 {
        '0'
    } else if d == 1 {
        '1'
    } else if d == 2 {
        '2'
    } else if d == 3 {
        '3'
    } else if d == 4 {
        '4'
    } else if d == 5 {
        '5'
    } else if d == 6 {
        '6'
    } else if d == 7 {
        '7'
    } else if d == 8 {
        '8'
    } else {
        '9'
    }
}

/// A number in decimal, without sign or leading zeros; zero is `0`.
pub open spec fn decimal(n: nat) -> Seq<char>
    decreases n,
{
    if n < 10 {
        seq![digit_char(n)]
    } else {
        decimal(n / 10).push(digit_char(n % 10))
    }
}

/// A run of zeros.
pub open spec fn zeros(count: nat) -> Seq<char> {
    Seq::new(count, |i: int| '0')
}

/// A number in decimal, with zeros in front up to the given width. A number
/// with more digits than that is written in full.
pub open spec fn padded_decimal(n: nat, width: nat) -> Seq<char> {
    if decimal(n).len() >= width {
        decimal(n)
    } else {
        zeros((width - decimal(n).len()) as nat) + decimal(n)
    }
}

/// The text of one decimal digit.
fn digit_text(d: u8) -> (text: &'static str)
    requires
        d < 10,
    ensures
        text@ == seq![digit_char(d as nat)],
{
    proof {
        reveal_strlit("0");
        reveal_strlit("1");
        reveal_strlit("2");
        reveal_strlit("3");
        reveal_strlit("4");
        reveal_strlit("5");
        reveal_strlit("6");
        reveal_strlit("7");
        reveal_strlit("8");
        reveal_strlit("9");
    }
    let text = if d == 0 {
        "0"
    } else if d == 1 {
        "1"
    } else if d == 2 {
        "2"
    } else if d == 3 {
        "3"
    } else if d == 4 {
        "4"
    } else if d == 5 {
        "5"
    } else if d == 6 {
        "6"
    } else if d == 7 {
        "7"
    } else if d == 8 {
        "8"
    } else {
        "9"
    };
    assert(text@ =~= seq![digit_char(d as nat)]);
    text
}

/// Appends a number in decimal.
pub fn push_decimal(text: &mut String, n: u128)
    ensures
        final(text)@ == old(text)@ + decimal(n as nat),
    decreases n,
{
    if n >= 10 {
        push_decimal(text, n / 10);
    }
    text.append(digit_text((n % 10) as u8));
    assert(text@ =~= old(text)@ + decimal(n as nat));
}

/// Number of digits of a number in decimal.
pub fn decimal_len(n: u128) -> (len: usize)
    ensures
        len == decimal(n as nat).len(),
        1 <= len <= 39,
    decreases n,
{
    if n < 10 {
        1
    } else {
        proof {
            lemma_decimal_short(n as nat);
        }
        decimal_len(n / 10) + 1
    }
}

/// A number below 2 to the 128 has at most 39 digits.
proof fn lemma_decimal_short(n: nat)
    requires
        n <= u128::MAX,
    ensures
        decimal(n).len() <= 39,
{
    reveal_with_fuel(decimal, 40);
}

/// Appends a number in decimal, with zeros in front up to the given width.
pub fn push_padded_decimal(text: &mut String, n: u128, width: usize)
    ensures
        final(text)@ == old(text)@ + padded_decimal(n as nat, width as nat),
{
    proof {
        reveal_strlit("0");
    }
    let len = decimal_len(n);
    let mut written: usize = len;
    assert(zeros(0) =~= Seq::<char>::empty());
    assert(text@ =~= old(text)@ + zeros(0));
    while written < width
        invariant
            len <= written,
            len == decimal(n as nat).len(),
            written <= width || written == len,
            text@ == old(text)@ + zeros((written - len) as nat),
            "0"@ == seq!['0'],
        decreases width - written,
    {
        text.append("0");
        written += 1;
        assert(text@ =~= old(text)@ + zeros((written - len) as nat));
    }
    push_decimal(text, n);
    assert(text@ =~= old(text)@ + padded_decimal(n as nat, width as nat));
}

} // verus!
