//! Lines, tokens and numbers in text.

use vstd::prelude::*;
use vstd::std_specs::iter::IteratorSpec;
use vstd::string::*;

verus! {

/// Whether the character is whitespace, as `char::is_whitespace` tells:
/// whether it has the Unicode property `White_Space`.
pub uninterp spec fn is_space(c: char) -> bool;

/// `String::push` puts the character behind the text that is there.
pub assume_specification[ String::push ](text: &mut String, c: char)
    ensures
        final(text)@ == old(text)@.push(c),
;

/// Asks `char::is_whitespace`. The contract names the answer; which
/// characters are whitespace is left to std.
#[verifier::external_body]
fn is_whitespace(c: char) -> (b: bool)
    ensures
        b == is_space(c),
{
    c.is_whitespace()
}

/// Whether `c` is one of the digits `0` to `9`.
pub open spec fn is_digit(c: char) -> bool {
    '0' <= c <= '9'
}

/// The value of a digit.
pub open spec fn digit_value(c: char) -> nat {
    (c as u32 - '0' as u32) as nat
}

/// The number that a sequence of digits writes in base ten.
pub open spec fn digits_value(digits: Seq<char>) -> nat
    decreases digits.len(),
{
    if digits.len() == 0 {
        0
    } else {
        digits_value(digits.drop_last()) * 10 + digit_value(digits.last())
    }
}

/// Whether the sequence holds digits only, and at least one.
pub open spec fn is_number(digits: Seq<char>) -> bool {
    digits.len() > 0 && forall|i: int| 0 <= i < digits.len() ==> is_digit(#[trigger] digits[i])
}

/// The text without a leading plus sign.
pub open spec fn without_plus(text: Seq<char>) -> Seq<char> {
    if text.len() > 0 && text[0] == '+' {
        text.subrange(1, text.len() as int)
    } else {
        text
    }
}

/// The unsigned number that the text writes: digits, with an optional
/// plus sign before them, whose value is at most `max`.
pub open spec fn decimal(text: Seq<char>, max: nat) -> Option<nat> {
    let digits = without_plus(text);
    if is_number(digits) && digits_value(digits) <= max {
        Some(digits_value(digits))
    } else {
        None
    }
}

/// The `u64` that the text writes, if it writes one.
pub open spec fn decimal_u64(text: Seq<char>) -> Option<u64> {
    match decimal(text, u64::MAX as nat) {
        Some(v) => Some(v as u64),
        None => None,
    }
}

/// More digits never write a smaller number.
pub proof fn lemma_digits_value_grows(digits: Seq<char>, k: int)
    requires
        0 <= k <= digits.len(),
    ensures
        digits_value(digits.subrange(0, k)) <= digits_value(digits),
    decreases digits.len(),
{
    if k == digits.len() {
        assert(digits.subrange(0, k) =~= digits);
    } else {
        lemma_digits_value_grows(digits.drop_last(), k);
        assert(digits.drop_last().subrange(0, k) =~= digits.subrange(0, k));
    }
}

/// The number that the digits write, if they are digits, at least one,
/// and write no more than `max`.
pub open spec fn magnitude(digits: Seq<char>, max: nat) -> Option<nat> {
    if is_number(digits) && digits_value(digits) <= max {
        Some(digits_value(digits))
    } else {
        None
    }
}

/// The signed number of 64 bits that the text writes: digits with an
/// optional sign before them.
pub open spec fn decimal_i64(text: Seq<char>) -> Option<i64> {
    if text.len() > 0 && text[0] == '-' {
        match magnitude(text.subrange(1, text.len() as int), 0x8000_0000_0000_0000) {
            Some(v) => Some((-v) as i64),
            None => None,
        }
    } else {
        match decimal(text, i64::MAX as nat) {
            Some(v) => Some(v as i64),
            None => None,
        }
    }
}

/// The `usize` that the text writes, if it writes one.
pub open spec fn decimal_usize(text: Seq<char>) -> Option<usize> {
    match decimal(text, usize::MAX as nat) {
        Some(v) => Some(v as usize),
        None => None,
    }
}

/// Reads the characters from `start` on as digits that write at most
/// `max`.
fn parse_magnitude(text: &str, start: usize, max: u64) -> (r: Option<u64>)
    requires
        start <= text@.len(),
    ensures
        r.is_some() == magnitude(text@.subrange(start as int, text@.len() as int), max as nat).is_some(),
        r matches Some(v) ==> magnitude(
            text@.subrange(start as int, text@.len() as int),
            max as nat,
        ) == Some(v as nat),
{
    let n = text.unicode_len();
    let ghost digits = text@.subrange(start as int, n as int);
    if start == n {
        return None;
    }
    let mut i: usize = start;
    let mut acc: u64 = 0;
    assert(digits.subrange(0, 0) =~= Seq::<char>::empty());
    while i < n
        invariant
            start <= i <= n,
            n == text@.len(),
            digits == text@.subrange(start as int, n as int),
            digits.len() > 0,
            forall|j: int| 0 <= j < i - start ==> is_digit(#[trigger] digits[j]),
            acc == digits_value(digits.subrange(0, i - start)),
            acc <= max,
        decreases n - i,
    {
        let c = text.get_char(i);
        assert(c == digits[i - start]);
        if !(c >= '0' && c <= '9') {
            return None;
        }
        let d = (c as u32 - '0' as u32) as u64;
        proof {
            let next = digits.subrange(0, i - start + 1);
            assert(next.drop_last() =~= digits.subrange(0, i - start));
            assert(next.last() == c);
            lemma_digits_value_grows(digits, i - start + 1);
        }
        if d > max || acc > (max - d) / 10 {
            return None;
        }
        acc = acc * 10 + d;
        i += 1;
    }
    assert(digits.subrange(0, i - start) =~= digits);
    Some(acc)
}

fn after_plus(text: &str) -> (start: usize)
    ensures
        start <= text@.len(),
        text@.subrange(start as int, text@.len() as int) == without_plus(text@),
{
    let n = text.unicode_len();
    if n > 0 && text.get_char(0) == '+' {
        1
    } else {
        assert(text@.subrange(0, n as int) =~= text@);
        0
    }
}

/// Reads an unsigned decimal number of at most 64 bits.
pub fn parse_u64(text: &str) -> (r: Option<u64>)
    ensures
        r == decimal_u64(text@),
{
    let start = after_plus(text);
    parse_magnitude(text, start, u64::MAX)
}

/// Reads an unsigned decimal number that fits `usize`.
pub fn parse_usize(text: &str) -> (r: Option<usize>)
    ensures
        r == decimal_usize(text@),
{
    let start = after_plus(text);
    match parse_magnitude(text, start, usize::MAX as u64) {
        Some(v) => Some(v as usize),
        None => None,
    }
}

/// Reads a signed decimal number of at most 64 bits.
pub fn parse_i64(text: &str) -> (r: Option<i64>)
    ensures
        r == decimal_i64(text@),
{
    let n = text.unicode_len();
    if n > 0 && text.get_char(0) == '-' {
        match parse_magnitude(text, 1, 0x8000_0000_0000_0000) {
            Some(v) => {
                if v == 0x8000_0000_0000_0000 {
                    Some(i64::MIN)
                } else {
                    Some(-(v as i64))
                }
            },
            None => None,
        }
    } else {
        let start = after_plus(text);
        match parse_magnitude(text, start, i64::MAX as u64) {
            Some(v) => Some(v as i64),
            None => None,
        }
    }
}

/// The pieces of `text` between the separators, from the piece that
/// begins at `start` on, where the characters before `i` have been looked
/// at.
pub open spec fn split_from(text: Seq<char>, sep: char, start: int, i: int) -> Seq<Seq<char>>
    decreases text.len() - i,
{
    if i < 0 || i >= text.len() {
        seq![text.subrange(start, text.len() as int)]
    } else if text[i] == sep {
        seq![text.subrange(start, i)] + split_from(text, sep, i + 1, i + 1)
    } else {
        split_from(text, sep, start, i + 1)
    }
}

/// The pieces of `text` between the separators `sep`, as many as there are
/// separators and one more; a piece may be empty.
pub open spec fn split_on(text: Seq<char>, sep: char) -> Seq<Seq<char>> {
    split_from(text, sep, 0, 0)
}

/// Splits a text at each occurrence of a separator.
pub fn split_char(text: &str, sep: char) -> (pieces: Vec<&str>)
    ensures
        pieces.deep_view() == split_on(text@, sep),
{
    let n = text.unicode_len();
    let mut pieces: Vec<&str> = Vec::new();
    let mut start: usize = 0;
    let mut i: usize = 0;
    assert(pieces.deep_view() =~= Seq::<Seq<char>>::empty());
    while i < n
        invariant
            start <= i <= n,
            n == text@.len(),
            split_on(text@, sep) == pieces.deep_view() + split_from(
                text@,
                sep,
                start as int,
                i as int,
            ),
        decreases n - i,
    {
        if text.get_char(i) == sep {
            let piece = text.substring_char(start, i);
            let ghost before = pieces.deep_view();
            pieces.push(piece);
            proof {
                assert(pieces.deep_view() =~= before.push(piece@));
                assert(before + (seq![piece@] + split_from(text@, sep, i + 1, i + 1))
                    =~= before.push(piece@) + split_from(text@, sep, i + 1, i + 1));
            }
            start = i + 1;
        }
        i += 1;
    }
    let piece = text.substring_char(start, n);
    let ghost before = pieces.deep_view();
    pieces.push(piece);
    proof {
        assert(pieces.deep_view() =~= before.push(piece@));
        assert(before + seq![piece@] =~= before.push(piece@));
    }
    pieces
}

/// Whether two texts hold the same characters.
pub fn same_text(a: &str, b: &str) -> (same: bool)
    ensures
        same == (a@ == b@),
{
    let n = a.unicode_len();
    if n != b.unicode_len() {
        return false;
    }
    let mut i: usize = 0;
    while i < n
        invariant
            i <= n,
            n == a@.len(),
            n == b@.len(),
            forall|j: int| 0 <= j < i ==> a@[j] == b@[j],
        decreases n - i,
    {
        if a.get_char(i) != b.get_char(i) {
            return false;
        }
        i += 1;
    }
    assert(a@ =~= b@);
    true
}

/// The characters of a text.
pub fn chars_of(s: &str) -> (chars: Vec<char>)
    ensures
        chars@ == s@,
{
    broadcast use {vstd::string::axiom_spec_iter, vstd::string::next_postcondition};

    let mut chars: Vec<char> = Vec::new();
    let mut it = s.chars();
    assert(chars@ + it.remaining() =~= s@);
    loop
        invariant
            it.obeys_prophetic_iter_laws(),
            it.decrease() is Some,
            chars@ + it.remaining() == s@,
        ensures
            chars@ == s@,
        decreases it.decrease()->0,
    {
        let ghost rest = it.remaining();
        let ghost before = chars@;
        match it.next() {
            Some(c) => {
                chars.push(c);
                proof {
                    assert(before.push(c) + rest.drop_first() =~= before + rest);
                }
            },
            None => {
                proof {
                    assert(before + rest =~= before);
                }
                break ;
            },
        }
    }
    chars
}

/// Where the text goes on behind `tag`, if `tag` stands at place `pos`.
pub open spec fn tag_at(s: Seq<char>, pos: int, tag: Seq<char>) -> Option<int> {
    if 0 <= pos && pos + tag.len() <= s.len() && s.subrange(pos, pos + tag.len()) == tag {
        Some(pos + tag.len())
    } else {
        None
    }
}

/// Where the run of digits ends that begins at place `pos`.
pub open spec fn digits_end(s: Seq<char>, pos: int) -> int
    decreases s.len() - pos,
{
    if 0 <= pos < s.len() && is_digit(s[pos]) {
        digits_end(s, pos + 1)
    } else {
        pos
    }
}

/// The number that the run of digits at place `pos` writes, and where the
/// text goes on behind it; nothing where no digit stands there or the
/// number does not fit 64 bits.
pub open spec fn number_at(s: Seq<char>, pos: int) -> Option<(u64, int)> {
    let end = digits_end(s, pos);
    if 0 <= pos < end <= s.len() && digits_value(s.subrange(pos, end)) <= u64::MAX {
        Some((digits_value(s.subrange(pos, end)) as u64, end))
    } else {
        None
    }
}

/// A run of digits ends at or behind its beginning, within the text, and
/// holds digits only.
pub proof fn lemma_digits_end(s: Seq<char>, pos: int)
    requires
        0 <= pos <= s.len(),
    ensures
        pos <= digits_end(s, pos) <= s.len(),
        forall|i: int| pos <= i < digits_end(s, pos) ==> is_digit(#[trigger] s[i]),
        digits_end(s, pos) < s.len() ==> !is_digit(s[digits_end(s, pos)]),
    decreases s.len() - pos,
{
    if pos < s.len() && is_digit(s[pos]) {
        lemma_digits_end(s, pos + 1);
    }
}

/// Passes over `tag` at place `pos` of the text.
pub fn scan_tag(s: &Vec<char>, pos: usize, tag: &str) -> (r: Option<usize>)
    ensures
        match r {
            Some(next) => tag_at(s@, pos as int, tag@) == Some(next as int),
            None => tag_at(s@, pos as int, tag@) is None,
        },
{
    let n = tag.unicode_len();
    let total = s.len();
    if pos > total || n > total - pos {
        return None;
    }
    let mut i: usize = 0;
    while i < n
        invariant
            i <= n,
            n == tag@.len(),
            total == s@.len(),
            pos + n <= total,
            forall|j: int| 0 <= j < i ==> s@[pos + j] == tag@[j],
        decreases n - i,
    {
        if s[pos + i] != tag.get_char(i) {
            assert(s@.subrange(pos as int, pos + n)[i as int] != tag@[i as int]);
            return None;
        }
        i += 1;
    }
    assert(s@.subrange(pos as int, pos + n) =~= tag@);
    Some(pos + n)
}

/// Reads the number at place `pos` of the text.
pub fn scan_number(s: &Vec<char>, pos: usize) -> (r: Option<(u64, usize)>)
    ensures
        match r {
            Some((v, next)) => number_at(s@, pos as int) == Some((v, next as int)) && pos < next
                <= s@.len(),
            None => number_at(s@, pos as int) is None,
        },
{
    if pos >= s.len() {
        return None;
    }
    proof {
        lemma_digits_end(s@, pos as int);
    }
    let n = s.len();
    let mut i: usize = pos;
    let mut acc: u64 = 0;
    let mut overflow = false;
    assert(s@.subrange(pos as int, pos as int) =~= Seq::<char>::empty());
    while i < n && s[i] >= '0' && s[i] <= '9'
        invariant
            pos <= i <= n,
            n == s@.len(),
            digits_end(s@, pos as int) == digits_end(s@, i as int),
            forall|j: int| pos <= j < i ==> is_digit(#[trigger] s@[j]),
            !overflow ==> acc == digits_value(s@.subrange(pos as int, i as int)),
            overflow ==> digits_value(s@.subrange(pos as int, i as int)) > u64::MAX,
        decreases n - i,
    {
        let c = s[i];
        let d = (c as u32 - '0' as u32) as u64;
        proof {
            let next = s@.subrange(pos as int, i + 1);
            assert(next.drop_last() =~= s@.subrange(pos as int, i as int));
            assert(next.last() == c);
        }
        if overflow || acc > (u64::MAX - d) / 10 {
            overflow = true;
        } else {
            acc = acc * 10 + d;
        }
        i += 1;
    }
    if i == pos || overflow {
        None
    } else {
        Some((acc, i))
    }
}

/// The piece without a carriage return at its end.
pub open spec fn without_return(piece: Seq<char>) -> Seq<char> {
    if piece.len() > 0 && piece.last() == '\r' {
        piece.drop_last()
    } else {
        piece
    }
}

/// The lines that the pieces between the line feeds of a text make: each
/// piece before a line feed, without a carriage return at its end, and
/// the piece behind the last line feed where it is not empty.
pub open spec fn lines_of(pieces: Seq<Seq<char>>) -> Seq<Seq<char>> {
    if pieces.len() == 0 {
        Seq::empty()
    } else {
        let ended = Seq::new((pieces.len() - 1) as nat, |i: int| without_return(pieces[i]));
        if pieces.last().len() == 0 {
            ended
        } else {
            ended.push(pieces.last())
        }
    }
}

/// The lines of a text: it is split at each line feed; a line is without
/// its line feed and without a carriage return before that; a line feed
/// at the very end opens no further line.
pub open spec fn text_lines(text: Seq<char>) -> Seq<Seq<char>> {
    lines_of(split_on(text, '\n'))
}

/// The tokens of `text` from the one that begins at `start` on, where the
/// characters before `i` have been looked at: `gaps` tells of each
/// character whether it stands between tokens.
pub open spec fn tokens_from(text: Seq<char>, gaps: Seq<bool>, start: int, i: int) -> Seq<Seq<char>>
    decreases text.len() - i,
{
    if i < 0 || i >= text.len() {
        if 0 <= start < text.len() {
            seq![text.subrange(start, text.len() as int)]
        } else {
            Seq::empty()
        }
    } else if gaps[i] {
        (if start < i {
            seq![text.subrange(start, i)]
        } else {
            Seq::empty()
        }) + tokens_from(text, gaps, i + 1, i + 1)
    } else {
        tokens_from(text, gaps, start, i + 1)
    }
}

/// The longest runs of characters between the gaps, in their order.
pub open spec fn tokens_between(text: Seq<char>, gaps: Seq<bool>) -> Seq<Seq<char>> {
    tokens_from(text, gaps, 0, 0)
}

/// The tokens of a text: the longest runs of characters that are not
/// whitespace, in their order.
pub open spec fn whitespace_tokens(text: Seq<char>) -> Seq<Seq<char>> {
    tokens_between(text, Seq::new(text.len(), |i: int| is_space(text[i])))
}

/// The characters from `from` to `to` as a text.
fn text_between(chars: &Vec<char>, from: usize, to: usize) -> (text: String)
    requires
        from <= to <= chars@.len(),
    ensures
        text@ == chars@.subrange(from as int, to as int),
{
    let mut text = String::new();
    let mut i: usize = from;
    assert(text@ =~= chars@.subrange(from as int, from as int));
    while i < to
        invariant
            from <= i <= to <= chars@.len(),
            text@ == chars@.subrange(from as int, i as int),
        decreases to - i,
    {
        text.push(chars[i]);
        proof {
            assert(text@ =~= chars@.subrange(from as int, i + 1));
        }
        i += 1;
    }
    text
}

/// Splits a text into its lines.
pub fn lines(text: &str) -> (result: Vec<String>)
    ensures
        result.deep_view() == text_lines(text@),
{
    let chars = chars_of(text);
    let n = chars.len();
    let ghost all = chars@;
    let mut result: Vec<String> = Vec::new();
    let ghost mut pieces: Seq<Seq<char>> = Seq::empty();
    let mut start: usize = 0;
    let mut i: usize = 0;
    assert(result.deep_view() =~= Seq::<Seq<char>>::empty());
    while i < n
        invariant
            start <= i <= n,
            n == chars@.len(),
            all == chars@,
            split_on(all, '\n') == pieces + split_from(all, '\n', start as int, i as int),
            result.deep_view() == Seq::new(pieces.len(), |k: int| without_return(pieces[k])),
        decreases n - i,
    {
        if chars[i] == '\n' {
            let end = if i > start && chars[i - 1] == '\r' {
                i - 1
            } else {
                i
            };
            let line = text_between(&chars, start, end);
            let ghost piece = all.subrange(start as int, i as int);
            let ghost before = result.deep_view();
            let ghost earlier = pieces;
            result.push(line);
            proof {
                assert(line@ == without_return(piece)) by {
                    if i > start && all[i - 1] == '\r' {
                        assert(piece.last() == all[i - 1]);
                        assert(piece.drop_last() =~= all.subrange(start as int, i - 1));
                    } else if i > start {
                        assert(piece.last() == all[i - 1]);
                    }
                }
                pieces = earlier.push(piece);
                assert(result.deep_view() =~= before.push(line@));
                assert(result.deep_view() =~= Seq::new(
                    pieces.len(),
                    |k: int| without_return(pieces[k]),
                ));
                assert(earlier + (seq![piece] + split_from(all, '\n', i + 1, i + 1)) =~= pieces
                    + split_from(all, '\n', i + 1, i + 1));
            }
            start = i + 1;
        }
        i += 1;
    }
    let ghost last = all.subrange(start as int, n as int);
    proof {
        let whole = pieces.push(last);
        assert(pieces + seq![last] =~= whole);
        assert(split_on(all, '\n') == whole);
        assert(Seq::new((whole.len() - 1) as nat, |k: int| without_return(whole[k])) =~= Seq::new(
            pieces.len(),
            |k: int| without_return(pieces[k]),
        ));
        assert(whole.last() == last);
    }
    if start < n {
        let line = text_between(&chars, start, n);
        let ghost before = result.deep_view();
        result.push(line);
        proof {
            assert(result.deep_view() =~= before.push(line@));
        }
    }
    result
}

/// The longest runs of characters between the gaps, in their order.
pub fn split_gaps(chars: &Vec<char>, gaps: &Vec<bool>) -> (result: Vec<String>)
    requires
        gaps@.len() == chars@.len(),
    ensures
        result.deep_view() == tokens_between(chars@, gaps@),
{
    let n = chars.len();
    let ghost all = chars@;
    let mut result: Vec<String> = Vec::new();
    let mut start: usize = 0;
    let mut i: usize = 0;
    assert(result.deep_view() =~= Seq::<Seq<char>>::empty());
    while i < n
        invariant
            start <= i <= n,
            n == chars@.len(),
            all == chars@,
            gaps@.len() == n,
            tokens_between(all, gaps@) == result.deep_view() + tokens_from(
                all,
                gaps@,
                start as int,
                i as int,
            ),
        decreases n - i,
    {
        if gaps[i] {
            if start < i {
                let token = text_between(chars, start, i);
                let ghost before = result.deep_view();
                result.push(token);
                proof {
                    assert(result.deep_view() =~= before.push(token@));
                    assert(before + (seq![token@] + tokens_from(all, gaps@, i + 1, i + 1))
                        =~= before.push(token@) + tokens_from(all, gaps@, i + 1, i + 1));
                }
            } else {
                proof {
                    assert(Seq::<Seq<char>>::empty() + tokens_from(all, gaps@, i + 1, i + 1)
                        =~= tokens_from(all, gaps@, i + 1, i + 1));
                }
            }
            start = i + 1;
        }
        i += 1;
    }
    if start < n {
        let token = text_between(chars, start, n);
        let ghost before = result.deep_view();
        result.push(token);
        proof {
            assert(result.deep_view() =~= before.push(token@));
            assert(before + seq![token@] =~= before.push(token@));
        }
    } else {
        proof {
            assert(result.deep_view() + Seq::<Seq<char>>::empty() =~= result.deep_view());
        }
    }
    result
}

/// Splits a text into its tokens.
pub fn split_whitespace(text: &str) -> (result: Vec<String>)
    ensures
        result.deep_view() == whitespace_tokens(text@),
{
    let chars = chars_of(text);
    let mut gaps: Vec<bool> = Vec::new();
    let mut i: usize = 0;
    while i < chars.len()
        invariant
            i <= chars@.len(),
            gaps@.len() == i,
            forall|k: int| 0 <= k < i ==> #[trigger] gaps@[k] == is_space(chars@[k]),
        decreases chars@.len() - i,
    {
        gaps.push(is_whitespace(chars[i]));
        i += 1;
    }
    assert(gaps@ =~= Seq::new(chars@.len(), |i: int| is_space(chars@[i])));
    split_gaps(&chars, &gaps)
}

} // verus!
