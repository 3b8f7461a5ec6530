//! Reading which collections a person picked from a numbered list, and
//! showing what was found in short.

use crate::error::AppError;
use crate::strings::{code_point, find_char, first_index, texts, to_chars};
use vstd::prelude::*;
use vstd::string::StringExecFns;

verus! {

/// Whether `c` is white space.
pub open spec fn is_space(c: char) -> bool {
    let code = c as int;
    ||| 0x09 <= code <= 0x0D
    ||| code == 0x20
    ||| code == 0x85
    ||| code == 0xA0
    ||| code == 0x1680
    ||| 0x2000 <= code <= 0x200A
    ||| code == 0x2028
    ||| code == 0x2029
    ||| code == 0x202F
    ||| code == 0x205F
    ||| code == 0x3000
}

/// Whether `c` is one of the digits `0` to `9`.
pub open spec fn is_digit(c: char) -> bool {
    48 <= c as int <= 57
}

/// The number that a row of digits stands for.
pub open spec fn digits_value(digits: Seq<char>) -> nat
    decreases digits.len(),
{
    if digits.len() == 0 {
        0
    } else {
        digits_value(digits.drop_last()) * 10 + (digits.last() as int - 48) as nat
    }
}

/// Whether `digits` is a row of one or more digits.
pub open spec fn all_digits(digits: Seq<char>) -> bool {
    digits.len() > 0 && forall|i: int| 0 <= i < digits.len() ==> is_digit(#[trigger] digits[i])
}

/// The number that `s` is: one or more digits, which a `+` may precede.
pub open spec fn number(s: Seq<char>) -> Option<nat> {
    let digits = if s.len() > 0 && s[0] == '+' {
        s.skip(1)
    } else {
        s
    };
    if all_digits(digits) {
        Some(digits_value(digits))
    } else {
        None
    }
}

/// How much white space stands in front of `s`.
pub open spec fn trim_start(s: Seq<char>) -> int
    decreases s.len(),
{
    if s.len() > 0 && is_space(s[0]) {
        1 + trim_start(s.drop_first())
    } else {
        0
    }
}

/// Where the white space behind `s` begins.
pub open spec fn trim_end(s: Seq<char>) -> int
    decreases s.len(),
{
    if s.len() > 0 && is_space(s.last()) {
        trim_end(s.drop_last())
    } else {
        s.len() as int
    }
}

/// `s` without the white space around it.
pub open spec fn trimmed(s: Seq<char>) -> Seq<char> {
    if trim_start(s) < trim_end(s) {
        s.subrange(trim_start(s), trim_end(s))
    } else {
        Seq::empty()
    }
}

/// The pieces of `s` between its commas. A text without a comma is one
/// piece.
pub open spec fn pieces(s: Seq<char>) -> Seq<Seq<char>>
    decreases s.len(),
{
    let cut = first_index(s, ',');
    if 0 <= cut < s.len() {
        seq![s.take(cut)] + pieces(s.skip(cut + 1))
    } else {
        seq![s]
    }
}

/// The place in a list of `count` entries that `piece` picks: the piece,
/// white space around it aside, is a number from 1 to `count`, and picks
/// the entry of that number. Any other piece picks nothing.
pub open spec fn pick(piece: Seq<char>, count: nat) -> Option<int> {
    match number(trimmed(piece)) {
        Some(n) => if 1 <= n <= count {
            Some(n - 1)
        } else {
            None
        },
        None => None,
    }
}

/// The places that `pieces` pick, in order.
pub open spec fn picked(pieces: Seq<Seq<char>>, count: nat) -> Seq<int>
    decreases pieces.len(),
{
    if pieces.len() == 0 {
        Seq::empty()
    } else {
        match pick(pieces.last(), count) {
            Some(place) => picked(pieces.drop_last(), count).push(place),
            None => picked(pieces.drop_last(), count),
        }
    }
}

/// The places in a list of `count` entries that the line `line` picks:
/// what its pieces between commas pick, in the order of the line.
pub open spec fn selection(line: Seq<char>, count: nat) -> Seq<int> {
    picked(pieces(line), count)
}

/// What is answered when a line picks nothing.
pub open spec fn nothing_picked() -> Seq<char> {
    "Unexpected collection."@
}

/// `trim_start` is the first position that holds no white space.
proof fn lemma_trim_start(s: Seq<char>, i: int)
    requires
        0 <= i <= s.len(),
        forall|j: int| 0 <= j < i ==> is_space(#[trigger] s[j]),
        i < s.len() ==> !is_space(s[i]),
    ensures
        trim_start(s) == i,
    decreases s.len(),
{
    if i > 0 {
        let rest = s.drop_first();
        assert(is_space(s[0]));
        assert forall|j: int| 0 <= j < i - 1 implies is_space(#[trigger] rest[j]) by {
            assert(rest[j] == s[j + 1]);
        }
        lemma_trim_start(rest, i - 1);
    }
}

/// `trim_end` is the position behind the last character that is no white
/// space.
proof fn lemma_trim_end(s: Seq<char>, i: int)
    requires
        0 <= i <= s.len(),
        forall|j: int| i <= j < s.len() ==> is_space(#[trigger] s[j]),
        i > 0 ==> !is_space(s[i - 1]),
    ensures
        trim_end(s) == i,
    decreases s.len(),
{
    if i < s.len() {
        assert(is_space(s[s.len() - 1]));
        lemma_trim_end(s.drop_last(), i);
    }
}

/// A number with one more digit is worth ten times as much, and the digit.
proof fn lemma_digits_push(digits: Seq<char>, c: char)
    ensures
        digits_value(digits.push(c)) == digits_value(digits) * 10 + (c as int - 48) as nat,
{
    assert(digits.push(c).drop_last() =~= digits);
}

/// Whether `c` is white space.
pub fn is_whitespace(c: char) -> (yes: bool)
    ensures
        yes == is_space(c),
{
    let code = code_point(c);
    (0x09 <= code && code <= 0x0D) || code == 0x20 || code == 0x85 || code == 0xA0 || code
        == 0x1680 || (0x2000 <= code && code <= 0x200A) || code == 0x2028 || code == 0x2029
        || code == 0x202F || code == 0x205F || code == 0x3000
}

/// Reads the piece `chars[from..to]` as a pick from `count` entries.
fn pick_place(chars: &Vec<char>, from: usize, to: usize, count: usize) -> (place: Option<usize>)
    requires
        from <= to <= chars@.len(),
    ensures
        match place {
            Some(p) => pick(chars@.subrange(from as int, to as int), count as nat) == Some(
                p as int,
            ),
            None => pick(chars@.subrange(from as int, to as int), count as nat) is None,
        },
{
    let ghost piece = chars@.subrange(from as int, to as int);
    let mut start: usize = from;
    while start < to && is_whitespace(chars[start])
        invariant
            from <= start <= to <= chars@.len(),
            forall|j: int| from <= j < start ==> is_space(#[trigger] chars@[j]),
        decreases to - start,
    {
        start += 1;
    }
    let mut end: usize = to;
    while end > start && is_whitespace(chars[end - 1])
        invariant
            start <= end <= to <= chars@.len(),
            forall|j: int| end <= j < to ==> is_space(#[trigger] chars@[j]),
        decreases end,
    {
        end -= 1;
    }
    proof {
        assert forall|j: int| 0 <= j < start - from implies is_space(#[trigger] piece[j]) by {
            assert(piece[j] == chars@[from + j]);
        }
        lemma_trim_start(piece, start - from);
        if start < to {
            assert forall|j: int| end - from <= j < piece.len() implies is_space(
                #[trigger] piece[j],
            ) by {
                assert(piece[j] == chars@[from + j]);
            }
            assert(end > start);
            assert(piece[end - from - 1] == chars@[end - 1]);
            lemma_trim_end(piece, end - from);
            assert(piece.subrange(start - from, end - from) =~= chars@.subrange(
                start as int,
                end as int,
            ));
        } else {
            assert forall|j: int| 0 <= j < piece.len() implies is_space(#[trigger] piece[j]) by {
                assert(piece[j] == chars@[from + j]);
            }
            lemma_trim_end(piece, 0);
        }
    }
    let ghost word = chars@.subrange(start as int, end as int);
    assert(trimmed(piece) =~= word);
    let first: usize = if start < end && chars[start] == '+' {
        start + 1
    } else {
        start
    };
    let ghost digits = chars@.subrange(first as int, end as int);
    proof {
        if start < end {
            assert(word[0] == chars@[start as int]);
        }
        if first > start {
            assert(word.skip(1) =~= digits);
        } else {
            assert(word =~= digits);
        }
    }
    assert(number(trimmed(piece)) == if all_digits(digits) {
        Some(digits_value(digits))
    } else {
        None
    });
    if first == end {
        return None;
    }
    let mut value: usize = 0;
    let mut large = false;
    let mut at: usize = first;
    assert(chars@.subrange(first as int, at as int) =~= Seq::<char>::empty());
    while at < end
        invariant
            first <= at <= end <= chars@.len(),
            from <= to <= chars@.len(),
            piece == chars@.subrange(from as int, to as int),
            digits == chars@.subrange(first as int, end as int),
            number(trimmed(piece)) == if all_digits(digits) {
                Some(digits_value(digits))
            } else {
                None
            },
            forall|j: int| first <= j < at ==> is_digit(#[trigger] chars@[j]),
            !large ==> value == digits_value(chars@.subrange(first as int, at as int)) && value
                <= count,
            large ==> digits_value(chars@.subrange(first as int, at as int)) > count,
        decreases end - at,
    {
        let code = code_point(chars[at]);
        if code < 48 || code > 57 {
            assert(!is_digit(digits[at - first]));
            return None;
        }
        let digit: usize = (code - 48) as usize;
        proof {
            lemma_digits_push(chars@.subrange(first as int, at as int), chars@[at as int]);
            assert(chars@.subrange(first as int, at + 1) =~= chars@.subrange(
                first as int,
                at as int,
            ).push(chars@[at as int]));
        }
        if !large {
            if digit > count || value > (count - digit) / 10 {
                large = true;
                proof {
                    let v = value as int;
                    let d = digit as int;
                    let c = count as int;
                    assert(v * 10 + d > c) by (nonlinear_arith)
                        requires
                            d > c || (d <= c && v > (c - d) / 10),
                            v >= 0,
                            0 <= d <= 9,
                            c >= 0,
                    ;
                }
            } else {
                proof {
                    let v = value as int;
                    let d = digit as int;
                    let c = count as int;
                    assert(v * 10 + d <= c) by (nonlinear_arith)
                        requires
                            d <= c,
                            v <= (c - d) / 10,
                            v >= 0,
                            0 <= d <= 9,
                    ;
                }
                value = value * 10 + digit;
            }
        } else {
            proof {
                let before = digits_value(chars@.subrange(first as int, at as int)) as int;
                let d = digit as int;
                assert(before * 10 + d >= before) by (nonlinear_arith)
                    requires
                        before >= 0,
                        d >= 0,
                ;
            }
        }
        at += 1;
    }
    proof {
        assert(chars@.subrange(first as int, end as int) == digits);
        assert forall|i: int| 0 <= i < digits.len() implies is_digit(#[trigger] digits[i]) by {
            assert(digits[i] == chars@[first + i]);
        }
    }
    if large || value == 0 {
        None
    } else {
        Some(value - 1)
    }
}

/// Whether `place` is a place of a list of `count` entries.
pub open spec fn in_list(place: int, count: nat) -> bool {
    0 <= place && place < count
}

/// Every place that is picked is a place of the list.
pub proof fn lemma_picked_in_range(pieces: Seq<Seq<char>>, count: nat)
    ensures
        forall|i: int|
            0 <= i < picked(pieces, count).len() ==> in_list(
                #[trigger] picked(pieces, count)[i],
                count,
            ),
    decreases pieces.len(),
{
    if pieces.len() > 0 {
        lemma_picked_in_range(pieces.drop_last(), count);
        let before = picked(pieces.drop_last(), count);
        let now = picked(pieces, count);
        assert forall|i: int| 0 <= i < now.len() implies in_list(#[trigger] now[i], count) by {
            if i < before.len() {
                assert(now[i] == before[i]);
            }
        }
    }
}

/// The names at `places`, in the order of `places`.
pub open spec fn names_at(names: Seq<String>, places: Seq<int>) -> Seq<Seq<char>> {
    Seq::new(places.len(), |i: int| names[places[i]]@)
}

/// The collections that a person picked from the numbered list of
/// `names` by writing numbers between commas, as `1,3,4`. The list
/// counts from one, and a name that is picked twice comes twice. What is
/// no number of the list is passed over; a line that picks nothing is
/// refused.
pub fn select_collections(line: &str, names: &Vec<String>) -> (result: Result<Vec<String>, AppError>)
    ensures
        match result {
            Ok(chosen) => {
                &&& chosen@.len() > 0
                &&& texts(chosen@) == names_at(names@, selection(line@, names@.len()))
            },
            Err(e) => {
                &&& selection(line@, names@.len()).len() == 0
                &&& e is InvalidConfiguration
                &&& e.detail() == nothing_picked()
            },
        },
{
    let chars = to_chars(line);
    let n = chars.len();
    let count = names.len();
    let mut chosen: Vec<String> = Vec::new();
    let ghost mut seen: Seq<Seq<char>> = Seq::empty();
    let mut start: usize = 0;
    let mut done = false;
    proof {
        assert(chars@.skip(0) =~= chars@);
        assert(seen + pieces(chars@) =~= pieces(chars@));
        assert(texts(chosen@) =~= names_at(names@, picked(seen, count as nat)));
    }
    while !done
        invariant
            n == chars@.len(),
            chars@ == line@,
            count == names@.len(),
            start <= n,
            !done ==> seen + pieces(chars@.skip(start as int)) == pieces(line@),
            done ==> seen == pieces(line@),
            texts(chosen@) == names_at(names@, picked(seen, count as nat)),
        decreases n - start + (if done { 0int } else { 1int }),
    {
        let ghost rest = chars@.skip(start as int);
        let ghost before = picked(seen, count as nat);
        let ghost had = texts(chosen@);
        let at = find_char(&chars, start, ',');
        let ghost piece = chars@.subrange(start as int, at as int);
        proof {
            assert(rest.take(at - start) =~= piece);
            assert(seen.push(piece).drop_last() =~= seen);
            assert(seen.push(piece).last() == piece);
        }
        match pick_place(&chars, start, at, count) {
            Some(place) => {
                chosen.push(names[place].clone());
                proof {
                    assert(picked(seen.push(piece), count as nat) == before.push(place as int));
                    assert(texts(chosen@) =~= had.push(names@[place as int]@));
                    assert(names_at(names@, before.push(place as int)) =~= names_at(
                        names@,
                        before,
                    ).push(names@[place as int]@));
                }
            },
            None => {
                assert(picked(seen.push(piece), count as nat) == before);
            },
        }
        proof {
            if at < n {
                assert(rest.skip(at - start + 1) =~= chars@.skip(at + 1));
                assert(seen + (seq![piece] + pieces(chars@.skip(at + 1))) =~= seen.push(piece)
                    + pieces(chars@.skip(at + 1)));
            } else {
                assert(rest =~= piece);
                assert(seen + seq![piece] =~= seen.push(piece));
            }
            seen = seen.push(piece);
        }
        if at == n {
            done = true;
        } else {
            start = at + 1;
        }
    }
    assert(texts(chosen@).len() == chosen@.len());
    if chosen.len() == 0 {
        Err(AppError::InvalidConfiguration(String::from_str("Unexpected collection.")))
    } else {
        Ok(chosen)
    }
}

/// `s` on one line: every line feed replaced by `with`.
pub open spec fn on_one_line(s: Seq<char>, with: Seq<char>) -> Seq<char>
    decreases s.len(),
{
    if s.len() == 0 {
        Seq::empty()
    } else if s.last() == '\n' {
        on_one_line(s.drop_last(), with) + with
    } else {
        on_one_line(s.drop_last(), with).push(s.last())
    }
}

/// The first `limit` characters of `text`, on one line.
pub open spec fn preview_text(text: Seq<char>, limit: nat, with: Seq<char>) -> Seq<char> {
    if limit < text.len() {
        on_one_line(text.take(limit as int), with)
    } else {
        on_one_line(text, with)
    }
}

/// Shortens `text` to show it: its first `limit` characters, every line
/// feed among them replaced by `with`.
pub fn preview(text: &str, limit: usize, with: &str) -> (short: String)
    ensures
        short@ == preview_text(text@, limit as nat, with@),
{
    let chars = to_chars(text);
    let end = if limit < chars.len() {
        limit
    } else {
        chars.len()
    };
    let ghost shown = chars@.take(end as int);
    let mut short = String::new();
    let mut i: usize = 0;
    assert(shown.take(0) =~= Seq::<char>::empty());
    while i < end
        invariant
            i <= end <= chars@.len(),
            shown == chars@.take(end as int),
            short@ == on_one_line(shown.take(i as int), with@),
        decreases end - i,
    {
        proof {
            assert(shown.take(i + 1).drop_last() =~= shown.take(i as int));
            assert(shown.take(i + 1).last() == chars@[i as int]);
        }
        if chars[i] == '\n' {
            short.append(with);
        } else {
            short.push(chars[i]);
        }
        i += 1;
    }
    proof {
        assert(shown.take(end as int) =~= shown);
        if limit >= chars@.len() {
            assert(shown =~= text@);
        }
    }
    short
}

} // verus!
