use vstd::prelude::*;

verus! {

/// Unicode's White_Space characters: those at which a claim message is cut
/// into words.
pub open spec fn is_white_space(c: char) -> bool {
    ||| c == '\t'
    ||| c == '\n'
    ||| c == '\u{0B}'
    ||| c == '\u{0C}'
    ||| c == '\r'
    ||| c == ' '
    ||| c == '\u{85}'
    ||| c == '\u{A0}'
    ||| c == '\u{1680}'
    ||| ('\u{2000}' <= c && c <= '\u{200A}')
    ||| c == '\u{2028}'
    ||| c == '\u{2029}'
    ||| c == '\u{202F}'
    ||| c == '\u{205F}'
    ||| c == '\u{3000}'
}

/// Reading `s` from the left: the words closed so far and the word still
/// open at the end.
pub open spec fn scan_words(s: Seq<char>) -> (Seq<Seq<char>>, Seq<char>)
    decreases s.len(),
{
    if s.len() == 0 {
        (seq![], seq![])
    } else {
        let (words, open) = scan_words(s.drop_last());
        let c = s.last();
        if is_white_space(c) {
            if open.len() > 0 {
                (words.push(open), seq![])
            } else {
                (words, open)
            }
        } else {
            (words, open.push(c))
        }
    }
}

/// The maximal runs of non-white-space characters of `s`, in order.
pub open spec fn split_whitespace(s: Seq<char>) -> Seq<Seq<char>> {
    let (words, open) = scan_words(s);
    if open.len() > 0 {
        words.push(open)
    } else {
        words
    }
}

/// An ASCII decimal digit.
pub open spec fn is_digit(c: char) -> bool {
    '0' <= c && c <= '9'
}

/// The number that a string of decimal digits denotes.
pub open spec fn digits_value(d: Seq<char>) -> nat
    decreases d.len(),
{
    if d.len() == 0 {
        0
    } else {
        digits_value(d.drop_last()) * 10 + (d.last() as nat - 48) as nat
    }
}

/// The digits of a word that denotes an unsigned number: one leading `+` is
/// allowed.
pub open spec fn unsigned_digits(w: Seq<char>) -> Seq<char> {
    if w.len() > 0 && w[0] == '+' {
        w.drop_first()
    } else {
        w
    }
}

/// The `usize` a word denotes, if any: an optional `+`, then one or more
/// decimal digits, of value at most `usize::MAX`.
pub open spec fn parse_usize(w: Seq<char>) -> Option<usize> {
    let d = unsigned_digits(w);
    if d.len() > 0 && (forall|i: int| 0 <= i < d.len() ==> is_digit(#[trigger] d[i])) && digits_value(d)
        <= usize::MAX {
        Some(digits_value(d) as usize)
    } else {
        None
    }
}

/// The numbers that the leading words denote, up to the first word that
/// denotes none.
pub open spec fn leading_numbers(words: Seq<Seq<char>>) -> Seq<usize>
    decreases words.len(),
{
    if words.len() == 0 {
        seq![]
    } else {
        match parse_usize(words[0]) {
            Some(v) => seq![v] + leading_numbers(words.drop_first()),
            None => seq![],
        }
    }
}

/// The task numbers a claim message names: its words read as numbers, up
/// to the first word that is not one.
pub open spec fn task_indexes(s: Seq<char>) -> Seq<usize> {
    leading_numbers(split_whitespace(s))
}

/// A character is white space.
pub fn white_space(c: char) -> (ws: bool)
    ensures
        ws == is_white_space(c),
{
    c == '\t' || c == '\n' || c == '\u{0B}' || c == '\u{0C}' || c == '\r' || c == ' ' || c
        == '\u{85}' || c == '\u{A0}' || c == '\u{1680}' || ('\u{2000}' <= c && c <= '\u{200A}')
        || c == '\u{2028}' || c == '\u{2029}' || c == '\u{202F}' || c == '\u{205F}' || c
        == '\u{3000}'
}

pub open spec fn words_view(words: Seq<Vec<char>>) -> Seq<Seq<char>> {
    words.map_values(|w: Vec<char>| w@)
}

/// Cuts `s` into its white-space separated words.
pub fn split_words(s: &str) -> (words: Vec<Vec<char>>)
    ensures
        words_view(words@) == split_whitespace(s@),
{
    let len = s.unicode_len();
    let mut words: Vec<Vec<char>> = Vec::new();
    let mut open: Vec<char> = Vec::new();
    let mut i: usize = 0;
    while i < len
        invariant
            len == s@.len(),
            i <= len,
            (words_view(words@), open@) == scan_words(s@.take(i as int)),
        decreases len - i,
    {
        let c = s.get_char(i);
        proof {
            assert(s@.take(i + 1).drop_last() =~= s@.take(i as int));
            assert(s@.take(i + 1).last() == c);
        }
        if white_space(c) {
            if open.len() > 0 {
                let ghost before = words@;
                words.push(open);
                open = Vec::new();
                assert(words_view(words@) =~= words_view(before).push(scan_words(s@.take(i as int)).1));
            }
        } else {
            open.push(c);
        }
        i = i + 1;
    }
    assert(s@.take(len as int) =~= s@);
    if open.len() > 0 {
        let ghost before = words@;
        let ghost last = open@;
        words.push(open);
        assert(words_view(words@) =~= words_view(before).push(last));
    }
    words
}

proof fn lemma_digits_value_prefix(d: Seq<char>, i: int)
    requires
        0 <= i <= d.len(),
    ensures
        digits_value(d.take(i)) <= digits_value(d),
    decreases d.len(),
{
    if i < d.len() {
        lemma_digits_value_prefix(d.drop_last(), i);
        assert(d.drop_last().take(i) =~= d.take(i));
    } else {
        assert(d.take(i) =~= d);
    }
}

/// Reads a word as a `usize`, as `str::parse::<usize>` does.
pub fn parse_word(w: &Vec<char>) -> (n: Option<usize>)
    ensures
        n == parse_usize(w@),
{
    let mut start: usize = 0;
    if w.len() > 0 && w[0] == '+' {
        start = 1;
    }
    let ghost d = unsigned_digits(w@);
    assert(d =~= w@.skip(start as int));
    if start >= w.len() {
        return None;
    }
    let mut value: usize = 0;
    let mut i: usize = start;
    while i < w.len()
        invariant
            start <= i <= w.len(),
            d == w@.skip(start as int),
            d == unsigned_digits(w@),
            d.len() > 0,
            forall|j: int| 0 <= j < i - start ==> is_digit(#[trigger] d[j]),
            value == digits_value(d.take(i - start)),
        decreases w.len() - i,
    {
        let c = w[i];
        proof {
            assert(d.take(i - start + 1).drop_last() =~= d.take(i - start));
            assert(d[i - start] == c);
        }
        if !('0' <= c && c <= '9') {
            assert(!is_digit(d[i - start]));
            return None;
        }
        let digit = (c as u32 - 48) as usize;
        proof {
            assert(digits_value(d.take(i - start + 1)) == value * 10 + digit);
        }
        match value.checked_mul(10) {
            Some(tens) => match tens.checked_add(digit) {
                Some(next) => {
                    value = next;
                },
                None => {
                    proof {
                        lemma_digits_value_prefix(d, i - start + 1);
                        assert(digits_value(d) > usize::MAX);
                    }
                    return None;
                },
            },
            None => {
                proof {
                    lemma_digits_value_prefix(d, i - start + 1);
                    assert(value * 10 <= value * 10 + digit);
                }
                return None;
            },
        }
        i = i + 1;
    }
    assert(d.take(i - start) =~= d);
    Some(value)
}

/// The task numbers that a claim message names, as
/// `split_whitespace().map(parse).take_while(is_ok)` reads them.
pub fn parse_task_indexes(s: &str) -> (ids: Vec<usize>)
    ensures
        ids@ == task_indexes(s@),
{
    let words = split_words(s);
    let ghost ws = words_view(words@);
    let mut ids: Vec<usize> = Vec::new();
    let mut i: usize = 0;
    assert(ws.skip(0) =~= ws);
    assert(ids@ + leading_numbers(ws) =~= leading_numbers(ws));
    while i < words.len()
        invariant
            i <= words.len(),
            ws == words_view(words@),
            ws == split_whitespace(s@),
            leading_numbers(ws) == ids@ + leading_numbers(ws.skip(i as int)),
        decreases words.len() - i,
    {
        proof {
            assert(ws[i as int] == words@[i as int]@);
            assert(ws.skip(i as int)[0] == ws[i as int]);
            assert(ws.skip(i as int).drop_first() =~= ws.skip(i + 1));
        }
        match parse_word(&words[i]) {
            Some(v) => {
                let ghost before = ids@;
                ids.push(v);
                assert(before + leading_numbers(ws.skip(i as int)) =~= ids@ + leading_numbers(
                    ws.skip(i + 1),
                ));
            },
            None => {
                assert(leading_numbers(ws.skip(i as int)) =~= seq![]);
                assert(ids@ + seq![] =~= ids@);
                return ids;
            },
        }
        i = i + 1;
    }
    assert(ws.skip(i as int) =~= seq![]);
    assert(ids@ + seq![] =~= ids@);
    ids
}

} // verus!
