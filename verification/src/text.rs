use vstd::prelude::*;

verus! {

/// The byte is an ASCII digit.
pub open spec fn is_digit(b: u8) -> bool {
    48 <= b <= 57
}

/// Every byte is an ASCII digit.
pub open spec fn all_digits(s: Seq<u8>) -> bool {
    forall|i: int| 0 <= i < s.len() ==> is_digit(#[trigger] s[i])
}

/// The number that a sequence of digits writes in base ten.
pub open spec fn digits_value(s: Seq<u8>) -> nat
    decreases s.len(),
{
    if s.len() == 0 {
        0
    } else {
        digits_value(s.drop_last()) * 10 + (s.last() - 48) as nat
    }
}

/// The number that digits write: there must be one digit or more, and the
/// value must fit a machine word.
pub open spec fn digits_number(digits: Seq<u8>) -> Option<usize> {
    if digits.len() > 0 && all_digits(digits) && digits_value(digits) <= usize::MAX {
        Some(digits_value(digits) as usize)
    } else {
        None
    }
}

/// The number that a text writes: an optional `+`, then digits.
pub open spec fn number_of(s: Seq<u8>) -> Option<usize> {
    if s.len() > 0 && s[0] == 43 {
        digits_number(s.skip(1))
    } else {
        digits_number(s)
    }
}

/// The index of the last separator in a text, -1 if it holds none.
pub open spec fn last_separator(s: Seq<u8>, separator: u8) -> int
    decreases s.len(),
{
    if s.len() == 0 {
        -1
    } else if s.last() == separator {
        s.len() - 1
    } else {
        last_separator(s.drop_last(), separator)
    }
}

/// A list with one number more, if there is a list and a number.
pub open spec fn extended(list: Option<Seq<usize>>, number: Option<usize>) -> Option<Seq<usize>> {
    match (list, number) {
        (Some(l), Some(n)) => Some(l.push(n)),
        _ => None,
    }
}

/// The numbers that a text lists, written one after the other with a
/// separator between each two; none if a piece between separators, before
/// the first or after the last is not a number.
pub open spec fn numbers_of(s: Seq<u8>, separator: u8) -> Option<Seq<usize>>
    decreases s.len(),
{
    let k = last_separator(s, separator);
    if 0 <= k < s.len() {
        extended(numbers_of(s.take(k), separator), number_of(s.skip(k + 1)))
    } else {
        extended(Some(Seq::empty()), number_of(s))
    }
}

/// The numbers of a text whose last piece begins at `start`: those before
/// that piece, and the number of the piece.
pub proof fn lemma_last_piece(s: Seq<u8>, separator: u8, start: int)
    requires
        0 <= start <= s.len(),
        last_separator(s, separator) == start - 1,
    ensures
        numbers_of(s, separator) == extended(
            if start == 0 {
                Some(Seq::empty())
            } else {
                numbers_of(s.take(start - 1), separator)
            },
            number_of(s.skip(start)),
        ),
{
    if start == 0 {
        assert(s.skip(0) =~= s);
    }
}

/// The digits of a prefix write no greater number than all of them.
pub proof fn lemma_digits_monotone(s: Seq<u8>, k: int)
    requires
        0 <= k <= s.len(),
        all_digits(s.take(k)),
    ensures
        digits_value(s.take(k)) <= digits_value(s) || !all_digits(s),
    decreases s.len(),
{
    if k == s.len() {
        assert(s.take(k) =~= s);
    } else if all_digits(s) {
        assert(is_digit(s[s.len() - 1]));
        assert(s.drop_last().take(k) =~= s.take(k));
        assert forall|i: int| 0 <= i < s.drop_last().len() implies is_digit(
            #[trigger] s.drop_last()[i],
        ) by {
            assert(is_digit(s[i]));
        }
        lemma_digits_monotone(s.drop_last(), k);
    }
}

/// Reads the number that the bytes `from..to` of a text write.
pub fn parse_number(text: &[u8], from: usize, to: usize) -> (r: Option<usize>)
    requires
        from <= to <= text@.len(),
    ensures
        r == number_of(text@.subrange(from as int, to as int)),
{
    let ghost whole = text@.subrange(from as int, to as int);
    let mut i = from;
    if i < to && text[i] == 43 {
        i += 1;
    }
    if i == to {
        proof {
            assert(whole.len() <= 1);
            assert(whole.len() == 1 ==> whole.skip(1).len() == 0);
        }
        return None;
    }
    let start = i;
    let ghost digits = text@.subrange(start as int, to as int);
    proof {
        if whole.len() > 0 && whole[0] == 43 {
            assert(whole.skip(1) =~= digits);
        } else {
            assert(whole =~= digits);
        }
    }
    let mut value: usize = 0;
    while i < to
        invariant
            start <= i <= to <= text@.len(),
            start < to,
            number_of(text@.subrange(from as int, to as int)) == digits_number(digits),
            digits == text@.subrange(start as int, to as int),
            all_digits(digits.take(i - start)),
            value == digits_value(digits.take(i - start)),
        decreases to - i,
    {
        let b = text[i];
        if b < 48 || b > 57 {
            proof {
                assert(!is_digit(digits[i - start]));
            }
            return None;
        }
        let digit = (b - 48) as usize;
        let ghost next = digits.take(i - start + 1);
        proof {
            assert(next.drop_last() =~= digits.take(i - start));
            assert(next.last() == b);
            assert forall|j: int| 0 <= j < next.len() implies is_digit(#[trigger] next[j]) by {
                if j < i - start {
                    assert(is_digit(digits.take(i - start)[j]));
                }
            }
            lemma_digits_monotone(digits, i - start + 1);
        }
        match value.checked_mul(10) {
            None => {
                return None;
            },
            Some(tens) => match tens.checked_add(digit) {
                None => {
                    return None;
                },
                Some(v) => {
                    value = v;
                },
            },
        }
        i += 1;
    }
    proof {
        assert(digits.take(to - start) =~= digits);
    }
    Some(value)
}

/// Reads the numbers that a text lists with `separator` between them.
pub fn parse_list(text: &[u8], separator: u8) -> (r: Option<Vec<usize>>)
    ensures
        match numbers_of(text@, separator) {
            Some(list) => r matches Some(v) && v@ == list,
            None => r is None,
        },
{
    let mut list: Vec<usize> = Vec::new();
    let mut ok = true;
    let mut start: usize = 0;
    let mut i: usize = 0;
    while i < text.len()
        invariant
            start <= i <= text@.len(),
            last_separator(text@.take(i as int), separator) == start - 1,
            start == 0 ==> ok && list@ == Seq::<usize>::empty(),
            start > 0 ==> numbers_of(text@.take(start - 1), separator) == (if ok {
                Some(list@)
            } else {
                None::<Seq<usize>>
            }),
        decreases text@.len() - i,
    {
        assert(last_separator(text@.take(i + 1), separator) == (if text@[i as int] == separator {
            i as int
        } else {
            start - 1
        })) by {
            assert(text@.take(i + 1).drop_last() =~= text@.take(i as int));
        }
        if text[i] == separator {
            let number = parse_number(text, start, i);
            assert(numbers_of(text@.take(i as int), separator) == extended(
                if ok {
                    Some(list@)
                } else {
                    None::<Seq<usize>>
                },
                number,
            )) by {
                let s = text@.take(i as int);
                lemma_last_piece(s, separator, start as int);
                assert(s.skip(start as int) =~= text@.subrange(start as int, i as int));
                if start > 0 {
                    assert(s.take(start - 1) =~= text@.take(start - 1));
                }
            }
            match number {
                Some(n) => {
                    if ok {
                        list.push(n);
                    }
                },
                None => {
                    ok = false;
                },
            }
            start = i + 1;
        }
        i += 1;
    }
    let number = parse_number(text, start, i);
    assert(numbers_of(text@, separator) == extended(
        if ok {
            Some(list@)
        } else {
            None::<Seq<usize>>
        },
        number,
    )) by {
        assert(text@.take(i as int) =~= text@);
        lemma_last_piece(text@, separator, start as int);
        assert(text@.skip(start as int) =~= text@.subrange(start as int, i as int));
        if start > 0 {
            assert(text@.take(start - 1) == text@.take(start - 1));
        }
    }
    match number {
        Some(n) => {
            if ok {
                list.push(n);
                Some(list)
            } else {
                None
            }
        },
        None => None,
    }
}

/// The byte is a blank: a space, a tab, a line feed, a vertical tab, a form
/// feed or a carriage return.
pub open spec fn is_blank(b: u8) -> bool {
    b == 32 || 9 <= b <= 13
}

/// A colon and a space stand at index `k` of the text.
pub open spec fn separates(s: Seq<u8>, k: int) -> bool {
    0 <= k && k + 1 < s.len() && s[k] == 58 && s[k + 1] == 32
}

/// Finds what is left of a text without the blanks at its ends: the bytes
/// `from..to`.  A text of blanks only leaves nothing, at its end.
pub fn trim(text: &[u8]) -> (r: (usize, usize))
    ensures
        r.0 <= r.1 <= text@.len(),
        forall|i: int| 0 <= i < r.0 ==> is_blank(#[trigger] text@[i]),
        forall|i: int| r.1 <= i < text@.len() ==> is_blank(#[trigger] text@[i]),
        r.0 < r.1 ==> !is_blank(text@[r.0 as int]) && !is_blank(text@[r.1 - 1]),
        r.0 == r.1 ==> r.0 == text@.len(),
{
    let mut from: usize = 0;
    while from < text.len() && (text[from] == 32 || (9 <= text[from] && text[from] <= 13))
        invariant
            from <= text@.len(),
            forall|i: int| 0 <= i < from ==> is_blank(#[trigger] text@[i]),
        decreases text@.len() - from,
    {
        from += 1;
    }
    let mut to: usize = text.len();
    while to > from && (text[to - 1] == 32 || (9 <= text[to - 1] && text[to - 1] <= 13))
        invariant
            from <= to <= text@.len(),
            from < text@.len() ==> !is_blank(text@[from as int]),
            forall|i: int| to <= i < text@.len() ==> is_blank(#[trigger] text@[i]),
        decreases to,
    {
        to -= 1;
    }
    (from, to)
}

/// Finds the first colon followed by a space among the bytes `from..to`.
pub fn find_separator(text: &[u8], from: usize, to: usize) -> (r: Option<usize>)
    requires
        from <= to <= text@.len(),
    ensures
        match r {
            Some(k) => from <= k && k + 1 < to && separates(text@, k as int) && forall|j: int|
                from <= j < k ==> !separates(text@, j),
            None => forall|j: int| from <= j && j + 1 < to ==> !separates(text@, j),
        },
{
    let mut k = from;
    while to - k >= 2
        invariant
            from <= k <= to <= text@.len(),
            forall|j: int| from <= j < k ==> !separates(text@, j),
        decreases to - k,
    {
        if text[k] == 58 && text[k + 1] == 32 {
            return Some(k);
        }
        k += 1;
    }
    None
}

/// Splits a line of the form `LABEL: CONTENT` into the bytes of its label
/// and those of its content, each as `from..to`.  Blanks at the ends of the
/// line belong to neither; the label ends before the first colon that a
/// space follows, the content begins after that space and ends before the
/// next such colon, or with the line.  A line without such a colon has no
/// parts.
pub fn split_line(line: &[u8]) -> (r: Option<((usize, usize), (usize, usize))>)
    ensures
        match r {
            Some((label, content)) => {
                &&& label.0 <= label.1
                &&& label.1 + 2 == content.0
                &&& content.0 <= content.1 <= line@.len()
                &&& forall|i: int| 0 <= i < label.0 ==> is_blank(#[trigger] line@[i])
                &&& label.0 < line@.len() && !is_blank(line@[label.0 as int])
                &&& separates(line@, label.1 as int)
                &&& forall|j: int| label.0 <= j < label.1 ==> !separates(line@, j)
                &&& forall|j: int| content.0 <= j && j + 1 < content.1 ==> !separates(line@, j)
                &&& separates(line@, content.1 as int) || forall|i: int|
                    content.1 <= i < line@.len() ==> is_blank(#[trigger] line@[i])
            },
            None => forall|j: int| !separates(line@, j) || (separates(line@, j) && forall|i: int|
                j < i < line@.len() ==> is_blank(#[trigger] line@[i])),
        },
{
    let (from, to) = trim(line);
    match find_separator(line, from, to) {
        None => {
            proof {
                assert forall|j: int| !separates(line@, j) || (separates(line@, j) && forall|
                    i: int,
                |
                    j < i < line@.len() ==> is_blank(#[trigger] line@[i])) by {
                    if separates(line@, j) {
                        if j < from {
                            assert(is_blank(line@[j]));
                        } else if j + 1 >= to {
                            if j + 1 > to {
                                assert(is_blank(line@[j]));
                            }
                        }
                    }
                }
            }
            None
        },
        Some(k) => {
            let end = match find_separator(line, k + 2, to) {
                Some(next) => next,
                None => to,
            };
            Some(((from, k), (k + 2, end)))
        },
    }
}

} // verus!
