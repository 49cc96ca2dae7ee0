//! Searching, trimming and splitting text, and numerals.

use crate::text::{
    before_char, contains_text, decimal, ends_with, find_from, is_white_space, join_text,
    lemma_find_from, lemma_trim, lines, lines_from, occurs_at, opt_view, replace_char, starts_with,
    strip_carriage_return, trim, trim_end, trim_start, views,
};
use vstd::prelude::*;

verus! {

// ---------------------------------------------------------------------------
// Searching
// ---------------------------------------------------------------------------

/// A text stands at a position exactly if each of its characters does.
pub proof fn law_text_stands_character_by_character(s: Seq<char>, pat: Seq<char>, i: int)
    ensures
        occurs_at(s, pat, i) <==> 0 <= i && i + pat.len() <= s.len() && forall|k: int|
            0 <= k < pat.len() ==> s[i + k] == #[trigger] pat[k],
{
    if 0 <= i && i + pat.len() <= s.len() {
        let own = s.subrange(i, i + pat.len());
        if occurs_at(s, pat, i) {
            assert forall|k: int| 0 <= k < pat.len() implies s[i + k] == #[trigger] pat[k] by {
                assert(own[k] == s[i + k]);
            }
        }
        if forall|k: int| 0 <= k < pat.len() ==> s[i + k] == #[trigger] pat[k] {
            assert(own =~= pat);
        }
    }
}

/// A text is found in whatever it was put into, at the place where it was put.
pub proof fn law_text_is_found_where_it_was_put(front: Seq<char>, pat: Seq<char>, rest: Seq<char>)
    ensures
        occurs_at(front + pat + rest, pat, front.len() as int),
        contains_text(front + pat + rest, pat),
        starts_with(pat + rest, pat),
        ends_with(front + pat, pat),
{
    let s = front + pat + rest;
    let at = front.len() as int;
    assert(s.subrange(at, at + pat.len()) =~= pat);
    assert(occurs_at(s, pat, at));
    assert((pat + rest).subrange(0, pat.len() as int) =~= pat);
    assert((front + pat).subrange(at, at + pat.len()) =~= pat);
}

/// What contains a text is that text with something in front and behind; what
/// begins or ends with it has nothing in front or behind.
pub proof fn law_found_text_stands_somewhere(s: Seq<char>, pat: Seq<char>)
    ensures
        contains_text(s, pat) ==> exists|front: Seq<char>, rest: Seq<char>|
            s == #[trigger] (front + pat + rest),
        starts_with(s, pat) ==> pat.len() <= s.len() && s == pat + s.skip(pat.len() as int),
        ends_with(s, pat) ==> pat.len() <= s.len() && s == s.take(s.len() - pat.len()) + pat,
{
    if contains_text(s, pat) {
        let i = choose|i: int| occurs_at(s, pat, i);
        let own = s.subrange(i, i + pat.len());
        let front = s.take(i);
        let rest = s.skip(i + pat.len());
        assert(own == pat);
        assert(s =~= front + own + rest);
        assert(s == front + pat + rest);
    }
    if starts_with(s, pat) {
        let own = s.subrange(0, pat.len() as int);
        assert(s =~= own + s.skip(pat.len() as int));
    }
    if ends_with(s, pat) {
        let own = s.subrange(s.len() - pat.len(), s.len() as int);
        assert(s =~= s.take(s.len() - pat.len()) + own);
    }
}

/// A search finds the first place at or behind `from`, if there is any.
pub proof fn law_search_finds_the_first_place(s: Seq<char>, pat: Seq<char>, from: int)
    requires
        0 <= from,
    ensures
        find_from(s, pat, from) is None <==> forall|j: int|
            #![trigger occurs_at(s, pat, j)]
            from <= j ==> !occurs_at(s, pat, j),
        find_from(s, pat, from) is Some ==> {
            let i = find_from(s, pat, from)->0;
            from <= i && occurs_at(s, pat, i) && forall|j: int|
                #![trigger occurs_at(s, pat, j)]
                from <= j < i ==> !occurs_at(s, pat, j)
        },
{
    lemma_find_from(s, pat, from);
}

/// A search behind `at` goes as in the text that begins there.
pub proof fn lemma_search_behind(
    s: Seq<char>,
    at: int,
    rest: Seq<char>,
    pat: Seq<char>,
    from: int,
)
    requires
        0 <= at <= s.len(),
        s.skip(at) == rest,
        0 <= from,
    ensures
        find_from(s, pat, at + from) == match find_from(rest, pat, from) {
            Some(i) => Some(at + i),
            None => None::<int>,
        },
{
    lemma_find_from(s, pat, at + from);
    lemma_find_from(rest, pat, from);
    assert forall|j: int| 0 <= j implies #[trigger] occurs_at(rest, pat, j) == occurs_at(
        s,
        pat,
        at + j,
    ) by {
        if j + pat.len() <= rest.len() {
            assert(rest.subrange(j, j + pat.len()) =~= s.subrange(at + j, at + j + pat.len()));
        }
    }
    if find_from(rest, pat, from) is Some {
        assert(occurs_at(s, pat, at + find_from(rest, pat, from)->0));
    }
    if find_from(s, pat, at + from) is Some {
        let i = find_from(s, pat, at + from)->0;
        assert(occurs_at(rest, pat, i - at));
        if find_from(rest, pat, from) is Some {
            let k = find_from(rest, pat, from)->0;
            assert(occurs_at(s, pat, at + k));
        }
    }
}

/// What stands in front of the first `c`: all of a text without one.
pub proof fn law_text_in_front_of_a_character(front: Seq<char>, c: char, rest: Seq<char>)
    requires
        !front.contains(c),
    ensures
        before_char(front + seq![c] + rest, c) == front,
        before_char(front, c) == front,
{
    let s = front + seq![c] + rest;
    let at = front.len() as int;
    assert(s.subrange(at, at + 1) =~= seq![c]);
    assert(occurs_at(s, seq![c], at));
    lemma_find_from(s, seq![c], 0);
    lemma_find_from(front, seq![c], 0);
    assert forall|j: int| #[trigger] occurs_at(front, seq![c], j) implies false by {
        assert(front.subrange(j, j + 1)[0] == front[j]);
        assert(seq![c][0] == c);
        assert(front.contains(front[j]));
    }
    assert forall|j: int| 0 <= j < at && #[trigger] occurs_at(s, seq![c], j) implies false by {
        assert(s.subrange(j, j + 1)[0] == s[j]);
        assert(seq![c][0] == c);
        assert(s[j] == front[j]);
        assert(front.contains(front[j]));
    }
    assert(find_from(s, seq![c], 0) == Some(at));
    assert(s.subrange(0, at) =~= front);
}

/// Writing one character as another changes that character wherever it
/// stands, and nothing else.
pub proof fn law_replacing_changes_one_character(s: Seq<char>, from: char, to: char, i: int)
    ensures
        replace_char(s, from, to).len() == s.len(),
        0 <= i < s.len() && s[i] == from ==> replace_char(s, from, to)[i] == to,
        0 <= i < s.len() && s[i] != from ==> replace_char(s, from, to)[i] == s[i],
{
}

// ---------------------------------------------------------------------------
// White space
// ---------------------------------------------------------------------------

/// The white space characters, one by one.
pub open spec fn white_space_characters() -> Seq<char> {
    seq![
        '\u{9}',
        '\u{a}',
        '\u{b}',
        '\u{c}',
        '\u{d}',
        '\u{20}',
        '\u{85}',
        '\u{a0}',
        '\u{1680}',
        '\u{2000}',
        '\u{2001}',
        '\u{2002}',
        '\u{2003}',
        '\u{2004}',
        '\u{2005}',
        '\u{2006}',
        '\u{2007}',
        '\u{2008}',
        '\u{2009}',
        '\u{200a}',
        '\u{2028}',
        '\u{2029}',
        '\u{202f}',
        '\u{205f}',
        '\u{3000}',
    ]
}

/// Every one of these characters is white space, and no other.
pub proof fn law_white_space_is_known(c: char)
    ensures
        is_white_space(c) <==> white_space_characters().contains(c),
{
    let all = white_space_characters();
    if is_white_space(c) {
        let n = c as u32;
        let k: int = if 0x9 <= n <= 0xd {
            n - 0x9
        } else if n == 0x20 {
            5
        } else if n == 0x85 {
            6
        } else if n == 0xa0 {
            7
        } else if n == 0x1680 {
            8
        } else if 0x2000 <= n <= 0x200a {
            9 + (n - 0x2000)
        } else if n == 0x2028 {
            20
        } else if n == 0x2029 {
            21
        } else if n == 0x202f {
            22
        } else if n == 0x205f {
            23
        } else {
            24
        };
        assert(all[k] == c);
    }
    if all.contains(c) {
        let k = choose|k: int| 0 <= k < all.len() && all[k] == c;
        assert(is_white_space(all[k]));
    }
}

/// Nothing but white space.
pub open spec fn is_blank(s: Seq<char>) -> bool {
    forall|i: int| 0 <= i < s.len() ==> is_white_space(#[trigger] s[i])
}

/// White space in front and behind is taken off, all of it and nothing else.
pub proof fn law_trimming_takes_white_space_off_both_ends(
    front: Seq<char>,
    inner: Seq<char>,
    rest: Seq<char>,
)
    requires
        is_blank(front),
        is_blank(rest),
        inner.len() > 0 ==> !is_white_space(inner[0]) && !is_white_space(inner.last()),
    ensures
        trim(front + inner + rest) == inner,
{
    lemma_trim_front(front, inner + rest);
    assert(front + inner + rest =~= front + (inner + rest));
    if inner.len() > 0 {
        assert(trim_start(inner + rest) == inner + rest);
        lemma_trim_rest(inner, rest);
    } else {
        assert(inner + rest =~= rest);
        lemma_trim_front(rest, Seq::empty());
        assert(rest + Seq::<char>::empty() =~= rest);
        assert(inner =~= Seq::empty());
    }
}

proof fn lemma_trim_front(front: Seq<char>, s: Seq<char>)
    requires
        is_blank(front),
    ensures
        trim_start(front + s) == trim_start(s),
    decreases front.len(),
{
    if front.len() == 0 {
        assert(front + s =~= s);
    } else {
        let all = front + s;
        let less = front.subrange(1, front.len() as int);
        assert(all[0] == front[0]);
        assert forall|i: int| 0 <= i < less.len() implies is_white_space(#[trigger] less[i]) by {
            assert(less[i] == front[i + 1]);
        }
        assert(all.subrange(1, all.len() as int) =~= less + s);
        lemma_trim_front(less, s);
    }
}

proof fn lemma_trim_rest(s: Seq<char>, rest: Seq<char>)
    requires
        is_blank(rest),
        s.len() > 0,
        !is_white_space(s.last()),
    ensures
        trim_end(s + rest) == s,
    decreases rest.len(),
{
    if rest.len() == 0 {
        assert(s + rest =~= s);
    } else {
        let all = s + rest;
        let less = rest.subrange(0, rest.len() - 1);
        assert(all.last() == rest[rest.len() - 1]);
        assert forall|i: int| 0 <= i < less.len() implies is_white_space(#[trigger] less[i]) by {
            assert(less[i] == rest[i]);
        }
        assert(all.subrange(0, all.len() - 1) =~= s + less);
        lemma_trim_rest(s, less);
    }
}

/// Every text is what trimming leaves of it, with white space around.
pub proof fn lemma_blank_ends(s: Seq<char>) -> (parts: (Seq<char>, Seq<char>))
    ensures
        is_blank(parts.0),
        is_blank(parts.1),
        s == parts.0 + trim(s) + parts.1,
        trim(s).len() > 0 ==> !is_white_space(trim(s)[0]) && !is_white_space(trim(s).last()),
        trim(s).len() == 0 <==> is_blank(s),
{
    let front = lemma_blank_front(s);
    let rest = lemma_blank_rest(trim_start(s));
    lemma_trim(s);
    assert(s =~= front + trim(s) + rest);
    if trim(s).len() > 0 {
        assert(s[front.len() as int] == trim(s)[0]);
        assert(!is_white_space(s[front.len() as int]));
    } else {
        assert(s =~= front + rest);
        assert forall|i: int| 0 <= i < s.len() implies is_white_space(#[trigger] s[i]) by {
            if i < front.len() {
                assert(s[i] == front[i]);
            } else {
                assert(s[i] == rest[i - front.len()]);
            }
        }
    }
    (front, rest)
}

proof fn lemma_blank_front(s: Seq<char>) -> (front: Seq<char>)
    ensures
        is_blank(front),
        s == front + trim_start(s),
    decreases s.len(),
{
    if s.len() > 0 && is_white_space(s[0]) {
        let less = s.subrange(1, s.len() as int);
        let more = lemma_blank_front(less);
        let front = seq![s[0]] + more;
        assert(s =~= seq![s[0]] + less);
        assert(s =~= front + trim_start(s));
        assert forall|i: int| 0 <= i < front.len() implies is_white_space(#[trigger] front[i]) by {
            if i > 0 {
                assert(front[i] == more[i - 1]);
            }
        }
        front
    } else {
        assert(s =~= Seq::<char>::empty() + s);
        Seq::empty()
    }
}

proof fn lemma_blank_rest(s: Seq<char>) -> (rest: Seq<char>)
    ensures
        is_blank(rest),
        s == trim_end(s) + rest,
    decreases s.len(),
{
    if s.len() > 0 && is_white_space(s.last()) {
        let less = s.subrange(0, s.len() - 1);
        let more = lemma_blank_rest(less);
        let rest = more.push(s.last());
        assert(s =~= less.push(s.last()));
        assert(s =~= trim_end(s) + rest);
        assert forall|i: int| 0 <= i < rest.len() implies is_white_space(#[trigger] rest[i]) by {
            if i < more.len() {
                assert(rest[i] == more[i]);
            }
        }
        rest
    } else {
        assert(s =~= s + Seq::<char>::empty());
        Seq::empty()
    }
}

// ---------------------------------------------------------------------------
// Lines
// ---------------------------------------------------------------------------

/// A text is read line by line: a line ends at a line feed, or at a carriage
/// return and a line feed, and what stands behind is read in the same way.
/// A last line needs no line ending, and is none where it is empty.
pub proof fn law_text_is_read_line_by_line(line: Seq<char>, rest: Seq<char>)
    requires
        !line.contains('\n'),
    ensures
        line.len() == 0 || line.last() != '\r' ==> lines(line + seq!['\n'] + rest) == seq![line]
            + lines(rest),
        lines(line + seq!['\r', '\n'] + rest) == seq![line] + lines(rest),
        line.len() > 0 ==> lines(line) == seq![line],
        lines(Seq::<char>::empty()) == Seq::<Seq<char>>::empty(),
{
    let longer = line.push('\r');
    assert(!longer.contains('\n')) by {
        assert forall|i: int| 0 <= i < longer.len() implies longer[i] != '\n' by {
            if i < line.len() {
                assert(line.contains(line[i]));
            }
        }
    }
    lemma_first_line(line, rest);
    lemma_first_line(longer, rest);
    assert(line + seq!['\r', '\n'] + rest =~= longer + seq!['\n'] + rest);
    assert(strip_carriage_return(longer) =~= line);
    if line.len() > 0 {
        lemma_find_from(line, seq!['\n'], 0);
        assert forall|j: int| #[trigger] occurs_at(line, seq!['\n'], j) implies false by {
            assert(line.subrange(j, j + 1)[0] == line[j]);
            assert(seq!['\n'][0] == '\n');
            assert(line.contains(line[j]));
        }
        assert(find_from(line, seq!['\n'], 0) is None);
        assert(line.subrange(0, line.len() as int) =~= line);
    }
}

proof fn lemma_first_line(line: Seq<char>, rest: Seq<char>)
    requires
        !line.contains('\n'),
    ensures
        lines(line + seq!['\n'] + rest) == seq![strip_carriage_return(line)] + lines(rest),
{
    let s = line + seq!['\n'] + rest;
    let at = line.len() as int;
    law_text_in_front_of_a_character(line, '\n', rest);
    lemma_find_from(s, seq!['\n'], 0);
    assert(s.subrange(at, at + 1) =~= seq!['\n']);
    assert(occurs_at(s, seq!['\n'], at));
    let i = find_from(s, seq!['\n'], 0)->0;
    assert(s.subrange(0, i) == line);
    assert(s.subrange(0, i).len() == i);
    assert(i == at);
    assert(s.skip(at + 1) =~= rest);
    lemma_lines_behind(s, at + 1, rest, 0);
}

proof fn lemma_lines_behind(s: Seq<char>, at: int, rest: Seq<char>, from: int)
    requires
        0 <= at <= s.len(),
        s.skip(at) == rest,
        0 <= from,
    ensures
        lines_from(s, at + from) == lines_from(rest, from),
    decreases rest.len() - from,
{
    if from < rest.len() {
        lemma_find_from(rest, seq!['\n'], from);
        lemma_search_behind(s, at, rest, seq!['\n'], from);
        match find_from(rest, seq!['\n'], from) {
            None => {
                assert(s.subrange(at + from, s.len() as int) =~= rest.subrange(
                    from,
                    rest.len() as int,
                ));
            },
            Some(k) => {
                assert(s.subrange(at + from, at + k) =~= rest.subrange(from, k));
                lemma_lines_behind(s, at, rest, k + 1);
            },
        }
    }
}

// ---------------------------------------------------------------------------
// Numerals and lists
// ---------------------------------------------------------------------------

/// The number that a row of digits stands for.
pub open spec fn number_of(digits: Seq<char>) -> int
    decreases digits.len(),
{
    if digits.len() == 0 {
        0
    } else {
        10 * number_of(digits.drop_last()) + (digits.last() as u32 - '0' as u32)
    }
}

/// A numeral stands for its number, in digits and without a zero in front.
pub proof fn law_numerals_stand_for_their_number(n: nat)
    ensures
        number_of(decimal(n)) == n,
        decimal(n).len() > 0,
        n > 0 ==> decimal(n)[0] != '0',
        n == 0 ==> decimal(n).len() == 1,
        forall|i: int| 0 <= i < decimal(n).len() ==> '0' <= #[trigger] decimal(n)[i] <= '9',
    decreases n,
{
    reveal_with_fuel(number_of, 2);
    if n >= 10 {
        law_numerals_stand_for_their_number(n / 10);
        assert(decimal(n).drop_last() =~= decimal(n / 10));
    } else {
        assert(decimal(n).drop_last() =~= Seq::empty());
    }
}

/// Lists are written with the separator between neighbours and nowhere else:
/// two lists one behind the other as the first, the separator and the second.
pub proof fn law_lists_are_written_with_separators(
    a: Seq<Seq<char>>,
    b: Seq<Seq<char>>,
    item: Seq<char>,
    sep: Seq<char>,
)
    requires
        a.len() > 0,
        b.len() > 0,
    ensures
        join_text(Seq::empty(), sep) == Seq::<char>::empty(),
        join_text(seq![item], sep) == item,
        join_text(a + b, sep) == join_text(a, sep) + sep + join_text(b, sep),
    decreases b.len(),
{
    let all = a + b;
    assert(all.last() == b.last());
    if b.len() == 1 {
        assert(all.drop_last() =~= a);
        assert(b.last() == b[0]);
    } else {
        let front = b.drop_last();
        law_lists_are_written_with_separators(a, front, item, sep);
        assert(all.drop_last() =~= a + front);
        assert(join_text(all, sep) =~= join_text(a, sep) + sep + join_text(b, sep));
    }
}

/// The model of a list of strings holds the text of each, in order.
pub proof fn law_models_hold_every_text(list: Seq<String>, one: String)
    ensures
        views(list).len() == list.len(),
        forall|i: int| 0 <= i < list.len() ==> #[trigger] views(list)[i] == list[i]@,
        opt_view(Some(one)) == Some(one@),
        opt_view(None) is None,
{
}

} // verus!
