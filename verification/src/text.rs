//! Text as sequences of characters: searching, trimming, splitting and
//! decimal numbers, each with the mathematical function it computes.

use vstd::prelude::*;

verus! {

// ---------------------------------------------------------------------------
// Models
// ---------------------------------------------------------------------------

/// The contents of a list of strings.
pub open spec fn views(list: Seq<String>) -> Seq<Seq<char>> {
    list.map_values(|s: String| s@)
}

/// The contents of an optional string.
pub open spec fn opt_view(s: Option<String>) -> Option<Seq<char>> {
    match s {
        Some(t) => Some(t@),
        None => None,
    }
}

/// `pat` stands in `s` at position `i`.
pub open spec fn occurs_at(s: Seq<char>, pat: Seq<char>, i: int) -> bool {
    0 <= i && i + pat.len() <= s.len() && s.subrange(i, i + pat.len()) == pat
}

/// `pat` stands somewhere in `s`.
pub open spec fn contains_text(s: Seq<char>, pat: Seq<char>) -> bool {
    exists|i: int| occurs_at(s, pat, i)
}

/// `s` begins with `pat`.
pub open spec fn starts_with(s: Seq<char>, pat: Seq<char>) -> bool {
    occurs_at(s, pat, 0)
}

/// `s` ends with `pat`.
pub open spec fn ends_with(s: Seq<char>, pat: Seq<char>) -> bool {
    occurs_at(s, pat, s.len() - pat.len())
}

/// The first position at or after `from` at which `pat` stands in `s`.
pub open spec fn find_from(s: Seq<char>, pat: Seq<char>, from: int) -> Option<int>
    decreases s.len() - from,
{
    if from < 0 || from + pat.len() > s.len() {
        None
    } else if occurs_at(s, pat, from) {
        Some(from)
    } else if from >= s.len() {
        None
    } else {
        find_from(s, pat, from + 1)
    }
}

/// The characters with the Unicode property `White_Space`.
pub open spec fn is_white_space(c: char) -> bool {
    ||| '\u{9}' <= c <= '\u{d}'
    ||| c == ' '
    ||| c == '\u{85}'
    ||| c == '\u{a0}'
    ||| c == '\u{1680}'
    ||| '\u{2000}' <= c <= '\u{200a}'
    ||| c == '\u{2028}'
    ||| c == '\u{2029}'
    ||| c == '\u{202f}'
    ||| c == '\u{205f}'
    ||| c == '\u{3000}'
}

/// `s` without its leading white space.
pub open spec fn trim_start(s: Seq<char>) -> Seq<char>
    decreases s.len(),
{
    if s.len() > 0 && is_white_space(s[0]) {
        trim_start(s.subrange(1, s.len() as int))
    } else {
        s
    }
}

/// `s` without its trailing white space.
pub open spec fn trim_end(s: Seq<char>) -> Seq<char>
    decreases s.len(),
{
    if s.len() > 0 && is_white_space(s.last()) {
        trim_end(s.subrange(0, s.len() - 1))
    } else {
        s
    }
}

/// `s` without white space at either end.
pub open spec fn trim(s: Seq<char>) -> Seq<char> {
    trim_end(trim_start(s))
}

/// `s` up to, and without, the first `c`; all of `s` where it has none.
pub open spec fn before_char(s: Seq<char>, c: char) -> Seq<char> {
    match find_from(s, seq![c], 0) {
        Some(i) => s.subrange(0, i),
        None => s,
    }
}

/// `s` with every `from` written as `to`.
pub open spec fn replace_char(s: Seq<char>, from: char, to: char) -> Seq<char> {
    s.map_values(|c: char| if c == from { to } else { c })
}

/// A line without the carriage return that belongs to its line ending.
pub open spec fn strip_carriage_return(line: Seq<char>) -> Seq<char> {
    if line.len() > 0 && line.last() == '\r' {
        line.subrange(0, line.len() - 1)
    } else {
        line
    }
}

/// The lines of `s` from position `from` on. Line endings (`\n` or `\r\n`)
/// are left out, and the last one is optional.
pub open spec fn lines_from(s: Seq<char>, from: int) -> Seq<Seq<char>>
    decreases s.len() - from,
{
    if from < 0 || from >= s.len() {
        Seq::empty()
    } else {
        proof {
            lemma_find_from(s, seq!['\n'], from);
        }
        match find_from(s, seq!['\n'], from) {
            None => seq![s.subrange(from, s.len() as int)],
            Some(i) => seq![strip_carriage_return(s.subrange(from, i))] + lines_from(s, i + 1),
        }
    }
}

/// The lines of `s`.
pub open spec fn lines(s: Seq<char>) -> Seq<Seq<char>> {
    lines_from(s, 0)
}

/// The decimal digit for a value below ten.
pub open spec fn digit_char(d: int) -> char {
    if d == 0 {
        '0'
    } else if d == 1 {
        '1'
    } else if d == 2 {
        '2'
    } else if d == 3 {
        '3'
    } else if d == 4 {
        '4'
    } else if d == 5 {
        '5'
    } else if d == 6 {
        '6'
    } else if d == 7 {
        '7'
    } else if d == 8 {
        '8'
    } else {
        '9'
    }
}

/// The decimal numeral of `n`, without leading zeros.
pub open spec fn decimal(n: nat) -> Seq<char>
    decreases n,
{
    if n < 10 {
        seq![digit_char(n as int)]
    } else {
        decimal(n / 10).push(digit_char((n % 10) as int))
    }
}

/// The list items written one after another with `sep` between neighbours.
pub open spec fn join_text(items: Seq<Seq<char>>, sep: Seq<char>) -> Seq<char>
    decreases items.len(),
{
    if items.len() == 0 {
        Seq::empty()
    } else if items.len() == 1 {
        items[0]
    } else {
        join_text(items.drop_last(), sep) + sep + items.last()
    }
}

// ---------------------------------------------------------------------------
// Facts about the models
// ---------------------------------------------------------------------------

/// What [`find_from`] finds: the first occurrence, if there is one.
pub proof fn lemma_find_from(s: Seq<char>, pat: Seq<char>, from: int)
    requires
        0 <= from,
    ensures
        match find_from(s, pat, from) {
            Some(i) => from <= i && occurs_at(s, pat, i) && forall|j: int|
                from <= j < i ==> !occurs_at(s, pat, j),
            None => forall|j: int| from <= j ==> !occurs_at(s, pat, j),
        },
    decreases s.len() - from,
{
    if from + pat.len() <= s.len() && !occurs_at(s, pat, from) && from < s.len() {
        lemma_find_from(s, pat, from + 1);
    }
}

/// Trimming leaves no white space at either end, and keeps a stretch of the
/// text as it was.
pub proof fn lemma_trim(s: Seq<char>)
    ensures
        trim(s).len() > 0 ==> !is_white_space(trim(s)[0]) && !is_white_space(trim(s).last()),
        exists|i: int, j: int| 0 <= i <= j <= s.len() && trim(s) == #[trigger] s.subrange(i, j),
{
    lemma_trim_start(s);
    lemma_trim_end(trim_start(s));
    let t = trim_start(s);
    let a = choose|i: int| 0 <= i <= s.len() && t == #[trigger] s.subrange(i, s.len() as int);
    let b = choose|j: int| 0 <= j <= t.len() && trim_end(t) == #[trigger] t.subrange(0, j);
    assert(trim(s) =~= s.subrange(a, a + b));
}

proof fn lemma_trim_start(s: Seq<char>)
    ensures
        trim_start(s).len() > 0 ==> !is_white_space(trim_start(s)[0]),
        exists|i: int| 0 <= i <= s.len() && trim_start(s) == #[trigger] s.subrange(i, s.len() as int),
    decreases s.len(),
{
    if s.len() > 0 && is_white_space(s[0]) {
        let r = s.subrange(1, s.len() as int);
        lemma_trim_start(r);
        let i = choose|i: int| 0 <= i <= r.len() && trim_start(r) == #[trigger] r.subrange(i, r.len() as int);
        assert(r.subrange(i, r.len() as int) =~= s.subrange(i + 1, s.len() as int));
    } else {
        assert(s =~= s.subrange(0, s.len() as int));
    }
}

proof fn lemma_trim_end(s: Seq<char>)
    ensures
        trim_end(s).len() > 0 ==> !is_white_space(trim_end(s).last()),
        exists|j: int| 0 <= j <= s.len() && trim_end(s) == #[trigger] s.subrange(0, j),
    decreases s.len(),
{
    if s.len() > 0 && is_white_space(s.last()) {
        let r = s.subrange(0, s.len() - 1);
        lemma_trim_end(r);
        let j = choose|j: int| 0 <= j <= r.len() && trim_end(r) == #[trigger] r.subrange(0, j);
        assert(r.subrange(0, j) =~= s.subrange(0, j));
    } else {
        assert(s =~= s.subrange(0, s.len() as int));
    }
}

/// A decimal numeral is one or more of the ten digits.
pub proof fn lemma_decimal_digits(n: nat)
    ensures
        decimal(n).len() > 0,
        forall|i: int| 0 <= i < decimal(n).len() ==> '0' <= #[trigger] decimal(n)[i] <= '9',
    decreases n,
{
    if n >= 10 {
        lemma_decimal_digits(n / 10);
    }
}

// ---------------------------------------------------------------------------
// Executable functions
// ---------------------------------------------------------------------------

/// `String::push` appends one character.
pub assume_specification[ String::push ](s: &mut String, c: char)
    ensures
        final(s)@ == old(s)@.push(c),
;

/// The characters of a text.
pub fn to_chars(s: &str) -> (out: Vec<char>)
    ensures
        out@ == s@,
{
    let mut out: Vec<char> = Vec::new();
    for c in it: s.chars()
        invariant
            it.seq() == s@,
            out@ =~= s@.take(it.index() as int),
    {
        out.push(c);
    }
    out
}

/// The text made of `chars[from..to]`.
pub fn text_of(chars: &Vec<char>, from: usize, to: usize) -> (out: String)
    requires
        from <= to <= chars@.len(),
    ensures
        out@ == chars@.subrange(from as int, to as int),
{
    let mut out: String = String::new();
    let mut i: usize = from;
    while i < to
        invariant
            from <= i <= to <= chars@.len(),
            out@ =~= chars@.subrange(from as int, i as int),
        decreases to - i,
    {
        out.push(chars[i]);
        i = i + 1;
    }
    out
}

/// Whether `pat` stands in `s` at position `at`.
pub fn matches_at(s: &Vec<char>, pat: &Vec<char>, at: usize) -> (found: bool)
    ensures
        found == occurs_at(s@, pat@, at as int),
{
    if at > s.len() || s.len() - at < pat.len() {
        return false;
    }
    let mut k: usize = 0;
    while k < pat.len()
        invariant
            k <= pat@.len(),
            at + pat.len() <= s.len(),
            forall|j: int| 0 <= j < k ==> s@[at + j] == pat@[j],
        decreases pat@.len() - k,
    {
        if s[at + k] != pat[k] {
            assert(s@.subrange(at as int, at + pat@.len())[k as int] != pat@[k as int]);
            return false;
        }
        k = k + 1;
    }
    assert(s@.subrange(at as int, at + pat@.len()) =~= pat@);
    true
}

/// The first position at or after `from` at which `pat` stands in `s`.
pub fn find_text(s: &Vec<char>, pat: &Vec<char>, from: usize) -> (found: Option<usize>)
    ensures
        match found {
            Some(i) => find_from(s@, pat@, from as int) == Some(i as int) && from <= i && i
                + pat@.len() <= s@.len(),
            None => find_from(s@, pat@, from as int) is None,
        },
{
    proof {
        lemma_find_from(s@, pat@, from as int);
    }
    let mut i: usize = from;
    while i < s.len()
        invariant
            from <= i,
            find_from(s@, pat@, from as int) == find_from(s@, pat@, i as int),
            match find_from(s@, pat@, from as int) {
                Some(k) => from <= k && k + pat@.len() <= s@.len(),
                None => true,
            },
        decreases s@.len() - i,
    {
        if matches_at(s, pat, i) {
            return Some(i);
        }
        i = i + 1;
    }
    if matches_at(s, pat, i) {
        return Some(i);
    }
    None
}

/// Whether `pat` stands somewhere in `s`.
pub fn has_text(s: &Vec<char>, pat: &Vec<char>) -> (found: bool)
    ensures
        found == contains_text(s@, pat@),
{
    proof {
        lemma_find_from(s@, pat@, 0);
    }
    match find_text(s, pat, 0) {
        Some(_) => true,
        None => {
            assert forall|i: int| !occurs_at(s@, pat@, i) by {
                if i >= 0 {
                    assert(0 <= i);
                }
            }
            false
        },
    }
}

/// Whether two texts hold the same characters.
pub fn same_text(a: &str, b: &str) -> (same: bool)
    ensures
        same == (a@ == b@),
{
    let x: Vec<char> = to_chars(a);
    let y: Vec<char> = to_chars(b);
    if x.len() != y.len() {
        return false;
    }
    let mut i: usize = 0;
    while i < x.len()
        invariant
            x@ == a@,
            y@ == b@,
            x@.len() == y@.len(),
            i <= x@.len(),
            forall|j: int| 0 <= j < i ==> x@[j] == y@[j],
        decreases x@.len() - i,
    {
        if x[i] != y[i] {
            return false;
        }
        i = i + 1;
    }
    assert(a@ =~= b@);
    true
}

/// Whether `s` begins with `pat`.
pub fn has_prefix(s: &str, pat: &str) -> (found: bool)
    ensures
        found == starts_with(s@, pat@),
{
    matches_at(&to_chars(s), &to_chars(pat), 0)
}

/// Whether `c` is white space.
pub fn white_space(c: char) -> (found: bool)
    ensures
        found == is_white_space(c),
{
    ('\u{9}' <= c && c <= '\u{d}') || c == ' ' || c == '\u{85}' || c == '\u{a0}' || c == '\u{1680}'
        || ('\u{2000}' <= c && c <= '\u{200a}') || c == '\u{2028}' || c == '\u{2029}' || c
        == '\u{202f}' || c == '\u{205f}' || c == '\u{3000}'
}

/// The stretch of `chars[from..to]` that is left once white space is trimmed
/// from both of its ends.
pub fn trim_range(chars: &Vec<char>, from: usize, to: usize) -> (out: String)
    requires
        from <= to <= chars@.len(),
    ensures
        out@ == trim(chars@.subrange(from as int, to as int)),
{
    let mut a: usize = from;
    let mut b: usize = to;
    let ghost all = chars@.subrange(from as int, to as int);
    while a < b && white_space(chars[a])
        invariant
            from <= a <= b,
            b == to,
            to <= chars@.len(),
            trim_start(all) == trim_start(chars@.subrange(a as int, b as int)),
        decreases b - a,
    {
        proof {
            let s = chars@.subrange(a as int, b as int);
            assert(s.subrange(1, s.len() as int) =~= chars@.subrange(a + 1, b as int));
        }
        a = a + 1;
    }
    assert(trim_start(all) == chars@.subrange(a as int, b as int));
    while a < b && white_space(chars[b - 1])
        invariant
            from <= a <= b <= to,
            to <= chars@.len(),
            trim(all) == trim_end(chars@.subrange(a as int, b as int)),
        decreases b - a,
    {
        proof {
            let s = chars@.subrange(a as int, b as int);
            assert(s.subrange(0, s.len() - 1) =~= chars@.subrange(a as int, b - 1));
        }
        b = b - 1;
    }
    text_of(chars, a, b)
}

/// `s` without white space at either end.
pub fn trimmed(s: &str) -> (out: String)
    ensures
        out@ == trim(s@),
{
    let chars: Vec<char> = to_chars(s);
    assert(chars@ =~= chars@.subrange(0, chars@.len() as int));
    trim_range(&chars, 0, chars.len())
}

/// `s` with every `from` written as `to`.
pub fn with_char_replaced(s: &str, from: char, to: char) -> (out: String)
    ensures
        out@ == replace_char(s@, from, to),
{
    let mut out: String = String::new();
    for c in it: s.chars()
        invariant
            it.seq() == s@,
            out@ =~= replace_char(s@.take(it.index() as int), from, to),
    {
        if c == from {
            out.push(to);
        } else {
            out.push(c);
        }
    }
    assert(s@.take(s@.len() as int) =~= s@);
    out
}

/// The lines of `s`.
pub fn split_lines(s: &str) -> (out: Vec<String>)
    ensures
        views(out@) == lines(s@),
{
    let chars: Vec<char> = to_chars(s);
    let newline: Vec<char> = vec!['\n'];
    assert(newline@ =~= seq!['\n']);
    let mut out: Vec<String> = Vec::new();
    let mut from: usize = 0;
    assert(views(out@) + lines_from(s@, 0) =~= lines(s@));
    while from < chars.len()
        invariant
            chars@ == s@,
            newline@ == seq!['\n'],
            from <= chars@.len(),
            views(out@) + lines_from(s@, from as int) == lines(s@),
        decreases chars@.len() - from,
    {
        let ghost before = views(out@);
        match find_text(&chars, &newline, from) {
            None => {
                out.push(text_of(&chars, from, chars.len()));
                proof {
                    assert(views(out@) =~= before.push(s@.subrange(from as int, s@.len() as int)));
                    assert(before + lines_from(s@, from as int) =~= views(out@));
                }
                from = chars.len();
                assert(lines_from(s@, from as int) =~= Seq::empty());
            },
            Some(i) => {
                let ghost line = strip_carriage_return(s@.subrange(from as int, i as int));
                if from < i && chars[i - 1] == '\r' {
                    out.push(text_of(&chars, from, i - 1));
                    assert(s@.subrange(from as int, i as int).subrange(0, i - from - 1)
                        =~= s@.subrange(from as int, i - 1));
                } else {
                    out.push(text_of(&chars, from, i));
                }
                proof {
                    assert(views(out@) =~= before.push(line));
                    assert(before + lines_from(s@, from as int) =~= views(out@) + lines_from(s@, i + 1));
                }
                from = i + 1;
            },
        }
    }
    assert(lines_from(s@, from as int) =~= Seq::empty());
    assert(views(out@) + Seq::<Seq<char>>::empty() =~= views(out@));
    out
}

/// The decimal digit for a value below ten.
pub fn to_digit_char(d: u64) -> (c: char)
    requires
        d < 10,
    ensures
        c == digit_char(d as int),
{
    match d {
        0 => '0',
        1 => '1',
        2 => '2',
        3 => '3',
        4 => '4',
        5 => '5',
        6 => '6',
        7 => '7',
        8 => '8',
        _ => '9',
    }
}

/// The decimal numeral of `n`.
pub fn to_decimal(n: u64) -> (out: String)
    ensures
        out@ == decimal(n as nat),
    decreases n,
{
    let mut out: String = String::new();
    if n < 10 {
        out.push(to_digit_char(n));
        assert(out@ =~= seq![digit_char(n as int)]);
    } else {
        out = to_decimal(n / 10);
        out.push(to_digit_char(n % 10));
    }
    out
}

/// Whether `list` holds `item`.
pub fn list_contains(list: &Vec<String>, item: &str) -> (found: bool)
    ensures
        found == views(list@).contains(item@),
{
    let mut i: usize = 0;
    while i < list.len()
        invariant
            i <= list@.len(),
            forall|j: int| 0 <= j < i ==> views(list@)[j] != item@,
        decreases list@.len() - i,
    {
        if same_text(&list[i], item) {
            assert(views(list@)[i as int] == item@);
            return true;
        }
        i = i + 1;
    }
    assert(!views(list@).contains(item@));
    false
}

/// The list items written one after another with `sep` between neighbours.
pub fn joined(items: &Vec<String>, sep: &str) -> (out: String)
    ensures
        out@ == join_text(views(items@), sep@),
{
    let mut out: String = String::new();
    let mut i: usize = 0;
    let ghost all = views(items@);
    while i < items.len()
        invariant
            i <= items@.len(),
            all == views(items@),
            out@ == join_text(all.take(i as int), sep@),
        decreases items@.len() - i,
    {
        if i > 0 {
            out.append(sep);
        }
        out.append(&items[i]);
        proof {
            let t = all.take(i + 1);
            assert(t.drop_last() =~= all.take(i as int));
            assert(t.last() == items@[i as int]@);
            if i == 0 {
                assert(out@ =~= t[0]);
            }
        }
        i = i + 1;
    }
    assert(all.take(all.len() as int) =~= all);
    out
}

} // verus!
