//! Text as sequences of characters: cutting it into lines, words and pieces,
//! trimming it, and writing and reading plain decimal numbers.

use vstd::prelude::*;
use vstd::slice::slice_subrange;

verus! {

/// `String::push`: appends one character to the end of the string.
pub assume_specification[ String::push ](s: &mut String, c: char)
    ensures
        final(s)@ == old(s)@.push(c),
;

/// The characters of a string, in order.
pub fn chars_of(s: &str) -> (r: Vec<char>)
    ensures
        r@ == s@,
{
    let mut out: Vec<char> = Vec::new();
    let ghost whole = s@;
    for c in it: s.chars()
        invariant
            it.seq() == whole,
            out@ == whole.take(it.index()),
    {
        out.push(c);
        assert(out@ =~= whole.take(it.index() + 1));
    }
    assert(whole.take(whole.len() as int) =~= whole);
    out
}

/// A string of the given characters.
pub fn string_of(c: &[char]) -> (r: String)
    ensures
        r@ == c@,
{
    let mut s = String::new();
    let mut i: usize = 0;
    while i < c.len()
        invariant
            i <= c@.len(),
            s@ == c@.take(i as int),
        decreases c@.len() - i,
    {
        s.push(c[i]);
        i += 1;
        assert(s@ =~= c@.take(i as int));
    }
    assert(c@.take(i as int) =~= c@);
    s
}

/// Whether two runs of characters are the same.
pub fn same(a: &[char], b: &[char]) -> (r: bool)
    ensures
        r == (a@ == b@),
{
    if a.len() != b.len() {
        return false;
    }
    let mut i: usize = 0;
    while i < a.len()
        invariant
            i <= a@.len(),
            a@.len() == b@.len(),
            forall|j: int| 0 <= j < i ==> a@[j] == b@[j],
        decreases a@.len() - i,
    {
        if a[i] != b[i] {
            return false;
        }
        i += 1;
    }
    assert(a@ =~= b@);
    true
}

/// Whether a run of characters spells `word`.
pub fn spells(a: &[char], word: &str) -> (r: bool)
    ensures
        r == (a@ == word@),
{
    let w = chars_of(word);
    same(a, w.as_slice())
}

/// Whether two strings hold the same characters.
pub fn same_text(a: &str, b: &str) -> (r: bool)
    ensures
        r == (a@ == b@),
{
    let w = chars_of(a);
    spells(w.as_slice(), b)
}

/// The contents of each string in a list.
pub open spec fn strings(v: Seq<String>) -> Seq<Seq<char>> {
    Seq::new(v.len(), |i: int| v[i]@)
}

/// The contents of each run of characters in a list.
pub open spec fn runs(v: Seq<Vec<char>>) -> Seq<Seq<char>> {
    Seq::new(v.len(), |i: int| v[i]@)
}

// --- Characters -----------------------------------------------------------

pub open spec fn digit(c: char) -> bool {
    '0' <= c && c <= '9'
}

pub fn is_digit(c: char) -> (r: bool)
    ensures
        r == digit(c),
{
    '0' <= c && c <= '9'
}

pub open spec fn all_digits(s: Seq<char>) -> bool {
    forall|i: int| 0 <= i < s.len() ==> digit(#[trigger] s[i])
}

pub fn is_all_digits(s: &[char]) -> (r: bool)
    ensures
        r == all_digits(s@),
{
    let mut i: usize = 0;
    while i < s.len()
        invariant
            i <= s@.len(),
            forall|j: int| 0 <= j < i ==> digit(#[trigger] s@[j]),
        decreases s@.len() - i,
    {
        if !is_digit(s[i]) {
            return false;
        }
        i += 1;
    }
    true
}

/// Unicode's White_Space characters.
pub open spec fn space(c: char) -> bool {
    let u = c as u32;
    ||| 0x09 <= u <= 0x0d
    ||| u == 0x20
    ||| u == 0x85
    ||| u == 0xa0
    ||| u == 0x1680
    ||| 0x2000 <= u <= 0x200a
    ||| u == 0x2028
    ||| u == 0x2029
    ||| u == 0x202f
    ||| u == 0x205f
    ||| u == 0x3000
}

pub fn is_space(c: char) -> (r: bool)
    ensures
        r == space(c),
{
    let u: u32 = c as u32;
    (0x09 <= u && u <= 0x0d) || u == 0x20 || u == 0x85 || u == 0xa0 || u == 0x1680 || (0x2000 <= u
        && u <= 0x200a) || u == 0x2028 || u == 0x2029 || u == 0x202f || u == 0x205f || u == 0x3000
}

/// Unicode's control characters.
pub open spec fn control(c: char) -> bool {
    let u = c as u32;
    u < 0x20 || 0x7f <= u < 0xa0
}

pub fn is_control(c: char) -> (r: bool)
    ensures
        r == control(c),
{
    let u: u32 = c as u32;
    u < 0x20 || (0x7f <= u && u < 0xa0)
}

/// `c` in upper case if it is an ASCII letter, else `c`.
pub open spec fn upper(c: char) -> char {
    if 'a' <= c && c <= 'z' {
        (c as u32 - 32) as char
    } else {
        c
    }
}

pub open spec fn upper_all(s: Seq<char>) -> Seq<char> {
    Seq::new(s.len(), |i: int| upper(s[i]))
}

pub fn uppercase(s: &[char]) -> (r: Vec<char>)
    ensures
        r@ == upper_all(s@),
{
    let mut out: Vec<char> = Vec::new();
    let mut i: usize = 0;
    while i < s.len()
        invariant
            i <= s@.len(),
            out@.len() == i,
            forall|j: int| 0 <= j < i ==> out@[j] == upper(s@[j]),
        decreases s@.len() - i,
    {
        let c = s[i];
        if 'a' <= c && c <= 'z' {
            out.push((c as u8 - 32) as char);
        } else {
            out.push(c);
        }
        i += 1;
    }
    assert(out@ =~= upper_all(s@));
    out
}

// --- Cutting ---------------------------------------------------------------

/// Where `c` first stands in `s` at or after `from`, or the end of `s`.
pub open spec fn find(s: Seq<char>, c: char, from: int) -> int
    decreases s.len() - from,
{
    if from >= s.len() {
        s.len() as int
    } else if s[from] == c {
        from
    } else {
        find(s, c, from + 1)
    }
}

pub proof fn lemma_find(s: Seq<char>, c: char, from: int)
    requires
        0 <= from <= s.len(),
    ensures
        from <= find(s, c, from) <= s.len(),
        find(s, c, from) < s.len() ==> s[find(s, c, from)] == c,
        forall|j: int| from <= j < find(s, c, from) ==> s[j] != c,
    decreases s.len() - from,
{
    if from < s.len() && s[from] != c {
        lemma_find(s, c, from + 1);
    }
}

pub fn find_char(s: &[char], c: char, from: usize) -> (r: usize)
    requires
        from <= s@.len(),
    ensures
        r as int == find(s@, c, from as int),
        from <= r <= s@.len(),
{
    let mut i: usize = from;
    while i < s.len()
        invariant
            from <= i <= s@.len(),
            find(s@, c, from as int) == find(s@, c, i as int),
        decreases s@.len() - i,
    {
        if s[i] == c {
            return i;
        }
        i += 1;
    }
    i
}

/// The pieces of `s` between the characters `c`, one more than there are of
/// them.
pub open spec fn split(s: Seq<char>, c: char) -> Seq<Seq<char>>
    decreases s.len(),
{
    let i = find(s, c, 0);
    if 0 <= i < s.len() {
        seq![s.take(i)] + split(s.skip(i + 1), c)
    } else {
        seq![s]
    }
}

pub fn split_at(s: &[char], c: char) -> (r: Vec<Vec<char>>)
    ensures
        runs(r@) == split(s@, c),
        r@.len() >= 1,
{
    let mut out: Vec<Vec<char>> = Vec::new();
    let mut start: usize = 0;
    assert(s@.skip(0) =~= s@);
    assert(runs(out@) + split(s@, c) =~= split(s@, c));
    loop
        invariant_except_break
            start <= s@.len(),
            split(s@, c) == runs(out@) + split(s@.skip(start as int), c),
        ensures
            split(s@, c) == runs(out@),
            out@.len() >= 1,
        decreases s@.len() - start,
    {
        let rest = slice_subrange(s, start, s.len());
        assert(rest@ =~= s@.skip(start as int));
        let i: usize = find_char(rest, c, 0);
        let piece = slice_subrange(rest, 0, i);
        let ghost before = out@;
        out.push(copy_of(piece));
        assert(runs(out@) =~= runs(before).push(piece@));
        if i == rest.len() {
            proof {
                lemma_find(rest@, c, 0);
                assert(piece@ =~= rest@);
                assert(runs(before) + seq![rest@] =~= runs(out@));
            }
            break ;
        }
        proof {
            assert(piece@ =~= rest@.take(i as int));
            assert(rest@.skip(i as int + 1) =~= s@.skip(start + i + 1));
            assert(runs(before) + (seq![piece@] + split(s@.skip(start + i + 1), c)) =~= runs(out@)
                + split(s@.skip(start + i + 1), c));
        }
        start = start + i + 1;
    }
    out
}

/// Whether `pat` stands in `s` at `i`.
pub open spec fn stands(s: Seq<char>, pat: Seq<char>, i: int) -> bool {
    0 <= i && i + pat.len() <= s.len() && s.subrange(i, i + pat.len()) == pat
}

/// Where `pat` first stands in `s` at or after `from`, or the end of `s`.
pub open spec fn find_text(s: Seq<char>, pat: Seq<char>, from: int) -> int
    decreases s.len() - from,
{
    if from >= s.len() {
        s.len() as int
    } else if stands(s, pat, from) {
        from
    } else {
        find_text(s, pat, from + 1)
    }
}

/// Whether `pat` stands in `s` anywhere. `pat` isn't empty.
pub open spec fn has_text(s: Seq<char>, pat: Seq<char>) -> bool {
    find_text(s, pat, 0) < s.len()
}

pub proof fn lemma_find_text(s: Seq<char>, pat: Seq<char>, from: int)
    requires
        0 <= from <= s.len(),
    ensures
        from <= find_text(s, pat, from) <= s.len(),
        find_text(s, pat, from) < s.len() ==> stands(s, pat, find_text(s, pat, from)),
        forall|j: int| from <= j < find_text(s, pat, from) ==> !stands(s, pat, j),
    decreases s.len() - from,
{
    if from < s.len() && !stands(s, pat, from) {
        lemma_find_text(s, pat, from + 1);
    }
}

/// A text is in another exactly if it stands somewhere in it.
pub proof fn law_a_text_is_found_wherever_it_stands(s: Seq<char>, pat: Seq<char>)
    requires
        pat.len() > 0,
    ensures
        has_text(s, pat) <==> exists|i: int| #[trigger] stands(s, pat, i),
{
    lemma_find_text(s, pat, 0);
    if has_text(s, pat) {
        assert(stands(s, pat, find_text(s, pat, 0)));
    }
    if exists|i: int| #[trigger] stands(s, pat, i) {
        let i = choose|i: int| #[trigger] stands(s, pat, i);
        assert(i < s.len());
        if find_text(s, pat, 0) == s.len() {
            assert(!stands(s, pat, i));
        }
    }
}

/// Whether `pat` stands in `s` at `i`.
pub fn is_at(s: &[char], pat: &[char], i: usize) -> (r: bool)
    ensures
        r == stands(s@, pat@, i as int),
{
    let n: usize = s.len();
    let m: usize = pat.len();
    if i > n || n - i < m {
        return false;
    }
    let part = slice_subrange(s, i, i + m);
    same(part, pat)
}

/// Where `pat` first stands in `s` at or after `from`, or the end of `s`.
pub fn find_run(s: &[char], pat: &[char], from: usize) -> (r: usize)
    requires
        from <= s@.len(),
    ensures
        r as int == find_text(s@, pat@, from as int),
        from <= r <= s@.len(),
{
    let mut i: usize = from;
    while i < s.len()
        invariant
            from <= i <= s@.len(),
            find_text(s@, pat@, from as int) == find_text(s@, pat@, i as int),
        decreases s@.len() - i,
    {
        if is_at(s, pat, i) {
            return i;
        }
        i += 1;
    }
    i
}

/// The pieces of `s` between the places `pat` stands in it, from the left.
/// `pat` isn't empty.
pub open spec fn split_text(s: Seq<char>, pat: Seq<char>) -> Seq<Seq<char>>
    decreases s.len(),
{
    let i = find_text(s, pat, 0);
    if pat.len() > 0 && 0 <= i && i + pat.len() <= s.len() {
        seq![s.take(i)] + split_text(s.skip(i + pat.len()), pat)
    } else {
        seq![s]
    }
}

pub fn split_by(s: &[char], pat: &[char]) -> (r: Vec<Vec<char>>)
    requires
        pat@.len() > 0,
    ensures
        runs(r@) == split_text(s@, pat@),
        r@.len() >= 1,
{
    let mut out: Vec<Vec<char>> = Vec::new();
    let mut start: usize = 0;
    assert(s@.skip(0) =~= s@);
    assert(runs(out@) + split_text(s@, pat@) =~= split_text(s@, pat@));
    loop
        invariant_except_break
            start <= s@.len(),
            pat@.len() > 0,
            split_text(s@, pat@) == runs(out@) + split_text(s@.skip(start as int), pat@),
        ensures
            split_text(s@, pat@) == runs(out@),
            out@.len() >= 1,
        decreases s@.len() - start,
    {
        let rest = slice_subrange(s, start, s.len());
        assert(rest@ =~= s@.skip(start as int));
        let i: usize = find_run(rest, pat, 0);
        let piece = slice_subrange(rest, 0, i);
        let ghost before = out@;
        proof {
            lemma_find_text(rest@, pat@, 0);
        }
        out.push(copy_of(piece));
        assert(runs(out@) =~= runs(before).push(piece@));
        if i == rest.len() {
            proof {
                assert(piece@ =~= rest@);
                assert(runs(before) + seq![rest@] =~= runs(out@));
            }
            break ;
        }
        proof {
            let next = start + i + pat@.len();
            assert(piece@ =~= rest@.take(i as int));
            assert(rest@.skip(i + pat@.len()) =~= s@.skip(next));
            assert(runs(before) + (seq![piece@] + split_text(s@.skip(next), pat@)) =~= runs(out@)
                + split_text(s@.skip(next), pat@));
        }
        start = start + i + pat.len();
    }
    out
}

/// Whether `a` comes before `b`: at the first character where they differ,
/// or by ending first.
pub open spec fn before(a: Seq<char>, b: Seq<char>) -> bool
    decreases a.len(),
{
    if b.len() == 0 {
        false
    } else if a.len() == 0 {
        true
    } else if a[0] != b[0] {
        (a[0] as int) < (b[0] as int)
    } else {
        before(a.skip(1), b.skip(1))
    }
}

/// A character's number.
fn code(c: char) -> (r: u32)
    ensures
        r as int == c as int,
{
    c as u32
}

/// Whether `a` comes before `b`.
pub fn is_before(a: &[char], b: &[char]) -> (r: bool)
    ensures
        r == before(a@, b@),
{
    let mut i: usize = 0;
    assert(a@.skip(0) =~= a@ && b@.skip(0) =~= b@);
    while i < a.len() && i < b.len()
        invariant
            i <= a@.len(),
            i <= b@.len(),
            before(a@, b@) == before(a@.skip(i as int), b@.skip(i as int)),
        decreases a@.len() - i,
    {
        let x: char = a[i];
        let y: char = b[i];
        if x != y {
            return code(x) < code(y);
        }
        assert(a@.skip(i as int).skip(1) =~= a@.skip(i + 1));
        assert(b@.skip(i as int).skip(1) =~= b@.skip(i + 1));
        i += 1;
    }
    i < b.len()
}

/// Coming before puts any two different texts one way round.
pub proof fn lemma_before_total(a: Seq<char>, b: Seq<char>)
    ensures
        !(before(a, b) && before(b, a)),
        before(a, b) || before(b, a) || a == b,
    decreases a.len(),
{
    if a.len() > 0 && b.len() > 0 && a[0] == b[0] {
        lemma_before_total(a.skip(1), b.skip(1));
        if a.skip(1) == b.skip(1) {
            assert(a =~= seq![a[0]] + a.skip(1));
            assert(b =~= seq![b[0]] + b.skip(1));
        }
    } else if a.len() == 0 && b.len() == 0 {
        assert(a =~= b);
    }
}

/// What comes before a text comes before what comes after it.
pub proof fn lemma_before_chain(a: Seq<char>, b: Seq<char>, c: Seq<char>)
    requires
        before(a, b),
        before(b, c),
    ensures
        before(a, c),
    decreases a.len(),
{
    if a.len() > 0 && a[0] == b[0] && b[0] == c[0] {
        lemma_before_chain(a.skip(1), b.skip(1), c.skip(1));
    }
}

/// Three parts of a message, joined.
pub fn joined(a: &str, b: &str, c: &str) -> (r: String)
    ensures
        r@ == a@ + b@ + c@,
{
    let mut s = a.to_owned();
    s.append(b);
    s.append(c);
    s
}

/// A copy of a run of characters.
pub fn copy_of(s: &[char]) -> (r: Vec<char>)
    ensures
        r@ == s@,
{
    let mut out: Vec<char> = Vec::new();
    let mut i: usize = 0;
    while i < s.len()
        invariant
            i <= s@.len(),
            out@ == s@.take(i as int),
        decreases s@.len() - i,
    {
        out.push(s[i]);
        i += 1;
        assert(out@ =~= s@.take(i as int));
    }
    assert(s@.take(i as int) =~= s@);
    out
}

/// `s` without one carriage return at its end.
pub open spec fn without_return(s: Seq<char>) -> Seq<char> {
    if s.len() > 0 && s.last() == '\r' {
        s.drop_last()
    } else {
        s
    }
}

/// The lines of `s`: cut at each line feed, with a carriage return before
/// one dropped too. No line follows a line feed that ends the text.
pub open spec fn lines(s: Seq<char>) -> Seq<Seq<char>>
    decreases s.len(),
{
    if s.len() == 0 {
        seq![]
    } else {
        let i = find(s, '\n', 0);
        if 0 <= i < s.len() {
            seq![without_return(s.take(i))] + lines(s.skip(i + 1))
        } else {
            seq![s]
        }
    }
}

pub fn lines_of(s: &[char]) -> (r: Vec<Vec<char>>)
    ensures
        runs(r@) == lines(s@),
{
    let mut out: Vec<Vec<char>> = Vec::new();
    let mut start: usize = 0;
    assert(s@.skip(0) =~= s@);
    assert(runs(out@) + lines(s@) =~= lines(s@));
    while start < s.len()
        invariant
            start <= s@.len(),
            lines(s@) == runs(out@) + lines(s@.skip(start as int)),
        decreases s@.len() - start,
    {
        let rest = slice_subrange(s, start, s.len());
        assert(rest@ =~= s@.skip(start as int));
        let i: usize = find_char(rest, '\n', 0);
        proof {
            lemma_find(rest@, '\n', 0);
        }
        let ghost before = out@;
        if i == rest.len() {
            out.push(copy_of(rest));
            assert(runs(before) + seq![rest@] =~= runs(out@));
            start = s.len();
            assert(s@.skip(start as int) =~= seq![]);
            assert(runs(out@) + lines(s@.skip(start as int)) =~= runs(out@));
        } else {
            let end: usize = if i > 0 && rest[i - 1] == '\r' {
                i - 1
            } else {
                i
            };
            let line = slice_subrange(rest, 0, end);
            assert(line@ =~= without_return(rest@.take(i as int)));
            out.push(copy_of(line));
            proof {
                assert(rest@.skip(i as int + 1) =~= s@.skip(start + i + 1));
                assert(runs(before) + (seq![line@] + lines(s@.skip(start + i + 1))) =~= runs(out@)
                    + lines(s@.skip(start + i + 1)));
            }
            start = start + i + 1;
        }
    }
    assert(s@.skip(start as int) =~= seq![]);
    assert(runs(out@) + lines(s@.skip(start as int)) =~= runs(out@));
    out
}

/// `s` from its first character that is no white space.
pub open spec fn trim_start(s: Seq<char>) -> Seq<char>
    decreases s.len(),
{
    if s.len() > 0 && space(s[0]) {
        trim_start(s.skip(1))
    } else {
        s
    }
}

/// `s` up to its last character that is no white space.
pub open spec fn trim_end(s: Seq<char>) -> Seq<char>
    decreases s.len(),
{
    if s.len() > 0 && space(s.last()) {
        trim_end(s.drop_last())
    } else {
        s
    }
}

/// `s` without the white space around it.
pub open spec fn trim(s: Seq<char>) -> Seq<char> {
    trim_end(trim_start(s))
}

/// How far the white space at the start of `s` reaches.
fn space_end(s: &[char]) -> (r: usize)
    ensures
        r <= s@.len(),
        s@.skip(r as int) == trim_start(s@),
        r < s@.len() ==> !space(s@[r as int]),
        forall|j: int| 0 <= j < r ==> space(s@[j]),
{
    let mut i: usize = 0;
    assert(s@.skip(0) =~= s@);
    while i < s.len() && is_space(s[i])
        invariant
            i <= s@.len(),
            trim_start(s@) == trim_start(s@.skip(i as int)),
            forall|j: int| 0 <= j < i ==> space(s@[j]),
        decreases s@.len() - i,
    {
        assert(s@.skip(i as int).skip(1) =~= s@.skip(i + 1));
        i += 1;
    }
    i
}

pub fn trimmed(s: &[char]) -> (r: Vec<char>)
    ensures
        r@ == trim(s@),
{
    let start: usize = space_end(s);
    let t = slice_subrange(s, start, s.len());
    assert(t@ =~= s@.skip(start as int));
    let mut end: usize = t.len();
    assert(t@.take(end as int) =~= t@);
    while end > 0 && is_space(t[end - 1])
        invariant
            end <= t@.len(),
            trim_end(t@) == trim_end(t@.take(end as int)),
        decreases end,
    {
        assert(t@.take(end as int).drop_last() =~= t@.take(end - 1));
        end -= 1;
    }
    let u = slice_subrange(t, 0, end);
    assert(u@ =~= t@.take(end as int));
    copy_of(u)
}

/// `s` from its first character that is no quote.
pub open spec fn unquote_start(s: Seq<char>) -> Seq<char>
    decreases s.len(),
{
    if s.len() > 0 && s[0] == '"' {
        unquote_start(s.skip(1))
    } else {
        s
    }
}

/// `s` up to its last character that is no quote.
pub open spec fn unquote_end(s: Seq<char>) -> Seq<char>
    decreases s.len(),
{
    if s.len() > 0 && s.last() == '"' {
        unquote_end(s.drop_last())
    } else {
        s
    }
}

/// `s` without the quotes around it.
pub open spec fn unquote(s: Seq<char>) -> Seq<char> {
    unquote_end(unquote_start(s))
}

pub fn unquoted(s: &[char]) -> (r: Vec<char>)
    ensures
        r@ == unquote(s@),
{
    let mut start: usize = 0;
    assert(s@.skip(0) =~= s@);
    while start < s.len() && s[start] == '"'
        invariant
            start <= s@.len(),
            unquote_start(s@) == unquote_start(s@.skip(start as int)),
        decreases s@.len() - start,
    {
        assert(s@.skip(start as int).skip(1) =~= s@.skip(start + 1));
        start += 1;
    }
    let t = slice_subrange(s, start, s.len());
    assert(t@ =~= s@.skip(start as int));
    let mut end: usize = t.len();
    assert(t@.take(end as int) =~= t@);
    while end > 0 && t[end - 1] == '"'
        invariant
            end <= t@.len(),
            unquote_end(t@) == unquote_end(t@.take(end as int)),
        decreases end,
    {
        assert(t@.take(end as int).drop_last() =~= t@.take(end - 1));
        end -= 1;
    }
    let u = slice_subrange(t, 0, end);
    assert(u@ =~= t@.take(end as int));
    copy_of(u)
}

/// Where the first white space in `s` stands, or the end of `s`.
pub open spec fn word_end(s: Seq<char>) -> int
    decreases s.len(),
{
    if s.len() == 0 || space(s[0]) {
        0
    } else {
        1 + word_end(s.skip(1))
    }
}

pub proof fn lemma_word_end(s: Seq<char>)
    ensures
        0 <= word_end(s) <= s.len(),
        forall|j: int| 0 <= j < word_end(s) ==> !space(#[trigger] s[j]),
        word_end(s) < s.len() ==> space(s[word_end(s)]),
    decreases s.len(),
{
    if s.len() > 0 && !space(s[0]) {
        lemma_word_end(s.skip(1));
        assert forall|j: int| 0 <= j < word_end(s) implies !space(#[trigger] s[j]) by {
            if j > 0 {
                assert(s.skip(1)[j - 1] == s[j]);
            }
        }
    }
}

pub proof fn lemma_trim_start_shrinks(s: Seq<char>)
    ensures
        trim_start(s).len() <= s.len(),
        trim_start(s).len() > 0 ==> !space(trim_start(s)[0]),
    decreases s.len(),
{
    if s.len() > 0 && space(s[0]) {
        lemma_trim_start_shrinks(s.skip(1));
    }
}

/// The words of `s`: its longest runs of characters that are no white space.
pub open spec fn words(s: Seq<char>) -> Seq<Seq<char>>
    decreases s.len(),
    via words_decreases
{
    let t = trim_start(s);
    if t.len() == 0 {
        seq![]
    } else {
        seq![t.take(word_end(t))] + words(t.skip(word_end(t)))
    }
}

#[via_fn]
proof fn words_decreases(s: Seq<char>) {
    lemma_trim_start_shrinks(s);
    lemma_word_end(trim_start(s));
}

pub fn words_of(s: &[char]) -> (r: Vec<Vec<char>>)
    ensures
        runs(r@) == words(s@),
{
    let mut out: Vec<Vec<char>> = Vec::new();
    let mut start: usize = 0;
    assert(s@.skip(0) =~= s@);
    assert(runs(out@) + words(s@) =~= words(s@));
    loop
        invariant
            start <= s@.len(),
            words(s@) == runs(out@) + words(s@.skip(start as int)),
        ensures
            words(s@) == runs(out@),
        decreases s@.len() - start,
    {
        let rest = slice_subrange(s, start, s.len());
        assert(rest@ =~= s@.skip(start as int));
        let a: usize = space_end(rest);
        let t = slice_subrange(rest, a, rest.len());
        assert(t@ =~= rest@.skip(a as int));
        if t.len() == 0 {
            assert(runs(out@) + Seq::<Seq<char>>::empty() =~= runs(out@));
            break ;
        }
        let mut i: usize = 0;
        assert(t@.skip(0) =~= t@);
        while i < t.len() && !is_space(t[i])
            invariant
                i <= t@.len(),
                word_end(t@) == i + word_end(t@.skip(i as int)),
            decreases t@.len() - i,
        {
            assert(t@.skip(i as int).skip(1) =~= t@.skip(i + 1));
            i += 1;
        }
        let word = slice_subrange(t, 0, i);
        let ghost before = out@;
        proof {
            lemma_word_end(t@);
            assert(word@ =~= t@.take(word_end(t@)));
            assert(!space(t@[0]));
        }
        out.push(copy_of(word));
        proof {
            assert(t@.skip(i as int) =~= s@.skip(start + a + i));
            assert(runs(before) + (seq![word@] + words(s@.skip(start + a + i))) =~= runs(out@)
                + words(s@.skip(start + a + i)));
        }
        start = start + a + i;
    }
    out
}

// --- Decimal numbers --------------------------------------------------------

pub open spec fn digit_char(d: int) -> char {
    (48 + d) as char
}

/// The decimal digits of `n`, without leading zeros.
pub open spec fn dec(n: nat) -> Seq<char>
    decreases n,
{
    if n < 10 {
        seq![digit_char(n as int)]
    } else {
        dec(n / 10).push(digit_char((n % 10) as int))
    }
}

/// `n` zeros.
pub open spec fn zeros(n: nat) -> Seq<char> {
    Seq::new(n, |i: int| '0')
}

/// `s` with zeros before it, to at least `width` characters.
pub open spec fn zero_filled(s: Seq<char>, width: nat) -> Seq<char> {
    if s.len() < width {
        zeros((width - s.len()) as nat) + s
    } else {
        s
    }
}

/// `n` in decimal, with leading zeros to at least `width` digits.
pub open spec fn padded(n: nat, width: nat) -> Seq<char> {
    zero_filled(dec(n), width)
}

/// The decimal value of a run of digits.
pub open spec fn value(s: Seq<char>) -> int
    decreases s.len(),
{
    if s.len() == 0 {
        0
    } else {
        value(s.drop_last()) * 10 + (s.last() as u32 - 48)
    }
}

pub proof fn lemma_value_zeros(n: nat, s: Seq<char>)
    ensures
        value(zeros(n) + s) == value(s),
    decreases s.len(),
{
    if s.len() > 0 {
        assert((zeros(n) + s).drop_last() =~= zeros(n) + s.drop_last());
        lemma_value_zeros(n, s.drop_last());
    } else {
        assert(zeros(n) + s =~= zeros(n));
        lemma_value_of_zeros(n);
    }
}

proof fn lemma_value_of_zeros(n: nat)
    ensures
        value(zeros(n)) == 0,
    decreases n,
{
    if n > 0 {
        lemma_value_of_zeros((n - 1) as nat);
        assert(zeros(n).drop_last() =~= zeros((n - 1) as nat));
    }
}

/// The digits of a number read back as the number.
pub proof fn lemma_dec(n: nat)
    ensures
        all_digits(dec(n)),
        value(dec(n)) == n,
        dec(n).len() >= 1,
        n < 10 ==> dec(n).len() == 1,
        n < 100 ==> dec(n).len() <= 2,
        n < 1000 ==> dec(n).len() <= 3,
        n < 10_000 ==> dec(n).len() <= 4,
        n >= 10_000 ==> dec(n).len() > 4,
    decreases n,
{
    reveal_with_fuel(value, 2);
    if n < 10 {
        assert(dec(n).drop_last() =~= Seq::<char>::empty());
    } else {
        lemma_dec(n / 10);
        assert(dec(n).drop_last() =~= dec(n / 10));
        reveal_with_fuel(dec, 5);
    }
}

/// A number with leading zeros is made of digits, and reads back as it.
pub proof fn lemma_padded(n: nat, width: nat)
    ensures
        all_digits(padded(n, width)),
        value(padded(n, width)) == n,
        padded(n, width).len() >= width,
        width == 2 && n < 100 ==> padded(n, width).len() == 2,
        width == 4 && n < 10_000 ==> padded(n, width).len() == 4,
{
    lemma_dec(n);
    if dec(n).len() < width {
        lemma_value_zeros((width - dec(n).len()) as nat, dec(n));
    }
}

/// A run of digits is its value, padded to its length.
pub proof fn lemma_padded_value(s: Seq<char>)
    requires
        all_digits(s),
        s.len() >= 1,
    ensures
        value(s) >= 0,
        padded(value(s) as nat, s.len()) == s,
        dec(value(s) as nat).len() <= s.len(),
    decreases s.len(),
{
    lemma_value_nonnegative(s);
    reveal_with_fuel(value, 2);
    if s.len() == 1 {
        assert(s.drop_last() =~= Seq::<char>::empty());
        assert(padded(value(s) as nat, 1) =~= s);
    } else {
        let t = s.drop_last();
        lemma_value_nonnegative(t);
        lemma_padded_value(t);
        let v = value(s);
        assert(v / 10 == value(t) && v % 10 == s.last() as u32 - 48);
        if v < 10 {
            lemma_dec(value(t) as nat);
            assert(dec(value(t) as nat) =~= seq!['0']);
            assert(t =~= zeros(t.len()));
            assert(dec(v as nat) =~= seq![s.last()]);
            assert(zeros((s.len() - 1) as nat) + seq![s.last()] =~= s);
        } else {
            let w = dec(value(t) as nat);
            assert(dec(v as nat) =~= w.push(s.last()));
            if w.len() < t.len() {
                let z = zeros((t.len() - w.len()) as nat);
                assert(z + w == t);
                assert(z + w.push(s.last()) =~= (z + w).push(s.last()));
                assert(t.push(s.last()) =~= s);
            } else {
                assert(w.push(s.last()) =~= s);
            }
        }
    }
}

/// The value of a run of digits is never negative, and bounded by its
/// length.
pub proof fn lemma_value_bound(s: Seq<char>)
    requires
        all_digits(s),
    ensures
        0 <= value(s),
        s.len() <= 2 ==> value(s) < 100,
        s.len() <= 4 ==> value(s) < 10_000,
        s.len() <= 9 ==> value(s) < 1_000_000_000,
{
    lemma_value_nonnegative(s);
    lemma_value_below(s);
    reveal_with_fuel(ten_to, 10);
    if s.len() <= 9 {
        lemma_ten_to_grows(s.len(), 9);
    }
    if s.len() <= 4 {
        lemma_ten_to_grows(s.len(), 4);
    }
    if s.len() <= 2 {
        lemma_ten_to_grows(s.len(), 2);
    }
}

/// Digits after others put those up by as many places.
pub proof fn lemma_value_joined(a: Seq<char>, b: Seq<char>)
    ensures
        value(a + b) == value(a) * ten_to(b.len()) + value(b),
    decreases b.len(),
{
    if b.len() == 0 {
        assert(a + b =~= a);
    } else {
        lemma_value_joined(a, b.drop_last());
        assert((a + b).drop_last() =~= a + b.drop_last());
        let (v, t) = (value(a), ten_to((b.len() - 1) as nat));
        assert((v * t) * 10 == v * (10 * t)) by (nonlinear_arith);
    }
}

/// Numbers of as many digits come before each other as texts when they are
/// less, and are the same text when they are equal.
pub proof fn lemma_digits_in_order(a: Seq<char>, b: Seq<char>)
    requires
        all_digits(a),
        all_digits(b),
        a.len() == b.len(),
    ensures
        before(a, b) <==> value(a) < value(b),
        a == b <==> value(a) == value(b),
    decreases a.len(),
{
    if a.len() > 0 {
        let (x, y) = (a.skip(1), b.skip(1));
        lemma_digits_in_order(x, y);
        lemma_value_joined(seq![a[0]], x);
        lemma_value_joined(seq![b[0]], y);
        assert(a =~= seq![a[0]] + x);
        assert(b =~= seq![b[0]] + y);
        assert(seq![a[0]].drop_last() =~= Seq::<char>::empty());
        assert(seq![b[0]].drop_last() =~= Seq::<char>::empty());
        reveal_with_fuel(value, 2);
        let (p, q) = (a[0] as u32 - 48, b[0] as u32 - 48);
        assert(value(seq![a[0]]) == p && value(seq![b[0]]) == q);
        let t = ten_to(x.len());
        lemma_value_nonnegative(x);
        lemma_value_nonnegative(y);
        lemma_value_below(x);
        lemma_value_below(y);
        let (v, w) = (value(x), value(y));
        if p < q {
            assert(p * t + v < q * t + w) by (nonlinear_arith)
                requires
                    p + 1 <= q,
                    v < t,
                    0 <= w,
                    0 <= t,
            ;
        } else if q < p {
            assert(q * t + w < p * t + v) by (nonlinear_arith)
                requires
                    q + 1 <= p,
                    w < t,
                    0 <= v,
                    0 <= t,
            ;
        } else {
            assert(a[0] == b[0]);
        }
    } else {
        assert(a =~= b);
    }
}

pub proof fn lemma_ten_to_grows(a: nat, b: nat)
    requires
        a <= b,
    ensures
        1 <= ten_to(a) <= ten_to(b),
    decreases b,
{
    if a < b {
        lemma_ten_to_grows(a, (b - 1) as nat);
    } else if a > 0 {
        lemma_ten_to_grows((a - 1) as nat, (b - 1) as nat);
    }
}

proof fn lemma_value_nonnegative(s: Seq<char>)
    requires
        all_digits(s),
    ensures
        0 <= value(s),
    decreases s.len(),
{
    if s.len() > 0 {
        lemma_value_nonnegative(s.drop_last());
    }
}

/// `10^n`.
pub open spec fn ten_to(n: nat) -> int
    decreases n,
{
    if n == 0 {
        1
    } else {
        10 * ten_to((n - 1) as nat)
    }
}

proof fn lemma_value_below(s: Seq<char>)
    requires
        all_digits(s),
    ensures
        value(s) < ten_to(s.len()),
    decreases s.len(),
{
    if s.len() > 0 {
        lemma_value_below(s.drop_last());
    }
}

/// The value of a short run of digits.
pub fn read_digits(s: &[char]) -> (r: u32)
    requires
        all_digits(s@),
        s@.len() <= 9,
    ensures
        r as int == value(s@),
{
    let mut v: u32 = 0;
    let mut i: usize = 0;
    assert(s@.take(0) =~= Seq::<char>::empty());
    while i < s.len()
        invariant
            i <= s@.len() <= 9,
            all_digits(s@),
            v as int == value(s@.take(i as int)),
        decreases s@.len() - i,
    {
        proof {
            lemma_value_bound(s@.take(i as int));
            lemma_value_bound(s@.take(i + 1));
            assert(s@.take(i + 1).drop_last() =~= s@.take(i as int));
            assert(digit(s@[i as int]));
        }
        let d: u32 = s[i] as u32 - 48;
        v = v * 10 + d;
        i += 1;
    }
    assert(s@.take(i as int) =~= s@);
    v
}

/// `n` in decimal.
pub fn decimal_chars(n: u64) -> (r: Vec<char>)
    ensures
        r@ == dec(n as nat),
        1 <= r@.len(),
    decreases n,
{
    let d: u8 = (n % 10) as u8;
    let c = (48 + d) as char;
    if n < 10 {
        let mut v: Vec<char> = Vec::new();
        v.push(c);
        assert(v@ =~= dec(n as nat));
        v
    } else {
        let mut v = decimal_chars(n / 10);
        v.push(c);
        v
    }
}

/// `n` in decimal.
pub fn decimal(n: u64) -> (r: String)
    ensures
        r@ == dec(n as nat),
{
    let v = decimal_chars(n);
    string_of(v.as_slice())
}

/// `n` in decimal, with leading zeros to at least `width` digits.
pub fn decimal_padded(n: u64, width: usize) -> (r: String)
    ensures
        r@ == padded(n as nat, width as nat),
{
    let v = decimal_chars(n);
    let mut s = String::new();
    if v.len() < width {
        let fill: usize = width - v.len();
        let mut i: usize = 0;
        while i < fill
            invariant
                i <= fill,
                s@ == zeros(i as nat),
            decreases fill - i,
        {
            s.push('0');
            i += 1;
            assert(s@ =~= zeros(i as nat));
        }
    }
    let d = string_of(v.as_slice());
    s.append(d.as_str());
    assert(s@ =~= padded(n as nat, width as nat));
    s
}

} // verus!
