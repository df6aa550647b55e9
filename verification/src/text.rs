//! Text as the programs read and print it: words, lines, trimming, joining, numbers.
//!
//! Every function here is stated over the sequence of characters of its argument.
use vstd::prelude::*;

verus! {

/// The characters that have the Unicode property `White_Space`.
pub open spec fn is_whitespace(c: char) -> bool {
    let u = c as int;
    ||| 0x09 <= u <= 0x0d
    ||| u == 0x20
    ||| u == 0x85
    ||| u == 0xa0
    ||| u == 0x1680
    ||| 0x2000 <= u <= 0x200a
    ||| u == 0x2028
    ||| u == 0x2029
    ||| u == 0x202f
    ||| u == 0x205f
    ||| u == 0x3000
}

/// `char::is_whitespace` of std: whether the character has the Unicode property
/// `White_Space`, whose members are written out in [`is_whitespace`].
pub assume_specification[ char::is_whitespace ](c: char) -> (b: bool)
    ensures
        b == is_whitespace(c),
;

/// `String::push` of std: puts one character at the end.
pub assume_specification[ String::push ](s: &mut String, c: char)
    ensures
        final(s)@ == old(s)@.push(c),
;

/// Whether every character of `s` is one of ASCII.
pub open spec fn is_ascii_text(s: Seq<char>) -> bool {
    forall|i: int| 0 <= i < s.len() ==> (#[trigger] s[i] as int) < 0x80
}

/// The capital letter for a small letter of ASCII; any other character unchanged.
pub open spec fn ascii_upper(c: char) -> char {
    if 97 <= c as int <= 122 {
        (c as int - 32) as char
    } else {
        c
    }
}

/// The small letter for a capital letter of ASCII; any other character unchanged.
pub open spec fn ascii_lower(c: char) -> char {
    if 65 <= c as int <= 90 {
        (c as int + 32) as char
    } else {
        c
    }
}

/// `s` with capital letters for the small letters of ASCII.
pub open spec fn ascii_uppercase(s: Seq<char>) -> Seq<char> {
    s.map_values(|c: char| ascii_upper(c))
}

/// `s` with small letters for the capital letters of ASCII.
pub open spec fn ascii_lowercase(s: Seq<char>) -> Seq<char> {
    s.map_values(|c: char| ascii_lower(c))
}

/// What `str::to_uppercase` of std makes of a text.
pub uninterp spec fn uppercase(s: Seq<char>) -> Seq<char>;

/// What `str::to_lowercase` of std makes of a text.
pub uninterp spec fn lowercase(s: Seq<char>) -> Seq<char>;

/// `str::to_uppercase` of std: the upper case of a text by the rules of Unicode, a function of
/// the text alone. On a text of ASCII it turns small letters into capitals and changes nothing
/// else. What it makes of other characters is not said.
pub assume_specification[ str::to_uppercase ](s: &str) -> (t: String)
    ensures
        t@ == uppercase(s@),
        is_ascii_text(s@) ==> t@ == ascii_uppercase(s@),
;

/// `str::to_lowercase` of std: the lower case of a text by the rules of Unicode, a function of
/// the text alone. On a text of ASCII it turns capitals into small letters and changes nothing
/// else. What it makes of other characters is not said.
pub assume_specification[ str::to_lowercase ](s: &str) -> (t: String)
    ensures
        t@ == lowercase(s@),
        is_ascii_text(s@) ==> t@ == ascii_lowercase(s@),
;

/// The characters of `s`, as a vector.
pub fn chars_of(s: &str) -> (v: Vec<char>)
    ensures
        v@ == s@,
{
    let mut v: Vec<char> = Vec::new();
    for c in it: s.chars()
        invariant
            it.seq() == s@,
            v@ == s@.take(it.index() as int),
    {
        v.push(c);
    }
    v
}

/// The text whose characters are `v[from..to]`.
pub fn string_of(v: &Vec<char>, from: usize, to: usize) -> (s: String)
    requires
        from <= to <= v@.len(),
    ensures
        s@ == v@.subrange(from as int, to as int),
{
    let mut s = String::new();
    for i in from..to
        invariant
            from <= to <= v@.len(),
            s@ == v@.subrange(from as int, i as int),
    {
        s.push(v[i]);
    }
    s
}

/// How many characters stand in front of the first white space of `s`.
pub open spec fn word_len(s: Seq<char>) -> nat
    decreases s.len(),
{
    if s.len() == 0 || is_whitespace(s[0]) {
        0
    } else {
        1 + word_len(s.drop_first())
    }
}

/// A word is no longer than the text that it starts.
pub proof fn word_len_bound(s: Seq<char>)
    ensures
        word_len(s) <= s.len(),
    decreases s.len(),
{
    if s.len() > 0 && !is_whitespace(s[0]) {
        word_len_bound(s.drop_first());
    }
}

/// The words of `s`: its longest runs of characters that are not white space, in order.
pub open spec fn words(s: Seq<char>) -> Seq<Seq<char>>
    decreases s.len(),
{
    if s.len() == 0 {
        Seq::empty()
    } else if is_whitespace(s[0]) {
        words(s.drop_first())
    } else {
        proof {
            word_len_bound(s);
        }
        seq![s.take(word_len(s) as int)] + words(s.skip(word_len(s) as int))
    }
}

/// How many characters stand in front of the first newline of `s`.
pub open spec fn line_len(s: Seq<char>) -> nat
    decreases s.len(),
{
    if s.len() == 0 || s[0] == '\n' {
        0
    } else {
        1 + line_len(s.drop_first())
    }
}

/// A line that ended in a newline, without the carriage return that belonged to its ending.
pub open spec fn without_return(s: Seq<char>) -> Seq<char> {
    if s.len() > 0 && s.last() == '\r' {
        s.drop_last()
    } else {
        s
    }
}

/// The lines of `s`. A line ends in a newline, or in a carriage return and a newline; neither
/// belongs to the line. The last line may stand without an ending.
pub open spec fn lines(s: Seq<char>) -> Seq<Seq<char>>
    decreases s.len(),
{
    if s.len() == 0 {
        Seq::empty()
    } else if line_len(s) >= s.len() {
        seq![s]
    } else {
        seq![without_return(s.take(line_len(s) as int))] + lines(s.skip(line_len(s) as int + 1))
    }
}

/// `s` without the white space at its start.
pub open spec fn trim_start(s: Seq<char>) -> Seq<char>
    decreases s.len(),
{
    if s.len() > 0 && is_whitespace(s[0]) {
        trim_start(s.drop_first())
    } else {
        s
    }
}

/// `s` without the white space at its end.
pub open spec fn trim_end(s: Seq<char>) -> Seq<char>
    decreases s.len(),
{
    if s.len() > 0 && is_whitespace(s.last()) {
        trim_end(s.drop_last())
    } else {
        s
    }
}

/// `s` without the white space at its start and at its end.
pub open spec fn trim(s: Seq<char>) -> Seq<char> {
    trim_end(trim_start(s))
}

/// Whether `p` stands in `s` from position `at` on.
pub open spec fn occurs_at(s: Seq<char>, p: Seq<char>, at: int) -> bool {
    0 <= at && at + p.len() <= s.len() && s.subrange(at, at + p.len()) == p
}

/// Whether `s` starts with `p`.
pub open spec fn starts_with(s: Seq<char>, p: Seq<char>) -> bool {
    occurs_at(s, p, 0)
}

/// Whether `s` ends with `p`.
pub open spec fn ends_with(s: Seq<char>, p: Seq<char>) -> bool {
    occurs_at(s, p, s.len() - p.len())
}

/// Whether `p` stands anywhere in `s`.
pub open spec fn contains(s: Seq<char>, p: Seq<char>) -> bool {
    exists|at: int| #[trigger] occurs_at(s, p, at)
}

/// `parts` in order, with `sep` between each two of them.
pub open spec fn join(parts: Seq<Seq<char>>, sep: Seq<char>) -> Seq<char>
    decreases parts.len(),
{
    if parts.len() == 0 {
        Seq::empty()
    } else if parts.len() == 1 {
        parts[0]
    } else {
        join(parts.drop_last(), sep) + sep + parts.last()
    }
}

/// The digit that stands for `d`.
pub open spec fn digit(d: nat) -> char {
    (48 + d) as char
}

/// `n` in decimal notation.
pub open spec fn decimal(n: nat) -> Seq<char>
    decreases n,
{
    if n < 10 {
        seq![digit(n)]
    } else {
        decimal(n / 10).push(digit(n % 10))
    }
}

/// Whether `a` comes before `b` in the order of a dictionary of code points.
pub open spec fn text_less(a: Seq<char>, b: Seq<char>) -> bool
    decreases a.len(),
{
    if b.len() == 0 {
        false
    } else if a.len() == 0 {
        true
    } else {
        ||| (a[0] as int) < (b[0] as int)
        ||| a[0] == b[0] && text_less(a.drop_first(), b.drop_first())
    }
}

/// The texts that a vector of strings holds.
pub open spec fn texts(v: Seq<String>) -> Seq<Seq<char>> {
    v.map_values(|s: String| s@)
}

/// Past the first `n` characters, none of which is white space, a word goes on as it would start.
proof fn word_len_from(s: Seq<char>, n: int)
    requires
        0 <= n <= s.len(),
        forall|i: int| 0 <= i < n ==> !is_whitespace(s[i]),
    ensures
        word_len(s) == n + word_len(s.skip(n)),
    decreases n,
{
    if n == 0 {
        assert(s.skip(0) == s);
    } else {
        word_len_from(s.drop_first(), n - 1);
        assert(s.drop_first().skip(n - 1) == s.skip(n));
    }
}

/// Past the first `n` characters, none of which is a newline, a line goes on as it would start.
proof fn line_len_from(s: Seq<char>, n: int)
    requires
        0 <= n <= s.len(),
        forall|i: int| 0 <= i < n ==> s[i] != '\n',
    ensures
        line_len(s) == n + line_len(s.skip(n)),
    decreases n,
{
    if n == 0 {
        assert(s.skip(0) == s);
    } else {
        line_len_from(s.drop_first(), n - 1);
        assert(s.drop_first().skip(n - 1) == s.skip(n));
    }
}

/// The words of `s`.
pub fn split_words(s: &str) -> (v: Vec<String>)
    ensures
        texts(v@) == words(s@),
{
    let c = chars_of(s);
    let n: usize = c.len();
    let mut v: Vec<String> = Vec::new();
    let mut i: usize = 0;
    assert(s@.skip(0) == s@);
    while i < n
        invariant
            c@ == s@,
            n == s@.len(),
            i <= n,
            texts(v@) + words(s@.skip(i as int)) == words(s@),
        decreases n - i,
    {
        if c[i].is_whitespace() {
            assert(s@.skip(i as int).drop_first() == s@.skip(i + 1));
            i = i + 1;
        } else {
            let start: usize = i;
            let ghost rest = s@.skip(start as int);
            while i < n && !c[i].is_whitespace()
                invariant
                    c@ == s@,
                    n == s@.len(),
                    start <= i <= n,
                    forall|j: int| start <= j < i ==> !is_whitespace(s@[j]),
                decreases n - i,
            {
                i = i + 1;
            }
            proof {
                word_len_from(rest, i - start);
                assert(rest.skip(i - start) == s@.skip(i as int));
                assert(word_len(rest) == i - start);
                assert(rest.take(i - start) == s@.subrange(start as int, i as int));
                assert(i > start);
            }
            let word = string_of(&c, start, i);
            let ghost before = texts(v@);
            v.push(word);
            assert(texts(v@) == before.push(word@));
            assert(before + (seq![word@] + words(s@.skip(i as int))) == before.push(word@) + words(
                s@.skip(i as int),
            ));
        }
    }
    assert(texts(v@) + Seq::<Seq<char>>::empty() == texts(v@));
    v
}

/// The lines of `s`.
pub fn split_lines(s: &str) -> (v: Vec<String>)
    ensures
        texts(v@) == lines(s@),
{
    let c = chars_of(s);
    let n: usize = c.len();
    let mut v: Vec<String> = Vec::new();
    let mut i: usize = 0;
    assert(s@.skip(0) == s@);
    while i < n
        invariant
            c@ == s@,
            n == s@.len(),
            i <= n,
            texts(v@) + lines(s@.skip(i as int)) == lines(s@),
        decreases n - i,
    {
        let start: usize = i;
        let ghost rest = s@.skip(start as int);
        while i < n && c[i] != '\n'
            invariant
                c@ == s@,
                n == s@.len(),
                start <= i <= n,
                forall|j: int| start <= j < i ==> s@[j] != '\n',
            decreases n - i,
        {
            i = i + 1;
        }
        proof {
            line_len_from(rest, i - start);
            assert(rest.skip(i - start) == s@.skip(i as int));
            assert(line_len(rest) == i - start);
            assert(rest.take(i - start) == s@.subrange(start as int, i as int));
        }
        let mut end: usize = i;
        if i < n {
            if start < end && c[end - 1] == '\r' {
                end = end - 1;
                assert(s@.subrange(start as int, i as int).drop_last() == s@.subrange(
                    start as int,
                    end as int,
                ));
            }
            i = i + 1;
            assert(rest.skip(line_len(rest) as int + 1) == s@.skip(i as int));
        } else {
            assert(rest == s@.subrange(start as int, end as int));
        }
        let line = string_of(&c, start, end);
        let ghost before = texts(v@);
        v.push(line);
        assert(texts(v@) == before.push(line@));
        assert(lines(rest) == seq![line@] + lines(s@.skip(i as int)));
        assert(before + (seq![line@] + lines(s@.skip(i as int))) == before.push(line@) + lines(
            s@.skip(i as int),
        ));
    }
    assert(texts(v@) + Seq::<Seq<char>>::empty() == texts(v@));
    v
}

/// Taking off the first `n` characters, all of them white space, leaves the trimmed text as it is.
proof fn trim_start_from(s: Seq<char>, n: int)
    requires
        0 <= n <= s.len(),
        forall|i: int| 0 <= i < n ==> is_whitespace(s[i]),
    ensures
        trim_start(s) == trim_start(s.skip(n)),
    decreases n,
{
    if n == 0 {
        assert(s.skip(0) == s);
    } else {
        trim_start_from(s.drop_first(), n - 1);
        assert(s.drop_first().skip(n - 1) == s.skip(n));
    }
}

/// Taking off the last characters from `n` on, all of them white space, leaves the trimmed text
/// as it is.
proof fn trim_end_from(s: Seq<char>, n: int)
    requires
        0 <= n <= s.len(),
        forall|i: int| n <= i < s.len() ==> is_whitespace(s[i]),
    ensures
        trim_end(s) == trim_end(s.take(n)),
    decreases s.len() - n,
{
    if n == s.len() {
        assert(s.take(n) == s);
    } else {
        trim_end_from(s.drop_last(), n);
        assert(s.drop_last().take(n) == s.take(n));
    }
}

/// A text that has characters left when it is trimmed has a word.
pub proof fn trimmed_text_has_word(s: Seq<char>)
    requires
        trim(s).len() > 0,
    ensures
        words(trim(s)).len() > 0,
{
    trim_start_first(s);
    trim_end_first(trim_start(s));
}

proof fn trim_start_first(s: Seq<char>)
    ensures
        trim_start(s).len() > 0 ==> !is_whitespace(trim_start(s)[0]),
    decreases s.len(),
{
    if s.len() > 0 && is_whitespace(s[0]) {
        trim_start_first(s.drop_first());
    }
}

proof fn trim_end_first(s: Seq<char>)
    ensures
        trim_end(s).len() > 0 ==> trim_end(s)[0] == s[0] && s.len() > 0,
    decreases s.len(),
{
    if s.len() > 0 && is_whitespace(s.last()) {
        trim_end_first(s.drop_last());
    }
}

/// `s` without the white space at its start.
pub fn trimmed_start(s: &str) -> (t: String)
    ensures
        t@ == trim_start(s@),
{
    let c = chars_of(s);
    let n: usize = c.len();
    let mut i: usize = 0;
    while i < n && c[i].is_whitespace()
        invariant
            c@ == s@,
            n == s@.len(),
            i <= n,
            forall|j: int| 0 <= j < i ==> is_whitespace(s@[j]),
        decreases n - i,
    {
        i = i + 1;
    }
    proof {
        trim_start_from(s@, i as int);
        assert(s@.skip(i as int) == s@.subrange(i as int, n as int));
    }
    string_of(&c, i, n)
}

/// `s` without the white space at its start and at its end.
pub fn trimmed(s: &str) -> (t: String)
    ensures
        t@ == trim(s@),
{
    let c = chars_of(s);
    let n: usize = c.len();
    let mut i: usize = 0;
    while i < n && c[i].is_whitespace()
        invariant
            c@ == s@,
            n == s@.len(),
            i <= n,
            forall|j: int| 0 <= j < i ==> is_whitespace(s@[j]),
        decreases n - i,
    {
        i = i + 1;
    }
    let mut k: usize = n;
    while i < k && c[k - 1].is_whitespace()
        invariant
            c@ == s@,
            n == s@.len(),
            i <= k <= n,
            forall|j: int| k <= j < n ==> is_whitespace(s@[j]),
        decreases k,
    {
        k = k - 1;
    }
    proof {
        trim_start_from(s@, i as int);
        let rest = s@.skip(i as int);
        trim_end_from(rest, k - i);
        assert(rest.take(k - i) == s@.subrange(i as int, k as int));
    }
    string_of(&c, i, k)
}

/// Whether `p` stands in `s` from position `at` on.
fn stands_at(s: &Vec<char>, p: &Vec<char>, at: usize) -> (b: bool)
    requires
        at <= s@.len(),
    ensures
        b == occurs_at(s@, p@, at as int),
{
    if s.len() - at < p.len() {
        return false;
    }
    let n: usize = s.len();
    for i in 0..p.len()
        invariant
            n == s@.len(),
            at + p@.len() <= n,
            forall|j: int| 0 <= j < i ==> s@[at + j] == p@[j],
    {
        if s[at + i] != p[i] {
            assert(s@.subrange(at as int, at + p@.len())[i as int] != p@[i as int]);
            return false;
        }
    }
    assert(s@.subrange(at as int, at + p@.len()) == p@);
    true
}

/// Whether `s` starts with `p`.
pub fn has_prefix(s: &str, p: &str) -> (b: bool)
    ensures
        b == starts_with(s@, p@),
{
    let c = chars_of(s);
    let d = chars_of(p);
    stands_at(&c, &d, 0)
}

/// Whether `p` stands anywhere in `s`.
pub fn has_part(s: &str, p: &str) -> (b: bool)
    ensures
        b == contains(s@, p@),
{
    let c = chars_of(s);
    let d = chars_of(p);
    let mut at: usize = 0;
    while at < c.len()
        invariant
            c@ == s@,
            d@ == p@,
            at <= c@.len(),
            forall|j: int| 0 <= j < at ==> !occurs_at(s@, p@, j),
        decreases c@.len() - at,
    {
        if stands_at(&c, &d, at) {
            return true;
        }
        at = at + 1;
    }
    stands_at(&c, &d, at)
}

/// The message that reports `msg` as an error.
pub open spec fn error_text(msg: Seq<char>) -> Seq<char> {
    "ERROR "@ + msg
}

/// Formats an error message: `msg` behind the word `ERROR`.
pub fn error(msg: &str) -> (t: String)
    ensures
        t@ == error_text(msg@),
{
    let mut t = "ERROR ".to_owned();
    t.append(msg);
    t
}

/// Whether `a` and `b` are the same text.
pub fn same_text(a: &str, b: &str) -> (r: bool)
    ensures
        r == (a@ == b@),
{
    let c = chars_of(a);
    let d = chars_of(b);
    if c.len() != d.len() {
        return false;
    }
    let r = stands_at(&c, &d, 0);
    assert(a@.subrange(0, b@.len() as int) == a@);
    r
}

/// `parts` in order, with `sep` between each two of them.
pub fn join_texts(parts: &Vec<String>, sep: &str) -> (t: String)
    ensures
        t@ == join(texts(parts@), sep@),
{
    let ghost all = texts(parts@);
    let mut t = String::new();
    for i in 0..parts.len()
        invariant
            all == texts(parts@),
            t@ == join(all.take(i as int), sep@),
    {
        if i > 0 {
            t.append(sep);
        }
        t.append(parts[i].as_str());
        assert(all.take(i + 1).drop_last() == all.take(i as int));
    }
    assert(all.take(parts@.len() as int) == all);
    t
}

/// `n` in decimal notation.
pub fn decimal_text(n: u64) -> (t: String)
    ensures
        t@ == decimal(n as nat),
    decreases n,
{
    if n < 10 {
        let mut t = String::new();
        t.push((48 + n as u8) as char);
        t
    } else {
        let mut t = decimal_text(n / 10);
        t.push((48 + (n % 10) as u8) as char);
        t
    }
}

/// The code point of a character.
fn code_point(c: char) -> (n: u32)
    ensures
        n == c as int,
{
    c as u32
}

/// Whether `a` comes before `b` in the order of a dictionary of code points.
pub fn comes_before(a: &str, b: &str) -> (r: bool)
    ensures
        r == text_less(a@, b@),
{
    let c = chars_of(a);
    let d = chars_of(b);
    let mut i: usize = 0;
    assert(a@.skip(0) == a@);
    assert(b@.skip(0) == b@);
    while i < c.len() && i < d.len() && c[i] == d[i]
        invariant
            c@ == a@,
            d@ == b@,
            i <= a@.len(),
            i <= b@.len(),
            text_less(a@, b@) == text_less(a@.skip(i as int), b@.skip(i as int)),
        decreases c@.len() - i,
    {
        assert(a@.skip(i as int).drop_first() == a@.skip(i + 1));
        assert(b@.skip(i as int).drop_first() == b@.skip(i + 1));
        i = i + 1;
    }
    if i >= d.len() {
        false
    } else if i >= c.len() {
        true
    } else {
        code_point(c[i]) < code_point(d[i])
    }
}

/// Whether `w` is a word: some characters, none of them white space.
pub open spec fn is_word(w: Seq<char>) -> bool {
    w.len() > 0 && forall|i: int| 0 <= i < w.len() ==> !is_whitespace(#[trigger] w[i])
}

/// The characters in front of the first white space are not white space, and what follows them
/// is.
proof fn word_len_ends(s: Seq<char>)
    ensures
        word_len(s) <= s.len(),
        forall|i: int| 0 <= i < word_len(s) ==> !is_whitespace(#[trigger] s[i]),
        word_len(s) < s.len() ==> is_whitespace(s[word_len(s) as int]),
    decreases s.len(),
{
    if s.len() > 0 && !is_whitespace(s[0]) {
        let rest = s.drop_first();
        word_len_ends(rest);
        assert forall|i: int| 0 <= i < word_len(s) implies !is_whitespace(#[trigger] s[i]) by {
            if i > 0 {
                assert(s[i] == rest[i - 1]);
            }
        }
    }
}

/// Each of the words of a text is a word.
pub proof fn words_are_words(s: Seq<char>)
    ensures
        forall|i: int| 0 <= i < words(s).len() ==> is_word(#[trigger] words(s)[i]),
    decreases s.len(),
{
    if s.len() > 0 {
        if is_whitespace(s[0]) {
            words_are_words(s.drop_first());
            assert(words(s) == words(s.drop_first()));
        } else {
            word_len_ends(s);
            let n = word_len(s) as int;
            words_are_words(s.skip(n));
            assert forall|i: int| 0 <= i < words(s).len() implies is_word(
                #[trigger] words(s)[i],
            ) by {
                if i > 0 {
                    assert(words(s)[i] == words(s.skip(n))[i - 1]);
                }
            }
        }
    }
}

/// White space separates: the words of two texts with white space between them are the words of
/// the first and then those of the second.
pub proof fn whitespace_separates(s: Seq<char>, t: Seq<char>)
    requires
        t.len() > 0 ==> is_whitespace(t[0]),
    ensures
        words(s + t) == words(s) + words(t),
    decreases s.len(),
{
    let both = s + t;
    if s.len() == 0 {
        assert(both == t);
    } else if is_whitespace(s[0]) {
        whitespace_separates(s.drop_first(), t);
        assert(both.drop_first() == s.drop_first() + t);
    } else {
        word_len_ends(s);
        let n = word_len(s) as int;
        word_len_from(both, n);
        let rest = both.skip(n);
        assert(rest == s.skip(n) + t);
        if n < s.len() {
            assert(rest[0] == s[n]);
        } else if t.len() > 0 {
            assert(rest[0] == t[0]);
        }
        assert(word_len(rest) == 0);
        assert(word_len(both) == n);
        assert(both.take(n) == s.take(n));
        whitespace_separates(s.skip(n), t);
        assert(words(both) == seq![s.take(n)] + (words(s.skip(n)) + words(t)));
    }
}

/// A word is all of its words.
pub proof fn word_is_its_words(w: Seq<char>)
    requires
        is_word(w),
    ensures
        words(w) == seq![w],
{
    word_len_from(w, w.len() as int);
    assert(word_len(w.skip(w.len() as int)) == 0);
    assert(words(w.skip(w.len() as int)) == Seq::<Seq<char>>::empty());
    assert(w.take(w.len() as int) == w);
}

/// Words that are joined by spaces are found again.
pub proof fn joined_words_are_found(ws: Seq<Seq<char>>)
    requires
        forall|i: int| 0 <= i < ws.len() ==> is_word(#[trigger] ws[i]),
    ensures
        words(join(ws, " "@)) == ws,
    decreases ws.len(),
{
    reveal_strlit(" ");
    if ws.len() == 0 {
    } else if ws.len() == 1 {
        word_is_its_words(ws[0]);
        assert(ws == seq![ws[0]]);
    } else {
        let front = ws.drop_last();
        let last = ws.last();
        assert forall|i: int| 0 <= i < front.len() implies is_word(#[trigger] front[i]) by {
            assert(front[i] == ws[i]);
        }
        joined_words_are_found(front);
        assert(is_word(ws[ws.len() - 1]));
        word_is_its_words(last);
        let tail = " "@ + last;
        assert(tail[0] == ' ');
        assert(tail.drop_first() == last);
        assert(join(front, " "@) + " "@ + last == join(front, " "@) + tail);
        whitespace_separates(join(front, " "@), tail);
        assert(front + seq![last] == ws);
    }
}

/// `s` without its white space.
pub open spec fn without_whitespace(s: Seq<char>) -> Seq<char>
    decreases s.len(),
{
    if s.len() == 0 {
        s
    } else if is_whitespace(s[0]) {
        without_whitespace(s.drop_first())
    } else {
        seq![s[0]] + without_whitespace(s.drop_first())
    }
}

/// The words of a text hold all of its characters that are not white space, in order.
pub proof fn words_hold_the_text(s: Seq<char>)
    ensures
        words(s).flatten() == without_whitespace(s),
    decreases s.len(),
{
    if s.len() > 0 {
        if is_whitespace(s[0]) {
            words_hold_the_text(s.drop_first());
        } else {
            word_len_ends(s);
            let n = word_len(s) as int;
            words_hold_the_text(s.skip(n));
            without_whitespace_from(s, n);
            assert(words(s).drop_first() == words(s.skip(n)));
        }
    }
}

proof fn without_whitespace_from(s: Seq<char>, n: int)
    requires
        0 <= n <= s.len(),
        forall|i: int| 0 <= i < n ==> !is_whitespace(#[trigger] s[i]),
    ensures
        without_whitespace(s) == s.take(n) + without_whitespace(s.skip(n)),
    decreases n,
{
    if n == 0 {
        assert(s.skip(0) == s);
    } else {
        without_whitespace_from(s.drop_first(), n - 1);
        assert(s.drop_first().skip(n - 1) == s.skip(n));
        assert(seq![s[0]] + s.drop_first().take(n - 1) == s.take(n));
        assert(without_whitespace(s) == seq![s[0]] + (s.drop_first().take(n - 1)
            + without_whitespace(s.skip(n))));
    }
}

/// White space anywhere separates: the words of a text are those in front of a white space and
/// then those behind it.
pub proof fn words_split_at_whitespace(s: Seq<char>, c: char, t: Seq<char>)
    requires
        is_whitespace(c),
    ensures
        words(s + seq![c] + t) == words(s) + words(t),
{
    let tail = seq![c] + t;
    assert(s + seq![c] + t == s + tail);
    whitespace_separates(s, tail);
    assert(tail[0] == c);
    assert(tail.drop_first() == t);
}

/// A text of characters of which none is white space is its own only word, however long it is,
/// and a text of white space has no words.
pub proof fn unbroken_text_is_one_word(s: Seq<char>)
    ensures
        s.len() > 0 && (forall|i: int| 0 <= i < s.len() ==> !is_whitespace(#[trigger] s[i]))
            ==> words(s) == seq![s],
        (forall|i: int| 0 <= i < s.len() ==> is_whitespace(#[trigger] s[i])) ==> words(s).len()
            == 0,
    decreases s.len(),
{
    if s.len() > 0 {
        if forall|i: int| 0 <= i < s.len() ==> !is_whitespace(#[trigger] s[i]) {
            word_is_its_words(s);
        }
        if forall|i: int| 0 <= i < s.len() ==> is_whitespace(#[trigger] s[i]) {
            let rest = s.drop_first();
            assert(is_whitespace(s[0]));
            assert forall|i: int| 0 <= i < rest.len() implies is_whitespace(
                #[trigger] rest[i],
            ) by {
                assert(is_whitespace(s[i + 1]));
            }
            unbroken_text_is_one_word(rest);
        }
    }
}

/// The characters of a text's words, one after the other, are those of the text that are not
/// white space: none is lost and none is added.
pub proof fn words_lose_nothing(s: Seq<char>)
    ensures
        words(s).flatten() == s.filter(|c: char| !is_whitespace(c)),
{
    words_hold_the_text(s);
    without_whitespace_filters(s);
}

proof fn without_whitespace_filters(s: Seq<char>)
    ensures
        without_whitespace(s) == s.filter(|c: char| !is_whitespace(c)),
    decreases s.len(),
{
    let p = |c: char| !is_whitespace(c);
    if s.len() > 0 {
        let rest = s.drop_first();
        without_whitespace_filters(rest);
        let one = seq![s[0]];
        assert(one + rest == s);
        Seq::filter_distributes_over_add(one, rest, p);
        reveal_with_fuel(Seq::filter, 2);
        assert(one.drop_last() == Seq::<char>::empty());
        assert(one.filter(p) == if p(s[0]) { one } else { Seq::<char>::empty() });
        assert(Seq::<char>::empty() + rest.filter(p) == rest.filter(p));
    } else {
        reveal(Seq::filter);
    }
}

/// A newline ends a line: what stands in front of the first newline is the first line, without
/// the carriage return that may stand there, and what follows it holds the other lines.
pub proof fn newline_ends_a_line(a: Seq<char>, b: Seq<char>)
    requires
        !a.contains('\n'),
    ensures
        lines(a + seq!['\n'] + b) == seq![
            if a.len() > 0 && a.last() == '\r' {
                a.drop_last()
            } else {
                a
            },
        ] + lines(b),
{
    let s = a + seq!['\n'] + b;
    assert forall|i: int| 0 <= i < a.len() implies s[i] != '\n' by {
        assert(a.contains(a[i]));
    }
    line_len_from(s, a.len() as int);
    assert(s.skip(a.len() as int)[0] == '\n');
    assert(line_len(s) == a.len());
    assert(s.take(a.len() as int) == a);
    assert(s.skip(a.len() as int + 1) == b);
}

/// A text without a newline is one line, and no text has no lines.
pub proof fn unbroken_text_is_one_line(s: Seq<char>)
    requires
        !s.contains('\n'),
    ensures
        s.len() > 0 ==> lines(s) == seq![s],
        s.len() == 0 ==> lines(s).len() == 0,
{
    assert forall|i: int| 0 <= i < s.len() implies s[i] != '\n' by {
        assert(s.contains(s[i]));
    }
    line_len_from(s, s.len() as int);
}

/// Trimming takes away the white space at both ends and nothing else.
pub proof fn trimming_takes_white_space(a: Seq<char>, m: Seq<char>, b: Seq<char>)
    requires
        forall|i: int| 0 <= i < a.len() ==> is_whitespace(#[trigger] a[i]),
        forall|i: int| 0 <= i < b.len() ==> is_whitespace(#[trigger] b[i]),
        m.len() > 0 ==> !is_whitespace(m[0]) && !is_whitespace(m.last()),
    ensures
        trim(a + m + b) == m,
        trim_start(a + m + b) == if m.len() > 0 {
            m + b
        } else {
            Seq::empty()
        },
{
    let s = a + m + b;
    let n = a.len() as int;
    if m.len() > 0 {
        assert forall|i: int| 0 <= i < n implies is_whitespace(s[i]) by {
            assert(s[i] == a[i]);
        }
        trim_start_from(s, n);
        let rest = m + b;
        assert(s.skip(n) == rest);
        assert(rest[0] == m[0]);
        assert forall|i: int| m.len() <= i < rest.len() implies is_whitespace(rest[i]) by {
            assert(rest[i] == b[i - m.len()]);
        }
        trim_end_from(rest, m.len() as int);
        assert(rest.take(m.len() as int) == m);
    } else {
        assert forall|i: int| 0 <= i < s.len() implies is_whitespace(s[i]) by {
            if i < n {
                assert(s[i] == a[i]);
            } else {
                assert(s[i] == b[i - n]);
            }
        }
        trim_start_from(s, s.len() as int);
        assert(s.skip(s.len() as int) == Seq::<char>::empty());
        assert(m == Seq::<char>::empty());
    }
}

/// A text starts with another exactly where it is the other and something behind it, ends with it
/// exactly where it is something and the other behind that, and holds it exactly where it is
/// something, the other, and something again.
pub proof fn parts_stand_in_texts(s: Seq<char>, p: Seq<char>)
    ensures
        starts_with(s, p) <==> exists|b: Seq<char>| s == #[trigger] (p + b),
        ends_with(s, p) <==> exists|a: Seq<char>| s == #[trigger] (a + p),
        contains(s, p) <==> exists|a: Seq<char>, b: Seq<char>| s == #[trigger] (a + p + b),
{
    prefix_stands_in_text(s, p);
    suffix_stands_in_text(s, p);
    part_stands_in_text(s, p);
}

proof fn prefix_stands_in_text(s: Seq<char>, p: Seq<char>)
    ensures
        starts_with(s, p) <==> exists|b: Seq<char>| s == #[trigger] (p + b),
{
    if starts_with(s, p) {
        assert(s == p + s.skip(p.len() as int));
    }
    if exists|b: Seq<char>| s == #[trigger] (p + b) {
        let b = choose|b: Seq<char>| s == #[trigger] (p + b);
        assert(s.subrange(0, p.len() as int) == p);
    }
}

proof fn suffix_stands_in_text(s: Seq<char>, p: Seq<char>)
    ensures
        ends_with(s, p) <==> exists|a: Seq<char>| s == #[trigger] (a + p),
{
    if ends_with(s, p) {
        assert(s == s.take(s.len() - p.len()) + p);
    }
    if exists|a: Seq<char>| s == #[trigger] (a + p) {
        let a = choose|a: Seq<char>| s == #[trigger] (a + p);
        assert(s.subrange(s.len() - p.len(), s.len() as int) == p);
    }
}

proof fn part_stands_in_text(s: Seq<char>, p: Seq<char>)
    ensures
        contains(s, p) <==> exists|a: Seq<char>, b: Seq<char>| s == #[trigger] (a + p + b),
{
    if contains(s, p) {
        let at = choose|at: int| #[trigger] occurs_at(s, p, at);
        assert(s == s.take(at) + p + s.skip(at + p.len()));
    }
    if exists|a: Seq<char>, b: Seq<char>| s == #[trigger] (a + p + b) {
        let (a, b) = choose|a: Seq<char>, b: Seq<char>| s == #[trigger] (a + p + b);
        assert(s.subrange(a.len() as int, (a.len() + p.len()) as int) == p);
        assert(occurs_at(s, p, a.len() as int));
    }
}

/// Joining keeps every part: one part stands as it is, and of two groups of parts the joined
/// texts stand one behind the other with one separator between them.
pub proof fn joining_keeps_all_parts(a: Seq<Seq<char>>, b: Seq<Seq<char>>, sep: Seq<char>)
    ensures
        a.len() == 0 ==> join(a, sep).len() == 0,
        a.len() == 1 ==> join(a, sep) == a[0],
        a.len() > 0 && b.len() > 0 ==> join(a + b, sep) == join(a, sep) + sep + join(b, sep),
    decreases b.len(),
{
    if a.len() > 0 && b.len() > 0 {
        let both = a + b;
        let front = b.drop_last();
        assert(both.drop_last() == a + front);
        if b.len() == 1 {
            assert(a + front == a);
        } else {
            joining_keeps_all_parts(a, front, sep);
            assert(join(a, sep) + sep + (join(front, sep) + sep + b.last()) == join(a, sep) + sep
                + join(front, sep) + sep + b.last());
        }
    }
}

/// A joined text is its first part and then each other part behind a separator.
pub proof fn joined_text_is_its_parts(parts: Seq<Seq<char>>, sep: Seq<char>)
    requires
        parts.len() > 0,
    ensures
        join(parts, sep) == parts[0] + parts.drop_first().map_values(
            |p: Seq<char>| sep + p,
        ).flatten(),
    decreases parts.len(),
{
    let f = |p: Seq<char>| sep + p;
    if parts.len() == 1 {
        assert(parts.drop_first().map_values(f) == Seq::<Seq<char>>::empty());
        assert(parts[0] + Seq::<char>::empty() == parts[0]);
    } else {
        let front = parts.drop_last();
        joined_text_is_its_parts(front, sep);
        let others = front.drop_first().map_values(f);
        assert(parts.drop_first().map_values(f) == others.push(sep + parts.last()));
        others.lemma_flatten_push(sep + parts.last());
        assert(front[0] == parts[0]);
        assert(front[0] + others.flatten() + sep + parts.last() == front[0] + (others.flatten() + (
        sep + parts.last())));
    }
}

/// Decimal notation: digits only, without a zero in front but for zero itself, and read from left
/// to right they give the number.
pub proof fn decimal_reads_back(n: nat)
    ensures
        decimal(n).len() > 0,
        forall|i: int| 0 <= i < decimal(n).len() ==> 48 <= #[trigger] decimal(n)[i] as int <= 57,
        decimal(n)[0] == '0' ==> decimal(n).len() == 1,
        decimal(n).fold_left(0int, |v: int, c: char| 10 * v + (c as int - 48)) == n,
    decreases n,
{
    let f = |v: int, c: char| 10 * v + (c as int - 48);
    if n < 10 {
        let one = seq![digit(n)];
        assert(one.drop_last() == Seq::<char>::empty());
        reveal_with_fuel(Seq::fold_left, 2);
        assert(one.fold_left(0int, f) == n);
    } else {
        let front = decimal(n / 10);
        decimal_reads_back(n / 10);
        assert(decimal(n).drop_last() == front);
        assert(decimal(n).fold_left(0int, f) == 10 * (n / 10) + n % 10);
        assert forall|i: int| 0 <= i < decimal(n).len() implies 48 <= #[trigger] decimal(
            n,
        )[i] as int <= 57 by {
            if i < front.len() {
                assert(decimal(n)[i] == front[i]);
            }
        }
        if decimal(n)[0] == '0' {
            assert(front[0] == '0');
            assert(front.fold_left(0int, f) == 0) by {
                assert(front.drop_last() == Seq::<char>::empty());
                reveal_with_fuel(Seq::fold_left, 2);
            }
        }
    }
}

/// One text comes before another exactly where they agree up to some place, and there the first
/// ends or has the character of the lesser code point.
pub proof fn texts_are_ordered_by_their_first_difference(a: Seq<char>, b: Seq<char>)
    ensures
        text_less(a, b) <==> exists|k: int|
            0 <= k < b.len() && k <= a.len() && #[trigger] a.take(k) == b.take(k) && (k == a.len()
                || (a[k] as int) < (b[k] as int)),
    decreases a.len(),
{
    if text_less(a, b) {
        if a.len() > 0 && a[0] == b[0] {
            let (x, y) = (a.drop_first(), b.drop_first());
            texts_are_ordered_by_their_first_difference(x, y);
            let k = choose|k: int|
                0 <= k < y.len() && k <= x.len() && #[trigger] x.take(k) == y.take(k) && (k
                    == x.len() || (x[k] as int) < (y[k] as int));
            assert(a.take(k + 1) == seq![a[0]] + x.take(k));
            assert(b.take(k + 1) == seq![b[0]] + y.take(k));
        } else {
            assert(a.take(0) == b.take(0));
        }
    }
    if exists|k: int|
        0 <= k < b.len() && k <= a.len() && #[trigger] a.take(k) == b.take(k) && (k == a.len() || (
        a[k] as int) < (b[k] as int)) {
        let k = choose|k: int|
            0 <= k < b.len() && k <= a.len() && #[trigger] a.take(k) == b.take(k) && (k == a.len()
                || (a[k] as int) < (b[k] as int));
        if k > 0 {
            let (x, y) = (a.drop_first(), b.drop_first());
            texts_are_ordered_by_their_first_difference(x, y);
            assert(a.take(k)[0] == b.take(k)[0]);
            assert(x.take(k - 1) == a.take(k).drop_first());
            assert(y.take(k - 1) == b.take(k).drop_first());
        }
    }
}

/// An error message is the word `ERROR`, a space, and all of what it reports.
pub proof fn errors_are_marked(msg: Seq<char>)
    ensures
        error_text(msg).len() == 6 + msg.len(),
        error_text(msg).take(6) == "ERROR "@,
        error_text(msg).skip(6) == msg,
{
    reveal_strlit("ERROR ");
}

/// The texts of a vector of strings are those of its strings, each at its place.
pub proof fn texts_are_those_of_the_strings(v: Seq<String>)
    ensures
        texts(v).len() == v.len(),
        forall|i: int| 0 <= i < v.len() ==> #[trigger] texts(v)[i] == v[i]@,
{
}

/// White space in front of a text adds no words.
pub proof fn leading_whitespace_adds_no_words(pre: Seq<char>, s: Seq<char>)
    requires
        forall|i: int| 0 <= i < pre.len() ==> is_whitespace(#[trigger] pre[i]),
    ensures
        words(pre + s) == words(s),
    decreases pre.len(),
{
    if pre.len() == 0 {
        assert(pre + s == s);
    } else {
        let rest = pre.drop_first();
        assert(is_whitespace(pre[0]));
        assert forall|i: int| 0 <= i < rest.len() implies is_whitespace(#[trigger] rest[i]) by {
            assert(is_whitespace(pre[i + 1]));
        }
        leading_whitespace_adds_no_words(rest, s);
        assert((pre + s).drop_first() == rest + s);
    }
}

/// Trimming keeps a text up to a character that is not white space, but for the white space in
/// front.
pub proof fn trimming_keeps_the_inside(pre: Seq<char>, s: Seq<char>, j: int)
    requires
        forall|i: int| 0 <= i < pre.len() ==> is_whitespace(#[trigger] pre[i]),
        0 <= j < s.len(),
        !is_whitespace(s[0]),
        !is_whitespace(s[j]),
    ensures
        j < trim(pre + s).len() <= s.len(),
        trim(pre + s) == s.take(trim(pre + s).len() as int),
{
    let both = pre + s;
    assert forall|i: int| 0 <= i < pre.len() implies is_whitespace(both[i]) by {
        assert(both[i] == pre[i]);
    }
    trim_start_from(both, pre.len() as int);
    assert(both.skip(pre.len() as int) == s);
    trim_end_keeps(s, j);
}

proof fn trim_end_keeps(s: Seq<char>, j: int)
    requires
        0 <= j < s.len(),
        !is_whitespace(s[j]),
    ensures
        j < trim_end(s).len() <= s.len(),
        trim_end(s) == s.take(trim_end(s).len() as int),
    decreases s.len(),
{
    if is_whitespace(s.last()) {
        trim_end_keeps(s.drop_last(), j);
        let n = trim_end(s).len() as int;
        assert(s.drop_last().take(n) == s.take(n));
    } else {
        assert(s.take(s.len() as int) == s);
    }
}

/// Taking the white space off the start of a text leaves it from its first other character on.
pub proof fn start_is_trimmed_of_white_space(pre: Seq<char>, s: Seq<char>)
    requires
        forall|i: int| 0 <= i < pre.len() ==> is_whitespace(#[trigger] pre[i]),
        s.len() > 0 ==> !is_whitespace(s[0]),
    ensures
        trim_start(pre + s) == s,
{
    let both = pre + s;
    assert forall|i: int| 0 <= i < pre.len() implies is_whitespace(both[i]) by {
        assert(both[i] == pre[i]);
    }
    trim_start_from(both, pre.len() as int);
    assert(both.skip(pre.len() as int) == s);
}

/// What is taken off the start of a text is white space.
pub proof fn start_loses_only_white_space(s: Seq<char>)
    ensures
        trim_start(s).len() <= s.len(),
        s.skip(s.len() - trim_start(s).len()) == trim_start(s),
        forall|i: int| 0 <= i < s.len() - trim_start(s).len() ==> is_whitespace(#[trigger] s[i]),
    decreases s.len(),
{
    if s.len() > 0 && is_whitespace(s[0]) {
        let rest = s.drop_first();
        start_loses_only_white_space(rest);
        let n = s.len() - trim_start(s).len();
        assert(rest.skip(n - 1) == s.skip(n));
        assert forall|i: int| 0 <= i < n implies is_whitespace(#[trigger] s[i]) by {
            if i > 0 {
                assert(s[i] == rest[i - 1]);
            }
        }
    } else {
        assert(s.skip(0) == s);
    }
}

} // verus!
