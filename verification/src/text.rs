//! Text as sequences of characters: the small operations that the parsers and
//! the report writers of this crate share.

use vstd::prelude::*;

verus! {

/// `String::push` appends one character to the end of the string.
pub assume_specification[ String::push ](s: &mut String, c: char)
    ensures
        final(s)@ == old(s)@.push(c),
;

// ---- Strings and their characters ------------------------------------------

/// The characters of a string.
pub fn chars(s: &str) -> (r: Vec<char>)
    ensures
        r@ == s@,
{
    let mut r: Vec<char> = Vec::new();
    for c in it: s.chars()
        invariant
            r@ == it.seq().take(it.index()),
            it.seq() == s@,
    {
        r.push(c);
        assert(it.seq().take(it.index() + 1) =~= it.seq().take(it.index()).push(c));
    }
    assert(s@.take(s@.len() as int) =~= s@);
    r
}

/// The string made of `v[from..to]`.
pub fn text(v: &Vec<char>, from: usize, to: usize) -> (r: String)
    requires
        from <= to <= v.len(),
    ensures
        r@ == v@.subrange(from as int, to as int),
{
    let mut r: String = String::new();
    let mut i: usize = from;
    while i < to
        invariant
            from <= i <= to <= v.len(),
            r@ == v@.subrange(from as int, i as int),
        decreases to - i,
    {
        r.push(v[i]);
        assert(v@.subrange(from as int, i + 1) =~= v@.subrange(from as int, i as int).push(
            v@[i as int],
        ));
        i = i + 1;
    }
    r
}

/// Whether two strings hold the same characters.
pub fn same(a: &str, b: &str) -> (r: bool)
    ensures
        r == (a@ == b@),
{
    a.to_string() == b.to_string()
}

/// Owned copies of borrowed words.
pub fn strings(words: &[&str]) -> (r: Vec<String>)
    ensures
        r.deep_view() == Seq::new(words@.len(), |i: int| words@[i]@),
{
    let mut r: Vec<String> = Vec::new();
    for i in 0..words.len()
        invariant
            r.len() == i,
            forall|j: int| 0 <= j < i ==> (#[trigger] r@[j])@ == words@[j]@,
    {
        r.push(words[i].to_string());
    }
    assert(r.deep_view() =~= Seq::new(words@.len(), |i: int| words@[i]@));
    r
}

// ---- White space ------------------------------------------------------------

/// The characters with the Unicode property `White_Space`.
pub open spec fn is_space(c: char) -> bool {
    ||| 0x9 <= c as u32 <= 0xd
    ||| c as u32 == 0x20
    ||| c as u32 == 0x85
    ||| c as u32 == 0xa0
    ||| c as u32 == 0x1680
    ||| 0x2000 <= c as u32 <= 0x200a
    ||| 0x2028 <= c as u32 <= 0x2029
    ||| c as u32 == 0x202f
    ||| c as u32 == 0x205f
    ||| c as u32 == 0x3000
}

fn space(c: char) -> (r: bool)
    ensures
        r == is_space(c),
{
    let u: u32 = c as u32;
    (0x9 <= u && u <= 0xd) || u == 0x20 || u == 0x85 || u == 0xa0 || u == 0x1680 || (0x2000 <= u
        && u <= 0x200a) || (0x2028 <= u && u <= 0x2029) || u == 0x202f || u == 0x205f || u == 0x3000
}

/// Length of the longest prefix without white space.
pub open spec fn word_len(s: Seq<char>) -> int
    decreases s.len(),
{
    if s.len() == 0 || is_space(s[0]) {
        0
    } else {
        1 + word_len(s.skip(1))
    }
}

pub proof fn lemma_word_len(s: Seq<char>)
    ensures
        0 <= word_len(s) <= s.len(),
        forall|i: int| 0 <= i < word_len(s) ==> !is_space(#[trigger] s[i]),
        word_len(s) < s.len() ==> is_space(s[word_len(s)]),
    decreases s.len(),
{
    if s.len() > 0 && !is_space(s[0]) {
        lemma_word_len(s.skip(1));
        assert forall|i: int| 0 <= i < word_len(s) implies !is_space(#[trigger] s[i]) by {
            if i > 0 {
                assert(s.skip(1)[i - 1] == s[i]);
            }
        }
    }
}

proof fn lemma_word_len_is(s: Seq<char>, n: int)
    requires
        0 <= n <= s.len(),
        forall|i: int| 0 <= i < n ==> !is_space(#[trigger] s[i]),
        n < s.len() ==> is_space(s[n]),
    ensures
        word_len(s) == n,
{
    lemma_word_len(s);
    if word_len(s) < n {
        assert(is_space(s[word_len(s)]));
    }
}

/// The maximal runs of characters other than white space, in order.
pub open spec fn words(s: Seq<char>) -> Seq<Seq<char>>
    decreases s.len(),
    via words_decreases
{
    if s.len() == 0 {
        Seq::empty()
    } else if is_space(s[0]) {
        words(s.skip(1))
    } else {
        seq![s.take(word_len(s))] + words(s.skip(word_len(s)))
    }
}

#[via_fn]
proof fn words_decreases(s: Seq<char>) {
    if s.len() > 0 {
        lemma_word_len(s);
    }
}

/// Split text into words at white space.
pub fn split_whitespace(s: &str) -> (r: Vec<String>)
    ensures
        r.deep_view() == words(s@),
{
    let v: Vec<char> = chars(s);
    let mut out: Vec<String> = Vec::new();
    let mut i: usize = 0;
    assert(v@.skip(0) =~= v@);
    while i < v.len()
        invariant
            i <= v.len(),
            v@ == s@,
            words(s@) == out.deep_view() + words(v@.skip(i as int)),
        decreases v.len() - i,
    {
        if space(v[i]) {
            assert(v@.skip(i as int).skip(1) =~= v@.skip(i + 1));
            i = i + 1;
        } else {
            let start: usize = i;
            while i < v.len() && !space(v[i])
                invariant
                    start <= i <= v.len(),
                    forall|j: int| start <= j < i ==> !is_space(#[trigger] v@[j]),
                decreases v.len() - i,
            {
                i = i + 1;
            }
            let w: String = text(&v, start, i);
            proof {
                let rest = v@.skip(start as int);
                let n = i - start;
                assert forall|j: int| 0 <= j < n implies !is_space(#[trigger] rest[j]) by {
                    assert(rest[j] == v@[start + j]);
                }
                lemma_word_len_is(rest, n);
                assert(rest.take(n) =~= v@.subrange(start as int, i as int));
                assert(rest.skip(n) =~= v@.skip(i as int));
                assert(n > 0);
                assert(out.deep_view() + (seq![w@] + words(v@.skip(i as int)))
                    =~= out.deep_view().push(w@) + words(v@.skip(i as int)));
            }
            let ghost before = out.deep_view();
            out.push(w);
            assert(out.deep_view() =~= before.push(w@));
        }
    }
    assert(v@.skip(i as int) =~= Seq::<char>::empty());
    assert(out.deep_view() + words(Seq::<char>::empty()) =~= out.deep_view());
    out
}

/// Text without its leading white space.
pub open spec fn trim_start(s: Seq<char>) -> Seq<char>
    decreases s.len(),
{
    if s.len() > 0 && is_space(s[0]) {
        trim_start(s.skip(1))
    } else {
        s
    }
}

/// Text without its trailing white space.
pub open spec fn trim_end(s: Seq<char>) -> Seq<char>
    decreases s.len(),
{
    if s.len() > 0 && is_space(s.last()) {
        trim_end(s.drop_last())
    } else {
        s
    }
}

/// Text without the white space at either end.
pub fn trim(s: &str) -> (r: String)
    ensures
        r@ == trim_end(trim_start(s@)),
{
    let v: Vec<char> = chars(s);
    let mut i: usize = 0;
    assert(v@.skip(0) =~= v@);
    while i < v.len() && space(v[i])
        invariant
            i <= v.len(),
            trim_start(v@) == trim_start(v@.skip(i as int)),
        decreases v.len() - i,
    {
        assert(v@.skip(i as int).skip(1) =~= v@.skip(i + 1));
        i = i + 1;
    }
    let mut j: usize = v.len();
    assert(v@.subrange(i as int, j as int) =~= v@.skip(i as int));
    while j > i && space(v[j - 1])
        invariant
            i <= j <= v.len(),
            trim_end(v@.skip(i as int)) == trim_end(v@.subrange(i as int, j as int)),
        decreases j,
    {
        assert(v@.subrange(i as int, j as int).drop_last() =~= v@.subrange(i as int, j - 1));
        j = j - 1;
    }
    text(&v, i, j)
}

// ---- Searching ---------------------------------------------------------------

/// Index of the first `c` in `s`, or its length if there is none.
pub open spec fn find(s: Seq<char>, c: char) -> int
    decreases s.len(),
{
    if s.len() == 0 || s[0] == c {
        0
    } else {
        1 + find(s.skip(1), c)
    }
}

pub proof fn lemma_find(s: Seq<char>, c: char)
    ensures
        0 <= find(s, c) <= s.len(),
        forall|i: int| 0 <= i < find(s, c) ==> #[trigger] s[i] != c,
        find(s, c) < s.len() ==> s[find(s, c)] == c,
    decreases s.len(),
{
    if s.len() > 0 && s[0] != c {
        lemma_find(s.skip(1), c);
        assert forall|i: int| 0 <= i < find(s, c) implies #[trigger] s[i] != c by {
            if i > 0 {
                assert(s.skip(1)[i - 1] == s[i]);
            }
        }
    }
}

fn find_from(v: &Vec<char>, from: usize, c: char) -> (r: usize)
    requires
        from <= v.len(),
    ensures
        from <= r <= v.len(),
        r == from + find(v@.skip(from as int), c),
{
    let mut i: usize = from;
    while i < v.len() && v[i] != c
        invariant
            from <= i <= v.len(),
            find(v@.skip(from as int), c) == (i - from) + find(v@.skip(i as int), c),
        decreases v.len() - i,
    {
        assert(v@.skip(i as int).skip(1) =~= v@.skip(i + 1));
        i = i + 1;
    }
    i
}

/// The parts before and after the first `c`, if there is one.
pub open spec fn split_at_first(s: Seq<char>, c: char) -> Option<(Seq<char>, Seq<char>)> {
    if find(s, c) < s.len() {
        Some((s.take(find(s, c)), s.skip(find(s, c) + 1)))
    } else {
        None
    }
}

/// Split text at the first occurrence of a character.
pub fn split_once(s: &str, c: char) -> (r: Option<(String, String)>)
    ensures
        match r {
            Some((a, b)) => split_at_first(s@, c) == Some((a@, b@)),
            None => split_at_first(s@, c) is None,
        },
{
    let v: Vec<char> = chars(s);
    assert(v@.skip(0) =~= v@);
    let n: usize = find_from(&v, 0, c);
    if n < v.len() {
        let a: String = text(&v, 0, n);
        let b: String = text(&v, n + 1, v.len());
        assert(a@ =~= s@.take(n as int));
        assert(b@ =~= s@.skip(n + 1));
        Some((a, b))
    } else {
        None
    }
}

/// Whether `c` occurs in the text.
pub fn has_char(s: &str, c: char) -> (r: bool)
    ensures
        r == s@.contains(c),
{
    let v: Vec<char> = chars(s);
    assert(v@.skip(0) =~= v@);
    let n: usize = find_from(&v, 0, c);
    proof {
        lemma_find(s@, c);
    }
    n < v.len()
}

/// Whether `part` occurs in the text as a contiguous piece.
pub open spec fn has_part(s: Seq<char>, part: Seq<char>) -> bool {
    exists|i: int|
        0 <= i && i + part.len() <= s.len() && #[trigger] s.subrange(i, i + part.len()) == part
}

/// Whether `part` occurs in `s`.
pub fn contains(s: &str, part: &str) -> (r: bool)
    ensures
        r == has_part(s@, part@),
{
    let v: Vec<char> = chars(s);
    let p: Vec<char> = chars(part);
    if p.len() > v.len() {
        return false;
    }
    let mut i: usize = 0;
    while i <= v.len() - p.len()
        invariant
            v@ == s@,
            p@ == part@,
            p.len() <= v.len(),
            0 <= i <= v.len() - p.len() + 1,
            forall|k: int| 0 <= k < i ==> #[trigger] s@.subrange(k, k + part@.len()) != part@,
        decreases v.len() - i + 1,
    {
        let mut j: usize = 0;
        while j < p.len() && v[i + j] == p[j]
            invariant
                v@ == s@,
                p@ == part@,
                i + p.len() <= v.len(),
                j <= p.len(),
                forall|k: int| 0 <= k < j ==> v@[i + k] == #[trigger] p@[k],
            decreases p.len() - j,
        {
            j = j + 1;
        }
        if j == p.len() {
            assert(s@.subrange(i as int, i + part@.len()) =~= part@);
            return true;
        }
        assert(s@.subrange(i as int, i + part@.len())[j as int] != part@[j as int]);
        i = i + 1;
    }
    false
}

/// Whether `s` ends with `end`.
pub open spec fn ends_with(s: Seq<char>, end: Seq<char>) -> bool {
    end.len() <= s.len() && s.skip(s.len() - end.len()) == end
}

/// The text before a given ending, if it has that ending.
pub fn strip_suffix(s: &str, end: &str) -> (r: Option<String>)
    ensures
        match r {
            Some(t) => ends_with(s@, end@) && t@ == s@.take(s@.len() - end@.len()),
            None => !ends_with(s@, end@),
        },
{
    let v: Vec<char> = chars(s);
    let e: Vec<char> = chars(end);
    if e.len() > v.len() {
        return None;
    }
    let n: usize = v.len() - e.len();
    if same(text(&v, n, v.len()).as_str(), end) {
        assert(v@.subrange(n as int, v.len() as int) =~= s@.skip(n as int));
        assert(v@.subrange(0, n as int) =~= s@.take(n as int));
        Some(text(&v, 0, n))
    } else {
        assert(v@.subrange(n as int, v.len() as int) =~= s@.skip(n as int));
        None
    }
}

/// Whether `s` begins with `head`.
pub open spec fn starts_with(s: Seq<char>, head: Seq<char>) -> bool {
    head.len() <= s.len() && s.take(head.len() as int) == head
}

/// The text after a given beginning, if it has that beginning.
pub fn strip_prefix(s: &str, head: &str) -> (r: Option<String>)
    ensures
        match r {
            Some(t) => starts_with(s@, head@) && t@ == s@.skip(head@.len() as int),
            None => !starts_with(s@, head@),
        },
{
    let v: Vec<char> = chars(s);
    let h: Vec<char> = chars(head);
    if h.len() > v.len() {
        return None;
    }
    assert(v@.subrange(0, h.len() as int) =~= s@.take(h.len() as int));
    if same(text(&v, 0, h.len()).as_str(), head) {
        assert(v@.subrange(h.len() as int, v.len() as int) =~= s@.skip(h.len() as int));
        Some(text(&v, h.len(), v.len()))
    } else {
        None
    }
}

// ---- Lines -------------------------------------------------------------------

/// A line without the carriage return of its ending.
pub open spec fn without_cr(s: Seq<char>) -> Seq<char> {
    if s.len() > 0 && s.last() == '\r' {
        s.drop_last()
    } else {
        s
    }
}

/// The lines of a text. A line ends with a line feed, or with a carriage return
/// and a line feed; the ending of the last line is optional.
pub open spec fn text_lines(s: Seq<char>) -> Seq<Seq<char>>
    decreases s.len(),
    via text_lines_decreases
{
    if s.len() == 0 {
        Seq::empty()
    } else {
        let n = find(s, '\n');
        if n < s.len() {
            seq![without_cr(s.take(n))] + text_lines(s.skip(n + 1))
        } else {
            seq![s]
        }
    }
}

#[via_fn]
proof fn text_lines_decreases(s: Seq<char>) {
    lemma_find(s, '\n');
}

/// Split text into lines.
pub fn lines(s: &str) -> (r: Vec<String>)
    ensures
        r.deep_view() == text_lines(s@),
{
    let v: Vec<char> = chars(s);
    let mut out: Vec<String> = Vec::new();
    let mut i: usize = 0;
    assert(v@.skip(0) =~= v@);
    while i < v.len()
        invariant
            i <= v.len(),
            v@ == s@,
            text_lines(s@) == out.deep_view() + text_lines(v@.skip(i as int)),
        decreases v.len() - i,
    {
        let n: usize = find_from(&v, i, '\n');
        let ghost before = out.deep_view();
        let ghost rest = v@.skip(i as int);
        if n < v.len() {
            let end: usize = if n > i && v[n - 1] == '\r' {
                n - 1
            } else {
                n
            };
            let w: String = text(&v, i, end);
            proof {
                assert(rest.take(n - i) =~= v@.subrange(i as int, n as int));
                assert(w@ =~= without_cr(rest.take(n - i)));
                assert(rest.skip(n - i + 1) =~= v@.skip(n + 1));
                assert(before + (seq![w@] + text_lines(v@.skip(n + 1)))
                    =~= before.push(w@) + text_lines(v@.skip(n + 1)));
            }
            out.push(w);
            assert(out.deep_view() =~= before.push(w@));
            i = n + 1;
        } else {
            let w: String = text(&v, i, n);
            proof {
                assert(w@ =~= rest);
                assert(v@.skip(n as int) =~= Seq::<char>::empty());
                assert(before + seq![w@] =~= before.push(w@) + text_lines(v@.skip(n as int)));
            }
            out.push(w);
            assert(out.deep_view() =~= before.push(w@));
            i = n;
        }
    }
    assert(v@.skip(i as int) =~= Seq::<char>::empty());
    assert(out.deep_view() + text_lines(Seq::<char>::empty()) =~= out.deep_view());
    out
}

// ---- Paths -------------------------------------------------------------------

/// What follows the last `/` of a path.
pub open spec fn base_of(path: Seq<char>) -> Seq<char>
    decreases path.len(),
{
    if path.len() == 0 || path.last() == '/' {
        Seq::empty()
    } else {
        base_of(path.drop_last()).push(path.last())
    }
}

/// Display name of an executable: the last component of its path.
pub fn basename(path: &str) -> (r: String)
    ensures
        r@ == base_of(path@),
{
    let v: Vec<char> = chars(path);
    let mut i: usize = v.len();
    assert(v@.take(i as int) =~= v@);
    assert(v@.subrange(i as int, v.len() as int) =~= Seq::<char>::empty());
    assert(base_of(v@.take(i as int)) =~= base_of(v@.take(i as int)) + v@.subrange(
        i as int,
        v.len() as int,
    ));
    while i > 0 && v[i - 1] != '/'
        invariant
            i <= v.len(),
            base_of(v@) == base_of(v@.take(i as int)) + v@.subrange(i as int, v.len() as int),
        decreases i,
    {
        assert(v@.take(i as int).drop_last() =~= v@.take(i - 1));
        assert(base_of(v@.take(i - 1)).push(v@[i - 1]) + v@.subrange(i as int, v.len() as int)
            =~= base_of(v@.take(i - 1)) + v@.subrange(i - 1, v.len() as int));
        i = i - 1;
    }
    assert(base_of(v@.take(i as int)) =~= Seq::<char>::empty());
    assert(base_of(v@) =~= v@.subrange(i as int, v.len() as int));
    text(&v, i, v.len())
}

/// A file inside a directory.
pub open spec fn joined(dir: Seq<char>, file: Seq<char>) -> Seq<char> {
    if dir.len() == 0 || dir.last() == '/' {
        dir + file
    } else {
        dir + seq!['/'] + file
    }
}

/// Path of `file` inside `dir`.
pub fn join_path(dir: &str, file: &str) -> (r: String)
    ensures
        r@ == joined(dir@, file@),
{
    let v: Vec<char> = chars(dir);
    let mut r: String = dir.to_string();
    if v.len() > 0 && v[v.len() - 1] != '/' {
        r.push('/');
        assert(r@ =~= dir@ + seq!['/']);
    }
    r.append(file);
    r
}

// ---- Laws --------------------------------------------------------------------

/// White space parts words: the words of two texts with white space between them are
/// those of the first and then those of the second.
pub proof fn law_space_parts_words(a: Seq<char>, c: char, b: Seq<char>)
    requires
        is_space(c),
    ensures
        words(a + seq![c] + b) == words(a) + words(b),
    decreases a.len(),
{
    let s = a + seq![c] + b;
    if a.len() == 0 {
        assert(s[0] == c);
        assert(s.skip(1) =~= b);
        assert(words(a) =~= Seq::<Seq<char>>::empty());
        assert(words(s) =~= words(a) + words(b));
    } else if is_space(a[0]) {
        assert(s[0] == a[0]);
        assert(s.skip(1) =~= a.skip(1) + seq![c] + b);
        law_space_parts_words(a.skip(1), c, b);
    } else {
        let n = word_len(a);
        lemma_word_len(a);
        assert(s[0] == a[0]);
        assert forall|i: int| 0 <= i < n implies !is_space(#[trigger] s[i]) by {
            assert(s[i] == a[i]);
        }
        assert(is_space(s[n]));
        lemma_word_len_is(s, n);
        assert(s.take(n) =~= a.take(n));
        assert(s.skip(n) =~= a.skip(n) + seq![c] + b);
        law_space_parts_words(a.skip(n), c, b);
        assert(words(s) =~= words(a) + words(b));
    }
}

/// A text without white space is one word, unless it is empty.
pub proof fn law_word_is_kept_whole(w: Seq<char>)
    requires
        forall|i: int| 0 <= i < w.len() ==> !is_space(#[trigger] w[i]),
    ensures
        w.len() > 0 ==> words(w) == seq![w],
        w.len() == 0 ==> words(w) == Seq::<Seq<char>>::empty(),
{
    if w.len() > 0 {
        lemma_word_len_is(w, w.len() as int);
        assert(w.take(w.len() as int) =~= w);
        assert(w.skip(w.len() as int).len() == 0);
        assert(words(w.skip(w.len() as int)) =~= Seq::<Seq<char>>::empty());
        assert(words(w) =~= seq![w]);
    }
}

/// The white space among the ASCII characters.
pub proof fn law_ascii_space(c: char)
    requires
        (c as u32) < 128,
    ensures
        is_space(c) <==> c == ' ' || c == '\t' || c == '\n' || c == '\r' || c as u32 == 0xb || c as u32
            == 0xc,
{
}

/// A line feed ends a line, and so does a carriage return with a line feed: what stands
/// before is the first line, and the lines of the rest follow.
pub proof fn law_line_feed_ends_a_line(line: Seq<char>, rest: Seq<char>)
    requires
        forall|i: int| 0 <= i < line.len() ==> #[trigger] line[i] != '\n',
    ensures
        line.len() == 0 || line.last() != '\r' ==> text_lines(line + seq!['\n'] + rest) == seq![
            line,
        ] + text_lines(rest),
        text_lines(line + seq!['\r', '\n'] + rest) == seq![line] + text_lines(rest),
{
    let s = line + seq!['\n'] + rest;
    lemma_find_is(s, '\n', line.len() as int);
    assert(s.take(line.len() as int) =~= line);
    assert(s.skip(line.len() as int + 1) =~= rest);
    let marked = line.push('\r');
    let t = line + seq!['\r', '\n'] + rest;
    lemma_find_is(t, '\n', marked.len() as int);
    assert(t.take(marked.len() as int) =~= marked);
    assert(marked.drop_last() =~= line);
    assert(t.skip(marked.len() as int + 1) =~= rest);
}

proof fn lemma_find_is(s: Seq<char>, c: char, n: int)
    requires
        0 <= n <= s.len(),
        forall|i: int| 0 <= i < n ==> #[trigger] s[i] != c,
        n < s.len() ==> s[n] == c,
    ensures
        find(s, c) == n,
{
    lemma_find(s, c);
    if find(s, c) < n {
        assert(s[find(s, c)] == c);
    }
}

/// The last line needs no ending, and an empty text has no lines.
pub proof fn law_last_line_needs_no_ending(line: Seq<char>)
    requires
        forall|i: int| 0 <= i < line.len() ==> #[trigger] line[i] != '\n',
    ensures
        line.len() > 0 ==> text_lines(line) == seq![line],
        line.len() == 0 ==> text_lines(line) == Seq::<Seq<char>>::empty(),
{
    lemma_find_is(line, '\n', line.len() as int);
}

/// A text is split at the first occurrence of a character, if there is one.
pub proof fn law_split_at_the_first(a: Seq<char>, c: char, b: Seq<char>)
    requires
        forall|i: int| 0 <= i < a.len() ==> #[trigger] a[i] != c,
    ensures
        split_at_first(a + seq![c] + b, c) == Some((a, b)),
        split_at_first(a, c) is None,
{
    let s = a + seq![c] + b;
    lemma_find_is(s, c, a.len() as int);
    lemma_find_is(a, c, a.len() as int);
    assert(s.take(a.len() as int) =~= a);
    assert(s.skip(a.len() as int + 1) =~= b);
}

/// Trimming takes white space away from both ends, all of it, and nothing else.
pub proof fn law_trim_takes_only_space(s: Seq<char>)
    ensures
        ({
            let t = trim_end(trim_start(s));
            &&& t.len() > 0 ==> !is_space(t[0]) && !is_space(t.last())
            &&& exists|a: Seq<char>, b: Seq<char>|
                {
                    &&& s == #[trigger] (a + t + b)
                    &&& forall|i: int| 0 <= i < a.len() ==> is_space(#[trigger] a[i])
                    &&& forall|i: int| 0 <= i < b.len() ==> is_space(#[trigger] b[i])
                }
        }),
{
    let m = trim_start(s);
    let t = trim_end(m);
    lemma_trim_start(s);
    lemma_trim_end(m);
    let a = s.take(s.len() - m.len());
    let b = m.skip(t.len() as int);
    assert(s =~= a + t + b);
}

proof fn lemma_trim_start(s: Seq<char>)
    ensures
        ({
            let m = trim_start(s);
            let n = s.len() - m.len();
            &&& 0 <= n
            &&& m == s.skip(n)
            &&& forall|i: int| 0 <= i < n ==> is_space(#[trigger] s[i])
            &&& m.len() > 0 ==> !is_space(m[0])
        }),
    decreases s.len(),
{
    if s.len() > 0 && is_space(s[0]) {
        let r = s.skip(1);
        lemma_trim_start(r);
        let n = r.len() - trim_start(r).len();
        assert(r.skip(n) =~= s.skip(n + 1));
        assert forall|i: int| 0 <= i < n + 1 implies is_space(#[trigger] s[i]) by {
            if i > 0 {
                assert(r[i - 1] == s[i]);
            }
        }
    } else {
        assert(s.skip(0) =~= s);
    }
}

proof fn lemma_trim_end(s: Seq<char>)
    ensures
        ({
            let m = trim_end(s);
            &&& m.len() <= s.len()
            &&& m == s.take(m.len() as int)
            &&& forall|i: int| m.len() <= i < s.len() ==> is_space(#[trigger] s[i])
            &&& m.len() > 0 ==> !is_space(m.last())
        }),
    decreases s.len(),
{
    if s.len() > 0 && is_space(s.last()) {
        let r = s.drop_last();
        lemma_trim_end(r);
        let n = trim_end(r).len() as int;
        assert(r.take(n) =~= s.take(n));
        assert forall|i: int| n <= i < s.len() implies is_space(#[trigger] s[i]) by {
            if i < r.len() {
                assert(r[i] == s[i]);
            }
        }
    } else {
        assert(s.take(s.len() as int) =~= s);
    }
}

/// The last component of a path is what stands behind its last slash, or the whole of it
/// where it has none.
pub proof fn law_last_component(dir: Seq<char>, name: Seq<char>)
    requires
        forall|i: int| 0 <= i < name.len() ==> #[trigger] name[i] != '/',
    ensures
        base_of(dir + seq!['/'] + name) == name,
        base_of(name) == name,
    decreases name.len(),
{
    let p = dir + seq!['/'] + name;
    if name.len() > 0 {
        let rest = name.drop_last();
        assert forall|i: int| 0 <= i < rest.len() implies #[trigger] rest[i] != '/' by {
            assert(rest[i] == name[i]);
        }
        law_last_component(dir, rest);
        assert(p.drop_last() =~= dir + seq!['/'] + rest);
        assert(p.last() == name.last());
        assert(name.last() == name[name.len() - 1]);
        assert(rest.push(name.last()) =~= name);
    } else {
        assert(p.last() == '/');
        assert(base_of(p) =~= name);
        assert(base_of(name) =~= name);
    }
}

/// A file keeps its name in whatever directory it is put, with one slash between.
pub proof fn law_joined_path_ends_in_the_file(dir: Seq<char>, file: Seq<char>)
    requires
        forall|i: int| 0 <= i < file.len() ==> #[trigger] file[i] != '/',
    ensures
        base_of(joined(dir, file)) == file,
        dir.len() > 0 && dir.last() != '/' ==> joined(dir, file) == dir + seq!['/'] + file,
        dir.len() > 0 && dir.last() == '/' ==> joined(dir, file) == dir + file,
        dir.len() == 0 ==> joined(dir, file) == file,
{
    if dir.len() > 0 && dir.last() == '/' {
        law_last_component(dir.drop_last(), file);
        assert(dir.drop_last() + seq!['/'] =~= dir);
    } else {
        law_last_component(dir, file);
        if dir.len() == 0 {
            assert(dir + file =~= file);
        }
    }
}

} // verus!
