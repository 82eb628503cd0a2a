//! Text as the standard library reads it: white space, lines, joining, searching and
//! decimal numbers, each with its meaning as a spec function.
use vstd::prelude::*;

verus! {

// ---------------------------------------------------------------------------
// White space
// ---------------------------------------------------------------------------

/// Unicode `White_Space`: the characters that `char::is_whitespace`, `str::trim`
/// and `str::trim_end` treat as blank.
pub open spec fn is_ws(c: char) -> bool {
    let n = c as u32;
    ||| 0x09 <= n <= 0x0d
    ||| n == 0x20
    ||| n == 0x85
    ||| n == 0xa0
    ||| n == 0x1680
    ||| 0x2000 <= n <= 0x200a
    ||| n == 0x2028
    ||| n == 0x2029
    ||| n == 0x202f
    ||| n == 0x205f
    ||| n == 0x3000
}

/// A text is blank when every character in it is white space (its `trim()` is empty).
pub open spec fn is_blank(s: Seq<char>) -> bool {
    forall|i: int| 0 <= i < s.len() ==> is_ws(#[trigger] s[i])
}

/// `s` without its trailing white space (`str::trim_end`).
pub open spec fn trim_end(s: Seq<char>) -> Seq<char>
    decreases s.len(),
{
    if s.len() > 0 && is_ws(s.last()) {
        trim_end(s.drop_last())
    } else {
        s
    }
}

pub fn char_is_ws(c: char) -> (r: bool)
    ensures
        r == is_ws(c),
{
    let n = c as u32;
    (0x09 <= n && n <= 0x0d) || n == 0x20 || n == 0x85 || n == 0xa0 || n == 0x1680 || (0x2000
        <= n && n <= 0x200a) || n == 0x2028 || n == 0x2029 || n == 0x202f || n == 0x205f || n
        == 0x3000
}

pub fn blank(s: &Vec<char>) -> (r: bool)
    ensures
        r == is_blank(s@),
{
    let mut i: usize = 0;
    while i < s.len()
        invariant
            i <= s@.len(),
            forall|k: int| 0 <= k < i ==> is_ws(#[trigger] s@[k]),
        decreases s@.len() - i,
    {
        if !char_is_ws(s[i]) {
            return false;
        }
        i = i + 1;
    }
    true
}

proof fn lemma_trim_end_take(s: Seq<char>, k: int)
    requires
        0 <= k <= s.len(),
        forall|j: int| k <= j < s.len() ==> is_ws(#[trigger] s[j]),
    ensures
        trim_end(s) == trim_end(s.take(k)),
    decreases s.len() - k,
{
    if k < s.len() {
        assert(s.drop_last().take(k) =~= s.take(k));
        lemma_trim_end_take(s.drop_last(), k);
    } else {
        assert(s.take(k) =~= s);
    }
}

pub fn trimmed_end(s: &Vec<char>) -> (r: Vec<char>)
    ensures
        r@ == trim_end(s@),
{
    let mut k: usize = s.len();
    while k > 0 && char_is_ws(s[k - 1])
        invariant
            k <= s@.len(),
            forall|j: int| k <= j < s@.len() ==> is_ws(#[trigger] s@[j]),
        decreases k,
    {
        k = k - 1;
    }
    proof {
        lemma_trim_end_take(s@, k as int);
        assert(trim_end(s@.take(k as int)) == s@.take(k as int));
    }
    let mut r: Vec<char> = Vec::new();
    let mut i: usize = 0;
    while i < k
        invariant
            k <= s@.len(),
            i <= k,
            r@ == s@.take(i as int),
        decreases k - i,
    {
        r.push(s[i]);
        i = i + 1;
        assert(r@ =~= s@.take(i as int));
    }
    r
}

// ---------------------------------------------------------------------------
// Lines (`str::lines`)
// ---------------------------------------------------------------------------

/// The character sequences held by a vector of character vectors.
pub open spec fn views(v: Seq<Vec<char>>) -> Seq<Seq<char>> {
    v.map_values(|x: Vec<char>| x@)
}

/// Position of the first `c` in `s`, or `s.len()` when there is none.
pub open spec fn first_index(s: Seq<char>, c: char) -> int
    decreases s.len(),
{
    if s.len() == 0 {
        0
    } else if s[0] == c {
        0
    } else {
        1 + first_index(s.drop_first(), c)
    }
}

/// A line without its `'\r'` before the `'\n'` that ended it.
pub open spec fn strip_cr(s: Seq<char>) -> Seq<char> {
    if s.len() > 0 && s.last() == '\r' {
        s.drop_last()
    } else {
        s
    }
}

/// The lines of a text as `str::lines` yields them: split at `'\n'`, a `'\r'` before
/// the `'\n'` dropped, and no empty last line after a final `'\n'`.
pub open spec fn split_lines(s: Seq<char>) -> Seq<Seq<char>>
    decreases s.len(),
{
    if s.len() == 0 {
        seq![]
    } else {
        let i = first_index(s, '\n');
        proof {
            lemma_first_index_bounds(s, '\n');
        }
        if i >= s.len() {
            seq![s]
        } else {
            seq![strip_cr(s.take(i))] + split_lines(s.skip(i + 1))
        }
    }
}

pub proof fn lemma_first_index(s: Seq<char>, c: char, j: int)
    requires
        0 <= j <= s.len(),
        forall|k: int| 0 <= k < j ==> #[trigger] s[k] != c,
        j == s.len() || s[j] == c,
    ensures
        first_index(s, c) == j,
    decreases j,
{
    if j > 0 {
        assert(s[0] != c);
        assert forall|k: int| 0 <= k < j - 1 implies #[trigger] s.drop_first()[k] != c by {
            assert(s.drop_first()[k] == s[k + 1]);
        }
        lemma_first_index(s.drop_first(), c, j - 1);
    }
}

pub proof fn lemma_first_index_bounds(s: Seq<char>, c: char)
    ensures
        0 <= first_index(s, c) <= s.len(),
        first_index(s, c) < s.len() ==> s[first_index(s, c)] == c,
        forall|k: int| 0 <= k < first_index(s, c) ==> #[trigger] s[k] != c,
    decreases s.len(),
{
    if s.len() > 0 && s[0] != c {
        lemma_first_index_bounds(s.drop_first(), c);
        assert forall|k: int| 0 <= k < first_index(s, c) implies #[trigger] s[k] != c by {
            if k > 0 {
                assert(s[k] == s.drop_first()[k - 1]);
            }
        }
    }
}

fn strip_cr_exec(s: Vec<char>) -> (r: Vec<char>)
    ensures
        r@ == strip_cr(s@),
{
    let mut s = s;
    if s.len() > 0 && s[s.len() - 1] == '\r' {
        s.pop();
    }
    s
}

/// The lines of `text` (`str::lines`).
pub fn lines_of(text: &Vec<char>) -> (r: Vec<Vec<char>>)
    ensures
        views(r@) == split_lines(text@),
{
    let mut out: Vec<Vec<char>> = Vec::new();
    let mut cur: Vec<char> = Vec::new();
    let mut start: usize = 0;
    let mut i: usize = 0;
    assert(text@.skip(0) =~= text@);
    while i < text.len()
        invariant
            start <= i <= text@.len(),
            cur@ == text@.subrange(start as int, i as int),
            forall|k: int| start <= k < i ==> #[trigger] text@[k] != '\n',
            split_lines(text@) == views(out@) + split_lines(text@.skip(start as int)),
        decreases text@.len() - i,
    {
        if text[i] == '\n' {
            let ghost rest = text@.skip(start as int);
            proof {
                assert forall|k: int| 0 <= k < i - start implies #[trigger] rest[k] != '\n' by {
                    assert(rest[k] == text@[start + k]);
                }
                lemma_first_index(rest, '\n', i - start);
                assert(rest.take(i - start) =~= cur@);
                assert(rest.skip(i - start + 1) =~= text@.skip(i + 1));
            }
            let line = strip_cr_exec(cur);
            let ghost prev = views(out@);
            let ghost lv = line@;
            out.push(line);
            assert(views(out@) =~= prev.push(lv));
            cur = Vec::new();
            i = i + 1;
            start = i;
            assert(cur@ =~= text@.subrange(start as int, i as int));
        } else {
            cur.push(text[i]);
            i = i + 1;
            assert(cur@ =~= text@.subrange(start as int, i as int));
        }
    }
    proof {
        let rest = text@.skip(start as int);
        if rest.len() > 0 {
            assert forall|k: int| 0 <= k < rest.len() implies #[trigger] rest[k] != '\n' by {
                assert(rest[k] == text@[start + k]);
            }
            lemma_first_index(rest, '\n', rest.len() as int);
            assert(rest =~= cur@);
        }
    }
    if start < text.len() {
        let ghost prev = views(out@);
        let ghost cv = cur@;
        out.push(cur);
        assert(views(out@) =~= prev.push(cv));
    } else {
        assert(text@.skip(start as int) =~= Seq::<char>::empty());
    }
    out
}


pub(crate) proof fn lemma_split_lines_concat(a: Seq<char>, b: Seq<char>)
    requires
        a.len() == 0 || a.last() == '\n',
    ensures
        split_lines(a + b) == split_lines(a) + split_lines(b),
    decreases a.len(),
{
    if a.len() == 0 {
        assert(a + b =~= b);
    } else {
        let i = first_index(a, '\n');
        lemma_first_index_bounds(a, '\n');
        assert(i < a.len());
        let ab = a + b;
        assert forall|k: int| 0 <= k < i implies #[trigger] ab[k] != '\n' by {
            assert(ab[k] == a[k]);
        }
        lemma_first_index(ab, '\n', i);
        assert(ab.take(i) =~= a.take(i));
        assert(ab.skip(i + 1) =~= a.skip(i + 1) + b);
        let rest = a.skip(i + 1);
        if rest.len() > 0 {
            assert(rest.last() == a.last());
        }
        lemma_split_lines_concat(rest, b);
    }
}

pub(crate) proof fn lemma_split_line_newline(l: Seq<char>)
    requires
        forall|i: int| 0 <= i < l.len() ==> #[trigger] l[i] != '\n',
    ensures
        split_lines(l + seq!['\n']) == seq![strip_cr(l)],
{
    let t = l + seq!['\n'];
    assert forall|k: int| 0 <= k < l.len() implies #[trigger] t[k] != '\n' by {
        assert(t[k] == l[k]);
    }
    lemma_first_index(t, '\n', l.len() as int);
    assert(t.take(l.len() as int) =~= l);
    assert(t.skip(l.len() as int + 1) =~= Seq::<char>::empty());
    assert(split_lines(t.skip(l.len() as int + 1)) =~= Seq::<Seq<char>>::empty());
    assert(split_lines(t) == seq![strip_cr(t.take(l.len() as int))] + split_lines(
        t.skip(l.len() as int + 1),
    ));
    assert(seq![strip_cr(l)] + Seq::<Seq<char>>::empty() =~= seq![strip_cr(l)]);
}

/// No line break in the text: neither `'\n'` nor `'\r'`.
pub open spec fn one_line(s: Seq<char>) -> bool {
    forall|k: int| 0 <= k < s.len() ==> #[trigger] s[k] != '\n' && s[k] != '\r'
}

/// No `'\n'` in the text.
pub open spec fn no_newline(s: Seq<char>) -> bool {
    forall|k: int| 0 <= k < s.len() ==> #[trigger] s[k] != '\n'
}

/// A line as it can stand between two `'\n'`: no `'\n'` in it and no `'\r'` at its end.
pub open spec fn bare_line(s: Seq<char>) -> bool {
    &&& no_newline(s)
    &&& !(s.len() > 0 && s.last() == '\r')
}

pub(crate) proof fn lemma_split_lines_no_newline(s: Seq<char>)
    ensures
        forall|i: int, k: int|
            0 <= i < split_lines(s).len() && 0 <= k < split_lines(s)[i].len() ==> #[trigger] split_lines(
                s,
            )[i][k] != '\n',
    decreases s.len(),
{
    if s.len() > 0 {
        let i = first_index(s, '\n');
        lemma_first_index_bounds(s, '\n');
        if i < s.len() {
            lemma_split_lines_no_newline(s.skip(i + 1));
            let h = strip_cr(s.take(i));
            assert forall|k: int| 0 <= k < h.len() implies h[k] != '\n' by {
                assert(h[k] == s[k]);
            }
            let r = split_lines(s.skip(i + 1));
            assert(split_lines(s) == seq![h] + r);
            assert forall|j: int, k: int|
                0 <= j < split_lines(s).len() && 0 <= k < split_lines(s)[j].len() implies #[trigger] split_lines(
                s,
            )[j][k] != '\n' by {
                if j > 0 {
                    assert(split_lines(s)[j] == r[j - 1]);
                }
            }
        } else {
            assert(split_lines(s) =~= seq![s]);
        }
    }
}

pub(crate) proof fn lemma_split_lines_last(s: Seq<char>)
    ensures
        s.len() > 0 ==> split_lines(s).len() > 0,
        s.len() > 0 && s.last() != '\n' ==> split_lines(s).last().len() > 0,
    decreases s.len(),
{
    if s.len() > 0 {
        let i = first_index(s, '\n');
        lemma_first_index_bounds(s, '\n');
        if i >= s.len() {
            assert(split_lines(s) =~= seq![s]);
        } else {
            let rest = s.skip(i + 1);
            let h = seq![strip_cr(s.take(i))];
            assert(split_lines(s) == h + split_lines(rest));
            if s.last() != '\n' {
                assert(i < s.len() - 1);
                assert(rest.last() == s.last());
                lemma_split_lines_last(rest);
                assert((h + split_lines(rest)).last() == split_lines(rest).last());
            }
        }
    }
}

proof fn lemma_split_one_line(l: Seq<char>)
    requires
        l.len() > 0,
        no_newline(l),
    ensures
        split_lines(l) == seq![l],
{
    assert forall|k: int| 0 <= k < l.len() implies #[trigger] l[k] != '\n' by {}
    lemma_first_index(l, '\n', l.len() as int);
}

/// Lines joined by `'\n'` split back into the same lines, when every line but the
/// last is bare and the last holds no `'\n'`: with a final `'\n'` when the last line
/// is bare too, without one when the last line is not empty (or there is none).
pub(crate) proof fn lemma_split_join(ls: Seq<Seq<char>>)
    requires
        forall|i: int| 0 <= i < ls.len() - 1 ==> bare_line(#[trigger] ls[i]),
        ls.len() > 0 ==> no_newline(ls.last()),
    ensures
        ls.len() > 0 && bare_line(ls.last()) ==> split_lines(join(ls, seq!['\n']) + seq!['\n']) == ls,
        ls.len() == 0 || ls.last().len() > 0 ==> split_lines(join(ls, seq!['\n'])) == ls,
    decreases ls.len(),
{
    let sep = seq!['\n'];
    if ls.len() == 0 {
        assert(split_lines(join(ls, sep)) =~= ls);
    } else {
        let l = ls.last();
        assert forall|k: int| 0 <= k < l.len() implies #[trigger] l[k] != '\n' by {}
        if ls.len() == 1 {
            assert(join(ls, sep) == l);
            assert(ls =~= seq![l]);
            if l.len() > 0 {
                lemma_split_one_line(l);
            }
            if bare_line(l) {
                lemma_split_line_newline(l);
                if l.len() > 0 {
                    assert(l.last() == l[l.len() - 1]);
                }
                assert(strip_cr(l) == l);
            }
        } else {
            let p = ls.drop_last();
            assert forall|i: int| 0 <= i < p.len() - 1 implies bare_line(#[trigger] p[i]) by {
                assert(p[i] == ls[i]);
            }
            assert(bare_line(ls[p.len() - 1]));
            assert(p.last() == ls[p.len() - 1]);
            lemma_split_join(p);
            let a = join(p, sep) + sep;
            assert(join(ls, sep) == join(p, sep) + sep + l);
            assert(ls =~= p.push(l));
            if bare_line(l) {
                lemma_split_line_newline(l);
                if l.len() > 0 {
                    assert(l.last() == l[l.len() - 1]);
                }
                assert(strip_cr(l) == l);
                assert(join(ls, sep) + sep =~= a + (l + sep));
                lemma_split_lines_concat(a, l + sep);
                assert(split_lines(a + (l + sep)) == p + seq![l]);
            }
            if l.len() > 0 {
                assert(join(ls, sep) =~= a + l);
                lemma_split_lines_concat(a, l);
                lemma_split_one_line(l);
            }
        }
    }
}

/// The non-blank lines of a text, each without its trailing white space
/// (the lines that a JSONL reader keeps).
pub open spec fn nonempty_lines(lines: Seq<Seq<char>>) -> Seq<Seq<char>>
    decreases lines.len(),
{
    if lines.len() == 0 {
        seq![]
    } else {
        let t = trim_end(lines.last());
        nonempty_lines(lines.drop_last()) + if t.len() > 0 {
            seq![t]
        } else {
            seq![]
        }
    }
}

/// The kept lines of a JSONL text.
pub open spec fn jsonl_lines(text: Seq<char>) -> Seq<Seq<char>> {
    nonempty_lines(split_lines(text))
}

pub proof fn lemma_trim_end_blank(s: Seq<char>)
    ensures
        trim_end(s).len() == 0 <==> is_blank(s),
        trim_end(s).len() <= s.len(),
        trim_end(s) =~= s.take(trim_end(s).len() as int),
        trim_end(s).len() > 0 ==> !is_ws(trim_end(s).last()),
    decreases s.len(),
{
    if s.len() > 0 && is_ws(s.last()) {
        lemma_trim_end_blank(s.drop_last());
        if is_blank(s.drop_last()) {
            assert forall|i: int| 0 <= i < s.len() implies is_ws(#[trigger] s[i]) by {
                if i < s.len() - 1 {
                    assert(s.drop_last()[i] == s[i]);
                }
            }
        }
        if is_blank(s) {
            assert forall|i: int| 0 <= i < s.drop_last().len() implies is_ws(
                #[trigger] s.drop_last()[i],
            ) by {
                assert(s.drop_last()[i] == s[i]);
            }
        }
    } else if s.len() > 0 {
        assert(!is_ws(s[s.len() - 1]));
    }
}

/// The non-blank lines of `text`, each with its trailing white space removed.
pub fn read_nonempty_lines(text: &Vec<char>) -> (r: Vec<Vec<char>>)
    ensures
        views(r@) == jsonl_lines(text@),
{
    let lines = lines_of(text);
    let mut out: Vec<Vec<char>> = Vec::new();
    let mut i: usize = 0;
    while i < lines.len()
        invariant
            i <= lines@.len(),
            views(lines@) == split_lines(text@),
            views(out@) == nonempty_lines(views(lines@).take(i as int)),
        decreases lines@.len() - i,
    {
        let t = trimmed_end(&lines[i]);
        let ghost prev = views(out@);
        let ghost tv = t@;
        assert(views(lines@).take(i + 1).drop_last() =~= views(lines@).take(i as int));
        if t.len() > 0 {
            out.push(t);
            assert(views(out@) =~= prev.push(tv));
        } else {
            assert(views(out@) =~= prev);
        }
        i = i + 1;
    }
    assert(views(lines@).take(lines@.len() as int) =~= views(lines@));
    out
}

// ---------------------------------------------------------------------------
// Joining and appending
// ---------------------------------------------------------------------------

/// The parts written one after the other with `sep` between each two (`join`).
pub open spec fn join(parts: Seq<Seq<char>>, sep: Seq<char>) -> Seq<char>
    decreases parts.len(),
{
    if parts.len() == 0 {
        seq![]
    } else if parts.len() == 1 {
        parts[0]
    } else {
        join(parts.drop_last(), sep) + sep + parts.last()
    }
}

pub fn push_all(dst: &mut Vec<char>, src: &Vec<char>)
    ensures
        final(dst)@ == old(dst)@ + src@,
{
    let ghost start = dst@;
    let mut i: usize = 0;
    while i < src.len()
        invariant
            i <= src@.len(),
            dst@ == start + src@.take(i as int),
        decreases src@.len() - i,
    {
        dst.push(src[i]);
        i = i + 1;
        assert(dst@ =~= start + src@.take(i as int));
    }
    assert(src@.take(src@.len() as int) =~= src@);
}

pub fn join_chars(parts: &Vec<Vec<char>>, sep: &Vec<char>) -> (r: Vec<char>)
    ensures
        r@ == join(views(parts@), sep@),
{
    let mut r: Vec<char> = Vec::new();
    let mut i: usize = 0;
    while i < parts.len()
        invariant
            i <= parts@.len(),
            r@ == join(views(parts@).take(i as int), sep@),
        decreases parts@.len() - i,
    {
        let ghost before = views(parts@).take(i as int);
        assert(views(parts@).take(i + 1).drop_last() =~= before);
        if i > 0 {
            push_all(&mut r, sep);
        }
        push_all(&mut r, &parts[i]);
        i = i + 1;
        assert(views(parts@).take(i as int).last() == parts@[i - 1]@);
        if i == 1 {
            assert(r@ =~= join(views(parts@).take(i as int), sep@));
        }
    }
    assert(views(parts@).take(parts@.len() as int) =~= views(parts@));
    r
}

/// The characters of a string slice, in order.
pub fn chars_of(s: &str) -> (v: Vec<char>)
    ensures
        v@ == s@,
{
    let mut v: Vec<char> = Vec::new();
    for c in it: s.chars()
        invariant
            v@ == it.seq().take(it.index() as int),
    {
        v.push(c);
    }
    v
}

/// The characters of a vector gathered into a `String` (`Iterator::collect`).
#[verifier::external_body]
pub(crate) fn string_from(v: &Vec<char>) -> (s: String)
    ensures
        s@ == v@,
{
    v.iter().collect()
}

// ---------------------------------------------------------------------------
// Substrings
// ---------------------------------------------------------------------------

/// `needle` occurs in `hay` starting at position `i`.
pub open spec fn occurs_at(hay: Seq<char>, needle: Seq<char>, i: int) -> bool {
    0 <= i && i + needle.len() <= hay.len() && hay.subrange(i, i + needle.len()) == needle
}

/// `str::contains` with a string pattern.
pub open spec fn contains_text(hay: Seq<char>, needle: Seq<char>) -> bool {
    exists|i: int| occurs_at(hay, needle, i)
}

fn matches_at(hay: &Vec<char>, needle: &Vec<char>, i: usize) -> (r: bool)
    requires
        i + needle@.len() <= hay@.len(),
    ensures
        r == occurs_at(hay@, needle@, i as int),
{
    let mut k: usize = 0;
    while k < needle.len()
        invariant
            i + needle@.len() <= hay@.len(),
            hay@.len() == hay.len(),
            k <= needle@.len(),
            forall|j: int| 0 <= j < k ==> hay@[i + j] == needle@[j],
        decreases needle@.len() - k,
    {
        if hay[i + k] != needle[k] {
            assert(hay@.subrange(i as int, i + needle@.len())[k as int] != needle@[k as int]);
            return false;
        }
        k = k + 1;
    }
    assert(hay@.subrange(i as int, i + needle@.len()) =~= needle@);
    true
}

pub fn contains_chars(hay: &Vec<char>, needle: &Vec<char>) -> (r: bool)
    ensures
        r == contains_text(hay@, needle@),
{
    if needle.len() > hay.len() {
        return false;
    }
    let last = hay.len() - needle.len();
    let mut i: usize = 0;
    loop
        invariant
            last + needle@.len() == hay@.len(),
            i <= last,
            forall|j: int| 0 <= j < i ==> !occurs_at(hay@, needle@, j),
        decreases last - i,
    {
        if matches_at(hay, needle, i) {
            return true;
        }
        if i == last {
            assert forall|j: int| occurs_at(hay@, needle@, j) implies j <= last by {}
            return false;
        }
        i = i + 1;
    }
}

// ---------------------------------------------------------------------------
// Decimal numbers
// ---------------------------------------------------------------------------

pub open spec fn digit_char(d: nat) -> char {
    (d + 48) as char
}

pub open spec fn is_digit(c: char) -> bool {
    48 <= (c as u32) <= 57
}

pub open spec fn digit_value(c: char) -> nat {
    ((c as u32) - 48) as nat
}

/// The decimal text of `n` (`to_string` on an unsigned integer).
pub open spec fn decimal(n: nat) -> Seq<char>
    decreases n,
{
    if n < 10 {
        seq![digit_char(n)]
    } else {
        decimal(n / 10).push(digit_char(n % 10))
    }
}

fn digit_exec(d: usize) -> (c: char)
    requires
        d < 10,
    ensures
        c == digit_char(d as nat),
{
    match d {
        0 => '0',
        1 => '1',
        2 => '2',
        3 => '3',
        4 => '4',
        5 => '5',
        6 => '6',
        7 => '7',
        8 => '8',
        _ => '9',
    }
}

pub fn decimal_chars(n: usize) -> (r: Vec<char>)
    ensures
        r@ == decimal(n as nat),
    decreases n,
{
    if n < 10 {
        let mut r: Vec<char> = Vec::new();
        r.push(digit_exec(n));
        assert(r@ =~= seq![digit_char(n as nat)]);
        r
    } else {
        let mut r = decimal_chars(n / 10);
        r.push(digit_exec(n % 10));
        r
    }
}

/// The value of a run of decimal digits.
pub open spec fn digits_value(s: Seq<char>) -> nat
    decreases s.len(),
{
    if s.len() == 0 {
        0
    } else {
        digits_value(s.drop_last()) * 10 + digit_value(s.last())
    }
}

/// The digits that `usize::from_str` reads: the text without one leading `'+'`.
pub open spec fn unsigned_digits(s: Seq<char>) -> Seq<char> {
    if s.len() > 0 && s[0] == '+' {
        s.drop_first()
    } else {
        s
    }
}

/// `str::parse::<usize>`: an optional `'+'` and then at least one decimal digit,
/// with a value that fits in `usize`.
pub open spec fn parse_usize(s: Seq<char>) -> Option<nat> {
    let d = unsigned_digits(s);
    if d.len() > 0 && (forall|i: int| 0 <= i < d.len() ==> is_digit(#[trigger] d[i]))
        && digits_value(d) <= usize::MAX {
        Some(digits_value(d))
    } else {
        None
    }
}

proof fn lemma_digits_value_grows(d: Seq<char>, i: int)
    requires
        0 <= i <= d.len(),
    ensures
        digits_value(d.take(i)) <= digits_value(d),
    decreases d.len() - i,
{
    if i < d.len() {
        lemma_digits_value_grows(d, i + 1);
        assert(d.take(i + 1).drop_last() =~= d.take(i));
    } else {
        assert(d.take(i) =~= d);
    }
}

pub fn parse_usize_chars(s: &Vec<char>) -> (r: Option<usize>)
    ensures
        r matches Some(n) ==> parse_usize(s@) == Some(n as nat),
        r is None ==> parse_usize(s@) is None,
{
    let start: usize = if s.len() > 0 && s[0] == '+' {
        1
    } else {
        0
    };
    let ghost d = unsigned_digits(s@);
    assert(d =~= s@.skip(start as int));
    if start >= s.len() {
        return None;
    }
    let mut acc: usize = 0;
    let mut i: usize = start;
    while i < s.len()
        invariant
            start <= i <= s@.len(),
            start < s@.len(),
            d == s@.skip(start as int),
            d == unsigned_digits(s@),
            forall|k: int| 0 <= k < i - start ==> is_digit(#[trigger] d[k]),
            acc == digits_value(d.take(i - start)),
        decreases s@.len() - i,
    {
        let c = s[i];
        let n = c as u32;
        assert(d[i - start] == c);
        if n < 48 || n > 57 {
            assert(!is_digit(d[i - start]));
            return None;
        }
        assert(digit_value(c) == n - 48);
        let dv = (n - 48) as usize;
        assert(d.take(i - start + 1).drop_last() =~= d.take(i - start));
        assert(d.take(i - start + 1).last() == c);
        proof {
            lemma_digits_value_grows(d, i - start + 1);
        }
        if acc > (usize::MAX - dv) / 10 {
            assert(acc * 10 + dv > usize::MAX) by (nonlinear_arith)
                requires
                    acc > (usize::MAX - dv) / 10,
                    dv < 10,
            ;
            return None;
        }
        assert(acc * 10 + dv <= usize::MAX) by (nonlinear_arith)
            requires
                acc <= (usize::MAX - dv) / 10,
                dv < 10,
        ;
        acc = acc * 10 + dv;
        i = i + 1;
    }
    assert(d.take(i - start) =~= d);
    Some(acc)
}


// ---------------------------------------------------------------------------
// Splitting at a character
// ---------------------------------------------------------------------------

/// All the pieces of `s` between occurrences of `c` (`str::split` with a character):
/// an empty text gives one empty piece.
pub open spec fn split_on(s: Seq<char>, c: char) -> Seq<Seq<char>>
    decreases s.len(),
{
    let i = first_index(s, c);
    proof {
        lemma_first_index_bounds(s, c);
    }
    if i >= s.len() {
        seq![s]
    } else {
        seq![s.take(i)] + split_on(s.skip(i + 1), c)
    }
}

pub fn split_chars(s: &Vec<char>, c: char) -> (r: Vec<Vec<char>>)
    ensures
        views(r@) == split_on(s@, c),
{
    let mut out: Vec<Vec<char>> = Vec::new();
    let mut cur: Vec<char> = Vec::new();
    let mut start: usize = 0;
    let mut i: usize = 0;
    assert(s@.skip(0) =~= s@);
    while i < s.len()
        invariant
            start <= i <= s@.len(),
            cur@ == s@.subrange(start as int, i as int),
            forall|k: int| start <= k < i ==> #[trigger] s@[k] != c,
            split_on(s@, c) == views(out@) + split_on(s@.skip(start as int), c),
        decreases s@.len() - i,
    {
        if s[i] == c {
            let ghost rest = s@.skip(start as int);
            proof {
                assert forall|k: int| 0 <= k < i - start implies #[trigger] rest[k] != c by {
                    assert(rest[k] == s@[start + k]);
                }
                lemma_first_index(rest, c, i - start);
                assert(rest.take(i - start) =~= cur@);
                assert(rest.skip(i - start + 1) =~= s@.skip(i + 1));
            }
            let ghost prev = views(out@);
            let ghost cv = cur@;
            out.push(cur);
            assert(views(out@) =~= prev.push(cv));
            cur = Vec::new();
            i = i + 1;
            start = i;
            assert(cur@ =~= s@.subrange(start as int, i as int));
        } else {
            cur.push(s[i]);
            i = i + 1;
            assert(cur@ =~= s@.subrange(start as int, i as int));
        }
    }
    let ghost rest = s@.skip(start as int);
    proof {
        assert forall|k: int| 0 <= k < rest.len() implies #[trigger] rest[k] != c by {
            assert(rest[k] == s@[start + k]);
        }
        lemma_first_index(rest, c, rest.len() as int);
        assert(rest =~= cur@);
    }
    let ghost prev = views(out@);
    let ghost cv = cur@;
    out.push(cur);
    assert(views(out@) =~= prev.push(cv));
    out
}

/// Two character vectors hold the same text.
pub fn same_chars(a: &Vec<char>, b: &Vec<char>) -> (r: bool)
    ensures
        r == (a@ == b@),
{
    if a.len() != b.len() {
        return false;
    }
    let mut i: usize = 0;
    while i < a.len()
        invariant
            a@.len() == b@.len(),
            i <= a@.len(),
            forall|k: int| 0 <= k < i ==> a@[k] == b@[k],
        decreases a@.len() - i,
    {
        if a[i] != b[i] {
            return false;
        }
        i = i + 1;
    }
    assert(a@ =~= b@);
    true
}

/// A copy of a character vector.
pub fn copy_chars(a: &Vec<char>) -> (r: Vec<char>)
    ensures
        r@ == a@,
{
    let mut r: Vec<char> = Vec::new();
    push_all(&mut r, a);
    assert(r@ =~= a@);
    r
}


/// The lines that are not blank, in order.
pub open spec fn nonblank(lines: Seq<Seq<char>>) -> Seq<Seq<char>>
    decreases lines.len(),
{
    if lines.len() == 0 {
        seq![]
    } else {
        nonblank(lines.drop_last()) + if is_blank(lines.last()) {
            seq![]
        } else {
            seq![lines.last()]
        }
    }
}

/// The lines of `text` that are not blank, as they stand (`lines().filter(|l| !l.trim().is_empty())`).
pub fn nonblank_lines(text: &Vec<char>) -> (r: Vec<Vec<char>>)
    ensures
        views(r@) == nonblank(split_lines(text@)),
{
    let lines = lines_of(text);
    let mut out: Vec<Vec<char>> = Vec::new();
    let mut i: usize = 0;
    while i < lines.len()
        invariant
            i <= lines@.len(),
            views(lines@) == split_lines(text@),
            views(out@) == nonblank(views(lines@).take(i as int)),
        decreases lines@.len() - i,
    {
        let ghost prev = views(out@);
        assert(views(lines@).take(i + 1).drop_last() =~= views(lines@).take(i as int));
        assert(views(lines@).take(i + 1).last() == lines@[i as int]@);
        if !blank(&lines[i]) {
            let l = copy_chars(&lines[i]);
            let ghost lv = l@;
            out.push(l);
            assert(views(out@) =~= prev.push(lv));
        } else {
            assert(views(out@) =~= prev);
        }
        i = i + 1;
    }
    assert(views(lines@).take(lines@.len() as int) =~= views(lines@));
    out
}


/// Two string slices hold the same text.
pub fn same_text(a: &str, b: &str) -> (r: bool)
    ensures
        r == (a@ == b@),
{
    same_chars(&chars_of(a), &chars_of(b))
}

/// A copy of a vector of strings.
pub fn copy_strings(v: &Vec<String>) -> (r: Vec<String>)
    ensures
        r@ == v@,
{
    let mut r: Vec<String> = Vec::new();
    let mut i: usize = 0;
    while i < v.len()
        invariant
            i <= v@.len(),
            r@ == v@.take(i as int),
        decreases v@.len() - i,
    {
        r.push(v[i].clone());
        i = i + 1;
        assert(r@ =~= v@.take(i as int));
    }
    assert(v@.take(v@.len() as int) =~= v@);
    r
}

} // verus!
