//! Character-level text utilities: conversion between strings and
//! character vectors, whitespace and line splitting, and unsigned
//! integer parsing and formatting.

use vstd::prelude::*;

verus! {

/// Calls `String::push`. Trusted: afterwards the string holds its former
/// characters followed by `c`.
#[verifier::external_body]
pub(crate) fn push_char(s: &mut String, c: char)
    ensures
        final(s)@ == old(s)@.push(c),
{
    s.push(c);
}

/// The characters of a string slice, in order.
pub fn chars_of(s: &str) -> (r: Vec<char>)
    ensures
        r@ == s@,
{
    let mut r: Vec<char> = Vec::new();
    for c in it: s.chars()
        invariant
            r@ == it.seq().take(it.index() as int),
    {
        r.push(c);
    }
    r
}

/// Builds a string from a sequence of characters.
pub fn string_of(cs: &[char]) -> (r: String)
    ensures
        r@ == cs@,
{
    let mut r = String::new();
    let mut i: usize = 0;
    while i < cs.len()
        invariant
            i <= cs@.len(),
            r@ == cs@.take(i as int),
        decreases cs@.len() - i,
    {
        push_char(&mut r, cs[i]);
        i = i + 1;
        assert(r@ =~= cs@.take(i as int));
    }
    assert(cs@.take(cs@.len() as int) =~= cs@);
    r
}


/// Unicode `White_Space` characters, as `char::is_whitespace` defines them.
pub open spec fn is_space(c: char) -> bool {
    let u = c as u32;
    ||| 0x09 <= u <= 0x0d
    ||| u == 0x20
    ||| u == 0x85
    ||| u == 0xa0
    ||| u == 0x1680
    ||| 0x2000 <= u <= 0x200a
    ||| u == 0x2028
    ||| u == 0x2029
    ||| u == 0x202f
    ||| u == 0x205f
    ||| u == 0x3000
}

/// Whether `c` is a Unicode whitespace character.
pub fn is_space_char(c: char) -> (b: bool)
    ensures
        b == is_space(c),
{
    let u = c as u32;
    (0x09 <= u && u <= 0x0d) || u == 0x20 || u == 0x85 || u == 0xa0 || u == 0x1680 || (0x2000
        <= u && u <= 0x200a) || u == 0x2028 || u == 0x2029 || u == 0x202f || u == 0x205f || u
        == 0x3000
}

/// Scanning state after reading `s` for whitespace splitting: the finished
/// words and the word being read.
pub open spec fn words_state(s: Seq<char>) -> (Seq<Seq<char>>, Seq<char>)
    decreases s.len(),
{
    if s.len() == 0 {
        (seq![], seq![])
    } else {
        let (done, cur) = words_state(s.drop_last());
        let c = s.last();
        if is_space(c) {
            if cur.len() > 0 {
                (done.push(cur), seq![])
            } else {
                (done, cur)
            }
        } else {
            (done, cur.push(c))
        }
    }
}

/// The maximal runs of non-whitespace characters of `s`, in order
/// (`str::split_whitespace`).
pub open spec fn words(s: Seq<char>) -> Seq<Seq<char>> {
    let (done, cur) = words_state(s);
    if cur.len() > 0 {
        done.push(cur)
    } else {
        done
    }
}

/// The Unicode `White_Space` characters, written out.
pub open spec fn listed_white_space(c: char) -> bool {
    ||| c == '\t' || c == '\n' || c == '\u{0B}' || c == '\u{0C}' || c == '\r' || c == ' '
    ||| c == '\u{85}' || c == '\u{A0}' || c == '\u{1680}'
    ||| c == '\u{2000}' || c == '\u{2001}' || c == '\u{2002}' || c == '\u{2003}' || c == '\u{2004}'
    ||| c == '\u{2005}' || c == '\u{2006}' || c == '\u{2007}' || c == '\u{2008}' || c == '\u{2009}'
    ||| c == '\u{200A}' || c == '\u{2028}' || c == '\u{2029}' || c == '\u{202F}' || c == '\u{205F}'
    ||| c == '\u{3000}'
}

/// Word splitting separates at exactly the Unicode `White_Space`
/// characters: tab, line feed, vertical tab, form feed, carriage return,
/// space, next line, no-break space, ogham space mark, the spaces U+2000 to
/// U+200A, line and paragraph separators, narrow no-break space, medium
/// mathematical space and ideographic space.
pub proof fn law_white_space_characters(c: char)
    ensures
        is_space(c) == listed_white_space(c),
{
    broadcast use vstd::utf8::char_u32_cast;

    let u = c as u32;
    assert((u as char) == c);
}

/// The state of word splitting holds only non-empty finished words, and no
/// character of a finished word or of the word being read is whitespace.
proof fn lemma_words_state_clean(s: Seq<char>)
    ensures
        forall|i: int| 0 <= i < words_state(s).0.len() ==> #[trigger] words_state(s).0[i].len() > 0,
        forall|i: int, j: int|
            0 <= i < words_state(s).0.len() && 0 <= j < words_state(s).0[i].len() ==> !is_space(
                #[trigger] words_state(s).0[i][j],
            ),
        forall|j: int| 0 <= j < words_state(s).1.len() ==> !is_space(#[trigger] words_state(s).1[j]),
    decreases s.len(),
{
    if s.len() > 0 {
        lemma_words_state_clean(s.drop_last());
        let (d, cur) = words_state(s.drop_last());
        let c = s.last();
        if is_space(c) && cur.len() > 0 {
            let nd = d.push(cur);
            assert(words_state(s).0 == nd);
            assert forall|i: int| 0 <= i < nd.len() implies #[trigger] nd[i].len() > 0 by {
                if i < d.len() {
                    assert(nd[i] == d[i]);
                }
            }
            assert forall|i: int, j: int| 0 <= i < nd.len() && 0 <= j < nd[i].len() implies !is_space(
                #[trigger] nd[i][j],
            ) by {
                if i < d.len() {
                    assert(nd[i] == d[i]);
                } else {
                    assert(nd[i] == cur);
                }
            }
        } else if !is_space(c) {
            assert(words_state(s).1 == cur.push(c));
            assert forall|j: int| 0 <= j < cur.push(c).len() implies !is_space(#[trigger] cur.push(c)[j]) by {
                if j < cur.len() {
                    assert(cur.push(c)[j] == cur[j]);
                }
            }
        }
    }
}

/// No word is empty and no word holds a whitespace character; in
/// particular no word holds a tab, a line feed or a space.
pub proof fn law_words_hold_no_white_space(s: Seq<char>)
    ensures
        forall|i: int| 0 <= i < words(s).len() ==> #[trigger] words(s)[i].len() > 0,
        forall|i: int, j: int|
            0 <= i < words(s).len() && 0 <= j < words(s)[i].len() ==> !listed_white_space(
                #[trigger] words(s)[i][j],
            ),
{
    lemma_words_state_clean(s);
    assert forall|i: int, j: int| 0 <= i < words(s).len() && 0 <= j < words(s)[i].len() implies !listed_white_space(
        #[trigger] words(s)[i][j],
    ) by {
        law_white_space_characters(words(s)[i][j]);
        let (done, cur) = words_state(s);
        if i < done.len() {
            assert(words(s)[i] == done[i]);
        } else {
            assert(words(s)[i] == cur);
        }
    }
    assert forall|i: int| 0 <= i < words(s).len() implies #[trigger] words(s)[i].len() > 0 by {
        let (done, cur) = words_state(s);
        if i < done.len() {
            assert(words(s)[i] == done[i]);
        }
    }
}

/// Reading more text after a whitespace character adds the words of that
/// text to the finished words.
proof fn lemma_words_state_after(p: Seq<char>, b: Seq<char>)
    requires
        words_state(p).1.len() == 0,
    ensures
        words_state(p + b) == (words_state(p).0 + words_state(b).0, words_state(b).1),
    decreases b.len(),
{
    if b.len() == 0 {
        assert(p + b =~= p);
        assert(words_state(p).0 + words_state(b).0 =~= words_state(p).0);
        assert(words_state(p).1 =~= words_state(b).1);
    } else {
        lemma_words_state_after(p, b.drop_last());
        assert((p + b).drop_last() =~= p + b.drop_last());
        assert((p + b).last() == b.last());
        let (d0, c0) = words_state(b.drop_last());
        assert((words_state(p).0 + d0).push(c0) =~= words_state(p).0 + d0.push(c0));
    }
}

/// A whitespace character splits: the words of `a`, a whitespace character
/// and `b` are the words of `a` followed by the words of `b`.
pub proof fn law_words_split_at_white_space(a: Seq<char>, c: char, b: Seq<char>)
    requires
        listed_white_space(c),
    ensures
        words(a + seq![c] + b) == words(a) + words(b),
{
    law_white_space_characters(c);
    let p = a + seq![c];
    assert(p.drop_last() =~= a);
    assert(p.last() == c);
    assert(words_state(p).0 == words(a));
    lemma_words_state_after(p, b);
    let (db, cb) = words_state(b);
    if cb.len() > 0 {
        assert((words(a) + db).push(cb) =~= words(a) + db.push(cb));
    }
}

/// Text without whitespace is a single word.
pub proof fn law_text_without_white_space_is_one_word(s: Seq<char>)
    requires
        s.len() > 0,
        forall|i: int| 0 <= i < s.len() ==> !listed_white_space(#[trigger] s[i]),
    ensures
        words(s) == seq![s],
{
    lemma_unbroken_state(s);
}

/// Reading text without whitespace finishes no word.
proof fn lemma_unbroken_state(s: Seq<char>)
    requires
        forall|i: int| 0 <= i < s.len() ==> !listed_white_space(#[trigger] s[i]),
    ensures
        words_state(s) == (Seq::<Seq<char>>::empty(), s),
    decreases s.len(),
{
    if s.len() > 0 {
        let init = s.drop_last();
        assert forall|i: int| 0 <= i < init.len() implies !listed_white_space(#[trigger] init[i]) by {
            assert(init[i] == s[i]);
        }
        lemma_unbroken_state(init);
        assert(!listed_white_space(s[s.len() - 1]));
        law_white_space_characters(s.last());
        assert(init.push(s.last()) =~= s);
    } else {
        assert(s =~= Seq::<char>::empty());
    }
}

/// The views of a sequence of character vectors.
pub open spec fn views(v: Seq<Vec<char>>) -> Seq<Seq<char>> {
    v.map_values(|x: Vec<char>| x@)
}

/// Splits `s` into its whitespace-separated words.
pub fn split_words(s: &[char]) -> (r: Vec<Vec<char>>)
    ensures
        views(r@) == words(s@),
{
    let mut done: Vec<Vec<char>> = Vec::new();
    let mut cur: Vec<char> = Vec::new();
    let mut i: usize = 0;
    while i < s.len()
        invariant
            i <= s@.len(),
            (views(done@), cur@) == words_state(s@.take(i as int)),
        decreases s@.len() - i,
    {
        let c = s[i];
        assert(s@.take(i + 1).drop_last() =~= s@.take(i as int));
        if is_space_char(c) {
            if cur.len() > 0 {
                let ghost old_done = done@;
                let mut w: Vec<char> = Vec::new();
                std::mem::swap(&mut w, &mut cur);
                done.push(w);
                assert(views(done@) =~= views(old_done).push(w@));
            }
        } else {
            cur.push(c);
        }
        i = i + 1;
    }
    assert(s@.take(s@.len() as int) =~= s@);
    if cur.len() > 0 {
        let ghost old_done = done@;
        done.push(cur);
        assert(views(done@) =~= views(old_done).push(done@.last()@));
    }
    done
}

/// Scanning state after reading `s` for line splitting: the finished lines
/// and the line being read.
pub open spec fn lines_state(s: Seq<char>) -> (Seq<Seq<char>>, Seq<char>)
    decreases s.len(),
{
    if s.len() == 0 {
        (seq![], seq![])
    } else {
        let (done, cur) = lines_state(s.drop_last());
        let c = s.last();
        if c == '\n' {
            (done.push(strip_cr(cur)), seq![])
        } else {
            (done, cur.push(c))
        }
    }
}

/// A line without the carriage return that ends it, if any.
pub open spec fn strip_cr(line: Seq<char>) -> Seq<char> {
    if line.len() > 0 && line.last() == '\r' {
        line.drop_last()
    } else {
        line
    }
}

/// The lines of `s` (`str::lines`): split at `\n` or `\r\n`; a final line
/// ending is optional.
pub open spec fn lines(s: Seq<char>) -> Seq<Seq<char>> {
    let (done, cur) = lines_state(s);
    if cur.len() > 0 {
        done.push(cur)
    } else {
        done
    }
}

/// Splits `s` into its lines.
pub fn split_lines(s: &[char]) -> (r: Vec<Vec<char>>)
    ensures
        views(r@) == lines(s@),
{
    let mut done: Vec<Vec<char>> = Vec::new();
    let mut cur: Vec<char> = Vec::new();
    let mut i: usize = 0;
    while i < s.len()
        invariant
            i <= s@.len(),
            (views(done@), cur@) == lines_state(s@.take(i as int)),
        decreases s@.len() - i,
    {
        let c = s[i];
        assert(s@.take(i + 1).drop_last() =~= s@.take(i as int));
        if c == '\n' {
            let ghost old_done = done@;
            let ghost old_cur = cur@;
            let mut w: Vec<char> = Vec::new();
            std::mem::swap(&mut w, &mut cur);
            if w.len() > 0 && w[w.len() - 1] == '\r' {
                w.pop();
            }
            assert(w@ =~= strip_cr(old_cur));
            done.push(w);
            assert(views(done@) =~= views(old_done).push(strip_cr(old_cur)));
        } else {
            cur.push(c);
        }
        i = i + 1;
    }
    assert(s@.take(s@.len() as int) =~= s@);
    if cur.len() > 0 {
        let ghost old_done = done@;
        done.push(cur);
        assert(views(done@) =~= views(old_done).push(done@.last()@));
    }
    done
}


/// The parts joined with `sep` between consecutive parts (`join`).
pub open spec fn join(parts: Seq<Seq<char>>, sep: Seq<char>) -> Seq<char>
    decreases parts.len(),
{
    if parts.len() == 0 {
        seq![]
    } else if parts.len() == 1 {
        parts[0]
    } else {
        join(parts.drop_last(), sep) + sep + parts.last()
    }
}

/// Appends the characters of `s` to `out`.
pub fn push_str(out: &mut Vec<char>, s: &str)
    ensures
        final(out)@ == old(out)@ + s@,
{
    let cs = chars_of(s);
    let mut i: usize = 0;
    while i < cs.len()
        invariant
            i <= cs@.len(),
            cs@ == s@,
            out@ == old(out)@ + cs@.take(i as int),
        decreases cs@.len() - i,
    {
        out.push(cs[i]);
        i = i + 1;
        assert(out@ =~= old(out)@ + cs@.take(i as int));
    }
    assert(cs@.take(cs@.len() as int) =~= cs@);
}


/// `i` is the first position of `c` in `s`.
pub open spec fn first_at(s: Seq<char>, c: char, i: int) -> bool {
    0 <= i < s.len() && s[i] == c && forall|j: int| 0 <= j < i ==> s[j] != c
}

/// The parts of `s` before and after the first `c` (`str::split_once`).
pub open spec fn split_once(s: Seq<char>, c: char) -> Option<(Seq<char>, Seq<char>)> {
    if exists|i: int| first_at(s, c, i) {
        let i = choose|i: int| first_at(s, c, i);
        Some((s.take(i), s.skip(i + 1)))
    } else {
        None
    }
}

/// Splits `s` at the first `c`.
pub fn split_once_at(s: &[char], c: char) -> (r: Option<(Vec<char>, Vec<char>)>)
    ensures
        match r {
            None => split_once(s@, c) is None,
            Some((a, b)) => split_once(s@, c) == Some((a@, b@)),
        },
{
    let mut i: usize = 0;
    while i < s.len()
        invariant
            i <= s@.len(),
            forall|j: int| 0 <= j < i ==> s@[j] != c,
        decreases s@.len() - i,
    {
        if s[i] == c {
            let mut a: Vec<char> = Vec::new();
            let mut k: usize = 0;
            while k < i
                invariant
                    k <= i < s@.len(),
                    a@ == s@.take(k as int),
                decreases i - k,
            {
                a.push(s[k]);
                k = k + 1;
                assert(a@ =~= s@.take(k as int));
            }
            let mut b: Vec<char> = Vec::new();
            let mut m: usize = i + 1;
            while m < s.len()
                invariant
                    i + 1 <= m <= s@.len(),
                    b@ == s@.subrange(i + 1, m as int),
                decreases s@.len() - m,
            {
                b.push(s[m]);
                m = m + 1;
                assert(b@ =~= s@.subrange(i + 1, m as int));
            }
            assert(b@ =~= s@.skip(i + 1));
            assert(first_at(s@, c, i as int));
            let ghost i2 = choose|i2: int| first_at(s@, c, i2);
            assert(i2 == i);
            return Some((a, b));
        }
        i = i + 1;
    }
    assert(forall|j: int| !first_at(s@, c, j));
    None
}

/// Joins the parts of `parts` from index `from` with `sep` between them.
pub fn join_from(parts: &Vec<Vec<char>>, from: usize, sep: char) -> (r: Vec<char>)
    requires
        from <= parts@.len(),
    ensures
        r@ == join(views(parts@).skip(from as int), seq![sep]),
{
    let ghost ps = views(parts@).skip(from as int);
    let mut r: Vec<char> = Vec::new();
    let mut i: usize = from;
    while i < parts.len()
        invariant
            from <= i <= parts@.len(),
            ps == views(parts@).skip(from as int),
            r@ == join(ps.take(i - from), seq![sep]),
        decreases parts@.len() - i,
    {
        assert(ps.take(i - from + 1).drop_last() =~= ps.take(i - from));
        assert(ps[i - from] == parts@[i as int]@);
        if i > from {
            r.push(sep);
        }
        let part = &parts[i];
        let ghost before = r@;
        let mut k: usize = 0;
        while k < part.len()
            invariant
                k <= part@.len(),
                r@ == before + part@.take(k as int),
            decreases part@.len() - k,
        {
            r.push(part[k]);
            k = k + 1;
            assert(r@ =~= before + part@.take(k as int));
        }
        assert(part@.take(part@.len() as int) =~= part@);
        if i == from {
            assert(r@ =~= join(ps.take(1), seq![sep]));
        } else {
            assert(r@ =~= join(ps.take(i - from + 1), seq![sep]));
        }
        i = i + 1;
    }
    assert(ps.take(ps.len() as int) =~= ps);
    r
}

} // verus!
