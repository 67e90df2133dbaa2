//! Character-level text operations that the query logic is built from.
//!
//! Text is modelled by its character sequence (`Seq<char>`): a `String` or a
//! `&str` by its view `@`, and a `Vec<String>` by its deep view.
use vstd::prelude::*;

verus! {

// ── Classifications that std decides from Unicode tables ─────────────────────

/// Whether `char::is_whitespace` holds of `c`: the Unicode `White_Space`
/// property, `\t` to `\r`, space, U+0085, U+00A0, U+1680, U+2000 to U+200A,
/// U+2028, U+2029, U+202F, U+205F and U+3000.
pub open spec fn unicode_white_space(c: char) -> bool {
    let n = c as u32;
    (9 <= n <= 13) || n == 0x20 || n == 0x85 || n == 0xA0 || n == 0x1680 || (0x2000 <= n <= 0x200A)
        || n == 0x2028 || n == 0x2029 || n == 0x202F || n == 0x205F || n == 0x3000
}

/// Whether `char::is_alphanumeric` holds of `c` (Unicode `Alphabetic` or `Numeric`).
pub uninterp spec fn unicode_alphanumeric(c: char) -> bool;

/// The characters that `str::to_lowercase` gives back for `s`.
pub uninterp spec fn unicode_lowercase(s: Seq<char>) -> Seq<char>;

/// The ASCII letters and digits.
pub open spec fn is_ascii_alphanumeric(c: char) -> bool {
    ('a' <= c && c <= 'z') || ('A' <= c && c <= 'Z') || ('0' <= c && c <= '9')
}

/// The ASCII characters that std counts as whitespace: space and `\t` to `\r`.
pub open spec fn is_ascii_white_space(c: char) -> bool {
    c == ' ' || ('\t' <= c && c <= '\r')
}

/// `c` with an ASCII capital made small.
pub open spec fn ascii_lower(c: char) -> char {
    if 'A' <= c && c <= 'Z' { (((c as u32) + 32) as u8) as char } else { c }
}

/// `c` with an ASCII small letter made capital.
pub open spec fn ascii_upper(c: char) -> char {
    if 'a' <= c && c <= 'z' { (((c as u32) - 32) as u8) as char } else { c }
}

/// Every character of `s` is ASCII.
pub open spec fn all_ascii(s: Seq<char>) -> bool {
    forall|i: int| 0 <= i < s.len() ==> (#[trigger] s[i]) <= '\x7f'
}

/// Whether `c` has the Unicode `White_Space` property (as `char::is_whitespace`
/// decides it), tested on the code points that `unicode_white_space` lists; for
/// ASCII that is space and `\t` to `\r`.
pub(crate) fn char_is_whitespace(c: char) -> (r: bool)
    ensures
        r == unicode_white_space(c),
        c <= '\x7f' ==> (r <==> is_ascii_white_space(c)),
{
    let n = c as u32;
    (9 <= n && n <= 13) || n == 0x20 || n == 0x85 || n == 0xA0 || n == 0x1680 || (0x2000 <= n
        && n <= 0x200A) || n == 0x2028 || n == 0x2029 || n == 0x202F || n == 0x205F || n == 0x3000
}

/// `char::is_alphanumeric`. Outside ASCII the answer is the name
/// `unicode_alphanumeric`; for ASCII std's source accepts exactly the letters
/// and digits, which the contract states.
#[verifier::external_body]
pub(crate) fn char_is_alphanumeric(c: char) -> (r: bool)
    ensures
        r == unicode_alphanumeric(c),
        c <= '\x7f' ==> (r <==> is_ascii_alphanumeric(c)),
{
    c.is_alphanumeric()
}

/// `str::to_lowercase`. Its result is named `unicode_lowercase`; for an
/// all-ASCII string std's source lowercases character by character, which the
/// contract states. Nothing is stated of other strings.
#[verifier::external_body]
pub(crate) fn str_to_lowercase(s: &str) -> (r: String)
    ensures
        r@ == unicode_lowercase(s@),
        all_ascii(s@) ==> r@ == s@.map_values(|c: char| ascii_lower(c)),
{
    s.to_lowercase()
}

/// `String::push`: appends one character.
#[verifier::external_body]
pub(crate) fn string_push(s: &mut String, c: char)
    ensures
        final(s)@ == old(s)@.push(c),
{
    s.push(c)
}

// ── Conversions ──────────────────────────────────────────────────────────────

/// The characters of a string slice, in order.
pub fn chars_of(s: &str) -> (v: Vec<char>)
    ensures
        v@ == s@,
{
    let mut v: Vec<char> = Vec::new();
    for c in it: s.chars()
        invariant
            v@ == it.seq().take(it.index() as int),
            it.seq() == s@,
    {
        v.push(c);
    }
    v
}

/// A string made of the given characters (all of `v[from..to]`).
pub fn string_from_range(v: &Vec<char>, from: usize, to: usize) -> (s: String)
    requires
        from <= to <= v.len(),
    ensures
        s@ == v@.subrange(from as int, to as int),
{
    let mut s = String::new();
    let mut i = from;
    while i < to
        invariant
            from <= i <= to <= v.len(),
            s@ == v@.subrange(from as int, i as int),
        decreases to - i,
    {
        string_push(&mut s, v[i]);
        i = i + 1;
        assert(s@ =~= v@.subrange(from as int, i as int));
    }
    s
}

/// A string made of the given characters.
pub fn string_from_chars(v: &Vec<char>) -> (s: String)
    ensures
        s@ == v@,
{
    let s = string_from_range(v, 0, v.len());
    assert(v@.subrange(0, v@.len() as int) =~= v@);
    s
}

/// Appends every character of `t` to `s`.
pub fn push_all(s: &mut String, t: &str)
    ensures
        final(s)@ == old(s)@ + t@,
{
    let v = chars_of(t);
    let mut i: usize = 0;
    while i < v.len()
        invariant
            i <= v.len(),
            v@ == t@,
            s@ == old(s)@ + t@.take(i as int),
        decreases v.len() - i,
    {
        string_push(s, v[i]);
        i = i + 1;
        assert(s@ =~= old(s)@ + t@.take(i as int));
    }
    assert(t@.take(v.len() as int) =~= t@);
}

// ── Joining ──────────────────────────────────────────────────────────────────

/// The pieces with `sep` between each two neighbours (`[T]::join`).
pub open spec fn join(parts: Seq<Seq<char>>, sep: Seq<char>) -> Seq<char>
    decreases parts.len(),
{
    if parts.len() == 0 {
        Seq::empty()
    } else if parts.len() == 1 {
        parts[0]
    } else {
        join(parts.drop_last(), sep) + sep + parts.last()
    }
}

/// `parts.join(sep)`.
pub fn join_strings(parts: &Vec<String>, sep: &str) -> (s: String)
    ensures
        s@ == join(parts.deep_view(), sep@),
{
    let ghost views = parts.deep_view();
    let mut s = String::new();
    let mut i: usize = 0;
    while i < parts.len()
        invariant
            i <= parts.len(),
            views == parts.deep_view(),
            views.len() == parts.len(),
            s@ == join(views.take(i as int), sep@),
        decreases parts.len() - i,
    {
        assert(views[i as int] == parts[i as int]@);
        if i != 0 {
            push_all(&mut s, sep);
        }
        push_all(&mut s, parts[i].as_str());
        assert(views.take((i + 1) as int).drop_last() =~= views.take(i as int));
        i = i + 1;
    }
    assert(views.take(parts.len() as int) =~= views);
    s
}

// ── Whitespace ───────────────────────────────────────────────────────────────

/// `s` without its leading whitespace.
pub open spec fn trim_start(s: Seq<char>) -> Seq<char>
    decreases s.len(),
{
    if s.len() > 0 && unicode_white_space(s[0]) {
        trim_start(s.drop_first())
    } else {
        s
    }
}

/// `s` without its trailing whitespace.
pub open spec fn trim_end(s: Seq<char>) -> Seq<char>
    decreases s.len(),
{
    if s.len() > 0 && unicode_white_space(s.last()) {
        trim_end(s.drop_last())
    } else {
        s
    }
}

/// `str::trim`: `s` without leading and trailing whitespace.
pub open spec fn trim(s: Seq<char>) -> Seq<char> {
    trim_end(trim_start(s))
}

/// Every character of `s` is whitespace.
pub open spec fn all_white(s: Seq<char>) -> bool {
    forall|i: int| 0 <= i < s.len() ==> unicode_white_space(#[trigger] s[i])
}

/// Leading whitespace up to `i` does not change what trimming the start gives.
proof fn lemma_trim_start_skip(s: Seq<char>, i: int)
    requires
        0 <= i <= s.len(),
        all_white(s.take(i)),
    ensures
        trim_start(s) == trim_start(s.skip(i)),
    decreases i,
{
    if i > 0 {
        assert(unicode_white_space(s.take(i)[0]));
        assert(s.drop_first().take(i - 1) =~= s.take(i).drop_first());
        assert(all_white(s.drop_first().take(i - 1))) by {
            assert forall|k: int| 0 <= k < i - 1 implies unicode_white_space(
                #[trigger] s.drop_first().take(i - 1)[k],
            ) by {
                assert(s.drop_first().take(i - 1)[k] == s.take(i)[k + 1]);
            }
        }
        lemma_trim_start_skip(s.drop_first(), i - 1);
        assert(s.drop_first().skip(i - 1) =~= s.skip(i));
    } else {
        assert(s.skip(0) =~= s);
    }
}

/// Trailing whitespace from `j` on does not change what trimming the end gives.
proof fn lemma_trim_end_take(s: Seq<char>, j: int)
    requires
        0 <= j <= s.len(),
        all_white(s.skip(j)),
    ensures
        trim_end(s) == trim_end(s.take(j)),
    decreases s.len() - j,
{
    if j < s.len() {
        assert(s.skip(j)[s.len() - j - 1] == s.last());
        assert(unicode_white_space(s.last()));
        assert(all_white(s.drop_last().skip(j))) by {
            assert forall|k: int| 0 <= k < s.drop_last().skip(j).len() implies unicode_white_space(
                #[trigger] s.drop_last().skip(j)[k],
            ) by {
                assert(s.drop_last().skip(j)[k] == s.skip(j)[k]);
            }
        }
        lemma_trim_end_take(s.drop_last(), j);
        assert(s.drop_last().take(j) =~= s.take(j));
    } else {
        assert(s.take(j) =~= s);
    }
}

/// The bounds `(start, end)` of the part of `v` that `str::trim` keeps.
pub fn trim_bounds(v: &Vec<char>) -> (r: (usize, usize))
    ensures
        r.0 <= r.1 <= v.len(),
        v@.subrange(r.0 as int, r.1 as int) == trim(v@),
{
    let mut i: usize = 0;
    while i < v.len() && char_is_whitespace(v[i])
        invariant
            i <= v.len(),
            all_white(v@.take(i as int)),
        decreases v.len() - i,
    {
        i = i + 1;
        assert(all_white(v@.take(i as int))) by {
            assert forall|k: int| 0 <= k < i implies unicode_white_space(
                #[trigger] v@.take(i as int)[k],
            ) by {
                if k < i - 1 {
                    assert(v@.take(i as int)[k] == v@.take(i - 1)[k]);
                }
            }
        }
    }
    proof {
        lemma_trim_start_skip(v@, i as int);
    }
    let ghost rest = v@.skip(i as int);
    proof {
        if rest.len() > 0 {
            assert(rest[0] == v@[i as int]);
        }
    }
    assert(trim_start(v@) == rest);
    let mut j: usize = v.len();
    while j > i && char_is_whitespace(v[j - 1])
        invariant
            i <= j <= v.len(),
            rest == v@.skip(i as int),
            all_white(rest.skip(j - i)),
        decreases j,
    {
        j = j - 1;
        assert(all_white(rest.skip(j - i))) by {
            assert forall|k: int| 0 <= k < rest.skip(j - i).len() implies unicode_white_space(
                #[trigger] rest.skip(j - i)[k],
            ) by {
                if k > 0 {
                    assert(rest.skip(j - i)[k] == rest.skip(j - i + 1)[k - 1]);
                } else {
                    assert(rest.skip(j - i)[k] == v@[j as int]);
                }
            }
        }
    }
    proof {
        lemma_trim_end_take(rest, j - i);
        let t = rest.take(j - i);
        if t.len() > 0 {
            assert(t.last() == v@[j - 1]);
        }
        assert(trim_end(t) == t);
        assert(t =~= v@.subrange(i as int, j as int));
    }
    (i, j)
}

/// `s.trim()` as an owned string.
pub fn trim_string(s: &str) -> (r: String)
    ensures
        r@ == trim(s@),
{
    let v = chars_of(s);
    let (a, b) = trim_bounds(&v);
    string_from_range(&v, a, b)
}

/// `s.trim().is_empty()`.
pub fn is_blank(s: &str) -> (r: bool)
    ensures
        r == (trim(s@).len() == 0),
{
    let v = chars_of(s);
    let (a, b) = trim_bounds(&v);
    a == b
}


// ── Words ────────────────────────────────────────────────────────────────────

/// The maximal runs of non-whitespace characters of `s`, in order
/// (`str::split_whitespace`).
pub open spec fn words(s: Seq<char>) -> Seq<Seq<char>>
    decreases s.len(),
{
    if s.len() == 0 {
        Seq::empty()
    } else {
        let w = words(s.drop_last());
        let c = s.last();
        if unicode_white_space(c) {
            w
        } else if s.len() >= 2 && !unicode_white_space(s[s.len() - 2]) {
            w.update(w.len() - 1, w.last().push(c))
        } else {
            w.push(seq![c])
        }
    }
}

/// `s.split_whitespace().collect::<Vec<_>>().join(" ")`: the words of `s`
/// separated by single spaces.
pub open spec fn normalize_space(s: Seq<char>) -> Seq<char> {
    join(words(s), seq![' '])
}

/// Joining one more piece adds the separator and the piece.
pub(crate) proof fn lemma_join_push(w: Seq<Seq<char>>, x: Seq<char>, sep: Seq<char>)
    requires
        w.len() >= 1,
    ensures
        join(w.push(x), sep) == join(w, sep) + sep + x,
{
    assert(w.push(x).drop_last() =~= w);
}

/// A character added to the last piece is added to the joined text.
pub(crate) proof fn lemma_join_extend_last(w: Seq<Seq<char>>, c: char, sep: Seq<char>)
    requires
        w.len() >= 1,
    ensures
        join(w.update(w.len() - 1, w.last().push(c)), sep) == join(w, sep).push(c),
{
    let u = w.update(w.len() - 1, w.last().push(c));
    if w.len() >= 2 {
        assert(u.drop_last() =~= w.drop_last());
        assert(join(u, sep) =~= join(w, sep).push(c));
    }
}

/// The words of `v` joined by single spaces.
pub fn normalize_whitespace(v: &Vec<char>) -> (out: Vec<char>)
    ensures
        out@ == normalize_space(v@),
{
    let mut out: Vec<char> = Vec::new();
    let mut in_word = false;
    let mut has_word = false;
    let mut i: usize = 0;
    while i < v.len()
        invariant
            i <= v.len(),
            out@ == join(words(v@.take(i as int)), seq![' ']),
            in_word == (i > 0 && !unicode_white_space(v@[i - 1])),
            has_word == (words(v@.take(i as int)).len() > 0),
            in_word ==> has_word,
        decreases v.len() - i,
    {
        let c = v[i];
        let ghost pre = v@.take(i as int);
        let ghost cur = v@.take(i + 1);
        assert(cur.drop_last() =~= pre);
        assert(cur.last() == c);
        if char_is_whitespace(c) {
            in_word = false;
        } else {
            if in_word {
                proof {
                    lemma_join_extend_last(words(pre), c, seq![' ']);
                }
                out.push(c);
            } else {
                if has_word {
                    proof {
                        lemma_join_push(words(pre), seq![c], seq![' ']);
                    }
                    out.push(' ');
                    out.push(c);
                    assert(out@ =~= join(words(pre), seq![' ']) + seq![' '] + seq![c]);
                } else {
                    assert(words(pre).push(seq![c]) =~= seq![seq![c]]);
                    out.push(c);
                    assert(out@ =~= seq![c]);
                }
            }
            in_word = true;
            has_word = true;
        }
        i = i + 1;
    }
    assert(v@.take(v.len() as int) =~= v@);
    out
}

/// `char::to_ascii_uppercase` on every character.
pub fn ascii_uppercase(v: &Vec<char>) -> (out: Vec<char>)
    ensures
        out@ == v@.map_values(|c: char| ascii_upper(c)),
{
    let mut out: Vec<char> = Vec::new();
    let mut i: usize = 0;
    while i < v.len()
        invariant
            i <= v.len(),
            out@ == v@.take(i as int).map_values(|c: char| ascii_upper(c)),
        decreases v.len() - i,
    {
        let c = v[i];
        let u = if 'a' <= c && c <= 'z' {
            (((c as u32) - 32) as u8) as char
        } else {
            c
        };
        out.push(u);
        i = i + 1;
        assert(out@ =~= v@.take(i as int).map_values(|c: char| ascii_upper(c)));
    }
    assert(v@.take(v.len() as int) =~= v@);
    out
}

// ── Searching ────────────────────────────────────────────────────────────────

/// `p` occurs in `h` at position `i`.
pub open spec fn matches_at(h: Seq<char>, p: Seq<char>, i: int) -> bool {
    0 <= i && i + p.len() <= h.len() && h.subrange(i, i + p.len()) == p
}

/// The first position at or after `from` where `p` occurs in `h` (`str::find`).
pub open spec fn find_from(h: Seq<char>, p: Seq<char>, from: int) -> Option<int>
    decreases h.len() + 1 - from,
{
    if from < 0 || from + p.len() > h.len() {
        None
    } else if matches_at(h, p, from) {
        Some(from)
    } else {
        find_from(h, p, from + 1)
    }
}

/// What `find_from` gives back: the first occurrence, or none at all.
pub proof fn lemma_find_from(h: Seq<char>, p: Seq<char>, from: int)
    requires
        0 <= from,
    ensures
        match find_from(h, p, from) {
            Some(k) => from <= k && matches_at(h, p, k) && forall|j: int|
                from <= j < k ==> !#[trigger] matches_at(h, p, j),
            None => forall|j: int| from <= j ==> !#[trigger] matches_at(h, p, j),
        },
    decreases h.len() + 1 - from,
{
    if from + p.len() > h.len() {
    } else if matches_at(h, p, from) {
    } else {
        lemma_find_from(h, p, from + 1);
    }
}

/// Whether `p` occurs in `h` at position `i`.
pub fn matches_at_exec(h: &Vec<char>, p: &Vec<char>, i: usize) -> (r: bool)
    ensures
        r == matches_at(h@, p@, i as int),
{
    if i > h.len() || p.len() > h.len() - i {
        return false;
    }
    let mut k: usize = 0;
    while k < p.len()
        invariant
            i + p.len() <= h.len(),
            k <= p.len(),
            forall|j: int| 0 <= j < k ==> h@[i + j] == p@[j],
        decreases p.len() - k,
    {
        if h[i + k] != p[k] {
            assert(h@.subrange(i as int, i + p.len())[k as int] != p@[k as int]);
            return false;
        }
        k = k + 1;
    }
    assert(h@.subrange(i as int, i + p.len()) =~= p@);
    true
}

/// The first position at or after `from` where `p` occurs in `h`.
pub fn find_exec(h: &Vec<char>, p: &Vec<char>, from: usize) -> (r: Option<usize>)
    ensures
        match r {
            Some(k) => find_from(h@, p@, from as int) == Some(k as int),
            None => find_from(h@, p@, from as int) is None,
        },
{
    let mut i = from;
    while i <= h.len() && p.len() <= h.len() - i
        invariant
            from <= i,
            find_from(h@, p@, from as int) == find_from(h@, p@, i as int),
        decreases h.len() + 1 - i,
    {
        if matches_at_exec(h, p, i) {
            return Some(i);
        }
        if i == h.len() {
            assert(find_from(h@, p@, i + 1) is None);
            return None;
        }
        i = i + 1;
    }
    None
}

/// `c` occurs in `s`.
pub open spec fn has_char(s: Seq<char>, c: char) -> bool {
    exists|i: int| 0 <= i < s.len() && s[i] == c
}

/// Whether `c` occurs in `v`.
pub fn contains_char(v: &Vec<char>, c: char) -> (r: bool)
    ensures
        r == has_char(v@, c),
{
    let mut i: usize = 0;
    while i < v.len()
        invariant
            i <= v.len(),
            forall|j: int| 0 <= j < i ==> v@[j] != c,
        decreases v.len() - i,
    {
        if v[i] == c {
            return true;
        }
        i = i + 1;
    }
    false
}

// ── Replacing ────────────────────────────────────────────────────────────────

/// `str::replace`: every occurrence of `p` in `s`, taken left to right
/// without overlap, replaced by `r` (for a non-empty `p`).
pub open spec fn replace_all(s: Seq<char>, p: Seq<char>, r: Seq<char>) -> Seq<char>
    decreases s.len(),
{
    if s.len() == 0 || p.len() == 0 {
        s
    } else if matches_at(s, p, 0) {
        r + replace_all(s.skip(p.len() as int), p, r)
    } else {
        seq![s[0]] + replace_all(s.drop_first(), p, r)
    }
}

/// Every occurrence of `p` in `s` replaced by `r`.
pub fn replace_exec(s: &Vec<char>, p: &Vec<char>, r: &Vec<char>) -> (out: Vec<char>)
    requires
        p.len() > 0,
    ensures
        out@ == replace_all(s@, p@, r@),
{
    let mut out: Vec<char> = Vec::new();
    let mut i: usize = 0;
    assert(s@.skip(0) =~= s@);
    while i < s.len()
        invariant
            i <= s.len(),
            p.len() > 0,
            out@ + replace_all(s@.skip(i as int), p@, r@) == replace_all(s@, p@, r@),
        decreases s.len() - i,
    {
        let ghost rest = s@.skip(i as int);
        if matches_at_exec(s, p, i) {
            assert(rest.subrange(0, p.len() as int) =~= s@.subrange(i as int, i + p.len()));
            assert(matches_at(rest, p@, 0));
            assert(rest.skip(p.len() as int) =~= s@.skip(i + p.len()));
            let ghost before = out@;
            let mut k: usize = 0;
            while k < r.len()
                invariant
                    k <= r.len(),
                    out@ == before + r@.take(k as int),
                decreases r.len() - k,
            {
                out.push(r[k]);
                k = k + 1;
                assert(out@ =~= before + r@.take(k as int));
            }
            assert(r@.take(r.len() as int) =~= r@);
            assert(out@ + replace_all(s@.skip(i + p.len()), p@, r@) =~= before + (r@
                + replace_all(rest.skip(p.len() as int), p@, r@)));
            i = i + p.len();
        } else {
            proof {
                if matches_at(rest, p@, 0) {
                    assert(rest.subrange(0, p.len() as int) =~= s@.subrange(i as int, i + p.len()));
                }
            }
            assert(rest.drop_first() =~= s@.skip(i + 1));
            assert(rest[0] == s@[i as int]);
            let ghost before = out@;
            out.push(s[i]);
            assert(out@ + replace_all(s@.skip(i + 1), p@, r@) =~= before + (seq![rest[0]]
                + replace_all(rest.drop_first(), p@, r@)));
            i = i + 1;
        }
    }
    assert(s@.skip(s.len() as int) =~= Seq::<char>::empty());
    assert(out@ + Seq::<char>::empty() =~= out@);
    out
}


// ── Numbers ──────────────────────────────────────────────────────────────────

/// The ASCII digit for `d` (below ten).
pub open spec fn digit_char(d: nat) -> char {
    ((48 + d) as u8) as char
}

/// The decimal notation of `n`, as `usize`'s `Display` writes it.
pub open spec fn decimal(n: nat) -> Seq<char>
    decreases n,
{
    if n < 10 {
        seq![digit_char(n)]
    } else {
        decimal(n / 10).push(digit_char(n % 10))
    }
}

/// The decimal notation of `n`.
pub fn decimal_string(n: usize) -> (s: String)
    ensures
        s@ == decimal(n as nat),
    decreases n,
{
    let d: u8 = (n % 10) as u8;
    let c = (48u8 + d) as char;
    if n < 10 {
        let mut s = String::new();
        string_push(&mut s, c);
        assert(s@ =~= seq![c]);
        s
    } else {
        let mut s = decimal_string(n / 10);
        string_push(&mut s, c);
        s
    }
}


/// `c` is an ASCII digit.
pub open spec fn is_digit(c: char) -> bool {
    '0' <= c <= '9'
}

/// The number that a string of ASCII digits spells.
pub open spec fn digits_value(s: Seq<char>) -> int
    decreases s.len(),
{
    if s.len() == 0 {
        0
    } else {
        digits_value(s.drop_last()) * 10 + (s.last() as int - 48)
    }
}

/// Every character of `d` is an ASCII digit.
pub open spec fn all_digits(d: Seq<char>) -> bool {
    forall|i: int| 0 <= i < d.len() ==> is_digit(#[trigger] d[i])
}

/// `s` without a leading `+`.
pub open spec fn unsigned_part(s: Seq<char>) -> Seq<char> {
    if s.len() > 0 && s[0] == '+' {
        s.skip(1)
    } else {
        s
    }
}

/// What `str::parse::<u16>` gives: an optional `+`, then one or more ASCII
/// digits whose value fits in 16 bits.
pub open spec fn parsed_u16(s: Seq<char>) -> Option<int> {
    let d = unsigned_part(s);
    if d.len() > 0 && all_digits(d) && digits_value(d) <= 65535 {
        Some(digits_value(d))
    } else {
        None
    }
}

/// A longer string of digits spells no smaller a number.
proof fn lemma_digits_value_grows(d: Seq<char>, k: int)
    requires
        0 <= k <= d.len(),
        all_digits(d),
    ensures
        0 <= digits_value(d.take(k)) <= digits_value(d),
    decreases d.len(),
{
    if d.len() > 0 {
        if k == d.len() {
            assert(d.take(k) =~= d);
            lemma_digits_value_grows(d.drop_last(), k - 1);
            assert(d.drop_last().take(k - 1) =~= d.drop_last());
        } else {
            lemma_digits_value_grows(d.drop_last(), k);
            assert(d.drop_last().take(k) =~= d.take(k));
            assert(is_digit(d[d.len() - 1]));
        }
    }
}

/// `s.parse::<u16>()`, as an option.
pub fn parse_u16(s: &str) -> (r: Option<u16>)
    ensures
        match r {
            Some(n) => parsed_u16(s@) == Some(n as int),
            None => parsed_u16(s@) is None,
        },
{
    let v = chars_of(s);
    let mut start: usize = 0;
    if v.len() > 0 && v[0] == '+' {
        start = 1;
    }
    let ghost d = unsigned_part(s@);
    assert(d =~= v@.skip(start as int));
    if start == v.len() {
        return None;
    }
    let mut acc: u32 = 0;
    let mut i: usize = start;
    while i < v.len()
        invariant
            start <= i <= v.len(),
            start < v.len(),
            d == v@.skip(start as int),
            d == unsigned_part(s@),
            v@ == s@,
            acc <= 65535,
            acc == digits_value(d.take(i - start)),
            forall|k: int| 0 <= k < i - start ==> is_digit(#[trigger] d[k]),
        decreases v.len() - i,
    {
        let c = v[i];
        assert(d[i - start] == c);
        assert(d.take(i - start + 1).drop_last() =~= d.take(i - start));
        if !('0' <= c && c <= '9') {
            assert(!is_digit(d[i - start]));
            return None;
        }
        acc = acc * 10 + (c as u32 - 48);
        if acc > 65535 {
            proof {
                if all_digits(d) {
                    lemma_digits_value_grows(d, i - start + 1);
                }
            }
            return None;
        }
        i = i + 1;
    }
    assert(d.take(i - start) =~= d);
    Some(acc as u16)
}

// ── Splitting ────────────────────────────────────────────────────────────────

/// The pieces of `s` between occurrences of `c` (`str::split` on a char):
/// one more piece than there are `c`s, empty pieces included.
pub open spec fn split_on(s: Seq<char>, c: char) -> Seq<Seq<char>>
    decreases s.len(),
{
    if s.len() == 0 {
        seq![Seq::empty()]
    } else {
        let w = split_on(s.drop_last(), c);
        if s.last() == c {
            w.push(Seq::empty())
        } else {
            w.update(w.len() - 1, w.last().push(s.last()))
        }
    }
}

/// `split_on` never gives an empty list.
pub proof fn lemma_split_on_len(s: Seq<char>, c: char)
    ensures
        split_on(s, c).len() >= 1,
    decreases s.len(),
{
    if s.len() > 0 {
        lemma_split_on_len(s.drop_last(), c);
    }
}

/// The pieces of `v` between occurrences of `c`.
pub fn split_exec(v: &Vec<char>, c: char) -> (r: Vec<Vec<char>>)
    ensures
        r@.map_values(|p: Vec<char>| p@) == split_on(v@, c),
{
    let mut pieces: Vec<Vec<char>> = Vec::new();
    let mut cur: Vec<char> = Vec::new();
    let mut i: usize = 0;
    assert(v@.take(0) =~= Seq::<char>::empty());
    assert(pieces@.map_values(|p: Vec<char>| p@).push(cur@) =~= split_on(v@.take(0), c));
    while i < v.len()
        invariant
            i <= v.len(),
            pieces@.map_values(|p: Vec<char>| p@).push(cur@) == split_on(v@.take(i as int), c),
        decreases v.len() - i,
    {
        let ghost pre = v@.take(i as int);
        assert(v@.take(i + 1).drop_last() =~= pre);
        assert(v@.take(i + 1).last() == v@[i as int]);
        proof {
            lemma_split_on_len(pre, c);
        }
        let ghost old_pieces = pieces@.map_values(|p: Vec<char>| p@);
        if v[i] == c {
            let mut fresh: Vec<char> = Vec::new();
            std::mem::swap(&mut fresh, &mut cur);
            pieces.push(fresh);
            assert(pieces@.map_values(|p: Vec<char>| p@) =~= old_pieces.push(fresh@));
            assert(pieces@.map_values(|p: Vec<char>| p@).push(cur@) =~= split_on(pre, c).push(
                Seq::empty(),
            ));
        } else {
            let ghost old_cur = cur@;
            cur.push(v[i]);
            assert(pieces@.map_values(|p: Vec<char>| p@).push(cur@) =~= old_pieces.push(
                old_cur,
            ).update(old_pieces.len() as int, old_cur.push(v@[i as int])));
        }
        i = i + 1;
    }
    assert(v@.take(v.len() as int) =~= v@);
    let ghost before = pieces@.map_values(|p: Vec<char>| p@);
    pieces.push(cur);
    assert(pieces@.map_values(|p: Vec<char>| p@) =~= before.push(cur@));
    pieces
}

// ── Case-insensitive comparison ──────────────────────────────────────────────

/// `str::eq_ignore_ascii_case`.
pub open spec fn eq_ignore_ascii_case(a: Seq<char>, b: Seq<char>) -> bool {
    a.len() == b.len() && forall|i: int| 0 <= i < a.len() ==> ascii_lower(#[trigger] a[i])
        == ascii_lower(b[i])
}

/// `c` with an ASCII capital made small.
fn ascii_lower_char(c: char) -> (r: char)
    ensures
        r == ascii_lower(c),
{
    if 'A' <= c && c <= 'Z' {
        (((c as u32) + 32) as u8) as char
    } else {
        c
    }
}

/// Whether `a` and `b` are equal when ASCII letters are compared without case.
pub fn eq_ignore_case_exec(a: &str, b: &str) -> (r: bool)
    ensures
        r == eq_ignore_ascii_case(a@, b@),
{
    let va = chars_of(a);
    let vb = chars_of(b);
    if va.len() != vb.len() {
        return false;
    }
    let mut i: usize = 0;
    while i < va.len()
        invariant
            i <= va.len() == vb.len(),
            va@ == a@,
            vb@ == b@,
            forall|k: int| 0 <= k < i ==> ascii_lower(#[trigger] a@[k]) == ascii_lower(b@[k]),
        decreases va.len() - i,
    {
        if ascii_lower_char(va[i]) != ascii_lower_char(vb[i]) {
            return false;
        }
        i = i + 1;
    }
    true
}

/// Whether the two strings have the same characters.
pub fn str_eq(a: &str, b: &str) -> (r: bool)
    ensures
        r == (a@ == b@),
{
    let va = chars_of(a);
    let vb = chars_of(b);
    if va.len() != vb.len() {
        return false;
    }
    let mut i: usize = 0;
    while i < va.len()
        invariant
            i <= va.len() == vb.len(),
            va@ == a@,
            vb@ == b@,
            forall|k: int| 0 <= k < i ==> a@[k] == b@[k],
        decreases va.len() - i,
    {
        if va[i] != vb[i] {
            return false;
        }
        i = i + 1;
    }
    assert(a@ =~= b@);
    true
}

/// `s` begins with `p`.
pub open spec fn starts_with(s: Seq<char>, p: Seq<char>) -> bool {
    p.len() <= s.len() && s.take(p.len() as int) == p
}

/// Whether `s` begins with `p` (`str::starts_with`).
pub fn starts_with_exec(s: &str, p: &str) -> (r: bool)
    ensures
        r == starts_with(s@, p@),
{
    let vs = chars_of(s);
    let vp = chars_of(p);
    let r = matches_at_exec(&vs, &vp, 0);
    assert(vs@.subrange(0, vp@.len() as int) =~= vs@.take(vp@.len() as int));
    r
}

/// Whether `s` is one of `list`.
pub fn contains_string(list: &Vec<String>, s: &String) -> (r: bool)
    ensures
        r == list.deep_view().contains(s@),
{
    let mut i: usize = 0;
    while i < list.len()
        invariant
            i <= list.len(),
            forall|k: int| 0 <= k < i ==> list.deep_view()[k] != s@,
        decreases list.len() - i,
    {
        if list[i] == *s {
            assert(list.deep_view()[i as int] == s@);
            return true;
        }
        i = i + 1;
    }
    false
}

/// A copy of a list of strings.
pub fn copy_strings(list: &Vec<String>) -> (r: Vec<String>)
    ensures
        r.deep_view() == list.deep_view(),
{
    let mut r: Vec<String> = Vec::new();
    let mut i: usize = 0;
    while i < list.len()
        invariant
            i <= list.len(),
            r.deep_view() == list.deep_view().take(i as int),
        decreases list.len() - i,
    {
        let ghost before = r.deep_view();
        let x = list[i].clone();
        r.push(x);
        assert(r.deep_view() =~= before.push(list[i as int]@));
        i = i + 1;
        assert(r.deep_view() =~= list.deep_view().take(i as int));
    }
    assert(list.deep_view().take(list.len() as int) =~= list.deep_view());
    r
}


// ── UTF-8 widths ─────────────────────────────────────────────────────────────

/// The number of bytes UTF-8 takes for `c`.
pub open spec fn char_width(c: char) -> nat {
    if (c as u32) < 0x80 {
        1
    } else if (c as u32) < 0x800 {
        2
    } else if (c as u32) < 0x10000 {
        3
    } else {
        4
    }
}

/// The number of bytes UTF-8 takes for `s` (what `str::len` gives).
pub open spec fn utf8_width(s: Seq<char>) -> nat
    decreases s.len(),
{
    if s.len() == 0 {
        0
    } else {
        utf8_width(s.drop_last()) + char_width(s.last())
    }
}

/// The position of the character that starts at byte `b` of `s`, searching
/// from character `k` on; `None` when byte `b` is inside a character or past
/// the end.
pub open spec fn char_at_byte(s: Seq<char>, b: nat, k: int) -> Option<int>
    decreases s.len() + 1 - k,
{
    if k < 0 || k > s.len() || utf8_width(s.take(k)) > b {
        None
    } else if utf8_width(s.take(k)) == b {
        Some(k)
    } else {
        char_at_byte(s, b, k + 1)
    }
}

/// The number of UTF-8 bytes of `c`.
fn char_width_exec(c: char) -> (r: usize)
    ensures
        r == char_width(c),
{
    let n = c as u32;
    if n < 0x80 {
        1
    } else if n < 0x800 {
        2
    } else if n < 0x10000 {
        3
    } else {
        4
    }
}

/// The position of the character that starts at byte `b` of `v`, if any.
pub fn char_index_at_byte(v: &Vec<char>, b: usize) -> (r: Option<usize>)
    ensures
        match r {
            Some(k) => char_at_byte(v@, b as nat, 0) == Some(k as int),
            None => char_at_byte(v@, b as nat, 0) is None,
        },
{
    let mut k: usize = 0;
    let mut w: usize = 0;
    assert(v@.take(0) =~= Seq::<char>::empty());
    while k <= v.len()
        invariant
            k <= v.len() + 1,
            k <= v.len() ==> w == utf8_width(v@.take(k as int)),
            w <= b,
            char_at_byte(v@, b as nat, 0) == char_at_byte(v@, b as nat, k as int),
        decreases v.len() + 1 - k,
    {
        if w == b {
            return Some(k);
        }
        if k == v.len() {
            assert(char_at_byte(v@, b as nat, k + 1) is None);
            return None;
        }
        let cw = char_width_exec(v[k]);
        assert(v@.take(k + 1).drop_last() =~= v@.take(k as int));
        if cw > b - w {
            assert(utf8_width(v@.take(k + 1)) > b);
            assert(char_at_byte(v@, b as nat, k + 1) is None);
            return None;
        }
        w = w + cw;
        k = k + 1;
    }
    None
}

} // verus!
