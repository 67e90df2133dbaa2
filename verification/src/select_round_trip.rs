//! What parsing gives back of the SQL that a customiser writes.
use vstd::prelude::*;
use crate::customiser::{
    customiser_sql, first_keyword, parse_select, table_end_keywords, trimmed_nonempty, upper,
    QueryCustomiser, SelectPartsView,
};
use crate::text::{
    ascii_upper, char_at_byte, find_from, has_char, join, lemma_find_from, matches_at,
    normalize_space, split_on, trim, trim_end, trim_start, unicode_white_space, utf8_width, words,
};

verus! {

// ── Single-spaced text ───────────────────────────────────────────────────────

/// `s` is non-empty, neither starts nor ends with whitespace, and its only
/// whitespace is single spaces between words.
pub open spec fn single_spaced(s: Seq<char>) -> bool {
    &&& s.len() > 0
    &&& !unicode_white_space(s[0])
    &&& !unicode_white_space(s.last())
    &&& forall|i: int|
        0 <= i < s.len() && #[trigger] unicode_white_space(s[i]) ==> s[i] == ' '
            && !unicode_white_space(s[i + 1])
}

/// `s` is one non-empty word: it holds no whitespace.
pub open spec fn one_word(s: Seq<char>) -> bool {
    s.len() > 0 && forall|i: int| 0 <= i < s.len() ==> !unicode_white_space(#[trigger] s[i])
}

/// `kw` is a word of `s`, ignoring ASCII case: ` KW ` occurs in `s` with a
/// space put before and after it, both uppercased.
pub open spec fn has_word(s: Seq<char>, kw: Seq<char>) -> bool {
    exists|i: int| #[trigger] matches_at(upper(seq![' '] + s + seq![' ']), upper(seq![' '] + kw + seq![' ']), i)
}

/// A prefix of text that starts with a non-space, whose whitespace is single
/// spaces: its words joined by spaces give it back, less a trailing space.
proof fn lemma_spaced_prefix(s: Seq<char>)
    requires
        s.len() == 0 || !unicode_white_space(s[0]),
        forall|i: int|
            0 <= i < s.len() && #[trigger] unicode_white_space(s[i]) ==> s[i] == ' ' && (i + 1
                < s.len() ==> !unicode_white_space(s[i + 1])),
    ensures
        (s.len() == 0 || !unicode_white_space(s.last())) ==> join(words(s), seq![' ']) == s,
        (s.len() > 0 && unicode_white_space(s.last())) ==> join(words(s), seq![' ']) + seq![' '] == s,
        s.len() > 0 ==> words(s).len() >= 1,
    decreases s.len(),
{
    if s.len() > 0 {
        let p = s.drop_last();
        let c = s.last();
        assert forall|i: int|
            0 <= i < p.len() && #[trigger] unicode_white_space(p[i]) implies p[i] == ' ' && (i + 1
                < p.len() ==> !unicode_white_space(p[i + 1])) by {
            assert(p[i] == s[i]);
            assert(unicode_white_space(s[i]));
            if i + 1 < p.len() {
                assert(p[i + 1] == s[i + 1]);
            }
        }
        if p.len() > 0 {
            assert(p[0] == s[0]);
        }
        lemma_spaced_prefix(p);
        let w = words(p);
        if unicode_white_space(c) {
            assert(s.len() >= 2);
            let j = s.len() - 2;
            assert(p.last() == s[j]);
            assert(unicode_white_space(s[j + 1]));
            if unicode_white_space(s[j]) {
                assert(!unicode_white_space(s[j + 1]));
            }
            assert(s[s.len() - 1] == ' ');
            assert(join(w, seq![' ']) + seq![' '] =~= s);
        } else if s.len() >= 2 && !unicode_white_space(s[s.len() - 2]) {
            assert(p.last() == s[s.len() - 2]);
            crate::text::lemma_join_extend_last(w, c, seq![' ']);
            assert(join(words(s), seq![' ']) =~= s);
        } else {
            if s.len() == 1 {
                assert(w =~= Seq::<Seq<char>>::empty());
                assert(words(s) =~= seq![seq![c]]);
                assert(join(words(s), seq![' ']) =~= s);
            } else {
                assert(p.last() == s[s.len() - 2]);
                crate::text::lemma_join_push(w, seq![c], seq![' ']);
                assert(join(words(s), seq![' ']) =~= s);
            }
        }
    }
}

/// Single-spaced text is its own normal form.
proof fn lemma_single_spaced_normal(s: Seq<char>)
    requires
        single_spaced(s),
    ensures
        normalize_space(s) == s,
{
    assert forall|i: int|
        0 <= i < s.len() && #[trigger] unicode_white_space(s[i]) implies s[i] == ' ' && (i + 1
            < s.len() ==> !unicode_white_space(s[i + 1])) by {}
    lemma_spaced_prefix(s);
}

/// Joining two single-spaced texts with a space gives single-spaced text.
proof fn lemma_spaced_concat(a: Seq<char>, b: Seq<char>)
    requires
        single_spaced(a),
        single_spaced(b),
    ensures
        single_spaced(a + seq![' '] + b),
{
    let s = a + seq![' '] + b;
    assert(s[0] == a[0]);
    assert(s.last() == b.last());
    assert forall|i: int|
        0 <= i < s.len() && #[trigger] unicode_white_space(s[i]) implies s[i] == ' '
            && !unicode_white_space(s[i + 1]) by {
        if i < a.len() {
            assert(s[i] == a[i]);
            if i + 1 < a.len() {
                assert(s[i + 1] == a[i + 1]);
            }
        } else if i == a.len() {
            assert(s[i + 1] == b[0]);
        } else {
            assert(s[i] == b[i - a.len() - 1]);
            assert(unicode_white_space(b[i - a.len() - 1]));
            assert(s[i + 1] == b[i - a.len()]);
        }
    }
}

/// A non-space character after single-spaced text keeps it single-spaced.
proof fn lemma_spaced_push(a: Seq<char>, c: char)
    requires
        single_spaced(a),
        !unicode_white_space(c),
    ensures
        single_spaced(a.push(c)),
{
    let s = a.push(c);
    assert(s[0] == a[0]);
    assert forall|i: int|
        0 <= i < s.len() && #[trigger] unicode_white_space(s[i]) implies s[i] == ' '
            && !unicode_white_space(s[i + 1]) by {
        assert(s[i] == a[i]);
        if i + 1 < a.len() {
            assert(s[i + 1] == a[i + 1]);
        }
    }
}

/// Single-spaced fields joined by `, ` are single-spaced.
proof fn lemma_join_spaced(fs: Seq<Seq<char>>)
    requires
        fs.len() >= 1,
        forall|k: int| 0 <= k < fs.len() ==> single_spaced(#[trigger] fs[k]),
    ensures
        single_spaced(join(fs, ", "@)),
    decreases fs.len(),
{
    reveal_strlit(", ");
    if fs.len() >= 2 {
        let init = fs.drop_last();
        assert forall|k: int| 0 <= k < init.len() implies single_spaced(#[trigger] init[k]) by {
            assert(init[k] == fs[k]);
        }
        lemma_join_spaced(init);
        lemma_spaced_push(join(init, ", "@), ',');
        assert(single_spaced(fs.last()));
        lemma_spaced_concat(join(init, ", "@).push(','), fs.last());
        assert(join(fs, ", "@) =~= join(init, ", "@).push(',') + seq![' '] + fs.last());
    } else {
        assert(fs[0] == fs[0]);
    }
}

/// Trimming single-spaced text changes nothing.
proof fn lemma_trim_spaced(s: Seq<char>)
    requires
        single_spaced(s),
    ensures
        trim(s) == s,
{
    assert(trim_start(s) == s);
    assert(trim_end(s) == s);
}

// ── Respacing ────────────────────────────────────────────────────────────────

/// `a` and `b` differ at most in which whitespace characters they hold.
pub open spec fn same_but_spacing(a: Seq<char>, b: Seq<char>) -> bool {
    &&& a.len() == b.len()
    &&& forall|i: int|
        0 <= i < a.len() ==> (unicode_white_space(#[trigger] a[i]) == unicode_white_space(b[i])) && (
        !unicode_white_space(a[i]) ==> a[i] == b[i])
}

/// Texts that differ only in their whitespace characters have the same words.
proof fn lemma_words_same_but_spacing(a: Seq<char>, b: Seq<char>)
    requires
        same_but_spacing(a, b),
    ensures
        words(a) == words(b),
    decreases a.len(),
{
    if a.len() > 0 {
        let a1 = a.drop_last();
        let b1 = b.drop_last();
        assert forall|i: int| 0 <= i < a1.len() implies (unicode_white_space(#[trigger] a1[i])
            == unicode_white_space(b1[i])) && (!unicode_white_space(a1[i]) ==> a1[i] == b1[i]) by {
            assert(a1[i] == a[i] && b1[i] == b[i]);
        }
        lemma_words_same_but_spacing(a1, b1);
        assert(unicode_white_space(a[a.len() - 1]) == unicode_white_space(b[b.len() - 1]));
        if a.len() >= 2 {
            assert(unicode_white_space(a[a.len() - 2]) == unicode_white_space(b[b.len() - 2]));
        }
    }
}

/// Differing only in whitespace carries over to concatenations.
proof fn lemma_same_concat(a1: Seq<char>, b1: Seq<char>, a2: Seq<char>, b2: Seq<char>)
    requires
        same_but_spacing(a1, b1),
        same_but_spacing(a2, b2),
    ensures
        same_but_spacing(a1 + a2, b1 + b2),
{
    let a = a1 + a2;
    let b = b1 + b2;
    assert forall|i: int| 0 <= i < a.len() implies (unicode_white_space(#[trigger] a[i])
        == unicode_white_space(b[i])) && (!unicode_white_space(a[i]) ==> a[i] == b[i]) by {
        if i < a1.len() {
            assert(a[i] == a1[i] && b[i] == b1[i]);
        } else {
            assert(a[i] == a2[i - a1.len()] && b[i] == b2[i - a1.len()]);
        }
    }
}

/// Any text differs only in whitespace from itself.
proof fn lemma_same_refl(a: Seq<char>)
    ensures
        same_but_spacing(a, a),
{
}

// ── Splitting the SELECT list ────────────────────────────────────────────────

/// Text without `c` splits on `c` into itself.
proof fn lemma_split_none(x: Seq<char>, c: char)
    requires
        !has_char(x, c),
    ensures
        split_on(x, c) == seq![x],
    decreases x.len(),
{
    if x.len() > 0 {
        let p = x.drop_last();
        assert(!has_char(p, c)) by {
            if has_char(p, c) {
                let i = choose|i: int| 0 <= i < p.len() && p[i] == c;
                assert(x[i] == c);
            }
        }
        lemma_split_none(p, c);
        assert(x[x.len() - 1] != c);
        assert(p.push(x.last()) =~= x);
        assert(seq![p].update(0, p.push(x.last())) =~= seq![x]);
    } else {
        assert(x =~= Seq::<char>::empty());
    }
}

/// Splitting `a`, `c`, then text without `c`, adds that text as the last piece.
proof fn lemma_split_tail(a: Seq<char>, b: Seq<char>, c: char)
    requires
        !has_char(b, c),
    ensures
        split_on(a.push(c) + b, c) == split_on(a, c).push(b),
    decreases b.len(),
{
    if b.len() == 0 {
        assert(a.push(c) + b =~= a.push(c));
        assert(a.push(c).drop_last() =~= a);
        assert(b =~= Seq::<char>::empty());
        assert(split_on(a.push(c), c) == split_on(a, c).push(Seq::<char>::empty()));
    } else {
        let b1 = b.drop_last();
        assert(!has_char(b1, c)) by {
            if has_char(b1, c) {
                let i = choose|i: int| 0 <= i < b1.len() && b1[i] == c;
                assert(b[i] == c);
            }
        }
        lemma_split_tail(a, b1, c);
        let s = a.push(c) + b;
        assert(s.drop_last() =~= a.push(c) + b1);
        assert(s.last() == b[b.len() - 1]);
        assert(b[b.len() - 1] != c);
        let w = split_on(a, c).push(b1);
        assert(b1.push(b.last()) =~= b);
        assert(w.update(w.len() - 1, w.last().push(s.last())) =~= split_on(a, c).push(b));
    }
}

/// A space, then single-spaced text, trims to that text.
proof fn lemma_trim_space_before(f: Seq<char>)
    requires
        single_spaced(f),
    ensures
        trim(seq![' '] + f) == f,
{
    let x = seq![' '] + f;
    assert(x.drop_first() =~= f);
    assert(trim_start(x) == trim_start(f));
    lemma_trim_spaced(f);
}

/// The SELECT list that joining the fields with `, ` writes splits back into
/// the fields.
proof fn lemma_fields_back(fs: Seq<Seq<char>>)
    requires
        fs.len() >= 1,
        forall|k: int| 0 <= k < fs.len() ==> single_spaced(#[trigger] fs[k]) && !has_char(fs[k], ','),
    ensures
        trimmed_nonempty(split_on(join(fs, ", "@), ',')) == fs,
    decreases fs.len(),
{
    reveal_strlit(", ");
    if fs.len() == 1 {
        assert(single_spaced(fs[0]) && !has_char(fs[0], ','));
        lemma_split_none(fs[0], ',');
        lemma_trim_spaced(fs[0]);
        let one = seq![fs[0]];
        assert(one.drop_last() =~= Seq::<Seq<char>>::empty());
        assert(trimmed_nonempty(one.drop_last()) =~= Seq::<Seq<char>>::empty());
        assert(trim(one.last()).len() > 0);
        assert(trimmed_nonempty(one) == trimmed_nonempty(one.drop_last()).push(trim(one.last())));
        assert(one =~= fs);
        assert(trimmed_nonempty(one) =~= fs);
    } else {
        let init = fs.drop_last();
        let l = fs.last();
        assert(single_spaced(fs[fs.len() - 1]) && !has_char(fs[fs.len() - 1], ','));
        assert forall|k: int| 0 <= k < init.len() implies single_spaced(#[trigger] init[k]) && !has_char(
            init[k],
            ',',
        ) by {
            assert(init[k] == fs[k]);
        }
        lemma_fields_back(init);
        let sl = seq![' '] + l;
        assert(!has_char(sl, ',')) by {
            if has_char(sl, ',') {
                let i = choose|i: int| 0 <= i < sl.len() && sl[i] == ',';
                assert(i > 0);
                assert(l[i - 1] == ',');
            }
        }
        assert(join(fs, ", "@) =~= join(init, ", "@).push(',') + sl);
        lemma_split_tail(join(init, ", "@), sl, ',');
        let pieces = split_on(join(init, ", "@), ',').push(sl);
        lemma_trim_space_before(l);
        assert(pieces.drop_last() =~= split_on(join(init, ", "@), ','));
        assert(trimmed_nonempty(pieces) =~= fs);
    }
}

// ── The bytes before the SELECT list ─────────────────────────────────────────

/// An ASCII prefix is as many bytes long as it has characters.
proof fn lemma_ascii_width(s: Seq<char>, k: int)
    requires
        0 <= k <= s.len(),
        forall|i: int| 0 <= i < k ==> (#[trigger] s[i] as u32) < 0x80,
    ensures
        utf8_width(s.take(k)) == k,
    decreases k,
{
    if k > 0 {
        lemma_ascii_width(s, k - 1);
        assert(s.take(k).drop_last() =~= s.take(k - 1));
        assert(s.take(k).last() == s[k - 1]);
    }
}

/// Byte `b` of text whose first `b` characters are ASCII starts character `b`.
proof fn lemma_char_at_ascii(s: Seq<char>, b: nat, k: int)
    requires
        0 <= k <= b <= s.len(),
        forall|i: int| 0 <= i < b ==> (#[trigger] s[i] as u32) < 0x80,
    ensures
        char_at_byte(s, b, k) == Some(b as int),
    decreases b - k,
{
    lemma_ascii_width(s, k);
    if k < b {
        lemma_char_at_ascii(s, b, k + 1);
    }
}

// ── Keywords ─────────────────────────────────────────────────────────────────

/// The first of several keywords: when none occurs before `l` and one occurs
/// at `l`, the first is at `l`; when none occurs at all, there is none.
proof fn lemma_first_keyword_at(h: Seq<char>, kws: Seq<Seq<char>>, l: int)
    requires
        forall|k: int|
            0 <= k < kws.len() ==> match #[trigger] find_from(h, kws[k], 0) {
                Some(i) => i >= l,
                None => true,
            },
    ensures
        (exists|k: int| 0 <= k < kws.len() && #[trigger] find_from(h, kws[k], 0) == Some(l))
            ==> first_keyword(h, kws) == Some(l),
        (forall|k: int| 0 <= k < kws.len() ==> #[trigger] find_from(h, kws[k], 0) is None)
            ==> first_keyword(h, kws) is None,
        match first_keyword(h, kws) {
            Some(i) => i >= l,
            None => true,
        },
    decreases kws.len(),
{
    if kws.len() > 0 {
        let init = kws.drop_last();
        assert forall|k: int| 0 <= k < init.len() implies match #[trigger] find_from(h, init[k], 0) {
            Some(i) => i >= l,
            None => true,
        } by {
            assert(init[k] == kws[k]);
            assert(find_from(h, kws[k], 0) == find_from(h, init[k], 0));
        }
        lemma_first_keyword_at(h, init, l);
        assert(find_from(h, kws[kws.len() - 1], 0) == find_from(h, kws.last(), 0));
        if exists|k: int| 0 <= k < kws.len() && #[trigger] find_from(h, kws[k], 0) == Some(l) {
            let k = choose|k: int| 0 <= k < kws.len() && #[trigger] find_from(h, kws[k], 0) == Some(l);
            if k < init.len() {
                assert(init[k] == kws[k]);
                assert(find_from(h, init[k], 0) == Some(l));
            }
        }
        if forall|k: int| 0 <= k < kws.len() ==> #[trigger] find_from(h, kws[k], 0) is None {
            assert forall|k: int| 0 <= k < init.len() implies #[trigger] find_from(h, init[k], 0) is None by {
                assert(init[k] == kws[k]);
                assert(find_from(h, kws[k], 0) is None);
            }
        }
    }
}

/// A match that ends before `n` is a match in the first `n` characters, and
/// one that starts at or after `m` is a match in the text from `m` on.
proof fn lemma_match_moves(h1: Seq<char>, h2: Seq<char>, p: Seq<char>, i: int, off: int)
    requires
        matches_at(h1, p, i),
        0 <= i - off,
        i - off + p.len() <= h2.len(),
        forall|t: int| 0 <= t < p.len() ==> h2[i - off + t] == #[trigger] h1[i + t],
    ensures
        matches_at(h2, p, i - off),
{
    assert forall|t: int| 0 <= t < p.len() implies h2.subrange(i - off, i - off + p.len())[t] == p[t] by {
        assert(h1[i + t] == h1.subrange(i, i + p.len())[t]);
    }
    assert(h2.subrange(i - off, i - off + p.len()) =~= p);
}

/// A match has the pattern's characters at its positions.
proof fn lemma_match_char(h: Seq<char>, p: Seq<char>, i: int, t: int)
    requires
        matches_at(h, p, i),
        0 <= t < p.len(),
    ensures
        h[i + t] == p[t],
{
    assert(h.subrange(i, i + p.len())[t] == h[i + t]);
}

/// Uppercasing turns no character but a space into a space.
proof fn lemma_upper_space(c: char)
    ensures
        ascii_upper(c) == ' ' <==> c == ' ',
{
}

// ── The statement a customiser writes, respaced ─────────────────────────────

/// `kw + x`, or nothing when `x` is empty.
pub open spec fn opt_clause(kw: Seq<char>, x: Seq<char>) -> Seq<char> {
    if x.len() == 0 {
        Seq::empty()
    } else {
        kw + x
    }
}

/// The text after ` FROM `: the table, then the clauses that are there.
pub open spec fn from_rest(t: Seq<char>, w: Seq<char>, o: Seq<char>) -> Seq<char> {
    t + opt_clause(" WHERE "@, w) + opt_clause(" ORDER BY "@, o)
}

/// The statement with its line breaks made spaces.
pub open spec fn spaced_sql(j: Seq<char>, t: Seq<char>, w: Seq<char>, o: Seq<char>) -> Seq<char> {
    "SELECT "@ + j + " FROM "@ + from_rest(t, w, o)
}

/// A line break before a keyword differs from a space only in spacing.
proof fn lemma_break_is_space(kw: Seq<char>)
    ensures
        same_but_spacing(seq!['\n'] + kw + seq![' '], seq![' '] + kw + seq![' ']),
{
    let a = seq!['\n'] + kw + seq![' '];
    let b = seq![' '] + kw + seq![' '];
    assert forall|i: int| 0 <= i < a.len() implies (unicode_white_space(#[trigger] a[i])
        == unicode_white_space(b[i])) && (!unicode_white_space(a[i]) ==> a[i] == b[i]) by {
        if i > 0 {
            assert(a[i] == b[i]);
        }
    }
}

/// The keywords of the statement: capital letters, no whitespace.
proof fn lemma_keywords()
    ensures
        one_word("SELECT"@),
        one_word("FROM"@),
        one_word("WHERE"@),
        one_word("ORDER"@),
        one_word("BY"@),
        "SELECT "@ == "SELECT"@ + seq![' '],
        " FROM "@ == seq![' '] + "FROM"@ + seq![' '],
        " WHERE "@ == seq![' '] + "WHERE"@ + seq![' '],
        " ORDER BY "@ == seq![' '] + "ORDER"@ + seq![' '] + "BY"@ + seq![' '],
        "\nFROM "@ == seq!['\n'] + "FROM"@ + seq![' '],
        "\nWHERE "@ == seq!['\n'] + "WHERE"@ + seq![' '],
        "\nORDER BY "@ == seq!['\n'] + ("ORDER"@ + seq![' '] + "BY"@) + seq![' '],
{
    reveal_strlit("SELECT");
    reveal_strlit("FROM");
    reveal_strlit("WHERE");
    reveal_strlit("ORDER");
    reveal_strlit("BY");
    reveal_strlit("SELECT ");
    reveal_strlit(" FROM ");
    reveal_strlit(" WHERE ");
    reveal_strlit(" ORDER BY ");
    reveal_strlit("\nFROM ");
    reveal_strlit("\nWHERE ");
    reveal_strlit("\nORDER BY ");
    assert("SELECT "@ =~= "SELECT"@ + seq![' ']);
    assert(" FROM "@ =~= seq![' '] + "FROM"@ + seq![' ']);
    assert(" WHERE "@ =~= seq![' '] + "WHERE"@ + seq![' ']);
    assert(" ORDER BY "@ =~= seq![' '] + "ORDER"@ + seq![' '] + "BY"@ + seq![' ']);
    assert("\nFROM "@ =~= seq!['\n'] + "FROM"@ + seq![' ']);
    assert("\nWHERE "@ =~= seq!['\n'] + "WHERE"@ + seq![' ']);
    assert("\nORDER BY "@ =~= seq!['\n'] + ("ORDER"@ + seq![' '] + "BY"@) + seq![' ']);
}

/// One word is single-spaced.
proof fn lemma_one_word_spaced(s: Seq<char>)
    requires
        one_word(s),
    ensures
        single_spaced(s),
{
}

/// The statement a customiser without joins writes, with its whitespace runs
/// made single spaces, is the statement with its line breaks made spaces.
proof fn lemma_sql_spacing(c: QueryCustomiser)
    requires
        c.joins@.len() == 0,
        one_word(c.base_table@),
        c.selected_fields@.len() > 0,
        forall|k: int| 0 <= k < c.selected_fields@.len() ==> single_spaced(#[trigger] c.selected_fields.deep_view()[k]),
        c.where_clause@.len() == 0 || single_spaced(c.where_clause@),
        c.order_clause@.len() == 0 || single_spaced(c.order_clause@),
    ensures
        normalize_space(customiser_sql(c)) == spaced_sql(
            join(c.selected_fields.deep_view(), ", "@),
            c.base_table@,
            c.where_clause@,
            c.order_clause@,
        ),
{
    let fs = c.selected_fields.deep_view();
    let j = join(fs, ", "@);
    let t = c.base_table@;
    let w = c.where_clause@;
    let o = c.order_clause@;
    let n = spaced_sql(j, t, w, o);
    let sql = customiser_sql(c);
    lemma_keywords();
    assert(crate::customiser::join_lines(c.joins@) =~= Seq::<char>::empty());
    let sw = opt_clause("\nWHERE "@, w);
    let so = opt_clause("\nORDER BY "@, o);
    assert(sql =~= "SELECT "@ + j + "\nFROM "@ + t + sw + so);
    assert(n =~= "SELECT "@ + j + " FROM "@ + t + opt_clause(" WHERE "@, w) + opt_clause(" ORDER BY "@, o));
    // Only the line breaks differ.
    lemma_break_is_space("FROM"@);
    lemma_break_is_space("WHERE"@);
    lemma_break_is_space("ORDER"@ + seq![' '] + "BY"@);
    assert(seq![' '] + ("ORDER"@ + seq![' '] + "BY"@) + seq![' '] =~= " ORDER BY "@);
    lemma_same_refl("SELECT "@ + j);
    lemma_same_concat("SELECT "@ + j, "SELECT "@ + j, "\nFROM "@, " FROM "@);
    lemma_same_refl(t);
    lemma_same_concat("SELECT "@ + j + "\nFROM "@, "SELECT "@ + j + " FROM "@, t, t);
    let a1 = "SELECT "@ + j + "\nFROM "@ + t;
    let b1 = "SELECT "@ + j + " FROM "@ + t;
    if w.len() > 0 {
        lemma_same_refl(w);
        lemma_same_concat("\nWHERE "@, " WHERE "@, w, w);
    } else {
        lemma_same_refl(Seq::<char>::empty());
    }
    assert(same_but_spacing(sw, opt_clause(" WHERE "@, w)));
    lemma_same_concat(a1, b1, sw, opt_clause(" WHERE "@, w));
    if o.len() > 0 {
        lemma_same_refl(o);
        lemma_same_concat("\nORDER BY "@, " ORDER BY "@, o, o);
    } else {
        lemma_same_refl(Seq::<char>::empty());
    }
    assert(same_but_spacing(so, opt_clause(" ORDER BY "@, o)));
    lemma_same_concat(a1 + sw, b1 + opt_clause(" WHERE "@, w), so, opt_clause(" ORDER BY "@, o));
    assert(n =~= b1 + opt_clause(" WHERE "@, w) + opt_clause(" ORDER BY "@, o));
    lemma_words_same_but_spacing(sql, n);
    // The respaced statement is single-spaced.
    lemma_join_spaced(fs);
    lemma_one_word_spaced("SELECT"@);
    lemma_one_word_spaced("FROM"@);
    lemma_one_word_spaced("WHERE"@);
    lemma_one_word_spaced("ORDER"@);
    lemma_one_word_spaced("BY"@);
    lemma_one_word_spaced(t);
    lemma_spaced_concat("SELECT"@, j);
    lemma_spaced_concat("SELECT"@ + seq![' '] + j, "FROM"@);
    let x1 = "SELECT"@ + seq![' '] + j + seq![' '] + "FROM"@;
    lemma_spaced_concat(x1, t);
    let x2 = x1 + seq![' '] + t;
    assert(b1 =~= x2);
    let x3 = if w.len() > 0 {
        lemma_spaced_concat(x2, "WHERE"@);
        lemma_spaced_concat(x2 + seq![' '] + "WHERE"@, w);
        assert(x2 + seq![' '] + "WHERE"@ + seq![' '] + w =~= x2 + opt_clause(" WHERE "@, w));
        x2 + seq![' '] + "WHERE"@ + seq![' '] + w
    } else {
        assert(x2 =~= x2 + opt_clause(" WHERE "@, w));
        x2
    };
    assert(single_spaced(x3));
    if o.len() > 0 {
        lemma_spaced_concat(x3, "ORDER"@);
        lemma_spaced_concat(x3 + seq![' '] + "ORDER"@, "BY"@);
        lemma_spaced_concat(x3 + seq![' '] + "ORDER"@ + seq![' '] + "BY"@, o);
        assert(x3 + seq![' '] + "ORDER"@ + seq![' '] + "BY"@ + seq![' '] + o =~= n);
    } else {
        assert(x3 =~= n);
    }
    lemma_single_spaced_normal(n);
}

// ── Finding the keywords again ───────────────────────────────────────────────

/// A pattern that occurs at `l` and nowhere before is first found at `l`.
proof fn lemma_find_exact(h: Seq<char>, p: Seq<char>, l: int)
    requires
        0 <= l,
        matches_at(h, p, l),
        forall|i: int| 0 <= i < l ==> !#[trigger] matches_at(h, p, i),
    ensures
        find_from(h, p, 0) == Some(l),
{
    lemma_find_from(h, p, 0);
}

/// A pattern that occurs nowhere is not found.
proof fn lemma_find_none(h: Seq<char>, p: Seq<char>)
    requires
        forall|i: int| 0 <= i ==> !#[trigger] matches_at(h, p, i),
    ensures
        find_from(h, p, 0) is None,
{
    lemma_find_from(h, p, 0);
}

/// A pattern that starts with a space is found, if at all, at or after `l`
/// when the text holds no space before `l`.
proof fn lemma_find_after(h: Seq<char>, p: Seq<char>, l: int)
    requires
        p.len() >= 1,
        p[0] == ' ',
        forall|i: int| 0 <= i < l && i < h.len() ==> #[trigger] h[i] != ' ',
    ensures
        match find_from(h, p, 0) {
            Some(i) => i >= l,
            None => true,
        },
        forall|i: int| 0 <= i < l ==> !#[trigger] matches_at(h, p, i),
{
    assert forall|i: int| 0 <= i < l implies !#[trigger] matches_at(h, p, i) by {
        if matches_at(h, p, i) {
            lemma_match_char(h, p, i, 0);
        }
    }
    lemma_find_from(h, p, 0);
}

/// A match of a pattern is a match of each prefix of it.
proof fn lemma_match_prefix(h: Seq<char>, p: Seq<char>, i: int, n: int)
    requires
        matches_at(h, p, i),
        0 <= n <= p.len(),
    ensures
        matches_at(h, p.take(n), i),
{
    assert(h.subrange(i, i + n) =~= h.subrange(i, i + p.len()).take(n));
}

/// A pattern without commas that occurs in the fields joined by `, `, with
/// a space before and after, occurs in one field with a space before and after.
proof fn lemma_match_in_field(fs: Seq<Seq<char>>, p: Seq<char>, i: int)
    requires
        fs.len() >= 1,
        !has_char(p, ','),
        matches_at(upper(seq![' '] + join(fs, ", "@) + seq![' ']), p, i),
    ensures
        exists|k: int, i2: int|
            0 <= k < fs.len() && #[trigger] matches_at(upper(seq![' '] + fs[k] + seq![' ']), p, i2),
    decreases fs.len(),
{
    reveal_strlit(", ");
    if fs.len() == 1 {
        assert(join(fs, ", "@) == fs[0]);
        assert(matches_at(upper(seq![' '] + fs[0] + seq![' ']), p, i));
    } else {
        let init = fs.drop_last();
        let l = fs.last();
        let a = seq![' '] + join(init, ", "@);
        let y = seq![' '] + l + seq![' '];
        let x = seq![' '] + join(fs, ", "@) + seq![' '];
        assert(x =~= a + seq![','] + y);
        let h = upper(x);
        let ci = a.len() as int;
        if i + p.len() <= ci {
            let h2 = upper(a + seq![' ']);
            assert forall|t: int| 0 <= t < p.len() implies h2[i - 0 + t] == #[trigger] h[i + t] by {
                assert(x[i + t] == a[i + t]);
                assert((a + seq![' '])[i + t] == a[i + t]);
            }
            lemma_match_moves(h, h2, p, i, 0);
            assert(a + seq![' '] =~= seq![' '] + join(init, ", "@) + seq![' ']);
            lemma_match_in_field(init, p, i);
            let (k, i2) = choose|k: int, i2: int|
                0 <= k < init.len() && #[trigger] matches_at(upper(seq![' '] + init[k] + seq![' ']), p, i2);
            assert(init[k] == fs[k]);
            assert(matches_at(upper(seq![' '] + fs[k] + seq![' ']), p, i2));
        } else if i > ci {
            let h2 = upper(y);
            assert forall|t: int| 0 <= t < p.len() implies h2[i - (ci + 1) + t] == #[trigger] h[i + t] by {
                assert(x[i + t] == y[i + t - ci - 1]);
            }
            lemma_match_moves(h, h2, p, i, ci + 1);
            assert(fs[fs.len() - 1] == l);
            assert(matches_at(upper(seq![' '] + fs[fs.len() - 1] + seq![' ']), p, i - (ci + 1)));
        } else {
            lemma_match_char(h, p, i, ci - i);
            assert(x[ci] == ',');
            assert(p[ci - i] == ',');
            assert(has_char(p, ','));
        }
    }
}

/// The first ` FROM ` of the respaced statement is the one after the SELECT
/// list, when no field has the word FROM.
proof fn lemma_from_found(fs: Seq<Seq<char>>, t: Seq<char>, w: Seq<char>, o: Seq<char>)
    requires
        fs.len() >= 1,
        forall|k: int| 0 <= k < fs.len() ==> single_spaced(#[trigger] fs[k]) && !has_word(fs[k], "FROM"@),
    ensures
        find_from(upper(spaced_sql(join(fs, ", "@), t, w, o)), " FROM "@, 0) == Some(
            7 + join(fs, ", "@).len() as int,
        ),
{
    lemma_keywords();
    reveal_strlit("SELECT ");
    reveal_strlit(" FROM ");
    reveal_strlit("FROM");
    let j = join(fs, ", "@);
    let n = spaced_sql(j, t, w, o);
    let h = upper(n);
    let p = " FROM "@;
    let l: int = 7 + j.len() as int;
    assert(upper(seq![' '] + "FROM"@ + seq![' ']) =~= p);
    // It occurs after the list.
    assert(h.subrange(l, l + 6) =~= p) by {
        assert forall|q: int| 0 <= q < 6 implies h[l + q] == p[q] by {
            assert(n[l + q] == p[q]);
        }
    }
    // And nowhere before.
    assert forall|i: int| 0 <= i < l implies !#[trigger] matches_at(h, p, i) by {
        if matches_at(h, p, i) {
            lemma_match_char(h, p, i, 0);
            if i < 6 {
                assert(n[i] == "SELECT "@[i]);
            } else if i + 6 <= l + 1 {
                let x = seq![' '] + j + seq![' '];
                let hx = upper(x);
                assert forall|q: int| 0 <= q < p.len() implies hx[i - 6 + q] == #[trigger] h[i + q] by {
                    assert(n[i + q] == x[i - 6 + q]);
                }
                lemma_match_moves(h, hx, p, i, 6);
                assert(!has_char(p, ',')) by {
                    if has_char(p, ',') {
                        let z = choose|z: int| 0 <= z < p.len() && p[z] == ',';
                    }
                }
                lemma_match_in_field(fs, p, i - 6);
                let (k, i2) = choose|k: int, i2: int|
                    0 <= k < fs.len() && #[trigger] matches_at(upper(seq![' '] + fs[k] + seq![' ']), p, i2);
                assert(has_word(fs[k], "FROM"@));
            } else {
                lemma_match_char(h, p, i, l - i);
                assert(n[l] == ' ');
            }
        }
    }
    lemma_find_exact(h, p, l);
}

/// Facts about the clause keywords as the parser looks for them.
proof fn lemma_clause_keywords()
    ensures
        upper(seq![' '] + "ORDER"@ + seq![' ']) == " ORDER "@,
        upper(seq![' '] + "WHERE"@ + seq![' ']) == " WHERE "@,
        upper(" WHERE "@) == " WHERE "@,
        upper(" ORDER "@) == " ORDER "@,
        upper(" ORDER BY "@) == " ORDER BY "@,
        " ORDER BY "@.take(7) == " ORDER "@,
        " WHERE "@ == seq![' ', 'W', 'H', 'E', 'R', 'E', ' '],
        " ORDER "@ == seq![' ', 'O', 'R', 'D', 'E', 'R', ' '],
        " ORDER BY "@ == seq![' ', 'O', 'R', 'D', 'E', 'R', ' ', 'B', 'Y', ' '],
{
    reveal_strlit("ORDER");
    reveal_strlit("WHERE");
    reveal_strlit(" WHERE ");
    reveal_strlit(" ORDER ");
    reveal_strlit(" ORDER BY ");
    assert(upper(seq![' '] + "ORDER"@ + seq![' ']) =~= " ORDER "@);
    assert(upper(seq![' '] + "WHERE"@ + seq![' ']) =~= " WHERE "@);
    assert(upper(" WHERE "@) =~= " WHERE "@);
    assert(upper(" ORDER "@) =~= " ORDER "@);
    assert(upper(" ORDER BY "@) =~= " ORDER BY "@);
    assert(" ORDER BY "@.take(7) =~= " ORDER "@);
    assert(" WHERE "@ =~= seq![' ', 'W', 'H', 'E', 'R', 'E', ' ']);
    assert(" ORDER "@ =~= seq![' ', 'O', 'R', 'D', 'E', 'R', ' ']);
    assert(" ORDER BY "@ =~= seq![' ', 'O', 'R', 'D', 'E', 'R', ' ', 'B', 'Y', ' ']);
}

/// The uppercased text after FROM has no space inside the table name.
proof fn lemma_no_space_in_table(t: Seq<char>, w: Seq<char>, o: Seq<char>)
    requires
        one_word(t),
    ensures
        forall|i: int|
            0 <= i < t.len() && i < upper(from_rest(t, w, o)).len() ==> #[trigger] upper(from_rest(t, w, o))[i] != ' ',
{
    let rest = from_rest(t, w, o);
    assert forall|i: int| 0 <= i < t.len() && i < upper(rest).len() implies #[trigger] upper(rest)[i] != ' ' by {
        assert(rest[i] == t[i]);
        assert(!unicode_white_space(t[i]));
        lemma_upper_space(rest[i]);
    }
}

/// The table name is read back.
proof fn lemma_table_back(t: Seq<char>, w: Seq<char>, o: Seq<char>)
    requires
        one_word(t),
    ensures
        crate::customiser::table_part(from_rest(t, w, o)) == t,
{
    let rest = from_rest(t, w, o);
    let hr = upper(rest);
    let lt = t.len() as int;
    let kws = table_end_keywords();
    lemma_clause_keywords();
    reveal_strlit(" INNER ");
    reveal_strlit(" LEFT ");
    reveal_strlit(" RIGHT ");
    reveal_strlit(" JOIN ");
    lemma_no_space_in_table(t, w, o);
    assert forall|k: int| 0 <= k < kws.len() implies match #[trigger] find_from(hr, kws[k], 0) {
        Some(i) => i >= lt,
        None => true,
    } by {
        assert(kws[k].len() >= 1 && kws[k][0] == ' ');
        lemma_find_after(hr, kws[k], lt);
    }
    lemma_first_keyword_at(hr, kws, lt);
    let wc = opt_clause(" WHERE "@, w);
    let oc = opt_clause(" ORDER BY "@, o);
    if w.len() > 0 {
        assert(hr.subrange(lt, lt + 7) =~= kws[0]) by {
            assert forall|q: int| 0 <= q < 7 implies hr[lt + q] == kws[0][q] by {
                assert(rest[lt + q] == wc[q]);
            }
        }
        lemma_find_after(hr, kws[0], lt);
        lemma_find_exact(hr, kws[0], lt);
    } else if o.len() > 0 {
        assert(hr.subrange(lt, lt + 7) =~= kws[1]) by {
            assert forall|q: int| 0 <= q < 7 implies hr[lt + q] == kws[1][q] by {
                assert(rest[lt + q] == oc[q]);
            }
        }
        lemma_find_after(hr, kws[1], lt);
        lemma_find_exact(hr, kws[1], lt);
    } else {
        assert(rest =~= t);
        assert forall|k: int| 0 <= k < kws.len() implies #[trigger] find_from(hr, kws[k], 0) is None by {
            assert(kws[k].len() >= 1 && kws[k][0] == ' ');
            lemma_find_after(hr, kws[k], lt);
            lemma_find_none(hr, kws[k]);
        }
    }
    assert(rest.take(lt) =~= t);
    lemma_one_word_spaced(t);
    lemma_trim_spaced(t);
}

/// The WHERE clause is read back, when it has no word ORDER and the ORDER BY
/// clause no word WHERE.
proof fn lemma_where_back(t: Seq<char>, w: Seq<char>, o: Seq<char>)
    requires
        one_word(t),
        w.len() == 0 || single_spaced(w),
        !has_word(w, "ORDER"@),
        !has_word(o, "WHERE"@),
    ensures
        crate::customiser::where_part(from_rest(t, w, o)) == w,
{
    let rest = from_rest(t, w, o);
    let hr = upper(rest);
    let lt = t.len() as int;
    let pw = " WHERE "@;
    let po = " ORDER "@;
    lemma_clause_keywords();
    lemma_no_space_in_table(t, w, o);
    lemma_find_after(hr, pw, lt);
    let wc = opt_clause(" WHERE "@, w);
    let oc = opt_clause(" ORDER BY "@, o);
    if w.len() > 0 {
        assert(hr.subrange(lt, lt + 7) =~= pw) by {
            assert forall|q: int| 0 <= q < 7 implies hr[lt + q] == pw[q] by {
                assert(rest[lt + q] == wc[q]);
            }
        }
        lemma_find_exact(hr, pw, lt);
        let s = rest.skip(lt + 7);
        assert(s =~= w + oc);
        let hs = upper(s);
        let y = seq![' '] + w + seq![' '];
        let hy = upper(y);
        let lw = w.len() as int;
        // No ` ORDER ` inside the WHERE clause.
        assert forall|jj: int| 0 <= jj < lw && jj + 7 <= lw + 1 && jj + 7 <= hs.len() implies !#[trigger] matches_at(hs, po, jj) by {
            if matches_at(hs, po, jj) {
                assert forall|q: int| 0 <= q < po.len() implies hy[jj - (-1) + q] == #[trigger] hs[jj + q] by {
                    if jj + q < lw {
                        assert(s[jj + q] == w[jj + q]);
                        assert(y[jj + 1 + q] == w[jj + q]);
                    } else {
                        lemma_match_char(hs, po, jj, q);
                        assert(q == 6);
                        assert(y[jj + 1 + q] == ' ');
                    }
                }
                lemma_match_moves(hs, hy, po, jj, -1);
                assert(has_word(w, "ORDER"@));
            }
        }
        if o.len() > 0 {
            assert(hs.subrange(lw, lw + 7) =~= po) by {
                assert forall|q: int| 0 <= q < 7 implies hs[lw + q] == po[q] by {
                    assert(s[lw + q] == oc[q]);
                }
            }
            assert forall|jj: int| 0 <= jj < lw implies !#[trigger] matches_at(hs, po, jj) by {
                if matches_at(hs, po, jj) && jj + 7 > lw + 1 {
                    lemma_match_char(hs, po, jj, lw - jj);
                    assert(s[lw] == ' ');
                }
            }
            lemma_find_exact(hs, po, lw);
        } else {
            assert(s =~= w);
            assert forall|jj: int| 0 <= jj implies !#[trigger] matches_at(hs, po, jj) by {}
            lemma_find_none(hs, po);
        }
        assert(s.take(lw) =~= w);
        lemma_trim_spaced(w);
    } else {
        assert forall|i: int| 0 <= i implies !#[trigger] matches_at(hr, pw, i) by {
            if matches_at(hr, pw, i) && i >= lt {
                assert(o.len() > 0);
                let q = i - lt;
                let y = seq![' '] + o + seq![' '];
                let hy = upper(y);
                if q >= 9 {
                    assert forall|r: int| 0 <= r < pw.len() implies hy[i - (lt + 9) + r] == #[trigger] hr[i + r] by {
                        assert(rest[i + r] == oc[q + r]);
                        assert(oc[q + r] == y[q + r - 9]);
                    }
                    lemma_match_moves(hr, hy, pw, i, lt + 9);
                    assert(has_word(o, "WHERE"@));
                } else {
                    lemma_match_char(hr, pw, i, 0);
                    lemma_match_char(hr, pw, i, 1);
                    assert(rest[i] == oc[q]);
                    assert(rest[i + 1] == oc[q + 1]);
                    assert(oc[q] == " ORDER BY "@[q]);
                    assert(oc[q + 1] == " ORDER BY "@[q + 1]);
                }
            }
        }
        lemma_find_none(hr, pw);
        assert(w =~= Seq::<char>::empty());
    }
}

/// Where the text after FROM has its WHERE clause: the keyword, then the clause.
proof fn lemma_where_layout(t: Seq<char>, w: Seq<char>, o: Seq<char>)
    requires
        w.len() > 0,
    ensures
        forall|k: int| 0 <= k < 7 ==> #[trigger] from_rest(t, w, o)[t.len() + k] == " WHERE "@[k],
        forall|k: int| 0 <= k < w.len() ==> #[trigger] from_rest(t, w, o)[t.len() + 7 + k] == w[k],
        o.len() > 0 ==> from_rest(t, w, o)[t.len() + 7 + w.len() as int] == ' ',
        from_rest(t, w, o).len() == t.len() + 7 + w.len() + opt_clause(" ORDER BY "@, o).len(),
{
    reveal_strlit(" WHERE ");
    reveal_strlit(" ORDER BY ");
    let rest = from_rest(t, w, o);
    let oc = opt_clause(" ORDER BY "@, o);
    assert(rest =~= t + " WHERE "@ + w + oc);
    if o.len() > 0 {
        assert(oc[0] == ' ');
    }
}

/// ` ORDER BY ` does not start inside the keyword ` WHERE `.
proof fn lemma_no_order_by_in_keyword(t: Seq<char>, w: Seq<char>, o: Seq<char>, i: int)
    requires
        w.len() > 0,
        t.len() <= i < t.len() + 6,
        i + 10 <= from_rest(t, w, o).len(),
    ensures
        !matches_at(upper(from_rest(t, w, o)), " ORDER BY "@, i),
{
    reveal_strlit(" WHERE ");
    reveal_strlit(" ORDER BY ");
    let rest = from_rest(t, w, o);
    let hr = upper(rest);
    let pb = " ORDER BY "@;
    lemma_where_layout(t, w, o);
    if matches_at(hr, pb, i) {
        lemma_match_char(hr, pb, i, 0);
        lemma_match_char(hr, pb, i, 1);
        let q = i - t.len();
        assert(rest[t.len() + q] == " WHERE "@[q]);
        assert(rest[t.len() + (q + 1)] == " WHERE "@[q + 1]);
    }
}

/// ` ORDER BY ` does not start inside the WHERE clause, when it has no word ORDER.
proof fn lemma_no_order_by_in_clause(t: Seq<char>, w: Seq<char>, o: Seq<char>, i: int)
    requires
        w.len() > 0,
        !has_word(w, "ORDER"@),
        t.len() + 6 <= i < t.len() + 7 + w.len(),
        i + 10 <= from_rest(t, w, o).len(),
    ensures
        !matches_at(upper(from_rest(t, w, o)), " ORDER BY "@, i),
{
    reveal_strlit(" ORDER BY ");
    reveal_strlit(" ORDER ");
    reveal_strlit("ORDER");
    let rest = from_rest(t, w, o);
    let hr = upper(rest);
    let pb = " ORDER BY "@;
    let po = " ORDER "@;
    let lt = t.len() as int;
    let lw = w.len() as int;
    let ll = lt + 7 + lw;
    lemma_where_layout(t, w, o);
    assert(upper(seq![' '] + "ORDER"@ + seq![' ']) =~= po);
    assert(pb.take(7) =~= po);
    if matches_at(hr, pb, i) {
        lemma_match_prefix(hr, pb, i, 7);
        let y = seq![' '] + w + seq![' '];
        let hy = upper(y);
        if i + 7 <= ll + 1 {
            reveal_strlit(" WHERE ");
            assert(rest[lt + 6] == " WHERE "@[6]);
            assert forall|r: int| 0 <= r < po.len() implies hy[i - (lt + 6) + r] == #[trigger] hr[i + r] by {
                let k = i + r;
                if k == lt + 6 {
                    assert(y[0] == ' ');
                } else if k < ll {
                    assert(rest[lt + 7 + (k - lt - 7)] == w[k - lt - 7]);
                    assert(y[k - lt - 6] == w[k - lt - 7]);
                } else {
                    assert(k == ll);
                    assert(o.len() > 0);
                    assert(y[lw + 1] == ' ');
                }
            }
            lemma_match_moves(hr, hy, po, i, lt + 6);
            assert(has_word(w, "ORDER"@));
        } else {
            lemma_match_char(hr, pb, i, ll - i);
            assert(o.len() > 0);
            assert(rest[ll] == ' ');
        }
    }
}

/// No ` ORDER BY ` starts inside the WHERE part of the text after FROM, when
/// the WHERE clause has no word ORDER.
proof fn lemma_no_order_by(t: Seq<char>, w: Seq<char>, o: Seq<char>, i: int)
    requires
        one_word(t),
        !has_word(w, "ORDER"@),
        t.len() <= i,
        i < t.len() + opt_clause(" WHERE "@, w).len() || o.len() == 0,
        i + 10 <= from_rest(t, w, o).len(),
    ensures
        !matches_at(upper(from_rest(t, w, o)), " ORDER BY "@, i),
{
    reveal_strlit(" WHERE ");
    if w.len() == 0 {
        assert(from_rest(t, w, o) =~= t + opt_clause(" ORDER BY "@, o));
        assert(o.len() == 0);
        assert(from_rest(t, w, o) =~= t);
    } else {
        lemma_where_layout(t, w, o);
        if i < t.len() + 6 {
            lemma_no_order_by_in_keyword(t, w, o, i);
        } else {
            if o.len() == 0 {
                assert(i < t.len() + 7 + w.len());
            }
            lemma_no_order_by_in_clause(t, w, o, i);
        }
    }
}

/// The ORDER BY clause is read back, when the WHERE clause has no word ORDER.
proof fn lemma_order_back(t: Seq<char>, w: Seq<char>, o: Seq<char>)
    requires
        one_word(t),
        o.len() == 0 || single_spaced(o),
        !has_word(w, "ORDER"@),
    ensures
        crate::customiser::order_part(from_rest(t, w, o)) == o,
{
    let rest = from_rest(t, w, o);
    let hr = upper(rest);
    let lt = t.len() as int;
    let pb = " ORDER BY "@;
    lemma_clause_keywords();
    lemma_no_space_in_table(t, w, o);
    lemma_find_after(hr, pb, lt);
    let wc = opt_clause(" WHERE "@, w);
    let oc = opt_clause(" ORDER BY "@, o);
    let ll = lt + wc.len();
    if o.len() > 0 {
        assert(hr.subrange(ll, ll + 10) =~= pb) by {
            assert forall|q: int| 0 <= q < 10 implies hr[ll + q] == pb[q] by {
                assert(rest[ll + q] == oc[q]);
            }
        }
        assert forall|i: int| 0 <= i < ll implies !#[trigger] matches_at(hr, pb, i) by {
            if i >= lt && matches_at(hr, pb, i) {
                lemma_no_order_by(t, w, o, i);
            }
        }
        lemma_find_exact(hr, pb, ll);
        assert(rest.skip(ll + 10) =~= o);
        lemma_trim_spaced(o);
    } else {
        assert(rest =~= t + wc);
        assert forall|i: int| 0 <= i implies !#[trigger] matches_at(hr, pb, i) by {
            if matches_at(hr, pb, i) && i >= lt {
                lemma_no_order_by(t, w, o, i);
            }
        }
        lemma_find_none(hr, pb);
        assert(o =~= Seq::<char>::empty());
    }
}

// ── The round trip ───────────────────────────────────────────────────────────

/// Parsing the SQL that a customiser writes gives back its SELECT list, its
/// table, its WHERE clause and its ORDER BY clause. This holds when the
/// customiser has no joins; its table is one word; each field is
/// single-spaced text without a comma in which FROM is not a word (and is not
/// `*` when it is the only field); each clause is empty or single-spaced;
/// the WHERE clause does not have the word ORDER, nor the ORDER BY clause
/// the word WHERE (words compared ignoring ASCII case).
pub proof fn lemma_parse_customiser_sql(c: QueryCustomiser)
    requires
        c.joins@.len() == 0,
        one_word(c.base_table@),
        c.selected_fields@.len() > 0,
        forall|k: int|
            0 <= k < c.selected_fields@.len() ==> single_spaced(#[trigger] c.selected_fields.deep_view()[k])
                && !has_char(c.selected_fields.deep_view()[k], ',') && !has_word(
                c.selected_fields.deep_view()[k],
                "FROM"@,
            ),
        c.selected_fields@.len() == 1 ==> c.selected_fields@[0]@ != "*"@,
        c.where_clause@.len() == 0 || single_spaced(c.where_clause@),
        c.order_clause@.len() == 0 || single_spaced(c.order_clause@),
        !has_word(c.where_clause@, "ORDER"@),
        !has_word(c.order_clause@, "WHERE"@),
    ensures
        parse_select(customiser_sql(c)) == (SelectPartsView {
            select_star: false,
            fields: c.selected_fields.deep_view(),
            from_table: c.base_table@,
            where_clause: c.where_clause@,
            order_clause: c.order_clause@,
        }),
{
    let fs = c.selected_fields.deep_view();
    let j = join(fs, ", "@);
    let t = c.base_table@;
    let w = c.where_clause@;
    let o = c.order_clause@;
    let n = spaced_sql(j, t, w, o);
    let rest = from_rest(t, w, o);
    reveal_strlit("SELECT ");
    reveal_strlit(" FROM ");
    reveal_strlit(", ");
    reveal_strlit("*");
    assert(fs.len() == c.selected_fields@.len());
    lemma_sql_spacing(c);
    lemma_from_found(fs, t, w, o);
    let at: int = 7 + j.len() as int;
    assert(crate::customiser::from_position(n) == at);
    assert(n =~= "SELECT "@ + j + " FROM "@ + rest);
    assert(n.skip(at + 6) =~= rest);
    assert(crate::customiser::after_from(n) == rest);
    // The SELECT list.
    assert forall|i: int| 0 <= i < 7 implies (#[trigger] n[i] as u32) < 0x80 by {
        assert(n[i] == "SELECT "@[i]);
    }
    lemma_char_at_ascii(n, 7, 0);
    assert(n.subrange(7, at) =~= j);
    lemma_join_spaced(fs);
    lemma_trim_spaced(j);
    assert(crate::customiser::select_body(n, at) == j);
    if fs.len() == 1 {
        assert(j == fs[0]);
        assert(fs[0] == c.selected_fields@[0]@);
    } else {
        assert(j.len() >= 3);
    }
    assert(j != "*"@);
    lemma_fields_back(fs);
    // The table and the clauses.
    lemma_table_back(t, w, o);
    lemma_where_back(t, w, o);
    lemma_order_back(t, w, o);
}

// ── Table names before a join ────────────────────────────────────────────────

/// The first ` FROM ` of `SELECT j FROM tail` is the one after `j`, when FROM
/// is not a word of `j`.
proof fn lemma_from_found_text(j: Seq<char>, tail: Seq<char>)
    requires
        !has_word(j, "FROM"@),
    ensures
        find_from(upper("SELECT "@ + j + " FROM "@ + tail), " FROM "@, 0) == Some(7 + j.len() as int),
        crate::customiser::after_from("SELECT "@ + j + " FROM "@ + tail) == tail,
{
    reveal_strlit("SELECT ");
    reveal_strlit(" FROM ");
    reveal_strlit("FROM");
    let n = "SELECT "@ + j + " FROM "@ + tail;
    let h = upper(n);
    let p = " FROM "@;
    let l: int = 7 + j.len() as int;
    assert(upper(seq![' '] + "FROM"@ + seq![' ']) =~= p);
    assert(h.subrange(l, l + 6) =~= p) by {
        assert forall|q: int| 0 <= q < 6 implies h[l + q] == p[q] by {
            assert(n[l + q] == p[q]);
        }
    }
    assert forall|i: int| 0 <= i < l implies !#[trigger] matches_at(h, p, i) by {
        if matches_at(h, p, i) {
            lemma_match_char(h, p, i, 0);
            if i < 6 {
                assert(n[i] == "SELECT "@[i]);
            } else if i + 6 <= l + 1 {
                let x = seq![' '] + j + seq![' '];
                let hx = upper(x);
                assert forall|q: int| 0 <= q < p.len() implies hx[i - 6 + q] == #[trigger] h[i + q] by {
                    assert(n[i + q] == x[i - 6 + q]);
                }
                lemma_match_moves(h, hx, p, i, 6);
                assert(has_word(j, "FROM"@));
            } else {
                lemma_match_char(h, p, i, l - i);
                assert(n[l] == ' ');
            }
        }
    }
    lemma_find_exact(h, p, l);
    assert(n.skip(l + 6) =~= tail);
}

/// A keyword in capitals written at `l` is found there in the uppercased text.
proof fn lemma_upper_match_at(rest: Seq<char>, kw: Seq<char>, l: int)
    requires
        0 <= l,
        l + kw.len() <= rest.len(),
        rest.subrange(l, l + kw.len()) == kw,
        upper(kw) == kw,
    ensures
        matches_at(upper(rest), kw, l),
{
    assert forall|q: int| 0 <= q < kw.len() implies upper(rest).subrange(l, l + kw.len())[q] == kw[q] by {
        assert(rest[l + q] == rest.subrange(l, l + kw.len())[q]);
        assert(upper(kw)[q] == ascii_upper(kw[q]));
    }
    assert(upper(rest).subrange(l, l + kw.len()) =~= kw);
}

/// No space in the uppercased text before the end of a leading word.
proof fn lemma_word_then(a: Seq<char>, y: Seq<char>)
    requires
        one_word(a),
    ensures
        forall|i: int| 0 <= i < a.len() && i < upper(a + y).len() ==> #[trigger] upper(a + y)[i] != ' ',
{
    assert forall|i: int| 0 <= i < a.len() && i < upper(a + y).len() implies #[trigger] upper(a + y)[i] != ' ' by {
        assert((a + y)[i] == a[i]);
        assert(!unicode_white_space(a[i]));
        lemma_upper_space(a[i]);
    }
}

/// The join keywords: their texts, capitals all.
proof fn lemma_join_words()
    ensures
        " JOIN "@ == seq![' ', 'J', 'O', 'I', 'N', ' '],
        " INNER "@ == seq![' ', 'I', 'N', 'N', 'E', 'R', ' '],
        " LEFT "@ == seq![' ', 'L', 'E', 'F', 'T', ' '],
        " RIGHT "@ == seq![' ', 'R', 'I', 'G', 'H', 'T', ' '],
        " CROSS "@ == seq![' ', 'C', 'R', 'O', 'S', 'S', ' '],
        " ON "@ == seq![' ', 'O', 'N', ' '],
        "JOIN"@ == seq!['J', 'O', 'I', 'N'],
        "INNER JOIN"@ == seq!['I', 'N', 'N', 'E', 'R', ' ', 'J', 'O', 'I', 'N'],
        "LEFT JOIN"@ == seq!['L', 'E', 'F', 'T', ' ', 'J', 'O', 'I', 'N'],
        "RIGHT JOIN"@ == seq!['R', 'I', 'G', 'H', 'T', ' ', 'J', 'O', 'I', 'N'],
        "CROSS JOIN"@ == seq!['C', 'R', 'O', 'S', 'S', ' ', 'J', 'O', 'I', 'N'],
        upper(" JOIN "@) == " JOIN "@,
        upper(" INNER "@) == " INNER "@,
        upper(" LEFT "@) == " LEFT "@,
        upper(" RIGHT "@) == " RIGHT "@,
        upper(" CROSS "@) == " CROSS "@,
        upper(" ON "@) == " ON "@,
{
    reveal_strlit(" JOIN ");
    reveal_strlit(" INNER ");
    reveal_strlit(" LEFT ");
    reveal_strlit(" RIGHT ");
    reveal_strlit(" CROSS ");
    reveal_strlit(" ON ");
    reveal_strlit("JOIN");
    reveal_strlit("INNER JOIN");
    reveal_strlit("LEFT JOIN");
    reveal_strlit("RIGHT JOIN");
    reveal_strlit("CROSS JOIN");
    assert(upper(" JOIN "@) =~= " JOIN "@);
    assert(upper(" INNER "@) =~= " INNER "@);
    assert(upper(" LEFT "@) =~= " LEFT "@);
    assert(upper(" RIGHT "@) =~= " RIGHT "@);
    assert(upper(" CROSS "@) =~= " CROSS "@);
    assert(upper(" ON "@) =~= " ON "@);
}

/// The keyword that ends the table name before a join: ` JOIN ` for a plain
/// join, else the join type's word.
spec fn join_start(jk: Seq<char>) -> Seq<char> {
    if jk == "INNER JOIN"@ {
        " INNER "@
    } else if jk == "LEFT JOIN"@ {
        " LEFT "@
    } else if jk == "RIGHT JOIN"@ {
        " RIGHT "@
    } else if jk == "CROSS JOIN"@ {
        " CROSS "@
    } else {
        " JOIN "@
    }
}

/// After a one-word table, a join keyword starts at the table's end.
proof fn lemma_join_start_at(a: Seq<char>, jk: Seq<char>, r: Seq<char>)
    requires
        jk == "JOIN"@ || jk == "INNER JOIN"@ || jk == "LEFT JOIN"@ || jk == "RIGHT JOIN"@
            || jk == "CROSS JOIN"@,
    ensures
        matches_at(upper(a + seq![' '] + jk + seq![' '] + r), join_start(jk), a.len() as int),
        join_start(jk).len() >= 1,
        join_start(jk)[0] == ' ',
{
    lemma_join_words();
    let rest = a + seq![' '] + jk + seq![' '] + r;
    let kw = join_start(jk);
    let l = a.len() as int;
    assert(rest.subrange(l, l + kw.len()) =~= kw);
    lemma_upper_match_at(rest, kw, l);
}

/// The table name that `parse_select_sql` takes from a statement whose FROM
/// table is followed by a join (`JOIN`, `INNER JOIN`, `LEFT JOIN` or
/// `RIGHT JOIN`) is that table, whatever comes after and however the
/// statement is spaced, when FROM is not a word of the SELECT list.
pub proof fn lemma_parse_table_before_join(
    sql: Seq<char>,
    j: Seq<char>,
    a: Seq<char>,
    jk: Seq<char>,
    r: Seq<char>,
)
    requires
        normalize_space(sql) == "SELECT "@ + j + " FROM "@ + a + " "@ + jk + " "@ + r,
        !has_word(j, "FROM"@),
        one_word(a),
        jk == "JOIN"@ || jk == "INNER JOIN"@ || jk == "LEFT JOIN"@ || jk == "RIGHT JOIN"@,
    ensures
        parse_select(sql).from_table == a,
{
    reveal_strlit(" ");
    let rest = a + seq![' '] + jk + seq![' '] + r;
    assert(normalize_space(sql) =~= "SELECT "@ + j + " FROM "@ + rest);
    lemma_from_found_text(j, rest);
    let hr = upper(rest);
    let lt = a.len() as int;
    let kws = table_end_keywords();
    lemma_join_words();
    reveal_strlit(" WHERE ");
    reveal_strlit(" ORDER ");
    lemma_word_then(a, seq![' '] + jk + seq![' '] + r);
    assert(rest == a + (seq![' '] + jk + seq![' '] + r));
    assert forall|k: int| 0 <= k < kws.len() implies match #[trigger] find_from(hr, kws[k], 0) {
        Some(i) => i >= lt,
        None => true,
    } by {
        assert(kws[k].len() >= 1 && kws[k][0] == ' ');
        lemma_find_after(hr, kws[k], lt);
    }
    lemma_first_keyword_at(hr, kws, lt);
    lemma_join_start_at(a, jk, r);
    let kw = join_start(jk);
    lemma_find_after(hr, kw, lt);
    lemma_find_exact(hr, kw, lt);
    let kk: int = if jk == "INNER JOIN"@ { 2 } else if jk == "LEFT JOIN"@ { 3 } else if jk == "RIGHT JOIN"@ { 4 } else { 5 };
    assert(kws[kk] == kw);
    assert(find_from(hr, kws[kk], 0) == Some(lt));
    assert(rest.take(lt) =~= a);
    lemma_one_word_spaced(a);
    lemma_trim_spaced(a);
}

/// The name before the clause keywords of `b` followed by an optional
/// ` ON ` condition is `b`, for a one-word `b`.
proof fn lemma_name_before_on(b: Seq<char>, on: Seq<char>)
    requires
        one_word(b),
    ensures
        crate::scratch::name_before_clause(b + opt_clause(" ON "@, on)) == b,
{
    lemma_join_words();
    let s = b + opt_clause(" ON "@, on);
    let h = upper(s);
    let lb = b.len() as int;
    let kws = crate::scratch::clause_keywords();
    reveal_strlit(" WHERE ");
    reveal_strlit(" ORDER ");
    lemma_word_then(b, opt_clause(" ON "@, on));
    assert forall|k: int| 0 <= k < kws.len() implies match #[trigger] find_from(h, kws[k], 0) {
        Some(i) => i >= lb,
        None => true,
    } by {
        assert(kws[k].len() >= 1 && kws[k][0] == ' ');
        lemma_find_after(h, kws[k], lb);
    }
    lemma_first_keyword_at(h, kws, lb);
    if on.len() > 0 {
        assert(s.subrange(lb, lb + 4) =~= " ON "@);
        lemma_upper_match_at(s, " ON "@, lb);
        lemma_find_after(h, " ON "@, lb);
        lemma_find_exact(h, " ON "@, lb);
        assert(kws[7] == " ON "@);
        assert(find_from(h, kws[7], 0) == Some(lb));
    } else {
        assert(s =~= b);
        assert forall|k: int| 0 <= k < kws.len() implies #[trigger] find_from(h, kws[k], 0) is None by {
            assert(kws[k].len() >= 1 && kws[k][0] == ' ');
            lemma_find_after(h, kws[k], lb);
            lemma_find_none(h, kws[k]);
        }
    }
    assert(s.take(lb) =~= b);
    lemma_one_word_spaced(b);
    lemma_trim_spaced(b);
}

/// After the second table no ` JOIN ` follows, when JOIN is not a word of
/// the ON condition.
proof fn lemma_no_join_after(pre: Seq<char>, b: Seq<char>, on: Seq<char>, i: int)
    requires
        one_word(b),
        !has_word(on, "JOIN"@),
        pre.len() <= i,
        i + 6 <= (pre + b + opt_clause(" ON "@, on)).len(),
    ensures
        !matches_at(upper(pre + b + opt_clause(" ON "@, on)), " JOIN "@, i),
{
    lemma_join_words();
    reveal_strlit("JOIN");
    let c = opt_clause(" ON "@, on);
    let rest = pre + b + c;
    let h = upper(rest);
    let p = " JOIN "@;
    let lb: int = pre.len() + b.len() as int;
    if matches_at(h, p, i) {
        lemma_match_char(h, p, i, 0);
        lemma_match_char(h, p, i, 1);
        if i < lb {
            assert(rest[i] == b[i - pre.len()]);
            assert(!unicode_white_space(b[i - pre.len()]));
            lemma_upper_space(rest[i]);
        } else {
            assert(on.len() > 0);
            let q = i - lb;
            if q < 3 {
                assert(rest[i] == " ON "@[q]);
                assert(rest[i + 1] == c[q + 1]);
                assert(c[q + 1] == " ON "@[q + 1]);
            } else {
                let y = seq![' '] + on + seq![' '];
                let hy = upper(y);
                assert forall|t: int| 0 <= t < p.len() implies hy[i - (lb + 3) + t] == #[trigger] h[i + t] by {
                    assert(rest[i + t] == c[q + t]);
                    assert(c[q + t] == y[q + t - 3]);
                }
                lemma_match_moves(h, hy, p, i, lb + 3);
                assert(upper(seq![' '] + "JOIN"@ + seq![' ']) =~= p);
                assert(has_word(on, "JOIN"@));
            }
        }
    }
}

/// The first table name of pasted SQL whose FROM table is followed by a join.
proof fn lemma_first_pasted_name(a: Seq<char>, jk: Seq<char>, r: Seq<char>)
    requires
        one_word(a),
        jk == "JOIN"@ || jk == "INNER JOIN"@ || jk == "LEFT JOIN"@ || jk == "RIGHT JOIN"@
            || jk == "CROSS JOIN"@,
    ensures
        crate::scratch::name_before_clause(a + seq![' '] + jk + seq![' '] + r) == a,
{
    lemma_join_words();
    reveal_strlit(" WHERE ");
    reveal_strlit(" ORDER ");
    let rest = a + seq![' '] + jk + seq![' '] + r;
    let hr = upper(rest);
    let lt = a.len() as int;
    let kws = crate::scratch::clause_keywords();
    lemma_word_then(a, seq![' '] + jk + seq![' '] + r);
    assert(rest == a + (seq![' '] + jk + seq![' '] + r));
    assert forall|k: int| 0 <= k < kws.len() implies match #[trigger] find_from(hr, kws[k], 0) {
        Some(i) => i >= lt,
        None => true,
    } by {
        assert(kws[k].len() >= 1 && kws[k][0] == ' ');
        lemma_find_after(hr, kws[k], lt);
    }
    lemma_first_keyword_at(hr, kws, lt);
    lemma_join_start_at(a, jk, r);
    let kw = join_start(jk);
    lemma_find_after(hr, kw, lt);
    lemma_find_exact(hr, kw, lt);
    let kk: int = if jk == "INNER JOIN"@ { 2 } else if jk == "LEFT JOIN"@ { 3 } else if jk
        == "RIGHT JOIN"@ { 4 } else if jk == "CROSS JOIN"@ { 6 } else { 5 };
    assert(kws[kk] == kw);
    assert(find_from(hr, kws[kk], 0) == Some(lt));
    assert(rest.take(lt) =~= a);
    lemma_one_word_spaced(a);
    lemma_trim_spaced(a);
}

/// The first ` JOIN ` of the text after FROM is the one of the join keyword.
proof fn lemma_first_join(a: Seq<char>, jk: Seq<char>, r: Seq<char>)
    requires
        one_word(a),
        jk == "JOIN"@ || jk == "INNER JOIN"@ || jk == "LEFT JOIN"@ || jk == "RIGHT JOIN"@
            || jk == "CROSS JOIN"@,
    ensures
        find_from(upper(a + seq![' '] + jk + seq![' '] + r), " JOIN "@, 0) == Some(
            a.len() + jk.len() - 4,
        ),
{
    lemma_join_words();
    let rest = a + seq![' '] + jk + seq![' '] + r;
    let hr = upper(rest);
    let lt = a.len() as int;
    let p = " JOIN "@;
    let m: int = lt + jk.len() - 4;
    assert(rest.subrange(m, m + 6) =~= p);
    lemma_upper_match_at(rest, p, m);
    assert forall|i: int| 0 <= i < m implies !#[trigger] matches_at(hr, p, i) by {
        if matches_at(hr, p, i) {
            lemma_match_char(hr, p, i, 0);
            lemma_match_char(hr, p, i, 1);
            if i < lt {
                assert(rest[i] == a[i]);
                assert(!unicode_white_space(a[i]));
                lemma_upper_space(rest[i]);
            } else {
                let q = i - lt;
                assert(rest[i] == (seq![' '] + jk)[q]);
                assert(rest[i + 1] == (seq![' '] + jk)[q + 1]);
            }
        }
    }
    lemma_find_exact(hr, p, m);
}

/// The names after the joins of `a <jk> b [ON on]`: just `b`.
proof fn lemma_joined_names_one(a: Seq<char>, jk: Seq<char>, b: Seq<char>, on: Seq<char>)
    requires
        one_word(a),
        one_word(b),
        jk == "JOIN"@ || jk == "INNER JOIN"@ || jk == "LEFT JOIN"@ || jk == "RIGHT JOIN"@
            || jk == "CROSS JOIN"@,
        !has_word(on, "JOIN"@),
    ensures
        crate::scratch::joined_names(
            a + seq![' '] + jk + seq![' '] + (b + opt_clause(" ON "@, on)),
            0,
        ) == seq![b],
{
    lemma_join_words();
    let c = opt_clause(" ON "@, on);
    let r = b + c;
    let rest = a + seq![' '] + jk + seq![' '] + r;
    lemma_first_join(a, jk, r);
    let hr = upper(rest);
    let p = " JOIN "@;
    let m: int = a.len() + jk.len() - 4;
    let pre = a + seq![' '] + jk + seq![' '];
    assert(rest =~= pre + b + c);
    assert(rest.skip(m + 6) =~= r);
    lemma_name_before_on(b, on);
    assert forall|i: int| m + 6 <= i implies !#[trigger] matches_at(hr, p, i) by {
        if matches_at(hr, p, i) {
            assert(i + 6 <= rest.len());
            lemma_no_join_after(pre, b, on, i);
        }
    }
    lemma_find_from(hr, p, m + 6);
    assert(m + 6 <= rest.len());
    assert(crate::scratch::name_before_clause(rest.skip(m + 6)) == b);
    assert(b.len() > 0);
    assert(crate::scratch::joined_names(rest, m + 6) =~= Seq::<Seq<char>>::empty());
    assert(crate::scratch::joined_names(rest, 0) == seq![b] + crate::scratch::joined_names(rest, m + 6));
    assert(seq![b] + Seq::<Seq<char>>::empty() =~= seq![b]);
}

/// The tables of pasted SQL that joins one table to another (`JOIN`,
/// `INNER JOIN`, `LEFT JOIN`, `RIGHT JOIN` or `CROSS JOIN`), with or without
/// an ON condition, are those two tables in order, however the SQL is
/// spaced: when both are one word, FROM is not a word of the SELECT list and
/// JOIN is not a word of the ON condition.
pub proof fn lemma_pasted_join_tables(
    sql: Seq<char>,
    j: Seq<char>,
    a: Seq<char>,
    jk: Seq<char>,
    b: Seq<char>,
    on: Seq<char>,
)
    requires
        normalize_space(sql) == "SELECT "@ + j + " FROM "@ + a + " "@ + jk + " "@ + b + opt_clause(
            " ON "@,
            on,
        ),
        !has_word(j, "FROM"@),
        one_word(a),
        one_word(b),
        jk == "JOIN"@ || jk == "INNER JOIN"@ || jk == "LEFT JOIN"@ || jk == "RIGHT JOIN"@
            || jk == "CROSS JOIN"@,
        !has_word(on, "JOIN"@),
    ensures
        crate::scratch::pasted_table_names(sql) == seq![a, b],
{
    reveal_strlit(" ");
    let c = opt_clause(" ON "@, on);
    let r = b + c;
    let rest = a + seq![' '] + jk + seq![' '] + r;
    assert(normalize_space(sql) =~= "SELECT "@ + j + " FROM "@ + rest);
    lemma_from_found_text(j, rest);
    lemma_first_pasted_name(a, jk, r);
    lemma_first_join(a, jk, r);
    lemma_joined_names_one(a, jk, b, on);
    assert(crate::scratch::pasted_table_names(sql) =~= seq![a, b]);
}

} // verus!
