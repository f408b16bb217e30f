//! Deterministic, filesystem-safe identifiers ("slugs") derived from
//! human-readable case and method names.
//!
//! A slug is obtained by lower-casing every ASCII-alphanumeric character,
//! replacing every maximal run of other characters by a single `_`, and
//! trimming separators from both ends.  Equivalently: the name's
//! alphanumeric words, lower-cased and joined by single underscores.

use vstd::prelude::*;
use vstd::string::StringExecFns;

verus! {

/// ASCII-alphanumeric characters are the ones that survive into a slug.
pub open spec fn is_alnum(c: char) -> bool {
    ('0' <= c && c <= '9') || ('a' <= c && c <= 'z') || ('A' <= c && c <= 'Z')
}

/// ASCII lower-casing of a single character.
pub open spec fn lower(c: char) -> char {
    if 'A' <= c && c <= 'Z' {
        ((c as u32) + 32) as char
    } else {
        c
    }
}

/// The lower-cased alphanumeric words of a name: each maximal run of
/// alphanumeric characters, in order.
pub open spec fn words(s: Seq<char>) -> Seq<Seq<char>>
    decreases s.len(),
{
    if s.len() == 0 {
        Seq::empty()
    } else {
        let w = words(s.drop_last());
        let c = s.last();
        if !is_alnum(c) {
            w
        } else if s.len() >= 2 && is_alnum(s[s.len() - 2]) {
            w.update(w.len() - 1, w.last().push(lower(c)))
        } else {
            w.push(seq![lower(c)])
        }
    }
}

/// Words joined by single `_` separators.
pub open spec fn joined(ws: Seq<Seq<char>>) -> Seq<char>
    decreases ws.len(),
{
    if ws.len() == 0 {
        Seq::empty()
    } else if ws.len() == 1 {
        ws[0]
    } else {
        joined(ws.drop_last()).push('_') + ws.last()
    }
}

/// What `slug` returns: the name's lower-cased words joined by `_`.
pub open spec fn slug_spec(s: Seq<char>) -> Seq<char> {
    joined(words(s))
}

/// A name ending in an alphanumeric character has at least one word.
proof fn lemma_words_nonempty(s: Seq<char>)
    requires
        s.len() > 0,
        is_alnum(s.last()),
    ensures
        words(s).len() > 0,
    decreases s.len(),
{
    if s.len() >= 2 && is_alnum(s[s.len() - 2]) {
        lemma_words_nonempty(s.drop_last());
    }
}

/// Extending the last word commutes with joining.
proof fn lemma_joined_extend_last(ws: Seq<Seq<char>>, c: char)
    requires
        ws.len() > 0,
    ensures
        joined(ws.update(ws.len() - 1, ws.last().push(c))) == joined(ws).push(c),
{
    let ws2 = ws.update(ws.len() - 1, ws.last().push(c));
    if ws.len() == 1 {
        assert(joined(ws2) =~= joined(ws).push(c));
    } else {
        assert(ws2.drop_last() =~= ws.drop_last());
        assert(ws2.last() == ws.last().push(c));
        assert(joined(ws2) == joined(ws.drop_last()).push('_') + ws.last().push(c));
        assert(joined(ws.drop_last()).push('_') + ws.last().push(c) =~= (joined(
            ws.drop_last(),
        ).push('_') + ws.last()).push(c));
    }
}

/// Appending a fresh word appends a separator and the word.
proof fn lemma_joined_push(ws: Seq<Seq<char>>, w: Seq<char>)
    requires
        ws.len() > 0,
    ensures
        joined(ws.push(w)) == joined(ws).push('_') + w,
{
    let ws2 = ws.push(w);
    assert(ws2.drop_last() =~= ws);
    assert(ws2.last() == w);
}

/// Whether the character can occur inside a slug's words: a lower-case
/// ASCII letter or digit.
pub open spec fn is_slug_word_char(c: char) -> bool {
    ('0' <= c && c <= '9') || ('a' <= c && c <= 'z')
}

/// Every word of a name is nonempty and made of lower-case alphanumerics.
pub open spec fn words_wf(ws: Seq<Seq<char>>) -> bool {
    forall|i: int|
        0 <= i < ws.len() ==> #[trigger] ws[i].len() > 0 && (forall|j: int|
            0 <= j < ws[i].len() ==> is_slug_word_char(#[trigger] ws[i][j]))
}

proof fn lemma_lower_is_word_char(c: char)
    requires
        is_alnum(c),
    ensures
        is_slug_word_char(lower(c)),
{
}

proof fn lemma_words_wf(s: Seq<char>)
    ensures
        words_wf(words(s)),
    decreases s.len(),
{
    if s.len() > 0 {
        lemma_words_wf(s.drop_last());
        let w = words(s.drop_last());
        let c = s.last();
        if !is_alnum(c) {
        } else if s.len() >= 2 && is_alnum(s[s.len() - 2]) {
            lemma_words_nonempty(s.drop_last());
            lemma_lower_is_word_char(c);
            assert(words_wf(w.update(w.len() - 1, w.last().push(lower(c)))));
        } else {
            lemma_lower_is_word_char(c);
            assert(words_wf(w.push(seq![lower(c)])));
        }
    }
}

/// A well-formed slug: no separator at either end, no two adjacent
/// separators, and only lower-case alphanumerics or `_` inside.
pub open spec fn slug_wf(s: Seq<char>) -> bool {
    &&& forall|i: int| 0 <= i < s.len() ==> is_slug_word_char(#[trigger] s[i]) || s[i] == '_'
    &&& s.len() > 0 ==> s[0] != '_' && s.last() != '_'
    &&& forall|i: int| 0 <= i && i + 1 < s.len() ==> !(#[trigger] s[i] == '_' && s[i + 1] == '_')
}

proof fn lemma_joined_wf(ws: Seq<Seq<char>>)
    requires
        words_wf(ws),
    ensures
        slug_wf(joined(ws)),
        ws.len() > 0 ==> joined(ws).len() > 0,
    decreases ws.len(),
{
    if ws.len() == 0 {
    } else if ws.len() == 1 {
        assert(ws[0].len() > 0);
        assert(forall|j: int| 0 <= j < ws[0].len() ==> is_slug_word_char(#[trigger] ws[0][j]));
        assert(!is_slug_word_char('_'));
        assert(slug_wf(joined(ws)));
    } else {
        assert(words_wf(ws.drop_last())) by {
            assert(forall|i: int|
                0 <= i < ws.drop_last().len() ==> ws.drop_last()[i] == ws[i]);
        }
        lemma_joined_wf(ws.drop_last());
        let p = joined(ws.drop_last());
        let w = ws.last();
        assert(w.len() > 0 && (forall|j: int| 0 <= j < w.len() ==> is_slug_word_char(#[trigger] w[j])));
        let r = p.push('_') + w;
        assert(joined(ws) == r);
        assert(p.len() > 0);
        assert(forall|i: int|
            0 <= i < r.len() ==> is_slug_word_char(#[trigger] r[i]) || r[i] == '_') by {
            assert(forall|i: int| 0 <= i < p.len() ==> r[i] == p[i]);
            assert(r[p.len() as int] == '_');
            assert(forall|i: int| p.len() + 1 <= i < r.len() ==> r[i] == w[i - p.len() - 1]);
        }
        assert(r[0] == p[0]);
        assert(r.last() == w.last());
        assert(!is_slug_word_char('_'));
        assert(forall|i: int|
            0 <= i && i + 1 < r.len() ==> !(#[trigger] r[i] == '_' && r[i + 1] == '_')) by {
            assert(forall|i: int| 0 <= i < p.len() ==> r[i] == p[i]);
            assert(forall|i: int| p.len() + 1 <= i < r.len() ==> r[i] == w[i - p.len() - 1]);
            assert(p.last() != '_');
            assert(w[0] != '_');
        }
    }
}

/// A slug never starts or ends with a separator, never holds two adjacent
/// separators, and consists of lower-case alphanumerics and `_` alone.
pub proof fn lemma_slug_wf(s: Seq<char>)
    ensures
        slug_wf(slug_spec(s)),
        words(s).len() > 0 ==> slug_spec(s).len() > 0,
{
    lemma_words_wf(s);
    lemma_joined_wf(words(s));
}

/// Slug determinism: the slug of a name depends only on the name's
/// lower-cased alphanumeric words.  Two names that differ only in letter
/// case or in which separator characters stand between the words — such
/// as `"sqrt(x+1)"` and `"SQRT X+1"` — therefore share one slug.
pub proof fn lemma_slug_of_words(s1: Seq<char>, s2: Seq<char>)
    requires
        words(s1) == words(s2),
    ensures
        slug_spec(s1) == slug_spec(s2),
{
}

/// Lower-casing a whole name does not change its words, hence not its slug.
pub proof fn lemma_slug_ignores_case(s: Seq<char>)
    ensures
        words(s.map(|i: int, c: char| lower(c))) == words(s),
        slug_spec(s.map(|i: int, c: char| lower(c))) == slug_spec(s),
    decreases s.len(),
{
    let m = s.map(|i: int, c: char| lower(c));
    if s.len() == 0 {
        assert(m =~= s);
    } else {
        lemma_slug_ignores_case(s.drop_last());
        assert(m.drop_last() =~= s.drop_last().map(|i: int, c: char| lower(c)));
        assert(m.last() == lower(s.last()));
        assert(is_alnum(lower(s.last())) == is_alnum(s.last()));
        assert(lower(lower(s.last())) == lower(s.last()));
        if s.len() >= 2 {
            assert(m[m.len() - 2] == lower(s[s.len() - 2]));
            assert(is_alnum(m[m.len() - 2]) == is_alnum(s[s.len() - 2]));
        }
    }
}

/// Two names of equal length that agree on their alphanumeric
/// characters, wherever they stand, have the same words: which
/// separator characters stand between the words does not matter.
pub proof fn lemma_slug_ignores_separator_choice(s1: Seq<char>, s2: Seq<char>)
    requires
        s1.len() == s2.len(),
        forall|i: int|
            0 <= i < s1.len() ==> (is_alnum(#[trigger] s1[i]) == is_alnum(#[trigger] s2[i]) && (
            is_alnum(s1[i]) ==> s1[i] == s2[i])),
    ensures
        words(s1) == words(s2),
        slug_spec(s1) == slug_spec(s2),
    decreases s1.len(),
{
    if s1.len() > 0 {
        assert(s1.drop_last().len() == s2.drop_last().len());
        assert(forall|i: int|
            0 <= i < s1.drop_last().len() ==> s1.drop_last()[i] == s1[i] && s2.drop_last()[i]
                == s2[i]);
        lemma_slug_ignores_separator_choice(s1.drop_last(), s2.drop_last());
        assert(is_alnum(s1.last()) == is_alnum(s2.last()));
        if s1.len() >= 2 {
            assert(is_alnum(s1[s1.len() - 2]) == is_alnum(s2[s2.len() - 2]));
        }
        if is_alnum(s1.last()) {
            assert(s1.last() == s2.last());
        }
    }
}

/// Decides `is_alnum` on a character.
pub fn is_alnum_char(c: char) -> (r: bool)
    ensures
        r == is_alnum(c),
{
    ('0' <= c && c <= '9') || ('a' <= c && c <= 'z') || ('A' <= c && c <= 'Z')
}

/// Append the lower-cased form of an alphanumeric character to `out`.
fn push_lower(out: &mut String, c: char)
    requires
        is_alnum(c),
    ensures
        final(out)@ == old(out)@.push(lower(c)),
{
    let s: &str = match c {
        'a' | 'A' => "a",
        'b' | 'B' => "b",
        'c' | 'C' => "c",
        'd' | 'D' => "d",
        'e' | 'E' => "e",
        'f' | 'F' => "f",
        'g' | 'G' => "g",
        'h' | 'H' => "h",
        'i' | 'I' => "i",
        'j' | 'J' => "j",
        'k' | 'K' => "k",
        'l' | 'L' => "l",
        'm' | 'M' => "m",
        'n' | 'N' => "n",
        'o' | 'O' => "o",
        'p' | 'P' => "p",
        'q' | 'Q' => "q",
        'r' | 'R' => "r",
        's' | 'S' => "s",
        't' | 'T' => "t",
        'u' | 'U' => "u",
        'v' | 'V' => "v",
        'w' | 'W' => "w",
        'x' | 'X' => "x",
        'y' | 'Y' => "y",
        'z' | 'Z' => "z",
        '0' => "0",
        '1' => "1",
        '2' => "2",
        '3' => "3",
        '4' => "4",
        '5' => "5",
        '6' => "6",
        '7' => "7",
        '8' => "8",
        _ => "9",
    };
    proof {
        reveal_strlit("a");
        reveal_strlit("b");
        reveal_strlit("c");
        reveal_strlit("d");
        reveal_strlit("e");
        reveal_strlit("f");
        reveal_strlit("g");
        reveal_strlit("h");
        reveal_strlit("i");
        reveal_strlit("j");
        reveal_strlit("k");
        reveal_strlit("l");
        reveal_strlit("m");
        reveal_strlit("n");
        reveal_strlit("o");
        reveal_strlit("p");
        reveal_strlit("q");
        reveal_strlit("r");
        reveal_strlit("s");
        reveal_strlit("t");
        reveal_strlit("u");
        reveal_strlit("v");
        reveal_strlit("w");
        reveal_strlit("x");
        reveal_strlit("y");
        reveal_strlit("z");
        reveal_strlit("0");
        reveal_strlit("1");
        reveal_strlit("2");
        reveal_strlit("3");
        reveal_strlit("4");
        reveal_strlit("5");
        reveal_strlit("6");
        reveal_strlit("7");
        reveal_strlit("8");
        reveal_strlit("9");
        assert(s@ =~= seq![lower(c)]);
    }
    out.append(s);
    proof {
        assert(old(out)@ + s@ =~= old(out)@.push(lower(c)));
    }
}

/// Append a single separator to `out`.
fn push_sep(out: &mut String)
    ensures
        final(out)@ == old(out)@.push('_'),
{
    proof {
        reveal_strlit("_");
        assert("_"@ =~= seq!['_']);
    }
    out.append("_");
    proof {
        assert(old(out)@ + "_"@ =~= old(out)@.push('_'));
    }
}

/// Derive the filesystem-safe identifier of a name: its lower-cased
/// alphanumeric words joined by single underscores.
pub fn slug(s: &str) -> (r: String)
    ensures
        r@ == slug_spec(s@),
{
    let mut out = String::new();
    let mut pending = false;
    for c in it: s.chars()
        invariant
            it.seq() == s@,
            out@ == slug_spec(s@.take(it.index() as int)),
            pending == (it.index() > 0 && !is_alnum(s@[it.index() - 1])),
            out@.len() > 0 <==> words(s@.take(it.index() as int)).len() > 0,
    {
        let ghost i = it.index() as int;
        let ghost p = s@.take(i);
        let ghost p2 = s@.take(i + 1);
        proof {
            assert(p2.drop_last() =~= p);
            assert(p2.last() == c);
            lemma_words_wf(p);
        }
        if is_alnum_char(c) {
            if pending && !out.as_str().is_empty() {
                proof {
                    assert(words(p2) == words(p).push(seq![lower(c)]));
                    lemma_joined_push(words(p), seq![lower(c)]);
                }
                push_sep(&mut out);
                push_lower(&mut out, c);
                proof {
                    assert(out@ =~= slug_spec(p).push('_') + seq![lower(c)]);
                }
            } else if out.as_str().is_empty() {
                proof {
                    if i > 0 && is_alnum(p.last()) {
                        lemma_words_nonempty(p);
                        lemma_joined_wf(words(p));
                        assert(false);
                    }
                    assert(words(p2) == words(p).push(seq![lower(c)]));
                    assert(words(p).len() == 0);
                    assert(words(p2) =~= seq![seq![lower(c)]]);
                }
                push_lower(&mut out, c);
                proof {
                    assert(out@ =~= joined(seq![seq![lower(c)]]));
                }
            } else {
                // `out` is nonempty and no separator is pending: the previous
                // character belongs to the same word, which `c` extends.
                proof {
                    assert(i > 0 && is_alnum(p.last()));
                    lemma_words_nonempty(p);
                    assert(words(p2) == words(p).update(
                        words(p).len() - 1,
                        words(p).last().push(lower(c)),
                    ));
                    lemma_joined_extend_last(words(p), lower(c));
                }
                push_lower(&mut out, c);
            }
            pending = false;
        } else {
            proof {
                assert(words(p2) == words(p));
            }
            pending = true;
        }
    }
    proof {
        assert(s@.take(s@.len() as int) =~= s@);
    }
    out
}

} // verus!
