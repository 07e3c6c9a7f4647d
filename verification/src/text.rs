//! Tokenization: lower-case, split on whitespace, trim non-alphanumeric
//! boundary characters, drop what is left empty.

use vstd::prelude::*;

verus! {

/// Whether a character beyond ASCII counts as alphanumeric; the Unicode
/// tables behind `char::is_alphanumeric` decide.
pub uninterp spec fn unicode_alnum(c: char) -> bool;

/// Whether a character beyond ASCII counts as whitespace; the Unicode
/// tables behind `char::is_whitespace` decide.
pub uninterp spec fn unicode_white(c: char) -> bool;

/// What `str::to_lowercase` returns for the given characters.
pub uninterp spec fn lower_of(s: Seq<char>) -> Seq<char>;

/// Alphanumeric: ASCII letters and digits, and beyond ASCII whatever the
/// Unicode tables say.
pub open spec fn alnum(c: char) -> bool {
    if (c as u32) < 0x80 {
        (0x61 <= (c as u32) && (c as u32) <= 0x7a) || (0x41 <= (c as u32) && (c as u32) <= 0x5a)
            || (0x30 <= (c as u32) && (c as u32) <= 0x39)
    } else {
        unicode_alnum(c)
    }
}

/// Whitespace: the ASCII whitespace characters, and beyond ASCII whatever
/// the Unicode tables say.
pub open spec fn white(c: char) -> bool {
    if (c as u32) < 0x80 {
        c == ' ' || c == '\t' || c == '\n' || c == '\r' || c == '\u{b}' || c == '\u{c}'
    } else {
        unicode_white(c)
    }
}

/// An ASCII character that lowercasing leaves alone: anything but a
/// capital letter.
pub open spec fn ascii_lower_stable(c: char) -> bool {
    (c as u32) < 0x80 && !(0x41 <= (c as u32) && (c as u32) <= 0x5a)
}

/// Relies on char::is_alphanumeric: ASCII letters and digits are
/// alphanumeric, no other ASCII character is, and beyond ASCII the Unicode
/// tables decide.
#[verifier::external_body]
fn char_is_alphanumeric(c: char) -> (r: bool)
    ensures
        r == alnum(c),
        (c as u32) >= 0x80 ==> r == unicode_alnum(c),
{
    c.is_alphanumeric()
}

/// Relies on char::is_whitespace: among ASCII characters exactly space,
/// tab, line feed, vertical tab, form feed and carriage return are
/// whitespace, and beyond ASCII the Unicode tables decide.
#[verifier::external_body]
pub(crate) fn char_is_whitespace(c: char) -> (r: bool)
    ensures
        r == white(c),
        (c as u32) >= 0x80 ==> r == unicode_white(c),
{
    c.is_whitespace()
}

/// Relies on str::to_lowercase: the result is a function of the characters
/// alone, and a string of ASCII characters holding no capital letter comes
/// back unchanged.
#[verifier::external_body]
fn lowercase(s: &str) -> (r: String)
    ensures
        r@ == lower_of(s@),
        (forall|i: int| 0 <= i < s@.len() ==> ascii_lower_stable(#[trigger] s@[i])) ==> r@ == s@,
{
    s.to_lowercase()
}

/// Length of the maximal leading run of non-whitespace characters.
pub open spec fn word_len(s: Seq<char>) -> int
    decreases s.len(),
{
    if s.len() == 0 || white(s[0]) {
        0
    } else {
        1 + word_len(s.drop_first())
    }
}

/// The word prefix never leaves the sequence, and starts only on
/// non-whitespace.
pub proof fn lemma_word_len_bounds(s: Seq<char>)
    ensures
        0 <= word_len(s) <= s.len(),
        s.len() > 0 && !white(s[0]) ==> word_len(s) >= 1,
    decreases s.len(),
{
    if s.len() > 0 && !white(s[0]) {
        lemma_word_len_bounds(s.drop_first());
    }
}

/// The word prefix ends exactly at the first whitespace character.
pub proof fn lemma_word_len_exact(s: Seq<char>, w: int)
    requires
        0 <= w <= s.len(),
        forall|t: int| 0 <= t < w ==> !white(#[trigger] s[t]),
        w == s.len() || white(s[w]),
    ensures
        word_len(s) == w,
    decreases w,
{
    if w == 0 {
    } else {
        lemma_word_len_exact(s.drop_first(), w - 1);
    }
}

/// Drop non-alphanumeric characters from the front.
pub open spec fn trim_front(t: Seq<char>) -> Seq<char>
    decreases t.len(),
{
    if t.len() == 0 {
        t
    } else if !alnum(t[0]) {
        trim_front(t.drop_first())
    } else {
        t
    }
}

/// Drop non-alphanumeric characters from the back.
pub open spec fn trim_back(t: Seq<char>) -> Seq<char>
    decreases t.len(),
{
    if t.len() == 0 {
        t
    } else if !alnum(t.last()) {
        trim_back(t.drop_last())
    } else {
        t
    }
}

/// Both trims: what `str::trim_matches` with a non-alphanumeric pattern
/// leaves of a word.
pub open spec fn trim_token(t: Seq<char>) -> Seq<char> {
    trim_back(trim_front(t))
}

/// The front trim ends exactly at the first alphanumeric character.
pub proof fn lemma_trim_front_exact(t: Seq<char>, a: int)
    requires
        0 <= a <= t.len(),
        forall|x: int| 0 <= x < a ==> !alnum(#[trigger] t[x]),
        a == t.len() || alnum(t[a]),
    ensures
        trim_front(t) == t.skip(a),
    decreases a,
{
    if a == 0 {
        assert(t.skip(0) =~= t);
    } else {
        lemma_trim_front_exact(t.drop_first(), a - 1);
        assert(t.drop_first().skip(a - 1) =~= t.skip(a));
    }
}

/// The back trim ends exactly after the last alphanumeric character.
pub proof fn lemma_trim_back_exact(t: Seq<char>, b: int)
    requires
        0 <= b <= t.len(),
        forall|x: int| b <= x < t.len() ==> !alnum(#[trigger] t[x]),
        b == 0 || alnum(t[b - 1]),
    ensures
        trim_back(t) == t.take(b),
    decreases t.len(),
{
    if t.len() == 0 {
        assert(t.take(0) =~= t);
    } else if !alnum(t.last()) {
        lemma_trim_back_exact(t.drop_last(), b);
        assert(t.drop_last().take(b) =~= t.take(b));
    } else {
        assert(b == t.len());
        assert(t.take(b) =~= t);
    }
}

/// The tokens of a character sequence: maximal non-whitespace runs, each
/// trimmed of non-alphanumeric boundary characters, empties dropped.
pub open spec fn tokens_of(s: Seq<char>) -> Seq<Seq<char>>
    decreases s.len(),
    via tokens_of_decreases
{
    if s.len() == 0 {
        Seq::empty()
    } else if white(s[0]) {
        tokens_of(s.drop_first())
    } else {
        let w = word_len(s);
        let tok = trim_token(s.take(w));
        let rest = tokens_of(s.skip(w));
        if tok.len() == 0 {
            rest
        } else {
            seq![tok] + rest
        }
    }
}

#[via_fn]
proof fn tokens_of_decreases(s: Seq<char>) {
    if s.len() > 0 && !white(s[0]) {
        lemma_word_len_bounds(s);
    }
}

/// Tokenize: lower-case the text, split it on whitespace, trim each word's
/// non-alphanumeric boundary characters, and drop what is left empty.
///
/// On text whose characters are ASCII with no capital letters the
/// lowercasing step leaves the text unchanged, so the tokens are
/// `tokens_of` of the input itself.
pub fn tokenize(document: &str) -> (r: Vec<String>)
    ensures
        r.deep_view() == tokens_of(lower_of(document@)),
        (forall|i: int|
            0 <= i < document@.len() ==> ascii_lower_stable(#[trigger] document@[i]))
            ==> r.deep_view() == tokens_of(document@),
{
    let low = lowercase(document);
    let lows: &str = low.as_str();
    let n = lows.unicode_len();
    let mut toks: Vec<String> = Vec::new();
    let mut i: usize = 0;
    proof {
        assert(lows@.skip(0) =~= lows@);
    }
    while i < n
        invariant
            n == lows@.len(),
            lows@ == lower_of(document@),
            i <= n,
            toks.deep_view() + tokens_of(lows@.skip(i as int)) =~= tokens_of(lows@),
        decreases n - i,
    {
        let c = lows.get_char(i);
        if char_is_whitespace(c) {
            proof {
                assert(lows@.skip(i as int).drop_first() =~= lows@.skip(i + 1));
            }
            i = i + 1;
        } else {
            let ghost rest = lows@.skip(i as int);
            let mut j: usize = i + 1;
            while j < n && !char_is_whitespace(lows.get_char(j))
                invariant
                    n == lows@.len(),
                    i < j <= n,
                    forall|t: int| i <= t < j ==> !white(#[trigger] lows@[t]),
                decreases n - j,
            {
                j = j + 1;
            }
            proof {
                assert(rest =~= lows@.skip(i as int));
                assert forall|t: int| 0 <= t < j - i implies !white(#[trigger] rest[t]) by {
                    assert(rest[t] == lows@[i + t]);
                }
                if j < n {
                    assert(rest[j - i] == lows@[j as int]);
                }
                lemma_word_len_exact(rest, j - i);
            }
            let mut a: usize = i;
            while a < j && !char_is_alphanumeric(lows.get_char(a))
                invariant
                    n == lows@.len(),
                    i <= a <= j <= n,
                    forall|t: int| i <= t < a ==> !alnum(#[trigger] lows@[t]),
                decreases j - a,
            {
                a = a + 1;
            }
            let ghost word = lows@.subrange(i as int, j as int);
            proof {
                assert(word =~= rest.take(j - i));
                assert forall|t: int| 0 <= t < a - i implies !alnum(#[trigger] word[t]) by {
                    assert(word[t] == lows@[i + t]);
                }
                if a < j {
                    assert(word[a - i] == lows@[a as int]);
                }
                lemma_trim_front_exact(word, a - i);
            }
            if a == j {
                proof {
                    assert(word.skip(j - i) =~= Seq::<char>::empty());
                    assert(trim_token(word).len() == 0);
                    assert(tokens_of(lows@.skip(i as int)) == tokens_of(lows@.skip(j as int)))
                        by {
                        assert(rest.skip(j - i) =~= lows@.skip(j as int));
                    }
                }
            } else {
                let mut b: usize = j - 1;
                while b > a && !char_is_alphanumeric(lows.get_char(b))
                    invariant
                        n == lows@.len(),
                        i <= a <= b < j <= n,
                        alnum(lows@[a as int]),
                        forall|t: int| b < t < j ==> !alnum(#[trigger] lows@[t]),
                    decreases b,
                {
                    b = b - 1;
                }
                proof {
                    assert(alnum(lows@[b as int]));
                    let tf = trim_front(word);
                    assert(tf =~= word.skip(a - i));
                    assert(tf.len() == j - a);
                    assert forall|x: int| b + 1 - a <= x < tf.len() implies !alnum(
                        #[trigger] tf[x],
                    ) by {
                        assert(tf[x] == lows@[a + x]);
                    }
                    assert(tf[b - a] == lows@[b as int]);
                    lemma_trim_back_exact(tf, b + 1 - a);
                    assert(trim_token(word) =~= lows@.subrange(a as int, b + 1));
                }
                let tok = lows.substring_char(a, b + 1);
                let towned = String::from_str(tok);
                let ghost old_deep = toks.deep_view();
                toks.push(towned);
                proof {
                    assert(toks.deep_view() =~= old_deep.push(trim_token(word)));
                    assert(rest.skip(j - i) =~= lows@.skip(j as int));
                    assert(tokens_of(rest) == seq![trim_token(word)] + tokens_of(
                        lows@.skip(j as int),
                    ));
                    assert(old_deep.push(trim_token(word)) =~= old_deep + seq![trim_token(word)]);
                    assert(toks.deep_view() + tokens_of(lows@.skip(j as int)) =~= old_deep + (
                    seq![trim_token(word)] + tokens_of(lows@.skip(j as int))));
                }
            }
            i = j;
        }
    }
    proof {
        assert(lows@.skip(n as int) =~= Seq::<char>::empty());
        assert(toks.deep_view() + tokens_of(lows@.skip(n as int)) =~= toks.deep_view());
        assert(toks.deep_view() =~= tokens_of(lows@));
        if forall|w: int| 0 <= w < document@.len() ==> ascii_lower_stable(#[trigger] document@[w]) {
            assert(lows@ == document@);
        }
    }
    toks
}

/// A clean token: non-empty, every character an ASCII lower-case letter or
/// digit.
pub open spec fn clean_token(t: Seq<char>) -> bool {
    t.len() > 0 && forall|i: int|
        0 <= i < t.len() ==> ((0x61 <= (#[trigger] t[i] as u32) && (t[i] as u32) <= 0x7a) || (0x30
            <= (t[i] as u32) && (t[i] as u32) <= 0x39))
}

/// Clean tokens joined by single spaces.
pub open spec fn joined(ts: Seq<Seq<char>>) -> Seq<char>
    decreases ts.len(),
{
    if ts.len() == 0 {
        Seq::empty()
    } else if ts.len() == 1 {
        ts[0]
    } else {
        ts[0] + seq![' '] + joined(ts.drop_first())
    }
}

/// Tokenization is idempotent on already-tokenized text: clean tokens
/// joined by single spaces tokenize back to exactly those tokens.
pub proof fn lemma_tokenize_idempotent(ts: Seq<Seq<char>>)
    requires
        forall|k: int| 0 <= k < ts.len() ==> clean_token(#[trigger] ts[k]),
    ensures
        tokens_of(joined(ts)) == ts,
    decreases ts.len(),
{
    let s = joined(ts);
    if ts.len() == 0 {
        assert(tokens_of(s) =~= Seq::<Seq<char>>::empty());
        assert(tokens_of(s) == ts) by {
            assert(ts =~= Seq::<Seq<char>>::empty());
        }
    } else if ts.len() == 1 {
        let t = ts[0];
        assert(s == t);
        assert forall|x: int| 0 <= x < t.len() implies !white(#[trigger] t[x]) && alnum(t[x]) by {
            assert(clean_token(ts[0]));
        }
        lemma_word_len_exact(t, t.len() as int);
        assert(t.take(t.len() as int) =~= t);
        lemma_trim_front_exact(t, 0);
        assert(t.skip(0) =~= t);
        lemma_trim_back_exact(t, t.len() as int);
        assert(trim_token(t) == t);
        assert(t.skip(t.len() as int) =~= Seq::<char>::empty());
        assert(tokens_of(s) =~= seq![t] + tokens_of(Seq::<char>::empty()));
        assert(tokens_of(s) =~= seq![t]);
        assert(ts =~= seq![t]);
    } else {
        let t = ts[0];
        let rest = ts.drop_first();
        assert(clean_token(ts[0]));
        lemma_tokenize_idempotent(rest);
        let tail = joined(rest);
        assert(s == t + seq![' '] + tail);
        assert forall|x: int| 0 <= x < t.len() implies !white(#[trigger] s[x]) && alnum(s[x]) by {
            assert(s[x] == t[x]);
        }
        assert(s[t.len() as int] == ' ');
        lemma_word_len_exact(s, t.len() as int);
        assert(s.take(t.len() as int) =~= t);
        lemma_trim_front_exact(t, 0);
        assert(t.skip(0) =~= t);
        lemma_trim_back_exact(t, t.len() as int);
        assert(t.take(t.len() as int) =~= t);
        assert(trim_token(t) == t);
        let after = s.skip(t.len() as int);
        assert(after[0] == ' ');
        assert(white(after[0]));
        assert(after.drop_first() =~= tail);
        assert(tokens_of(after) == tokens_of(tail));
        assert(tokens_of(s) =~= seq![t] + rest);
        assert(ts =~= seq![t] + rest);
    }
}

} // verus!
