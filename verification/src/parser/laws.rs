use vstd::prelude::*;

use crate::parser::lexer::Pull;
use crate::parser::lexer::TokenModel;
use crate::parser::lexer::pull_at;
use crate::parser::lexer::pull_word;
use crate::parser::lexer::spec_ws;
use crate::parser::lexer::structural_kind;
use crate::parser::lexer::word_char;
use crate::parser::lexer::word_cont;

verus! {

// ---------------------------------------------------------------------------
// The whole scan, as iterated pulls
// ---------------------------------------------------------------------------

/// The outcome of pulling tokens until the input ends or a character no
/// class recognises is met.
pub ghost enum Scan {
    /// Every pull emitted a token until the input was exhausted.
    Tokens(Seq<TokenModel>),
    /// Scanning stopped at an unrecognised character.
    Fail { loc: (int, int), ch: char },
}

/// The token sequence a consumer sees when it pulls the lexer dry,
/// starting from character `i` at position (`col`, `row`).
pub open spec fn scan_at(s: Seq<char>, i: int, col: int, row: int) -> Scan
    decreases s.len() - i,
        via scan_at_decreases
{
    match pull_at(s, i, col, row) {
        Pull::End { .. } => Scan::Tokens(Seq::empty()),
        Pull::Fail { loc, ch, .. } => Scan::Fail { loc, ch },
        Pull::Emit { tok, i: ni, col: ncol, row: nrow } => match scan_at(s, ni, ncol, nrow) {
            Scan::Tokens(ts) => Scan::Tokens(seq![tok] + ts),
            Scan::Fail { loc, ch } => Scan::Fail { loc, ch },
        },
    }
}

#[via_fn]
proof fn scan_at_decreases(s: Seq<char>, i: int, col: int, row: int) {
    lemma_pull_at_progress(s, i, col, row);
}

/// One pull from inside a word always emits a token, consumes at least the
/// character under the cursor, and the token's text is the closed word.
proof fn lemma_pull_word_progress(s: Seq<char>, start: int, i: int, col: int, row: int)
    requires
        0 <= i < s.len(),
    ensures
        pull_word(s, start, i, col, row) matches Pull::Emit { tok, i: ni, col: nc, row: nr }
            && i < ni <= s.len()
            && nc == col + (ni - i)
            && nr == row
            && tok.loc == (col - (i - start), nr)
            && tok.text == s.subrange(start, ni),
    decreases s.len() - i,
{
    if i + 1 < s.len() && word_cont(s[i + 1]) {
        lemma_pull_word_progress(s, start, i + 1, col + 1, row);
    }
}

/// A pull that emits a token consumes at least one character and stays
/// inside the source.
proof fn lemma_pull_at_progress(s: Seq<char>, i: int, col: int, row: int)
    ensures
        pull_at(s, i, col, row) matches Pull::Emit { tok, i: ni, .. } ==> i < ni <= s.len(),
    decreases s.len() - i,
{
    if 0 <= i < s.len() {
        let c = s[i];
        if c == ' ' {
            lemma_pull_at_progress(s, i + 1, col + 1, row);
        } else if c == '\n' {
            lemma_pull_at_progress(s, i + 1, 0, row + 1);
        } else if structural_kind(c) is Some {
        } else if c == '-' {
        } else if word_char(c) {
            lemma_pull_word_progress(s, i, i, col, row);
        }
    }
}

// ---------------------------------------------------------------------------
// Position tracking: the running location is monotone
// ---------------------------------------------------------------------------

proof fn lemma_pull_word_position(s: Seq<char>, start: int, i: int, col: int, row: int)
    requires
        0 <= i < s.len(),
    ensures
        pull_word(s, start, i, col, row) matches Pull::Emit { tok, i: ni, col: nc, row: nr }
            && nr == row
            && nc > col
            && tok.loc == (col - (i - start), nr),
    decreases s.len() - i,
{
    if i + 1 < s.len() && word_cont(s[i + 1]) {
        lemma_pull_word_position(s, start, i + 1, col + 1, row);
    }
}

/// Scanning never moves the position backwards: one pull leaves the row
/// alone and the column no smaller, or it crosses a newline, which resets
/// the column to zero and increments the row; an emitted token carries
/// the position its lexeme originates at; and a reported error carries
/// the position the pull reached.
pub proof fn lemma_position_monotone(s: Seq<char>, i: int, col: int, row: int)
    requires
        0 <= i <= s.len(),
    ensures
        match pull_at(s, i, col, row) {
            Pull::End { col: ecol, row: erow, .. } => erow >= row && (erow == row ==> ecol >= col),
            Pull::Emit { tok, col: nc, row: nr, .. } => nr >= row && (nr == row ==> nc > col)
                && tok.loc == (nc - tok.text.len(), nr),
            Pull::Fail { loc, col: fcol, row: frow, .. } => frow >= row && (frow == row ==> fcol
                >= col) && loc == (fcol, frow),
        },
    decreases s.len() - i,
{
    if i < s.len() {
        let c = s[i];
        if c == ' ' {
            lemma_position_monotone(s, i + 1, col + 1, row);
        } else if c == '\n' {
            lemma_position_monotone(s, i + 1, 0, row + 1);
        } else if structural_kind(c) is Some {
        } else if c == '-' {
        } else if word_char(c) {
            lemma_pull_word_position(s, i, i, col, row);
            lemma_pull_word_progress(s, i, i, col, row);
        }
    }
}

// ---------------------------------------------------------------------------
// Round trip: token texts reproduce the source without its whitespace
// ---------------------------------------------------------------------------

/// The source text with every whitespace character removed.
pub open spec fn strip_ws(s: Seq<char>) -> Seq<char>
    decreases s.len(),
{
    if s.len() == 0 {
        Seq::empty()
    } else if spec_ws(s[0]) {
        strip_ws(s.drop_first())
    } else {
        seq![s[0]] + strip_ws(s.drop_first())
    }
}

/// The raw texts of a token sequence, concatenated in order.
pub open spec fn token_texts(ts: Seq<TokenModel>) -> Seq<char>
    decreases ts.len(),
{
    if ts.len() == 0 {
        Seq::empty()
    } else {
        ts[0].text + token_texts(ts.drop_first())
    }
}

proof fn lemma_strip_step(s: Seq<char>, i: int)
    requires
        0 <= i < s.len(),
    ensures
        strip_ws(s.subrange(i, s.len() as int)) == if spec_ws(s[i]) {
            strip_ws(s.subrange(i + 1, s.len() as int))
        } else {
            seq![s[i]] + strip_ws(s.subrange(i + 1, s.len() as int))
        },
{
    let t = s.subrange(i, s.len() as int);
    assert(t[0] == s[i]);
    assert(t.drop_first() =~= s.subrange(i + 1, s.len() as int));
}

proof fn lemma_token_texts_cons(t: TokenModel, ts: Seq<TokenModel>)
    ensures
        token_texts(seq![t] + ts) == t.text + token_texts(ts),
{
    let u = seq![t] + ts;
    assert(u[0] == t);
    assert(u.drop_first() =~= ts);
}

/// Which characters a pull may consume: whitespace, a structural or
/// operator character, a word character, or the `>` of an arrow, directly
/// after its `-`.
pub open spec fn recognized(s: Seq<char>, k: int) -> bool {
    ||| spec_ws(s[k])
    ||| structural_kind(s[k]) is Some
    ||| s[k] == '-'
    ||| word_char(s[k])
    ||| (s[k] == '>' && 0 < k && s[k - 1] == '-')
}

/// The characters a word pull consumes extend the word, none of them is
/// whitespace, and the pull peels the word's text off the stripped source.
proof fn lemma_pull_word_strip(s: Seq<char>, start: int, i: int, col: int, row: int)
    requires
        0 <= i < s.len(),
        !spec_ws(s[i]),
    ensures
        pull_word(s, start, i, col, row) matches Pull::Emit { tok, i: ni, .. }
            && i < ni <= s.len()
            && strip_ws(s.subrange(i, s.len() as int)) == s.subrange(i, ni) + strip_ws(
            s.subrange(ni, s.len() as int))
            && (forall|k: int| i < k < ni ==> word_cont(#[trigger] s[k])),
    decreases s.len() - i,
{
    lemma_strip_step(s, i);
    if i + 1 < s.len() && word_cont(s[i + 1]) {
        lemma_pull_word_strip(s, start, i + 1, col + 1, row);
        match pull_word(s, start, i + 1, col + 1, row) {
            Pull::Emit { tok, i: ni, .. } => {
                assert(seq![s[i]] + s.subrange(i + 1, ni) =~= s.subrange(i, ni));
                assert(strip_ws(s.subrange(i, s.len() as int)) == seq![s[i]] + (s.subrange(
                    i + 1,
                    ni,
                ) + strip_ws(s.subrange(ni, s.len() as int))));
                assert(seq![s[i]] + (s.subrange(i + 1, ni) + strip_ws(
                    s.subrange(ni, s.len() as int),
                )) =~= (seq![s[i]] + s.subrange(i + 1, ni)) + strip_ws(
                    s.subrange(ni, s.len() as int),
                ));
            },
            _ => {
                assert(false);
            },
        }
    } else {
        assert(seq![s[i]] =~= s.subrange(i, i + 1));
    }
}

/// What one pull does to the stripped source: nothing when the input only
/// holds whitespace any more, and otherwise it peels off exactly the text
/// of the token it emits; and every character it consumes is recognised.
proof fn lemma_pull_at_strip(s: Seq<char>, i: int, col: int, row: int)
    requires
        0 <= i <= s.len(),
    ensures
        match pull_at(s, i, col, row) {
            Pull::End { i: ei, .. } => {
                &&& ei == s.len()
                &&& strip_ws(s.subrange(i, s.len() as int)) == Seq::<char>::empty()
                &&& forall|k: int| i <= k < s.len() ==> spec_ws(#[trigger] s[k])
            },
            Pull::Emit { tok, i: ni, .. } => {
                &&& i < ni <= s.len()
                &&& strip_ws(s.subrange(i, s.len() as int)) == tok.text + strip_ws(
                    s.subrange(ni, s.len() as int),
                )
                &&& forall|k: int| i <= k < ni ==> recognized(s, k)
            },
            Pull::Fail { .. } => true,
        },
    decreases s.len() - i,
{
    if i == s.len() {
        assert(s.subrange(i, s.len() as int) =~= Seq::<char>::empty());
    } else {
        let c = s[i];
        lemma_strip_step(s, i);
        if c == ' ' {
            lemma_pull_at_strip(s, i + 1, col + 1, row);
        } else if c == '\n' {
            lemma_pull_at_strip(s, i + 1, 0, row + 1);
        } else if structural_kind(c) is Some {
            assert(seq![c] =~= s.subrange(i, i + 1));
        } else if c == '-' {
            if i + 1 < s.len() && s[i + 1] == '>' {
                lemma_strip_step(s, i + 1);
                assert(seq!['-', '>'] =~= seq![s[i]] + (seq![s[i + 1]] + Seq::<char>::empty()));
                assert(seq![s[i]] + (seq![s[i + 1]] + strip_ws(s.subrange(i + 2, s.len() as int)))
                    =~= seq!['-', '>'] + strip_ws(s.subrange(i + 2, s.len() as int)));
            }
        } else if word_char(c) {
            lemma_pull_word_strip(s, i, i, col, row);
            lemma_pull_word_progress(s, i, i, col, row);
        }
    }
}

/// Concatenating the raw texts of all emitted tokens, in order, reproduces
/// the source with only its whitespace removed, whenever the source scans
/// without a lexical error.
proof fn lemma_round_trip_at(s: Seq<char>, i: int, col: int, row: int)
    requires
        0 <= i <= s.len(),
    ensures
        scan_at(s, i, col, row) matches Scan::Tokens(ts) ==> token_texts(ts) == strip_ws(
            s.subrange(i, s.len() as int),
        ),
    decreases s.len() - i,
{
    lemma_pull_at_strip(s, i, col, row);
    match pull_at(s, i, col, row) {
        Pull::End { .. } => {
            assert(token_texts(Seq::<TokenModel>::empty()) == Seq::<char>::empty());
        },
        Pull::Emit { tok, i: ni, col: nc, row: nr } => {
            lemma_round_trip_at(s, ni, nc, nr);
            match scan_at(s, ni, nc, nr) {
                Scan::Tokens(ts) => {
                    lemma_token_texts_cons(tok, ts);
                },
                Scan::Fail { .. } => {},
            }
        },
        Pull::Fail { .. } => {},
    }
}

/// Round trip: when a source scans without a lexical error, the raw texts
/// of the emitted tokens, concatenated in production order, reproduce the
/// source with only its whitespace characters removed.
pub proof fn lemma_round_trip(s: Seq<char>)
    ensures
        scan_at(s, 0, 0, 0) matches Scan::Tokens(ts) ==> token_texts(ts) == strip_ws(s),
{
    lemma_round_trip_at(s, 0, 0, 0);
    assert(s.subrange(0, s.len() as int) =~= s);
}

// ---------------------------------------------------------------------------
// Fatal path: an unrecognised character always surfaces as an error
// ---------------------------------------------------------------------------

proof fn lemma_bad_char_fails_at(s: Seq<char>, i: int, col: int, row: int)
    requires
        0 <= i <= s.len(),
        exists|k: int| i <= k < s.len() && !recognized(s, k),
    ensures
        scan_at(s, i, col, row) matches Scan::Fail { .. },
    decreases s.len() - i,
{
    let k0 = choose|k: int| i <= k < s.len() && !recognized(s, k);
    lemma_pull_at_strip(s, i, col, row);
    match pull_at(s, i, col, row) {
        Pull::End { .. } => {
            assert(spec_ws(s[k0]));
            assert(false);
        },
        Pull::Emit { tok, i: ni, col: nc, row: nr } => {
            assert(recognized(s, k0) || k0 >= ni);
            lemma_bad_char_fails_at(s, ni, nc, nr);
        },
        Pull::Fail { .. } => {},
    }
}

/// Fatal path: a source holding any character that no class recognises —
/// not whitespace, not a structural or operator character, not a word
/// character, and not the `>` of an arrow — never scans to a token
/// sequence; the scan surfaces a lexical error.
pub proof fn lemma_unrecognized_char_fails(s: Seq<char>)
    requires
        exists|k: int| 0 <= k < s.len() && !recognized(s, k),
    ensures
        scan_at(s, 0, 0, 0) matches Scan::Fail { .. },
{
    lemma_bad_char_fails_at(s, 0, 0, 0);
}

// ---------------------------------------------------------------------------
// Streams of single-character tokens separated by single spaces
// ---------------------------------------------------------------------------

/// The shape one character of such a source must have: a single-character
/// token at every even index, a single space at every odd one.
pub open spec fn spaced_shape(s: Seq<char>, k: int) -> bool {
    if k % 2 == 0 {
        structural_kind(s[k]) is Some || s[k] == '-'
    } else {
        s[k] == ' '
    }
}

/// A source consisting only of single-character structural and operator
/// tokens separated by single spaces.
pub open spec fn single_char_spaced(s: Seq<char>) -> bool {
    forall|k: int| 0 <= k < s.len() ==> #[trigger] spaced_shape(s, k)
}

proof fn lemma_spaced_singles_at(s: Seq<char>, i: int)
    requires
        s.len() % 2 == 1,
        single_char_spaced(s),
        0 <= i < s.len(),
        i % 2 == 0,
    ensures
        scan_at(s, i, i, 0) matches Scan::Tokens(ts)
            && ts.len() == (s.len() - i + 1) / 2
            && (forall|j: int| 0 <= j < ts.len() ==> (#[trigger] ts[j]).text == seq![s[i + 2 * j]]
                && ts[j].loc == (i + 2 * j, 0int)),
    decreases s.len() - i,
{
    assert(spaced_shape(s, i));
    let c = s[i];
    let tok = TokenModel {
        loc: (i, 0int),
        text: seq![c],
        kind: if c == '-' {
            crate::parser::token::TokenKind::Minus
        } else {
            structural_kind(c)->0
        },
    };
    if i + 1 < s.len() {
        assert(spaced_shape(s, i + 1));
        assert((i + 1) % 2 == 1);
        assert(s[i + 1] == ' ');
    }
    assert(pull_at(s, i, i, 0) == (Pull::Emit { tok, i: i + 1, col: i + 1, row: 0 }));
    if i + 1 == s.len() {
        assert(pull_at(s, i + 1, i + 1, 0) == (Pull::End { i: i + 1, col: i + 1, row: 0 }));
        assert(scan_at(s, i + 1, i + 1, 0) == Scan::Tokens(Seq::<TokenModel>::empty()));
        assert(scan_at(s, i, i, 0) == Scan::Tokens(seq![tok] + Seq::<TokenModel>::empty()));
        let ts = seq![tok] + Seq::<TokenModel>::empty();
        assert(ts.len() == 1);
        assert(ts[0] == tok);
    } else {
        assert(i + 2 <= s.len());
        assert(i + 2 < s.len()) by {
            if i + 2 == s.len() {
                assert((i + 2) % 2 == 0);
            }
        }
        lemma_spaced_singles_at(s, i + 2);
        assert(pull_at(s, i + 1, i + 1, 0) == pull_at(s, i + 2, i + 2, 0));
        assert(scan_at(s, i + 1, i + 1, 0) == scan_at(s, i + 2, i + 2, 0));
        match scan_at(s, i + 2, i + 2, 0) {
            Scan::Tokens(ts2) => {
                let ts = seq![tok] + ts2;
                assert(scan_at(s, i, i, 0) == Scan::Tokens(ts));
                assert forall|j: int| 0 <= j < ts.len() implies (#[trigger] ts[j]).text == seq![
                    s[i + 2 * j],
                ] && ts[j].loc == (i + 2 * j, 0int) by {
                    if j == 0 {
                        assert(ts[0] == tok);
                    } else {
                        assert(ts[j] == ts2[j - 1]);
                        assert(ts2[j - 1].text == seq![s[i + 2 + 2 * (j - 1)]]);
                        assert(i + 2 + 2 * (j - 1) == i + 2 * j);
                    }
                }
            },
            Scan::Fail { .. } => {
                assert(false);
            },
        }
    }
}

/// A source consisting only of single-character tokens separated by single
/// spaces scans to exactly one token per non-whitespace character, in
/// source order, each one character wide, with strictly increasing column.
pub proof fn lemma_spaced_singles(s: Seq<char>)
    requires
        s.len() == 0 || s.len() % 2 == 1,
        single_char_spaced(s),
    ensures
        scan_at(s, 0, 0, 0) matches Scan::Tokens(ts)
            && ts.len() == (s.len() + 1) / 2
            && (forall|j: int| 0 <= j < ts.len() ==> (#[trigger] ts[j]).text == seq![s[2 * j]]
                && ts[j].loc == (2 * j, 0int))
            && (forall|j: int, l: int| 0 <= j < l < ts.len() ==> ts[j].loc.0 < ts[l].loc.0),
{
    if s.len() == 0 {
        assert(pull_at(s, 0, 0, 0) == (Pull::End { i: 0, col: 0, row: 0 }));
        assert(scan_at(s, 0, 0, 0) == Scan::Tokens(Seq::<TokenModel>::empty()));
    } else {
        lemma_spaced_singles_at(s, 0);
        match scan_at(s, 0, 0, 0) {
            Scan::Tokens(ts) => {
                assert forall|j: int, l: int| 0 <= j < l < ts.len() implies ts[j].loc.0
                    < ts[l].loc.0 by {
                    assert(ts[j].loc == (2 * j, 0int));
                    assert(ts[l].loc == (2 * l, 0int));
                }
            },
            Scan::Fail { .. } => {},
        }
    }
}

} // verus!
