//! The tokenizer: text to the sequence of terms that the index counts.
//!
//! Every character that is not alphanumeric is a boundary. The characters
//! between two boundaries form a run; a run of more than two characters,
//! folded to lower case, is a token. Documents and queries go through the
//! same function.
//!
//! [`tokenize`] works in three steps. [`classify`] asks of each character
//! whether it is alphanumeric, [`split`] cuts the text where the answer was
//! no, and [`keep_words`] drops the short runs and folds the others to lower
//! case. Only the first and the last step rest on Unicode's tables.

use vstd::prelude::*;

verus! {

/// What `char::is_alphanumeric` answers for `c`: whether Unicode classes the
/// character as a letter or a number.
pub uninterp spec fn is_alphanumeric(c: char) -> bool;

/// What `str::to_lowercase` returns for the characters `s`: their lower-case
/// form by Unicode's rules, which may differ from `s` in length.
pub uninterp spec fn lowercase(s: Seq<char>) -> Seq<char>;

/// `char::is_alphanumeric` depends on the character alone; its result is
/// `is_alphanumeric` of it.
pub assume_specification[ char::is_alphanumeric ](c: char) -> (b: bool)
    ensures
        b == is_alphanumeric(c),
;

/// `str::to_lowercase` depends on the characters of the slice alone; the new
/// string holds `lowercase` of them.
pub assume_specification[ str::to_lowercase ](s: &str) -> (r: String)
    ensures
        r@ == lowercase(s@),
;

/// `String::push` appends the one character to the end of the string.
pub assume_specification[ String::push ](s: &mut String, c: char)
    ensures
        final(s)@ == old(s)@.push(c),
;

/// Whether `alnum` marks the character at place `i` as alphanumeric. A
/// character without a mark is a boundary.
pub open spec fn marked(alnum: Seq<bool>, i: int) -> bool {
    0 <= i < alnum.len() && alnum[i]
}

/// The pieces into which boundaries cut `text` from place `i` on, where `run`
/// holds the characters read since the last boundary. Two adjacent
/// boundaries enclose an empty piece.
pub open spec fn pieces_from(
    run: Seq<char>,
    text: Seq<char>,
    alnum: Seq<bool>,
    i: int,
) -> Seq<Seq<char>>
    decreases text.len() - i,
{
    if i < 0 || i >= text.len() {
        seq![run]
    } else if marked(alnum, i) {
        pieces_from(run.push(text[i]), text, alnum, i + 1)
    } else {
        seq![run] + pieces_from(Seq::empty(), text, alnum, i + 1)
    }
}

/// The pieces of `text` between its boundaries, in order, empty ones
/// included.
pub open spec fn pieces(text: Seq<char>, alnum: Seq<bool>) -> Seq<Seq<char>> {
    pieces_from(Seq::empty(), text, alnum, 0)
}

/// Of each character of `text`, whether it is alphanumeric.
pub open spec fn classes(text: Seq<char>) -> Seq<bool> {
    text.map_values(|c: char| is_alphanumeric(c))
}

/// The maximal alphanumeric runs of `text`, in order, empty ones included.
pub open spec fn runs(text: Seq<char>) -> Seq<Seq<char>> {
    pieces(text, classes(text))
}

/// A run is long enough to be a token when it has more than two characters,
/// however many bytes they take.
pub open spec fn is_long(run: Seq<char>) -> bool {
    run.len() > 2
}

/// The tokens that a list of runs yields: the long ones, in lower case.
pub open spec fn words(runs: Seq<Seq<char>>) -> Seq<Seq<char>> {
    runs.filter(|r: Seq<char>| is_long(r)).map_values(|r: Seq<char>| lowercase(r))
}

/// The tokens of `text`.
pub open spec fn tokens(text: Seq<char>) -> Seq<Seq<char>> {
    words(runs(text))
}

/// The characters of each string of a list.
pub open spec fn views(strings: Seq<String>) -> Seq<Seq<char>> {
    strings.map_values(|s: String| s@)
}

proof fn lemma_words_of_one(run: Seq<char>)
    ensures
        words(seq![run]) == if is_long(run) {
            seq![lowercase(run)]
        } else {
            Seq::<Seq<char>>::empty()
        },
{
    let pred = |r: Seq<char>| is_long(r);
    let none = Seq::<Seq<char>>::empty();
    none.lemma_filter_len(pred);
    none.lemma_filter_push(run, pred);
    assert(none.push(run) =~= seq![run]);
    assert(none.filter(pred) =~= none);
    if is_long(run) {
        assert(words(seq![run]) =~= seq![lowercase(run)]);
    } else {
        assert(words(seq![run]) =~= none);
    }
}

proof fn lemma_words_concat(a: Seq<Seq<char>>, b: Seq<Seq<char>>)
    ensures
        words(a + b) == words(a) + words(b),
{
    Seq::filter_distributes_over_add(a, b, |r: Seq<char>| is_long(r));
    assert(words(a + b) =~= words(a) + words(b));
}

/// Every token is the lower-case form of a run of the text that has more
/// than two characters: a shorter run never yields a token, in a document or
/// in a query.
pub proof fn lemma_tokens_come_from_long_runs(text: Seq<char>, i: int)
    requires
        0 <= i < tokens(text).len(),
    ensures
        exists|run: Seq<char>|
            runs(text).contains(run) && is_long(run) && tokens(text)[i] == #[trigger] lowercase(
                run,
            ),
{
    let pred = |r: Seq<char>| is_long(r);
    let kept = runs(text).filter(pred);
    runs(text).lemma_filter_pred(pred, i);
    assert(kept.contains(kept[i]));
    runs(text).lemma_filter_contains_rev(pred, kept[i]);
    assert(tokens(text)[i] == lowercase(kept[i]));
}

/// A text whose runs all have at most two characters has no tokens.
pub proof fn lemma_short_runs_yield_nothing(text: Seq<char>)
    requires
        forall|run: Seq<char>| runs(text).contains(run) ==> !is_long(run),
    ensures
        tokens(text).len() == 0,
{
    if tokens(text).len() > 0 {
        lemma_tokens_come_from_long_runs(text, 0);
    }
}

/// From a place on from which every character is alphanumeric, the rest of
/// the text is one piece with the run read so far.
proof fn lemma_run_to_end(run: Seq<char>, text: Seq<char>, alnum: Seq<bool>, i: int)
    requires
        0 <= i <= text.len(),
        forall|k: int| i <= k < text.len() ==> marked(alnum, k),
    ensures
        pieces_from(run, text, alnum, i) == seq![run + text.subrange(i, text.len() as int)],
    decreases text.len() - i,
{
    if i < text.len() {
        lemma_run_to_end(run.push(text[i]), text, alnum, i + 1);
        assert(run.push(text[i]) + text.subrange(i + 1, text.len() as int) =~= run
            + text.subrange(i, text.len() as int));
    } else {
        assert(run + text.subrange(i, text.len() as int) =~= run);
    }
}

/// Up to the end of `text`, the pieces of `text`, a boundary and a word are
/// those of `text`; the word is one more piece.
proof fn lemma_pieces_with_word(
    run: Seq<char>,
    text: Seq<char>,
    boundary: char,
    word: Seq<char>,
    i: int,
)
    requires
        0 <= i <= text.len(),
        !is_alphanumeric(boundary),
        forall|k: int| 0 <= k < word.len() ==> is_alphanumeric(#[trigger] word[k]),
    ensures
        pieces_from(
            run,
            text + seq![boundary] + word,
            classes(text + seq![boundary] + word),
            i,
        ) == pieces_from(run, text, classes(text), i) + seq![word],
    decreases text.len() - i,
{
    let whole = text + seq![boundary] + word;
    let marks = classes(whole);
    if i < text.len() {
        assert(whole[i] == text[i]);
        if is_alphanumeric(text[i]) {
            lemma_pieces_with_word(run.push(text[i]), text, boundary, word, i + 1);
        } else {
            lemma_pieces_with_word(Seq::empty(), text, boundary, word, i + 1);
            let rest = pieces_from(Seq::empty(), text, classes(text), i + 1);
            assert(seq![run] + (rest + seq![word]) =~= (seq![run] + rest) + seq![word]);
        }
    } else {
        assert(whole[i] == boundary);
        assert forall|k: int| i + 1 <= k < whole.len() implies marked(marks, k) by {
            assert(whole[k] == word[k - i - 1]);
        }
        lemma_run_to_end(Seq::empty(), whole, marks, i + 1);
        assert(whole.subrange(i + 1, whole.len() as int) =~= word);
        assert(Seq::<char>::empty() + word =~= word);
    }
}

/// A word that follows a text and a boundary adds its own token to those of
/// the text if it has more than two characters, and nothing otherwise. Alone
/// it yields that token, or nothing.
pub proof fn lemma_word_appended(text: Seq<char>, boundary: char, word: Seq<char>)
    requires
        !is_alphanumeric(boundary),
        forall|k: int| 0 <= k < word.len() ==> is_alphanumeric(#[trigger] word[k]),
    ensures
        tokens(text + seq![boundary] + word) == tokens(text) + words(seq![word]),
        tokens(word) == words(seq![word]),
        words(seq![word]) == if is_long(word) {
            seq![lowercase(word)]
        } else {
            Seq::<Seq<char>>::empty()
        },
{
    lemma_pieces_with_word(Seq::empty(), text, boundary, word, 0);
    lemma_words_concat(runs(text), seq![word]);
    assert forall|k: int| 0 <= k < word.len() implies marked(classes(word), k) by {
        assert(classes(word)[k] == is_alphanumeric(word[k]));
    }
    lemma_run_to_end(Seq::empty(), word, classes(word), 0);
    assert(Seq::<char>::empty() + word.subrange(0, word.len() as int) =~= word);
    lemma_words_of_one(word);
}

/// A word of one or two characters changes nothing: a text has the same
/// tokens with it as without it, and the word alone has none. So such a word
/// in a query weighs nothing, and in a file counts for nothing.
pub proof fn lemma_short_word_changes_nothing(text: Seq<char>, boundary: char, word: Seq<char>)
    requires
        !is_alphanumeric(boundary),
        forall|k: int| 0 <= k < word.len() ==> is_alphanumeric(#[trigger] word[k]),
        word.len() <= 2,
    ensures
        tokens(text + seq![boundary] + word) == tokens(text),
        tokens(word) == Seq::<Seq<char>>::empty(),
{
    lemma_word_appended(text, boundary, word);
    assert(tokens(text) + Seq::<Seq<char>>::empty() =~= tokens(text));
}

/// Whether `run` has more than two characters.
fn long_enough(run: &str) -> (r: bool)
    ensures
        r == is_long(run@),
{
    let mut n: usize = 0;
    for c in it: run.chars()
        invariant
            it.seq() == run@,
            n == if it.index() < 3 {
                it.index() as int
            } else {
                3
            },
    {
        if n < 3 {
            n = n + 1;
        }
    }
    n > 2
}

/// Puts the finished run `run` into `out` if it is long enough.
fn emit(out: &mut Vec<String>, run: &String)
    ensures
        views(final(out)@) == views(old(out)@) + words(seq![run@]),
{
    proof {
        lemma_words_of_one(run@);
    }
    if long_enough(run.as_str()) {
        let word = run.as_str().to_lowercase();
        out.push(word);
        assert(views(out@) =~= views(old(out)@) + seq![lowercase(run@)]);
    } else {
        assert(views(out@) =~= views(old(out)@) + Seq::<Seq<char>>::empty());
    }
}

/// Tells of each character of `text` whether it is alphanumeric.
pub fn classify(text: &str) -> (alnum: Vec<bool>)
    ensures
        alnum@ == classes(text@),
{
    let mut alnum: Vec<bool> = Vec::new();
    assert(alnum@ =~= classes(text@.take(0)));
    for c in it: text.chars()
        invariant
            it.seq() == text@,
            alnum@ == classes(text@.take(it.index() as int)),
    {
        alnum.push(c.is_alphanumeric());
        assert(alnum@ =~= classes(text@.take(it.index() + 1)));
    }
    assert(text@.take(text@.len() as int) =~= text@);
    alnum
}

/// Cuts `text` at its boundaries: the characters that `alnum` does not mark
/// as alphanumeric. Returns all the pieces in order, also the empty ones.
pub fn split(text: &str, alnum: &Vec<bool>) -> (out: Vec<String>)
    ensures
        views(out@) == pieces(text@, alnum@),
{
    let mut out: Vec<String> = Vec::new();
    let mut run = String::new();
    let mut i: usize = 0;
    assert(views(out@) + pieces(text@, alnum@) =~= pieces(text@, alnum@));
    for c in it: text.chars()
        invariant
            it.seq() == text@,
            i <= alnum@.len(),
            i < alnum@.len() ==> i == it.index(),
            i == alnum@.len() ==> i <= it.index(),
            pieces(text@, alnum@) == views(out@) + pieces_from(
                run@,
                text@,
                alnum@,
                it.index() as int,
            ),
    {
        let is_marked = i < alnum.len() && alnum[i];
        assert(is_marked == marked(alnum@, it.index() as int));
        if is_marked {
            run.push(c);
        } else {
            let ghost before = views(out@);
            let ghost piece = run@;
            out.push(run);
            run = String::new();
            assert(views(out@) =~= before + seq![piece]);
        }
        if i < alnum.len() {
            i = i + 1;
        }
    }
    let ghost before = views(out@);
    out.push(run);
    assert(views(out@) =~= before + seq![run@]);
    out
}

/// Keeps the runs that are long enough to be tokens, in lower case.
pub fn keep_words(runs: &Vec<String>) -> (out: Vec<String>)
    ensures
        views(out@) == words(views(runs@)),
{
    let mut out: Vec<String> = Vec::new();
    let mut i: usize = 0;
    proof {
        assert(views(runs@).take(0) =~= Seq::<Seq<char>>::empty());
        Seq::<Seq<char>>::empty().lemma_filter_len(|r: Seq<char>| is_long(r));
        assert(views(out@) =~= words(views(runs@).take(0)));
    }
    while i < runs.len()
        invariant
            i <= runs@.len(),
            views(out@) == words(views(runs@).take(i as int)),
        decreases runs@.len() - i,
    {
        proof {
            let seen = views(runs@).take(i as int);
            assert(views(runs@).take(i + 1) =~= seen + seq![runs@[i as int]@]);
            lemma_words_concat(seen, seq![runs@[i as int]@]);
        }
        emit(&mut out, &runs[i]);
        i = i + 1;
    }
    assert(views(runs@).take(i as int) =~= views(runs@));
    out
}

/// Splits `text` at every character that is not alphanumeric, drops the runs
/// of at most two characters, and returns the others in lower case, in order.
pub fn tokenize(text: &str) -> (out: Vec<String>)
    ensures
        views(out@) == tokens(text@),
{
    let alnum = classify(text);
    let runs = split(text, &alnum);
    keep_words(&runs)
}

} // verus!
