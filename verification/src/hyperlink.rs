//! Hyperlinking: a definition body is cut into runs of content and runs of
//! filler, and each content run that is a headword becomes a link.

use vstd::prelude::*;
use crate::entry::{lemma_deep_view_push, payloads, Fragment, HyperlinkedText};
use crate::headwords::HeadwordSet;
use crate::language::TargetLanguage;
use crate::text::{
    char_is_numeric, char_is_whitespace, chars_of, is_numeric, is_whitespace, lemma_filter_push,
    push_char,
};

verus! {

/// The combining acute accent, which marks stress in Russian headwords.
pub const COMBINING_ACUTE: char = '\u{301}';

/// Whether `c` is one of the punctuation characters that never belong to a
/// word.
pub open spec fn is_punctuation(c: char) -> bool {
    c == '!' || c == '"' || c == '£' || c == '$' || c == '%' || c == '^' || c == '&' || c == '*'
        || c == '(' || c == ')' || c == '-' || c == '_' || c == '=' || c == '+' || c == '['
        || c == ']' || c == ':' || c == ';' || c == '\'' || c == '~' || c == '@' || c == '#'
        || c == '<' || c == ',' || c == '.' || c == '>' || c == '/' || c == '?' || c == '\\'
        || c == '|'
}

/// Whether `c` is filler: whitespace, a numeric character or punctuation.
pub open spec fn is_filler(c: char) -> bool {
    char_is_whitespace(c) || char_is_numeric(c) || is_punctuation(c)
}

/// Whether `w` is one of the words that are never linked: a single ASCII
/// letter or digit, or the word "not".
pub open spec fn is_exception(w: Seq<char>) -> bool {
    ||| w.len() == 1 && ('a' <= w[0] <= 'z' || 'A' <= w[0] <= 'Z' || '0' <= w[0] <= '9')
    ||| w == seq!['n', 'o', 't']
}

/// `w` without its combining acute accents.
pub open spec fn without_diacritics(w: Seq<char>) -> Seq<char> {
    w.filter(|c: char| c != COMBINING_ACUTE)
}

/// The fragment that the content run `w` becomes.
pub open spec fn fragment_of_word(
    w: Seq<char>,
    words: Set<(Seq<char>, TargetLanguage)>,
    lang: TargetLanguage,
) -> Fragment {
    if is_exception(w) {
        Fragment::Plain(w)
    } else if words.contains((w, lang)) {
        Fragment::Link(w)
    } else if lang == TargetLanguage::Russian && without_diacritics(w) != w && words.contains(
        (without_diacritics(w), lang),
    ) {
        Fragment::Link(w)
    } else {
        Fragment::Plain(w)
    }
}

/// The characters of a text, each with its kind: whether it is filler.
pub open spec fn classified(s: Seq<char>) -> Seq<(char, bool)> {
    s.map_values(|c: char| (c, is_filler(c)))
}

/// The characters of classified text.
pub open spec fn letters(s: Seq<(char, bool)>) -> Seq<char> {
    s.map_values(|p: (char, bool)| p.0)
}

/// The fragment that a run becomes: a filler run stays plain.
pub open spec fn fragment_of_run(
    run: Seq<(char, bool)>,
    words: Set<(Seq<char>, TargetLanguage)>,
    lang: TargetLanguage,
) -> Fragment {
    if run.len() > 0 && run[0].1 {
        Fragment::Plain(letters(run))
    } else {
        fragment_of_word(letters(run), words, lang)
    }
}

/// The maximal runs of `s` in which every character is filler, or none is.
pub open spec fn runs(s: Seq<(char, bool)>) -> Seq<Seq<(char, bool)>>
    decreases s.len(),
{
    if s.len() == 0 {
        Seq::empty()
    } else if s.len() == 1 {
        seq![s]
    } else {
        let before = runs(s.drop_last());
        if s[s.len() - 2].1 == s.last().1 {
            before.drop_last().push(before.last().push(s.last()))
        } else {
            before.push(seq![s.last()])
        }
    }
}

/// The fragments of classified text: one for each of its runs.
pub open spec fn hyperlinked_by(
    s: Seq<(char, bool)>,
    words: Set<(Seq<char>, TargetLanguage)>,
    lang: TargetLanguage,
) -> Seq<Fragment> {
    runs(s).map_values(|w: Seq<(char, bool)>| fragment_of_run(w, words, lang))
}

/// The fragments of `s`: those of `s` with each character classified.
pub open spec fn hyperlinked(
    s: Seq<char>,
    words: Set<(Seq<char>, TargetLanguage)>,
    lang: TargetLanguage,
) -> Seq<Fragment> {
    hyperlinked_by(classified(s), words, lang)
}

/// The runs of a text are not empty, each holds one kind of character, a
/// run of one kind is followed by a run of the other, and together they are
/// the text.
pub proof fn lemma_runs(s: Seq<(char, bool)>)
    ensures
        s.len() > 0 ==> runs(s).len() > 0 && runs(s).last().len() > 0 && runs(s).last().last()
            == s.last(),
        forall|i: int| 0 <= i < runs(s).len() ==> (#[trigger] runs(s)[i]).len() > 0,
        forall|i: int, j: int|
            0 <= i < runs(s).len() && 0 <= j < runs(s)[i].len() ==> (#[trigger] runs(s)[i][j]).1
                == runs(s)[i][0].1,
        forall|i: int|
            0 < i < runs(s).len() ==> runs(s)[i - 1][0].1 != (#[trigger] runs(s)[i])[0].1,
        runs(s).flatten() == s,
    decreases s.len(),
{
    if s.len() == 0 {
        assert(runs(s).flatten() =~= s);
    } else if s.len() == 1 {
        assert(seq![s].drop_first() =~= Seq::<Seq<(char, bool)>>::empty());
        assert(seq![s].flatten() =~= s + Seq::<Seq<(char, bool)>>::empty().flatten());
        assert(seq![s].flatten() =~= s);
    } else {
        let head = s.drop_last();
        let before = runs(head);
        lemma_runs(head);
        assert(head.last() == s[s.len() - 2]);
        if s[s.len() - 2].1 == s.last().1 {
            let grown = before.last().push(s.last());
            let after = before.drop_last().push(grown);
            assert(runs(s) == after);
            assert forall|i: int, j: int|
                0 <= i < after.len() && 0 <= j < after[i].len() implies (#[trigger] after[i][j]).1
                == after[i][0].1 by {
                if i == after.len() - 1 {
                    assert(before[i][0] == grown[0]);
                    if j < before[i].len() {
                        assert(before[i][j] == grown[j]);
                    } else {
                        let end = before[i].len() - 1;
                        assert(before[i][end].1 == before[i][0].1);
                    }
                } else {
                    assert(after[i] == before[i]);
                }
            }
            assert forall|i: int| 0 < i < after.len() implies after[i - 1][0].1 != (
            #[trigger] after[i])[0].1 by {
                assert(after[i - 1] == before[i - 1]);
                assert(after[i][0] == before[i][0]);
            }
            before.drop_last().lemma_flatten_push(before.last());
            before.drop_last().lemma_flatten_push(grown);
            assert(before.drop_last().push(before.last()) =~= before);
            assert(before.drop_last().flatten() + before.last() =~= head);
            assert(before.drop_last().flatten() + grown =~= (before.drop_last().flatten()
                + before.last()).push(s.last()));
            assert(head.push(s.last()) =~= s);
            assert(after.flatten() =~= s);
        } else {
            let after = before.push(seq![s.last()]);
            assert(runs(s) == after);
            assert forall|i: int| 0 < i < after.len() implies after[i - 1][0].1 != (
            #[trigger] after[i])[0].1 by {
                assert(after[i - 1] == before[i - 1]);
                if i == before.len() {
                    let last_run = before[before.len() - 1];
                    assert(last_run[last_run.len() - 1].1 == last_run[0].1);
                } else {
                    assert(after[i] == before[i]);
                }
            }
            before.lemma_flatten_push(seq![s.last()]);
            assert(after.flatten() =~= s);
        }
    }
}

/// The payloads of the fragments of classified text, put together, are its
/// characters.
pub proof fn lemma_hyperlinked_by_payloads(
    s: Seq<(char, bool)>,
    words: Set<(Seq<char>, TargetLanguage)>,
    lang: TargetLanguage,
)
    ensures
        payloads(hyperlinked_by(s, words, lang)) == letters(s),
{
    lemma_runs(s);
    lemma_payloads_of_runs(runs(s), words, lang);
}

/// The payloads of the fragments of a text, put together, are the text.
pub proof fn lemma_hyperlinked_payloads(
    s: Seq<char>,
    words: Set<(Seq<char>, TargetLanguage)>,
    lang: TargetLanguage,
)
    ensures
        payloads(hyperlinked(s, words, lang)) == s,
{
    lemma_hyperlinked_by_payloads(classified(s), words, lang);
    assert(letters(classified(s)) =~= s);
}

/// The payloads of the fragments of runs, put together, are the characters
/// of the runs put together.
proof fn lemma_payloads_of_runs(
    r: Seq<Seq<(char, bool)>>,
    words: Set<(Seq<char>, TargetLanguage)>,
    lang: TargetLanguage,
)
    ensures
        payloads(r.map_values(|w: Seq<(char, bool)>| fragment_of_run(w, words, lang))) == letters(
            r.flatten(),
        ),
    decreases r.len(),
{
    let f = |w: Seq<(char, bool)>| fragment_of_run(w, words, lang);
    if r.len() == 0 {
        assert(letters(r.flatten()) =~= Seq::<char>::empty());
    } else {
        lemma_payloads_of_runs(r.drop_last(), words, lang);
        assert(r.map_values(f).drop_last() =~= r.drop_last().map_values(f));
        r.drop_last().lemma_flatten_push(r.last());
        assert(r.drop_last().push(r.last()) =~= r);
        assert(letters(r.drop_last().flatten() + r.last()) =~= letters(r.drop_last().flatten())
            + letters(r.last()));
    }
}

/// Whether `c` is one of the punctuation characters that never belong to a
/// word.
fn is_punctuation_char(c: char) -> (r: bool)
    ensures
        r == is_punctuation(c),
{
    c == '!' || c == '"' || c == '£' || c == '$' || c == '%' || c == '^' || c == '&' || c == '*'
        || c == '(' || c == ')' || c == '-' || c == '_' || c == '=' || c == '+' || c == '['
        || c == ']' || c == ':' || c == ';' || c == '\'' || c == '~' || c == '@' || c == '#'
        || c == '<' || c == ',' || c == '.' || c == '>' || c == '/' || c == '?' || c == '\\'
        || c == '|'
}

/// Whether `c` is filler.
pub fn is_non_content(c: char) -> (r: bool)
    ensures
        r == is_filler(c),
{
    is_whitespace(c) || is_numeric(c) || is_punctuation_char(c)
}

/// `input` without its combining acute accents.
pub fn remove_diacritics(input: &str) -> (r: String)
    ensures
        r@ == without_diacritics(input@),
{
    let chars = chars_of(input);
    let mut r = String::new();
    let mut i: usize = 0;
    proof {
        reveal(Seq::filter);
    }
    while i < chars.len()
        invariant
            i <= chars.len(),
            r@ == chars@.take(i as int).filter(|c: char| c != COMBINING_ACUTE),
        decreases chars.len() - i,
    {
        proof {
            assert(chars@.take(i as int + 1) =~= chars@.take(i as int).push(chars@[i as int]));
            lemma_filter_push(
                chars@.take(i as int),
                chars@[i as int],
                |c: char| c != COMBINING_ACUTE,
            );
        }
        if chars[i] != COMBINING_ACUTE {
            push_char(&mut r, chars[i]);
        }
        i += 1;
    }
    assert(chars@.take(chars.len() as int) =~= chars@);
    r
}

/// The string of the characters `chars[from..to]`.
fn word_of(chars: &Vec<(char, bool)>, from: usize, to: usize) -> (s: String)
    requires
        from <= to <= chars.len(),
    ensures
        s@ == letters(chars@.subrange(from as int, to as int)),
{
    let mut s = String::new();
    let mut i: usize = from;
    assert(s@ =~= letters(chars@.subrange(from as int, from as int)));
    while i < to
        invariant
            from <= i <= to <= chars.len(),
            s@ == letters(chars@.subrange(from as int, i as int)),
        decreases to - i,
    {
        push_char(&mut s, chars[i].0);
        i += 1;
        assert(letters(chars@.subrange(from as int, i as int)) =~= letters(
            chars@.subrange(from as int, i as int - 1),
        ).push(chars@[i as int - 1].0));
    }
    s
}

/// Whether `chars[from..to]` is a word that is never linked.
fn is_exception_word(chars: &Vec<(char, bool)>, from: usize, to: usize) -> (r: bool)
    requires
        from <= to <= chars.len(),
    ensures
        r == is_exception(letters(chars@.subrange(from as int, to as int))),
{
    let ghost w = letters(chars@.subrange(from as int, to as int));
    if to - from == 1 {
        let c = chars[from].0;
        assert(w[0] == c);
        assert(w != seq!['n', 'o', 't']) by {
            assert(seq!['n', 'o', 't'].len() == 3);
        }
        ('a' <= c && c <= 'z') || ('A' <= c && c <= 'Z') || ('0' <= c && c <= '9')
    } else if to - from == 3 {
        assert(w[0] == chars@[from as int].0 && w[1] == chars@[from as int + 1].0 && w[2]
            == chars@[from as int + 2].0);
        let r = chars[from].0 == 'n' && chars[from + 1].0 == 'o' && chars[from + 2].0 == 't';
        assert(r == (w == seq!['n', 'o', 't'])) by {
            let t = seq!['n', 'o', 't'];
            assert(t[0] == 'n' && t[1] == 'o' && t[2] == 't');
            if r {
                assert(w =~= t);
            }
        }
        r
    } else {
        assert(w != seq!['n', 'o', 't']) by {
            assert(seq!['n', 'o', 't'].len() == 3);
        }
        false
    }
}

/// The fragment that the content run `chars[from..to]` becomes.
fn process_word(
    chars: &Vec<(char, bool)>,
    from: usize,
    to: usize,
    word_set: &HeadwordSet,
    language: TargetLanguage,
) -> (r: HyperlinkedText)
    requires
        from <= to <= chars.len(),
    ensures
        r@ == fragment_of_word(
            letters(chars@.subrange(from as int, to as int)),
            word_set@,
            language,
        ),
{
    let word = word_of(chars, from, to);
    if is_exception_word(chars, from, to) {
        return HyperlinkedText::Plain(word);
    }
    if word_set.contains(word.as_str(), language) {
        return HyperlinkedText::Link(word);
    }
    if language == TargetLanguage::Russian {
        let stripped = remove_diacritics(word.as_str());
        if stripped != word && word_set.contains(stripped.as_str(), language) {
            return HyperlinkedText::Link(word);
        }
    }
    HyperlinkedText::Plain(word)
}

/// Cuts classified text into fragments: each maximal run of filler is a
/// plain fragment, each maximal run of content a link where it is a
/// headword of `language` and a plain fragment where it is not.
pub fn hyperlink_classified(
    chars: &Vec<(char, bool)>,
    word_set: &HeadwordSet,
    language: &TargetLanguage,
) -> (r: Vec<HyperlinkedText>)
    ensures
        r.deep_view() == hyperlinked_by(chars@, word_set@, *language),
        payloads(r.deep_view()) == letters(chars@),
{
    let n = chars.len();
    let ghost f = |w: Seq<(char, bool)>| fragment_of_run(w, word_set@, *language);
    let mut result: Vec<HyperlinkedText> = Vec::new();
    let ghost mut done: Seq<Seq<(char, bool)>> = Seq::empty();
    let mut start: usize = 0;
    let mut was_last_filler = false;
    let mut i: usize = 0;
    assert(result.deep_view() =~= done.map_values(f));
    while i < n
        invariant
            start <= i <= n == chars.len(),
            f == |w: Seq<(char, bool)>| fragment_of_run(w, word_set@, *language),
            result.deep_view() == done.map_values(f),
            i == 0 ==> start == 0 && done.len() == 0,
            i > 0 ==> start < i && runs(chars@.take(i as int)) == done.push(
                chars@.subrange(start as int, i as int),
            ) && was_last_filler == chars@[i as int - 1].1 && was_last_filler
                == chars@[start as int].1,
        decreases n - i,
    {
        let filler = chars[i].1;
        proof {
            assert(chars@.take(i as int + 1).drop_last() =~= chars@.take(i as int));
        }
        if i > 0 && filler != was_last_filler {
            let fragment = if was_last_filler {
                HyperlinkedText::Plain(word_of(chars, start, i))
            } else {
                process_word(chars, start, i, word_set, *language)
            };
            proof {
                let run = chars@.subrange(start as int, i as int);
                assert(run[0] == chars@[start as int]);
                assert(fragment@ == f(run));
                lemma_deep_view_push(result@, result@.push(fragment), fragment);
                assert(done.push(run).map_values(f) =~= done.map_values(f).push(f(run)));
                done = done.push(run);
                assert(chars@.subrange(i as int, i as int + 1) =~= seq![chars@[i as int]]);
            }
            result.push(fragment);
            start = i;
        } else {
            proof {
                if i > 0 {
                    let run = chars@.subrange(start as int, i as int);
                    assert(done.push(run).drop_last() =~= done);
                    assert(run.push(chars@[i as int]) =~= chars@.subrange(
                        start as int,
                        i as int + 1,
                    ));
                } else {
                    assert(chars@.take(1) =~= seq![chars@[0]]);
                    assert(chars@.subrange(0, 1) =~= chars@.take(1));
                    assert(runs(chars@.take(1)) =~= done.push(chars@.subrange(0, 1)));
                }
            }
        }
        was_last_filler = filler;
        i += 1;
    }
    assert(chars@.take(n as int) =~= chars@);
    if n > 0 {
        let fragment = if was_last_filler {
            HyperlinkedText::Plain(word_of(chars, start, n))
        } else {
            process_word(chars, start, n, word_set, *language)
        };
        proof {
            let run = chars@.subrange(start as int, n as int);
            assert(run[0] == chars@[start as int]);
            assert(fragment@ == f(run));
            lemma_deep_view_push(result@, result@.push(fragment), fragment);
            assert(done.push(run).map_values(f) =~= done.map_values(f).push(f(run)));
        }
        result.push(fragment);
    } else {
        assert(runs(chars@) =~= done);
    }
    proof {
        lemma_hyperlinked_by_payloads(chars@, word_set@, *language);
    }
    result
}

/// The characters of `text`, each with its kind.
pub fn classify(text: &str) -> (r: Vec<(char, bool)>)
    ensures
        r@ == classified(text@),
{
    let chars = chars_of(text);
    let mut r: Vec<(char, bool)> = Vec::new();
    let mut i: usize = 0;
    while i < chars.len()
        invariant
            i <= chars.len(),
            r.len() == i,
            forall|k: int| 0 <= k < i ==> r@[k] == (chars@[k], is_filler(chars@[k])),
        decreases chars.len() - i,
    {
        r.push((chars[i], is_non_content(chars[i])));
        i += 1;
    }
    assert(r@ =~= classified(text@));
    r
}

/// Cuts `text` into fragments: each maximal run of filler is a plain
/// fragment, each maximal run of content a link where it is a headword of
/// `language` and a plain fragment where it is not.
pub fn hyperlink_text(text: String, word_set: &HeadwordSet, language: &TargetLanguage) -> (r: Vec<
    HyperlinkedText,
>)
    ensures
        r.deep_view() == hyperlinked(text@, word_set@, *language),
        payloads(r.deep_view()) == text@,
{
    let chars = classify(text.as_str());
    proof {
        lemma_hyperlinked_payloads(text@, word_set@, *language);
    }
    hyperlink_classified(&chars, word_set, language)
}

} // verus!
