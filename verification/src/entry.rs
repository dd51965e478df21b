//! The records of the dictionary and their mathematical views.

use vstd::prelude::*;
use vstd::string::StringExecFns;
use crate::language::TargetLanguage;
use crate::order::is_sorted;
use crate::text::{chars_of, lemma_filter_push, push_char, same_str};

verus! {

/// One fragment of a definition body: a plain span, or a span that is itself
/// a headword.
#[derive(Clone, Debug, PartialEq, Eq, Hash)]
pub enum HyperlinkedText {
    /// Filler, or a word that is no headword.
    Plain(String),
    /// A word that has an entry of its own.
    Link(String),
}

/// A definition: its body as fragments, and its tags.
#[derive(Clone, Debug, PartialEq, Eq, Hash)]
pub struct Definition {
    /// The body: put together, the payloads of its fragments are the gloss.
    pub text: Vec<HyperlinkedText>,
    /// The tags, in ascending order.
    pub tags: Vec<String>,
}

/// A dictionary entry.
#[derive(Clone, Debug, PartialEq)]
pub struct DictionaryElementData {
    /// The token under which the entry is found.
    pub key: String,
    /// The headword: the key, or for a dereferenced entry the headword of
    /// the entry it refers to.
    pub word: String,
    /// The language of the entry.
    pub lang: TargetLanguage,
    /// The addresses of recordings, each once.
    pub audio: Vec<String>,
    /// The pronunciation, if one is known.
    pub ipa: Option<String>,
    /// Parts of speech or names of head templates, each once.
    pub word_types: Vec<String>,
    /// The definitions, no two with the same body.
    pub definitions: Vec<Definition>,
    /// The label of a dereferenced entry, such as "past participle of".
    pub dereferenced_text: Option<String>,
}

/// An entry as it is stored: the key and language it is found under, and the
/// compressed serialization of the rest.
#[derive(Clone, Debug)]
pub struct CompressedDictionaryElementWrapper {
    /// The key of the entry.
    pub key: String,
    /// The language of the entry.
    pub lang: TargetLanguage,
    /// The compressed serialization of the rest of the entry.
    pub compressed_data: Vec<u8>,
}

/// What a `HyperlinkedText` is.
pub enum Fragment {
    Plain(Seq<char>),
    Link(Seq<char>),
}

/// What a `Definition` is.
pub struct DefinitionView {
    pub text: Seq<Fragment>,
    pub tags: Seq<Seq<char>>,
}

/// What a `DictionaryElementData` is.
pub struct EntryView {
    pub key: Seq<char>,
    pub word: Seq<char>,
    pub lang: TargetLanguage,
    pub audio: Seq<Seq<char>>,
    pub ipa: Option<Seq<char>>,
    pub word_types: Seq<Seq<char>>,
    pub definitions: Seq<DefinitionView>,
    pub dereferenced_text: Option<Seq<char>>,
}

/// What a `CompressedDictionaryElementWrapper` is.
pub struct WrapperView {
    pub key: Seq<char>,
    pub lang: TargetLanguage,
    pub compressed_data: Seq<u8>,
}

impl Fragment {
    /// The characters the fragment carries.
    pub open spec fn payload(self) -> Seq<char> {
        match self {
            Fragment::Plain(s) => s,
            Fragment::Link(s) => s,
        }
    }
}

/// The concatenation of the payloads of `text`.
pub open spec fn payloads(text: Seq<Fragment>) -> Seq<char>
    decreases text.len(),
{
    if text.len() == 0 {
        Seq::empty()
    } else {
        payloads(text.drop_last()) + text.last().payload()
    }
}

/// What is appended to the text that precedes the word "of" to make the
/// label of a dereferenced entry.
pub open spec fn of_suffix() -> Seq<char> {
    seq![' ', 'o', 'f']
}

/// Whether `s` ends with " of".
pub open spec fn ends_with_of(s: Seq<char>) -> bool {
    s.len() >= 3 && s.skip(s.len() - 3) == of_suffix()
}

/// Whether no two definitions have the same body.
pub open spec fn distinct_texts(defs: Seq<DefinitionView>) -> bool {
    forall|i: int, j: int| 0 <= i < j < defs.len() ==> defs[i].text != defs[j].text
}

/// Whether the tags of every definition are in ascending order.
pub open spec fn tags_sorted(defs: Seq<DefinitionView>) -> bool {
    forall|i: int| 0 <= i < defs.len() ==> is_sorted(#[trigger] defs[i].tags)
}

impl EntryView {
    /// Whether the entry is as the dictionary holds entries: audio and word
    /// types each once, no two definitions with the same body, tags in
    /// ascending order, and either stored under its own word, or
    /// dereferenced, with a label that ends with " of" and a word that is
    /// not its key.
    pub open spec fn well_formed(self) -> bool {
        &&& self.audio.no_duplicates()
        &&& self.word_types.no_duplicates()
        &&& distinct_texts(self.definitions)
        &&& tags_sorted(self.definitions)
        &&& match self.dereferenced_text {
            Some(label) => self.key != self.word && ends_with_of(label),
            None => self.key == self.word,
        }
    }
}

/// Whether every entry is well formed.
pub open spec fn all_well_formed(entries: Seq<EntryView>) -> bool {
    forall|i: int| 0 <= i < entries.len() ==> (#[trigger] entries[i]).well_formed()
}

/// One more fragment adds its payload at the end.
pub proof fn lemma_payloads_push(text: Seq<Fragment>, f: Fragment)
    ensures
        payloads(text.push(f)) == payloads(text) + f.payload(),
{
    assert(text.push(f).drop_last() =~= text);
}

impl View for HyperlinkedText {
    type V = Fragment;

    open spec fn view(&self) -> Fragment {
        match self {
            HyperlinkedText::Plain(s) => Fragment::Plain(s@),
            HyperlinkedText::Link(s) => Fragment::Link(s@),
        }
    }
}

impl DeepView for HyperlinkedText {
    type V = Fragment;

    open spec fn deep_view(&self) -> Fragment {
        self@
    }
}

impl View for Definition {
    type V = DefinitionView;

    open spec fn view(&self) -> DefinitionView {
        DefinitionView { text: self.text.deep_view(), tags: self.tags.deep_view() }
    }
}

impl DeepView for Definition {
    type V = DefinitionView;

    open spec fn deep_view(&self) -> DefinitionView {
        self@
    }
}

impl View for DictionaryElementData {
    type V = EntryView;

    open spec fn view(&self) -> EntryView {
        EntryView {
            key: self.key@,
            word: self.word@,
            lang: self.lang,
            audio: self.audio.deep_view(),
            ipa: self.ipa.deep_view(),
            word_types: self.word_types.deep_view(),
            definitions: self.definitions.deep_view(),
            dereferenced_text: self.dereferenced_text.deep_view(),
        }
    }
}

impl DeepView for DictionaryElementData {
    type V = EntryView;

    open spec fn deep_view(&self) -> EntryView {
        self@
    }
}

impl View for CompressedDictionaryElementWrapper {
    type V = WrapperView;

    open spec fn view(&self) -> WrapperView {
        WrapperView { key: self.key@, lang: self.lang, compressed_data: self.compressed_data@ }
    }
}

impl DeepView for CompressedDictionaryElementWrapper {
    type V = WrapperView;

    open spec fn deep_view(&self) -> WrapperView {
        self@
    }
}

/// Pushing onto a vector pushes the element's view onto the deep view.
pub proof fn lemma_deep_view_push<T: DeepView>(v: Seq<T>, w: Seq<T>, x: T)
    requires
        w == v.push(x),
    ensures
        Seq::new(w.len(), |i: int| w[i].deep_view()) == Seq::new(
            v.len(),
            |i: int| v[i].deep_view(),
        ).push(x.deep_view()),
{
    assert(Seq::new(w.len(), |i: int| w[i].deep_view()) =~= Seq::new(
        v.len(),
        |i: int| v[i].deep_view(),
    ).push(x.deep_view()));
}

impl HyperlinkedText {
    /// The characters the fragment carries.
    pub fn payload(&self) -> (r: &String)
        ensures
            r@ == self@.payload(),
    {
        match self {
            HyperlinkedText::Plain(s) => s,
            HyperlinkedText::Link(s) => s,
        }
    }

    /// Whether the fragment is a link.
    pub fn is_link(&self) -> (r: bool)
        ensures
            r == (self@ is Link),
    {
        match self {
            HyperlinkedText::Plain(_) => false,
            HyperlinkedText::Link(_) => true,
        }
    }

    /// A copy of the fragment.
    pub fn duplicate(&self) -> (r: HyperlinkedText)
        ensures
            r@ == self@,
    {
        match self {
            HyperlinkedText::Plain(s) => HyperlinkedText::Plain(s.clone()),
            HyperlinkedText::Link(s) => HyperlinkedText::Link(s.clone()),
        }
    }

    /// Whether two fragments are of the same kind and carry the same
    /// characters.
    pub fn same(&self, other: &HyperlinkedText) -> (r: bool)
        ensures
            r == (self@ == other@),
    {
        match (self, other) {
            (HyperlinkedText::Plain(a), HyperlinkedText::Plain(b)) => same_str(
                a.as_str(),
                b.as_str(),
            ),
            (HyperlinkedText::Link(a), HyperlinkedText::Link(b)) => same_str(
                a.as_str(),
                b.as_str(),
            ),
            _ => false,
        }
    }
}

/// A copy of a vector of strings.
pub fn duplicate_strings(v: &Vec<String>) -> (r: Vec<String>)
    ensures
        r.deep_view() == v.deep_view(),
{
    let mut r: Vec<String> = Vec::new();
    let mut i: usize = 0;
    while i < v.len()
        invariant
            i <= v.len(),
            r.len() == i,
            forall|j: int| 0 <= j < i ==> r@[j]@ == v@[j]@,
        decreases v.len() - i,
    {
        r.push(v[i].clone());
        i += 1;
    }
    assert(r.deep_view() =~= v.deep_view());
    r
}

/// A copy of an optional string.
pub fn duplicate_option(o: &Option<String>) -> (r: Option<String>)
    ensures
        r.deep_view() == o.deep_view(),
{
    match o {
        Some(s) => Some(s.clone()),
        None => None,
    }
}

/// A copy of a definition body.
pub fn duplicate_text(v: &Vec<HyperlinkedText>) -> (r: Vec<HyperlinkedText>)
    ensures
        r.deep_view() == v.deep_view(),
{
    let mut r: Vec<HyperlinkedText> = Vec::new();
    let mut i: usize = 0;
    while i < v.len()
        invariant
            i <= v.len(),
            r.len() == i,
            forall|j: int| 0 <= j < i ==> r@[j]@ == v@[j]@,
        decreases v.len() - i,
    {
        r.push(v[i].duplicate());
        i += 1;
    }
    assert(r.deep_view() =~= v.deep_view());
    r
}

/// Whether two definition bodies hold the same fragments.
pub fn same_text(a: &Vec<HyperlinkedText>, b: &Vec<HyperlinkedText>) -> (r: bool)
    ensures
        r == (a.deep_view() == b.deep_view()),
{
    if a.len() != b.len() {
        assert(a.deep_view().len() != b.deep_view().len());
        return false;
    }
    let mut i: usize = 0;
    while i < a.len()
        invariant
            a.len() == b.len(),
            i <= a.len(),
            forall|j: int| 0 <= j < i ==> a@[j]@ == b@[j]@,
        decreases a.len() - i,
    {
        if !a[i].same(&b[i]) {
            assert(a.deep_view()[i as int] != b.deep_view()[i as int]);
            return false;
        }
        i += 1;
    }
    assert(a.deep_view() =~= b.deep_view());
    true
}

impl Definition {
    /// A copy of the definition.
    pub fn duplicate(&self) -> (r: Definition)
        ensures
            r@ == self@,
    {
        Definition { text: duplicate_text(&self.text), tags: duplicate_strings(&self.tags) }
    }
}

/// A copy of a vector of definitions.
pub fn duplicate_definitions(v: &Vec<Definition>) -> (r: Vec<Definition>)
    ensures
        r.deep_view() == v.deep_view(),
{
    let mut r: Vec<Definition> = Vec::new();
    let mut i: usize = 0;
    while i < v.len()
        invariant
            i <= v.len(),
            r.len() == i,
            forall|j: int| 0 <= j < i ==> r@[j]@ == v@[j]@,
        decreases v.len() - i,
    {
        r.push(v[i].duplicate());
        i += 1;
    }
    assert(r.deep_view() =~= v.deep_view());
    r
}

/// The address of the Wiktionary page of `word`, at the section of the
/// language named `long_name`: the word goes in without its spaces.
pub open spec fn wiktionary_link_of(word: Seq<char>, long_name: Seq<char>) -> Seq<char> {
    "https://en.wiktionary.org/wiki/"@ + word.filter(|c: char| c != ' ') + seq!['#'] + long_name
}

impl DictionaryElementData {
    /// A copy of the entry.
    pub fn duplicate(&self) -> (r: DictionaryElementData)
        ensures
            r@ == self@,
    {
        DictionaryElementData {
            key: self.key.clone(),
            word: self.word.clone(),
            lang: self.lang,
            audio: duplicate_strings(&self.audio),
            ipa: duplicate_option(&self.ipa),
            word_types: duplicate_strings(&self.word_types),
            definitions: duplicate_definitions(&self.definitions),
            dereferenced_text: duplicate_option(&self.dereferenced_text),
        }
    }

    /// The address of the entry's page on Wiktionary.
    pub fn get_wiktionary_link(&self) -> (r: String)
        ensures
            r@ == wiktionary_link_of(self@.word, self@.lang.spec_long_name()),
    {
        let mut r: String = "https://en.wiktionary.org/wiki/".to_owned();
        let word = chars_of(self.word.as_str());
        let mut i: usize = 0;
        while i < word.len()
            invariant
                i <= word.len(),
                r@ == "https://en.wiktionary.org/wiki/"@ + word@.take(i as int).filter(
                    |c: char| c != ' ',
                ),
            decreases word.len() - i,
        {
            proof {
                assert(word@.take(i as int + 1) =~= word@.take(i as int).push(word@[i as int]));
                lemma_filter_push(word@.take(i as int), word@[i as int], |c: char| c != ' ');
            }
            if word[i] != ' ' {
                push_char(&mut r, word[i]);
            }
            i += 1;
        }
        assert(word@.take(word.len() as int) =~= word@);
        push_char(&mut r, '#');
        let name = self.lang.to_wiktionary_long_name_n();
        r.append(name.as_str());
        assert(r@ =~= wiktionary_link_of(self@.word, self@.lang.spec_long_name()));
        r
    }
}

impl CompressedDictionaryElementWrapper {
    /// A copy of the wrapper.
    pub fn duplicate(&self) -> (r: CompressedDictionaryElementWrapper)
        ensures
            r@ == self@,
    {
        CompressedDictionaryElementWrapper {
            key: self.key.clone(),
            lang: self.lang,
            compressed_data: self.compressed_data.clone(),
        }
    }
}

} // verus!
