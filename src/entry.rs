use vstd::prelude::*;

verus! {

/// A definition in the abstract: its text and an optional usage example.
pub struct DefinitionView {
    pub brief: Seq<char>,
    pub example: Option<Seq<char>>,
}

/// A pronunciation in the abstract.
pub struct PhoneticView {
    pub text: Option<Seq<char>>,
}

/// A meaning in the abstract.
pub struct MeaningView {
    pub part_of_speech: Seq<char>,
    pub definitions: Seq<DefinitionView>,
    pub synonyms: Seq<Seq<char>>,
    pub antonyms: Seq<Seq<char>>,
}

/// An entry in the abstract: what equality of entries means.
pub struct EntryView {
    pub word: Seq<char>,
    pub phonetics: Seq<PhoneticView>,
    pub meanings: Seq<MeaningView>,
}

pub open spec fn opt_view(o: Option<String>) -> Option<Seq<char>> {
    match o {
        Some(s) => Some(s@),
        None => None,
    }
}

pub open spec fn strs_view(v: Seq<String>) -> Seq<Seq<char>> {
    v.map_values(|s: String| s@)
}

pub open spec fn defs_view(v: Seq<Definition>) -> Seq<DefinitionView> {
    v.map_values(|d: Definition| d@)
}

pub open spec fn phonetics_view(v: Seq<Phonetic>) -> Seq<PhoneticView> {
    v.map_values(|x: Phonetic| x@)
}

pub open spec fn meanings_view(v: Seq<Meaning>) -> Seq<MeaningView> {
    v.map_values(|m: Meaning| m@)
}

/// One sense of a word: its definition text and an optional example.
#[derive(Clone, Debug)]
pub struct Definition {
    pub brief: String,
    pub example: Option<String>,
}

/// One pronunciation of a word, which may be absent.
#[derive(Clone, Debug)]
pub struct Phonetic {
    pub text: Option<String>,
}

/// One part of speech of a word with its definitions and related words.
#[derive(Clone, Debug)]
pub struct Meaning {
    pub part_of_speech: String,
    pub definitions: Vec<Definition>,
    pub synonyms: Vec<String>,
    pub antonyms: Vec<String>,
}

/// One dictionary record for a word.
#[derive(Clone, Debug)]
pub struct Entry {
    pub word: String,
    pub phonetics: Vec<Phonetic>,
    pub meanings: Vec<Meaning>,
}

impl View for Definition {
    type V = DefinitionView;

    open spec fn view(&self) -> DefinitionView {
        DefinitionView { brief: self.brief@, example: opt_view(self.example) }
    }
}

impl View for Phonetic {
    type V = PhoneticView;

    open spec fn view(&self) -> PhoneticView {
        PhoneticView { text: opt_view(self.text) }
    }
}

impl View for Meaning {
    type V = MeaningView;

    open spec fn view(&self) -> MeaningView {
        MeaningView {
            part_of_speech: self.part_of_speech@,
            definitions: defs_view(self.definitions@),
            synonyms: strs_view(self.synonyms@),
            antonyms: strs_view(self.antonyms@),
        }
    }
}

impl View for Entry {
    type V = EntryView;

    open spec fn view(&self) -> EntryView {
        EntryView {
            word: self.word@,
            phonetics: phonetics_view(self.phonetics@),
            meanings: meanings_view(self.meanings@),
        }
    }
}

pub open spec fn entries_view(v: Seq<Entry>) -> Seq<EntryView> {
    v.map_values(|e: Entry| e@)
}

/// The first pronunciation that is present, if any.
pub open spec fn first_text(ph: Seq<PhoneticView>) -> Option<Seq<char>>
    decreases ph.len(),
{
    if ph.len() == 0 {
        None
    } else if ph[0].text is Some {
        ph[0].text
    } else {
        first_text(ph.drop_first())
    }
}

impl Entry {
    /// The pronunciation to show beside the word: the first one present, skipping
    /// absent ones.
    pub fn pronunciation(&self) -> (r: Option<String>)
        ensures
            opt_view(r) == first_text(self@.phonetics),
    {
        let ghost ph = self@.phonetics;
        let mut i: usize = 0;
        assert(ph.subrange(0, ph.len() as int) =~= ph);
        while i < self.phonetics.len()
            invariant
                ph == phonetics_view(self.phonetics@),
                i <= ph.len(),
                first_text(ph) == first_text(ph.subrange(i as int, ph.len() as int)),
            decreases ph.len() - i,
        {
            let ghost rest = ph.subrange(i as int, ph.len() as int);
            assert(rest[0] == self.phonetics@[i as int]@);
            match &self.phonetics[i].text {
                Some(t) => {
                    return Some(t.clone());
                },
                None => {},
            }
            assert(rest.drop_first() =~= ph.subrange(i + 1, ph.len() as int));
            i += 1;
        }
        assert(ph.subrange(i as int, ph.len() as int) =~= Seq::<PhoneticView>::empty());
        None
    }
}

} // verus!
