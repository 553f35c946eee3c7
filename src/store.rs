use vstd::prelude::*;
use crate::codec::{
    decode_records, enc_records, encode_records, lemma_records_prefix, parse_records,
};
use crate::entry::{
    defs_view, entries_view, meanings_view, opt_view, phonetics_view, strs_view, Definition,
    Entry, EntryView, Meaning, Phonetic,
};

verus! {

/// The records of `rs` whose word is exactly `w`, in order.
pub open spec fn matching(rs: Seq<EntryView>, w: Seq<char>) -> Seq<EntryView>
    decreases rs.len(),
{
    if rs.len() == 0 {
        seq![]
    } else if rs.last().word == w {
        matching(rs.drop_last(), w).push(rs.last())
    } else {
        matching(rs.drop_last(), w)
    }
}

/// Why the store cannot be used.
#[derive(Debug)]
pub enum CacheError {
    /// A complete record of the store file does not decode.
    Corruption,
    /// The store would outgrow the addressable size.
    TooLarge,
}

/// What the store file needs after an append: cut the file at `offset`, which drops a
/// torn tail left by an interrupted write, then write `bytes` there and flush.
#[derive(Debug)]
pub struct StoreWrite {
    pub offset: usize,
    pub bytes: Vec<u8>,
}

/// The store: the records of the store file in file order, and where the last
/// complete record ends.
pub struct Cache {
    records: Vec<Entry>,
    end: usize,
}

impl View for Cache {
    type V = Seq<EntryView>;

    closed spec fn view(&self) -> Seq<EntryView> {
        entries_view(self.records@)
    }
}

fn copy_opt(o: &Option<String>) -> (r: Option<String>)
    ensures
        opt_view(r) == opt_view(*o),
{
    match o {
        Some(s) => Some(s.clone()),
        None => None,
    }
}

fn copy_strs(v: &Vec<String>) -> (r: Vec<String>)
    ensures
        strs_view(r@) == strs_view(v@),
{
    let mut r: Vec<String> = Vec::new();
    let mut i: usize = 0;
    while i < v.len()
        invariant
            i <= v@.len(),
            r@.len() == i,
            forall|k: int| 0 <= k < i ==> #[trigger] r@[k]@ == v@[k]@,
        decreases v@.len() - i,
    {
        r.push(v[i].clone());
        i += 1;
    }
    assert(strs_view(r@) =~= strs_view(v@));
    r
}

fn copy_definition(d: &Definition) -> (r: Definition)
    ensures
        r@ == d@,
{
    Definition { brief: d.brief.clone(), example: copy_opt(&d.example) }
}

fn copy_meaning(m: &Meaning) -> (r: Meaning)
    ensures
        r@ == m@,
{
    let mut definitions: Vec<Definition> = Vec::new();
    let mut i: usize = 0;
    while i < m.definitions.len()
        invariant
            i <= m.definitions@.len(),
            definitions@.len() == i,
            forall|k: int| 0 <= k < i ==> #[trigger] definitions@[k]@ == m.definitions@[k]@,
        decreases m.definitions@.len() - i,
    {
        definitions.push(copy_definition(&m.definitions[i]));
        i += 1;
    }
    assert(defs_view(definitions@) =~= defs_view(m.definitions@));
    Meaning {
        part_of_speech: m.part_of_speech.clone(),
        definitions,
        synonyms: copy_strs(&m.synonyms),
        antonyms: copy_strs(&m.antonyms),
    }
}

fn copy_entry(e: &Entry) -> (r: Entry)
    ensures
        r@ == e@,
{
    let mut phonetics: Vec<Phonetic> = Vec::new();
    let mut i: usize = 0;
    while i < e.phonetics.len()
        invariant
            i <= e.phonetics@.len(),
            phonetics@.len() == i,
            forall|k: int| 0 <= k < i ==> #[trigger] phonetics@[k]@ == e.phonetics@[k]@,
        decreases e.phonetics@.len() - i,
    {
        phonetics.push(Phonetic { text: copy_opt(&e.phonetics[i].text) });
        i += 1;
    }
    assert(phonetics_view(phonetics@) =~= phonetics_view(e.phonetics@));
    let mut meanings: Vec<Meaning> = Vec::new();
    let mut j: usize = 0;
    while j < e.meanings.len()
        invariant
            j <= e.meanings@.len(),
            meanings@.len() == j,
            forall|k: int| 0 <= k < j ==> #[trigger] meanings@[k]@ == e.meanings@[k]@,
        decreases e.meanings@.len() - j,
    {
        meanings.push(copy_meaning(&e.meanings[j]));
        j += 1;
    }
    assert(meanings_view(meanings@) =~= meanings_view(e.meanings@));
    Entry { word: e.word.clone(), phonetics, meanings }
}

impl Cache {
    /// Where the last complete record of the store file ends.
    pub closed spec fn end_view(&self) -> nat {
        self.end as nat
    }

    /// Opens a store from the contents of its file (empty for a new store). The store
    /// holds the file's complete records; a torn final record is left out.
    pub fn open(contents: &Vec<u8>) -> (r: Result<Cache, CacheError>)
        ensures
            match r {
                Ok(c) => parse_records(contents@, 0) == Some((c@, c.end_view() as int))
                    && contents@.subrange(0, c.end_view() as int) == enc_records(c@),
                Err(e) => e is Corruption && parse_records(contents@, 0) is None,
            },
    {
        proof {
            if parse_records(contents@, 0) is Some {
                lemma_records_prefix(contents@);
            }
        }
        match decode_records(contents) {
            Some((records, end)) => Ok(Cache { records, end }),
            None => Err(CacheError::Corruption),
        }
    }

    /// Where the last complete record of the store file ends.
    pub fn valid_len(&self) -> (r: usize)
        ensures
            r == self.end_view(),
    {
        self.end
    }

    /// Every record whose word is exactly `word`, in the order they were appended.
    pub fn lookup_word(&self, word: &str) -> (r: Vec<Entry>)
        ensures
            entries_view(r@) == matching(self@, word@),
    {
        let key: String = word.to_owned();
        let mut r: Vec<Entry> = Vec::new();
        let mut i: usize = 0;
        assert(entries_view(r@) =~= matching(entries_view(self.records@.take(0)), word@));
        while i < self.records.len()
            invariant
                key@ == word@,
                i <= self.records@.len(),
                entries_view(r@) == matching(entries_view(self.records@.take(i as int)), word@),
            decreases self.records@.len() - i,
        {
            let ghost before = entries_view(r@);
            let ghost s = entries_view(self.records@.take(i + 1));
            assert(s.drop_last() =~= entries_view(self.records@.take(i as int)));
            assert(s.last() == self.records@[i as int]@);
            if self.records[i].word == key {
                r.push(copy_entry(&self.records[i]));
                assert(entries_view(r@) =~= before.push(self.records@[i as int]@));
            }
            i += 1;
        }
        assert(self.records@.take(i as int) =~= self.records@);
        r
    }

    /// Adds `entries` after the existing records, in the order given, keeping every
    /// one of them, and says what the store file needs for it.
    pub fn append(&mut self, entries: &Vec<Entry>) -> (r: Result<StoreWrite, CacheError>)
        ensures
            r is Err <==> old(self).end_view() + enc_records(entries_view(entries@)).len()
                > usize::MAX,
            match r {
                Ok(w) => final(self)@ == old(self)@ + entries_view(entries@) && w.offset
                    == old(self).end_view() && w.bytes@ == enc_records(entries_view(entries@))
                    && final(self).end_view() == old(self).end_view() + w.bytes@.len(),
                Err(e) => e is TooLarge && final(self)@ == old(self)@ && final(self).end_view()
                    == old(self).end_view(),
            },
    {
        let bytes = encode_records(entries);
        let end = match self.end.checked_add(bytes.len()) {
            Some(n) => n,
            None => return Err(CacheError::TooLarge),
        };
        let offset = self.end;
        let ghost prev = self.records@;
        let mut i: usize = 0;
        while i < entries.len()
            invariant
                i <= entries@.len(),
                entries_view(self.records@) == entries_view(prev) + entries_view(
                    entries@.take(i as int),
                ),
            decreases entries@.len() - i,
        {
            let ghost before = self.records@;
            self.records.push(copy_entry(&entries[i]));
            assert(entries_view(self.records@) =~= entries_view(before).push(entries@[i as int]@));
            assert(entries_view(entries@.take(i + 1)) =~= entries_view(entries@.take(i as int)).push(
                entries@[i as int]@,
            ));
            i += 1;
        }
        assert(entries@.take(i as int) =~= entries@);
        self.end = end;
        Ok(StoreWrite { offset, bytes })
    }

    /// Removes every record; the store file is to be cut to nothing.
    pub fn clean(&mut self)
        ensures
            final(self)@ == Seq::<EntryView>::empty(),
            final(self).end_view() == 0,
    {
        self.records = Vec::new();
        self.end = 0;
        assert(entries_view(self.records@) =~= Seq::<EntryView>::empty());
    }
}

/// Looking up a word in records appended after others finds its records among the
/// first ones, then its records among the appended ones: nothing merged, nothing
/// dropped, nothing reordered.
pub proof fn lemma_lookup_after_append(before: Seq<EntryView>, added: Seq<EntryView>, w: Seq<char>)
    ensures
        matching(before + added, w) == matching(before, w) + matching(added, w),
    decreases added.len(),
{
    if added.len() == 0 {
        assert(before + added =~= before);
        assert(matching(before, w) + seq![] =~= matching(before, w));
    } else {
        assert((before + added).drop_last() =~= before + added.drop_last());
        assert((before + added).last() == added.last());
        lemma_lookup_after_append(before, added.drop_last(), w);
        if added.last().word == w {
            assert(matching(before, w) + matching(added.drop_last(), w).push(added.last())
                =~= (matching(before, w) + matching(added.drop_last(), w)).push(added.last()));
        }
    }
}

/// After a miss for a word, appending one record for it makes the lookup return
/// exactly that record.
pub proof fn lemma_miss_then_hit(before: Seq<EntryView>, e: EntryView)
    requires
        matching(before, e.word) == Seq::<EntryView>::empty(),
    ensures
        matching(before + seq![e], e.word) == seq![e],
{
    lemma_lookup_after_append(before, seq![e], e.word);
    let s = seq![e];
    assert(s.drop_last() =~= Seq::<EntryView>::empty());
    assert(s.last() == e);
    assert(matching(s.drop_last(), e.word) == Seq::<EntryView>::empty());
    assert(matching(s, e.word) == Seq::<EntryView>::empty().push(e));
    assert(Seq::<EntryView>::empty().push(e) =~= s);
    assert(Seq::<EntryView>::empty() + seq![e] =~= seq![e]);
}

/// Records are looked up by their exact word: a record is found only under the word it
/// was stored with.
pub proof fn lemma_exact_key(rs: Seq<EntryView>, w: Seq<char>, i: int)
    requires
        0 <= i < matching(rs, w).len(),
    ensures
        matching(rs, w)[i].word == w,
    decreases rs.len(),
{
    if rs.len() > 0 {
        let m = matching(rs.drop_last(), w);
        if rs.last().word == w && i == m.len() {
        } else {
            lemma_exact_key(rs.drop_last(), w, i);
        }
    }
}

/// A wiped store finds nothing under any word.
pub proof fn lemma_clean_wipes(w: Seq<char>)
    ensures
        matching(Seq::<EntryView>::empty(), w) == Seq::<EntryView>::empty(),
{
}

} // verus!
