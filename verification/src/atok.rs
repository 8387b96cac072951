//! The ATOK dialect: one tab-separated record per canonical entry, with a
//! part-of-speech label derived from the entry kind.

use vstd::prelude::*;

use crate::dictionary::DictionaryEntry;
use crate::dictionary::DictionaryEntryKind;
use crate::dictionary::EmitDictionary;
use crate::dictionary::EntryModel;
use crate::dictionary::entry_views;

verus! {

/// An ATOK dictionary record: headword, reading and part of speech.
#[derive(Debug)]
pub struct AtokDictionaryEntry {
    pub entry: String,
    pub reading: String,
    pub speech: String,
}

/// Model of an `AtokDictionaryEntry`.
#[verifier::ext_equal]
pub ghost struct AtokModel {
    pub entry: Seq<char>,
    pub reading: Seq<char>,
    pub speech: Seq<char>,
}

impl View for AtokDictionaryEntry {
    type V = AtokModel;

    open spec fn view(&self) -> AtokModel {
        AtokModel { entry: self.entry@, reading: self.reading@, speech: self.speech@ }
    }
}

/// The models of a sequence of ATOK records.
pub open spec fn atok_views(s: Seq<AtokDictionaryEntry>) -> Seq<AtokModel> {
    Seq::new(s.len(), |i: int| s[i]@)
}

/// The part-of-speech label of a kind: person for the people, organization
/// for units, general for songs and chapters.
pub open spec fn atok_speech(k: DictionaryEntryKind) -> Seq<char> {
    match k {
        DictionaryEntryKind::Character => "固有人他"@,
        DictionaryEntryKind::VoiceActor => "固有人他"@,
        DictionaryEntryKind::Composer => "固有人他"@,
        DictionaryEntryKind::Unit => "固有組織"@,
        DictionaryEntryKind::Song => "固有一般"@,
        DictionaryEntryKind::Chapter(_, _) => "固有一般"@,
    }
}

/// The ATOK record of one canonical entry.
pub open spec fn atok_record(e: EntryModel) -> AtokModel {
    AtokModel { entry: e.entry, reading: e.reading, speech: atok_speech(e.kind) }
}

/// The ATOK records of the canonical entries, one each, in order.
pub open spec fn atok_records(entries: Seq<EntryModel>) -> Seq<AtokModel> {
    Seq::new(entries.len(), |i: int| atok_record(entries[i]))
}

/// The rendered line of an ATOK record: reading, headword and part of
/// speech, tab-separated.
pub open spec fn atok_line(m: AtokModel) -> Seq<char> {
    m.reading + "\t"@ + m.entry + "\t"@ + m.speech
}

/// The part-of-speech label of a kind, as a string.
fn atok_speech_exec(k: DictionaryEntryKind) -> (r: String)
    ensures
        r@ == atok_speech(k),
{
    match k {
        DictionaryEntryKind::Character => String::from_str("固有人他"),
        DictionaryEntryKind::VoiceActor => String::from_str("固有人他"),
        DictionaryEntryKind::Composer => String::from_str("固有人他"),
        DictionaryEntryKind::Unit => String::from_str("固有組織"),
        DictionaryEntryKind::Song => String::from_str("固有一般"),
        DictionaryEntryKind::Chapter(_, _) => String::from_str("固有一般"),
    }
}

impl EmitDictionary for AtokDictionaryEntry {
    /// The emitted records are exactly the ATOK records of the entries.
    open spec fn emit_model(entries: Seq<EntryModel>, out: Seq<AtokDictionaryEntry>) -> bool {
        atok_views(out) == atok_records(entries)
    }

    fn emit(entries: &Vec<DictionaryEntry>) -> (result: Vec<AtokDictionaryEntry>) {
        let ghost ms = entry_views(entries@);
        let mut result: Vec<AtokDictionaryEntry> = Vec::new();
        let mut i: usize = 0;
        assert(atok_views(result@) =~= atok_records(ms.take(0)));
        while i < entries.len()
            invariant
                i <= entries@.len(),
                ms == entry_views(entries@),
                result@.len() == i,
                atok_views(result@) == atok_records(ms.take(i as int)),
            decreases entries@.len() - i,
        {
            let e = &entries[i];
            result.push(AtokDictionaryEntry {
                entry: e.entry.clone(),
                reading: e.reading.clone(),
                speech: atok_speech_exec(e.kind),
            });
            proof {
                assert(result@[i as int]@ =~= atok_record(ms[i as int]));
                assert forall|k: int| 0 <= k < i implies atok_views(result@)[k] == atok_records(
                    ms.take(i + 1),
                )[k] by {
                    assert(atok_views(result@)[k] == atok_records(ms.take(i as int))[k]);
                }
                assert(atok_views(result@) =~= atok_records(ms.take(i + 1)));
            }
            i = i + 1;
        }
        assert(ms.take(ms.len() as int) =~= ms);
        result
    }
}

impl AtokDictionaryEntry {
    /// Renders the record as its dictionary line, without the line break.
    pub fn render(&self) -> (r: String)
        ensures
            r@ == atok_line(self@),
    {
        let mut r = self.reading.clone();
        r.append("\t");
        r.append(self.entry.as_str());
        r.append("\t");
        r.append(self.speech.as_str());
        assert(r@ =~= atok_line(self@));
        r
    }
}

} // verus!
